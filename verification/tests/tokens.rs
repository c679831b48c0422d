//! Tokens: what the source spells, and where each starts.

use tlatools::syntax::token::{Kw, Op, Tok, UserOp};
use tlatools::syntax::{lex, Stage};

fn kinds(src: &str) -> Vec<Tok> {
    lex(src).unwrap_or_else(|e| panic!("{}", e.to_string())).into_iter().map(|t| t.tok).collect()
}

fn places(src: &str) -> Vec<(u32, u32)> {
    lex(src).unwrap().into_iter().map(|t| (t.line, t.col)).collect()
}

#[test]
fn the_prose_around_a_module_is_not_read() {
    let src = "Some notes & $ stray text\n---- MODULE M ----\nx == 1\n====\nmore notes $ &";
    assert_eq!(
        kinds(src),
        vec![
            Tok::Separator,
            Tok::Kw(Kw::Module),
            Tok::Ident("M".to_string()),
            Tok::Separator,
            Tok::Ident("x".to_string()),
            Tok::DefEq,
            Tok::Num(1),
            Tok::ModuleEnd,
            Tok::Eof,
        ]
    );
}

#[test]
fn lines_are_counted_from_the_header_across_every_line_ending() {
    let src = "notes\r\n---- MODULE M ----\r\nx == 1\ry == 2\n====";
    let at = places(src);
    assert_eq!(at[0], (2, 1));
    assert_eq!(at[4], (3, 1));
    assert_eq!(at[6], (3, 6));
    assert_eq!(at[7], (4, 1));
    assert_eq!(at[10], (5, 1));
}

#[test]
fn a_byte_order_mark_is_skipped() {
    let with = kinds("\u{feff}---- MODULE M ----\n====");
    let without = kinds("---- MODULE M ----\n====");
    assert_eq!(with, without);
}

#[test]
fn comments_nest_and_line_comments_end_at_the_line() {
    assert_eq!(kinds("(* a (* b *) c *) x \\* y\nz"), vec![
        Tok::Ident("x".to_string()),
        Tok::Ident("z".to_string()),
        Tok::Eof,
    ]);
    let e = lex("(* never closed").unwrap_err();
    assert_eq!(e.stage, Stage::Lex);
}

#[test]
fn numbers_in_every_base_and_decimals() {
    assert_eq!(kinds("42 \\b101 \\o17 \\hFF 1.50 1aName"), vec![
        Tok::Num(42),
        Tok::Num(5),
        Tok::Num(15),
        Tok::Num(255),
        Tok::Decimal("1.50".to_string()),
        Tok::Ident("1aName".to_string()),
        Tok::Eof,
    ]);
    assert!(lex("99999999999999999999").is_err());
}

#[test]
fn the_longest_symbol_wins() {
    assert_eq!(kinds("a <=> b => c -+-> d ::= e"), vec![
        Tok::Ident("a".to_string()),
        Tok::Op(Op::Equiv),
        Tok::Ident("b".to_string()),
        Tok::Op(Op::Implies),
        Tok::Ident("c".to_string()),
        Tok::Op(Op::User(UserOp::PlusArrow)),
        Tok::Ident("d".to_string()),
        Tok::Op(Op::User(UserOp::ColonColonEq)),
        Tok::Ident("e".to_string()),
        Tok::Eof,
    ]);
}

#[test]
fn strings_read_their_escapes() {
    assert_eq!(kinds("\"a\\nb\\\"c\""), vec![Tok::Str("a\nb\"c".to_string()), Tok::Eof]);
    assert!(lex("\"open").is_err());
}

#[test]
fn fairness_splits_into_operator_and_subscript() {
    assert_eq!(kinds("WF_vars SF_x"), vec![
        Tok::Fair { strong: false, subscript: "vars".to_string() },
        Tok::Fair { strong: true, subscript: "x".to_string() },
        Tok::Eof,
    ]);
}
