//! Errors are results with a position, and no input makes the parser panic.

use tlatools::syntax::{parse_expression, parse_module};

#[test]
fn a_missing_header_is_an_error() {
    let err = parse_module("Init == x = 1").expect_err("no MODULE header");
    assert!(err.message.contains("MODULE"), "{}", err.to_string());
}

#[test]
fn errors_carry_a_position() {
    let err = parse_module("---- MODULE M ----\nFoo == [a |-> ]\n====================")
        .expect_err("empty record field");
    assert_eq!(err.line, 2);
}

/// Nesting has to be bounded, or a file of open brackets takes the process
/// down with it. Anything within the bound must still parse.
#[test]
fn nesting_is_bounded_rather_than_fatal() {
    let nested = |depth: usize| {
        format!(
            "---- MODULE M ----\nX == {}1{}\n====",
            "(".repeat(depth),
            ")".repeat(depth)
        )
    };
    for depth in [1, 8, 32, 60] {
        assert!(
            parse_module(&nested(depth)).is_ok(),
            "nesting {depth} deep is within the bound and should parse"
        );
    }
    for depth in [200, 5_000] {
        let err = parse_module(&nested(depth)).expect_err("beyond the bound");
        assert!(err.message.contains("nest"), "{}", err.to_string());
    }
}

/// Unbalanced and nonsensical input reaches a parser more often than valid
/// input does; each of these is an error or a module, never a panic.
#[test]
fn hostile_fragments_are_errors_and_not_panics() {
    for fragment in [
        "",
        " ",
        "\0",
        "----",
        "---- MODULE",
        "---- MODULE M",
        "---- MODULE M ----",
        "---- MODULE M ----\n",
        "====",
        "(*",
        "(* (* *)",
        "\"",
        "\\",
        "[",
        "[[[[[[[[",
        "{{{{{{{{",
        "<<<<<<<<",
        "((((((((",
        "---- MODULE M ----\nX == [\n====",
        "---- MODULE M ----\nX == {a : \n====",
        "---- MODULE M ----\nX == LET\n====",
        "---- MODULE M ----\nX == CHOOSE\n====",
        "---- MODULE M ----\nX == \\A\n====",
        "---- MODULE M ----\nX == [f EXCEPT !\n====",
        "---- MODULE M ----\nEXTENDS\n====",
        "---- MODULE M ----\nVARIABLE\n====",
        "---- MODULE M ----\nX == 99999999999999999999999999\n====",
        "---- MODULE M ----\n/\\ /\\ /\\ /\\\n====",
        "---- MODULE M ----\nX == a!\n====",
        "---- MODULE M ----\nX == WF_\n====",
    ] {
        let _ = parse_module(fragment);
        let _ = parse_expression(fragment);
    }
}

#[test]
fn an_overlong_literal_is_a_lex_error() {
    let err = parse_module("---- MODULE M ----\nX == 99999999999999999999999999\n====")
        .expect_err("out of range");
    assert_eq!(err.stage, tlatools::syntax::Stage::Lex);
    assert!(err.message.contains("out of range"));
    assert_eq!(err.to_string(), format!("lex error at {}:{}: {}", err.line, err.col, err.message));
}

#[test]
fn a_zero_nesting_limit_admits_no_expression() {
    assert!(tlatools::syntax::parse_expression_bounded("1", 0).is_err());
    assert!(tlatools::syntax::parse_expression_bounded("1", 1).is_ok());
}
