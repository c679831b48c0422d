//! Turn tokens into a syntax tree.

use vstd::prelude::*;
use crate::syntax::ast::{fold_left, Bound, Decl, Def, ExceptPath, Expr, LetInstance, Module, Param, QuantKind, Unit};
use crate::syntax::error::{Error, Stage};
use crate::syntax::lexer::{ends_with_eof, lex};
use crate::syntax::lexical::{line_col, module_start_of, source_tokens, without_bom};
use crate::syntax::token::{Kw, Op, Tok, TokV, Token};
use crate::text::{append, push_int, str_eq, text};

verus! {

/// How deeply expressions may nest before the parser gives up on them.
///
/// The parser descends recursively, so without a bound a file of enough open
/// brackets would exhaust the stack. The deepest expression in the public
/// corpus of specifications nests 24 levels, so this is several times
/// anything real; a caller with a smaller stack passes its own limit to
/// [`parse_module_bounded`].
pub const DEFAULT_NESTING_LIMIT: usize = 100;

/// Parse a whole module, with the default nesting limit. Where the module
/// grammar below (`g_module`) describes the tokens, the module read is the
/// one it describes, and an error where it fails.
pub fn parse_module(src: &str) -> (r: Result<Module, Error>)
    ensures
        r matches Err(e) ==> e.stage == Stage::Lex || e.stage == Stage::Parse,
        (r matches Err(e) && e.stage == Stage::Lex) <==> source_tokens(src@) is None,
        source_tokens(src@) matches Some(ts) ==> (bare_module_source(ts) ==> (r matches Ok(m)
            && ts[2].0 == TokV::Ident(m.name@) && m.extends.len() == 0 && m.units.len() == 0)),
        source_tokens(src@) is Some ==> exists|toks: Seq<Token>| #[trigger] lexed(src@, toks)
            && agrees_module(r, g_module(toks, 0, Seq::empty(), 0, DEFAULT_NESTING_LIMIT as int)),
{
    parse_module_bounded(src, DEFAULT_NESTING_LIMIT)
}

/// The module read is the one the grammar gives, where it gives one.
pub open spec fn agrees_module(r: Result<Module, Error>, g: Option<Result<((String, Seq<String>, Seq<spec_fn(Unit) -> bool>), int), ()>>) -> bool {
    &&& g matches Some(Ok((d, _))) ==> (r matches Ok(m) && module_is(m, d))
    &&& g matches Some(Err(_)) ==> r is Err
}

/// Parse a whole module with a nesting limit of your own. With a limit of
/// zero no expression can be read, so a module with a definition fails.
pub fn parse_module_bounded(src: &str, nesting_limit: usize) -> (r: Result<Module, Error>)
    ensures
        r matches Err(e) ==> e.stage == Stage::Lex || e.stage == Stage::Parse,
        (r matches Err(e) && e.stage == Stage::Lex) <==> source_tokens(src@) is None,
        source_tokens(src@) matches Some(ts) ==> (bare_module_source(ts) ==> (r matches Ok(m)
            && ts[2].0 == TokV::Ident(m.name@) && m.extends.len() == 0 && m.units.len() == 0)),
        source_tokens(src@) is Some ==> exists|toks: Seq<Token>| #[trigger] lexed(src@, toks)
            && agrees_module(r, g_module(toks, 0, Seq::empty(), 0, nesting_limit as int)),
{
    let toks = lex(src)?;
    let mut p = Parser { toks, pos: 0, depth: 0, nesting_limit, fences: Vec::new() };
    let ghost all = p.toks@;
    proof {
        assert(lexed(src@, all));
        assert(p.fences@ =~= Seq::<u32>::empty());
        if let Some(ts) = source_tokens(src@) {
            if bare_module_source(ts) {
                assert(p.toks@[0].tok@ == ts[0].0);
                assert(p.toks@[1].tok@ == ts[1].0);
                assert(p.toks@[2].tok@ == ts[2].0);
                assert(p.toks@[3].tok@ == ts[3].0);
                assert(p.toks@[4].tok@ == ts[4].0);
                assert(header_at(p.toks@, 0));
                assert(bare_module_at(p.toks@, 1));
            }
        }
    }
    p.module()
}

/// Parse a bare expression, with no surrounding module. Where the expression
/// grammar below (`g_expr`) describes the tokens, the tree read is the one it
/// describes, and an error where it fails or where tokens are left over.
pub fn parse_expression(src: &str) -> (r: Result<Expr, Error>)
    ensures
        r matches Err(e) ==> e.stage == Stage::Lex || e.stage == Stage::Parse,
        (r matches Err(e) && e.stage == Stage::Lex) <==> source_tokens(src@) is None,
        source_tokens(src@) matches Some(ts) ==> ts.len() == 2 && literal_v(ts[0].0)
            ==> (r matches Ok(e) && stands_for(ts[0].0, e)),
        source_tokens(src@) matches Some(ts) ==> ts.len() == 7 && if_then_else_v(ts)
            ==> (r matches Ok(e) && (e matches Expr::If { cond, then, otherwise } && stands_for(ts[1].0, *cond)
                && stands_for(ts[3].0, *then) && stands_for(ts[5].0, *otherwise))),
        source_tokens(src@) is Some ==> exists|toks: Seq<Token>| #[trigger] lexed(src@, toks)
            && agrees_parse(r, whole_expression(toks, DEFAULT_NESTING_LIMIT as int)),
{
    parse_expression_bounded(src, DEFAULT_NESTING_LIMIT)
}

/// `toks` are the tokens of `src` as the lexer hands them to the parser:
/// each token with the line and column it begins at.
pub open spec fn lexed(src: Seq<char>, toks: Seq<Token>) -> bool {
    &&& source_tokens(src) is Some
    &&& toks.len() == source_tokens(src)->Some_0.len()
    &&& forall|i: int| 0 <= i < toks.len() ==> (#[trigger] toks[i]).tok@ == source_tokens(src)->Some_0[i].0
        && (toks[i].line, toks[i].col) == line_col(without_bom(src), module_start_of(without_bom(src)).0,
            source_tokens(src)->Some_0[i].1, module_start_of(without_bom(src)).1)
}

/// The whole token sequence read as one expression, with no fence and
/// nothing open: its tree when the end of the input follows it, a failure
/// when anything else does or the grammar fails, and nothing said where the
/// grammar says nothing.
pub open spec fn whole_expression(toks: Seq<Token>, limit: int) -> Option<Result<Expr, ()>> {
    match g_expr(toks, 0, 0, Seq::empty(), 0, limit) {
        Some(Ok((e, j))) => if toks[j].tok is Eof { Some(Ok(e)) } else { Some(Err(())) },
        Some(Err(_)) => Some(Err(())),
        None => None,
    }
}

/// The parser's result is the one the grammar gives, where it gives one.
pub open spec fn agrees_parse(r: Result<Expr, Error>, g: Option<Result<Expr, ()>>) -> bool {
    &&& g matches Some(Ok(e)) ==> r == Ok::<Expr, Error>(e)
    &&& g matches Some(Err(_)) ==> r is Err
}

/// The tokens begin `IF`, a literal, `THEN`, a literal, `ELSE`, a literal.
pub open spec fn if_then_else_v(ts: Seq<(TokV, int)>) -> bool {
    &&& ts.len() >= 6
    &&& ts[0].0 == TokV::Kw(Kw::If)
    &&& literal_v(ts[1].0) && ts[2].0 == TokV::Kw(Kw::Then)
    &&& literal_v(ts[3].0) && ts[4].0 == TokV::Kw(Kw::Else)
    &&& literal_v(ts[5].0)
}

/// As [`parse_expression`], with a nesting limit of your own. A limit of
/// zero admits no expression at all.
pub fn parse_expression_bounded(src: &str, nesting_limit: usize) -> (r: Result<Expr, Error>)
    ensures
        r matches Err(e) ==> e.stage == Stage::Lex || e.stage == Stage::Parse,
        (r matches Err(e) && e.stage == Stage::Lex) <==> source_tokens(src@) is None,
        nesting_limit == 0 ==> r is Err,
        nesting_limit > 0 ==> (source_tokens(src@) matches Some(ts) ==> ts.len() == 2 && literal_v(ts[0].0)
            ==> (r matches Ok(e) && stands_for(ts[0].0, e))),
        nesting_limit > 1 ==> (source_tokens(src@) matches Some(ts) ==> ts.len() == 7 && if_then_else_v(ts)
            ==> (r matches Ok(e) && (e matches Expr::If { cond, then, otherwise } && stands_for(ts[1].0, *cond)
                && stands_for(ts[3].0, *then) && stands_for(ts[5].0, *otherwise)))),
        source_tokens(src@) is Some ==> exists|toks: Seq<Token>| #[trigger] lexed(src@, toks)
            && agrees_parse(r, whole_expression(toks, nesting_limit as int)),
{
    let toks = lex(src)?;
    let mut p = Parser { toks, pos: 0, depth: 0, nesting_limit, fences: Vec::new() };
    let ghost all = p.toks@;
    proof {
        assert(lexed(src@, all));
        assert(p.fences@ =~= Seq::<u32>::empty());
    }
    let ghost first = p.toks@[0].tok;
    let ghost ts = source_tokens(src@)->Some_0;
    let ghost branching = p.toks.len() == 7 && if_then_else_v(ts) && nesting_limit > 1;
    proof {
        if p.toks.len() == 2 {
            assert(p.toks@[1].tok is Eof);
        }
        if branching {
            assert(p.toks@[6].tok is Eof);
            assert(p.toks@[0].tok@ == ts[0].0 && p.toks@[2].tok@ == ts[2].0 && p.toks@[4].tok@ == ts[4].0);
            assert(p.toks@[1].tok@ == ts[1].0 && p.toks@[3].tok@ == ts[3].0 && p.toks@[5].tok@ == ts[5].0);
            assert(if_of_literals(p.toks@, 0));
        }
    }
    let e = p.expr(0)?;
    proof {
        if p.toks.len() == 2 && literal(first) {
            lemma_opens_stands_for(first, e);
        }
        if branching {
            assert(p.pos == 6);
            lemma_opens_stands_for(p.toks@[1].tok, *e->If_cond);
            lemma_opens_stands_for(p.toks@[3].tok, *e->If_then);
            lemma_opens_stands_for(p.toks@[5].tok, *e->If_otherwise);
        }
    }
    if matches!(p.peek(), Tok::Eof) {
        Ok(e)
    } else {
        let mut msg = text("unexpected ");
        append(&mut msg, describe(p.peek()).as_str());
        append(&mut msg, " after the expression");
        Err(p.err(msg))
    }
}

/// A short description of a token, for error messages.
fn describe(t: &Tok) -> (s: String)
    ensures
        s@ == described(*t),
{
    match t {
        Tok::Ident(name) => {
            let mut s = text("`");
            append(&mut s, name.as_str());
            append(&mut s, "`");
            s
        },
        Tok::Num(n) => {
            let mut s = text("the number ");
            push_int(&mut s, *n);
            s
        },
        Tok::Decimal(d) => {
            let mut s = text("the number ");
            append(&mut s, d.as_str());
            s
        },
        Tok::Str(_) => text("a string"),
        Tok::Kw(k) => quoted(k.text()),
        Tok::Op(o) => quoted(o.symbol()),
        Tok::Fair { strong, .. } => if *strong { text("`SF_`") } else { text("`WF_`") },
        Tok::ModuleEnd => text("`====`"),
        Tok::Separator => text("`----`"),
        Tok::DefEq => text("`==`"),
        Tok::LParen => text("`(`"),
        Tok::RParen => text("`)`"),
        Tok::LBrack => text("`[`"),
        Tok::RBrack => text("`]`"),
        Tok::LBrace => text("`{`"),
        Tok::RBrace => text("`}`"),
        Tok::LTup => text("`<<`"),
        Tok::RTup => text("`>>`"),
        Tok::Comma => text("`,`"),
        Tok::Colon => text("`:`"),
        Tok::ColonColon => text("`::`"),
        Tok::Dot => text("`.`"),
        Tok::Bang => text("`!`"),
        Tok::At => text("`@`"),
        Tok::Underscore => text("`_`"),
        Tok::Prime => text("`'`"),
        Tok::MapsTo => text("`|->`"),
        Tok::Arrow => text("`->`"),
        Tok::Gets => text("`<-`"),
        Tok::Eof => text("the end of the input"),
    }
}

fn quoted(s: &str) -> (r: String)
    ensures
        r@ == "`"@ + s@ + "`"@,
{
    let mut r = text("`");
    append(&mut r, s);
    append(&mut r, "`");
    r
}

fn tok_eq(a: &Tok, b: &Tok) -> (r: bool)
    ensures
        r == (a@ == b@),
{
    match (a, b) {
        (Tok::Ident(x), Tok::Ident(y)) => str_eq(x.as_str(), y.as_str()),
        (Tok::Str(x), Tok::Str(y)) => str_eq(x.as_str(), y.as_str()),
        (Tok::Decimal(x), Tok::Decimal(y)) => str_eq(x.as_str(), y.as_str()),
        (Tok::Fair { strong: s1, subscript: x }, Tok::Fair { strong: s2, subscript: y }) => *s1 == *s2 && str_eq(x.as_str(), y.as_str()),
        (Tok::Ident(_), _) | (Tok::Str(_), _) | (Tok::Decimal(_), _) | (Tok::Fair { .. }, _) => false,
        (Tok::Num(x), Tok::Num(y)) => *x == *y,
        (Tok::Kw(x), Tok::Kw(y)) => *x == *y,
        (Tok::Op(x), Tok::Op(y)) => *x == *y,
        (Tok::ModuleEnd, Tok::ModuleEnd) => true,
        (Tok::Separator, Tok::Separator) => true,
        (Tok::DefEq, Tok::DefEq) => true,
        (Tok::LParen, Tok::LParen) => true,
        (Tok::RParen, Tok::RParen) => true,
        (Tok::LBrack, Tok::LBrack) => true,
        (Tok::RBrack, Tok::RBrack) => true,
        (Tok::LBrace, Tok::LBrace) => true,
        (Tok::RBrace, Tok::RBrace) => true,
        (Tok::LTup, Tok::LTup) => true,
        (Tok::RTup, Tok::RTup) => true,
        (Tok::Comma, Tok::Comma) => true,
        (Tok::Colon, Tok::Colon) => true,
        (Tok::ColonColon, Tok::ColonColon) => true,
        (Tok::Dot, Tok::Dot) => true,
        (Tok::Bang, Tok::Bang) => true,
        (Tok::At, Tok::At) => true,
        (Tok::Underscore, Tok::Underscore) => true,
        (Tok::Prime, Tok::Prime) => true,
        (Tok::MapsTo, Tok::MapsTo) => true,
        (Tok::Arrow, Tok::Arrow) => true,
        (Tok::Gets, Tok::Gets) => true,
        (Tok::Eof, Tok::Eof) => true,
        _ => false,
    }
}

struct Parser {
    toks: Vec<Token>,
    pos: usize,
    depth: usize,
    nesting_limit: usize,
    /// Column fences from enclosing junction lists. A token at or left of the
    /// innermost fence ends the current conjunct; a bracketed context pushes 0
    /// to suspend the rule while inside it.
    fences: Vec<u32>,
}

/// What a parsing step keeps: the tokens, the limit and the depth are as
/// they were, and the position has not moved back.
spec fn kept(before: Parser, after: Parser) -> bool {
    &&& after.wf()
    &&& after.toks == before.toks
    &&& after.nesting_limit == before.nesting_limit
    &&& after.depth == before.depth
    &&& after.pos >= before.pos
}

/// What every error from the parser is: one found by the lexer or by the parser.
spec fn parse_error<T>(r: Result<T, Error>) -> bool {
    r matches Err(e) ==> e.stage == Stage::Parse
}

/// The token `k` places after position `pos`; past the end, the end.
pub open spec fn tok_ahead(toks: Seq<Token>, pos: int, k: int) -> Tok {
    if 0 <= pos + k < toks.len() { toks[pos + k].tok } else { Tok::Eof }
}

/// Does the header of a module, `----` and then `MODULE`, begin at `pos`?
spec fn header_at(toks: Seq<Token>, pos: int) -> bool {
    0 <= pos < toks.len() && toks[pos].tok is Separator && tok_ahead(toks, pos, 1) == Tok::Kw(Kw::Module)
}

/// A module with nothing in it begins at `pos`: `MODULE`, its name, the
/// rule under the header, and at once the end.
spec fn bare_module_at(toks: Seq<Token>, pos: int) -> bool {
    &&& 0 <= pos < toks.len()
    &&& toks[pos].tok == Tok::Kw(Kw::Module)
    &&& tok_ahead(toks, pos, 1) is Ident
    &&& tok_ahead(toks, pos, 2) is Separator
    &&& (tok_ahead(toks, pos, 3) is ModuleEnd || tok_ahead(toks, pos, 3) is Eof)
}

/// Source whose tokens are a header and an empty module.
pub open spec fn bare_module_source(ts: Seq<(TokV, int)>) -> bool {
    &&& ts.len() >= 5
    &&& ts[0].0 is Separator
    &&& ts[1].0 == TokV::Kw(Kw::Module)
    &&& ts[2].0 is Ident
    &&& ts[3].0 is Separator
    &&& (ts[4].0 is ModuleEnd || ts[4].0 is Eof)
}

/// Is the token at `pos` the first of its line?
pub open spec fn begins_line_at(toks: Seq<Token>, pos: int) -> bool {
    pos == 0 || toks[pos - 1].line < toks[pos].line
}

/// Does a proof begin at `pos`: `PROOF`, or a step `<1>` at the start of a
/// line?
pub open spec fn proof_at(toks: Seq<Token>, pos: int) -> bool {
    ||| toks[pos].tok == Tok::Kw(Kw::Proof)
    ||| begins_line_at(toks, pos) && toks[pos].tok == Tok::Op(Op::Lt) && tok_ahead(toks, pos, 2) == Tok::Op(Op::Gt)
}

/// Does the left-hand side of a definition begin at `pos`: a name followed
/// by `==`, `(` or `[`, or the shapes that define an infix, postfix or
/// prefix operator?
pub open spec fn definition_at(toks: Seq<Token>, pos: int) -> bool {
    if toks[pos].tok is Ident {
        match tok_ahead(toks, pos, 1) {
            Tok::DefEq | Tok::LParen | Tok::LBrack => true,
            Tok::Op(_) => tok_ahead(toks, pos, 2) is DefEq
                || (tok_ahead(toks, pos, 2) is Ident && tok_ahead(toks, pos, 3) is DefEq),
            _ => false,
        }
    } else {
        let after = if tok_ahead(toks, pos, 1) is Dot { 2int } else { 1int };
        (tok_ahead(toks, pos, after) is Ident || tok_ahead(toks, pos, after) is Underscore)
            && tok_ahead(toks, pos, after + 1) is DefEq
    }
}

/// Does a new unit of the module begin at `pos`? Only in the first column:
/// a declaration keyword, or the left-hand side of a definition.
pub open spec fn unit_start_at(toks: Seq<Token>, pos: int) -> bool {
    &&& toks[pos].col == 1
    &&& match toks[pos].tok {
        Tok::Kw(k) => k == Kw::Variable || k == Kw::Constant || k == Kw::Assume || k == Kw::Theorem
            || k == Kw::Local || k == Kw::Instance || k == Kw::Recursive || k == Kw::Extends,
        Tok::Ident(_) | Tok::Op(_) => definition_at(toks, pos),
        _ => false,
    }
}

/// Where skipping stops: the end of the input or of the module, a
/// separator, or the start of a unit.
spec fn stop_at(toks: Seq<Token>, pos: int) -> bool {
    toks[pos].tok is Eof || toks[pos].tok is ModuleEnd || toks[pos].tok is Separator || unit_start_at(toks, pos)
}

/// Skipping from `from` past its token ended at `to`, the first place after
/// it where skipping stops; at the end of the input nothing is skipped.
spec fn skipped(toks: Seq<Token>, from: int, to: int) -> bool {
    if toks[from].tok is Eof {
        to == from
    } else {
        &&& from < to < toks.len()
        &&& stop_at(toks, to)
        &&& forall|j: int| from < j < to ==> !#[trigger] stop_at(toks, j)
    }
}

/// Is the token at `pos` left of, or on, the innermost fence?
pub open spec fn fenced_at(toks: Seq<Token>, pos: int, fences: Seq<u32>) -> bool {
    fences.len() > 0 && toks[pos].col <= fences.last()
}

/// The description of a token that error messages use.
spec fn described(t: Tok) -> Seq<char> {
    match t {
        Tok::Ident(name) => "`"@ + name@ + "`"@,
        Tok::Num(n) => "the number "@ + crate::text::int_digits(n as int),
        Tok::Decimal(d) => "the number "@ + d@,
        Tok::Str(_) => "a string"@,
        Tok::Kw(k) => "`"@ + k.spec_text() + "`"@,
        Tok::Op(o) => "`"@ + o.spec_symbol() + "`"@,
        Tok::Fair { strong, .. } => if strong { "`SF_`"@ } else { "`WF_`"@ },
        Tok::ModuleEnd => "`====`"@,
        Tok::Separator => "`----`"@,
        Tok::DefEq => "`==`"@,
        Tok::LParen => "`(`"@,
        Tok::RParen => "`)`"@,
        Tok::LBrack => "`[`"@,
        Tok::RBrack => "`]`"@,
        Tok::LBrace => "`{`"@,
        Tok::RBrace => "`}`"@,
        Tok::LTup => "`<<`"@,
        Tok::RTup => "`>>`"@,
        Tok::Comma => "`,`"@,
        Tok::Colon => "`:`"@,
        Tok::ColonColon => "`::`"@,
        Tok::Dot => "`.`"@,
        Tok::Bang => "`!`"@,
        Tok::At => "`@`"@,
        Tok::Underscore => "`_`"@,
        Tok::Prime => "`'`"@,
        Tok::MapsTo => "`|->`"@,
        Tok::Arrow => "`->`"@,
        Tok::Gets => "`<-`"@,
        Tok::Eof => "the end of the input"@,
    }
}

/// The spelling under which an operator standing alone is named.
spec fn symbol_named(t: Tok) -> Option<Seq<char>> {
    match t {
        Tok::Op(op) => Some(op.spec_symbol()),
        Tok::Prime => Some("'"@),
        Tok::Kw(Kw::Enabled) => Some("ENABLED"@),
        Tok::Kw(Kw::Unchanged) => Some("UNCHANGED"@),
        Tok::Kw(Kw::Domain) => Some("DOMAIN"@),
        Tok::Kw(Kw::Subset) => Some("SUBSET"@),
        Tok::Kw(Kw::Union) => Some("UNION"@),
        _ => None,
    }
}

/// The expression is `head` with at least one postfix applied to it.
spec fn built_past(e: Expr, head: Expr) -> bool {
    match e {
        Expr::Prime(inner) => built_on(*inner, head),
        Expr::Unary(op, inner) => op.spec_is_postfix() && built_on(*inner, head),
        Expr::Field(inner, _) => built_on(*inner, head),
        Expr::FnApply(inner, _) => built_on(*inner, head),
        Expr::Apply(inner, _) => built_on(*inner, head),
        Expr::Qualified { .. } => true,
        _ => false,
    }
}

/// What a bracketed shape reveals about which construct it opens.
#[derive(Debug, Clone, Copy, PartialEq, Eq, Structural)]
enum Shape {
    MapsTo { bounded: bool },
    Colon,
    Arrow,
    Except,
    Closed,
}

/// The first delimiter from token `i` on, outside anything nested deeper
/// than `depth` brackets, that tells which construct an opened `[` is:
/// `|->` (after a `\in`, a function; otherwise a record), `:`, `->` or
/// `EXCEPT`. A closing bracket or the end of the input first means a plain
/// bracketed action.
spec fn shape_from(toks: Seq<Token>, i: int, depth: nat, saw_in: bool) -> Shape
    decreases toks.len() - i,
{
    if i < 0 || i >= toks.len() {
        Shape::Closed
    } else {
        match toks[i].tok {
            Tok::LParen | Tok::LBrack | Tok::LBrace | Tok::LTup => shape_from(toks, i + 1, depth + 1, saw_in),
            Tok::RParen | Tok::RBrack | Tok::RBrace | Tok::RTup => if depth == 0 {
                Shape::Closed
            } else {
                shape_from(toks, i + 1, (depth - 1) as nat, saw_in)
            },
            Tok::Eof => Shape::Closed,
            Tok::Op(Op::In) => shape_from(toks, i + 1, depth, saw_in || depth == 0),
            Tok::MapsTo => if depth == 0 { Shape::MapsTo { bounded: saw_in } } else { shape_from(toks, i + 1, depth, saw_in) },
            Tok::Colon => if depth == 0 { Shape::Colon } else { shape_from(toks, i + 1, depth, saw_in) },
            Tok::Arrow => if depth == 0 { Shape::Arrow } else { shape_from(toks, i + 1, depth, saw_in) },
            Tok::Kw(Kw::Except) => if depth == 0 { Shape::Except } else { shape_from(toks, i + 1, depth, saw_in) },
            _ => shape_from(toks, i + 1, depth, saw_in),
        }
    }
}

/// Can the token open the subscript of `[A]_v` or `<<A>>_v`: a `_`, or a
/// name that begins with one?
spec fn subscript_token(t: Tok) -> bool {
    ||| t is Underscore
    ||| (t matches Tok::Ident(name) && name@.len() > 0 && name@[0] == '_')
}

/// Does the bracket that closes the one opened before token `i` carry a
/// subscript, as in `[A]_v`? Only a `]` at depth `depth` below can close it.
spec fn subscript_after(toks: Seq<Token>, i: int, depth: nat) -> bool
    decreases toks.len() - i,
{
    if i < 0 || i >= toks.len() {
        false
    } else {
        match toks[i].tok {
            Tok::LParen | Tok::LBrack | Tok::LBrace | Tok::LTup => subscript_after(toks, i + 1, depth + 1),
            Tok::RParen | Tok::RBrack | Tok::RBrace | Tok::RTup => if depth == 0 {
                toks[i].tok is RBrack && i + 1 < toks.len() && subscript_token(toks[i + 1].tok)
            } else {
                subscript_after(toks, i + 1, (depth - 1) as nat)
            },
            Tok::Eof => false,
            _ => subscript_after(toks, i + 1, depth),
        }
    }
}

/// Which construct a `[` whose contents begin at token `i` opens.
spec fn bracket_shape(toks: Seq<Token>, i: int) -> Shape {
    if subscript_after(toks, i, 0) { Shape::Closed } else { shape_from(toks, i, 0, false) }
}

/// The expression is the construct that the shape announces: a function,
/// a record, a set of records or of functions, an `EXCEPT`, or `[A]_v`.
spec fn shaped(shape: Shape, e: Expr) -> bool {
    match shape {
        Shape::MapsTo { bounded } => if bounded { e is FnDef } else { e is Record },
        Shape::Colon => e is RecordSet,
        Shape::Arrow => e is FnSet,
        Shape::Except => e is Except,
        Shape::Closed => e is ActionBox,
    }
}

/// What an expression that begins with the token `t` is: the literal or the
/// name itself, or else the construct that the token opens. A parenthesis
/// may hold anything; a token that opens nothing begins no expression.
spec fn opens(t: Tok, e: Expr) -> bool {
    match t {
        Tok::Num(n) => e == Expr::Num(n),
        Tok::Decimal(d) => e == Expr::Decimal(d),
        Tok::Str(s) => e == Expr::Str(s),
        Tok::Kw(Kw::True) => e == Expr::Bool(true),
        Tok::Kw(Kw::False) => e == Expr::Bool(false),
        Tok::Ident(name) => e == Expr::Ident(name),
        Tok::At => e == Expr::At,
        Tok::LParen => true,
        Tok::LTup => e is Tuple || e is ActionAngle,
        Tok::LBrace => e is SetEnum || e is SetFilter || e is SetMap,
        Tok::LBrack => e is FnDef || e is Record || e is RecordSet || e is FnSet || e is Except || e is ActionBox,
        Tok::Kw(Kw::If) => e is If,
        Tok::Kw(Kw::Let) => e is Let,
        Tok::Kw(Kw::Choose) => e is Choose,
        Tok::Kw(Kw::Case) => e is Case,
        Tok::Kw(Kw::Lambda) => e is Lambda,
        Tok::Fair { strong, subscript } => e matches Expr::Fairness { strong: s, subscript: sub, .. } && s == strong
            && (subscript@.len() > 0 ==> *sub == Expr::Ident(subscript)),
        _ => false,
    }
}

/// The expression a literal token opens is the one its content stands for.
proof fn lemma_opens_stands_for(t: Tok, e: Expr)
    requires
        opens(t, e),
        literal(t),
    ensures
        stands_for(t@, e),
        literal_v(t@),
{
}

/// What a unit that begins with the token `t` (after any `LOCAL`) is:
/// declarations of variables, constants or recursive operators, an
/// assumption or a theorem (or, where its statement could not be read,
/// something passed over), an anonymous instance, or a definition; a name,
/// or a keyword used as one, may also begin a named instance. A definition is local exactly when
/// `LOCAL` came first.
spec fn unit_opened(t: Tok, local: bool, u: Unit) -> bool {
    &&& u matches Unit::Def(d) ==> d.local == local
    &&& match t {
        Tok::Kw(Kw::Variable) => u is Variables,
        Tok::Kw(Kw::Constant) => u is Constants,
        Tok::Kw(Kw::Recursive) => u is Recursive,
        Tok::Kw(Kw::Assume) => u is Assume || u is Opaque,
        Tok::Kw(Kw::Theorem) => u is Theorem || u is Opaque,
        Tok::Kw(Kw::Proof) => u is Opaque,
        Tok::Kw(Kw::Instance) => u matches Unit::Instance { name: None, .. },
        Tok::Ident(_) => u is Def || u matches Unit::Instance { name: Some(_), .. },
        Tok::Op(_) => u is Def,
        Tok::Kw(_) => u is Def || u matches Unit::Instance { name: Some(_), .. },
        _ => false,
    }
}

/// A literal or a name: a token that is a whole expression by itself.
pub open spec fn literal(t: Tok) -> bool {
    t is Num || t is Decimal || t is Str || t == Tok::Kw(Kw::True) || t == Tok::Kw(Kw::False) || t is Ident
        || t is At
}

/// Can the token continue the expression before it as a postfix: a prime,
/// a postfix operator, a field, an application, or a `!`?
pub open spec fn continues(t: Tok) -> bool {
    ||| t is Prime
    ||| (t matches Tok::Op(op) && op.spec_is_postfix())
    ||| t is Dot
    ||| t is LBrack
    ||| t is LParen
    ||| t is Bang
}

/// Does the token end an expression that a literal began: it continues it
/// neither as a postfix, nor as a label, nor as an infix operator?
spec fn stops(t: Tok) -> bool {
    &&& !continues(t)
    &&& !(t is ColonColon)
    &&& !(t matches Tok::Op(op) && op.spec_infix_prec() is Some)
}

/// From token `i` on: `IF`, a literal, `THEN`, a literal, `ELSE`, a literal,
/// and then a token that ends the expression.
spec fn if_of_literals(toks: Seq<Token>, i: int) -> bool {
    &&& 0 <= i && i + 6 < toks.len()
    &&& toks[i].tok == Tok::Kw(Kw::If)
    &&& literal(toks[i + 1].tok) && toks[i + 2].tok == Tok::Kw(Kw::Then)
    &&& literal(toks[i + 3].tok) && toks[i + 4].tok == Tok::Kw(Kw::Else)
    &&& literal(toks[i + 5].tok) && stops(toks[i + 6].tok)
}

/// A form the parser reads whole from token `i`, the token after it ending
/// the expression: a literal, or, with `room` left for nesting, `IF` with
/// three literal parts.
spec fn simple_at(toks: Seq<Token>, i: int, room: int) -> bool {
    ||| literal(toks[i].tok) && stops(toks[i + 1].tok)
    ||| if_of_literals(toks, i) && room > 0
}

/// The tree of that form: the literal itself, or the `IF` of the three.
spec fn simple_tree(toks: Seq<Token>, i: int, e: Expr) -> bool {
    if literal(toks[i].tok) {
        opens(toks[i].tok, e)
    } else {
        e matches Expr::If { cond, then, otherwise } && opens(toks[i + 1].tok, *cond)
            && opens(toks[i + 3].tok, *then) && opens(toks[i + 5].tok, *otherwise)
    }
}

/// Where that form ends.
spec fn simple_end(toks: Seq<Token>, i: int) -> int {
    if literal(toks[i].tok) { i + 1 } else { i + 6 }
}

/// The tree a literal or a name token stands for.
pub open spec fn literal_expr(t: Tok) -> Expr {
    match t {
        Tok::Num(n) => Expr::Num(n),
        Tok::Decimal(d) => Expr::Decimal(d),
        Tok::Str(s) => Expr::Str(s),
        Tok::Kw(Kw::True) => Expr::Bool(true),
        Tok::Kw(Kw::False) => Expr::Bool(false),
        Tok::Ident(name) => Expr::Ident(name),
        _ => Expr::At,
    }
}

// The expression grammar, over the tokens as the lexer gives them. Each
// function reads from token `i`, inside the column fences `fences`, with
// `depth` expressions already open out of at most `limit`. `Some(Ok((e, j)))`
// is the tree read and the position after it; `Some(Err(()))` a failure:
// the nesting limit is reached, an expected keyword or bracket is missing, or
// the input ends; `None` a form this grammar does not describe, where
// nothing is claimed. It describes literals and names, parentheses,
// `IF`/`THEN`/`ELSE`, the prefix operators `~`, `[]`, `<>`, `-`, `DOMAIN`,
// `SUBSET`, `UNION`, `ENABLED` and `UNCHANGED`, and every infix operator
// with its precedence and associativity.

/// An expression whose infix operators bind at least as tightly as `min`.
pub open spec fn g_expr(toks: Seq<Token>, i: int, min: u8, fences: Seq<u32>, depth: int, limit: int)
    -> Option<Result<(Expr, int), ()>>
    decreases limit - depth, toks.len() - i, 5int,
{
    if !(0 <= i < toks.len() && 0 <= depth <= limit) {
        None
    } else if depth == limit {
        Some(Err(()))
    } else {
        g_inner(toks, i, min, fences, depth + 1, limit)
    }
}

/// An operand, then infix operators and their right-hand sides for as long
/// as they bind at least as tightly as `min`.
pub open spec fn g_inner(toks: Seq<Token>, i: int, min: u8, fences: Seq<u32>, depth: int, limit: int)
    -> Option<Result<(Expr, int), ()>>
    decreases limit - depth, toks.len() - i, 4int,
{
    if !(0 <= i < toks.len() && 0 <= depth <= limit) {
        None
    } else {
        let first = if toks[i].tok == Tok::Op(Op::And) {
            g_junction(toks, i, Op::And, fences, depth, limit)
        } else if toks[i].tok == Tok::Op(Op::Or) {
            g_junction(toks, i, Op::Or, fences, depth, limit)
        } else {
            g_unit(toks, i, fences, depth, limit)
        };
        match first {
            Some(Ok((lhs, j))) => if i < j < toks.len() {
                g_infix(toks, j, lhs, min, fences, depth, limit)
            } else {
                None
            },
            other => other,
        }
    }
}

/// A bulleted list: each item a `/\` (or `\/`) in the column of the first
/// and the expression after it, read inside a fence at that column; the
/// items joined by the operator, grouped to the left.
pub open spec fn g_junction(toks: Seq<Token>, i: int, op: Op, fences: Seq<u32>, depth: int, limit: int)
    -> Option<Result<(Expr, int), ()>>
    decreases limit - depth, toks.len() - i, 3int,
{
    if !(0 <= i < toks.len() && 0 <= depth <= limit) {
        None
    } else {
        match g_items(toks, i, op, toks[i].col, fences.push(toks[i].col), depth, limit, Seq::empty()) {
            Some(Ok((items, j))) => if items.len() == 0 { Some(Err(())) } else { Some(Ok((fold_left(items, op), j))) },
            Some(Err(_)) => Some(Err(())),
            None => None,
        }
    }
}

/// The items of a bulleted list from token `q` on, after the items `done`.
pub open spec fn g_items(toks: Seq<Token>, q: int, op: Op, col: u32, fences: Seq<u32>, depth: int, limit: int,
    done: Seq<Expr>) -> Option<Result<(Seq<Expr>, int), ()>>
    decreases limit - depth, toks.len() - q, 2int,
{
    if !(0 <= q < toks.len() && 0 <= depth <= limit) {
        None
    } else if toks[q].tok@ == Tok::Op(op)@ && toks[q].col == col {
        match g_expr(toks, q + 1, 0, fences, depth, limit) {
            Some(Ok((e, j))) => if q < j < toks.len() {
                g_items(toks, j, op, col, fences, depth, limit, done.push(e))
            } else {
                None
            },
            Some(Err(_)) => Some(Err(())),
            None => None,
        }
    } else {
        Some(Ok((done, q)))
    }
}

/// After the tree `lhs`, at token `q`: the infix operators that follow.
/// Reading stops at a fence, at the start of a unit or of a proof, and at
/// anything but an infix operator binding at least as tightly as `min`; an
/// operator binds its right-hand side one level tighter, or at its own
/// level where it associates to the right.
pub open spec fn g_infix(toks: Seq<Token>, q: int, lhs: Expr, min: u8, fences: Seq<u32>, depth: int, limit: int)
    -> Option<Result<(Expr, int), ()>>
    decreases limit - depth, toks.len() - q, 3int,
{
    if !(0 <= q < toks.len() && 0 <= depth <= limit) {
        None
    } else if fenced_at(toks, q, fences) || unit_start_at(toks, q) || proof_at(toks, q) {
        Some(Ok((lhs, q)))
    } else {
        match toks[q].tok {
            Tok::Op(op) => match op.spec_infix_prec() {
                Some(p) => if p < min {
                    Some(Ok((lhs, q)))
                } else {
                    let next: u8 = if op.spec_is_right_assoc() { p } else { (p + 1) as u8 };
                    match g_expr(toks, q + 1, next, fences, depth, limit) {
                        Some(Ok((rhs, j))) => if q < j < toks.len() {
                            g_infix(toks, j, Expr::Binary(op, Box::new(lhs), Box::new(rhs)), min, fences, depth, limit)
                        } else {
                            None
                        },
                        other => other,
                    }
                },
                None => Some(Ok((lhs, q))),
            },
            _ => Some(Ok((lhs, q))),
        }
    }
}

/// An operand: a prefix operator and what it applies to, or an operand
/// with no postfix after it.
pub open spec fn g_unit(toks: Seq<Token>, i: int, fences: Seq<u32>, depth: int, limit: int)
    -> Option<Result<(Expr, int), ()>>
    decreases limit - depth, toks.len() - i, 2int,
{
    if !(0 <= i < toks.len() && 0 <= depth <= limit) {
        None
    } else if toks[i].tok is Ident && (tok_ahead(toks, i, 1) is ColonColon || tok_ahead(toks, i, 1) is LParen) {
        None
    } else {
        match toks[i].tok {
            Tok::Op(o) => if o == Op::Forall || o == Op::Exists || o == Op::TemporalForall || o == Op::TemporalExists {
                None
            } else if o == Op::Not || o == Op::Always || o == Op::Eventually || o == Op::Minus {
                g_prefixed(toks, i, o, fences, depth, limit)
            } else {
                g_post(toks, i, fences, depth, limit)
            },
            Tok::Kw(Kw::Domain) => g_prefixed(toks, i, Op::Domain, fences, depth, limit),
            Tok::Kw(Kw::Subset) => g_prefixed(toks, i, Op::Subset, fences, depth, limit),
            Tok::Kw(Kw::Union) => g_prefixed(toks, i, Op::BigUnion, fences, depth, limit),
            Tok::Kw(Kw::Enabled) => g_prefixed(toks, i, Op::Enabled, fences, depth, limit),
            Tok::Kw(Kw::Unchanged) => g_prefixed(toks, i, Op::Unchanged, fences, depth, limit),
            _ => g_post(toks, i, fences, depth, limit),
        }
    }
}

/// The prefix operator `op` at token `i` and its operand.
pub open spec fn g_prefixed(toks: Seq<Token>, i: int, op: Op, fences: Seq<u32>, depth: int, limit: int)
    -> Option<Result<(Expr, int), ()>>
    decreases limit - depth, toks.len() - i, 1int,
{
    if !(0 <= i < toks.len() && 0 <= depth <= limit) {
        None
    } else {
        match g_expr(toks, i + 1, op.spec_prefix_prec(), fences, depth, limit) {
            Some(Ok((x, j))) => Some(Ok((Expr::Unary(op, Box::new(x)), j))),
            other => other,
        }
    }
}

/// A primary expression and the primes and postfix operators after it.
pub open spec fn g_post(toks: Seq<Token>, i: int, fences: Seq<u32>, depth: int, limit: int)
    -> Option<Result<(Expr, int), ()>>
    decreases limit - depth, toks.len() - i, 1int,
{
    if !(0 <= i < toks.len() && 0 <= depth <= limit) {
        None
    } else {
        match g_primary(toks, i, fences, depth, limit) {
            Some(Ok((h, j))) => match g_after(toks, j, h, fences) {
                Some((e, k)) => Some(Ok((e, k))),
                None => None,
            },
            other => other,
        }
    }
}

/// After the tree `head`, at token `j`: primes and postfix operators, each
/// applied to what precedes it, until a fence, the start of a unit, or a
/// token that continues nothing. A field, an application or an instance
/// reference is a form this grammar says nothing of.
pub open spec fn g_after(toks: Seq<Token>, j: int, head: Expr, fences: Seq<u32>) -> Option<(Expr, int)>
    decreases toks.len() - j,
{
    if !(0 <= j < toks.len()) {
        None
    } else if fenced_at(toks, j, fences) || unit_start_at(toks, j) {
        Some((head, j))
    } else {
        match toks[j].tok {
            Tok::Prime => g_after(toks, j + 1, Expr::Prime(Box::new(head)), fences),
            Tok::Op(op) => if op.spec_is_postfix() {
                g_after(toks, j + 1, Expr::Unary(op, Box::new(head)), fences)
            } else {
                Some((head, j))
            },
            Tok::Dot | Tok::LBrack | Tok::Bang => None,
            Tok::LParen => if head is Ident { None } else { Some((head, j)) },
            _ => Some((head, j)),
        }
    }
}

/// A literal or a name; an expression in parentheses, inside which no
/// column fence applies; or `IF c THEN a ELSE b`.
pub open spec fn g_primary(toks: Seq<Token>, i: int, fences: Seq<u32>, depth: int, limit: int)
    -> Option<Result<(Expr, int), ()>>
    decreases limit - depth, toks.len() - i, 0int,
{
    if !(0 <= i < toks.len() && 0 <= depth <= limit) {
        None
    } else if toks[i].tok is Eof {
        Some(Err(()))
    } else if literal(toks[i].tok) {
        Some(Ok((literal_expr(toks[i].tok), i + 1)))
    } else if toks[i].tok is LParen {
        match g_expr(toks, i + 1, 0, fences.push(0), depth, limit) {
            Some(Ok((e, j))) => if toks[j].tok@ == TokV::RParen { Some(Ok((e, j + 1))) } else { Some(Err(())) },
            other => other,
        }
    } else if toks[i].tok == Tok::Kw(Kw::If) {
        match g_expr(toks, i + 1, 0, fences, depth, limit) {
            Some(Ok((c, j1))) => if !(i < j1 < toks.len()) {
                None
            } else if toks[j1].tok@ != TokV::Kw(Kw::Then) {
                Some(Err(()))
            } else {
                match g_expr(toks, j1 + 1, 0, fences, depth, limit) {
                    Some(Ok((a, j2))) => if !(j1 < j2 < toks.len()) {
                        None
                    } else if toks[j2].tok@ != TokV::Kw(Kw::Else) {
                        Some(Err(()))
                    } else {
                        match g_expr(toks, j2 + 1, 0, fences, depth, limit) {
                            Some(Ok((b, j3))) => Some(Ok((Expr::If { cond: Box::new(c), then: Box::new(a), otherwise: Box::new(b) }, j3))),
                            other => other,
                        }
                    },
                    other => other,
                }
            },
            other => other,
        }
    } else {
        None
    }
}

// The module grammar. A unit is described by a predicate that holds of
// exactly the unit read: its kind, its names and, for a definition, its body.
// It describes units that declare single variables or constants and
// definitions `Name == e` without parameters, and `EXTENDS` of a single
// module; anything else is a form it says nothing of.

/// The unit at token `i`, and where it ends.
pub open spec fn g_item(toks: Seq<Token>, i: int, fences: Seq<u32>, depth: int, limit: int)
    -> Option<Result<(spec_fn(Unit) -> bool, int), ()>>
{
    if !(0 <= i < toks.len() && 0 <= depth <= limit) || proof_at(toks, i) {
        None
    } else {
        match toks[i].tok {
            Tok::Ident(n) => if tok_ahead(toks, i, 1)@ == TokV::DefEq && tok_ahead(toks, i, 2) != Tok::Kw(Kw::Instance) {
                match g_expr(toks, i + 2, 0, fences, depth, limit) {
                    Some(Ok((e, j))) => Some(Ok((|u: Unit| u matches Unit::Def(d) && d.name == n && d.params@.len() == 0
                        && d.body == e && !d.local, j))),
                    Some(Err(_)) => Some(Err(())),
                    None => None,
                }
            } else if tok_ahead(toks, i, 1) is LParen {
                match g_params(toks, i + 2, Seq::empty()) {
                    Some((ps, k)) => if 0 <= k < toks.len() && toks[k].tok@ == TokV::DefEq && tok_ahead(toks, k, 1) != Tok::Kw(Kw::Instance) {
                        match g_expr(toks, k + 1, 0, fences, depth, limit) {
                            Some(Ok((e, j))) => Some(Ok((|u: Unit| u matches Unit::Def(d) && d.name == n
                                && plain_params(d.params@, ps) && d.body == e && !d.local, j))),
                            Some(Err(_)) => Some(Err(())),
                            None => None,
                        }
                    } else {
                        None
                    },
                    None => None,
                }
            } else {
                None
            },
            Tok::Kw(Kw::Variable) => match tok_ahead(toks, i, 1) {
                Tok::Ident(n) => match g_more_names(toks, i + 2, seq![n]) {
                    Some((ns, j)) => Some(Ok((|u: Unit| u matches Unit::Variables(v) && v@ == ns, j))),
                    None => None,
                },
                _ => None,
            },
            Tok::Kw(Kw::Constant) => match tok_ahead(toks, i, 1) {
                Tok::Ident(n) => if tok_ahead(toks, i, 2) is LParen {
                    None
                } else {
                    match g_more_decls(toks, i + 2, seq![n]) {
                        Some((ns, j)) => Some(Ok((|u: Unit| u matches Unit::Constants(v) && plain_decls(v@, ns), j))),
                        None => None,
                    }
                },
                _ => None,
            },
            _ => None,
        }
    }
}

/// The units of a module body from token `i` on, after the modules `ext`
/// already named as extended and the units `units` already read: separators
/// are passed over, and the body ends at `====` or at the end of the input.
pub open spec fn g_body(toks: Seq<Token>, i: int, fences: Seq<u32>, depth: int, limit: int, ext: Seq<String>,
    units: Seq<spec_fn(Unit) -> bool>) -> Option<Result<(Seq<String>, Seq<spec_fn(Unit) -> bool>, int), ()>>
    decreases toks.len() - i,
{
    if !(0 <= i < toks.len()) {
        None
    } else {
        match toks[i].tok {
            Tok::Separator => g_body(toks, i + 1, fences, depth, limit, ext, units),
            Tok::ModuleEnd | Tok::Eof => Some(Ok((ext, units, i))),
            Tok::Kw(Kw::Module) => None,
            Tok::Kw(Kw::Extends) => match tok_ahead(toks, i, 1) {
                Tok::Ident(n) => match g_more_names(toks, i + 2, ext.push(n)) {
                    Some((ext2, j)) => if i < j < toks.len() {
                        g_body(toks, j, fences, depth, limit, ext2, units)
                    } else {
                        None
                    },
                    None => None,
                },
                _ => Some(Err(())),
            },
            _ => match g_item(toks, i, fences, depth, limit) {
                Some(Ok((u, j))) => if i < j < toks.len() {
                    g_body(toks, j, fences, depth, limit, ext, units.push(u))
                } else {
                    None
                },
                Some(Err(_)) => Some(Err(())),
                None => None,
            },
        }
    }
}

/// A module from its `MODULE` keyword at token `i`: its name, the rule under
/// the header, and its body; described by its name, the modules it extends
/// and a predicate for each of its units.
pub open spec fn g_module_body(toks: Seq<Token>, i: int, fences: Seq<u32>, depth: int, limit: int)
    -> Option<Result<((String, Seq<String>, Seq<spec_fn(Unit) -> bool>), int), ()>>
{
    if !(0 <= i < toks.len()) {
        None
    } else if toks[i].tok@ != TokV::Kw(Kw::Module) {
        Some(Err(()))
    } else {
        match tok_ahead(toks, i, 1) {
            Tok::Ident(name) => if tok_ahead(toks, i, 2)@ != TokV::Separator {
                Some(Err(()))
            } else {
                match g_body(toks, i + 3, fences, depth, limit, Seq::empty(), Seq::empty()) {
                    Some(Ok((ext, units, j))) => Some(Ok(((name, ext, units), j))),
                    Some(Err(_)) => Some(Err(())),
                    None => None,
                }
            },
            _ => Some(Err(())),
        }
    }
}

/// The first module in the tokens from `i` on: text before its header,
/// `----` and `MODULE`, is passed over, and with no header at all there is
/// no module.
pub open spec fn g_module(toks: Seq<Token>, i: int, fences: Seq<u32>, depth: int, limit: int)
    -> Option<Result<((String, Seq<String>, Seq<spec_fn(Unit) -> bool>), int), ()>>
    decreases toks.len() - i,
{
    if !(0 <= i < toks.len()) {
        None
    } else if toks[i].tok is Separator && tok_ahead(toks, i, 1) == Tok::Kw(Kw::Module) {
        g_module_body(toks, i + 1, fences, depth, limit)
    } else if toks[i].tok is Eof {
        Some(Err(()))
    } else {
        g_module(toks, i + 1, fences, depth, limit)
    }
}

/// The module has the name, the extended modules and the units described.
pub open spec fn module_is(m: Module, d: (String, Seq<String>, Seq<spec_fn(Unit) -> bool>)) -> bool {
    &&& m.name == d.0
    &&& m.extends@ == d.1
    &&& m.units@.len() == d.2.len()
    &&& forall|k: int| 0 <= k < d.2.len() ==> #[trigger] (d.2[k])(m.units@[k])
}

/// Every unit the predicates describe is a definition or a declaration of
/// variables or constants.
pub open spec fn plain_units(units: Seq<spec_fn(Unit) -> bool>) -> bool {
    forall|k: int, u: Unit| 0 <= k < units.len() && #[trigger] (units[k])(u) ==> u is Def || u is Variables || u is Constants
}

proof fn lemma_body_plain(toks: Seq<Token>, i: int, fences: Seq<u32>, depth: int, limit: int, ext: Seq<String>,
    units: Seq<spec_fn(Unit) -> bool>)
    requires
        plain_units(units),
    ensures
        g_body(toks, i, fences, depth, limit, ext, units) matches Some(Ok((_, us, _))) ==> plain_units(us),
    decreases toks.len() - i,
{
    if 0 <= i < toks.len() {
        match toks[i].tok {
            Tok::Separator => lemma_body_plain(toks, i + 1, fences, depth, limit, ext, units),
            Tok::ModuleEnd | Tok::Eof => {},
            Tok::Kw(Kw::Module) => {},
            Tok::Kw(Kw::Extends) => {
                if let Tok::Ident(n) = tok_ahead(toks, i, 1) {
                    if let Some((ext2, j)) = g_more_names(toks, i + 2, ext.push(n)) {
                        if i < j < toks.len() {
                            lemma_body_plain(toks, j, fences, depth, limit, ext2, units);
                        }
                    }
                }
            },
            _ => {
                if let Some(Ok((u, j))) = g_item(toks, i, fences, depth, limit) {
                    if i < j < toks.len() {
                        let us = units.push(u);
                        assert forall|k: int, x: Unit| 0 <= k < us.len() && #[trigger] (us[k])(x)
                            implies x is Def || x is Variables || x is Constants by {
                            if k < units.len() {
                                assert(us[k] == units[k]);
                            }
                        }
                        lemma_body_plain(toks, j, fences, depth, limit, ext, us);
                    }
                }
            },
        }
    }
}

/// A module the grammar reads holds only definitions and declarations.
pub proof fn lemma_module_plain(toks: Seq<Token>, i: int, fences: Seq<u32>, depth: int, limit: int)
    ensures
        g_module(toks, i, fences, depth, limit) matches Some(Ok((d, _))) ==> plain_units(d.2),
    decreases toks.len() - i,
{
    if 0 <= i < toks.len() {
        if toks[i].tok is Separator && tok_ahead(toks, i, 1) == Tok::Kw(Kw::Module) {
            lemma_body_plain(toks, i + 4, fences, depth, limit, Seq::empty(), Seq::empty());
        } else if !(toks[i].tok is Eof) {
            lemma_module_plain(toks, i + 1, fences, depth, limit);
        }
    }
}

/// A module function's result is what the grammar says, where it says
/// anything.
spec fn module_follows(g: Option<Result<((String, Seq<String>, Seq<spec_fn(Unit) -> bool>), int), ()>>, r: Result<Module, Error>, before: Parser, after: Parser) -> bool {
    &&& g matches Some(Ok((d, j))) ==> (r matches Ok(m) && module_is(m, d)) && after.pos == j && after.fences@ == before.fences@
    &&& g matches Some(Err(_)) ==> r is Err
}

/// After the names `done`, at token `p`: more names, each after a comma,
/// until something other than a comma follows a name.
pub open spec fn g_more_names(toks: Seq<Token>, p: int, done: Seq<String>) -> Option<(Seq<String>, int)>
    decreases toks.len() - p,
{
    if !(0 <= p < toks.len()) {
        None
    } else if toks[p].tok is Comma {
        match tok_ahead(toks, p, 1) {
            Tok::Ident(n) => if p + 2 < toks.len() { g_more_names(toks, p + 2, done.push(n)) } else { None },
            _ => None,
        }
    } else {
        Some((done, p))
    }
}

/// After the constants `done`, at token `p`: more plain constants, each a
/// name after a comma with no arity after it.
pub open spec fn g_more_decls(toks: Seq<Token>, p: int, done: Seq<String>) -> Option<(Seq<String>, int)>
    decreases toks.len() - p,
{
    if !(0 <= p < toks.len()) {
        None
    } else if toks[p].tok is Comma {
        match tok_ahead(toks, p, 1) {
            Tok::Ident(n) => if p + 2 < toks.len() && !(tok_ahead(toks, p, 2) is LParen) {
                g_more_decls(toks, p + 2, done.push(n))
            } else {
                None
            },
            _ => None,
        }
    } else {
        Some((done, p))
    }
}

/// The declarations are the plain constants `names`, in order.
pub open spec fn plain_decls(decls: Seq<Decl>, names: Seq<String>) -> bool {
    &&& decls.len() == names.len()
    &&& forall|m: int| 0 <= m < names.len() ==> #[trigger] decls[m] == Decl { name: names[m], arity: 0 }
}

/// Plain parameter names, separated by commas and closed by `)`, from token
/// `q` on, after the names `done`: the names and the position after the `)`.
pub open spec fn g_params(toks: Seq<Token>, q: int, done: Seq<String>) -> Option<(Seq<String>, int)>
    decreases toks.len() - q,
{
    if !(0 <= q < toks.len()) {
        None
    } else {
        match toks[q].tok {
            Tok::Ident(n) => if tok_ahead(toks, q, 1) is Comma {
                if q + 2 < toks.len() { g_params(toks, q + 2, done.push(n)) } else { None }
            } else if tok_ahead(toks, q, 1) is RParen {
                Some((done.push(n), q + 2))
            } else {
                None
            },
            _ => None,
        }
    }
}

/// The parameters are the plain names `names`, in order.
pub open spec fn plain_params(params: Seq<Param>, names: Seq<String>) -> bool {
    &&& params.len() == names.len()
    &&& forall|m: int| 0 <= m < names.len() ==> #[trigger] params[m] == Param { name: names[m], arity: 0 }
}

/// A unit function's result is what the grammar says, where it says
/// anything.
spec fn unit_follows(g: Option<Result<(spec_fn(Unit) -> bool, int), ()>>, r: Result<Unit, Error>, before: Parser, after: Parser) -> bool {
    &&& g matches Some(Ok((unit, j))) ==> (r matches Ok(u) && unit(u)) && after.pos == j && after.fences@ == before.fences@
    &&& g matches Some(Err(_)) ==> r is Err
}

/// A parse function's result is what the grammar says, where it says
/// anything: the tree, the tokens it read and the fences untouched; or an
/// error.
spec fn follows(g: Option<Result<(Expr, int), ()>>, r: Result<Expr, Error>, before: Parser, after: Parser) -> bool {
    &&& g matches Some(Ok((e, j))) ==> r == Ok::<Expr, Error>(e) && after.pos == j && after.fences@ == before.fences@
    &&& g matches Some(Err(_)) ==> r is Err
}

/// A literal or a name, as a token's content.
pub open spec fn literal_v(t: TokV) -> bool {
    t is Num || t is Decimal || t is Str || t == TokV::Kw(Kw::True) || t == TokV::Kw(Kw::False) || t is Ident
        || t is At
}

/// The expression is the literal or name that the token is.
pub open spec fn stands_for(t: TokV, e: Expr) -> bool {
    match t {
        TokV::Num(n) => e matches Expr::Num(m) && m == n,
        TokV::Decimal(d) => e matches Expr::Decimal(x) && x@ == d,
        TokV::Str(s) => e matches Expr::Str(x) && x@ == s,
        TokV::Kw(Kw::True) => e == Expr::Bool(true),
        TokV::Kw(Kw::False) => e == Expr::Bool(false),
        TokV::Ident(name) => e matches Expr::Ident(x) && x@ == name,
        TokV::At => e is At,
        _ => false,
    }
}

/// The expression is `head` with postfixes applied to it: primes, postfix
/// operators, fields and applications; or a reference into an instance,
/// which `head` named.
spec fn built_on(e: Expr, head: Expr) -> bool
    decreases e,
{
    e == head || match e {
        Expr::Prime(inner) => built_on(*inner, head),
        Expr::Unary(op, inner) => op.spec_is_postfix() && built_on(*inner, head),
        Expr::Field(inner, _) => built_on(*inner, head),
        Expr::FnApply(inner, _) => built_on(*inner, head),
        Expr::Apply(inner, _) => built_on(*inner, head),
        Expr::Qualified { .. } => true,
        _ => false,
    }
}

impl Parser {
    spec fn wf(&self) -> bool {
        &&& ends_with_eof(self.toks@)
        &&& self.pos < self.toks.len()
        &&& self.depth <= self.nesting_limit
    }

    fn peek(&self) -> (t: &Tok)
        requires
            self.wf(),
        ensures
            *t == self.toks@[self.pos as int].tok,
    {
        &self.toks[self.pos].tok
    }

    fn peek_at(&self, offset: usize) -> (t: &Tok)
        requires
            self.wf(),
        ensures
            offset < self.toks.len() - self.pos ==> *t == self.toks@[self.pos + offset].tok,
            offset >= self.toks.len() - self.pos ==> *t is Eof,
            *t == tok_ahead(self.toks@, self.pos as int, offset as int),
    {
        let i = if offset >= self.toks.len() - self.pos { self.toks.len() - 1 } else { self.pos + offset };
        &self.toks[i].tok
    }

    fn col(&self) -> (c: u32)
        requires
            self.wf(),
        ensures
            c == self.toks@[self.pos as int].col,
    {
        self.toks[self.pos].col
    }

    fn at_eof(&self) -> (r: bool)
        requires
            self.wf(),
        ensures
            r == (self.toks@[self.pos as int].tok is Eof),
            !r ==> self.pos + 1 < self.toks.len(),
    {
        matches!(self.toks[self.pos].tok, Tok::Eof)
    }

    /// Move past the current token, unless it is the end of the input.
    fn advance(&mut self) -> (t: Tok)
        requires
            old(self).wf(),
        ensures
            kept(*old(self), *final(self)),
            final(self).fences == old(self).fences,
            !(old(self).toks@[old(self).pos as int].tok is Eof) ==> final(self).pos == old(self).pos + 1,
            t == old(self).toks@[old(self).pos as int].tok,
    {
        let t = self.toks[self.pos].tok.copied();
        if self.pos + 1 < self.toks.len() {
            self.pos = self.pos + 1;
        }
        t
    }

    fn eat(&mut self, tok: &Tok) -> (r: bool)
        requires
            old(self).wf(),
            !(*tok is Eof),
        ensures
            kept(*old(self), *final(self)),
            final(self).fences == old(self).fences,
            r == (old(self).toks@[old(self).pos as int].tok@ == tok@),
            r ==> final(self).pos == old(self).pos + 1,
            !r ==> final(self).pos == old(self).pos,
    {
        if tok_eq(self.peek(), tok) {
            self.advance();
            true
        } else {
            false
        }
    }

    fn expect(&mut self, tok: &Tok) -> (r: Result<(), Error>)
        requires
            old(self).wf(),
            !(*tok is Eof),
        ensures
            kept(*old(self), *final(self)),
            final(self).fences == old(self).fences,
            r is Ok ==> final(self).pos == old(self).pos + 1,
            r is Ok <==> old(self).toks@[old(self).pos as int].tok@ == tok@,
            parse_error(r),
    {
        if self.eat(tok) {
            Ok(())
        } else {
            let mut msg = text("expected ");
            append(&mut msg, describe(tok).as_str());
            append(&mut msg, ", found ");
            append(&mut msg, describe(self.peek()).as_str());
            Err(self.err(msg))
        }
    }

    fn expect_ident(&mut self) -> (r: Result<String, Error>)
        requires
            old(self).wf(),
        ensures
            r is Ok <==> old(self).toks@[old(self).pos as int].tok is Ident,
            r matches Ok(n) ==> old(self).toks@[old(self).pos as int].tok == Tok::Ident(n),
            kept(*old(self), *final(self)),
            final(self).fences == old(self).fences,
            r is Ok ==> final(self).pos == old(self).pos + 1,
            parse_error(r),
    {
        let at = self.pos;
        if let Tok::Ident(name) = self.peek() {
            let name = name.clone();
            self.advance();
            Ok(name)
        } else {
            let mut msg = text("expected an identifier, found ");
            append(&mut msg, describe(self.peek()).as_str());
            Err(self.err_at(at, msg))
        }
    }

    /// A field name, which may be spelled like a keyword: `r.NEW`,
    /// `!.DOMAIN`, `bar.SF_`.
    fn field_name(&mut self) -> (r: Result<String, Error>)
        requires
            old(self).wf(),
        ensures
            kept(*old(self), *final(self)),
            final(self).fences == old(self).fences,
            r is Ok ==> final(self).pos == old(self).pos + 1,
            parse_error(r),
    {
        let name = match self.peek() {
            Tok::Kw(k) => text(k.text()),
            Tok::Fair { strong, subscript } => {
                let mut s = if *strong { text("SF_") } else { text("WF_") };
                append(&mut s, subscript.as_str());
                s
            },
            _ => return self.expect_ident(),
        };
        self.advance();
        Ok(name)
    }

    fn err(&self, message: String) -> (e: Error)
        requires
            self.wf(),
        ensures
            e.stage == Stage::Parse,
    {
        self.err_at(self.pos, message)
    }

    /// Errors point at the token that caused them, which is not the current
    /// one once it has been consumed.
    fn err_at(&self, at: usize, message: String) -> (e: Error)
        requires
            self.wf(),
        ensures
            e.stage == Stage::Parse,
    {
        let i = if at < self.toks.len() { at } else { self.pos };
        let t = &self.toks[i];
        Error::parse(message, t.line, t.col)
    }

    /// True when the upcoming token belongs to an enclosing junction list
    /// rather than to the expression being parsed.
    fn fenced(&self) -> (r: bool)
        requires
            self.wf(),
        ensures
            r == fenced_at(self.toks@, self.pos as int, self.fences@),
    {
        match self.fences.last() {
            Some(f) => self.col() <= *f,
            None => false,
        }
    }
}

} // verus!

verus! {

impl Parser {
    // ---------------------------------------------------------------- module

    fn module(&mut self) -> (r: Result<Module, Error>)
        requires
            old(self).wf(),
        ensures
            module_follows(g_module(old(self).toks@, old(self).pos as int, old(self).fences@, old(self).depth as int,
                old(self).nesting_limit as int), r, *old(self), *final(self)),
            kept(*old(self), *final(self)),
            parse_error(r),
            r matches Ok(m) ==> exists|j: int| old(self).pos <= j && header_at(old(self).toks@, j)
                && tok_ahead(old(self).toks@, j, 2) == Tok::Ident(m.name)
                && forall|k: int| old(self).pos <= k < j ==> !#[trigger] header_at(old(self).toks@, k),
            header_at(old(self).toks@, old(self).pos as int) && bare_module_at(old(self).toks@, old(self).pos + 1)
                ==> (r matches Ok(m) && m.extends.len() == 0 && m.units.len() == 0),
        decreases old(self).nesting_limit - old(self).depth, old(self).toks.len() - old(self).pos, 5nat,
    {
        loop
            invariant
                kept(*old(self), *self),
                forall|k: int| old(self).pos <= k < self.pos ==> !#[trigger] header_at(old(self).toks@, k),
                g_module(self.toks@, self.pos as int, self.fences@, self.depth as int, self.nesting_limit as int)
                    == g_module(old(self).toks@, old(self).pos as int, old(self).fences@, old(self).depth as int,
                    old(self).nesting_limit as int),
                self.fences@ == old(self).fences@,
            ensures
                g_module(self.toks@, self.pos as int, self.fences@, self.depth as int, self.nesting_limit as int)
                    == g_module(old(self).toks@, old(self).pos as int, old(self).fences@, old(self).depth as int,
                    old(self).nesting_limit as int),
                self.fences@ == old(self).fences@,
                kept(*old(self), *self),
                forall|k: int| old(self).pos <= k < self.pos ==> !#[trigger] header_at(old(self).toks@, k),
                header_at(old(self).toks@, self.pos as int),
            decreases self.toks.len() - self.pos,
        {
            if matches!(self.peek(), Tok::Separator) && matches!(self.peek_at(1), Tok::Kw(Kw::Module)) {
                break;
            }
            if self.at_eof() {
                return Err(self.err(text("no `---- MODULE ----` header found")));
            }
            self.advance();
        }
        let ghost j = self.pos as int;
        self.advance();
        let r = self.module_body();
        proof {
            if r is Ok {
                assert(header_at(old(self).toks@, j));
            }
        }
        r
    }

    /// Everything from `MODULE` to the terminator. Modules nest, so this is
    /// reached both at the top of a file and part-way through one.
    fn module_body(&mut self) -> (r: Result<Module, Error>)
        requires
            old(self).wf(),
        ensures
            module_follows(g_module_body(old(self).toks@, old(self).pos as int, old(self).fences@, old(self).depth as int,
                old(self).nesting_limit as int), r, *old(self), *final(self)),
            kept(*old(self), *final(self)),
            r is Ok ==> final(self).pos > old(self).pos,
            r matches Ok(m) ==> old(self).toks@[old(self).pos as int].tok == Tok::Kw(Kw::Module) && tok_ahead(old(self).toks@, old(self).pos as int, 1) == Tok::Ident(m.name),
            parse_error(r),
            bare_module_at(old(self).toks@, old(self).pos as int) ==> (r matches Ok(m) && m.extends.len() == 0 && m.units.len() == 0),
        decreases old(self).nesting_limit - old(self).depth, old(self).toks.len() - old(self).pos, 4nat,
    {
        let ghost bare = bare_module_at(old(self).toks@, old(self).pos as int);
        let ghost toks = old(self).toks@;
        let ghost fences = old(self).fences@;
        let ghost depth = old(self).depth as int;
        let ghost limit = old(self).nesting_limit as int;
        self.expect(&Tok::Kw(Kw::Module))?;
        let name = self.expect_ident()?;
        self.expect(&Tok::Separator)?;
        let ghost target = g_body(toks, old(self).pos + 3, fences, depth, limit, Seq::empty(), Seq::empty());
        proof {
            assert(self.pos == old(self).pos + 3);
        }

        let mut extends: Vec<String> = Vec::new();
        let mut units: Vec<Unit> = Vec::new();
        let ghost mut read: Seq<spec_fn(Unit) -> bool> = Seq::empty();
        proof {
            assert(extends@ =~= Seq::<String>::empty());
        }
        loop
            invariant
                kept(*old(self), *self),
                self.pos > old(self).pos,
                bare == bare_module_at(old(self).toks@, old(self).pos as int),
                bare ==> self.pos == old(self).pos + 3 && extends.len() == 0 && units.len() == 0,
                toks == old(self).toks@ && fences == old(self).fences@ && depth == old(self).depth as int
                    && limit == old(self).nesting_limit as int,
                g_module_body(toks, old(self).pos as int, fences, depth, limit) matches Some(Ok(_))
                    ==> target matches Some(Ok(_)),
                target is Some ==> target == g_body(toks, self.pos as int, fences, depth, limit, extends@, read)
                    && self.fences@ == fences && units@.len() == read.len()
                    && forall|k: int| 0 <= k < read.len() ==> #[trigger] (read[k])(units@[k]),
            ensures
                kept(*old(self), *self),
                self.pos > old(self).pos,
                bare ==> self.pos == old(self).pos + 3 && extends.len() == 0 && units.len() == 0,
                target is Some ==> target == Some(Ok::<(Seq<String>, Seq<spec_fn(Unit) -> bool>, int), ()>((extends@, read, self.pos as int)))
                    && self.fences@ == fences && units@.len() == read.len()
                    && forall|k: int| 0 <= k < read.len() ==> #[trigger] (read[k])(units@[k]),
            decreases self.toks.len() - self.pos,
        {
            let ghost start = self.pos;
            while self.eat(&Tok::Separator)
                invariant
                    kept(*old(self), *self),
                    self.pos > old(self).pos,
                    self.pos >= start,
                    bare == bare_module_at(old(self).toks@, old(self).pos as int),
                    bare ==> self.pos == old(self).pos + 3 && extends.len() == 0 && units.len() == 0,
                    toks == old(self).toks@ && fences == old(self).fences@ && depth == old(self).depth as int
                        && limit == old(self).nesting_limit as int,
                    g_module_body(toks, old(self).pos as int, fences, depth, limit) matches Some(Ok(_))
                    ==> target matches Some(Ok(_)),
                    target is Some ==> target == g_body(toks, self.pos as int, fences, depth, limit, extends@, read)
                        && self.fences@ == fences && units@.len() == read.len()
                        && forall|k: int| 0 <= k < read.len() ==> #[trigger] (read[k])(units@[k]),
                decreases self.toks.len() - self.pos,
            {
            }
            let ghost at = self.pos;
            match self.peek() {
                Tok::ModuleEnd | Tok::Eof => break,
                Tok::Kw(Kw::Module) => {
                    proof {
                        assert(target is None);
                    }
                    let inner = self.module_body()?;
                    self.expect(&Tok::ModuleEnd)?;
                    units.push(Unit::Inner(Box::new(inner)));
                },
                Tok::Kw(Kw::Extends) => {
                    let ghost before = extends@;
                    self.advance();
                    extends.push(self.expect_ident()?);
                    let ghost te = g_more_names(toks, at + 2, before.push(tok_ahead(toks, at as int, 1)->Ident_0));
                    while self.eat(&Tok::Comma)
                        invariant
                            kept(*old(self), *self),
                            self.pos > at,
                            !bare,
                            bare == bare_module_at(old(self).toks@, old(self).pos as int),
                            toks == old(self).toks@ && fences == old(self).fences@ && depth == old(self).depth as int
                                && limit == old(self).nesting_limit as int,
                            g_module_body(toks, old(self).pos as int, fences, depth, limit) matches Some(Ok(_))
                                ==> target matches Some(Ok(_)),
                            toks[at as int].tok == Tok::Kw(Kw::Extends),
                            tok_ahead(toks, at as int, 1) is Ident,
                            te == g_more_names(toks, at + 2, before.push(tok_ahead(toks, at as int, 1)->Ident_0)),
                            te is Some ==> te == g_more_names(toks, self.pos as int, extends@),
                            target is Some ==> target == g_body(toks, at as int, fences, depth, limit, before, read)
                                && self.fences@ == fences && units@.len() == read.len()
                                && forall|k: int| 0 <= k < read.len() ==> #[trigger] (read[k])(units@[k]),
                        decreases self.toks.len() - self.pos,
                    {
                        let ghost p = self.pos;
                        extends.push(self.expect_ident()?);
                        proof {
                            if te is Some {
                                assert(toks[p - 1].tok is Comma);
                            }
                        }
                    }
                },
                _ => {
                    // A unit that reads nothing would leave this loop spinning
                    // on the same token for ever; saying so beats hanging.
                    let before = self.pos;
                    let unit = self.unit_body()?;
                    if self.pos == before {
                        let mut msg = text("cannot make sense of ");
                        append(&mut msg, describe(self.peek()).as_str());
                        append(&mut msg, ", and cannot get past it");
                        return Err(self.err(msg));
                    }
                    let ghost item = g_item(toks, at as int, fences, depth, limit);
                    let ghost units_before = units@;
                    units.push(unit);
                    proof {
                        if target is Some {
                            let u = item->Some_0->Ok_0.0;
                            assert forall|k: int| 0 <= k < read.push(u).len() implies #[trigger] (read.push(u)[k])(units@[k]) by {
                                if k < read.len() {
                                    assert(units@[k] == units_before[k]);
                                }
                            }
                            read = read.push(u);
                        }
                    }
                },
            }
        }
        proof {
            if target is Some {
                assert(forall|k: int| 0 <= k < read.len() ==> #[trigger] (read[k])(units@[k]));
            }
        }
        Ok(Module { name, extends, units })
    }

    fn unit_body(&mut self) -> (r: Result<Unit, Error>)
        requires
            old(self).wf(),
        ensures
            unit_follows(g_item(old(self).toks@, old(self).pos as int, old(self).fences@, old(self).depth as int,
                old(self).nesting_limit as int), r, *old(self), *final(self)),
            r matches Ok(u) ==> u is Opaque || ({
                let local = old(self).toks@[old(self).pos as int].tok == Tok::Kw(Kw::Local);
                let at = if local { old(self).pos + 1 } else { old(self).pos as int };
                unit_opened(old(self).toks@[at].tok, local, u)
            }),
            old(self).toks@[old(self).pos as int].tok is Ident && old(self).toks@[old(self).pos + 1].tok == Tok::DefEq
                && old(self).depth < old(self).nesting_limit
                && simple_at(old(self).toks@, old(self).pos + 2, old(self).nesting_limit - old(self).depth - 1)
                ==> (r matches Ok(u) && (u matches Unit::Def(d)
                    && d.name@ == old(self).toks@[old(self).pos as int].tok->Ident_0@ && d.params.len() == 0 && !d.local
                    && simple_tree(old(self).toks@, old(self).pos + 2, d.body))),
            kept(*old(self), *final(self)),
            parse_error(r),
        decreases old(self).nesting_limit - old(self).depth, old(self).toks.len() - old(self).pos, 3nat,
    {
        if self.at_proof() {
            self.skip_proof();
            return Ok(Unit::Opaque);
        }
        let local = self.eat(&Tok::Kw(Kw::Local));
        let t = self.peek();
        if let Tok::Ident(name) = t {
            let name = name.clone();
            return self.named_definition(name, local);
        }
        if let Tok::Op(op) = t {
            // `op a == e`, and the `-.` spelling that tells prefix minus from
            // the infix one.
            let op = *op;
            self.advance();
            self.eat(&Tok::Dot);
            let operand = self.param()?;
            self.expect(&Tok::DefEq)?;
            let body = self.expr(0)?;
            let mut params: Vec<Param> = Vec::new();
            params.push(operand);
            return Ok(Unit::Def(Def { name: text(op.symbol()), params, body, local }));
        }
        if let Tok::Kw(kw) = t {
            let kw = *kw;
            match kw {
                Kw::Constant => {
                    self.advance();
                    return Ok(Unit::Constants(self.decl_list()?));
                },
                Kw::Recursive => {
                    self.advance();
                    return Ok(Unit::Recursive(self.decl_list()?));
                },
                Kw::Variable => {
                    self.advance();
                    let mut names: Vec<String> = Vec::new();
                    names.push(self.expect_ident()?);
                    let ghost o = old(self).pos as int;
                    let ghost tv = g_more_names(old(self).toks@, o + 2, seq![tok_ahead(old(self).toks@, o, 1)->Ident_0]);
                    let ghost listed = old(self).toks@[o].tok == Tok::Kw(Kw::Variable) && tok_ahead(old(self).toks@, o, 1) is Ident;
                    proof {
                        if listed {
                            assert(names@ =~= seq![tok_ahead(old(self).toks@, o, 1)->Ident_0]);
                        }
                    }
                    while self.eat(&Tok::Comma)
                        invariant
                            kept(*old(self), *self),
                            !(old(self).toks@[old(self).pos as int].tok is Ident),
                            old(self).toks@[old(self).pos as int].tok == Tok::Kw(Kw::Variable)
                                || old(self).toks@[old(self).pos as int].tok == Tok::Kw(Kw::Local),
                            o == old(self).pos as int,
                            tv == g_more_names(old(self).toks@, o + 2, seq![tok_ahead(old(self).toks@, o, 1)->Ident_0]),
                            listed == (old(self).toks@[o].tok == Tok::Kw(Kw::Variable) && tok_ahead(old(self).toks@, o, 1) is Ident),
                            listed && tv is Some ==> tv == g_more_names(self.toks@, self.pos as int, names@)
                                && self.fences@ == old(self).fences@,
                        decreases self.toks.len() - self.pos,
                    {
                        let ghost at = self.pos;
                        let n = self.expect_ident()?;
                        let ghost before = names@;
                        names.push(n);
                        proof {
                            if listed && tv is Some {
                                assert(self.toks@[at - 1].tok is Comma);
                            }
                        }
                    }
                    return Ok(Unit::Variables(names));
                },
                Kw::Assume => {
                    self.advance();
                    self.skip_label();
                    return match self.recover_expr() {
                        Some(e) => Ok(Unit::Assume(e)),
                        None => Ok(Unit::Opaque),
                    };
                },
                Kw::Theorem => {
                    self.advance();
                    self.skip_label();
                    let statement = self.recover_expr();
                    self.skip_proof();
                    return match statement {
                        Some(e) => Ok(Unit::Theorem(e)),
                        None => Ok(Unit::Opaque),
                    };
                },
                Kw::Proof => {
                    self.skip_proof();
                    return Ok(Unit::Opaque);
                },
                Kw::Instance => {
                    let (module, subs) = self.instance_tail()?;
                    return Ok(Unit::Instance { name: None, module, subs });
                },
                _ => {
                    // A specification may define something spelled like a
                    // keyword. SANY reads it and complains afterwards; so do we.
                    if matches!(self.peek_at(1), Tok::DefEq) {
                        return self.named_definition(text(kw.text()), local);
                    }
                },
            }
        }
        let mut msg = text("expected a declaration, found ");
        append(&mut msg, describe(self.peek()).as_str());
        Err(self.err(msg))
    }

    /// Everything that can follow a name at the head of a definition: an
    /// ordinary or operator definition, a function definition, an instance,
    /// or the definition of an infix or postfix operator whose left operand
    /// this is.
    fn named_definition(&mut self, name: String, local: bool) -> (r: Result<Unit, Error>)
        requires
            old(self).wf(),
            !(old(self).toks@[old(self).pos as int].tok is Eof),
        ensures
            old(self).toks@[old(self).pos as int].tok == Tok::Ident(name) && tok_ahead(old(self).toks@, old(self).pos as int, 1) is LParen
                ==> (g_params(old(self).toks@, old(self).pos + 2, Seq::empty()) matches Some((ps, k)) ==> (0 <= k < old(self).toks.len()
                && old(self).toks@[k].tok@ == TokV::DefEq && tok_ahead(old(self).toks@, k, 1) != Tok::Kw(Kw::Instance) ==> ({
                let g = g_expr(old(self).toks@, k + 1, 0, old(self).fences@, old(self).depth as int, old(self).nesting_limit as int);
                &&& g matches Some(Ok((e, j))) ==> (r matches Ok(u) && (u matches Unit::Def(d) && d.name == name && plain_params(d.params@, ps)
                    && d.body == e && d.local == local)) && final(self).pos == j && final(self).fences@ == old(self).fences@
                &&& g matches Some(Err(_)) ==> r is Err
            }))),
            old(self).toks@[old(self).pos as int].tok == Tok::Ident(name) && tok_ahead(old(self).toks@, old(self).pos as int, 1)@ == TokV::DefEq
                && tok_ahead(old(self).toks@, old(self).pos as int, 2) != Tok::Kw(Kw::Instance) ==> ({
                let g = g_expr(old(self).toks@, old(self).pos + 2, 0, old(self).fences@, old(self).depth as int, old(self).nesting_limit as int);
                &&& g matches Some(Ok((e, j))) ==> (r matches Ok(u) && (u matches Unit::Def(d) && d.name == name && d.params@.len() == 0
                    && d.body == e && d.local == local)) && final(self).pos == j && final(self).fences@ == old(self).fences@
                &&& g matches Some(Err(_)) ==> r is Err
            }),
            r matches Ok(u) ==> (u matches Unit::Def(d) && d.local == local)
                || u matches Unit::Instance { name: Some(_), .. },
            old(self).toks@[old(self).pos + 1].tok == Tok::DefEq && old(self).depth < old(self).nesting_limit
                && simple_at(old(self).toks@, old(self).pos + 2, old(self).nesting_limit - old(self).depth - 1)
                ==> (r matches Ok(u) && (u matches Unit::Def(d) && d.name == name && d.params.len() == 0
                    && d.local == local && simple_tree(old(self).toks@, old(self).pos + 2, d.body)))
                    && final(self).pos == simple_end(old(self).toks@, old(self).pos + 2),
            kept(*old(self), *final(self)),
            r is Ok ==> final(self).pos > old(self).pos,
            parse_error(r),
        decreases old(self).nesting_limit - old(self).depth, old(self).toks.len() - old(self).pos, 2nat,
    {
        self.advance();

        if let Tok::Op(op) = self.peek() {
            let op = *op;
            self.advance();
            let mut params: Vec<Param> = Vec::new();
            params.push(Param::value(name));
            if !self.eat(&Tok::DefEq) {
                let right = self.param()?;
                self.expect(&Tok::DefEq)?;
                params.push(right);
            }
            let body = self.expr(0)?;
            return Ok(Unit::Def(Def { name: text(op.symbol()), params, body, local }));
        }

        // `f[x \in S] == e` defines a function, and may refer to `f` inside.
        if matches!(self.peek(), Tok::LBrack) {
            self.advance();
            self.fences.push(0);
            let bounds = self.bounds(&Tok::RBrack);
            self.fences.pop();
            let bounds = bounds?;
            self.expect(&Tok::RBrack)?;
            self.expect(&Tok::DefEq)?;
            let body = self.expr(0)?;
            return Ok(Unit::Def(Def {
                name,
                params: Vec::new(),
                body: Expr::FnDef { bounds, body: Box::new(body) },
                local,
            }));
        }

        let params = self.opt_params()?;
        self.expect(&Tok::DefEq)?;
        if matches!(self.peek(), Tok::Kw(Kw::Instance)) {
            let (module, subs) = self.instance_tail()?;
            return Ok(Unit::Instance { name: Some(name), module, subs });
        }
        let body = self.expr(0)?;
        Ok(Unit::Def(Def { name, params, body, local }))
    }

    /// `THEOREM Name == ...` names the theorem; the name carries no meaning
    /// for evaluation, so it is read and dropped.
    fn skip_label(&mut self)
        requires
            old(self).wf(),
        ensures
            kept(*old(self), *final(self)),
            final(self).fences == old(self).fences,
            final(self).pos == old(self).pos + if old(self).toks@[old(self).pos as int].tok is Ident && tok_ahead(old(self).toks@, old(self).pos as int, 1) is DefEq { 2int } else { 0int },
    {
        if matches!(self.peek(), Tok::Ident(_)) && matches!(self.peek_at(1), Tok::DefEq) {
            self.advance();
            self.advance();
        }
    }

    /// Try to read an expression, and skip to the next unit rather than fail
    /// if it cannot be read.
    fn recover_expr(&mut self) -> (r: Option<Expr>)
        requires
            old(self).wf(),
        ensures
            kept(*old(self), *final(self)),
            r is Some ==> final(self).pos > old(self).pos,
            r is None ==> skipped(old(self).toks@, old(self).pos as int, final(self).pos as int),
        decreases old(self).nesting_limit - old(self).depth, old(self).toks.len() - old(self).pos, 1nat,
    {
        let mark = self.pos;
        let fences = self.fences.len();
        match self.expr(0) {
            Ok(e) => Some(e),
            Err(_) => {
                self.pos = mark;
                while self.fences.len() > fences
                    invariant
                        kept(*old(self), *self),
                        self.pos == mark,
                        mark == old(self).pos,
                    decreases self.fences.len(),
                {
                    self.fences.pop();
                }
                self.skip_to_unit();
                None
            },
        }
    }

    /// Skip a TLAPS proof. Proofs are checked by a prover, not by an
    /// evaluator; a proof runs until the next token that can only begin a
    /// new module unit.
    fn skip_proof(&mut self)
        requires
            old(self).wf(),
        ensures
            kept(*old(self), *final(self)),
            !proof_at(old(self).toks@, old(self).pos as int) ==> final(self).pos == old(self).pos,
            proof_at(old(self).toks@, old(self).pos as int) ==> skipped(old(self).toks@, old(self).pos as int, final(self).pos as int),
    {
        if !self.at_proof() {
            return;
        }
        // Always consume the token that began the proof: a proof step can
        // itself look like the start of a unit.
        self.skip_to_unit();
    }

    /// Advance past the current token, and then to whatever can begin a unit.
    fn skip_to_unit(&mut self)
        requires
            old(self).wf(),
        ensures
            kept(*old(self), *final(self)),
            skipped(old(self).toks@, old(self).pos as int, final(self).pos as int),
    {
        let ghost from = self.pos as int;
        self.advance();
        while !matches!(self.peek(), Tok::Eof | Tok::ModuleEnd | Tok::Separator)
            invariant
                kept(*old(self), *self),
                from == old(self).pos,
                old(self).toks@[from].tok is Eof ==> self.pos == from,
                !(old(self).toks@[from].tok is Eof) ==> self.pos > from,
                forall|j: int| from < j < self.pos ==> !#[trigger] stop_at(self.toks@, j),
            decreases self.toks.len() - self.pos,
        {
            if self.at_unit_start() {
                return;
            }
            self.advance();
        }
    }

    /// Would a new unit begin `ahead` tokens from here?
    fn at_unit_start_after(&self, ahead: usize) -> (r: bool)
        requires
            self.wf(),
        ensures
            r == (ahead < self.toks.len() - self.pos && self.toks@[self.pos + ahead].col == 1),
    {
        if ahead < self.toks.len() - self.pos {
            self.toks[self.pos + ahead].col == 1
        } else {
            false
        }
    }

    fn at_proof(&self) -> (r: bool)
        requires
            self.wf(),
        ensures
            r == proof_at(self.toks@, self.pos as int),
    {
        if matches!(self.peek(), Tok::Kw(Kw::Proof)) {
            return true;
        }
        // A proof step is written `<1>2.`, which arrives as `<`, a number or
        // name, then `>`. It always begins a line; without that, the `<` and
        // `>` of an ordinary comparison would look the same.
        self.begins_line() && matches!(self.peek(), Tok::Op(Op::Lt))
            && matches!(self.peek_at(2), Tok::Op(Op::Gt))
    }

    fn begins_line(&self) -> (r: bool)
        requires
            self.wf(),
        ensures
            r == begins_line_at(self.toks@, self.pos as int),
    {
        self.pos == 0 || self.toks[self.pos - 1].line < self.toks[self.pos].line
    }

    /// Does a new module unit begin here? Only tokens in the first column
    /// can, which keeps a proof's own keywords from ending it early.
    fn at_unit_start(&self) -> (r: bool)
        requires
            self.wf(),
        ensures
            r == unit_start_at(self.toks@, self.pos as int),
    {
        if self.col() != 1 {
            return false;
        }
        match self.peek() {
            Tok::Kw(k) => matches!(k, Kw::Variable | Kw::Constant | Kw::Assume | Kw::Theorem
                | Kw::Local | Kw::Instance | Kw::Recursive | Kw::Extends),
            Tok::Ident(_) | Tok::Op(_) => self.at_definition(),
            _ => false,
        }
    }

    /// Does a definition's left-hand side start here? Ending an expression
    /// only ever turns on an operator, because a name cannot continue one;
    /// ending a proof turns on a name, and there a rough answer is enough.
    fn at_definition(&self) -> (r: bool)
        requires
            self.wf(),
        ensures
            r == definition_at(self.toks@, self.pos as int),
    {
        if matches!(self.peek(), Tok::Ident(_)) {
            return match self.peek_at(1) {
                Tok::DefEq | Tok::LParen | Tok::LBrack => true,
                // `b ^+ ==` defines a postfix operator and `a ++ b ==` an
                // infix one; both begin with what looks like a name.
                Tok::Op(_) => matches!(self.peek_at(2), Tok::DefEq)
                    || (matches!(self.peek_at(2), Tok::Ident(_)) && matches!(self.peek_at(3), Tok::DefEq)),
                _ => false,
            };
        }
        // `-. a ==`, `- a ==`, `- _ ==`. An operator can continue an
        // expression, so here the whole shape has to be right.
        let after: usize = if matches!(self.peek_at(1), Tok::Dot) { 2 } else { 1 };
        matches!(self.peek_at(after), Tok::Ident(_) | Tok::Underscore) && matches!(self.peek_at(after + 1), Tok::DefEq)
    }

    fn decl_list(&mut self) -> (r: Result<Vec<Decl>, Error>)
        requires
            old(self).wf(),
        ensures
            old(self).toks@[old(self).pos as int].tok matches Tok::Ident(n) ==> (!(tok_ahead(old(self).toks@, old(self).pos as int, 1) is LParen)
                ==> (g_more_decls(old(self).toks@, old(self).pos + 1, seq![n]) matches Some((ns, j)) ==> (r matches Ok(v)
                    && plain_decls(v@, ns)) && final(self).pos == j && final(self).fences == old(self).fences)),
            r matches Ok(v) ==> v.len() >= 1,
            old(self).toks@[old(self).pos as int].tok matches Tok::Ident(n) ==> (r matches Ok(v) ==> v@[0].name == n),
            old(self).toks@[old(self).pos as int].tok matches Tok::Ident(n) ==> (!(tok_ahead(old(self).toks@, old(self).pos as int, 1) is LParen) && !(tok_ahead(old(self).toks@, old(self).pos as int, 1) is Comma)
                ==> (r matches Ok(v) && v@ == seq![Decl { name: n, arity: 0 }]) && final(self).pos == old(self).pos + 1
                    && final(self).fences == old(self).fences),
            kept(*old(self), *final(self)),
            parse_error(r),
        decreases old(self).nesting_limit - old(self).depth, old(self).toks.len() - old(self).pos, 2nat,
    {
        let mut out: Vec<Decl> = Vec::new();
        let ghost single = old(self).toks@[old(self).pos as int].tok is Ident && !(tok_ahead(old(self).toks@, old(self).pos as int, 1) is LParen) && !(tok_ahead(old(self).toks@, old(self).pos as int, 1) is Comma);
        let ghost o = old(self).pos as int;
        let ghost listed = old(self).toks@[o].tok is Ident && !(tok_ahead(old(self).toks@, o, 1) is LParen);
        let ghost tc = g_more_decls(old(self).toks@, o + 1, seq![old(self).toks@[o].tok->Ident_0]);
        let ghost mut names: Seq<String> = seq![old(self).toks@[o].tok->Ident_0];
        out.push(self.decl()?);
        let ghost first = out@[0];
        while self.eat(&Tok::Comma)
            invariant
                kept(*old(self), *self),
                out.len() >= 1,
                out@[0] == first,
                o == old(self).pos as int,
                listed == (old(self).toks@[o].tok is Ident && !(tok_ahead(old(self).toks@, o, 1) is LParen)),
                tc == g_more_decls(old(self).toks@, o + 1, seq![old(self).toks@[o].tok->Ident_0]),
                listed && tc is Some ==> tc == g_more_decls(self.toks@, self.pos as int, names) && plain_decls(out@, names)
                    && self.fences == old(self).fences,
                single == (old(self).toks@[old(self).pos as int].tok is Ident && !(tok_ahead(old(self).toks@, old(self).pos as int, 1) is LParen) && !(tok_ahead(old(self).toks@, old(self).pos as int, 1) is Comma)),
                single ==> out.len() == 1 && self.pos == old(self).pos + 1 && self.fences == old(self).fences,
            decreases self.toks.len() - self.pos,
        {
            let ghost p = self.pos;
            let d = self.decl()?;
            let ghost before = out@;
            out.push(d);
            proof {
                if listed && tc is Some {
                    assert(self.toks@[p - 1].tok is Comma);
                    let n = self.toks@[p as int].tok->Ident_0;
                    assert(plain_decls(out@, names.push(n))) by {
                        assert forall|m: int| 0 <= m < names.push(n).len() implies #[trigger] out@[m] == Decl { name: names.push(n)[m], arity: 0 } by {
                            if m < names.len() {
                                assert(out@[m] == before[m]);
                            }
                        }
                    }
                    names = names.push(n);
                }
            }
        }
        Ok(out)
    }

    fn decl(&mut self) -> (r: Result<Decl, Error>)
        requires
            old(self).wf(),
        ensures
            old(self).toks@[old(self).pos as int].tok matches Tok::Ident(n) ==> (r matches Ok(d) ==> d.name == n),
            old(self).toks@[old(self).pos as int].tok matches Tok::Ident(n) ==> (!(tok_ahead(old(self).toks@, old(self).pos as int, 1) is LParen) ==> r == Ok::<Decl, Error>(Decl { name: n, arity: 0 })
                && final(self).pos == old(self).pos + 1 && final(self).fences == old(self).fences),
            r is Ok ==> final(self).pos > old(self).pos,
            kept(*old(self), *final(self)),
            parse_error(r),
        decreases old(self).nesting_limit - old(self).depth, old(self).toks.len() - old(self).pos, 1nat,
    {
        match self.fixity_declaration() {
            Some(param) => Ok(Decl { name: param.name, arity: param.arity }),
            None => {
                let p = self.param()?;
                Ok(Decl { name: p.name, arity: p.arity })
            },
        }
    }

    fn opt_params(&mut self) -> (r: Result<Vec<Param>, Error>)
        requires
            old(self).wf(),
        ensures
            !(old(self).toks@[old(self).pos as int].tok is LParen) ==> (r matches Ok(v) && v.len() == 0) && final(self).pos == old(self).pos
                && final(self).fences == old(self).fences,
            old(self).toks@[old(self).pos as int].tok is LParen ==> (r matches Ok(v) ==> v.len() >= 1 && final(self).pos > old(self).pos),
            old(self).toks@[old(self).pos as int].tok is LParen ==> (g_params(old(self).toks@, old(self).pos + 1, Seq::empty())
                matches Some((ns, k)) ==> (r matches Ok(v) && plain_params(v@, ns)) && final(self).pos == k
                    && final(self).fences == old(self).fences),
            kept(*old(self), *final(self)),
            parse_error(r),
        decreases old(self).nesting_limit - old(self).depth, old(self).toks.len() - old(self).pos, 2nat,
    {
        let mut params: Vec<Param> = Vec::new();
        let ghost target = g_params(old(self).toks@, old(self).pos + 1, Seq::empty());
        let ghost mut names: Seq<String> = Seq::empty();
        if self.eat(&Tok::LParen) {
            loop
                invariant_except_break
                    target is Some ==> target == g_params(self.toks@, self.pos as int, names) && plain_params(params@, names)
                        && self.fences == old(self).fences,
                invariant
                    kept(*old(self), *self),
                    self.pos > old(self).pos,
                    old(self).toks@[old(self).pos as int].tok is LParen,
                    target == g_params(old(self).toks@, old(self).pos + 1, Seq::empty()),
                ensures
                    kept(*old(self), *self),
                    self.pos > old(self).pos,
                    old(self).toks@[old(self).pos as int].tok is LParen,
                    params.len() >= 1,
                    target is Some ==> target == Some((names, self.pos + 1)) && plain_params(params@, names)
                        && self.fences == old(self).fences && self.toks@[self.pos as int].tok is RParen,
                decreases self.toks.len() - self.pos,
            {
                let ghost at = self.pos as int;
                let p = self.param()?;
                let ghost before = params@;
                params.push(p);
                proof {
                    if target is Some {
                        let n = self.toks@[at].tok->Ident_0;
                        assert(plain_params(params@, names.push(n))) by {
                            assert forall|m: int| 0 <= m < names.push(n).len() implies #[trigger] params@[m] == Param { name: names.push(n)[m], arity: 0 } by {
                                if m < names.len() {
                                    assert(params@[m] == before[m]);
                                }
                            }
                        }
                        names = names.push(n);
                    }
                }
                if !self.eat(&Tok::Comma) {
                    break;
                }
            }
            self.expect(&Tok::RParen)?;
        }
        Ok(params)
    }

    /// An operator declared by the shape it is written in: `_+_` takes two
    /// operands around it, `-._` one after it, `_^#` one before it.
    fn fixity_declaration(&mut self) -> (r: Option<Param>)
        requires
            old(self).wf(),
        ensures
            old(self).toks@[old(self).pos as int].tok is Underscore && tok_ahead(old(self).toks@, old(self).pos as int, 1) is Op ==> (r matches Some(p)
                && p.name@ == tok_ahead(old(self).toks@, old(self).pos as int, 1)->Op_0.spec_symbol()
                && p.arity == if tok_ahead(old(self).toks@, old(self).pos as int, 2) is Underscore { 2usize } else { 1usize }),
            old(self).toks@[old(self).pos as int].tok is Op && (tok_ahead(old(self).toks@, old(self).pos as int, 1) is Underscore || (tok_ahead(old(self).toks@, old(self).pos as int, 1) is Dot && tok_ahead(old(self).toks@, old(self).pos as int, 2) is Underscore))
                ==> (r matches Some(p) && p.name@ == old(self).toks@[old(self).pos as int].tok->Op_0.spec_symbol() && p.arity == 1),
            !(old(self).toks@[old(self).pos as int].tok is Underscore && tok_ahead(old(self).toks@, old(self).pos as int, 1) is Op) && !(old(self).toks@[old(self).pos as int].tok is Op && (tok_ahead(old(self).toks@, old(self).pos as int, 1) is Underscore
                || (tok_ahead(old(self).toks@, old(self).pos as int, 1) is Dot && tok_ahead(old(self).toks@, old(self).pos as int, 2) is Underscore))) ==> r is None,
            kept(*old(self), *final(self)),
            final(self).fences == old(self).fences,
            r is None ==> final(self).pos == old(self).pos,
            r is Some ==> final(self).pos > old(self).pos,
    {
        let mark = self.pos;
        // `_ op _` and `_ op`
        if matches!(self.peek(), Tok::Underscore) {
            if let Tok::Op(op) = self.peek_at(1) {
                let op = *op;
                self.advance();
                self.advance();
                let arity: usize = if self.eat(&Tok::Underscore) { 2 } else { 1 };
                return Some(Param { name: text(op.symbol()), arity });
            }
        }
        // `op _`, and the `-._` spelling that marks a prefix minus.
        if let Tok::Op(op) = self.peek() {
            let op = *op;
            self.advance();
            self.eat(&Tok::Dot);
            if self.eat(&Tok::Underscore) {
                return Some(Param { name: text(op.symbol()), arity: 1 });
            }
            self.pos = mark;
        }
        None
    }

    /// A formal parameter: a name, `f(_, _)` for one that is itself an
    /// operator, or an operator written by its fixity.
    fn param(&mut self) -> (r: Result<Param, Error>)
        requires
            old(self).wf(),
        ensures
            old(self).toks@[old(self).pos as int].tok matches Tok::Ident(n) ==> (r matches Ok(p) ==> p.name == n),
            old(self).toks@[old(self).pos as int].tok matches Tok::Ident(n) ==> (!(tok_ahead(old(self).toks@, old(self).pos as int, 1) is LParen) ==> r == Ok::<Param, Error>(Param { name: n, arity: 0 })
                && final(self).pos == old(self).pos + 1 && final(self).fences == old(self).fences),
            kept(*old(self), *final(self)),
            r is Ok ==> final(self).pos > old(self).pos,
            parse_error(r),
        decreases old(self).nesting_limit - old(self).depth, old(self).toks.len() - old(self).pos, 1nat,
    {
        let mark = self.pos;
        if let Some(operator) = self.fixity_declaration() {
            if self.pos > mark {
                return Ok(operator);
            }
        }
        let name = self.expect_ident()?;
        let mut arity: usize = 0;
        if self.eat(&Tok::LParen) {
            loop
                invariant
                    kept(*old(self), *self),
                    self.pos > old(self).pos,
                    old(self).toks@[old(self).pos as int].tok is Ident ==> tok_ahead(old(self).toks@, old(self).pos as int, 1) is LParen,
                decreases self.toks.len() - self.pos,
            {
                if !self.eat(&Tok::Underscore) {
                    self.expect_ident()?;
                }
                if arity < usize::MAX {
                    arity = arity + 1;
                }
                if !self.eat(&Tok::Comma) {
                    break;
                }
            }
            self.expect(&Tok::RParen)?;
        }
        Ok(Param { name, arity })
    }

    fn instance_tail(&mut self) -> (r: Result<(String, Vec<(String, Expr)>), Error>)
        requires
            old(self).wf(),
        ensures
            kept(*old(self), *final(self)),
            r is Ok ==> final(self).pos > old(self).pos,
            parse_error(r),
        decreases old(self).nesting_limit - old(self).depth, old(self).toks.len() - old(self).pos, 1nat,
    {
        self.expect(&Tok::Kw(Kw::Instance))?;
        let module = self.expect_ident()?;
        let mut subs: Vec<(String, Expr)> = Vec::new();
        if self.eat(&Tok::Kw(Kw::With)) {
            loop
                invariant
                    kept(*old(self), *self),
                    self.pos > old(self).pos,
                decreases self.toks.len() - self.pos,
            {
                let name = self.expect_ident()?;
                self.expect(&Tok::Gets)?;
                let by_symbol = matches!(self.peek_at(1), Tok::Comma | Tok::Eof) || self.at_unit_start_after(1);
                let replacement = if by_symbol { self.operator_by_symbol() } else { None };
                match replacement {
                    Some(operator) => subs.push((name, operator)),
                    None => {
                        let e = self.expr(0)?;
                        subs.push((name, e));
                    },
                }
                if !self.eat(&Tok::Comma) {
                    break;
                }
            }
        }
        Ok((module, subs))
    }

    /// An operator standing where a value would, named by its own symbol.
    fn operator_by_symbol(&mut self) -> (r: Option<Expr>)
        requires
            old(self).wf(),
        ensures
            r is Some <==> symbol_named(old(self).toks@[old(self).pos as int].tok) is Some,
            r matches Some(e) ==> (e matches Expr::Ident(n) && n@ == symbol_named(old(self).toks@[old(self).pos as int].tok)->Some_0),
            kept(*old(self), *final(self)),
            final(self).fences == old(self).fences,
            r is Some ==> final(self).pos == old(self).pos + 1,
            r is None ==> final(self).pos == old(self).pos,
    {
        let symbol = match self.peek() {
            Tok::Op(op) => op.symbol(),
            Tok::Prime => "'",
            Tok::Kw(Kw::Enabled) => "ENABLED",
            Tok::Kw(Kw::Unchanged) => "UNCHANGED",
            Tok::Kw(Kw::Domain) => "DOMAIN",
            Tok::Kw(Kw::Subset) => "SUBSET",
            Tok::Kw(Kw::Union) => "UNION",
            _ => return None,
        };
        self.advance();
        Some(Expr::Ident(text(symbol)))
    }
}

} // verus!

verus! {

/// Does a name begin with `_`? `[A]_vars` reaches the parser as `]` and the
/// one name `_vars`.
fn underscored(name: &String) -> (r: bool)
    ensures
        r == (name@.len() > 0 && name@[0] == '_'),
{
    let cs = crate::text::chars_of(name.as_str());
    cs.len() > 0 && cs[0] == '_'
}

/// `x \in S` is the bound of the one name `x` over `S`, and `<<x, y>> \in S`
/// of the names it lists, taken apart; anything else is no bound and comes
/// back as it was.
spec fn read_as_bound(e: Expr, r: Result<Bound, Expr>) -> bool {
    match e {
        Expr::Binary(Op::In, lhs, dom) => match *lhs {
            Expr::Ident(n) => r matches Ok(b) && !b.destructure && b.domain == Some(*dom) && b.names@ == seq![n],
            Expr::Tuple(items) => if forall|i: int| 0 <= i < items.len() ==> (#[trigger] items@[i]) is Ident {
                r matches Ok(b) && b.destructure && b.domain == Some(*dom) && b.names.len() == items.len()
                    && forall|i: int| 0 <= i < items.len() ==> items@[i] == Expr::Ident(#[trigger] b.names@[i])
            } else {
                r == Err::<Bound, Expr>(e)
            },
            _ => r == Err::<Bound, Expr>(e),
        },
        _ => r == Err::<Bound, Expr>(e),
    }
}

/// Read `x \in S` back as the bound it is, so that `{x \in S : P}` can be
/// told from `{e : x \in S}` once the first expression has been read. An
/// expression of any other shape is handed back unchanged.
fn as_bound(e: Expr) -> (r: Result<Bound, Expr>)
    ensures
        read_as_bound(e, r),
{
    match e {
        Expr::Binary(Op::In, lhs, domain) => {
            let lhs = *lhs;
            match lhs {
                Expr::Ident(name) => {
                    let mut names: Vec<String> = Vec::new();
                    names.push(name);
                    Ok(Bound { names, domain: Some(*domain), destructure: false })
                },
                Expr::Tuple(items) => {
                    let mut all_names = true;
                    let mut i: usize = 0;
                    while i < items.len()
                        invariant
                            i <= items.len(),
                            all_names == forall|k: int| 0 <= k < i ==> (#[trigger] items@[k]) is Ident,
                        decreases items.len() - i,
                    {
                        if !matches!(items[i], Expr::Ident(_)) {
                            all_names = false;
                        }
                        i = i + 1;
                    }
                    if !all_names {
                        return Err(Expr::Binary(Op::In, Box::new(Expr::Tuple(items)), domain));
                    }
                    let mut names: Vec<String> = Vec::new();
                    let mut i: usize = 0;
                    while i < items.len()
                        invariant
                            i <= items.len(),
                            forall|k: int| 0 <= k < items.len() ==> (#[trigger] items@[k]) is Ident,
                            names.len() == i,
                            forall|k: int| 0 <= k < i ==> items@[k] == Expr::Ident(#[trigger] names@[k]),
                        decreases items.len() - i,
                    {
                        if let Expr::Ident(name) = &items[i] {
                            names.push(name.clone());
                        }
                        i = i + 1;
                    }
                    Ok(Bound { names, domain: Some(*domain), destructure: true })
                },
                other => Err(Expr::Binary(Op::In, Box::new(other), domain)),
            }
        },
        other => Err(other),
    }
}

impl Parser {
    // ------------------------------------------------------------ expression

    fn expr(&mut self, min_prec: u8) -> (r: Result<Expr, Error>)
        requires
            old(self).wf(),
        ensures
            follows(g_expr(old(self).toks@, old(self).pos as int, min_prec, old(self).fences@, old(self).depth as int, old(self).nesting_limit as int), r, *old(self), *final(self)),
            old(self).depth < old(self).nesting_limit
                && simple_at(old(self).toks@, old(self).pos as int, old(self).nesting_limit - old(self).depth - 1)
                ==> (r matches Ok(e) && simple_tree(old(self).toks@, old(self).pos as int, e))
                    && final(self).pos == simple_end(old(self).toks@, old(self).pos as int),
            kept(*old(self), *final(self)),
            r is Ok ==> final(self).pos > old(self).pos,
            parse_error(r),
            old(self).nesting_limit == old(self).depth ==> r is Err,
        decreases old(self).nesting_limit - old(self).depth, old(self).toks.len() - old(self).pos, 0nat,
    {
        if self.depth >= self.nesting_limit {
            let mut msg = text("expressions nest more than ");
            push_int(&mut msg, self.nesting_limit as i64);
            append(&mut msg, " deep");
            return Err(self.err(msg));
        }
        self.depth = self.depth + 1;
        let parsed = self.expr_inner(min_prec);
        self.depth = self.depth - 1;
        parsed
    }

    fn expr_inner(&mut self, min_prec: u8) -> (r: Result<Expr, Error>)
        requires
            old(self).wf(),
        ensures
            follows(g_inner(old(self).toks@, old(self).pos as int, min_prec, old(self).fences@, old(self).depth as int, old(self).nesting_limit as int), r, *old(self), *final(self)),
            simple_at(old(self).toks@, old(self).pos as int, old(self).nesting_limit - old(self).depth)
                ==> (r matches Ok(e) && simple_tree(old(self).toks@, old(self).pos as int, e))
                    && final(self).pos == simple_end(old(self).toks@, old(self).pos as int),
            kept(*old(self), *final(self)),
            r is Ok ==> final(self).pos > old(self).pos,
            parse_error(r),
        decreases old(self).nesting_limit - old(self).depth, old(self).toks.len() - old(self).pos, 4nat,
    {
        // A bulleted list is an operand, not a whole expression: after a
        // list of `/\\` items, a `=>` ends the list and applies to it.
        let mut lhs = match self.peek() {
            Tok::Op(Op::And) => self.junction(Op::And)?,
            Tok::Op(Op::Or) => self.junction(Op::Or)?,
            _ => self.prefix()?,
        };
        let ghost simple = simple_at(old(self).toks@, old(self).pos as int, old(self).nesting_limit - old(self).depth);
        let ghost target = g_inner(old(self).toks@, old(self).pos as int, min_prec, old(self).fences@,
            old(self).depth as int, old(self).nesting_limit as int);
        loop
            invariant
                kept(*old(self), *self),
                self.pos > old(self).pos,
                simple == simple_at(old(self).toks@, old(self).pos as int, old(self).nesting_limit - old(self).depth),
                simple ==> simple_tree(old(self).toks@, old(self).pos as int, lhs)
                    && self.pos == simple_end(old(self).toks@, old(self).pos as int),
                target == g_inner(old(self).toks@, old(self).pos as int, min_prec, old(self).fences@,
                    old(self).depth as int, old(self).nesting_limit as int),
                target is Some ==> target == g_infix(self.toks@, self.pos as int, lhs, min_prec, old(self).fences@,
                    self.depth as int, self.nesting_limit as int) && self.fences@ == old(self).fences@,
            ensures
                kept(*old(self), *self),
                self.pos > old(self).pos,
                simple ==> simple_tree(old(self).toks@, old(self).pos as int, lhs)
                    && self.pos == simple_end(old(self).toks@, old(self).pos as int),
                target is Some ==> target == Some(Ok::<(Expr, int), ()>((lhs, self.pos as int))) && self.fences@ == old(self).fences@,
            decreases self.toks.len() - self.pos,
        {
            if self.fenced() || self.at_unit_start() || self.at_proof() {
                break;
            }
            let op = match self.peek() {
                Tok::Op(op) => *op,
                _ => break,
            };
            let prec = match op.infix_prec() {
                Some(p) => p,
                None => break,
            };
            if prec < min_prec {
                break;
            }
            self.advance();
            let next_min = if op.is_right_assoc() { prec } else { prec + 1 };
            let rhs = self.expr(next_min)?;
            lhs = Expr::Binary(op, Box::new(lhs), Box::new(rhs));
        }
        Ok(lhs)
    }

    /// A bulleted `/\\` or `\\/` list, scoped by the column of its bullets.
    fn junction(&mut self, op: Op) -> (r: Result<Expr, Error>)
        requires
            old(self).wf(),
            op == Op::And || op == Op::Or,
        ensures
            follows(g_junction(old(self).toks@, old(self).pos as int, op, old(self).fences@, old(self).depth as int,
                old(self).nesting_limit as int), r, *old(self), *final(self)),
            kept(*old(self), *final(self)),
            r is Ok ==> final(self).pos > old(self).pos,
            parse_error(r),
        decreases old(self).nesting_limit - old(self).depth, old(self).toks.len() - old(self).pos, 3nat,
    {
        let col = self.col();
        self.fences.push(col);
        let ghost inside = self.fences@;
        let ghost target = g_items(old(self).toks@, old(self).pos as int, op, col, inside, old(self).depth as int,
            old(self).nesting_limit as int, Seq::empty());
        let mut items: Vec<Expr> = Vec::new();
        proof {
            assert(items@ =~= Seq::<Expr>::empty());
        }
        while tok_eq(self.peek(), &Tok::Op(op)) && self.col() == col
            invariant
                kept(*old(self), *self),
                items.len() > 0 ==> self.pos > old(self).pos,
                inside == old(self).fences@.push(col),
                target is Some ==> self.fences@ == inside,
                target == g_items(old(self).toks@, old(self).pos as int, op, col, inside, old(self).depth as int,
                    old(self).nesting_limit as int, Seq::empty()),
                target is Some ==> target == g_items(self.toks@, self.pos as int, op, col, inside, self.depth as int,
                    self.nesting_limit as int, items@),
            decreases self.toks.len() - self.pos,
        {
            self.advance();
            match self.expr(0) {
                Ok(e) => items.push(e),
                Err(e) => {
                    self.fences.pop();
                    return Err(e);
                },
            }
        }
        let ghost before_pop = self.fences@;
        self.fences.pop();
        proof {
            if target is Some {
                assert(before_pop == old(self).fences@.push(col));
                assert(self.fences@ =~= old(self).fences@);
            }
        }
        if items.len() == 0 {
            return Err(self.err(text("expected a bulleted list")));
        }
        Ok(if matches!(op, Op::And) { Expr::conjunction(items) } else { Expr::disjunction(items) })
    }

    fn prefix(&mut self) -> (r: Result<Expr, Error>)
        requires
            old(self).wf(),
        ensures
            follows(g_unit(old(self).toks@, old(self).pos as int,  old(self).fences@, old(self).depth as int, old(self).nesting_limit as int), r, *old(self), *final(self)),
            simple_at(old(self).toks@, old(self).pos as int, old(self).nesting_limit - old(self).depth)
                ==> (r matches Ok(e) && simple_tree(old(self).toks@, old(self).pos as int, e))
                    && final(self).pos == simple_end(old(self).toks@, old(self).pos as int),
            kept(*old(self), *final(self)),
            r is Ok ==> final(self).pos > old(self).pos,
            parse_error(r),
        decreases old(self).nesting_limit - old(self).depth, old(self).toks.len() - old(self).pos, 3nat,
    {
        if let Some(labelled) = self.skip_expression_label() {
            return labelled;
        }
        let op = match self.peek() {
            Tok::Op(o) => {
                let o = *o;
                if matches!(o, Op::Forall | Op::Exists | Op::TemporalForall | Op::TemporalExists) {
                    self.advance();
                    let kind = match o {
                        Op::Forall => QuantKind::Forall,
                        Op::Exists => QuantKind::Exists,
                        Op::TemporalForall => QuantKind::TemporalForall,
                        _ => QuantKind::TemporalExists,
                    };
                    let bounds = self.bounds(&Tok::Colon)?;
                    self.expect(&Tok::Colon)?;
                    let body = self.expr(0)?;
                    return Ok(Expr::Quant { kind, bounds, body: Box::new(body) });
                }
                if matches!(o, Op::Not | Op::Always | Op::Eventually | Op::Minus) {
                    o
                } else {
                    return self.postfix();
                }
            },
            Tok::Kw(Kw::Domain) => Op::Domain,
            Tok::Kw(Kw::Subset) => Op::Subset,
            Tok::Kw(Kw::Union) => Op::BigUnion,
            Tok::Kw(Kw::Enabled) => Op::Enabled,
            Tok::Kw(Kw::Unchanged) => Op::Unchanged,
            _ => return self.postfix(),
        };
        self.advance();
        let operand = self.expr(op.prefix_prec())?;
        Ok(Expr::Unary(op, Box::new(operand)))
    }

    /// A label names a subexpression so that a proof can refer to it. It has
    /// no bearing on the expression's value, so it is dropped.
    fn skip_expression_label(&mut self) -> (r: Option<Result<Expr, Error>>)
        requires
            old(self).wf(),
        ensures
            old(self).toks@[old(self).pos as int].tok is Ident && tok_ahead(old(self).toks@, old(self).pos as int, 1) is ColonColon ==> r is Some,
            r is None ==> *final(self) == *old(self),
            !(old(self).toks@[old(self).pos as int].tok is Ident) ==> r is None,
            !(old(self).toks@[old(self).pos as int].tok is Eof) && !(old(self).toks@[old(self).pos + 1].tok is LParen)
                && !(old(self).toks@[old(self).pos + 1].tok is ColonColon) ==> r is None,
            kept(*old(self), *final(self)),
            r matches Some(x) ==> x is Ok ==> final(self).pos > old(self).pos,
            r matches Some(x) ==> parse_error(x),
        decreases old(self).nesting_limit - old(self).depth, old(self).toks.len() - old(self).pos, 1nat,
    {
        if !matches!(self.peek(), Tok::Ident(_)) {
            return None;
        }
        let remaining = self.toks.len() - self.pos;
        let mut ahead: usize = 1;
        if matches!(self.peek_at(1), Tok::LParen) {
            let mut depth: usize = 0;
            loop
                invariant
                    self.wf(),
                    1 <= ahead,
                    depth <= ahead,
                    remaining == self.toks.len() - self.pos,
                    *self == *old(self),
                    !(tok_ahead(old(self).toks@, old(self).pos as int, 1) is ColonColon),
                decreases remaining - ahead,
            {
                if ahead >= remaining {
                    return None;
                }
                match self.peek_at(ahead) {
                    Tok::LParen => depth = depth + 1,
                    Tok::RParen => {
                        if depth <= 1 {
                            ahead = ahead + 1;
                            break;
                        }
                        depth = depth - 1;
                    },
                    Tok::Eof => return None,
                    _ => {},
                }
                ahead = ahead + 1;
            }
        }
        if !matches!(self.peek_at(ahead), Tok::ColonColon) {
            return None;
        }
        if ahead >= remaining {
            return None;
        }
        let mut k: usize = 0;
        while k <= ahead
            invariant
                kept(*old(self), *self),
                self.pos >= old(self).pos + if k <= ahead { k } else { ahead },
                ahead < remaining,
                remaining == old(self).toks.len() - old(self).pos,
            decreases ahead + 1 - k,
        {
            self.advance();
            k = k + 1;
        }
        Some(self.expr(0))
    }

    fn postfix(&mut self) -> (r: Result<Expr, Error>)
        requires
            old(self).wf(),
        ensures
            follows(g_post(old(self).toks@, old(self).pos as int,  old(self).fences@, old(self).depth as int, old(self).nesting_limit as int), r, *old(self), *final(self)),
            simple_at(old(self).toks@, old(self).pos as int, old(self).nesting_limit - old(self).depth)
                ==> (r matches Ok(e) && simple_tree(old(self).toks@, old(self).pos as int, e))
                    && final(self).pos == simple_end(old(self).toks@, old(self).pos as int),
            kept(*old(self), *final(self)),
            r is Ok ==> final(self).pos > old(self).pos,
            parse_error(r),
        decreases old(self).nesting_limit - old(self).depth, old(self).toks.len() - old(self).pos, 2nat,
    {
        let e = self.primary()?;
        self.continue_postfix(e)
    }

    fn continue_postfix(&mut self, head: Expr) -> (r: Result<Expr, Error>)
        requires
            old(self).wf(),
        ensures
            g_after(old(self).toks@, old(self).pos as int, head, old(self).fences@) matches Some((e, j))
                ==> r == Ok::<Expr, Error>(e) && final(self).pos == j && final(self).fences@ == old(self).fences@,
            !continues(old(self).toks@[old(self).pos as int].tok) ==> final(self).fences@ == old(self).fences@,
            !continues(old(self).toks@[old(self).pos as int].tok) ==> r == Ok::<Expr, Error>(head) && final(self).pos == old(self).pos,
            r matches Ok(e) ==> built_on(e, head),
            !fenced_at(old(self).toks@, old(self).pos as int, old(self).fences@) && !unit_start_at(old(self).toks@, old(self).pos as int)
                && (old(self).toks@[old(self).pos as int].tok is Prime || (old(self).toks@[old(self).pos as int].tok matches Tok::Op(op) && op.spec_is_postfix()) || old(self).toks@[old(self).pos as int].tok is Dot
                    || old(self).toks@[old(self).pos as int].tok is LBrack || (old(self).toks@[old(self).pos as int].tok is LParen && head is Ident))
                ==> (r matches Ok(e) ==> built_past(e, head)),
            kept(*old(self), *final(self)),
            parse_error(r),
        decreases old(self).nesting_limit - old(self).depth, old(self).toks.len() - old(self).pos, 2nat,
    {
        let ghost adv = !fenced_at(old(self).toks@, old(self).pos as int, old(self).fences@) && !unit_start_at(old(self).toks@, old(self).pos as int)
                && (old(self).toks@[old(self).pos as int].tok is Prime || (old(self).toks@[old(self).pos as int].tok matches Tok::Op(op) && op.spec_is_postfix()) || old(self).toks@[old(self).pos as int].tok is Dot
                    || old(self).toks@[old(self).pos as int].tok is LBrack || (old(self).toks@[old(self).pos as int].tok is LParen && head is Ident));
        let ghost first = !continues(old(self).toks@[old(self).pos as int].tok);
        let ghost target = g_after(old(self).toks@, old(self).pos as int, head, old(self).fences@);
        let mut e = head;
        loop
            invariant
                target == g_after(old(self).toks@, old(self).pos as int, head, old(self).fences@),
                target is Some ==> target == g_after(self.toks@, self.pos as int, e, old(self).fences@)
                    && self.fences@ == old(self).fences@,
                kept(*old(self), *self),
                built_on(e, head),
                first == !continues(old(self).toks@[old(self).pos as int].tok),
                first ==> e == head && self.pos == old(self).pos,
                adv == (!fenced_at(old(self).toks@, old(self).pos as int, old(self).fences@) && !unit_start_at(old(self).toks@, old(self).pos as int)
                && (old(self).toks@[old(self).pos as int].tok is Prime || (old(self).toks@[old(self).pos as int].tok matches Tok::Op(op) && op.spec_is_postfix()) || old(self).toks@[old(self).pos as int].tok is Dot
                    || old(self).toks@[old(self).pos as int].tok is LBrack || (old(self).toks@[old(self).pos as int].tok is LParen && head is Ident))),
                self.pos == old(self).pos ==> e == head && self.fences@ == old(self).fences@,
                self.pos > old(self).pos ==> built_past(e, head),
            ensures
                target is Some ==> target == Some((e, self.pos as int)) && self.fences@ == old(self).fences@,
                kept(*old(self), *self),
                built_on(e, head),
                first ==> e == head && self.pos == old(self).pos,
                self.pos == old(self).pos ==> e == head && !adv && self.fences@ == old(self).fences@,
                self.pos > old(self).pos ==> built_past(e, head),
            decreases self.toks.len() - self.pos,
        {
            if self.fenced() || self.at_unit_start() {
                break;
            }
            let at = self.pos;
            match self.peek() {
                Tok::Prime => {
                    self.advance();
                    e = Expr::Prime(Box::new(e));
                },
                Tok::Op(op) => {
                    let op = *op;
                    if !op.is_postfix() {
                        break;
                    }
                    self.advance();
                    e = Expr::Unary(op, Box::new(e));
                },
                Tok::Dot => {
                    self.advance();
                    let name = self.field_name()?;
                    e = Expr::Field(Box::new(e), name);
                },
                Tok::LBrack => {
                    self.advance();
                    self.fences.push(0);
                    let args = self.expr_list(&Tok::RBrack);
                    self.fences.pop();
                    let args = args?;
                    self.expect(&Tok::RBrack)?;
                    e = Expr::FnApply(Box::new(e), args);
                },
                Tok::LParen => {
                    if !matches!(e, Expr::Ident(_)) {
                        break;
                    }
                    self.advance();
                    self.fences.push(0);
                    let args = self.expr_list(&Tok::RParen);
                    self.fences.pop();
                    let args = args?;
                    self.expect(&Tok::RParen)?;
                    e = Expr::Apply(Box::new(e), args);
                },
                Tok::Bang => {
                    let instance = match &e {
                        Expr::Ident(name) => name.clone(),
                        Expr::Qualified { instance, name, .. } => {
                            let mut s = instance.clone();
                            append(&mut s, "!");
                            append(&mut s, name.as_str());
                            s
                        },
                        Expr::Apply(head, _) => match &**head {
                            Expr::Ident(name) => name.clone(),
                            _ => return Err(self.err(text("`!` must follow an instance name"))),
                        },
                        _ => return Err(self.err(text("`!` must follow an instance name"))),
                    };
                    self.advance();
                    // `Inv!2` picks the second conjunct of `Inv`, `Inv!:` its
                    // whole body, `Inv!<<` and `Inv!>>` the sides of a tuple,
                    // and `Inv!@` the subject of an EXCEPT: proof notation for
                    // pointing inside a definition, not values.
                    let name = match self.peek() {
                        Tok::Num(n) => {
                            let s = crate::text::int_text(*n);
                            self.advance();
                            s
                        },
                        Tok::Op(op) => {
                            let s = text(op.symbol());
                            self.advance();
                            s
                        },
                        Tok::At => {
                            self.advance();
                            text("@")
                        },
                        Tok::LTup => {
                            self.advance();
                            text("<<")
                        },
                        Tok::RTup => {
                            self.advance();
                            text(">>")
                        },
                        Tok::Colon => {
                            self.advance();
                            String::new()
                        },
                        _ => self.expect_ident()?,
                    };
                    let mut args: Vec<Expr> = Vec::new();
                    if self.eat(&Tok::LParen) {
                        self.fences.push(0);
                        let list = self.expr_list(&Tok::RParen);
                        self.fences.pop();
                        args = list?;
                        self.expect(&Tok::RParen)?;
                    }
                    e = Expr::Qualified { instance, name, args };
                },
                _ => break,
            }
            if self.pos == at {
                break;
            }
        }
        Ok(e)
    }

    fn expr_list(&mut self, close: &Tok) -> (r: Result<Vec<Expr>, Error>)
        requires
            old(self).wf(),
            !(*close is Eof),
        ensures
            old(self).toks@[old(self).pos as int].tok@ == close@ ==> (r matches Ok(v) && v.len() == 0) && final(self).pos == old(self).pos,
            old(self).toks@[old(self).pos as int].tok@ != close@ ==> (r matches Ok(v) ==> v.len() >= 1 && final(self).pos > old(self).pos),
            kept(*old(self), *final(self)),
            parse_error(r),
        decreases old(self).nesting_limit - old(self).depth, old(self).toks.len() - old(self).pos, 1nat,
    {
        let mut out: Vec<Expr> = Vec::new();
        if tok_eq(self.peek(), close) {
            return Ok(out);
        }
        loop
            invariant
                kept(*old(self), *self),
                !(*close is Eof),
                old(self).toks@[old(self).pos as int].tok@ != close@,
                out.len() > 0 ==> self.pos > old(self).pos,
            decreases self.toks.len() - self.pos,
        {
            // `FoldSet(+, 0, S)` passes the operator itself, not an
            // application of it; so does `apply(', v')`.
            let next = self.peek_at(1);
            if matches!(next, Tok::Comma) || tok_eq(next, close) {
                if let Some(operator) = self.operator_by_symbol() {
                    out.push(operator);
                    if !self.eat(&Tok::Comma) {
                        return Ok(out);
                    }
                    continue;
                }
            }
            out.push(self.expr(0)?);
            if !self.eat(&Tok::Comma) {
                return Ok(out);
            }
        }
    }
}

} // verus!

verus! {

impl Parser {
    #[verifier::rlimit(60)]
    fn primary(&mut self) -> (r: Result<Expr, Error>)
        requires
            old(self).wf(),
        ensures
            follows(g_primary(old(self).toks@, old(self).pos as int,  old(self).fences@, old(self).depth as int, old(self).nesting_limit as int), r, *old(self), *final(self)),
            r matches Ok(e) ==> opens(old(self).toks@[old(self).pos as int].tok, e),
            literal(old(self).toks@[old(self).pos as int].tok) ==> r is Ok && final(self).pos == old(self).pos + 1,
            old(self).depth < old(self).nesting_limit && if_of_literals(old(self).toks@, old(self).pos as int)
                ==> (r matches Ok(e) && (e matches Expr::If { cond, then, otherwise }
                    && opens(old(self).toks@[old(self).pos + 1].tok, *cond)
                    && opens(old(self).toks@[old(self).pos + 3].tok, *then)
                    && opens(old(self).toks@[old(self).pos + 5].tok, *otherwise))
                    && final(self).pos == old(self).pos + 6),
            kept(*old(self), *final(self)),
            r is Ok ==> final(self).pos > old(self).pos,
            parse_error(r),
        decreases old(self).nesting_limit - old(self).depth, old(self).toks.len() - old(self).pos, 1nat,
    {
        let at = self.pos;
        if self.at_eof() {
            return Err(self.err(text("expected an expression, found the end of the input")));
        }
        let t = self.advance();
        match t {
            Tok::Num(n) => Ok(Expr::Num(n)),
            Tok::Decimal(text) => Ok(Expr::Decimal(text)),
            Tok::Str(s) => Ok(Expr::Str(s)),
            Tok::Kw(Kw::True) => Ok(Expr::Bool(true)),
            Tok::Kw(Kw::False) => Ok(Expr::Bool(false)),
            Tok::Ident(name) => Ok(Expr::Ident(name)),
            Tok::At => Ok(Expr::At),
            Tok::LParen => {
                let ghost inner = g_expr(old(self).toks@, at + 1, 0, old(self).fences@.push(0),
                    old(self).depth as int, old(self).nesting_limit as int);
                self.fences.push(0);
                let e = self.expr(0);
                let ghost pushed = self.fences@;
                self.fences.pop();
                proof {
                    if inner is Some && inner->Some_0 is Ok {
                        assert(pushed =~= old(self).fences@.push(0));
                        assert(self.fences@ =~= old(self).fences@);
                    }
                }
                let e = e?;
                self.expect(&Tok::RParen)?;
                Ok(e)
            },
            Tok::LTup => self.tuple_or_action(),
            Tok::LBrace => self.brace_form(),
            Tok::LBrack => self.bracket_form(),
            Tok::Kw(Kw::If) => {
                let cond = self.expr(0)?;
                self.expect(&Tok::Kw(Kw::Then))?;
                let then = self.expr(0)?;
                self.expect(&Tok::Kw(Kw::Else))?;
                let otherwise = self.expr(0)?;
                Ok(Expr::If { cond: Box::new(cond), then: Box::new(then), otherwise: Box::new(otherwise) })
            },
            Tok::Kw(Kw::Let) => self.let_form(),
            Tok::Kw(Kw::Choose) => {
                let mut bounds = self.bounds(&Tok::Colon)?;
                self.expect(&Tok::Colon)?;
                let body = self.expr(0)?;
                if bounds.len() != 1 {
                    return Err(self.err(text("CHOOSE takes exactly one bound variable")));
                }
                let bound = bounds.pop().unwrap();
                Ok(Expr::Choose { bound: Box::new(bound), body: Box::new(body) })
            },
            Tok::Kw(Kw::Case) => self.case_form(),
            Tok::Kw(Kw::Lambda) => {
                let mut params: Vec<Param> = Vec::new();
                params.push(self.param()?);
                while self.eat(&Tok::Comma)
                    invariant
                        kept(*old(self), *self),
                        self.pos > old(self).pos,
                        !literal(old(self).toks@[old(self).pos as int].tok),
                        !if_of_literals(old(self).toks@, old(self).pos as int),
                        old(self).toks@[old(self).pos as int].tok == Tok::Kw(Kw::Lambda),
                    decreases self.toks.len() - self.pos,
                {
                    params.push(self.param()?);
                }
                self.expect(&Tok::Colon)?;
                let body = self.expr(0)?;
                Ok(Expr::Lambda { params, body: Box::new(body) })
            },
            // `WF_vars` arrives as one word, but `WF_<<a, b>>` leaves the
            // subscript for the parser to read.
            Tok::Fair { strong, subscript } => {
                let subscript = if subscript.as_str().is_empty() {
                    self.postfix()?
                } else {
                    Expr::Ident(subscript)
                };
                self.expect(&Tok::LParen)?;
                self.fences.push(0);
                let action = self.expr(0);
                self.fences.pop();
                let action = action?;
                self.expect(&Tok::RParen)?;
                Ok(Expr::Fairness { strong, subscript: Box::new(subscript), action: Box::new(action) })
            },
            other => {
                let mut msg = text("expected an expression, found ");
                append(&mut msg, describe(&other).as_str());
                Err(self.err_at(at, msg))
            },
        }
    }

    fn let_form(&mut self) -> (r: Result<Expr, Error>)
        requires
            old(self).wf(),
        ensures
            r matches Ok(e) ==> e is Let,
            kept(*old(self), *final(self)),
            r is Ok ==> final(self).pos > old(self).pos,
            parse_error(r),
        decreases old(self).nesting_limit - old(self).depth, old(self).toks.len() - old(self).pos, 3nat,
    {
        let mut defs: Vec<Def> = Vec::new();
        let mut instances: Vec<LetInstance> = Vec::new();
        while !matches!(self.peek(), Tok::Kw(Kw::In))
            invariant
                kept(*old(self), *self),
            decreases self.toks.len() - self.pos,
        {
            if self.eat(&Tok::Kw(Kw::Recursive)) {
                self.decl_list()?;
                continue;
            }
            if matches!(self.peek(), Tok::Kw(Kw::Instance)) {
                let (module, subs) = self.instance_tail()?;
                instances.push(LetInstance { name: None, module, subs });
                continue;
            }
            let name = match self.peek() {
                Tok::Ident(name) => name.clone(),
                _ => return Err(self.err(text("expected a definition inside LET"))),
            };
            match self.named_definition(name, false)? {
                Unit::Def(def) => defs.push(def),
                Unit::Instance { name, module, subs } => {
                    instances.push(LetInstance { name, module, subs });
                },
                _ => return Err(self.err(text("only definitions may appear inside LET"))),
            }
        }
        self.advance();
        let body = self.expr(0)?;
        Ok(Expr::Let { defs, instances, body: Box::new(body) })
    }

    fn case_form(&mut self) -> (r: Result<Expr, Error>)
        requires
            old(self).wf(),
        ensures
            r matches Ok(e) ==> e is Case,
            kept(*old(self), *final(self)),
            r is Ok ==> final(self).pos > old(self).pos,
            parse_error(r),
        decreases old(self).nesting_limit - old(self).depth, old(self).toks.len() - old(self).pos, 1nat,
    {
        let mut arms: Vec<(Expr, Expr)> = Vec::new();
        let mut other: Option<Box<Expr>> = None;
        loop
            invariant
                kept(*old(self), *self),
            decreases self.toks.len() - self.pos,
        {
            let ghost at = self.pos;
            if self.eat(&Tok::Kw(Kw::Other)) {
                self.expect(&Tok::Arrow)?;
                other = Some(Box::new(self.expr(0)?));
            } else {
                let guard = self.expr(0)?;
                self.expect(&Tok::Arrow)?;
                let result = self.expr(0)?;
                arms.push((guard, result));
            }
            if other.is_some() || !self.eat(&Tok::Op(Op::Always)) {
                return Ok(Expr::Case { arms, other });
            }
        }
    }

    fn tuple_or_action(&mut self) -> (r: Result<Expr, Error>)
        requires
            old(self).wf(),
        ensures
            r matches Ok(e) ==> e is Tuple || e is ActionAngle,
            kept(*old(self), *final(self)),
            r is Ok ==> final(self).pos > old(self).pos,
            parse_error(r),
        decreases old(self).nesting_limit - old(self).depth, old(self).toks.len() - old(self).pos, 2nat,
    {
        self.fences.push(0);
        let items = self.expr_list(&Tok::RTup);
        self.fences.pop();
        let mut items = items?;
        self.expect(&Tok::RTup)?;
        if self.at_subscript() {
            if items.len() != 1 {
                return Err(self.err(text("`<<A>>_v` takes a single action")));
            }
            let subscript = self.subscript()?;
            let action = items.pop().unwrap();
            return Ok(Expr::ActionAngle { action: Box::new(action), subscript: Box::new(subscript) });
        }
        Ok(Expr::Tuple(items))
    }

    /// Is a `_v` subscript coming?
    fn at_subscript(&self) -> (r: bool)
        requires
            self.wf(),
        ensures
            r == subscript_token(self.toks@[self.pos as int].tok),
    {
        match self.peek() {
            Tok::Underscore => true,
            Tok::Ident(name) => underscored(name),
            _ => false,
        }
    }

    /// The `v` of `[A]_v`, read tightly so it cannot swallow what follows.
    fn subscript(&mut self) -> (r: Result<Expr, Error>)
        requires
            old(self).wf(),
        ensures
            r is Ok ==> final(self).pos > old(self).pos,
            old(self).toks@[old(self).pos as int].tok matches Tok::Ident(name) ==> (name@.len() > 1 && name@[0] == '_' ==> (r matches Ok(e)
                ==> exists|x: String| x@ == name@.subrange(1, name@.len() as int) && built_on(e, Expr::Ident(x)))),
            !(old(self).toks@[old(self).pos as int].tok is Underscore) && !(old(self).toks@[old(self).pos as int].tok matches Tok::Ident(name) && name@.len() > 1 && name@[0] == '_') ==> r is Err,
            kept(*old(self), *final(self)),
            parse_error(r),
        decreases old(self).nesting_limit - old(self).depth, old(self).toks.len() - old(self).pos, 3nat,
    {
        if let Tok::Ident(name) = self.peek() {
            let cs = crate::text::chars_of(name.as_str());
            if cs.len() > 1 && cs[0] == '_' {
                let rest = crate::text::string_between(&cs, 1, cs.len());
                self.advance();
                // The name may carry on -- `[A]_Inst!vars` -- so whatever
                // follows it still belongs to the subscript.
                let ghost head = Expr::Ident(rest);
                let out = self.continue_postfix(Expr::Ident(rest));
                proof {
                    if out is Ok {
                        assert(built_on(out->Ok_0, head));
                    }
                }
                return out;
            }
        }
        self.expect(&Tok::Underscore)?;
        self.postfix()
    }

    /// `{a, b}`, `{x \\in S : P}` and `{e : x \\in S}` are told apart by what
    /// follows their first expression rather than by scanning ahead: a
    /// `CHOOSE` inside the braces has a `:` of its own.
    fn brace_form(&mut self) -> (r: Result<Expr, Error>)
        requires
            old(self).wf(),
        ensures
            r matches Ok(e) ==> e is SetEnum || e is SetFilter || e is SetMap,
            old(self).toks@[old(self).pos as int].tok is RBrace ==> (r matches Ok(Expr::SetEnum(items)) && items.len() == 0),
            kept(*old(self), *final(self)),
            r is Ok ==> final(self).pos > old(self).pos,
            parse_error(r),
        decreases old(self).nesting_limit - old(self).depth, old(self).toks.len() - old(self).pos, 3nat,
    {
        if self.eat(&Tok::RBrace) {
            return Ok(Expr::SetEnum(Vec::new()));
        }
        self.fences.push(0);
        let out = self.brace_inner();
        self.fences.pop();
        out
    }

    fn brace_inner(&mut self) -> (r: Result<Expr, Error>)
        requires
            old(self).wf(),
        ensures
            r matches Ok(e) ==> e is SetEnum || e is SetFilter || e is SetMap,
            kept(*old(self), *final(self)),
            r is Ok ==> final(self).pos > old(self).pos,
            parse_error(r),
        decreases old(self).nesting_limit - old(self).depth, old(self).toks.len() - old(self).pos, 2nat,
    {
        let first = self.expr(0)?;
        if self.eat(&Tok::Colon) {
            match as_bound(first) {
                Ok(bound) => {
                    let pred = self.expr(0)?;
                    self.expect(&Tok::RBrace)?;
                    return Ok(Expr::SetFilter { bound: Box::new(bound), pred: Box::new(pred) });
                },
                Err(first) => {
                    let bounds = self.bounds(&Tok::RBrace)?;
                    self.expect(&Tok::RBrace)?;
                    return Ok(Expr::SetMap { expr: Box::new(first), bounds });
                },
            }
        }
        let mut items: Vec<Expr> = Vec::new();
        items.push(first);
        while self.eat(&Tok::Comma)
            invariant
                kept(*old(self), *self),
                self.pos > old(self).pos,
            decreases self.toks.len() - self.pos,
        {
            items.push(self.expr(0)?);
        }
        self.expect(&Tok::RBrace)?;
        Ok(Expr::SetEnum(items))
    }

    fn bracket_form(&mut self) -> (r: Result<Expr, Error>)
        requires
            old(self).wf(),
        ensures
            r matches Ok(e) ==> shaped(bracket_shape(old(self).toks@, old(self).pos as int), e),
            kept(*old(self), *final(self)),
            r is Ok ==> final(self).pos > old(self).pos,
            parse_error(r),
        decreases old(self).nesting_limit - old(self).depth, old(self).toks.len() - old(self).pos, 4nat,
    {
        let shape = if self.subscript_follows_bracket() { Shape::Closed } else { self.shape() };
        self.fences.push(0);
        let inner = self.bracket_inner(shape);
        self.fences.pop();
        let inner = inner?;
        if !matches!(shape, Shape::Closed) {
            return Ok(inner);
        }
        let subscript = self.subscript()?;
        Ok(Expr::ActionBox { action: Box::new(inner), subscript: Box::new(subscript) })
    }

    fn bracket_inner(&mut self, shape: Shape) -> (r: Result<Expr, Error>)
        requires
            old(self).wf(),
        ensures
            r matches Ok(e) ==> shape != Shape::Closed ==> shaped(shape, e),
            kept(*old(self), *final(self)),
            r is Ok ==> final(self).pos > old(self).pos,
            parse_error(r),
        decreases old(self).nesting_limit - old(self).depth, old(self).toks.len() - old(self).pos, 2nat,
    {
        match shape {
            Shape::MapsTo { bounded: true } => {
                let bounds = self.bounds(&Tok::MapsTo)?;
                self.expect(&Tok::MapsTo)?;
                let body = self.expr(0)?;
                self.expect(&Tok::RBrack)?;
                Ok(Expr::FnDef { bounds, body: Box::new(body) })
            },
            Shape::MapsTo { bounded: false } => {
                let fields = self.field_list(&Tok::MapsTo)?;
                self.expect(&Tok::RBrack)?;
                Ok(Expr::Record(fields))
            },
            Shape::Colon => {
                let fields = self.field_list(&Tok::Colon)?;
                self.expect(&Tok::RBrack)?;
                Ok(Expr::RecordSet(fields))
            },
            Shape::Arrow => {
                let domain = self.expr(0)?;
                self.expect(&Tok::Arrow)?;
                let range = self.expr(0)?;
                self.expect(&Tok::RBrack)?;
                Ok(Expr::FnSet { domain: Box::new(domain), range: Box::new(range) })
            },
            Shape::Except => {
                let base = self.expr(0)?;
                self.expect(&Tok::Kw(Kw::Except))?;
                let updates = self.except_updates()?;
                self.expect(&Tok::RBrack)?;
                Ok(Expr::Except { base: Box::new(base), updates })
            },
            Shape::Closed => {
                let action = self.expr(0)?;
                self.expect(&Tok::RBrack)?;
                Ok(action)
            },
        }
    }

    fn field_list(&mut self, sep: &Tok) -> (r: Result<Vec<(String, Expr)>, Error>)
        requires
            old(self).wf(),
            !(*sep is Eof),
        ensures
            kept(*old(self), *final(self)),
            r is Ok ==> final(self).pos > old(self).pos,
            parse_error(r),
        decreases old(self).nesting_limit - old(self).depth, old(self).toks.len() - old(self).pos, 1nat,
    {
        let mut out: Vec<(String, Expr)> = Vec::new();
        loop
            invariant
                kept(*old(self), *self),
                !(*sep is Eof),
            decreases self.toks.len() - self.pos,
        {
            let name = self.expect_ident()?;
            self.expect(sep)?;
            let value = self.expr(0)?;
            out.push((name, value));
            if !self.eat(&Tok::Comma) {
                return Ok(out);
            }
        }
    }

    fn except_updates(&mut self) -> (r: Result<Vec<(Vec<ExceptPath>, Expr)>, Error>)
        requires
            old(self).wf(),
        ensures
            kept(*old(self), *final(self)),
            r is Ok ==> final(self).pos > old(self).pos,
            parse_error(r),
        decreases old(self).nesting_limit - old(self).depth, old(self).toks.len() - old(self).pos, 1nat,
    {
        let mut out: Vec<(Vec<ExceptPath>, Expr)> = Vec::new();
        loop
            invariant
                kept(*old(self), *self),
            decreases self.toks.len() - self.pos,
        {
            let ghost start = self.pos;
            self.expect(&Tok::Bang)?;
            let mut path: Vec<ExceptPath> = Vec::new();
            loop
                invariant
                    kept(*old(self), *self),
                    self.pos > start,
                decreases self.toks.len() - self.pos,
            {
                if self.eat(&Tok::LBrack) {
                    self.fences.push(0);
                    let indices = self.expr_list(&Tok::RBrack);
                    self.fences.pop();
                    let mut indices = indices?;
                    self.expect(&Tok::RBrack)?;
                    let index = if indices.len() == 1 { indices.pop().unwrap() } else { Expr::Tuple(indices) };
                    path.push(ExceptPath::Index(index));
                } else if self.eat(&Tok::Dot) {
                    path.push(ExceptPath::Field(self.field_name()?));
                } else {
                    break;
                }
            }
            if path.len() == 0 {
                return Err(self.err(text("EXCEPT update needs a `[...]` or `.field` path")));
            }
            self.expect(&Tok::Op(Op::Eq))?;
            let value = self.expr(0)?;
            out.push((path, value));
            if !self.eat(&Tok::Comma) {
                return Ok(out);
            }
        }
    }

    fn bounds(&mut self, terminator: &Tok) -> (r: Result<Vec<Bound>, Error>)
        requires
            old(self).wf(),
        ensures
            kept(*old(self), *final(self)),
            r is Ok ==> final(self).pos > old(self).pos,
            parse_error(r),
        decreases old(self).nesting_limit - old(self).depth, old(self).toks.len() - old(self).pos, 1nat,
    {
        let mut out: Vec<Bound> = Vec::new();
        loop
            invariant
                kept(*old(self), *self),
            decreases self.toks.len() - self.pos,
        {
            let ghost start = self.pos;
            let mut destructure = false;
            let mut names: Vec<String> = Vec::new();
            if self.eat(&Tok::LTup) {
                destructure = true;
                loop
                    invariant
                        kept(*old(self), *self),
                        self.pos > start,
                    decreases self.toks.len() - self.pos,
                {
                    names.push(self.expect_ident()?);
                    if !self.eat(&Tok::Comma) {
                        break;
                    }
                }
                self.expect(&Tok::RTup)?;
            } else {
                names.push(self.expect_ident()?);
                while matches!(self.peek(), Tok::Comma) && matches!(self.peek_at(1), Tok::Ident(_))
                    invariant
                        kept(*old(self), *self),
                        self.pos > start,
                    decreases self.toks.len() - self.pos,
                {
                    self.advance();
                    names.push(self.expect_ident()?);
                }
            }
            let domain = if self.eat(&Tok::Op(Op::In)) { Some(self.expr(0)?) } else { None };
            out.push(Bound { names, domain, destructure });
            if tok_eq(self.peek(), terminator) || !self.eat(&Tok::Comma) {
                return Ok(out);
            }
        }
    }

    /// Is this `[A]_v`? A quantifier inside the brackets puts a `:` where a
    /// record set would have one, so the only reliable sign is the subscript
    /// after the closing bracket.
    fn subscript_follows_bracket(&self) -> (r: bool)
        requires
            self.wf(),
        ensures
            r == subscript_after(self.toks@, self.pos as int, 0),
    {
        let mut depth: usize = 0;
        let mut i = self.pos;
        while i < self.toks.len()
            invariant
                self.wf(),
                self.pos <= i <= self.toks.len(),
                depth <= i - self.pos,
                subscript_after(self.toks@, self.pos as int, 0) == subscript_after(self.toks@, i as int, depth as nat),
            decreases self.toks.len() - i,
        {
            match &self.toks[i].tok {
                Tok::LParen | Tok::LBrack | Tok::LBrace | Tok::LTup => depth = depth + 1,
                Tok::RBrack if depth == 0 => {
                    return match self.peek_at(i - self.pos + 1) {
                        Tok::Underscore => true,
                        Tok::Ident(name) => underscored(name),
                        _ => false,
                    };
                },
                Tok::RParen | Tok::RBrack | Tok::RBrace | Tok::RTup => {
                    if depth == 0 {
                        return false;
                    }
                    depth = depth - 1;
                },
                Tok::Eof => return false,
                _ => {},
            }
            i = i + 1;
        }
        false
    }

    /// Look ahead past a just-consumed `[` to the first delimiter that
    /// identifies the construct, ignoring anything nested inside brackets.
    fn shape(&self) -> (r: Shape)
        requires
            self.wf(),
        ensures
            r == shape_from(self.toks@, self.pos as int, 0, false),
    {
        let mut depth: usize = 0;
        let mut saw_in = false;
        let mut i = self.pos;
        while i < self.toks.len()
            invariant
                self.wf(),
                self.pos <= i <= self.toks.len(),
                depth <= i - self.pos,
                shape_from(self.toks@, self.pos as int, 0, false) == shape_from(self.toks@, i as int, depth as nat, saw_in),
            decreases self.toks.len() - i,
        {
            match &self.toks[i].tok {
                Tok::LParen | Tok::LBrack | Tok::LBrace | Tok::LTup => depth = depth + 1,
                Tok::RParen | Tok::RBrack | Tok::RBrace | Tok::RTup => {
                    if depth == 0 {
                        return Shape::Closed;
                    }
                    depth = depth - 1;
                },
                Tok::Eof => return Shape::Closed,
                t => {
                    if depth == 0 {
                        match t {
                            Tok::Op(Op::In) => saw_in = true,
                            Tok::MapsTo => return Shape::MapsTo { bounded: saw_in },
                            Tok::Colon => return Shape::Colon,
                            Tok::Arrow => return Shape::Arrow,
                            Tok::Kw(Kw::Except) => return Shape::Except,
                            _ => {},
                        }
                    }
                },
            }
            i = i + 1;
        }
        Shape::Closed
    }
}

/// Tokens from `i` to `i + 5`, all on one line and none in the first
/// column: a literal or name, an infix operator, a literal or name, an
/// infix operator, a literal or name, and the end of the input.
pub open spec fn two_operators_at(toks: Seq<Token>, o1: Op, o2: Op) -> bool {
    &&& toks.len() == 6
    &&& literal(toks[0].tok) && toks[1].tok == Tok::Op(o1) && literal(toks[2].tok)
    &&& toks[3].tok == Tok::Op(o2) && literal(toks[4].tok) && toks[5].tok is Eof
    &&& forall|k: int| 0 <= k < 6 ==> (#[trigger] toks[k]).line == toks[0].line && toks[k].col > 1
    &&& o1.spec_infix_prec() is Some && !o1.spec_is_postfix()
    &&& o2.spec_infix_prec() is Some && !o2.spec_is_postfix()
}

/// A literal or a name, followed by an infix operator or the end, is read
/// as an operand by itself.
proof fn lemma_literal_operand(toks: Seq<Token>, k: int, depth: int, limit: int)
    requires
        0 <= k, k + 1 < toks.len(), 0 <= depth <= limit,
        literal(toks[k].tok),
        toks[k + 1].tok is Eof || (toks[k + 1].tok matches Tok::Op(o) && !o.spec_is_postfix()),
        toks[k + 1].col > 1,
    ensures
        g_unit(toks, k, Seq::empty(), depth, limit) == Some(Ok::<(Expr, int), ()>((literal_expr(toks[k].tok), k + 1))),
{
    assert(!fenced_at(toks, k + 1, Seq::empty()));
    assert(!unit_start_at(toks, k + 1));
    assert(g_after(toks, k + 1, literal_expr(toks[k].tok), Seq::empty()) == Some((literal_expr(toks[k].tok), k + 1)));
    assert(g_primary(toks, k, Seq::empty(), depth, limit) == Some(Ok::<(Expr, int), ()>((literal_expr(toks[k].tok), k + 1))));
    assert(g_post(toks, k, Seq::empty(), depth, limit) == Some(Ok::<(Expr, int), ()>((literal_expr(toks[k].tok), k + 1))));
}

/// Infix operators group by how tightly they bind: in `a o1 b o2 c`, the
/// operator that binds tighter takes its operands first, and of two that
/// bind alike the left one does, unless it groups to the right. So
/// `1 + 5 % 3` is `1 + (5 % 3)`, `1 % 5 + 3` is `(1 % 5) + 3`, `a - b - c`
/// is `(a - b) - c` and `a => b => c` is `a => (b => c)`.
pub proof fn law_tighter_operator_binds_first(toks: Seq<Token>, o1: Op, o2: Op, limit: int)
    requires
        two_operators_at(toks, o1, o2),
        limit >= 3,
    ensures
        ({
            let (a, b, c) = (literal_expr(toks[0].tok), literal_expr(toks[2].tok), literal_expr(toks[4].tok));
            let (p1, p2) = (o1.spec_infix_prec()->Some_0, o2.spec_infix_prec()->Some_0);
            &&& (p2 > p1 || (p2 == p1 && o1.spec_is_right_assoc()))
                ==> whole_expression(toks, limit) == Some(Ok::<Expr, ()>(
                    Expr::Binary(o1, Box::new(a), Box::new(Expr::Binary(o2, Box::new(b), Box::new(c))))))
            &&& (p2 < p1 || (p2 == p1 && !o1.spec_is_right_assoc()))
                ==> whole_expression(toks, limit) == Some(Ok::<Expr, ()>(
                    Expr::Binary(o2, Box::new(Expr::Binary(o1, Box::new(a), Box::new(b))), Box::new(c))))
        }),
{
    let e: Seq<u32> = Seq::empty();
    let a = literal_expr(toks[0].tok);
    let b = literal_expr(toks[2].tok);
    let c = literal_expr(toks[4].tok);
    let p1 = o1.spec_infix_prec()->Some_0;
    let p2 = o2.spec_infix_prec()->Some_0;
    assert(p1 <= 13 && p2 <= 13);
    let n1: u8 = if o1.spec_is_right_assoc() { p1 } else { (p1 + 1) as u8 };
    let n2: u8 = if o2.spec_is_right_assoc() { p2 } else { (p2 + 1) as u8 };
    assert(toks[0].col > 1 && toks[1].col > 1 && toks[2].col > 1 && toks[3].col > 1 && toks[4].col > 1 && toks[5].col > 1);
    assert(toks[1].line == toks[0].line && toks[3].line == toks[0].line && toks[5].line == toks[0].line);
    assert(!proof_at(toks, 1) && !proof_at(toks, 3) && !proof_at(toks, 5));
    assert(!unit_start_at(toks, 1) && !unit_start_at(toks, 3) && !unit_start_at(toks, 5));
    assert(!fenced_at(toks, 1, e) && !fenced_at(toks, 3, e) && !fenced_at(toks, 5, e));
    lemma_literal_operand(toks, 0, 1, limit);
    lemma_literal_operand(toks, 2, 2, limit);
    lemma_literal_operand(toks, 4, 2, limit);
    lemma_literal_operand(toks, 4, 3, limit);
    assert(toks[0].tok != Tok::Op(Op::And) && toks[0].tok != Tok::Op(Op::Or));
    assert(toks[2].tok != Tok::Op(Op::And) && toks[2].tok != Tok::Op(Op::Or));
    assert(toks[4].tok != Tok::Op(Op::And) && toks[4].tok != Tok::Op(Op::Or));
    if p2 > p1 || (p2 == p1 && o1.spec_is_right_assoc()) {
        assert(p2 >= n1);
        let bc = Expr::Binary(o2, Box::new(b), Box::new(c));
        assert(g_infix(toks, 5, c, n2, e, 3, limit) == Some(Ok::<(Expr, int), ()>((c, 5))));
        assert(g_inner(toks, 4, n2, e, 3, limit) == Some(Ok::<(Expr, int), ()>((c, 5))));
        assert(g_expr(toks, 4, n2, e, 2, limit) == Some(Ok::<(Expr, int), ()>((c, 5))));
        assert(g_infix(toks, 5, bc, n1, e, 2, limit) == Some(Ok::<(Expr, int), ()>((bc, 5))));
        assert(g_infix(toks, 3, b, n1, e, 2, limit) == Some(Ok::<(Expr, int), ()>((bc, 5))));
        assert(g_inner(toks, 2, n1, e, 2, limit) == Some(Ok::<(Expr, int), ()>((bc, 5))));
        assert(g_expr(toks, 2, n1, e, 1, limit) == Some(Ok::<(Expr, int), ()>((bc, 5))));
        let whole = Expr::Binary(o1, Box::new(a), Box::new(bc));
        assert(g_infix(toks, 5, whole, 0, e, 1, limit) == Some(Ok::<(Expr, int), ()>((whole, 5))));
        assert(g_infix(toks, 1, a, 0, e, 1, limit) == Some(Ok::<(Expr, int), ()>((whole, 5))));
        assert(g_inner(toks, 0, 0, e, 1, limit) == Some(Ok::<(Expr, int), ()>((whole, 5))));
        assert(g_expr(toks, 0, 0, e, 0, limit) == Some(Ok::<(Expr, int), ()>((whole, 5))));
    } else {
        assert(p2 < n1);
        assert(g_infix(toks, 3, b, n1, e, 2, limit) == Some(Ok::<(Expr, int), ()>((b, 3))));
        assert(g_inner(toks, 2, n1, e, 2, limit) == Some(Ok::<(Expr, int), ()>((b, 3))));
        assert(g_expr(toks, 2, n1, e, 1, limit) == Some(Ok::<(Expr, int), ()>((b, 3))));
        let ab = Expr::Binary(o1, Box::new(a), Box::new(b));
        assert(g_infix(toks, 5, c, n2, e, 2, limit) == Some(Ok::<(Expr, int), ()>((c, 5))));
        assert(g_inner(toks, 4, n2, e, 2, limit) == Some(Ok::<(Expr, int), ()>((c, 5))));
        assert(g_expr(toks, 4, n2, e, 1, limit) == Some(Ok::<(Expr, int), ()>((c, 5))));
        let whole = Expr::Binary(o2, Box::new(ab), Box::new(c));
        assert(g_infix(toks, 5, whole, 0, e, 1, limit) == Some(Ok::<(Expr, int), ()>((whole, 5))));
        assert(g_infix(toks, 3, ab, 0, e, 1, limit) == Some(Ok::<(Expr, int), ()>((whole, 5))));
        assert(g_infix(toks, 1, a, 0, e, 1, limit) == Some(Ok::<(Expr, int), ()>((whole, 5))));
        assert(g_inner(toks, 0, 0, e, 1, limit) == Some(Ok::<(Expr, int), ()>((whole, 5))));
        assert(g_expr(toks, 0, 0, e, 0, limit) == Some(Ok::<(Expr, int), ()>((whole, 5))));
    }
}

/// The token that, at the start of an operand, is the prefix operator `op`.
pub open spec fn prefix_token(t: Tok, op: Op) -> bool {
    ||| t == Tok::Op(op) && (op == Op::Not || op == Op::Always || op == Op::Eventually || op == Op::Minus)
    ||| t == Tok::Kw(Kw::Domain) && op == Op::Domain
    ||| t == Tok::Kw(Kw::Subset) && op == Op::Subset
    ||| t == Tok::Kw(Kw::Union) && op == Op::BigUnion
    ||| t == Tok::Kw(Kw::Enabled) && op == Op::Enabled
    ||| t == Tok::Kw(Kw::Unchanged) && op == Op::Unchanged
}

/// A prefix operator takes as its operand everything that binds at least
/// as tightly as its prefix precedence: in `op a o b`, the operand is
/// `a o b` when `o` binds at least that tightly, and `a` alone otherwise.
/// So `SUBSET S \cup T` is `(SUBSET S) \cup T`, and `-a ^ b` is `-(a ^ b)`.
pub proof fn law_prefix_operand_extent(toks: Seq<Token>, op: Op, o: Op, limit: int)
    requires
        toks.len() == 5,
        prefix_token(toks[0].tok, op),
        literal(toks[1].tok) && toks[2].tok == Tok::Op(o) && literal(toks[3].tok) && toks[4].tok is Eof,
        forall|k: int| 0 <= k < 5 ==> (#[trigger] toks[k]).line == toks[0].line && toks[k].col > 1,
        o.spec_infix_prec() is Some && !o.spec_is_postfix(),
        limit >= 3,
    ensures
        ({
            let (a, b) = (literal_expr(toks[1].tok), literal_expr(toks[3].tok));
            &&& o.spec_infix_prec()->Some_0 >= op.spec_prefix_prec()
                ==> whole_expression(toks, limit) == Some(Ok::<Expr, ()>(
                    Expr::Unary(op, Box::new(Expr::Binary(o, Box::new(a), Box::new(b))))))
            &&& o.spec_infix_prec()->Some_0 < op.spec_prefix_prec()
                ==> whole_expression(toks, limit) == Some(Ok::<Expr, ()>(
                    Expr::Binary(o, Box::new(Expr::Unary(op, Box::new(a))), Box::new(b))))
        }),
{
    let e: Seq<u32> = Seq::empty();
    let a = literal_expr(toks[1].tok);
    let b = literal_expr(toks[3].tok);
    let p = o.spec_infix_prec()->Some_0;
    let pp = op.spec_prefix_prec();
    assert(p <= 13);
    let n: u8 = if o.spec_is_right_assoc() { p } else { (p + 1) as u8 };
    assert(toks[0].col > 1 && toks[1].col > 1 && toks[2].col > 1 && toks[3].col > 1 && toks[4].col > 1);
    assert(toks[2].line == toks[0].line && toks[4].line == toks[0].line);
    assert(!proof_at(toks, 2) && !proof_at(toks, 4));
    assert(!unit_start_at(toks, 2) && !unit_start_at(toks, 4));
    assert(!fenced_at(toks, 2, e) && !fenced_at(toks, 4, e));
    lemma_literal_operand(toks, 1, 2, limit);
    lemma_literal_operand(toks, 3, 2, limit);
    lemma_literal_operand(toks, 3, 3, limit);
    assert(toks[1].tok != Tok::Op(Op::And) && toks[1].tok != Tok::Op(Op::Or));
    assert(toks[3].tok != Tok::Op(Op::And) && toks[3].tok != Tok::Op(Op::Or));
    assert(toks[0].tok != Tok::Op(Op::And) && toks[0].tok != Tok::Op(Op::Or));
    assert(!(toks[0].tok is Ident));
    if p >= pp {
        let ab = Expr::Binary(o, Box::new(a), Box::new(b));
        assert(g_infix(toks, 4, b, n, e, 3, limit) == Some(Ok::<(Expr, int), ()>((b, 4))));
        assert(g_inner(toks, 3, n, e, 3, limit) == Some(Ok::<(Expr, int), ()>((b, 4))));
        assert(g_expr(toks, 3, n, e, 2, limit) == Some(Ok::<(Expr, int), ()>((b, 4))));
        assert(g_infix(toks, 4, ab, pp, e, 2, limit) == Some(Ok::<(Expr, int), ()>((ab, 4))));
        assert(g_infix(toks, 2, a, pp, e, 2, limit) == Some(Ok::<(Expr, int), ()>((ab, 4))));
        assert(g_inner(toks, 1, pp, e, 2, limit) == Some(Ok::<(Expr, int), ()>((ab, 4))));
        assert(g_expr(toks, 1, pp, e, 1, limit) == Some(Ok::<(Expr, int), ()>((ab, 4))));
        let whole = Expr::Unary(op, Box::new(ab));
        assert(g_prefixed(toks, 0, op, e, 1, limit) == Some(Ok::<(Expr, int), ()>((whole, 4))));
        assert(g_unit(toks, 0, e, 1, limit) == Some(Ok::<(Expr, int), ()>((whole, 4))));
        assert(g_infix(toks, 4, whole, 0, e, 1, limit) == Some(Ok::<(Expr, int), ()>((whole, 4))));
        assert(g_inner(toks, 0, 0, e, 1, limit) == Some(Ok::<(Expr, int), ()>((whole, 4))));
        assert(g_expr(toks, 0, 0, e, 0, limit) == Some(Ok::<(Expr, int), ()>((whole, 4))));
    } else {
        assert(g_infix(toks, 2, a, pp, e, 2, limit) == Some(Ok::<(Expr, int), ()>((a, 2))));
        assert(g_inner(toks, 1, pp, e, 2, limit) == Some(Ok::<(Expr, int), ()>((a, 2))));
        assert(g_expr(toks, 1, pp, e, 1, limit) == Some(Ok::<(Expr, int), ()>((a, 2))));
        let ua = Expr::Unary(op, Box::new(a));
        assert(g_prefixed(toks, 0, op, e, 1, limit) == Some(Ok::<(Expr, int), ()>((ua, 2))));
        assert(g_unit(toks, 0, e, 1, limit) == Some(Ok::<(Expr, int), ()>((ua, 2))));
        assert(g_infix(toks, 4, b, n, e, 2, limit) == Some(Ok::<(Expr, int), ()>((b, 4))));
        assert(g_inner(toks, 3, n, e, 2, limit) == Some(Ok::<(Expr, int), ()>((b, 4))));
        assert(g_expr(toks, 3, n, e, 1, limit) == Some(Ok::<(Expr, int), ()>((b, 4))));
        let whole = Expr::Binary(o, Box::new(ua), Box::new(b));
        assert(g_infix(toks, 4, whole, 0, e, 1, limit) == Some(Ok::<(Expr, int), ()>((whole, 4))));
        assert(g_infix(toks, 2, ua, 0, e, 1, limit) == Some(Ok::<(Expr, int), ()>((whole, 4))));
        assert(g_inner(toks, 0, 0, e, 1, limit) == Some(Ok::<(Expr, int), ()>((whole, 4))));
        assert(g_expr(toks, 0, 0, e, 0, limit) == Some(Ok::<(Expr, int), ()>((whole, 4))));
    }
}

} // verus!
