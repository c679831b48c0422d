//! The lexical structure of TLA+ source: where trivia ends and which token
//! starts at each position, as functions of the characters.

use vstd::prelude::*;
use crate::syntax::lexer::{digit_value, digits_value, is_alpha, is_digit, is_word_char, unicode_whitespace};
use crate::syntax::token::{keyword_of, Kw, Op, TokV, UserOp, USER_OPERATOR_COUNT};

verus! {

/// Space that separates tokens on a line.
pub open spec fn is_blank(c: char) -> bool {
    c == ' ' || c == '\t' || c == '\r' || unicode_whitespace(c)
}

/// Does `s` stand in `cs` at position `p`?
pub open spec fn stands_at(cs: Seq<char>, p: int, s: Seq<char>) -> bool {
    0 <= p && p + s.len() <= cs.len() && cs.subrange(p, p + s.len()) == s
}

/// The character at `p`, if there is one.
pub open spec fn char_at(cs: Seq<char>, p: int) -> Option<char> {
    if 0 <= p < cs.len() { Some(cs[p]) } else { None }
}

/// Where the run of characters of the class `f` that starts at `p` ends.
pub open spec fn span_end(cs: Seq<char>, p: int, f: spec_fn(char) -> bool) -> int
    decreases cs.len() - p,
{
    if 0 <= p < cs.len() && f(cs[p]) { span_end(cs, p + 1, f) } else { p }
}

pub open spec fn digit_class() -> spec_fn(char) -> bool {
    |c: char| is_digit(c)
}

pub open spec fn word_class() -> spec_fn(char) -> bool {
    |c: char| is_word_char(c)
}

pub open spec fn alpha_class() -> spec_fn(char) -> bool {
    |c: char| is_alpha(c)
}

pub open spec fn base_class(base: u32) -> spec_fn(char) -> bool {
    |c: char| digit_value(c, base) is Some
}

pub open spec fn same_class(x: char) -> spec_fn(char) -> bool {
    |c: char| c == x
}

pub open spec fn line_class() -> spec_fn(char) -> bool {
    |c: char| c != '\n'
}

/// A run ends where its class first fails, or at the end of the source.
pub proof fn lemma_span_end(cs: Seq<char>, p: int, q: int, f: spec_fn(char) -> bool)
    requires
        0 <= p <= q <= cs.len(),
        forall|k: int| p <= k < q ==> f(#[trigger] cs[k]),
        q == cs.len() || !f(cs[q]),
    ensures
        span_end(cs, p, f) == q,
    decreases q - p,
{
    if p < q {
        lemma_span_end(cs, p + 1, q, f);
    }
}

/// A run's end lies at or after its start, and inside the source.
pub proof fn lemma_span_bounds(cs: Seq<char>, p: int, f: spec_fn(char) -> bool)
    requires
        0 <= p <= cs.len(),
    ensures
        p <= span_end(cs, p, f) <= cs.len(),
        forall|k: int| p <= k < span_end(cs, p, f) ==> f(#[trigger] cs[k]),
        p < cs.len() && f(cs[p]) ==> p < span_end(cs, p, f),
    decreases cs.len() - p,
{
    if p < cs.len() && f(cs[p]) {
        lemma_span_bounds(cs, p + 1, f);
    }
}

/// A name: the run of word characters. `WF_x` and `SF_x` are fairness
/// operators with a subscript; a keyword's spelling is the keyword.
pub open spec fn word_lexeme(cs: Seq<char>, p: int) -> (TokV, int) {
    let q = span_end(cs, p, word_class());
    let w = cs.subrange(p, q);
    if q - p >= 3 && cs[p + 2] == '_' && cs[p + 1] == 'F' && (cs[p] == 'W' || cs[p] == 'S') {
        (TokV::Fair { strong: cs[p] == 'S', subscript: cs.subrange(p + 3, q) }, q)
    } else {
        match keyword_of(w) {
            Some(k) => (TokV::Kw(k), q),
            None => (TokV::Ident(w), q),
        }
    }
}

/// Digits: a name when a letter or `_` follows them, a decimal when `.` and
/// a digit follow, an integer otherwise; an error when it does not fit in 64
/// bits.
pub open spec fn number_lexeme(cs: Seq<char>, p: int) -> Option<(TokV, int)> {
    let q = span_end(cs, p, digit_class());
    if q < cs.len() && (is_alpha(cs[q]) || cs[q] == '_') {
        Some(word_lexeme(cs, p))
    } else if q + 1 < cs.len() && cs[q] == '.' && is_digit(cs[q + 1]) {
        let r = span_end(cs, q + 1, digit_class());
        Some((TokV::Decimal(cs.subrange(p, r)), r))
    } else if digits_value(cs.subrange(p, q), 10) > i64::MAX {
        None
    } else {
        Some((TokV::Num(digits_value(cs.subrange(p, q), 10)), q))
    }
}

/// The character an escape stands for.
pub open spec fn unescape(c: char) -> char {
    if c == 'n' { '\n' } else if c == 't' { '\t' } else { c }
}

/// The rest of a string literal from `q`, with `acc` read so far; an error
/// when the line or the source ends first.
pub open spec fn string_rest(cs: Seq<char>, q: int, acc: Seq<char>) -> Option<(TokV, int)>
    decreases cs.len() - q,
{
    if q < 0 || q >= cs.len() || cs[q] == '\n' {
        None
    } else if cs[q] == '"' {
        Some((TokV::Str(acc), q + 1))
    } else if cs[q] == '\\' {
        if q + 1 >= cs.len() { None } else { string_rest(cs, q + 2, acc.push(unescape(cs[q + 1]))) }
    } else {
        string_rest(cs, q + 1, acc.push(cs[q]))
    }
}

/// The longest symbol among the first `n` user-definable operators that is
/// not spelled with a backslash and stands at `p`, with its length; the
/// earlier one of two as long.
pub open spec fn user_best(cs: Seq<char>, p: int, n: nat) -> Option<(UserOp, int)>
    decreases n,
{
    if n == 0 {
        None
    } else {
        let prev = user_best(cs, p, (n - 1) as nat);
        match UserOp::nth_of((n - 1) as usize) {
            Some(op) => {
                let sym = op.spec_symbol();
                if sym.len() > 0 && sym[0] != '\\' && stands_at(cs, p, sym)
                    && (prev is None || sym.len() > prev->Some_0.1) {
                    Some((op, sym.len() as int))
                } else {
                    prev
                }
            },
            None => prev,
        }
    }
}

/// The user-definable operator symbol that stands at `p`, if any.
pub open spec fn user_lexeme(cs: Seq<char>, p: int) -> Option<(TokV, int)> {
    match user_best(cs, p, USER_OPERATOR_COUNT as nat) {
        Some((op, len)) => Some((TokV::Op(Op::User(op)), p + len)),
        None => None,
    }
}

/// `=`, `==`, `=>`, `=<`, `=|`, or four or more for the end of a module.
pub open spec fn equals_lexeme(cs: Seq<char>, p: int) -> Option<(TokV, int)> {
    let run = span_end(cs, p, same_class('=')) - p;
    if run >= 4 {
        Some((TokV::ModuleEnd, p + run))
    } else if run == 2 {
        Some((TokV::DefEq, p + 2))
    } else if run == 1 {
        if char_at(cs, p + 1) == Some('>') {
            Some((TokV::Op(Op::Implies), p + 2))
        } else if char_at(cs, p + 1) == Some('<') {
            Some((TokV::Op(Op::Le), p + 2))
        } else if char_at(cs, p + 1) == Some('|') {
            Some((TokV::Op(Op::User(UserOp::EqBar)), p + 2))
        } else {
            Some((TokV::Op(Op::Eq), p + 1))
        }
    } else {
        None
    }
}

/// `-+->`, a separator of four or more dashes, `->`, `-|` or `-`.
pub open spec fn dashes_lexeme(cs: Seq<char>, p: int) -> (TokV, int) {
    if stands_at(cs, p, "-+->"@) {
        (TokV::Op(Op::User(UserOp::PlusArrow)), p + 4)
    } else if span_end(cs, p, same_class('-')) - p >= 4 {
        (TokV::Separator, span_end(cs, p, same_class('-')))
    } else if stands_at(cs, p, "->"@) {
        (TokV::Arrow, p + 2)
    } else if stands_at(cs, p, "-|"@) {
        (TokV::Op(Op::User(UserOp::DashBar)), p + 2)
    } else {
        (TokV::Op(Op::Minus), p + 1)
    }
}

pub open spec fn lt_lexeme(cs: Seq<char>, p: int) -> (TokV, int) {
    if stands_at(cs, p, "<<"@) {
        (TokV::LTup, p + 2)
    } else if stands_at(cs, p, "<=>"@) {
        (TokV::Op(Op::Equiv), p + 3)
    } else if stands_at(cs, p, "<="@) {
        (TokV::Op(Op::Le), p + 2)
    } else if stands_at(cs, p, "<-"@) {
        (TokV::Gets, p + 2)
    } else if stands_at(cs, p, "<>"@) {
        (TokV::Op(Op::Eventually), p + 2)
    } else if stands_at(cs, p, "<:"@) {
        (TokV::Op(Op::User(UserOp::LtColon)), p + 2)
    } else {
        (TokV::Op(Op::Lt), p + 1)
    }
}

pub open spec fn gt_lexeme(cs: Seq<char>, p: int) -> (TokV, int) {
    if stands_at(cs, p, ">>"@) {
        (TokV::RTup, p + 2)
    } else if stands_at(cs, p, ">="@) {
        (TokV::Op(Op::Ge), p + 2)
    } else {
        (TokV::Op(Op::Gt), p + 1)
    }
}

pub open spec fn slash_lexeme(cs: Seq<char>, p: int) -> Option<(TokV, int)> {
    if stands_at(cs, p, "/\\"@) {
        Some((TokV::Op(Op::And), p + 2))
    } else if stands_at(cs, p, "/="@) {
        Some((TokV::Op(Op::Neq), p + 2))
    } else {
        user_lexeme(cs, p)
    }
}

/// The source spells `word` at `p`, and no letter follows it.
pub open spec fn spelled_at(cs: Seq<char>, p: int, word: Seq<char>) -> bool {
    &&& stands_at(cs, p, word)
    &&& !(char_at(cs, p + word.len()) matches Some(c) && is_alpha(c))
}

/// A run of letters from `k` that ends at `e` ends the letter span there.
proof fn lemma_alpha_span(cs: Seq<char>, k: int, e: int)
    requires
        0 <= k <= e <= cs.len(),
        forall|i: int| k <= i < e ==> is_alpha(#[trigger] cs[i]),
        !(char_at(cs, e) matches Some(c) && is_alpha(c)),
    ensures
        span_end(cs, k, alpha_class()) == e,
    decreases e - k,
{
    if k < e {
        lemma_alpha_span(cs, k + 1, e);
    }
}

/// `\word`, for a word of letters whose first is not a base letter, lexes
/// to the operator `backslash_op` gives the word.
proof fn lemma_backslash_word(cs: Seq<char>, p: int, w: Seq<char>)
    requires
        spelled_at(cs, p, seq!['\\'] + w),
        w.len() >= 1,
        forall|i: int| 0 <= i < w.len() ==> is_alpha(#[trigger] w[i]),
        base_letter(Some(w[0])) == 0,
        backslash_op(w) is Some,
    ensures
        backslash_lexeme(cs, p) == Some((TokV::Op(backslash_op(w)->Some_0), p + 1 + w.len())),
        lexeme(cs, p) == Some((TokV::Op(backslash_op(w)->Some_0), p + 1 + w.len())),
{
    reveal_strlit("\\/");
    let whole = seq!['\\'] + w;
    assert(cs.subrange(p, p + whole.len()) == whole);
    assert forall|i: int| p + 1 <= i < p + 1 + w.len() implies is_alpha(#[trigger] cs[i]) by {
        assert(cs[i] == cs.subrange(p, p + whole.len())[i - p]);
        assert(whole[i - p] == w[i - p - 1]);
    }
    assert(cs[p + 1] == w[0]) by {
        assert(cs[p + 1] == cs.subrange(p, p + whole.len())[1]);
    }
    lemma_alpha_span(cs, p + 1, p + 1 + w.len());
    assert(!stands_at(cs, p, "\\/"@)) by {
        if stands_at(cs, p, "\\/"@) {
            assert(cs.subrange(p, p + 2)[1] == '/');
            assert(cs[p + 1] == '/');
        }
    }
    assert(cs.subrange(p + 1, p + 1 + w.len()) =~= w) by {
        assert forall|i: int| 0 <= i < w.len() implies cs.subrange(p + 1, p + 1 + w.len())[i] == w[i] by {
            assert(cs[p + 1 + i] == cs.subrange(p, p + whole.len())[1 + i]);
            assert(whole[1 + i] == w[i]);
        }
    }
    assert(cs[p] == '\\') by {
        assert(cs[p] == cs.subrange(p, p + whole.len())[0]);
    }
}

/// The names `\\` gives one operator under two spellings.
proof fn lemma_backslash_synonyms()
    ensures
        backslash_op("union"@) == Some(Op::Cup) && backslash_op("cup"@) == Some(Op::Cup),
        backslash_op("intersect"@) == Some(Op::Cap) && backslash_op("cap"@) == Some(Op::Cap),
        backslash_op("times"@) == Some(Op::Cartesian) && backslash_op("X"@) == Some(Op::Cartesian),
        backslash_op("o"@) == Some(Op::Concat) && backslash_op("circ"@) == Some(Op::Concat),
        backslash_op("forall"@) == Some(Op::Forall) && backslash_op("A"@) == Some(Op::Forall),
        backslash_op("exists"@) == Some(Op::Exists) && backslash_op("E"@) == Some(Op::Exists),
{
    reveal_strlit("in"); reveal_strlit("notin"); reveal_strlit("subseteq"); reveal_strlit("supseteq"); reveal_strlit("cup"); reveal_strlit("union"); reveal_strlit("cap"); reveal_strlit("intersect"); reveal_strlit("times"); reveal_strlit("X"); reveal_strlit("div"); reveal_strlit("o"); reveal_strlit("circ"); reveal_strlit("equiv"); reveal_strlit("lnot"); reveal_strlit("neg"); reveal_strlit("land"); reveal_strlit("lor"); reveal_strlit("leq"); reveal_strlit("geq"); reveal_strlit("neq"); reveal_strlit("A"); reveal_strlit("forall"); reveal_strlit("E"); reveal_strlit("exists"); reveal_strlit("AA"); reveal_strlit("EE");
    assert("union"@ != "in"@) by { assert("union"@.len() != "in"@.len()); }
    assert("union"@ != "notin"@) by { assert("union"@[0] != "notin"@[0]); }
    assert("union"@ != "subseteq"@) by { assert("union"@.len() != "subseteq"@.len()); }
    assert("union"@ != "supseteq"@) by { assert("union"@.len() != "supseteq"@.len()); }
    assert("union"@ != "cup"@) by { assert("union"@.len() != "cup"@.len()); }
    assert("cup"@ != "in"@) by { assert("cup"@.len() != "in"@.len()); }
    assert("cup"@ != "notin"@) by { assert("cup"@.len() != "notin"@.len()); }
    assert("cup"@ != "subseteq"@) by { assert("cup"@.len() != "subseteq"@.len()); }
    assert("cup"@ != "supseteq"@) by { assert("cup"@.len() != "supseteq"@.len()); }
    assert("intersect"@ != "in"@) by { assert("intersect"@.len() != "in"@.len()); }
    assert("intersect"@ != "notin"@) by { assert("intersect"@.len() != "notin"@.len()); }
    assert("intersect"@ != "subseteq"@) by { assert("intersect"@.len() != "subseteq"@.len()); }
    assert("intersect"@ != "supseteq"@) by { assert("intersect"@.len() != "supseteq"@.len()); }
    assert("intersect"@ != "cup"@) by { assert("intersect"@.len() != "cup"@.len()); }
    assert("intersect"@ != "union"@) by { assert("intersect"@.len() != "union"@.len()); }
    assert("intersect"@ != "cap"@) by { assert("intersect"@.len() != "cap"@.len()); }
    assert("cap"@ != "in"@) by { assert("cap"@.len() != "in"@.len()); }
    assert("cap"@ != "notin"@) by { assert("cap"@.len() != "notin"@.len()); }
    assert("cap"@ != "subseteq"@) by { assert("cap"@.len() != "subseteq"@.len()); }
    assert("cap"@ != "supseteq"@) by { assert("cap"@.len() != "supseteq"@.len()); }
    assert("cap"@ != "cup"@) by { assert("cap"@[1] != "cup"@[1]); }
    assert("cap"@ != "union"@) by { assert("cap"@.len() != "union"@.len()); }
    assert("times"@ != "in"@) by { assert("times"@.len() != "in"@.len()); }
    assert("times"@ != "notin"@) by { assert("times"@[0] != "notin"@[0]); }
    assert("times"@ != "subseteq"@) by { assert("times"@.len() != "subseteq"@.len()); }
    assert("times"@ != "supseteq"@) by { assert("times"@.len() != "supseteq"@.len()); }
    assert("times"@ != "cup"@) by { assert("times"@.len() != "cup"@.len()); }
    assert("times"@ != "union"@) by { assert("times"@[0] != "union"@[0]); }
    assert("times"@ != "cap"@) by { assert("times"@.len() != "cap"@.len()); }
    assert("times"@ != "intersect"@) by { assert("times"@.len() != "intersect"@.len()); }
    assert("X"@ != "in"@) by { assert("X"@.len() != "in"@.len()); }
    assert("X"@ != "notin"@) by { assert("X"@.len() != "notin"@.len()); }
    assert("X"@ != "subseteq"@) by { assert("X"@.len() != "subseteq"@.len()); }
    assert("X"@ != "supseteq"@) by { assert("X"@.len() != "supseteq"@.len()); }
    assert("X"@ != "cup"@) by { assert("X"@.len() != "cup"@.len()); }
    assert("X"@ != "union"@) by { assert("X"@.len() != "union"@.len()); }
    assert("X"@ != "cap"@) by { assert("X"@.len() != "cap"@.len()); }
    assert("X"@ != "intersect"@) by { assert("X"@.len() != "intersect"@.len()); }
    assert("X"@ != "times"@) by { assert("X"@.len() != "times"@.len()); }
    assert("o"@ != "in"@) by { assert("o"@.len() != "in"@.len()); }
    assert("o"@ != "notin"@) by { assert("o"@.len() != "notin"@.len()); }
    assert("o"@ != "subseteq"@) by { assert("o"@.len() != "subseteq"@.len()); }
    assert("o"@ != "supseteq"@) by { assert("o"@.len() != "supseteq"@.len()); }
    assert("o"@ != "cup"@) by { assert("o"@.len() != "cup"@.len()); }
    assert("o"@ != "union"@) by { assert("o"@.len() != "union"@.len()); }
    assert("o"@ != "cap"@) by { assert("o"@.len() != "cap"@.len()); }
    assert("o"@ != "intersect"@) by { assert("o"@.len() != "intersect"@.len()); }
    assert("o"@ != "times"@) by { assert("o"@.len() != "times"@.len()); }
    assert("o"@ != "X"@) by { assert("o"@[0] != "X"@[0]); }
    assert("o"@ != "div"@) by { assert("o"@.len() != "div"@.len()); }
    assert("circ"@ != "in"@) by { assert("circ"@.len() != "in"@.len()); }
    assert("circ"@ != "notin"@) by { assert("circ"@.len() != "notin"@.len()); }
    assert("circ"@ != "subseteq"@) by { assert("circ"@.len() != "subseteq"@.len()); }
    assert("circ"@ != "supseteq"@) by { assert("circ"@.len() != "supseteq"@.len()); }
    assert("circ"@ != "cup"@) by { assert("circ"@.len() != "cup"@.len()); }
    assert("circ"@ != "union"@) by { assert("circ"@.len() != "union"@.len()); }
    assert("circ"@ != "cap"@) by { assert("circ"@.len() != "cap"@.len()); }
    assert("circ"@ != "intersect"@) by { assert("circ"@.len() != "intersect"@.len()); }
    assert("circ"@ != "times"@) by { assert("circ"@.len() != "times"@.len()); }
    assert("circ"@ != "X"@) by { assert("circ"@.len() != "X"@.len()); }
    assert("circ"@ != "div"@) by { assert("circ"@.len() != "div"@.len()); }
    assert("circ"@ != "o"@) by { assert("circ"@.len() != "o"@.len()); }
    assert("forall"@ != "in"@) by { assert("forall"@.len() != "in"@.len()); }
    assert("forall"@ != "notin"@) by { assert("forall"@.len() != "notin"@.len()); }
    assert("forall"@ != "subseteq"@) by { assert("forall"@.len() != "subseteq"@.len()); }
    assert("forall"@ != "supseteq"@) by { assert("forall"@.len() != "supseteq"@.len()); }
    assert("forall"@ != "cup"@) by { assert("forall"@.len() != "cup"@.len()); }
    assert("forall"@ != "union"@) by { assert("forall"@.len() != "union"@.len()); }
    assert("forall"@ != "cap"@) by { assert("forall"@.len() != "cap"@.len()); }
    assert("forall"@ != "intersect"@) by { assert("forall"@.len() != "intersect"@.len()); }
    assert("forall"@ != "times"@) by { assert("forall"@.len() != "times"@.len()); }
    assert("forall"@ != "X"@) by { assert("forall"@.len() != "X"@.len()); }
    assert("forall"@ != "div"@) by { assert("forall"@.len() != "div"@.len()); }
    assert("forall"@ != "o"@) by { assert("forall"@.len() != "o"@.len()); }
    assert("forall"@ != "circ"@) by { assert("forall"@.len() != "circ"@.len()); }
    assert("forall"@ != "equiv"@) by { assert("forall"@.len() != "equiv"@.len()); }
    assert("forall"@ != "lnot"@) by { assert("forall"@.len() != "lnot"@.len()); }
    assert("forall"@ != "neg"@) by { assert("forall"@.len() != "neg"@.len()); }
    assert("forall"@ != "land"@) by { assert("forall"@.len() != "land"@.len()); }
    assert("forall"@ != "lor"@) by { assert("forall"@.len() != "lor"@.len()); }
    assert("forall"@ != "leq"@) by { assert("forall"@.len() != "leq"@.len()); }
    assert("forall"@ != "geq"@) by { assert("forall"@.len() != "geq"@.len()); }
    assert("forall"@ != "neq"@) by { assert("forall"@.len() != "neq"@.len()); }
    assert("forall"@ != "A"@) by { assert("forall"@.len() != "A"@.len()); }
    assert("A"@ != "in"@) by { assert("A"@.len() != "in"@.len()); }
    assert("A"@ != "notin"@) by { assert("A"@.len() != "notin"@.len()); }
    assert("A"@ != "subseteq"@) by { assert("A"@.len() != "subseteq"@.len()); }
    assert("A"@ != "supseteq"@) by { assert("A"@.len() != "supseteq"@.len()); }
    assert("A"@ != "cup"@) by { assert("A"@.len() != "cup"@.len()); }
    assert("A"@ != "union"@) by { assert("A"@.len() != "union"@.len()); }
    assert("A"@ != "cap"@) by { assert("A"@.len() != "cap"@.len()); }
    assert("A"@ != "intersect"@) by { assert("A"@.len() != "intersect"@.len()); }
    assert("A"@ != "times"@) by { assert("A"@.len() != "times"@.len()); }
    assert("A"@ != "X"@) by { assert("A"@[0] != "X"@[0]); }
    assert("A"@ != "div"@) by { assert("A"@.len() != "div"@.len()); }
    assert("A"@ != "o"@) by { assert("A"@[0] != "o"@[0]); }
    assert("A"@ != "circ"@) by { assert("A"@.len() != "circ"@.len()); }
    assert("A"@ != "equiv"@) by { assert("A"@.len() != "equiv"@.len()); }
    assert("A"@ != "lnot"@) by { assert("A"@.len() != "lnot"@.len()); }
    assert("A"@ != "neg"@) by { assert("A"@.len() != "neg"@.len()); }
    assert("A"@ != "land"@) by { assert("A"@.len() != "land"@.len()); }
    assert("A"@ != "lor"@) by { assert("A"@.len() != "lor"@.len()); }
    assert("A"@ != "leq"@) by { assert("A"@.len() != "leq"@.len()); }
    assert("A"@ != "geq"@) by { assert("A"@.len() != "geq"@.len()); }
    assert("A"@ != "neq"@) by { assert("A"@.len() != "neq"@.len()); }
    assert("exists"@ != "in"@) by { assert("exists"@.len() != "in"@.len()); }
    assert("exists"@ != "notin"@) by { assert("exists"@.len() != "notin"@.len()); }
    assert("exists"@ != "subseteq"@) by { assert("exists"@.len() != "subseteq"@.len()); }
    assert("exists"@ != "supseteq"@) by { assert("exists"@.len() != "supseteq"@.len()); }
    assert("exists"@ != "cup"@) by { assert("exists"@.len() != "cup"@.len()); }
    assert("exists"@ != "union"@) by { assert("exists"@.len() != "union"@.len()); }
    assert("exists"@ != "cap"@) by { assert("exists"@.len() != "cap"@.len()); }
    assert("exists"@ != "intersect"@) by { assert("exists"@.len() != "intersect"@.len()); }
    assert("exists"@ != "times"@) by { assert("exists"@.len() != "times"@.len()); }
    assert("exists"@ != "X"@) by { assert("exists"@.len() != "X"@.len()); }
    assert("exists"@ != "div"@) by { assert("exists"@.len() != "div"@.len()); }
    assert("exists"@ != "o"@) by { assert("exists"@.len() != "o"@.len()); }
    assert("exists"@ != "circ"@) by { assert("exists"@.len() != "circ"@.len()); }
    assert("exists"@ != "equiv"@) by { assert("exists"@.len() != "equiv"@.len()); }
    assert("exists"@ != "lnot"@) by { assert("exists"@.len() != "lnot"@.len()); }
    assert("exists"@ != "neg"@) by { assert("exists"@.len() != "neg"@.len()); }
    assert("exists"@ != "land"@) by { assert("exists"@.len() != "land"@.len()); }
    assert("exists"@ != "lor"@) by { assert("exists"@.len() != "lor"@.len()); }
    assert("exists"@ != "leq"@) by { assert("exists"@.len() != "leq"@.len()); }
    assert("exists"@ != "geq"@) by { assert("exists"@.len() != "geq"@.len()); }
    assert("exists"@ != "neq"@) by { assert("exists"@.len() != "neq"@.len()); }
    assert("exists"@ != "A"@) by { assert("exists"@.len() != "A"@.len()); }
    assert("exists"@ != "forall"@) by { assert("exists"@[0] != "forall"@[0]); }
    assert("exists"@ != "E"@) by { assert("exists"@.len() != "E"@.len()); }
    assert("E"@ != "in"@) by { assert("E"@.len() != "in"@.len()); }
    assert("E"@ != "notin"@) by { assert("E"@.len() != "notin"@.len()); }
    assert("E"@ != "subseteq"@) by { assert("E"@.len() != "subseteq"@.len()); }
    assert("E"@ != "supseteq"@) by { assert("E"@.len() != "supseteq"@.len()); }
    assert("E"@ != "cup"@) by { assert("E"@.len() != "cup"@.len()); }
    assert("E"@ != "union"@) by { assert("E"@.len() != "union"@.len()); }
    assert("E"@ != "cap"@) by { assert("E"@.len() != "cap"@.len()); }
    assert("E"@ != "intersect"@) by { assert("E"@.len() != "intersect"@.len()); }
    assert("E"@ != "times"@) by { assert("E"@.len() != "times"@.len()); }
    assert("E"@ != "X"@) by { assert("E"@[0] != "X"@[0]); }
    assert("E"@ != "div"@) by { assert("E"@.len() != "div"@.len()); }
    assert("E"@ != "o"@) by { assert("E"@[0] != "o"@[0]); }
    assert("E"@ != "circ"@) by { assert("E"@.len() != "circ"@.len()); }
    assert("E"@ != "equiv"@) by { assert("E"@.len() != "equiv"@.len()); }
    assert("E"@ != "lnot"@) by { assert("E"@.len() != "lnot"@.len()); }
    assert("E"@ != "neg"@) by { assert("E"@.len() != "neg"@.len()); }
    assert("E"@ != "land"@) by { assert("E"@.len() != "land"@.len()); }
    assert("E"@ != "lor"@) by { assert("E"@.len() != "lor"@.len()); }
    assert("E"@ != "leq"@) by { assert("E"@.len() != "leq"@.len()); }
    assert("E"@ != "geq"@) by { assert("E"@.len() != "geq"@.len()); }
    assert("E"@ != "neq"@) by { assert("E"@.len() != "neq"@.len()); }
    assert("E"@ != "A"@) by { assert("E"@[0] != "A"@[0]); }
    assert("E"@ != "forall"@) by { assert("E"@.len() != "forall"@.len()); }
}

/// What the alternative spellings of comparisons and connectives name.
proof fn lemma_backslash_words()
    ensures
        backslash_op("leq"@) == Some(Op::Le),
        backslash_op("geq"@) == Some(Op::Ge),
        backslash_op("neq"@) == Some(Op::Neq),
        backslash_op("land"@) == Some(Op::And),
        backslash_op("lor"@) == Some(Op::Or),
        backslash_op("lnot"@) == Some(Op::Not),
        backslash_op("neg"@) == Some(Op::Not),
        backslash_op("equiv"@) == Some(Op::Equiv),
{
    reveal_strlit("in"); reveal_strlit("notin"); reveal_strlit("subseteq"); reveal_strlit("supseteq"); reveal_strlit("cup"); reveal_strlit("union"); reveal_strlit("cap"); reveal_strlit("intersect"); reveal_strlit("times"); reveal_strlit("X"); reveal_strlit("div"); reveal_strlit("o"); reveal_strlit("circ"); reveal_strlit("equiv"); reveal_strlit("lnot"); reveal_strlit("neg"); reveal_strlit("land"); reveal_strlit("lor"); reveal_strlit("leq"); reveal_strlit("geq"); reveal_strlit("neq"); reveal_strlit("A"); reveal_strlit("forall"); reveal_strlit("E"); reveal_strlit("exists"); reveal_strlit("AA"); reveal_strlit("EE");
    assert("leq"@ != "in"@) by { assert("leq"@.len() != "in"@.len()); }
    assert("leq"@ != "notin"@) by { assert("leq"@.len() != "notin"@.len()); }
    assert("leq"@ != "subseteq"@) by { assert("leq"@.len() != "subseteq"@.len()); }
    assert("leq"@ != "supseteq"@) by { assert("leq"@.len() != "supseteq"@.len()); }
    assert("leq"@ != "cup"@) by { assert("leq"@[0] != "cup"@[0]); }
    assert("leq"@ != "union"@) by { assert("leq"@.len() != "union"@.len()); }
    assert("leq"@ != "cap"@) by { assert("leq"@[0] != "cap"@[0]); }
    assert("leq"@ != "intersect"@) by { assert("leq"@.len() != "intersect"@.len()); }
    assert("leq"@ != "times"@) by { assert("leq"@.len() != "times"@.len()); }
    assert("leq"@ != "X"@) by { assert("leq"@.len() != "X"@.len()); }
    assert("leq"@ != "div"@) by { assert("leq"@[0] != "div"@[0]); }
    assert("leq"@ != "o"@) by { assert("leq"@.len() != "o"@.len()); }
    assert("leq"@ != "circ"@) by { assert("leq"@.len() != "circ"@.len()); }
    assert("leq"@ != "equiv"@) by { assert("leq"@.len() != "equiv"@.len()); }
    assert("leq"@ != "lnot"@) by { assert("leq"@.len() != "lnot"@.len()); }
    assert("leq"@ != "neg"@) by { assert("leq"@[0] != "neg"@[0]); }
    assert("leq"@ != "land"@) by { assert("leq"@.len() != "land"@.len()); }
    assert("leq"@ != "lor"@) by { assert("leq"@[1] != "lor"@[1]); }
    assert("geq"@ != "in"@) by { assert("geq"@.len() != "in"@.len()); }
    assert("geq"@ != "notin"@) by { assert("geq"@.len() != "notin"@.len()); }
    assert("geq"@ != "subseteq"@) by { assert("geq"@.len() != "subseteq"@.len()); }
    assert("geq"@ != "supseteq"@) by { assert("geq"@.len() != "supseteq"@.len()); }
    assert("geq"@ != "cup"@) by { assert("geq"@[0] != "cup"@[0]); }
    assert("geq"@ != "union"@) by { assert("geq"@.len() != "union"@.len()); }
    assert("geq"@ != "cap"@) by { assert("geq"@[0] != "cap"@[0]); }
    assert("geq"@ != "intersect"@) by { assert("geq"@.len() != "intersect"@.len()); }
    assert("geq"@ != "times"@) by { assert("geq"@.len() != "times"@.len()); }
    assert("geq"@ != "X"@) by { assert("geq"@.len() != "X"@.len()); }
    assert("geq"@ != "div"@) by { assert("geq"@[0] != "div"@[0]); }
    assert("geq"@ != "o"@) by { assert("geq"@.len() != "o"@.len()); }
    assert("geq"@ != "circ"@) by { assert("geq"@.len() != "circ"@.len()); }
    assert("geq"@ != "equiv"@) by { assert("geq"@.len() != "equiv"@.len()); }
    assert("geq"@ != "lnot"@) by { assert("geq"@.len() != "lnot"@.len()); }
    assert("geq"@ != "neg"@) by { assert("geq"@[0] != "neg"@[0]); }
    assert("geq"@ != "land"@) by { assert("geq"@.len() != "land"@.len()); }
    assert("geq"@ != "lor"@) by { assert("geq"@[0] != "lor"@[0]); }
    assert("geq"@ != "leq"@) by { assert("geq"@[0] != "leq"@[0]); }
    assert("neq"@ != "in"@) by { assert("neq"@.len() != "in"@.len()); }
    assert("neq"@ != "notin"@) by { assert("neq"@.len() != "notin"@.len()); }
    assert("neq"@ != "subseteq"@) by { assert("neq"@.len() != "subseteq"@.len()); }
    assert("neq"@ != "supseteq"@) by { assert("neq"@.len() != "supseteq"@.len()); }
    assert("neq"@ != "cup"@) by { assert("neq"@[0] != "cup"@[0]); }
    assert("neq"@ != "union"@) by { assert("neq"@.len() != "union"@.len()); }
    assert("neq"@ != "cap"@) by { assert("neq"@[0] != "cap"@[0]); }
    assert("neq"@ != "intersect"@) by { assert("neq"@.len() != "intersect"@.len()); }
    assert("neq"@ != "times"@) by { assert("neq"@.len() != "times"@.len()); }
    assert("neq"@ != "X"@) by { assert("neq"@.len() != "X"@.len()); }
    assert("neq"@ != "div"@) by { assert("neq"@[0] != "div"@[0]); }
    assert("neq"@ != "o"@) by { assert("neq"@.len() != "o"@.len()); }
    assert("neq"@ != "circ"@) by { assert("neq"@.len() != "circ"@.len()); }
    assert("neq"@ != "equiv"@) by { assert("neq"@.len() != "equiv"@.len()); }
    assert("neq"@ != "lnot"@) by { assert("neq"@.len() != "lnot"@.len()); }
    assert("neq"@ != "neg"@) by { assert("neq"@[2] != "neg"@[2]); }
    assert("neq"@ != "land"@) by { assert("neq"@.len() != "land"@.len()); }
    assert("neq"@ != "lor"@) by { assert("neq"@[0] != "lor"@[0]); }
    assert("neq"@ != "leq"@) by { assert("neq"@[0] != "leq"@[0]); }
    assert("neq"@ != "geq"@) by { assert("neq"@[0] != "geq"@[0]); }
    assert("land"@ != "in"@) by { assert("land"@.len() != "in"@.len()); }
    assert("land"@ != "notin"@) by { assert("land"@.len() != "notin"@.len()); }
    assert("land"@ != "subseteq"@) by { assert("land"@.len() != "subseteq"@.len()); }
    assert("land"@ != "supseteq"@) by { assert("land"@.len() != "supseteq"@.len()); }
    assert("land"@ != "cup"@) by { assert("land"@.len() != "cup"@.len()); }
    assert("land"@ != "union"@) by { assert("land"@.len() != "union"@.len()); }
    assert("land"@ != "cap"@) by { assert("land"@.len() != "cap"@.len()); }
    assert("land"@ != "intersect"@) by { assert("land"@.len() != "intersect"@.len()); }
    assert("land"@ != "times"@) by { assert("land"@.len() != "times"@.len()); }
    assert("land"@ != "X"@) by { assert("land"@.len() != "X"@.len()); }
    assert("land"@ != "div"@) by { assert("land"@.len() != "div"@.len()); }
    assert("land"@ != "o"@) by { assert("land"@.len() != "o"@.len()); }
    assert("land"@ != "circ"@) by { assert("land"@[0] != "circ"@[0]); }
    assert("land"@ != "equiv"@) by { assert("land"@.len() != "equiv"@.len()); }
    assert("land"@ != "lnot"@) by { assert("land"@[1] != "lnot"@[1]); }
    assert("land"@ != "neg"@) by { assert("land"@.len() != "neg"@.len()); }
    assert("lor"@ != "in"@) by { assert("lor"@.len() != "in"@.len()); }
    assert("lor"@ != "notin"@) by { assert("lor"@.len() != "notin"@.len()); }
    assert("lor"@ != "subseteq"@) by { assert("lor"@.len() != "subseteq"@.len()); }
    assert("lor"@ != "supseteq"@) by { assert("lor"@.len() != "supseteq"@.len()); }
    assert("lor"@ != "cup"@) by { assert("lor"@[0] != "cup"@[0]); }
    assert("lor"@ != "union"@) by { assert("lor"@.len() != "union"@.len()); }
    assert("lor"@ != "cap"@) by { assert("lor"@[0] != "cap"@[0]); }
    assert("lor"@ != "intersect"@) by { assert("lor"@.len() != "intersect"@.len()); }
    assert("lor"@ != "times"@) by { assert("lor"@.len() != "times"@.len()); }
    assert("lor"@ != "X"@) by { assert("lor"@.len() != "X"@.len()); }
    assert("lor"@ != "div"@) by { assert("lor"@[0] != "div"@[0]); }
    assert("lor"@ != "o"@) by { assert("lor"@.len() != "o"@.len()); }
    assert("lor"@ != "circ"@) by { assert("lor"@.len() != "circ"@.len()); }
    assert("lor"@ != "equiv"@) by { assert("lor"@.len() != "equiv"@.len()); }
    assert("lor"@ != "lnot"@) by { assert("lor"@.len() != "lnot"@.len()); }
    assert("lor"@ != "neg"@) by { assert("lor"@[0] != "neg"@[0]); }
    assert("lor"@ != "land"@) by { assert("lor"@.len() != "land"@.len()); }
    assert("lnot"@ != "in"@) by { assert("lnot"@.len() != "in"@.len()); }
    assert("lnot"@ != "notin"@) by { assert("lnot"@.len() != "notin"@.len()); }
    assert("lnot"@ != "subseteq"@) by { assert("lnot"@.len() != "subseteq"@.len()); }
    assert("lnot"@ != "supseteq"@) by { assert("lnot"@.len() != "supseteq"@.len()); }
    assert("lnot"@ != "cup"@) by { assert("lnot"@.len() != "cup"@.len()); }
    assert("lnot"@ != "union"@) by { assert("lnot"@.len() != "union"@.len()); }
    assert("lnot"@ != "cap"@) by { assert("lnot"@.len() != "cap"@.len()); }
    assert("lnot"@ != "intersect"@) by { assert("lnot"@.len() != "intersect"@.len()); }
    assert("lnot"@ != "times"@) by { assert("lnot"@.len() != "times"@.len()); }
    assert("lnot"@ != "X"@) by { assert("lnot"@.len() != "X"@.len()); }
    assert("lnot"@ != "div"@) by { assert("lnot"@.len() != "div"@.len()); }
    assert("lnot"@ != "o"@) by { assert("lnot"@.len() != "o"@.len()); }
    assert("lnot"@ != "circ"@) by { assert("lnot"@[0] != "circ"@[0]); }
    assert("lnot"@ != "equiv"@) by { assert("lnot"@.len() != "equiv"@.len()); }
    assert("neg"@ != "in"@) by { assert("neg"@.len() != "in"@.len()); }
    assert("neg"@ != "notin"@) by { assert("neg"@.len() != "notin"@.len()); }
    assert("neg"@ != "subseteq"@) by { assert("neg"@.len() != "subseteq"@.len()); }
    assert("neg"@ != "supseteq"@) by { assert("neg"@.len() != "supseteq"@.len()); }
    assert("neg"@ != "cup"@) by { assert("neg"@[0] != "cup"@[0]); }
    assert("neg"@ != "union"@) by { assert("neg"@.len() != "union"@.len()); }
    assert("neg"@ != "cap"@) by { assert("neg"@[0] != "cap"@[0]); }
    assert("neg"@ != "intersect"@) by { assert("neg"@.len() != "intersect"@.len()); }
    assert("neg"@ != "times"@) by { assert("neg"@.len() != "times"@.len()); }
    assert("neg"@ != "X"@) by { assert("neg"@.len() != "X"@.len()); }
    assert("neg"@ != "div"@) by { assert("neg"@[0] != "div"@[0]); }
    assert("neg"@ != "o"@) by { assert("neg"@.len() != "o"@.len()); }
    assert("neg"@ != "circ"@) by { assert("neg"@.len() != "circ"@.len()); }
    assert("neg"@ != "equiv"@) by { assert("neg"@.len() != "equiv"@.len()); }
    assert("neg"@ != "lnot"@) by { assert("neg"@.len() != "lnot"@.len()); }
    assert("equiv"@ != "in"@) by { assert("equiv"@.len() != "in"@.len()); }
    assert("equiv"@ != "notin"@) by { assert("equiv"@[0] != "notin"@[0]); }
    assert("equiv"@ != "subseteq"@) by { assert("equiv"@.len() != "subseteq"@.len()); }
    assert("equiv"@ != "supseteq"@) by { assert("equiv"@.len() != "supseteq"@.len()); }
    assert("equiv"@ != "cup"@) by { assert("equiv"@.len() != "cup"@.len()); }
    assert("equiv"@ != "union"@) by { assert("equiv"@[0] != "union"@[0]); }
    assert("equiv"@ != "cap"@) by { assert("equiv"@.len() != "cap"@.len()); }
    assert("equiv"@ != "intersect"@) by { assert("equiv"@.len() != "intersect"@.len()); }
    assert("equiv"@ != "times"@) by { assert("equiv"@[0] != "times"@[0]); }
    assert("equiv"@ != "X"@) by { assert("equiv"@.len() != "X"@.len()); }
    assert("equiv"@ != "div"@) by { assert("equiv"@.len() != "div"@.len()); }
    assert("equiv"@ != "o"@) by { assert("equiv"@.len() != "o"@.len()); }
    assert("equiv"@ != "circ"@) by { assert("equiv"@.len() != "circ"@.len()); }
}

/// One operator, two spellings: `\leq` is `<=` and `=<`, `\geq` is `>=`,
/// `\neq` is `/=`, `\land` is `/\`, `\lor` is `\/`, `\lnot` and `\neg`
/// are `~`, and `\equiv` is `<=>`. Wherever the one spelling stands in a
/// source and wherever the other does, the token read is the same.
#[verifier::spinoff_prover]
#[verifier::rlimit(50)]
pub proof fn law_spellings_name_one_operator(a: Seq<char>, p: int, b: Seq<char>, q: int)
    ensures
        spelled_at(a, p, "\\leq"@) && stands_at(b, q, "<="@) && !stands_at(b, q, "<=>"@)
            ==> lexeme(a, p) == Some((lexeme(b, q)->Some_0.0, p + 4)) && lexeme(b, q) == Some((TokV::Op(Op::Le), q + 2)),
        spelled_at(a, p, "\\leq"@) && stands_at(b, q, "=<"@)
            ==> lexeme(a, p)->Some_0.0 == lexeme(b, q)->Some_0.0 && lexeme(b, q) is Some,
        spelled_at(a, p, "\\geq"@) && stands_at(b, q, ">="@)
            ==> lexeme(a, p) == Some((lexeme(b, q)->Some_0.0, p + 4)) && lexeme(b, q) == Some((TokV::Op(Op::Ge), q + 2)),
        spelled_at(a, p, "\\neq"@) && stands_at(b, q, "/="@)
            ==> lexeme(a, p) == Some((lexeme(b, q)->Some_0.0, p + 4)) && lexeme(b, q) == Some((TokV::Op(Op::Neq), q + 2)),
        spelled_at(a, p, "\\land"@) && stands_at(b, q, "/\\"@)
            ==> lexeme(a, p) == Some((lexeme(b, q)->Some_0.0, p + 5)) && lexeme(b, q) == Some((TokV::Op(Op::And), q + 2)),
        spelled_at(a, p, "\\lor"@) && stands_at(b, q, "\\/"@)
            ==> lexeme(a, p) == Some((lexeme(b, q)->Some_0.0, p + 4)) && lexeme(b, q) == Some((TokV::Op(Op::Or), q + 2)),
        spelled_at(a, p, "\\lnot"@) && stands_at(b, q, "~"@) && !stands_at(b, q, "~>"@)
            ==> lexeme(a, p) == Some((lexeme(b, q)->Some_0.0, p + 5)) && lexeme(b, q) == Some((TokV::Op(Op::Not), q + 1)),
        spelled_at(a, p, "\\neg"@) && stands_at(b, q, "~"@) && !stands_at(b, q, "~>"@)
            ==> lexeme(a, p) == Some((lexeme(b, q)->Some_0.0, p + 4)) && lexeme(b, q) == Some((TokV::Op(Op::Not), q + 1)),
        spelled_at(a, p, "\\equiv"@) && stands_at(b, q, "<=>"@)
            ==> lexeme(a, p) == Some((lexeme(b, q)->Some_0.0, p + 6)) && lexeme(b, q) == Some((TokV::Op(Op::Equiv), q + 3)),
        backslash_op("union"@) == backslash_op("cup"@) && backslash_op("intersect"@) == backslash_op("cap"@)
            && backslash_op("times"@) == backslash_op("X"@) && backslash_op("o"@) == backslash_op("circ"@)
            && backslash_op("forall"@) == backslash_op("A"@) && backslash_op("exists"@) == backslash_op("E"@),
{
    reveal_strlit("\\leq"); reveal_strlit("\\geq"); reveal_strlit("\\neq"); reveal_strlit("\\land");
    reveal_strlit("\\lor"); reveal_strlit("\\lnot"); reveal_strlit("\\neg"); reveal_strlit("\\equiv");
    reveal_strlit("leq"); reveal_strlit("geq"); reveal_strlit("neq"); reveal_strlit("land"); reveal_strlit("lor");
    reveal_strlit("lnot"); reveal_strlit("neg"); reveal_strlit("equiv");
    reveal_strlit("<="); reveal_strlit("<=>"); reveal_strlit("=<"); reveal_strlit(">="); reveal_strlit("/=");
    reveal_strlit("/\\"); reveal_strlit("\\/"); reveal_strlit("~"); reveal_strlit("~>"); reveal_strlit("<<");
    reveal_strlit(">>"); reveal_strlit("union"); reveal_strlit("cup"); reveal_strlit("intersect"); reveal_strlit("cap");
    reveal_strlit("times"); reveal_strlit("X"); reveal_strlit("o"); reveal_strlit("circ"); reveal_strlit("forall");
    reveal_strlit("A"); reveal_strlit("exists"); reveal_strlit("E"); reveal_strlit("in"); reveal_strlit("notin");
    reveal_strlit("subseteq"); reveal_strlit("supseteq"); reveal_strlit("div"); reveal_strlit("AA"); reveal_strlit("EE");
    lemma_backslash_words();
    lemma_backslash_synonyms();
    if spelled_at(a, p, "\\leq"@) {
        assert(seq!['\\'] + "leq"@ =~= "\\leq"@);
        assert(backslash_op("leq"@) is Some);
        lemma_backslash_word(a, p, "leq"@);
    }
    if spelled_at(a, p, "\\geq"@) {
        assert(seq!['\\'] + "geq"@ =~= "\\geq"@);
        assert(backslash_op("geq"@) is Some);
        lemma_backslash_word(a, p, "geq"@);
    }
    if spelled_at(a, p, "\\neq"@) {
        assert(seq!['\\'] + "neq"@ =~= "\\neq"@);
        assert(backslash_op("neq"@) is Some);
        lemma_backslash_word(a, p, "neq"@);
    }
    if spelled_at(a, p, "\\land"@) {
        assert(seq!['\\'] + "land"@ =~= "\\land"@);
        assert(backslash_op("land"@) is Some);
        lemma_backslash_word(a, p, "land"@);
    }
    if spelled_at(a, p, "\\lor"@) {
        assert(seq!['\\'] + "lor"@ =~= "\\lor"@);
        assert(backslash_op("lor"@) is Some);
        lemma_backslash_word(a, p, "lor"@);
    }
    if spelled_at(a, p, "\\lnot"@) {
        assert(seq!['\\'] + "lnot"@ =~= "\\lnot"@);
        assert(backslash_op("lnot"@) is Some);
        lemma_backslash_word(a, p, "lnot"@);
    }
    if spelled_at(a, p, "\\neg"@) {
        assert(seq!['\\'] + "neg"@ =~= "\\neg"@);
        assert(backslash_op("neg"@) is Some);
        lemma_backslash_word(a, p, "neg"@);
    }
    if spelled_at(a, p, "\\equiv"@) {
        assert(seq!['\\'] + "equiv"@ =~= "\\equiv"@);
        assert(backslash_op("equiv"@) is Some);
        lemma_backslash_word(a, p, "equiv"@);
    }
    if stands_at(b, q, "<="@) || stands_at(b, q, "=<"@) || stands_at(b, q, ">="@) || stands_at(b, q, "/="@)
        || stands_at(b, q, "/\\"@) || stands_at(b, q, "\\/"@) || stands_at(b, q, "~"@) || stands_at(b, q, "<=>"@) {
        assert(b[q] == b.subrange(q, q + 1)[0]);
        if q + 1 < b.len() {
            assert(b.subrange(q, q + 2)[1] == b[q + 1]);
        }
        if stands_at(b, q, "=<"@) {
            assert(b[q] == b.subrange(q, q + 2)[0] && b[q + 1] == b.subrange(q, q + 2)[1]);
            assert(span_end(b, q + 1, same_class('=')) == q + 1);
            assert(span_end(b, q, same_class('=')) == q + 1);
        }
        if stands_at(b, q, "<="@) || stands_at(b, q, ">="@) || stands_at(b, q, "/="@) || stands_at(b, q, "/\\"@)
            || stands_at(b, q, "\\/"@) {
            assert(b[q] == b.subrange(q, q + 2)[0] && b[q + 1] == b.subrange(q, q + 2)[1]);
        }
        if stands_at(b, q, "<=>"@) {
            assert(b[q] == b.subrange(q, q + 3)[0] && b[q + 1] == b.subrange(q, q + 3)[1]);
            assert(b[q + 2] == b.subrange(q, q + 3)[2]);
            assert(b.subrange(q, q + 2) =~= "<="@);
        }
    }
}

/// The first user-definable operator from position `i` of the table that is
/// spelled `\name`.
pub open spec fn backslash_user(name: Seq<char>, i: int) -> Option<UserOp>
    decreases 60 - i,
{
    if i < 28 || i >= 60 {
        None
    } else {
        match UserOp::nth_of(i as usize) {
            Some(op) => if op.spec_symbol() == "\\"@ + name { Some(op) } else { backslash_user(name, i + 1) },
            None => backslash_user(name, i + 1),
        }
    }
}

/// The operator `\name` spells.
pub open spec fn backslash_op(n: Seq<char>) -> Option<Op> {
    if n == "in"@ { Some(Op::In) }
    else if n == "notin"@ { Some(Op::NotIn) }
    else if n == "subseteq"@ { Some(Op::Subseteq) }
    else if n == "supseteq"@ { Some(Op::Supseteq) }
    else if n == "cup"@ || n == "union"@ { Some(Op::Cup) }
    else if n == "cap"@ || n == "intersect"@ { Some(Op::Cap) }
    else if n == "times"@ || n == "X"@ { Some(Op::Cartesian) }
    else if n == "div"@ { Some(Op::Div) }
    else if n == "o"@ || n == "circ"@ { Some(Op::Concat) }
    else if n == "equiv"@ { Some(Op::Equiv) }
    else if n == "lnot"@ || n == "neg"@ { Some(Op::Not) }
    else if n == "land"@ { Some(Op::And) }
    else if n == "lor"@ { Some(Op::Or) }
    else if n == "leq"@ { Some(Op::Le) }
    else if n == "geq"@ { Some(Op::Ge) }
    else if n == "neq"@ { Some(Op::Neq) }
    else if n == "A"@ || n == "forall"@ { Some(Op::Forall) }
    else if n == "E"@ || n == "exists"@ { Some(Op::Exists) }
    else if n == "AA"@ { Some(Op::TemporalForall) }
    else if n == "EE"@ { Some(Op::TemporalExists) }
    else {
        match backslash_user(n, 28) {
            Some(u) => Some(Op::User(u)),
            None => None,
        }
    }
}

/// The base `\b`, `\o` or `\h` selects, or zero.
pub open spec fn base_letter(c: Option<char>) -> u32 {
    match c {
        Some(l) => if l == 'b' || l == 'B' { 2 } else if l == 'o' || l == 'O' { 8 }
            else if l == 'h' || l == 'H' { 16 } else { 0 },
        None => 0,
    }
}

/// `\/`, a number in base 2, 8 or 16, `\name`, or `\` alone.
pub open spec fn backslash_lexeme(cs: Seq<char>, p: int) -> Option<(TokV, int)> {
    let base = base_letter(char_at(cs, p + 1));
    if stands_at(cs, p, "\\/"@) {
        Some((TokV::Op(Op::Or), p + 2))
    } else if base > 0 && char_at(cs, p + 2) is Some && digit_value(cs[p + 2], base) is Some {
        let q = span_end(cs, p + 2, base_class(base));
        let v = digits_value(cs.subrange(p + 2, q), base);
        if v > i64::MAX { None } else { Some((TokV::Num(v), q)) }
    } else {
        let e = span_end(cs, p + 1, alpha_class());
        if e == p + 1 {
            Some((TokV::Op(Op::SetMinus), p + 1))
        } else {
            match backslash_op(cs.subrange(p + 1, e)) {
                Some(op) => Some((TokV::Op(op), e)),
                None => None,
            }
        }
    }
}

/// The one-character tokens not covered elsewhere.
pub open spec fn punctuation(c: char) -> Option<TokV> {
    if c == '(' { Some(TokV::LParen) }
    else if c == ')' { Some(TokV::RParen) }
    else if c == ']' { Some(TokV::RBrack) }
    else if c == '{' { Some(TokV::LBrace) }
    else if c == '}' { Some(TokV::RBrace) }
    else if c == ',' { Some(TokV::Comma) }
    else if c == '!' { Some(TokV::Bang) }
    else if c == '\'' { Some(TokV::Prime) }
    else if c == '_' { Some(TokV::Underscore) }
    else if c == '#' { Some(TokV::Op(Op::Neq)) }
    else if c == '+' { Some(TokV::Op(Op::Plus)) }
    else if c == '*' { Some(TokV::Op(Op::Times)) }
    else if c == '%' { Some(TokV::Op(Op::Mod)) }
    else if c == '^' { Some(TokV::Op(Op::Pow)) }
    else { None }
}

pub open spec fn punctuation_lexeme(cs: Seq<char>, p: int) -> Option<(TokV, int)> {
    match punctuation(cs[p]) {
        Some(t) => Some((t, p + 1)),
        None => None,
    }
}

/// Does a word character follow position `p`?
pub open spec fn word_follows(cs: Seq<char>, p: int) -> bool {
    match char_at(cs, p + 1) {
        Some(n) => is_word_char(n),
        None => false,
    }
}

/// The token that starts at `p`, where the source holds a character that is
/// not trivia, with where it ends; `None` where no token starts there.
pub open spec fn lexeme(cs: Seq<char>, p: int) -> Option<(TokV, int)> {
    let c = cs[p];
    if is_digit(c) {
        number_lexeme(cs, p)
    } else if is_alpha(c) || (c == '_' && word_follows(cs, p)) {
        Some(word_lexeme(cs, p))
    } else if c == '"' {
        string_rest(cs, p + 1, Seq::empty())
    } else if c == '=' {
        equals_lexeme(cs, p)
    } else if c == '-' {
        Some(dashes_lexeme(cs, p))
    } else if c == '<' {
        Some(lt_lexeme(cs, p))
    } else if c == '>' {
        Some(gt_lexeme(cs, p))
    } else if c == '\\' {
        backslash_lexeme(cs, p)
    } else if c == '/' {
        slash_lexeme(cs, p)
    } else if c == '|' {
        if stands_at(cs, p, "|->"@) { Some((TokV::MapsTo, p + 3)) } else { user_lexeme(cs, p) }
    } else if c == ':' {
        if stands_at(cs, p, ":>"@) {
            Some((TokV::Op(Op::OneTo), p + 2))
        } else if user_lexeme(cs, p) is Some {
            user_lexeme(cs, p)
        } else if stands_at(cs, p, "::"@) {
            Some((TokV::ColonColon, p + 2))
        } else {
            Some((TokV::Colon, p + 1))
        }
    } else if c == '@' {
        if stands_at(cs, p, "@@"@) { Some((TokV::Op(Op::AtAt), p + 2)) } else { Some((TokV::At, p + 1)) }
    } else if c == '~' {
        if stands_at(cs, p, "~>"@) { Some((TokV::Op(Op::LeadsTo), p + 2)) } else { Some((TokV::Op(Op::Not), p + 1)) }
    } else if c == '&' || c == '$' || c == '?' || c == '%' || c == '#' || c == '!' || c == '^'
        || c == '(' || c == '+' || c == '*' {
        if user_lexeme(cs, p) is Some { user_lexeme(cs, p) } else { punctuation_lexeme(cs, p) }
    } else if c == '.' {
        if stands_at(cs, p, ".."@) { Some((TokV::Op(Op::DotDot), p + 2)) } else { Some((TokV::Dot, p + 1)) }
    } else if c == '[' {
        if stands_at(cs, p, "[]"@) { Some((TokV::Op(Op::Always), p + 2)) } else { Some((TokV::LBrack, p + 1)) }
    } else {
        punctuation_lexeme(cs, p)
    }
}

} // verus!

verus! {

/// Where the block comment that opens at `p` closes, `depth` comments being
/// open already; `None` when the source ends first. Comments nest.
pub open spec fn block_end(cs: Seq<char>, p: int, depth: nat) -> Option<int>
    decreases cs.len() - p,
{
    if p < 0 || p >= cs.len() {
        None
    } else if stands_at(cs, p, "(*"@) {
        proof { reveal_strlit("(*"); }
        block_end(cs, p + 2, if depth < usize::MAX { depth + 1 } else { depth })
    } else if stands_at(cs, p, "*)"@) {
        proof { reveal_strlit("*)"); }
        let d: nat = if depth > 0 { (depth - 1) as nat } else { 0 };
        if d == 0 { Some(p + 2) } else { block_end(cs, p + 2, d) }
    } else {
        block_end(cs, p + 1, depth)
    }
}

/// A block comment ends after it begins, inside the source.
pub proof fn lemma_block_end_bounds(cs: Seq<char>, p: int, depth: nat)
    ensures
        block_end(cs, p, depth) matches Some(q) ==> p < q <= cs.len(),
    decreases cs.len() - p,
{
    reveal_strlit("(*");
    reveal_strlit("*)");
    if 0 <= p < cs.len() {
        if stands_at(cs, p, "(*"@) {
            lemma_block_end_bounds(cs, p + 2, if depth < usize::MAX { depth + 1 } else { depth });
        } else if stands_at(cs, p, "*)"@) {
            let d: nat = if depth > 0 { (depth - 1) as nat } else { 0 };
            if d != 0 {
                lemma_block_end_bounds(cs, p + 2, d);
            }
        } else {
            lemma_block_end_bounds(cs, p + 1, depth);
        }
    }
}

/// Where the trivia from `p` ends: blanks, line breaks, `\*` comments to the
/// end of their line, and nested `(* *)` comments; `None` when a block
/// comment is never closed.
pub open spec fn trivia_end(cs: Seq<char>, p: int) -> Option<int>
    decreases cs.len() - p,
{
    if p < 0 || p >= cs.len() {
        Some(p)
    } else if is_blank(cs[p]) || cs[p] == '\n' {
        trivia_end(cs, p + 1)
    } else if cs[p] == '\\' && char_at(cs, p + 1) == Some('*') {
        proof { lemma_span_bounds(cs, p + 1, line_class()); }
        trivia_end(cs, span_end(cs, p + 1, line_class()))
    } else if cs[p] == '(' && char_at(cs, p + 1) == Some('*') {
        match block_end(cs, p, 0) {
            Some(q) => {
                proof { lemma_block_end_bounds(cs, p, 0); }
                trivia_end(cs, q)
            },
            None => None,
        }
    } else {
        Some(p)
    }
}

/// Trivia ends at or after it begins, inside the source.
pub proof fn lemma_trivia_bounds(cs: Seq<char>, p: int)
    requires
        0 <= p <= cs.len(),
    ensures
        trivia_end(cs, p) matches Some(q) ==> p <= q <= cs.len(),
    decreases cs.len() - p,
{
    if p < cs.len() {
        if is_blank(cs[p]) || cs[p] == '\n' {
            lemma_trivia_bounds(cs, p + 1);
        } else if cs[p] == '\\' && char_at(cs, p + 1) == Some('*') {
            lemma_span_bounds(cs, p + 1, line_class());
            lemma_trivia_bounds(cs, span_end(cs, p + 1, line_class()));
        } else if cs[p] == '(' && char_at(cs, p + 1) == Some('*') {
            lemma_block_end_bounds(cs, p, 0);
            if let Some(q) = block_end(cs, p, 0) {
                lemma_trivia_bounds(cs, q);
            }
        }
    }
}

/// The longest user symbol has a length, and fits.
pub proof fn lemma_user_best(cs: Seq<char>, p: int, n: nat)
    ensures
        user_best(cs, p, n) matches Some((op, len)) ==> len > 0 && 0 <= p && p + len <= cs.len(),
    decreases n,
{
    if n > 0 {
        lemma_user_best(cs, p, (n - 1) as nat);
    }
}

/// A string literal ends after it begins, inside the source.
pub proof fn lemma_string_rest(cs: Seq<char>, q: int, acc: Seq<char>)
    ensures
        string_rest(cs, q, acc) matches Some((t, e)) ==> q < e <= cs.len() && t is Str,
    decreases cs.len() - q,
{
    if 0 <= q < cs.len() && cs[q] != '\n' && cs[q] != '"' {
        if cs[q] == '\\' {
            if q + 1 < cs.len() {
                lemma_string_rest(cs, q + 2, acc.push(unescape(cs[q + 1])));
            }
        } else {
            lemma_string_rest(cs, q + 1, acc.push(cs[q]));
        }
    }
}

/// A token ends after it begins, inside the source, and is never the end of
/// the input.
pub proof fn lemma_lexeme_progress(cs: Seq<char>, p: int)
    requires
        0 <= p < cs.len(),
    ensures
        lexeme(cs, p) matches Some((t, e)) ==> p < e <= cs.len() && !(t is Eof),
{
    reveal_strlit("-+->");
    reveal_strlit("->");
    reveal_strlit("-|");
    reveal_strlit("<<");
    reveal_strlit("<=>");
    reveal_strlit("<=");
    reveal_strlit("<-");
    reveal_strlit("<>");
    reveal_strlit("<:");
    reveal_strlit(">>");
    reveal_strlit(">=");
    reveal_strlit("/\\");
    reveal_strlit("/=");
    reveal_strlit("\\/");
    reveal_strlit("|->");
    reveal_strlit(":>");
    reveal_strlit("::");
    reveal_strlit("@@");
    reveal_strlit("~>");
    reveal_strlit("..");
    reveal_strlit("[]");
    lemma_span_bounds(cs, p, digit_class());
    lemma_span_bounds(cs, p, word_class());
    lemma_span_bounds(cs, p, same_class('='));
    lemma_span_bounds(cs, p, same_class('-'));
    lemma_user_best(cs, p, USER_OPERATOR_COUNT as nat);
    lemma_string_rest(cs, p + 1, Seq::empty());
    if p + 1 <= cs.len() {
        lemma_span_bounds(cs, p + 1, alpha_class());
    }
    if p + 2 <= cs.len() {
        let base = base_letter(char_at(cs, p + 1));
        lemma_span_bounds(cs, p + 2, base_class(base));
    }
    let q = span_end(cs, p, digit_class());
    if q + 1 < cs.len() {
        lemma_span_bounds(cs, q + 1, digit_class());
    }
}

/// How deeply modules are nested after a token.
pub open spec fn next_depth(t: TokV, depth: nat) -> nat {
    if t == TokV::Kw(Kw::Module) {
        if depth < usize::MAX { depth + 1 } else { depth }
    } else if t == TokV::ModuleEnd {
        if depth > 0 { (depth - 1) as nat } else { 0 }
    } else {
        depth
    }
}

/// The tokens from `p` on, each with where it starts, `depth` modules being
/// open: up to the terminator that closes the outermost module, or to the
/// end of the source, and then the end of the input; `None` when something
/// there is not a token.
pub open spec fn tokens_from(cs: Seq<char>, p: int, depth: nat) -> Option<Seq<(TokV, int)>>
    decreases cs.len() - p,
{
    if p < 0 || p > cs.len() {
        None
    } else {
        match trivia_end(cs, p) {
            None => None,
            Some(q) => if q >= cs.len() {
                Some(seq![(TokV::Eof, q)])
            } else {
                proof {
                    lemma_trivia_bounds(cs, p);
                    lemma_lexeme_progress(cs, q);
                }
                match lexeme(cs, q) {
                    None => None,
                    Some((t, e)) => {
                        let d = next_depth(t, depth);
                        if t == TokV::ModuleEnd && d == 0 {
                            Some(seq![(t, q), (TokV::Eof, e)])
                        } else {
                            match tokens_from(cs, e, d) {
                                Some(rest) => Some(seq![(t, q)] + rest),
                                None => None,
                            }
                        }
                    },
                }
            },
        }
    }
}

/// Blanks that do not end a line.
pub open spec fn inline_blank_class() -> spec_fn(char) -> bool {
    |c: char| c != '\n' && is_blank(c)
}

/// The line that holds a module's header, searched for from the line that
/// starts at `start`, the `index`th: `----`, more dashes, then `MODULE`,
/// blanks allowed around the dashes. Its start and its number counted from
/// one; the start of the source and line one when there is none.
pub open spec fn header_from(cs: Seq<char>, start: int, index: u32) -> (int, u32)
    decreases cs.len() - start,
{
    if start < 0 || start >= cs.len() {
        (0, 1)
    } else {
        let i1 = span_end(cs, start, inline_blank_class());
        let i2 = span_end(cs, i1, same_class('-'));
        if i2 - i1 >= 4 && stands_at(cs, span_end(cs, i2, inline_blank_class()), "MODULE"@) {
            (start, if index < u32::MAX { (index + 1) as u32 } else { u32::MAX })
        } else {
            let j0 = span_end(cs, start, line_class());
            let j = if j0 < cs.len() { j0 + 1 } else { j0 };
            proof { lemma_span_bounds(cs, start, line_class()); }
            if j <= start {
                (0, 1)
            } else {
                header_from(cs, j, if index < u32::MAX { (index + 1) as u32 } else { index })
            }
        }
    }
}

/// The source without a leading byte-order mark.
pub open spec fn without_bom(cs: Seq<char>) -> Seq<char> {
    if cs.len() > 0 && cs[0] == '\u{feff}' { cs.drop_first() } else { cs }
}

/// Where the module begins in text with no byte-order mark, past the prose
/// before its header, and the number of the line it begins on.
pub open spec fn module_start_of(cs: Seq<char>) -> (int, u32) {
    header_from(cs, 0, 0)
}

/// The tokens a source holds: those of its module, from its header on, with
/// positions counted in the source once a leading byte-order mark is gone.
pub open spec fn source_tokens(cs: Seq<char>) -> Option<Seq<(TokV, int)>> {
    tokens_from(without_bom(cs), module_start_of(without_bom(cs)).0, 0)
}

/// A byte-order mark in front of a source changes nothing: the tokens, their
/// positions, and the text their lines and columns are counted in are those
/// of the source without it.
pub proof fn law_byte_order_mark_is_skipped(s: Seq<char>)
    requires
        !(s.len() > 0 && s[0] == '\u{feff}'),
    ensures
        without_bom(seq!['\u{feff}'] + s) == without_bom(s),
        source_tokens(seq!['\u{feff}'] + s) == source_tokens(s),
{
    assert((seq!['\u{feff}'] + s).drop_first() =~= s);
}

/// `prefix` followed by what `rest` holds, if it holds anything.
pub open spec fn after(prefix: Seq<(TokV, int)>, rest: Option<Seq<(TokV, int)>>) -> Option<Seq<(TokV, int)>> {
    match rest {
        Some(r) => Some(prefix + r),
        None => None,
    }
}

/// Does the character at `p` end a line? A newline does, and so does a
/// carriage return that no newline follows.
pub open spec fn ends_line(cs: Seq<char>, p: int) -> bool {
    cs[p] == '\n' || (cs[p] == '\r' && char_at(cs, p + 1) != Some('\n'))
}

/// The line and column of position `to`, reading from `from`, which is at
/// column one of line `line`. Both counts stop at their largest value.
pub open spec fn line_col(cs: Seq<char>, from: int, to: int, line: u32) -> (u32, u32)
    decreases to - from,
{
    if to <= from || to > cs.len() {
        (line, 1)
    } else {
        let (l, c) = line_col(cs, from, to - 1, line);
        if ends_line(cs, to - 1) {
            (if l < u32::MAX { (l + 1) as u32 } else { l }, 1)
        } else {
            (l, if c < u32::MAX { (c + 1) as u32 } else { c })
        }
    }
}

} // verus!
