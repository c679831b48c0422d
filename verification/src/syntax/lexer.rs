//! Turn TLA+ source into tokens.

use vstd::prelude::*;
use crate::syntax::error::Error;
use crate::syntax::lexical::{
 alpha_class, base_class, digit_class, dashes_lexeme, equals_lexeme, gt_lexeme,
 lemma_span_end, line_class, lt_lexeme, punctuation_lexeme, same_class, slash_lexeme, span_end, stands_at,
 after, line_col, backslash_lexeme, block_end, header_from, inline_blank_class, lexeme,
 module_start_of, next_depth, without_bom, number_lexeme, source_tokens, tokens_from, trivia_end, string_rest, user_best, user_lexeme,
 word_class, word_lexeme,
};
use crate::syntax::token::{Kw, Op, Tok, TokV, Token, UserOp, USER_OPERATOR_COUNT};
use crate::text::{append, chars_of, push_char, string_between, str_eq, text};

verus! {

/// The Unicode `White_Space` property, the one `char::is_whitespace` tests:
/// tab, line feed, vertical tab, form feed, carriage return, space, next line,
/// no-break space, ogham space mark, the spaces from en quad to hair space,
/// line and paragraph separator, narrow no-break space, medium mathematical
/// space and ideographic space.
pub open spec fn unicode_whitespace(c: char) -> bool {
    ||| '\u{9}' <= c && c <= '\u{d}'
    ||| c == ' ' || c == '\u{85}' || c == '\u{a0}' || c == '\u{1680}'
    ||| '\u{2000}' <= c && c <= '\u{200a}'
    ||| c == '\u{2028}' || c == '\u{2029}' || c == '\u{202f}' || c == '\u{205f}' || c == '\u{3000}'
}

/// Is `c` white space in the sense of Unicode?
fn is_whitespace(c: char) -> (r: bool)
    ensures
        r == unicode_whitespace(c),
{
    ('\u{9}' <= c && c <= '\u{d}') || c == ' ' || c == '\u{85}' || c == '\u{a0}' || c == '\u{1680}'
        || ('\u{2000}' <= c && c <= '\u{200a}') || c == '\u{2028}' || c == '\u{2029}' || c == '\u{202f}'
        || c == '\u{205f}' || c == '\u{3000}'
}

pub open spec fn is_digit(c: char) -> bool {
    '0' <= c && c <= '9'
}

pub open spec fn is_alpha(c: char) -> bool {
    ('a' <= c && c <= 'z') || ('A' <= c && c <= 'Z')
}

/// A character that may continue a name.
pub open spec fn is_word_char(c: char) -> bool {
    is_digit(c) || is_alpha(c) || c == '_'
}

fn digit(c: char) -> (r: bool)
    ensures
        r == is_digit(c),
{
    '0' <= c && c <= '9'
}

fn alpha(c: char) -> (r: bool)
    ensures
        r == is_alpha(c),
{
    ('a' <= c && c <= 'z') || ('A' <= c && c <= 'Z')
}

fn word_char(c: char) -> (r: bool)
    ensures
        r == is_word_char(c),
{
    digit(c) || alpha(c) || c == '_'
}

/// The value of `c` as a digit in base `base` (2, 8, 10 or 16), if it is one.
pub open spec fn digit_value(c: char, base: u32) -> Option<u32> {
    let v: int = if is_digit(c) {
        c as int - '0' as int
    } else if 'a' <= c && c <= 'f' {
        c as int - 'a' as int + 10
    } else if 'A' <= c && c <= 'F' {
        c as int - 'A' as int + 10
    } else {
        99
    };
    if v < base { Some(v as u32) } else { None }
}

fn digit_in(c: char, base: u32) -> (r: Option<u32>)
    ensures
        r == digit_value(c, base),
{
    let v: u32 = if '0' <= c && c <= '9' {
        (c as u32) - ('0' as u32)
    } else if 'a' <= c && c <= 'f' {
        (c as u32) - ('a' as u32) + 10
    } else if 'A' <= c && c <= 'F' {
        (c as u32) - ('A' as u32) + 10
    } else {
        99
    };
    if v < base { Some(v) } else { None }
}

/// The number that `digits` spell in base `base`, most significant first.
pub open spec fn digits_value(digits: Seq<char>, base: u32) -> int
    decreases digits.len(),
{
    if digits.len() == 0 {
        0
    } else {
        digits_value(digits.drop_last(), base) * base + match digit_value(digits.last(), base) {
            Some(d) => d as int,
            None => 0,
        }
    }
}

/// The well-formedness of a token list that the parser relies on: it is not
/// empty, it ends with `Eof`, and `Eof` appears nowhere else.
pub open spec fn ends_with_eof(toks: Seq<Token>) -> bool {
    &&& toks.len() > 0
    &&& toks.last().tok is Eof
    &&& forall|i: int| 0 <= i < toks.len() - 1 ==> !(#[trigger] toks[i].tok is Eof)
}

/// Split TLA+ source into tokens. The prose before a module's header is not
/// read, and reading stops at the terminator that closes the outermost module.
pub fn lex(src: &str) -> (r: Result<Vec<Token>, Error>)
    ensures
        r matches Ok(toks) ==> ends_with_eof(toks@),
        r matches Err(e) ==> e.stage == crate::syntax::error::Stage::Lex,
        r is Ok <==> source_tokens(src@) is Some,
        r matches Ok(toks) ==> toks.len() == source_tokens(src@)->Some_0.len()
            && forall|i: int| 0 <= i < toks.len() ==> (#[trigger] toks@[i]).tok@ == source_tokens(src@)->Some_0[i].0
                && (toks@[i].line, toks@[i].col) == line_col(without_bom(src@), module_start_of(without_bom(src@)).0,
                    source_tokens(src@)->Some_0[i].1, module_start_of(without_bom(src@)).1),
{
    let mut chars = chars_of(src);
    if chars.len() > 0 && chars[0] == '\u{feff}' {
        chars.remove(0);
        proof { assert(chars@ =~= src@.drop_first()); }
    }
    assert(chars@ == without_bom(src@));
    let (offset, line) = module_start(&chars);
    let mut lexer = Lexer { chars, pos: offset, line, col: 1, out: Vec::new(), origin: Ghost((offset as int, line)) };
    lexer.run()
}

struct Lexer {
    chars: Vec<char>,
    pos: usize,
    line: u32,
    col: u32,
    out: Vec<Token>,
    /// Where reading began, and on which line.
    origin: Ghost<(int, u32)>,
}

fn is_blank(c: char) -> (r: bool)
    ensures
        r == crate::syntax::lexical::is_blank(c),
{
    c == ' ' || c == '\t' || c == '\r' || is_whitespace(c)
}

/// Does `chars` hold `s` starting at `at`?
fn holds_at(chars: &Vec<char>, at: usize, s: &Vec<char>) -> (r: bool)
    ensures
        r == (at + s.len() <= chars.len() && chars@.subrange(at as int, at + s.len()) == s@),
{
    if at > chars.len() || s.len() > chars.len() - at {
        return false;
    }
    let mut i: usize = 0;
    while i < s.len()
        invariant
            at + s.len() <= chars.len(),
            i <= s.len(),
            forall|k: int| 0 <= k < i ==> chars@[at + k] == s@[k],
        decreases s.len() - i,
    {
        if chars[at + i] != s[i] {
            assert(chars@.subrange(at as int, at + s.len())[i as int] != s@[i as int]);
            return false;
        }
        i = i + 1;
    }
    assert(chars@.subrange(at as int, at + s.len()) =~= s@);
    true
}

/// Where the module actually begins: the line whose text is `----`, more
/// dashes, and `MODULE`. A `.tla` file is a module surrounded by prose, and
/// that prose is not TLA+. Without such a line, everything is read.
fn module_start(chars: &Vec<char>) -> (r: (usize, u32))
    ensures
        r.0 <= chars.len(),
        r.1 >= 1,
        (r.0 as int, r.1) == module_start_of(chars@),
{
    let offset: usize = 0;
    let header = chars_of("MODULE");
    let mut line_index: u32 = 0;
    let mut start = offset;
    proof { reveal_strlit("MODULE"); }
    while start < chars.len()
        invariant
            start <= chars.len(),
            header@ == "MODULE"@,
            module_start_of(chars@) == header_from(chars@, start as int, line_index),
        decreases chars.len() - start,
    {
        // Skip leading blanks on this line.
        let mut i = start;
        while i < chars.len() && chars[i] != '\n' && is_blank(chars[i])
            invariant
                start <= i <= chars.len(),
                forall|k: int| start <= k < i ==> (inline_blank_class())(#[trigger] chars@[k]),
            decreases chars.len() - i,
        {
            i = i + 1;
        }
        proof { lemma_span_end(chars@, start as int, i as int, inline_blank_class()); }
        let ghost i1 = i;
        let mut dashes: usize = 0;
        while i < chars.len() && chars[i] == '-'
            invariant
                i1 <= i <= chars.len(),
                forall|k: int| i1 <= k < i ==> #[trigger] chars@[k] == '-',
                dashes == (if i - i1 < 4 { i - i1 } else { 4 }),
            decreases chars.len() - i,
        {
            i = i + 1;
            if dashes < 4 {
                dashes = dashes + 1;
            }
        }
        proof { lemma_span_end(chars@, i1 as int, i as int, same_class('-')); }
        if dashes >= 4 {
            let ghost i2 = i;
            while i < chars.len() && chars[i] != '\n' && is_blank(chars[i])
                invariant
                    i2 <= i <= chars.len(),
                    forall|k: int| i2 <= k < i ==> (inline_blank_class())(#[trigger] chars@[k]),
                decreases chars.len() - i,
            {
                i = i + 1;
            }
            proof { lemma_span_end(chars@, i2 as int, i as int, inline_blank_class()); }
            if holds_at(chars, i, &header) {
                let line = if line_index < u32::MAX { line_index + 1 } else { u32::MAX };
                return (start, line);
            }
        }
        // Move to the start of the next line.
        let mut j = start;
        while j < chars.len() && chars[j] != '\n'
            invariant
                start <= j <= chars.len(),
                forall|k: int| start <= k < j ==> #[trigger] chars@[k] != '\n',
            decreases chars.len() - j,
        {
            j = j + 1;
        }
        proof { lemma_span_end(chars@, start as int, j as int, line_class()); }
        if j < chars.len() {
            j = j + 1;
        }
        if j == start {
            return (0, 1);
        }
        start = j;
        if line_index < u32::MAX {
            line_index = line_index + 1;
        }
    }
    (0, 1)
}

impl Lexer {
    spec fn wf(&self) -> bool {
        &&& self.pos <= self.chars.len()
        &&& forall|i: int| 0 <= i < self.out.len() ==> !(#[trigger] self.out@[i].tok is Eof)
        &&& 0 <= self.origin@.0 <= self.pos
        &&& (self.line, self.col) == line_col(self.chars@, self.origin@.0, self.pos as int, self.origin@.1)
    }

    fn peek(&self) -> (r: Option<char>)
        requires
            self.wf(),
        ensures
            r is Some <==> self.pos < self.chars.len(),
            r matches Some(c) ==> c == self.chars@[self.pos as int],
    {
        if self.pos < self.chars.len() { Some(self.chars[self.pos]) } else { None }
    }

    fn at(&self, offset: usize) -> (r: Option<char>)
        requires
            self.wf(),
        ensures
            r is Some <==> self.pos + offset < self.chars.len(),
            r matches Some(c) ==> c == self.chars@[self.pos + offset],
    {
        if offset < self.chars.len() - self.pos { Some(self.chars[self.pos + offset]) } else { None }
    }

    fn bump(&mut self) -> (r: Option<char>)
        requires
            old(self).wf(),
        ensures
            final(self).wf(),
            final(self).chars == old(self).chars,
            final(self).origin == old(self).origin,
            final(self).out == old(self).out,
            r is Some <==> old(self).pos < old(self).chars.len(),
            r matches Some(c) ==> c == old(self).chars@[old(self).pos as int] && final(self).pos == old(self).pos + 1,
            r is None ==> final(self).pos == old(self).pos,
    {
        if self.pos >= self.chars.len() {
            return None;
        }
        let c = self.chars[self.pos];
        let ghost at = self.pos as int;
        self.pos = self.pos + 1;
        // `\r\n` is one line break, not two, so a carriage return only ends a
        // line when no newline follows it.
        let newline_next = self.pos < self.chars.len() && self.chars[self.pos] == '\n';
        let ends_line = c == '\n' || (c == '\r' && !newline_next);
        proof { assert(ends_line == crate::syntax::lexical::ends_line(self.chars@, at)); }
        if ends_line {
            if self.line < u32::MAX {
                self.line = self.line + 1;
            }
            self.col = 1;
        } else if self.col < u32::MAX {
            self.col = self.col + 1;
        }
        Some(c)
    }

    fn advance(&mut self, n: usize)
        requires
            old(self).wf(),
        ensures
            final(self).wf(),
            final(self).chars == old(self).chars,
            final(self).origin == old(self).origin,
            final(self).out == old(self).out,
            final(self).pos >= old(self).pos,
            old(self).pos + n <= old(self).chars.len() ==> final(self).pos == old(self).pos + n,
    {
        let mut i: usize = 0;
        while i < n
            invariant
                self.wf(),
                self.chars == old(self).chars,
                self.origin == old(self).origin,
                self.out == old(self).out,
                i <= n,
                self.pos >= old(self).pos,
                old(self).pos + i <= old(self).chars.len() ==> self.pos == old(self).pos + i,
            decreases n - i,
        {
            self.bump();
            i = i + 1;
        }
    }

    fn starts_with(&self, s: &str) -> (r: bool)
        requires
            self.wf(),
        ensures
            r == (self.pos + s@.len() <= self.chars.len()
                && self.chars@.subrange(self.pos as int, self.pos + s@.len()) == s@),
            r == stands_at(self.chars@, self.pos as int, s@),
    {
        let cs = chars_of(s);
        holds_at(&self.chars, self.pos, &cs)
    }

    fn run_of(&self, c: char) -> (n: usize)
        requires
            self.wf(),
        ensures
            self.pos + n <= self.chars.len(),
            forall|k: int| self.pos <= k < self.pos + n ==> self.chars@[k] == c,
            self.pos + n == self.chars.len() || self.chars@[self.pos + n] != c,
            self.pos + n == span_end(self.chars@, self.pos as int, same_class(c)),
    {
        let mut n: usize = 0;
        while self.pos + n < self.chars.len() && self.chars[self.pos + n] == c
            invariant
                self.pos + n <= self.chars.len(),
                forall|k: int| self.pos <= k < self.pos + n ==> self.chars@[k] == c,
            decreases self.chars.len() - (self.pos + n),
        {
            n = n + 1;
        }
        proof { lemma_span_end(self.chars@, self.pos as int, self.pos + n, same_class(c)); }
        n
    }

    fn err(&self, msg: String) -> (e: Error)
        ensures
            e.stage == crate::syntax::error::Stage::Lex,
    {
        Error::lex(msg, self.line, self.col)
    }

    fn run(self) -> (r: Result<Vec<Token>, Error>)
        requires
            self.wf(),
            self.out.len() == 0,
        ensures
            r matches Ok(toks) ==> ends_with_eof(toks@),
            r matches Err(e) ==> e.stage == crate::syntax::error::Stage::Lex,
            r is Ok <==> tokens_from(self.chars@, self.pos as int, 0) is Some,
            r matches Ok(toks) ==> toks.len() == tokens_from(self.chars@, self.pos as int, 0)->Some_0.len()
                && forall|i: int| 0 <= i < toks.len()
                    ==> (#[trigger] toks@[i]).tok@ == tokens_from(self.chars@, self.pos as int, 0)->Some_0[i].0
                    && (toks@[i].line, toks@[i].col) == line_col(self.chars@, self.origin@.0,
                        tokens_from(self.chars@, self.pos as int, 0)->Some_0[i].1, self.origin@.1),
    {
        // Modules nest, so the file ends at the terminator that closes the
        // outermost one, not at the first one seen.
        let ghost cs = self.chars@;
        let ghost start = self.pos as int;
        let mut this = self;
        let mut depth: usize = 0;
        let ghost mut toks: Seq<(TokV, int)> = Seq::empty();
        proof { assert(toks + tokens_from(cs, start, 0)->Some_0 =~= tokens_from(cs, start, 0)->Some_0); }
        loop
            invariant_except_break
                this.wf(),
                this.chars@ == cs,
                cs == self.chars@,
                start == self.pos as int,
                this.origin == self.origin,
                toks.len() == this.out.len(),
                forall|i: int| 0 <= i < toks.len() ==> (#[trigger] this.out@[i]).tok@ == toks[i].0
                    && (this.out@[i].line, this.out@[i].col) == line_col(cs, self.origin@.0, toks[i].1, self.origin@.1),
                tokens_from(cs, start, 0) == after(toks, tokens_from(cs, this.pos as int, depth as nat)),
            ensures
                this.wf(),
                this.chars@ == cs,
                cs == self.chars@,
                start == self.pos as int,
                this.origin == self.origin,
                toks.len() == this.out.len(),
                forall|i: int| 0 <= i < toks.len() ==> (#[trigger] this.out@[i]).tok@ == toks[i].0
                    && (this.out@[i].line, this.out@[i].col) == line_col(cs, self.origin@.0, toks[i].1, self.origin@.1),
                tokens_from(cs, start, 0) == Some(toks.push((TokV::Eof, this.pos as int))),
            decreases this.chars.len() - this.pos,
        {
            let ghost p = this.pos as int;
            let ghost d = depth as nat;
            proof { crate::syntax::lexical::lemma_trivia_bounds(cs, p); }
            match this.skip_trivia() {
                Ok(()) => {},
                Err(e) => {
                    proof {
                        assert(tokens_from(cs, p, d) is None);
                    }
                    return Err(e);
                },
            }
            let ghost q = this.pos as int;
            let line = this.line;
            let col = this.col;
            let c = match this.peek() {
                Some(c) => c,
                None => {
                    proof {
                        assert(tokens_from(cs, p, d) == Some(seq![(TokV::Eof, q)]));
                        assert(toks + seq![(TokV::Eof, q)] =~= toks.push((TokV::Eof, q)));
                    }
                    break;
                },
            };
            proof { crate::syntax::lexical::lemma_lexeme_progress(cs, q); }
            let tok = match this.scan(c) {
                Ok(t) => t,
                Err(e) => {
                    proof {
                        assert(tokens_from(cs, p, d) is None);
                    }
                    return Err(e);
                },
            };
            let ghost t = tok@;
            let ghost e = this.pos as int;
            let mut closed = false;
            match &tok {
                Tok::Kw(Kw::Module) => {
                    if depth < usize::MAX {
                        depth = depth + 1;
                    }
                },
                Tok::ModuleEnd => {
                    if depth > 0 {
                        depth = depth - 1;
                    }
                    closed = depth == 0;
                },
                _ => {},
            }
            proof {
                assert(depth as nat == next_depth(t, d));
                assert(closed == (t == TokV::ModuleEnd && next_depth(t, d) == 0));
            }
            this.out.push(Token { tok, line, col });
            proof {
                let old_toks = toks;
                toks = toks.push((t, q));
                if closed {
                    assert(tokens_from(cs, p, d) == Some(seq![(t, q), (TokV::Eof, e)]));
                    assert(old_toks + seq![(t, q), (TokV::Eof, e)] =~= toks.push((TokV::Eof, e)));
                } else {
                    assert(tokens_from(cs, p, d) == after(seq![(t, q)], tokens_from(cs, e, depth as nat)));
                    if let Some(rest) = tokens_from(cs, e, depth as nat) {
                        assert(old_toks + (seq![(t, q)] + rest) =~= toks + rest);
                    }
                }
            }
            if closed {
                break;
            }
        }
        let line = this.line;
        let col = this.col;
        let ghost end = this.pos as int;
        let ghost before_out = this.out@;
        this.out.push(Token { tok: Tok::Eof, line, col });
        proof {
            let all = toks.push((TokV::Eof, end));
            assert forall|i: int| 0 <= i < this.out.len() implies (#[trigger] this.out@[i]).tok@ == all[i].0
                && (this.out@[i].line, this.out@[i].col) == line_col(cs, self.origin@.0, all[i].1, self.origin@.1) by {
                if i < toks.len() {
                    assert(this.out@[i] == before_out[i]);
                }
            }
        }
        Ok(this.out)
    }

    fn skip_trivia(&mut self) -> (r: Result<(), Error>)
        requires
            old(self).wf(),
        ensures
            final(self).wf(),
            final(self).chars == old(self).chars,
            final(self).origin == old(self).origin,
            final(self).out == old(self).out,
            final(self).pos >= old(self).pos,
            r matches Err(e) ==> e.stage == crate::syntax::error::Stage::Lex,
            r is Ok <==> trivia_end(old(self).chars@, old(self).pos as int) is Some,
            r is Ok ==> final(self).pos == trivia_end(old(self).chars@, old(self).pos as int)->Some_0,
    {
        loop
            invariant
                self.wf(),
                self.chars == old(self).chars,
                self.origin == old(self).origin,
                self.out == old(self).out,
                self.pos >= old(self).pos,
                trivia_end(self.chars@, old(self).pos as int) == trivia_end(self.chars@, self.pos as int),
            decreases self.chars.len() - self.pos,
        {
            match self.peek() {
                Some(c) => {
                    if is_blank(c) || c == '\n' {
                        self.bump();
                    } else if c == '\\' && self.at(1) == Some('*') {
                        let ghost before = self.pos;
                        self.bump();
                        while self.pos < self.chars.len() && self.chars[self.pos] != '\n'
                            invariant
                                self.pos > before,
                                self.wf(),
                                self.chars == old(self).chars,
                                self.origin == old(self).origin,
                                self.out == old(self).out,
                                self.pos >= old(self).pos,
                                forall|k: int| before + 1 <= k < self.pos ==> #[trigger] self.chars@[k] != '\n',
                            decreases self.chars.len() - self.pos,
                        {
                            self.bump();
                        }
                        proof { lemma_span_end(self.chars@, before + 1, self.pos as int, line_class()); }
                    } else if c == '(' && self.at(1) == Some('*') {
                        self.skip_block_comment()?;
                    } else {
                        return Ok(());
                    }
                },
                None => return Ok(()),
            }
        }
    }

    fn skip_block_comment(&mut self) -> (r: Result<(), Error>)
        requires
            old(self).wf(),
            old(self).pos + 1 < old(self).chars.len(),
        ensures
            final(self).wf(),
            final(self).chars == old(self).chars,
            final(self).origin == old(self).origin,
            final(self).out == old(self).out,
            r is Ok ==> final(self).pos > old(self).pos,
            final(self).pos >= old(self).pos,
            r matches Err(e) ==> e.stage == crate::syntax::error::Stage::Lex,
            r is Ok <==> block_end(old(self).chars@, old(self).pos as int, 0) is Some,
            r is Ok ==> final(self).pos == block_end(old(self).chars@, old(self).pos as int, 0)->Some_0,
    {
        let line = self.line;
        let col = self.col;
        let mut depth: usize = 0;
        let start = self.pos;
        loop
            invariant
                self.wf(),
                self.chars == old(self).chars,
                self.origin == old(self).origin,
                self.out == old(self).out,
                self.pos >= start,
                start == old(self).pos,
                depth > 0 ==> self.pos > start,
                block_end(self.chars@, start as int, 0) == block_end(self.chars@, self.pos as int, depth as nat),
            decreases self.chars.len() - self.pos,
        {
            if self.pos >= self.chars.len() {
                return Err(Error::lex(text("unterminated (* comment"), line, col));
            }
            if self.starts_with("(*") {
                proof { reveal_strlit("(*"); }
                if depth < usize::MAX {
                    depth = depth + 1;
                }
                self.advance(2);
            } else if self.starts_with("*)") {
                proof { reveal_strlit("*)"); }
                if depth > 0 {
                    depth = depth - 1;
                }
                self.advance(2);
                if depth == 0 {
                    return Ok(());
                }
            } else {
                self.bump();
            }
        }
    }
}

} // verus!

verus! {

/// What every scanning step promises: on success it has consumed at least
/// one character and produced a token other than `Eof`.
pub open spec fn scanned(before: usize, after: usize, r: Result<Tok, Error>) -> bool {
    &&& r matches Ok(t) ==> after > before && !(t is Eof)
    &&& r matches Err(e) ==> e.stage == crate::syntax::error::Stage::Lex
}

/// The scanning step gave what the lexical structure says starts where it
/// began: the token and where it ends, or an error where none starts.
pub open spec fn scanned_as(r: Result<Tok, Error>, after: usize, l: Option<(TokV, int)>) -> bool {
    match l {
        Some((t, e)) => r matches Ok(x) && x@ == t && after == e,
        None => r is Err,
    }
}

impl Lexer {
    fn scan(&mut self, c: char) -> (r: Result<Tok, Error>)
        requires
            old(self).wf(),
            old(self).pos < old(self).chars.len(),
            c == old(self).chars@[old(self).pos as int],
        ensures
            final(self).wf(),
            final(self).chars == old(self).chars,
            final(self).origin == old(self).origin,
            final(self).out == old(self).out,
            final(self).pos >= old(self).pos,
            scanned(old(self).pos, final(self).pos, r),
            scanned_as(r, final(self).pos, lexeme(old(self).chars@, old(self).pos as int)),
    {
        if digit(c) {
            return self.scan_number();
        }
        // A lone `_` is the placeholder in `Op(_, _)`; followed by more, it is
        // an ordinary identifier, and `]_vars` is disambiguated by the parser.
        let next_word = match self.at(1) {
            Some(n) => word_char(n),
            None => false,
        };
        if alpha(c) || (c == '_' && next_word) {
            return Ok(self.scan_word());
        }
        if c == '"' {
            self.scan_string()
        } else if c == '=' {
            self.scan_equals()
        } else if c == '-' {
            Ok(self.scan_dashes())
        } else if c == '<' {
            Ok(self.scan_lt())
        } else if c == '>' {
            Ok(self.scan_gt())
        } else if c == '\\' {
            self.scan_backslash()
        } else if c == '/' {
            self.scan_slash()
        } else if c == '|' {
            if self.starts_with("|->") {
                proof { reveal_strlit("|->"); }
                self.advance(3);
                return Ok(Tok::MapsTo);
            }
            match self.user_symbol() {
                Some(t) => Ok(t),
                None => Err(self.err(text("stray `|`"))),
            }
        } else if c == ':' {
            if self.starts_with(":>") {
                proof { reveal_strlit(":>"); }
                self.advance(2);
                return Ok(Tok::Op(Op::OneTo));
            }
            if let Some(tok) = self.user_symbol() {
                return Ok(tok);
            }
            if self.starts_with("::") {
                proof { reveal_strlit("::"); }
                self.advance(2);
                return Ok(Tok::ColonColon);
            }
            self.bump();
            Ok(Tok::Colon)
        } else if c == '@' {
            if self.starts_with("@@") {
                proof { reveal_strlit("@@"); }
                self.advance(2);
                Ok(Tok::Op(Op::AtAt))
            } else {
                self.bump();
                Ok(Tok::At)
            }
        } else if c == '~' {
            if self.starts_with("~>") {
                proof { reveal_strlit("~>"); }
                self.advance(2);
                Ok(Tok::Op(Op::LeadsTo))
            } else {
                self.bump();
                Ok(Tok::Op(Op::Not))
            }
        } else if c == '&' || c == '$' || c == '?' || c == '%' || c == '#' || c == '!' || c == '^'
            || c == '(' || c == '+' || c == '*' {
            match self.user_symbol() {
                Some(t) => Ok(t),
                None => self.scan_punctuation(c),
            }
        } else if c == '.' {
            if self.starts_with("..") {
                proof { reveal_strlit(".."); }
                self.advance(2);
                Ok(Tok::Op(Op::DotDot))
            } else {
                self.bump();
                Ok(Tok::Dot)
            }
        } else if c == '[' {
            if self.starts_with("[]") {
                proof { reveal_strlit("[]"); }
                self.advance(2);
                Ok(Tok::Op(Op::Always))
            } else {
                self.bump();
                Ok(Tok::LBrack)
            }
        } else {
            self.scan_punctuation(c)
        }
    }

    fn scan_punctuation(&mut self, c: char) -> (r: Result<Tok, Error>)
        requires
            old(self).wf(),
            old(self).pos < old(self).chars.len(),
            c == old(self).chars@[old(self).pos as int],
        ensures
            final(self).wf(),
            final(self).chars == old(self).chars,
            final(self).origin == old(self).origin,
            final(self).out == old(self).out,
            final(self).pos >= old(self).pos,
            scanned(old(self).pos, final(self).pos, r),
            scanned_as(r, final(self).pos, punctuation_lexeme(old(self).chars@, old(self).pos as int)),
    {
        let line = self.line;
        let col = self.col;
        self.bump();
        let tok = if c == '(' { Tok::LParen }
            else if c == ')' { Tok::RParen }
            else if c == ']' { Tok::RBrack }
            else if c == '{' { Tok::LBrace }
            else if c == '}' { Tok::RBrace }
            else if c == ',' { Tok::Comma }
            else if c == '!' { Tok::Bang }
            else if c == '\'' { Tok::Prime }
            else if c == '_' { Tok::Underscore }
            else if c == '#' { Tok::Op(Op::Neq) }
            else if c == '+' { Tok::Op(Op::Plus) }
            else if c == '*' { Tok::Op(Op::Times) }
            else if c == '%' { Tok::Op(Op::Mod) }
            else if c == '^' { Tok::Op(Op::Pow) }
            else {
                let mut msg = text("unexpected character `");
                push_char(&mut msg, c);
                append(&mut msg, "`");
                return Err(Error::lex(msg, line, col));
            };
        Ok(tok)
    }

    /// The longest symbol from the table of user-definable operators that
    /// starts here. The ones spelled `\name` are matched elsewhere.
    fn user_symbol(&mut self) -> (r: Option<Tok>)
        requires
            old(self).wf(),
        ensures
            final(self).wf(),
            final(self).chars == old(self).chars,
            final(self).origin == old(self).origin,
            final(self).out == old(self).out,
            final(self).pos >= old(self).pos,
            r matches Some(t) ==> final(self).pos > old(self).pos && !(t is Eof),
            r is None ==> final(self).pos == old(self).pos,
            match user_lexeme(old(self).chars@, old(self).pos as int) {
                Some((t, e)) => r matches Some(x) && x@ == t && final(self).pos == e,
                None => r is None,
            },
    {
        let mut best: Option<UserOp> = None;
        let mut best_len: usize = 0;
        let mut i: usize = 0;
        while i < USER_OPERATOR_COUNT
            invariant
                self.wf(),
                i <= USER_OPERATOR_COUNT,
                best is Some ==> best_len > 0 && self.pos + best_len <= self.chars.len(),
                match user_best(self.chars@, self.pos as int, i as nat) {
                    Some((op, len)) => best == Some(op) && best_len == len,
                    None => best is None,
                },
            decreases USER_OPERATOR_COUNT - i,
        {
            if let Some(op) = UserOp::nth(i) {
                let symbol = chars_of(op.symbol());
                if symbol.len() > 0 && symbol[0] != '\\' && holds_at(&self.chars, self.pos, &symbol) {
                    if best.is_none() || symbol.len() > best_len {
                        best = Some(op);
                        best_len = symbol.len();
                    }
                }
            }
            i = i + 1;
        }
        match best {
            Some(op) => {
                self.advance(best_len);
                Some(Tok::Op(Op::User(op)))
            },
            None => None,
        }
    }

    /// Digits, then one of: a name (`1aMessage`), a decimal (`1.5`), or a
    /// plain integer.
    fn scan_number(&mut self) -> (r: Result<Tok, Error>)
        requires
            old(self).wf(),
            old(self).pos < old(self).chars.len(),
            is_digit(old(self).chars@[old(self).pos as int]),
        ensures
            final(self).wf(),
            final(self).chars == old(self).chars,
            final(self).origin == old(self).origin,
            final(self).out == old(self).out,
            final(self).pos >= old(self).pos,
            scanned(old(self).pos, final(self).pos, r),
            scanned_as(r, final(self).pos, number_lexeme(old(self).chars@, old(self).pos as int)),
    {
        let start = self.pos;
        let start_line = self.line;
        let start_col = self.col;
        let mut value: i64 = 0;
        let mut overflow = false;
        proof { assert(self.chars@.subrange(start as int, start as int) =~= Seq::<char>::empty()); }
        while self.pos < self.chars.len() && digit(self.chars[self.pos])
            invariant
                self.wf(),
                self.chars == old(self).chars,
                self.origin == old(self).origin,
                self.out == old(self).out,
                start == old(self).pos,
                self.pos >= start,
                value >= 0,
                forall|k: int| start <= k < self.pos ==> is_digit(#[trigger] self.chars@[k]),
                digits_value(self.chars@.subrange(start as int, self.pos as int), 10) >= 0,
                !overflow ==> value == digits_value(self.chars@.subrange(start as int, self.pos as int), 10),
                overflow ==> digits_value(self.chars@.subrange(start as int, self.pos as int), 10) > i64::MAX,
            decreases self.chars.len() - self.pos,
        {
            let d = (self.chars[self.pos] as u32 - '0' as u32) as i64;
            proof {
                let t = self.chars@.subrange(start as int, self.pos + 1);
                assert(t.drop_last() =~= self.chars@.subrange(start as int, self.pos as int));
                assert(t.last() == self.chars@[self.pos as int]);
            }
            if value > (i64::MAX - d) / 10 {
                overflow = true;
            } else {
                value = value * 10 + d;
            }
            self.bump();
        }
        proof { lemma_span_end(self.chars@, start as int, self.pos as int, digit_class()); }
        // `1aMessage` is a name, not a number followed by one: TLA+ only asks
        // that an identifier contain a letter, not that it begin with one.
        if let Some(c) = self.peek() {
            if alpha(c) || c == '_' {
                self.pos = start;
                self.line = start_line;
                self.col = start_col;
                return Ok(self.scan_word());
            }
            if c == '.' {
                if let Some(n) = self.at(1) {
                    if digit(n) {
                        self.bump();
                        let ghost after_dot = self.pos;
                        while self.pos < self.chars.len() && digit(self.chars[self.pos])
                            invariant
                                self.wf(),
                                self.chars == old(self).chars,
                                self.origin == old(self).origin,
                                self.out == old(self).out,
                                self.pos > start,
                                self.pos >= after_dot,
                                forall|k: int| after_dot <= k < self.pos ==> is_digit(#[trigger] self.chars@[k]),
                            decreases self.chars.len() - self.pos,
                        {
                            self.bump();
                        }
                        proof { lemma_span_end(self.chars@, after_dot as int, self.pos as int, digit_class()); }
                        let text = string_between(&self.chars, start, self.pos);
                        return Ok(Tok::Decimal(text));
                    }
                }
            }
        }
        if overflow {
            let mut msg = text("integer literal out of range: ");
            let digits = string_between(&self.chars, start, self.pos);
            append(&mut msg, digits.as_str());
            return Err(self.err(msg));
        }
        Ok(Tok::Num(value))
    }

    fn scan_word(&mut self) -> (t: Tok)
        requires
            old(self).wf(),
            old(self).pos < old(self).chars.len(),
            is_word_char(old(self).chars@[old(self).pos as int]),
        ensures
            final(self).wf(),
            final(self).chars == old(self).chars,
            final(self).origin == old(self).origin,
            final(self).out == old(self).out,
            final(self).pos > old(self).pos,
            !(t is Eof),
            (t@, final(self).pos as int) == word_lexeme(old(self).chars@, old(self).pos as int),
    {
        let start = self.pos;
        while self.pos < self.chars.len() && word_char(self.chars[self.pos])
            invariant
                self.wf(),
                self.chars == old(self).chars,
                self.origin == old(self).origin,
                self.out == old(self).out,
                self.pos >= start,
                start == old(self).pos,
                start < self.chars.len(),
                is_word_char(self.chars@[start as int]),
                forall|k: int| start <= k < self.pos ==> is_word_char(#[trigger] self.chars@[k]),
            decreases self.chars.len() - self.pos,
        {
            self.bump();
        }
        proof { lemma_span_end(self.chars@, start as int, self.pos as int, word_class()); }
        let word = string_between(&self.chars, start, self.pos);
        // `WF_vars` is one word to the lexer but an operator and a subscript.
        // `WF_<<a, b>>` is the same operator with a subscript the lexer cannot
        // see, so the name is left empty.
        let len = self.pos - start;
        if len >= 3 && self.chars[start + 2] == '_' && self.chars[start + 1] == 'F'
            && (self.chars[start] == 'W' || self.chars[start] == 'S') {
            let strong = self.chars[start] == 'S';
            let subscript = string_between(&self.chars, start + 3, self.pos);
            return Tok::Fair { strong, subscript };
        }
        match Kw::lookup(word.as_str()) {
            Some(kw) => Tok::Kw(kw),
            None => Tok::Ident(word),
        }
    }

    fn scan_string(&mut self) -> (r: Result<Tok, Error>)
        requires
            old(self).wf(),
            old(self).pos < old(self).chars.len(),
        ensures
            final(self).wf(),
            final(self).chars == old(self).chars,
            final(self).origin == old(self).origin,
            final(self).out == old(self).out,
            final(self).pos >= old(self).pos,
            scanned(old(self).pos, final(self).pos, r),
            scanned_as(r, final(self).pos, string_rest(old(self).chars@, old(self).pos + 1, Seq::empty())),
    {
        let line = self.line;
        let col = self.col;
        self.bump();
        let mut s = String::new();
        loop
            invariant
                self.wf(),
                self.chars == old(self).chars,
                self.origin == old(self).origin,
                self.out == old(self).out,
                self.pos > old(self).pos,
                string_rest(self.chars@, old(self).pos + 1, Seq::empty()) == string_rest(self.chars@, self.pos as int, s@),
            decreases self.chars.len() - self.pos,
        {
            match self.bump() {
                None => return Err(Error::lex(text("unterminated string"), line, col)),
                Some(c) => {
                    if c == '\n' {
                        return Err(Error::lex(text("unterminated string"), line, col));
                    } else if c == '"' {
                        return Ok(Tok::Str(s));
                    } else if c == '\\' {
                        match self.bump() {
                            None => return Err(Error::lex(text("unterminated string"), line, col)),
                            Some(escaped) => {
                                let out = if escaped == 'n' { '\n' } else if escaped == 't' { '\t' } else { escaped };
                                push_char(&mut s, out);
                            },
                        }
                    } else {
                        push_char(&mut s, c);
                    }
                },
            }
        }
    }

    fn scan_equals(&mut self) -> (r: Result<Tok, Error>)
        requires
            old(self).wf(),
            old(self).pos < old(self).chars.len(),
            old(self).chars@[old(self).pos as int] == '=',
        ensures
            final(self).wf(),
            final(self).chars == old(self).chars,
            final(self).origin == old(self).origin,
            final(self).out == old(self).out,
            final(self).pos >= old(self).pos,
            scanned(old(self).pos, final(self).pos, r),
            scanned_as(r, final(self).pos, equals_lexeme(old(self).chars@, old(self).pos as int)),
    {
        let run = self.run_of('=');
        if run >= 4 {
            self.advance(run);
            return Ok(Tok::ModuleEnd);
        }
        if run == 2 {
            self.advance(2);
            return Ok(Tok::DefEq);
        }
        if run == 1 {
            let next = self.at(1);
            if next == Some('>') {
                self.advance(2);
                return Ok(Tok::Op(Op::Implies));
            } else if next == Some('<') {
                self.advance(2);
                return Ok(Tok::Op(Op::Le));
            } else if next == Some('|') {
                self.advance(2);
                return Ok(Tok::Op(Op::User(UserOp::EqBar)));
            } else {
                self.bump();
                return Ok(Tok::Op(Op::Eq));
            }
        }
        Err(self.err(text("`===` is neither a definition nor a module terminator")))
    }

    /// A run of four or more dashes is a separator, so the operators spelled
    /// with dashes are recognised around it rather than before it.
    fn scan_dashes(&mut self) -> (t: Tok)
        requires
            old(self).wf(),
            old(self).pos < old(self).chars.len(),
            old(self).chars@[old(self).pos as int] == '-',
        ensures
            final(self).wf(),
            final(self).chars == old(self).chars,
            final(self).origin == old(self).origin,
            final(self).out == old(self).out,
            final(self).pos > old(self).pos,
            !(t is Eof),
            (t@, final(self).pos as int) == dashes_lexeme(old(self).chars@, old(self).pos as int),
    {
        if self.starts_with("-+->") {
            proof { reveal_strlit("-+->"); }
            self.advance(4);
            return Tok::Op(Op::User(UserOp::PlusArrow));
        }
        let run = self.run_of('-');
        if run >= 4 {
            self.advance(run);
            return Tok::Separator;
        }
        if self.starts_with("->") {
            proof { reveal_strlit("->"); }
            self.advance(2);
            return Tok::Arrow;
        }
        if self.starts_with("-|") {
            proof { reveal_strlit("-|"); }
            self.advance(2);
            return Tok::Op(Op::User(UserOp::DashBar));
        }
        self.bump();
        Tok::Op(Op::Minus)
    }

    fn scan_lt(&mut self) -> (t: Tok)
        requires
            old(self).wf(),
            old(self).pos < old(self).chars.len(),
        ensures
            final(self).wf(),
            final(self).chars == old(self).chars,
            final(self).origin == old(self).origin,
            final(self).out == old(self).out,
            final(self).pos > old(self).pos,
            !(t is Eof),
            (t@, final(self).pos as int) == lt_lexeme(old(self).chars@, old(self).pos as int),
    {
        proof {
            reveal_strlit("<<"); reveal_strlit("<=>"); reveal_strlit("<=");
            reveal_strlit("<-"); reveal_strlit("<>"); reveal_strlit("<:");
        }
        if self.starts_with("<<") { self.advance(2); return Tok::LTup; }
        if self.starts_with("<=>") { self.advance(3); return Tok::Op(Op::Equiv); }
        if self.starts_with("<=") { self.advance(2); return Tok::Op(Op::Le); }
        if self.starts_with("<-") { self.advance(2); return Tok::Gets; }
        if self.starts_with("<>") { self.advance(2); return Tok::Op(Op::Eventually); }
        if self.starts_with("<:") { self.advance(2); return Tok::Op(Op::User(UserOp::LtColon)); }
        self.bump();
        Tok::Op(Op::Lt)
    }

    fn scan_gt(&mut self) -> (t: Tok)
        requires
            old(self).wf(),
            old(self).pos < old(self).chars.len(),
        ensures
            final(self).wf(),
            final(self).chars == old(self).chars,
            final(self).origin == old(self).origin,
            final(self).out == old(self).out,
            final(self).pos > old(self).pos,
            !(t is Eof),
            (t@, final(self).pos as int) == gt_lexeme(old(self).chars@, old(self).pos as int),
    {
        proof { reveal_strlit(">>"); reveal_strlit(">="); }
        if self.starts_with(">>") { self.advance(2); return Tok::RTup; }
        if self.starts_with(">=") { self.advance(2); return Tok::Op(Op::Ge); }
        self.bump();
        Tok::Op(Op::Gt)
    }

    fn scan_slash(&mut self) -> (r: Result<Tok, Error>)
        requires
            old(self).wf(),
            old(self).pos < old(self).chars.len(),
        ensures
            final(self).wf(),
            final(self).chars == old(self).chars,
            final(self).origin == old(self).origin,
            final(self).out == old(self).out,
            final(self).pos >= old(self).pos,
            scanned(old(self).pos, final(self).pos, r),
            scanned_as(r, final(self).pos, slash_lexeme(old(self).chars@, old(self).pos as int)),
    {
        proof { reveal_strlit("/\\"); reveal_strlit("/="); }
        if self.starts_with("/\\") {
            self.advance(2);
            return Ok(Tok::Op(Op::And));
        }
        if self.starts_with("/=") {
            self.advance(2);
            return Ok(Tok::Op(Op::Neq));
        }
        match self.user_symbol() {
            Some(t) => Ok(t),
            None => Err(self.err(text("stray `/`"))),
        }
    }
}

} // verus!

verus! {

impl Lexer {
    fn scan_backslash(&mut self) -> (r: Result<Tok, Error>)
        requires
            old(self).wf(),
            old(self).pos < old(self).chars.len(),
        ensures
            final(self).wf(),
            final(self).chars == old(self).chars,
            final(self).origin == old(self).origin,
            final(self).out == old(self).out,
            final(self).pos >= old(self).pos,
            scanned(old(self).pos, final(self).pos, r),
            scanned_as(r, final(self).pos, backslash_lexeme(old(self).chars@, old(self).pos as int)),
    {
        proof { reveal_strlit("\\/"); }
        if self.starts_with("\\/") {
            self.advance(2);
            return Ok(Tok::Op(Op::Or));
        }
        // `\b1011`, `\o777`, `\h1F`: a number in another base, when a digit of
        // that base follows the letter directly.
        let base: u32 = match self.at(1) {
            Some(l) => if l == 'b' || l == 'B' { 2 } else if l == 'o' || l == 'O' { 8 }
                else if l == 'h' || l == 'H' { 16 } else { 0 },
            None => 0,
        };
        if base > 0 {
            if let Some(first) = self.at(2) {
                if digit_in(first, base).is_some() {
                    return self.scan_based(base);
                }
            }
        }
        let start = self.pos + 1;
        let mut end = start;
        while end < self.chars.len() && alpha(self.chars[end])
            invariant
                start <= end <= self.chars.len(),
                start == self.pos + 1,
                forall|k: int| start <= k < end ==> is_alpha(#[trigger] self.chars@[k]),
            decreases self.chars.len() - end,
        {
            end = end + 1;
        }
        proof { lemma_span_end(self.chars@, start as int, end as int, alpha_class()); }
        if end == start {
            self.bump();
            return Ok(Tok::Op(Op::SetMinus));
        }
        let name = string_between(&self.chars, start, end);
        let n = name.as_str();
        let op = if str_eq(n, "in") { Op::In }
            else if str_eq(n, "notin") { Op::NotIn }
            else if str_eq(n, "subseteq") { Op::Subseteq }
            else if str_eq(n, "supseteq") { Op::Supseteq }
            else if str_eq(n, "cup") || str_eq(n, "union") { Op::Cup }
            else if str_eq(n, "cap") || str_eq(n, "intersect") { Op::Cap }
            else if str_eq(n, "times") || str_eq(n, "X") { Op::Cartesian }
            else if str_eq(n, "div") { Op::Div }
            else if str_eq(n, "o") || str_eq(n, "circ") { Op::Concat }
            else if str_eq(n, "equiv") { Op::Equiv }
            else if str_eq(n, "lnot") || str_eq(n, "neg") { Op::Not }
            else if str_eq(n, "land") { Op::And }
            else if str_eq(n, "lor") { Op::Or }
            else if str_eq(n, "leq") { Op::Le }
            else if str_eq(n, "geq") { Op::Ge }
            else if str_eq(n, "neq") { Op::Neq }
            else if str_eq(n, "A") || str_eq(n, "forall") { Op::Forall }
            else if str_eq(n, "E") || str_eq(n, "exists") { Op::Exists }
            else if str_eq(n, "AA") { Op::TemporalForall }
            else if str_eq(n, "EE") { Op::TemporalExists }
            else {
                match UserOp::by_backslash_name(n) {
                    Some(u) => Op::User(u),
                    None => {
                        let mut msg = text("unknown operator `\\");
                        append(&mut msg, n);
                        append(&mut msg, "`");
                        return Err(self.err(msg));
                    },
                }
            };
        self.advance(end - self.pos);
        Ok(Tok::Op(op))
    }

    /// `\b`, `\o` or `\h` and the digits after it.
    fn scan_based(&mut self, base: u32) -> (r: Result<Tok, Error>)
        requires
            old(self).wf(),
            old(self).pos + 2 < old(self).chars.len(),
            base == 2 || base == 8 || base == 16,
        ensures
            final(self).wf(),
            final(self).chars == old(self).chars,
            final(self).origin == old(self).origin,
            final(self).out == old(self).out,
            final(self).pos >= old(self).pos,
            scanned(old(self).pos, final(self).pos, r),
            ({
                let cs = old(self).chars@;
                let q = span_end(cs, old(self).pos + 2, base_class(base));
                let v = digits_value(cs.subrange(old(self).pos + 2, q), base);
                scanned_as(r, final(self).pos, if v > i64::MAX { None } else { Some((TokV::Num(v), q)) })
            }),
    {
        self.advance(2);
        let start = self.pos;
        let mut value: i64 = 0;
        let mut overflow = false;
        proof { assert(self.chars@.subrange(start as int, start as int) =~= Seq::<char>::empty()); }
        loop
            invariant_except_break
                self.wf(),
                self.chars == old(self).chars,
                self.origin == old(self).origin,
                self.out == old(self).out,
                self.pos >= start,
                start == old(self).pos + 2,
                value >= 0,
                base == 2 || base == 8 || base == 16,
                forall|k: int| start <= k < self.pos ==> digit_value(#[trigger] self.chars@[k], base) is Some,
                digits_value(self.chars@.subrange(start as int, self.pos as int), base) >= 0,
                !overflow ==> value == digits_value(self.chars@.subrange(start as int, self.pos as int), base),
                overflow ==> digits_value(self.chars@.subrange(start as int, self.pos as int), base) > i64::MAX,
            ensures
                self.wf(),
                self.chars == old(self).chars,
                self.origin == old(self).origin,
                self.out == old(self).out,
                self.pos >= start,
                start == old(self).pos + 2,
                span_end(self.chars@, start as int, base_class(base)) == self.pos,
                !overflow ==> value == digits_value(self.chars@.subrange(start as int, self.pos as int), base),
                overflow ==> digits_value(self.chars@.subrange(start as int, self.pos as int), base) > i64::MAX,
            decreases self.chars.len() - self.pos,
        {
            let d = match self.peek() {
                Some(c) => match digit_in(c, base) {
                    Some(d) => d,
                    None => {
                        proof { lemma_span_end(self.chars@, start as int, self.pos as int, base_class(base)); }
                        break;
                    },
                },
                None => {
                    proof { lemma_span_end(self.chars@, start as int, self.pos as int, base_class(base)); }
                    break;
                },
            };
            proof {
                let t = self.chars@.subrange(start as int, self.pos + 1);
                assert(t.drop_last() =~= self.chars@.subrange(start as int, self.pos as int));
                assert(t.last() == self.chars@[self.pos as int]);
            }
            let d = d as i64;
            let b = base as i64;
            let limit = (i64::MAX - d) / b;
            if value > limit {
                overflow = true;
            } else {
                assert(value * b <= i64::MAX - d) by (nonlinear_arith)
                    requires value <= limit, limit == (i64::MAX - d) / (b as int), b > 0, d >= 0, value >= 0, d <= i64::MAX;
                value = value * b + d;
            }
            self.bump();
        }
        if overflow {
            let mut msg = text("integer literal out of range: ");
            let digits = string_between(&self.chars, start, self.pos);
            append(&mut msg, digits.as_str());
            return Err(self.err(msg));
        }
        Ok(Tok::Num(value))
    }
}

} // verus!
