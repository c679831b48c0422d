//! Errors from reading TLA+ source.

use vstd::prelude::*;
use crate::text::{append, push_int, text};

verus! {

/// Which stage of reading found the problem.
#[derive(Debug, Clone, Copy, PartialEq, Eq, Structural)]
pub enum Stage {
    Lex,
    Parse,
}

/// A problem in the source, and where it is.
#[derive(Debug, Clone, PartialEq, Eq)]
pub struct Error {
    pub stage: Stage,
    pub message: String,
    pub line: u32,
    pub col: u32,
}

/// `lex error at LINE:COL: MESSAGE`, or `parse error ...`.
pub open spec fn error_text(e: Error) -> Seq<char> {
    (if e.stage == Stage::Lex { "lex"@ } else { "parse"@ }) + " error at "@
        + crate::text::int_digits(e.line as int) + ":"@
        + crate::text::int_digits(e.col as int) + ": "@ + e.message@
}

impl Error {
    pub fn lex(message: String, line: u32, col: u32) -> (e: Error)
        ensures
            e.stage == Stage::Lex,
            e.message == message,
            e.line == line,
            e.col == col,
    {
        Error { stage: Stage::Lex, message, line, col }
    }

    pub fn parse(message: String, line: u32, col: u32) -> (e: Error)
        ensures
            e.stage == Stage::Parse,
            e.message == message,
            e.line == line,
            e.col == col,
    {
        Error { stage: Stage::Parse, message, line, col }
    }

    /// `lex error at LINE:COL: MESSAGE`, or `parse error ...`.
    pub fn to_string(&self) -> (s: String)
        ensures
            s@ == (if self.stage == Stage::Lex { "lex"@ } else { "parse"@ }) + " error at "@
                + crate::text::int_digits(self.line as int) + ":"@
                + crate::text::int_digits(self.col as int) + ": "@ + self.message@,
            s@ == error_text(*self),
    {
        let mut s = match self.stage {
            Stage::Lex => text("lex"),
            Stage::Parse => text("parse"),
        };
        append(&mut s, " error at ");
        push_int(&mut s, self.line as i64);
        append(&mut s, ":");
        push_int(&mut s, self.col as i64);
        append(&mut s, ": ");
        append(&mut s, self.message.as_str());
        s
    }
}

} // verus!
