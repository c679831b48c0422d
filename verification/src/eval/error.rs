//! Why an evaluation could not give a value.

use vstd::prelude::*;
use crate::text::{append, text};

verus! {

#[derive(Debug, PartialEq, Eq)]
pub enum Error {
    /// A name the specification never declares or defines.
    Undefined(String),
    /// A value used where its type makes no sense — `Len` of an integer, a
    /// non-boolean conjunct, arithmetic on a string.
    Type(String),
    /// `x'` with no successor state supplied: the expression is an action but
    /// was evaluated as a state predicate.
    NoNextState(String),
    /// A construct that cannot be decided by looking at one state or one
    /// step: `[]P`, `<>P`, `WF_v(A)`, `ENABLED A`.
    NotGround(String),
    /// Enumeration of something that cannot be enumerated, or that is larger
    /// than the evaluator will materialize.
    Unbounded(String),
    /// A specification error the language itself forbids: `@` outside
    /// EXCEPT, wrong operator arity, a recursion that does not end.
    Malformed(String),
    Syntax(crate::syntax::Error),
}

/// The error in words: "`name` is not defined" for an undefined name,
/// the message itself otherwise.
pub open spec fn error_text(e: Error) -> Seq<char> {
    match e {
        Error::Undefined(n) => "`"@ + n@ + "` is not defined"@,
        Error::Type(m) => m@,
        Error::NoNextState(m) => m@,
        Error::NotGround(m) => m@,
        Error::Unbounded(m) => m@,
        Error::Malformed(m) => m@,
        Error::Syntax(x) => crate::syntax::error::error_text(x),
    }
}

impl Error {
    /// The error in words: "`name` is not defined" for an undefined name,
    /// the message itself otherwise.
    pub fn to_string(&self) -> (s: String)
        ensures
            self matches Error::Undefined(n) ==> s@ == "`"@ + n@ + "` is not defined"@,
            self matches Error::Type(m) ==> s@ == m@,
            self matches Error::NoNextState(m) ==> s@ == m@,
            self matches Error::NotGround(m) ==> s@ == m@,
            self matches Error::Unbounded(m) ==> s@ == m@,
            self matches Error::Malformed(m) ==> s@ == m@,
            s@ == error_text(*self),
    {
        match self {
            Error::Undefined(name) => {
                let mut s = text("`");
                append(&mut s, name.as_str());
                append(&mut s, "` is not defined");
                s
            },
            Error::Type(m) | Error::NoNextState(m) | Error::NotGround(m) | Error::Unbounded(m)
            | Error::Malformed(m) => m.clone(),
            Error::Syntax(e) => e.to_string(),
        }
    }
}

/// The error for a syntax error met while loading a specification.
pub fn from_syntax(e: crate::syntax::Error) -> (r: Error)
    ensures
        r == Error::Syntax(e),
{
    Error::Syntax(e)
}

} // verus!
