//! The tokens of TLA+: keywords, operators and punctuation.

use vstd::prelude::*;
use crate::text::str_eq;

verus! {

/// The reserved words of the language.
#[derive(Debug, Clone, Copy, PartialEq, Eq, Structural)]
pub enum Kw {
    Module,
    Extends,
    Constant,
    Variable,
    Let,
    In,
    If,
    Then,
    Else,
    Choose,
    Case,
    Other,
    Assume,
    Theorem,
    Instance,
    With,
    Local,
    Recursive,
    Except,
    True,
    False,
    Domain,
    Subset,
    Union,
    Enabled,
    Unchanged,
    Proof,
    Lambda,
}

/// Which keyword a word spells, if any. Several words spell one keyword:
/// `CONSTANT` and `CONSTANTS`, `THEOREM` and `LEMMA`, and so on.
pub open spec fn keyword_of(w: Seq<char>) -> Option<Kw> {
    if w == "MODULE"@ { Some(Kw::Module) }
    else if w == "EXTENDS"@ { Some(Kw::Extends) }
    else if w == "CONSTANT"@ || w == "CONSTANTS"@ { Some(Kw::Constant) }
    else if w == "VARIABLE"@ || w == "VARIABLES"@ { Some(Kw::Variable) }
    else if w == "LET"@ { Some(Kw::Let) }
    else if w == "IN"@ { Some(Kw::In) }
    else if w == "IF"@ { Some(Kw::If) }
    else if w == "THEN"@ { Some(Kw::Then) }
    else if w == "ELSE"@ { Some(Kw::Else) }
    else if w == "CHOOSE"@ { Some(Kw::Choose) }
    else if w == "CASE"@ { Some(Kw::Case) }
    else if w == "OTHER"@ { Some(Kw::Other) }
    else if w == "ASSUME"@ || w == "ASSUMPTION"@ || w == "AXIOM"@ { Some(Kw::Assume) }
    else if w == "THEOREM"@ || w == "LEMMA"@ || w == "PROPOSITION"@ || w == "COROLLARY"@ { Some(Kw::Theorem) }
    else if w == "INSTANCE"@ { Some(Kw::Instance) }
    else if w == "WITH"@ { Some(Kw::With) }
    else if w == "LOCAL"@ { Some(Kw::Local) }
    else if w == "RECURSIVE"@ { Some(Kw::Recursive) }
    else if w == "EXCEPT"@ { Some(Kw::Except) }
    else if w == "TRUE"@ { Some(Kw::True) }
    else if w == "FALSE"@ { Some(Kw::False) }
    else if w == "DOMAIN"@ { Some(Kw::Domain) }
    else if w == "SUBSET"@ { Some(Kw::Subset) }
    else if w == "UNION"@ { Some(Kw::Union) }
    else if w == "ENABLED"@ { Some(Kw::Enabled) }
    else if w == "UNCHANGED"@ { Some(Kw::Unchanged) }
    else if w == "PROOF"@ { Some(Kw::Proof) }
    else if w == "LAMBDA"@ { Some(Kw::Lambda) }
    else { None }
}

impl Kw {
    /// The keyword a word spells, if it spells one.
    pub fn lookup(word: &str) -> (r: Option<Kw>)
        ensures
            r == keyword_of(word@),
    {
        if str_eq(word, "MODULE") { Some(Kw::Module) }
        else if str_eq(word, "EXTENDS") { Some(Kw::Extends) }
        else if str_eq(word, "CONSTANT") || str_eq(word, "CONSTANTS") { Some(Kw::Constant) }
        else if str_eq(word, "VARIABLE") || str_eq(word, "VARIABLES") { Some(Kw::Variable) }
        else if str_eq(word, "LET") { Some(Kw::Let) }
        else if str_eq(word, "IN") { Some(Kw::In) }
        else if str_eq(word, "IF") { Some(Kw::If) }
        else if str_eq(word, "THEN") { Some(Kw::Then) }
        else if str_eq(word, "ELSE") { Some(Kw::Else) }
        else if str_eq(word, "CHOOSE") { Some(Kw::Choose) }
        else if str_eq(word, "CASE") { Some(Kw::Case) }
        else if str_eq(word, "OTHER") { Some(Kw::Other) }
        else if str_eq(word, "ASSUME") || str_eq(word, "ASSUMPTION") || str_eq(word, "AXIOM") { Some(Kw::Assume) }
        else if str_eq(word, "THEOREM") || str_eq(word, "LEMMA") || str_eq(word, "PROPOSITION") || str_eq(word, "COROLLARY") { Some(Kw::Theorem) }
        else if str_eq(word, "INSTANCE") { Some(Kw::Instance) }
        else if str_eq(word, "WITH") { Some(Kw::With) }
        else if str_eq(word, "LOCAL") { Some(Kw::Local) }
        else if str_eq(word, "RECURSIVE") { Some(Kw::Recursive) }
        else if str_eq(word, "EXCEPT") { Some(Kw::Except) }
        else if str_eq(word, "TRUE") { Some(Kw::True) }
        else if str_eq(word, "FALSE") { Some(Kw::False) }
        else if str_eq(word, "DOMAIN") { Some(Kw::Domain) }
        else if str_eq(word, "SUBSET") { Some(Kw::Subset) }
        else if str_eq(word, "UNION") { Some(Kw::Union) }
        else if str_eq(word, "ENABLED") { Some(Kw::Enabled) }
        else if str_eq(word, "UNCHANGED") { Some(Kw::Unchanged) }
        else if str_eq(word, "PROOF") { Some(Kw::Proof) }
        else if str_eq(word, "LAMBDA") { Some(Kw::Lambda) }
        else { None }
    }

    /// How the keyword is spelled.
    pub open spec fn spec_text(self) -> Seq<char> {
        match self {
            Kw::Module => "MODULE"@,
            Kw::Extends => "EXTENDS"@,
            Kw::Constant => "CONSTANT"@,
            Kw::Variable => "VARIABLE"@,
            Kw::Let => "LET"@,
            Kw::In => "IN"@,
            Kw::If => "IF"@,
            Kw::Then => "THEN"@,
            Kw::Else => "ELSE"@,
            Kw::Choose => "CHOOSE"@,
            Kw::Case => "CASE"@,
            Kw::Other => "OTHER"@,
            Kw::Assume => "ASSUME"@,
            Kw::Theorem => "THEOREM"@,
            Kw::Instance => "INSTANCE"@,
            Kw::With => "WITH"@,
            Kw::Local => "LOCAL"@,
            Kw::Recursive => "RECURSIVE"@,
            Kw::Except => "EXCEPT"@,
            Kw::True => "TRUE"@,
            Kw::False => "FALSE"@,
            Kw::Domain => "DOMAIN"@,
            Kw::Subset => "SUBSET"@,
            Kw::Union => "UNION"@,
            Kw::Enabled => "ENABLED"@,
            Kw::Unchanged => "UNCHANGED"@,
            Kw::Proof => "PROOF"@,
            Kw::Lambda => "LAMBDA"@,
        }
    }

    /// How the keyword is spelled, for a definition or a field that is named
    /// after one.
    pub fn text(self) -> (r: &'static str)
        ensures
            r@ == self.spec_text(),
    {
        match self {
            Kw::Module => "MODULE",
            Kw::Extends => "EXTENDS",
            Kw::Constant => "CONSTANT",
            Kw::Variable => "VARIABLE",
            Kw::Let => "LET",
            Kw::In => "IN",
            Kw::If => "IF",
            Kw::Then => "THEN",
            Kw::Else => "ELSE",
            Kw::Choose => "CHOOSE",
            Kw::Case => "CASE",
            Kw::Other => "OTHER",
            Kw::Assume => "ASSUME",
            Kw::Theorem => "THEOREM",
            Kw::Instance => "INSTANCE",
            Kw::With => "WITH",
            Kw::Local => "LOCAL",
            Kw::Recursive => "RECURSIVE",
            Kw::Except => "EXCEPT",
            Kw::True => "TRUE",
            Kw::False => "FALSE",
            Kw::Domain => "DOMAIN",
            Kw::Subset => "SUBSET",
            Kw::Union => "UNION",
            Kw::Enabled => "ENABLED",
            Kw::Unchanged => "UNCHANGED",
            Kw::Proof => "PROOF",
            Kw::Lambda => "LAMBDA",
        }
    }
}


} // verus!

verus! {

/// The operators TLA+ lets a specification define for itself. They have a
/// spelling and a precedence, and no meaning until a definition gives them one.
#[derive(Debug, Clone, Copy, PartialEq, Eq, Structural)]
pub enum UserOp {
    // spelled with punctuation
    Amp,
    AmpAmp,
    Dollar,
    DollarDollar,
    BangBang,
    HashHash,
    PercentPercent,
    Question,
    StarStar,
    PlusPlus,
    Slash,
    SlashSlash,
    Bar,
    BarBar,
    BarDash,
    BarEq,
    DashBar,
    EqBar,
    ColonEq,
    ColonColonEq,
    LtColon,
    CaretCaret,
    PlusArrow,
    CircPlus,
    CircMinus,
    CircDot,
    CircSlash,
    CircTimes,
    // spelled with a backslash and a name
    Prec,
    Preceq,
    Succ,
    Succeq,
    Sim,
    Simeq,
    Approx,
    Asymp,
    Cong,
    Doteq,
    Gg,
    Ll,
    Propto,
    Sqsubset,
    Sqsupset,
    Sqsubseteq,
    Sqsupseteq,
    SubsetOp,
    SupsetOp,
    Cdot,
    Oplus,
    Ominus,
    Odot,
    Oslash,
    Otimes,
    Bigcirc,
    Bullet,
    Star,
    Sqcap,
    Sqcup,
    Uplus,
    Wr,
    // postfix
    CaretPlus,
    CaretStar,
    CaretHash,
}

/// How many user-definable operators there are; `UserOp::nth` numbers them.
pub const USER_OPERATOR_COUNT: usize = 63;

impl UserOp {
    /// The operator's spelling.
    /// The operator's spelling.
    pub open spec fn spec_symbol(self) -> Seq<char> {
        match self {
            UserOp::Amp => "&"@,
            UserOp::AmpAmp => "&&"@,
            UserOp::Dollar => "$"@,
            UserOp::DollarDollar => "$$"@,
            UserOp::BangBang => "!!"@,
            UserOp::HashHash => "##"@,
            UserOp::PercentPercent => "%%"@,
            UserOp::Question => "??"@,
            UserOp::StarStar => "**"@,
            UserOp::PlusPlus => "++"@,
            UserOp::Slash => "/"@,
            UserOp::SlashSlash => "//"@,
            UserOp::Bar => "|"@,
            UserOp::BarBar => "||"@,
            UserOp::BarDash => "|-"@,
            UserOp::BarEq => "|="@,
            UserOp::DashBar => "-|"@,
            UserOp::EqBar => "=|"@,
            UserOp::ColonEq => ":="@,
            UserOp::ColonColonEq => "::="@,
            UserOp::LtColon => "<:"@,
            UserOp::CaretCaret => "^^"@,
            UserOp::PlusArrow => "-+->"@,
            UserOp::CircPlus => "(+)"@,
            UserOp::CircMinus => "(-)"@,
            UserOp::CircDot => "(.)"@,
            UserOp::CircSlash => "(/)"@,
            UserOp::CircTimes => "(\\X)"@,
            UserOp::Prec => "\\prec"@,
            UserOp::Preceq => "\\preceq"@,
            UserOp::Succ => "\\succ"@,
            UserOp::Succeq => "\\succeq"@,
            UserOp::Sim => "\\sim"@,
            UserOp::Simeq => "\\simeq"@,
            UserOp::Approx => "\\approx"@,
            UserOp::Asymp => "\\asymp"@,
            UserOp::Cong => "\\cong"@,
            UserOp::Doteq => "\\doteq"@,
            UserOp::Gg => "\\gg"@,
            UserOp::Ll => "\\ll"@,
            UserOp::Propto => "\\propto"@,
            UserOp::Sqsubset => "\\sqsubset"@,
            UserOp::Sqsupset => "\\sqsupset"@,
            UserOp::Sqsubseteq => "\\sqsubseteq"@,
            UserOp::Sqsupseteq => "\\sqsupseteq"@,
            UserOp::SubsetOp => "\\subset"@,
            UserOp::SupsetOp => "\\supset"@,
            UserOp::Cdot => "\\cdot"@,
            UserOp::Oplus => "\\oplus"@,
            UserOp::Ominus => "\\ominus"@,
            UserOp::Odot => "\\odot"@,
            UserOp::Oslash => "\\oslash"@,
            UserOp::Otimes => "\\otimes"@,
            UserOp::Bigcirc => "\\bigcirc"@,
            UserOp::Bullet => "\\bullet"@,
            UserOp::Star => "\\star"@,
            UserOp::Sqcap => "\\sqcap"@,
            UserOp::Sqcup => "\\sqcup"@,
            UserOp::Uplus => "\\uplus"@,
            UserOp::Wr => "\\wr"@,
            UserOp::CaretPlus => "^+"@,
            UserOp::CaretStar => "^*"@,
            UserOp::CaretHash => "^#"@,
        }
    }

    pub fn symbol(self) -> (r: &'static str)
        ensures
            r@ == self.spec_symbol(),
    {
        match self {
            UserOp::Amp => "&",
            UserOp::AmpAmp => "&&",
            UserOp::Dollar => "$",
            UserOp::DollarDollar => "$$",
            UserOp::BangBang => "!!",
            UserOp::HashHash => "##",
            UserOp::PercentPercent => "%%",
            UserOp::Question => "??",
            UserOp::StarStar => "**",
            UserOp::PlusPlus => "++",
            UserOp::Slash => "/",
            UserOp::SlashSlash => "//",
            UserOp::Bar => "|",
            UserOp::BarBar => "||",
            UserOp::BarDash => "|-",
            UserOp::BarEq => "|=",
            UserOp::DashBar => "-|",
            UserOp::EqBar => "=|",
            UserOp::ColonEq => ":=",
            UserOp::ColonColonEq => "::=",
            UserOp::LtColon => "<:",
            UserOp::CaretCaret => "^^",
            UserOp::PlusArrow => "-+->",
            UserOp::CircPlus => "(+)",
            UserOp::CircMinus => "(-)",
            UserOp::CircDot => "(.)",
            UserOp::CircSlash => "(/)",
            UserOp::CircTimes => "(\\X)",
            UserOp::Prec => "\\prec",
            UserOp::Preceq => "\\preceq",
            UserOp::Succ => "\\succ",
            UserOp::Succeq => "\\succeq",
            UserOp::Sim => "\\sim",
            UserOp::Simeq => "\\simeq",
            UserOp::Approx => "\\approx",
            UserOp::Asymp => "\\asymp",
            UserOp::Cong => "\\cong",
            UserOp::Doteq => "\\doteq",
            UserOp::Gg => "\\gg",
            UserOp::Ll => "\\ll",
            UserOp::Propto => "\\propto",
            UserOp::Sqsubset => "\\sqsubset",
            UserOp::Sqsupset => "\\sqsupset",
            UserOp::Sqsubseteq => "\\sqsubseteq",
            UserOp::Sqsupseteq => "\\sqsupseteq",
            UserOp::SubsetOp => "\\subset",
            UserOp::SupsetOp => "\\supset",
            UserOp::Cdot => "\\cdot",
            UserOp::Oplus => "\\oplus",
            UserOp::Ominus => "\\ominus",
            UserOp::Odot => "\\odot",
            UserOp::Oslash => "\\oslash",
            UserOp::Otimes => "\\otimes",
            UserOp::Bigcirc => "\\bigcirc",
            UserOp::Bullet => "\\bullet",
            UserOp::Star => "\\star",
            UserOp::Sqcap => "\\sqcap",
            UserOp::Sqcup => "\\sqcup",
            UserOp::Uplus => "\\uplus",
            UserOp::Wr => "\\wr",
            UserOp::CaretPlus => "^+",
            UserOp::CaretStar => "^*",
            UserOp::CaretHash => "^#",
        }
    }

    /// The `i`th operator of the table.
    pub open spec fn nth_of(i: usize) -> Option<UserOp> {
        match i {
            0 => Some(UserOp::Amp), 1 => Some(UserOp::AmpAmp), 2 => Some(UserOp::Dollar),
            3 => Some(UserOp::DollarDollar), 4 => Some(UserOp::BangBang), 5 => Some(UserOp::HashHash),
            6 => Some(UserOp::PercentPercent), 7 => Some(UserOp::Question), 8 => Some(UserOp::StarStar),
            9 => Some(UserOp::PlusPlus), 10 => Some(UserOp::Slash), 11 => Some(UserOp::SlashSlash),
            12 => Some(UserOp::Bar), 13 => Some(UserOp::BarBar), 14 => Some(UserOp::BarDash),
            15 => Some(UserOp::BarEq), 16 => Some(UserOp::DashBar), 17 => Some(UserOp::EqBar),
            18 => Some(UserOp::ColonEq), 19 => Some(UserOp::ColonColonEq), 20 => Some(UserOp::LtColon),
            21 => Some(UserOp::CaretCaret), 22 => Some(UserOp::PlusArrow), 23 => Some(UserOp::CircPlus),
            24 => Some(UserOp::CircMinus), 25 => Some(UserOp::CircDot), 26 => Some(UserOp::CircSlash),
            27 => Some(UserOp::CircTimes), 28 => Some(UserOp::Prec), 29 => Some(UserOp::Preceq),
            30 => Some(UserOp::Succ), 31 => Some(UserOp::Succeq), 32 => Some(UserOp::Sim),
            33 => Some(UserOp::Simeq), 34 => Some(UserOp::Approx), 35 => Some(UserOp::Asymp),
            36 => Some(UserOp::Cong), 37 => Some(UserOp::Doteq), 38 => Some(UserOp::Gg),
            39 => Some(UserOp::Ll), 40 => Some(UserOp::Propto), 41 => Some(UserOp::Sqsubset),
            42 => Some(UserOp::Sqsupset), 43 => Some(UserOp::Sqsubseteq), 44 => Some(UserOp::Sqsupseteq),
            45 => Some(UserOp::SubsetOp), 46 => Some(UserOp::SupsetOp), 47 => Some(UserOp::Cdot),
            48 => Some(UserOp::Oplus), 49 => Some(UserOp::Ominus), 50 => Some(UserOp::Odot),
            51 => Some(UserOp::Oslash), 52 => Some(UserOp::Otimes), 53 => Some(UserOp::Bigcirc),
            54 => Some(UserOp::Bullet), 55 => Some(UserOp::Star), 56 => Some(UserOp::Sqcap),
            57 => Some(UserOp::Sqcup), 58 => Some(UserOp::Uplus), 59 => Some(UserOp::Wr),
            60 => Some(UserOp::CaretPlus), 61 => Some(UserOp::CaretStar), 62 => Some(UserOp::CaretHash),
            _ => None,
        }
    }

    /// The `i`th operator of the table, for a search over all of them.
    pub fn nth(i: usize) -> (r: Option<UserOp>)
        ensures
            r is Some <==> i < USER_OPERATOR_COUNT,
            r == Self::nth_of(i),
    {
        match i {
            0 => Some(UserOp::Amp), 1 => Some(UserOp::AmpAmp), 2 => Some(UserOp::Dollar),
            3 => Some(UserOp::DollarDollar), 4 => Some(UserOp::BangBang), 5 => Some(UserOp::HashHash),
            6 => Some(UserOp::PercentPercent), 7 => Some(UserOp::Question), 8 => Some(UserOp::StarStar),
            9 => Some(UserOp::PlusPlus), 10 => Some(UserOp::Slash), 11 => Some(UserOp::SlashSlash),
            12 => Some(UserOp::Bar), 13 => Some(UserOp::BarBar), 14 => Some(UserOp::BarDash),
            15 => Some(UserOp::BarEq), 16 => Some(UserOp::DashBar), 17 => Some(UserOp::EqBar),
            18 => Some(UserOp::ColonEq), 19 => Some(UserOp::ColonColonEq), 20 => Some(UserOp::LtColon),
            21 => Some(UserOp::CaretCaret), 22 => Some(UserOp::PlusArrow), 23 => Some(UserOp::CircPlus),
            24 => Some(UserOp::CircMinus), 25 => Some(UserOp::CircDot), 26 => Some(UserOp::CircSlash),
            27 => Some(UserOp::CircTimes), 28 => Some(UserOp::Prec), 29 => Some(UserOp::Preceq),
            30 => Some(UserOp::Succ), 31 => Some(UserOp::Succeq), 32 => Some(UserOp::Sim),
            33 => Some(UserOp::Simeq), 34 => Some(UserOp::Approx), 35 => Some(UserOp::Asymp),
            36 => Some(UserOp::Cong), 37 => Some(UserOp::Doteq), 38 => Some(UserOp::Gg),
            39 => Some(UserOp::Ll), 40 => Some(UserOp::Propto), 41 => Some(UserOp::Sqsubset),
            42 => Some(UserOp::Sqsupset), 43 => Some(UserOp::Sqsubseteq), 44 => Some(UserOp::Sqsupseteq),
            45 => Some(UserOp::SubsetOp), 46 => Some(UserOp::SupsetOp), 47 => Some(UserOp::Cdot),
            48 => Some(UserOp::Oplus), 49 => Some(UserOp::Ominus), 50 => Some(UserOp::Odot),
            51 => Some(UserOp::Oslash), 52 => Some(UserOp::Otimes), 53 => Some(UserOp::Bigcirc),
            54 => Some(UserOp::Bullet), 55 => Some(UserOp::Star), 56 => Some(UserOp::Sqcap),
            57 => Some(UserOp::Sqcup), 58 => Some(UserOp::Uplus), 59 => Some(UserOp::Wr),
            60 => Some(UserOp::CaretPlus), 61 => Some(UserOp::CaretStar), 62 => Some(UserOp::CaretHash),
            _ => None,
        }
    }

    /// Binding power as an infix operator; `None` for the postfix ones.
    pub open spec fn spec_infix_prec(self) -> Option<u8> {
        match self {
            UserOp::PlusArrow => Some(2u8),
            UserOp::BarDash | UserOp::BarEq | UserOp::DashBar | UserOp::EqBar | UserOp::ColonEq
            | UserOp::ColonColonEq | UserOp::Prec | UserOp::Preceq | UserOp::Succ | UserOp::Succeq
            | UserOp::Sim | UserOp::Simeq | UserOp::Approx | UserOp::Asymp | UserOp::Cong
            | UserOp::Doteq | UserOp::Gg | UserOp::Ll | UserOp::Propto | UserOp::Sqsubset
            | UserOp::Sqsupset | UserOp::Sqsubseteq | UserOp::Sqsupseteq | UserOp::SubsetOp
            | UserOp::SupsetOp | UserOp::Cdot => Some(5u8),
            UserOp::LtColon => Some(7u8),
            UserOp::Dollar | UserOp::DollarDollar | UserOp::BangBang | UserOp::HashHash
            | UserOp::Question | UserOp::Sqcap | UserOp::Sqcup | UserOp::Uplus | UserOp::Wr => Some(8u8),
            UserOp::PercentPercent | UserOp::PlusPlus | UserOp::Bar | UserOp::BarBar
            | UserOp::CircPlus | UserOp::Oplus | UserOp::CircMinus | UserOp::Ominus => Some(10u8),
            UserOp::Amp | UserOp::AmpAmp | UserOp::StarStar | UserOp::Slash | UserOp::SlashSlash
            | UserOp::CircDot | UserOp::CircSlash | UserOp::CircTimes | UserOp::Odot | UserOp::Oslash
            | UserOp::Otimes | UserOp::Bigcirc | UserOp::Bullet | UserOp::Star => Some(11u8),
            UserOp::CaretCaret => Some(13u8),
            UserOp::CaretPlus | UserOp::CaretStar | UserOp::CaretHash => None,
        }
    }

    pub fn infix_prec(self) -> (r: Option<u8>)
        ensures
            r == self.spec_infix_prec(),
    {
        match self {
            UserOp::PlusArrow => Some(2u8),
            UserOp::BarDash | UserOp::BarEq | UserOp::DashBar | UserOp::EqBar | UserOp::ColonEq
            | UserOp::ColonColonEq | UserOp::Prec | UserOp::Preceq | UserOp::Succ | UserOp::Succeq
            | UserOp::Sim | UserOp::Simeq | UserOp::Approx | UserOp::Asymp | UserOp::Cong
            | UserOp::Doteq | UserOp::Gg | UserOp::Ll | UserOp::Propto | UserOp::Sqsubset
            | UserOp::Sqsupset | UserOp::Sqsubseteq | UserOp::Sqsupseteq | UserOp::SubsetOp
            | UserOp::SupsetOp | UserOp::Cdot => Some(5u8),
            UserOp::LtColon => Some(7u8),
            UserOp::Dollar | UserOp::DollarDollar | UserOp::BangBang | UserOp::HashHash
            | UserOp::Question | UserOp::Sqcap | UserOp::Sqcup | UserOp::Uplus | UserOp::Wr => Some(8u8),
            UserOp::PercentPercent | UserOp::PlusPlus | UserOp::Bar | UserOp::BarBar
            | UserOp::CircPlus | UserOp::Oplus | UserOp::CircMinus | UserOp::Ominus => Some(10u8),
            UserOp::Amp | UserOp::AmpAmp | UserOp::StarStar | UserOp::Slash | UserOp::SlashSlash
            | UserOp::CircDot | UserOp::CircSlash | UserOp::CircTimes | UserOp::Odot | UserOp::Oslash
            | UserOp::Otimes | UserOp::Bigcirc | UserOp::Bullet | UserOp::Star => Some(11u8),
            UserOp::CaretCaret => Some(13u8),
            UserOp::CaretPlus | UserOp::CaretStar | UserOp::CaretHash => None,
        }
    }

    /// `^+`, `^*` and `^#` follow their operand.
    pub open spec fn spec_is_postfix(self) -> bool {
        self == UserOp::CaretPlus || self == UserOp::CaretStar || self == UserOp::CaretHash
    }

    pub fn is_postfix(self) -> (r: bool)
        ensures
            r == self.spec_is_postfix(),
    {
        matches!(self, UserOp::CaretPlus | UserOp::CaretStar | UserOp::CaretHash)
    }

    /// The operator spelled `\name`, among those a specification may define.
    pub fn by_backslash_name(name: &str) -> (r: Option<UserOp>)
        ensures
            r == crate::syntax::lexical::backslash_user(name@, 28),
            r matches Some(u) ==> u.spec_symbol() == "\\"@ + name@,
            r is None ==> forall|i: usize| 28 <= i < 60 && #[trigger] Self::nth_of(i) is Some
                ==> Self::nth_of(i)->Some_0.spec_symbol() != "\\"@ + name@,
    {
        let mut full = crate::text::text("\\");
        crate::text::append(&mut full, name);
        let mut i: usize = 28;
        while i < 60
            invariant
                28 <= i <= 60,
                full@ == "\\"@ + name@,
                crate::syntax::lexical::backslash_user(name@, 28) == crate::syntax::lexical::backslash_user(name@, i as int),
                forall|k: usize| 28 <= k < i && #[trigger] Self::nth_of(k) is Some
                    ==> Self::nth_of(k)->Some_0.spec_symbol() != "\\"@ + name@,
            decreases 60 - i,
        {
            if let Some(op) = UserOp::nth(i) {
                if str_eq(op.symbol(), full.as_str()) {
                    return Some(op);
                }
            }
            i = i + 1;
        }
        None
    }
}

/// Operators with a fixed meaning, and the user-definable ones wrapped in
/// [`Op::User`].
#[derive(Debug, Clone, Copy, PartialEq, Eq, Structural)]
pub enum Op {
    Implies,
    Equiv,
    Or,
    And,
    Eq,
    Neq,
    Lt,
    Gt,
    Le,
    Ge,
    In,
    NotIn,
    Subseteq,
    Supseteq,
    AtAt,
    OneTo,
    Cup,
    Cap,
    SetMinus,
    DotDot,
    Plus,
    Minus,
    Times,
    Div,
    Mod,
    Cartesian,
    Concat,
    Pow,
    LeadsTo,
    Not,
    Always,
    Eventually,
    Forall,
    Exists,
    TemporalForall,
    TemporalExists,
    Domain,
    Subset,
    BigUnion,
    Enabled,
    Unchanged,
    User(UserOp),
}

impl Op {
    /// Binding power as an infix operator; `None` for prefix-only operators.
    pub open spec fn spec_infix_prec(self) -> Option<u8> {
        match self {
            Op::Implies => Some(1u8),
            Op::Equiv | Op::LeadsTo => Some(2u8),
            Op::Or => Some(3u8),
            Op::And => Some(4u8),
            Op::Eq | Op::Neq | Op::Lt | Op::Gt | Op::Le | Op::Ge | Op::In | Op::NotIn
            | Op::Subseteq | Op::Supseteq => Some(5u8),
            Op::AtAt => Some(6u8),
            Op::OneTo => Some(7u8),
            Op::Cup | Op::Cap | Op::SetMinus => Some(8u8),
            Op::DotDot => Some(9u8),
            Op::Plus | Op::Minus => Some(10u8),
            Op::Times | Op::Div | Op::Mod | Op::Cartesian => Some(11u8),
            Op::Concat => Some(12u8),
            Op::Pow => Some(13u8),
            Op::User(u) => u.spec_infix_prec(),
            _ => None,
        }
    }

    /// Binding power as an infix operator; `None` for prefix-only operators.
    ///
    /// `\cup` binds tighter than `=`, and `:>` tighter than `@@`, so
    /// `a \cup {b} = c` and `("k" :> v) @@ rest` need no parentheses.
    pub fn infix_prec(self) -> (r: Option<u8>)
        ensures
            r == self.spec_infix_prec(),
            r matches Some(p) ==> 1 <= p <= 13,
    {
        match self {
            Op::Implies => Some(1u8),
            Op::Equiv | Op::LeadsTo => Some(2u8),
            Op::Or => Some(3u8),
            Op::And => Some(4u8),
            Op::Eq | Op::Neq | Op::Lt | Op::Gt | Op::Le | Op::Ge | Op::In | Op::NotIn
            | Op::Subseteq | Op::Supseteq => Some(5u8),
            Op::AtAt => Some(6u8),
            Op::OneTo => Some(7u8),
            Op::Cup | Op::Cap | Op::SetMinus => Some(8u8),
            Op::DotDot => Some(9u8),
            Op::Plus | Op::Minus => Some(10u8),
            Op::Times | Op::Div | Op::Mod | Op::Cartesian => Some(11u8),
            Op::Concat => Some(12u8),
            Op::Pow => Some(13u8),
            Op::User(u) => u.infix_prec(),
            _ => None,
        }
    }

    /// The usual arithmetic grouping: `*`, `\div` and `%` bind alike, and
    /// tighter than `+` and `-`, which bind alike; `^` binds tighter still,
    /// and `..` looser than all of them. So `a + b % c` is `a + (b % c)`.
    pub proof fn law_arithmetic_precedence(multiplicative: Op, additive: Op)
        requires
            multiplicative == Op::Times || multiplicative == Op::Div || multiplicative == Op::Mod,
            additive == Op::Plus || additive == Op::Minus,
        ensures
            multiplicative.spec_infix_prec() == Op::Times.spec_infix_prec(),
            additive.spec_infix_prec() == Op::Plus.spec_infix_prec(),
            multiplicative.spec_infix_prec()->Some_0 > additive.spec_infix_prec()->Some_0,
            Op::Pow.spec_infix_prec()->Some_0 > multiplicative.spec_infix_prec()->Some_0,
            additive.spec_infix_prec()->Some_0 > Op::DotDot.spec_infix_prec()->Some_0,
            additive.spec_infix_prec()->Some_0 > Op::Eq.spec_infix_prec()->Some_0,
            !multiplicative.spec_is_right_assoc() && !additive.spec_is_right_assoc(),
    {
    }

    pub open spec fn spec_is_right_assoc(self) -> bool {
        self == Op::Implies || self == Op::Pow
    }

    /// `=>` and `^` group to the right; everything else to the left.
    pub fn is_right_assoc(self) -> (r: bool)
        ensures
            r == self.spec_is_right_assoc(),
    {
        matches!(self, Op::Implies | Op::Pow)
    }

    pub open spec fn spec_is_postfix(self) -> bool {
        match self {
            Op::User(u) => u.spec_is_postfix(),
            _ => false,
        }
    }

    /// Does the operator follow its operand?
    pub fn is_postfix(self) -> (r: bool)
        ensures
            r == self.spec_is_postfix(),
    {
        match self {
            Op::User(u) => u.is_postfix(),
            _ => false,
        }
    }

    pub open spec fn spec_is_word(self) -> bool {
        self == Op::Domain || self == Op::Subset || self == Op::BigUnion || self == Op::Enabled
            || self == Op::Unchanged
    }

    /// A prefix operator spelled as a word needs a space before its operand.
    pub fn is_word(self) -> (r: bool)
        ensures
            r == self.spec_is_word(),
    {
        matches!(self, Op::Domain | Op::Subset | Op::BigUnion | Op::Enabled | Op::Unchanged)
    }

    pub open spec fn spec_prefix_prec(self) -> u8 {
        match self {
            Op::Minus => 11u8,
            Op::Domain | Op::Subset | Op::BigUnion => 9u8,
            _ => 5u8,
        }
    }

    /// How tightly a prefix operator holds its operand. Each binds tighter
    /// than `/\`, so `[][A]_v /\ B` conjoins two formulas.
    pub fn prefix_prec(self) -> (r: u8)
        ensures
            r == self.spec_prefix_prec(),
    {
        match self {
            Op::Minus => 11u8,
            Op::Domain | Op::Subset | Op::BigUnion => 9u8,
            _ => 5u8,
        }
    }

    /// The spelling of the operators that are not user-definable symbols.
    pub open spec fn spec_symbol(self) -> Seq<char> {
        match self {
            Op::Implies => "=>"@,
            Op::Equiv => "<=>"@,
            Op::Or => "\\/"@,
            Op::And => "/\\"@,
            Op::Eq => "="@,
            Op::Neq => "#"@,
            Op::Lt => "<"@,
            Op::Gt => ">"@,
            Op::Le => "<="@,
            Op::Ge => ">="@,
            Op::In => "\\in"@,
            Op::NotIn => "\\notin"@,
            Op::Subseteq => "\\subseteq"@,
            Op::Supseteq => "\\supseteq"@,
            Op::AtAt => "@@"@,
            Op::OneTo => ":>"@,
            Op::Cup => "\\cup"@,
            Op::Cap => "\\cap"@,
            Op::SetMinus => "\\"@,
            Op::DotDot => ".."@,
            Op::Plus => "+"@,
            Op::Minus => "-"@,
            Op::Times => "*"@,
            Op::Div => "\\div"@,
            Op::Mod => "%"@,
            Op::Cartesian => "\\X"@,
            Op::Concat => "\\o"@,
            Op::Pow => "^"@,
            Op::LeadsTo => "~>"@,
            Op::Not => "~"@,
            Op::Always => "[]"@,
            Op::Eventually => "<>"@,
            Op::Forall => "\\A"@,
            Op::Exists => "\\E"@,
            Op::TemporalForall => "\\AA"@,
            Op::TemporalExists => "\\EE"@,
            Op::Domain => "DOMAIN"@,
            Op::Subset => "SUBSET"@,
            Op::BigUnion => "UNION"@,
            Op::Enabled => "ENABLED"@,
            Op::Unchanged => "UNCHANGED"@,
            Op::User(u) => u.spec_symbol(),
        }
    }

    /// The operator's spelling, which is also the name a specification
    /// defines it under.
    pub fn symbol(self) -> (r: &'static str)
        ensures
            self == Op::Not ==> r@ == "~"@,
            self == Op::Minus ==> r@ == "-"@,
            self == Op::Unchanged ==> r@ == "UNCHANGED"@,
            r@ == self.spec_symbol(),
    {
        match self {
            Op::Implies => "=>",
            Op::Equiv => "<=>",
            Op::Or => "\\/",
            Op::And => "/\\",
            Op::Eq => "=",
            Op::Neq => "#",
            Op::Lt => "<",
            Op::Gt => ">",
            Op::Le => "<=",
            Op::Ge => ">=",
            Op::In => "\\in",
            Op::NotIn => "\\notin",
            Op::Subseteq => "\\subseteq",
            Op::Supseteq => "\\supseteq",
            Op::AtAt => "@@",
            Op::OneTo => ":>",
            Op::Cup => "\\cup",
            Op::Cap => "\\cap",
            Op::SetMinus => "\\",
            Op::DotDot => "..",
            Op::Plus => "+",
            Op::Minus => "-",
            Op::Times => "*",
            Op::Div => "\\div",
            Op::Mod => "%",
            Op::Cartesian => "\\X",
            Op::Concat => "\\o",
            Op::Pow => "^",
            Op::LeadsTo => "~>",
            Op::Not => "~",
            Op::Always => "[]",
            Op::Eventually => "<>",
            Op::Forall => "\\A",
            Op::Exists => "\\E",
            Op::TemporalForall => "\\AA",
            Op::TemporalExists => "\\EE",
            Op::Domain => "DOMAIN",
            Op::Subset => "SUBSET",
            Op::BigUnion => "UNION",
            Op::Enabled => "ENABLED",
            Op::Unchanged => "UNCHANGED",
            Op::User(u) => u.symbol(),
        }
    }
}

/// One lexical unit of the source.
#[derive(Debug, Clone, PartialEq, Eq)]
pub enum Tok {
    Ident(String),
    Num(i64),
    /// A decimal literal, kept as written: TLA+ decimals are exact.
    Decimal(String),
    Str(String),
    Kw(Kw),
    Op(Op),
    /// `WF_vars` / `SF_vars`, which lex as one word but mean an operator
    /// applied to a subscript.
    Fair {
        strong: bool,
        subscript: String,
    },
    ModuleEnd,
    Separator,
    DefEq,
    LParen,
    RParen,
    LBrack,
    RBrack,
    LBrace,
    RBrace,
    LTup,
    RTup,
    Comma,
    Colon,
    /// `::`, which follows a label.
    ColonColon,
    Dot,
    Bang,
    /// The `@` of an `EXCEPT` update, standing for the value being replaced.
    At,
    Underscore,
    Prime,
    MapsTo,
    Arrow,
    Gets,
    Eof,
}

/// A token's content: its text as characters.
pub enum TokV {
    Ident(Seq<char>),
    Num(int),
    Decimal(Seq<char>),
    Str(Seq<char>),
    Kw(Kw),
    Op(Op),
    Fair { strong: bool, subscript: Seq<char> },
    ModuleEnd,
    Separator,
    DefEq,
    LParen,
    RParen,
    LBrack,
    RBrack,
    LBrace,
    RBrace,
    LTup,
    RTup,
    Comma,
    Colon,
    ColonColon,
    Dot,
    Bang,
    At,
    Underscore,
    Prime,
    MapsTo,
    Arrow,
    Gets,
    Eof,
}

impl View for Tok {
    type V = TokV;

    open spec fn view(&self) -> TokV {
        match *self {
            Tok::Ident(s) => TokV::Ident(s@),
            Tok::Num(n) => TokV::Num(n as int),
            Tok::Decimal(s) => TokV::Decimal(s@),
            Tok::Str(s) => TokV::Str(s@),
            Tok::Kw(k) => TokV::Kw(k),
            Tok::Op(o) => TokV::Op(o),
            Tok::Fair { strong, subscript } => TokV::Fair { strong, subscript: subscript@ },
            Tok::ModuleEnd => TokV::ModuleEnd,
            Tok::Separator => TokV::Separator,
            Tok::DefEq => TokV::DefEq,
            Tok::LParen => TokV::LParen,
            Tok::RParen => TokV::RParen,
            Tok::LBrack => TokV::LBrack,
            Tok::RBrack => TokV::RBrack,
            Tok::LBrace => TokV::LBrace,
            Tok::RBrace => TokV::RBrace,
            Tok::LTup => TokV::LTup,
            Tok::RTup => TokV::RTup,
            Tok::Comma => TokV::Comma,
            Tok::Colon => TokV::Colon,
            Tok::ColonColon => TokV::ColonColon,
            Tok::Dot => TokV::Dot,
            Tok::Bang => TokV::Bang,
            Tok::At => TokV::At,
            Tok::Underscore => TokV::Underscore,
            Tok::Prime => TokV::Prime,
            Tok::MapsTo => TokV::MapsTo,
            Tok::Arrow => TokV::Arrow,
            Tok::Gets => TokV::Gets,
            Tok::Eof => TokV::Eof,
        }
    }
}

impl Tok {
    /// The same token, as a value of its own.
    pub fn copied(&self) -> (r: Tok)
        ensures
            r == *self,
    {
        match self {
            Tok::Ident(s) => Tok::Ident(s.clone()),
            Tok::Num(n) => Tok::Num(*n),
            Tok::Decimal(s) => Tok::Decimal(s.clone()),
            Tok::Str(s) => Tok::Str(s.clone()),
            Tok::Kw(k) => Tok::Kw(*k),
            Tok::Op(o) => Tok::Op(*o),
            Tok::Fair { strong, subscript } => Tok::Fair { strong: *strong, subscript: subscript.clone() },
            Tok::ModuleEnd => Tok::ModuleEnd,
            Tok::Separator => Tok::Separator,
            Tok::DefEq => Tok::DefEq,
            Tok::LParen => Tok::LParen,
            Tok::RParen => Tok::RParen,
            Tok::LBrack => Tok::LBrack,
            Tok::RBrack => Tok::RBrack,
            Tok::LBrace => Tok::LBrace,
            Tok::RBrace => Tok::RBrace,
            Tok::LTup => Tok::LTup,
            Tok::RTup => Tok::RTup,
            Tok::Comma => Tok::Comma,
            Tok::Colon => Tok::Colon,
            Tok::ColonColon => Tok::ColonColon,
            Tok::Dot => Tok::Dot,
            Tok::Bang => Tok::Bang,
            Tok::At => Tok::At,
            Tok::Underscore => Tok::Underscore,
            Tok::Prime => Tok::Prime,
            Tok::MapsTo => Tok::MapsTo,
            Tok::Arrow => Tok::Arrow,
            Tok::Gets => Tok::Gets,
            Tok::Eof => Tok::Eof,
        }
    }
}

/// A token and where it starts, counting lines and columns from one.
#[derive(Debug, Clone, PartialEq, Eq)]
pub struct Token {
    pub tok: Tok,
    pub line: u32,
    pub col: u32,
}

} // verus!
