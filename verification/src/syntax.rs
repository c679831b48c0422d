//! Lexer, parser, syntax tree and printer for TLA+ modules and expressions.

pub mod ast;
pub mod error;
pub mod lexer;
pub mod lexical;
pub mod parser;
pub mod print;
pub mod token;

pub use ast::{Bound, Decl, Def, ExceptPath, Expr, LetInstance, Module, Param, QuantKind, Unit};
pub use error::{Error, Stage};
pub use lexer::lex;
pub use parser::{parse_expression, parse_expression_bounded, parse_module, parse_module_bounded, DEFAULT_NESTING_LIMIT};
