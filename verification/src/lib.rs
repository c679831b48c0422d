//! Read TLA+ specifications, evaluate them at concrete states, and decide
//! whether an implementation's state graph refines one.

pub mod eval;
pub mod oracle;
pub mod syntax;
pub(crate) mod text;
