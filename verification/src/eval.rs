//! Evaluate TLA+ at concrete states.
//!
//! The question answered here is not "what states can this specification
//! reach?" but "does this predicate hold *here*?", where *here* is a state,
//! or a pair of states for an action.

pub mod builtin;
pub mod diagnose;
pub mod error;
pub mod evaluator;
pub mod graph;
pub mod ops;
pub mod spec;
pub mod value;

pub use diagnose::Blocked;
pub use error::Error;
pub use evaluator::{Evaluator, State};
pub use ops::MAX_ELEMENTS;
pub use spec::{Modules, NoModules, Spec};
pub use value::{Infinite, Value};
