//! Decide whether an implementation's reachable state graph refines a TLA+
//! specification.
//!
//! Safety refinement decomposes into two obligations, and a third closes the
//! hole they leave:
//!
//! - `init`: the graph's root is a legal initial state of the specification;
//! - `refines`: every edge is a step the specification permits;
//! - `coverage`: the outcomes the task requires are actually reachable, since
//!   an implementation that does nothing refines everything.

pub mod check;
pub mod schema;

pub use check::{check, classify, ConstantSpec, EdgeReport, Job, Report, Stats, Status};
pub use schema::{decode, decode_state, DecodeError, Json, Schema};
