//! Programs and how patterns are lowered to them.

pub mod distribute;
pub mod folding;
pub mod ir;
pub mod lower;
pub mod prefixes;

pub use ir::{Op, OpProgram, SpecOp};
pub use lower::{lower, lower_owned};
pub use prefixes::{compute_static_prefixes, extract_prefix};
