//! Walks over directory trees.

pub mod error;
pub mod lists;
pub mod options;
pub mod patterns;
pub mod steps;
pub mod traversal;
pub mod tree;

pub use error::WalkError;
pub use options::WalkOptions;
pub use traversal::{Frame, Kind, Listed, Step, Target, Walk};
