//! The engine that matches a path segment by segment.

pub mod compile;
pub mod elems;
pub mod exec;
pub mod forks;
pub mod starts;
pub mod states;
pub mod wild;
