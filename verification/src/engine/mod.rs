//! The matching engines and the program they run.

pub mod bits;
pub mod facts;
pub mod fragment;
pub mod fxhash;
pub mod lang;
pub mod literal;
pub mod machine;
pub mod nfa;
pub mod ops;
pub mod pikevm;
pub mod segment;
pub mod thompson;

pub use machine::thompson_dfa;
