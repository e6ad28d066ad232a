//! Glob pattern matching: compile a pattern once, match paths as raw bytes.
//!
//! The dialect is the standard glob family: `*`, `?`, `**`, character classes
//! `[a-z]` and `[!a-z]`, braces `{a,b}`, `\\` escapes, and leading `!`
//! whole-pattern negation. Patterns are text, whose UTF-8 bytes are what
//! matches; paths are arbitrary bytes, so names that are no UTF-8 compare byte
//! for byte.
//!
//! Compilation picks one of three engines: byte comparison for literals,
//! matching segment by segment, or an automaton over the whole path. What a
//! program matches is defined once, in [`engine::lang`], and each engine is
//! proved against that definition.
//!
//! [`laws`] states what holds of every compiled pattern: what a verdict on a
//! directory promises, how the engines agree, where matches can start.
//! [`cuts`] states that a union of patterns matches what one of them matches,
//! [`openings`] how patterns start, [`negation`] what a `!` does, [`star_runs`]
//! that stars in a row are one, [`plain`] what text without special characters
//! matches, and [`case_folding`] that case makes no difference where it is
//! ignored.
//!
//! What a pattern means is told a second time, from the marks it is written
//! with: [`notation`] writes marks down and proves that they are read back, and
//! [`meaning`] says on the bytes of a path what marks match. [`choices`] states
//! that a brace is the choice between its branches, [`lone_braces`] what a brace
//! without a comma is, [`spelling`] what simple texts match, [`descents`] which
//! directories are entered, [`stems`] which prefixes all matches share,
//! [`tiers`] the class of a pattern, and [`refusals`] what does not compile.
//!
//! [`walk`] decides what a walk over a directory tree yields and reads next,
//! and [`walk::tree`] proves that such a walk finds what matches. The reading
//! is left to the caller. [`walk::lists`] says of each pattern of a walk what it
//! does to a path, and [`walk::steps`] what single steps yield. [`wire`] answers
//! requests written as lines of text, and [`requests`] says how.

pub mod ast;
pub mod case_folding;
pub mod choices;
pub mod cuts;
pub mod descents;
pub mod dir_match;
pub mod engine;
pub mod error;
pub mod factor;
pub mod glob;
pub mod laws;
pub mod lone_braces;
pub mod matcher;
pub mod meaning;
pub mod negation;
pub mod notation;
pub mod openings;
pub mod options;
pub mod parser;
pub mod plain;
pub mod refusals;
pub mod requests;
pub mod seg_glob;
pub mod seps;
pub mod spelling;
pub mod star_runs;
pub mod stats;
pub mod stems;
pub mod tiers;
pub mod unions;
pub mod walk;
pub mod wire;

pub use dir_match::DirMatch;
pub use error::GlobError;
pub use glob::{Glob, Tier};
pub use matcher::Matcher;
pub use options::CompileOptions;
pub use seg_glob::SegGlob;
pub use walk::{Walk, WalkError, WalkOptions};
