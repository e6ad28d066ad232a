//! Options that a walk is made with.

use vstd::prelude::*;
use vstd::string::*;

verus! {

/// How a directory tree is walked.
#[derive(Debug, Clone)]
pub struct WalkOptions {
    /// The directory to walk. Default: `.`.
    pub base: String,
    /// Whether wildcards may consume a leading `.` of a segment. Default:
    /// `false`.
    pub dot: bool,
    /// ASCII case-insensitive matching of patterns and ignore patterns.
    /// Default: `false`. Static prefixes are still taken verbatim.
    pub case_insensitive: bool,
    /// Follow symbolic links. When `false`, they are neither yielded nor
    /// descended. Default: `true`.
    pub follow_links: bool,
    /// Entries that match any of these are skipped, and pruned where they are
    /// directories. Default: empty.
    pub ignore: Vec<String>,
}

impl Default for WalkOptions {
    fn default() -> (r: Self)
        ensures
            r.base@ == "."@,
            !r.dot,
            !r.case_insensitive,
            r.follow_links,
            r.ignore@.len() == 0,
    {
        WalkOptions::new(".")
    }
}

impl WalkOptions {
    /// Default options for the tree at `base`.
    pub fn new(base: &str) -> (r: Self)
        ensures
            r.base@ == base@,
            !r.dot,
            !r.case_insensitive,
            r.follow_links,
            r.ignore@.len() == 0,
    {
        WalkOptions {
            base: base.to_owned(),
            dot: false,
            case_insensitive: false,
            follow_links: true,
            ignore: Vec::new(),
        }
    }
}

} // verus!
