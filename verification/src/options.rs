//! Options that a pattern is compiled with.

use vstd::prelude::*;

verus! {

/// How a pattern is compiled.
#[derive(Debug, Clone, Copy)]
#[non_exhaustive]
pub struct CompileOptions {
    /// When `false`, wildcards (`*` `?` `[^x]`) cannot consume a leading
    /// `.` (dotfile protection). `Glob` defaults to `true`, walks to `false`.
    pub dot: bool,

    /// ASCII-only case folding, `false` by default; non-ASCII bytes
    /// compare verbatim.
    pub case_insensitive: bool,
}

impl Default for CompileOptions {
    fn default() -> (r: Self)
        ensures
            r.dot,
            !r.case_insensitive,
    {
        CompileOptions { dot: true, case_insensitive: false }
    }
}

impl CompileOptions {
    pub fn dot(self, v: bool) -> (r: Self)
        ensures
            r.dot == v,
            r.case_insensitive == self.case_insensitive,
    {
        CompileOptions { dot: v, case_insensitive: self.case_insensitive }
    }

    pub fn case_insensitive(self, v: bool) -> (r: Self)
        ensures
            r.dot == self.dot,
            r.case_insensitive == v,
    {
        CompileOptions { dot: self.dot, case_insensitive: v }
    }
}

} // verus!
