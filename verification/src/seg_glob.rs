//! The segment-first front end.

use crate::dir_match::DirMatch;
use crate::engine::facts;
use crate::error::GlobError;
use crate::glob;
use crate::glob::{Glob, SpecGlob, Tier};
use crate::matcher::Matcher;
use crate::options::CompileOptions;
use crate::parser;
use crate::ast::SpecNode;
use vstd::prelude::*;

verus! {

/// A compiled pattern, matched segment by segment wherever that can be done.
/// Its surface mirrors that of [`Glob`].
#[derive(Clone)]
pub struct SegGlob {
    glob: Glob,
}

impl View for SegGlob {
    type V = SpecGlob;

    closed spec fn view(&self) -> SpecGlob {
        self.glob@
    }
}

impl SegGlob {
    pub closed spec fn wf(self) -> bool {
        self.glob.wf()
    }

    /// Compiles a pattern with default options.
    pub fn new(pattern: &str) -> (r: Result<Self, GlobError>)
        ensures
            match r {
                Ok(g) => g.wf() && glob::compiled(
                    pattern@,
                    CompileOptions { dot: true, case_insensitive: false },
                    g@.seps,
                ) == Ok::<SpecGlob, GlobError>(g@),
                Err(e) => parser::parsed(glob::text_bytes(pattern@)) == Err::<
                    (int, SpecNode),
                    GlobError,
                >(e),
            },
    {
        SegGlob::new_with(pattern, CompileOptions::default())
    }

    /// Compiles a pattern with explicit options.
    pub fn new_with(pattern: &str, opts: CompileOptions) -> (r: Result<Self, GlobError>)
        ensures
            match r {
                Ok(g) => g.wf() && glob::compiled(pattern@, opts, g@.seps) == Ok::<
                    SpecGlob,
                    GlobError,
                >(g@),
                Err(e) => parser::parsed(glob::text_bytes(pattern@)) == Err::<
                    (int, SpecNode),
                    GlobError,
                >(e),
            },
    {
        match Glob::new_with(pattern, opts) {
            Ok(glob) => Ok(SegGlob { glob }),
            Err(e) => Err(e),
        }
    }

    /// Compiles `patterns` as the boolean OR of their matches.
    pub fn union(patterns: &[&str]) -> (r: Result<Self, GlobError>)
        ensures
            match r {
                Ok(g) => g.wf() && patterns@.len() > 0 && glob::all_admitted(
                    glob::texts_of(patterns@),
                    patterns@.len() as int,
                ) && g@ == glob::union_of(
                    glob::texts_of(patterns@),
                    CompileOptions { dot: true, case_insensitive: false },
                    g@.seps,
                ),
                Err(e) => (patterns@.len() == 0 && e is EmptyPatternSet) || exists|k: int| #[trigger]
                    glob::refused_at(glob::texts_of(patterns@), k, e),
            },
    {
        SegGlob::union_with(patterns, CompileOptions::default())
    }

    /// [`union`](Self::union) with explicit options.
    pub fn union_with(patterns: &[&str], opts: CompileOptions) -> (r: Result<Self, GlobError>)
        ensures
            match r {
                Ok(g) => g.wf() && patterns@.len() > 0 && glob::all_admitted(
                    glob::texts_of(patterns@),
                    patterns@.len() as int,
                ) && g@ == glob::union_of(
                    glob::texts_of(patterns@),
                    opts,
                    g@.seps,
                ),
                Err(e) => (patterns@.len() == 0 && e is EmptyPatternSet) || exists|k: int| #[trigger]
                    glob::refused_at(glob::texts_of(patterns@), k, e),
            },
    {
        match Glob::union_with(patterns, opts) {
            Ok(glob) => Ok(SegGlob { glob }),
            Err(e) => Err(e),
        }
    }

    /// The tier this pattern was routed to.
    pub fn tier(&self) -> (r: Tier)
        requires
            self.wf(),
        ensures
            r == self@.tier(),
    {
        self.glob.tier()
    }

    /// Diagnostic: which concrete engine compiled this pattern.
    pub fn engine_name(&self) -> (r: &'static str)
        requires
            self.wf(),
        ensures
            r@ == self@.engine_name(),
    {
        self.glob.engine_name()
    }

    /// Whether `path` matches.
    pub fn is_match(&self, path: &[u8]) -> (r: bool)
        requires
            self.wf(),
        ensures
            r == self@.matches(path@),
    {
        self.glob.is_match(path)
    }

    /// The verdict on a directory. See [`DirMatch`].
    pub fn match_dir(&self, dir_path: &[u8]) -> (r: DirMatch)
        requires
            self.wf(),
        ensures
            r == self@.verdict(dir_path@),
    {
        self.glob.match_dir(dir_path)
    }

    /// Static path prefixes, as of [`Glob::static_prefixes`].
    pub fn static_prefixes(&self) -> (r: Vec<Vec<u8>>)
        requires
            self.wf(),
        ensures
            self@.prefixes(facts::bytes_views(r@)),
    {
        self.glob.static_prefixes()
    }
}

impl Matcher for SegGlob {
    open spec fn valid(&self) -> bool {
        self.wf()
    }

    open spec fn accepts(&self, path: Seq<u8>) -> bool {
        self@.matches(path)
    }

    open spec fn verdict(&self, dir: Seq<u8>) -> DirMatch {
        self@.verdict(dir)
    }

    open spec fn prefixes(&self, out: Seq<Seq<u8>>) -> bool {
        self@.prefixes(out)
    }

    fn is_match(&self, path: &[u8]) -> (r: bool) {
        SegGlob::is_match(self, path)
    }

    fn match_dir(&self, dir_path: &[u8]) -> (r: DirMatch) {
        SegGlob::match_dir(self, dir_path)
    }

    fn static_prefixes(&self) -> (r: Vec<Vec<u8>>) {
        SegGlob::static_prefixes(self)
    }
}

} // verus!
