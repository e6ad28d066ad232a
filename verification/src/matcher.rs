//! The surface that a walk needs of a matcher.

use crate::dir_match::DirMatch;
use crate::engine::facts;
use vstd::prelude::*;

verus! {

/// What a filesystem walk asks of a matcher. Implemented by
/// [`Glob`](crate::Glob).
pub trait Matcher {
    /// The matcher was built by one of its constructors.
    spec fn valid(&self) -> bool;

    /// `path` is in the pattern's language.
    spec fn accepts(&self, path: Seq<u8>) -> bool;

    /// The verdict on a directory.
    spec fn verdict(&self, dir: Seq<u8>) -> DirMatch;

    /// These are the literal path prefixes.
    spec fn prefixes(&self, out: Seq<Seq<u8>>) -> bool;

    /// Whole-path match: is `path` in the pattern's language?
    fn is_match(&self, path: &[u8]) -> (r: bool)
        requires
            self.valid(),
        ensures
            r == self.accepts(path@),
    ;

    /// Directory-level verdict for pruning (see [`DirMatch`]).
    fn match_dir(&self, dir_path: &[u8]) -> (r: DirMatch)
        requires
            self.valid(),
        ensures
            r == self.verdict(dir_path@),
    ;

    /// Literal path prefixes a walk can be seeded from. Every matching path
    /// starts with one of them.
    fn static_prefixes(&self) -> (r: Vec<Vec<u8>>)
        requires
            self.valid(),
        ensures
            self.prefixes(facts::bytes_views(r@)),
    ;
}

} // verus!
