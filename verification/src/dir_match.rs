//! The verdict of a matcher on a directory.

use vstd::prelude::*;

verus! {

/// What a matcher says of a directory: whether it matches itself, and whether
/// anything below it may.
#[derive(Debug, Clone, Copy, PartialEq, Eq, Structural)]
pub enum DirMatch {
    /// The directory matches, and nothing below it can.
    Match,
    /// Nothing at or below the directory can match.
    Pruned,
    /// The directory doesn't match, but a descendant might.
    Descend,
    /// The directory matches, and a descendant might too.
    DescendAndMatch,
}

impl DirMatch {
    /// The directory itself matches.
    pub open spec fn exact(self) -> bool {
        self is Match || self is DescendAndMatch
    }

    /// Something below the directory may match.
    pub open spec fn below(self) -> bool {
        self is Descend || self is DescendAndMatch
    }

    /// The verdict made of the two answers.
    pub open spec fn verdict(exact: bool, prefix: bool) -> DirMatch {
        if exact {
            if prefix { DirMatch::DescendAndMatch } else { DirMatch::Match }
        } else {
            if prefix { DirMatch::Descend } else { DirMatch::Pruned }
        }
    }

    #[inline]
    pub fn is_match(self) -> (r: bool)
        ensures
            r == self.exact(),
    {
        matches!(self, DirMatch::Match | DirMatch::DescendAndMatch)
    }

    #[inline]
    pub fn should_descend(self) -> (r: bool)
        ensures
            r == self.below(),
    {
        matches!(self, DirMatch::Descend | DirMatch::DescendAndMatch)
    }

    #[inline]
    pub fn is_pruned(self) -> (r: bool)
        ensures
            r == (!self.exact() && !self.below()),
    {
        matches!(self, DirMatch::Pruned)
    }

    #[inline]
    pub fn from_exact_prefix(exact: bool, prefix: bool) -> (r: Self)
        ensures
            r == DirMatch::verdict(exact, prefix),
            r.exact() == exact,
            r.below() == prefix,
    {
        match (exact, prefix) {
            (true, true) => DirMatch::DescendAndMatch,
            (true, false) => DirMatch::Match,
            (false, true) => DirMatch::Descend,
            (false, false) => DirMatch::Pruned,
        }
    }
}

/// A verdict and its two answers determine each other: taking a verdict apart
/// and putting it together again gives it back, and so does the reverse.
pub proof fn law_verdict_round_trip(d: DirMatch, exact: bool, prefix: bool)
    ensures
        DirMatch::verdict(d.exact(), d.below()) == d,
        DirMatch::verdict(exact, prefix).exact() == exact,
        DirMatch::verdict(exact, prefix).below() == prefix,
{
}

/// A verdict is `Match` where the directory alone matches, `Descend` where only
/// something below it may, `DescendAndMatch` where both hold, and `Pruned` where
/// neither does.
pub proof fn law_verdicts_are_named_for_what_they_say(d: DirMatch)
    ensures
        d == DirMatch::Match <==> d.exact() && !d.below(),
        d == DirMatch::Descend <==> !d.exact() && d.below(),
        d == DirMatch::DescendAndMatch <==> d.exact() && d.below(),
        d == DirMatch::Pruned <==> !d.exact() && !d.below(),
{
}

} // verus!
