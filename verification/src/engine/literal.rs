//! The engine for patterns without metacharacters.

use crate::ast;
use crate::dir_match::DirMatch;
use crate::engine::facts;
use crate::engine::ops::prefixes;
use crate::seps::Seps;
use vstd::prelude::*;

verus! {

/// A literal path. A `/` in it matches any separator.
#[derive(Debug, Clone)]
pub struct LiteralMatcher {
    pub literal: Vec<u8>,
    pub case_insensitive: bool,
    pub seps: Seps,
}

/// The byte `p` of a path stands for the byte `l` of a literal.
pub open spec fn literal_byte(seps: Seps, ci: bool, l: u8, p: u8) -> bool {
    (l == 0x2f && seps.has(p)) || ast::same_byte(ci, l, p)
}

impl LiteralMatcher {
    /// The first `n` bytes of the literal and of `path` agree.
    pub open spec fn agrees(self, path: Seq<u8>, n: int) -> bool {
        n <= self.literal@.len() && n <= path.len() && forall|k: int|
            0 <= k < n ==> literal_byte(
                self.seps,
                self.case_insensitive,
                #[trigger] self.literal@[k],
                path[k],
            )
    }

    /// `path` is the literal.
    pub open spec fn matches(self, path: Seq<u8>) -> bool {
        path.len() == self.literal@.len() && self.agrees(path, path.len() as int)
    }

    /// The literal lies below `dir`.
    pub open spec fn below(self, dir: Seq<u8>) -> bool {
        dir.len() == 0 || (self.agrees(dir, dir.len() as int) && dir.len() < self.literal@.len()
            && self.literal@[dir.len() as int] == 0x2f)
    }

    /// The literal without trailing slashes.
    pub fn static_prefixes(&self) -> (r: Vec<Vec<u8>>)
        ensures
            facts::bytes_views(r@) == seq![prefixes::strip_slashes(self.literal@)],
    {
        let mut bytes: Vec<u8> = facts::clone_bytes(&self.literal);
        while bytes.len() > 0 && bytes[bytes.len() - 1] == 0x2f
            invariant
                prefixes::strip_slashes(bytes@) == prefixes::strip_slashes(self.literal@),
            decreases bytes@.len(),
        {
            let ghost b0 = bytes@;
            bytes.pop();
            assert(bytes@ =~= b0.drop_last());
        }
        let mut out: Vec<Vec<u8>> = Vec::new();
        out.push(bytes);
        assert(facts::bytes_views(out@) =~= seq![prefixes::strip_slashes(self.literal@)]);
        out
    }

    /// A matcher for the separators of this platform.
    pub fn new(literal: Vec<u8>, case_insensitive: bool) -> (r: Self)
        ensures
            r.literal@ == literal@,
            r.case_insensitive == case_insensitive,
    {
        LiteralMatcher { literal, case_insensitive, seps: Seps::platform() }
    }

    pub fn new_with_seps(literal: Vec<u8>, case_insensitive: bool, seps: Seps) -> (r: Self)
        ensures
            r.literal@ == literal@,
            r.case_insensitive == case_insensitive,
            r.seps == seps,
    {
        LiteralMatcher { literal, case_insensitive, seps }
    }

    pub fn is_match(&self, path: &[u8]) -> (r: bool)
        ensures
            r == self.matches(path@),
    {
        self.path_eq(path)
    }

    /// The literal itself matches with nothing below it; a directory above it
    /// is descended into.
    pub fn match_dir(&self, dir_path: &[u8]) -> (r: DirMatch)
        ensures
            r == (if self.matches(dir_path@) {
                DirMatch::Match
            } else if self.below(dir_path@) {
                DirMatch::Descend
            } else {
                DirMatch::Pruned
            }),
    {
        if self.path_eq(dir_path) {
            return DirMatch::Match;
        }
        if self.literal_under(dir_path) {
            return DirMatch::Descend;
        }
        DirMatch::Pruned
    }

    fn path_eq(&self, path: &[u8]) -> (r: bool)
        ensures
            r == self.matches(path@),
    {
        let n: usize = self.match_prefix(path);
        n == self.literal.len() && n == path.len()
    }

    fn literal_under(&self, dir_path: &[u8]) -> (r: bool)
        ensures
            r == self.below(dir_path@),
    {
        if dir_path.len() == 0 {
            return true;
        }
        let n: usize = self.match_prefix(dir_path);
        n == dir_path.len() && n < self.literal.len() && self.literal[n] == 0x2f
    }

    /// How many bytes of the literal and of `other` agree.
    fn match_prefix(&self, other: &[u8]) -> (n: usize)
        ensures
            self.agrees(other@, n as int),
            n < self.literal@.len() && n < other@.len() ==> !literal_byte(
                self.seps,
                self.case_insensitive,
                self.literal@[n as int],
                other@[n as int],
            ),
    {
        let mut n: usize = 0;
        while n < self.literal.len() && n < other.len()
            invariant
                self.agrees(other@, n as int),
            decreases self.literal@.len() - n,
        {
            let lb: u8 = self.literal[n];
            let ob: u8 = other[n];
            if (lb == 0x2f && self.seps.is_sep(ob)) || ast::eq_byte(
                self.case_insensitive,
                lb,
                ob,
            ) {
                n = n + 1;
            } else {
                return n;
            }
        }
        n
    }
}

/// A literal that is matched below a directory makes that directory one to
/// descend into, and a directory that is not descended into has no match
/// below it.
pub proof fn law_literal_below(m: LiteralMatcher, dir: Seq<u8>, t: Seq<u8>)
    requires
        dir.len() > 0,
        m.matches((dir + seq![0x2fu8]) + t),
    ensures
        m.below(dir),
        !m.matches(dir),
{
    let path = (dir + seq![0x2fu8]) + t;
    let n = dir.len() as int;
    assert(path[n] == 0x2f);
    assert(literal_byte(m.seps, m.case_insensitive, m.literal@[n], path[n]));
    assert forall|k: int| 0 <= k < n implies literal_byte(
        m.seps,
        m.case_insensitive,
        #[trigger] m.literal@[k],
        dir[k],
    ) by {
        assert(path[k] == dir[k]);
    }
}

} // verus!
