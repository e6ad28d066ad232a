//! The decisions of a walk.
//!
//! A walk alternates reading directories and deciding what to yield and where
//! to go on. The decisions stand here: whoever walks reads a directory, hands
//! its entries over, and takes entries to yield and directories to read back.
//! The walk is depth first; what a directory yields comes before what its
//! subdirectories yield, and both in the order in which it was read.

use crate::engine::facts;
use crate::engine::ops::distribute::reversed;
use crate::engine::segment::elems::seg_end;
use crate::glob::{self, Glob, SpecGlob};
use crate::options::CompileOptions;
use crate::seps::Seps;
use crate::walk::error::WalkError;
use crate::walk::options::WalkOptions;
use crate::walk::patterns;
use crate::walk::patterns::{compile_union, split_patterns};
use vstd::prelude::*;

verus! {

/// What an entry of a directory is.
#[derive(Debug, Clone, Copy, PartialEq, Eq, Structural)]
pub enum Kind {
    File,
    Dir,
    /// A symbolic link, and whether it leads to a directory.
    Link { to_dir: bool },
}

/// What stands at a prefix.
#[derive(Debug, Clone, Copy, PartialEq, Eq, Structural)]
pub enum Target {
    /// Nothing, or nothing that can be read.
    Missing,
    Dir,
    Other,
}

/// A directory that is still to be read.
pub struct Frame<P> {
    /// Where the directory is read.
    pub place: P,
    /// Its path below the base, with `/` between the segments.
    pub relative: Vec<u8>,
    /// How many levels it lies below the base.
    pub depth: usize,
    /// The targets of the links on the way to it.
    pub ancestors: Vec<Vec<u8>>,
}

/// One entry of a directory that was read.
pub enum Listed<P, I> {
    /// It could not be read; the item says why.
    Failed(I),
    Entry {
        name: Vec<u8>,
        kind: Kind,
        /// What a link stands for, where that can be found out.
        target: Option<Vec<u8>>,
        place: P,
        /// What is yielded for the entry.
        item: I,
    },
}

/// What a walk does next.
pub enum Step<P, I> {
    /// Yield the item.
    Yield(I),
    /// Read the directory, and hand over its entries.
    Read(Frame<P>),
    /// Nothing is left.
    Done,
}

/// The mathematical value of a [`Frame`].
pub struct SpecFrame<P> {
    pub place: P,
    pub relative: Seq<u8>,
    pub depth: int,
    pub ancestors: Seq<Seq<u8>>,
}

/// The mathematical value of a [`Listed`].
pub enum SpecListed<P, I> {
    Failed(I),
    Entry { name: Seq<u8>, kind: Kind, target: Option<Seq<u8>>, place: P, item: I },
}

impl<P> Frame<P> {
    pub open spec fn value(self) -> SpecFrame<P> {
        SpecFrame {
            place: self.place,
            relative: self.relative@,
            depth: self.depth as int,
            ancestors: facts::bytes_views(self.ancestors@),
        }
    }
}

impl<P, I> Listed<P, I> {
    pub open spec fn value(self) -> SpecListed<P, I> {
        match self {
            Listed::Failed(item) => SpecListed::Failed(item),
            Listed::Entry { name, kind, target, place, item } => SpecListed::Entry {
                name: name@,
                kind,
                target: target_of(target),
                place,
                item,
            },
        }
    }
}

pub open spec fn target_of(target: Option<Vec<u8>>) -> Option<Seq<u8>> {
    match target {
        None => None,
        Some(t) => Some(t@),
    }
}

pub open spec fn frames_of<P>(frames: Seq<Frame<P>>) -> Seq<SpecFrame<P>> {
    Seq::new(frames.len(), |i: int| frames[i].value())
}

pub open spec fn listing_of<P, I>(listing: Seq<Listed<P, I>>) -> Seq<SpecListed<P, I>> {
    Seq::new(listing.len(), |i: int| listing[i].value())
}

/// What decides a walk.
pub struct Rules {
    pub matcher: SpecGlob,
    pub ignore: Option<SpecGlob>,
    pub follow_links: bool,
}

/// The path of an entry below the base.
pub open spec fn child(dir: Seq<u8>, name: Seq<u8>) -> Seq<u8> {
    if dir.len() == 0 {
        name
    } else {
        dir.push(0x2f) + name
    }
}

/// The entry is, or leads to, a directory.
pub open spec fn leads_down(kind: Kind) -> bool {
    match kind {
        Kind::File => false,
        Kind::Dir => true,
        Kind::Link { to_dir } => to_dir,
    }
}

impl Rules {
    pub open spec fn ignores(self, path: Seq<u8>) -> bool {
        self.ignore is Some && self.ignore->0.matches(path)
    }

    /// The entry is neither yielded nor descended.
    pub open spec fn drops(self, path: Seq<u8>, kind: Kind) -> bool {
        (kind is Link && !self.follow_links) || self.ignores(path)
    }

    /// The entry is yielded.
    pub open spec fn emits(self, path: Seq<u8>, kind: Kind) -> bool {
        !self.drops(path, kind) && if leads_down(kind) {
            self.matcher.verdict(path).exact()
        } else {
            self.matcher.matches(path)
        }
    }

    /// The walk goes on below the entry, unless a link goes round in a circle.
    pub open spec fn descends(self, path: Seq<u8>, kind: Kind) -> bool {
        !self.drops(path, kind) && leads_down(kind) && self.matcher.verdict(path).below()
    }
}

/// The targets of the links on the way to an entry that is descended. There is
/// none where a link cannot be resolved, or leads to a directory that the walk
/// is already in by way of a link.
pub open spec fn chain(
    ancestors: Seq<Seq<u8>>,
    kind: Kind,
    target: Option<Seq<u8>>,
) -> Option<Seq<Seq<u8>>> {
    if kind is Link {
        match target {
            None => None,
            Some(t) => if ancestors.contains(t) {
                None
            } else {
                Some(ancestors.push(t))
            },
        }
    } else {
        Some(ancestors)
    }
}

/// What one entry of a directory yields.
pub open spec fn entry_items<P, I>(rules: Rules, dir: SpecFrame<P>, entry: SpecListed<P, I>) -> Seq<
    I,
> {
    match entry {
        SpecListed::Failed(item) => seq![item],
        SpecListed::Entry { name, kind, item, .. } => if rules.emits(
            child(dir.relative, name),
            kind,
        ) {
            seq![item]
        } else {
            seq![]
        },
    }
}

/// The directory that one entry of a directory adds.
pub open spec fn entry_frames<P, I>(
    rules: Rules,
    dir: SpecFrame<P>,
    entry: SpecListed<P, I>,
) -> Seq<SpecFrame<P>> {
    match entry {
        SpecListed::Failed(_) => seq![],
        SpecListed::Entry { name, kind, target, place, .. } => {
            let path = child(dir.relative, name);
            match chain(dir.ancestors, kind, target) {
                Some(ancestors) => if rules.descends(path, kind) {
                    seq![SpecFrame { place, relative: path, depth: dir.depth + 1, ancestors }]
                } else {
                    seq![]
                },
                None => seq![],
            }
        },
    }
}

pub open spec fn all_items<P, I>(
    rules: Rules,
    dir: SpecFrame<P>,
    listing: Seq<SpecListed<P, I>>,
) -> Seq<I>
    decreases listing.len(),
{
    if listing.len() == 0 {
        seq![]
    } else {
        all_items(rules, dir, listing.drop_last()) + entry_items(rules, dir, listing.last())
    }
}

pub open spec fn all_frames<P, I>(
    rules: Rules,
    dir: SpecFrame<P>,
    listing: Seq<SpecListed<P, I>>,
) -> Seq<SpecFrame<P>>
    decreases listing.len(),
{
    if listing.len() == 0 {
        seq![]
    } else {
        all_frames(rules, dir, listing.drop_last()) + entry_frames(rules, dir, listing.last())
    }
}

/// How many levels a prefix lies below the base.
pub open spec fn prefix_levels(prefix: Seq<u8>) -> int {
    1 + slashes(prefix)
}

pub open spec fn slashes(b: Seq<u8>) -> int
    decreases b.len(),
{
    if b.len() == 0 {
        0
    } else {
        slashes(b.drop_last()) + if b.last() == 0x2f {
            1int
        } else {
            0int
        }
    }
}

/// How many levels a segment leads down: `..` leads up, `.` and an empty
/// segment nowhere.
pub open spec fn level_of(segment: Seq<u8>) -> int {
    if segment == seq![0x2eu8, 0x2eu8] {
        -1
    } else if segment.len() == 0 || segment == seq![0x2eu8] {
        0
    } else {
        1
    }
}

/// No segment from `i` on leads above the base, which lies `depth` levels
/// above the segment at `i`.
pub open spec fn stays_from(seps: Seps, path: Seq<u8>, i: int, depth: int) -> bool
    decreases path.len() - i,
{
    let end = seg_end(seps, path, i);
    let next = depth + level_of(path.subrange(i, end));
    next >= 0 && (i <= end < path.len() ==> stays_from(seps, path, end + 1, next))
}

/// The path does not climb above the base, neither where only `/` separates
/// segments nor where `\` does too.
pub open spec fn stays(path: Seq<u8>) -> bool {
    forall|seps: Seps| #[trigger] stays_from(seps, path, 0, 0)
}

/// The first `n` bytes of `path` are the path, or that of a directory on the
/// way to it.
pub open spec fn on_the_way(path: Seq<u8>, n: int) -> bool {
    0 < n <= path.len() && (n == path.len() || path[n] == 0x2f)
}

/// A walk may start at the prefix: it does not lie above the base, and neither
/// it nor a directory on the way to it is ignored.
pub open spec fn opens(rules: Rules, prefix: Seq<u8>) -> bool {
    stays(prefix) && forall|n: int| #[trigger]
        on_the_way(prefix, n) ==> !rules.ignores(prefix.take(n))
}

/// What starting at a prefix yields. Nothing is yielded for the base itself.
pub open spec fn seed_items<I>(rules: Rules, prefix: Seq<u8>, target: Target, item: I) -> Seq<I> {
    let hit = match target {
        Target::Missing => false,
        Target::Dir => rules.matcher.verdict(prefix).exact(),
        Target::Other => rules.matcher.matches(prefix),
    };
    if prefix.len() > 0 && hit && opens(rules, prefix) {
        seq![item]
    } else {
        seq![]
    }
}

/// The directory that starting at a prefix adds.
pub open spec fn seed_frames<P>(rules: Rules, prefix: Seq<u8>, target: Target, place: P) -> Seq<
    SpecFrame<P>,
> {
    if target is Dir && (prefix.len() == 0 || rules.matcher.verdict(prefix).below()) && opens(
        rules,
        prefix,
    ) {
        seq![
            SpecFrame {
                place,
                relative: prefix,
                depth: if prefix.len() == 0 {
                    0
                } else {
                    prefix_levels(prefix)
                },
                ancestors: seq![],
            },
        ]
    } else {
        seq![]
    }
}

/// The state of a walk. `P` names places to the one who walks, and `I` is what
/// is yielded.
pub struct Walk<P, I> {
    matcher: Option<Glob>,
    ignore: Option<Glob>,
    base: String,
    follow_links: bool,
    /// Directories that are still to be read; the next one is the last.
    stack: Vec<Frame<P>>,
    /// What is still to be yielded; the next one is the last.
    ready: Vec<I>,
}

fn join_path(dir: &Vec<u8>, name: &Vec<u8>) -> (r: Vec<u8>)
    ensures
        r@ == child(dir@, name@),
{
    let mut out: Vec<u8> = facts::clone_bytes(dir);
    if out.len() > 0 {
        out.push(0x2f);
    }
    for i in 0..name.len()
        invariant
            out@ == (if dir@.len() == 0 {
                name@.take(i as int)
            } else {
                dir@.push(0x2f) + name@.take(i as int)
            }),
    {
        out.push(name[i]);
        assert(name@.take(i + 1) =~= name@.take(i as int).push(name@[i as int]));
        assert(out@ =~= (if dir@.len() == 0 {
            name@.take(i + 1)
        } else {
            dir@.push(0x2f) + name@.take(i + 1)
        }));
    }
    assert(name@.take(name@.len() as int) =~= name@);
    out
}

/// How many levels a prefix lies below the base: one for each segment.
pub fn prefix_depth(prefix: &Vec<u8>) -> (r: usize)
    requires
        prefix@.len() < usize::MAX,
    ensures
        r == prefix_levels(prefix@),
{
    let mut n: usize = 1;
    for i in 0..prefix.len()
        invariant
            prefix@.len() < usize::MAX,
            n == prefix_levels(prefix@.take(i as int)),
            n <= i + 1,
    {
        proof {
            assert(prefix@.take(i + 1).drop_last() =~= prefix@.take(i as int));
        }
        if prefix[i] == 0x2f {
            n = n + 1;
        }
    }
    assert(prefix@.take(prefix@.len() as int) =~= prefix@);
    n
}

/// Where the segment that starts at `i` ends.
fn segment_end(seps: Seps, path: &Vec<u8>, i: usize) -> (r: usize)
    requires
        i <= path@.len(),
    ensures
        r == seg_end(seps, path@, i as int),
        i <= r <= path@.len(),
{
    let mut end: usize = i;
    while end < path.len() && !seps.is_sep(path[end])
        invariant
            i <= end <= path@.len(),
            seg_end(seps, path@, end as int) == seg_end(seps, path@, i as int),
        decreases path@.len() - end,
    {
        end = end + 1;
    }
    end
}

/// Whether the path does not climb above the base, with these separators.
fn within_by(seps: Seps, path: &Vec<u8>) -> (r: bool)
    ensures
        r == stays_from(seps, path@, 0, 0),
{
    let len: usize = path.len();
    let mut i: usize = 0;
    let mut depth: usize = 0;
    loop
        invariant
            len == path@.len(),
            depth <= i <= len,
            stays_from(seps, path@, 0, 0) == stays_from(seps, path@, i as int, depth as int),
        decreases len - i,
    {
        let end: usize = segment_end(seps, path, i);
        let ghost segment = path@.subrange(i as int, end as int);
        let dots: bool = path_dots(path, i, end);
        if dots && end - i == 2 {
            assert(segment =~= seq![0x2eu8, 0x2eu8]);
            if depth == 0 {
                return false;
            }
            depth = depth - 1;
        } else if end == i || (dots && end - i == 1) {
            assert(segment =~= seq![] || segment =~= seq![0x2eu8]);
        } else {
            assert(level_of(segment) == 1) by {
                if segment == seq![0x2eu8, 0x2eu8] || segment == seq![0x2eu8] {
                    assert forall|k: int| i <= k < end implies path@[k] == 0x2e by {
                        assert(segment[k - i] == path@[k]);
                    }
                }
            }
            depth = depth + 1;
        }
        if end == len {
            return true;
        }
        i = end + 1;
    }
}

/// Whether the bytes from `i` up to `end` are all dots.
fn path_dots(path: &Vec<u8>, i: usize, end: usize) -> (r: bool)
    requires
        i <= end <= path@.len(),
    ensures
        r == forall|k: int| i <= k < end ==> path@[k] == 0x2e,
{
    for k in i..end
        invariant
            end <= path@.len(),
            forall|m: int| i <= m < k ==> path@[m] == 0x2e,
    {
        if path[k] != 0x2e {
            return false;
        }
    }
    true
}

/// Whether the path does not climb above the base.
fn within(path: &Vec<u8>) -> (r: bool)
    ensures
        r == stays(path@),
{
    let slash = Seps { backslash: false };
    let both = Seps { backslash: true };
    let r: bool = within_by(slash, path) && within_by(both, path);
    proof {
        assert forall|seps: Seps| r implies #[trigger] stays_from(seps, path@, 0, 0) by {
            assert(seps == slash || seps == both);
        }
    }
    r
}

fn clone_chain(chain: &Vec<Vec<u8>>) -> (r: Vec<Vec<u8>>)
    ensures
        facts::bytes_views(r@) == facts::bytes_views(chain@),
{
    let mut out: Vec<Vec<u8>> = Vec::new();
    for i in 0..chain.len()
        invariant
            out@.len() == i,
            forall|k: int| 0 <= k < i ==> (#[trigger] out@[k])@ == chain@[k]@,
    {
        out.push(facts::clone_bytes(&chain[i]));
    }
    assert(facts::bytes_views(out@) =~= facts::bytes_views(chain@));
    out
}

fn bytes_eq(a: &Vec<u8>, b: &Vec<u8>) -> (r: bool)
    ensures
        r == (a@ == b@),
{
    if a.len() != b.len() {
        return false;
    }
    for i in 0..a.len()
        invariant
            a@.len() == b@.len(),
            forall|k: int| 0 <= k < i ==> a@[k] == b@[k],
    {
        if a[i] != b[i] {
            return false;
        }
    }
    assert(a@ =~= b@);
    true
}

/// [`chain`] for an entry.
fn extend_chain(ancestors: &Vec<Vec<u8>>, kind: Kind, target: Option<Vec<u8>>) -> (r: Option<
    Vec<Vec<u8>>,
>)
    ensures
        match r {
            None => None::<Seq<Seq<u8>>>,
            Some(c) => Some(facts::bytes_views(c@)),
        } == chain(
            facts::bytes_views(ancestors@),
            kind,
            target_of(target),
        ),
{
    let ghost tv = target_of(target);
    let is_link: bool = matches!(kind, Kind::Link { .. });
    if !is_link {
        return Some(clone_chain(ancestors));
    }
    let resolved: Vec<u8> = match target {
        None => return None,
        Some(t) => t,
    };
    let ghost views = facts::bytes_views(ancestors@);
    for i in 0..ancestors.len()
        invariant
            views == facts::bytes_views(ancestors@),
            kind is Link,
            tv == Some(resolved@),
            tv == target_of(target),
            forall|k: int| 0 <= k < i ==> #[trigger] views[k] != resolved@,
    {
        assert(views[i as int] == ancestors@[i as int]@);
        if bytes_eq(&ancestors[i], &resolved) {
            assert(views.contains(resolved@));
            return None;
        }
    }
    assert(!views.contains(resolved@));
    let mut out: Vec<Vec<u8>> = clone_chain(ancestors);
    let ghost before = out@;
    out.push(resolved);
    assert(facts::bytes_views(out@) =~= facts::bytes_views(before).push(resolved@));
    Some(out)
}

impl<P, I> Walk<P, I> {
    pub closed spec fn wf(self) -> bool {
        &&& self.matcher is Some ==> self.matcher->0.wf()
        &&& self.ignore is Some ==> self.ignore->0.wf()
    }

    /// There are patterns; without any, nothing is walked.
    pub open spec fn has_rules(self) -> bool {
        self.spec_matcher() is Some
    }

    /// What decides the walk, where there are patterns.
    pub open spec fn rules(self) -> Rules {
        Rules {
            matcher: self.spec_matcher()->0,
            ignore: self.spec_ignore(),
            follow_links: self.spec_follow_links(),
        }
    }

    /// What matches the ignored paths, where there is something to ignore.
    pub closed spec fn spec_ignore(self) -> Option<SpecGlob> {
        patterns::value(self.ignore)
    }

    pub closed spec fn spec_follow_links(self) -> bool {
        self.follow_links
    }

    /// The matcher, where there is one.
    pub closed spec fn spec_matcher(self) -> Option<SpecGlob> {
        patterns::value(self.matcher)
    }

    /// The directories that are still to be read, the next one last.
    pub closed spec fn spec_stack(self) -> Seq<SpecFrame<P>> {
        frames_of(self.stack@)
    }

    /// What is still to be yielded, the next one last.
    pub closed spec fn spec_ready(self) -> Seq<I> {
        self.ready@
    }

    pub closed spec fn spec_base(self) -> Seq<char> {
        self.base@
    }

    /// All but the stack and what is ready is as in `from`.
    pub open spec fn same_rules(self, from: Self) -> bool {
        &&& self.spec_matcher() == from.spec_matcher()
        &&& self.spec_ignore() == from.spec_ignore()
        &&& self.spec_follow_links() == from.spec_follow_links()
        &&& self.spec_base() == from.spec_base()
    }

    /// A walk for a single pattern.
    pub fn new(pattern: &str, opts: WalkOptions) -> (r: Result<Self, WalkError>)
        ensures
            match r {
                Ok(w) => w.made_of(seq![pattern@], opts),
                Err(e) => refusal(seq![pattern@], opts, e),
            },
    {
        let all: Vec<&str> = vec![pattern];
        assert(glob::texts_of(all@) =~= seq![pattern@]);
        Walk::from_patterns(all.as_slice(), opts)
    }

    /// A walk for the union of several patterns. Without patterns, it yields
    /// nothing. What a pattern with an odd number of leading `!`s matches is
    /// ignored. Leading slashes are stripped.
    pub fn from_patterns(patterns: &[&str], opts: WalkOptions) -> (r: Result<Self, WalkError>)
        ensures
            match r {
                Ok(w) => w.made_of(glob::texts_of(patterns@), opts),
                Err(e) => refusal(glob::texts_of(patterns@), opts, e),
            },
    {
        let compile_opts = CompileOptions {
            dot: opts.dot,
            case_insensitive: opts.case_insensitive,
        };
        let (positives, negatives) = split_patterns(patterns);
        let matcher: Option<Glob> = match compile_union(&positives, compile_opts) {
            Ok(m) => m,
            Err(e) => return Err(e),
        };
        let mut ignored: Vec<String> = Vec::new();
        let ghost texts = glob::texts_of(patterns@);
        let ghost own = patterns::strings(opts.ignore@);
        let ghost neg = patterns::strings(negatives@);
        for i in 0..opts.ignore.len()
            invariant
                own == patterns::strings(opts.ignore@),
                patterns::strings(ignored@) == own.take(i as int),
        {
            let ghost before = ignored@;
            ignored.push(opts.ignore[i].clone());
            assert(patterns::strings(ignored@) =~= patterns::strings(before).push(
                opts.ignore@[i as int]@,
            ));
            assert(own.take(i + 1) =~= own.take(i as int).push(own[i as int]));
        }
        for i in 0..negatives.len()
            invariant
                neg == patterns::strings(negatives@),
                patterns::strings(ignored@) == own + neg.take(i as int),
        {
            let ghost before = ignored@;
            ignored.push(negatives[i].clone());
            assert(patterns::strings(ignored@) =~= patterns::strings(before).push(
                negatives@[i as int]@,
            ));
            assert(neg.take(i + 1) =~= neg.take(i as int).push(neg[i as int]));
            assert(own + neg.take(i + 1) =~= (own + neg.take(i as int)).push(neg[i as int]));
        }
        assert(patterns::strings(ignored@) =~= ignored_texts(texts, opts));
        let ignore: Option<Glob> = match compile_union(&ignored, compile_opts) {
            Ok(m) => m,
            Err(e) => {
                assert(patterns::united(
                    patterns::bodies(texts, false),
                    compile_options(opts),
                    patterns::value(matcher),
                ));
                return Err(e);
            },
        };
        let w = Walk {
            matcher,
            ignore,
            base: opts.base,
            follow_links: opts.follow_links,
            stack: Vec::new(),
            ready: Vec::new(),
        };
        assert(w.spec_stack() =~= seq![]);
        assert(w.spec_ready() =~= seq![]);
        Ok(w)
    }

    /// The walk is the fresh walk of the patterns.
    pub open spec fn made_of(self, texts: Seq<Seq<char>>, opts: WalkOptions) -> bool {
        let co = compile_options(opts);
        &&& self.wf()
        &&& patterns::united(patterns::bodies(texts, false), co, self.spec_matcher())
        &&& patterns::united(ignored_texts(texts, opts), co, self.spec_ignore())
        &&& self.spec_follow_links() == opts.follow_links
        &&& self.spec_base() == opts.base@
        &&& self.spec_stack() == Seq::<SpecFrame<P>>::empty()
        &&& self.spec_ready() == Seq::<I>::empty()
    }

    /// The base directory, as it was given.
    pub fn base(&self) -> (r: &String)
        ensures
            r@ == self.spec_base(),
    {
        &self.base
    }

    /// Where to start: the matcher's static prefixes.
    pub fn prefixes(&self) -> (r: Vec<Vec<u8>>)
        requires
            self.wf(),
        ensures
            match self.spec_matcher() {
                None => r@.len() == 0,
                Some(g) => g.prefixes(facts::bytes_views(r@)),
            },
    {
        match &self.matcher {
            None => Vec::new(),
            Some(m) => m.static_prefixes(),
        }
    }

    /// Whether a walk may start at the prefix.
    fn may_start(&self, prefix: &Vec<u8>) -> (r: bool)
        requires
            self.wf(),
        ensures
            r == opens(self.rules(), prefix@),
    {
        if !within(prefix) {
            return false;
        }
        if let Some(ig) = &self.ignore {
            let len: usize = prefix.len();
            for k in 0..len
                invariant
                    self.wf(),
                    self.ignore == Some(*ig),
                    len == prefix@.len(),
                    forall|n: int| #[trigger]
                        on_the_way(prefix@, n) && n <= k ==> !self.rules().ignores(prefix@.take(n)),
            {
                let n: usize = k + 1;
                if n == len || prefix[n] == 0x2f {
                    let part: &[u8] = vstd::slice::slice_subrange(prefix.as_slice(), 0, n);
                    assert(part@ =~= prefix@.take(n as int));
                    if ig.is_match(part) {
                        assert(on_the_way(prefix@, n as int));
                        return false;
                    }
                }
            }
        }
        true
    }

    /// Starts at a prefix, given what stands there.
    pub fn seed(&mut self, prefix: Vec<u8>, target: Target, place: P, item: I)
        requires
            old(self).wf(),
            old(self).has_rules(),
            prefix@.len() < usize::MAX,
        ensures
            final(self).wf(),
            final(self).same_rules(*old(self)),
            final(self).spec_ready() == old(self).spec_ready() + seed_items(
                old(self).rules(),
                prefix@,
                target,
                item,
            ),
            final(self).spec_stack() == old(self).spec_stack() + seed_frames(
                old(self).rules(),
                prefix@,
                target,
                place,
            ),
    {
        let open: bool = self.may_start(&prefix);
        let (hit, down): (bool, bool) = match &self.matcher {
            None => (false, false),
            Some(m) => match target {
                Target::Missing => (false, false),
                Target::Dir => {
                    if prefix.len() == 0 {
                        (false, true)
                    } else {
                        let dm = m.match_dir(prefix.as_slice());
                        (dm.is_match(), dm.should_descend())
                    }
                },
                Target::Other => (prefix.len() > 0 && m.is_match(prefix.as_slice()), false),
            },
        };
        let ghost ready = self.ready@;
        let ghost stack = self.stack@;
        if hit && open {
            self.ready.push(item);
        }
        assert(self.ready@ =~= ready + seed_items(old(self).rules(), prefix@, target, item));
        if down && open {
            let depth: usize = if prefix.len() == 0 {
                0
            } else {
                prefix_depth(&prefix)
            };
            let ghost pv = prefix@;
            let none: Vec<Vec<u8>> = Vec::new();
            assert(facts::bytes_views(none@) =~= seq![]);
            self.stack.push(Frame { place, relative: prefix, depth, ancestors: none });
        }
        assert(frames_of(self.stack@) =~= frames_of(stack) + seed_frames(
            old(self).rules(),
            prefix@,
            target,
            place,
        ));
    }

    /// Takes what comes next. All that is ready is yielded before the next
    /// directory is read.
    pub fn next_step(&mut self) -> (r: Step<P, I>)
        requires
            old(self).wf(),
        ensures
            final(self).wf(),
            final(self).same_rules(*old(self)),
            match r {
                Step::Yield(item) => {
                    &&& old(self).spec_ready() == final(self).spec_ready().push(item)
                    &&& final(self).spec_stack() == old(self).spec_stack()
                },
                Step::Read(f) => {
                    &&& old(self).spec_ready().len() == 0
                    &&& final(self).spec_ready().len() == 0
                    &&& old(self).spec_stack() == final(self).spec_stack().push(f.value())
                },
                Step::Done => {
                    &&& old(self).spec_ready().len() == 0
                    &&& old(self).spec_stack().len() == 0
                    &&& final(self).spec_ready().len() == 0
                    &&& final(self).spec_stack().len() == 0
                },
            },
    {
        let ghost ready = self.ready@;
        let ghost stack = self.stack@;
        if let Some(item) = self.ready.pop() {
            assert(ready =~= self.ready@.push(item));
            return Step::Yield(item);
        }
        if let Some(f) = self.stack.pop() {
            assert(frames_of(stack) =~= frames_of(self.stack@).push(f.value()));
            return Step::Read(f);
        }
        Step::Done
    }

    /// Hands over a directory that could not be read: the item says why.
    pub fn fail(&mut self, item: I)
        requires
            old(self).wf(),
        ensures
            final(self).wf(),
            final(self).same_rules(*old(self)),
            final(self).spec_stack() == old(self).spec_stack(),
            final(self).spec_ready() == old(self).spec_ready().push(item),
    {
        self.ready.push(item);
    }

    /// Whether the walk wants to know what a link stands for.
    pub fn wants_target(&self, dir: &Frame<P>, name: &Vec<u8>, kind: Kind) -> (r: bool)
        requires
            self.wf(),
            self.has_rules(),
        ensures
            r == (kind is Link && self.rules().descends(child(dir.relative@, name@), kind)),
    {
        let path: Vec<u8> = join_path(&dir.relative, name);
        matches!(kind, Kind::Link { .. }) && self.decide(&path, kind).1
    }

    /// Whether an entry is yielded, and whether the walk goes on below it.
    fn decide(&self, path: &Vec<u8>, kind: Kind) -> (r: (bool, bool))
        requires
            self.wf(),
            self.has_rules(),
        ensures
            r.0 == self.rules().emits(path@, kind),
            r.1 == self.rules().descends(path@, kind),
    {
        if matches!(kind, Kind::Link { .. }) && !self.follow_links {
            return (false, false);
        }
        if let Some(ig) = &self.ignore {
            if ig.is_match(path.as_slice()) {
                return (false, false);
            }
        }
        let down: bool = match kind {
            Kind::File => false,
            Kind::Dir => true,
            Kind::Link { to_dir } => to_dir,
        };
        match &self.matcher {
            None => (false, false),
            Some(m) => {
                if down {
                    let dm = m.match_dir(path.as_slice());
                    (dm.is_match(), dm.should_descend())
                } else {
                    (m.is_match(path.as_slice()), false)
                }
            },
        }
    }

    /// Hands over the entries of a directory.
    pub fn expand(&mut self, dir: Frame<P>, listing: Vec<Listed<P, I>>)
        requires
            old(self).wf(),
            old(self).has_rules(),
            dir.depth < usize::MAX,
        ensures
            final(self).wf(),
            final(self).same_rules(*old(self)),
            final(self).spec_ready() == old(self).spec_ready() + all_items(
                old(self).rules(),
                dir.value(),
                listing_of(listing@),
            ).reverse(),
            final(self).spec_stack() == old(self).spec_stack() + all_frames(
                old(self).rules(),
                dir.value(),
                listing_of(listing@),
            ).reverse(),
    {
        let mut items: Vec<I> = Vec::new();
        let mut frames: Vec<Frame<P>> = Vec::new();
        let ghost rules = self.rules();
        let ghost all = listing@;
        let ghost views = listing_of(all);
        let ghost dv = dir.value();
        let mut rest: Vec<Listed<P, I>> = reversed(listing);
        let ghost mut done: int = 0;
        assert(rest@ =~= all.reverse().take(rest@.len() as int));
        assert(frames_of(frames@) =~= all_frames(rules, dv, views.take(0)));
        while rest.len() > 0
            invariant
                self.wf(),
                self.has_rules(),
                rules == self.rules(),
                *self == *old(self),
                dv == dir.value(),
                dir.depth < usize::MAX,
                views == listing_of(all),
                0 <= done <= all.len(),
                rest@.len() == all.len() - done,
                rest@ == all.reverse().take(rest@.len() as int),
                items@ == all_items(rules, dv, views.take(done)),
                frames_of(frames@) == all_frames(rules, dv, views.take(done)),
            decreases rest@.len(),
        {
            let ghost before = rest@;
            if let Some(entry) = rest.pop() {
                proof {
                    let n = before.len() as int;
                    assert(entry == before[n - 1]);
                    assert(before[n - 1] == all.reverse()[n - 1]);
                    assert(entry == all[done]);
                    assert(rest@ =~= all.reverse().take(rest@.len() as int));
                    assert(views.take(done + 1).drop_last() =~= views.take(done));
                    assert(views.take(done + 1).last() == entry.value());
                }
                let ghost old_items = items@;
                let ghost old_frames = frames@;
                let ghost ev = entry.value();
                match entry {
                    Listed::Failed(item) => {
                        items.push(item);
                        assert(items@ =~= old_items + entry_items(rules, dv, ev));
                        assert(frames_of(frames@) =~= frames_of(old_frames) + entry_frames(
                            rules,
                            dv,
                            ev,
                        ));
                    },
                    Listed::Entry { name, kind, target, place, item } => {
                        let path: Vec<u8> = join_path(&dir.relative, &name);
                        let (hit, down) = self.decide(&path, kind);
                        if hit {
                            items.push(item);
                        }
                        assert(items@ =~= old_items + entry_items(rules, dv, ev));
                        if down {
                            if let Some(ancestors) = extend_chain(&dir.ancestors, kind, target) {
                                frames.push(
                                    Frame {
                                        place,
                                        relative: path,
                                        depth: dir.depth + 1,
                                        ancestors,
                                    },
                                );
                            }
                        }
                        assert(frames_of(frames@) =~= frames_of(old_frames) + entry_frames(
                            rules,
                            dv,
                            ev,
                        ));
                    },
                }
                proof {
                    done = done + 1;
                }
            }
        }
        assert(views.take(done) =~= views);
        let ghost found = items@;
        let ghost below = frames_of(frames@);
        while items.len() > 0
            invariant
                self.wf(),
                self.same_rules(*old(self)),
                self.stack@ == old(self).stack@,
                items@.len() <= found.len(),
                items@ == found.take(items@.len() as int),
                self.ready@ == old(self).ready@ + found.skip(items@.len() as int).reverse(),
            decreases items@.len(),
        {
            let ghost n = items@.len() as int;
            if let Some(item) = items.pop() {
                self.ready.push(item);
                proof {
                    assert(item == found[n - 1]);
                    assert(found.skip(n - 1).reverse() =~= found.skip(n).reverse().push(item));
                    assert(items@ =~= found.take(n - 1));
                    assert(self.ready@ =~= old(self).ready@ + found.skip(n - 1).reverse());
                }
            }
        }
        assert(found.skip(0) =~= found);
        while frames.len() > 0
            invariant
                self.wf(),
                self.same_rules(*old(self)),
                self.ready@ == old(self).ready@ + found.reverse(),
                frames@.len() <= below.len(),
                frames_of(frames@) == below.take(frames@.len() as int),
                frames_of(self.stack@) == frames_of(old(self).stack@) + below.skip(
                    frames@.len() as int,
                ).reverse(),
            decreases frames@.len(),
        {
            let ghost n = frames@.len() as int;
            let ghost fs = frames@;
            let ghost st = self.stack@;
            if let Some(frame) = frames.pop() {
                self.stack.push(frame);
                proof {
                    assert(frames_of(fs)[n - 1] == below.take(n)[n - 1]);
                    assert(frame.value() == below[n - 1]);
                    assert(below.skip(n - 1).reverse() =~= below.skip(n).reverse().push(
                        frame.value(),
                    ));
                    assert(frames_of(frames@) =~= below.take(n - 1)) by {
                        assert forall|k: int| 0 <= k < n - 1 implies frames_of(frames@)[k]
                            == below[k] by {
                            assert(frames_of(fs)[k] == below.take(n)[k]);
                        }
                    }
                    assert(frames_of(self.stack@) =~= frames_of(st).push(frame.value()));
                    assert(frames_of(self.stack@) =~= frames_of(old(self).stack@) + below.skip(
                        n - 1,
                    ).reverse());
                }
            }
        }
        assert(below.skip(0) =~= below);
    }
}

/// The options that the patterns of a walk are compiled with.
pub open spec fn compile_options(opts: WalkOptions) -> CompileOptions {
    CompileOptions { dot: opts.dot, case_insensitive: opts.case_insensitive }
}

/// The ignore patterns of a walk: those of the options, and the patterns that
/// exclude.
pub open spec fn ignored_texts(texts: Seq<Seq<char>>, opts: WalkOptions) -> Seq<Seq<char>> {
    patterns::strings(opts.ignore@) + patterns::bodies(texts, true)
}

/// The patterns or else the ignore patterns of a walk do not compile, and `e`
/// says why.
pub open spec fn refusal(texts: Seq<Seq<char>>, opts: WalkOptions, e: WalkError) -> bool {
    patterns::refused(patterns::bodies(texts, false), e) || ((exists|g: Option<SpecGlob>|
        patterns::united(patterns::bodies(texts, false), compile_options(opts), g))
        && patterns::refused(ignored_texts(texts, opts), e))
}

} // verus!
