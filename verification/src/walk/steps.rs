//! What single steps of a walk do, told from the patterns, the paths and the
//! entries.

use crate::engine::segment::elems;
use crate::laws;
use crate::seps::Seps;
use crate::walk::lists;
use crate::walk::options::WalkOptions;
use crate::walk::traversal::{self, Kind, Rules, SpecFrame, SpecListed, Target, Walk};
use vstd::prelude::*;

verus! {

// Paths that climb.

/// The segments with slashes between them.
pub open spec fn slashed(segs: Seq<Seq<u8>>) -> Seq<u8>
    decreases segs.len(),
{
    if segs.len() == 0 {
        seq![]
    } else if segs.len() == 1 {
        segs[0]
    } else {
        segs[0] + (seq![0x2fu8] + slashed(segs.drop_first()))
    }
}

/// How many of the segments are `..`.
pub open spec fn ups(segs: Seq<Seq<u8>>) -> int
    decreases segs.len(),
{
    if segs.len() == 0 {
        0
    } else {
        ups(segs.drop_last()) + if segs.last() == seq![0x2eu8, 0x2eu8] {
            1int
        } else {
            0int
        }
    }
}

/// How many of the segments are names: neither empty, nor `.`, nor `..`.
pub open spec fn names(segs: Seq<Seq<u8>>) -> int
    decreases segs.len(),
{
    if segs.len() == 0 {
        0
    } else {
        names(segs.drop_last()) + if segs.last().len() == 0 || segs.last() == seq![0x2eu8]
            || segs.last() == seq![0x2eu8, 0x2eu8] {
            0int
        } else {
            1int
        }
    }
}

/// No segment holds a separator.
pub open spec fn whole(segs: Seq<Seq<u8>>) -> bool {
    forall|i: int|
        0 <= i < segs.len() ==> !(#[trigger] segs[i]).contains(0x2fu8) && !segs[i].contains(0x5cu8)
}

/// From segment `k` on there are never more `..` than names before or at it.
pub open spec fn level(segs: Seq<Seq<u8>>, k: int) -> bool {
    forall|n: int| k < n <= segs.len() ==> ups(#[trigger] segs.take(n)) <= names(segs.take(n))
}

proof fn lemma_segment(seps: Seps, path: Seq<u8>, i: int, seg: Seq<u8>, j: int)
    requires
        0 <= i <= j <= i + seg.len() <= path.len(),
        !seg.contains(0x2fu8),
        !seg.contains(0x5cu8),
        forall|k: int| 0 <= k < seg.len() ==> path[i + k] == #[trigger] seg[k],
        i + seg.len() == path.len() || path[i + seg.len()] == 0x2f,
    ensures
        elems::seg_end(seps, path, j) == i + seg.len(),
    decreases i + seg.len() - j,
{
    if j < i + seg.len() {
        assert(path[i + (j - i)] == seg[j - i]);
        assert(seg.contains(seg[j - i]));
        lemma_segment(seps, path, i, seg, j + 1);
    }
}

#[verifier::rlimit(40)]
proof fn lemma_stays_from(seps: Seps, segs: Seq<Seq<u8>>, path: Seq<u8>, k: int, i: int)
    requires
        whole(segs),
        0 <= k < segs.len(),
        0 <= i <= path.len(),
        path.skip(i) == slashed(segs.skip(k)),
    ensures
        traversal::stays_from(seps, path, i, names(segs.take(k)) - ups(segs.take(k))) == level(
            segs,
            k,
        ),
    decreases segs.len() - k,
{
    let rest = segs.skip(k);
    let seg = segs[k];
    let depth = names(segs.take(k)) - ups(segs.take(k));
    let tail = path.skip(i);
    assert(rest[0] == seg);
    assert(tail.len() == path.len() - i);
    assert forall|m: int| 0 <= m < seg.len() implies path[i + m] == #[trigger] seg[m] by {
        assert(tail[m] == path[i + m]);
        assert(slashed(rest)[m] == seg[m]);
    }
    let end = i + seg.len();
    if rest.len() > 1 {
        assert(tail[seg.len() as int] == 0x2f);
        assert(tail[seg.len() as int] == path[end]);
    }
    lemma_segment(seps, path, i, seg, i);
    assert(path.subrange(i, end) =~= seg);
    let more = segs.take(k + 1);
    assert(more.drop_last() =~= segs.take(k));
    assert(more.last() == seg);
    assert(seq![0x2eu8, 0x2eu8].len() == 2 && seq![0x2eu8].len() == 1);
    let next = depth + traversal::level_of(seg);
    assert(next == names(more) - ups(more));
    if rest.len() > 1 {
        let less = segs.skip(k + 1);
        assert(rest.drop_first() =~= less);
        assert(path.skip(end + 1) =~= slashed(less)) by {
            assert forall|m: int| 0 <= m < slashed(less).len() implies path.skip(end + 1)[m]
                == #[trigger] slashed(less)[m] by {
                assert(tail[seg.len() + 1 + m] == slashed(less)[m]);
            }
        }
        lemma_stays_from(seps, segs, path, k + 1, end + 1);
        assert(level(segs, k) == (next >= 0 && level(segs, k + 1))) by {
            if level(segs, k) {
                assert(ups(segs.take(k + 1)) <= names(segs.take(k + 1)));
            }
            if next >= 0 && level(segs, k + 1) {
                assert forall|n: int| k < n <= segs.len() implies ups(#[trigger] segs.take(n))
                    <= names(segs.take(n)) by {}
            }
        }
    } else {
        assert(level(segs, k) == (next >= 0)) by {
            if level(segs, k) {
                assert(ups(segs.take(k + 1)) <= names(segs.take(k + 1)));
            }
            if next >= 0 {
                assert forall|n: int| k < n <= segs.len() implies ups(#[trigger] segs.take(n))
                    <= names(segs.take(n)) by {
                    assert(n == k + 1);
                }
            }
        }
    }
}

/// A path stays below the base exactly when no part of it from the start on has
/// more `..` than names.
pub proof fn law_path_stays_below_the_base(segs: Seq<Seq<u8>>)
    requires
        segs.len() > 0,
        whole(segs),
    ensures
        traversal::stays(slashed(segs)) <==> forall|n: int|
            0 < n <= segs.len() ==> ups(#[trigger] segs.take(n)) <= names(segs.take(n)),
{
    let path = slashed(segs);
    assert(segs.skip(0) =~= segs);
    assert(path.skip(0) =~= path);
    assert(segs.take(0) =~= seq![]);
    assert(names(segs.take(0)) == 0 && ups(segs.take(0)) == 0);
    assert forall|seps: Seps| #[trigger] traversal::stays_from(seps, path, 0, 0) == level(
        segs,
        0,
    ) by {
        lemma_stays_from(seps, segs, path, 0, 0);
    }
    let any = Seps { backslash: true };
    if traversal::stays(path) {
        assert(traversal::stays_from(any, path, 0, 0));
    }
}

proof fn lemma_slashes(a: Seq<u8>, b: Seq<u8>)
    ensures
        traversal::slashes(a + b) == traversal::slashes(a) + traversal::slashes(b),
    decreases b.len(),
{
    if b.len() == 0 {
        assert(a + b =~= a);
    } else {
        assert((a + b).drop_last() =~= a + b.drop_last());
        lemma_slashes(a, b.drop_last());
    }
}

proof fn lemma_no_slashes(a: Seq<u8>)
    requires
        !a.contains(0x2fu8),
    ensures
        traversal::slashes(a) == 0,
    decreases a.len(),
{
    if a.len() > 0 {
        assert(a.contains(a.last()));
        let less = a.drop_last();
        assert(!less.contains(0x2fu8)) by {
            if less.contains(0x2fu8) {
                let k = choose|k: int| 0 <= k < less.len() && less[k] == 0x2fu8;
                assert(a[k] == 0x2fu8);
                assert(a.contains(0x2fu8));
            }
        }
        lemma_no_slashes(less);
    }
}

/// A walk that starts at a prefix starts as many levels down as the prefix has
/// segments.
pub proof fn law_start_is_as_deep_as_its_segments(segs: Seq<Seq<u8>>)
    requires
        segs.len() > 0,
        whole(segs),
    ensures
        traversal::prefix_levels(slashed(segs)) == segs.len(),
    decreases segs.len(),
{
    assert(!segs[0].contains(0x2fu8));
    lemma_no_slashes(segs[0]);
    if segs.len() > 1 {
        let less = segs.drop_first();
        assert(whole(less)) by {
            assert forall|i: int| 0 <= i < less.len() implies !(#[trigger] less[i]).contains(0x2fu8)
                && !less[i].contains(0x5cu8) by {
                assert(less[i] == segs[i + 1]);
            }
        }
        law_start_is_as_deep_as_its_segments(less);
        lemma_slashes(segs[0], seq![0x2fu8] + slashed(less));
        lemma_slashes(seq![0x2fu8], slashed(less));
        assert(seq![0x2fu8].drop_last() =~= seq![]);
        assert(traversal::slashes(seq![0x2fu8]) == 1) by {
            assert(traversal::slashes(Seq::<u8>::empty()) == 0);
        }
    }
}

// Starting.

/// Some directory on the way to `prefix`, or `prefix` itself, is ignored.
pub open spec fn ignored_on_the_way(
    texts: Seq<Seq<char>>,
    opts: WalkOptions,
    prefix: Seq<u8>,
) -> bool {
    exists|n: int|
        0 < n <= prefix.len() && (n == prefix.len() || prefix[n] == 0x2f) && (
        lists::some_ignore_hits(opts, #[trigger] prefix.take(n)) || lists::some_hits_behind(
            texts,
            true,
            opts,
            prefix.take(n),
        ))
}

/// Starting at a prefix yields the entry there exactly when there is one, some
/// pattern matches it, and neither it nor a directory on the way to it is
/// ignored or lies above the base.
///
/// The names in the prefix hold no backslash.
pub proof fn law_start_yields_what_matches<P, I>(
    walk: Walk<P, I>,
    texts: Seq<Seq<char>>,
    opts: WalkOptions,
    prefix: Seq<u8>,
    target: Target,
    item: I,
)
    requires
        walk.made_of(texts, opts),
        walk.spec_matcher() is Some,
        forall|k: int| 0 <= k < prefix.len() ==> #[trigger] prefix[k] != 0x5c,
    ensures
        traversal::seed_items(walk.rules(), prefix, target, item) == if prefix.len() > 0 && !(
        target is Missing) && lists::some_hits_behind(texts, false, opts, prefix)
            && traversal::stays(prefix) && !ignored_on_the_way(texts, opts, prefix) {
            seq![item]
        } else {
            seq![]
        },
{
    let rules = walk.rules();
    lists::law_walk_matches_what_some_pattern_matches(walk, texts, opts, prefix);
    laws::law_verdict_says_match(rules.matcher, prefix);
    lemma_opens(walk, texts, opts, prefix);
}

proof fn lemma_opens<P, I>(
    walk: Walk<P, I>,
    texts: Seq<Seq<char>>,
    opts: WalkOptions,
    prefix: Seq<u8>,
)
    requires
        walk.made_of(texts, opts),
        forall|k: int| 0 <= k < prefix.len() ==> #[trigger] prefix[k] != 0x5c,
    ensures
        traversal::opens(walk.rules(), prefix) == (traversal::stays(prefix) && !ignored_on_the_way(
            texts,
            opts,
            prefix,
        )),
{
    let rules = walk.rules();
    assert forall|n: int| 0 < n <= prefix.len() implies rules.ignores(#[trigger] prefix.take(n))
        == (lists::some_ignore_hits(opts, prefix.take(n)) || lists::some_hits_behind(
        texts,
        true,
        opts,
        prefix.take(n),
    )) by {
        let part = prefix.take(n);
        assert forall|k: int| 0 <= k < part.len() implies #[trigger] part[k] != 0x5c by {
            assert(part[k] == prefix[k]);
        }
        lists::law_walk_ignores_what_some_pattern_matches(walk, texts, opts, part);
    }
    if ignored_on_the_way(texts, opts, prefix) {
        let n = choose|n: int|
            0 < n <= prefix.len() && (n == prefix.len() || prefix[n] == 0x2f) && (
            lists::some_ignore_hits(opts, #[trigger] prefix.take(n)) || lists::some_hits_behind(
                texts,
                true,
                opts,
                prefix.take(n),
            ));
        assert(traversal::on_the_way(prefix, n));
        assert(rules.ignores(prefix.take(n)));
    } else {
        assert forall|n: int| #[trigger] traversal::on_the_way(prefix, n) implies !rules.ignores(
            prefix.take(n),
        ) by {}
    }
}

/// Starting at a prefix that is a directory goes on there exactly when the walk
/// starts at the base or something below the directory may match, and neither
/// it nor a directory on the way to it is ignored or lies above the base.
///
/// The names in the prefix hold no backslash.
pub proof fn law_start_goes_on_below<P, I>(
    walk: Walk<P, I>,
    texts: Seq<Seq<char>>,
    opts: WalkOptions,
    prefix: Seq<u8>,
    target: Target,
    place: P,
)
    requires
        walk.made_of(texts, opts),
        walk.spec_matcher() is Some,
        forall|k: int| 0 <= k < prefix.len() ==> #[trigger] prefix[k] != 0x5c,
    ensures
        ({
            let frames = traversal::seed_frames(walk.rules(), prefix, target, place);
            let goes = target is Dir && (prefix.len() == 0
                || walk.rules().matcher.verdict(prefix).below()) && traversal::stays(prefix)
                && !ignored_on_the_way(texts, opts, prefix);
            &&& frames.len() == if goes {
                1int
            } else {
                0int
            }
            &&& goes ==> frames[0].place == place && frames[0].relative == prefix
                && frames[0].ancestors.len() == 0
        }),
{
    lemma_opens(walk, texts, opts, prefix);
}

// Reading.

/// The entries of a directory are taken one by one, in the order in which they
/// were read: what two parts of a listing yield and add is what the first part
/// does and then what the second does.
pub proof fn law_entries_keep_their_order<P, I>(
    rules: Rules,
    dir: SpecFrame<P>,
    a: Seq<SpecListed<P, I>>,
    b: Seq<SpecListed<P, I>>,
)
    ensures
        traversal::all_items(rules, dir, a + b) == traversal::all_items(rules, dir, a)
            + traversal::all_items(rules, dir, b),
        traversal::all_frames(rules, dir, a + b) == traversal::all_frames(rules, dir, a)
            + traversal::all_frames(rules, dir, b),
    decreases b.len(),
{
    let ia = traversal::all_items(rules, dir, a);
    let fa = traversal::all_frames(rules, dir, a);
    if b.len() == 0 {
        assert(a + b =~= a);
        assert(ia + traversal::all_items(rules, dir, b) =~= ia);
        assert(fa + traversal::all_frames(rules, dir, b) =~= fa);
    } else {
        let less = b.drop_last();
        assert((a + b).drop_last() =~= a + less);
        assert((a + b).last() == b.last());
        law_entries_keep_their_order(rules, dir, a, less);
        assert(traversal::all_items(rules, dir, a + b) =~= ia + traversal::all_items(
            rules,
            dir,
            b,
        ));
        assert(traversal::all_frames(rules, dir, a + b) =~= fa + traversal::all_frames(
            rules,
            dir,
            b,
        ));
    }
}

/// One entry of a directory is yielded exactly when some pattern matches its
/// path, none ignores it, and it is no link or links are followed. What could
/// not be read is always told.
///
/// The names in the path hold no backslash.
pub proof fn law_entry_is_yielded_where_it_matches<P, I>(
    walk: Walk<P, I>,
    texts: Seq<Seq<char>>,
    opts: WalkOptions,
    dir: SpecFrame<P>,
    entry: SpecListed<P, I>,
)
    requires
        walk.made_of(texts, opts),
        walk.spec_matcher() is Some,
        entry matches SpecListed::Entry { name, .. } ==> forall|k: int|
            0 <= k < traversal::child(dir.relative, name).len() ==> #[trigger] traversal::child(
                dir.relative,
                name,
            )[k] != 0x5c,
    ensures
        traversal::all_items(walk.rules(), dir, seq![entry]) == match entry {
            SpecListed::Failed(item) => seq![item],
            SpecListed::Entry { name, kind, item, .. } => {
                let path = if dir.relative.len() == 0 {
                    name
                } else {
                    dir.relative + (seq![0x2fu8] + name)
                };
                if lists::some_hits_behind(texts, false, opts, path) && !lists::some_hits_behind(
                    texts,
                    true,
                    opts,
                    path,
                ) && !lists::some_ignore_hits(opts, path) && (opts.follow_links || !(kind is Link)) {
                    seq![item]
                } else {
                    seq![]
                }
            },
        },
{
    let one = seq![entry];
    assert(one.drop_last() =~= seq![]);
    assert(traversal::all_items(walk.rules(), dir, one.drop_last()) =~= seq![]);
    assert(traversal::all_items(walk.rules(), dir, one) =~= traversal::entry_items(
        walk.rules(),
        dir,
        entry,
    ));
    if let SpecListed::Entry { name, kind, .. } = entry {
        let path = traversal::child(dir.relative, name);
        if dir.relative.len() > 0 {
            assert(path =~= dir.relative + (seq![0x2fu8] + name));
        }
        lists::law_walk_yields_what_matches_and_is_not_ignored(walk, texts, opts, path, kind);
    }
}

/// The walk goes on below one entry of a directory exactly when it is a
/// directory or a link to one, something below it may match, and nothing
/// ignores it. A link is taken only where links are followed, its target is
/// known, and the target is not among those of the links on the way to it; it
/// is among them from there on.
///
/// The names in the path hold no backslash.
pub proof fn law_entry_is_entered_where_matches_may_be<P, I>(
    walk: Walk<P, I>,
    texts: Seq<Seq<char>>,
    opts: WalkOptions,
    dir: SpecFrame<P>,
    name: Seq<u8>,
    kind: Kind,
    target: Option<Seq<u8>>,
    place: P,
    item: I,
)
    requires
        walk.made_of(texts, opts),
        walk.spec_matcher() is Some,
        forall|k: int|
            0 <= k < traversal::child(dir.relative, name).len() ==> #[trigger] traversal::child(
                dir.relative,
                name,
            )[k] != 0x5c,
    ensures
        ({
            let entry = SpecListed::Entry { name, kind, target, place, item };
            let frames = traversal::all_frames(walk.rules(), dir, seq![entry]);
            let path = traversal::child(dir.relative, name);
            let down = kind is Dir || kind == (Kind::Link { to_dir: true });
            let link = kind is Link ==> opts.follow_links && target is Some
                && !dir.ancestors.contains(target->0);
            let goes = down && link && !lists::some_hits_behind(texts, true, opts, path)
                && !lists::some_ignore_hits(opts, path)
                && walk.rules().matcher.verdict(path).below();
            &&& frames.len() == if goes {
                1int
            } else {
                0int
            }
            &&& goes ==> frames[0].place == place && frames[0].relative == path && frames[0].depth
                == dir.depth + 1 && frames[0].ancestors == if kind is Link {
                dir.ancestors.push(target->0)
            } else {
                dir.ancestors
            }
        }),
{
    let entry = SpecListed::Entry { name, kind, target, place, item };
    let one = seq![entry];
    let path = traversal::child(dir.relative, name);
    assert(one.drop_last() =~= seq![]);
    assert(traversal::all_frames(walk.rules(), dir, one.drop_last()) =~= seq![]);
    assert(traversal::all_frames(walk.rules(), dir, one) =~= traversal::entry_frames(
        walk.rules(),
        dir,
        entry,
    ));
    lists::law_walk_ignores_what_some_pattern_matches(walk, texts, opts, path);
}

} // verus!
