//! What a walk finds in a directory tree.
//!
//! The trees here hold files and directories and no links. A walk finds in
//! them exactly what matches and is not ignored: neither pruning nor starting
//! at static prefixes loses anything.

use crate::engine::ops::prefixes;
use crate::engine::segment::elems;
use crate::laws;
use crate::seps::Seps;
use crate::walk::patterns;
use crate::walk::traversal::{self, Kind, Rules, SpecFrame, SpecListed, Target};
use vstd::prelude::*;

verus! {

/// A file, or a directory with its entries.
pub enum SpecTree {
    File,
    Dir { names: Seq<Seq<u8>>, subs: Seq<SpecTree> },
}

/// A name that an entry can have.
pub open spec fn name_ok(name: Seq<u8>) -> bool {
    &&& name.len() > 0
    &&& name != seq![0x2eu8, 0x2eu8]
    &&& forall|k: int| 0 <= k < name.len() ==> #[trigger] name[k] != 0x2f
}

/// Every entry has a name, and one that an entry can have.
pub open spec fn tree_ok(tree: SpecTree) -> bool
    decreases tree,
{
    match tree {
        SpecTree::File => true,
        SpecTree::Dir { names, subs } => names.len() == subs.len() && forall|i: int|
            0 <= i < subs.len() ==> name_ok(names[i]) && tree_ok(#[trigger] subs[i]),
    }
}

pub open spec fn kind_of(tree: SpecTree) -> Kind {
    match tree {
        SpecTree::File => Kind::File,
        SpecTree::Dir { .. } => Kind::Dir,
    }
}

/// A walk that reads the directory `tree` at `dir` yields `path`.
pub open spec fn found(rules: Rules, dir: Seq<u8>, tree: SpecTree, path: Seq<u8>) -> bool
    decreases tree, 0int,
{
    match tree {
        SpecTree::File => false,
        SpecTree::Dir { names, subs } => exists|i: int|
            0 <= i < subs.len() && found_in(rules, traversal::child(dir, names[i]), #[trigger] subs[i], path),
    }
}

/// The walk yields `path` when it comes to the entry `tree` at `at`.
pub open spec fn found_in(rules: Rules, at: Seq<u8>, tree: SpecTree, path: Seq<u8>) -> bool
    decreases tree, 1int,
{
    (rules.emits(at, kind_of(tree)) && path == at) || (rules.descends(at, kind_of(tree)) && found(
        rules,
        at,
        tree,
        path,
    ))
}

/// `path` stands in the directory `tree` at `dir`, and neither it nor a
/// directory on the way to it is ignored.
pub open spec fn stands(rules: Rules, dir: Seq<u8>, tree: SpecTree, path: Seq<u8>) -> bool
    decreases tree, 0int,
{
    match tree {
        SpecTree::File => false,
        SpecTree::Dir { names, subs } => exists|i: int|
            0 <= i < subs.len() && stands_in(rules, traversal::child(dir, names[i]), #[trigger] subs[i], path),
    }
}

/// [`stands`], at or below the entry `tree` at `at`.
pub open spec fn stands_in(rules: Rules, at: Seq<u8>, tree: SpecTree, path: Seq<u8>) -> bool
    decreases tree, 1int,
{
    !rules.ignores(at) && (path == at || stands(rules, at, tree, path))
}

/// What stands in a directory lies below it.
proof fn lemma_stands_below(rules: Rules, dir: Seq<u8>, tree: SpecTree, path: Seq<u8>)
    requires
        tree_ok(tree),
        stands(rules, dir, tree, path),
    ensures
        dir.len() == 0 ==> path.len() > 0,
        dir.len() > 0 ==> prefixes::dir_above(dir, path) && path.len() > dir.len() + 1,
    decreases tree,
{
    let names = tree->names;
    let subs = tree->subs;
    let i = choose|i: int|
        0 <= i < subs.len() && stands_in(rules, traversal::child(dir, names[i]), #[trigger] subs[i], path);
    let at = traversal::child(dir, names[i]);
    assert(name_ok(names[i]) && tree_ok(subs[i]));
    if dir.len() > 0 {
        assert(at.take(dir.len() as int) =~= dir);
        assert(at[dir.len() as int] == 0x2f);
    }
    if path != at {
        lemma_stands_below(rules, at, subs[i], path);
        if dir.len() > 0 {
            assert(path.take(at.len() as int)[dir.len() as int] == at[dir.len() as int]);
            assert(path.take(dir.len() as int) =~= dir) by {
                assert forall|k: int| 0 <= k < dir.len() implies path[k] == dir[k] by {
                    assert(path.take(at.len() as int)[k] == at[k]);
                    assert(at.take(dir.len() as int)[k] == dir[k]);
                }
            }
        }
    }
}

/// A path that lies below a directory is the directory, a slash and more.
proof fn lemma_below_split(dir: Seq<u8>, path: Seq<u8>)
    requires
        prefixes::dir_above(dir, path),
    ensures
        path == (dir + seq![0x2fu8]) + path.skip(dir.len() as int + 1),
{
    let n = dir.len() as int;
    assert(path.take(n) =~= dir);
    let back = (dir + seq![0x2fu8]) + path.skip(n + 1);
    assert forall|k: int| 0 <= k < path.len() implies path[k] == back[k] by {
        if k < n {
            assert(path.take(n)[k] == dir[k]);
        }
    }
    assert(path =~= back);
}

/// Pruning loses nothing, and nothing that does not match is yielded: what is
/// found in a directory is what stands in it and matches.
pub proof fn law_walk_finds_matches(rules: Rules, dir: Seq<u8>, tree: SpecTree, path: Seq<u8>)
    requires
        tree_ok(tree),
    ensures
        found(rules, dir, tree, path) <==> stands(rules, dir, tree, path) && rules.matcher.matches(
            path,
        ),
    decreases tree, 0int,
{
    if let SpecTree::Dir { names, subs } = tree {
        assert forall|i: int| 0 <= i < subs.len() implies found_in(rules, traversal::child(dir, names[i]), #[trigger] subs[i], path) == (stands_in(rules, traversal::child(dir, names[i]), subs[i], path)
            && rules.matcher.matches(path)) by {
            assert(name_ok(names[i]) && tree_ok(subs[i]));
            lemma_found_in(rules, traversal::child(dir, names[i]), subs[i], path);
        }
        if found(rules, dir, tree, path) {
            let i = choose|i: int|
                0 <= i < subs.len() && found_in(rules, traversal::child(dir, names[i]), #[trigger] subs[i], path);
            assert(stands_in(rules, traversal::child(dir, names[i]), subs[i], path));
        }
        if stands(rules, dir, tree, path) && rules.matcher.matches(path) {
            let i = choose|i: int|
                0 <= i < subs.len() && stands_in(rules, traversal::child(dir, names[i]), #[trigger] subs[i], path);
            assert(found_in(rules, traversal::child(dir, names[i]), subs[i], path));
        }
    }
}

proof fn lemma_found_in(rules: Rules, at: Seq<u8>, tree: SpecTree, path: Seq<u8>)
    requires
        tree_ok(tree),
        at.len() > 0,
    ensures
        found_in(rules, at, tree, path) == (stands_in(rules, at, tree, path)
            && rules.matcher.matches(path)),
    decreases tree, 1int,
{
    law_walk_finds_matches(rules, at, tree, path);
    laws::law_verdict_says_match(rules.matcher, at);
    if stands(rules, at, tree, path) && rules.matcher.matches(path) {
        lemma_stands_below(rules, at, tree, path);
        lemma_below_split(at, path);
        laws::law_no_match_is_pruned(rules.matcher, at, path.skip(at.len() as int + 1));
    }
}

/// `sub` stands at `path` in the directory `tree` at `dir`.
pub open spec fn holds(dir: Seq<u8>, tree: SpecTree, path: Seq<u8>, sub: SpecTree) -> bool
    decreases tree,
{
    match tree {
        SpecTree::File => false,
        SpecTree::Dir { names, subs } => exists|i: int|
            0 <= i < subs.len() && (traversal::child(dir, names[i]) == path && #[trigger] subs[i] == sub || holds(traversal::child(dir, names[i]), subs[i], path, sub)),
    }
}

/// A walk that starts at `prefix`, where `sub` stands, yields `path`.
pub open spec fn found_from(rules: Rules, prefix: Seq<u8>, sub: SpecTree, path: Seq<u8>) -> bool {
    if prefix.len() == 0 {
        found(rules, prefix, sub, path)
    } else {
        traversal::opens(rules, prefix) && ((path == prefix && if sub is Dir {
            rules.matcher.verdict(prefix).exact()
        } else {
            rules.matcher.matches(prefix)
        }) || (sub is Dir && rules.matcher.verdict(prefix).below() && found(
            rules,
            prefix,
            sub,
            path,
        )))
    }
}

/// `sub` is what stands at `prefix` in the tree that is walked.
pub open spec fn rooted_at(tree: SpecTree, prefix: Seq<u8>, sub: SpecTree) -> bool {
    if prefix.len() == 0 {
        sub == tree
    } else {
        holds(Seq::<u8>::empty(), tree, prefix, sub)
    }
}

/// A walk that starts at the prefixes yields `path`.
pub open spec fn walked(
    rules: Rules,
    starts: Seq<Seq<u8>>,
    tree: SpecTree,
    path: Seq<u8>,
) -> bool {
    exists|m: int, sub: SpecTree|
        0 <= m < starts.len() && #[trigger] rooted_at(tree, starts[m], sub) && found_from(
            rules,
            starts[m],
            sub,
            path,
        )
}

/// Between a directory and an entry of it there is nothing on the way.
proof fn lemma_way_in(dir: Seq<u8>, name: Seq<u8>, path: Seq<u8>)
    requires
        name_ok(name),
        traversal::child(dir, name).len() <= path.len(),
        path.take(traversal::child(dir, name).len() as int) == traversal::child(dir, name),
    ensures
        forall|n: int| #[trigger]
            traversal::on_the_way(path, n) && n > dir.len() ==> n >= traversal::child(
                dir,
                name,
            ).len(),
{
    let at = traversal::child(dir, name);
    assert forall|n: int| #[trigger]
        traversal::on_the_way(path, n) && n > dir.len() implies n >= at.len() by {
        if n < at.len() {
            assert(path.take(at.len() as int)[n] == at[n]);
            let start = at.len() - name.len();
            assert(n >= start);
            assert(at[n] == name[n - start]);
        }
    }
}

/// What stands at `path` below a directory on the way to it stands in that
/// directory.
proof fn lemma_stands_from(
    rules: Rules,
    dir: Seq<u8>,
    tree: SpecTree,
    path: Seq<u8>,
    mid: Seq<u8>,
) -> (sub: SpecTree)
    requires
        tree_ok(tree),
        stands(rules, dir, tree, path),
        mid.len() > 0,
        dir.len() == 0 || prefixes::dir_above(dir, mid),
        mid == path || prefixes::dir_above(mid, path),
    ensures
        holds(dir, tree, mid, sub),
        tree_ok(sub),
        mid == path || stands(rules, mid, sub, path),
        forall|n: int| #[trigger]
            traversal::on_the_way(mid, n) && n > dir.len() ==> !rules.ignores(mid.take(n)),
    decreases tree,
{
    let names = tree->names;
    let subs = tree->subs;
    let i = choose|i: int|
        0 <= i < subs.len() && stands_in(rules, traversal::child(dir, names[i]), #[trigger] subs[i], path);
    let name = names[i];
    let at = traversal::child(dir, name);
    assert(name_ok(name) && tree_ok(subs[i]));
    if path != at {
        lemma_stands_below(rules, at, subs[i], path);
    }
    assert forall|k: int| 0 <= k < at.len() implies path[k] == at[k] by {
        if path != at {
            assert(path.take(at.len() as int)[k] == at[k]);
        }
    }
    assert forall|k: int| 0 <= k < mid.len() implies path[k] == mid[k] by {
        if path != mid {
            assert(path.take(mid.len() as int)[k] == mid[k]);
        }
    }
    let start = if dir.len() == 0 {
        0int
    } else {
        dir.len() as int + 1
    };
    if mid.len() < at.len() {
        // The cut would fall into the name, which has no slash.
        if dir.len() > 0 {
            assert(mid.len() > dir.len());
        }
        assert(path[mid.len() as int] == 0x2f);
        if mid.len() == dir.len() + 1 && dir.len() > 0 {
            assert(at[mid.len() as int] == name[0]);
        }
        assert(at[mid.len() as int] == name[mid.len() - start]);
        assert(false);
        subs[i]
    } else if mid.len() == at.len() {
        assert(mid =~= at);
        assert(mid.take(at.len() as int) =~= at);
        lemma_way_in(dir, name, mid);
        assert forall|n: int| #[trigger]
            traversal::on_the_way(mid, n) && n > dir.len() implies !rules.ignores(mid.take(n)) by {
            assert(n == at.len());
        }
        subs[i]
    } else {
        assert(path != at);
        assert(mid[at.len() as int] == path[at.len() as int]);
        assert(mid.take(at.len() as int) =~= at);
        assert(prefixes::dir_above(at, mid));
        lemma_way_in(dir, name, mid);
        let sub = lemma_stands_from(rules, at, subs[i], path, mid);
        assert(traversal::child(dir, names[i]) == at);
        assert forall|n: int| #[trigger]
            traversal::on_the_way(mid, n) && n > dir.len() implies !rules.ignores(mid.take(n)) by {
            assert(n >= at.len());
            if n == at.len() {
                assert(mid.take(n) =~= at);
            }
        }
        sub
    }
}

/// A segment without separators ends where the path ends, or before the
/// separator behind it.
proof fn lemma_segment_end(seps: Seps, path: Seq<u8>, i: int, end: int)
    requires
        0 <= i <= end <= path.len(),
        forall|k: int| i <= k < end ==> !seps.has(#[trigger] path[k]),
        end == path.len() || seps.has(path[end]),
    ensures
        elems::seg_end(seps, path, i) == end,
    decreases end - i,
{
    if i < end {
        assert(!seps.has(path[i]));
        lemma_segment_end(seps, path, i + 1, end);
    }
}

/// A name leads down, or nowhere.
proof fn lemma_name_stays(seps: Seps, path: Seq<u8>, name: Seq<u8>, i: int, depth: int)
    requires
        name_ok(name),
        forall|k: int| 0 <= k < name.len() ==> #[trigger] name[k] != 0x5c,
        0 <= i,
        path.len() == i + name.len(),
        path.subrange(i, path.len() as int) == name,
        depth >= 0,
    ensures
        traversal::stays_from(seps, path, i, depth),
{
    let end = path.len() as int;
    assert forall|k: int| i <= k < end implies !seps.has(#[trigger] path[k]) by {
        assert(path.subrange(i, end)[k - i] == name[k - i]);
        assert(name[k - i] != 0x2f && name[k - i] != 0x5c);
    }
    lemma_segment_end(seps, path, i, end);
}

proof fn lemma_child_stays_from(seps: Seps, dir: Seq<u8>, name: Seq<u8>, i: int, depth: int)
    requires
        traversal::stays_from(seps, dir, i, depth),
        name_ok(name),
        forall|k: int| 0 <= k < name.len() ==> #[trigger] name[k] != 0x5c,
        0 <= i <= dir.len(),
    ensures
        traversal::stays_from(seps, dir.push(0x2f) + name, i, depth),
    decreases dir.len() - i,
{
    let at = dir.push(0x2f) + name;
    let end = elems::seg_end(seps, dir, i);
    elems::lemma_seg_end(seps, dir, i);
    assert forall|k: int| i <= k < end implies !seps.has(#[trigger] at[k]) by {
        assert(at[k] == dir[k]);
    }
    if end < dir.len() {
        assert(at[end] == dir[end]);
    } else {
        assert(at[end] == 0x2f);
    }
    lemma_segment_end(seps, at, i, end);
    assert(at.subrange(i, end) =~= dir.subrange(i, end));
    let next = depth + traversal::level_of(dir.subrange(i, end));
    if end < dir.len() {
        lemma_child_stays_from(seps, dir, name, end + 1, next);
    } else {
        assert(at.subrange(end + 1, at.len() as int) =~= name);
        lemma_name_stays(seps, at, name, end + 1, next);
    }
}

/// An entry of a directory that does not lie above the base does not either.
proof fn lemma_child_stays(dir: Seq<u8>, name: Seq<u8>)
    requires
        traversal::stays(dir),
        name_ok(name),
        forall|k: int| 0 <= k < name.len() ==> #[trigger] name[k] != 0x5c,
    ensures
        traversal::stays(traversal::child(dir, name)),
{
    let at = traversal::child(dir, name);
    assert forall|seps: Seps| #[trigger] traversal::stays_from(seps, at, 0, 0) by {
        assert(traversal::stays_from(seps, dir, 0, 0));
        if dir.len() == 0 {
            assert(at.subrange(0, at.len() as int) =~= name);
            lemma_name_stays(seps, at, name, 0, 0);
        } else {
            lemma_child_stays_from(seps, dir, name, 0, 0);
        }
    }
}

/// The base does not lie above itself.
proof fn lemma_base_stays()
    ensures
        traversal::stays(Seq::<u8>::empty()),
{
    let root = Seq::<u8>::empty();
    assert forall|seps: Seps| #[trigger] traversal::stays_from(seps, root, 0, 0) by {
        assert(root.subrange(0, 0).len() == 0);
    }
}

/// What a tree holds lies below the directory that the tree is.
proof fn lemma_holds_below(dir: Seq<u8>, tree: SpecTree, path: Seq<u8>, sub: SpecTree)
    requires
        tree_ok(tree),
        holds(dir, tree, path, sub),
    ensures
        tree_ok(sub),
        path.len() > 0,
        dir.len() > 0 ==> prefixes::dir_above(dir, path),
        traversal::stays(dir) && (forall|k: int| 0 <= k < path.len() ==> #[trigger] path[k] != 0x5c)
            ==> traversal::stays(path),
    decreases tree,
{
    let names = tree->names;
    let subs = tree->subs;
    let i = choose|i: int|
        0 <= i < subs.len() && (traversal::child(dir, names[i]) == path && #[trigger] subs[i] == sub
            || holds(traversal::child(dir, names[i]), subs[i], path, sub));
    let name = names[i];
    let at = traversal::child(dir, name);
    assert(name_ok(name) && tree_ok(subs[i]));
    if dir.len() > 0 {
        assert(at.take(dir.len() as int) =~= dir);
        assert(at[dir.len() as int] == 0x2f);
    }
    let start = at.len() - name.len();
    if at == path && subs[i] == sub {
        assert(forall|k: int| 0 <= k < name.len() ==> #[trigger] name[k] == path[start + k]);
    } else {
        lemma_holds_below(at, subs[i], path, sub);
        assert forall|k: int| 0 <= k < at.len() implies path[k] == at[k] by {
            assert(path.take(at.len() as int)[k] == at[k]);
        }
        assert(forall|k: int| 0 <= k < name.len() ==> #[trigger] name[k] == path[start + k]);
        if dir.len() > 0 {
            assert(path.take(dir.len() as int) =~= dir);
        }
    }
    if traversal::stays(dir) && (forall|k: int| 0 <= k < path.len() ==> #[trigger] path[k] != 0x5c) {
        lemma_child_stays(dir, name);
    }
}

/// What stands in a directory of the tree stands in the tree, where nothing on
/// the way is ignored.
proof fn lemma_stands_join(
    rules: Rules,
    dir: Seq<u8>,
    tree: SpecTree,
    mid: Seq<u8>,
    sub: SpecTree,
    path: Seq<u8>,
)
    requires
        tree_ok(tree),
        holds(dir, tree, mid, sub),
        forall|n: int| #[trigger]
            traversal::on_the_way(mid, n) && n > dir.len() ==> !rules.ignores(mid.take(n)),
        path == mid || stands(rules, mid, sub, path),
    ensures
        stands(rules, dir, tree, path),
    decreases tree,
{
    let names = tree->names;
    let subs = tree->subs;
    let i = choose|i: int|
        0 <= i < subs.len() && (traversal::child(dir, names[i]) == mid && #[trigger] subs[i] == sub
            || holds(traversal::child(dir, names[i]), subs[i], mid, sub));
    let at = traversal::child(dir, names[i]);
    assert(name_ok(names[i]) && tree_ok(subs[i]));
    if at == mid && subs[i] == sub {
        assert(traversal::on_the_way(mid, mid.len() as int));
        assert(mid.take(mid.len() as int) =~= mid);
    } else {
        lemma_holds_below(at, subs[i], mid, sub);
        assert(traversal::on_the_way(mid, at.len() as int));
        lemma_stands_join(rules, at, subs[i], mid, sub, path);
    }
    assert(stands_in(rules, traversal::child(dir, names[i]), subs[i], path));
}

/// Starting at the static prefixes loses nothing: where no name holds a
/// separator and case counts, every path that stands in the tree and matches is
/// yielded.
pub proof fn law_prefixes_lose_nothing(
    rules: Rules,
    starts: Seq<Seq<u8>>,
    tree: SpecTree,
    path: Seq<u8>,
)
    requires
        rules.matcher.seps == patterns::walk_seps(),
        !rules.matcher.case_insensitive,
        prefixes::slashed(rules.matcher.seps, path),
        rules.matcher.prefixes(starts),
        tree_ok(tree),
        stands(rules, Seq::<u8>::empty(), tree, path),
        rules.matcher.matches(path),
    ensures
        walked(rules, starts, tree, path),
{
    let g = rules.matcher;
    let root = Seq::<u8>::empty();
    laws::law_matches_start_with_prefix(g, starts, path);
    let m = choose|m: int|
        0 <= m < starts.len() && prefixes::at_or_below(#[trigger] starts[m], path);
    let p = starts[m];
    if p.len() == 0 {
        assert(p =~= root);
        law_walk_finds_matches(rules, p, tree, path);
        assert(rooted_at(tree, starts[m], tree));
    } else {
        let sub = lemma_stands_from(rules, root, tree, path, p);
        laws::law_verdict_says_match(g, p);
        assert forall|k: int| 0 <= k < p.len() implies #[trigger] p[k] != 0x5c by {
            if p != path {
                assert(path.take(p.len() as int)[k] == p[k]);
            }
            assert(path[k] == p[k]);
        }
        lemma_base_stays();
        lemma_holds_below(root, tree, p, sub);
        assert(traversal::opens(rules, p));
        if p != path {
            law_walk_finds_matches(rules, p, sub, path);
            lemma_below_split(p, path);
            laws::law_no_match_is_pruned(g, p, path.skip(p.len() as int + 1));
        }
        assert(rooted_at(tree, starts[m], sub));
    }
}

/// Wherever a walk starts, all that it yields stands in the tree and matches,
/// and neither it nor a directory on the way to it is ignored.
pub proof fn law_walk_yields_matches(
    rules: Rules,
    starts: Seq<Seq<u8>>,
    tree: SpecTree,
    path: Seq<u8>,
)
    requires
        tree_ok(tree),
        walked(rules, starts, tree, path),
    ensures
        rules.matcher.matches(path),
        stands(rules, Seq::<u8>::empty(), tree, path),
        !rules.ignores(path),
{
    let root = Seq::<u8>::empty();
    let (m, sub) = choose|m: int, sub: SpecTree|
        0 <= m < starts.len() && #[trigger] rooted_at(tree, starts[m], sub) && found_from(
            rules,
            starts[m],
            sub,
            path,
        );
    let p = starts[m];
    if p.len() > 0 {
        lemma_holds_below(root, tree, p, sub);
    } else {
        assert(p =~= root);
    }
    laws::law_verdict_says_match(rules.matcher, p);
    law_walk_finds_matches(rules, p, sub, path);
    if p.len() > 0 {
        lemma_stands_join(rules, root, tree, p, sub, path);
    }
    lemma_stands_kept(rules, root, tree, path);
}

/// What stands in a tree is not ignored.
proof fn lemma_stands_kept(rules: Rules, dir: Seq<u8>, tree: SpecTree, path: Seq<u8>)
    requires
        stands(rules, dir, tree, path),
    ensures
        !rules.ignores(path),
    decreases tree,
{
    let names = tree->names;
    let subs = tree->subs;
    let i = choose|i: int|
        0 <= i < subs.len() && stands_in(rules, traversal::child(dir, names[i]), #[trigger] subs[i], path);
    let at = traversal::child(dir, names[i]);
    if path != at {
        lemma_stands_kept(rules, at, subs[i], path);
    }
}

/// The base is the boundary of a walk: what a directory that does not lie above
/// it adds does not either.
pub proof fn law_base_is_the_boundary<P, I>(
    rules: Rules,
    dir: SpecFrame<P>,
    listing: Seq<SpecListed<P, I>>,
    frame: SpecFrame<P>,
)
    requires
        traversal::stays(dir.relative),
        forall|i: int|
            0 <= i < listing.len() ==> (#[trigger] listing[i] matches SpecListed::Entry {
                name,
                ..
            } ==> name_ok(name) && forall|k: int|
                0 <= k < name.len() ==> #[trigger] name[k] != 0x5c),
        traversal::all_frames(rules, dir, listing).contains(frame),
    ensures
        traversal::stays(frame.relative),
        dir.relative.len() > 0 ==> prefixes::dir_above(dir.relative, frame.relative),
{
    law_frames_come_from_entries(rules, dir, listing, frame);
    let i = choose|i: int|
        0 <= i < listing.len() && traversal::entry_frames(
            rules,
            dir,
            #[trigger] listing[i],
        ).contains(frame);
    if let SpecListed::Entry { name, .. } = listing[i] {
        lemma_child_stays(dir.relative, name);
        let at = traversal::child(dir.relative, name);
        if dir.relative.len() > 0 {
            assert(at.take(dir.relative.len() as int) =~= dir.relative);
        }
    }
}

/// No walk starts above its base.
pub proof fn law_starts_lie_below_the_base<P, I>(
    rules: Rules,
    prefix: Seq<u8>,
    target: Target,
    place: P,
    item: I,
)
    ensures
        !traversal::stays(prefix) ==> traversal::seed_items(rules, prefix, target, item).len() == 0
            && traversal::seed_frames(rules, prefix, target, place).len() == 0,
{
}

/// The path of the item does not climb above the base. Items that tell of a
/// failure have no path.
pub open spec fn item_inside<I>(at: spec_fn(I) -> Option<Seq<u8>>, item: I) -> bool {
    at(item) matches Some(path) ==> traversal::stays(path)
}

/// Nothing that is still to be read or to be yielded lies outside the base.
pub open spec fn inside<P, I>(
    stack: Seq<SpecFrame<P>>,
    ready: Seq<I>,
    at: spec_fn(I) -> Option<Seq<u8>>,
) -> bool {
    &&& forall|k: int| 0 <= k < stack.len() ==> traversal::stays((#[trigger] stack[k]).relative)
    &&& forall|k: int| 0 <= k < ready.len() ==> item_inside(at, #[trigger] ready[k])
}

/// The entry has a name that an entry can have, without separators, and its
/// item has its path.
pub open spec fn listed_at<P, I>(
    dir: SpecFrame<P>,
    entry: SpecListed<P, I>,
    at: spec_fn(I) -> Option<Seq<u8>>,
) -> bool {
    match entry {
        SpecListed::Failed(item) => at(item) is None,
        SpecListed::Entry { name, item, .. } => {
            &&& name_ok(name)
            &&& forall|k: int| 0 <= k < name.len() ==> #[trigger] name[k] != 0x5c
            &&& at(item) == Some(traversal::child(dir.relative, name))
        },
    }
}

/// Starting at a prefix, whatever it is, leads to nothing outside the base.
pub proof fn law_starting_stays_inside<P, I>(
    rules: Rules,
    stack: Seq<SpecFrame<P>>,
    ready: Seq<I>,
    prefix: Seq<u8>,
    target: Target,
    place: P,
    item: I,
    at: spec_fn(I) -> Option<Seq<u8>>,
)
    requires
        inside(stack, ready, at),
        at(item) == Some(prefix),
    ensures
        inside(
            stack + traversal::seed_frames(rules, prefix, target, place),
            ready + traversal::seed_items(rules, prefix, target, item),
            at,
        ),
{
}

/// Reading a directory leads to nothing outside the base.
pub proof fn law_reading_stays_inside<P, I>(
    rules: Rules,
    stack: Seq<SpecFrame<P>>,
    ready: Seq<I>,
    dir: SpecFrame<P>,
    listing: Seq<SpecListed<P, I>>,
    at: spec_fn(I) -> Option<Seq<u8>>,
)
    requires
        inside(stack.push(dir), ready, at),
        forall|i: int| 0 <= i < listing.len() ==> listed_at(dir, #[trigger] listing[i], at),
    ensures
        inside(
            stack + traversal::all_frames(rules, dir, listing).reverse(),
            ready + traversal::all_items(rules, dir, listing).reverse(),
            at,
        ),
{
    let frames = traversal::all_frames(rules, dir, listing);
    let items = traversal::all_items(rules, dir, listing);
    let stack2 = stack + frames.reverse();
    let ready2 = ready + items.reverse();
    assert(traversal::stays(stack.push(dir)[stack.len() as int].relative));
    assert forall|k: int| 0 <= k < stack2.len() implies traversal::stays(
        (#[trigger] stack2[k]).relative,
    ) by {
        if k < stack.len() {
            assert(stack2[k] == stack.push(dir)[k]);
        } else {
            let m = frames.len() - 1 - (k - stack.len());
            assert(stack2[k] == frames[m]);
            assert forall|i: int| 0 <= i < listing.len() implies (
            #[trigger] listing[i] matches SpecListed::Entry { name, .. } ==> name_ok(name)
                && forall|b: int| 0 <= b < name.len() ==> #[trigger] name[b] != 0x5c) by {
                assert(listed_at(dir, listing[i], at));
            }
            law_base_is_the_boundary(rules, dir, listing, frames[m]);
        }
    }
    assert forall|k: int| 0 <= k < ready2.len() implies item_inside(at, #[trigger] ready2[k]) by {
        if k < ready.len() {
            assert(ready2[k] == ready[k]);
        } else {
            let m = items.len() - 1 - (k - ready.len());
            assert(ready2[k] == items[m]);
            law_items_come_from_entries(rules, dir, listing, items[m]);
            let i = choose|i: int|
                0 <= i < listing.len() && traversal::entry_items(
                    rules,
                    dir,
                    #[trigger] listing[i],
                ).contains(items[m]);
            assert(listed_at(dir, listing[i], at));
            if let SpecListed::Entry { name, .. } = listing[i] {
                lemma_child_stays(dir.relative, name);
            }
        }
    }
}

/// A directory that cannot be read leads to nothing outside the base.
pub proof fn law_failing_stays_inside<P, I>(
    stack: Seq<SpecFrame<P>>,
    ready: Seq<I>,
    item: I,
    at: spec_fn(I) -> Option<Seq<u8>>,
)
    requires
        inside(stack, ready, at),
        at(item) is None,
    ensures
        inside(stack, ready.push(item), at),
{
}

/// What is yielded lies inside the base, and so does what is left.
pub proof fn law_yields_lie_inside<P, I>(
    stack: Seq<SpecFrame<P>>,
    ready: Seq<I>,
    item: I,
    at: spec_fn(I) -> Option<Seq<u8>>,
)
    requires
        inside(stack, ready.push(item), at),
    ensures
        item_inside(at, item),
        inside(stack, ready, at),
{
    assert(ready.push(item)[ready.len() as int] == item);
    assert forall|k: int| 0 <= k < ready.len() implies item_inside(at, #[trigger] ready[k]) by {
        assert(ready.push(item)[k] == ready[k]);
    }
}

/// Whatever the patterns and wherever it starts, a walk of a tree in which no
/// name holds a separator yields nothing outside the base.
pub proof fn law_walk_stays_inside(
    rules: Rules,
    starts: Seq<Seq<u8>>,
    tree: SpecTree,
    path: Seq<u8>,
)
    requires
        tree_ok(tree),
        walked(rules, starts, tree, path),
        forall|k: int| 0 <= k < path.len() ==> #[trigger] path[k] != 0x5c,
    ensures
        path.len() > 0,
        traversal::stays(path),
{
    let root = Seq::<u8>::empty();
    law_walk_yields_matches(rules, starts, tree, path);
    lemma_stands_below(rules, root, tree, path);
    let sub = lemma_stands_from(rules, root, tree, path, path);
    lemma_base_stays();
    lemma_holds_below(root, tree, path, sub);
}

proof fn lemma_in_either<T>(a: Seq<T>, b: Seq<T>, x: T)
    ensures
        (a + b).contains(x) <==> a.contains(x) || b.contains(x),
{
    let all = a + b;
    if all.contains(x) {
        let k = choose|k: int| 0 <= k < all.len() && all[k] == x;
        if k < a.len() {
            assert(a[k] == x);
        } else {
            assert(b[k - a.len()] == x);
        }
    }
    if a.contains(x) {
        let k = choose|k: int| 0 <= k < a.len() && a[k] == x;
        assert(all[k] == x);
    }
    if b.contains(x) {
        let k = choose|k: int| 0 <= k < b.len() && b[k] == x;
        assert(all[a.len() + k] == x);
    }
}

/// A directory yields what its entries yield, and nothing else.
pub proof fn law_items_come_from_entries<P, I>(
    rules: Rules,
    dir: SpecFrame<P>,
    listing: Seq<SpecListed<P, I>>,
    item: I,
)
    ensures
        traversal::all_items(rules, dir, listing).contains(item) <==> exists|i: int|
            0 <= i < listing.len() && traversal::entry_items(
                rules,
                dir,
                #[trigger] listing[i],
            ).contains(item),
    decreases listing.len(),
{
    if listing.len() > 0 {
        let head = listing.drop_last();
        law_items_come_from_entries(rules, dir, head, item);
        lemma_in_either(
            traversal::all_items(rules, dir, head),
            traversal::entry_items(rules, dir, listing.last()),
            item,
        );
        assert(forall|i: int| 0 <= i < head.len() ==> #[trigger] listing[i] == head[i]);
        assert(listing[listing.len() - 1] == listing.last());
        if exists|i: int|
            0 <= i < head.len() && traversal::entry_items(
                rules,
                dir,
                #[trigger] head[i],
            ).contains(item) {
            let i = choose|i: int|
                0 <= i < head.len() && traversal::entry_items(
                    rules,
                    dir,
                    #[trigger] head[i],
                ).contains(item);
            assert(listing[i] == head[i]);
        }
    }
}

/// A directory adds the directories that its entries add, and no others.
pub proof fn law_frames_come_from_entries<P, I>(
    rules: Rules,
    dir: SpecFrame<P>,
    listing: Seq<SpecListed<P, I>>,
    frame: SpecFrame<P>,
)
    ensures
        traversal::all_frames(rules, dir, listing).contains(frame) <==> exists|i: int|
            0 <= i < listing.len() && traversal::entry_frames(
                rules,
                dir,
                #[trigger] listing[i],
            ).contains(frame),
    decreases listing.len(),
{
    if listing.len() > 0 {
        let head = listing.drop_last();
        law_frames_come_from_entries(rules, dir, head, frame);
        lemma_in_either(
            traversal::all_frames(rules, dir, head),
            traversal::entry_frames(rules, dir, listing.last()),
            frame,
        );
        assert(forall|i: int| 0 <= i < head.len() ==> #[trigger] listing[i] == head[i]);
        assert(listing[listing.len() - 1] == listing.last());
        if exists|i: int|
            0 <= i < head.len() && traversal::entry_frames(
                rules,
                dir,
                #[trigger] head[i],
            ).contains(frame) {
            let i = choose|i: int|
                0 <= i < head.len() && traversal::entry_frames(
                    rules,
                    dir,
                    #[trigger] head[i],
                ).contains(frame);
            assert(listing[i] == head[i]);
        }
    }
}

/// What reading the directory `tree` at `dir` lists. Each entry is yielded as
/// its path.
pub open spec fn listing_at(dir: Seq<u8>, tree: SpecTree) -> Seq<SpecListed<SpecTree, Seq<u8>>> {
    match tree {
        SpecTree::File => seq![],
        SpecTree::Dir { names, subs } => Seq::new(
            subs.len(),
            |i: int|
                SpecListed::Entry {
                    name: names[i],
                    kind: kind_of(subs[i]),
                    target: None,
                    place: subs[i],
                    item: traversal::child(dir, names[i]),
                },
        ),
    }
}

/// Reading one of the directories, and what is below it, yields `path`.
pub open spec fn found_below(
    rules: Rules,
    frames: Seq<SpecFrame<SpecTree>>,
    path: Seq<u8>,
) -> bool {
    exists|f: SpecFrame<SpecTree>| #[trigger]
        frames.contains(f) && found(rules, f.relative, f.place, path)
}

/// Reading a directory loses nothing and adds nothing: what was to be found in
/// it is yielded at once, or is to be found in the directories that it adds.
pub proof fn law_reading_keeps_what_is_found(
    rules: Rules,
    dir: SpecFrame<SpecTree>,
    path: Seq<u8>,
)
    ensures
        found(rules, dir.relative, dir.place, path) <==> traversal::all_items(
            rules,
            dir,
            listing_at(dir.relative, dir.place),
        ).contains(path) || found_below(
            rules,
            traversal::all_frames(rules, dir, listing_at(dir.relative, dir.place)),
            path,
        ),
{
    let listed = listing_at(dir.relative, dir.place);
    let items = traversal::all_items(rules, dir, listed);
    let frames = traversal::all_frames(rules, dir, listed);
    law_items_come_from_entries(rules, dir, listed, path);
    if let SpecTree::Dir { names, subs } = dir.place {
        if found(rules, dir.relative, dir.place, path) {
            let i = choose|i: int|
                0 <= i < subs.len() && found_in(
                    rules,
                    traversal::child(dir.relative, names[i]),
                    #[trigger] subs[i],
                    path,
                );
            let at = traversal::child(dir.relative, names[i]);
            let kind = kind_of(subs[i]);
            if rules.emits(at, kind) && path == at {
                assert(traversal::entry_items(rules, dir, listed[i])[0] == path);
            } else {
                let f = SpecFrame {
                    place: subs[i],
                    relative: at,
                    depth: dir.depth + 1,
                    ancestors: dir.ancestors,
                };
                law_frames_come_from_entries(rules, dir, listed, f);
                assert(traversal::entry_frames(rules, dir, listed[i])[0] == f);
                assert(frames.contains(f));
            }
        }
        if items.contains(path) {
            let i = choose|i: int|
                0 <= i < listed.len() && traversal::entry_items(
                    rules,
                    dir,
                    #[trigger] listed[i],
                ).contains(path);
            assert(found_in(rules, traversal::child(dir.relative, names[i]), subs[i], path));
        }
        if found_below(rules, frames, path) {
            let f = choose|f: SpecFrame<SpecTree>| #[trigger]
                frames.contains(f) && found(rules, f.relative, f.place, path);
            law_frames_come_from_entries(rules, dir, listed, f);
            let i = choose|i: int|
                0 <= i < listed.len() && traversal::entry_frames(
                    rules,
                    dir,
                    #[trigger] listed[i],
                ).contains(f);
            assert(found_in(rules, traversal::child(dir.relative, names[i]), subs[i], path));
        }
    }
}

/// No directory is entered twice by way of links on one way down: the targets
/// of the links on the way to a directory differ, and this is kept.
pub proof fn law_links_are_taken_once<P, I>(
    rules: Rules,
    dir: SpecFrame<P>,
    listing: Seq<SpecListed<P, I>>,
    frame: SpecFrame<P>,
)
    requires
        dir.ancestors.no_duplicates(),
        traversal::all_frames(rules, dir, listing).contains(frame),
    ensures
        frame.ancestors.no_duplicates(),
{
    law_frames_come_from_entries(rules, dir, listing, frame);
    let i = choose|i: int|
        0 <= i < listing.len() && traversal::entry_frames(
            rules,
            dir,
            #[trigger] listing[i],
        ).contains(frame);
    if let SpecListed::Entry { kind, target, .. } = listing[i] {
        assert(traversal::chain(dir.ancestors, kind, target) == Some(frame.ancestors));
    }
}

/// The depth of a directory is the number of names in its path.
pub open spec fn levels(path: Seq<u8>) -> int {
    if path.len() == 0 {
        0
    } else {
        traversal::prefix_levels(path)
    }
}

/// The depths that a walk gives out count the names in a path, and this is kept
/// from a directory to those that it adds.
pub proof fn law_depth_counts_names<P, I>(
    rules: Rules,
    dir: SpecFrame<P>,
    listing: Seq<SpecListed<P, I>>,
    frame: SpecFrame<P>,
)
    requires
        dir.depth == levels(dir.relative),
        forall|i: int|
            0 <= i < listing.len() ==> (#[trigger] listing[i] matches SpecListed::Entry {
                name,
                ..
            } ==> name_ok(name)),
        traversal::all_frames(rules, dir, listing).contains(frame),
    ensures
        frame.depth == levels(frame.relative),
{
    law_frames_come_from_entries(rules, dir, listing, frame);
    let i = choose|i: int|
        0 <= i < listing.len() && traversal::entry_frames(
            rules,
            dir,
            #[trigger] listing[i],
        ).contains(frame);
    if let SpecListed::Entry { name, .. } = listing[i] {
        lemma_no_slashes(name);
        if dir.relative.len() > 0 {
            let front = dir.relative.push(0x2f);
            lemma_slashes_add(front, name);
            assert(front.drop_last() =~= dir.relative);
        }
    }
}

proof fn lemma_no_slashes(name: Seq<u8>)
    requires
        forall|k: int| 0 <= k < name.len() ==> #[trigger] name[k] != 0x2f,
    ensures
        traversal::slashes(name) == 0,
    decreases name.len(),
{
    if name.len() > 0 {
        assert(name[name.len() - 1] != 0x2f);
        assert forall|k: int| 0 <= k < name.drop_last().len() implies #[trigger] name.drop_last()[k]
            != 0x2f by {
            assert(name[k] != 0x2f);
        }
        lemma_no_slashes(name.drop_last());
    }
}

proof fn lemma_slashes_add(a: Seq<u8>, b: Seq<u8>)
    ensures
        traversal::slashes(a + b) == traversal::slashes(a) + traversal::slashes(b),
    decreases b.len(),
{
    if b.len() == 0 {
        assert(a + b =~= a);
    } else {
        assert((a + b).drop_last() =~= a + b.drop_last());
        lemma_slashes_add(a, b.drop_last());
    }
}

} // verus!
