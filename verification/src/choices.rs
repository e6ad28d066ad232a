//! A brace is the choice between its branches, also where a branch starts or
//! ends with `**`.
//!
//! Such a brace takes the slashes next to it into its branches before the `**`
//! are folded. The proofs follow the marks: what stands before the brace, each
//! branch with the slashes that it takes in, and what stands behind.

use crate::ast::SpecNode;
use crate::cuts;
use crate::engine::lang::{self, Cx};
use crate::engine::ops::distribute;
use crate::engine::ops::folding;
use crate::engine::ops::lower;
use crate::engine::ops::SpecOp;
use crate::factor;
use crate::glob;
use crate::meaning::{self, Manner};
use crate::notation::{self, Mark};
use crate::options::CompileOptions;
use crate::parser;
use crate::seps::Seps;
use crate::unions;
use vstd::prelude::*;

verus! {

/// No brace is among the marks.
pub open spec fn flat(ms: Seq<Mark>) -> bool {
    forall|k: int|
        0 <= k < ms.len() ==> !(#[trigger] ms[k] is Either) && meaning::shallow_mark(ms[k], true)
}

/// No brace among the marks holds a `**`.
pub open spec fn mild(ms: Seq<Mark>) -> bool {
    meaning::shallow(ms, true)
}

/// The same of each branch: one may hold a `**` itself.
pub open spec fn all_mild(bs: Seq<Seq<Mark>>) -> bool {
    forall|i: int| 0 <= i < bs.len() ==> mild(#[trigger] bs[i])
}

/// The marks with a brace between them.
pub open spec fn around(a: Seq<Mark>, bs: Seq<Seq<Mark>>, z: Seq<Mark>) -> Seq<Mark> {
    a + seq![Mark::Either(bs)] + z
}

/// The marks with a branch between them.
pub open spec fn through(a: Seq<Mark>, b: Seq<Mark>, z: Seq<Mark>) -> Seq<Mark> {
    a + b + z
}

// Runs of marks.

proof fn lemma_run_concat(a: Seq<Mark>, b: Seq<Mark>, nodes: Seq<SpecNode>, lit: Seq<u8>)
    ensures
        notation::run(a + b, nodes, lit) == notation::run(
            b,
            notation::run(a, nodes, lit).0,
            notation::run(a, nodes, lit).1,
        ),
    decreases a.len(),
{
    if a.len() == 0 {
        assert(a + b =~= b);
    } else {
        let rest = a.drop_first();
        assert((a + b).drop_first() =~= rest + b);
        assert((a + b)[0] == a[0]);
        match a[0] {
            Mark::Byte(x) => lemma_run_concat(rest, b, nodes, lit.push(x)),
            Mark::Escaped(x) => lemma_run_concat(rest, b, nodes, lit.push(x)),
            m => lemma_run_concat(
                rest,
                b,
                parser::flushed(nodes, lit).push(notation::node_of(m)),
                seq![],
            ),
        }
    }
}

proof fn lemma_run_behind(ms: Seq<Mark>, pre: Seq<SpecNode>, nodes: Seq<SpecNode>, lit: Seq<u8>)
    ensures
        notation::run(ms, pre + nodes, lit).0 == pre + notation::run(ms, nodes, lit).0,
        notation::run(ms, pre + nodes, lit).1 == notation::run(ms, nodes, lit).1,
    decreases ms.len(),
{
    if ms.len() > 0 {
        let rest = ms.drop_first();
        match ms[0] {
            Mark::Byte(x) => lemma_run_behind(rest, pre, nodes, lit.push(x)),
            Mark::Escaped(x) => lemma_run_behind(rest, pre, nodes, lit.push(x)),
            m => {
                let n = notation::node_of(m);
                let now = parser::flushed(nodes, lit).push(n);
                lemma_run_behind(rest, pre, now, seq![]);
                assert(parser::flushed(pre + nodes, lit).push(n) =~= pre + now);
            },
        }
    }
}

pub proof fn lemma_nodes_behind(ms: Seq<Mark>, pre: Seq<SpecNode>, lit: Seq<u8>)
    ensures
        notation::nodes_of(ms, pre, lit) == pre + notation::nodes_of(ms, seq![], lit),
{
    let none = Seq::<SpecNode>::empty();
    lemma_run_behind(ms, pre, none, lit);
    assert(pre + none =~= pre);
    let (a, b) = notation::run(ms, none, lit);
    assert(parser::flushed(pre + a, b) =~= pre + parser::flushed(a, b));
}

/// The nodes of marks on their own.
pub open spec fn alone(ms: Seq<Mark>) -> Seq<SpecNode> {
    notation::nodes_of(ms, seq![], seq![])
}

/// A mark that is no byte parts the nodes.
proof fn lemma_nodes_around(a: Seq<Mark>, m: Mark, z: Seq<Mark>)
    requires
        !(m is Byte),
        !(m is Escaped),
    ensures
        alone(a + seq![m] + z) == alone(a) + seq![notation::node_of(m)] + alone(z),
{
    let tail = seq![m] + z;
    assert(a + seq![m] + z =~= a + tail);
    lemma_run_concat(a, tail, seq![], seq![]);
    let (xs, lit) = notation::run(a, seq![], seq![]);
    let now = parser::flushed(xs, lit).push(notation::node_of(m));
    assert(tail.drop_first() =~= z);
    assert(tail[0] == m);
    assert(notation::run(tail, xs, lit) == notation::run(z, now, seq![]));
    lemma_nodes_behind(z, now, seq![]);
    assert(now =~= alone(a) + seq![notation::node_of(m)]);
}

proof fn lemma_nodes_none()
    ensures
        alone(seq![]) == Seq::<SpecNode>::empty(),
{
}

proof fn lemma_literal_first(ms: Seq<Mark>, lit: Seq<u8>)
    requires
        lit.len() > 0,
    ensures
        notation::nodes_of(ms, seq![], lit).len() > 0,
        notation::nodes_of(ms, seq![], lit)[0] is Literal,
    decreases ms.len(),
{
    if ms.len() > 0 {
        let rest = ms.drop_first();
        match ms[0] {
            Mark::Byte(x) => lemma_literal_first(rest, lit.push(x)),
            Mark::Escaped(x) => lemma_literal_first(rest, lit.push(x)),
            m => {
                let now = parser::flushed(seq![], lit).push(notation::node_of(m));
                lemma_nodes_behind(rest, now, seq![]);
                assert(now[0] is Literal);
            },
        }
    }
}

/// What the nodes start and end with.
proof fn lemma_nodes_ends(ms: Seq<Mark>)
    ensures
        alone(ms).len() > 0 <==> ms.len() > 0,
        ms.len() > 0 ==> (alone(ms)[0] is Globstar <==> ms[0] is Deep),
        ms.len() > 0 ==> (alone(ms).last() is Globstar <==> ms.last() is Deep),
        ms.len() > 0 ==> (alone(ms)[0] is Separator <==> ms[0] is Slash),
        ms.len() > 0 ==> (alone(ms).last() is Separator <==> ms.last() is Slash),
{
    if ms.len() == 0 {
        assert(ms =~= seq![]);
    } else {
        let none = Seq::<Mark>::empty();
        let first = ms[0];
        let rest = ms.drop_first();
        lemma_nodes_none();
        match first {
            Mark::Byte(x) => lemma_literal_first(rest, seq![].push(x)),
            Mark::Escaped(x) => lemma_literal_first(rest, seq![].push(x)),
            _ => {
                lemma_nodes_around(none, first, rest);
                assert(none + seq![first] + rest =~= ms);
            },
        }
        let last = ms.last();
        let head = ms.drop_last();
        match last {
            Mark::Byte(x) => lemma_byte_last(head, last, x),
            Mark::Escaped(x) => lemma_byte_last(head, last, x),
            _ => {
                lemma_nodes_around(head, last, none);
                assert(head + seq![last] + none =~= ms);
            },
        }
        assert(head.push(last) =~= ms);
    }
}

proof fn lemma_byte_last(head: Seq<Mark>, m: Mark, x: u8)
    requires
        m == Mark::Byte(x) || m == Mark::Escaped(x),
    ensures
        alone(head.push(m)).last() is Literal,
{
    let one = seq![m];
    assert(head.push(m) =~= head + one);
    lemma_run_concat(head, one, seq![], seq![]);
    let (xs, lit) = notation::run(head, seq![], seq![]);
    assert(one.drop_first() =~= seq![]);
    assert(notation::run(one, xs, lit) == notation::run(one.drop_first(), xs, lit.push(x)));
}

/// Moving separators leaves the nodes alone: no sequence is among them, and no
/// brace with a `**` at an edge.
pub open spec fn leafy(xs: Seq<SpecNode>) -> bool {
    forall|k: int| 0 <= k < xs.len() ==> idle(#[trigger] xs[k])
}

pub open spec fn idle(n: SpecNode) -> bool {
    match n {
        SpecNode::Concat(_) => false,
        SpecNode::Brace(bs) => !distribute::some_leads(bs) && !distribute::some_trails(bs)
            && distribute::spread(n) == n,
        _ => true,
    }
}

proof fn lemma_idle(m: Mark)
    requires
        meaning::shallow_mark(m, true),
    ensures
        idle(notation::node_of(m)),
{
    if let Mark::Either(bs) = m {
        let n = notation::node_of(m);
        assert(meaning::shallow_mark(m, false));
        meaning::lemma_node_calm(m, false);
        unions::lemma_leads_mentions(n);
        unions::lemma_no_mention_calm(n);
        unions::lemma_calm_uncrowded(n);
        unions::lemma_spread_idle(n);
    }
}

proof fn lemma_nodes_leafy(ms: Seq<Mark>, nodes: Seq<SpecNode>, lit: Seq<u8>)
    requires
        mild(ms),
        leafy(nodes),
    ensures
        leafy(notation::nodes_of(ms, nodes, lit)),
    decreases ms.len(),
{
    let last = parser::flushed(nodes, lit);
    assert forall|k: int| 0 <= k < last.len() implies idle(#[trigger] last[k]) by {
        if k < nodes.len() {
            assert(last[k] == nodes[k]);
        }
    }
    if ms.len() > 0 {
        let rest = ms.drop_first();
        assert(mild(rest)) by {
            assert forall|k: int| 0 <= k < rest.len() implies meaning::shallow_mark(
                #[trigger] rest[k],
                true,
            ) by {
                assert(rest[k] == ms[k + 1]);
            }
        }
        match ms[0] {
            Mark::Byte(x) => lemma_nodes_leafy(rest, nodes, lit.push(x)),
            Mark::Escaped(x) => lemma_nodes_leafy(rest, nodes, lit.push(x)),
            m => {
                assert(meaning::shallow_mark(ms[0], true));
                lemma_idle(m);
                let all = parser::flushed(nodes, lit);
                let now = all.push(notation::node_of(m));
                assert(leafy(now)) by {
                    assert forall|k: int| 0 <= k < now.len() implies idle(#[trigger] now[k]) by {
                        if k < nodes.len() {
                            assert(now[k] == nodes[k]);
                        }
                    }
                }
                lemma_nodes_leafy(rest, now, seq![]);
            },
        }
    }
}

/// Moving separators passes over such nodes.
proof fn lemma_pass_leafy(out: Seq<SpecNode>, ls: Seq<SpecNode>, rest: Seq<SpecNode>)
    requires
        leafy(ls),
    ensures
        distribute::spread_from(out, ls + rest) == distribute::spread_from(out + ls, rest),
    decreases ls.len(),
{
    if ls.len() == 0 {
        assert(ls + rest =~= rest);
        assert(out + ls =~= out);
    } else {
        let all = ls + rest;
        let more = ls.drop_first();
        assert(all[0] == ls[0]);
        assert(all.drop_first() =~= more + rest);
        assert(leafy(more)) by {
            assert forall|k: int| 0 <= k < more.len() implies idle(#[trigger] more[k]) by {
                assert(more[k] == ls[k + 1]);
            }
        }
        assert(idle(ls[0]));
        assert(distribute::spread(ls[0]) == ls[0]);
        lemma_pass_leafy(out.push(ls[0]), more, rest);
        assert(out.push(ls[0]) + more =~= out + ls);
    }
}

proof fn lemma_spread_leafy(xs: Seq<SpecNode>)
    requires
        leafy(xs),
    ensures
        distribute::spread_from(seq![], xs) == xs,
{
    let none = Seq::<SpecNode>::empty();
    lemma_pass_leafy(none, xs, none);
    assert(xs + none =~= xs);
    assert(none + xs =~= xs);
}

// Branches.

/// A slash where `there` holds.
pub open spec fn slash_if(there: bool) -> Seq<Mark> {
    if there {
        seq![Mark::Slash]
    } else {
        seq![]
    }
}

/// The branch with the slashes that it takes in.
pub open spec fn taken(b: Seq<Mark>, before: bool, after: bool) -> Seq<Mark> {
    slash_if(before) + b + slash_if(after)
}

pub open spec fn all_taken(bs: Seq<Seq<Mark>>, before: bool, after: bool) -> Seq<Seq<Mark>> {
    Seq::new(bs.len(), |i: int| taken(bs[i], before, after))
}

/// Some branch starts with `**`.
pub open spec fn some_first(bs: Seq<Seq<Mark>>) -> bool {
    exists|i: int| 0 <= i < bs.len() && (#[trigger] bs[i]).len() > 0 && bs[i][0] is Deep
}

/// Some branch ends with `**`.
pub open spec fn some_last(bs: Seq<Seq<Mark>>) -> bool {
    exists|i: int| 0 <= i < bs.len() && (#[trigger] bs[i]).len() > 0 && bs[i].last() is Deep
}

proof fn lemma_opened(b: Seq<Mark>)
    requires
        mild(b),
    ensures
        distribute::opened(notation::tree(b)) == alone(b),
        distribute::leads(notation::tree(b)) == (b.len() > 0 && b[0] is Deep),
        distribute::trails(notation::tree(b)) == (b.len() > 0 && b.last() is Deep),
        distribute::spread(notation::tree(b)) == notation::tree(b),
{
    let xs = alone(b);
    lemma_nodes_leafy(b, seq![], seq![]);
    lemma_nodes_ends(b);
    reveal_with_fuel(distribute::leads, 2);
    reveal_with_fuel(distribute::trails, 2);
    lemma_spread_leafy(xs);
    if xs.len() == 1 {
        assert(idle(xs[0]));
        assert(xs =~= seq![xs[0]]);
        assert(xs.last() == xs[0]);
    } else if xs.len() > 1 {
        assert(idle(xs[0]));
        assert(idle(xs[xs.len() - 1]));
    }
}

proof fn lemma_some_ends(bs: Seq<Seq<Mark>>)
    requires
        all_mild(bs),
    ensures
        distribute::some_leads(notation::trees(bs)) == some_first(bs),
        distribute::some_trails(notation::trees(bs)) == some_last(bs),
{
    let ts = notation::trees(bs);
    assert forall|i: int| 0 <= i < bs.len() implies distribute::leads(#[trigger] ts[i]) == (
    bs[i].len() > 0 && bs[i][0] is Deep) && distribute::trails(ts[i]) == (bs[i].len() > 0
        && bs[i].last() is Deep) by {
        assert(mild(bs[i]));
        lemma_opened(bs[i]);
    }
    if some_first(bs) {
        let i = choose|i: int|
            0 <= i < bs.len() && (#[trigger] bs[i]).len() > 0 && bs[i][0] is Deep;
        assert(distribute::leads(ts[i]));
    }
    if some_last(bs) {
        let i = choose|i: int|
            0 <= i < bs.len() && (#[trigger] bs[i]).len() > 0 && bs[i].last() is Deep;
        assert(distribute::trails(ts[i]));
    }
    if distribute::some_leads(ts) {
        let i = choose|i: int| 0 <= i < ts.len() && distribute::leads(#[trigger] ts[i]);
        assert(bs[i].len() > 0);
    }
    if distribute::some_trails(ts) {
        let i = choose|i: int| 0 <= i < ts.len() && distribute::trails(#[trigger] ts[i]);
        assert(bs[i].len() > 0);
    }
}

proof fn lemma_taken_nodes(b: Seq<Mark>, before: bool, after: bool)
    ensures
        alone(taken(b, before, after)) == distribute::sep_if(before) + alone(b)
            + distribute::sep_if(after),
{
    let none = Seq::<Mark>::empty();
    let front = slash_if(before) + b;
    lemma_nodes_none();
    if before {
        lemma_nodes_around(none, Mark::Slash, b);
        assert(none + seq![Mark::Slash] + b =~= front);
        assert(alone(front) =~= distribute::sep_if(before) + alone(b));
    } else {
        assert(front =~= b);
        assert(alone(front) =~= distribute::sep_if(before) + alone(b));
    }
    if after {
        lemma_nodes_around(front, Mark::Slash, none);
        assert(front + seq![Mark::Slash] + none =~= taken(b, before, after));
        assert(alone(taken(b, before, after)) =~= alone(front) + distribute::sep_if(after));
    } else {
        assert(taken(b, before, after) =~= front);
        assert(alone(taken(b, before, after)) =~= alone(front) + distribute::sep_if(after));
    }
}

proof fn lemma_taken_mild(b: Seq<Mark>, before: bool, after: bool)
    requires
        mild(b),
    ensures
        mild(taken(b, before, after)),
{
    let t = taken(b, before, after);
    let n = slash_if(before).len() as int;
    assert forall|k: int| 0 <= k < t.len() implies meaning::shallow_mark(#[trigger] t[k], true) by {
        if n <= k < n + b.len() {
            assert(t[k] == b[k - n]);
        }
    }
}

/// The branches of the brace once separators have been moved.
pub open spec fn moved(bs: Seq<Seq<Mark>>, before: bool, after: bool) -> Seq<SpecNode> {
    if before || after {
        distribute::spread_branches(notation::trees(bs), before, after)
    } else {
        distribute::spread_all(notation::trees(bs))
    }
}

/// They have the programs of the branches with the slashes that they take in.
proof fn lemma_moved_ops(bs: Seq<Seq<Mark>>, before: bool, after: bool, ci: bool)
    requires
        all_mild(bs),
    ensures
        lower::folded_branches(moved(bs, before, after), ci) == meaning::branches_of(
            all_taken(bs, before, after),
            ci,
        ),
{
    let ts = notation::trees(bs);
    let ns = moved(bs, before, after);
    cuts::lemma_spread_branches_index(ts, before, after);
    unions::lemma_spread_all_index(ts);
    unions::lemma_folded_branches(ns, ci);
    assert forall|i: int| 0 <= i < bs.len() implies lower::raw(#[trigger] ns[i], ci) == lower::raw(
        notation::tree(taken(bs[i], before, after)),
        ci,
    ) by {
        let b = bs[i];
        let t = taken(b, before, after);
        assert(mild(b));
        lemma_opened(b);
        lemma_taken_nodes(b, before, after);
        lemma_taken_mild(b, before, after);
        lemma_nodes_leafy(t, seq![], seq![]);
        lemma_spread_leafy(alone(t));
        assert(ts[i] == notation::tree(b));
        if before || after {
            assert(distribute::framed(ts[i], before, after) == alone(t));
            assert(ns[i] == SpecNode::Concat(alone(t)));
            if alone(t).len() == 1 {
                unions::lemma_raw_one(alone(t)[0], ci);
                assert(alone(t) =~= seq![alone(t)[0]]);
            }
        } else {
            assert(t =~= b);
        }
    }
    assert(lower::folded_branches(ns, ci) =~= meaning::branches_of(
        all_taken(bs, before, after),
        ci,
    ));
}

// The program.

/// The brace takes in the slash before it.
pub open spec fn takes_first(a: Seq<Mark>, bs: Seq<Seq<Mark>>) -> bool {
    a.len() > 0 && a.last() is Slash && !(a.len() > 1 && a[a.len() - 2] is Deep) && some_first(bs)
}

/// The brace takes in the slash behind it.
pub open spec fn takes_last(bs: Seq<Seq<Mark>>, z: Seq<Mark>) -> bool {
    z.len() > 0 && z[0] is Slash && some_last(bs)
}

/// What is left before the brace.
pub open spec fn fore(a: Seq<Mark>, bs: Seq<Seq<Mark>>) -> Seq<Mark> {
    if takes_first(a, bs) {
        a.drop_last()
    } else {
        a
    }
}

/// What is left behind the brace.
pub open spec fn aft(bs: Seq<Seq<Mark>>, z: Seq<Mark>) -> Seq<Mark> {
    if takes_last(bs, z) {
        z.drop_first()
    } else {
        z
    }
}

/// The branches with the slashes that they take in.
pub open spec fn inner(a: Seq<Mark>, bs: Seq<Seq<Mark>>, z: Seq<Mark>) -> Seq<Seq<Mark>> {
    all_taken(bs, takes_first(a, bs), takes_last(bs, z))
}

proof fn lemma_mild_part(ms: Seq<Mark>, n: int, m: int)
    requires
        mild(ms),
        0 <= n <= m <= ms.len(),
    ensures
        mild(ms.subrange(n, m)),
{
    let part = ms.subrange(n, m);
    assert forall|k: int| 0 <= k < part.len() implies meaning::shallow_mark(#[trigger] part[k], true) by {
        assert(part[k] == ms[k + n]);
    }
}

proof fn lemma_edges(a: Seq<Mark>, bs: Seq<Seq<Mark>>, z: Seq<Mark>)
    requires
        mild(a),
        mild(z),
        all_mild(bs),
    ensures
        mild(fore(a, bs)),
        mild(aft(bs, z)),
        distribute::takes_before(alone(a), notation::trees(bs)) == takes_first(a, bs),
        distribute::takes_after(notation::trees(bs), alone(z)) == takes_last(bs, z),
        takes_first(a, bs) ==> alone(a).drop_last() == alone(fore(a, bs)),
        takes_last(bs, z) ==> alone(z).drop_first() == alone(aft(bs, z)),
{
    let none = Seq::<Mark>::empty();
    lemma_some_ends(bs);
    lemma_nodes_ends(a);
    lemma_nodes_ends(z);
    lemma_nodes_none();
    if a.len() > 0 {
        let less = a.drop_last();
        lemma_mild_part(a, 0, a.len() - 1);
        assert(less =~= a.subrange(0, a.len() - 1));
        if a.last() is Slash {
            lemma_nodes_around(less, Mark::Slash, none);
            assert(less + seq![Mark::Slash] + none =~= a);
            assert(alone(a).drop_last() =~= alone(less));
            lemma_nodes_ends(less);
            if less.len() > 0 {
                assert(alone(a)[alone(a).len() - 2] == alone(less).last());
                assert(less.last() == a[a.len() - 2]);
            }
        }
    }
    if z.len() > 0 {
        let less = z.drop_first();
        lemma_mild_part(z, 1, z.len() as int);
        assert(less =~= z.subrange(1, z.len() as int));
        if z[0] is Slash {
            lemma_nodes_around(none, Mark::Slash, less);
            assert(none + seq![Mark::Slash] + less =~= z);
            assert(alone(z).drop_first() =~= alone(less));
        }
    }
}

proof fn lemma_raw_around(x: Seq<SpecNode>, n: SpecNode, y: Seq<SpecNode>, ci: bool)
    ensures
        lower::raw_all(x + seq![n] + y, ci) == lower::raw_all(x, ci) + lower::raw(n, ci)
            + lower::raw_all(y, ci),
{
    unions::lemma_raw_concat(x + seq![n], y, ci);
    unions::lemma_raw_concat(x, seq![n], ci);
    unions::lemma_raw_one(n, ci);
}

proof fn lemma_raw_tree(ms: Seq<Mark>, ci: bool)
    ensures
        lower::raw(notation::tree(ms), ci) == lower::raw_all(alone(ms), ci),
{
    let xs = alone(ms);
    if xs.len() == 1 {
        unions::lemma_raw_one(xs[0], ci);
        assert(xs =~= seq![xs[0]]);
    }
}

/// The program of marks around a brace is that of the marks which are left
/// around the branches with the slashes that they take in.
#[verifier::rlimit(40)]
proof fn lemma_lowered_around(a: Seq<Mark>, bs: Seq<Seq<Mark>>, z: Seq<Mark>, ci: bool)
    requires
        mild(a),
        mild(z),
        all_mild(bs),
    ensures
        lower::lowered(notation::tree(around(a, bs, z)), ci) == lower::lead(
            lower::fold(
                lower::append_all(
                    seq![],
                    meaning::ops_of(around(fore(a, bs), inner(a, bs, z), aft(bs, z)), ci),
                ),
            ),
        ),
{
    let before = takes_first(a, bs);
    let after = takes_last(bs, z);
    let f = fore(a, bs);
    let e = aft(bs, z);
    let ins = inner(a, bs, z);
    let none = Seq::<SpecNode>::empty();
    let brace = SpecNode::Brace(notation::trees(bs));
    let xa = alone(a);
    let xz = alone(z);
    lemma_nodes_around(a, Mark::Either(bs), z);
    assert(notation::node_of(Mark::Either(bs)) == brace);
    let xs = xa + seq![brace] + xz;
    cuts::lemma_lowered_spread(notation::tree(around(a, bs, z)), ci);
    assert(notation::tree(around(a, bs, z)) == factor::joined(xs));
    cuts::lemma_raw_spread_joined(xs, ci);
    lemma_nodes_leafy(a, seq![], seq![]);
    lemma_nodes_leafy(z, seq![], seq![]);
    lemma_edges(a, bs, z);
    let rest = seq![brace] + xz;
    assert(xs =~= xa + rest);
    lemma_pass_leafy(none, xa, rest);
    assert(none + xa =~= xa);
    assert(rest[0] == brace);
    assert(rest.drop_first() =~= xz);
    let put = SpecNode::Brace(moved(bs, before, after));
    if !before && !after {
        assert(distribute::spread(brace) == put);
    }
    let xf = alone(f);
    let xe = alone(e);
    assert(distribute::spread_from(xa, rest) == distribute::spread_from(xf.push(put), xe));
    lemma_nodes_leafy(e, seq![], seq![]);
    lemma_pass_leafy(xf.push(put), xe, none);
    assert(xe + none =~= xe);
    let all = xf + seq![put] + xe;
    assert(xf.push(put) + xe =~= all);
    assert(distribute::spread_from(none, xs) == all);
    lemma_raw_around(xf, put, xe, ci);
    lemma_moved_ops(bs, before, after, ci);
    let m = Mark::Either(ins);
    meaning::lemma_either_op(ins, ci);
    meaning::lemma_raw_node(m, ci);
    assert(lower::raw(put, ci) == lower::raw(notation::node_of(m), ci));
    let other = around(f, ins, e);
    lemma_nodes_around(f, m, e);
    lemma_raw_around(xf, notation::node_of(m), xe, ci);
    lemma_raw_tree(other, ci);
    meaning::lemma_merged_tree(other, ci);
}

// The choice.

/// With any branch written out in place of the brace, each `**` stands between
/// slashes or at an end, and follows no other.
pub open spec fn each_apart(a: Seq<Mark>, bs: Seq<Seq<Mark>>, z: Seq<Mark>) -> bool {
    forall|i: int| 0 <= i < bs.len() ==> meaning::apart(through(a, #[trigger] bs[i], z))
}

proof fn lemma_taken_through(a: Seq<Mark>, bs: Seq<Seq<Mark>>, z: Seq<Mark>, i: int)
    requires
        0 <= i < bs.len(),
    ensures
        through(a, bs[i], z) == fore(a, bs) + inner(a, bs, z)[i] + aft(bs, z),
{
    assert(through(a, bs[i], z) =~= fore(a, bs) + inner(a, bs, z)[i] + aft(bs, z));
}

proof fn lemma_through_mild(a: Seq<Mark>, b: Seq<Mark>, z: Seq<Mark>)
    requires
        mild(a),
        mild(b),
        mild(z),
    ensures
        mild(through(a, b, z)),
{
    let w = through(a, b, z);
    assert forall|k: int| 0 <= k < w.len() implies meaning::shallow_mark(#[trigger] w[k], true) by {
        if k < a.len() {
            assert(w[k] == a[k]);
        } else if k < a.len() + b.len() {
            assert(w[k] == b[k - a.len()]);
        } else {
            assert(w[k] == z[k - a.len() - b.len()]);
        }
    }
}

/// A slash next to the brace is taken in where a branch has `**` there.
proof fn lemma_takes_all(a: Seq<Mark>, bs: Seq<Seq<Mark>>, z: Seq<Mark>)
    requires
        mild(a),
        all_mild(bs),
        mild(z),
        each_apart(a, bs, z),
    ensures
        some_first(bs) && a.len() > 0 ==> takes_first(a, bs) || a.last() is Either,
        some_last(bs) && z.len() > 0 ==> takes_last(bs, z) && !(z.len() > 1 && z[1] is Deep),
{
    if some_first(bs) && a.len() > 0 {
        let j = choose|j: int|
            0 <= j < bs.len() && (#[trigger] bs[j]).len() > 0 && bs[j][0] is Deep;
        let v = through(a, bs[j], z);
        assert(meaning::apart(v));
        assert(v[a.len() as int] == bs[j][0]);
        assert(meaning::apart_at(v, a.len() as int));
        assert(v[a.len() - 1] == a.last());
        if a.len() > 1 {
            assert(v[a.len() - 2] == a[a.len() - 2]);
            assert(meaning::apart_at(v, a.len() - 2));
        }
    }
    if some_last(bs) && z.len() > 0 {
        let j = choose|j: int|
            0 <= j < bs.len() && (#[trigger] bs[j]).len() > 0 && bs[j].last() is Deep;
        let v = through(a, bs[j], z);
        let n: int = a.len() as int + bs[j].len();
        assert(meaning::apart(v));
        assert(v[n - 1] == bs[j].last());
        assert(meaning::apart_at(v, n - 1));
        assert(v[n] == z[0]);
        if z.len() > 1 {
            assert(v[n + 1] == z[1]);
        }
    }
}

/// A cut that parts no `**` from its slashes.
pub open spec fn parts(a: Seq<Mark>, b: Seq<Mark>) -> bool {
    a.len() > 0 && b.len() > 0 ==> !(a.last() is Deep && b[0] is Slash) && !(a.last() is Slash
        && b[0] is Deep)
}

/// How a branch with the slashes that it takes in meets what is left around it.
proof fn lemma_taken_parts(a: Seq<Mark>, bs: Seq<Seq<Mark>>, z: Seq<Mark>, i: int)
    requires
        mild(a),
        all_mild(bs),
        mild(z),
        0 <= i < bs.len(),
        each_apart(a, bs, z),
        a.len() > 0 ==> !(a.last() is Deep),
        z.len() > 0 ==> !(z[0] is Deep),
    ensures
        parts(fore(a, bs), inner(a, bs, z)[i]),
        parts(inner(a, bs, z)[i], aft(bs, z)),
        parts(fore(a, bs), aft(bs, z)),
        aft(bs, z).len() > 0 ==> !(aft(bs, z)[0] is Deep),
{
    let f = fore(a, bs);
    let e = aft(bs, z);
    let b = bs[i];
    let t = inner(a, bs, z)[i];
    let before = takes_first(a, bs);
    let after = takes_last(bs, z);
    lemma_takes_all(a, bs, z);
    assert(t == taken(b, before, after));
    if e.len() > 0 && after {
        assert(e[0] == z[1]);
        assert(some_last(bs));
    }
    assert(f.len() > 0 ==> !(f.last() is Deep)) by {
        if f.len() > 0 && before {
            assert(f.last() == a[a.len() - 2]);
        }
    }
    if f.len() > 0 && t.len() > 0 && t[0] is Deep {
        if before {
            assert(t[0] is Slash);
        } else if b.len() > 0 {
            assert(t[0] == b[0]);
            assert(some_first(bs));
        }
    }
    if e.len() > 0 && t.len() > 0 && t.last() is Deep {
        if after {
            assert(t.last() is Slash);
        } else if b.len() > 0 {
            assert(t.last() == b.last());
            assert(some_last(bs));
        } else if before {
            assert(t.last() is Slash);
        }
    }
}

/// The program of a way is cut around its branch.
proof fn lemma_branch_cuts(a: Seq<Mark>, bs: Seq<Seq<Mark>>, z: Seq<Mark>, i: int, ci: bool)
    requires
        mild(a),
        all_mild(bs),
        mild(z),
        0 <= i < bs.len(),
        each_apart(a, bs, z),
        a.len() > 0 ==> !(a.last() is Deep),
        z.len() > 0 ==> !(z[0] is Deep),
    ensures
        meaning::folded(through(a, bs[i], z), ci) == meaning::folded(fore(a, bs), ci)
            + meaning::folded(inner(a, bs, z)[i], ci) + meaning::folded(aft(bs, z), ci),
{
    let f = fore(a, bs);
    let e = aft(bs, z);
    let t = inner(a, bs, z)[i];
    let w = through(a, bs[i], z);
    lemma_taken_through(a, bs, z, i);
    lemma_taken_parts(a, bs, z, i);
    let te = t + e;
    assert(w =~= f + te);
    meaning::lemma_folded_cut(t, e, ci);
    if te.len() > 0 && f.len() > 0 {
        if t.len() > 0 {
            assert(te[0] == t[0]);
        } else {
            assert(te[0] == e[0]);
        }
    }
    meaning::lemma_folded_cut(f, te, ci);
    assert(meaning::folded(f, ci) + (meaning::folded(t, ci) + meaning::folded(e, ci))
        =~= meaning::folded(f, ci) + meaning::folded(t, ci) + meaning::folded(e, ci));
}

proof fn lemma_taken_once(a: Seq<Mark>, bs: Seq<Seq<Mark>>, z: Seq<Mark>, i: int, ci: bool)
    requires
        0 <= i < bs.len(),
        each_apart(a, bs, z),
        fore(a, bs).len() == 0,
    ensures
        folding::opens_once(meaning::ops_of(inner(a, bs, z)[i], ci)),
{
    let t = inner(a, bs, z)[i];
    let w = through(a, bs[i], z);
    lemma_taken_through(a, bs, z, i);
    assert(meaning::apart(through(a, bs[i], z)));
    if t.len() > 2 {
        assert(w[0] == t[0] && w[1] == t[1] && w[2] == t[2]);
        assert(meaning::apart_at(w, 0));
        meaning::lemma_ops_unfolded(t, ci);
        assert(meaning::ops_of(t, ci)[2] is Globstar <==> t[2] is Deep);
        assert(meaning::ops_of(t, ci)[0] is Globstar <==> t[0] is Deep);
    }
}

proof fn lemma_around_once(a: Seq<Mark>, bs: Seq<Seq<Mark>>, z: Seq<Mark>, ci: bool)
    requires
        bs.len() > 0,
        each_apart(a, bs, z),
    ensures
        folding::opens_once(
            meaning::ops_of(around(fore(a, bs), inner(a, bs, z), aft(bs, z)), ci),
        ),
{
    let f = fore(a, bs);
    let ms = around(f, inner(a, bs, z), aft(bs, z));
    meaning::lemma_ops_unfolded(ms, ci);
    if ms.len() > 2 {
        assert(meaning::ops_of(ms, ci)[0] is Globstar <==> ms[0] is Deep);
        assert(meaning::ops_of(ms, ci)[1] is Sep <==> ms[1] is Slash);
        assert(meaning::ops_of(ms, ci)[2] is Globstar <==> ms[2] is Deep);
        if f.len() > 2 {
            let w = through(a, bs[0], z);
            assert(meaning::apart(through(a, bs[0], z)));
            assert(meaning::apart_at(w, 0));
            assert(w[0] == ms[0] && w[2] == ms[2]);
        } else {
            assert(ms[f.len() as int] is Either);
        }
    }
}

/// The program of a branch with the slashes that it takes in.
proof fn lemma_branch_alike(t: Seq<Mark>, how: Manner, cx: Cx, path: Seq<u8>)
    ensures
        folding::alike(
            meaning::branch_of(t, how.case_insensitive),
            meaning::folded(t, how.case_insensitive),
            cx,
            path,
        ),
        folding::opens_once(meaning::ops_of(t, how.case_insensitive)) ==> folding::alike(
            lower::lead(meaning::branch_of(t, how.case_insensitive)),
            lower::lead(meaning::folded(t, how.case_insensitive)),
            cx,
            path,
        ),
{
    let ci = how.case_insensitive;
    let none = Seq::<SpecOp>::empty();
    let ops = meaning::ops_of(t, ci);
    meaning::lemma_merged_tree(t, ci);
    meaning::lemma_ops_unfolded(t, ci);
    folding::lemma_merge_fold(none, ops, none, cx, path);
    assert(lower::append_all(none, ops) + none =~= lower::append_all(none, ops));
    assert(none + ops + none =~= ops);
    if folding::opens_once(ops) {
        folding::lemma_merge_lead(ops, cx, path);
    }
}

/// What is behind the brace starts with no `**`, so that leading separators
/// mean nothing to it.
proof fn lemma_lead_behind(e: Seq<Mark>, ci: bool)
    requires
        mild(e),
        e.len() > 0 ==> !(e[0] is Deep),
    ensures
        lower::lead(meaning::folded(e, ci)) == meaning::folded(e, ci),
{
    meaning::lemma_ops_unfolded(e, ci);
    if e.len() > 0 && e[0] is Either {
        let rest = e.drop_first();
        let op = meaning::op_of(e[0], ci);
        assert(e =~= seq![e[0]] + rest);
        meaning::lemma_folded_cut(seq![e[0]], rest, ci);
        assert(meaning::ops_of(seq![e[0]], ci) =~= seq![op]);
        assert(meaning::ops_of(e, ci)[0] == op);
        meaning::lemma_fold_one(op);
        unions::lemma_lead_part(seq![op], meaning::folded(rest, ci));
        assert(meaning::shallow_mark(e[0], true));
        meaning::lemma_gentle_mark(e[0], ci);
        meaning::lemma_gentle_lead(seq![op]);
    } else if e.len() > 0 {
        assert(meaning::ops_of(e, ci)[0] is Globstar <==> e[0] is Deep);
        folding::lemma_fold_first(meaning::ops_of(e, ci));
    } else {
        assert(meaning::ops_of(e, ci) =~= seq![]);
        assert(meaning::folded(e, ci) =~= seq![]);
    }
}

/// What stands before the brace, with its leading separators.
spec fn led_fore(f: Seq<Mark>, ci: bool) -> Seq<SpecOp> {
    if f.len() > 0 {
        lower::lead(meaning::folded(f, ci))
    } else {
        meaning::folded(f, ci)
    }
}

/// The branches, with their leading separators where nothing stands before
/// the brace.
spec fn led_branches(f: Seq<Mark>, ins: Seq<Seq<Mark>>, ci: bool) -> Seq<Seq<SpecOp>> {
    if f.len() > 0 {
        meaning::branches_of(ins, ci)
    } else {
        lower::lead_branches(meaning::branches_of(ins, ci))
    }
}

spec fn led_inner(f: Seq<Mark>, t: Seq<Mark>, ci: bool) -> Seq<SpecOp> {
    if f.len() > 0 {
        meaning::folded(t, ci)
    } else {
        lower::lead(meaning::folded(t, ci))
    }
}

proof fn lemma_led_around(f: Seq<Mark>, ins: Seq<Seq<Mark>>, e: Seq<Mark>, ci: bool)
    ensures
        lower::lead(meaning::folded(around(f, ins, e), ci)) == led_fore(f, ci) + seq![
            SpecOp::Alternation(led_branches(f, ins, ci)),
        ] + meaning::folded(e, ci),
{
    let ms = around(f, ins, e);
    let op = meaning::op_of(Mark::Either(ins), ci);
    let pf = meaning::folded(f, ci);
    let pe = meaning::folded(e, ci);
    meaning::lemma_either_op(ins, ci);
    let one = seq![Mark::Either(ins)];
    let tail = one + e;
    assert(ms =~= f + tail);
    meaning::lemma_folded_cut(one, e, ci);
    meaning::lemma_folded_cut(f, tail, ci);
    assert(meaning::ops_of(one, ci) =~= seq![op]);
    meaning::lemma_fold_one(op);
    let program = pf + (seq![op] + pe);
    assert(meaning::folded(ms, ci) == program);
    if f.len() > 0 {
        folding::lemma_fold_some(meaning::ops_of(f, ci));
        unions::lemma_lead_part(pf, seq![op] + pe);
        assert(lower::lead(pf) + (seq![op] + pe) =~= lower::lead(pf) + seq![op] + pe);
    } else {
        let led = SpecOp::Alternation(led_branches(f, ins, ci));
        assert(meaning::ops_of(f, ci) =~= seq![]);
        assert(pf =~= seq![]);
        unions::lemma_lead_part(seq![op], pe);
        assert(program =~= seq![op] + pe);
        assert(lower::lead(seq![op]) =~= seq![led]);
        assert(seq![led] + pe =~= pf + seq![led] + pe);
    }
}

/// With one branch in place of the brace, the program is that of the way.
proof fn lemma_way_program(
    a: Seq<Mark>,
    bs: Seq<Seq<Mark>>,
    z: Seq<Mark>,
    i: int,
    how: Manner,
    seps: Seps,
    path: Seq<u8>,
)
    requires
        0 <= i < bs.len(),
        mild(a),
        mild(z),
        all_mild(bs),
        each_apart(a, bs, z),
        a.len() > 0 ==> !(a.last() is Deep),
        z.len() > 0 ==> !(z[0] is Deep),
    ensures
        lang::ops_span(
            led_fore(fore(a, bs), how.case_insensitive) + led_inner(
                fore(a, bs),
                inner(a, bs, z)[i],
                how.case_insensitive,
            ) + meaning::folded(aft(bs, z), how.case_insensitive),
            meaning::sight(how, seps),
            path,
            0,
            path.len() as int,
        ) == meaning::meets(through(a, bs[i], z), how, seps, path, 0),
{
    let ci = how.case_insensitive;
    let w = through(a, bs[i], z);
    lemma_edges(a, bs, z);
    lemma_branch_cuts(a, bs, z, i, ci);
    lemma_taken_parts(a, bs, z, i);
    assert(mild(bs[i]));
    lemma_through_mild(a, bs[i], z);
    assert(meaning::shallow(w, true));
    assert(meaning::apart(through(a, bs[i], z)));
    meaning::lemma_led_meets(w, how, seps, path);
    lemma_led_parts(fore(a, bs), inner(a, bs, z)[i], aft(bs, z), ci);
}

/// A brace between marks matches what one of its branches does in its place.
#[verifier::rlimit(40)]
pub proof fn lemma_choice(
    a: Seq<Mark>,
    bs: Seq<Seq<Mark>>,
    z: Seq<Mark>,
    how: Manner,
    seps: Seps,
    path: Seq<u8>,
)
    requires
        bs.len() > 0,
        mild(a),
        mild(z),
        all_mild(bs),
        each_apart(a, bs, z),
        a.len() > 0 ==> !(a.last() is Deep),
        z.len() > 0 ==> !(z[0] is Deep),
    ensures
        lang::matches(
            lower::lowered(notation::tree(around(a, bs, z)), how.case_insensitive),
            meaning::sight(how, seps),
            path,
        ) <==> exists|i: int|
            0 <= i < bs.len() && meaning::meets(
                through(a, #[trigger] bs[i], z),
                how,
                seps,
                path,
                0,
            ),
{
    let ci = how.case_insensitive;
    let cx = meaning::sight(how, seps);
    let n = path.len() as int;
    let f = fore(a, bs);
    let ins = inner(a, bs, z);
    let ms = around(f, ins, aft(bs, z));
    let pa = led_fore(f, ci);
    let pe = meaning::folded(aft(bs, z), ci);
    let now = led_branches(f, ins, ci);
    let pms = Seq::new(bs.len(), |i: int| led_inner(f, ins[i], ci));
    assert(lang::matches(lower::lowered(notation::tree(around(a, bs, z)), ci), cx, path)
        == lang::ops_span(pa + seq![SpecOp::Alternation(now)] + pe, cx, path, 0, n)) by {
        lemma_lowered_around(a, bs, z, ci);
        lemma_around_once(a, bs, z, ci);
        meaning::lemma_ops_unfolded(ms, ci);
        folding::lemma_merge_lead(meaning::ops_of(ms, ci), cx, path);
        lemma_led_around(f, ins, aft(bs, z), ci);
        assert(folding::alike_at(
            lower::lowered(notation::tree(around(a, bs, z)), ci),
            lower::lead(meaning::folded(ms, ci)),
            cx,
            path,
            0,
            n,
        ));
    }
    unions::lemma_lead_branches(meaning::branches_of(ins, ci));
    assert forall|i: int| 0 <= i < pms.len() implies folding::alike(
        #[trigger] now[i],
        pms[i],
        cx,
        path,
    ) by {
        lemma_branch_alike(ins[i], how, cx, path);
        assert(meaning::branches_of(ins, ci)[i] == meaning::branch_of(ins[i], ci));
        if f.len() == 0 {
            lemma_taken_once(a, bs, z, i, ci);
        }
    }
    unions::lemma_alternatives(pa, now, pms, pe, cx, path, n);
    assert forall|i: int| 0 <= i < bs.len() implies lang::ops_span(
        pa + #[trigger] pms[i] + pe,
        cx,
        path,
        0,
        n,
    ) == meaning::meets(through(a, bs[i], z), how, seps, path, 0) by {
        lemma_way_program(a, bs, z, i, how, seps, path);
    }
    if exists|i: int| 0 <= i < pms.len() && lang::ops_span(pa + #[trigger] pms[i] + pe, cx, path, 0, n) {
        let i = choose|i: int|
            0 <= i < pms.len() && lang::ops_span(pa + #[trigger] pms[i] + pe, cx, path, 0, n);
        assert(meaning::meets(through(a, bs[i], z), how, seps, path, 0));
    }
    if exists|i: int|
        0 <= i < bs.len() && meaning::meets(
            through(a, #[trigger] bs[i], z),
            how,
            seps,
            path,
            0,
        ) {
        let i = choose|i: int|
            0 <= i < bs.len() && meaning::meets(
                through(a, #[trigger] bs[i], z),
                how,
                seps,
                path,
                0,
            );
        assert(lang::ops_span(pa + pms[i] + pe, cx, path, 0, n));
    }
}

/// Leading separators are the first part's, or the second's where there is no
/// first.
proof fn lemma_led_parts(f: Seq<Mark>, t: Seq<Mark>, e: Seq<Mark>, ci: bool)
    requires
        mild(e),
        e.len() > 0 ==> !(e[0] is Deep),
    ensures
        lower::lead(meaning::folded(f, ci) + meaning::folded(t, ci) + meaning::folded(e, ci)) == if f.len() > 0 {
            lower::lead(meaning::folded(f, ci)) + meaning::folded(t, ci) + meaning::folded(e, ci)
        } else {
            meaning::folded(f, ci) + lower::lead(meaning::folded(t, ci)) + meaning::folded(e, ci)
        },
{
    let pf = meaning::folded(f, ci);
    let pt = meaning::folded(t, ci);
    let pe = meaning::folded(e, ci);
    if f.len() > 0 {
        folding::lemma_fold_some(meaning::ops_of(f, ci));
        unions::lemma_lead_part(pf, pt + pe);
        assert(pf + pt + pe =~= pf + (pt + pe));
        assert(lower::lead(pf) + (pt + pe) =~= lower::lead(pf) + pt + pe);
    } else {
        assert(meaning::ops_of(f, ci) =~= seq![]);
        assert(pf =~= seq![]);
        if t.len() > 0 {
            folding::lemma_fold_some(meaning::ops_of(t, ci));
            unions::lemma_lead_part(pt, pe);
            assert(pf + pt + pe =~= pt + pe);
            assert(pf + lower::lead(pt) + pe =~= lower::lead(pt) + pe);
        } else {
            assert(meaning::ops_of(t, ci) =~= seq![]);
            assert(pt =~= seq![]);
            lemma_lead_behind(e, ci);
            assert(pf + pt + pe =~= pe);
            assert(lower::lead(pt) =~= seq![]);
            assert(pf + lower::lead(pt) + pe =~= pe);
        }
    }
}

proof fn lemma_flat_part(ms: Seq<Mark>, n: int, m: int)
    requires
        flat(ms),
        0 <= n <= m <= ms.len(),
    ensures
        flat(ms.subrange(n, m)),
{
    let part = ms.subrange(n, m);
    assert forall|k: int| 0 <= k < part.len() implies !(#[trigger] part[k] is Either)
        && meaning::shallow_mark(part[k], true) by {
        assert(part[k] == ms[k + n]);
    }
}

// Ways through a brace.

#[verifier::rlimit(40)]
proof fn lemma_way_concat(x: Seq<Mark>, y: Seq<Mark>, w: Seq<Mark>)
    ensures
        meaning::way(x + y, w) <==> exists|k: int|
            0 <= k <= w.len() && meaning::way(x, #[trigger] w.take(k)) && meaning::way(
                y,
                w.skip(k),
            ),
    decreases x.len(),
{
    let xy = x + y;
    if x.len() == 0 {
        assert(xy =~= y);
        assert(w.skip(0) =~= w);
        assert(meaning::way(x, w.take(0)));
        if exists|k: int|
            0 <= k <= w.len() && meaning::way(x, #[trigger] w.take(k)) && meaning::way(
                y,
                w.skip(k),
            ) {
            let k = choose|k: int|
                0 <= k <= w.len() && meaning::way(x, #[trigger] w.take(k)) && meaning::way(
                    y,
                    w.skip(k),
                );
            assert(k == 0);
        }
    } else {
        let rest = x.drop_first();
        assert(xy.drop_first() =~= rest + y);
        assert(xy[0] == x[0]);
        match x[0] {
            Mark::Either(bs) => {
                if meaning::way(xy, w) {
                    let n = choose|n: int|
                        0 <= n <= w.len() && meaning::some_way(bs, #[trigger] w.take(n))
                            && meaning::way(xy.drop_first(), w.skip(n));
                    let v = w.skip(n);
                    lemma_way_concat(rest, y, v);
                    let k = choose|k: int|
                        0 <= k <= v.len() && meaning::way(rest, #[trigger] v.take(k))
                            && meaning::way(y, v.skip(k));
                    let u = w.take(n + k);
                    assert(u.take(n) =~= w.take(n));
                    assert(u.skip(n) =~= v.take(k));
                    assert(v.skip(k) =~= w.skip(n + k));
                    assert(meaning::way(x, w.take(n + k)));
                }
                if exists|k: int|
                    0 <= k <= w.len() && meaning::way(x, #[trigger] w.take(k)) && meaning::way(
                        y,
                        w.skip(k),
                    ) {
                    let k = choose|k: int|
                        0 <= k <= w.len() && meaning::way(x, #[trigger] w.take(k)) && meaning::way(
                            y,
                            w.skip(k),
                        );
                    let u = w.take(k);
                    let n = choose|n: int|
                        0 <= n <= u.len() && meaning::some_way(bs, #[trigger] u.take(n))
                            && meaning::way(rest, u.skip(n));
                    let v = w.skip(n);
                    lemma_way_concat(rest, y, v);
                    assert(u.take(n) =~= w.take(n));
                    assert(u.skip(n) =~= v.take(k - n));
                    assert(v.skip(k - n) =~= w.skip(k));
                    assert(meaning::way(rest, v.take(k - n)));
                    assert(meaning::some_way(bs, w.take(n)));
                }
            },
            m => {
                if meaning::way(xy, w) {
                    let v = w.drop_first();
                    lemma_way_concat(rest, y, v);
                    let k = choose|k: int|
                        0 <= k <= v.len() && meaning::way(rest, #[trigger] v.take(k))
                            && meaning::way(y, v.skip(k));
                    let u = w.take(k + 1);
                    assert(u.drop_first() =~= v.take(k));
                    assert(v.skip(k) =~= w.skip(k + 1));
                    assert(meaning::way(x, w.take(k + 1)));
                }
                if exists|k: int|
                    0 <= k <= w.len() && meaning::way(x, #[trigger] w.take(k)) && meaning::way(
                        y,
                        w.skip(k),
                    ) {
                    let k = choose|k: int|
                        0 <= k <= w.len() && meaning::way(x, #[trigger] w.take(k)) && meaning::way(
                            y,
                            w.skip(k),
                        );
                    let u = w.take(k);
                    let v = w.drop_first();
                    lemma_way_concat(rest, y, v);
                    assert(u.drop_first() =~= v.take(k - 1));
                    assert(v.skip(k - 1) =~= w.skip(k));
                    assert(meaning::way(rest, v.take(k - 1)));
                }
            },
        }
    }
}

proof fn lemma_way_brace(bs: Seq<Seq<Mark>>, w: Seq<Mark>)
    ensures
        meaning::way(seq![Mark::Either(bs)], w) == meaning::some_way(bs, w),
{
    let one = seq![Mark::Either(bs)];
    assert(one.drop_first() =~= seq![]);
    if meaning::way(one, w) {
        let n = choose|n: int|
            0 <= n <= w.len() && meaning::some_way(bs, #[trigger] w.take(n)) && meaning::way(
                one.drop_first(),
                w.skip(n),
            );
        assert(w.skip(n).len() == 0);
        assert(w.take(n) =~= w);
    }
    if meaning::some_way(bs, w) {
        let n = w.len() as int;
        assert(w.take(n) =~= w);
        assert(meaning::way(one.drop_first(), w.skip(n)));
    }
}

/// The ways through a brace between marks are those with some branch in its
/// place.
#[verifier::rlimit(40)]
proof fn lemma_way_around(a: Seq<Mark>, bs: Seq<Seq<Mark>>, z: Seq<Mark>, w: Seq<Mark>)
    ensures
        meaning::way(around(a, bs, z), w) <==> exists|i: int|
            0 <= i < bs.len() && meaning::way(through(a, #[trigger] bs[i], z), w),
{
    let one = seq![Mark::Either(bs)];
    if meaning::way(around(a, bs, z), w) {
        lemma_way_concat(a + one, z, w);
        let k = choose|k: int|
            0 <= k <= w.len() && meaning::way(a + one, #[trigger] w.take(k)) && meaning::way(
                z,
                w.skip(k),
            );
        let v = w.take(k);
        lemma_way_concat(a, one, v);
        let n = choose|n: int|
            0 <= n <= v.len() && meaning::way(a, #[trigger] v.take(n)) && meaning::way(
                one,
                v.skip(n),
            );
        lemma_way_brace(bs, v.skip(n));
        let i = choose|i: int| 0 <= i < bs.len() && meaning::way(#[trigger] bs[i], v.skip(n));
        lemma_way_concat(a, bs[i], v);
        assert(meaning::way(a, v.take(n)));
        lemma_way_concat(a + bs[i], z, w);
        assert(meaning::way(a + bs[i], w.take(k)));
        assert(meaning::way(through(a, bs[i], z), w));
    }
    if exists|i: int| 0 <= i < bs.len() && meaning::way(through(a, #[trigger] bs[i], z), w) {
        let i = choose|i: int|
            0 <= i < bs.len() && meaning::way(through(a, #[trigger] bs[i], z), w);
        lemma_way_concat(a + bs[i], z, w);
        let k = choose|k: int|
            0 <= k <= w.len() && meaning::way(a + bs[i], #[trigger] w.take(k)) && meaning::way(
                z,
                w.skip(k),
            );
        let v = w.take(k);
        lemma_way_concat(a, bs[i], v);
        let n = choose|n: int|
            0 <= n <= v.len() && meaning::way(a, #[trigger] v.take(n)) && meaning::way(
                bs[i],
                v.skip(n),
            );
        lemma_way_brace(bs, v.skip(n));
        assert(meaning::some_way(bs, v.skip(n)));
        lemma_way_concat(a, one, v);
        assert(meaning::way(a, v.take(n)));
        lemma_way_concat(a + one, z, w);
        assert(meaning::way(a + one, w.take(k)));
    }
}

/// Marks around a brace are met where they are with some branch in its place.
proof fn lemma_meets_around(
    a: Seq<Mark>,
    bs: Seq<Seq<Mark>>,
    z: Seq<Mark>,
    how: Manner,
    seps: Seps,
    path: Seq<u8>,
)
    ensures
        meaning::meets(around(a, bs, z), how, seps, path, 0) <==> exists|i: int|
            0 <= i < bs.len() && meaning::meets(
                through(a, #[trigger] bs[i], z),
                how,
                seps,
                path,
                0,
            ),
{
    let ms = around(a, bs, z);
    if meaning::meets(ms, how, seps, path, 0) {
        let w = choose|w: Seq<Mark>| #[trigger]
            meaning::way(ms, w) && meaning::fits(w, how, seps, path, 0);
        lemma_way_around(a, bs, z, w);
        let i = choose|i: int|
            0 <= i < bs.len() && meaning::way(through(a, #[trigger] bs[i], z), w);
        assert(meaning::meets(through(a, bs[i], z), how, seps, path, 0));
    }
    if exists|i: int|
        0 <= i < bs.len() && meaning::meets(
            through(a, #[trigger] bs[i], z),
            how,
            seps,
            path,
            0,
        ) {
        let i = choose|i: int|
            0 <= i < bs.len() && meaning::meets(
                through(a, #[trigger] bs[i], z),
                how,
                seps,
                path,
                0,
            );
        let w = choose|w: Seq<Mark>| #[trigger]
            meaning::way(through(a, bs[i], z), w) && meaning::fits(w, how, seps, path, 0);
        lemma_way_around(a, bs, z, w);
        assert(meaning::way(ms, w));
    }
}

/// Without a brace there is one way, and it is the marks themselves.
pub proof fn lemma_way_flat(ms: Seq<Mark>, w: Seq<Mark>)
    requires
        flat(ms),
    ensures
        meaning::way(ms, w) <==> w == ms,
    decreases ms.len(),
{
    if ms.len() > 0 {
        let rest = ms.drop_first();
        lemma_flat_part(ms, 1, ms.len() as int);
        assert(rest =~= ms.subrange(1, ms.len() as int));
        if w.len() > 0 {
            lemma_way_flat(rest, w.drop_first());
            if w[0] == ms[0] && w.drop_first() == rest {
                assert(w =~= seq![ms[0]] + rest);
                assert(ms =~= seq![ms[0]] + rest);
            }
        }
    } else if w.len() == 0 {
        assert(w =~= ms);
    }
}

pub proof fn lemma_meets_flat(
    ms: Seq<Mark>,
    how: Manner,
    seps: Seps,
    path: Seq<u8>,
)
    requires
        flat(ms),
    ensures
        meaning::meets(ms, how, seps, path, 0) == meaning::fits(ms, how, seps, path, 0),
{
    lemma_way_flat(ms, ms);
    if meaning::meets(ms, how, seps, path, 0) {
        let w = choose|w: Seq<Mark>| #[trigger]
            meaning::way(ms, w) && meaning::fits(w, how, seps, path, 0);
        lemma_way_flat(ms, w);
    }
}

// Lengths.

proof fn lemma_text_concat(a: Seq<Mark>, b: Seq<Mark>)
    ensures
        notation::text(a + b) == notation::text(a) + notation::text(b),
    decreases a.len(),
{
    if a.len() == 0 {
        assert(a + b =~= b);
        assert(notation::text(a) + notation::text(b) =~= notation::text(b));
    } else {
        let rest = a.drop_first();
        assert((a + b).drop_first() =~= rest + b);
        assert((a + b)[0] == a[0]);
        lemma_text_concat(rest, b);
        assert(notation::text(a + b) =~= notation::text(a) + notation::text(b));
    }
}

proof fn lemma_branch_length(bs: Seq<Seq<Mark>>, i: int)
    requires
        0 <= i < bs.len(),
    ensures
        notation::text(bs[i]).len() <= notation::branches_text(bs).len(),
    decreases bs.len(),
{
    if i > 0 {
        lemma_branch_length(bs.drop_first(), i - 1);
    }
}

proof fn lemma_shorter(a: Seq<Mark>, bs: Seq<Seq<Mark>>, z: Seq<Mark>, i: int)
    requires
        0 <= i < bs.len(),
    ensures
        notation::text(through(a, bs[i], z)).len() <= notation::text(around(a, bs, z)).len(),
{
    let one = seq![Mark::Either(bs)];
    lemma_text_concat(a + bs[i], z);
    lemma_text_concat(a, bs[i]);
    lemma_text_concat(a + one, z);
    lemma_text_concat(a, one);
    lemma_branch_length(bs, i);
    lemma_brace_text(bs);
}

proof fn lemma_brace_text(bs: Seq<Seq<Mark>>)
    ensures
        notation::text(seq![Mark::Either(bs)]) == seq![0x7bu8] + notation::branches_text(bs),
{
    let one = seq![Mark::Either(bs)];
    assert(one.drop_first() =~= seq![]);
    assert(notation::text(one.drop_first()) =~= seq![]);
    assert(notation::mark_text(one[0]) == seq![0x7bu8] + notation::branches_text(bs));
    assert(notation::text(one) =~= notation::mark_text(one[0]));
}

pub proof fn lemma_deep_next(ms: Seq<Mark>, fresh: bool, next: bool, inside: bool, k: int)
    requires
        notation::well(ms, fresh, next, inside),
        0 <= k < ms.len() - 1,
        ms[k] is Deep,
    ensures
        ms[k + 1] is Slash,
    decreases ms.len(),
{
    let rest = ms.drop_first();
    if k > 0 {
        lemma_deep_next(rest, notation::shut(ms[0]), next, inside, k - 1);
    } else {
        assert(notation::well_mark(ms[0], fresh, notation::ends(rest, next), inside));
    }
}

// The laws.

/// A pattern with a brace matches a path exactly when it does with some branch
/// written out in place of the brace. The branches may start or end with `**`
/// where a segment does; other braces, before it, behind it and in its branches,
/// hold none.
pub proof fn law_brace_matches_what_its_branches_say(
    n: nat,
    a: Seq<Mark>,
    bs: Seq<Seq<Mark>>,
    z: Seq<Mark>,
    text: Seq<char>,
    opts: CompileOptions,
    seps: Seps,
    path: Seq<u8>,
)
    requires
        mild(a),
        all_mild(bs),
        mild(z),
        notation::whole(around(a, bs, z)),
        each_apart(a, bs, z),
        z.len() > 0 ==> !(z[0] is Deep),
        meaning::told(around(a, bs, z), seps),
        0 < n + notation::text(around(a, bs, z)).len() <= 65536,
        glob::text_bytes(text) == notation::exclamations(n) + notation::text(around(a, bs, z)),
    ensures
        glob::compiled(text, opts, seps) matches Ok(g) && g.matches(path) == ((exists|i: int|
            0 <= i < bs.len() && meaning::meets(
                through(a, #[trigger] bs[i], z),
                meaning::wholly(opts, path),
                seps,
                path,
                0,
            )) != (n % 2 == 1)),
{
    let ms = around(a, bs, z);
    let e = Mark::Either(bs);
    assert(ms[a.len() as int] == e);
    lemma_brace_well(ms, true, true, false, a.len() as int);
    if a.len() > 0 && a.last() is Deep {
        assert(ms[a.len() - 1] is Deep);
        lemma_deep_next(ms, true, true, false, a.len() - 1);
    }
    meaning::lemma_pattern(n, ms, text, opts, seps, path);
    lemma_choice(a, bs, z, meaning::wholly(opts, path), seps, path);
}

pub proof fn lemma_brace_well(ms: Seq<Mark>, fresh: bool, next: bool, inside: bool, k: int)
    requires
        notation::well(ms, fresh, next, inside),
        0 <= k < ms.len(),
        ms[k] is Either,
    ensures
        (ms[k]->Either_0).len() > 1,
    decreases ms.len(),
{
    let rest = ms.drop_first();
    if k > 0 {
        lemma_brace_well(rest, notation::shut(ms[0]), next, inside, k - 1);
    } else {
        assert(notation::well_mark(ms[0], fresh, notation::ends(rest, next), inside));
    }
}

/// The patterns that `texts` are: the marks with each branch in place of the
/// brace.
pub open spec fn written_out(
    a: Seq<Mark>,
    bs: Seq<Seq<Mark>>,
    z: Seq<Mark>,
    texts: Seq<Seq<char>>,
    seps: Seps,
) -> bool {
    texts.len() == bs.len() && forall|i: int|
        0 <= i < bs.len() ==> glob::text_bytes(#[trigger] texts[i]) == notation::text(
            through(a, bs[i], z),
        ) && texts[i].len() > 0 && notation::whole(through(a, bs[i], z)) && meaning::told(
            through(a, bs[i], z),
            seps,
        )
}

/// Some pattern of `texts` matches `path`.
pub open spec fn some_matches(
    texts: Seq<Seq<char>>,
    opts: CompileOptions,
    seps: Seps,
    path: Seq<u8>,
) -> bool {
    exists|i: int|
        0 <= i < texts.len() && (glob::compiled(#[trigger] texts[i], opts, seps) matches Ok(g)
            && g.matches(path))
}

/// A brace is the OR of its branches: the pattern matches a path exactly when
/// the pattern with some branch written out in place of the brace does. The
/// branches may start or end with `**` where a segment does; other braces, before
/// it, behind it and in its branches, hold none.
#[verifier::rlimit(40)]
pub proof fn law_brace_is_or(
    a: Seq<Mark>,
    bs: Seq<Seq<Mark>>,
    z: Seq<Mark>,
    text: Seq<char>,
    texts: Seq<Seq<char>>,
    opts: CompileOptions,
    seps: Seps,
    path: Seq<u8>,
)
    requires
        mild(a),
        all_mild(bs),
        mild(z),
        notation::whole(around(a, bs, z)),
        each_apart(a, bs, z),
        z.len() > 0 ==> !(z[0] is Deep),
        meaning::told(around(a, bs, z), seps),
        notation::text(around(a, bs, z)).len() <= 65536,
        glob::text_bytes(text) == notation::text(around(a, bs, z)),
        written_out(a, bs, z, texts, seps),
    ensures
        glob::compiled(text, opts, seps) matches Ok(g) && g.matches(path) == some_matches(
            texts,
            opts,
            seps,
            path,
        ),
{
    let ms = around(a, bs, z);
    lemma_unnegated(ms);
    lemma_around_long(a, bs, z);
    law_brace_matches_what_its_branches_say(0, a, bs, z, text, opts, seps, path);
    assert forall|i: int| 0 <= i < bs.len() implies (glob::compiled(
        #[trigger] texts[i],
        opts,
        seps,
    ) matches Ok(g) && g.matches(path) == meaning::meets(
        through(a, bs[i], z),
        meaning::wholly(opts, path),
        seps,
        path,
        0,
    )) by {
        let w = through(a, bs[i], z);
        assert(mild(bs[i]));
        lemma_through_mild(a, bs[i], z);
        lemma_shorter(a, bs, z, i);
        lemma_unnegated(w);
        lemma_text_some(texts[i]);
        assert(meaning::apart(through(a, bs[i], z)));
        meaning::law_pattern_matches_what_its_marks_say(0, w, texts[i], opts, seps, path);
    }
    let g = glob::compiled(text, opts, seps)->Ok_0;
    if g.matches(path) {
        let i = choose|i: int|
            0 <= i < bs.len() && meaning::meets(
                through(a, #[trigger] bs[i], z),
                meaning::wholly(opts, path),
                seps,
                path,
                0,
            );
        assert(glob::compiled(texts[i], opts, seps) is Ok);
    }
    if some_matches(texts, opts, seps, path) {
        let i = choose|i: int|
            0 <= i < texts.len() && (glob::compiled(#[trigger] texts[i], opts, seps) matches Ok(g)
                && g.matches(path));
        assert(meaning::meets(through(a, bs[i], z), meaning::wholly(opts, path), seps, path, 0));
    }
}

/// The same of any brace in a pattern in which no brace holds a `**`. The pattern
/// may end with one behind a brace whose branches all end with a slash.
#[verifier::rlimit(40)]
pub proof fn law_brace_among_braces_is_or(
    a: Seq<Mark>,
    bs: Seq<Seq<Mark>>,
    z: Seq<Mark>,
    text: Seq<char>,
    texts: Seq<Seq<char>>,
    opts: CompileOptions,
    seps: Seps,
    path: Seq<u8>,
)
    requires
        notation::whole(around(a, bs, z)),
        meaning::shallow(around(a, bs, z), true),
        meaning::apart(around(a, bs, z)),
        each_apart(a, bs, z),
        meaning::told(around(a, bs, z), seps),
        notation::text(around(a, bs, z)).len() <= 65536,
        glob::text_bytes(text) == notation::text(around(a, bs, z)),
        written_out(a, bs, z, texts, seps),
    ensures
        glob::compiled(text, opts, seps) matches Ok(g) && g.matches(path) == some_matches(
            texts,
            opts,
            seps,
            path,
        ),
{
    let ms = around(a, bs, z);
    lemma_unnegated(ms);
    lemma_around_long(a, bs, z);
    meaning::law_pattern_matches_what_its_marks_say(0, ms, text, opts, seps, path);
    lemma_meets_around(a, bs, z, meaning::wholly(opts, path), seps, path);
    assert(ms[a.len() as int] == Mark::Either(bs));
    assert(meaning::shallow_mark(ms[a.len() as int], true));
    assert(meaning::all_shallow(bs));
    assert forall|i: int| 0 <= i < bs.len() implies (glob::compiled(
        #[trigger] texts[i],
        opts,
        seps,
    ) matches Ok(g) && g.matches(path) == meaning::meets(
        through(a, bs[i], z),
        meaning::wholly(opts, path),
        seps,
        path,
        0,
    )) by {
        let w = through(a, bs[i], z);
        assert(meaning::shallow(bs[i], false));
        assert forall|k: int| 0 <= k < w.len() implies meaning::shallow_mark(
            #[trigger] w[k],
            true,
        ) by {
            if k < a.len() {
                assert(w[k] == ms[k]);
            } else if k < a.len() + bs[i].len() {
                assert(w[k] == bs[i][k - a.len()]);
                assert(meaning::shallow_mark(bs[i][k - a.len()], false));
            } else {
                assert(w[k] == ms[k - bs[i].len() + 1]);
            }
        }
        assert(meaning::shallow(w, true));
        lemma_shorter(a, bs, z, i);
        lemma_unnegated(w);
        lemma_text_some(texts[i]);
        assert(meaning::apart(through(a, bs[i], z)));
        meaning::law_pattern_matches_what_its_marks_say(0, w, texts[i], opts, seps, path);
    }
    let g = glob::compiled(text, opts, seps)->Ok_0;
    if g.matches(path) {
        let i = choose|i: int|
            0 <= i < bs.len() && meaning::meets(
                through(a, #[trigger] bs[i], z),
                meaning::wholly(opts, path),
                seps,
                path,
                0,
            );
        assert(glob::compiled(texts[i], opts, seps) is Ok);
    }
    if some_matches(texts, opts, seps, path) {
        let i = choose|i: int|
            0 <= i < texts.len() && (glob::compiled(#[trigger] texts[i], opts, seps) matches Ok(g)
                && g.matches(path));
        assert(meaning::meets(through(a, bs[i], z), meaning::wholly(opts, path), seps, path, 0));
    }
}

/// A pattern that starts with no `!`.
pub proof fn lemma_unnegated(ms: Seq<Mark>)
    ensures
        notation::exclamations(0) + notation::text(ms) == notation::text(ms),
{
    assert(notation::exclamations(0) + notation::text(ms) =~= notation::text(ms));
}

proof fn lemma_around_long(a: Seq<Mark>, bs: Seq<Seq<Mark>>, z: Seq<Mark>)
    ensures
        notation::text(around(a, bs, z)).len() > 0,
{
    let one = seq![Mark::Either(bs)];
    lemma_text_concat(a + one, z);
    lemma_text_concat(a, one);
    lemma_brace_text(bs);
}

pub proof fn lemma_text_some(text: Seq<char>)
    requires
        text.len() > 0,
    ensures
        glob::text_bytes(text).len() > 0,
{
    reveal_with_fuel(vstd::utf8::encode_utf8, 2);
}

} // verus!
