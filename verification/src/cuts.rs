//! Unions of patterns, whatever their braces hold.
//!
//! A brace with a `**` at its edge takes in a separator next to it, and so does
//! the brace that a union puts its members into. That separator then stands
//! where the member's own brace takes it in. So moving separators and factoring
//! do not get into each other's way, and the union matches what some member
//! matches.

use crate::ast::{self, SpecNode};
use crate::engine::lang::{self, Cx};
use crate::engine::ops::distribute;
use crate::engine::ops::folding;
use crate::engine::ops::lower;
use crate::engine::ops::SpecOp;
use crate::factor;
use crate::glob;
use crate::openings;
use crate::options::CompileOptions;
use crate::parser;
use crate::seps::Seps;
use crate::unions;
use vstd::prelude::*;

verus! {

/// The nodes are leaves.
pub open spec fn leaves(s: Seq<SpecNode>) -> bool {
    forall|k: int| 0 <= k < s.len() ==> factor::leaf(#[trigger] s[k])
}

/// The brace in the middle of a union takes in the separator that its members
/// start with in common.
pub open spec fn takes_start(bs: Seq<SpecNode>) -> bool {
    distribute::takes_before(factor::parts(bs).0, unions::middle(bs))
}

/// The brace in the middle of a union takes in the separator that its members
/// end with in common.
pub open spec fn takes_end(bs: Seq<SpecNode>) -> bool {
    distribute::takes_after(unions::middle(bs), factor::parts(bs).2)
}

/// What the members share is lifted.
pub open spec fn lifted(bs: Seq<SpecNode>) -> bool {
    let (start, mids, end) = factor::parts(bs);
    factor::lifts(start, unions::middle(bs), end)
}

/// The brace in the middle of a union takes in no separator with a shared `**`
/// behind it.
pub open spec fn untorn(bs: Seq<SpecNode>) -> bool {
    let end = factor::parts(bs).2;
    takes_end(bs) ==> !(end.len() > 1 && end[1] is Globstar)
}

/// What the members start with in common and the brace does not take in.
spec fn before(bs: Seq<SpecNode>) -> Seq<SpecNode> {
    let start = factor::parts(bs).0;
    if takes_start(bs) {
        start.drop_last()
    } else {
        start
    }
}

/// What the members end with in common and the brace does not take in.
spec fn behind(bs: Seq<SpecNode>) -> Seq<SpecNode> {
    let end = factor::parts(bs).2;
    if takes_end(bs) {
        end.drop_first()
    } else {
        end
    }
}

/// The middle of a member with the separators that it takes in.
spec fn own(bs: Seq<SpecNode>, i: int) -> Seq<SpecNode> {
    distribute::sep_if(takes_start(bs)) + factor::parts(bs).1[i] + distribute::sep_if(
        takes_end(bs),
    )
}

/// Leaves are passed over.
pub proof fn lemma_pass(out: Seq<SpecNode>, ls: Seq<SpecNode>, rest: Seq<SpecNode>)
    requires
        leaves(ls),
    ensures
        distribute::spread_from(out, ls + rest) == distribute::spread_from(out + ls, rest),
    decreases ls.len(),
{
    if ls.len() == 0 {
        assert(ls + rest =~= rest);
        assert(out + ls =~= out);
    } else {
        let all = ls + rest;
        let more = ls.drop_first();
        assert(factor::leaf(ls[0]));
        assert(all[0] == ls[0]);
        assert(all.drop_first() =~= more + rest);
        assert(leaves(more)) by {
            assert forall|k: int| 0 <= k < more.len() implies factor::leaf(#[trigger] more[k]) by {
                assert(more[k] == ls[k + 1]);
            }
        }
        assert(distribute::spread(ls[0]) == ls[0]);
        assert(distribute::spread_from(out, all) == distribute::spread_from(
            out.push(ls[0]),
            more + rest,
        ));
        lemma_pass(out.push(ls[0]), more, rest);
        assert(out.push(ls[0]) + more =~= out + ls);
    }
}

proof fn lemma_exploded_push(xs: Seq<SpecNode>, n: SpecNode)
    ensures
        unions::exploded(xs.push(n)) == unions::exploded(xs) + unions::pieces(n),
{
    assert(xs.push(n).drop_last() =~= xs);
}

/// What a brace takes in is the same when bytes are written one by one.
proof fn lemma_takes_exploded(out: Seq<SpecNode>, bs: Seq<SpecNode>, tail: Seq<SpecNode>)
    requires
        ast::all_sound(out),
        ast::all_sound(tail),
    ensures
        distribute::takes_before(unions::exploded(out), bs) == distribute::takes_before(out, bs),
        distribute::takes_after(bs, unions::exploded(tail)) == distribute::takes_after(bs, tail),
        distribute::takes_before(out, bs) ==> unions::exploded(out.drop_last())
            == unions::exploded(out).drop_last(),
        distribute::takes_after(bs, tail) ==> unions::exploded(tail.drop_first())
            == unions::exploded(tail).drop_first(),
{
    unions::lemma_exploded_ends(out);
    unions::lemma_exploded_ends(tail);
    let eo = unions::exploded(out);
    if out.len() > 0 && out.last() is Separator {
        let head = out.drop_last();
        assert(ast::all_sound(head)) by {
            assert forall|k: int| 0 <= k < head.len() implies ast::sound(#[trigger] head[k]) by {
                assert(head[k] == out[k]);
            }
        }
        unions::lemma_exploded_ends(head);
        assert(eo =~= unions::exploded(head).push(out.last()));
        assert(eo.drop_last() =~= unions::exploded(head));
        if head.len() > 0 {
            assert(eo[eo.len() - 2] == unions::exploded(head).last());
            assert(out[out.len() - 2] == head.last());
        }
    }
    if tail.len() > 0 && tail[0] is Separator {
        let more = tail.drop_first();
        unions::lemma_exploded_one(tail[0]);
        unions::lemma_exploded_concat(seq![tail[0]], more);
        assert(seq![tail[0]] + more =~= tail);
        assert(unions::exploded(tail).drop_first() =~= unions::exploded(more));
    }
}

/// Separators move in the same way when bytes are written one by one.
proof fn lemma_spread_exploded(out: Seq<SpecNode>, rest: Seq<SpecNode>)
    requires
        ast::all_sound(out),
        ast::all_sound(rest),
    ensures
        unions::exploded(distribute::spread_from(out, rest)) == distribute::spread_from(
            unions::exploded(out),
            unions::exploded(rest),
        ),
    decreases distribute::weights(rest), rest.len(),
{
    let eo = unions::exploded(out);
    if rest.len() == 0 {
        assert(unions::exploded(rest).len() == 0);
    } else {
        let tail = rest.drop_first();
        let x = rest[0];
        let et = unions::exploded(tail);
        distribute::lemma_weights_first(rest);
        if tail.len() > 0 {
            distribute::lemma_weights_first(tail);
        }
        assert(ast::sound(x));
        assert(ast::all_sound(tail)) by {
            assert forall|k: int| 0 <= k < tail.len() implies ast::sound(#[trigger] tail[k]) by {
                assert(tail[k] == rest[k + 1]);
            }
        }
        unions::lemma_exploded_one(x);
        unions::lemma_exploded_concat(seq![x], tail);
        assert(seq![x] + tail =~= rest);
        let er = unions::exploded(rest);
        assert(er == unions::pieces(x) + et);
        match x {
            SpecNode::Literal(b) => {
                lemma_pass(eo, unions::pieces(x), et);
                lemma_exploded_push(out, x);
                unions::lemma_push_sound(out, x);
                lemma_spread_exploded(out.push(x), tail);
            },
            SpecNode::Brace(bs) => {
                lemma_takes_exploded(out, bs, tail);
                assert(er[0] == x);
                assert(er.drop_first() =~= et);
                let before = distribute::takes_before(out, bs);
                let after = distribute::takes_after(bs, tail);
                let kept = if before {
                    out.drop_last()
                } else {
                    out
                };
                let left = if after {
                    tail.drop_first()
                } else {
                    tail
                };
                let node = if !before && !after {
                    distribute::spread(x)
                } else {
                    SpecNode::Brace(distribute::spread_branches(bs, before, after))
                };
                assert(ast::all_sound(kept)) by {
                    assert forall|k: int| 0 <= k < kept.len() implies ast::sound(
                        #[trigger] kept[k],
                    ) by {
                        assert(kept[k] == out[k]);
                    }
                }
                assert(ast::all_sound(left)) by {
                    assert forall|k: int| 0 <= k < left.len() implies ast::sound(
                        #[trigger] left[k],
                    ) by {
                        assert(after ==> left[k] == tail[k + 1]);
                    }
                }
                distribute::lemma_spread_sound(x);
                distribute::lemma_spread_branches_sound(bs, before, after);
                assert(ast::sound(node));
                unions::lemma_push_sound(kept, node);
                lemma_exploded_push(kept, node);
                assert(unions::exploded(kept) + unions::pieces(node) =~= unions::exploded(
                    kept,
                ).push(node));
                lemma_spread_exploded(kept.push(node), left);
            },
            _ => {
                assert(er[0] == x);
                assert(er.drop_first() =~= et);
                distribute::lemma_spread_sound(x);
                let y = distribute::spread(x);
                unions::lemma_push_sound(out, y);
                lemma_exploded_push(out, y);
                assert(eo + unions::pieces(y) =~= eo.push(y));
                lemma_spread_exploded(out.push(y), tail);
            },
        }
    }
}

/// Between leaves that no brace takes in, a sequence is spread on its own.
pub proof fn lemma_spread_between(
    a: Seq<SpecNode>,
    o: Seq<SpecNode>,
    m: Seq<SpecNode>,
    e: Seq<SpecNode>,
)
    requires
        leaves(e),
        o.len() == 0 && m.len() > 0 ==> (m[0] matches SpecNode::Brace(bs)
            ==> !distribute::takes_before(a, bs)),
        o.len() == 0 && m.len() > 0 && m[0] is Separator ==> !(a.len() > 0
            && a.last() is Globstar),
        o.len() == 1 && o[0] is Separator ==> !(a.len() > 0 && a.last() is Globstar),
        m.len() > 0 ==> (m.last() matches SpecNode::Brace(bs) ==> !distribute::takes_after(bs, e)),
    ensures
        distribute::spread_from(a + o, m + e) == a + distribute::spread_from(o, m) + e,
    decreases distribute::weights(m), m.len(),
{
    let none = Seq::<SpecNode>::empty();
    if m.len() == 0 {
        assert(m + e =~= e + none);
        lemma_pass(a + o, e, none);
        assert(a + distribute::spread_from(o, m) + e =~= a + o + e);
    } else {
        let x = m[0];
        let tail = m.drop_first();
        let all = m + e;
        distribute::lemma_weights_first(m);
        if tail.len() > 0 {
            distribute::lemma_weights_first(tail);
            assert(tail.last() == m.last());
        }
        assert(all[0] == x);
        assert(all.drop_first() =~= tail + e);
        match x {
            SpecNode::Brace(bs) => {
                let before = distribute::takes_before(o, bs);
                let after = distribute::takes_after(bs, tail);
                if o.len() > 0 {
                    assert((a + o).last() == o.last());
                    if o.len() > 1 {
                        assert((a + o)[(a + o).len() - 2] == o[o.len() - 2]);
                    } else if a.len() > 0 {
                        assert((a + o)[(a + o).len() - 2] == a.last());
                    }
                } else {
                    assert(a + o =~= a);
                }
                assert(distribute::takes_before(a + o, bs) == before);
                if tail.len() > 0 {
                    assert((tail + e)[0] == tail[0]);
                } else {
                    assert(tail + e =~= e);
                    assert(m.last() == x);
                }
                assert(distribute::takes_after(bs, tail + e) == after);
                let kept = if before {
                    o.drop_last()
                } else {
                    o
                };
                let left = if after {
                    tail.drop_first()
                } else {
                    tail
                };
                let node = if !before && !after {
                    distribute::spread(x)
                } else {
                    SpecNode::Brace(distribute::spread_branches(bs, before, after))
                };
                if before {
                    assert((a + o).drop_last() =~= a + o.drop_last());
                }
                if after {
                    assert((tail + e).drop_first() =~= tail.drop_first() + e);
                    if left.len() > 0 {
                        assert(left.last() == m.last());
                    }
                }
                assert((a + kept).push(node) =~= a + kept.push(node));
                assert(kept.push(node).len() == 1 ==> kept.push(node)[0] == node);
                lemma_spread_between(a, kept.push(node), left, e);
            },
            _ => {
                let y = distribute::spread(x);
                assert((a + o).push(y) =~= a + o.push(y));
                assert(o.push(y).len() == 1 ==> o.push(y)[0] == y);
                lemma_spread_between(a, o.push(y), tail, e);
            },
        }
    }
}

/// What a node may become at the edge of a sequence.
spec fn kind_within(x: SpecNode, y: SpecNode) -> bool {
    (x is Globstar ==> y is Globstar) && (x is Separator ==> y is Separator) && (x is Concat
        ==> y is Concat)
}

/// The edges of `r` are as those of `w`, or braces.
spec fn ends_within(r: Seq<SpecNode>, w: Seq<SpecNode>) -> bool {
    &&& r.len() > 0 <==> w.len() > 0
    &&& r.len() > 0 ==> kind_within(r[0], w[0]) && kind_within(r.last(), w.last())
}

proof fn lemma_spread_ends(out: Seq<SpecNode>, rest: Seq<SpecNode>)
    ensures
        ends_within(distribute::spread_from(out, rest), out + rest),
    decreases distribute::weights(rest), rest.len(),
{
    let w = out + rest;
    if rest.len() == 0 {
        assert(w =~= out);
    } else {
        let x = rest[0];
        let tail = rest.drop_first();
        distribute::lemma_weights_first(rest);
        if tail.len() > 0 {
            distribute::lemma_weights_first(tail);
        }
        if tail.len() > 0 {
            assert(w.last() == tail.last());
        } else {
            assert(w.last() == x);
        }
        if out.len() > 0 {
            assert(w[0] == out[0]);
        } else {
            assert(w[0] == x);
        }
        match x {
            SpecNode::Brace(bs) => {
                let before = distribute::takes_before(out, bs);
                let after = distribute::takes_after(bs, tail);
                let kept = if before {
                    out.drop_last()
                } else {
                    out
                };
                let left = if after {
                    tail.drop_first()
                } else {
                    tail
                };
                let node = if !before && !after {
                    distribute::spread(x)
                } else {
                    SpecNode::Brace(distribute::spread_branches(bs, before, after))
                };
                lemma_spread_ends(kept.push(node), left);
                let v = kept.push(node) + left;
                if kept.len() > 0 {
                    assert(v[0] == kept[0]);
                } else {
                    assert(v[0] == node);
                }
                if left.len() > 0 {
                    assert(v.last() == left.last());
                } else {
                    assert(v.last() == node);
                }
            },
            _ => {
                let y = distribute::spread(x);
                lemma_spread_ends(out.push(y), tail);
                let v = out.push(y) + tail;
                if out.len() > 0 {
                    assert(v[0] == out[0]);
                } else {
                    assert(v[0] == y);
                }
                if tail.len() > 0 {
                    assert(v.last() == tail.last());
                } else {
                    assert(v.last() == y);
                }
            },
        }
    }
}

/// Next to a group of nodes that stands for itself stands a literal.
spec fn sheltered_cut(a: Seq<SpecNode>, b: Seq<SpecNode>) -> bool {
    a.len() > 0 && b.len() > 0 ==> (a.last() is Concat ==> b[0] is Literal) && (b[0] is Concat
        ==> a.last() is Literal)
}

/// Three parts with clean cuts between them are folded one by one.
proof fn lemma_three_parts(a: Seq<SpecNode>, m: Seq<SpecNode>, e: Seq<SpecNode>, ci: bool)
    requires
        unions::clean(a, m + e),
        unions::clean(m, e),
        sheltered_cut(a, m + e),
        sheltered_cut(m, e),
    ensures
        unions::program(a + m + e, ci) == unions::program(a, ci) + unions::program(m, ci)
            + unions::program(e, ci),
{
    let t = a + m + e;
    assert(t =~= a + (m + e));
    unions::lemma_raw_concat(a, m + e, ci);
    unions::lemma_raw_concat(m, e, ci);
    unions::lemma_raw_all_unfolded(m + e, ci);
    unions::lemma_raw_all_unfolded(e, ci);
    unions::lemma_raw_clean(a, m + e, ci);
    unions::lemma_raw_clean(m, e, ci);
    folding::lemma_fold_concat(lower::raw_all(a, ci), lower::raw_all(m + e, ci));
    folding::lemma_fold_concat(lower::raw_all(m, ci), lower::raw_all(e, ci));
    assert(unions::program(t, ci) =~= unions::program(a, ci) + unions::program(m, ci)
        + unions::program(e, ci));
}

/// A single node is spread on its own.
proof fn lemma_spread_one(x: SpecNode)
    ensures
        distribute::spread_from(seq![], seq![x]) == seq![distribute::spread(x)],
{
    let none = Seq::<SpecNode>::empty();
    let one = seq![x];
    assert(one.drop_first() =~= none);
    assert(none.push(distribute::spread(x)) =~= seq![distribute::spread(x)]);
    assert(distribute::spread_from(none.push(distribute::spread(x)), none) == none.push(
        distribute::spread(x),
    ));
}

pub proof fn lemma_raw_spread_joined(m: Seq<SpecNode>, ci: bool)
    ensures
        lower::raw(distribute::spread(factor::joined(m)), ci) == lower::raw_all(
            distribute::spread_from(seq![], m),
            ci,
        ),
{
    if m.len() == 1 {
        assert(m =~= seq![m[0]]);
        lemma_spread_one(m[0]);
        unions::lemma_raw_one(distribute::spread(m[0]), ci);
    }
}

proof fn lemma_raw_spread(n: SpecNode, ci: bool)
    ensures
        lower::raw(distribute::spread(n), ci) == lower::raw_all(
            distribute::spread_from(seq![], factor::spelled_out(n)),
            ci,
        ),
{
    if !(n is Concat) {
        lemma_spread_one(n);
        unions::lemma_raw_one(distribute::spread(n), ci);
    }
}

pub proof fn lemma_lowered_spread(n: SpecNode, ci: bool)
    ensures
        lower::lowered(n, ci) == lower::lead(
            lower::fold(lower::append_all(seq![], lower::raw(distribute::spread(n), ci))),
        ),
{
    if !distribute::crowded(n) {
        unions::lemma_spread_idle(n);
    }
}

pub proof fn lemma_spread_branches_index(bs: Seq<SpecNode>, b: bool, z: bool)
    ensures
        distribute::spread_branches(bs, b, z).len() == bs.len(),
        forall|k: int|
            0 <= k < bs.len() ==> #[trigger] distribute::spread_branches(bs, b, z)[k]
                == SpecNode::Concat(
                distribute::spread_from(seq![], distribute::framed(bs[k], b, z)),
            ),
    decreases bs.len(),
{
    if bs.len() > 0 {
        let head = bs.drop_last();
        lemma_spread_branches_index(head, b, z);
        let all = distribute::spread_branches(bs, b, z);
        let front = distribute::spread_branches(head, b, z);
        assert forall|k: int| 0 <= k < bs.len() implies #[trigger] all[k] == SpecNode::Concat(
            distribute::spread_from(seq![], distribute::framed(bs[k], b, z)),
        ) by {
            if k < front.len() {
                assert(all[k] == front[k]);
                assert(head[k] == bs[k]);
            }
        }
    }
}

/// The branches of the brace in the middle, with separators moved.
spec fn moved_middle(bs: Seq<SpecNode>) -> Seq<SpecNode> {
    if takes_start(bs) || takes_end(bs) {
        distribute::spread_branches(unions::middle(bs), takes_start(bs), takes_end(bs))
    } else {
        distribute::spread_all(unions::middle(bs))
    }
}

/// A branch of the brace in the middle has the ops of the member's middle with
/// the separators that it takes in.
proof fn lemma_branch_raw(bs: Seq<SpecNode>, i: int, ci: bool)
    requires
        bs.len() >= 2,
        forall|k: int| 0 <= k < bs.len() ==> unions::fit(factor::spelled_out(#[trigger] bs[k])),
        factor::parts(bs).1.len() == bs.len(),
        0 <= i < bs.len(),
    ensures
        moved_middle(bs).len() == bs.len(),
        lower::raw(moved_middle(bs)[i], ci) == lower::raw_all(
            distribute::spread_from(seq![], own(bs, i)),
            ci,
        ),
{
    let b = takes_start(bs);
    let z = takes_end(bs);
    let m = factor::parts(bs).1[i];
    let inner = unions::middle(bs);
    assert(inner[i] == factor::joined(m));
    unions::lemma_spread_all_index(inner);
    lemma_spread_branches_index(inner, b, z);
    if !b && !z {
        lemma_raw_spread_joined(m, ci);
        assert(own(bs, i) =~= m);
    } else {
        lemma_no_lone_group(bs, i);
        assert(distribute::opened(factor::joined(m)) =~= m);
        assert(distribute::framed(factor::joined(m), b, z) =~= own(bs, i));
    }
}

/// No separator is taken in next to a group that stands for itself.
proof fn lemma_no_lone_group(bs: Seq<SpecNode>, i: int)
    requires
        bs.len() >= 2,
        forall|k: int| 0 <= k < bs.len() ==> unions::fit(factor::spelled_out(#[trigger] bs[k])),
        0 <= i < bs.len(),
        takes_start(bs) || takes_end(bs),
    ensures
        ({
            let m = factor::parts(bs).1[i];
            m.len() == 1 ==> !(m[0] is Concat)
        }),
{
    let (start, mids, end) = factor::parts(bs);
    let m = mids[i];
    if m.len() == 1 && m[0] is Concat {
        let x = factor::spelled_out(bs[i]);
        assert(unions::fit(x));
        unions::lemma_parts_fit(bs);
        unions::lemma_parts_pieces(bs, i);
        unions::lemma_exploded_sheltered(x);
        unions::lemma_exploded_ends(start);
        unions::lemma_exploded_ends(end);
        let a = unions::exploded(start);
        let e = unions::exploded(end);
        let whole = unions::exploded(x);
        assert(m =~= seq![m[0]]);
        unions::lemma_exploded_one(m[0]);
        assert(unions::exploded(m) == seq![m[0]]);
        assert(whole =~= a + seq![m[0]] + e);
        if takes_start(bs) {
            assert(unions::sheltered_at(whole, a.len() - 1));
            assert(whole[a.len() - 1] == a.last());
            assert(whole[a.len() as int] == m[0]);
        } else {
            assert(unions::sheltered_at(whole, a.len() as int));
            assert(whole[a.len() as int] == m[0]);
            assert(whole[a.len() as int + 1] == e[0]);
        }
    }
}

/// The ops of the tree of a union.
proof fn lemma_union_raw(bs: Seq<SpecNode>, ci: bool)
    requires
        bs.len() >= 2,
        lifted(bs),
        factor::parts(bs).1.len() == bs.len(),
        leaves(factor::parts(bs).0),
        leaves(factor::parts(bs).2),
    ensures
        ({
            let alt = SpecOp::Alternation(lower::folded_branches(moved_middle(bs), ci));
            let raw = lower::raw_all(before(bs), ci) + seq![alt] + lower::raw_all(behind(bs), ci);
            &&& lower::lowered(factor::factored(bs), ci) == lower::lead(
                lower::fold(lower::append_all(seq![], raw)),
            )
            &&& folding::unfolded(raw)
            &&& lower::fold(raw) == unions::program(before(bs), ci) + seq![alt]
                + unions::program(behind(bs), ci)
        }),
{
    let (start, mids, end) = factor::parts(bs);
    let none = Seq::<SpecNode>::empty();
    let inner = unions::middle(bs);
    let brace = SpecNode::Brace(inner);
    let moved = SpecNode::Brace(moved_middle(bs));
    let alt = SpecOp::Alternation(lower::folded_branches(moved_middle(bs), ci));
    let xs = unions::nodes(bs);
    let fore = before(bs);
    let aft = behind(bs);
    assert(factor::factored(bs) == factor::joined(xs));
    lemma_lowered_spread(factor::factored(bs), ci);
    lemma_raw_spread_joined(xs, ci);
    let rest = seq![brace] + end;
    assert(xs =~= start + rest);
    assert(none + start =~= start);
    lemma_pass(none, start, rest);
    assert(rest[0] == brace);
    assert(rest.drop_first() =~= end);
    if !takes_start(bs) && !takes_end(bs) {
        assert(distribute::spread(brace) == moved);
    }
    assert(distribute::takes_before(start, inner) == takes_start(bs));
    assert(distribute::takes_after(inner, rest.drop_first()) == takes_end(bs));
    assert(distribute::spread_from(start, rest) == distribute::spread_from(
        fore.push(moved),
        aft,
    ));
    assert(leaves(aft)) by {
        assert forall|k: int| 0 <= k < aft.len() implies factor::leaf(#[trigger] aft[k]) by {
            if takes_end(bs) {
                assert(aft[k] == end[k + 1]);
            } else {
                assert(aft[k] == end[k]);
            }
        }
    }
    lemma_pass(fore.push(moved), aft, none);
    assert(aft + none =~= aft);
    let all = fore + seq![moved] + aft;
    assert(fore.push(moved) + aft =~= all);
    assert(distribute::spread_from(seq![], xs) == all);
    unions::lemma_raw_concat(fore + seq![moved], aft, ci);
    unions::lemma_raw_concat(fore, seq![moved], ci);
    unions::lemma_raw_one(moved, ci);
    let rs = lower::raw_all(fore, ci);
    let re = lower::raw_all(aft, ci);
    assert(lower::raw_all(all, ci) =~= rs + seq![alt] + re);
    unions::lemma_raw_all_unfolded(all, ci);
    unions::lemma_raw_all_unfolded(aft, ci);
    folding::lemma_fold_still(seq![alt]);
    folding::lemma_fold_concat(rs, seq![alt]);
    assert((rs + seq![alt]).last() == alt);
    folding::lemma_fold_concat(rs + seq![alt], re);
}

/// Written byte by byte, a member is what stands before the brace, its middle
/// with the separators that it takes in, and what stands behind.
proof fn lemma_member_pieces(bs: Seq<SpecNode>, i: int)
    requires
        bs.len() >= 2,
        0 <= i < bs.len(),
    ensures
        unions::exploded(factor::spelled_out(bs[i])) == unions::exploded(before(bs))
            + unions::exploded(own(bs, i)) + unions::exploded(behind(bs)),
{
    let (start, mids, end) = factor::parts(bs);
    let front = distribute::sep_if(takes_start(bs));
    let back = distribute::sep_if(takes_end(bs));
    let m = mids[i];
    unions::lemma_parts_pieces(bs, i);
    assert(start =~= before(bs) + front);
    assert(end =~= back + behind(bs));
    unions::lemma_exploded_concat(before(bs), front);
    unions::lemma_exploded_concat(back, behind(bs));
    unions::lemma_exploded_concat(front + m, back);
    unions::lemma_exploded_concat(front, m);
    assert(unions::exploded(factor::spelled_out(bs[i])) =~= unions::exploded(before(bs))
        + unions::exploded(own(bs, i)) + unions::exploded(behind(bs)));
}

/// How what is shared and the middle of a member meet.
proof fn lemma_member_edges(bs: Seq<SpecNode>, i: int)
    requires
        bs.len() >= 2,
        forall|k: int| 0 <= k < bs.len() ==> unions::fit(factor::spelled_out(#[trigger] bs[k])),
        untorn(bs),
        0 <= i < bs.len(),
    ensures
        ({
            let a = unions::exploded(before(bs));
            let e = unions::exploded(behind(bs));
            let m = unions::exploded(own(bs, i));
            &&& leaves(e)
            &&& leaves(a)
            &&& ast::all_sound(own(bs, i))
            &&& ast::all_sound(before(bs))
            &&& ast::all_sound(behind(bs))
            &&& unions::clean(a, m + e)
            &&& unions::clean(m, e)
            &&& m.len() > 0 ==> (m[0] matches SpecNode::Brace(xs) ==> !distribute::takes_before(
                a,
                xs,
            ))
            &&& m.len() > 0 ==> (m.last() matches SpecNode::Brace(xs) ==> !distribute::takes_after(
                xs,
                e,
            ))
        }),
{
    let (start, mids, end) = factor::parts(bs);
    let b = takes_start(bs);
    let z = takes_end(bs);
    let front = distribute::sep_if(b);
    let back = distribute::sep_if(z);
    let mid = mids[i];
    let fore = before(bs);
    let aft = behind(bs);
    let o = own(bs, i);
    unions::lemma_parts_fit(bs);
    assert(ast::all_sound(mid));
    assert(unions::middle(bs)[i] == factor::joined(mid));
    assert(ast::all_sound(fore) && leaves(fore)) by {
        assert forall|k: int| 0 <= k < fore.len() implies ast::sound(#[trigger] fore[k])
            && factor::leaf(fore[k]) by {
            assert(fore[k] == start[k]);
            assert(ast::sound(start[k]) && factor::leaf(start[k]));
        }
    }
    assert(ast::all_sound(aft) && leaves(aft)) by {
        assert forall|k: int| 0 <= k < aft.len() implies ast::sound(#[trigger] aft[k])
            && factor::leaf(aft[k]) by {
            if z {
                assert(aft[k] == end[k + 1]);
                assert(ast::sound(end[k + 1]) && factor::leaf(end[k + 1]));
            } else {
                assert(aft[k] == end[k]);
                assert(ast::sound(end[k]) && factor::leaf(end[k]));
            }
        }
    }
    assert(ast::all_sound(o)) by {
        assert forall|k: int| 0 <= k < o.len() implies ast::sound(#[trigger] o[k]) by {
            if front.len() <= k < front.len() + mid.len() {
                assert(o[k] == mid[k - front.len()]);
                assert(ast::sound(mid[k - front.len()]));
            }
        }
    }
    lemma_exploded_leaves(fore);
    lemma_exploded_leaves(aft);
    unions::lemma_exploded_ends(start);
    unions::lemma_exploded_ends(end);
    unions::lemma_exploded_ends(fore);
    unions::lemma_exploded_ends(aft);
    unions::lemma_exploded_ends(mid);
    unions::lemma_exploded_ends(o);
    let a = unions::exploded(fore);
    let e = unions::exploded(aft);
    let m = unions::exploded(o);
    let em = unions::exploded(mid);
    assert(unions::clean(em, unions::exploded(end)));
    assert(unions::clean(unions::exploded(start), em + unions::exploded(end)));
    if b {
        assert(o[0] is Separator);
        if fore.len() > 0 {
            assert(fore.last() == start[start.len() - 2]);
        }
    } else {
        assert(fore == start);
        if mid.len() > 0 {
            assert(o[0] == mid[0]);
            assert((em + unions::exploded(end))[0] == em[0]);
        } else {
            assert(em.len() == 0);
            assert(em + unions::exploded(end) =~= unions::exploded(end));
            if z {
                assert(o[0] is Separator);
            } else {
                assert(o =~= mid);
            }
        }
    }
    if z {
        assert(o.last() is Separator);
        if aft.len() > 0 {
            assert(aft[0] == end[1]);
        }
    } else {
        assert(aft == end);
        if mid.len() > 0 {
            assert(o.last() == mid.last());
        } else if b {
            assert(o.last() is Separator);
        } else {
            assert(o =~= mid);
        }
    }
    if m.len() > 0 {
        assert((m + e)[0] == m[0]);
    } else {
        assert(m + e =~= e);
    }
    if o.len() > 0 {
        lemma_edges_lead(o);
        lemma_exploded_edges(fore, aft);
        if mid.len() > 0 {
            lemma_edges_lead(mid);
        }
        if let SpecNode::Brace(xs) = m[0] {
            if distribute::takes_before(a, xs) {
                assert(!b);
                assert(mid.len() > 0);
                assert(em[0] == mid[0]);
                assert(distribute::leads(unions::middle(bs)[i]));
                assert(takes_start(bs));
            }
        }
        if let SpecNode::Brace(xs) = m.last() {
            if distribute::takes_after(xs, e) {
                assert(!z);
                assert(mid.len() > 0);
                assert(em.last() == mid.last());
                assert(distribute::trails(unions::middle(bs)[i]));
                assert(takes_end(bs));
            }
        }
    }
}

/// The middle of a member meets what is shared in clean cuts, before and after
/// its separators are moved.
proof fn lemma_member_parts(bs: Seq<SpecNode>, i: int)
    requires
        bs.len() >= 2,
        forall|k: int| 0 <= k < bs.len() ==> unions::fit(factor::spelled_out(#[trigger] bs[k])),
        untorn(bs),
        0 <= i < bs.len(),
    ensures
        ({
            let a = unions::exploded(before(bs));
            let e = unions::exploded(behind(bs));
            let m = unions::exploded(distribute::spread_from(seq![], own(bs, i)));
            &&& unions::exploded(
                distribute::spread_from(seq![], factor::spelled_out(bs[i])),
            ) == a + m + e
            &&& unions::clean(a, m + e)
            &&& unions::clean(m, e)
            &&& sheltered_cut(a, m + e)
            &&& sheltered_cut(m, e)
        }),
{
    let none = Seq::<SpecNode>::empty();
    let x = factor::spelled_out(bs[i]);
    let o = own(bs, i);
    let a = unions::exploded(before(bs));
    let e = unions::exploded(behind(bs));
    let em = unions::exploded(o);
    let m = unions::exploded(distribute::spread_from(none, o));
    lemma_member_edges(bs, i);
    lemma_member_pieces(bs, i);
    assert(unions::fit(x));
    assert(unions::exploded(none) =~= none);
    lemma_spread_exploded(none, x);
    lemma_spread_exploded(none, o);
    assert(m == distribute::spread_from(none, em));
    unions::lemma_exploded_sheltered(x);
    let whole = unions::exploded(x);
    assert(whole == a + em + e);
    if em.len() > 0 {
        assert((em + e)[0] == em[0]);
    }
    lemma_spread_between(a, none, em, e);
    assert(a + none =~= a);
    assert(whole =~= a + (em + e));
    assert(distribute::spread_from(none, whole) == a + m + e) by {
        lemma_pass(none, a, em + e);
        assert(none + a =~= a);
    }
    lemma_spread_ends(none, em);
    assert(none + em =~= em);
    if a.len() > 0 && (em + e).len() > 0 {
        assert(unions::sheltered_at(whole, a.len() - 1));
        assert(whole[a.len() - 1] == a.last());
        assert(whole[a.len() as int] == (em + e)[0]);
    }
    if em.len() > 0 && e.len() > 0 {
        assert(unions::sheltered_at(whole, a.len() + em.len() - 1));
        assert(whole[a.len() + em.len() - 1] == em.last());
        assert(whole[(a.len() + em.len()) as int] == e[0]);
    }
    if m.len() > 0 {
        assert((m + e)[0] == m[0]);
    } else {
        assert(m + e =~= e);
        assert(em + e =~= e);
    }
}

proof fn lemma_exploded_leaves(s: Seq<SpecNode>)
    requires
        leaves(s),
    ensures
        leaves(unions::exploded(s)),
    decreases s.len(),
{
    if s.len() > 0 {
        let head = s.drop_last();
        assert(leaves(head)) by {
            assert forall|k: int| 0 <= k < head.len() implies factor::leaf(#[trigger] head[k]) by {
                assert(head[k] == s[k]);
            }
        }
        lemma_exploded_leaves(head);
        assert(factor::leaf(s[s.len() - 1]));
        let a = unions::exploded(head);
        let b = unions::pieces(s.last());
        assert forall|k: int| 0 <= k < (a + b).len() implies factor::leaf(#[trigger] (a + b)[k]) by {
            if k < a.len() {
                assert((a + b)[k] == a[k]);
            } else {
                assert((a + b)[k] == b[k - a.len()]);
            }
        }
    }
}

/// A brace at the edge of a sequence stands there when bytes are written one by
/// one, and makes the sequence lead or trail.
proof fn lemma_edges_lead(m: Seq<SpecNode>)
    requires
        m.len() > 0,
        ast::all_sound(m),
    ensures
        ({
            let em = unions::exploded(m);
            &&& em.len() > 0
            &&& em[0] is Brace ==> m[0] == em[0]
            &&& em.last() is Brace ==> m.last() == em.last()
            &&& em[0] matches SpecNode::Brace(bs) ==> (distribute::some_leads(bs)
                ==> distribute::leads(factor::joined(m)))
            &&& em.last() matches SpecNode::Brace(bs) ==> (distribute::some_trails(bs)
                ==> distribute::trails(factor::joined(m)))
        }),
{
    let em = unions::exploded(m);
    let head = m.drop_last();
    let more = m.drop_first();
    assert(ast::sound(m[0]));
    assert(ast::sound(m[m.len() - 1]));
    unions::lemma_exploded_one(m[0]);
    unions::lemma_exploded_concat(seq![m[0]], more);
    assert(seq![m[0]] + more =~= m);
    assert(em == unions::exploded(head) + unions::pieces(m.last()));
    assert(em[0] == unions::pieces(m[0])[0]);
    assert(em.last() == unions::pieces(m.last()).last());
    if let SpecNode::Brace(bs) = em[0] {
        assert(m[0] == em[0]);
        if distribute::some_leads(bs) {
            assert(distribute::leads(m[0]));
            assert(distribute::leads(factor::joined(m)));
        }
    }
    if let SpecNode::Brace(bs) = em.last() {
        assert(m.last() == em.last());
        if distribute::some_trails(bs) {
            assert(distribute::trails(m[m.len() - 1]));
            assert(distribute::trails(factor::joined(m)));
        }
    }
}

/// The last separator of a sequence is owned by the same `**` when bytes are
/// written one by one.
proof fn lemma_exploded_edges(start: Seq<SpecNode>, end: Seq<SpecNode>)
    requires
        ast::all_sound(start),
        ast::all_sound(end),
    ensures
        forall|bs: Seq<SpecNode>| #[trigger]
            distribute::takes_before(unions::exploded(start), bs) == distribute::takes_before(
                start,
                bs,
            ),
        forall|bs: Seq<SpecNode>| #[trigger]
            distribute::takes_after(bs, unions::exploded(end)) == distribute::takes_after(bs, end),
{
    assert forall|bs: Seq<SpecNode>| #[trigger]
        distribute::takes_before(unions::exploded(start), bs) == distribute::takes_before(
            start,
            bs,
        ) by {
        lemma_takes_exploded(start, bs, end);
    }
    assert forall|bs: Seq<SpecNode>| #[trigger]
        distribute::takes_after(bs, unions::exploded(end)) == distribute::takes_after(bs, end) by {
        lemma_takes_exploded(start, bs, end);
    }
}

/// Moving separators keeps groups sheltered and every `**` apart from the next.
proof fn lemma_spread_shape(out: Seq<SpecNode>, rest: Seq<SpecNode>)
    requires
        unions::sheltered(out + rest),
        unions::spaced(out + rest),
    ensures
        unions::sheltered(distribute::spread_from(out, rest)),
        unions::spaced(distribute::spread_from(out, rest)),
    decreases distribute::weights(rest), rest.len(),
{
    let w = out + rest;
    if rest.len() == 0 {
        assert(w =~= out);
    } else {
        let x = rest[0];
        let tail = rest.drop_first();
        distribute::lemma_weights_first(rest);
        if tail.len() > 0 {
            distribute::lemma_weights_first(tail);
        }
        let n = out.len() as int;
        assert(forall|k: int| 0 <= k < n ==> #[trigger] w[k] == out[k]);
        assert(forall|k: int| 0 <= k < tail.len() ==> #[trigger] w[n + 1 + k] == tail[k]);
        assert(w[n] == x);
        let (kept, node, left) = match x {
            SpecNode::Brace(bs) => {
                let before = distribute::takes_before(out, bs);
                let after = distribute::takes_after(bs, tail);
                (
                    if before {
                        out.drop_last()
                    } else {
                        out
                    },
                    if !before && !after {
                        distribute::spread(x)
                    } else {
                        SpecNode::Brace(distribute::spread_branches(bs, before, after))
                    },
                    if after {
                        tail.drop_first()
                    } else {
                        tail
                    },
                )
            },
            _ => (out, distribute::spread(x), tail),
        };
        let a = kept.len() as int;
        let d = if left.len() < tail.len() {
            1int
        } else {
            0int
        };
        let v = kept.push(node) + left;
        assert(forall|k: int| 0 <= k < a ==> #[trigger] v[k] == w[k]);
        assert(v[a] == node);
        assert forall|k: int| 0 <= k < left.len() implies #[trigger] v[a + 1 + k] == w[n + 1 + d
            + k] by {
            assert(left[k] == tail[d + k]);
            assert(w[n + 1 + (d + k)] == tail[d + k]);
        }
        assert forall|k: int| #[trigger] unions::sheltered_at(v, k) by {
            if 0 <= k && k + 1 < v.len() {
                if k + 1 < a {
                    assert(unions::sheltered_at(w, k));
                } else if k + 1 == a {
                    assert(unions::sheltered_at(w, k));
                } else if k == a {
                    assert(v[k + 1] == v[a + 1 + 0]);
                    assert(unions::sheltered_at(w, n + d));
                    assert(w[n + d + 1] == v[k + 1]);
                } else {
                    let g = k - a - 1;
                    assert(v[k] == v[a + 1 + g] && v[k + 1] == v[a + 1 + (g + 1)]);
                    assert(unions::sheltered_at(w, n + 1 + d + g));
                }
            }
        }
        assert forall|k: int| #[trigger] unions::spaced_at(v, k) by {
            if 0 <= k && k + 2 < v.len() {
                if k + 2 < a {
                    assert(unions::spaced_at(w, k));
                } else if k > a {
                    let g = k - a - 1;
                    assert(v[k] == v[a + 1 + g] && v[k + 1] == v[a + 1 + (g + 1)] && v[k + 2]
                        == v[a + 1 + (g + 2)]);
                    assert(unions::spaced_at(w, n + 1 + d + g));
                } else if x is Brace {
                    assert(v[a] is Brace);
                } else {
                    assert(a == n && d == 0);
                    assert(unions::spaced_at(w, k));
                    assert(forall|j: int| k <= j <= k + 2 && j > a ==> v[j] == #[trigger] v[a + 1 + (
                    j - a - 1)]);
                    if k + 1 > a {
                        assert(v[k + 1] == v[a + 1 + (k - a)]);
                    }
                    if k + 2 > a {
                        assert(v[k + 2] == v[a + 1 + (k + 1 - a)]);
                    }
                }
            }
        }
        lemma_spread_shape(kept.push(node), left);
    }
}

/// A sequence of the shape that the parser gives keeps it when separators are
/// moved.
proof fn lemma_moved_shape(x: Seq<SpecNode>)
    requires
        unions::fit(x),
        unions::first_ok(x),
    ensures
        unions::fit(distribute::spread_from(seq![], x)),
        unions::first_ok(distribute::spread_from(seq![], x)),
{
    let none = Seq::<SpecNode>::empty();
    assert(none + x =~= x);
    lemma_spread_shape(none, x);
    lemma_spread_ends(none, x);
    distribute::lemma_spread_from_sound(none, x);
}

/// What the members of a union are like.
pub open spec fn proper(bs: Seq<SpecNode>) -> bool {
    forall|k: int| 0 <= k < bs.len() ==> #[trigger] proper_node(bs[k])
}

/// What the parser gives.
pub open spec fn proper_node(n: SpecNode) -> bool {
    &&& unions::fit(factor::spelled_out(n))
    &&& unions::first_ok(factor::spelled_out(n))
    &&& factor::joined(factor::spelled_out(n)) == n
}

/// What stands before the brace is like.
proof fn lemma_fore_shape(bs: Seq<SpecNode>)
    requires
        bs.len() >= 2,
        proper(bs),
        untorn(bs),
    ensures
        unions::fit(before(bs)),
        unions::first_ok(before(bs)),
{
    assert forall|k: int| 0 <= k < bs.len() implies unions::fit(
        factor::spelled_out(#[trigger] bs[k]),
    ) by {
        assert(proper_node(bs[k]));
    }
    lemma_member_edges(bs, 0);
    lemma_member_pieces(bs, 0);
    unions::lemma_parts_fit(bs);
    let fore = before(bs);
    let x = factor::spelled_out(bs[0]);
    assert(unions::fit(x));
    unions::lemma_exploded_spaced(x);
    let a = unions::exploded(fore);
    assert(a =~= unions::exploded(x).take(a.len() as int));
    unions::lemma_spaced_take(unions::exploded(x), a.len() as int);
    unions::lemma_imploded(fore);
    let start = factor::parts(bs).0;
    assert forall|k: int| 0 <= k < fore.len() implies factor::leaf(#[trigger] fore[k]) by {
        assert(fore[k] == start[k]);
        assert(factor::leaf(start[k]));
    }
    assert forall|k: int| #[trigger] unions::sheltered_at(fore, k) by {
        if 0 <= k && k + 1 < fore.len() {
            assert(factor::leaf(fore[k]) && factor::leaf(fore[k + 1]));
        }
    }
}

/// What the middle of a member is like where nothing stands before it.
proof fn lemma_own_shape(bs: Seq<SpecNode>, i: int)
    requires
        bs.len() >= 2,
        proper(bs),
        untorn(bs),
        0 <= i < bs.len(),
        before(bs).len() == 0,
    ensures
        unions::fit(own(bs, i)),
        unions::first_ok(own(bs, i)),
        unions::exploded(factor::spelled_out(bs[i])) == unions::exploded(own(bs, i))
            + unions::exploded(behind(bs)),
{
    assert forall|k: int| 0 <= k < bs.len() implies unions::fit(
        factor::spelled_out(#[trigger] bs[k]),
    ) by {
        assert(proper_node(bs[k]));
    }
    assert(proper_node(bs[i]));
    lemma_member_edges(bs, i);
    lemma_member_pieces(bs, i);
    let x = factor::spelled_out(bs[i]);
    let o = own(bs, i);
    let t = unions::exploded(x);
    let m = unions::exploded(o);
    assert(unions::exploded(before(bs)).len() == 0);
    assert(t =~= m + unions::exploded(behind(bs)));
    assert(m =~= t.take(m.len() as int));
    unions::lemma_exploded_spaced(x);
    unions::lemma_exploded_sheltered(x);
    unions::lemma_exploded_ends(x);
    unions::lemma_exploded_ends(o);
    unions::lemma_spaced_take(t, m.len() as int);
    assert forall|k: int| #[trigger] unions::sheltered_at(m, k) by {
        assert(unions::sheltered_at(t, k));
    }
    unions::lemma_imploded(o);
    if o.len() > 0 {
        assert(m[0] == t[0]);
    }
}

/// Leaves that start with no `**` absorb no leading separators.
proof fn lemma_idle_leaves(end: Seq<SpecNode>, ci: bool)
    requires
        leaves(end),
        ast::all_sound(end),
        end.len() > 0 ==> !(end[0] is Globstar),
    ensures
        lower::lead(unions::program(unions::exploded(end), ci)) == unions::program(
            unions::exploded(end),
            ci,
        ),
{
    let e = unions::exploded(end);
    if end.len() == 0 {
        assert(e.len() == 0);
        assert(lower::raw_all(e, ci).len() == 0);
        assert(unions::program(e, ci).len() == 0);
    } else {
        assert(factor::leaf(end[0]));
        unions::lemma_exploded_ends(end);
        unions::lemma_exploded_first(end);
        assert(e[0] == unions::pieces(end[0])[0]);
        assert forall|k: int| #[trigger] unions::sheltered_at(end, k) by {
            if 0 <= k && k + 1 < end.len() {
                assert(factor::leaf(end[k]) && factor::leaf(end[k + 1]));
            }
        }
        unions::lemma_exploded_sheltered(end);
        unions::lemma_raw_heads(e, ci);
        unions::lemma_raw_all_unfolded(e, ci);
        folding::lemma_led(lower::raw_all(e, ci));
    }
}

/// A member with leading separators absorbed is its three parts.
proof fn lemma_member_lead(bs: Seq<SpecNode>, i: int, ci: bool, cx: Cx, s: Seq<u8>)
    requires
        bs.len() >= 2,
        proper(bs),
        untorn(bs),
        0 <= i < bs.len(),
    ensures
        ({
            let a = unions::exploded(before(bs));
            let e = unions::exploded(behind(bs));
            let m = unions::exploded(distribute::spread_from(seq![], own(bs, i)));
            lang::matches(lower::lowered(bs[i], ci), cx, s) == lang::ops_span(
                lower::lead(
                    unions::program(a, ci) + unions::program(m, ci) + unions::program(e, ci),
                ),
                cx,
                s,
                0,
                s.len() as int,
            )
        }),
{
    assert forall|k: int| 0 <= k < bs.len() implies unions::fit(
        factor::spelled_out(#[trigger] bs[k]),
    ) by {
        assert(proper_node(bs[k]));
    }
    assert(proper_node(bs[i]));
    let x = factor::spelled_out(bs[i]);
    let moved = distribute::spread_from(seq![], x);
    lemma_member_parts(bs, i);
    lemma_lowered_spread(bs[i], ci);
    lemma_raw_spread(bs[i], ci);
    lemma_moved_shape(x);
    unions::lemma_merged_lead(moved, ci, cx, s);
    assert(folding::alike_at(
        lower::lead(lower::fold(lower::append_all(seq![], lower::raw_all(moved, ci)))),
        lower::lead(unions::program(unions::exploded(moved), ci)),
        cx,
        s,
        0,
        s.len() as int,
    ));
    lemma_three_parts(
        unions::exploded(before(bs)),
        unions::exploded(distribute::spread_from(seq![], own(bs, i))),
        unions::exploded(behind(bs)),
        ci,
    );
}

/// The raw ops of the tree of a union open with at most one `**/`.
proof fn lemma_opens_once(fore: Seq<SpecNode>, alt: SpecOp, re: Seq<SpecOp>, ci: bool)
    requires
        unions::fit(fore),
        unions::first_ok(fore),
        alt is Alternation,
    ensures
        folding::opens_once(lower::raw_all(fore, ci) + seq![alt] + re),
{
    let rs = lower::raw_all(fore, ci);
    let raw = rs + seq![alt] + re;
    if fore.len() > 0 {
        unions::lemma_raw_heads(fore, ci);
        assert(raw[0] == rs[0]);
        if folding::opens(raw) {
            if rs.len() == 1 {
                assert(raw[1] == alt);
            }
            assert(raw[1] == rs[1]);
            assert(unions::spaced_at(fore, 0));
            if rs.len() == 2 {
                assert(raw[2] == alt);
            } else {
                assert(raw[2] == rs[2]);
            }
        }
    } else {
        assert(rs.len() == 0);
        assert(raw[0] == alt);
    }
}

/// Where what the members share is lifted, the tree of their union matches what
/// the tree of some member matches.
#[verifier::spinoff_prover]
proof fn lemma_lifted_union(bs: Seq<SpecNode>, ci: bool, cx: Cx, s: Seq<u8>)
    requires
        bs.len() >= 2,
        proper(bs),
        lifted(bs),
    ensures
        lang::matches(lower::lowered(factor::factored(bs), ci), cx, s) <==> exists|i: int|
            0 <= i < bs.len() && lang::matches(
                lower::lowered(#[trigger] bs[i], ci),
                cx,
                s,
            ),
{
    let j = s.len() as int;
    let none = Seq::<SpecOp>::empty();
    assert forall|k: int| 0 <= k < bs.len() implies unions::fit(
        factor::spelled_out(#[trigger] bs[k]),
    ) by {
        assert(proper_node(bs[k]));
    }
    unions::lemma_parts_fit(bs);
    lemma_union_raw(bs, ci);
    lemma_member_edges(bs, 0);
    lemma_fore_shape(bs);
    let fore = before(bs);
    let aft = behind(bs);
    let branches = lower::folded_branches(moved_middle(bs), ci);
    let alt = SpecOp::Alternation(branches);
    let raw = lower::raw_all(fore, ci) + seq![alt] + lower::raw_all(aft, ci);
    let ps = unions::program(fore, ci);
    let pe = unions::program(aft, ci);
    let pa = unions::program(unions::exploded(fore), ci);
    let pz = unions::program(unions::exploded(aft), ci);
    let pms = Seq::new(
        bs.len(),
        |i: int|
            unions::program(unions::exploded(distribute::spread_from(seq![], own(bs, i))), ci),
    );
    lemma_branch_raw(bs, 0, ci);
    unions::lemma_folded_branches(moved_middle(bs), ci);
    unions::lemma_program_pieces(aft, ci, cx, s);
    assert forall|i: int| 0 <= i < bs.len() implies lang::matches(
        lower::lowered(#[trigger] bs[i], ci),
        cx,
        s,
    ) == lang::ops_span(lower::lead(pa + pms[i] + pz), cx, s, 0, j) by {
        lemma_member_lead(bs, i, ci, cx, s);
    }
    lemma_opens_once(fore, alt, lower::raw_all(aft, ci), ci);
    folding::lemma_merge_lead(raw, cx, s);
    assert(folding::alike_at(
        lower::lead(lower::fold(lower::append_all(seq![], raw))),
        lower::lead(lower::fold(raw)),
        cx,
        s,
        0,
        j,
    ));
    if fore.len() > 0 {
        unions::lemma_program_some(fore, ci);
        unions::lemma_exploded_ends(fore);
        unions::lemma_exploded_sheltered(fore);
        unions::lemma_exploded_lead(fore, ci, cx, s);
        unions::lemma_program_some(unions::exploded(fore), ci);
        let la = lower::lead(pa);
        unions::lemma_lead_part(ps, seq![alt] + pe);
        assert(ps + seq![alt] + pe =~= ps + (seq![alt] + pe));
        assert(lower::lead(ps) + (seq![alt] + pe) =~= lower::lead(ps) + seq![alt] + pe);
        folding::lemma_alike_self(seq![alt], cx, s);
        folding::lemma_alike_concat(lower::lead(ps), la, seq![alt], seq![alt], cx, s);
        folding::lemma_alike_concat(
            lower::lead(ps) + seq![alt],
            la + seq![alt],
            pe,
            pz,
            cx,
            s,
        );
        assert(folding::alike_at(
            lower::lead(ps) + seq![alt] + pe,
            la + seq![alt] + pz,
            cx,
            s,
            0,
            j,
        ));
        assert forall|i: int| 0 <= i < pms.len() implies folding::alike(
            #[trigger] branches[i],
            pms[i],
            cx,
            s,
        ) by {
            lemma_member_edges(bs, i);
            lemma_branch_raw(bs, i, ci);
            distribute::lemma_spread_from_sound(seq![], own(bs, i));
            unions::lemma_merged_program(distribute::spread_from(seq![], own(bs, i)), ci, cx, s);
        }
        unions::lemma_alternatives(la, branches, pms, pz, cx, s, j);
        assert forall|i: int| 0 <= i < bs.len() implies lower::lead(pa + #[trigger] pms[i] + pz)
            == la + pms[i] + pz by {
            assert(pa + pms[i] + pz =~= pa + (pms[i] + pz));
            unions::lemma_lead_part(pa, pms[i] + pz);
            assert(la + (pms[i] + pz) =~= la + pms[i] + pz);
        }
        lemma_some_member(bs, la, pms, pz, pa, pms, ci, cx, s);
    } else {
        assert(unions::exploded(fore).len() == 0);
        assert(lower::raw_all(unions::exploded(fore), ci).len() == 0);
        assert(pa =~= none);
        assert(ps =~= none);
        let led = lower::lead_branches(branches);
        let alt2 = SpecOp::Alternation(led);
        assert(ps + seq![alt] + pe =~= seq![alt] + pe);
        assert(lower::lead(seq![alt] + pe) =~= none + seq![alt2] + pe);
        folding::lemma_alike_self(none + seq![alt2], cx, s);
        folding::lemma_alike_concat(none + seq![alt2], none + seq![alt2], pe, pz, cx, s);
        assert(folding::alike_at(
            none + seq![alt2] + pe,
            none + seq![alt2] + pz,
            cx,
            s,
            0,
            j,
        ));
        let lms = Seq::new(bs.len(), |i: int| lower::lead(pms[i]));
        unions::lemma_lead_branches(branches);
        assert forall|i: int| 0 <= i < lms.len() implies folding::alike(
            #[trigger] led[i],
            lms[i],
            cx,
            s,
        ) by {
            lemma_own_shape(bs, i);
            lemma_moved_shape(own(bs, i));
            lemma_branch_raw(bs, i, ci);
            unions::lemma_merged_lead(distribute::spread_from(seq![], own(bs, i)), ci, cx, s);
            assert(led[i] == lower::lead(branches[i]));
        }
        unions::lemma_alternatives(none, led, lms, pz, cx, s, j);
        lemma_idle_behind(bs);
        lemma_idle_leaves(aft, ci);
        assert forall|i: int| 0 <= i < bs.len() implies lower::lead(pa + #[trigger] pms[i] + pz)
            == none + lms[i] + pz by {
            let pm = pms[i];
            let o = own(bs, i);
            let w = distribute::spread_from(seq![], o);
            assert(pa + pm + pz =~= pm + pz);
            lemma_own_shape(bs, i);
            lemma_moved_shape(o);
            lemma_spread_ends(seq![], o);
            assert(Seq::<SpecNode>::empty() + o =~= o);
            if w.len() > 0 {
                unions::lemma_exploded_ends(w);
                unions::lemma_exploded_sheltered(w);
                unions::lemma_program_some(unions::exploded(w), ci);
                unions::lemma_lead_part(pm, pz);
                assert(none + lms[i] + pz =~= lower::lead(pm) + pz);
            } else {
                assert(unions::exploded(w).len() == 0);
                assert(lower::raw_all(unions::exploded(w), ci).len() == 0);
                assert(pm =~= none);
                assert(lms[i] =~= none);
                assert(pm + pz =~= pz);
                assert(none + lms[i] + pz =~= pz);
            }
        }
        lemma_some_member(bs, none, lms, pz, pa, pms, ci, cx, s);
    }
}

/// Some member matches exactly if its parts do.
proof fn lemma_some_member(
    bs: Seq<SpecNode>,
    la: Seq<SpecOp>,
    lms: Seq<Seq<SpecOp>>,
    pz: Seq<SpecOp>,
    pa: Seq<SpecOp>,
    pms: Seq<Seq<SpecOp>>,
    ci: bool,
    cx: Cx,
    s: Seq<u8>,
)
    requires
        lms.len() == bs.len(),
        pms.len() == bs.len(),
        forall|i: int|
            0 <= i < bs.len() ==> lower::lead(pa + #[trigger] pms[i] + pz) == la + lms[i] + pz,
        forall|i: int|
            0 <= i < bs.len() ==> lang::matches(lower::lowered(#[trigger] bs[i], ci), cx, s)
                == lang::ops_span(lower::lead(pa + pms[i] + pz), cx, s, 0, s.len() as int),
    ensures
        (exists|i: int|
            0 <= i < lms.len() && lang::ops_span(
                la + #[trigger] lms[i] + pz,
                cx,
                s,
                0,
                s.len() as int,
            )) <==> exists|i: int|
            0 <= i < bs.len() && lang::matches(lower::lowered(#[trigger] bs[i], ci), cx, s),
{
    let j = s.len() as int;
    if exists|i: int|
        0 <= i < lms.len() && lang::ops_span(la + #[trigger] lms[i] + pz, cx, s, 0, j) {
        let i = choose|i: int|
            0 <= i < lms.len() && lang::ops_span(la + #[trigger] lms[i] + pz, cx, s, 0, j);
        assert(lower::lead(pa + pms[i] + pz) == la + lms[i] + pz);
        assert(lang::matches(lower::lowered(bs[i], ci), cx, s));
    }
    if exists|i: int|
        0 <= i < bs.len() && lang::matches(lower::lowered(#[trigger] bs[i], ci), cx, s) {
        let i = choose|i: int|
            0 <= i < bs.len() && lang::matches(lower::lowered(#[trigger] bs[i], ci), cx, s);
        assert(lower::lead(pa + pms[i] + pz) == la + lms[i] + pz);
        assert(lang::ops_span(la + lms[i] + pz, cx, s, 0, j));
    }
}

/// Where nothing stands before the brace, what stands behind it starts with no
/// `**`.
proof fn lemma_idle_behind(bs: Seq<SpecNode>)
    requires
        lifted(bs),
        before(bs).len() == 0,
    ensures
        behind(bs).len() > 0 ==> !(behind(bs)[0] is Globstar),
{
    let (start, mids, end) = factor::parts(bs);
    if behind(bs).len() > 0 {
        if takes_end(bs) {
            assert(behind(bs)[0] == end[1]);
        } else {
            assert(behind(bs)[0] == end[0]);
        }
    }
}

/// A brace alone matches what the tree of some branch matches.
proof fn lemma_brace_alone(bs: Seq<SpecNode>, ci: bool, cx: Cx, s: Seq<u8>)
    ensures
        lang::matches(lower::lowered(SpecNode::Brace(bs), ci), cx, s) <==> exists|i: int|
            0 <= i < bs.len() && lang::matches(
                lower::lowered(#[trigger] bs[i], ci),
                cx,
                s,
            ),
{
    let j = s.len() as int;
    lemma_brace_lowered(bs, ci);
    let n = SpecNode::Brace(bs);
    let led = (lower::lowered(n, ci)[0])->Alternation_0;
    let top = SpecOp::Alternation(led);
    assert(lower::lowered(n, ci) =~= seq![top]);
    lang::lemma_span_single(top, cx, s, 0, j);
    if lang::some_span(led, cx, s, 0, j) {
        let i = choose|i: int| 0 <= i < led.len() && lang::ops_span(#[trigger] led[i], cx, s, 0, j);
        assert(lang::matches(lower::lowered(bs[i], ci), cx, s));
    }
    if exists|i: int|
        0 <= i < bs.len() && lang::matches(lower::lowered(#[trigger] bs[i], ci), cx, s) {
        let i = choose|i: int|
            0 <= i < bs.len() && lang::matches(lower::lowered(#[trigger] bs[i], ci), cx, s);
        assert(lang::ops_span(led[i], cx, s, 0, j));
        assert(lang::some_span(led, cx, s, 0, j));
    }
}

/// The program of a brace alone is the programs of its branches.
pub proof fn lemma_brace_lowered(bs: Seq<SpecNode>, ci: bool)
    ensures
        ({
            let ops = lower::lowered(SpecNode::Brace(bs), ci);
            &&& ops.len() == 1
            &&& ops[0] is Alternation
            &&& (ops[0]->Alternation_0).len() == bs.len()
            &&& forall|i: int|
                0 <= i < bs.len() ==> #[trigger] (ops[0]->Alternation_0)[i] == lower::lowered(
                    bs[i],
                    ci,
                )
        }),
{
    let n = SpecNode::Brace(bs);
    let spread = distribute::crowded(n);
    let inner = if spread {
        distribute::spread_all(bs)
    } else {
        bs
    };
    unions::lemma_spread_all_index(bs);
    let branches = lower::folded_branches(inner, ci);
    let led = lower::lead_branches(branches);
    unions::lemma_folded_branches(inner, ci);
    unions::lemma_lead_branches(branches);
    let alt = SpecOp::Alternation(branches);
    folding::lemma_append_single(alt);
    folding::lemma_fold_still(seq![alt]);
    let top = SpecOp::Alternation(led);
    assert(lower::lowered(n, ci) =~= seq![top]);
    assert forall|i: int| 0 <= i < bs.len() implies #[trigger] led[i] == lower::lowered(
        bs[i],
        ci,
    ) by {
        assert(led[i] == lower::lead(branches[i]));
        if distribute::crowded(bs[i]) {
            assert(distribute::some_crowded(bs));
            assert(spread);
        } else {
            unions::lemma_spread_idle(bs[i]);
        }
    }
}

/// Factoring neither adds nor loses a path: the tree of a union matches what the
/// tree of some member matches.
pub proof fn law_union_program(bs: Seq<SpecNode>, ci: bool, cx: Cx, s: Seq<u8>)
    requires
        bs.len() >= 2,
        proper(bs),
    ensures
        lang::matches(lower::lowered(factor::factored(bs), ci), cx, s) <==> exists|i: int|
            0 <= i < bs.len() && lang::matches(
                lower::lowered(#[trigger] bs[i], ci),
                cx,
                s,
            ),
{
    assert forall|k: int| 0 <= k < bs.len() implies unions::fit(
        factor::spelled_out(#[trigger] bs[k]),
    ) by {
        assert(proper_node(bs[k]));
    }
    unions::lemma_parts_fit(bs);
    if lifted(bs) {
        lemma_lifted_union(bs, ci, cx, s);
    } else {
        lemma_brace_alone(bs, ci, cx, s);
    }
}

/// Everything is lifted off a single sequence.
proof fn lemma_lifted_one(y: Seq<SpecNode>)
    ensures
        factor::lifted(seq![y]) == (seq![Seq::<SpecNode>::empty()], y),
    decreases y.len(),
{
    let none = Seq::<SpecNode>::empty();
    let seqs = seq![y];
    let n = factor::edge(y);
    if y.len() == 0 {
        assert(!factor::ends_literal(seqs[0]));
        assert(!factor::all_end_literal(seqs));
        assert(y =~= none);
    } else {
        assert(factor::all_end_alike(seqs, n));
        assert(factor::shorten(seqs, n) =~= seq![y.take(y.len() - n)]);
        lemma_lifted_one(y.take(y.len() - n));
        assert(y.take(y.len() - n) + factor::ending(y, n) =~= y);
    }
}

/// The tree of a single member is the member.
proof fn lemma_factored_one(b: SpecNode)
    requires
        proper_node(b),
    ensures
        factor::factored(seq![b]) == b,
{
    let none = Seq::<SpecNode>::empty();
    let bs = seq![b];
    let x = factor::spelled_out(b);
    let seqs = Seq::new(bs.len(), |i: int| factor::spelled_out(bs[i]));
    assert(seqs =~= seq![x]);
    assert(factor::mirror_all(seqs) =~= seq![factor::mirrored(x)]);
    lemma_lifted_one(factor::mirrored(x));
    assert(factor::mirrored(none) =~= none);
    assert(factor::mirror_all(seq![none]) =~= seq![none]);
    lemma_lifted_one(none);
    unions::lemma_mirrored_twice(x);
    assert(factor::parts(bs) == (x, seq![none], none));
    assert(factor::spelled_out(factor::joined(none)) =~= none);
    assert(x + none + none =~= x);
}

/// The syntax trees of patterns that parse.
pub open spec fn parsed_bodies(texts: Seq<Seq<u8>>) -> Seq<SpecNode> {
    Seq::new(texts.len(), |i: int| (parser::parsed(texts[i])->Ok_0).1)
}

/// Factoring the trees of patterns neither adds nor loses a path: what it gives
/// matches what the tree of some pattern matches.
pub proof fn law_factoring_keeps_matches(texts: Seq<Seq<u8>>, ci: bool, cx: Cx, s: Seq<u8>)
    requires
        texts.len() > 0,
        forall|i: int| 0 <= i < texts.len() ==> parser::parsed(#[trigger] texts[i]) is Ok,
    ensures
        lang::matches(
            lower::lowered(factor::factored(parsed_bodies(texts)), ci),
            cx,
            s,
        ) <==> exists|i: int|
            0 <= i < texts.len() && lang::matches(
                lower::lowered(#[trigger] parsed_bodies(texts)[i], ci),
                cx,
                s,
            ),
{
    let bs = parsed_bodies(texts);
    assert forall|k: int| 0 <= k < bs.len() implies #[trigger] proper_node(bs[k]) by {
        assert(parser::parsed(texts[k]) is Ok);
        unions::lemma_parsed_shape(texts[k]);
    }
    if texts.len() == 1 {
        assert(proper_node(bs[0]));
        assert(bs =~= seq![bs[0]]);
        lemma_factored_one(bs[0]);
    } else {
        law_union_program(bs, ci, cx, s);
    }
}

/// What holds of the tree of a pattern that a union takes.
proof fn lemma_member_body(text: Seq<char>)
    requires
        glob::admitted(text),
    ensures
        proper_node(glob::member_body(text)),
        openings::fair(glob::member_body(text)),
{
    unions::lemma_parsed_shape(glob::text_bytes(text));
    openings::lemma_parsed_fair(glob::text_bytes(text));
}

/// What a pattern that a union takes matches is what its program matches.
proof fn lemma_member_program(
    text: Seq<char>,
    opts: CompileOptions,
    seps: Seps,
    path: Seq<u8>,
)
    requires
        unions::joins(text, seps, path),
    ensures
        ({
            let g = unions::member(text, opts, seps);
            g.matches(path) == lang::matches(
                lower::lowered(glob::member_body(text), opts.case_insensitive),
                lang::cx(seps, opts.case_insensitive, opts.dot, path.len() as int),
                path,
            )
        }),
{
    let g = unions::member(text, opts, seps);
    assert(g.body == glob::member_body(text) && !g.negated);
    lemma_member_body(text);
    unions::lemma_glob_program(g, path);
}

/// The trees of patterns that a union takes, and the tree of the union.
proof fn lemma_union_trees(texts: Seq<Seq<char>>)
    requires
        texts.len() >= 2,
        forall|i: int| 0 <= i < texts.len() ==> glob::admitted(#[trigger] texts[i]),
    ensures
        proper(unions::bodies(texts)),
        openings::fair(factor::factored(unions::bodies(texts))),
        !ast::pure_literal(factor::factored(unions::bodies(texts))),
{
    let bs = unions::bodies(texts);
    assert forall|k: int| 0 <= k < bs.len() implies #[trigger] proper_node(bs[k]) && openings::fair(
        bs[k],
    ) by {
        assert(glob::admitted(texts[k]));
        lemma_member_body(texts[k]);
    }
    assert(openings::all_fair(bs)) by {
        assert forall|k: int| 0 <= k < bs.len() implies openings::fair(#[trigger] bs[k]) by {
            assert(proper_node(bs[k]));
        }
    }
    openings::lemma_union_fair(bs);
    unions::lemma_union_brace(bs);
}

/// A union matches a path exactly if one of its members does. So neither the
/// order of the members nor how often one of them stands there matters.
///
/// Where a backslash separates too and there are several members, this leaves
/// out paths with a backslash in the place of a `/` that a literal member
/// escapes.
pub proof fn law_union_is_or(
    texts: Seq<Seq<char>>,
    opts: CompileOptions,
    seps: Seps,
    path: Seq<u8>,
)
    requires
        texts.len() > 0,
        forall|i: int| 0 <= i < texts.len() ==> glob::admitted(#[trigger] texts[i]),
        texts.len() == 1 || forall|i: int|
            0 <= i < texts.len() ==> unions::joins(#[trigger] texts[i], seps, path),
    ensures
        glob::union_of(texts, opts, seps).matches(path) <==> exists|i: int|
            0 <= i < texts.len() && unions::member(#[trigger] texts[i], opts, seps).matches(path),
{
    let u = glob::union_of(texts, opts, seps);
    let ci = opts.case_insensitive;
    let cx = u.cx(path.len() as int);
    let bs = unions::bodies(texts);
    if texts.len() == 1 {
        assert(glob::admitted(texts[0]));
        assert(u == unions::member(texts[0], opts, seps));
    } else {
        assert forall|i: int| 0 <= i < texts.len() implies unions::member(
            #[trigger] texts[i],
            opts,
            seps,
        ).matches(path) == lang::matches(lower::lowered(bs[i], ci), cx, path) by {
            lemma_member_program(texts[i], opts, seps, path);
        }
        lemma_union_trees(texts);
        law_union_program(bs, ci, cx, path);
        unions::lemma_glob_program(u, path);
        if u.matches(path) {
            let i = choose|i: int|
                0 <= i < bs.len() && lang::matches(lower::lowered(#[trigger] bs[i], ci), cx, path);
            assert(unions::member(texts[i], opts, seps).matches(path));
        }
        if exists|i: int|
            0 <= i < texts.len() && unions::member(#[trigger] texts[i], opts, seps).matches(path) {
            let i = choose|i: int|
                0 <= i < texts.len() && unions::member(#[trigger] texts[i], opts, seps).matches(
                    path,
                );
            assert(lang::matches(lower::lowered(bs[i], ci), cx, path));
        }
    }
}

/// A walk goes on below a directory for a union exactly if it would for one of
/// its members. Patterns are as in [`law_union_is_or`].
pub proof fn law_union_goes_on_below(
    texts: Seq<Seq<char>>,
    opts: CompileOptions,
    seps: Seps,
    dir: Seq<u8>,
)
    requires
        texts.len() >= 2,
        forall|i: int| 0 <= i < texts.len() ==> unions::joins(#[trigger] texts[i], seps, dir),
    ensures
        glob::union_of(texts, opts, seps).verdict(dir).below() <==> exists|i: int|
            0 <= i < texts.len() && unions::member(#[trigger] texts[i], opts, seps).body_below(dir),
{
    let u = glob::union_of(texts, opts, seps);
    let ci = opts.case_insensitive;
    let n = dir.len() as int;
    let cx = u.cx(n);
    let pre = dir + seq![0x2fu8];
    let bs = unions::bodies(texts);
    assert forall|i: int| 0 <= i < texts.len() implies glob::admitted(#[trigger] texts[i]) by {
        assert(unions::joins(texts[i], seps, dir));
    }
    lemma_union_trees(texts);
    if n == 0 {
        assert(unions::member(texts[0], opts, seps).body_below(dir));
    } else {
        assert forall|i: int| 0 <= i < texts.len() implies unions::member(
            #[trigger] texts[i],
            opts,
            seps,
        ).body_below(dir) == unions::leads_below(unions::member(texts[i], opts, seps), dir) by {
            assert(unions::joins(texts[i], seps, dir));
            lemma_member_body(texts[i]);
            unions::lemma_below_program(unions::member(texts[i], opts, seps), dir);
        }
        unions::lemma_below_program(u, dir);
        if unions::leads_below(u, dir) {
            let t = choose|t: Seq<u8>| #[trigger] lang::matches(u.program(), cx, pre + t);
            law_union_program(bs, ci, cx, pre + t);
            let i = choose|i: int|
                0 <= i < bs.len() && lang::matches(
                    lower::lowered(#[trigger] bs[i], ci),
                    cx,
                    pre + t,
                );
            let g = unions::member(texts[i], opts, seps);
            assert(unions::joins(texts[i], seps, dir));
            assert(lang::matches(g.program(), g.cx(n), pre + t));
            assert(g.body_below(dir));
        }
        if exists|i: int|
            0 <= i < texts.len() && unions::member(#[trigger] texts[i], opts, seps).body_below(
                dir,
            ) {
            let i = choose|i: int|
                0 <= i < texts.len() && unions::member(#[trigger] texts[i], opts, seps).body_below(
                    dir,
                );
            let g = unions::member(texts[i], opts, seps);
            assert(unions::joins(texts[i], seps, dir));
            let t = choose|t: Seq<u8>| #[trigger] lang::matches(g.program(), g.cx(n), pre + t);
            assert(lang::matches(lower::lowered(bs[i], ci), cx, pre + t));
            law_union_program(bs, ci, cx, pre + t);
            assert(lang::matches(u.program(), cx, pre + t));
        }
    }
}

} // verus!
