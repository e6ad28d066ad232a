//! Runs of stars.
//!
//! Within a segment, outside braces, several stars in a row match what one star
//! matches.

use crate::ast::{self, SpecNode};
use crate::cuts;
use crate::engine::ops::distribute;
use crate::engine::ops::folding;
use crate::engine::ops::lower;
use crate::engine::ops::SpecOp;
use crate::factor;
use crate::glob::SpecGlob;
use crate::unions;
use vstd::prelude::*;

verus! {

/// What is done up to a star does not depend on what stands behind it.
proof fn lemma_spread_to_star(out: Seq<SpecNode>, a: Seq<SpecNode>, b: Seq<SpecNode>)
    requires
        b.len() > 0,
        b[0] is Star,
    ensures
        distribute::spread_from(out, a + b) == distribute::spread_from(
            distribute::spread_from(out, a),
            b,
        ),
    decreases distribute::weights(a), a.len(),
{
    let all = a + b;
    if a.len() == 0 {
        assert(all =~= b);
    } else {
        let tail = a.drop_first();
        let x = a[0];
        assert(all[0] == x);
        assert(all.drop_first() =~= tail + b);
        distribute::lemma_weights_first(a);
        if tail.len() > 0 {
            distribute::lemma_weights_first(tail);
        }
        match x {
            SpecNode::Brace(bs) => {
                let before = distribute::takes_before(out, bs);
                let after = distribute::takes_after(bs, tail);
                if tail.len() > 0 {
                    assert((tail + b)[0] == tail[0]);
                } else {
                    assert(tail + b =~= b);
                }
                assert(distribute::takes_after(bs, tail + b) == after);
                if !before && !after {
                    lemma_spread_to_star(out.push(distribute::spread(x)), tail, b);
                } else {
                    let kept = if before {
                        out.drop_last()
                    } else {
                        out
                    };
                    let left = if after {
                        tail.drop_first()
                    } else {
                        tail
                    };
                    let node = SpecNode::Brace(distribute::spread_branches(bs, before, after));
                    if after {
                        assert((tail + b).drop_first() =~= left + b);
                    }
                    lemma_spread_to_star(kept.push(node), left, b);
                }
            },
            _ => {
                lemma_spread_to_star(out.push(distribute::spread(x)), tail, b);
            },
        }
    }
}

/// A sequence with a star in it is spread part by part.
proof fn lemma_spread_star(a: Seq<SpecNode>, stars: Seq<SpecNode>, b: Seq<SpecNode>)
    requires
        stars.len() > 0,
        forall|k: int| 0 <= k < stars.len() ==> #[trigger] stars[k] is Star,
    ensures
        distribute::spread_from(seq![], a + stars + b) == distribute::spread_from(seq![], a) + stars
            + distribute::spread_from(seq![], b),
{
    let none = Seq::<SpecNode>::empty();
    let done = distribute::spread_from(none, a);
    let rest = stars + b;
    assert(rest[0] == stars[0]);
    assert(a + stars + b =~= a + rest);
    lemma_spread_to_star(none, a, rest);
    assert(cuts::leaves(stars)) by {
        assert forall|k: int| 0 <= k < stars.len() implies factor::leaf(#[trigger] stars[k]) by {
            assert(stars[k] is Star);
        }
    }
    cuts::lemma_pass(done, stars, b);
    let front = done + stars;
    assert(front.last() == stars[stars.len() - 1]);
    assert(front.last() is Star);
    cuts::lemma_spread_between(front, none, b, none);
    assert(front + none =~= front);
    assert(b + none =~= b);
    assert(front + distribute::spread_from(none, b) + none =~= front + distribute::spread_from(
        none,
        b,
    ));
}

/// The star at `k` is followed by another.
pub open spec fn star_run_at(xs: Seq<SpecNode>, k: int) -> bool {
    0 <= k && k + 1 < xs.len() && xs[k] is Star && xs[k + 1] is Star
}

/// Two stars in a row outside braces are one: the programs of a pattern with both and of one
/// with the second left out are the same.
pub proof fn law_star_run_program(xs: Seq<SpecNode>, k: int, ci: bool)
    requires
        star_run_at(xs, k),
    ensures
        lower::lowered(SpecNode::Concat(xs), ci) == lower::lowered(
            factor::joined(xs.remove(k + 1)),
            ci,
        ),
{
    let none = Seq::<SpecOp>::empty();
    let a = xs.take(k);
    let b = xs.skip(k + 2);
    let one = seq![SpecNode::Star];
    let two = seq![SpecNode::Star, SpecNode::Star];
    let less = xs.remove(k + 1);
    assert(xs =~= a + two + b);
    assert(less =~= a + one + b);
    lemma_spread_star(a, one, b);
    lemma_spread_star(a, two, b);
    let p = distribute::spread_from(seq![], a);
    let q = distribute::spread_from(seq![], b);
    cuts::lemma_lowered_spread(SpecNode::Concat(xs), ci);
    cuts::lemma_lowered_spread(factor::joined(less), ci);
    cuts::lemma_raw_spread_joined(less, ci);
    let rp = lower::raw_all(p, ci);
    let rq = lower::raw_all(q, ci);
    let s = SpecOp::Star;
    unions::lemma_raw_concat(p + one, q, ci);
    unions::lemma_raw_concat(p, one, ci);
    unions::lemma_raw_concat(p + two, q, ci);
    unions::lemma_raw_concat(p, two, ci);
    unions::lemma_raw_one(SpecNode::Star, ci);
    unions::lemma_raw_concat(one, one, ci);
    assert(two =~= one + one);
    assert(lower::raw_all(two, ci) =~= seq![s, s]);
    folding::lemma_append_split(none, rp + seq![s], rq);
    folding::lemma_append_split(none, rp, seq![s]);
    folding::lemma_append_split(none, rp + seq![s, s], rq);
    folding::lemma_append_split(none, rp, seq![s, s]);
    let m = lower::append_all(none, rp);
    assert(seq![s].drop_last() =~= none);
    assert(seq![s, s].drop_last() =~= seq![s]);
    assert(lower::append_all(m, none) == m);
    assert(lower::append_all(m, seq![s]) == lower::append(m, s));
    assert(lower::append_all(m, seq![s, s]) == lower::append(lower::append(m, s), s));
    assert(lower::append(m, s).last() == s);
    assert(lower::append(lower::append(m, s), s) == lower::append(m, s));
}

/// A run of stars within a segment, outside braces, matches what one star
/// matches, on every path.
pub proof fn law_star_run_is_one_star(g: SpecGlob, xs: Seq<SpecNode>, k: int, path: Seq<u8>)
    requires
        g.body == SpecNode::Concat(xs),
        star_run_at(xs, k),
    ensures
        g.matches(path) == (SpecGlob { body: factor::joined(xs.remove(k + 1)), ..g }).matches(path),
{
    let less = xs.remove(k + 1);
    let h = SpecGlob { body: factor::joined(less), ..g };
    law_star_run_program(xs, k, g.case_insensitive);
    assert(!ast::pure_literal(xs[k]));
    assert(!ast::pure_literal(g.body));
    assert(less[k] == xs[k]);
    assert(!ast::pure_literal(h.body));
    assert(g.cx(path.len() as int) == h.cx(path.len() as int));
}

} // verus!
