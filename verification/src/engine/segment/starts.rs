//! How the forks of a program start.
//!
//! A fork that starts with a `**/` for which no leading separators were written
//! out absorbs leading separators all the same. Most programs have no such
//! fork.

use crate::engine::ops::folding;
use crate::engine::ops::lower;
use crate::engine::ops::SpecOp;
use crate::engine::segment::exec;
use crate::engine::segment::forks;
use vstd::prelude::*;

verus! {

/// Some way through the op is empty.
pub open spec fn skippable(op: SpecOp) -> bool
    decreases op, 0int,
{
    match op {
        SpecOp::Alternation(bs) => some_skips(bs),
        _ => false,
    }
}

/// Some way through the ops is empty.
pub open spec fn skips(ops: Seq<SpecOp>) -> bool
    decreases ops, 1int,
{
    forall|k: int| 0 <= k < ops.len() ==> skippable(#[trigger] ops[k])
}

pub open spec fn some_skips(bs: Seq<Seq<SpecOp>>) -> bool
    decreases bs, 2int,
{
    exists|i: int| 0 <= i < bs.len() && skips(#[trigger] bs[i])
}

/// No way through the program starts with a run of segments.
pub open spec fn sure(ops: Seq<SpecOp>) -> bool
    decreases ops, 1int,
{
    ops.len() > 0 ==> sure_op(ops[0]) && (skippable(ops[0]) ==> sure(ops.drop_first()))
}

pub open spec fn sure_op(op: SpecOp) -> bool
    decreases op, 0int,
{
    match op {
        SpecOp::OptSegmentsSlash => false,
        SpecOp::Alternation(bs) => all_sure(bs),
        _ => true,
    }
}

pub open spec fn all_sure(bs: Seq<Seq<SpecOp>>) -> bool
    decreases bs, 2int,
{
    forall|i: int| 0 <= i < bs.len() ==> sure(#[trigger] bs[i])
}

proof fn lemma_sure_take(ops: Seq<SpecOp>, n: int)
    requires
        sure(ops),
        0 <= n <= ops.len(),
    ensures
        sure(ops.take(n)),
    decreases n,
{
    if n > 0 {
        assert(ops.take(n).drop_first() =~= ops.drop_first().take(n - 1));
        if skippable(ops[0]) {
            lemma_sure_take(ops.drop_first(), n - 1);
        }
    }
}

/// Behind ops that can be skipped the next op starts the program too.
proof fn lemma_sure_last(ops: Seq<SpecOp>)
    requires
        sure(ops),
        ops.len() > 0,
        skips(ops.drop_last()),
    ensures
        sure_op(ops.last()),
    decreases ops.len(),
{
    if ops.len() > 1 {
        let rest = ops.drop_first();
        assert(skippable(ops.drop_last()[0]));
        assert forall|k: int| 0 <= k < rest.drop_last().len() implies skippable(
            #[trigger] rest.drop_last()[k],
        ) by {
            assert(rest.drop_last()[k] == ops.drop_last()[k + 1]);
        }
        lemma_sure_last(rest);
    }
}

/// Forks of a sure program do not start with a run of segments, and an empty
/// one comes of ops that can be skipped.
proof fn lemma_sure_forks(ops: Seq<SpecOp>, f: int)
    requires
        sure(ops),
        forks::forks(ops) is Some,
        0 <= f < (forks::forks(ops)->0).len(),
    ensures
        ({
            let fork = (forks::forks(ops)->0)[f];
            &&& fork.len() > 0 ==> !(fork[0] is OptSegmentsSlash)
            &&& fork.len() == 0 ==> skips(ops)
        }),
    decreases ops, 0int,
{
    if ops.len() > 0 {
        let head = ops.drop_last();
        let last = ops.last();
        let a = forks::forks(head)->0;
        let fork = (forks::forks(ops)->0)[f];
        assert(head =~= ops.take(ops.len() - 1));
        lemma_sure_take(ops, ops.len() - 1);
        if forks::forks_at(last) {
            let bs = last->Alternation_0;
            let b = forks::branch_forks(bs)->0;
            assert(forks::op_forks(last, a) == Some(forks::product(a, b)));
            let (g, y) = forks::lemma_product_parts(a, b, f);
            lemma_sure_forks(head, g);
            assert(fork == a[g] + b[y]);
            if a[g].len() == 0 {
                lemma_sure_last(ops);
                assert(decreases_to!(ops => ops[ops.len() - 1]));
                lemma_sure_branches(bs, y);
                assert(fork =~= b[y]);
                if fork.len() == 0 {
                    assert forall|k: int| 0 <= k < ops.len() implies skippable(
                        #[trigger] ops[k],
                    ) by {
                        if k < head.len() {
                            assert(head[k] == ops[k]);
                        }
                    }
                }
            } else {
                assert(fork[0] == a[g][0]);
            }
        } else {
            assert(forks::op_forks(last, a) == Some(forks::append_all(a, last)));
            lemma_sure_forks(head, f);
            assert(fork == a[f].push(last));
            if a[f].len() == 0 {
                lemma_sure_last(ops);
                assert(fork[0] == last);
            } else {
                assert(fork[0] == a[f][0]);
            }
        }
    }
}

proof fn lemma_sure_branches(bs: Seq<Seq<SpecOp>>, y: int)
    requires
        all_sure(bs),
        forks::branch_forks(bs) is Some,
        0 <= y < (forks::branch_forks(bs)->0).len(),
    ensures
        (forks::branch_forks(bs)->0)[y].len() > 0 ==> !((forks::branch_forks(
            bs,
        )->0)[y][0] is OptSegmentsSlash),
        (forks::branch_forks(bs)->0)[y].len() == 0 ==> some_skips(bs),
    decreases bs, 1int,
{
    if bs.len() > 0 {
        let head = bs.drop_last();
        let a = forks::branch_forks(head)->0;
        let b = forks::forks(bs.last())->0;
        let all = forks::branch_forks(bs)->0;
        assert(all == a + b);
        assert(sure(bs[bs.len() - 1]));
        if y < a.len() {
            assert(all_sure(head)) by {
                assert forall|i: int| 0 <= i < head.len() implies sure(#[trigger] head[i]) by {
                    assert(head[i] == bs[i]);
                }
            }
            lemma_sure_branches(head, y);
            assert(all[y] == a[y]);
            if some_skips(head) {
                let i = choose|i: int| 0 <= i < head.len() && skips(#[trigger] head[i]);
                assert(skips(bs[i]));
            }
        } else {
            assert(decreases_to!(bs => bs[bs.len() - 1]));
            lemma_sure_forks(bs.last(), y - a.len());
            assert(all[y] == b[y - a.len()]);
            if all[y].len() == 0 {
                assert(skips(bs[bs.len() - 1]));
            }
        }
    }
}

/// A sure program has no fork that starts with a bare `**/`.
pub proof fn lemma_sure_not_bare(ops: Seq<SpecOp>)
    requires
        sure(ops),
        forks::forks(ops) is Some,
    ensures
        exec::no_bare_globstar(ops),
{
    let fs = forks::forks(ops)->0;
    assert forall|f: int| 0 <= f < fs.len() && (#[trigger] fs[f]).len() > 0 implies !(
    fs[f][0] is OptSegmentsSlash) by {
        lemma_sure_forks(ops, f);
    }
}

/// Raw ops that start with no `**`, nor do they behind what can be skipped.
pub open spec fn quiet(r: Seq<SpecOp>) -> bool
    decreases r.len(),
{
    r.len() > 0 ==> match r[0] {
        SpecOp::Globstar => false,
        SpecOp::Alternation(bs) => all_sure(bs) && (some_skips(bs) ==> quiet(r.drop_first())),
        _ => true,
    }
}

/// Quiet raw ops give a sure program.
pub proof fn lemma_quiet_sure(r: Seq<SpecOp>)
    requires
        quiet(r),
        folding::unfolded(r),
    ensures
        sure(lower::fold(lower::append_all(seq![], r))),
    decreases r.len(),
{
    let none = Seq::<SpecOp>::empty();
    let m = lower::append_all(none, r);
    if r.len() == 0 {
        assert(lower::fold(m).len() == 0);
    } else if r[0] is Alternation {
        let rest = r.drop_first();
        assert(folding::unfolded(rest)) by {
            assert forall|k: int| 0 <= k < rest.len() implies !(
            #[trigger] rest[k] is OptSegmentsSlash) by {
                assert(rest[k] == r[k + 1]);
            }
        }
        if some_skips(r[0]->Alternation_0) {
            lemma_quiet_sure(rest);
        }
        let tail = lower::append_all(none, rest);
        folding::lemma_merge_behind(r);
        folding::lemma_merge_unfolded(none, rest);
        folding::lemma_fold_still(seq![r[0]]);
        folding::lemma_fold_concat(seq![r[0]], tail);
        let ops = lower::fold(m);
        assert(ops == seq![r[0]] + lower::fold(tail));
        assert(ops[0] == r[0]);
        assert(ops.drop_first() =~= lower::fold(tail));
        assert(sure_op(ops[0]));
    } else {
        folding::lemma_merge_unfolded(none, r);
        folding::lemma_merge_plain(r);
        folding::lemma_fold_first(m);
        assert(sure_op(lower::fold(m)[0]));
    }
}

/// A program that absorbing leading separators makes sure: a run of segments
/// starts it only where nothing that can be skipped stands before.
pub open spec fn fair(ops: Seq<SpecOp>) -> bool
    decreases ops, 1int,
{
    ops.len() > 0 ==> match ops[0] {
        SpecOp::Alternation(bs) => all_fair(bs) && (some_skips(bs) ==> sure(ops.drop_first())),
        _ => true,
    }
}

pub open spec fn all_fair(bs: Seq<Seq<SpecOp>>) -> bool
    decreases bs, 2int,
{
    forall|i: int| 0 <= i < bs.len() ==> fair(#[trigger] bs[i])
}

/// Absorbing leading separators makes nothing that can be skipped.
proof fn lemma_lead_skips(ops: Seq<SpecOp>)
    ensures
        skips(lower::lead(ops)) ==> skips(ops),
    decreases ops, 1nat,
{
    if ops.len() > 0 && skips(lower::lead(ops)) {
        let led = lower::lead(ops);
        assert(skippable(led[0]));
        if let SpecOp::Alternation(bs) = ops[0] {
            lemma_lead_some_skips(bs);
            assert(led[0] == SpecOp::Alternation(lower::lead_branches(bs)));
            assert forall|k: int| 0 <= k < ops.len() implies skippable(#[trigger] ops[k]) by {
                if k > 0 {
                    assert(led[k] == ops[k]);
                }
            }
        }
    }
}

proof fn lemma_lead_some_skips(bs: Seq<Seq<SpecOp>>)
    ensures
        some_skips(lower::lead_branches(bs)) ==> some_skips(bs),
        lower::lead_branches(bs).len() == bs.len(),
    decreases bs, bs.len(),
{
    if bs.len() > 0 {
        let head = bs.drop_last();
        lemma_lead_some_skips(head);
        assert(decreases_to!(bs => bs[bs.len() - 1]));
        lemma_lead_skips(bs.last());
        let all = lower::lead_branches(bs);
        let front = lower::lead_branches(head);
        if some_skips(all) {
            let i = choose|i: int| 0 <= i < all.len() && skips(#[trigger] all[i]);
            if i < front.len() {
                assert(all[i] == front[i]);
                assert(some_skips(front));
                let j = choose|j: int| 0 <= j < head.len() && skips(#[trigger] head[j]);
                assert(skips(bs[j]));
            } else {
                assert(skips(bs[bs.len() - 1]));
            }
        }
    }
}

/// Absorbing leading separators makes a fair program sure.
pub proof fn lemma_lead_sure(ops: Seq<SpecOp>)
    requires
        fair(ops),
    ensures
        sure(lower::lead(ops)),
    decreases ops, 1nat,
{
    if ops.len() > 0 {
        match ops[0] {
            SpecOp::Alternation(bs) => {
                lemma_lead_all_sure(bs);
                lemma_lead_some_skips(bs);
                let led = lower::lead(ops);
                assert(led.drop_first() =~= ops.drop_first());
                assert(led[0] == SpecOp::Alternation(lower::lead_branches(bs)));
                assert(sure_op(led[0]));
                if skippable(led[0]) {
                    assert(some_skips(bs));
                    assert(sure(led.drop_first()));
                }
            },
            _ => {
                assert(sure_op(lower::lead(ops)[0]));
                assert(!skippable(lower::lead(ops)[0]));
            },
        }
    }
}

proof fn lemma_lead_all_sure(bs: Seq<Seq<SpecOp>>)
    requires
        all_fair(bs),
    ensures
        all_sure(lower::lead_branches(bs)),
        lower::lead_branches(bs).len() == bs.len(),
    decreases bs, bs.len(),
{
    if bs.len() > 0 {
        let head = bs.drop_last();
        assert forall|i: int| 0 <= i < head.len() implies fair(#[trigger] head[i]) by {
            assert(head[i] == bs[i]);
        }
        lemma_lead_all_sure(head);
        assert(fair(bs[bs.len() - 1]));
        assert(decreases_to!(bs => bs[bs.len() - 1]));
        lemma_lead_sure(bs.last());
        let all = lower::lead_branches(bs);
        let front = lower::lead_branches(head);
        assert forall|i: int| 0 <= i < all.len() implies sure(#[trigger] all[i]) by {
            if i < front.len() {
                assert(all[i] == front[i]);
            }
        }
    }
}

} // verus!
