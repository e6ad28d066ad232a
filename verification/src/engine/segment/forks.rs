//! Programs whose alternations stay within a segment.
//!
//! An alternation that crosses a segment boundary is written out: the program
//! becomes a list of forks, one of which has to match. A bare `**` swallows a
//! `**/` or a run of separators right before it.

use crate::engine::lang::{self, Cx};
use crate::engine::ops::ir;
use crate::engine::ops::prefixes;
use crate::engine::ops::{Op, SpecOp};
use crate::engine::segment::elems;
use vstd::prelude::*;

verus! {

/// A program is read as at most this many forks.
pub const MAX_FORKS: usize = 64;

/// `x` before each of `b`.
pub open spec fn prepend_all(x: Seq<SpecOp>, b: Seq<Seq<SpecOp>>) -> Seq<Seq<SpecOp>> {
    Seq::new(b.len(), |j: int| x + b[j])
}

/// Each of `a` before each of `b`.
pub open spec fn product(a: Seq<Seq<SpecOp>>, b: Seq<Seq<SpecOp>>) -> Seq<Seq<SpecOp>>
    decreases a.len(),
{
    if a.len() == 0 {
        seq![]
    } else {
        product(a.drop_last(), b) + prepend_all(a.last(), b)
    }
}

/// `op` behind each of `a`.
pub open spec fn append_all(a: Seq<Seq<SpecOp>>, op: SpecOp) -> Seq<Seq<SpecOp>> {
    Seq::new(a.len(), |j: int| a[j].push(op))
}

/// The op is written out.
pub open spec fn forks_at(op: SpecOp) -> bool {
    op is Alternation && elems::crosses(op)
}

/// The program with its crossing alternations written out, or `None` where
/// that would be too long.
pub open spec fn forks(ops: Seq<SpecOp>) -> Option<Seq<Seq<SpecOp>>>
    decreases ops, 0int,
{
    if ops.len() == 0 {
        Some(seq![Seq::<SpecOp>::empty()])
    } else {
        match forks(ops.drop_last()) {
            None => None,
            Some(a) => op_forks(ops.last(), a),
        }
    }
}

/// The forks `a` continued with `op`.
pub open spec fn op_forks(op: SpecOp, a: Seq<Seq<SpecOp>>) -> Option<Seq<Seq<SpecOp>>>
    decreases op, 0int,
{
    match op {
        SpecOp::Alternation(bs) => if elems::crosses(op) {
            match branch_forks(bs) {
                None => None,
                Some(b) => if product(a, b).len() <= MAX_FORKS {
                    Some(product(a, b))
                } else {
                    None
                },
            }
        } else {
            Some(append_all(a, op))
        },
        _ => Some(append_all(a, op)),
    }
}

/// The forks of all branches.
pub open spec fn branch_forks(bs: Seq<Seq<SpecOp>>) -> Option<Seq<Seq<SpecOp>>>
    decreases bs, 1int,
{
    if bs.len() == 0 {
        Some(seq![])
    } else {
        match (branch_forks(bs.drop_last()), forks(bs.last())) {
            (Some(a), Some(b)) => if a.len() + b.len() <= MAX_FORKS {
                Some(a + b)
            } else {
                None
            },
            _ => None,
        }
    }
}

/// Some fork matches.
pub open spec fn some_fork(fs: Seq<Seq<SpecOp>>, cx: Cx, s: Seq<u8>, i: int, j: int) -> bool {
    exists|f: int| 0 <= f < fs.len() && lang::ops_span(#[trigger] fs[f], cx, s, i, j)
}

#[verifier::spinoff_prover]
#[verifier::rlimit(50)]
proof fn lemma_product(
    a: Seq<Seq<SpecOp>>,
    b: Seq<Seq<SpecOp>>,
    cx: Cx,
    s: Seq<u8>,
    i: int,
    j: int,
)
    ensures
        some_fork(product(a, b), cx, s, i, j) <==> exists|k: int| #[trigger]
            lang::cut(k) && some_fork(a, cx, s, i, k) && some_fork(b, cx, s, k, j),
    decreases a.len(),
{
    let all = product(a, b);
    if a.len() > 0 {
        let head = a.drop_last();
        let last = a.last();
        let first = product(head, b);
        let more = prepend_all(last, b);
        lemma_product(head, b, cx, s, i, j);
        if some_fork(all, cx, s, i, j) {
            let f = choose|f: int| 0 <= f < all.len() && lang::ops_span(#[trigger] all[f], cx, s, i, j);
            if f < first.len() {
                assert(all[f] == first[f]);
                assert(some_fork(first, cx, s, i, j));
                let k = choose|k: int| #[trigger]
                    lang::cut(k) && some_fork(head, cx, s, i, k) && some_fork(b, cx, s, k, j);
                let g = choose|g: int|
                    0 <= g < head.len() && lang::ops_span(#[trigger] head[g], cx, s, i, k);
                assert(a[g] == head[g]);
                assert(lang::cut(k) && some_fork(a, cx, s, i, k));
            } else {
                let g = f - first.len();
                assert(all[f] == more[g]);
                lang::lemma_span_concat(last, b[g], cx, s, i, j);
                let k = choose|k: int| #[trigger]
                    lang::cut(k) && lang::ops_span(last, cx, s, i, k) && lang::ops_span(
                        b[g],
                        cx,
                        s,
                        k,
                        j,
                    );
                assert(a[a.len() - 1] == last);
                assert(lang::cut(k) && some_fork(a, cx, s, i, k) && some_fork(b, cx, s, k, j));
            }
        }
        if exists|k: int| #[trigger]
            lang::cut(k) && some_fork(a, cx, s, i, k) && some_fork(b, cx, s, k, j) {
            let k = choose|k: int| #[trigger]
                lang::cut(k) && some_fork(a, cx, s, i, k) && some_fork(b, cx, s, k, j);
            let g = choose|g: int| 0 <= g < a.len() && lang::ops_span(#[trigger] a[g], cx, s, i, k);
            let h = choose|h: int| 0 <= h < b.len() && lang::ops_span(#[trigger] b[h], cx, s, k, j);
            if g < head.len() {
                assert(head[g] == a[g]);
                assert(lang::cut(k) && some_fork(head, cx, s, i, k));
                assert(some_fork(first, cx, s, i, j));
                let f = choose|f: int|
                    0 <= f < first.len() && lang::ops_span(#[trigger] first[f], cx, s, i, j);
                assert(all[f] == first[f]);
            } else {
                lang::lemma_span_concat(last, b[h], cx, s, i, j);
                assert(lang::cut(k));
                assert(all[first.len() + h] == more[h]);
                assert(more[h] == last + b[h]);
            }
        }
    }
}

proof fn lemma_append(
    a: Seq<Seq<SpecOp>>,
    op: SpecOp,
    cx: Cx,
    s: Seq<u8>,
    i: int,
    j: int,
)
    ensures
        some_fork(append_all(a, op), cx, s, i, j) <==> exists|k: int| #[trigger]
            lang::cut(k) && some_fork(a, cx, s, i, k) && lang::op_span(op, cx, s, k, j),
{
    let all = append_all(a, op);
    if some_fork(all, cx, s, i, j) {
        let f = choose|f: int| 0 <= f < all.len() && lang::ops_span(#[trigger] all[f], cx, s, i, j);
        assert(all[f] =~= a[f] + seq![op]);
        lang::lemma_span_concat(a[f], seq![op], cx, s, i, j);
        let k = choose|k: int| #[trigger]
            lang::cut(k) && lang::ops_span(a[f], cx, s, i, k) && lang::ops_span(
                seq![op],
                cx,
                s,
                k,
                j,
            );
        lang::lemma_span_single(op, cx, s, k, j);
        assert(lang::cut(k) && some_fork(a, cx, s, i, k) && lang::op_span(op, cx, s, k, j));
    }
    if exists|k: int| #[trigger]
        lang::cut(k) && some_fork(a, cx, s, i, k) && lang::op_span(op, cx, s, k, j) {
        let k = choose|k: int| #[trigger]
            lang::cut(k) && some_fork(a, cx, s, i, k) && lang::op_span(op, cx, s, k, j);
        let f = choose|f: int| 0 <= f < a.len() && lang::ops_span(#[trigger] a[f], cx, s, i, k);
        lang::lemma_span_single(op, cx, s, k, j);
        lang::lemma_span_concat(a[f], seq![op], cx, s, i, j);
        assert(lang::cut(k));
        assert(all[f] =~= a[f] + seq![op]);
        assert(lang::ops_span(all[f], cx, s, i, j));
    }
}

/// Writing alternations out changes nothing.
pub proof fn lemma_forks(ops: Seq<SpecOp>, cx: Cx, s: Seq<u8>, i: int, j: int)
    requires
        forks(ops) is Some,
    ensures
        some_fork(forks(ops)->0, cx, s, i, j) <==> lang::ops_span(ops, cx, s, i, j),
    decreases ops, 1int,
{
    if ops.len() == 0 {
        let fs = forks(ops)->0;
        assert(fs[0] == Seq::<SpecOp>::empty());
        if lang::ops_span(ops, cx, s, i, j) {
            assert(lang::ops_span(fs[0], cx, s, i, j));
        }
    } else {
        let head = ops.drop_last();
        let last = ops.last();
        let a = forks(head)->0;
        assert(forks(head) is Some);
        assert(op_forks(last, a) is Some);
        assert(ops =~= head + seq![last]);
        lang::lemma_span_concat(head, seq![last], cx, s, i, j);
        assert forall|k: int| some_fork(a, cx, s, i, k) <==> #[trigger]
            lang::ops_span(head, cx, s, i, k) by {
            lemma_forks(head, cx, s, i, k);
        }
        assert forall|k: int| #[trigger]
            lang::ops_span(seq![last], cx, s, k, j) <==> lang::op_span(last, cx, s, k, j) by {
            lang::lemma_span_single(last, cx, s, k, j);
        }
        assert(decreases_to!(ops => ops[ops.len() - 1]));
        lemma_op_forks(last, a, cx, s, i, j);
        let fs = forks(ops)->0;
        if some_fork(fs, cx, s, i, j) {
            let k = choose|k: int| #[trigger]
                lang::cut(k) && some_fork(a, cx, s, i, k) && lang::op_span(last, cx, s, k, j);
            assert(lang::ops_span(head, cx, s, i, k) && lang::ops_span(seq![last], cx, s, k, j));
        }
        if lang::ops_span(ops, cx, s, i, j) {
            let k = choose|k: int| #[trigger]
                lang::cut(k) && lang::ops_span(head, cx, s, i, k) && lang::ops_span(
                    seq![last],
                    cx,
                    s,
                    k,
                    j,
                );
            assert(lang::cut(k) && some_fork(a, cx, s, i, k) && lang::op_span(last, cx, s, k, j));
        }
    }
}

proof fn lemma_op_forks(
    op: SpecOp,
    a: Seq<Seq<SpecOp>>,
    cx: Cx,
    s: Seq<u8>,
    i: int,
    j: int,
)
    requires
        op_forks(op, a) is Some,
    ensures
        some_fork(op_forks(op, a)->0, cx, s, i, j) <==> exists|k: int| #[trigger]
            lang::cut(k) && some_fork(a, cx, s, i, k) && lang::op_span(op, cx, s, k, j),
    decreases op, 2int,
{
    match op {
        SpecOp::Alternation(bs) => {
            if elems::crosses(op) {
                let b = branch_forks(bs)->0;
                assert(branch_forks(bs) is Some);
                lemma_product(a, b, cx, s, i, j);
                assert forall|k: int| some_fork(b, cx, s, k, j) <==> #[trigger]
                    lang::op_span(op, cx, s, k, j) by {
                    lemma_branch_forks(bs, cx, s, k, j);
                }
                let fs = product(a, b);
                if some_fork(fs, cx, s, i, j) {
                    let k = choose|k: int| #[trigger]
                        lang::cut(k) && some_fork(a, cx, s, i, k) && some_fork(b, cx, s, k, j);
                    assert(lang::op_span(op, cx, s, k, j));
                }
                if exists|k: int| #[trigger]
                    lang::cut(k) && some_fork(a, cx, s, i, k) && lang::op_span(op, cx, s, k, j) {
                    let k = choose|k: int| #[trigger]
                        lang::cut(k) && some_fork(a, cx, s, i, k) && lang::op_span(
                            op,
                            cx,
                            s,
                            k,
                            j,
                        );
                    assert(lang::cut(k) && some_fork(b, cx, s, k, j));
                }
            } else {
                lemma_append(a, op, cx, s, i, j);
            }
        },
        _ => {
            lemma_append(a, op, cx, s, i, j);
        },
    }
}

proof fn lemma_branch_forks(bs: Seq<Seq<SpecOp>>, cx: Cx, s: Seq<u8>, i: int, j: int)
    requires
        branch_forks(bs) is Some,
    ensures
        some_fork(branch_forks(bs)->0, cx, s, i, j) <==> lang::op_span(
            SpecOp::Alternation(bs),
            cx,
            s,
            i,
            j,
        ),
    decreases bs, 3int,
{
    let op = SpecOp::Alternation(bs);
    let fs = branch_forks(bs)->0;
    if bs.len() == 0 {
        assert(!lang::some_span(bs, cx, s, i, j));
    } else {
        let head = bs.drop_last();
        let last = bs.last();
        assert(branch_forks(head) is Some);
        assert(forks(last) is Some);
        let a = branch_forks(head)->0;
        let b = forks(last)->0;
        lemma_branch_forks(head, cx, s, i, j);
        assert(decreases_to!(bs => bs[bs.len() - 1]));
        lemma_forks(last, cx, s, i, j);
        if some_fork(fs, cx, s, i, j) {
            let f = choose|f: int| 0 <= f < fs.len() && lang::ops_span(#[trigger] fs[f], cx, s, i, j);
            lang::lemma_span_bounds(fs[f], cx, s, i, j);
            if f < a.len() {
                assert(fs[f] == a[f]);
                assert(some_fork(a, cx, s, i, j));
                assert(lang::some_span(head, cx, s, i, j));
                let m = choose|m: int|
                    0 <= m < head.len() && lang::ops_span(#[trigger] head[m], cx, s, i, j);
                assert(bs[m] == head[m]);
            } else {
                assert(fs[f] == b[f - a.len()]);
                assert(some_fork(b, cx, s, i, j));
                assert(bs[bs.len() - 1] == last);
            }
            assert(lang::some_span(bs, cx, s, i, j));
        }
        if lang::op_span(op, cx, s, i, j) {
            assert(lang::some_span(bs, cx, s, i, j));
            let m = choose|m: int| 0 <= m < bs.len() && lang::ops_span(#[trigger] bs[m], cx, s, i, j);
            if m < head.len() {
                assert(head[m] == bs[m]);
                assert(lang::some_span(head, cx, s, i, j));
                assert(lang::op_span(SpecOp::Alternation(head), cx, s, i, j));
                let f = choose|f: int|
                    0 <= f < a.len() && lang::ops_span(#[trigger] a[f], cx, s, i, j);
                assert(fs[f] == a[f]);
            } else {
                assert(some_fork(b, cx, s, i, j));
                let f = choose|f: int|
                    0 <= f < b.len() && lang::ops_span(#[trigger] b[f], cx, s, i, j);
                assert(fs[a.len() + f] == b[f]);
            }
        }
    }
}


/// Runs of separators stand before `**/`, and no alternation crosses a
/// boundary.
pub open spec fn flat(ops: Seq<SpecOp>) -> bool {
    forall|k: int| 0 <= k < ops.len() ==> #[trigger] flat_at(ops, k)
}

pub open spec fn flat_at(ops: Seq<SpecOp>, k: int) -> bool {
    prefixes::run_ok(ops, k) && !forks_at(ops[k])
}

pub open spec fn all_flat(fs: Seq<Seq<SpecOp>>) -> bool {
    forall|f: int| 0 <= f < fs.len() ==> flat(#[trigger] fs[f])
}

proof fn lemma_flat_concat(a: Seq<SpecOp>, b: Seq<SpecOp>)
    requires
        flat(a),
        flat(b),
    ensures
        flat(a + b),
{
    let ab = a + b;
    assert forall|k: int| 0 <= k < ab.len() implies #[trigger] flat_at(ab, k) by {
        if k < a.len() {
            assert(flat_at(a, k));
            assert(ab[k] == a[k]);
            if k + 1 < a.len() {
                assert(ab[k + 1] == a[k + 1]);
            }
        } else {
            assert(flat_at(b, k - a.len()));
            assert(ab[k] == b[k - a.len()]);
            if k + 1 < ab.len() {
                assert(ab[k + 1] == b[k + 1 - a.len()]);
            }
        }
    }
}

proof fn lemma_product_flat(a: Seq<Seq<SpecOp>>, b: Seq<Seq<SpecOp>>)
    requires
        all_flat(a),
        all_flat(b),
    ensures
        all_flat(product(a, b)),
    decreases a.len(),
{
    if a.len() > 0 {
        let head = a.drop_last();
        let first = product(head, b);
        let more = prepend_all(a.last(), b);
        let all = product(a, b);
        assert forall|f: int| 0 <= f < head.len() implies flat(#[trigger] head[f]) by {
            assert(head[f] == a[f]);
        }
        lemma_product_flat(head, b);
        assert forall|f: int| 0 <= f < all.len() implies flat(#[trigger] all[f]) by {
            if f < first.len() {
                assert(all[f] == first[f]);
            } else {
                let g = f - first.len();
                assert(all[f] == a.last() + b[g]);
                assert(flat(a[a.len() - 1]));
                assert(flat(b[g]));
                lemma_flat_concat(a.last(), b[g]);
            }
        }
    }
}

/// The forks of a tidy program are flat.
pub proof fn lemma_forks_flat(ops: Seq<SpecOp>)
    requires
        prefixes::tidy(ops),
        forks(ops) is Some,
    ensures
        all_flat(forks(ops)->0),
    decreases ops, 1int, 0int,
{
    assert(ops.take(ops.len() as int) =~= ops);
    lemma_forks_flat_upto(ops, ops.len() as int);
    let fs = forks(ops)->0;
    assert forall|f: int| 0 <= f < fs.len() implies flat(#[trigger] fs[f]) by {
        let fork = fs[f];
        assert(nearly_flat(fork, ops, ops.len() as int));
        assert forall|k: int| 0 <= k < fork.len() implies #[trigger] flat_at(fork, k) by {
            assert(nearly_flat_at(fork, k, ops, ops.len() as int));
            if k == fork.len() - 1 && (fork[k] is SepRun || fork[k] is LeadingSeps) {
                assert(prefixes::run_ok(ops, ops.len() - 1));
            }
        }
    }
}

/// Each position of the fork is good; its last one may also be the run that
/// op `n - 1` of the program is.
spec fn nearly_flat_at(fork: Seq<SpecOp>, k: int, ops: Seq<SpecOp>, n: int) -> bool {
    !forks_at(fork[k]) && (prefixes::run_ok(fork, k) || (k == fork.len() - 1 && 0 < n
        && fork[k] == ops[n - 1]))
}

spec fn nearly_flat(fork: Seq<SpecOp>, ops: Seq<SpecOp>, n: int) -> bool {
    forall|k: int| 0 <= k < fork.len() ==> #[trigger] nearly_flat_at(fork, k, ops, n)
}

/// The forks of the first `n` ops are flat, except that the run at their end
/// may still wait for its `**/`.
proof fn lemma_forks_flat_upto(ops: Seq<SpecOp>, n: int)
    requires
        prefixes::tidy(ops),
        0 <= n <= ops.len(),
        forks(ops.take(n)) is Some,
    ensures
        forall|f: int|
            0 <= f < (forks(ops.take(n))->0).len() ==> nearly_flat(
                #[trigger] (forks(ops.take(n))->0)[f],
                ops,
                n,
            ),
    decreases ops, 0int, n,
{
    let cur = ops.take(n);
    if n == 0 {
    } else {
        let prev = ops.take(n - 1);
        assert(cur.drop_last() =~= prev);
        assert(cur.last() == ops[n - 1]);
        assert(forks(prev) is Some);
        lemma_forks_flat_upto(ops, n - 1);
        let a = forks(prev)->0;
        let op = ops[n - 1];
        let fs = forks(cur)->0;
        assert(op_forks(op, a) == Some(fs));
        assert(prefixes::tidy_op(op));
        if n >= 2 {
            assert(prefixes::run_ok(ops, n - 2));
        }
        if forks_at(op) {
            let bs = op->Alternation_0;
            let b = branch_forks(bs)->0;
            assert(branch_forks(bs) is Some);
            assert(prefixes::tidy_branches(bs));
            assert forall|f: int| 0 <= f < a.len() implies flat(#[trigger] a[f]) by {
                assert(nearly_flat(a[f], ops, n - 1));
                assert forall|k: int| 0 <= k < a[f].len() implies #[trigger] flat_at(a[f], k) by {
                    assert(nearly_flat_at(a[f], k, ops, n - 1));
                }
            }
            assert(decreases_to!(ops => ops[n - 1]));
            lemma_branch_forks_flat(bs);
            lemma_product_flat(a, b);
            assert forall|f: int| 0 <= f < fs.len() implies nearly_flat(#[trigger] fs[f], ops, n) by {
                assert(flat(fs[f]));
                assert forall|k: int| 0 <= k < fs[f].len() implies #[trigger] nearly_flat_at(
                    fs[f],
                    k,
                    ops,
                    n,
                ) by {
                    assert(flat_at(fs[f], k));
                }
            }
        } else {
            assert(fs =~= append_all(a, op));
            assert forall|f: int| 0 <= f < fs.len() implies nearly_flat(#[trigger] fs[f], ops, n) by {
                let fork = fs[f];
                assert(fork == a[f].push(op));
                assert(nearly_flat(a[f], ops, n - 1));
                assert forall|k: int| 0 <= k < fork.len() implies #[trigger] nearly_flat_at(
                    fork,
                    k,
                    ops,
                    n,
                ) by {
                    if k < a[f].len() {
                        assert(nearly_flat_at(a[f], k, ops, n - 1));
                        assert(fork[k] == a[f][k]);
                        assert(fork[k + 1] == (if k + 1 < a[f].len() { a[f][k + 1] } else { op }));
                    }
                }
            }
        }
    }
}

proof fn lemma_branch_forks_flat(bs: Seq<Seq<SpecOp>>)
    requires
        prefixes::tidy_branches(bs),
        branch_forks(bs) is Some,
    ensures
        all_flat(branch_forks(bs)->0),
    decreases bs, 2int, 0int,
{
    if bs.len() > 0 {
        let head = bs.drop_last();
        let last = bs.last();
        assert(branch_forks(head) is Some);
        assert(forks(last) is Some);
        let a = branch_forks(head)->0;
        let b = forks(last)->0;
        let fs = branch_forks(bs)->0;
        assert forall|k: int| 0 <= k < head.len() implies prefixes::tidy(#[trigger] head[k]) by {
            assert(head[k] == bs[k]);
        }
        assert(prefixes::tidy_branches(head));
        lemma_branch_forks_flat(head);
        assert(prefixes::tidy(bs[bs.len() - 1]));
        assert(decreases_to!(bs => bs[bs.len() - 1]));
        lemma_forks_flat(last);
        assert forall|f: int| 0 <= f < fs.len() implies flat(#[trigger] fs[f]) by {
            if f < a.len() {
                assert(fs[f] == a[f]);
            } else {
                assert(fs[f] == b[f - a.len()]);
            }
        }
    }
}


/// `done` and then `rest`, where a bare `**` swallows a `**/` or a run of
/// separators before it.
pub open spec fn collapse(done: Seq<SpecOp>, rest: Seq<SpecOp>) -> Seq<SpecOp>
    decreases rest.len(), done.len(),
{
    if rest.len() == 0 {
        done
    } else if rest[0] is GlobstarAny && done.len() > 0 && done.last() is OptSegmentsSlash {
        collapse(done.drop_last(), rest)
    } else if rest[0] is GlobstarAny && done.len() > 0 && done.last() is SepRun {
        collapse(done.drop_last().push(SpecOp::SlashAnything), rest.drop_first())
    } else {
        collapse(done.push(rest[0]), rest.drop_first())
    }
}

/// `**/` and then `**` match what `**` does; a run of separators and then `**`
/// match what `/**` does.
proof fn lemma_swallow(before: SpecOp, cx: Cx, s: Seq<u8>, i: int, j: int)
    requires
        before is OptSegmentsSlash || before is SepRun,
    ensures
        lang::ops_span(seq![before] + seq![SpecOp::GlobstarAny], cx, s, i, j) <==> lang::op_span(
            if before is SepRun {
                SpecOp::SlashAnything
            } else {
                SpecOp::GlobstarAny
            },
            cx,
            s,
            i,
            j,
        ),
{
    let any = SpecOp::GlobstarAny;
    let a = seq![before];
    let b = seq![any];
    lang::lemma_span_concat(a, b, cx, s, i, j);
    assert forall|k: int| #[trigger]
        lang::ops_span(a, cx, s, i, k) <==> lang::op_span(before, cx, s, i, k) by {
        lang::lemma_span_single(before, cx, s, i, k);
    }
    assert forall|k: int| #[trigger]
        lang::ops_span(b, cx, s, k, j) <==> lang::op_span(any, cx, s, k, j) by {
        lang::lemma_span_single(any, cx, s, k, j);
    }
    if lang::ops_span(a + b, cx, s, i, j) {
        let k = choose|k: int| #[trigger]
            lang::cut(k) && lang::ops_span(a, cx, s, i, k) && lang::ops_span(b, cx, s, k, j);
        assert(lang::op_span(before, cx, s, i, k) && lang::op_span(any, cx, s, k, j));
        assert forall|m: int| i <= m < j implies !#[trigger] lang::hidden(cx, s, m) by {
            if m < k && before is SepRun {
                assert(cx.seps.has(s[m]));
            }
        }
        if before is SepRun {
            assert(cx.seps.has(s[i]));
        }
    }
    if before is SepRun && lang::op_span(SpecOp::SlashAnything, cx, s, i, j) {
        assert(lang::all_sep(cx, s, i, i + 1));
        assert(lang::op_span(before, cx, s, i, i + 1));
        assert(lang::no_hidden(cx, s, i + 1, j));
        assert(lang::op_span(any, cx, s, i + 1, j));
        assert(lang::cut(i + 1) && lang::ops_span(a, cx, s, i, i + 1) && lang::ops_span(
            b,
            cx,
            s,
            i + 1,
            j,
        ));
    }
    if before is OptSegmentsSlash && lang::op_span(any, cx, s, i, j) {
        assert(lang::op_span(before, cx, s, i, i));
        assert(lang::cut(i) && lang::ops_span(a, cx, s, i, i) && lang::ops_span(b, cx, s, i, j));
    }
}

/// Programs that match the same in the middle match the same as a whole.
proof fn lemma_replace(
    head: Seq<SpecOp>,
    a: Seq<SpecOp>,
    b: Seq<SpecOp>,
    tail: Seq<SpecOp>,
    cx: Cx,
    s: Seq<u8>,
    i: int,
    j: int,
)
    requires
        forall|m: int, n: int| #[trigger]
            lang::ops_span(a, cx, s, m, n) <==> lang::ops_span(b, cx, s, m, n),
        lang::ops_span(head + (a + tail), cx, s, i, j),
    ensures
        lang::ops_span(head + (b + tail), cx, s, i, j),
{
    lang::lemma_span_concat(head, a + tail, cx, s, i, j);
    let k = choose|k: int| #[trigger]
        lang::cut(k) && lang::ops_span(head, cx, s, i, k) && lang::ops_span(a + tail, cx, s, k, j);
    lang::lemma_span_concat(a, tail, cx, s, k, j);
    let m = choose|m: int| #[trigger]
        lang::cut(m) && lang::ops_span(a, cx, s, k, m) && lang::ops_span(tail, cx, s, m, j);
    lang::lemma_span_concat(b, tail, cx, s, k, j);
    assert(lang::cut(m) && lang::ops_span(b, cx, s, k, m));
    lang::lemma_span_concat(head, b + tail, cx, s, i, j);
    assert(lang::cut(k));
}

/// Collapsing changes nothing.
pub proof fn lemma_collapse(
    done: Seq<SpecOp>,
    rest: Seq<SpecOp>,
    cx: Cx,
    s: Seq<u8>,
    i: int,
    j: int,
)
    ensures
        lang::ops_span(collapse(done, rest), cx, s, i, j) <==> lang::ops_span(
            done + rest,
            cx,
            s,
            i,
            j,
        ),
    decreases rest.len(), done.len(),
{
    if rest.len() == 0 {
        assert(done + rest =~= done);
    } else {
        let tail = rest.drop_first();
        if rest[0] is GlobstarAny && done.len() > 0 && (done.last() is OptSegmentsSlash
            || done.last() is SepRun) {
            let head = done.drop_last();
            let before = done.last();
            let to = if before is SepRun { SpecOp::SlashAnything } else { SpecOp::GlobstarAny };
            let a = seq![before] + seq![SpecOp::GlobstarAny];
            let b = seq![to];
            assert forall|m: int, n: int| #[trigger]
                lang::ops_span(a, cx, s, m, n) <==> lang::ops_span(b, cx, s, m, n) by {
                lemma_swallow(before, cx, s, m, n);
                lang::lemma_span_single(to, cx, s, m, n);
            }
            assert(done + rest =~= head + (a + tail));
            if lang::ops_span(head + (a + tail), cx, s, i, j) {
                lemma_replace(head, a, b, tail, cx, s, i, j);
            }
            if lang::ops_span(head + (b + tail), cx, s, i, j) {
                lemma_replace(head, b, a, tail, cx, s, i, j);
            }
            if before is SepRun {
                lemma_collapse(head.push(to), tail, cx, s, i, j);
                assert(head.push(to) + tail =~= head + (b + tail));
            } else {
                lemma_collapse(head, rest, cx, s, i, j);
                assert(head + rest =~= head + (b + tail));
            }
        } else {
            lemma_collapse(done.push(rest[0]), tail, cx, s, i, j);
            assert(done.push(rest[0]) + tail =~= done + rest);
        }
    }
}


/// Op `k` of `all` is as collapsing leaves it, where `n` ops have been looked
/// at.
spec fn tidied_at(all: Seq<SpecOp>, k: int, n: int) -> bool {
    &&& !forks_at(all[k])
    &&& all[k] is SepRun ==> k + 1 < all.len() && (all[k + 1] is OptSegmentsSlash || (k + 1 == n
        && all[k + 1] is GlobstarAny))
    &&& all[k] is LeadingSeps ==> k + 1 < all.len() && (all[k + 1] is OptSegmentsSlash
        || all[k + 1] is GlobstarAny)
    &&& all[k] is OptSegmentsSlash && k + 1 < n ==> !(all[k + 1] is GlobstarAny)
}

spec fn tidied(done: Seq<SpecOp>, rest: Seq<SpecOp>) -> bool {
    forall|k: int|
        0 <= k < done.len() ==> #[trigger] tidied_at(done + rest, k, done.len() as int)
}

/// How the first op of a program relates to that of its collapsed form.
spec fn first_rel(before: SpecOp, after: SpecOp) -> bool {
    before == after || (before is OptSegmentsSlash && after is GlobstarAny) || (before is SepRun
        && after is SlashAnything)
}

proof fn lemma_flat_rest(ops: Seq<SpecOp>)
    requires
        flat(ops),
        ops.len() > 0,
    ensures
        flat(ops.drop_first()),
{
    let rest = ops.drop_first();
    assert forall|k: int| 0 <= k < rest.len() implies #[trigger] flat_at(rest, k) by {
        assert(flat_at(ops, k + 1));
        if k + 1 < rest.len() {
            assert(rest[k + 1] == ops[k + 2]);
        }
    }
}

#[verifier::rlimit(50)]
proof fn lemma_collapse_shape(done: Seq<SpecOp>, rest: Seq<SpecOp>)
    requires
        tidied(done, rest),
        flat(rest),
    ensures
        elems::readable(collapse(done, rest)),
        forall|k: int|
            0 <= k < collapse(done, rest).len() ==> #[trigger] tidied_at(
                collapse(done, rest),
                k,
                collapse(done, rest).len() as int,
            ),
        (done + rest).len() > 0 ==> collapse(done, rest).len() > 0 && first_rel(
            (done + rest)[0],
            collapse(done, rest)[0],
        ),
    decreases rest.len(), done.len(),
{
    let all = done + rest;
    let n = done.len() as int;
    if rest.len() == 0 {
        assert(all =~= done);
        assert forall|k: int| 0 <= k < done.len() implies #[trigger] elems::readable_at(
            done,
            k,
        ) by {
            assert(tidied_at(all, k, n));
        }
        assert forall|k: int| 0 <= k < done.len() implies #[trigger] tidied_at(done, k, n) by {
            assert(tidied_at(all, k, n));
        }
    } else {
        let tail = rest.drop_first();
        lemma_flat_rest(rest);
        assert(flat_at(rest, 0));
        if rest[0] is GlobstarAny && n > 0 && done.last() is OptSegmentsSlash {
            let head = done.drop_last();
            let all2 = head + rest;
            assert forall|k: int| 0 <= k < head.len() implies #[trigger] tidied_at(
                all2,
                k,
                head.len() as int,
            ) by {
                assert(tidied_at(all, k, n));
                assert(all2[k] == all[k]);
                if k + 1 < head.len() {
                    assert(all2[k + 1] == all[k + 1]);
                } else {
                    assert(all2[k + 1] == rest[0]);
                }
            }
            lemma_collapse_shape(head, rest);
            if n == 1 {
                assert(all2[0] == rest[0]);
            } else {
                assert(all2[0] == all[0]);
            }
        } else if rest[0] is GlobstarAny && n > 0 && done.last() is SepRun {
            let head = done.drop_last();
            let done2 = head.push(SpecOp::SlashAnything);
            let all2 = done2 + tail;
            assert forall|k: int| 0 <= k < done2.len() implies #[trigger] tidied_at(
                all2,
                k,
                done2.len() as int,
            ) by {
                if k < head.len() {
                    assert(tidied_at(all, k, n));
                    assert(all2[k] == all[k]);
                    if k + 1 < head.len() {
                        assert(all2[k + 1] == all[k + 1]);
                    } else {
                        assert(all[k + 1] == done.last());
                        assert(all2[k + 1] == SpecOp::SlashAnything);
                    }
                } else {
                    assert(all2[k] == SpecOp::SlashAnything);
                }
            }
            lemma_collapse_shape(done2, tail);
            if n > 1 {
                assert(all2[0] == all[0]);
            }
        } else {
            let done2 = done.push(rest[0]);
            assert(done2 + tail =~= all);
            assert forall|k: int| 0 <= k < done2.len() implies #[trigger] tidied_at(
                all,
                k,
                done2.len() as int,
            ) by {
                if k < n {
                    assert(tidied_at(all, k, n));
                    if k == n - 1 {
                        assert(all[k] == done.last());
                        assert(all[k + 1] == rest[0]);
                    }
                } else {
                    assert(all[k] == rest[0]);
                    if rest.len() > 1 {
                        assert(all[k + 1] == rest[1]);
                    }
                }
            }
            lemma_collapse_shape(done2, tail);
        }
    }
}

/// Leading separators and then `**` match what `**` does.
proof fn lemma_leading_any(cx: Cx, s: Seq<u8>, i: int, j: int)
    ensures
        lang::ops_span(seq![SpecOp::LeadingSeps] + seq![SpecOp::GlobstarAny], cx, s, i, j)
            <==> lang::ops_span(seq![SpecOp::GlobstarAny], cx, s, i, j),
{
    let any = SpecOp::GlobstarAny;
    let a = seq![SpecOp::LeadingSeps];
    let b = seq![any];
    lang::lemma_span_concat(a, b, cx, s, i, j);
    lang::lemma_span_single(any, cx, s, i, j);
    if lang::ops_span(a + b, cx, s, i, j) {
        let k = choose|k: int| #[trigger]
            lang::cut(k) && lang::ops_span(a, cx, s, i, k) && lang::ops_span(b, cx, s, k, j);
        lang::lemma_span_single(SpecOp::LeadingSeps, cx, s, i, k);
        lang::lemma_span_single(any, cx, s, k, j);
        assert forall|m: int| i <= m < j implies !#[trigger] lang::hidden(cx, s, m) by {
            if m < k {
                assert(cx.seps.has(s[m]));
            }
        }
    }
    if lang::ops_span(b, cx, s, i, j) {
        lang::lemma_span_single(SpecOp::LeadingSeps, cx, s, i, i);
        assert(lang::op_span(SpecOp::LeadingSeps, cx, s, i, i));
        assert(lang::cut(i));
    }
}

/// A collapsed fork matches what the fork does, also when a leading `**/`
/// absorbs leading separators.
proof fn lemma_collapsed_head(fork: Seq<SpecOp>, cx: Cx, s: Seq<u8>)
    requires
        flat(fork),
    ensures
        lang::matches(elems::with_leading_seps(collapse(seq![], fork)), cx, s) <==> lang::matches(
            elems::with_leading_seps(fork),
            cx,
            s,
        ),
        elems::readable(collapse(seq![], fork)),
        elems::head_ok(collapse(seq![], fork)),
{
    let none = Seq::<SpecOp>::empty();
    let c = collapse(none, fork);
    let len = s.len() as int;
    assert(none + fork =~= fork);
    lemma_collapse_shape(none, fork);
    if c.len() > 0 {
        assert(tidied_at(c, 0, c.len() as int));
    }
    assert forall|m: int, n: int| #[trigger]
        lang::ops_span(c, cx, s, m, n) <==> lang::ops_span(fork, cx, s, m, n) by {
        lemma_collapse(none, fork, cx, s, m, n);
    }
    let ls = seq![SpecOp::LeadingSeps];
    assert(ls + (c + none) =~= ls + c);
    assert(ls + (fork + none) =~= ls + fork);
    if lang::ops_span(ls + c, cx, s, 0, len) {
        lemma_replace(ls, c, fork, none, cx, s, 0, len);
    }
    if lang::ops_span(ls + fork, cx, s, 0, len) {
        lemma_replace(ls, fork, c, none, cx, s, 0, len);
    }
    if fork.len() > 0 && fork[0] is OptSegmentsSlash && c[0] is GlobstarAny {
        let any = seq![SpecOp::GlobstarAny];
        let tail = c.drop_first();
        assert(c =~= any + tail);
        assert(ls + c =~= none + ((ls + any) + tail));
        assert(c =~= none + (any + tail));
        assert forall|m: int, n: int| #[trigger]
            lang::ops_span(ls + any, cx, s, m, n) <==> lang::ops_span(any, cx, s, m, n) by {
            lemma_leading_any(cx, s, m, n);
        }
        if lang::ops_span(ls + c, cx, s, 0, len) {
            lemma_replace(none, ls + any, any, tail, cx, s, 0, len);
        }
        if lang::ops_span(c, cx, s, 0, len) {
            lemma_replace(none, any, ls + any, tail, cx, s, 0, len);
        }
    }
}

/// A collapsed fork has no crossing alternation either.
pub proof fn lemma_collapse_forks(fork: Seq<SpecOp>)
    requires
        flat(fork),
    ensures
        forall|k: int|
            0 <= k < collapse(seq![], fork).len() ==> !forks_at(
                #[trigger] collapse(seq![], fork)[k],
            ),
{
    let none = Seq::<SpecOp>::empty();
    assert(none + fork =~= fork);
    lemma_collapse_shape(none, fork);
    let c = collapse(none, fork);
    assert forall|k: int| 0 <= k < c.len() implies !forks_at(#[trigger] c[k]) by {
        assert(tidied_at(c, k, c.len() as int));
    }
}

/// Collapsing keeps literals and alternations as they are.
pub proof fn lemma_collapse_full(done: Seq<SpecOp>, rest: Seq<SpecOp>)
    requires
        ir::full(done),
        ir::full(rest),
    ensures
        ir::full(collapse(done, rest)),
    decreases rest.len(), done.len(),
{
    if rest.len() > 0 {
        let tail = rest.drop_first();
        assert(ir::full(tail)) by {
            assert forall|k: int| 0 <= k < tail.len() implies ir::full_op(#[trigger] tail[k]) by {
                assert(tail[k] == rest[k + 1]);
            }
        }
        assert(ir::full_op(rest[0]));
        if rest[0] is GlobstarAny && done.len() > 0 && done.last() is OptSegmentsSlash {
            let head = done.drop_last();
            assert forall|k: int| 0 <= k < head.len() implies ir::full_op(#[trigger] head[k]) by {
                assert(head[k] == done[k]);
            }
            lemma_collapse_full(head, rest);
        } else if rest[0] is GlobstarAny && done.len() > 0 && done.last() is SepRun {
            let more = done.drop_last().push(SpecOp::SlashAnything);
            assert forall|k: int| 0 <= k < more.len() implies ir::full_op(#[trigger] more[k]) by {
                if k < done.len() - 1 {
                    assert(more[k] == done[k]);
                }
            }
            lemma_collapse_full(more, tail);
        } else {
            let more = done.push(rest[0]);
            assert forall|k: int| 0 <= k < more.len() implies ir::full_op(#[trigger] more[k]) by {
                if k < done.len() {
                    assert(more[k] == done[k]);
                }
            }
            lemma_collapse_full(more, tail);
        }
    }
}

proof fn lemma_product_full(a: Seq<Seq<SpecOp>>, b: Seq<Seq<SpecOp>>)
    requires
        ir::full_branches(a),
        ir::full_branches(b),
    ensures
        ir::full_branches(product(a, b)),
    decreases a.len(),
{
    if a.len() > 0 {
        let head = a.drop_last();
        let last = a.last();
        let first = product(head, b);
        let all = product(a, b);
        assert forall|f: int| 0 <= f < head.len() implies ir::full(#[trigger] head[f]) by {
            assert(head[f] == a[f]);
        }
        lemma_product_full(head, b);
        assert forall|f: int| 0 <= f < all.len() implies ir::full(#[trigger] all[f]) by {
            if f < first.len() {
                assert(all[f] == first[f]);
            } else {
                let g = f - first.len();
                assert(all[f] == last + b[g]);
                assert(ir::full(a[a.len() - 1]));
                assert(ir::full(b[g]));
                assert forall|k: int| 0 <= k < all[f].len() implies ir::full_op(
                    #[trigger] all[f][k],
                ) by {
                    if k < last.len() {
                        assert(all[f][k] == last[k]);
                    } else {
                        assert(all[f][k] == b[g][k - last.len()]);
                    }
                }
            }
        }
    }
}

/// The forks of a program without empty parts have none either.
pub proof fn lemma_forks_full(ops: Seq<SpecOp>)
    requires
        ir::full(ops),
        forks(ops) is Some,
    ensures
        ir::full_branches(forks(ops)->0),
    decreases ops, 0int,
{
    if ops.len() == 0 {
        assert forall|f: int| 0 <= f < (forks(ops)->0).len() implies ir::full(
            #[trigger] (forks(ops)->0)[f],
        ) by {}
    } else {
        let head = ops.drop_last();
        let last = ops.last();
        assert(forks(head) is Some);
        assert forall|k: int| 0 <= k < head.len() implies ir::full_op(#[trigger] head[k]) by {
            assert(head[k] == ops[k]);
        }
        lemma_forks_full(head);
        let a = forks(head)->0;
        let fs = forks(ops)->0;
        assert(op_forks(last, a) == Some(fs));
        assert(ir::full_op(ops[ops.len() - 1]));
        if forks_at(last) {
            let bs = last->Alternation_0;
            assert(branch_forks(bs) is Some);
            assert(ir::full_branches(bs));
            assert(decreases_to!(ops => ops[ops.len() - 1]));
            lemma_branch_forks_full(bs);
            lemma_product_full(a, branch_forks(bs)->0);
        } else {
            assert(fs =~= append_all(a, last));
            assert forall|f: int| 0 <= f < fs.len() implies ir::full(#[trigger] fs[f]) by {
                assert(fs[f] == a[f].push(last));
                assert(ir::full(a[f]));
                assert forall|k: int| 0 <= k < fs[f].len() implies ir::full_op(
                    #[trigger] fs[f][k],
                ) by {
                    if k < a[f].len() {
                        assert(fs[f][k] == a[f][k]);
                    }
                }
            }
        }
    }
}

proof fn lemma_branch_forks_full(bs: Seq<Seq<SpecOp>>)
    requires
        ir::full_branches(bs),
        branch_forks(bs) is Some,
    ensures
        ir::full_branches(branch_forks(bs)->0),
    decreases bs, 1int,
{
    if bs.len() > 0 {
        let head = bs.drop_last();
        let last = bs.last();
        assert(branch_forks(head) is Some);
        assert(forks(last) is Some);
        assert forall|k: int| 0 <= k < head.len() implies ir::full(#[trigger] head[k]) by {
            assert(head[k] == bs[k]);
        }
        assert(ir::full_branches(head));
        lemma_branch_forks_full(head);
        assert(ir::full(bs[bs.len() - 1]));
        assert(decreases_to!(bs => bs[bs.len() - 1]));
        lemma_forks_full(last);
        let a = branch_forks(head)->0;
        let b = forks(last)->0;
        let fs = branch_forks(bs)->0;
        assert forall|f: int| 0 <= f < fs.len() implies ir::full(#[trigger] fs[f]) by {
            if f < a.len() {
                assert(fs[f] == a[f]);
            } else {
                assert(fs[f] == b[f - a.len()]);
            }
        }
    }
}

/// Read segment by segment, a fork matches exactly what it matches byte by
/// byte, with a leading `**/` absorbing leading separators.
pub proof fn lemma_fork(fork: Seq<SpecOp>, read: Seq<elems::SpecElem>, cx: Cx, s: Seq<u8>)
    requires
        flat(fork),
        elems::elems_of(
            collapse(seq![], fork),
            cx.seps,
            seq![],
            elems::Boundary::Fresh,
            false,
            true,
        ) == Some(read),
    ensures
        elems::elems_match(read, cx, s, 0) <==> lang::matches(
            elems::with_leading_seps(fork),
            cx,
            s,
        ),
{
    lemma_collapsed_head(fork, cx, s);
    elems::lemma_elems_of(collapse(seq![], fork), read, cx, s);
}


/// Whether the op may match a separator.
pub fn op_crosses_segment(op: &Op) -> (r: bool)
    ensures
        r == elems::crosses(op@),
    decreases op,
{
    match op {
        Op::Sep
        | Op::SepRun
        | Op::Globstar
        | Op::OptSegmentsSlash
        | Op::SlashAnything
        | Op::GlobstarAny
        | Op::LeadingSeps => true,
        Op::Alternation(branches) => any_branch_crosses(branches),
        _ => false,
    }
}

fn any_branch_crosses(branches: &Vec<Vec<Op>>) -> (r: bool)
    ensures
        r == elems::some_branch_crosses(ir::branches_view(branches@)),
    decreases branches,
{
    let ghost bs = ir::branches_view(branches@);
    for k in 0..branches.len()
        invariant
            bs == ir::branches_view(branches@),
            forall|m: int| 0 <= m < k ==> !elems::some_crosses(#[trigger] bs[m]),
    {
        assert(decreases_to!(branches => branches@[k as int]));
        assert(bs[k as int] == ir::ops_view(branches@[k as int]@));
        if any_op_crosses(&branches[k]) {
            return true;
        }
    }
    false
}

fn any_op_crosses(ops: &Vec<Op>) -> (r: bool)
    ensures
        r == elems::some_crosses(ir::ops_view(ops@)),
    decreases ops,
{
    let ghost views = ir::ops_view(ops@);
    for k in 0..ops.len()
        invariant
            views == ir::ops_view(ops@),
            forall|m: int| 0 <= m < k ==> !elems::crosses(#[trigger] views[m]),
    {
        assert(decreases_to!(ops => ops@[k as int]));
        assert(views[k as int] == ir::op_view(ops@[k as int]));
        if op_crosses_segment(&ops[k]) {
            return true;
        }
    }
    false
}

proof fn lemma_forks_none(ops: Seq<SpecOp>, n: int)
    requires
        0 <= n <= ops.len(),
        forks(ops.take(n)) is None,
    ensures
        forks(ops) is None,
    decreases ops.len() - n,
{
    if n == ops.len() {
        assert(ops.take(n) =~= ops);
    } else {
        let next = ops.take(n + 1);
        assert(next.drop_last() =~= ops.take(n));
        assert(forks(next) is None);
        lemma_forks_none(ops, n + 1);
    }
}

proof fn lemma_branch_forks_none(bs: Seq<Seq<SpecOp>>, n: int)
    requires
        0 <= n <= bs.len(),
        branch_forks(bs.take(n)) is None,
    ensures
        branch_forks(bs) is None,
    decreases bs.len() - n,
{
    if n == bs.len() {
        assert(bs.take(n) =~= bs);
    } else {
        let next = bs.take(n + 1);
        assert(next.drop_last() =~= bs.take(n));
        assert(branch_forks(next) is None);
        lemma_branch_forks_none(bs, n + 1);
    }
}

proof fn lemma_product_len(a: Seq<Seq<SpecOp>>, b: Seq<Seq<SpecOp>>, n: int)
    requires
        0 <= n <= a.len(),
    ensures
        product(a.take(n), b).len() <= product(a, b).len(),
    decreases a.len() - n,
{
    if n == a.len() {
        assert(a.take(n) =~= a);
    } else {
        lemma_product_len(a, b, n + 1);
        assert(a.take(n + 1).drop_last() =~= a.take(n));
    }
}

/// Each of `seqs` before each of `expanded`, or `None` where that is more than
/// [`MAX_FORKS`].
fn cross(seqs: &Vec<Vec<Op>>, expanded: &Vec<Vec<Op>>) -> (r: Option<Vec<Vec<Op>>>)
    ensures
        ({
            let all = product(ir::branches_view(seqs@), ir::branches_view(expanded@));
            &&& r is Some <==> all.len() <= MAX_FORKS
            &&& r is Some ==> ir::branches_view(r->0@) == all
        }),
{
    let ghost a = ir::branches_view(seqs@);
    let ghost b = ir::branches_view(expanded@);
    let mut next: Vec<Vec<Op>> = Vec::new();
    let mut x: usize = 0;
    assert(ir::branches_view(next@) =~= product(a.take(0), b));
    while x < seqs.len()
        invariant
            x <= seqs@.len(),
            a == ir::branches_view(seqs@),
            b == ir::branches_view(expanded@),
            ir::branches_view(next@) == product(a.take(x as int), b),
            next@.len() <= MAX_FORKS,
        decreases seqs@.len() - x,
    {
        let ghost base = ir::branches_view(next@);
        let ghost at = a.take(x + 1);
        proof {
            assert(at.drop_last() =~= a.take(x as int));
            assert(at.last() == a[x as int]);
            assert(a[x as int] == ir::ops_view(seqs@[x as int]@));
        }
        let mut y: usize = 0;
        assert(base + prepend_all(a[x as int], b.take(0)) =~= base);
        while y < expanded.len()
            invariant
                x < seqs@.len(),
                y <= expanded@.len(),
                a == ir::branches_view(seqs@),
                b == ir::branches_view(expanded@),
                at == a.take(x + 1),
                base == product(a.take(x as int), b),
                at.drop_last() == a.take(x as int),
                at.last() == a[x as int],
                a[x as int] == ir::ops_view(seqs@[x as int]@),
                ir::branches_view(next@) == base + prepend_all(a[x as int], b.take(y as int)),
                next@.len() <= MAX_FORKS,
                next@.len() == base.len() + y,
            decreases expanded@.len() - y,
        {
            if next.len() >= MAX_FORKS {
                proof {
                    lemma_product_len(a, b, x + 1);
                    assert(product(at, b).len() == base.len() + b.len());
                }
                return None;
            }
            let ghost n0 = ir::branches_view(next@);
            let mut merged: Vec<Op> = ir::clone_ops(&seqs[x]);
            let mut tail: Vec<Op> = ir::clone_ops(&expanded[y]);
            let ghost tv = ir::ops_view(tail@);
            let ghost mv = ir::ops_view(merged@);
            merged.append(&mut tail);
            proof {
                assert(ir::ops_view(merged@) =~= mv + tv);
                assert(b[y as int] == ir::ops_view(expanded@[y as int]@));
            }
            next.push(merged);
            proof {
                assert(ir::branches_view(next@) =~= n0.push(a[x as int] + b[y as int]));
                assert(prepend_all(a[x as int], b.take(y + 1)) =~= prepend_all(
                    a[x as int],
                    b.take(y as int),
                ).push(a[x as int] + b[y as int]));
                assert(ir::branches_view(next@) =~= base + prepend_all(
                    a[x as int],
                    b.take(y + 1),
                ));
            }
            y = y + 1;
        }
        assert(b.take(y as int) =~= b);
        x = x + 1;
    }
    assert(a.take(x as int) =~= a);
    Some(next)
}

/// The program with its crossing alternations written out.
pub fn expand_forks(ops: &Vec<Op>) -> (r: Option<Vec<Vec<Op>>>)
    ensures
        r is Some <==> forks(ir::ops_view(ops@)) is Some,
        r is Some ==> ir::branches_view(r->0@) == forks(ir::ops_view(ops@))->0,
    decreases ops,
{
    let ghost views = ir::ops_view(ops@);
    let mut seqs: Vec<Vec<Op>> = Vec::new();
    seqs.push(Vec::new());
    proof {
        assert(views.take(0) =~= Seq::<SpecOp>::empty());
        assert(ir::ops_view(Seq::<Op>::empty()) =~= Seq::<SpecOp>::empty());
        assert(ir::branches_view(seqs@) =~= seq![Seq::<SpecOp>::empty()]);
    }
    let mut k: usize = 0;
    while k < ops.len()
        invariant
            k <= ops@.len(),
            views == ir::ops_view(ops@),
            forks(views.take(k as int)) == Some(ir::branches_view(seqs@)),
        decreases ops@.len() - k,
    {
        let ghost a = ir::branches_view(seqs@);
        let ghost next = views.take(k + 1);
        proof {
            assert(next.drop_last() =~= views.take(k as int));
            assert(next.last() == views[k as int]);
            assert(views[k as int] == ir::op_view(ops@[k as int]));
            assert(forks(next) == op_forks(views[k as int], a));
            assert(decreases_to!(ops => ops@[k as int]));
        }
        let op: &Op = &ops[k];
        match expand_op(op, seqs) {
            Some(more) => {
                seqs = more;
            },
            None => {
                proof {
                    lemma_forks_none(views, k + 1);
                }
                return None;
            },
        }
        k = k + 1;
    }
    assert(views.take(k as int) =~= views);
    Some(seqs)
}

/// The forks `seqs` continued with `op`.
fn expand_op(op: &Op, seqs: Vec<Vec<Op>>) -> (r: Option<Vec<Vec<Op>>>)
    ensures
        r is Some <==> op_forks(op@, ir::branches_view(seqs@)) is Some,
        r is Some ==> ir::branches_view(r->0@) == op_forks(op@, ir::branches_view(seqs@))->0,
    decreases op,
{
    let ghost a = ir::branches_view(seqs@);
    if op_crosses_segment(op) {
        match op {
            Op::Alternation(branches) => {
                return match expand_branches(branches) {
                    Some(expanded) => cross(&seqs, &expanded),
                    None => None,
                };
            },
            _ => {},
        }
    }
    assert(op_forks(op@, a) == Some(append_all(a, op@)));
    let mut out: Vec<Vec<Op>> = Vec::new();
    let mut rest: Vec<Vec<Op>> = seqs;
    let mut x: usize = 0;
    while x < rest.len()
        invariant
            x <= rest@.len(),
            rest@.len() == a.len(),
            out@.len() == x,
            forall|m: int| 0 <= m < a.len() ==> ir::ops_view((#[trigger] rest@[m])@) == a[m],
            forall|m: int| 0 <= m < x ==> ir::ops_view((#[trigger] out@[m])@) == a[m].push(op@),
        decreases rest@.len() - x,
    {
        let mut one: Vec<Op> = ir::clone_ops(&rest[x]);
        let ghost before = ir::ops_view(one@);
        one.push(op.clone());
        assert(ir::ops_view(one@) =~= before.push(op@));
        out.push(one);
        x = x + 1;
    }
    assert(ir::branches_view(out@) =~= append_all(a, op@));
    Some(out)
}

fn expand_branches(branches: &Vec<Vec<Op>>) -> (r: Option<Vec<Vec<Op>>>)
    ensures
        r is Some <==> branch_forks(ir::branches_view(branches@)) is Some,
        r is Some ==> ir::branches_view(r->0@) == branch_forks(ir::branches_view(branches@))->0,
    decreases branches,
{
    let ghost bs = ir::branches_view(branches@);
    let mut expanded: Vec<Vec<Op>> = Vec::new();
    assert(ir::branches_view(expanded@) =~= seq![]);
    assert(bs.take(0) =~= seq![]);
    let mut k: usize = 0;
    while k < branches.len()
        invariant
            k <= branches@.len(),
            bs == ir::branches_view(branches@),
            branch_forks(bs.take(k as int)) == Some(ir::branches_view(expanded@)),
        decreases branches@.len() - k,
    {
        let ghost e0 = ir::branches_view(expanded@);
        let ghost next = bs.take(k + 1);
        proof {
            assert(next.drop_last() =~= bs.take(k as int));
            assert(next.last() == bs[k as int]);
            assert(bs[k as int] == ir::ops_view(branches@[k as int]@));
            assert(decreases_to!(branches => branches@[k as int]));
        }
        match expand_forks(&branches[k]) {
            Some(sub) => {
                let ghost sv = ir::branches_view(sub@);
                let mut sub: Vec<Vec<Op>> = sub;
                expanded.append(&mut sub);
                assert(ir::branches_view(expanded@) =~= e0 + sv);
                if expanded.len() > MAX_FORKS {
                    proof {
                        assert(branch_forks(next) is None);
                        lemma_branch_forks_none(bs, k + 1);
                    }
                    return None;
                }
            },
            None => {
                proof {
                    assert(branch_forks(next) is None);
                    lemma_branch_forks_none(bs, k + 1);
                }
                return None;
            },
        }
        k = k + 1;
    }
    assert(bs.take(k as int) =~= bs);
    Some(expanded)
}

/// Lets a bare `**` swallow what it can.
pub fn collapse_open_globstars(ops: &mut Vec<Op>)
    ensures
        ir::ops_view(final(ops)@) == collapse(seq![], ir::ops_view(old(ops)@)),
{
    let ghost whole = ir::ops_view(ops@);
    let mut i: usize = 0;
    assert(whole.take(0) =~= seq![]);
    assert(whole.skip(0) =~= whole);
    while i < ops.len()
        invariant
            i <= ops@.len(),
            collapse(
                ir::ops_view(ops@).take(i as int),
                ir::ops_view(ops@).skip(i as int),
            ) == collapse(seq![], whole),
        decreases ops@.len() - i, i,
    {
        let ghost v0 = ir::ops_view(ops@);
        let ghost done = v0.take(i as int);
        let ghost rest = v0.skip(i as int);
        proof {
            assert(rest[0] == v0[i as int]);
            assert(v0[i as int] == ir::op_view(ops@[i as int]));
            if i > 0 {
                assert(done.last() == v0[i - 1]);
                assert(v0[i - 1] == ir::op_view(ops@[i - 1]));
            }
            assert(rest.drop_first() =~= v0.skip(i + 1));
        }
        if i > 0 && matches!(&ops[i], Op::GlobstarAny) {
            if matches!(&ops[i - 1], Op::OptSegmentsSlash) {
                ops.remove(i - 1);
                proof {
                    let v1 = ir::ops_view(ops@);
                    assert(v1 =~= v0.remove(i - 1));
                    assert(v1.take(i - 1) =~= done.drop_last());
                    assert(v1.skip(i - 1) =~= rest);
                }
                i = i - 1;
                continue;
            }
            if matches!(&ops[i - 1], Op::SepRun) {
                ops[i - 1] = Op::SlashAnything;
                ops.remove(i);
                proof {
                    let v1 = ir::ops_view(ops@);
                    assert(v1 =~= v0.update(i - 1, SpecOp::SlashAnything).remove(i as int));
                    assert(v1.take(i as int) =~= done.drop_last().push(SpecOp::SlashAnything));
                    assert(v1.skip(i as int) =~= rest.drop_first());
                }
                continue;
            }
        }
        proof {
            assert(v0.take(i + 1) =~= done.push(rest[0]));
            assert(v0.skip(i + 1) =~= rest.drop_first());
        }
        i = i + 1;
    }
    proof {
        let v = ir::ops_view(ops@);
        assert(v.take(i as int) =~= v);
        assert(v.skip(i as int).len() == 0);
    }
}

/// A member of a product is a member of `a` and a member of `b`.
pub proof fn lemma_product_parts(a: Seq<Seq<SpecOp>>, b: Seq<Seq<SpecOp>>, f: int) -> (r: (
    int,
    int,
))
    requires
        0 <= f < product(a, b).len(),
    ensures
        0 <= r.0 < a.len(),
        0 <= r.1 < b.len(),
        product(a, b)[f] == a[r.0] + b[r.1],
    decreases a.len(),
{
    let head = a.drop_last();
    let first = product(head, b);
    if f < first.len() {
        lemma_product_parts(head, b, f)
    } else {
        (a.len() - 1, f - first.len())
    }
}

/// What a fork of `ops` starts with: what a fork of the first op is, and where
/// that is nothing, the second op.
pub proof fn lemma_fork_start(ops: Seq<SpecOp>, f: int) -> (x: int)
    requires
        ops.len() > 0,
        forks(ops) is Some,
        0 <= f < (forks(ops)->0).len(),
    ensures
        forks(ops.take(1)) is Some,
        0 <= x < (forks(ops.take(1))->0).len(),
        ({
            let fork = (forks(ops)->0)[f];
            let start = (forks(ops.take(1))->0)[x];
            &&& start.len() <= fork.len()
            &&& fork.take(start.len() as int) == start
            &&& ops.len() == 1 ==> fork == start
            &&& start.len() == 0 && ops.len() > 1 && !(ops[1] is Alternation) ==> fork.len() > 0
                && fork[0] == ops[1]
        }),
    decreases ops.len(),
{
    let fork = (forks(ops)->0)[f];
    if ops.len() == 1 {
        assert(ops.take(1) =~= ops);
        assert(fork.take(fork.len() as int) =~= fork);
        f
    } else {
        let head = ops.drop_last();
        let last = ops.last();
        let a = forks(head)->0;
        assert(head.take(1) =~= ops.take(1));
        let g: int = if forks_at(last) {
            let b = branch_forks(last->Alternation_0)->0;
            assert(op_forks(last, a) == Some(product(a, b)));
            lemma_product_parts(a, b, f).0
        } else {
            assert(op_forks(last, a) == Some(append_all(a, last)));
            f
        };
        let x = lemma_fork_start(head, g);
        let start = (forks(ops.take(1))->0)[x];
        assert(a[g].len() <= fork.len() && fork.take(a[g].len() as int) =~= a[g]);
        assert(fork.take(start.len() as int) =~= a[g].take(start.len() as int));
        if start.len() == 0 && !(ops[1] is Alternation) {
            if head.len() == 1 {
                assert(a[g] == start);
                assert(last == ops[1]);
                assert(fork[0] == ops[1]);
            } else {
                assert(head[1] == ops[1]);
                assert(fork.take(a[g].len() as int)[0] == a[g][0]);
            }
        }
        x
    }
}

/// A fork that starts with a bare `**/` comes from a program that starts with
/// one, or with an alternation.
pub proof fn lemma_bare_start(ops: Seq<SpecOp>, f: int)
    requires
        forks(ops) is Some,
        0 <= f < (forks(ops)->0).len(),
        (forks(ops)->0)[f].len() > 0,
        (forks(ops)->0)[f][0] is OptSegmentsSlash,
    ensures
        ops.len() > 0,
        prefixes::branch_prefixes(ops).contains(Seq::<u8>::empty()),
    decreases ops,
{
    let none = Seq::<u8>::empty();
    let fork = (forks(ops)->0)[f];
    if ops.len() == 0 {
        assert((forks(ops)->0)[0].len() == 0);
    }
    let x = lemma_fork_start(ops, f);
    let one = ops.take(1);
    let start = (forks(one)->0)[x];
    assert(one.drop_last() =~= Seq::<SpecOp>::empty());
    assert(one.last() == ops[0]);
    let unit = seq![Seq::<SpecOp>::empty()];
    assert(forks(one.drop_last()) == Some(unit));
    assert(forks(one) == op_forks(ops[0], unit));
    if prefixes::splits(ops) && forks_at(ops[0]) {
        let bs = ops[0]->Alternation_0;
        let b = branch_forks(bs)->0;
        assert(op_forks(ops[0], unit) == Some(product(unit, b)));
        let (u, y) = lemma_product_parts(unit, b, x);
        assert(start =~= b[y]);
        assert(start.len() > 0);
        assert(start[0] == fork.take(start.len() as int)[0]);
        lemma_bare_branch(bs, y);
        assert(prefixes::branch_prefixes(ops) == prefixes::all_branch_prefixes(bs));
    } else {
        assert(!prefixes::spells(ops[0])) by {
            if !forks_at(ops[0]) {
                assert(op_forks(ops[0], unit) == Some(append_all(unit, ops[0])));
                assert(start =~= seq![ops[0]]);
                assert(start[0] == fork.take(start.len() as int)[0]);
            }
        }
        if !forks_at(ops[0]) {
            assert(op_forks(ops[0], unit) == Some(append_all(unit, ops[0])));
            assert(start =~= seq![ops[0]]);
            assert(start[0] == fork.take(start.len() as int)[0]);
            assert(!(ops[0] is Alternation));
        }
        assert(prefixes::lead(ops) == 0);
        assert(prefixes::boundary(ops, 0) == 0);
        assert(ops.take(0) =~= seq![]);
        assert(prefixes::spelled(ops.take(0)) == none);
        assert(prefixes::prefix_of(ops) =~= none);
        assert(prefixes::branch_prefixes(ops)[0] == none);
    }
}

proof fn lemma_bare_branch(bs: Seq<Seq<SpecOp>>, y: int)
    requires
        branch_forks(bs) is Some,
        0 <= y < (branch_forks(bs)->0).len(),
        (branch_forks(bs)->0)[y].len() > 0,
        (branch_forks(bs)->0)[y][0] is OptSegmentsSlash,
    ensures
        prefixes::all_branch_prefixes(bs).contains(Seq::<u8>::empty()),
    decreases bs,
{
    let none = Seq::<u8>::empty();
    if bs.len() > 0 {
        let a = branch_forks(bs.drop_last())->0;
        let b = forks(bs.last())->0;
        let first = prefixes::all_branch_prefixes(bs.drop_last());
        let more = prefixes::branch_prefixes(bs.last());
        let all = prefixes::all_branch_prefixes(bs);
        if y < a.len() {
            lemma_bare_branch(bs.drop_last(), y);
            let m = choose|m: int| 0 <= m < first.len() && first[m] == none;
            assert(all[m] == none);
        } else {
            assert((branch_forks(bs)->0)[y] == b[y - a.len()]);
            lemma_bare_start(bs.last(), y - a.len());
            let m = choose|m: int| 0 <= m < more.len() && more[m] == none;
            assert(all[first.len() + m] == none);
        }
    }
}

} // verus!
