//! How folding and merging treat parts of a sequence.
//!
//! A sequence of raw ops can be folded in parts, as long as no cut falls
//! between a `**` and a separator next to it. How literals are cut does not
//! matter at all.

use crate::engine::lang::{self, Cx};
use crate::engine::ops::lower;
use crate::engine::ops::SpecOp;
use crate::engine::segment::elems;
use vstd::prelude::*;

verus! {

pub open spec fn alike_at(
    a: Seq<SpecOp>,
    b: Seq<SpecOp>,
    cx: Cx,
    s: Seq<u8>,
    i: int,
    j: int,
) -> bool {
    lang::ops_span(a, cx, s, i, j) == lang::ops_span(b, cx, s, i, j)
}

/// Two programs match the same parts of `s`.
pub open spec fn alike(a: Seq<SpecOp>, b: Seq<SpecOp>, cx: Cx, s: Seq<u8>) -> bool {
    forall|i: int, j: int| #[trigger] alike_at(a, b, cx, s, i, j)
}

pub proof fn lemma_alike_trans(
    a: Seq<SpecOp>,
    b: Seq<SpecOp>,
    c: Seq<SpecOp>,
    cx: Cx,
    s: Seq<u8>,
)
    requires
        alike(a, b, cx, s),
        alike(b, c, cx, s),
    ensures
        alike(a, c, cx, s),
        alike(b, a, cx, s),
{
    assert forall|i: int, j: int| #[trigger] alike_at(a, c, cx, s, i, j) by {
        assert(alike_at(a, b, cx, s, i, j));
        assert(alike_at(b, c, cx, s, i, j));
    }
    assert forall|i: int, j: int| #[trigger] alike_at(b, a, cx, s, i, j) by {
        assert(alike_at(a, b, cx, s, i, j));
    }
}

/// Programs made of parts that match alike match alike.
pub proof fn lemma_alike_concat(
    a: Seq<SpecOp>,
    a2: Seq<SpecOp>,
    b: Seq<SpecOp>,
    b2: Seq<SpecOp>,
    cx: Cx,
    s: Seq<u8>,
)
    requires
        alike(a, a2, cx, s),
        alike(b, b2, cx, s),
    ensures
        alike(a + b, a2 + b2, cx, s),
{
    assert forall|i: int, j: int| #[trigger] alike_at(a + b, a2 + b2, cx, s, i, j) by {
        lang::lemma_span_concat(a, b, cx, s, i, j);
        lang::lemma_span_concat(a2, b2, cx, s, i, j);
        if lang::ops_span(a + b, cx, s, i, j) {
            let k = choose|k: int| #[trigger]
                lang::cut(k) && lang::ops_span(a, cx, s, i, k) && lang::ops_span(b, cx, s, k, j);
            assert(alike_at(a, a2, cx, s, i, k));
            assert(alike_at(b, b2, cx, s, k, j));
            assert(lang::cut(k) && lang::ops_span(a2, cx, s, i, k));
        }
        if lang::ops_span(a2 + b2, cx, s, i, j) {
            let k = choose|k: int| #[trigger]
                lang::cut(k) && lang::ops_span(a2, cx, s, i, k) && lang::ops_span(
                    b2,
                    cx,
                    s,
                    k,
                    j,
                );
            assert(alike_at(a, a2, cx, s, i, k));
            assert(alike_at(b, b2, cx, s, k, j));
            assert(lang::cut(k) && lang::ops_span(a, cx, s, i, k));
        }
    }
}

pub proof fn lemma_alike_self(a: Seq<SpecOp>, cx: Cx, s: Seq<u8>)
    ensures
        alike(a, a, cx, s),
{
}

/// The cut between `a` and `b` does not fall between a `**` and a separator.
pub open spec fn clean(a: Seq<SpecOp>, b: Seq<SpecOp>) -> bool {
    a.len() > 0 && b.len() > 0 ==> !(a.last() is Globstar && b[0] is Sep) && !(a.last() is Sep
        && b[0] is Globstar)
}

/// No op that only folding makes.
pub open spec fn unfolded(s: Seq<SpecOp>) -> bool {
    forall|k: int| 0 <= k < s.len() ==> !(#[trigger] s[k] is OptSegmentsSlash)
}

proof fn lemma_open_ends(s: Seq<SpecOp>)
    ensures
        s.len() == 0 <==> lower::open_globstars(s).len() == 0,
        s.len() > 0 && lower::open_globstars(s).last() is Sep ==> s.last() is Sep,
        s.len() > 0 && unfolded(s) && lower::open_globstars(s)[0] is OptSegmentsSlash
            ==> s[0] is Globstar,
        s.len() > 0 && lower::open_globstars(s)[0] is Globstar ==> s[0] is Globstar,
    decreases s.len(),
{
    if s.len() > 0 {
        let n: int = if s[0] is Globstar && s.len() > 1 && s[1] is Sep {
            2
        } else {
            1
        };
        lemma_open_ends(s.skip(n));
        let rest = lower::open_globstars(s.skip(n));
        let all = lower::open_globstars(s);
        if rest.len() > 0 {
            assert(all.last() == rest.last());
            assert(s.skip(n).last() == s.last());
        } else {
            assert(s.len() == n);
            assert(all.last() == all[0]);
        }
    }
}

proof fn lemma_open_concat(a: Seq<SpecOp>, b: Seq<SpecOp>)
    requires
        clean(a, b),
    ensures
        lower::open_globstars(a + b) == lower::open_globstars(a) + lower::open_globstars(b),
    decreases a.len(),
{
    if a.len() == 0 {
        assert(a + b =~= b);
        assert(lower::open_globstars(a) + lower::open_globstars(b) =~= lower::open_globstars(b));
    } else {
        let n: int = if a[0] is Globstar && a.len() > 1 && a[1] is Sep {
            2
        } else {
            1
        };
        let rest = a.skip(n);
        assert((a + b).skip(n) =~= rest + b);
        assert((a + b)[0] == a[0]);
        if a.len() > 1 {
            assert((a + b)[1] == a[1]);
        } else if b.len() > 0 {
            assert((a + b)[1] == b[0]);
            assert(a.last() == a[0]);
        }
        if rest.len() > 0 {
            assert(rest.last() == a.last());
        }
        lemma_open_concat(rest, b);
        assert(lower::open_globstars(a + b) =~= lower::open_globstars(a) + lower::open_globstars(b));
    }
}

proof fn lemma_close_concat(a: Seq<SpecOp>, b: Seq<SpecOp>)
    requires
        a.len() > 0 && b.len() > 0 ==> !(a.last() is Sep && b[0] is Globstar),
    ensures
        lower::close_globstars(a + b) == lower::close_globstars(a) + lower::close_globstars(b),
    decreases a.len(),
{
    if a.len() == 0 {
        assert(a + b =~= b);
        assert(lower::close_globstars(a) + lower::close_globstars(b) =~= lower::close_globstars(b));
    } else {
        let n: int = if a[0] is Sep && a.len() > 1 && a[1] is Globstar {
            2
        } else {
            1
        };
        let rest = a.skip(n);
        assert((a + b).skip(n) =~= rest + b);
        assert((a + b)[0] == a[0]);
        if a.len() > 1 {
            assert((a + b)[1] == a[1]);
        } else if b.len() > 0 {
            assert((a + b)[1] == b[0]);
            assert(a.last() == a[0]);
        }
        if rest.len() > 0 {
            assert(rest.last() == a.last());
        }
        lemma_close_concat(rest, b);
        assert(lower::close_globstars(a + b) =~= lower::close_globstars(a)
            + lower::close_globstars(b));
    }
}

/// At a clean cut the parts can be folded one by one.
pub proof fn lemma_fold_concat(a: Seq<SpecOp>, b: Seq<SpecOp>)
    requires
        clean(a, b),
        unfolded(b),
    ensures
        lower::fold(a + b) == lower::fold(a) + lower::fold(b),
{
    lemma_open_concat(a, b);
    lemma_open_ends(a);
    lemma_open_ends(b);
    let oa = lower::open_globstars(a);
    let ob = lower::open_globstars(b);
    let sa = lower::soften(oa);
    let sb = lower::soften(ob);
    assert(lower::soften(oa + ob) =~= sa + sb) by {
        assert forall|k: int| 0 <= k < (oa + ob).len() implies lower::soften(oa + ob)[k] == (sa
            + sb)[k] by {
            if k < oa.len() - 1 {
                assert((oa + ob)[k + 1] == oa[k + 1]);
            } else if k == oa.len() - 1 {
                assert(oa.last() == oa[k]);
                if ob.len() > 0 {
                    assert((oa + ob)[k + 1] == ob[0]);
                }
            } else {
                assert((oa + ob)[k] == ob[k - oa.len()]);
                if k + 1 < (oa + ob).len() {
                    assert((oa + ob)[k + 1] == ob[k + 1 - oa.len()]);
                }
            }
        }
    }
    lemma_close_concat(sa, sb);
    assert(lower::bare_globstars(lower::close_globstars(sa) + lower::close_globstars(sb))
        =~= lower::fold(a) + lower::fold(b));
}

/// An op that folding leaves alone.
pub open spec fn still(op: SpecOp) -> bool {
    !(op is Globstar) && !(op is Sep) && !(op is OptSegmentsSlash)
}

pub proof fn lemma_fold_still(ops: Seq<SpecOp>)
    requires
        forall|k: int| 0 <= k < ops.len() ==> still(#[trigger] ops[k]),
    ensures
        lower::fold(ops) == ops,
{
    lemma_open_none(ops);
    assert(lower::soften(ops) =~= ops);
    lemma_close_none(ops);
    assert(lower::bare_globstars(ops) =~= ops);
}

/// Without a `**` there is nothing to open.
pub proof fn lemma_open_none(ops: Seq<SpecOp>)
    requires
        forall|k: int| 0 <= k < ops.len() ==> !(#[trigger] ops[k] is Globstar),
    ensures
        lower::open_globstars(ops) == ops,
    decreases ops.len(),
{
    if ops.len() > 0 {
        lemma_open_none(ops.skip(1));
        assert(seq![ops[0]] + ops.skip(1) =~= ops);
    } else {
        assert(lower::open_globstars(ops) =~= ops);
    }
}

pub proof fn lemma_close_none(ops: Seq<SpecOp>)
    requires
        forall|k: int| 0 <= k < ops.len() ==> !(#[trigger] ops[k] is Globstar),
    ensures
        lower::close_globstars(ops) == ops,
    decreases ops.len(),
{
    if ops.len() > 0 {
        assert(!(ops[0] is Globstar));
        if ops.len() > 1 {
            assert(!(ops[1] is Globstar));
        }
        lemma_close_none(ops.skip(1));
        assert(seq![ops[0]] + ops.skip(1) =~= ops);
    } else {
        assert(lower::close_globstars(ops) =~= ops);
    }
}

/// What folding leaves alone can be replaced by what matches alike.
pub proof fn lemma_replace(
    head: Seq<SpecOp>,
    a: Seq<SpecOp>,
    b: Seq<SpecOp>,
    tail: Seq<SpecOp>,
    cx: Cx,
    s: Seq<u8>,
)
    requires
        a.len() > 0,
        b.len() > 0,
        forall|k: int| 0 <= k < a.len() ==> still(#[trigger] a[k]),
        forall|k: int| 0 <= k < b.len() ==> still(#[trigger] b[k]),
        unfolded(tail),
        alike(a, b, cx, s),
    ensures
        alike(lower::fold(head + a + tail), lower::fold(head + b + tail), cx, s),
{
    lemma_fold_still(a);
    lemma_fold_still(b);
    let fh = lower::fold(head);
    let ft = lower::fold(tail);
    assert(still(a[0]) && still(a[a.len() - 1]) && still(b[0]) && still(b[b.len() - 1]));
    assert((head + a).last() == a.last());
    assert((head + b).last() == b.last());
    lemma_fold_concat(head, a);
    lemma_fold_concat(head, b);
    lemma_fold_concat(head + a, tail);
    lemma_fold_concat(head + b, tail);
    lemma_alike_self(fh, cx, s);
    lemma_alike_self(ft, cx, s);
    lemma_alike_concat(fh, fh, a, b, cx, s);
    lemma_alike_concat(fh + a, fh + b, ft, ft, cx, s);
}

/// Merging before folding changes nothing of what is matched.
pub proof fn lemma_merge_fold(
    out: Seq<SpecOp>,
    ops: Seq<SpecOp>,
    tail: Seq<SpecOp>,
    cx: Cx,
    s: Seq<u8>,
)
    requires
        unfolded(ops),
        unfolded(tail),
    ensures
        alike(
            lower::fold(lower::append_all(out, ops) + tail),
            lower::fold(out + ops + tail),
            cx,
            s,
        ),
    decreases ops.len(),
{
    if ops.len() == 0 {
        assert(out + ops =~= out);
        lemma_alike_self(lower::fold(out + ops + tail), cx, s);
    } else {
        let head = ops.drop_last();
        let op = ops.last();
        let mid = lower::append_all(out, head);
        let all = lower::append(mid, op);
        let rest = seq![op] + tail;
        assert(op == ops[ops.len() - 1]);
        assert(unfolded(head)) by {
            assert forall|k: int| 0 <= k < head.len() implies !(
            #[trigger] head[k] is OptSegmentsSlash) by {
                assert(head[k] == ops[k]);
            }
        }
        assert(unfolded(rest)) by {
            assert forall|k: int| 0 <= k < rest.len() implies !(
            #[trigger] rest[k] is OptSegmentsSlash) by {
                if k > 0 {
                    assert(rest[k] == tail[k - 1]);
                }
            }
        }
        lemma_merge_fold(out, head, rest, cx, s);
        assert(out + head + rest =~= out + ops + tail);
        assert(alike(lower::fold(all + tail), lower::fold(mid + rest), cx, s)) by {
            if mid.len() > 0 && mid.last() is Star && op is Star {
                let front = mid.drop_last();
                let two = seq![SpecOp::Star, SpecOp::Star];
                let one = seq![SpecOp::Star];
                assert(mid + rest =~= front + two + tail);
                assert(all + tail =~= front + one + tail);
                assert forall|i: int, j: int| #[trigger] alike_at(one, two, cx, s, i, j) by {
                    lower::lemma_star_pair(cx, s, i, j);
                }
                lemma_replace(front, one, two, tail, cx, s);
            } else if mid.len() > 0 && mid.last() is Lit && op is Lit {
                let front = mid.drop_last();
                let a = mid.last()->Lit_0;
                let b = op->Lit_0;
                let two = seq![SpecOp::Lit(a), SpecOp::Lit(b)];
                let one = seq![SpecOp::Lit(a + b)];
                assert(mid + rest =~= front + two + tail);
                assert(all + tail =~= front + one + tail);
                assert forall|i: int, j: int| #[trigger] alike_at(one, two, cx, s, i, j) by {
                    elems::lemma_lit_pair(a, b, cx, s, i, j);
                }
                lemma_replace(front, one, two, tail, cx, s);
            } else {
                assert(all + tail =~= mid + rest);
                lemma_alike_self(lower::fold(mid + rest), cx, s);
            }
        }
        lemma_alike_trans(
            lower::fold(all + tail),
            lower::fold(mid + rest),
            lower::fold(out + ops + tail),
            cx,
            s,
        );
    }
}

/// Where a path does not start with a separator, absorbing leading separators
/// changes nothing.
pub proof fn lemma_lead_idle(ops: Seq<SpecOp>, cx: Cx, s: Seq<u8>, j: int)
    requires
        s.len() == 0 || !cx.seps.has(s[0]),
    ensures
        lang::ops_span(lower::lead(ops), cx, s, 0, j) == lang::ops_span(ops, cx, s, 0, j),
    decreases ops, 1nat,
{
    if ops.len() > 0 {
        let led = lower::lead(ops);
        match ops[0] {
            SpecOp::OptSegmentsSlash => {
                assert(led.drop_first() =~= ops);
                assert(led[0] is LeadingSeps);
                if lang::ops_span(led, cx, s, 0, j) {
                    let k = choose|k: int| #[trigger]
                        lang::cut(k) && lang::op_span(led[0], cx, s, 0, k) && lang::ops_span(
                            led.drop_first(),
                            cx,
                            s,
                            k,
                            j,
                        );
                    if k > 0 {
                        assert(cx.seps.has(s[0]));
                    }
                }
                if lang::ops_span(ops, cx, s, 0, j) {
                    lang::lemma_span_bounds(ops, cx, s, 0, j);
                    assert(lang::cut(0) && lang::op_span(led[0], cx, s, 0, 0));
                }
            },
            SpecOp::Alternation(bs) => {
                assert(led.drop_first() =~= ops.drop_first());
                assert forall|k: int| #[trigger] lang::cut(k) implies lang::op_span(
                    led[0],
                    cx,
                    s,
                    0,
                    k,
                ) == lang::op_span(ops[0], cx, s, 0, k) by {
                    lemma_lead_branches_idle(bs, cx, s, k);
                }
            },
            _ => {},
        }
    }
}

proof fn lemma_lead_branches_idle(bs: Seq<Seq<SpecOp>>, cx: Cx, s: Seq<u8>, j: int)
    requires
        s.len() == 0 || !cx.seps.has(s[0]),
    ensures
        lower::lead_branches(bs).len() == bs.len(),
        lang::some_span(lower::lead_branches(bs), cx, s, 0, j) == lang::some_span(bs, cx, s, 0, j),
    decreases bs, bs.len(),
{
    let led = lower::lead_branches(bs);
    if bs.len() > 0 {
        let head = bs.drop_last();
        let last = bs.last();
        lemma_lead_branches_idle(head, cx, s, j);
        assert(decreases_to!(bs => bs[bs.len() - 1]));
        lemma_lead_idle(last, cx, s, j);
        let front = lower::lead_branches(head);
        if lang::some_span(led, cx, s, 0, j) {
            let b = choose|b: int| 0 <= b < led.len() && lang::ops_span(#[trigger] led[b], cx, s, 0, j);
            if b < front.len() {
                assert(led[b] == front[b]);
                assert(lang::some_span(front, cx, s, 0, j));
                let c = choose|c: int|
                    0 <= c < head.len() && lang::ops_span(#[trigger] head[c], cx, s, 0, j);
                assert(bs[c] == head[c]);
            } else {
                assert(bs[bs.len() - 1] == last);
            }
        }
        if lang::some_span(bs, cx, s, 0, j) {
            let b = choose|b: int| 0 <= b < bs.len() && lang::ops_span(#[trigger] bs[b], cx, s, 0, j);
            if b < head.len() {
                assert(head[b] == bs[b]);
                assert(lang::some_span(head, cx, s, 0, j));
                let c = choose|c: int|
                    0 <= c < front.len() && lang::ops_span(#[trigger] front[c], cx, s, 0, j);
                assert(led[c] == front[c]);
            } else {
                assert(led[led.len() - 1] == lower::lead(last));
            }
        }
    }
}

// Leading separators.

/// Raw ops that start with a `**/`.
pub open spec fn opens(r: Seq<SpecOp>) -> bool {
    r.len() > 1 && r[0] is Globstar && r[1] is Sep
}

/// Raw ops whose leading separators are absorbed before they are folded.
pub open spec fn led(r: Seq<SpecOp>) -> Seq<SpecOp> {
    if opens(r) {
        seq![SpecOp::LeadingSeps] + r
    } else if r.len() > 0 && r[0] is Alternation {
        r.update(0, SpecOp::Alternation(lower::lead_branches(r[0]->Alternation_0)))
    } else {
        r
    }
}

/// A `**/` at the start is followed by no other `**`.
pub open spec fn opens_once(r: Seq<SpecOp>) -> bool {
    opens(r) && r.len() > 2 ==> !(r[2] is Globstar)
}

pub proof fn lemma_fold_opening(r: Seq<SpecOp>)
    requires
        opens(r),
        opens_once(r),
        unfolded(r),
    ensures
        lower::fold(r).len() > 0,
        lower::fold(r)[0] is OptSegmentsSlash,
{
    let a = r.take(2);
    let b = r.skip(2);
    assert(r =~= a + b);
    assert(unfolded(b)) by {
        assert forall|k: int| 0 <= k < b.len() implies !(#[trigger] b[k] is OptSegmentsSlash) by {
            assert(b[k] == r[k + 2]);
        }
    }
    lemma_fold_concat(a, b);
    let o = seq![SpecOp::OptSegmentsSlash];
    assert(lower::open_globstars(a) =~= o) by {
        assert(a.skip(2) =~= Seq::<SpecOp>::empty());
        assert(lower::open_globstars(a.skip(2)) =~= Seq::<SpecOp>::empty());
    }
    assert(lower::soften(o) =~= o);
    lemma_close_none(o);
    assert(lower::bare_globstars(o) =~= o);
    assert(lower::fold(a) == o);
}

/// Something is left of something.
pub proof fn lemma_fold_some(r: Seq<SpecOp>)
    requires
        r.len() > 0,
    ensures
        lower::fold(r).len() > 0,
{
    let o = lower::open_globstars(r);
    assert(o.len() > 0);
    let c = lower::close_globstars(lower::soften(o));
    assert(c.len() > 0);
}

/// The first op of folded ops is no run of segments and no alternation, unless
/// the raw ops start with a `**/` or an alternation.
pub proof fn lemma_fold_first(r: Seq<SpecOp>)
    requires
        r.len() > 0,
        unfolded(r),
        !opens(r),
        !(r[0] is Alternation),
    ensures
        lower::fold(r).len() > 0,
        !(lower::fold(r)[0] is OptSegmentsSlash),
        !(lower::fold(r)[0] is Alternation),
{
    let o = lower::open_globstars(r);
    assert(o.len() > 0);
    assert(o[0] == r[0]);
    let f = lower::soften(o);
    assert(!(f[0] is OptSegmentsSlash) && !(f[0] is Alternation));
    let c = lower::close_globstars(f);
    assert(c.len() > 0);
    assert(!(c[0] is OptSegmentsSlash) && !(c[0] is Alternation));
}

/// Leading separators may be absorbed before or after folding.
pub proof fn lemma_led(r: Seq<SpecOp>)
    requires
        unfolded(r),
        opens_once(r),
    ensures
        lower::lead(lower::fold(r)) == lower::fold(led(r)),
        unfolded(led(r)),
{
    let l = seq![SpecOp::LeadingSeps];
    if opens(r) {
        lemma_fold_opening(r);
        lemma_fold_still(l);
        lemma_fold_concat(l, r);
        assert forall|k: int| 0 <= k < led(r).len() implies !(
        #[trigger] led(r)[k] is OptSegmentsSlash) by {
            if k > 0 {
                assert(led(r)[k] == r[k - 1]);
            }
        }
    } else if r.len() > 0 && r[0] is Alternation {
        let bs = r[0]->Alternation_0;
        let a = seq![r[0]];
        let b = r.skip(1);
        let c = seq![SpecOp::Alternation(lower::lead_branches(bs))];
        assert(r =~= a + b);
        assert(led(r) =~= c + b);
        assert(unfolded(b)) by {
            assert forall|k: int| 0 <= k < b.len() implies !(
            #[trigger] b[k] is OptSegmentsSlash) by {
                assert(b[k] == r[k + 1]);
            }
        }
        lemma_fold_still(a);
        lemma_fold_still(c);
        lemma_fold_concat(a, b);
        lemma_fold_concat(c, b);
        assert(lower::lead(lower::fold(r)) =~= c + lower::fold(b));
        assert forall|k: int| 0 <= k < led(r).len() implies !(
        #[trigger] led(r)[k] is OptSegmentsSlash) by {
            if k > 0 {
                assert(led(r)[k] == r[k]);
            }
        }
    } else if r.len() > 0 {
        lemma_fold_first(r);
    } else {
        assert(lower::fold(r).len() == 0);
    }
}

/// What is first and cannot be merged stays first.
proof fn lemma_merge_first(op: SpecOp, out: Seq<SpecOp>, ops: Seq<SpecOp>)
    requires
        out.len() > 0 || (!(op is Lit) && !(op is Star)),
    ensures
        lower::append_all(seq![op] + out, ops) == seq![op] + lower::append_all(out, ops),
    decreases ops.len(),
{
    if ops.len() > 0 {
        lemma_merge_first(op, out, ops.drop_last());
        let mid = lower::append_all(out, ops.drop_last());
        lemma_merge_grows(out, ops.drop_last());
        let x = ops.last();
        assert(lower::append(seq![op] + mid, x) =~= seq![op] + lower::append(mid, x)) by {
            if mid.len() > 0 {
                assert((seq![op] + mid).last() == mid.last());
                assert((seq![op] + mid).drop_last() =~= seq![op] + mid.drop_last());
            } else {
                assert((seq![op] + mid).last() == op);
            }
        }
    }
}

proof fn lemma_merge_grows(out: Seq<SpecOp>, ops: Seq<SpecOp>)
    ensures
        out.len() > 0 ==> lower::append_all(out, ops).len() > 0,
        ops.len() > 0 ==> lower::append_all(out, ops).len() > 0,
    decreases ops.len(),
{
    if ops.len() > 0 {
        lemma_merge_grows(out, ops.drop_last());
    }
}

/// The first op keeps its kind when ops are merged.
proof fn lemma_merge_kind(out: Seq<SpecOp>, ops: Seq<SpecOp>)
    requires
        out.len() > 0,
    ensures
        lower::append_all(out, ops).len() > 0,
        out[0] is Lit ==> lower::append_all(out, ops)[0] is Lit,
        out[0] is Star ==> lower::append_all(out, ops)[0] is Star,
        out.len() > 1 || (!(out[0] is Lit) && !(out[0] is Star)) ==> lower::append_all(out, ops)[0]
            == out[0],
    decreases ops.len(),
{
    if ops.len() > 0 {
        lemma_merge_kind(out, ops.drop_last());
        let mid = lower::append_all(out, ops.drop_last());
        let all = lower::append(mid, ops.last());
        assert(all.len() > 0);
        if out.len() > 1 {
            lemma_merge_long(out, ops.drop_last());
            assert(all[0] == mid[0]);
        }
    }
}

proof fn lemma_merge_long(out: Seq<SpecOp>, ops: Seq<SpecOp>)
    requires
        out.len() > 1,
    ensures
        lower::append_all(out, ops).len() > 1,
    decreases ops.len(),
{
    if ops.len() > 0 {
        lemma_merge_long(out, ops.drop_last());
    }
}

/// Merging commutes with absorbing leading separators.
pub proof fn lemma_led_merged(r: Seq<SpecOp>)
    requires
        opens_once(r),
    ensures
        led(lower::append_all(seq![], r)) == lower::append_all(seq![], led(r)),
        opens_once(lower::append_all(seq![], r)),
{
    let none = Seq::<SpecOp>::empty();
    if r.len() > 0 {
        let op = r[0];
        let rest = r.skip(1);
        let one = seq![op];
        assert(r =~= one + rest);
        lemma_append_split(none, one, rest);
        lemma_append_single(op);
        let m = lower::append_all(none, r);
        assert(m == lower::append_all(one, rest));
        lemma_merge_kind(one, rest);
        if !(op is Lit) && !(op is Star) {
            assert(one + none =~= one);
            lemma_merge_first(op, none, rest);
            let tail = lower::append_all(none, rest);
            assert(m =~= one + tail);
            lemma_merge_second(rest);
            if opens(r) {
                assert(rest[0] == r[1]);
                let l = seq![SpecOp::LeadingSeps];
                assert(led(r) =~= l + r);
                lemma_append_split(none, l, r);
                lemma_append_single(SpecOp::LeadingSeps);
                assert(l + none =~= l);
                lemma_merge_first(SpecOp::LeadingSeps, none, r);
                assert(m[1] == tail[0]);
                assert(opens(m));
                assert(led(m) =~= l + m);
                if m.len() > 2 {
                    // The third op is behind a separator, so it is not merged.
                    let rest2 = rest.skip(1);
                    assert(rest =~= seq![rest[0]] + rest2);
                    lemma_append_split(none, seq![rest[0]], rest2);
                    lemma_append_single(rest[0]);
                    assert(seq![rest[0]] + none =~= seq![rest[0]]);
                    lemma_merge_first(rest[0], none, rest2);
                    assert(tail =~= seq![rest[0]] + lower::append_all(none, rest2));
                    lemma_merge_second(rest2);
                    if rest2.len() > 0 {
                        assert(rest2[0] == r[2]);
                        assert(m[2] == lower::append_all(none, rest2)[0]);
                    } else {
                        assert(lower::append_all(none, rest2).len() == 0);
                    }
                }
            } else {
                assert(!opens(m)) by {
                    if m.len() > 1 {
                        assert(m[1] == tail[0]);
                        if rest.len() == 0 {
                            assert(tail.len() == 0);
                        } else {
                            assert(rest[0] == r[1]);
                        }
                    }
                }
                if op is Alternation {
                    let alt = SpecOp::Alternation(lower::lead_branches(op->Alternation_0));
                    assert(led(r) =~= seq![alt] + rest);
                    lemma_append_split(none, seq![alt], rest);
                    lemma_append_single(alt);
                    assert(seq![alt] + none =~= seq![alt]);
                    lemma_merge_first(alt, none, rest);
                    assert(led(m) =~= seq![alt] + tail);
                }
            }
        }
    }
}

pub proof fn lemma_append_split(out: Seq<SpecOp>, a: Seq<SpecOp>, b: Seq<SpecOp>)
    ensures
        lower::append_all(out, a + b) == lower::append_all(lower::append_all(out, a), b),
    decreases b.len(),
{
    if b.len() == 0 {
        assert(a + b =~= a);
    } else {
        assert((a + b).drop_last() =~= a + b.drop_last());
        lemma_append_split(out, a, b.drop_last());
    }
}

pub proof fn lemma_append_single(op: SpecOp)
    ensures
        lower::append_all(seq![], seq![op]) == seq![op],
{
    assert(seq![op].drop_last() =~= Seq::<SpecOp>::empty());
    assert(lower::append_all(seq![], seq![op].drop_last()) =~= Seq::<SpecOp>::empty());
    assert(lower::append(Seq::<SpecOp>::empty(), op) =~= seq![op]);
}

/// The first of merged ops is of the kind of the first op.
proof fn lemma_merge_second(ops: Seq<SpecOp>)
    ensures
        ops.len() == 0 ==> lower::append_all(seq![], ops).len() == 0,
        ops.len() > 0 ==> {
            let m = lower::append_all(seq![], ops);
            &&& m.len() > 0
            &&& m[0] is Sep <==> ops[0] is Sep
            &&& m[0] is Globstar <==> ops[0] is Globstar
        },
{
    if ops.len() > 0 {
        let one = seq![ops[0]];
        assert(ops =~= one + ops.skip(1));
        lemma_append_split(seq![], one, ops.skip(1));
        lemma_append_single(ops[0]);
        lemma_merge_kind(one, ops.skip(1));
    }
}

/// Merging before folding changes nothing, with leading separators absorbed.
pub proof fn lemma_merge_lead(r: Seq<SpecOp>, cx: Cx, s: Seq<u8>)
    requires
        unfolded(r),
        opens_once(r),
    ensures
        alike(
            lower::lead(lower::fold(lower::append_all(seq![], r))),
            lower::lead(lower::fold(r)),
            cx,
            s,
        ),
{
    let none = Seq::<SpecOp>::empty();
    lemma_led_merged(r);
    lemma_led(r);
    lemma_merge_unfolded(none, r);
    lemma_led(lower::append_all(none, r));
    lemma_merge_fold(none, led(r), none, cx, s);
    assert(none + led(r) + none =~= led(r));
    assert(lower::append_all(none, led(r)) + none =~= lower::append_all(none, led(r)));
}

pub proof fn lemma_merge_unfolded(out: Seq<SpecOp>, ops: Seq<SpecOp>)
    requires
        unfolded(out),
        unfolded(ops),
    ensures
        unfolded(lower::append_all(out, ops)),
    decreases ops.len(),
{
    if ops.len() > 0 {
        let head = ops.drop_last();
        assert(ops[ops.len() - 1] == ops.last());
        assert(unfolded(head)) by {
            assert forall|k: int| 0 <= k < head.len() implies !(
            #[trigger] head[k] is OptSegmentsSlash) by {
                assert(head[k] == ops[k]);
            }
        }
        lemma_merge_unfolded(out, head);
        let mid = lower::append_all(out, head);
        let all = lower::append(mid, ops.last());
        assert forall|k: int| 0 <= k < all.len() implies !(
        #[trigger] all[k] is OptSegmentsSlash) by {
            if k < mid.len() {
                assert(!(mid[k] is OptSegmentsSlash));
            }
        }
    }
}

/// Behind an op that cannot be merged the rest is merged on its own.
pub proof fn lemma_merge_behind(r: Seq<SpecOp>)
    requires
        r.len() > 0,
        !(r[0] is Lit),
        !(r[0] is Star),
    ensures
        lower::append_all(seq![], r) == seq![r[0]] + lower::append_all(seq![], r.drop_first()),
{
    let none = Seq::<SpecOp>::empty();
    let one = seq![r[0]];
    assert(r =~= one + r.drop_first());
    lemma_append_split(none, one, r.drop_first());
    lemma_append_single(r[0]);
    assert(one + none =~= one);
    lemma_merge_first(r[0], none, r.drop_first());
}

/// Merged ops start with a `**` or an alternation only where the ops do.
pub proof fn lemma_merge_plain(r: Seq<SpecOp>)
    requires
        r.len() > 0,
        !(r[0] is Globstar),
        !(r[0] is Alternation),
    ensures
        lower::append_all(seq![], r).len() > 0,
        !opens(lower::append_all(seq![], r)),
        !(lower::append_all(seq![], r)[0] is Alternation),
{
    let one = seq![r[0]];
    assert(r =~= one + r.skip(1));
    lemma_append_split(seq![], one, r.skip(1));
    lemma_append_single(r[0]);
    lemma_merge_kind(one, r.skip(1));
}

} // verus!
