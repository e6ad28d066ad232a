//! Matching one segment against ops that stay within it.
//!
//! Most such ops are a literal, some `*` and `?`, and one of a few literals:
//! there the ends are compared and the length decides. The rest run a small
//! automaton.

use crate::ast;
use crate::engine::facts;
use crate::engine::fragment::{self, Build};
use crate::engine::lang::{self, Cx};
use crate::engine::machine::Machine;
use crate::engine::ops::ir;
use crate::engine::ops::{Op, SpecOp};
use crate::engine::segment::elems;
use crate::seps::Seps;
use vstd::prelude::*;

verus! {

/// A segment's automaton has at most this many states.
pub const MAX_SEG_NFA_STATES: usize = 64;

/// At most this many literal ends are written out.
pub const MAX_SUFFIX_PRODUCT: usize = 16;

/// In a segment that stands alone a span is what it is in the path.
pub proof fn lemma_alone(
    ops: Seq<SpecOp>,
    seps: Seps,
    ci: bool,
    dot: bool,
    lim: int,
    s: Seq<u8>,
    i: int,
)
    requires
        elems::in_seg(ops, seps),
        0 <= i <= s.len(),
        i == 0 || seps.has(s[i - 1]),
        i < lim || i == elems::seg_end(seps, s, i),
    ensures
        ({
            let end = elems::seg_end(seps, s, i);
            let seg = s.subrange(i, end);
            lang::ops_span(ops, lang::cx(seps, ci, dot, lim), s, i, end) <==> lang::matches(
                ops,
                lang::cx(seps, ci, dot, seg.len() as int),
                seg,
            )
        }),
{
    elems::lemma_seg_end(seps, s, i);
    let end = elems::seg_end(seps, s, i);
    let seg = s.subrange(i, end);
    lemma_alone_ops(
        ops,
        lang::cx(seps, ci, dot, lim),
        lang::cx(seps, ci, dot, seg.len() as int),
        s,
        i,
        end,
        0,
        end - i,
    );
}

/// [`lemma_alone`] where nothing is hidden.
pub proof fn lemma_alone_open(ops: Seq<SpecOp>, cx: Cx, s: Seq<u8>, i: int)
    requires
        elems::in_seg(ops, cx.seps),
        0 <= i <= s.len(),
        i == 0 || cx.seps.has(s[i - 1]),
        cx.lim <= i,
    ensures
        ({
            let end = elems::seg_end(cx.seps, s, i);
            lang::ops_span(ops, cx, s, i, end) <==> lang::matches(
                ops,
                Cx { seps: cx.seps, ci: cx.ci, lim: 0 },
                s.subrange(i, end),
            )
        }),
{
    elems::lemma_seg_end(cx.seps, s, i);
    let end = elems::seg_end(cx.seps, s, i);
    lemma_alone_ops(
        ops,
        cx,
        Cx { seps: cx.seps, ci: cx.ci, lim: 0 },
        s,
        i,
        end,
        0,
        end - i,
    );
}

/// The bytes of `s` from `i` up to `end` are a segment, and what is hidden in
/// it under `cx` is hidden under `alone` when it stands alone.
spec fn same_segment(cx: Cx, alone: Cx, s: Seq<u8>, i: int, end: int) -> bool {
    &&& 0 <= i <= end <= s.len()
    &&& cx.seps == alone.seps
    &&& cx.ci == alone.ci
    &&& i == 0 || cx.seps.has(s[i - 1])
    &&& lang::no_sep(cx, s, i, end)
    &&& end < s.len() ==> cx.seps.has(s[end])
    &&& i < end ==> (i < cx.lim <==> 0 < alone.lim)
}

proof fn lemma_same_hidden(cx: Cx, alone: Cx, s: Seq<u8>, i: int, end: int, k: int)
    requires
        same_segment(cx, alone, s, i, end),
        0 <= k <= end - i,
    ensures
        lang::hidden(cx, s, i + k) == lang::hidden(alone, s.subrange(i, end), k),
{
    let seg = s.subrange(i, end);
    if k < end - i {
        assert(seg[k] == s[i + k]);
        if k > 0 {
            assert(seg[k - 1] == s[i + (k - 1)]);
            assert(!cx.seps.has(s[i + k - 1]));
        }
    }
}

proof fn lemma_alone_op(
    op: SpecOp,
    cx: Cx,
    alone: Cx,
    s: Seq<u8>,
    i: int,
    end: int,
    a: int,
    b: int,
)
    requires
        elems::in_seg_op(op, cx.seps),
        same_segment(cx, alone, s, i, end),
        0 <= a <= end - i,
        b <= end - i,
    ensures
        lang::op_span(op, cx, s, i + a, i + b) <==> lang::op_span(
            op,
            alone,
            s.subrange(i, end),
            a,
            b,
        ),
    decreases op, 0int,
{
    let seg = s.subrange(i, end);
    assert(forall|k: int| 0 <= k < seg.len() ==> #[trigger] seg[k] == s[i + k]);
    lemma_same_hidden(cx, alone, s, i, end, a);
    match op {
        SpecOp::Lit(x) => {
            if lang::lit_at(cx, x, s, i + a) && b == a + x.len() {
                assert forall|k: int| 0 <= k < x.len() implies ast::same_byte(
                    alone.ci,
                    #[trigger] x[k],
                    seg[a + k],
                ) by {
                    assert(s[i + a + k] == seg[a + k]);
                }
            }
            if lang::lit_at(alone, x, seg, a) && b == a + x.len() {
                assert forall|k: int| 0 <= k < x.len() implies ast::same_byte(
                    cx.ci,
                    #[trigger] x[k],
                    s[i + a + k],
                ) by {
                    assert(s[i + a + k] == seg[a + k]);
                }
            }
        },
        SpecOp::Star => {
            if a <= b {
                assert(lang::no_sep(cx, s, i + a, i + b));
                assert forall|k: int| a <= k < b implies !alone.seps.has(#[trigger] seg[k]) by {
                    assert(seg[k] == s[i + k]);
                }
            }
        },
        SpecOp::Alternation(bs) => {
            if a <= b {
                assert(!elems::some_branch_crosses(bs));
                assert(!elems::some_branch_spells_sep(bs, cx.seps));
                assert forall|m: int| 0 <= m < bs.len() implies (lang::ops_span(
                    #[trigger] bs[m],
                    cx,
                    s,
                    i + a,
                    i + b,
                ) <==> lang::ops_span(bs[m], alone, seg, a, b)) by {
                    assert(!elems::some_crosses(bs[m]));
                    assert(!elems::some_spells_sep(bs[m], cx.seps));
                    assert forall|k: int| 0 <= k < bs[m].len() implies elems::in_seg_op(
                        #[trigger] bs[m][k],
                        cx.seps,
                    ) by {}
                    lemma_alone_ops(bs[m], cx, alone, s, i, end, a, b);
                }
                assert(lang::some_span(bs, cx, s, i + a, i + b) <==> lang::some_span(
                    bs,
                    alone,
                    seg,
                    a,
                    b,
                )) by {
                    if lang::some_span(bs, cx, s, i + a, i + b) {
                        let m = choose|m: int|
                            0 <= m < bs.len() && lang::ops_span(
                                #[trigger] bs[m],
                                cx,
                                s,
                                i + a,
                                i + b,
                            );
                        assert(lang::ops_span(bs[m], alone, seg, a, b));
                    }
                    if lang::some_span(bs, alone, seg, a, b) {
                        let m = choose|m: int|
                            0 <= m < bs.len() && lang::ops_span(#[trigger] bs[m], alone, seg, a, b);
                        assert(lang::ops_span(bs[m], cx, s, i + a, i + b));
                    }
                }
            }
        },
        _ => {},
    }
}

proof fn lemma_alone_ops(
    ops: Seq<SpecOp>,
    cx: Cx,
    alone: Cx,
    s: Seq<u8>,
    i: int,
    end: int,
    a: int,
    b: int,
)
    requires
        elems::in_seg(ops, cx.seps),
        same_segment(cx, alone, s, i, end),
        0 <= a <= end - i,
        b <= end - i,
    ensures
        lang::ops_span(ops, cx, s, i + a, i + b) <==> lang::ops_span(
            ops,
            alone,
            s.subrange(i, end),
            a,
            b,
        ),
    decreases ops, 1int,
{
    let seg = s.subrange(i, end);
    if ops.len() > 0 {
        let rest = ops.drop_first();
        assert(elems::in_seg_op(ops[0], cx.seps));
        assert forall|k: int| 0 <= k < rest.len() implies elems::in_seg_op(
            #[trigger] rest[k],
            cx.seps,
        ) by {
            assert(rest[k] == ops[k + 1]);
        }
        if lang::ops_span(ops, cx, s, i + a, i + b) {
            let k = choose|k: int| #[trigger]
                lang::cut(k) && lang::op_span(ops[0], cx, s, i + a, k) && lang::ops_span(
                    rest,
                    cx,
                    s,
                    k,
                    i + b,
                );
            lang::lemma_span_bounds(rest, cx, s, k, i + b);
            lemma_alone_op(ops[0], cx, alone, s, i, end, a, k - i);
            lemma_alone_ops(rest, cx, alone, s, i, end, k - i, b);
            assert(lang::cut(k - i) && lang::op_span(ops[0], alone, seg, a, k - i)
                && lang::ops_span(ops.drop_first(), alone, seg, k - i, b));
        }
        if lang::ops_span(ops, alone, seg, a, b) {
            let k = choose|k: int| #[trigger]
                lang::cut(k) && lang::op_span(ops[0], alone, seg, a, k) && lang::ops_span(
                    rest,
                    alone,
                    seg,
                    k,
                    b,
                );
            lang::lemma_span_bounds(rest, alone, seg, k, b);
            lemma_alone_op(ops[0], cx, alone, s, i, end, a, k);
            lemma_alone_ops(rest, cx, alone, s, i, end, k, b);
            assert(lang::cut(i + k) && lang::op_span(ops[0], cx, s, i + a, i + k)
                && lang::ops_span(ops.drop_first(), cx, s, i + k, i + b));
        }
    }
}


/// The op is `*` or `?`.
pub open spec fn is_wild(op: SpecOp) -> bool {
    op is Star || op is AnyChar
}

/// The literal that `ops` start with.
pub open spec fn lead_bytes(ops: Seq<SpecOp>) -> Seq<u8> {
    if ops.len() > 0 {
        match ops[0] {
            SpecOp::Lit(b) => b,
            _ => seq![],
        }
    } else {
        seq![]
    }
}

/// How many ops that literal takes.
pub open spec fn lead_len(ops: Seq<SpecOp>) -> int {
    if ops.len() > 0 && ops[0] is Lit {
        1
    } else {
        0
    }
}

/// Where the wildcards from op `k` on end.
pub open spec fn wild_end(ops: Seq<SpecOp>, k: int) -> int
    decreases ops.len() - k,
{
    if 0 <= k < ops.len() && is_wild(ops[k]) {
        wild_end(ops, k + 1)
    } else {
        k
    }
}

/// The wildcards behind the leading literal.
pub open spec fn wilds(ops: Seq<SpecOp>) -> Seq<SpecOp> {
    ops.subrange(lead_len(ops), wild_end(ops, lead_len(ops)))
}

/// What follows the wildcards.
pub open spec fn after_wilds(ops: Seq<SpecOp>) -> Seq<SpecOp> {
    ops.skip(wild_end(ops, lead_len(ops)))
}

/// How many `?` there are.
pub open spec fn any_chars(ops: Seq<SpecOp>) -> int
    decreases ops.len(),
{
    if ops.len() == 0 {
        0
    } else {
        any_chars(ops.drop_last()) + if ops.last() is AnyChar { 1int } else { 0int }
    }
}

pub open spec fn has_star(ops: Seq<SpecOp>) -> bool {
    exists|k: int| 0 <= k < ops.len() && #[trigger] ops[k] is Star
}

/// The bytes of a branch that is one literal or empty.
pub open spec fn branch_bytes(branch: Seq<SpecOp>) -> Option<Seq<u8>> {
    if branch.len() == 0 {
        Some(seq![])
    } else if branch.len() == 1 {
        match branch[0] {
            SpecOp::Lit(b) => Some(b),
            _ => None,
        }
    } else {
        None
    }
}

pub open spec fn all_branch_bytes(bs: Seq<Seq<SpecOp>>) -> Option<Seq<Seq<u8>>>
    decreases bs.len(),
{
    if bs.len() == 0 {
        Some(seq![])
    } else {
        match (all_branch_bytes(bs.drop_last()), branch_bytes(bs.last())) {
            (Some(a), Some(b)) => Some(a.push(b)),
            _ => None,
        }
    }
}

pub open spec fn join_each(p: Seq<u8>, lits: Seq<Seq<u8>>) -> Seq<Seq<u8>> {
    Seq::new(lits.len(), |k: int| p + lits[k])
}

/// Each of `parts` before each of `lits`.
pub open spec fn join_all(parts: Seq<Seq<u8>>, lits: Seq<Seq<u8>>) -> Seq<Seq<u8>>
    decreases parts.len(),
{
    if parts.len() == 0 {
        seq![]
    } else {
        join_all(parts.drop_last(), lits) + join_each(parts.last(), lits)
    }
}

/// The literals that `ops` spell, where they spell a few literals alone.
pub open spec fn spellings(ops: Seq<SpecOp>) -> Option<Seq<Seq<u8>>>
    decreases ops.len(),
{
    if ops.len() == 0 {
        Some(seq![Seq::<u8>::empty()])
    } else {
        match spellings(ops.drop_last()) {
            None => None,
            Some(parts) => match ops.last() {
                SpecOp::Lit(b) => Some(join_all(parts, seq![b])),
                SpecOp::Alternation(bs) => match all_branch_bytes(bs) {
                    None => None,
                    Some(lits) => if join_all(parts, lits).len() > MAX_SUFFIX_PRODUCT {
                        None
                    } else {
                        Some(join_all(parts, lits))
                    },
                },
                _ => None,
            },
        }
    }
}

/// The literal behind the wildcards, where there is exactly one; else nothing.
pub open spec fn sole_suffix(ops: Seq<SpecOp>) -> Seq<u8> {
    match spellings(after_wilds(ops)) {
        Some(lits) => if lits.len() == 1 {
            lits[0]
        } else {
            seq![]
        },
        None => seq![],
    }
}

/// Some member of `lits` stands from `i` to `j`.
pub open spec fn some_lit(lits: Seq<Seq<u8>>, cx: Cx, s: Seq<u8>, i: int, j: int) -> bool {
    0 <= i && exists|k: int|
        0 <= k < lits.len() && j == i + (#[trigger] lits[k]).len() && lang::lit_at(
            cx,
            lits[k],
            s,
            i,
        )
}

proof fn lemma_lit_concat(a: Seq<u8>, b: Seq<u8>, cx: Cx, s: Seq<u8>, i: int)
    ensures
        lang::lit_at(cx, a + b, s, i) <==> (lang::lit_at(cx, a, s, i) && lang::lit_at(
            cx,
            b,
            s,
            i + a.len(),
        )),
{
    let ab = a + b;
    if lang::lit_at(cx, ab, s, i) {
        assert forall|m: int| 0 <= m < a.len() implies ast::same_byte(
            cx.ci,
            #[trigger] a[m],
            s[i + m],
        ) by {
            assert(ab[m] == a[m]);
        }
        assert forall|m: int| 0 <= m < b.len() implies ast::same_byte(
            cx.ci,
            #[trigger] b[m],
            s[i + a.len() + m],
        ) by {
            assert(ab[a.len() + m] == b[m]);
            assert(s[i + (a.len() + m)] == s[i + a.len() + m]);
        }
    }
    if lang::lit_at(cx, a, s, i) && lang::lit_at(cx, b, s, i + a.len()) {
        assert forall|m: int| 0 <= m < ab.len() implies ast::same_byte(
            cx.ci,
            #[trigger] ab[m],
            s[i + m],
        ) by {
            if m < a.len() {
                assert(ab[m] == a[m]);
            } else {
                assert(ab[m] == b[m - a.len()]);
                assert(s[i + a.len() + (m - a.len())] == s[i + m]);
            }
        }
    }
}

#[verifier::spinoff_prover]
#[verifier::rlimit(60)]
proof fn lemma_join_all(
    parts: Seq<Seq<u8>>,
    lits: Seq<Seq<u8>>,
    cx: Cx,
    s: Seq<u8>,
    i: int,
    j: int,
)
    ensures
        some_lit(join_all(parts, lits), cx, s, i, j) <==> exists|k: int| #[trigger]
            lang::cut(k) && some_lit(parts, cx, s, i, k) && some_lit(lits, cx, s, k, j),
    decreases parts.len(),
{
    let all = join_all(parts, lits);
    if parts.len() > 0 {
        let head = parts.drop_last();
        let last = parts.last();
        let first = join_all(head, lits);
        let more = join_each(last, lits);
        lemma_join_all(head, lits, cx, s, i, j);
        if some_lit(all, cx, s, i, j) {
            let f = choose|f: int|
                0 <= f < all.len() && j == i + (#[trigger] all[f]).len() && lang::lit_at(
                    cx,
                    all[f],
                    s,
                    i,
                );
            if f < first.len() {
                assert(all[f] == first[f]);
                assert(some_lit(first, cx, s, i, j));
                let k = choose|k: int| #[trigger]
                    lang::cut(k) && some_lit(head, cx, s, i, k) && some_lit(lits, cx, s, k, j);
                let g = choose|g: int|
                    0 <= g < head.len() && k == i + (#[trigger] head[g]).len() && lang::lit_at(
                        cx,
                        head[g],
                        s,
                        i,
                    );
                assert(parts[g] == head[g]);
                assert(lang::cut(k) && some_lit(parts, cx, s, i, k));
            } else {
                let g = f - first.len();
                assert(all[f] == last + lits[g]);
                lemma_lit_concat(last, lits[g], cx, s, i);
                let k = i + last.len();
                assert(parts[parts.len() - 1] == last);
                assert(lang::cut(k) && some_lit(parts, cx, s, i, k) && some_lit(lits, cx, s, k, j));
            }
        }
        if exists|k: int| #[trigger]
            lang::cut(k) && some_lit(parts, cx, s, i, k) && some_lit(lits, cx, s, k, j) {
            let k = choose|k: int| #[trigger]
                lang::cut(k) && some_lit(parts, cx, s, i, k) && some_lit(lits, cx, s, k, j);
            let g = choose|g: int|
                0 <= g < parts.len() && k == i + (#[trigger] parts[g]).len() && lang::lit_at(
                    cx,
                    parts[g],
                    s,
                    i,
                );
            let h = choose|h: int|
                0 <= h < lits.len() && j == k + (#[trigger] lits[h]).len() && lang::lit_at(
                    cx,
                    lits[h],
                    s,
                    k,
                );
            if g < head.len() {
                assert(head[g] == parts[g]);
                assert(lang::cut(k) && some_lit(head, cx, s, i, k));
                let f = choose|f: int|
                    0 <= f < first.len() && j == i + (#[trigger] first[f]).len() && lang::lit_at(
                        cx,
                        first[f],
                        s,
                        i,
                    );
                assert(all[f] == first[f]);
            } else {
                lemma_lit_concat(last, lits[h], cx, s, i);
                assert(all[first.len() + h] == last + lits[h]);
            }
        }
    }
}

proof fn lemma_branch_bytes(bs: Seq<Seq<SpecOp>>, cx: Cx, s: Seq<u8>, i: int, j: int)
    requires
        all_branch_bytes(bs) is Some,
    ensures
        some_lit(all_branch_bytes(bs)->0, cx, s, i, j) <==> lang::op_span(
            SpecOp::Alternation(bs),
            cx,
            s,
            i,
            j,
        ),
        all_branch_bytes(bs)->0.len() == bs.len(),
    decreases bs.len(),
{
    let lits = all_branch_bytes(bs)->0;
    if bs.len() == 0 {
        assert(!lang::some_span(bs, cx, s, i, j));
    } else {
        let head = bs.drop_last();
        let last = bs.last();
        lemma_branch_bytes(head, cx, s, i, j);
        let a = all_branch_bytes(head)->0;
        let b = branch_bytes(last)->0;
        assert(lits == a.push(b));
        lemma_one_branch(last, cx, s, i, j);
        if some_lit(lits, cx, s, i, j) {
            let k = choose|k: int|
                0 <= k < lits.len() && j == i + (#[trigger] lits[k]).len() && lang::lit_at(
                    cx,
                    lits[k],
                    s,
                    i,
                );
            if k < a.len() {
                assert(lits[k] == a[k]);
                assert(some_lit(a, cx, s, i, j));
                assert(lang::some_span(head, cx, s, i, j));
                let m = choose|m: int|
                    0 <= m < head.len() && lang::ops_span(#[trigger] head[m], cx, s, i, j);
                assert(bs[m] == head[m]);
            } else {
                assert(lits[k] == b);
                assert(bs[bs.len() - 1] == last);
            }
            assert(lang::some_span(bs, cx, s, i, j));
        }
        if lang::op_span(SpecOp::Alternation(bs), cx, s, i, j) {
            assert(lang::some_span(bs, cx, s, i, j));
            let m = choose|m: int| 0 <= m < bs.len() && lang::ops_span(#[trigger] bs[m], cx, s, i, j);
            if m < head.len() {
                assert(head[m] == bs[m]);
                assert(lang::some_span(head, cx, s, i, j));
                assert(lang::op_span(SpecOp::Alternation(head), cx, s, i, j));
                let k = choose|k: int|
                    0 <= k < a.len() && j == i + (#[trigger] a[k]).len() && lang::lit_at(
                        cx,
                        a[k],
                        s,
                        i,
                    );
                assert(lits[k] == a[k]);
            } else {
                assert(lits[a.len() as int] == b);
            }
        }
    }
}

proof fn lemma_one_branch(branch: Seq<SpecOp>, cx: Cx, s: Seq<u8>, i: int, j: int)
    requires
        branch_bytes(branch) is Some,
    ensures
        lang::ops_span(branch, cx, s, i, j) <==> (0 <= i && j == i + (branch_bytes(branch)->0).len()
            && lang::lit_at(cx, branch_bytes(branch)->0, s, i)),
{
    if branch.len() == 1 {
        assert(branch =~= seq![branch[0]]);
        lang::lemma_span_single(branch[0], cx, s, i, j);
    }
}

proof fn lemma_spellings(ops: Seq<SpecOp>, cx: Cx, s: Seq<u8>, i: int, j: int)
    requires
        spellings(ops) is Some,
    ensures
        some_lit(spellings(ops)->0, cx, s, i, j) <==> lang::ops_span(ops, cx, s, i, j),
    decreases ops.len(),
{
    let lits = spellings(ops)->0;
    if ops.len() == 0 {
        assert(lits[0] == Seq::<u8>::empty());
        if lang::ops_span(ops, cx, s, i, j) {
            assert(j == i + lits[0].len() && lang::lit_at(cx, lits[0], s, i));
        }
    } else {
        let head = ops.drop_last();
        let last = ops.last();
        let parts = spellings(head)->0;
        let more = match last {
            SpecOp::Lit(b) => seq![b],
            SpecOp::Alternation(bs) => all_branch_bytes(bs)->0,
            _ => seq![],
        };
        assert(lits == join_all(parts, more));
        lemma_join_all(parts, more, cx, s, i, j);
        assert(ops =~= head + seq![last]);
        lang::lemma_span_concat(head, seq![last], cx, s, i, j);
        assert forall|k: int| some_lit(parts, cx, s, i, k) <==> #[trigger]
            lang::ops_span(head, cx, s, i, k) by {
            lemma_spellings(head, cx, s, i, k);
        }
        assert forall|k: int| some_lit(more, cx, s, k, j) <==> #[trigger]
            lang::ops_span(seq![last], cx, s, k, j) by {
            lang::lemma_span_single(last, cx, s, k, j);
            match last {
                SpecOp::Lit(b) => {
                    assert(more[0] == b);
                },
                SpecOp::Alternation(bs) => {
                    lemma_branch_bytes(bs, cx, s, k, j);
                },
                _ => {},
            }
        }
        if some_lit(lits, cx, s, i, j) {
            let k = choose|k: int| #[trigger]
                lang::cut(k) && some_lit(parts, cx, s, i, k) && some_lit(more, cx, s, k, j);
            assert(lang::ops_span(head, cx, s, i, k) && lang::ops_span(seq![last], cx, s, k, j));
        }
        if lang::ops_span(ops, cx, s, i, j) {
            let k = choose|k: int| #[trigger]
                lang::cut(k) && lang::ops_span(head, cx, s, i, k) && lang::ops_span(
                    seq![last],
                    cx,
                    s,
                    k,
                    j,
                );
            assert(lang::cut(k) && some_lit(parts, cx, s, i, k) && some_lit(more, cx, s, k, j));
        }
    }
}

/// In a segment, wildcards match as many bytes as there are `?`, or more where
/// there is a `*`, unless they would have to take a hidden dot.
proof fn lemma_wilds(ops: Seq<SpecOp>, cx: Cx, s: Seq<u8>, i: int, j: int)
    requires
        forall|k: int| 0 <= k < ops.len() ==> is_wild(#[trigger] ops[k]),
        lang::no_sep(cx, s, 0, s.len() as int),
        0 <= i <= s.len(),
    ensures
        any_chars(ops) >= 0,
        lang::ops_span(ops, cx, s, i, j) <==> (i <= j <= s.len() && any_chars(ops) <= j - i && (
        has_star(ops) || j - i == any_chars(ops)) && (ops.len() > 0 ==> !lang::hidden(cx, s, i))),
    decreases ops.len(),
{
    if ops.len() > 0 {
        let head = ops.drop_last();
        let last = ops.last();
        assert(is_wild(ops[ops.len() - 1]));
        assert forall|k: int| 0 <= k < head.len() implies is_wild(#[trigger] head[k]) by {
            assert(head[k] == ops[k]);
        }
        assert(ops =~= head + seq![last]);
        lang::lemma_span_concat(head, seq![last], cx, s, i, j);
        lemma_wilds(head, cx, s, i, j);
        assert(has_star(ops) <==> (has_star(head) || last is Star)) by {
            if has_star(head) {
                let k = choose|k: int| 0 <= k < head.len() && #[trigger] head[k] is Star;
                assert(ops[k] is Star);
            }
            if last is Star {
                assert(ops[ops.len() - 1] is Star);
            }
            if has_star(ops) {
                let k = choose|k: int| 0 <= k < ops.len() && #[trigger] ops[k] is Star;
                if k < head.len() {
                    assert(head[k] is Star);
                }
            }
        }
        assert forall|k: int| k > 0 implies !#[trigger] lang::hidden(cx, s, k) by {
            if k < s.len() {
                assert(!cx.seps.has(s[k - 1]));
            }
        }
        if lang::ops_span(ops, cx, s, i, j) {
            let k = choose|k: int| #[trigger]
                lang::cut(k) && lang::ops_span(head, cx, s, i, k) && lang::ops_span(
                    seq![last],
                    cx,
                    s,
                    k,
                    j,
                );
            lang::lemma_span_single(last, cx, s, k, j);
            lemma_wilds(head, cx, s, i, k);
        }
        if i <= j <= s.len() && any_chars(ops) <= j - i && (has_star(ops) || j - i == any_chars(
            ops,
        )) && !lang::hidden(cx, s, i) {
            let k = if last is Star {
                if has_star(head) { j } else { i + any_chars(head) }
            } else {
                j - 1
            };
            lemma_wilds(head, cx, s, i, k);
            assert(lang::no_sep(cx, s, k, j));
            if k > 0 {
                assert(!lang::hidden(cx, s, k));
            }
            assert(lang::op_span(last, cx, s, k, j)) by {
                if last is AnyChar {
                    assert(!cx.seps.has(s[k]));
                }
            }
            lang::lemma_span_single(last, cx, s, k, j);
            assert(lang::cut(k) && lang::ops_span(head, cx, s, i, k) && lang::ops_span(
                seq![last],
                cx,
                s,
                k,
                j,
            ));
        }
    } else {
        assert(!has_star(ops));
    }
}

proof fn lemma_wild_end(ops: Seq<SpecOp>, k: int)
    requires
        0 <= k <= ops.len(),
    ensures
        k <= wild_end(ops, k) <= ops.len(),
        forall|m: int| k <= m < wild_end(ops, k) ==> is_wild(#[trigger] ops[m]),
        wild_end(ops, k) < ops.len() ==> !is_wild(ops[wild_end(ops, k)]),
    decreases ops.len() - k,
{
    if k < ops.len() && is_wild(ops[k]) {
        lemma_wild_end(ops, k + 1);
    }
}

/// The segment has the literal ends, and the length between them.
pub open spec fn affix_match(
    prefix: Seq<u8>,
    chars: int,
    variable: bool,
    suffixes: Seq<Seq<u8>>,
    cx: Cx,
    seg: Seq<u8>,
) -> bool {
    &&& lang::lit_at(cx, prefix, seg, 0)
    &&& prefix.len() == 0 && (variable || chars > 0) ==> !lang::hidden(cx, seg, 0)
    &&& exists|k: int|
        0 <= k < suffixes.len() && #[trigger] affix_end(
            prefix,
            chars,
            variable,
            suffixes[k],
            cx,
            seg,
        )
}

pub open spec fn affix_end(
    prefix: Seq<u8>,
    chars: int,
    variable: bool,
    suffix: Seq<u8>,
    cx: Cx,
    seg: Seq<u8>,
) -> bool {
    let between = seg.len() - prefix.len() - suffix.len();
    between >= chars && (variable || between == chars) && lang::lit_at(
        cx,
        suffix,
        seg,
        seg.len() - suffix.len(),
    )
}

/// Ops of the common form match by their ends and length.
pub proof fn lemma_affix(ops: Seq<SpecOp>, cx: Cx, seg: Seq<u8>)
    requires
        spellings(after_wilds(ops)) is Some,
        lang::no_sep(cx, seg, 0, seg.len() as int),
    ensures
        lang::matches(ops, cx, seg) <==> affix_match(
            lead_bytes(ops),
            any_chars(wilds(ops)),
            has_star(wilds(ops)),
            spellings(after_wilds(ops))->0,
            cx,
            seg,
        ),
{
    let p = lead_len(ops);
    let w = wild_end(ops, p);
    lemma_wild_end(ops, p);
    let prefix = lead_bytes(ops);
    let pre = ops.take(p);
    let mid = wilds(ops);
    let rest = after_wilds(ops);
    let suffixes = spellings(rest)->0;
    let len = seg.len() as int;
    let chars = any_chars(mid);
    let variable = has_star(mid);
    assert(ops =~= pre + (mid + rest));
    lang::lemma_span_concat(pre, mid + rest, cx, seg, 0, len);
    assert forall|k: int| 0 <= k < mid.len() implies is_wild(#[trigger] mid[k]) by {
        assert(mid[k] == ops[p + k]);
    }
    assert(mid.len() > 0 <==> (variable || chars > 0)) by {
        lemma_wilds(mid, cx, seg, 0, 0);
        if mid.len() > 0 {
            lemma_mid_nonempty(mid);
        }
    }
    assert forall|k: int| #[trigger]
        lang::ops_span(pre, cx, seg, 0, k) <==> (k == prefix.len() && lang::lit_at(
            cx,
            prefix,
            seg,
            0,
        )) by {
        if p == 1 {
            assert(pre =~= seq![ops[0]]);
            lang::lemma_span_single(ops[0], cx, seg, 0, k);
        } else {
            assert(pre =~= Seq::<SpecOp>::empty());
        }
    }
    let a = prefix.len() as int;
    if a <= len {
        lang::lemma_span_concat(mid, rest, cx, seg, a, len);
        if a > 0 && a < len {
            assert(!cx.seps.has(seg[a - 1]));
        }
    }
    if lang::matches(ops, cx, seg) {
        let k = choose|k: int| #[trigger]
            lang::cut(k) && lang::ops_span(pre, cx, seg, 0, k) && lang::ops_span(
                mid + rest,
                cx,
                seg,
                k,
                len,
            );
        let m = choose|m: int| #[trigger]
            lang::cut(m) && lang::ops_span(mid, cx, seg, a, m) && lang::ops_span(
                rest,
                cx,
                seg,
                m,
                len,
            );
        lemma_wilds(mid, cx, seg, a, m);
        lemma_spellings(rest, cx, seg, m, len);
        let x = choose|x: int|
            0 <= x < suffixes.len() && len == m + (#[trigger] suffixes[x]).len() && lang::lit_at(
                cx,
                suffixes[x],
                seg,
                m,
            );
        assert(affix_end(prefix, chars, variable, suffixes[x], cx, seg));
    }
    if affix_match(prefix, chars, variable, suffixes, cx, seg) {
        let x = choose|x: int|
            0 <= x < suffixes.len() && #[trigger] affix_end(
                prefix,
                chars,
                variable,
                suffixes[x],
                cx,
                seg,
            );
        let m = len - suffixes[x].len();
        lemma_wilds(mid, cx, seg, 0, 0);
        lemma_wilds(mid, cx, seg, a, m);
        assert(len == m + suffixes[x].len() && lang::lit_at(cx, suffixes[x], seg, m));
        assert(some_lit(suffixes, cx, seg, m, len));
        lemma_spellings(rest, cx, seg, m, len);
        assert(lang::cut(m) && lang::ops_span(mid, cx, seg, a, m) && lang::ops_span(
            rest,
            cx,
            seg,
            m,
            len,
        ));
        assert(lang::cut(a) && lang::ops_span(pre, cx, seg, 0, a));
    }
}

proof fn lemma_mid_nonempty(ops: Seq<SpecOp>)
    requires
        ops.len() > 0,
        forall|k: int| 0 <= k < ops.len() ==> is_wild(#[trigger] ops[k]),
    ensures
        has_star(ops) || any_chars(ops) > 0,
{
    let last = ops[ops.len() - 1];
    assert(is_wild(last));
    if !(last is Star) {
        lemma_any_chars_nonneg(ops.drop_last());
    }
}

/// No count of `?` is negative.
pub proof fn lemma_wilds_count(ops: Seq<SpecOp>)
    ensures
        0 <= any_chars(wilds(ops)),
{
    lemma_any_chars_nonneg(wilds(ops));
}

proof fn lemma_any_chars_nonneg(ops: Seq<SpecOp>)
    ensures
        0 <= any_chars(ops) <= ops.len(),
    decreases ops.len(),
{
    if ops.len() > 0 {
        lemma_any_chars_nonneg(ops.drop_last());
    }
}


/// How a segment is matched.
#[derive(Clone)]
pub enum WildKind {
    /// `lit (*|?)+ lit` and degenerate forms (`*`, `*lit`, `lit*`, `a?b`):
    /// compare the affixes, the length rules do the rest.
    Affix { prefix: Vec<u8>, suffix: Vec<u8> },
    /// `lit (*|?)+ {lit,...}` (`*.{ts,tsx}`): the prefix plus one suffix out of
    /// a set.
    AffixSet { prefix: Vec<u8>, suffixes: Vec<Vec<u8>> },
    /// Everything else: an automaton over the in-segment ops.
    Generic(Machine),
}

/// An in-segment matcher.
#[derive(Clone)]
pub struct Wild {
    pub kind: WildKind,
    /// How many `?` stand between the affixes; unused by `Generic`.
    pub chars: usize,
    /// `false`: the length between the affixes must equal `chars`.
    pub variable: bool,
    /// Reject dot-led segments.
    pub dot_protect: bool,
    pub ops: Ghost<Seq<SpecOp>>,
}

/// The ops can be matched within the limits.
pub open spec fn fits(ops: Seq<SpecOp>, ci: bool) -> bool {
    spellings(after_wilds(ops)) is Some || fragment::ops_size(
        ops,
        Build { ci, guards: true },
    ) + 1 <= MAX_SEG_NFA_STATES
}

impl Wild {
    spec fn affix_wf(self, prefix: Seq<u8>, suffixes: Seq<Seq<u8>>, dot: bool) -> bool {
        &&& spellings(after_wilds(self.ops@)) == Some(suffixes)
        &&& prefix == lead_bytes(self.ops@)
        &&& self.chars == any_chars(wilds(self.ops@))
        &&& self.variable == has_star(wilds(self.ops@))
        &&& self.dot_protect == (!dot && prefix.len() == 0 && (self.variable || self.chars > 0))
    }

    pub closed spec fn wf(self, seps: Seps, ci: bool, dot: bool) -> bool {
        match self.kind {
            WildKind::Affix { prefix, suffix } => self.affix_wf(prefix@, seq![suffix@], dot),
            WildKind::AffixSet { prefix, suffixes } => {
                &&& self.affix_wf(prefix@, facts::bytes_views(suffixes@), dot)
                &&& suffixes@.len() != 1
            },
            WildKind::Generic(machine) => {
                &&& spellings(after_wilds(self.ops@)) is None
                &&& machine.wf()
                &&& machine.spec_ops() == self.ops@
                &&& machine.spec_seps() == seps
                &&& machine.spec_ci() == ci
                &&& machine.spec_dot() == dot
            },
        }
    }

    /// Whether the ops match the segment `seg`.
    pub fn consumes(&self, seps: Seps, ci: bool, dot: bool, seg: &[u8]) -> (r: bool)
        requires
            self.wf(seps, ci, dot),
            forall|k: int| 0 <= k < seg@.len() ==> !seps.has(#[trigger] seg@[k]),
        ensures
            r == lang::matches(self.ops@, lang::cx(seps, ci, dot, seg@.len() as int), seg@),
    {
        let ghost cx = lang::cx(seps, ci, dot, seg@.len() as int);
        match &self.kind {
            WildKind::Affix { prefix, suffix } => {
                proof {
                    lemma_affix(self.ops@, cx, seg@);
                    assert(seq![suffix@][0] == suffix@);
                }
                if self.dot_protect && seg.len() > 0 && seg[0] == 0x2e {
                    return false;
                }
                lit_here(ci, prefix, seg, 0, Ghost(cx)) && self.ends_in(
                    ci,
                    prefix,
                    suffix,
                    seg,
                    Ghost(cx),
                )
            },
            WildKind::AffixSet { prefix, suffixes } => {
                let ghost set = facts::bytes_views(suffixes@);
                proof {
                    lemma_affix(self.ops@, cx, seg@);
                }
                if self.dot_protect && seg.len() > 0 && seg[0] == 0x2e {
                    return false;
                }
                if !lit_here(ci, prefix, seg, 0, Ghost(cx)) {
                    return false;
                }
                for k in 0..suffixes.len()
                    invariant
                        self.kind == (WildKind::AffixSet { prefix: *prefix, suffixes: *suffixes }),
                        self.wf(seps, ci, dot),
                        cx == lang::cx(seps, ci, dot, seg@.len() as int),
                        set == facts::bytes_views(suffixes@),
                        lang::lit_at(cx, prefix@, seg@, 0),
                        prefix@.len() == 0 && (self.variable || self.chars > 0) ==> !lang::hidden(
                            cx,
                            seg@,
                            0,
                        ),
                        lang::matches(self.ops@, cx, seg@) <==> affix_match(
                            prefix@,
                            self.chars as int,
                            self.variable,
                            set,
                            cx,
                            seg@,
                        ),
                        forall|m: int|
                            0 <= m < k ==> !#[trigger] affix_end(
                                prefix@,
                                self.chars as int,
                                self.variable,
                                set[m],
                                cx,
                                seg@,
                            ),
                {
                    assert(set[k as int] == suffixes@[k as int]@);
                    if self.ends_in(ci, prefix, &suffixes[k], seg, Ghost(cx)) {
                        assert(affix_end(
                            prefix@,
                            self.chars as int,
                            self.variable,
                            set[k as int],
                            cx,
                            seg@,
                        ));
                        return true;
                    }
                }
                false
            },
            WildKind::Generic(machine) => machine.accepts(seg),
        }
    }

    fn ends_in(
        &self,
        ci: bool,
        prefix: &Vec<u8>,
        suffix: &Vec<u8>,
        seg: &[u8],
        Ghost(cx): Ghost<Cx>,
    ) -> (r: bool)
        requires
            cx.ci == ci,
        ensures
            r == affix_end(
                prefix@,
                self.chars as int,
                self.variable,
                suffix@,
                cx,
                seg@,
            ),
    {
        let len: usize = seg.len();
        if len < prefix.len() || len - prefix.len() < suffix.len() {
            return false;
        }
        let between: usize = len - prefix.len() - suffix.len();
        between >= self.chars && (self.variable || between == self.chars) && lit_here(
            ci,
            suffix,
            seg,
            len - suffix.len(),
            Ghost(cx),
        )
    }
}

/// Whether `lit` stands in `seg` at `at`.
pub fn lit_here(ci: bool, lit: &Vec<u8>, seg: &[u8], at: usize, Ghost(cx): Ghost<Cx>) -> (r: bool)
    requires
        cx.ci == ci,
        at <= seg@.len(),
    ensures
        r == lang::lit_at(cx, lit@, seg@, at as int),
{
    if seg.len() - at < lit.len() {
        return false;
    }
    let mut k: usize = 0;
    while k < lit.len()
        invariant
            k <= lit@.len(),
            at + lit@.len() <= seg@.len(),
            cx.ci == ci,
            forall|m: int|
                0 <= m < k ==> ast::same_byte(ci, #[trigger] lit@[m], seg@[at + m]),
        decreases lit@.len() - k,
    {
        assert(at + k < seg.len());
        if !ast::eq_byte(ci, lit[k], seg[at + k]) {
            return false;
        }
        k = k + 1;
    }
    true
}

/// The literals that the ops from `from` on spell, where they spell a few
/// literals alone.
fn suffix_product(ops: &Vec<Op>, from: usize) -> (r: Option<Vec<Vec<u8>>>)
    requires
        from <= ops@.len(),
    ensures
        r is Some <==> spellings(ir::ops_view(ops@).skip(from as int)) is Some,
        r is Some ==> facts::bytes_views(r->0@) == spellings(
            ir::ops_view(ops@).skip(from as int),
        )->0,
{
    let ghost views = ir::ops_view(ops@).skip(from as int);
    let mut parts: Vec<Vec<u8>> = Vec::new();
    parts.push(Vec::new());
    proof {
        assert(views.take(0) =~= seq![]);
        assert(facts::bytes_views(parts@) =~= seq![Seq::<u8>::empty()]);
    }
    let mut k: usize = from;
    while k < ops.len()
        invariant
            from <= k <= ops@.len(),
            views == ir::ops_view(ops@).skip(from as int),
            spellings(views.take(k - from)) == Some(facts::bytes_views(parts@)),
        decreases ops@.len() - k,
    {
        let ghost pv = facts::bytes_views(parts@);
        let ghost next = views.take(k - from + 1);
        proof {
            assert(next.drop_last() =~= views.take(k - from));
            assert(next.last() == ir::op_view(ops@[k as int]));
        }
        match &ops[k] {
            Op::Lit(bytes) => {
                let mut one: Vec<Vec<u8>> = Vec::new();
                one.push(facts::clone_bytes(bytes));
                assert(facts::bytes_views(one@) =~= seq![bytes@]);
                let n: usize = parts.len();
                match join(&parts, &one, n) {
                    Some(more) => {
                        proof {
                            lemma_join_len(pv, seq![bytes@]);
                        }
                        parts = more;
                    },
                    None => {
                        proof {
                            lemma_join_len(pv, seq![bytes@]);
                        }
                        return None;
                    },
                }
            },
            Op::Alternation(branches) => {
                match literal_branches(branches) {
                    Some(lits) => match join(&parts, &lits, MAX_SUFFIX_PRODUCT) {
                        Some(more) => {
                            parts = more;
                        },
                        None => {
                            proof {
                                assert(spellings(next) is None);
                                lemma_spellings_none(views, k - from + 1);
                            }
                            return None;
                        },
                    },
                    None => {
                        proof {
                            assert(spellings(next) is None);
                            lemma_spellings_none(views, k - from + 1);
                        }
                        return None;
                    },
                }
            },
            _ => {
                proof {
                    assert(spellings(next) is None);
                    lemma_spellings_none(views, k - from + 1);
                }
                return None;
            },
        }
        k = k + 1;
    }
    assert(views.take(k - from) =~= views);
    Some(parts)
}

proof fn lemma_spellings_none(ops: Seq<SpecOp>, n: int)
    requires
        0 <= n <= ops.len(),
        spellings(ops.take(n)) is None,
    ensures
        spellings(ops) is None,
    decreases ops.len() - n,
{
    if n == ops.len() {
        assert(ops.take(n) =~= ops);
    } else {
        assert(ops.take(n + 1).drop_last() =~= ops.take(n));
        lemma_spellings_none(ops, n + 1);
    }
}

/// With one literal behind each there are as many as before.
proof fn lemma_join_len(parts: Seq<Seq<u8>>, lits: Seq<Seq<u8>>)
    requires
        lits.len() == 1,
    ensures
        join_all(parts, lits).len() == parts.len(),
    decreases parts.len(),
{
    if parts.len() > 0 {
        lemma_join_len(parts.drop_last(), lits);
    }
}

proof fn lemma_join_prefix(parts: Seq<Seq<u8>>, lits: Seq<Seq<u8>>, n: int)
    requires
        0 <= n <= parts.len(),
    ensures
        join_all(parts.take(n), lits).len() <= join_all(parts, lits).len(),
    decreases parts.len() - n,
{
    if n == parts.len() {
        assert(parts.take(n) =~= parts);
    } else {
        lemma_join_prefix(parts, lits, n + 1);
        assert(parts.take(n + 1).drop_last() =~= parts.take(n));
    }
}

/// Each of `parts` before each of `lits`, unless that is more than `limit`.
fn join(parts: &Vec<Vec<u8>>, lits: &Vec<Vec<u8>>, limit: usize) -> (r: Option<Vec<Vec<u8>>>)
    ensures
        ({
            let all = join_all(facts::bytes_views(parts@), facts::bytes_views(lits@));
            &&& r is Some <==> all.len() <= limit
            &&& r is Some ==> facts::bytes_views(r->0@) == all
        }),
{
    let ghost a = facts::bytes_views(parts@);
    let ghost b = facts::bytes_views(lits@);
    let mut next: Vec<Vec<u8>> = Vec::new();
    assert(facts::bytes_views(next@) =~= join_all(a.take(0), b));
    let mut x: usize = 0;
    while x < parts.len()
        invariant
            x <= parts@.len(),
            a == facts::bytes_views(parts@),
            b == facts::bytes_views(lits@),
            facts::bytes_views(next@) == join_all(a.take(x as int), b),
            next@.len() <= limit,
        decreases parts@.len() - x,
    {
        let ghost base = facts::bytes_views(next@);
        let ghost at = a.take(x + 1);
        proof {
            assert(at.drop_last() =~= a.take(x as int));
            assert(at.last() == a[x as int]);
            assert(a[x as int] == parts@[x as int]@);
            assert(base + join_each(a[x as int], b.take(0)) =~= base);
        }
        let mut y: usize = 0;
        while y < lits.len()
            invariant
                x < parts@.len(),
                y <= lits@.len(),
                a == facts::bytes_views(parts@),
                b == facts::bytes_views(lits@),
                at == a.take(x + 1),
                base == join_all(a.take(x as int), b),
                at.drop_last() == a.take(x as int),
                at.last() == a[x as int],
                a[x as int] == parts@[x as int]@,
                facts::bytes_views(next@) == base + join_each(a[x as int], b.take(y as int)),
                next@.len() <= limit,
                next@.len() == base.len() + y,
            decreases lits@.len() - y,
        {
            if next.len() >= limit {
                proof {
                    lemma_join_prefix(a, b, x + 1);
                    assert(join_all(at, b).len() == base.len() + b.len());
                }
                return None;
            }
            let ghost n0 = facts::bytes_views(next@);
            let mut v: Vec<u8> = facts::clone_bytes(&parts[x]);
            v.extend_from_slice(&lits[y]);
            proof {
                assert(b[y as int] == lits@[y as int]@);
                assert(v@ =~= a[x as int] + b[y as int]);
            }
            next.push(v);
            proof {
                assert(facts::bytes_views(next@) =~= n0.push(a[x as int] + b[y as int]));
                assert(facts::bytes_views(next@) =~= base + join_each(
                    a[x as int],
                    b.take(y + 1),
                ));
            }
            y = y + 1;
        }
        assert(b.take(y as int) =~= b);
        x = x + 1;
    }
    assert(a.take(x as int) =~= a);
    Some(next)
}

/// The bytes of the branches, where each is one literal or empty.
fn literal_branches(branches: &Vec<Vec<Op>>) -> (r: Option<Vec<Vec<u8>>>)
    ensures
        r is Some <==> all_branch_bytes(ir::branches_view(branches@)) is Some,
        r is Some ==> facts::bytes_views(r->0@) == all_branch_bytes(
            ir::branches_view(branches@),
        )->0,
{
    let ghost bs = ir::branches_view(branches@);
    let mut lits: Vec<Vec<u8>> = Vec::new();
    proof {
        assert(bs.take(0) =~= seq![]);
        assert(facts::bytes_views(lits@) =~= seq![]);
    }
    let mut k: usize = 0;
    while k < branches.len()
        invariant
            k <= branches@.len(),
            bs == ir::branches_view(branches@),
            all_branch_bytes(bs.take(k as int)) == Some(facts::bytes_views(lits@)),
        decreases branches@.len() - k,
    {
        let ghost l0 = facts::bytes_views(lits@);
        let ghost next = bs.take(k + 1);
        let branch: &Vec<Op> = &branches[k];
        let ghost bv = ir::ops_view(branch@);
        proof {
            assert(next.drop_last() =~= bs.take(k as int));
            assert(next.last() == bv);
            if branch@.len() > 0 {
                assert(bv[0] == ir::op_view(branch@[0]));
            }
        }
        let mut found: bool = false;
        if branch.len() == 0 {
            lits.push(Vec::new());
            found = true;
            assert(facts::bytes_views(lits@) =~= l0.push(seq![]));
        } else if branch.len() == 1 {
            match &branch[0] {
                Op::Lit(bytes) => {
                    lits.push(facts::clone_bytes(bytes));
                    found = true;
                    assert(facts::bytes_views(lits@) =~= l0.push(bytes@));
                },
                _ => {},
            }
        }
        if !found {
            proof {
                assert(all_branch_bytes(next) is None);
                lemma_branch_bytes_none(bs, k + 1);
            }
            return None;
        }
        k = k + 1;
    }
    assert(bs.take(k as int) =~= bs);
    Some(lits)
}

proof fn lemma_branch_bytes_none(bs: Seq<Seq<SpecOp>>, n: int)
    requires
        0 <= n <= bs.len(),
        all_branch_bytes(bs.take(n)) is None,
    ensures
        all_branch_bytes(bs) is None,
    decreases bs.len() - n,
{
    if n == bs.len() {
        assert(bs.take(n) =~= bs);
    } else {
        assert(bs.take(n + 1).drop_last() =~= bs.take(n));
        lemma_branch_bytes_none(bs, n + 1);
    }
}

/// Compiles the ops of one segment.
pub fn compile_wild(ops: &Vec<Op>, seps: Seps, ci: bool, dot: bool) -> (r: Option<Wild>)
    requires
        ir::solid(ir::ops_view(ops@)),
    ensures
        r is Some <==> fits(ir::ops_view(ops@), ci),
        r is Some ==> r->0.ops@ == ir::ops_view(ops@) && r->0.wf(seps, ci, dot),
{
    let ghost views = ir::ops_view(ops@);
    let mut idx: usize = 0;
    let mut prefix: Vec<u8> = Vec::new();
    if ops.len() > 0 {
        assert(views[0] == ir::op_view(ops@[0]));
        match &ops[0] {
            Op::Lit(b) => {
                idx = 1;
                prefix = facts::clone_bytes(b);
            },
            _ => {},
        }
    }
    let ghost p = idx as int;
    assert(p == lead_len(views));
    assert(prefix@ =~= lead_bytes(views));
    let mut chars: usize = 0;
    let mut star: bool = false;
    assert(views.subrange(p, p) =~= seq![]);
    while idx < ops.len() && matches!(&ops[idx], Op::Star | Op::AnyChar)
        invariant
            p <= idx <= ops@.len(),
            0 <= p,
            views == ir::ops_view(ops@),
            forall|k: int| p <= k < idx ==> is_wild(#[trigger] views[k]),
            chars == any_chars(views.subrange(p, idx as int)),
            chars <= idx,
            star == has_star(views.subrange(p, idx as int)),
        decreases ops@.len() - idx,
    {
        let ghost was = views.subrange(p, idx as int);
        let ghost now = views.subrange(p, idx + 1);
        proof {
            assert(views[idx as int] == ir::op_view(ops@[idx as int]));
            assert(now.drop_last() =~= was);
            assert(now.last() == views[idx as int]);
            assert(has_star(now) <==> (has_star(was) || views[idx as int] is Star)) by {
                if has_star(was) {
                    let k = choose|k: int| 0 <= k < was.len() && #[trigger] was[k] is Star;
                    assert(now[k] is Star);
                }
                if views[idx as int] is Star {
                    assert(now[now.len() - 1] is Star);
                }
                if has_star(now) {
                    let k = choose|k: int| 0 <= k < now.len() && #[trigger] now[k] is Star;
                    if k < was.len() {
                        assert(was[k] is Star);
                    }
                }
            }
        }
        if matches!(&ops[idx], Op::Star) {
            star = true;
        } else {
            chars = chars + 1;
        }
        idx = idx + 1;
    }
    proof {
        if idx < ops@.len() {
            assert(views[idx as int] == ir::op_view(ops@[idx as int]));
        }
        lemma_wild_end_is(views, p, idx as int);
        assert(wilds(views) == views.subrange(p, idx as int));
        assert(after_wilds(views) == views.skip(idx as int));
    }
    let dot_protect: bool = !dot && prefix.len() == 0 && (star || chars > 0);
    match suffix_product(ops, idx) {
        Some(suffixes) => {
            if suffixes.len() == 1 {
                let suffix: Vec<u8> = facts::clone_bytes(&suffixes[0]);
                assert(facts::bytes_views(suffixes@) =~= seq![suffix@]);
                return Some(
                    Wild {
                        kind: WildKind::Affix { prefix, suffix },
                        chars,
                        variable: star,
                        dot_protect,
                        ops: Ghost(views),
                    },
                );
            }
            return Some(
                Wild {
                    kind: WildKind::AffixSet { prefix, suffixes },
                    chars,
                    variable: star,
                    dot_protect,
                    ops: Ghost(views),
                },
            );
        },
        None => {},
    }
    match Machine::with_limit(ops, ci, dot, seps, MAX_SEG_NFA_STATES) {
        Some(machine) => Some(
            Wild {
                kind: WildKind::Generic(machine),
                chars: 0,
                variable: true,
                dot_protect: false,
                ops: Ghost(views),
            },
        ),
        None => None,
    }
}

proof fn lemma_wild_end_is(ops: Seq<SpecOp>, k: int, n: int)
    requires
        0 <= k <= n <= ops.len(),
        forall|m: int| k <= m < n ==> is_wild(#[trigger] ops[m]),
        n < ops.len() ==> !is_wild(ops[n]),
    ensures
        wild_end(ops, k) == n,
    decreases n - k,
{
    if k < n {
        lemma_wild_end_is(ops, k + 1, n);
    }
}


/// Some segment is matched, when no dot is hidden.
pub open spec fn satisfiable(ops: Seq<SpecOp>, seps: Seps, ci: bool) -> bool {
    exists|t: Seq<u8>| #[trigger] lang::matches(ops, Cx { seps, ci, lim: 0 }, t)
}

/// Bytes that no separator is among stand where they stand.
proof fn lemma_lit_self(b: Seq<u8>, s: Seq<u8>, cx: Cx, i: int)
    requires
        0 <= i,
        i + b.len() <= s.len(),
        s.subrange(i, i + b.len()) == b,
    ensures
        lang::lit_at(cx, b, s, i),
{
    assert forall|k: int| 0 <= k < b.len() implies ast::same_byte(
        cx.ci,
        #[trigger] b[k],
        s[i + k],
    ) by {
        assert(s.subrange(i, i + b.len())[k] == s[i + k]);
    }
}

proof fn lemma_join_in_seg(parts: Seq<Seq<u8>>, lits: Seq<Seq<u8>>, seps: Seps)
    requires
        forall|k: int| 0 <= k < parts.len() ==> !elems::has_sep_byte(#[trigger] parts[k], seps),
        forall|k: int| 0 <= k < lits.len() ==> !elems::has_sep_byte(#[trigger] lits[k], seps),
    ensures
        forall|k: int|
            0 <= k < join_all(parts, lits).len() ==> !elems::has_sep_byte(
                #[trigger] join_all(parts, lits)[k],
                seps,
            ),
        parts.len() > 0 && lits.len() > 0 ==> join_all(parts, lits).len() > 0,
    decreases parts.len(),
{
    if parts.len() > 0 {
        let head = parts.drop_last();
        let first = join_all(head, lits);
        let more = join_each(parts.last(), lits);
        let all = join_all(parts, lits);
        assert forall|k: int| 0 <= k < head.len() implies !elems::has_sep_byte(
            #[trigger] head[k],
            seps,
        ) by {
            assert(head[k] == parts[k]);
        }
        lemma_join_in_seg(head, lits, seps);
        assert forall|k: int| 0 <= k < all.len() implies !elems::has_sep_byte(
            #[trigger] all[k],
            seps,
        ) by {
            if k < first.len() {
                assert(all[k] == first[k]);
            } else {
                let g = k - first.len();
                let a = parts[parts.len() - 1];
                let b = lits[g];
                assert(all[k] == a + b);
                assert forall|m: int| 0 <= m < all[k].len() implies !seps.has(
                    #[trigger] all[k][m],
                ) by {
                    if m < a.len() {
                        assert(all[k][m] == a[m]);
                    } else {
                        assert(all[k][m] == b[m - a.len()]);
                    }
                }
            }
        }
        if lits.len() > 0 {
            assert(more.len() > 0);
        }
    }
}

proof fn lemma_branch_bytes_in_seg(bs: Seq<Seq<SpecOp>>, seps: Seps)
    requires
        all_branch_bytes(bs) is Some,
        !elems::some_branch_spells_sep(bs, seps),
    ensures
        forall|k: int|
            0 <= k < (all_branch_bytes(bs)->0).len() ==> !elems::has_sep_byte(
                #[trigger] (all_branch_bytes(bs)->0)[k],
                seps,
            ),
        (all_branch_bytes(bs)->0).len() == bs.len(),
    decreases bs.len(),
{
    if bs.len() > 0 {
        let head = bs.drop_last();
        let last = bs.last();
        assert(!elems::some_branch_spells_sep(head, seps)) by {
            assert forall|k: int| 0 <= k < head.len() implies !elems::some_spells_sep(
                #[trigger] head[k],
                seps,
            ) by {
                assert(head[k] == bs[k]);
            }
        }
        lemma_branch_bytes_in_seg(head, seps);
        assert(!elems::some_spells_sep(bs[bs.len() - 1], seps));
        let a = all_branch_bytes(head)->0;
        let b = branch_bytes(last)->0;
        let all = all_branch_bytes(bs)->0;
        assert(all == a.push(b));
        if last.len() == 1 {
            assert(!elems::spells_sep(last[0], seps));
        }
        assert forall|k: int| 0 <= k < all.len() implies !elems::has_sep_byte(
            #[trigger] all[k],
            seps,
        ) by {
            if k < a.len() {
                assert(all[k] == a[k]);
            }
        }
    }
}

proof fn lemma_spellings_in_seg(ops: Seq<SpecOp>, seps: Seps)
    requires
        spellings(ops) is Some,
        elems::in_seg(ops, seps),
        ir::solid(ops),
    ensures
        forall|k: int|
            0 <= k < (spellings(ops)->0).len() ==> !elems::has_sep_byte(
                #[trigger] (spellings(ops)->0)[k],
                seps,
            ),
        (spellings(ops)->0).len() > 0,
    decreases ops.len(),
{
    if ops.len() > 0 {
        let head = ops.drop_last();
        let last = ops.last();
        assert forall|k: int| 0 <= k < head.len() implies elems::in_seg_op(
            #[trigger] head[k],
            seps,
        ) && ir::solid_op(head[k]) by {
            assert(head[k] == ops[k]);
        }
        lemma_spellings_in_seg(head, seps);
        assert(elems::in_seg_op(ops[ops.len() - 1], seps));
        assert(ir::solid_op(ops[ops.len() - 1]));
        let parts = spellings(head)->0;
        match last {
            SpecOp::Lit(b) => {
                assert(seq![b][0] == b);
                lemma_join_in_seg(parts, seq![b], seps);
            },
            SpecOp::Alternation(bs) => {
                assert(!elems::some_branch_spells_sep(bs, seps));
                lemma_branch_bytes_in_seg(bs, seps);
                lemma_join_in_seg(parts, all_branch_bytes(bs)->0, seps);
            },
            _ => {},
        }
    } else {
        assert((spellings(ops)->0)[0] == Seq::<u8>::empty());
    }
}

/// Ops of the common form match some segment.
proof fn lemma_affix_satisfiable(ops: Seq<SpecOp>, seps: Seps, ci: bool)
    requires
        spellings(after_wilds(ops)) is Some,
        elems::in_seg(ops, seps),
        ir::solid(ops),
    ensures
        satisfiable(ops, seps, ci),
{
    let cx = Cx { seps, ci, lim: 0 };
    let p = lead_len(ops);
    lemma_wild_end(ops, p);
    let w = wild_end(ops, p);
    let rest = after_wilds(ops);
    let mid = wilds(ops);
    let prefix = lead_bytes(ops);
    let chars = any_chars(mid);
    lemma_any_chars_nonneg(mid);
    assert forall|k: int| 0 <= k < rest.len() implies elems::in_seg_op(#[trigger] rest[k], seps)
        && ir::solid_op(rest[k]) by {
        assert(rest[k] == ops[w + k]);
    }
    lemma_spellings_in_seg(rest, seps);
    let suffixes = spellings(rest)->0;
    let suffix = suffixes[0];
    let fill = Seq::new(chars as nat, |k: int| 0x61u8);
    let t = prefix + fill + suffix;
    assert(!elems::has_sep_byte(prefix, seps)) by {
        if p == 1 {
            assert(elems::in_seg_op(ops[0], seps));
        }
    }
    assert forall|k: int| 0 <= k < t.len() implies !seps.has(#[trigger] t[k]) by {
        if k < prefix.len() {
            assert(t[k] == prefix[k]);
        } else if k < prefix.len() + fill.len() {
            assert(t[k] == 0x61);
        } else {
            assert(t[k] == suffix[k - prefix.len() - fill.len()]);
        }
    }
    assert(t.subrange(0, prefix.len() as int) =~= prefix);
    lemma_lit_self(prefix, t, cx, 0);
    let at = t.len() - suffix.len();
    assert(t.subrange(at, at + suffix.len()) =~= suffix);
    lemma_lit_self(suffix, t, cx, at);
    lemma_affix(ops, cx, t);
    assert(affix_end(prefix, chars, has_star(mid), suffixes[0], cx, t));
    assert(lang::matches(ops, cx, t));
}

impl Wild {
    /// The one literal that every matched segment ends with, if it is known.
    pub fn known_suffix(
        &self,
        seps: Ghost<Seps>,
        ci: Ghost<bool>,
        dot: Ghost<bool>,
    ) -> (r: Vec<u8>)
        requires
            self.wf(seps@, ci@, dot@),
        ensures
            r@ == sole_suffix(self.ops@),
            r@.len() > 0 ==> spellings(after_wilds(self.ops@)) == Some(seq![r@]),
    {
        match &self.kind {
            WildKind::Affix { prefix, suffix } => facts::clone_bytes(suffix),
            _ => Vec::new(),
        }
    }

    /// Whether any segment is matched.
    pub fn is_satisfiable(&self, seps: Seps, ci: bool, dot: bool) -> (r: bool)
        requires
            self.wf(seps, ci, dot),
            elems::in_seg(self.ops@, seps),
            ir::solid(self.ops@),
        ensures
            r == satisfiable(self.ops@, seps, ci),
    {
        match &self.kind {
            WildKind::Generic(machine) => {
                let r: bool = machine.satisfiable();
                proof {
                    let cx = Cx { seps, ci, lim: 0 };
                    assert(machine.cx(0) == cx);
                    if satisfiable(self.ops@, seps, ci) {
                        let t = choose|t: Seq<u8>| #[trigger] lang::matches(self.ops@, cx, t);
                        assert(lang::matches(machine.spec_ops(), machine.cx(0), t));
                    }
                    if r {
                        let t = choose|t: Seq<u8>| #[trigger]
                            lang::matches(machine.spec_ops(), machine.cx(0), t);
                        assert(lang::matches(self.ops@, cx, t));
                    }
                }
                r
            },
            _ => {
                proof {
                    lemma_affix_satisfiable(self.ops@, seps, ci);
                }
                true
            },
        }
    }
}

/// A literal matches itself.
pub proof fn lemma_lit_satisfiable(b: Seq<u8>, seps: Seps, ci: bool)
    ensures
        satisfiable(if b.len() == 0 { seq![] } else { seq![SpecOp::Lit(b)] }, seps, ci),
{
    let cx = Cx { seps, ci, lim: 0 };
    let ops = if b.len() == 0 { Seq::<SpecOp>::empty() } else { seq![SpecOp::Lit(b)] };
    if b.len() > 0 {
        assert(b.subrange(0, b.len() as int) =~= b);
        lemma_lit_self(b, b, cx, 0);
        lang::lemma_span_single(SpecOp::Lit(b), cx, b, 0, b.len() as int);
    }
    assert(lang::matches(ops, cx, b));
}

} // verus!
