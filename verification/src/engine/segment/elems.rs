//! Matching segment by segment, as mathematics.
//!
//! A program that never crosses a segment boundary in the middle of an
//! instruction can be read as a sequence of elements, each of which consumes
//! whole segments. `elems_match` says what such a sequence matches,
//! `elems_of` how a program is read, and [`lemma_elems_of`] that the two agree.

use crate::engine::lang::{self, Cx};
use crate::engine::ops::ir;
use crate::engine::ops::SpecOp;
use crate::seps::Seps;
use vstd::prelude::*;

verus! {

/// One element of a segment-wise program.
#[verifier::ext_equal]
pub enum SpecElem {
    /// One segment that the ops match.
    Seg(Seq<SpecOp>),
    /// Any number of segments, empty ones included.
    G0,
    /// Any number of segments, the first of which is not empty.
    G0Strict,
    /// One segment or more.
    G1,
}

/// Where the segment that starts at `i` ends.
pub open spec fn seg_end(seps: Seps, s: Seq<u8>, i: int) -> int
    decreases s.len() - i,
{
    if i >= s.len() || seps.has(s[i]) {
        i
    } else {
        seg_end(seps, s, i + 1)
    }
}

/// A segment runs up to the next separator, or to the end.
pub proof fn lemma_seg_end(seps: Seps, s: Seq<u8>, i: int)
    ensures
        i <= s.len() ==> i <= seg_end(seps, s, i) <= s.len(),
        0 <= i && seg_end(seps, s, i) < s.len() ==> seps.has(s[seg_end(seps, s, i)]),
        forall|k: int| i <= k < seg_end(seps, s, i) ==> !seps.has(#[trigger] s[k]),
        0 <= i ==> i <= seg_end(seps, s, i),
    decreases s.len() - i,
{
    if i < s.len() && !seps.has(s[i]) {
        lemma_seg_end(seps, s, i + 1);
    }
}

/// The elements match the segments of `s` from position `i` on. Behind the
/// last segment the position is one past the end of `s`.
pub open spec fn elems_match(elems: Seq<SpecElem>, cx: Cx, s: Seq<u8>, i: int) -> bool
    decreases elems.len(), s.len() + 2 - i, 1int,
{
    if elems.len() == 0 {
        i == s.len() + 1
    } else {
        let rest = elems.drop_first();
        let end = seg_end(cx.seps, s, i);
        match elems[0] {
            SpecElem::Seg(ops) => i <= s.len() && lang::ops_span(ops, cx, s, i, end)
                && elems_match(rest, cx, s, end + 1),
            SpecElem::G0 => absorb(rest, cx, s, i),
            SpecElem::G0Strict => elems_match(rest, cx, s, i) || (i < s.len() && !cx.seps.has(s[i])
                && !lang::hidden(cx, s, i) && absorb(rest, cx, s, end + 1)),
            SpecElem::G1 => i <= s.len() && !lang::hidden(cx, s, i) && absorb(
                rest,
                cx,
                s,
                end + 1,
            ),
        }
    }
}

/// `rest` matches from `i` on, or from behind some segments that start with no
/// hidden dot.
pub open spec fn absorb(rest: Seq<SpecElem>, cx: Cx, s: Seq<u8>, i: int) -> bool
    decreases rest.len(), s.len() + 2 - i, 2int,
{
    elems_match(rest, cx, s, i) || (i <= s.len() && !lang::hidden(cx, s, i) && {
        proof {
            lemma_seg_end(cx.seps, s, i);
        }
        absorb(rest, cx, s, seg_end(cx.seps, s, i) + 1)
    })
}


/// From `i` some whole segments lead to `j`, none of them starting with a
/// hidden dot.
pub open spec fn hops(cx: Cx, s: Seq<u8>, i: int, j: int) -> bool {
    i <= j <= s.len() + 1 && (j == i || ((j == s.len() + 1 || cx.seps.has(s[j - 1]))
        && lang::no_hidden(cx, s, i, j)))
}

/// A segment starts at `i`, or the path has ended before it.
pub open spec fn at_start(cx: Cx, s: Seq<u8>, i: int) -> bool {
    0 <= i <= s.len() + 1 && (i == 0 || i == s.len() + 1 || cx.seps.has(s[i - 1]))
}

/// Inside a segment no dot is hidden.
pub proof fn lemma_segment_hidden(cx: Cx, s: Seq<u8>, i: int)
    requires
        0 <= i <= s.len(),
        !lang::hidden(cx, s, i),
    ensures
        lang::no_hidden(cx, s, i, seg_end(cx.seps, s, i) + 1),
        at_start(cx, s, seg_end(cx.seps, s, i) + 1),
{
    lemma_seg_end(cx.seps, s, i);
    let end = seg_end(cx.seps, s, i);
    assert forall|k: int| i <= k < end + 1 implies !#[trigger] lang::hidden(cx, s, k) by {
        if k > i {
            assert(!cx.seps.has(s[k - 1]));
        }
    }
}

/// The next segment start behind `i` is not beyond any later one.
pub proof fn lemma_next_start(cx: Cx, s: Seq<u8>, i: int, j: int)
    requires
        0 <= i < j <= s.len() + 1,
        j == s.len() + 1 || cx.seps.has(s[j - 1]),
    ensures
        seg_end(cx.seps, s, i) + 1 <= j,
{
    lemma_seg_end(cx.seps, s, i);
    let end = seg_end(cx.seps, s, i);
    if j <= end {
        assert(!cx.seps.has(s[j - 1]));
    }
}

/// `rest` matches behind some such segments.
pub open spec fn hops_then(rest: Seq<SpecElem>, cx: Cx, s: Seq<u8>, i: int) -> bool {
    exists|j: int| #[trigger] lang::cut(j) && hops(cx, s, i, j) && elems_match(rest, cx, s, j)
}

pub proof fn lemma_absorb(rest: Seq<SpecElem>, cx: Cx, s: Seq<u8>, i: int)
    requires
        at_start(cx, s, i),
    ensures
        absorb(rest, cx, s, i) <==> hops_then(rest, cx, s, i),
    decreases s.len() + 1 - i,
{
    if i <= s.len() {
        lemma_seg_end(cx.seps, s, i);
        let end = seg_end(cx.seps, s, i);
        if !lang::hidden(cx, s, i) {
            lemma_segment_hidden(cx, s, i);
            lemma_absorb(rest, cx, s, end + 1);
        }
        if absorb(rest, cx, s, i) {
            if elems_match(rest, cx, s, i) {
                assert(lang::cut(i) && hops(cx, s, i, i));
            } else {
                let j = choose|j: int| #[trigger]
                    lang::cut(j) && hops(cx, s, end + 1, j) && elems_match(rest, cx, s, j);
                assert(lang::no_hidden(cx, s, i, j));
                assert(j == s.len() + 1 || cx.seps.has(s[j - 1]));
                assert(lang::cut(j) && hops(cx, s, i, j));
            }
        }
        if hops_then(rest, cx, s, i) {
            let j = choose|j: int| #[trigger]
                lang::cut(j) && hops(cx, s, i, j) && elems_match(rest, cx, s, j);
            if i < j {
                assert(!lang::hidden(cx, s, i));
                lemma_next_start(cx, s, i, j);
                assert(lang::no_hidden(cx, s, end + 1, j));
                assert(lang::cut(j) && hops(cx, s, end + 1, j));
            }
        }
    } else {
        assert(lang::cut(i) && hops(cx, s, i, i) <==> lang::cut(i));
        if hops_then(rest, cx, s, i) {
            let j = choose|j: int| #[trigger]
                lang::cut(j) && hops(cx, s, i, j) && elems_match(rest, cx, s, j);
        }
    }
}

/// What came before the op that is read next.
pub enum Boundary {
    /// Sequence start, or right after a globstar element.
    Fresh,
    /// Just consumed a `Sep`.
    Strict,
    /// Just consumed a `SepRun` (lenient `**` boundary).
    Lenient,
    /// A `GlobstarAny` or `SlashAnything` absorbs the rest of the path, or all
    /// up to a separator; no op but a `Sep` may follow it.
    Open,
}

/// Some byte is a separator.
pub open spec fn has_sep_byte(b: Seq<u8>, seps: Seps) -> bool {
    exists|k: int| 0 <= k < b.len() && seps.has(#[trigger] b[k])
}

/// A literal byte of the op is a separator.
pub open spec fn spells_sep(op: SpecOp, seps: Seps) -> bool
    decreases op, 0int,
{
    match op {
        SpecOp::Lit(b) => has_sep_byte(b, seps),
        SpecOp::Alternation(bs) => some_branch_spells_sep(bs, seps),
        _ => false,
    }
}

pub open spec fn some_spells_sep(ops: Seq<SpecOp>, seps: Seps) -> bool
    decreases ops, 1int,
{
    exists|k: int| 0 <= k < ops.len() && spells_sep(#[trigger] ops[k], seps)
}

pub open spec fn some_branch_spells_sep(bs: Seq<Seq<SpecOp>>, seps: Seps) -> bool
    decreases bs, 2int,
{
    exists|k: int| 0 <= k < bs.len() && some_spells_sep(#[trigger] bs[k], seps)
}

/// The op may match a separator.
pub open spec fn crosses(op: SpecOp) -> bool
    decreases op, 0int,
{
    match op {
        SpecOp::Sep | SpecOp::SepRun | SpecOp::Globstar | SpecOp::OptSegmentsSlash
        | SpecOp::SlashAnything | SpecOp::GlobstarAny | SpecOp::LeadingSeps => true,
        SpecOp::Alternation(bs) => some_branch_crosses(bs),
        _ => false,
    }
}

pub open spec fn some_crosses(ops: Seq<SpecOp>) -> bool
    decreases ops, 1int,
{
    exists|k: int| 0 <= k < ops.len() && crosses(#[trigger] ops[k])
}

pub open spec fn some_branch_crosses(bs: Seq<Seq<SpecOp>>) -> bool
    decreases bs, 2int,
{
    exists|k: int| 0 <= k < bs.len() && some_crosses(#[trigger] bs[k])
}

/// `buf` with `op` behind it; adjacent literals are merged.
pub open spec fn push_in_seg(buf: Seq<SpecOp>, op: SpecOp) -> Seq<SpecOp> {
    if buf.len() > 0 {
        match (buf.last(), op) {
            (SpecOp::Lit(a), SpecOp::Lit(b)) => buf.drop_last().push(SpecOp::Lit(a + b)),
            _ => buf.push(op),
        }
    } else {
        buf.push(op)
    }
}

pub open spec fn cons(e: SpecElem, rest: Option<Seq<SpecElem>>) -> Option<Seq<SpecElem>> {
    match rest {
        Some(r) => Some(seq![e] + r),
        None => None,
    }
}

/// How `ops` are read, with `buf` as the start of the current segment. `any`
/// says that there are elements already, `head` that nothing has been read.
/// A separator behind a bare `**` makes it absorb one segment or more. `None`:
/// they cannot be read segment by segment.
pub open spec fn elems_of(
    ops: Seq<SpecOp>,
    seps: Seps,
    buf: Seq<SpecOp>,
    state: Boundary,
    any: bool,
    head: bool,
) -> Option<Seq<SpecElem>>
    decreases ops.len(),
{
    if ops.len() == 0 {
        if state is Open {
            Some(seq![])
        } else {
            Some(seq![SpecElem::Seg(buf)])
        }
    } else if state is Open {
        if ops[0] is Sep {
            elems_of(ops.drop_first(), seps, seq![], Boundary::Strict, true, false)
        } else {
            None
        }
    } else {
        let rest = ops.drop_first();
        match ops[0] {
            SpecOp::Sep => cons(
                SpecElem::Seg(buf),
                elems_of(rest, seps, seq![], Boundary::Strict, true, false),
            ),
            SpecOp::SepRun => cons(
                SpecElem::Seg(buf),
                elems_of(rest, seps, seq![], Boundary::Lenient, true, false),
            ),
            SpecOp::LeadingSeps => if head {
                elems_of(rest, seps, buf, state, any, false)
            } else {
                None
            },
            SpecOp::OptSegmentsSlash => if buf.len() > 0 {
                None
            } else {
                cons(
                    if (state is Fresh && any) || state is Strict {
                        SpecElem::G0Strict
                    } else {
                        SpecElem::G0
                    },
                    elems_of(rest, seps, seq![], Boundary::Fresh, true, false),
                )
            },
            SpecOp::SlashAnything => cons(
                SpecElem::Seg(buf),
                cons(
                    SpecElem::G1,
                    elems_of(rest, seps, seq![], Boundary::Open, true, false),
                ),
            ),
            SpecOp::GlobstarAny => if buf.len() > 0 {
                None
            } else {
                cons(
                    if state is Strict || (rest.len() > 0 && rest[0] is Sep) {
                        SpecElem::G1
                    } else {
                        SpecElem::G0
                    },
                    elems_of(rest, seps, seq![], Boundary::Open, true, false),
                )
            },
            SpecOp::Globstar => None,
            _ => if spells_sep(ops[0], seps) {
                None
            } else {
                elems_of(rest, seps, push_in_seg(buf, ops[0]), state, any, false)
            },
        }
    }
}


/// The op stays within a segment and spells no separator.
pub open spec fn in_seg_op(op: SpecOp, seps: Seps) -> bool {
    !crosses(op) && !spells_sep(op, seps)
}

pub open spec fn in_seg(ops: Seq<SpecOp>, seps: Seps) -> bool {
    forall|k: int| 0 <= k < ops.len() ==> in_seg_op(#[trigger] ops[k], seps)
}

/// An op that stays within a segment holds no raw `**`.
pub proof fn lemma_full_in_seg(op: SpecOp)
    requires
        ir::full_op(op),
        !crosses(op),
    ensures
        ir::solid_op(op),
    decreases op,
{
    if let SpecOp::Alternation(bs) = op {
        assert(!some_branch_crosses(bs));
        assert(ir::full_branches(bs));
        assert forall|b: int| 0 <= b < bs.len() implies ir::solid(#[trigger] bs[b]) by {
            assert(ir::full(bs[b]));
            assert(!some_crosses(bs[b]));
            assert forall|k: int| 0 <= k < bs[b].len() implies ir::solid_op(
                #[trigger] bs[b][k],
            ) by {
                assert(ir::full_op(bs[b][k]));
                assert(!crosses(bs[b][k]));
                lemma_full_in_seg(bs[b][k]);
            }
        }
    }
}

/// Ops that stay within a segment match no separator.
proof fn lemma_in_seg_op(op: SpecOp, cx: Cx, s: Seq<u8>, i: int, j: int)
    requires
        in_seg_op(op, cx.seps),
        lang::op_span(op, cx, s, i, j),
    ensures
        lang::no_sep(cx, s, i, j),
    decreases op, 0int,
{
    match op {
        SpecOp::Lit(b) => {
            assert forall|k: int| i <= k < j implies !cx.seps.has(#[trigger] s[k]) by {
                assert(crate::ast::same_byte(cx.ci, b[k - i], s[i + (k - i)]));
                assert(!cx.seps.has(b[k - i]));
            }
        },
        SpecOp::Alternation(bs) => {
            assert(lang::some_span(bs, cx, s, i, j));
            let b = choose|b: int| 0 <= b < bs.len() && lang::ops_span(#[trigger] bs[b], cx, s, i, j);
            assert(!some_branch_crosses(bs));
            assert(!some_branch_spells_sep(bs, cx.seps));
            assert(!some_crosses(bs[b]));
            assert(!some_spells_sep(bs[b], cx.seps));
            assert forall|k: int| 0 <= k < bs[b].len() implies in_seg_op(
                #[trigger] bs[b][k],
                cx.seps,
            ) by {}
            lemma_in_seg(bs[b], cx, s, i, j);
        },
        _ => {},
    }
}

pub proof fn lemma_in_seg(ops: Seq<SpecOp>, cx: Cx, s: Seq<u8>, i: int, j: int)
    requires
        in_seg(ops, cx.seps),
        lang::ops_span(ops, cx, s, i, j),
    ensures
        lang::no_sep(cx, s, i, j),
    decreases ops, 1int,
{
    if ops.len() > 0 {
        let rest = ops.drop_first();
        let k = choose|k: int| #[trigger]
            lang::cut(k) && lang::op_span(ops[0], cx, s, i, k) && lang::ops_span(
                rest,
                cx,
                s,
                k,
                j,
            );
        assert(in_seg_op(ops[0], cx.seps));
        lemma_in_seg_op(ops[0], cx, s, i, k);
        assert forall|m: int| 0 <= m < rest.len() implies in_seg_op(
            #[trigger] rest[m],
            cx.seps,
        ) by {
            assert(rest[m] == ops[m + 1]);
        }
        lemma_in_seg(rest, cx, s, k, j);
    }
}

/// A span without separators that ends at a separator or at the end of the
/// path ends where the segment ends.
pub proof fn lemma_span_to_end(cx: Cx, s: Seq<u8>, i: int, j: int)
    requires
        0 <= i <= j <= s.len(),
        lang::no_sep(cx, s, i, j),
        j == s.len() || cx.seps.has(s[j]),
    ensures
        j == seg_end(cx.seps, s, i),
    decreases j - i,
{
    if i < j {
        assert(!cx.seps.has(s[i]));
        lemma_span_to_end(cx, s, i + 1, j);
    }
}

/// Merging adjacent literals changes nothing.
proof fn lemma_push_in_seg(
    buf: Seq<SpecOp>,
    op: SpecOp,
    rest: Seq<SpecOp>,
    cx: Cx,
    s: Seq<u8>,
    i: int,
    j: int,
)
    ensures
        lang::ops_span(push_in_seg(buf, op) + rest, cx, s, i, j) <==> lang::ops_span(
            buf + (seq![op] + rest),
            cx,
            s,
            i,
            j,
        ),
{
    let merged = push_in_seg(buf, op);
    if buf.len() > 0 && buf.last() is Lit && op is Lit {
        let a = buf.last()->Lit_0;
        let b = op->Lit_0;
        let head = buf.drop_last();
        assert(merged + rest =~= head + (seq![SpecOp::Lit(a + b)] + rest));
        assert(buf + (seq![op] + rest) =~= head + (seq![SpecOp::Lit(a), SpecOp::Lit(b)] + rest));
        lemma_lits(head, a, b, rest, cx, s, i, j);
    } else {
        assert(merged + rest =~= buf + (seq![op] + rest));
    }
}

proof fn lemma_lits(
    head: Seq<SpecOp>,
    a: Seq<u8>,
    b: Seq<u8>,
    rest: Seq<SpecOp>,
    cx: Cx,
    s: Seq<u8>,
    i: int,
    j: int,
)
    ensures
        lang::ops_span(head + (seq![SpecOp::Lit(a + b)] + rest), cx, s, i, j) <==> lang::ops_span(
            head + (seq![SpecOp::Lit(a), SpecOp::Lit(b)] + rest),
            cx,
            s,
            i,
            j,
        ),
{
    let one = seq![SpecOp::Lit(a + b)];
    let two = seq![SpecOp::Lit(a), SpecOp::Lit(b)];
    lang::lemma_span_concat(head, one + rest, cx, s, i, j);
    lang::lemma_span_concat(head, two + rest, cx, s, i, j);
    assert forall|m: int, n: int| #[trigger]
        lang::ops_span(one, cx, s, m, n) <==> lang::ops_span(two, cx, s, m, n) by {
        lemma_lit_pair(a, b, cx, s, m, n);
    }
    assert forall|m: int| #[trigger]
        lang::ops_span(one + rest, cx, s, m, j) <==> lang::ops_span(two + rest, cx, s, m, j) by {
        lang::lemma_span_concat(one, rest, cx, s, m, j);
        lang::lemma_span_concat(two, rest, cx, s, m, j);
        if lang::ops_span(one + rest, cx, s, m, j) {
            let k = choose|k: int| #[trigger]
                lang::cut(k) && lang::ops_span(one, cx, s, m, k) && lang::ops_span(
                    rest,
                    cx,
                    s,
                    k,
                    j,
                );
            assert(lang::cut(k) && lang::ops_span(two, cx, s, m, k));
        }
        if lang::ops_span(two + rest, cx, s, m, j) {
            let k = choose|k: int| #[trigger]
                lang::cut(k) && lang::ops_span(two, cx, s, m, k) && lang::ops_span(
                    rest,
                    cx,
                    s,
                    k,
                    j,
                );
            assert(lang::cut(k) && lang::ops_span(one, cx, s, m, k));
        }
    }
}

/// A literal in two parts.
pub proof fn lemma_lit_pair(a: Seq<u8>, b: Seq<u8>, cx: Cx, s: Seq<u8>, i: int, j: int)
    ensures
        lang::ops_span(seq![SpecOp::Lit(a + b)], cx, s, i, j) <==> lang::ops_span(
            seq![SpecOp::Lit(a), SpecOp::Lit(b)],
            cx,
            s,
            i,
            j,
        ),
{
    let ab = a + b;
    let two = seq![SpecOp::Lit(a), SpecOp::Lit(b)];
    lang::lemma_span_single(SpecOp::Lit(ab), cx, s, i, j);
    assert(two =~= seq![SpecOp::Lit(a)] + seq![SpecOp::Lit(b)]);
    lang::lemma_span_concat(seq![SpecOp::Lit(a)], seq![SpecOp::Lit(b)], cx, s, i, j);
    let k = i + a.len();
    lang::lemma_span_single(SpecOp::Lit(a), cx, s, i, k);
    lang::lemma_span_single(SpecOp::Lit(b), cx, s, k, j);
    if lang::op_span(SpecOp::Lit(ab), cx, s, i, j) {
        assert forall|m: int| 0 <= m < a.len() implies crate::ast::same_byte(
            cx.ci,
            #[trigger] a[m],
            s[i + m],
        ) by {
            assert(ab[m] == a[m]);
        }
        assert forall|m: int| 0 <= m < b.len() implies crate::ast::same_byte(
            cx.ci,
            #[trigger] b[m],
            s[k + m],
        ) by {
            assert(ab[a.len() + m] == b[m]);
            assert(s[i + (a.len() + m)] == s[k + m]);
        }
        assert(lang::cut(k));
    }
    if lang::ops_span(two, cx, s, i, j) {
        let k2 = choose|k2: int| #[trigger]
            lang::cut(k2) && lang::ops_span(seq![SpecOp::Lit(a)], cx, s, i, k2) && lang::ops_span(
                seq![SpecOp::Lit(b)],
                cx,
                s,
                k2,
                j,
            );
        lang::lemma_span_single(SpecOp::Lit(a), cx, s, i, k2);
        lang::lemma_span_single(SpecOp::Lit(b), cx, s, k2, j);
        assert(k2 == k);
        assert forall|m: int| 0 <= m < ab.len() implies crate::ast::same_byte(
            cx.ci,
            #[trigger] ab[m],
            s[i + m],
        ) by {
            if m < a.len() {
                assert(ab[m] == a[m]);
            } else {
                assert(ab[m] == b[m - a.len()]);
                assert(s[k + (m - a.len())] == s[i + m]);
            }
        }
    }
}

/// Separators and then `**/` lead over whole segments, and the other way
/// round.
pub proof fn lemma_seps_oss(cx: Cx, s: Seq<u8>, i: int, j: int)
    requires
        0 <= i <= j <= s.len(),
    ensures
        hops(cx, s, i, j) <==> seps_oss(cx, s, i, j),
    decreases j - i,
{
    let op = SpecOp::OptSegmentsSlash;
    if seps_oss(cx, s, i, j) {
        let k = choose|k: int| #[trigger]
            lang::cut(k) && i <= k <= j && lang::all_sep(cx, s, i, k) && lang::op_span(
                op,
                cx,
                s,
                k,
                j,
            );
        assert forall|m: int| i <= m < j implies !#[trigger] lang::hidden(cx, s, m) by {
            if m < k {
                assert(cx.seps.has(s[m]));
            }
        }
        if i < j && k == j {
            assert(cx.seps.has(s[j - 1]));
        }
    }
    if hops(cx, s, i, j) {
        if i == j {
            assert(lang::cut(i) && lang::op_span(op, cx, s, i, j));
        } else if cx.seps.has(s[i]) {
            assert(lang::no_hidden(cx, s, i + 1, j));
            assert(hops(cx, s, i + 1, j));
            lemma_seps_oss(cx, s, i + 1, j);
            let k = choose|k: int| #[trigger]
                lang::cut(k) && i + 1 <= k <= j && lang::all_sep(cx, s, i + 1, k) && lang::op_span(
                    op,
                    cx,
                    s,
                    k,
                    j,
                );
            assert(lang::all_sep(cx, s, i, k));
            assert(lang::cut(k));
        } else {
            assert(lang::cut(i) && lang::op_span(op, cx, s, i, j));
            assert(lang::all_sep(cx, s, i, i));
        }
    }
}

pub open spec fn seps_oss(cx: Cx, s: Seq<u8>, i: int, j: int) -> bool {
    exists|k: int| #[trigger]
        lang::cut(k) && i <= k <= j && lang::all_sep(cx, s, i, k) && lang::op_span(
            SpecOp::OptSegmentsSlash,
            cx,
            s,
            k,
            j,
        )
}


/// The elements match from every segment start exactly what the ops do.
spec fn agree(elems: Seq<SpecElem>, ops: Seq<SpecOp>, cx: Cx, s: Seq<u8>) -> bool {
    forall|j: int| #[trigger]
        at_start(cx, s, j) && j <= s.len() ==> (elems_match(elems, cx, s, j) <==> lang::ops_span(
            ops,
            cx,
            s,
            j,
            s.len() as int,
        ))
}

/// Behind the last segment the elements match nothing.
spec fn dead(elems: Seq<SpecElem>, cx: Cx, s: Seq<u8>) -> bool {
    !elems_match(elems, cx, s, s.len() as int + 1)
}

proof fn lemma_case_last(buf: Seq<SpecOp>, cx: Cx, s: Seq<u8>, i: int)
    requires
        in_seg(buf, cx.seps),
        0 <= i <= s.len(),
    ensures
        elems_match(seq![SpecElem::Seg(buf)], cx, s, i) <==> lang::ops_span(
            buf,
            cx,
            s,
            i,
            s.len() as int,
        ),
        dead(seq![SpecElem::Seg(buf)], cx, s),
{
    let elems = seq![SpecElem::Seg(buf)];
    let len = s.len() as int;
    lemma_seg_end(cx.seps, s, i);
    assert(elems.drop_first() =~= Seq::<SpecElem>::empty());
    reveal_with_fuel(elems_match, 2);
    if lang::ops_span(buf, cx, s, i, len) {
        lemma_in_seg(buf, cx, s, i, len);
        lemma_span_to_end(cx, s, i, len);
    }
}

proof fn lemma_case_sep(
    buf: Seq<SpecOp>,
    rest: Seq<SpecOp>,
    after: Seq<SpecElem>,
    cx: Cx,
    s: Seq<u8>,
    i: int,
)
    requires
        in_seg(buf, cx.seps),
        0 <= i <= s.len(),
        agree(after, rest, cx, s),
        dead(after, cx, s),
    ensures
        elems_match(seq![SpecElem::Seg(buf)] + after, cx, s, i) <==> lang::ops_span(
            buf + (seq![SpecOp::Sep] + rest),
            cx,
            s,
            i,
            s.len() as int,
        ),
{
    let elems = seq![SpecElem::Seg(buf)] + after;
    let ops = seq![SpecOp::Sep] + rest;
    let len = s.len() as int;
    lemma_seg_end(cx.seps, s, i);
    let end = seg_end(cx.seps, s, i);
    assert(elems.drop_first() =~= after);
    assert(ops.drop_first() =~= rest);
    assert(ops[0] == SpecOp::Sep);
    lang::lemma_span_concat(buf, ops, cx, s, i, len);
    if elems_match(elems, cx, s, i) {
        assert(end < len);
        assert(at_start(cx, s, end + 1));
        assert(lang::cut(end + 1) && lang::op_span(ops[0], cx, s, end, end + 1));
        assert(lang::ops_span(ops, cx, s, end, len));
        assert(lang::cut(end));
    }
    if lang::ops_span(buf + ops, cx, s, i, len) {
        let k = choose|k: int| #[trigger]
            lang::cut(k) && lang::ops_span(buf, cx, s, i, k) && lang::ops_span(ops, cx, s, k, len);
        let m = choose|m: int| #[trigger]
            lang::cut(m) && lang::op_span(ops[0], cx, s, k, m) && lang::ops_span(
                ops.drop_first(),
                cx,
                s,
                m,
                len,
            );
        lang::lemma_span_bounds(buf, cx, s, i, k);
        lemma_in_seg(buf, cx, s, i, k);
        lemma_span_to_end(cx, s, i, k);
        assert(at_start(cx, s, end + 1));
    }
}

proof fn lemma_case_run(
    buf: Seq<SpecOp>,
    rest: Seq<SpecOp>,
    after: Seq<SpecElem>,
    cx: Cx,
    s: Seq<u8>,
    i: int,
)
    requires
        in_seg(buf, cx.seps),
        0 <= i <= s.len(),
        agree(after, rest, cx, s),
        dead(after, cx, s),
    ensures
        elems_match(seq![SpecElem::Seg(buf)] + (seq![SpecElem::G0] + after), cx, s, i)
            <==> lang::ops_span(
            buf + (seq![SpecOp::SepRun] + (seq![SpecOp::OptSegmentsSlash] + rest)),
            cx,
            s,
            i,
            s.len() as int,
        ),
{
    let inner = seq![SpecElem::G0] + after;
    let elems = seq![SpecElem::Seg(buf)] + inner;
    let ops2 = seq![SpecOp::OptSegmentsSlash] + rest;
    let ops = seq![SpecOp::SepRun] + ops2;
    let len = s.len() as int;
    lemma_seg_end(cx.seps, s, i);
    let end = seg_end(cx.seps, s, i);
    assert(elems.drop_first() =~= inner);
    assert(inner.drop_first() =~= after);
    assert(inner[0] == SpecElem::G0);
    assert(ops.drop_first() =~= ops2);
    assert(ops2.drop_first() =~= rest);
    assert(ops[0] == SpecOp::SepRun && ops2[0] == SpecOp::OptSegmentsSlash);
    lang::lemma_span_concat(buf, ops, cx, s, i, len);
    assert(at_start(cx, s, end + 1));
    lemma_absorb(after, cx, s, end + 1);
    assert(elems_match(inner, cx, s, end + 1) == absorb(after, cx, s, end + 1));
    if elems_match(elems, cx, s, i) {
        let j = choose|j: int| #[trigger]
            lang::cut(j) && hops(cx, s, end + 1, j) && elems_match(after, cx, s, j);
        assert(j <= len);
        lemma_seps_oss(cx, s, end + 1, j);
        let k = choose|k: int| #[trigger]
            lang::cut(k) && end + 1 <= k <= j && lang::all_sep(cx, s, end + 1, k) && lang::op_span(
                ops2[0],
                cx,
                s,
                k,
                j,
            );
        assert(lang::all_sep(cx, s, end, k));
        assert(at_start(cx, s, j));
        assert(lang::cut(j) && lang::op_span(ops2[0], cx, s, k, j) && lang::ops_span(
            ops2.drop_first(),
            cx,
            s,
            j,
            len,
        ));
        assert(lang::cut(k) && lang::op_span(ops[0], cx, s, end, k) && lang::ops_span(
            ops.drop_first(),
            cx,
            s,
            k,
            len,
        ));
        assert(lang::cut(end) && lang::ops_span(ops, cx, s, end, len));
    }
    if lang::ops_span(buf + ops, cx, s, i, len) {
        let e = choose|e: int| #[trigger]
            lang::cut(e) && lang::ops_span(buf, cx, s, i, e) && lang::ops_span(ops, cx, s, e, len);
        let k = choose|k: int| #[trigger]
            lang::cut(k) && lang::op_span(ops[0], cx, s, e, k) && lang::ops_span(
                ops.drop_first(),
                cx,
                s,
                k,
                len,
            );
        let j = choose|j: int| #[trigger]
            lang::cut(j) && lang::op_span(ops2[0], cx, s, k, j) && lang::ops_span(
                ops2.drop_first(),
                cx,
                s,
                j,
                len,
            );
        assert(cx.seps.has(s[e]));
        lang::lemma_span_bounds(buf, cx, s, i, e);
        lemma_in_seg(buf, cx, s, i, e);
        lemma_span_to_end(cx, s, i, e);
        assert(lang::all_sep(cx, s, end + 1, k));
        assert(lang::cut(k));
        assert(seps_oss(cx, s, end + 1, j));
        lemma_seps_oss(cx, s, end + 1, j);
        assert(at_start(cx, s, j)) by {
            if j == end + 1 {
            }
        }
        assert(lang::cut(j) && hops(cx, s, end + 1, j) && elems_match(after, cx, s, j));
    }
}

proof fn lemma_case_oss(
    rest: Seq<SpecOp>,
    after: Seq<SpecElem>,
    cx: Cx,
    s: Seq<u8>,
    i: int,
)
    requires
        at_start(cx, s, i),
        agree(after, rest, cx, s),
        dead(after, cx, s),
    ensures
        i <= s.len() ==> (elems_match(seq![SpecElem::G0Strict] + after, cx, s, i)
            <==> lang::ops_span(
            seq![SpecOp::OptSegmentsSlash] + rest,
            cx,
            s,
            i,
            s.len() as int,
        )),
        dead(seq![SpecElem::G0Strict] + after, cx, s),
{
    let elems = seq![SpecElem::G0Strict] + after;
    let ops = seq![SpecOp::OptSegmentsSlash] + rest;
    let len = s.len() as int;
    assert(elems.drop_first() =~= after);
    assert(ops.drop_first() =~= rest);
    assert(elems[0] == SpecElem::G0Strict && ops[0] == SpecOp::OptSegmentsSlash);
    if i <= s.len() {
        lemma_seg_end(cx.seps, s, i);
        let end = seg_end(cx.seps, s, i);
        if !lang::hidden(cx, s, i) {
            lemma_segment_hidden(cx, s, i);
            lemma_absorb(after, cx, s, end + 1);
        }
        if elems_match(elems, cx, s, i) {
            if elems_match(after, cx, s, i) {
                assert(lang::cut(i) && lang::op_span(ops[0], cx, s, i, i) && lang::ops_span(
                    ops.drop_first(),
                    cx,
                    s,
                    i,
                    len,
                ));
            } else {
                let j = choose|j: int| #[trigger]
                    lang::cut(j) && hops(cx, s, end + 1, j) && elems_match(after, cx, s, j);
                assert(j <= len);
                assert(lang::no_hidden(cx, s, i, j));
                assert(at_start(cx, s, j));
                assert(cx.seps.has(s[j - 1]));
                assert(lang::cut(j) && lang::op_span(ops[0], cx, s, i, j) && lang::ops_span(
                    ops.drop_first(),
                    cx,
                    s,
                    j,
                    len,
                ));
            }
        }
        if lang::ops_span(ops, cx, s, i, len) {
            let j = choose|j: int| #[trigger]
                lang::cut(j) && lang::op_span(ops[0], cx, s, i, j) && lang::ops_span(
                    ops.drop_first(),
                    cx,
                    s,
                    j,
                    len,
                );
            if i < j {
                assert(!lang::hidden(cx, s, i));
                lemma_next_start(cx, s, i, j);
                assert(lang::no_hidden(cx, s, end + 1, j));
                assert(at_start(cx, s, j));
                assert(lang::cut(j) && hops(cx, s, end + 1, j) && elems_match(after, cx, s, j));
            }
        }
    }
}

/// `/**` at the end of the pattern.
proof fn lemma_case_slash(buf: Seq<SpecOp>, cx: Cx, s: Seq<u8>, i: int)
    requires
        in_seg(buf, cx.seps),
        0 <= i <= s.len(),
    ensures
        elems_match(seq![SpecElem::Seg(buf)] + seq![SpecElem::G1], cx, s, i) <==> lang::ops_span(
            buf + seq![SpecOp::SlashAnything],
            cx,
            s,
            i,
            s.len() as int,
        ),
{
    let elems = seq![SpecElem::Seg(buf)] + seq![SpecElem::G1];
    let op = SpecOp::SlashAnything;
    let len = s.len() as int;
    lemma_seg_end(cx.seps, s, i);
    let end = seg_end(cx.seps, s, i);
    assert(elems.drop_first() =~= seq![SpecElem::G1]);
    lang::lemma_span_concat(buf, seq![op], cx, s, i, len);
    assert forall|k: int| #[trigger]
        lang::ops_span(seq![op], cx, s, k, len) <==> lang::op_span(op, cx, s, k, len) by {
        lang::lemma_span_single(op, cx, s, k, len);
    }
    if end < len {
        lemma_case_g1(cx, s, end + 1);
    } else {
        assert(!elems_match(seq![SpecElem::G1], cx, s, end + 1));
    }
    if elems_match(elems, cx, s, i) {
        assert(cx.seps.has(s[end]));
        assert(!lang::hidden(cx, s, end));
        assert(lang::no_hidden(cx, s, end, len));
        assert(lang::op_span(op, cx, s, end, len));
        assert(lang::cut(end));
    }
    if lang::ops_span(buf + seq![op], cx, s, i, len) {
        let k = choose|k: int| #[trigger]
            lang::cut(k) && lang::ops_span(buf, cx, s, i, k) && lang::ops_span(
                seq![op],
                cx,
                s,
                k,
                len,
            );
        lang::lemma_span_bounds(buf, cx, s, i, k);
        lemma_in_seg(buf, cx, s, i, k);
        lemma_span_to_end(cx, s, i, k);
        assert(lang::no_hidden(cx, s, end + 1, len));
    }
}

/// One segment or more up to the end of the path.
proof fn lemma_case_g1(cx: Cx, s: Seq<u8>, i: int)
    requires
        at_start(cx, s, i),
        i <= s.len(),
    ensures
        elems_match(seq![SpecElem::G1], cx, s, i) <==> lang::no_hidden(cx, s, i, s.len() as int),
{
    let elems = seq![SpecElem::G1];
    let none = Seq::<SpecElem>::empty();
    let len = s.len() as int;
    assert(elems.drop_first() =~= none);
    lemma_seg_end(cx.seps, s, i);
    let end = seg_end(cx.seps, s, i);
    if !lang::hidden(cx, s, i) {
        lemma_segment_hidden(cx, s, i);
        lemma_absorb(none, cx, s, end + 1);
        if elems_match(elems, cx, s, i) {
            let j = choose|j: int| #[trigger]
                lang::cut(j) && hops(cx, s, end + 1, j) && elems_match(none, cx, s, j);
            assert(j == len + 1);
            assert(lang::no_hidden(cx, s, i, len));
        }
        if lang::no_hidden(cx, s, i, len) {
            assert(lang::no_hidden(cx, s, end + 1, len + 1));
            assert(lang::cut(len + 1) && hops(cx, s, end + 1, len + 1) && elems_match(
                none,
                cx,
                s,
                len + 1,
            ));
        }
    } else {
        assert(i < len);
    }
}

/// Any segments up to the end of the path.
proof fn lemma_case_g0(cx: Cx, s: Seq<u8>, i: int)
    requires
        at_start(cx, s, i),
        i <= s.len(),
    ensures
        elems_match(seq![SpecElem::G0], cx, s, i) <==> lang::no_hidden(cx, s, i, s.len() as int),
{
    let elems = seq![SpecElem::G0];
    let none = Seq::<SpecElem>::empty();
    let len = s.len() as int;
    assert(elems.drop_first() =~= none);
    lemma_absorb(none, cx, s, i);
    if elems_match(elems, cx, s, i) {
        let j = choose|j: int| #[trigger]
            lang::cut(j) && hops(cx, s, i, j) && elems_match(none, cx, s, j);
        assert(j == len + 1);
        assert(lang::no_hidden(cx, s, i, len));
    }
    if lang::no_hidden(cx, s, i, len) {
        assert(lang::no_hidden(cx, s, i, len + 1));
        assert(lang::cut(len + 1) && hops(cx, s, i, len + 1) && elems_match(none, cx, s, len + 1));
    }
}


/// A bare `**` with a separator behind it.
proof fn lemma_case_any_sep(
    rest: Seq<SpecOp>,
    after: Seq<SpecElem>,
    cx: Cx,
    s: Seq<u8>,
    i: int,
)
    requires
        at_start(cx, s, i),
        agree(after, rest, cx, s),
        dead(after, cx, s),
    ensures
        i <= s.len() ==> (elems_match(seq![SpecElem::G1] + after, cx, s, i) <==> lang::ops_span(
            seq![SpecOp::GlobstarAny] + (seq![SpecOp::Sep] + rest),
            cx,
            s,
            i,
            s.len() as int,
        )),
        dead(seq![SpecElem::G1] + after, cx, s),
{
    let elems = seq![SpecElem::G1] + after;
    let ops2 = seq![SpecOp::Sep] + rest;
    let ops = seq![SpecOp::GlobstarAny] + ops2;
    let len = s.len() as int;
    assert(elems.drop_first() =~= after);
    assert(ops.drop_first() =~= ops2);
    assert(ops2.drop_first() =~= rest);
    assert(elems[0] == SpecElem::G1);
    assert(ops[0] == SpecOp::GlobstarAny && ops2[0] == SpecOp::Sep);
    if i <= len {
        lemma_seg_end(cx.seps, s, i);
        let end = seg_end(cx.seps, s, i);
        if !lang::hidden(cx, s, i) {
            lemma_segment_hidden(cx, s, i);
            lemma_absorb(after, cx, s, end + 1);
        }
        if elems_match(elems, cx, s, i) {
            let j = choose|j: int| #[trigger]
                lang::cut(j) && hops(cx, s, end + 1, j) && elems_match(after, cx, s, j);
            assert(j <= len);
            assert(at_start(cx, s, j));
            assert(cx.seps.has(s[j - 1]));
            assert(lang::no_hidden(cx, s, i, j - 1));
            assert(lang::cut(j) && lang::op_span(ops2[0], cx, s, j - 1, j) && lang::ops_span(
                ops2.drop_first(),
                cx,
                s,
                j,
                len,
            ));
            assert(lang::cut(j - 1) && lang::op_span(ops[0], cx, s, i, j - 1) && lang::ops_span(
                ops.drop_first(),
                cx,
                s,
                j - 1,
                len,
            ));
        }
        if lang::ops_span(ops, cx, s, i, len) {
            let k = choose|k: int| #[trigger]
                lang::cut(k) && lang::op_span(ops[0], cx, s, i, k) && lang::ops_span(
                    ops.drop_first(),
                    cx,
                    s,
                    k,
                    len,
                );
            let j = choose|j: int| #[trigger]
                lang::cut(j) && lang::op_span(ops2[0], cx, s, k, j) && lang::ops_span(
                    ops2.drop_first(),
                    cx,
                    s,
                    j,
                    len,
                );
            assert(cx.seps.has(s[k]) && j == k + 1);
            assert(!lang::hidden(cx, s, k));
            assert(!lang::hidden(cx, s, i));
            lemma_next_start(cx, s, i, j);
            assert(lang::no_hidden(cx, s, end + 1, j));
            assert(at_start(cx, s, j));
            assert(lang::cut(j) && hops(cx, s, end + 1, j) && elems_match(after, cx, s, j));
        }
    }
}

/// `/**` is a separator and then a bare `**`.
proof fn lemma_slash_any(
    buf: Seq<SpecOp>,
    tail: Seq<SpecOp>,
    cx: Cx,
    s: Seq<u8>,
    i: int,
    j: int,
)
    ensures
        lang::ops_span(buf + (seq![SpecOp::SlashAnything] + tail), cx, s, i, j) <==> lang::ops_span(
            buf + (seq![SpecOp::Sep] + (seq![SpecOp::GlobstarAny] + tail)),
            cx,
            s,
            i,
            j,
        ),
{
    let one = seq![SpecOp::SlashAnything] + tail;
    let any = seq![SpecOp::GlobstarAny] + tail;
    let two = seq![SpecOp::Sep] + any;
    assert(one[0] == SpecOp::SlashAnything && one.drop_first() =~= tail);
    assert(any[0] == SpecOp::GlobstarAny && any.drop_first() =~= tail);
    assert(two[0] == SpecOp::Sep && two.drop_first() =~= any);
    assert forall|m: int| #[trigger]
        lang::ops_span(one, cx, s, m, j) <==> lang::ops_span(two, cx, s, m, j) by {
        if lang::ops_span(one, cx, s, m, j) {
            let k = choose|k: int| #[trigger]
                lang::cut(k) && lang::op_span(one[0], cx, s, m, k) && lang::ops_span(
                    one.drop_first(),
                    cx,
                    s,
                    k,
                    j,
                );
            assert(lang::no_hidden(cx, s, m + 1, k));
            assert(lang::cut(k) && lang::op_span(any[0], cx, s, m + 1, k));
            assert(lang::cut(m + 1) && lang::op_span(two[0], cx, s, m, m + 1) && lang::ops_span(
                two.drop_first(),
                cx,
                s,
                m + 1,
                j,
            ));
        }
        if lang::ops_span(two, cx, s, m, j) {
            let n = choose|n: int| #[trigger]
                lang::cut(n) && lang::op_span(two[0], cx, s, m, n) && lang::ops_span(
                    two.drop_first(),
                    cx,
                    s,
                    n,
                    j,
                );
            let k = choose|k: int| #[trigger]
                lang::cut(k) && lang::op_span(any[0], cx, s, n, k) && lang::ops_span(
                    any.drop_first(),
                    cx,
                    s,
                    k,
                    j,
                );
            assert forall|h: int| m <= h < k implies !#[trigger] lang::hidden(cx, s, h) by {
                if h > m {
                    assert(n <= h);
                }
            }
            assert(lang::cut(k) && lang::op_span(one[0], cx, s, m, k));
        }
    }
    lang::lemma_span_concat(buf, one, cx, s, i, j);
    lang::lemma_span_concat(buf, two, cx, s, i, j);
    if lang::ops_span(buf + one, cx, s, i, j) {
        let k = choose|k: int| #[trigger]
            lang::cut(k) && lang::ops_span(buf, cx, s, i, k) && lang::ops_span(one, cx, s, k, j);
        assert(lang::cut(k) && lang::ops_span(two, cx, s, k, j));
    }
    if lang::ops_span(buf + two, cx, s, i, j) {
        let k = choose|k: int| #[trigger]
            lang::cut(k) && lang::ops_span(buf, cx, s, i, k) && lang::ops_span(two, cx, s, k, j);
        assert(lang::cut(k) && lang::ops_span(one, cx, s, k, j));
    }
}

/// A run of separators stands before `**/`, `**/` not before a bare `**`, and
/// no alternation crosses a boundary.
pub open spec fn readable(ops: Seq<SpecOp>) -> bool {
    forall|k: int| 0 <= k < ops.len() ==> #[trigger] readable_at(ops, k)
}

pub open spec fn readable_at(ops: Seq<SpecOp>, k: int) -> bool {
    &&& ops[k] is SepRun ==> k + 1 < ops.len() && ops[k + 1] is OptSegmentsSlash
    &&& ops[k] is OptSegmentsSlash && k + 1 < ops.len() ==> !(ops[k + 1] is GlobstarAny)
    &&& ops[k] is Alternation ==> !crosses(ops[k])
}

proof fn lemma_readable_rest(ops: Seq<SpecOp>)
    requires
        readable(ops),
        ops.len() > 0,
    ensures
        readable(ops.drop_first()),
{
    let rest = ops.drop_first();
    assert forall|k: int| 0 <= k < rest.len() implies #[trigger] readable_at(rest, k) by {
        assert(readable_at(ops, k + 1));
        assert(rest[k] == ops[k + 1]);
        if k + 1 < rest.len() {
            assert(rest[k + 1] == ops[k + 2]);
        }
    }
}

/// `**/` comes first and would be read as absorbing leading separators.
spec fn bare_head(ops: Seq<SpecOp>, buf: Seq<SpecOp>, state: Boundary, any: bool) -> bool {
    state is Fresh && !any && buf.len() == 0 && ops.len() > 0 && ops[0] is OptSegmentsSlash
}

/// Reading goes on with a bare `**` right after a globstar.
spec fn open_head(ops: Seq<SpecOp>, buf: Seq<SpecOp>, state: Boundary) -> bool {
    state is Fresh && buf.len() == 0 && ops.len() > 0 && ops[0] is GlobstarAny
}

#[verifier::rlimit(40)]
proof fn lemma_elems(
    ops: Seq<SpecOp>,
    buf: Seq<SpecOp>,
    state: Boundary,
    any: bool,
    elems: Seq<SpecElem>,
    cx: Cx,
    s: Seq<u8>,
)
    requires
        readable(ops),
        in_seg(buf, cx.seps),
        state is Fresh || state is Strict,
        elems_of(ops, cx.seps, buf, state, any, false) == Some(elems),
        !bare_head(ops, buf, state, any),
    ensures
        agree(elems, buf + ops, cx, s),
        (any || state is Strict) && !open_head(ops, buf, state) ==> dead(elems, cx, s),
    decreases ops.len(),
{
    let len = s.len() as int;
    if ops.len() == 0 {
        assert(buf + ops =~= buf);
        assert forall|j: int| #[trigger] at_start(cx, s, j) && j <= len implies (elems_match(
            elems,
            cx,
            s,
            j,
        ) <==> lang::ops_span(buf + ops, cx, s, j, len)) by {
            lemma_case_last(buf, cx, s, j);
        }
        lemma_case_last(buf, cx, s, 0);
    } else {
        let rest = ops.drop_first();
        let none = Seq::<SpecOp>::empty();
        lemma_readable_rest(ops);
        assert(readable_at(ops, 0));
        assert(in_seg(none, cx.seps));
        assert(none + rest =~= rest);
        assert(ops =~= seq![ops[0]] + rest);
        match ops[0] {
            SpecOp::Sep => {
                let after = elems_of(rest, cx.seps, none, Boundary::Strict, true, false)->0;
                lemma_elems(rest, none, Boundary::Strict, true, after, cx, s);
                assert forall|j: int| #[trigger] at_start(cx, s, j) && j <= len implies (
                elems_match(elems, cx, s, j) <==> lang::ops_span(buf + ops, cx, s, j, len)) by {
                    lemma_case_sep(buf, rest, after, cx, s, j);
                }
                assert(elems[0] == SpecElem::Seg(buf));
            },
            SpecOp::SepRun => {
                let rest2 = rest.drop_first();
                assert(rest[0] == ops[1]);
                lemma_readable_rest(rest);
                assert(readable_at(rest, 0));
                assert(rest =~= seq![rest[0]] + rest2);
                let inner = elems_of(rest, cx.seps, none, Boundary::Lenient, true, false)->0;
                let after = elems_of(rest2, cx.seps, none, Boundary::Fresh, true, false)->0;
                assert(none + rest2 =~= rest2);
                if rest2.len() > 0 {
                    assert(rest2[0] == rest[1]);
                }
                lemma_elems(rest2, none, Boundary::Fresh, true, after, cx, s);
                assert(inner =~= seq![SpecElem::G0] + after);
                assert forall|j: int| #[trigger] at_start(cx, s, j) && j <= len implies (
                elems_match(elems, cx, s, j) <==> lang::ops_span(buf + ops, cx, s, j, len)) by {
                    lemma_case_run(buf, rest2, after, cx, s, j);
                }
                assert(elems[0] == SpecElem::Seg(buf));
            },
            SpecOp::OptSegmentsSlash => {
                let after = elems_of(rest, cx.seps, none, Boundary::Fresh, true, false)->0;
                if rest.len() > 0 {
                    assert(rest[0] == ops[1]);
                }
                lemma_elems(rest, none, Boundary::Fresh, true, after, cx, s);
                assert(buf + ops =~= ops);
                assert forall|j: int| #[trigger] at_start(cx, s, j) && j <= len implies (
                elems_match(elems, cx, s, j) <==> lang::ops_span(buf + ops, cx, s, j, len)) by {
                    lemma_case_oss(rest, after, cx, s, j);
                }
                lemma_case_oss(rest, after, cx, s, 0);
            },
            SpecOp::SlashAnything if rest.len() > 0 => {
                let rest2 = rest.drop_first();
                assert(elems_of(rest, cx.seps, none, Boundary::Open, true, false) is Some);
                assert(rest =~= seq![SpecOp::Sep] + rest2);
                lemma_readable_rest(rest);
                let after = elems_of(rest2, cx.seps, none, Boundary::Strict, true, false)->0;
                assert(none + rest2 =~= rest2);
                lemma_elems(rest2, none, Boundary::Strict, true, after, cx, s);
                let inner = seq![SpecElem::G1] + after;
                let any = seq![SpecOp::GlobstarAny] + rest;
                assert(elems =~= seq![SpecElem::Seg(buf)] + inner);
                assert forall|j: int| #[trigger] at_start(cx, s, j) && j <= len implies (
                elems_match(inner, cx, s, j) <==> lang::ops_span(any, cx, s, j, len)) by {
                    lemma_case_any_sep(rest2, after, cx, s, j);
                }
                lemma_case_any_sep(rest2, after, cx, s, 0);
                assert forall|j: int| #[trigger] at_start(cx, s, j) && j <= len implies (
                elems_match(elems, cx, s, j) <==> lang::ops_span(buf + ops, cx, s, j, len)) by {
                    lemma_case_sep(buf, any, inner, cx, s, j);
                    lemma_slash_any(buf, rest, cx, s, j, len);
                }
                assert(elems[0] == SpecElem::Seg(buf));
            },
            SpecOp::SlashAnything => {
                assert(elems =~= seq![SpecElem::Seg(buf)] + seq![SpecElem::G1]);
                assert(ops =~= seq![SpecOp::SlashAnything]);
                assert forall|j: int| #[trigger] at_start(cx, s, j) && j <= len implies (
                elems_match(elems, cx, s, j) <==> lang::ops_span(buf + ops, cx, s, j, len)) by {
                    lemma_case_slash(buf, cx, s, j);
                }
                assert(elems[0] == SpecElem::Seg(buf));
            },
            SpecOp::GlobstarAny if rest.len() > 0 => {
                let rest2 = rest.drop_first();
                assert(elems_of(rest, cx.seps, none, Boundary::Open, true, false) is Some);
                assert(rest =~= seq![SpecOp::Sep] + rest2);
                lemma_readable_rest(rest);
                let after = elems_of(rest2, cx.seps, none, Boundary::Strict, true, false)->0;
                assert(none + rest2 =~= rest2);
                lemma_elems(rest2, none, Boundary::Strict, true, after, cx, s);
                assert(buf + ops =~= ops);
                assert(elems =~= seq![SpecElem::G1] + after);
                assert forall|j: int| #[trigger] at_start(cx, s, j) && j <= len implies (
                elems_match(elems, cx, s, j) <==> lang::ops_span(buf + ops, cx, s, j, len)) by {
                    lemma_case_any_sep(rest2, after, cx, s, j);
                }
                lemma_case_any_sep(rest2, after, cx, s, 0);
            },
            SpecOp::GlobstarAny => {
                assert(buf + ops =~= seq![SpecOp::GlobstarAny]);
                assert forall|j: int| #[trigger] at_start(cx, s, j) && j <= len implies (
                elems_match(elems, cx, s, j) <==> lang::ops_span(buf + ops, cx, s, j, len)) by {
                    lang::lemma_span_single(SpecOp::GlobstarAny, cx, s, j, len);
                    if state is Strict {
                        assert(elems =~= seq![SpecElem::G1]);
                        lemma_case_g1(cx, s, j);
                    } else {
                        assert(elems =~= seq![SpecElem::G0]);
                        lemma_case_g0(cx, s, j);
                    }
                }
                if state is Strict {
                    assert(elems[0] == SpecElem::G1);
                }
            },
            SpecOp::LeadingSeps | SpecOp::Globstar => {},
            _ => {
                let more = push_in_seg(buf, ops[0]);
                assert(in_seg_op(ops[0], cx.seps));
                lemma_push_stays(buf, ops[0], cx.seps);
                lemma_elems(rest, more, state, any, elems, cx, s);
                assert forall|j: int| #[trigger] at_start(cx, s, j) && j <= len implies (
                elems_match(elems, cx, s, j) <==> lang::ops_span(buf + ops, cx, s, j, len)) by {
                    lemma_push_in_seg(buf, ops[0], rest, cx, s, j, len);
                }
            },
        }
    }
}

pub proof fn lemma_push_stays(buf: Seq<SpecOp>, op: SpecOp, seps: Seps)
    requires
        in_seg(buf, seps),
        in_seg_op(op, seps),
    ensures
        in_seg(push_in_seg(buf, op), seps),
        push_in_seg(buf, op).len() > 0,
{
    let more = push_in_seg(buf, op);
    assert forall|k: int| 0 <= k < more.len() implies in_seg_op(#[trigger] more[k], seps) by {
        if k < more.len() - 1 {
            assert(more[k] == buf[k]);
        } else if buf.len() > 0 && buf.last() is Lit && op is Lit {
            let a = buf.last()->Lit_0;
            let b = op->Lit_0;
            let ab = a + b;
            assert(in_seg_op(buf[buf.len() - 1], seps));
            assert(more[k] == SpecOp::Lit(ab));
            assert forall|m: int| 0 <= m < ab.len() implies !seps.has(#[trigger] ab[m]) by {
                if m < a.len() {
                    assert(ab[m] == a[m]);
                } else {
                    assert(ab[m] == b[m - a.len()]);
                }
            }
        }
    }
}

/// `ops` with what a leading `**/` absorbs written out.
pub open spec fn with_leading_seps(ops: Seq<SpecOp>) -> Seq<SpecOp> {
    if ops.len() > 0 && ops[0] is OptSegmentsSlash {
        seq![SpecOp::LeadingSeps] + ops
    } else {
        ops
    }
}

/// Leading separators are absorbed only before a globstar.
pub open spec fn head_ok(ops: Seq<SpecOp>) -> bool {
    ops.len() > 0 && ops[0] is LeadingSeps ==> ops.len() > 1 && (ops[1] is OptSegmentsSlash
        || ops[1] is GlobstarAny)
}

/// Read segment by segment, a program matches exactly what it matches byte by
/// byte, with a leading `**/` absorbing leading separators.
pub proof fn lemma_elems_of(ops: Seq<SpecOp>, elems: Seq<SpecElem>, cx: Cx, s: Seq<u8>)
    requires
        readable(ops),
        head_ok(ops),
        elems_of(ops, cx.seps, seq![], Boundary::Fresh, false, true) == Some(elems),
    ensures
        elems_match(elems, cx, s, 0) <==> lang::matches(with_leading_seps(ops), cx, s),
{
    let none = Seq::<SpecOp>::empty();
    let len = s.len() as int;
    assert(at_start(cx, s, 0));
    if ops.len() > 0 && ops[0] is LeadingSeps {
        let rest = ops.drop_first();
        assert(rest[0] == ops[1]);
        lemma_readable_rest(ops);
        assert(elems_of(rest, cx.seps, none, Boundary::Fresh, false, false) == Some(elems));
        assert(ops =~= seq![SpecOp::LeadingSeps] + rest);
        if rest[0] is OptSegmentsSlash {
            lemma_head_oss(rest, elems, cx, s);
        } else {
            let tail = rest.drop_first();
            assert(in_seg(none, cx.seps));
            lemma_elems(rest, none, Boundary::Fresh, false, elems, cx, s);
            assert(none + rest =~= rest);
            assert(rest =~= seq![SpecOp::GlobstarAny] + tail);
            lemma_head_any(tail, cx, s);
        }
    } else if ops.len() > 0 && ops[0] is OptSegmentsSlash {
        let rest = ops.drop_first();
        assert(elems_of(ops, cx.seps, none, Boundary::Fresh, false, false) == Some(elems));
        lemma_head_oss(ops, elems, cx, s);
    } else {
        assert(elems_of(ops, cx.seps, none, Boundary::Fresh, false, false) == Some(elems)) by {
            if ops.len() > 0 {
            }
        }
        lemma_elems(ops, none, Boundary::Fresh, false, elems, cx, s);
        assert(none + ops =~= ops);
    }
}

/// Leading separators are nothing that a bare `**` would not absorb.
proof fn lemma_head_any(tail: Seq<SpecOp>, cx: Cx, s: Seq<u8>)
    ensures
        lang::matches(
            seq![SpecOp::LeadingSeps] + (seq![SpecOp::GlobstarAny] + tail),
            cx,
            s,
        ) <==> lang::matches(seq![SpecOp::GlobstarAny] + tail, cx, s),
{
    let any = seq![SpecOp::GlobstarAny] + tail;
    let all = seq![SpecOp::LeadingSeps] + any;
    let len = s.len() as int;
    assert(all[0] == SpecOp::LeadingSeps && all.drop_first() =~= any);
    assert(any[0] == SpecOp::GlobstarAny && any.drop_first() =~= tail);
    if lang::ops_span(all, cx, s, 0, len) {
        let k = choose|k: int| #[trigger]
            lang::cut(k) && lang::op_span(all[0], cx, s, 0, k) && lang::ops_span(
                all.drop_first(),
                cx,
                s,
                k,
                len,
            );
        let m = choose|m: int| #[trigger]
            lang::cut(m) && lang::op_span(any[0], cx, s, k, m) && lang::ops_span(
                any.drop_first(),
                cx,
                s,
                m,
                len,
            );
        assert forall|h: int| 0 <= h < m implies !#[trigger] lang::hidden(cx, s, h) by {
            if h < k {
                assert(cx.seps.has(s[h]));
            }
        }
        assert(lang::cut(m) && lang::op_span(any[0], cx, s, 0, m));
    }
    if lang::ops_span(any, cx, s, 0, len) {
        assert(lang::cut(0) && lang::op_span(all[0], cx, s, 0, 0) && lang::ops_span(
            all.drop_first(),
            cx,
            s,
            0,
            len,
        ));
    }
}

proof fn lemma_head_oss(ops: Seq<SpecOp>, elems: Seq<SpecElem>, cx: Cx, s: Seq<u8>)
    requires
        readable(ops),
        ops.len() > 0,
        ops[0] is OptSegmentsSlash,
        elems_of(ops, cx.seps, seq![], Boundary::Fresh, false, false) == Some(elems),
    ensures
        elems_match(elems, cx, s, 0) <==> lang::matches(seq![SpecOp::LeadingSeps] + ops, cx, s),
{
    let none = Seq::<SpecOp>::empty();
    let len = s.len() as int;
    let rest = ops.drop_first();
    let all = seq![SpecOp::LeadingSeps] + ops;
    lemma_readable_rest(ops);
    assert(readable_at(ops, 0));
    if rest.len() > 0 {
        assert(rest[0] == ops[1]);
    }
    let after = elems_of(rest, cx.seps, none, Boundary::Fresh, true, false)->0;
    assert(in_seg(none, cx.seps));
    lemma_elems(rest, none, Boundary::Fresh, true, after, cx, s);
    assert(none + rest =~= rest);
    assert(elems =~= seq![SpecElem::G0] + after);
    assert(elems.drop_first() =~= after);
    assert(at_start(cx, s, 0));
    lemma_absorb(after, cx, s, 0);
    assert(all.drop_first() =~= ops);
    assert(all[0] == SpecOp::LeadingSeps);
    if elems_match(elems, cx, s, 0) {
        let j = choose|j: int| #[trigger]
            lang::cut(j) && hops(cx, s, 0, j) && elems_match(after, cx, s, j);
        assert(at_start(cx, s, j));
        lemma_seps_oss(cx, s, 0, j);
        let k = choose|k: int| #[trigger]
            lang::cut(k) && 0 <= k <= j && lang::all_sep(cx, s, 0, k) && lang::op_span(
                ops[0],
                cx,
                s,
                k,
                j,
            );
        assert(lang::cut(j) && lang::op_span(ops[0], cx, s, k, j) && lang::ops_span(
            ops.drop_first(),
            cx,
            s,
            j,
            len,
        ));
        assert(lang::cut(k) && lang::op_span(all[0], cx, s, 0, k) && lang::ops_span(
            all.drop_first(),
            cx,
            s,
            k,
            len,
        ));
    }
    if lang::ops_span(all, cx, s, 0, len) {
        let k = choose|k: int| #[trigger]
            lang::cut(k) && lang::op_span(all[0], cx, s, 0, k) && lang::ops_span(
                all.drop_first(),
                cx,
                s,
                k,
                len,
            );
        let j = choose|j: int| #[trigger]
            lang::cut(j) && lang::op_span(ops[0], cx, s, k, j) && lang::ops_span(
                ops.drop_first(),
                cx,
                s,
                j,
                len,
            );
        assert(lang::cut(k));
        assert(seps_oss(cx, s, 0, j));
        lemma_seps_oss(cx, s, 0, j);
        assert(at_start(cx, s, j));
        assert(lang::cut(j) && hops(cx, s, 0, j) && elems_match(after, cx, s, j));
    }
}

} // verus!
