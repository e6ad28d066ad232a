//! What a program matches.
//!
//! A program denotes a set of spans: `ops_span(ops, cx, s, i, j)` says that
//! `ops` matches the bytes of `s` from `i` up to `j`. A path matches when the
//! whole of it is such a span. The engines are all proved against this one
//! definition.

use crate::ast;
use crate::engine::ops::SpecOp;
use crate::seps::Seps;
use vstd::prelude::*;

verus! {

/// What matching depends on besides the program and the path.
pub struct Cx {
    /// The separator bytes.
    pub seps: Seps,
    /// Literals ignore ASCII case.
    pub ci: bool,
    /// A `.` that starts a segment before this position is hidden from
    /// wildcards.
    pub lim: int,
}

/// Dotfiles are protected in the first `protected` bytes of the path, unless
/// `dot` is set.
pub open spec fn cx(seps: Seps, ci: bool, dot: bool, protected: int) -> Cx {
    Cx {
        seps,
        ci,
        lim: if dot {
            0
        } else {
            protected
        },
    }
}

/// A segment starts at `i`.
pub open spec fn seg_start(seps: Seps, s: Seq<u8>, i: int) -> bool {
    i == 0 || seps.has(s[i - 1])
}

/// The byte at `i` is a leading `.` that wildcards may not consume.
pub open spec fn hidden(cx: Cx, s: Seq<u8>, i: int) -> bool {
    0 <= i < s.len() && i < cx.lim && s[i] == 0x2e && seg_start(cx.seps, s, i)
}

pub open spec fn no_hidden(cx: Cx, s: Seq<u8>, i: int, j: int) -> bool {
    forall|k: int| i <= k < j ==> !#[trigger] hidden(cx, s, k)
}

pub open spec fn no_sep(cx: Cx, s: Seq<u8>, i: int, j: int) -> bool {
    forall|k: int| i <= k < j ==> !cx.seps.has(#[trigger] s[k])
}

pub open spec fn all_sep(cx: Cx, s: Seq<u8>, i: int, j: int) -> bool {
    forall|k: int| i <= k < j ==> cx.seps.has(#[trigger] s[k])
}

/// The bytes `b` stand in `s` from `i` on.
pub open spec fn lit_at(cx: Cx, b: Seq<u8>, s: Seq<u8>, i: int) -> bool {
    i + b.len() <= s.len() && forall|k: int|
        0 <= k < b.len() ==> ast::same_byte(cx.ci, #[trigger] b[k], s[i + k])
}

/// Marks the position at which a span is cut in two. True of every position;
/// it only names the witness in the quantifiers below.
pub open spec fn cut(k: int) -> bool {
    true
}

/// `op` matches the bytes of `s` from `i` up to `j`.
pub open spec fn op_span(op: SpecOp, cx: Cx, s: Seq<u8>, i: int, j: int) -> bool
    decreases op, 0int,
{
    0 <= i <= j <= s.len() && match op {
        SpecOp::Lit(b) => j == i + b.len() && lit_at(cx, b, s, i),
        SpecOp::AnyChar => j == i + 1 && !cx.seps.has(s[i]) && !hidden(cx, s, i),
        SpecOp::Star => !hidden(cx, s, i) && no_sep(cx, s, i, j),
        SpecOp::Class(c) => j == i + 1 && ast::class_has(c, cx.seps, s[i]) && !(c.negated
            && hidden(cx, s, i)),
        SpecOp::Sep => j == i + 1 && cx.seps.has(s[i]),
        SpecOp::SepRun => i < j && all_sep(cx, s, i, j),
        SpecOp::Globstar => false,
        SpecOp::OptSegmentsSlash => i == j || (!cx.seps.has(s[i]) && cx.seps.has(s[j - 1])
            && no_hidden(cx, s, i, j)),
        SpecOp::SlashAnything => i < j && cx.seps.has(s[i]) && no_hidden(cx, s, i, j),
        SpecOp::GlobstarAny => no_hidden(cx, s, i, j),
        SpecOp::LeadingSeps => all_sep(cx, s, i, j),
        SpecOp::Alternation(bs) => some_span(bs, cx, s, i, j),
    }
}

/// Some branch matches.
pub open spec fn some_span(bs: Seq<Seq<SpecOp>>, cx: Cx, s: Seq<u8>, i: int, j: int) -> bool
    decreases bs, 2int,
{
    exists|b: int| 0 <= b < bs.len() && ops_span(#[trigger] bs[b], cx, s, i, j)
}

/// `ops` match the bytes of `s` from `i` up to `j`, one after the other.
pub open spec fn ops_span(ops: Seq<SpecOp>, cx: Cx, s: Seq<u8>, i: int, j: int) -> bool
    decreases ops, 1int,
{
    if ops.len() == 0 {
        0 <= i == j <= s.len()
    } else {
        exists|k: int| #[trigger]
            cut(k) && op_span(ops[0], cx, s, i, k) && ops_span(ops.drop_first(), cx, s, k, j)
    }
}

/// The whole of `s` matches.
pub open spec fn matches(ops: Seq<SpecOp>, cx: Cx, s: Seq<u8>) -> bool {
    ops_span(ops, cx, s, 0, s.len() as int)
}

pub proof fn lemma_span_bounds(ops: Seq<SpecOp>, cx: Cx, s: Seq<u8>, i: int, j: int)
    requires
        ops_span(ops, cx, s, i, j),
    ensures
        0 <= i <= j <= s.len(),
    decreases ops,
{
    if ops.len() > 0 {
        let k = choose|k: int| #[trigger]
            cut(k) && op_span(ops[0], cx, s, i, k) && ops_span(ops.drop_first(), cx, s, k, j);
        lemma_span_bounds(ops.drop_first(), cx, s, k, j);
    }
}

/// One instruction is a program of its own.
pub proof fn lemma_span_single(op: SpecOp, cx: Cx, s: Seq<u8>, i: int, j: int)
    ensures
        ops_span(seq![op], cx, s, i, j) <==> op_span(op, cx, s, i, j),
{
    let ops = seq![op];
    assert(ops.drop_first() =~= Seq::<SpecOp>::empty());
    reveal_with_fuel(ops_span, 2);
    if op_span(op, cx, s, i, j) {
        assert(cut(j) && op_span(ops[0], cx, s, i, j) && ops_span(ops.drop_first(), cx, s, j, j));
    }
}

/// The concatenation of two programs matches where the first matches a prefix
/// and the second the rest.
pub proof fn lemma_span_concat(
    a: Seq<SpecOp>,
    b: Seq<SpecOp>,
    cx: Cx,
    s: Seq<u8>,
    i: int,
    j: int,
)
    ensures
        ops_span(a + b, cx, s, i, j) <==> exists|k: int| #[trigger]
            cut(k) && ops_span(a, cx, s, i, k) && ops_span(b, cx, s, k, j),
    decreases a,
{
    if a.len() == 0 {
        assert(a + b =~= b);
        if ops_span(b, cx, s, i, j) {
            lemma_span_bounds(b, cx, s, i, j);
            assert(cut(i) && ops_span(a, cx, s, i, i));
        }
    } else {
        let rest = a.drop_first();
        assert((a + b).drop_first() =~= rest + b);
        assert((a + b)[0] == a[0]);
        if ops_span(a + b, cx, s, i, j) {
            let m = choose|m: int| #[trigger]
                cut(m) && op_span((a + b)[0], cx, s, i, m) && ops_span((a + b).drop_first(), cx, s, m, j);
            lemma_span_concat(rest, b, cx, s, m, j);
            let k = choose|k: int| #[trigger]
                cut(k) && ops_span(rest, cx, s, m, k) && ops_span(b, cx, s, k, j);
            assert(cut(m) && op_span(a[0], cx, s, i, m));
            assert(ops_span(a, cx, s, i, k));
        }
        if exists|k: int| #[trigger] cut(k) && ops_span(a, cx, s, i, k) && ops_span(b, cx, s, k, j) {
            let k = choose|k: int| #[trigger]
                cut(k) && ops_span(a, cx, s, i, k) && ops_span(b, cx, s, k, j);
            let m = choose|m: int| #[trigger]
                cut(m) && op_span(a[0], cx, s, i, m) && ops_span(rest, cx, s, m, k);
            lemma_span_concat(rest, b, cx, s, m, j);
            assert(cut(m) && op_span((a + b)[0], cx, s, i, m));
        }
    }
}

/// Hiding fewer dots loses no match.
pub proof fn lemma_relaxed(ops: Seq<SpecOp>, cx: Cx, wide: Cx, s: Seq<u8>, i: int, j: int)
    requires
        ops_span(ops, cx, s, i, j),
        wide.seps == cx.seps,
        wide.ci == cx.ci,
        wide.lim <= cx.lim,
    ensures
        ops_span(ops, wide, s, i, j),
    decreases ops, 1int,
{
    if ops.len() > 0 {
        let k = choose|k: int| #[trigger]
            cut(k) && op_span(ops[0], cx, s, i, k) && ops_span(ops.drop_first(), cx, s, k, j);
        lemma_relaxed_op(ops[0], cx, wide, s, i, k);
        lemma_relaxed(ops.drop_first(), cx, wide, s, k, j);
        assert(cut(k) && op_span(ops[0], wide, s, i, k));
    }
}

proof fn lemma_relaxed_op(op: SpecOp, cx: Cx, wide: Cx, s: Seq<u8>, i: int, j: int)
    requires
        op_span(op, cx, s, i, j),
        wide.seps == cx.seps,
        wide.ci == cx.ci,
        wide.lim <= cx.lim,
    ensures
        op_span(op, wide, s, i, j),
    decreases op, 0int,
{
    assert forall|k: int| #[trigger] hidden(wide, s, k) implies hidden(cx, s, k) by {}
    match op {
        SpecOp::Alternation(bs) => {
            assert(some_span(bs, cx, s, i, j));
            let b = choose|b: int| 0 <= b < bs.len() && ops_span(#[trigger] bs[b], cx, s, i, j);
            lemma_relaxed(bs[b], cx, wide, s, i, j);
            assert(some_span(bs, wide, s, i, j));
        },
        _ => {},
    }
}

} // verus!
