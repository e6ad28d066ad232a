//! How patterns start.
//!
//! The parser takes a `**` only where a segment starts, so nothing that can be
//! skipped stands before a `**` with which a pattern may start. Moving
//! separators and factoring keep it so. Hence a `**/` that may start a pattern
//! absorbs leading separators, in whichever way the pattern is matched.

use crate::ast::SpecNode;
use crate::cuts;
use crate::engine::ops::distribute;
use crate::engine::ops::folding;
use crate::engine::ops::lower;
use crate::engine::ops::SpecOp;
use crate::engine::segment::starts;
use crate::factor;
use crate::parser;
use crate::parser::SequenceContext;
use crate::unions;
use vstd::prelude::*;

verus! {

/// Some way through the node is empty.
pub open spec fn hollow(n: SpecNode) -> bool
    decreases n, 0int,
{
    match n {
        SpecNode::Concat(xs) => all_hollow(xs),
        SpecNode::Brace(bs) => some_hollow(bs),
        _ => false,
    }
}

pub open spec fn all_hollow(xs: Seq<SpecNode>) -> bool
    decreases xs, 1int,
{
    forall|k: int| 0 <= k < xs.len() ==> hollow(#[trigger] xs[k])
}

pub open spec fn some_hollow(bs: Seq<SpecNode>) -> bool
    decreases bs, 1int,
{
    exists|k: int| 0 <= k < bs.len() && hollow(#[trigger] bs[k])
}

/// Some way through the nodes starts with node `k`.
pub open spec fn first_at(xs: Seq<SpecNode>, k: int) -> bool {
    forall|j: int| 0 <= j < k ==> hollow(#[trigger] xs[j])
}

/// No way through the node starts with a `**`.
pub open spec fn shut(n: SpecNode) -> bool
    decreases n, 0int,
{
    match n {
        SpecNode::Globstar => false,
        SpecNode::Concat(xs) => shut_seq(xs),
        SpecNode::Brace(bs) => all_shut(bs),
        _ => true,
    }
}

pub open spec fn shut_seq(xs: Seq<SpecNode>) -> bool
    decreases xs, 1int,
{
    forall|k: int| 0 <= k < xs.len() && first_at(xs, k) ==> shut(#[trigger] xs[k])
}

pub open spec fn all_shut(bs: Seq<SpecNode>) -> bool
    decreases bs, 1int,
{
    forall|k: int| 0 <= k < bs.len() ==> shut(#[trigger] bs[k])
}

/// Where a way through the node starts with a `**`, nothing that can be skipped
/// stands before it.
pub open spec fn fair(n: SpecNode) -> bool
    decreases n, 0int,
{
    match n {
        SpecNode::Concat(xs) => fair_seq(xs),
        SpecNode::Brace(bs) => all_fair(bs),
        _ => true,
    }
}

pub open spec fn fair_seq(xs: Seq<SpecNode>) -> bool
    decreases xs, 1int,
{
    &&& xs.len() > 0 ==> fair(xs[0])
    &&& forall|k: int| 0 < k < xs.len() && first_at(xs, k) ==> shut(#[trigger] xs[k])
}

pub open spec fn all_fair(bs: Seq<SpecNode>) -> bool
    decreases bs, 1int,
{
    forall|k: int| 0 <= k < bs.len() ==> fair(#[trigger] bs[k])
}

proof fn lemma_shut_fair(n: SpecNode)
    requires
        shut(n),
    ensures
        fair(n),
    decreases n,
{
    match n {
        SpecNode::Concat(xs) => {
            if xs.len() > 0 {
                assert(first_at(xs, 0));
                assert(decreases_to!(n => xs[0]));
                lemma_shut_fair(xs[0]);
            }
        },
        SpecNode::Brace(bs) => {
            assert forall|k: int| 0 <= k < bs.len() implies fair(#[trigger] bs[k]) by {
                assert(decreases_to!(n => bs[k]));
                lemma_shut_fair(bs[k]);
            }
        },
        _ => {},
    }
}

/// What ends with a separator cannot be skipped.
proof fn lemma_trails_full(n: SpecNode)
    requires
        parser::trails_boundary(n),
    ensures
        !hollow(n),
    decreases n,
{
    match n {
        SpecNode::Concat(xs) => {
            assert(decreases_to!(n => xs[xs.len() - 1]));
            lemma_trails_full(xs[xs.len() - 1]);
        },
        SpecNode::Brace(bs) => {
            assert(parser::all_trail_boundary(bs));
            assert forall|k: int| 0 <= k < bs.len() implies !hollow(#[trigger] bs[k]) by {
                assert(decreases_to!(n => bs[k]));
                lemma_trails_full(bs[k]);
            }
        },
        _ => {},
    }
}

// What the parser gives.

/// The context starts a segment.
spec fn at_boundary(ctx: SequenceContext) -> bool {
    match ctx {
        SequenceContext::Top => true,
        SequenceContext::Brace { prev_boundary, .. } => prev_boundary,
    }
}

/// The nodes start as they may in the context.
spec fn starts_in(ctx: SequenceContext, nodes: Seq<SpecNode>) -> bool {
    fair_seq(nodes) && (!at_boundary(ctx) ==> shut_seq(nodes))
}

proof fn lemma_starts_push(ctx: SequenceContext, nodes: Seq<SpecNode>, n: SpecNode)
    requires
        starts_in(ctx, nodes),
        nodes.len() == 0 ==> fair(n) && (!at_boundary(ctx) ==> shut(n)),
        nodes.len() > 0 && all_hollow(nodes) ==> shut(n),
    ensures
        starts_in(ctx, nodes.push(n)),
{
    let all = nodes.push(n);
    assert forall|k: int| 0 <= k < all.len() && first_at(all, k) && (k > 0 || !at_boundary(
        ctx,
    )) implies shut(#[trigger] all[k]) by {
        assert forall|j: int| 0 <= j < k implies hollow(#[trigger] nodes[j]) by {
            assert(all[j] == nodes[j]);
        }
        if k < nodes.len() {
            assert(first_at(nodes, k));
            assert(all[k] == nodes[k]);
        } else {
            assert(all_hollow(nodes));
        }
    }
    if nodes.len() > 0 {
        assert(all[0] == nodes[0]);
    }
}

/// A literal can stand anywhere.
proof fn lemma_starts_flush(ctx: SequenceContext, nodes: Seq<SpecNode>, lit: Seq<u8>)
    requires
        starts_in(ctx, nodes),
    ensures
        starts_in(ctx, parser::flushed(nodes, lit)),
        lit.len() > 0 ==> !all_hollow(parser::flushed(nodes, lit)),
{
    if lit.len() > 0 {
        let n = SpecNode::Literal(lit);
        lemma_starts_push(ctx, nodes, n);
        let all = parser::flushed(nodes, lit);
        assert(all[nodes.len() as int] == n);
        assert(!hollow(all[nodes.len() as int]));
    }
}

/// Behind what can be skipped no segment starts.
proof fn lemma_no_boundary(ctx: SequenceContext, nodes: Seq<SpecNode>)
    requires
        nodes.len() > 0,
        all_hollow(nodes),
    ensures
        !ctx.starts_segment(nodes),
{
    assert(hollow(nodes[nodes.len() - 1]));
    if parser::trails_boundary(nodes.last()) {
        lemma_trails_full(nodes.last());
    }
}

#[verifier::spinoff_prover]
#[verifier::rlimit(40)]
proof fn lemma_sequence_starts(
    s: Seq<u8>,
    p: int,
    depth: int,
    ctx: SequenceContext,
    nodes: Seq<SpecNode>,
    lit: Seq<u8>,
)
    requires
        starts_in(ctx, nodes),
    ensures
        parser::sequence(s, p, depth, ctx, nodes, lit) matches Ok((n, q)) ==> fair(n) && (
        !at_boundary(ctx) ==> shut(n)),
    decreases parser::left(s, p), 0int,
{
    let all = parser::flushed(nodes, lit);
    let none = Seq::<u8>::empty();
    lemma_starts_flush(ctx, nodes, lit);
    if p >= s.len() || (ctx is Brace && (s[p] == 0x2c || s[p] == 0x7d)) {
        if all.len() == 1 {
            assert(first_at(all, 0));
        }
    } else if s[p] == 0x5c {
        if p + 1 < s.len() {
            lemma_sequence_starts(s, p + 2, depth, ctx, nodes, lit.push(s[p + 1]));
        }
    } else if s[p] == 0x2f {
        lemma_starts_push(ctx, all, SpecNode::Separator);
        lemma_sequence_starts(s, p + 1, depth, ctx, all.push(SpecNode::Separator), none);
    } else if s[p] == 0x3f {
        lemma_starts_push(ctx, all, SpecNode::AnyChar);
        lemma_sequence_starts(s, p + 1, depth, ctx, all.push(SpecNode::AnyChar), none);
    } else if s[p] == 0x2a {
        if parser::owns_segment(s, p, ctx, all) {
            parser::lemma_past_globstars(s, p + 2);
            if all.len() > 0 && all_hollow(all) {
                lemma_no_boundary(ctx, all);
            }
            lemma_starts_push(ctx, all, SpecNode::Globstar);
            lemma_sequence_starts(
                s,
                parser::past_globstars(s, p + 2),
                depth,
                ctx,
                all.push(SpecNode::Globstar),
                none,
            );
        } else {
            lemma_starts_push(ctx, all, SpecNode::Star);
            lemma_sequence_starts(s, p + 1, depth, ctx, all.push(SpecNode::Star), none);
        }
    } else if s[p] == 0x5b {
        parser::lemma_class_at(s, p);
        if let Ok((c, q)) = parser::class_at(s, p) {
            lemma_starts_push(ctx, all, SpecNode::Class(c));
            lemma_sequence_starts(s, q, depth, ctx, all.push(SpecNode::Class(c)), none);
        }
    } else if s[p] == 0x7b {
        let (single, after) = parser::look_ahead(s, p + 1, 0, true, ctx);
        let inner = SequenceContext::Brace {
            prev_boundary: !single && lit.len() == 0 && ctx.starts_segment(nodes),
            next_boundary: !single && after,
        };
        lemma_branches_start(s, p + 1, depth + 1, inner, p, seq![]);
        if let Ok((bs, q)) = parser::branches(s, p + 1, depth + 1, inner, p, seq![]) {
            if q > p {
                if bs.len() == 1 {
                    let open = lit.push(0x7b);
                    let front = parser::flushed(nodes, open);
                    lemma_starts_flush(ctx, nodes, open);
                    lemma_starts_push(ctx, front, bs[0]);
                    lemma_sequence_starts(s, q, depth, ctx, front.push(bs[0]), seq![0x7d]);
                } else {
                    let brace = SpecNode::Brace(bs);
                    if all.len() > 0 && all_hollow(all) {
                        assert(lit.len() == 0);
                        lemma_no_boundary(ctx, all);
                        assert(shut(brace));
                    }
                    if all.len() == 0 {
                        assert(lit.len() == 0 && nodes.len() == 0);
                        assert(fair(brace));
                        if !at_boundary(ctx) {
                            assert(shut(brace));
                        }
                    }
                    lemma_starts_push(ctx, all, brace);
                    lemma_sequence_starts(s, q, depth, ctx, all.push(brace), none);
                }
            }
        }
    } else {
        lemma_sequence_starts(s, p + 1, depth, ctx, nodes, lit.push(s[p]));
    }
}

proof fn lemma_branches_start(
    s: Seq<u8>,
    p: int,
    depth: int,
    ctx: SequenceContext,
    start: int,
    done: Seq<SpecNode>,
)
    requires
        all_fair(done),
        !at_boundary(ctx) ==> all_shut(done),
    ensures
        parser::branches(s, p, depth, ctx, start, done) matches Ok((bs, q)) ==> all_fair(bs) && (
        !at_boundary(ctx) ==> all_shut(bs)),
    decreases parser::left(s, p), 1int,
{
    let none = Seq::<SpecNode>::empty();
    assert(starts_in(ctx, none));
    lemma_sequence_starts(s, p, depth, ctx, none, seq![]);
    if let Ok((n, q)) = parser::sequence(s, p, depth, ctx, seq![], seq![]) {
        if q >= p {
            let more = done.push(n);
            assert forall|k: int| 0 <= k < more.len() implies fair(#[trigger] more[k]) && (
            !at_boundary(ctx) ==> shut(more[k])) by {
                if k < done.len() {
                    assert(more[k] == done[k]);
                }
            }
            if q < s.len() && s[q] == 0x2c {
                lemma_branches_start(s, q + 1, depth, ctx, start, more);
            }
        }
    }
}

/// Every pattern that parses starts fairly.
pub proof fn lemma_parsed_fair(text: Seq<u8>)
    ensures
        parser::parsed(text) matches Ok((bangs, body)) ==> fair(body),
{
    let none = Seq::<SpecNode>::empty();
    assert(starts_in(SequenceContext::Top, none));
    lemma_sequence_starts(text, parser::bangs(text, 0), 0, SequenceContext::Top, none, seq![]);
}

// Moving separators.

/// What `b` is, next to what `a` was.
spec fn as_shut(a: SpecNode, b: SpecNode) -> bool {
    (hollow(b) ==> hollow(a)) && (shut(a) ==> shut(b)) && (fair(a) ==> fair(b))
}

spec fn seq_as_shut(a: Seq<SpecNode>, b: Seq<SpecNode>) -> bool {
    (all_hollow(b) ==> all_hollow(a)) && (shut_seq(a) ==> shut_seq(b)) && (fair_seq(a) ==> fair_seq(
        b,
    ))
}

proof fn lemma_spread_starts(n: SpecNode)
    ensures
        as_shut(n, distribute::spread(n)),
    decreases distribute::weight(n), 0nat,
{
    match n {
        SpecNode::Concat(xs) => {
            let none = Seq::<SpecNode>::empty();
            assert(none + xs =~= xs);
            lemma_spread_from_starts(none, xs);
        },
        SpecNode::Brace(bs) => {
            lemma_spread_all_starts(bs);
            let all = distribute::spread_all(bs);
            if some_hollow(all) {
                let k = choose|k: int| 0 <= k < all.len() && hollow(#[trigger] all[k]);
                assert(as_shut(bs[k], all[k]));
                assert(hollow(bs[k]));
            }
            assert forall|k: int| 0 <= k < all.len() implies (all_shut(bs) ==> shut(
                #[trigger] all[k],
            )) && (all_fair(bs) ==> fair(all[k])) by {
                assert(as_shut(bs[k], all[k]));
            }
        },
        _ => {},
    }
}

proof fn lemma_spread_all_starts(bs: Seq<SpecNode>)
    ensures
        distribute::spread_all(bs).len() == bs.len(),
        forall|k: int| 0 <= k < bs.len() ==> as_shut(bs[k], #[trigger] distribute::spread_all(bs)[k]),
    decreases distribute::weights(bs), bs.len(),
{
    if bs.len() > 0 {
        let head = bs.drop_last();
        lemma_spread_all_starts(head);
        lemma_spread_starts(bs.last());
        let all = distribute::spread_all(bs);
        let front = distribute::spread_all(head);
        assert forall|k: int| 0 <= k < bs.len() implies as_shut(bs[k], #[trigger] all[k]) by {
            if k < front.len() {
                assert(all[k] == front[k]);
                assert(head[k] == bs[k]);
            }
        }
    }
}

/// Branches that take in a separator cannot be skipped.
proof fn lemma_taken_starts(bs: Seq<SpecNode>, before: bool, after: bool)
    requires
        before || after,
    ensures
        ({
            let all = distribute::spread_branches(bs, before, after);
            &&& all.len() == bs.len()
            &&& forall|k: int| 0 <= k < all.len() ==> !hollow(#[trigger] all[k])
            &&& forall|k: int|
                0 <= k < all.len() && (before || shut(bs[k])) ==> shut(#[trigger] all[k])
            &&& forall|k: int|
                0 <= k < all.len() && (before || fair(bs[k])) ==> fair(#[trigger] all[k])
        }),
    decreases distribute::weights(bs), bs.len() + 3,
{
    if bs.len() > 0 {
        let head = bs.drop_last();
        let b = bs.last();
        let none = Seq::<SpecNode>::empty();
        distribute::lemma_weights_framed(b, before, after);
        lemma_taken_starts(head, before, after);
        let f = distribute::framed(b, before, after);
        assert(none + f =~= f);
        lemma_spread_from_starts(none, f);
        let moved = distribute::spread_from(none, f);
        let last = SpecNode::Concat(moved);
        let o = distribute::opened(b);
        if before {
            assert(f[0] is Separator);
            assert(!hollow(f[0]));
            assert forall|k: int| 0 <= k < f.len() && first_at(f, k) implies shut(
                #[trigger] f[k],
            ) by {
                if k > 0 {
                    assert(hollow(f[0]));
                }
            }
            assert(shut_seq(f));
            lemma_shut_fair(last);
        } else {
            assert(f =~= o.push(SpecNode::Separator));
            assert(f[o.len() as int] is Separator);
            assert(!hollow(f[o.len() as int]));
            assert forall|k: int| 0 <= k < f.len() && first_at(f, k) implies first_at(o, k)
                && (k < o.len() ==> f[k] == o[k]) by {
                assert forall|j: int| 0 <= j < k && j < o.len() implies hollow(
                    #[trigger] o[j],
                ) by {
                    assert(f[j] == o[j]);
                }
            }
            if shut(b) {
                assert(shut_seq(o)) by {
                    if !(b is Concat) {
                        assert(o =~= seq![b]);
                    }
                }
                assert forall|k: int| 0 <= k < f.len() && first_at(f, k) implies shut(
                    #[trigger] f[k],
                ) by {
                    if k < o.len() {
                        assert(shut(o[k]));
                    }
                }
            }
            if fair(b) {
                assert(fair_seq(o)) by {
                    if !(b is Concat) {
                        assert(o =~= seq![b]);
                    }
                }
                assert forall|k: int| 0 < k < f.len() && first_at(f, k) implies shut(
                    #[trigger] f[k],
                ) by {
                    if k < o.len() {
                        assert(shut(o[k]));
                    }
                }
                if o.len() > 0 {
                    assert(f[0] == o[0]);
                }
                assert(fair_seq(f));
            }
        }
        assert(!all_hollow(f));
        let all = distribute::spread_branches(bs, before, after);
        let front = distribute::spread_branches(head, before, after);
        assert(all == front.push(last));
        assert forall|k: int| 0 <= k < all.len() implies !hollow(#[trigger] all[k]) && (before
            || shut(bs[k]) ==> shut(all[k])) && (before || fair(bs[k]) ==> fair(all[k])) by {
            if k < front.len() {
                assert(all[k] == front[k]);
                assert(head[k] == bs[k]);
            }
        }
    }
}

#[verifier::spinoff_prover]
#[verifier::rlimit(40)]
proof fn lemma_spread_from_starts(out: Seq<SpecNode>, rest: Seq<SpecNode>)
    ensures
        seq_as_shut(out + rest, distribute::spread_from(out, rest)),
    decreases distribute::weights(rest), rest.len(),
{
    let w = out + rest;
    if rest.len() == 0 {
        assert(w =~= out);
    } else {
        let x = rest[0];
        let tail = rest.drop_first();
        distribute::lemma_weights_first(rest);
        if tail.len() > 0 {
            distribute::lemma_weights_first(tail);
        }
        let n = out.len() as int;
        assert(w[n] == x);
        match x {
            SpecNode::Brace(bs) => {
                let before = distribute::takes_before(out, bs);
                let after = distribute::takes_after(bs, tail);
                if !before && !after {
                    let node = distribute::spread(x);
                    lemma_spread_starts(x);
                    lemma_replaced(out, x, node, tail);
                    assert(out + rest =~= out + seq![x] + tail);
                    lemma_spread_from_starts(out.push(node), tail);
                    assert(out.push(node) + tail =~= out + seq![node] + tail);
                } else {
                    let kept = if before {
                        out.drop_last()
                    } else {
                        out
                    };
                    let left = if after {
                        tail.drop_first()
                    } else {
                        tail
                    };
                    let node = SpecNode::Brace(distribute::spread_branches(bs, before, after));
                    lemma_taken_starts(bs, before, after);
                    lemma_spread_from_starts(kept.push(node), left);
                    let v = kept.push(node) + left;
                    let a = kept.len() as int;
                    assert(v[a] == node);
                    assert(!hollow(node));
                    assert(forall|k: int| 0 <= k < a ==> #[trigger] v[k] == w[k]);
                    assert(before ==> shut(node));
                    assert(shut(x) ==> shut(node));
                    assert(fair(x) ==> fair(node)) by {
                        if before {
                            lemma_shut_fair(node);
                        }
                    }
                    assert(!all_hollow(v));
                    assert forall|k: int| 0 <= k < v.len() && first_at(v, k) implies k <= a
                        && first_at(w, k) by {
                        if k > a {
                            assert(hollow(v[a]));
                        }
                        assert forall|j: int| 0 <= j < k implies hollow(#[trigger] w[j]) by {
                            assert(v[j] == w[j]);
                        }
                    }
                    if shut_seq(w) {
                        assert forall|k: int| 0 <= k < v.len() && first_at(v, k) implies shut(
                            #[trigger] v[k],
                        ) by {
                            assert(k <= a && first_at(w, k));
                            assert(shut(w[k]));
                        }
                    }
                    if fair_seq(w) {
                        assert forall|k: int| 0 < k < v.len() && first_at(v, k) implies shut(
                            #[trigger] v[k],
                        ) by {
                            assert(k <= a && first_at(w, k));
                            assert(shut(w[k]));
                        }
                        if a > 0 {
                            assert(v[0] == w[0]);
                        } else if before {
                            lemma_shut_fair(node);
                        } else {
                            assert(w[0] == x);
                        }
                        assert(fair_seq(v));
                    }
                }
            },
            _ => {
                let y = distribute::spread(x);
                lemma_spread_starts(x);
                lemma_replaced(out, x, y, tail);
                assert(out + rest =~= out + seq![x] + tail);
                lemma_spread_from_starts(out.push(y), tail);
                assert(out.push(y) + tail =~= out + seq![y] + tail);
            },
        }
    }
}

/// A node among others may be replaced.
proof fn lemma_replaced(a: Seq<SpecNode>, x: SpecNode, y: SpecNode, b: Seq<SpecNode>)
    requires
        as_shut(x, y),
    ensures
        seq_as_shut(a + seq![x] + b, a + seq![y] + b),
{
    let w = a + seq![x] + b;
    let v = a + seq![y] + b;
    let n = a.len() as int;
    assert(w.len() == v.len());
    assert forall|k: int| 0 <= k < v.len() implies as_shut(w[k], #[trigger] v[k]) by {
        if k == n {
            assert(w[k] == x && v[k] == y);
        } else {
            assert(w[k] == v[k]);
        }
    }
    assert forall|k: int| 0 <= k <= v.len() && first_at(v, k) implies first_at(w, k) by {
        assert forall|j: int| 0 <= j < k implies hollow(#[trigger] w[j]) by {
            assert(as_shut(w[j], v[j]));
        }
    }
    if all_hollow(v) {
        assert forall|k: int| 0 <= k < w.len() implies hollow(#[trigger] w[k]) by {
            assert(as_shut(w[k], v[k]));
        }
    }
    if shut_seq(w) {
        assert forall|k: int| 0 <= k < v.len() && first_at(v, k) implies shut(#[trigger] v[k]) by {
            assert(as_shut(w[k], v[k]));
            assert(first_at(w, k));
            assert(shut(w[k]));
        }
    }
    if fair_seq(w) {
        assert forall|k: int| 0 < k < v.len() && first_at(v, k) implies shut(#[trigger] v[k]) by {
            assert(as_shut(w[k], v[k]));
            assert(first_at(w, k));
            assert(shut(w[k]));
        }
        assert(as_shut(w[0], v[0]));
    }
}

// From nodes to ops.

/// The first of folded ops that start with a `**/`.
proof fn lemma_fold_head(m: Seq<SpecOp>)
    requires
        folding::opens(m),
    ensures
        lower::fold(m).len() > 0,
        lower::fold(m)[0] is OptSegmentsSlash,
{
    let o = lower::open_globstars(m);
    assert(o.len() > 0 && o[0] is OptSegmentsSlash);
    let f = lower::soften(o);
    assert(f[0] is OptSegmentsSlash);
    let c = lower::close_globstars(f);
    assert(c.len() > 0 && c[0] is OptSegmentsSlash);
}

/// How merged and folded ops start.
proof fn lemma_program_head(r: Seq<SpecOp>)
    requires
        r.len() > 0,
        folding::unfolded(r),
    ensures
        ({
            let ops = lower::fold(lower::append_all(seq![], r));
            &&& ops.len() > 0
            &&& !(r[0] is Alternation) ==> !(ops[0] is Alternation)
            &&& r[0] is Alternation ==> ops == seq![r[0]] + lower::fold(
                lower::append_all(seq![], r.drop_first()),
            )
        }),
{
    let none = Seq::<SpecOp>::empty();
    let m = lower::append_all(none, r);
    folding::lemma_merge_unfolded(none, r);
    if r[0] is Alternation {
        let rest = r.drop_first();
        assert(folding::unfolded(rest)) by {
            assert forall|k: int| 0 <= k < rest.len() implies !(
            #[trigger] rest[k] is OptSegmentsSlash) by {
                assert(rest[k] == r[k + 1]);
            }
        }
        let tail = lower::append_all(none, rest);
        folding::lemma_merge_behind(r);
        folding::lemma_merge_unfolded(none, rest);
        folding::lemma_fold_still(seq![r[0]]);
        folding::lemma_fold_concat(seq![r[0]], tail);
    } else if r[0] is Globstar {
        folding::lemma_merge_behind(r);
        assert(m[0] == r[0]);
        if folding::opens(m) {
            lemma_fold_head(m);
        } else {
            folding::lemma_fold_first(m);
        }
    } else {
        folding::lemma_merge_plain(r);
        folding::lemma_fold_first(m);
    }
}

/// Merging and folding make nothing that can be skipped.
proof fn lemma_folded_skips(r: Seq<SpecOp>)
    requires
        folding::unfolded(r),
        starts::skips(lower::fold(lower::append_all(seq![], r))),
    ensures
        starts::skips(r),
    decreases r.len(),
{
    if r.len() > 0 {
        lemma_program_head(r);
        let ops = lower::fold(lower::append_all(seq![], r));
        let rest = r.drop_first();
        assert(starts::skippable(ops[0]));
        assert(r[0] is Alternation);
        let tail = lower::fold(lower::append_all(seq![], rest));
        assert(ops[0] == r[0]);
        assert forall|k: int| 0 <= k < tail.len() implies starts::skippable(#[trigger] tail[k]) by {
            assert(ops[k + 1] == tail[k]);
        }
        assert(folding::unfolded(rest)) by {
            assert forall|k: int| 0 <= k < rest.len() implies !(
            #[trigger] rest[k] is OptSegmentsSlash) by {
                assert(rest[k] == r[k + 1]);
            }
        }
        lemma_folded_skips(rest);
        assert forall|k: int| 0 <= k < r.len() implies starts::skippable(#[trigger] r[k]) by {
            if k > 0 {
                assert(rest[k - 1] == r[k]);
            }
        }
    }
}

/// The ops of a sequence are those of its first node and those of the rest.
proof fn lemma_raw_first(xs: Seq<SpecNode>, ci: bool)
    requires
        xs.len() > 0,
    ensures
        lower::raw_all(xs, ci) == lower::raw(xs[0], ci) + lower::raw_all(xs.drop_first(), ci),
        xs[0] matches SpecNode::Concat(ys) ==> lower::raw_all(xs, ci) == lower::raw_all(
            ys + xs.drop_first(),
            ci,
        ),
        folding::unfolded(lower::raw_all(xs, ci)),
        folding::unfolded(lower::raw_all(xs.drop_first(), ci)),
{
    let rest = xs.drop_first();
    assert(xs =~= seq![xs[0]] + rest);
    unions::lemma_raw_concat(seq![xs[0]], rest, ci);
    unions::lemma_raw_one(xs[0], ci);
    unions::lemma_raw_all_unfolded(xs, ci);
    unions::lemma_raw_all_unfolded(rest, ci);
    if let SpecNode::Concat(ys) = xs[0] {
        unions::lemma_raw_concat(ys, rest, ci);
    }
}

/// A branch lowered is its nodes lowered.
proof fn lemma_branch_ops(b: SpecNode, ci: bool)
    ensures
        lower::raw(b, ci) == lower::raw_all(distribute::opened(b), ci),
        distribute::weights(distribute::opened(b)) <= distribute::weight(b),
        shut(b) ==> shut_seq(distribute::opened(b)),
        fair(b) ==> fair_seq(distribute::opened(b)),
        all_hollow(distribute::opened(b)) ==> hollow(b),
        folding::unfolded(lower::raw(b, ci)),
{
    let o = distribute::opened(b);
    unions::lemma_raw_all_unfolded(o, ci);
    if !(b is Concat) {
        unions::lemma_raw_one(b, ci);
        distribute::lemma_weights_first(o);
        assert(o.drop_first() =~= Seq::<SpecNode>::empty());
        assert(distribute::weights(o.drop_first()) == 0);
        assert(o[0] == b);
    }
}

/// Splicing a group changes nothing of how a sequence starts.
proof fn lemma_spliced(xs: Seq<SpecNode>)
    requires
        xs.len() > 0,
        xs[0] is Concat,
    ensures
        ({
            let more = xs[0]->Concat_0 + xs.drop_first();
            &&& seq_as_shut(xs, more)
            &&& distribute::weights(more) < distribute::weights(xs)
        }),
{
    let ys = xs[0]->Concat_0;
    let rest = xs.drop_first();
    let more = ys + rest;
    distribute::lemma_weights_first(xs);
    distribute::lemma_weights_concat(ys, rest);
    let m = ys.len() as int;
    assert(forall|k: int| 0 <= k < m ==> #[trigger] more[k] == ys[k]);
    assert(forall|k: int| m <= k < more.len() ==> #[trigger] more[k] == xs[k - m + 1]);
    assert forall|k: int| 0 <= k <= more.len() && first_at(more, k) implies (k <= m ==> first_at(
        ys,
        k,
    )) && (k >= m ==> first_at(xs, k - m + 1)) by {
        assert forall|j: int| 0 <= j < k && j < m implies hollow(#[trigger] ys[j]) by {
            assert(more[j] == ys[j]);
        }
        if k >= m {
            assert(all_hollow(ys));
            assert(hollow(xs[0]));
            assert forall|j: int| 0 <= j < k - m + 1 implies hollow(#[trigger] xs[j]) by {
                if j > 0 {
                    assert(more[m + j - 1] == xs[j]);
                }
            }
        }
    }
    if all_hollow(more) {
        assert(first_at(more, more.len() as int));
        assert forall|k: int| 0 <= k < xs.len() implies hollow(#[trigger] xs[k]) by {
            assert(first_at(xs, more.len() - m + 1));
        }
    }
    assert(first_at(xs, 0));
    if shut_seq(xs) {
        assert(shut(xs[0]));
        assert forall|k: int| 0 <= k < more.len() && first_at(more, k) implies shut(
            #[trigger] more[k],
        ) by {
            if k < m {
                assert(shut(ys[k]));
            } else {
                assert(shut(xs[k - m + 1]));
            }
        }
    }
    if fair_seq(xs) {
        assert(fair(xs[0]));
        assert forall|k: int| 0 < k < more.len() && first_at(more, k) implies shut(
            #[trigger] more[k],
        ) by {
            if k < m {
                assert(shut(ys[k]));
            } else {
                assert(shut(xs[k - m + 1]));
            }
        }
        if more.len() > 0 {
            if m > 0 {
                assert(more[0] == ys[0]);
            } else {
                assert(first_at(more, 0));
                assert(first_at(xs, 1));
                assert(shut(xs[1]));
                lemma_shut_fair(xs[1]);
            }
        }
    }
}

/// Ops that can be skipped come of nodes that can be.
proof fn lemma_skips_hollow(xs: Seq<SpecNode>, ci: bool)
    requires
        starts::skips(lower::raw_all(xs, ci)),
    ensures
        all_hollow(xs),
    decreases distribute::weights(xs), xs.len(),
{
    if xs.len() > 0 {
        let rest = xs.drop_first();
        let r = lower::raw_all(xs, ci);
        lemma_raw_first(xs, ci);
        distribute::lemma_weights_first(xs);
        match xs[0] {
            SpecNode::Concat(ys) => {
                let more = ys + rest;
                lemma_spliced(xs);
                lemma_skips_hollow(more, ci);
            },
            _ => {
                assert(lower::raw(xs[0], ci).len() == 1);
                assert(r[0] == lower::raw(xs[0], ci)[0]);
                assert(starts::skippable(r[0]));
                let rr = lower::raw_all(rest, ci);
                assert forall|k: int| 0 <= k < rr.len() implies starts::skippable(
                    #[trigger] rr[k],
                ) by {
                    assert(r[k + 1] == rr[k]);
                }
                lemma_skips_hollow(rest, ci);
                assert(xs[0] is Brace);
                lemma_brace_hollow(xs[0]->Brace_0, ci);
                assert forall|k: int| 0 <= k < xs.len() implies hollow(#[trigger] xs[k]) by {
                    if k > 0 {
                        assert(rest[k - 1] == xs[k]);
                    }
                }
            },
        }
    }
}

proof fn lemma_brace_hollow(bs: Seq<SpecNode>, ci: bool)
    requires
        starts::some_skips(lower::folded_branches(bs, ci)),
    ensures
        some_hollow(bs),
    decreases distribute::weights(bs), bs.len() + 1,
{
    let branches = lower::folded_branches(bs, ci);
    unions::lemma_folded_branches(bs, ci);
    let i = choose|i: int| 0 <= i < branches.len() && starts::skips(#[trigger] branches[i]);
    let b = bs[i];
    lemma_branch_ops(b, ci);
    distribute::lemma_weight_of(bs, i);
    lemma_folded_skips(lower::raw(b, ci));
    lemma_opened_smaller(bs, i);
    lemma_skips_hollow(distribute::opened(b), ci);
    assert(hollow(bs[i]));
}

/// The nodes of a branch are fewer than the branches, or lie deeper.
proof fn lemma_opened_smaller(bs: Seq<SpecNode>, i: int)
    requires
        0 <= i < bs.len(),
    ensures
        distribute::weights(distribute::opened(bs[i])) < distribute::weights(bs)
            || distribute::opened(bs[i]).len() <= bs.len(),
{
    distribute::lemma_weight_of(bs, i);
}

/// A sequence that is shut has ops that start with no `**`.
proof fn lemma_shut_quiet(xs: Seq<SpecNode>, ci: bool)
    requires
        shut_seq(xs),
    ensures
        starts::quiet(lower::raw_all(xs, ci)),
    decreases distribute::weights(xs), xs.len(),
{
    if xs.len() > 0 {
        let rest = xs.drop_first();
        let r = lower::raw_all(xs, ci);
        lemma_raw_first(xs, ci);
        distribute::lemma_weights_first(xs);
        assert(first_at(xs, 0));
        assert(shut(xs[0]));
        match xs[0] {
            SpecNode::Concat(ys) => {
                lemma_spliced(xs);
                lemma_shut_quiet(ys + rest, ci);
            },
            SpecNode::Brace(bs) => {
                assert(r[0] == SpecOp::Alternation(lower::folded_branches(bs, ci)));
                assert(r.drop_first() =~= lower::raw_all(rest, ci));
                lemma_shut_branches(bs, ci);
                if starts::some_skips(lower::folded_branches(bs, ci)) {
                    lemma_brace_hollow(bs, ci);
                    lemma_shut_rest(xs);
                    lemma_shut_quiet(rest, ci);
                }
            },
            _ => {
                assert(r[0] == lower::raw(xs[0], ci)[0]);
            },
        }
    }
}

proof fn lemma_shut_branches(bs: Seq<SpecNode>, ci: bool)
    requires
        all_shut(bs),
    ensures
        starts::all_sure(lower::folded_branches(bs, ci)),
    decreases distribute::weights(bs), bs.len() + 1,
{
    let branches = lower::folded_branches(bs, ci);
    unions::lemma_folded_branches(bs, ci);
    assert forall|i: int| 0 <= i < branches.len() implies starts::sure(#[trigger] branches[i]) by {
        let b = bs[i];
        assert(shut(b));
        lemma_branch_ops(b, ci);
        lemma_opened_smaller(bs, i);
        distribute::lemma_weight_of(bs, i);
        lemma_shut_quiet(distribute::opened(b), ci);
        starts::lemma_quiet_sure(lower::raw(b, ci));
    }
}

/// Behind a first node that can be skipped the rest is shut.
proof fn lemma_shut_rest(xs: Seq<SpecNode>)
    requires
        xs.len() > 0,
        hollow(xs[0]),
        forall|k: int| 0 < k < xs.len() && first_at(xs, k) ==> shut(#[trigger] xs[k]),
    ensures
        shut_seq(xs.drop_first()),
{
    let rest = xs.drop_first();
    assert forall|k: int| 0 <= k < rest.len() && first_at(rest, k) implies shut(
        #[trigger] rest[k],
    ) by {
        assert forall|j: int| 0 <= j < k + 1 implies hollow(#[trigger] xs[j]) by {
            if j > 0 {
                assert(rest[j - 1] == xs[j]);
            }
        }
        assert(first_at(xs, k + 1));
        assert(shut(xs[k + 1]));
    }
}

/// A fair sequence has a fair program.
proof fn lemma_fair_program(xs: Seq<SpecNode>, ci: bool)
    requires
        fair_seq(xs),
    ensures
        starts::fair(lower::fold(lower::append_all(seq![], lower::raw_all(xs, ci)))),
    decreases distribute::weights(xs), xs.len(),
{
    let r = lower::raw_all(xs, ci);
    let ops = lower::fold(lower::append_all(seq![], r));
    if xs.len() == 0 {
        assert(r.len() == 0);
        assert(lower::append_all(seq![], r).len() == 0);
        assert(ops.len() == 0);
    } else {
        let rest = xs.drop_first();
        lemma_raw_first(xs, ci);
        distribute::lemma_weights_first(xs);
        match xs[0] {
            SpecNode::Concat(ys) => {
                lemma_spliced(xs);
                lemma_fair_program(ys + rest, ci);
            },
            SpecNode::Brace(bs) => {
                let branches = lower::folded_branches(bs, ci);
                assert(r[0] == SpecOp::Alternation(branches));
                assert(r.drop_first() =~= lower::raw_all(rest, ci));
                lemma_program_head(r);
                let tail = lower::fold(lower::append_all(seq![], lower::raw_all(rest, ci)));
                assert(ops[0] == r[0]);
                assert(ops.drop_first() =~= tail);
                lemma_fair_branches(bs, ci);
                if starts::some_skips(branches) {
                    lemma_brace_hollow(bs, ci);
                    lemma_shut_rest(xs);
                    lemma_shut_quiet(rest, ci);
                    starts::lemma_quiet_sure(lower::raw_all(rest, ci));
                }
            },
            _ => {
                assert(r[0] == lower::raw(xs[0], ci)[0]);
                lemma_program_head(r);
            },
        }
    }
}

proof fn lemma_fair_branches(bs: Seq<SpecNode>, ci: bool)
    requires
        all_fair(bs),
    ensures
        starts::all_fair(lower::folded_branches(bs, ci)),
    decreases distribute::weights(bs), bs.len() + 1,
{
    let branches = lower::folded_branches(bs, ci);
    unions::lemma_folded_branches(bs, ci);
    assert forall|i: int| 0 <= i < branches.len() implies starts::fair(#[trigger] branches[i]) by {
        let b = bs[i];
        assert(fair(b));
        lemma_branch_ops(b, ci);
        lemma_opened_smaller(bs, i);
        distribute::lemma_weight_of(bs, i);
        lemma_fair_program(distribute::opened(b), ci);
    }
}

/// The program of a tree that starts fairly has no way to start with a run of
/// segments that absorbs no leading separators.
pub proof fn lemma_fair_sure(n: SpecNode, ci: bool)
    requires
        fair(n),
    ensures
        starts::sure(lower::lowered(n, ci)),
{
    let moved = distribute::spread(n);
    lemma_spread_starts(n);
    cuts::lemma_lowered_spread(n, ci);
    lemma_branch_ops(moved, ci);
    lemma_fair_program(distribute::opened(moved), ci);
    starts::lemma_lead_sure(lower::fold(lower::append_all(seq![], lower::raw(moved, ci))));
}

// Factoring.

/// The nodes of `m` are the first ones of `x`, but for bytes of literals.
spec fn front_of(m: Seq<SpecNode>, x: Seq<SpecNode>) -> bool {
    m.len() <= x.len() && forall|k: int|
        0 <= k < m.len() ==> #[trigger] m[k] == x[k] || (m[k] is Literal && x[k] is Literal)
}

/// What lifting leaves of a sequence is its front.
proof fn lemma_lifted_front(seqs: Seq<Seq<SpecNode>>, i: int)
    requires
        0 <= i < seqs.len(),
    ensures
        factor::lifted(seqs).0.len() == seqs.len(),
        front_of(factor::lifted(seqs).0[i], seqs[i]),
    decreases seqs[0].len(),
{
    let n = factor::edge(seqs[0]);
    if n > 0 && factor::all_end_alike(seqs, n) {
        let short = factor::shorten(seqs, n);
        assert(factor::edge(seqs[i]) == n) by {
            if i > 0 {
                assert(factor::same_ending(seqs[i], seqs[0], n));
            }
        }
        lemma_lifted_front(short, i);
        let left = factor::lifted(short).0[i];
        assert forall|k: int| 0 <= k < left.len() implies #[trigger] left[k] == seqs[i][k] || (
        left[k] is Literal && seqs[i][k] is Literal) by {
            assert(short[i][k] == seqs[i][k]);
        }
    } else if factor::all_end_literal(seqs) && factor::common_back(seqs, 0) > 0 {
        assert(factor::ends_literal(seqs[i]));
    }
}

/// The front of a sequence that starts fairly does so too.
proof fn lemma_front_fair(m: Seq<SpecNode>, x: Seq<SpecNode>)
    requires
        front_of(m, x),
        fair_seq(x),
    ensures
        fair_seq(m),
{
    if m.len() > 0 {
        assert(m[0] == x[0] || m[0] is Literal);
    }
    assert forall|k: int| 0 < k < m.len() && first_at(m, k) implies shut(#[trigger] m[k]) by {
        assert forall|j: int| 0 <= j < k implies hollow(#[trigger] x[j]) by {
            assert(hollow(m[j]));
        }
        assert(first_at(x, k));
    }
}

/// A union of trees that start fairly starts fairly.
pub proof fn lemma_union_fair(bs: Seq<SpecNode>)
    requires
        bs.len() >= 2,
        cuts::proper(bs),
        all_fair(bs),
    ensures
        fair(factor::factored(bs)),
{
    let (start, mids, end) = factor::parts(bs);
    assert forall|k: int| 0 <= k < bs.len() implies unions::fit(
        factor::spelled_out(#[trigger] bs[k]),
    ) by {
        assert(cuts::proper_node(bs[k]));
    }
    unions::lemma_parts_fit(bs);
    if cuts::lifted(bs) {
        let middle = unions::middle(bs);
        let brace = SpecNode::Brace(middle);
        let xs = start + seq![brace] + end;
        assert(factor::factored(bs) == factor::joined(xs));
        if start.len() > 0 {
            assert(factor::leaf(start[0]));
            assert(xs[0] == start[0]);
            assert(!hollow(xs[0]));
            assert(fair(xs[0]));
            assert forall|k: int| 0 < k < xs.len() && first_at(xs, k) implies shut(
                #[trigger] xs[k],
            ) by {
                assert(hollow(xs[0]));
            }
        } else {
            assert(xs[0] == brace);
            assert forall|i: int| 0 <= i < middle.len() implies fair(#[trigger] middle[i]) by {
                lemma_middle_fair(bs, i);
            }
            assert(fair(xs[0]));
            assert forall|k: int| 0 < k < xs.len() && first_at(xs, k) implies shut(
                #[trigger] xs[k],
            ) by {
                assert(xs[k] == end[k - 1]);
                if k > 1 {
                    assert(xs[1] == end[0]);
                    assert(factor::leaf(end[0]));
                    assert(hollow(xs[1]));
                }
                assert(factor::leaf(end[k - 1]));
            }
        }
        assert(fair_seq(xs));
    }
}

/// Where nothing is lifted before it, what is left of a branch starts as the
/// branch does.
proof fn lemma_middle_fair(bs: Seq<SpecNode>, i: int)
    requires
        0 <= i < bs.len(),
        factor::parts(bs).0.len() == 0,
        factor::parts(bs).1.len() == bs.len(),
        fair(bs[i]),
    ensures
        fair(unions::middle(bs)[i]),
{
    let seqs = Seq::new(bs.len(), |k: int| factor::spelled_out(bs[k]));
    let back = factor::mirror_all(seqs);
    let (rest, lead) = factor::lifted(back);
    let fore = factor::mirror_all(rest);
    let (mids, end) = factor::lifted(fore);
    assert(factor::mirrored(lead).len() == lead.len());
    unions::lemma_lifted_nothing(back, 0);
    assert(fore =~= seqs) by {
        assert forall|k: int| 0 <= k < seqs.len() implies fore[k] == seqs[k] by {
            unions::lemma_mirrored_twice(seqs[k]);
        }
    }
    lemma_lifted_front(fore, i);
    let x = seqs[i];
    assert(fair_seq(x)) by {
        if !(bs[i] is Concat) {
            assert(x =~= seq![bs[i]]);
        }
    }
    lemma_front_fair(mids[i], x);
}

} // verus!
