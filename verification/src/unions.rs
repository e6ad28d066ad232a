//! What a union of patterns matches.
//!
//! The members of a union are factored into one tree: what they start or end
//! with in common stands once. Written out byte by byte, a member is still the
//! common start, its own middle and the common end, and no cut between them
//! falls between a `**` and its separators. What follows from that is in
//! [`cuts`](crate::cuts).

use crate::ast::{self, SpecNode};
use crate::engine::lang::{self, Cx};
use crate::engine::literal;
use crate::engine::ops::distribute;
use crate::engine::ops::folding;
use crate::engine::ops::lower;
use crate::engine::ops::prefixes;
use crate::engine::ops::SpecOp;
use crate::factor;
use crate::glob::{self, SpecGlob};
use crate::laws;
use crate::openings;
use crate::options::CompileOptions;
use crate::parser::{self, SequenceContext};
use crate::seps::Seps;
use vstd::prelude::*;

verus! {

/// A node with its literal bytes one by one.
pub open spec fn pieces(n: SpecNode) -> Seq<SpecNode> {
    match n {
        SpecNode::Literal(b) => Seq::new(b.len(), |k: int| SpecNode::Literal(seq![b[k]])),
        _ => seq![n],
    }
}

/// A sequence with its literal bytes one by one.
pub open spec fn exploded(s: Seq<SpecNode>) -> Seq<SpecNode>
    decreases s.len(),
{
    if s.len() == 0 {
        seq![]
    } else {
        exploded(s.drop_last()) + pieces(s.last())
    }
}

pub proof fn lemma_exploded_concat(a: Seq<SpecNode>, b: Seq<SpecNode>)
    ensures
        exploded(a + b) == exploded(a) + exploded(b),
    decreases b.len(),
{
    if b.len() == 0 {
        assert(a + b =~= a);
        assert(exploded(a) + exploded(b) =~= exploded(a));
    } else {
        assert((a + b).drop_last() =~= a + b.drop_last());
        assert((a + b).last() == b.last());
        lemma_exploded_concat(a, b.drop_last());
        assert(exploded(a + b) =~= exploded(a) + exploded(b));
    }
}

pub proof fn lemma_exploded_one(n: SpecNode)
    ensures
        exploded(seq![n]) == pieces(n),
{
    assert(seq![n].drop_last() =~= Seq::<SpecNode>::empty());
    assert(exploded(Seq::<SpecNode>::empty()) + pieces(n) =~= pieces(n));
}

proof fn lemma_mirrored_concat(a: Seq<SpecNode>, b: Seq<SpecNode>)
    ensures
        factor::mirrored(a + b) == factor::mirrored(b) + factor::mirrored(a),
{
    assert(factor::mirrored(a + b) =~= factor::mirrored(b) + factor::mirrored(a));
}

pub proof fn lemma_mirrored_twice(s: Seq<SpecNode>)
    ensures
        factor::mirrored(factor::mirrored(s)) == s,
{
    let t = factor::mirrored(factor::mirrored(s));
    assert forall|k: int| 0 <= k < s.len() implies t[k] == s[k] by {
        if let SpecNode::Literal(b) = s[k] {
            assert(b.reverse().reverse() =~= b);
        }
    }
    assert(t =~= s);
}

/// Reading from right to left and writing bytes one by one commute.
proof fn lemma_mirrored_exploded(s: Seq<SpecNode>)
    ensures
        exploded(factor::mirrored(s)) == factor::mirrored(exploded(s)),
    decreases s.len(),
{
    if s.len() == 0 {
        assert(factor::mirrored(s) =~= s);
        assert(factor::mirrored(exploded(s)) =~= exploded(s));
    } else {
        let head = s.drop_last();
        let last = s.last();
        assert(s =~= head + seq![last]);
        lemma_mirrored_concat(head, seq![last]);
        lemma_mirrored_exploded(head);
        let m = factor::mirrored(seq![last]);
        assert(m =~= seq![factor::mirrored_node(last)]);
        lemma_exploded_one(factor::mirrored_node(last));
        lemma_exploded_concat(m, factor::mirrored(head));
        lemma_mirrored_concat(exploded(head), pieces(last));
        assert(pieces(factor::mirrored_node(last)) =~= factor::mirrored(pieces(last))) by {
            if let SpecNode::Literal(b) = last {
                let x = pieces(SpecNode::Literal(b.reverse()));
                let y = factor::mirrored(pieces(last));
                assert forall|k: int| 0 <= k < b.len() implies x[k] == y[k] by {
                    let one = seq![b[b.len() - 1 - k]];
                    assert(one.reverse() =~= one);
                }
            }
        }
    }
}

/// What lifting leaves and what it lifts, byte by byte, are what there was.
proof fn lemma_lifted_pieces(seqs: Seq<Seq<SpecNode>>, i: int)
    requires
        0 <= i < seqs.len(),
    ensures
        factor::lifted(seqs).0.len() == seqs.len(),
        exploded(seqs[i]) == exploded(factor::lifted(seqs).0[i]) + exploded(
            factor::lifted(seqs).1,
        ),
    decreases seqs[0].len(),
{
    let n = factor::edge(seqs[0]);
    if n > 0 && factor::all_end_alike(seqs, n) {
        let short = factor::shorten(seqs, n);
        assert(short[0].len() < seqs[0].len());
        lemma_lifted_pieces(short, i);
        let (left, end) = factor::lifted(short);
        if i > 0 {
            assert(factor::same_ending(seqs[i], seqs[0], n));
        }
        let e = factor::ending(seqs[0], n);
        assert(seqs[i] =~= short[i] + e) by {
            assert(factor::ending(seqs[i], n) == e);
            assert(seqs[i] =~= seqs[i].take(seqs[i].len() - n) + factor::ending(seqs[i], n));
        }
        lemma_exploded_concat(short[i], e);
        lemma_exploded_concat(end, e);
        assert(exploded(seqs[i]) =~= exploded(left[i]) + exploded(end + e));
    } else if factor::all_end_literal(seqs) && factor::common_back(seqs, 0) > 0 {
        factor::lemma_common_back(seqs, 0);
        let c = factor::common_back(seqs, 0);
        let s = seqs[i];
        assert(factor::ends_literal(s));
        assert(factor::ends_literal(seqs[0]));
        let b = factor::last_bytes(s);
        let first = factor::last_bytes(seqs[0]);
        let tail = first.skip(first.len() - c);
        assert forall|k: int| 0 <= k < c implies b[b.len() - c + k] == tail[k] by {
            assert(factor::all_bytes_back(seqs, c - 1 - k));
            assert(factor::same_byte_back(seqs[i], seqs[0], c - 1 - k));
        }
        let lit = SpecNode::Literal(tail);
        lemma_exploded_one(lit);
        let head = s.drop_last();
        let cut = b.take(b.len() - c);
        assert(pieces(SpecNode::Literal(b)) =~= pieces(SpecNode::Literal(cut)) + pieces(lit));
        let t = factor::trimmed(s, c);
        if b.len() == c {
            assert(pieces(SpecNode::Literal(cut)) =~= Seq::<SpecNode>::empty());
            assert(exploded(s) =~= exploded(t) + pieces(lit));
        } else {
            assert(t.drop_last() =~= head);
            assert(exploded(s) =~= exploded(t) + pieces(lit));
        }
    } else {
        assert(exploded(seqs[i]) + exploded(Seq::<SpecNode>::empty()) =~= exploded(seqs[i]));
    }
}

/// A member, byte by byte, is the common start, its own middle and the common
/// end.
pub proof fn lemma_parts_pieces(bs: Seq<SpecNode>, i: int)
    requires
        0 <= i < bs.len(),
    ensures
        factor::parts(bs).1.len() == bs.len(),
        exploded(factor::spelled_out(bs[i])) == exploded(factor::parts(bs).0) + exploded(
            factor::parts(bs).1[i],
        ) + exploded(factor::parts(bs).2),
{
    let seqs = Seq::new(bs.len(), |k: int| factor::spelled_out(bs[k]));
    let back = factor::mirror_all(seqs);
    let (rest, start) = factor::lifted(back);
    let fore = factor::mirror_all(rest);
    let (mids, end) = factor::lifted(fore);
    lemma_lifted_pieces(back, i);
    lemma_lifted_pieces(fore, i);
    let s = seqs[i];
    let r = rest[i];
    lemma_mirrored_exploded(s);
    lemma_mirrored_exploded(start);
    lemma_mirrored_exploded(r);
    lemma_mirrored_twice(exploded(s));
    lemma_mirrored_concat(exploded(r), exploded(start));
    assert(exploded(s) =~= exploded(factor::mirrored(start)) + exploded(factor::mirrored(r)));
    assert(fore[i] == factor::mirrored(r));
    assert(exploded(s) =~= exploded(factor::mirrored(start)) + exploded(mids[i]) + exploded(end));
}

// Where the cuts fall.

/// No `**` is followed by a separator and another `**`.
pub open spec fn spaced(s: Seq<SpecNode>) -> bool {
    forall|k: int| #[trigger] spaced_at(s, k)
}

pub open spec fn spaced_at(s: Seq<SpecNode>, k: int) -> bool {
    !(0 <= k && k + 2 < s.len() && s[k] is Globstar && s[k + 1] is Separator && s[k
        + 2] is Globstar)
}

/// The cut between `a` and `b` does not fall between a `**` and a separator.
pub open spec fn clean(a: Seq<SpecNode>, b: Seq<SpecNode>) -> bool {
    a.len() > 0 && b.len() > 0 ==> !(a.last() is Globstar && b[0] is Separator) && !(
    a.last() is Separator && b[0] is Globstar)
}

pub proof fn lemma_spaced_take(s: Seq<SpecNode>, n: int)
    requires
        spaced(s),
        0 <= n <= s.len(),
    ensures
        spaced(s.take(n)),
{
    assert forall|k: int| #[trigger] spaced_at(s.take(n), k) by {
        assert(spaced_at(s, k));
    }
}

proof fn lemma_lifted_clean(seqs: Seq<Seq<SpecNode>>, i: int)
    requires
        0 <= i < seqs.len(),
        forall|k: int| 0 <= k < seqs.len() ==> spaced(#[trigger] seqs[k]),
    ensures
        factor::lifted(seqs).0.len() == seqs.len(),
        clean(factor::lifted(seqs).0[i], factor::lifted(seqs).1),
        spaced(factor::lifted(seqs).0[i]),
    decreases seqs[0].len(),
{
    let n = factor::edge(seqs[0]);
    assert(spaced(seqs[i]));
    if n > 0 && factor::all_end_alike(seqs, n) {
        let short = factor::shorten(seqs, n);
        assert(short[0].len() < seqs[0].len());
        if i > 0 {
            assert(factor::same_ending(seqs[i], seqs[0], n));
        }
        assert forall|k: int| 0 <= k < short.len() implies spaced(#[trigger] short[k]) by {
            if k > 0 {
                assert(factor::same_ending(seqs[k], seqs[0], n));
            }
            assert(spaced(seqs[k]));
            lemma_spaced_take(seqs[k], seqs[k].len() - n);
        }
        lemma_lifted_clean(short, i);
        let (left, end) = factor::lifted(short);
        let e = factor::ending(seqs[0], n);
        let s = seqs[i];
        assert(factor::edge(s) == n);
        assert(factor::ending(s, n) == e);
        if end.len() == 0 {
            assert(end + e =~= e);
            lemma_lifted_nothing(short, i);
            let m = s.len() - n;
            assert(e[0] == s[m]);
            if m > 0 {
                assert(short[i].last() == s[m - 1]);
                assert(spaced_at(s, m - 1));
            }
        } else {
            assert((end + e)[0] == end[0]);
        }
    } else if factor::all_end_literal(seqs) && factor::common_back(seqs, 0) > 0 {
        factor::lemma_common_back(seqs, 0);
        let c = factor::common_back(seqs, 0);
        let s = seqs[i];
        let t = factor::trimmed(s, c);
        assert(factor::ends_literal(s));
        assert forall|k: int| #[trigger] spaced_at(t, k) by {
            assert(spaced_at(s, k));
        }
    }
}

/// Where nothing is lifted, everything is left.
pub proof fn lemma_lifted_nothing(seqs: Seq<Seq<SpecNode>>, i: int)
    requires
        0 <= i < seqs.len(),
        factor::lifted(seqs).1.len() == 0,
    ensures
        factor::lifted(seqs).0 == seqs,
{
    let n = factor::edge(seqs[0]);
    if n > 0 && factor::all_end_alike(seqs, n) {
        let (left, end) = factor::lifted(factor::shorten(seqs, n));
        assert((end + factor::ending(seqs[0], n)).len() > 0);
    }
}

/// The first and the last node are of the same kind when bytes are written one
/// by one.
pub proof fn lemma_exploded_ends(s: Seq<SpecNode>)
    requires
        ast::all_sound(s),
    ensures
        exploded(s).len() > 0 <==> s.len() > 0,
        s.len() > 0 ==> {
            let t = exploded(s);
            &&& t[0] is Globstar <==> s[0] is Globstar
            &&& t[0] is Separator <==> s[0] is Separator
            &&& t[0] is Literal <==> s[0] is Literal
            &&& t[0] is Concat <==> s[0] is Concat
            &&& t.last() is Globstar <==> s.last() is Globstar
            &&& t.last() is Separator <==> s.last() is Separator
            &&& t.last() is Literal <==> s.last() is Literal
            &&& t.last() is Concat <==> s.last() is Concat
        },
    decreases s.len(),
{
    if s.len() > 0 {
        let head = s.drop_last();
        let last = s.last();
        assert(ast::sound(s[s.len() - 1]));
        assert(pieces(last).len() > 0);
        assert(exploded(s).last() == pieces(last).last());
        assert(ast::all_sound(head)) by {
            assert forall|k: int| 0 <= k < head.len() implies ast::sound(#[trigger] head[k]) by {
                assert(head[k] == s[k]);
            }
        }
        lemma_exploded_ends(head);
        if head.len() > 0 {
            assert(exploded(s)[0] == exploded(head)[0]);
            assert(s[0] == head[0]);
        } else {
            assert(exploded(head).len() == 0);
            assert(exploded(s)[0] == pieces(last)[0]);
        }
    }
}

/// Next to a group of nodes that stands for itself stand literals.
pub open spec fn sheltered(s: Seq<SpecNode>) -> bool {
    forall|k: int| #[trigger] sheltered_at(s, k)
}

pub open spec fn sheltered_at(s: Seq<SpecNode>, k: int) -> bool {
    0 <= k && k + 1 < s.len() ==> (s[k] is Concat ==> s[k + 1] is Literal) && (s[k + 1] is Concat
        ==> s[k] is Literal)
}

pub proof fn lemma_exploded_sheltered(s: Seq<SpecNode>)
    requires
        ast::all_sound(s),
        sheltered(s),
    ensures
        sheltered(exploded(s)),
    decreases s.len(),
{
    if s.len() > 0 {
        let head = s.drop_last();
        let last = s.last();
        assert(ast::sound(s[s.len() - 1]));
        assert(ast::all_sound(head)) by {
            assert forall|k: int| 0 <= k < head.len() implies ast::sound(#[trigger] head[k]) by {
                assert(head[k] == s[k]);
            }
        }
        assert forall|k: int| #[trigger] sheltered_at(head, k) by {
            assert(sheltered_at(s, k));
        }
        lemma_exploded_sheltered(head);
        lemma_exploded_ends(head);
        let t = exploded(head);
        let p = pieces(last);
        assert forall|k: int| #[trigger] sheltered_at(exploded(s), k) by {
            if 0 <= k && k + 1 < exploded(s).len() {
                if k + 1 < t.len() {
                    assert(sheltered_at(t, k));
                } else if k + 1 == t.len() {
                    assert(sheltered_at(s, head.len() - 1));
                    assert(exploded(s)[k] == t.last());
                    assert(exploded(s)[k + 1] == p[0]);
                } else {
                    assert(exploded(s)[k] == p[k - t.len()]);
                    assert(exploded(s)[k + 1] == p[k + 1 - t.len()]);
                }
            }
        }
    }
}

// From nodes to ops.

pub proof fn lemma_raw_concat(a: Seq<SpecNode>, b: Seq<SpecNode>, ci: bool)
    ensures
        lower::raw_all(a + b, ci) == lower::raw_all(a, ci) + lower::raw_all(b, ci),
    decreases b.len(),
{
    if b.len() == 0 {
        assert(a + b =~= a);
        assert(lower::raw_all(a, ci) + lower::raw_all(b, ci) =~= lower::raw_all(a, ci));
    } else {
        assert((a + b).drop_last() =~= a + b.drop_last());
        assert((a + b).last() == b.last());
        lemma_raw_concat(a, b.drop_last(), ci);
        assert(lower::raw_all(a + b, ci) =~= lower::raw_all(a, ci) + lower::raw_all(b, ci));
    }
}

pub proof fn lemma_raw_one(n: SpecNode, ci: bool)
    ensures
        lower::raw_all(seq![n], ci) == lower::raw(n, ci),
{
    assert(seq![n].drop_last() =~= Seq::<SpecNode>::empty());
    assert(lower::raw_all(Seq::<SpecNode>::empty(), ci) + lower::raw(n, ci) =~= lower::raw(n, ci));
}

proof fn lemma_raw_unfolded(n: SpecNode, ci: bool)
    ensures
        folding::unfolded(lower::raw(n, ci)),
    decreases n, 0nat,
{
    if let SpecNode::Concat(xs) = n {
        lemma_raw_all_unfolded(xs, ci);
    }
}

pub proof fn lemma_raw_all_unfolded(xs: Seq<SpecNode>, ci: bool)
    ensures
        folding::unfolded(lower::raw_all(xs, ci)),
    decreases xs, xs.len(),
{
    if xs.len() > 0 {
        lemma_raw_all_unfolded(xs.drop_last(), ci);
        lemma_raw_unfolded(xs.last(), ci);
        let a = lower::raw_all(xs.drop_last(), ci);
        let b = lower::raw(xs.last(), ci);
        assert forall|k: int| 0 <= k < (a + b).len() implies !(
        #[trigger] (a + b)[k] is OptSegmentsSlash) by {
            if k < a.len() {
                assert((a + b)[k] == a[k]);
            } else {
                assert((a + b)[k] == b[k - a.len()]);
            }
        }
    }
}

/// A clean cut between nodes is a clean cut between their ops.
pub proof fn lemma_raw_clean(a: Seq<SpecNode>, b: Seq<SpecNode>, ci: bool)
    requires
        clean(a, b),
        a.len() > 0 && b.len() > 0 ==> (a.last() is Concat ==> b[0] is Literal) && (
        b[0] is Concat ==> a.last() is Literal),
    ensures
        folding::clean(lower::raw_all(a, ci), lower::raw_all(b, ci)),
{
    if a.len() > 0 && b.len() > 0 {
        let la = a.last();
        let fb = b[0];
        assert(b =~= seq![fb] + b.skip(1));
        lemma_raw_concat(seq![fb], b.skip(1), ci);
        lemma_raw_one(fb, ci);
        if !(la is Concat) {
            assert(lower::raw(la, ci).len() == 1);
            assert(lower::raw_all(a, ci).last() == lower::raw(la, ci)[0]);
        }
        if !(fb is Concat) {
            assert(lower::raw(fb, ci).len() == 1);
            assert(lower::raw_all(b, ci)[0] == lower::raw(fb, ci)[0]);
        }
    } else if a.len() == 0 {
        assert(lower::raw_all(a, ci).len() == 0);
    } else {
        assert(lower::raw_all(b, ci).len() == 0);
    }
}

/// The ops of a sequence, folded.
pub open spec fn program(s: Seq<SpecNode>, ci: bool) -> Seq<SpecOp> {
    lower::fold(lower::raw_all(s, ci))
}

/// A literal matches what its bytes match one after the other.
proof fn lemma_lit_pieces(b: Seq<u8>, ci: bool, cx: Cx, s: Seq<u8>)
    requires
        b.len() > 0,
    ensures
        folding::alike(
            seq![SpecOp::Lit(b)],
            lower::raw_all(pieces(SpecNode::Literal(b)), ci),
            cx,
            s,
        ),
        lower::raw_all(pieces(SpecNode::Literal(b)), ci).len() == b.len(),
        forall|k: int|
            0 <= k < b.len() ==> folding::still(
                #[trigger] lower::raw_all(pieces(SpecNode::Literal(b)), ci)[k],
            ),
    decreases b.len(),
{
    let ps = pieces(SpecNode::Literal(b));
    let ops = lower::raw_all(ps, ci);
    let one = SpecNode::Literal(seq![b.last()]);
    let last = seq![SpecOp::Lit(seq![b.last()])];
    if b.len() == 1 {
        assert(ps =~= seq![one]);
        assert(b =~= seq![b.last()]);
        lemma_raw_one(one, ci);
        assert(ops =~= seq![SpecOp::Lit(b)]);
        folding::lemma_alike_self(ops, cx, s);
    } else {
        let head = b.drop_last();
        lemma_lit_pieces(head, ci, cx, s);
        let front = pieces(SpecNode::Literal(head));
        assert(ps =~= front + seq![one]);
        lemma_raw_concat(front, seq![one], ci);
        lemma_raw_one(one, ci);
        assert(ops =~= lower::raw_all(front, ci) + last);
        assert(b =~= head + seq![b.last()]);
        let two = seq![SpecOp::Lit(head)] + last;
        assert(two =~= seq![SpecOp::Lit(head), SpecOp::Lit(seq![b.last()])]);
        assert forall|i: int, j: int| #[trigger]
            folding::alike_at(seq![SpecOp::Lit(b)], two, cx, s, i, j) by {
            crate::engine::segment::elems::lemma_lit_pair(head, seq![b.last()], cx, s, i, j);
        }
        folding::lemma_alike_self(last, cx, s);
        folding::lemma_alike_concat(
            seq![SpecOp::Lit(head)],
            lower::raw_all(front, ci),
            last,
            last,
            cx,
            s,
        );
        folding::lemma_alike_trans(seq![SpecOp::Lit(b)], two, ops, cx, s);
        assert forall|k: int| 0 <= k < b.len() implies folding::still(#[trigger] ops[k]) by {
            if k < head.len() {
                assert(ops[k] == lower::raw_all(front, ci)[k]);
            }
        }
    }
}

/// Writing bytes one by one changes nothing of what is matched.
proof fn lemma_exploded_program(
    x: Seq<SpecNode>,
    tail: Seq<SpecOp>,
    ci: bool,
    cx: Cx,
    s: Seq<u8>,
)
    requires
        ast::all_sound(x),
        folding::unfolded(tail),
    ensures
        folding::alike(
            lower::fold(lower::raw_all(x, ci) + tail),
            lower::fold(lower::raw_all(exploded(x), ci) + tail),
            cx,
            s,
        ),
    decreases x.len(),
{
    if x.len() == 0 {
        folding::lemma_alike_self(lower::fold(lower::raw_all(x, ci) + tail), cx, s);
    } else {
        let head = x.drop_last();
        let last = x.last();
        assert(ast::sound(x[x.len() - 1]));
        assert(ast::all_sound(head)) by {
            assert forall|k: int| 0 <= k < head.len() implies ast::sound(#[trigger] head[k]) by {
                assert(head[k] == x[k]);
            }
        }
        let op = lower::raw(last, ci);
        let rest = op + tail;
        lemma_raw_unfolded(last, ci);
        assert(folding::unfolded(rest)) by {
            assert forall|k: int| 0 <= k < rest.len() implies !(
            #[trigger] rest[k] is OptSegmentsSlash) by {
                if k < op.len() {
                    assert(rest[k] == op[k]);
                } else {
                    assert(rest[k] == tail[k - op.len()]);
                }
            }
        }
        lemma_exploded_program(head, rest, ci, cx, s);
        let front = lower::raw_all(exploded(head), ci);
        let ps = lower::raw_all(pieces(last), ci);
        lemma_raw_concat(exploded(head), pieces(last), ci);
        assert(lower::raw_all(x, ci) + tail =~= lower::raw_all(head, ci) + rest);
        assert(lower::raw_all(exploded(x), ci) + tail =~= front + ps + tail);
        assert(front + rest =~= front + op + tail);
        assert(folding::alike(
            lower::fold(front + op + tail),
            lower::fold(front + ps + tail),
            cx,
            s,
        )) by {
            if let SpecNode::Literal(b) = last {
                lemma_lit_pieces(b, ci, cx, s);
                folding::lemma_replace(front, op, ps, tail, cx, s);
            } else {
                lemma_raw_one(last, ci);
                assert(pieces(last) =~= seq![last]);
                folding::lemma_alike_self(lower::fold(front + op + tail), cx, s);
            }
        }
        folding::lemma_alike_trans(
            lower::fold(lower::raw_all(x, ci) + tail),
            lower::fold(front + op + tail),
            lower::fold(front + ps + tail),
            cx,
            s,
        );
    }
}

// Braces without a `**`.

/// No brace in the node holds a `**`.
pub open spec fn calm(n: SpecNode) -> bool
    decreases n, 0int,
{
    match n {
        SpecNode::Concat(xs) => all_calm(xs),
        SpecNode::Brace(bs) => !ast::some_mentions_globstar(bs),
        _ => true,
    }
}

pub open spec fn all_calm(xs: Seq<SpecNode>) -> bool
    decreases xs, 1int,
{
    forall|i: int| 0 <= i < xs.len() ==> calm(#[trigger] xs[i])
}

pub proof fn lemma_leads_mentions(n: SpecNode)
    ensures
        distribute::leads(n) || distribute::trails(n) ==> ast::mentions_globstar(n),
    decreases n,
{
    match n {
        SpecNode::Concat(xs) => {
            if xs.len() > 0 {
                lemma_leads_mentions(xs[0]);
                lemma_leads_mentions(xs[xs.len() - 1]);
            }
        },
        SpecNode::Brace(bs) => {
            if distribute::some_leads(bs) {
                let i = choose|i: int| 0 <= i < bs.len() && distribute::leads(#[trigger] bs[i]);
                lemma_leads_mentions(bs[i]);
            }
            if distribute::some_trails(bs) {
                let i = choose|i: int| 0 <= i < bs.len() && distribute::trails(#[trigger] bs[i]);
                lemma_leads_mentions(bs[i]);
            }
        },
        _ => {},
    }
}

pub proof fn lemma_no_mention_calm(n: SpecNode)
    requires
        !ast::mentions_globstar(n),
    ensures
        calm(n),
    decreases n,
{
    if let SpecNode::Concat(xs) = n {
        assert forall|i: int| 0 <= i < xs.len() implies calm(#[trigger] xs[i]) by {
            assert(!ast::mentions_globstar(xs[i]));
            lemma_no_mention_calm(xs[i]);
        }
    }
}

pub proof fn lemma_calm_uncrowded(n: SpecNode)
    requires
        calm(n),
    ensures
        !distribute::crowded(n),
    decreases n,
{
    match n {
        SpecNode::Concat(xs) => {
            assert forall|i: int| 0 <= i < xs.len() implies !#[trigger] distribute::crowded_at(
                xs,
                i,
            ) by {
                assert(calm(xs[i]));
                if let SpecNode::Brace(bs) = xs[i] {
                    lemma_leads_mentions(xs[i]);
                }
            }
            assert forall|i: int| 0 <= i < xs.len() implies !distribute::crowded(
                #[trigger] xs[i],
            ) by {
                assert(calm(xs[i]));
                lemma_calm_uncrowded(xs[i]);
            }
        },
        SpecNode::Brace(bs) => {
            assert forall|i: int| 0 <= i < bs.len() implies !distribute::crowded(
                #[trigger] bs[i],
            ) by {
                assert(!ast::mentions_globstar(bs[i]));
                lemma_no_mention_calm(bs[i]);
                lemma_calm_uncrowded(bs[i]);
            }
        },
        _ => {},
    }
}

/// What is lifted are leaves.
proof fn lemma_lifted_leaves(seqs: Seq<Seq<SpecNode>>)
    requires
        seqs.len() >= 2,
    ensures
        factor::lifted(seqs).0.len() == seqs.len(),
        forall|k: int|
            0 <= k < factor::lifted(seqs).1.len() ==> factor::leaf(
                #[trigger] factor::lifted(seqs).1[k],
            ),
    decreases seqs[0].len(),
{
    let n = factor::edge(seqs[0]);
    if n > 0 && factor::all_end_alike(seqs, n) {
        let short = factor::shorten(seqs, n);
        assert(short[0].len() < seqs[0].len());
        lemma_lifted_leaves(short);
        let (left, end) = factor::lifted(short);
        let e = factor::ending(seqs[0], n);
        assert(factor::same_ending(seqs[1], seqs[0], n));
        assert forall|k: int| 0 <= k < (end + e).len() implies factor::leaf(
            #[trigger] (end + e)[k],
        ) by {
            if k < end.len() {
                assert((end + e)[k] == end[k]);
            } else {
                assert((end + e)[k] == e[k - end.len()]);
            }
        }
    }
}

/// What the parser gives, node by node.
pub open spec fn fit(s: Seq<SpecNode>) -> bool {
    ast::all_sound(s) && spaced(s) && sheltered(s)
}

proof fn lemma_mirrored_ok(s: Seq<SpecNode>)
    ensures
        spaced(s) ==> spaced(factor::mirrored(s)),
{
    let m = factor::mirrored(s);
    if spaced(s) {
        assert forall|k: int| #[trigger] spaced_at(m, k) by {
            assert(spaced_at(s, s.len() - 3 - k));
        }
    }
}

/// What the parts of a union are like.
pub proof fn lemma_parts_fit(bs: Seq<SpecNode>)
    requires
        bs.len() >= 2,
        forall|k: int| 0 <= k < bs.len() ==> fit(factor::spelled_out(#[trigger] bs[k])),
    ensures
        ({
            let (start, mids, end) = factor::parts(bs);
            &&& mids.len() == bs.len()
            &&& ast::all_sound(start)
            &&& ast::all_sound(end)
            &&& forall|k: int| 0 <= k < start.len() ==> factor::leaf(#[trigger] start[k])
            &&& forall|k: int| 0 <= k < end.len() ==> factor::leaf(#[trigger] end[k])
            &&& forall|k: int| 0 <= k < mids.len() ==> ast::all_sound(#[trigger] mids[k])
            &&& forall|k: int|
                0 <= k < mids.len() ==> clean(exploded(#[trigger] mids[k]), exploded(end))
            &&& forall|k: int|
                0 <= k < mids.len() ==> clean(
                    exploded(start),
                    exploded(#[trigger] mids[k]) + exploded(end),
                )
        }),
{
    let seqs = Seq::new(bs.len(), |k: int| factor::spelled_out(bs[k]));
    let back = factor::mirror_all(seqs);
    let (rest, lead) = factor::lifted(back);
    let fore = factor::mirror_all(rest);
    let (mids, end) = factor::lifted(fore);
    let start = factor::mirrored(lead);
    assert forall|k: int| 0 <= k < seqs.len() implies ast::all_sound(#[trigger] seqs[k])
        && spaced(seqs[k]) by {
        assert(fit(factor::spelled_out(bs[k])));
    }
    assert(factor::all_sound_seqs(seqs));
    factor::lemma_mirror_sound(seqs);
    factor::lemma_lifted_sound(back);
    factor::lemma_mirror_sound(rest);
    factor::lemma_lifted_sound(fore);
    factor::lemma_mirrored_sound(lead);
    assert forall|k: int| 0 <= k < back.len() implies spaced(#[trigger] back[k]) by {
        assert(spaced(seqs[k]));
        lemma_mirrored_ok(seqs[k]);
    }
    lemma_lifted_leaves(back);
    assert forall|k: int| 0 <= k < rest.len() implies spaced(#[trigger] rest[k]) && clean(
        rest[k],
        lead,
    ) by {
        lemma_lifted_clean(back, k);
    }
    assert forall|k: int| 0 <= k < fore.len() implies spaced(#[trigger] fore[k]) by {
        assert(spaced(rest[k]));
        lemma_mirrored_ok(rest[k]);
    }
    lemma_lifted_leaves(fore);
    assert forall|k: int| 0 <= k < start.len() implies factor::leaf(#[trigger] start[k]) by {
        assert(factor::leaf(lead[lead.len() - 1 - k]));
    }
    lemma_exploded_ends(start);
    lemma_exploded_ends(end);
    assert forall|k: int| 0 <= k < mids.len() implies ast::all_sound(#[trigger] mids[k])
        && clean(exploded(mids[k]), exploded(end)) && clean(
        exploded(start),
        exploded(mids[k]) + exploded(end),
    ) by {
        assert(ast::all_sound(mids[k]));
        lemma_lifted_clean(fore, k);
        lemma_exploded_ends(mids[k]);
        lemma_lifted_pieces(fore, k);
        assert(ast::all_sound(fore[k]));
        lemma_exploded_ends(fore[k]);
        assert(spaced(rest[k]) && clean(rest[k], lead));
        assert(fore[k] == factor::mirrored(rest[k]));
        assert(exploded(fore[k]) == exploded(mids[k]) + exploded(end));
        if start.len() > 0 && fore[k].len() > 0 {
            assert(start.last() == factor::mirrored_node(lead[0]));
            assert(fore[k][0] == factor::mirrored_node(rest[k].last()));
        }
    }
}

/// Merging, and writing bytes one by one, change nothing of what is matched.
pub proof fn lemma_merged_program(x: Seq<SpecNode>, ci: bool, cx: Cx, s: Seq<u8>)
    requires
        ast::all_sound(x),
    ensures
        folding::alike(
            lower::fold(lower::append_all(seq![], lower::raw_all(x, ci))),
            program(exploded(x), ci),
            cx,
            s,
        ),
{
    let none = Seq::<SpecOp>::empty();
    let raw = lower::raw_all(x, ci);
    let merged = lower::append_all(none, raw);
    let flat = lower::raw_all(exploded(x), ci);
    lemma_raw_all_unfolded(x, ci);
    folding::lemma_merge_fold(none, raw, none, cx, s);
    assert(merged + none =~= merged);
    assert(none + raw + none =~= raw);
    lemma_exploded_program(x, none, ci, cx, s);
    assert(raw + none =~= raw);
    assert(flat + none =~= flat);
    folding::lemma_alike_trans(lower::fold(merged), lower::fold(raw), lower::fold(flat), cx, s);
}

pub proof fn lemma_folded_branches(bs: Seq<SpecNode>, ci: bool)
    ensures
        lower::folded_branches(bs, ci).len() == bs.len(),
        forall|k: int|
            0 <= k < bs.len() ==> #[trigger] lower::folded_branches(bs, ci)[k] == lower::fold(
                lower::append_all(seq![], lower::raw(bs[k], ci)),
            ),
    decreases bs.len(),
{
    if bs.len() > 0 {
        lemma_folded_branches(bs.drop_last(), ci);
        let front = lower::folded_branches(bs.drop_last(), ci);
        let all = lower::folded_branches(bs, ci);
        assert forall|k: int| 0 <= k < bs.len() implies #[trigger] all[k] == lower::fold(
            lower::append_all(seq![], lower::raw(bs[k], ci)),
        ) by {
            if k < front.len() {
                assert(all[k] == front[k]);
                assert(bs.drop_last()[k] == bs[k]);
            }
        }
    }
}

/// The branches of the brace in the middle of a union.
pub open spec fn middle(bs: Seq<SpecNode>) -> Seq<SpecNode> {
    factor::middle_of(factor::parts(bs).1)
}

/// The nodes of the tree of a union.
pub open spec fn nodes(bs: Seq<SpecNode>) -> Seq<SpecNode> {
    let (start, mids, end) = factor::parts(bs);
    start + seq![SpecNode::Brace(middle(bs))] + end
}

pub proof fn lemma_program_pieces(x: Seq<SpecNode>, ci: bool, cx: Cx, s: Seq<u8>)
    requires
        ast::all_sound(x),
    ensures
        folding::alike(program(x, ci), program(exploded(x), ci), cx, s),
{
    let none = Seq::<SpecOp>::empty();
    lemma_exploded_program(x, none, ci, cx, s);
    assert(lower::raw_all(x, ci) + none =~= lower::raw_all(x, ci));
    assert(lower::raw_all(exploded(x), ci) + none =~= lower::raw_all(exploded(x), ci));
}

// Paths that start with a separator.

pub proof fn lemma_exploded_first(s: Seq<SpecNode>)
    requires
        s.len() > 0,
    ensures
        exploded(s) == pieces(s[0]) + exploded(s.skip(1)),
{
    assert(s =~= seq![s[0]] + s.skip(1));
    lemma_exploded_concat(seq![s[0]], s.skip(1));
    lemma_exploded_one(s[0]);
}

/// How the ops of a sequence start.
pub proof fn lemma_raw_heads(x: Seq<SpecNode>, ci: bool)
    requires
        x.len() > 0,
        !(x[0] is Concat),
        sheltered(x),
    ensures
        ({
            let r = lower::raw_all(x, ci);
            &&& r.len() > 0
            &&& r[0] == lower::raw(x[0], ci)[0]
            &&& folding::opens(r) <==> x.len() > 1 && x[0] is Globstar && x[1] is Separator
            &&& spaced_at(x, 0) ==> folding::opens_once(r)
        }),
{
    let r = lower::raw_all(x, ci);
    let rest = x.skip(1);
    assert(x =~= seq![x[0]] + rest);
    lemma_raw_concat(seq![x[0]], rest, ci);
    lemma_raw_one(x[0], ci);
    assert(lower::raw(x[0], ci).len() == 1);
    if x[0] is Globstar {
        if x.len() > 1 {
            assert(sheltered_at(x, 0));
            let rest2 = rest.skip(1);
            assert(rest[0] == x[1]);
            assert(rest =~= seq![rest[0]] + rest2);
            lemma_raw_concat(seq![rest[0]], rest2, ci);
            lemma_raw_one(rest[0], ci);
            assert(lower::raw(rest[0], ci).len() == 1);
            assert(r[1] == lower::raw(x[1], ci)[0]);
            if x[1] is Separator {
                if x.len() > 2 {
                    assert(sheltered_at(x, 1));
                    assert(rest2[0] == x[2]);
                    assert(rest2 =~= seq![rest2[0]] + rest2.skip(1));
                    lemma_raw_concat(seq![rest2[0]], rest2.skip(1), ci);
                    lemma_raw_one(rest2[0], ci);
                    assert(lower::raw(rest2[0], ci).len() == 1);
                    assert(r[2] == lower::raw(x[2], ci)[0]);
                } else {
                    assert(lower::raw_all(rest2, ci).len() == 0);
                    assert(r.len() == 2);
                }
            }
        } else {
            assert(lower::raw_all(rest, ci).len() == 0);
        }
    }
}

/// Writing bytes one by one changes nothing, with leading separators absorbed.
pub proof fn lemma_exploded_lead(x: Seq<SpecNode>, ci: bool, cx: Cx, s: Seq<u8>)
    requires
        ast::all_sound(x),
        sheltered(x),
        spaced(x),
        x.len() > 0 ==> !(x[0] is Concat),
    ensures
        folding::alike(
            lower::lead(program(x, ci)),
            lower::lead(program(exploded(x), ci)),
            cx,
            s,
        ),
        folding::opens_once(lower::raw_all(x, ci)),
{
    let e = exploded(x);
    let r = lower::raw_all(x, ci);
    let q = lower::raw_all(e, ci);
    lemma_program_pieces(x, ci, cx, s);
    if x.len() == 0 {
        assert(e =~= x);
        folding::lemma_alike_self(lower::lead(program(x, ci)), cx, s);
    } else {
        let rest = x.skip(1);
        lemma_exploded_first(x);
        lemma_exploded_ends(x);
        lemma_exploded_sheltered(x);
        assert(ast::all_sound(rest)) by {
            assert forall|k: int| 0 <= k < rest.len() implies ast::sound(#[trigger] rest[k]) by {
                assert(rest[k] == x[k + 1]);
            }
        }
        lemma_exploded_ends(rest);
        assert(spaced_at(x, 0));
        lemma_raw_heads(x, ci);
        lemma_raw_all_unfolded(x, ci);
        lemma_raw_all_unfolded(e, ci);
        assert(spaced_at(e, 0)) by {
            if e.len() > 2 && e[0] is Globstar && e[1] is Separator {
                assert(e =~= seq![x[0]] + exploded(rest));
                assert(e[1] == exploded(rest)[0]);
                lemma_exploded_first(rest);
                assert(rest[0] == x[1]);
                assert(exploded(rest) =~= seq![rest[0]] + exploded(rest.skip(1)));
                let rest2 = rest.skip(1);
                assert(ast::all_sound(rest2)) by {
                    assert forall|k: int| 0 <= k < rest2.len() implies ast::sound(
                        #[trigger] rest2[k],
                    ) by {
                        assert(rest2[k] == x[k + 2]);
                    }
                }
                lemma_exploded_ends(rest2);
                assert(e[2] == exploded(rest2)[0]);
                assert(rest2[0] == x[2]);
            }
        }
        lemma_raw_heads(e, ci);
        folding::lemma_led(r);
        folding::lemma_led(q);
        if x[0] is Globstar {
            assert(e =~= seq![x[0]] + exploded(rest));
            if x.len() > 1 {
                assert(e[1] == exploded(rest)[0]);
                assert(rest[0] == x[1]);
            }
        }
        if folding::opens(r) {
            let l = seq![SpecOp::LeadingSeps];
            assert(folding::opens(q));
            folding::lemma_fold_still(l);
            folding::lemma_fold_concat(l, r);
            folding::lemma_fold_concat(l, q);
            folding::lemma_alike_self(l, cx, s);
            folding::lemma_alike_concat(l, l, lower::fold(r), lower::fold(q), cx, s);
        } else if x[0] is Brace {
            assert(e =~= seq![x[0]] + exploded(rest));
            assert(x =~= seq![x[0]] + rest);
            lemma_raw_concat(seq![x[0]], rest, ci);
            lemma_raw_concat(seq![x[0]], exploded(rest), ci);
            lemma_raw_one(x[0], ci);
            let a = r[0];
            let c = seq![SpecOp::Alternation(lower::lead_branches(a->Alternation_0))];
            let rr = lower::raw_all(rest, ci);
            let qq = lower::raw_all(exploded(rest), ci);
            assert(r =~= seq![a] + rr);
            assert(q =~= seq![a] + qq);
            assert(folding::led(r) =~= c + rr);
            assert(folding::led(q) =~= c + qq);
            lemma_raw_all_unfolded(rest, ci);
            lemma_raw_all_unfolded(exploded(rest), ci);
            folding::lemma_fold_still(c);
            folding::lemma_fold_concat(c, rr);
            folding::lemma_fold_concat(c, qq);
            lemma_program_pieces(rest, ci, cx, s);
            folding::lemma_alike_self(c, cx, s);
            folding::lemma_alike_concat(c, c, lower::fold(rr), lower::fold(qq), cx, s);
        } else {
            assert(!(r[0] is Alternation));
            assert(e[0] == pieces(x[0])[0]);
            assert(!(e[0] is Brace));
            assert(!(q[0] is Alternation));
            assert(!folding::opens(q));
        }
    }
}

/// A sequence that can stand first.
pub open spec fn first_ok(s: Seq<SpecNode>) -> bool {
    s.len() > 0 ==> !(s[0] is Concat)
}

/// The program of a sequence, merged and with leading separators absorbed,
/// matches what it matches byte by byte.
pub proof fn lemma_merged_lead(x: Seq<SpecNode>, ci: bool, cx: Cx, s: Seq<u8>)
    requires
        ast::all_sound(x),
        sheltered(x),
        spaced(x),
        first_ok(x),
    ensures
        folding::alike(
            lower::lead(lower::fold(lower::append_all(seq![], lower::raw_all(x, ci)))),
            lower::lead(program(exploded(x), ci)),
            cx,
            s,
        ),
{
    lemma_exploded_lead(x, ci, cx, s);
    lemma_raw_all_unfolded(x, ci);
    folding::lemma_merge_lead(lower::raw_all(x, ci), cx, s);
    folding::lemma_alike_trans(
        lower::lead(lower::fold(lower::append_all(seq![], lower::raw_all(x, ci)))),
        lower::lead(program(x, ci)),
        lower::lead(program(exploded(x), ci)),
        cx,
        s,
    );
}

/// Only the first part absorbs leading separators.
pub proof fn lemma_lead_part(a: Seq<SpecOp>, b: Seq<SpecOp>)
    requires
        a.len() > 0,
    ensures
        lower::lead(a + b) == lower::lead(a) + b,
{
    assert((a + b)[0] == a[0]);
    assert(lower::lead(a + b) =~= lower::lead(a) + b);
}

/// Programs with a common start and end match together what they match one by
/// one.
pub proof fn lemma_alternatives(
    pa: Seq<SpecOp>,
    branches: Seq<Seq<SpecOp>>,
    pms: Seq<Seq<SpecOp>>,
    pz: Seq<SpecOp>,
    cx: Cx,
    s: Seq<u8>,
    j: int,
)
    requires
        branches.len() == pms.len(),
        forall|i: int|
            0 <= i < pms.len() ==> folding::alike(#[trigger] branches[i], pms[i], cx, s),
    ensures
        lang::ops_span(pa + seq![SpecOp::Alternation(branches)] + pz, cx, s, 0, j) <==> exists|
            i: int,
        |
            0 <= i < pms.len() && lang::ops_span(pa + #[trigger] pms[i] + pz, cx, s, 0, j),
{
    let alt = SpecOp::Alternation(branches);
    let whole = pa + seq![alt] + pz;
    lang::lemma_span_concat(pa + seq![alt], pz, cx, s, 0, j);
    if lang::ops_span(whole, cx, s, 0, j) {
        let l = choose|l: int| #[trigger]
            lang::cut(l) && lang::ops_span(pa + seq![alt], cx, s, 0, l) && lang::ops_span(
                pz,
                cx,
                s,
                l,
                j,
            );
        lang::lemma_span_concat(pa, seq![alt], cx, s, 0, l);
        let k = choose|k: int| #[trigger]
            lang::cut(k) && lang::ops_span(pa, cx, s, 0, k) && lang::ops_span(
                seq![alt],
                cx,
                s,
                k,
                l,
            );
        lang::lemma_span_single(alt, cx, s, k, l);
        assert(lang::some_span(branches, cx, s, k, l));
        let i = choose|i: int|
            0 <= i < branches.len() && lang::ops_span(#[trigger] branches[i], cx, s, k, l);
        let pm = pms[i];
        assert(folding::alike(branches[i], pm, cx, s));
        assert(folding::alike_at(branches[i], pm, cx, s, k, l));
        lang::lemma_span_concat(pa, pm, cx, s, 0, l);
        assert(lang::cut(k) && lang::ops_span(pm, cx, s, k, l));
        lang::lemma_span_concat(pa + pm, pz, cx, s, 0, j);
        assert(lang::cut(l) && lang::ops_span(pa + pm, cx, s, 0, l));
    }
    if exists|i: int| 0 <= i < pms.len() && lang::ops_span(pa + #[trigger] pms[i] + pz, cx, s, 0, j) {
        let i = choose|i: int|
            0 <= i < pms.len() && lang::ops_span(pa + #[trigger] pms[i] + pz, cx, s, 0, j);
        let pm = pms[i];
        lang::lemma_span_concat(pa + pm, pz, cx, s, 0, j);
        let l = choose|l: int| #[trigger]
            lang::cut(l) && lang::ops_span(pa + pm, cx, s, 0, l) && lang::ops_span(
                pz,
                cx,
                s,
                l,
                j,
            );
        lang::lemma_span_concat(pa, pm, cx, s, 0, l);
        let k = choose|k: int| #[trigger]
            lang::cut(k) && lang::ops_span(pa, cx, s, 0, k) && lang::ops_span(pm, cx, s, k, l);
        assert(folding::alike(branches[i], pm, cx, s));
        assert(folding::alike_at(branches[i], pm, cx, s, k, l));
        assert(lang::some_span(branches, cx, s, k, l));
        lang::lemma_span_bounds(pm, cx, s, k, l);
        assert(lang::op_span(alt, cx, s, k, l));
        lang::lemma_span_single(alt, cx, s, k, l);
        lang::lemma_span_concat(pa, seq![alt], cx, s, 0, l);
        assert(lang::cut(k) && lang::ops_span(seq![alt], cx, s, k, l));
        assert(lang::cut(l) && lang::ops_span(pa + seq![alt], cx, s, 0, l));
    }
}

/// Where node `k` stands when bytes are written one by one.
proof fn lemma_exploded_at(s: Seq<SpecNode>, k: int) -> (at: int)
    requires
        0 <= k < s.len(),
    ensures
        at == exploded(s.take(k)).len(),
        exploded(s) == exploded(s.take(k)) + pieces(s[k]) + exploded(s.skip(k + 1)),
{
    let a = s.take(k);
    let b = s.skip(k + 1);
    assert(s =~= a + seq![s[k]] + b);
    lemma_exploded_concat(a + seq![s[k]], b);
    lemma_exploded_concat(a, seq![s[k]]);
    lemma_exploded_one(s[k]);
    exploded(a).len() as int
}

/// What holds of neighbours byte by byte holds of neighbouring nodes.
pub proof fn lemma_imploded(s: Seq<SpecNode>)
    requires
        ast::all_sound(s),
    ensures
        sheltered(exploded(s)) ==> sheltered(s),
        spaced(exploded(s)) ==> spaced(s),
{
    let t = exploded(s);
    if sheltered(t) {
        assert forall|k: int| #[trigger] sheltered_at(s, k) by {
            if 0 <= k && k + 1 < s.len() {
                let at = lemma_exploded_at(s, k);
                let rest = s.skip(k + 1);
                assert(rest[0] == s[k + 1]);
                lemma_exploded_first(rest);
                assert(ast::sound(s[k]) && ast::sound(s[k + 1]));
                let p = pieces(s[k]);
                let q = pieces(s[k + 1]);
                assert(p.len() > 0 && q.len() > 0);
                let x = at + p.len() - 1;
                assert(t[x] == p.last());
                assert(t[x + 1] == q[0]);
                assert(sheltered_at(t, x));
            }
        }
    }
    if spaced(t) {
        assert forall|k: int| #[trigger] spaced_at(s, k) by {
            if 0 <= k && k + 2 < s.len() && s[k] is Globstar && s[k + 1] is Separator && s[k
                + 2] is Globstar {
                let at = lemma_exploded_at(s, k);
                let rest = s.skip(k + 1);
                assert(rest[0] == s[k + 1]);
                lemma_exploded_first(rest);
                let rest2 = rest.skip(1);
                assert(rest2[0] == s[k + 2]);
                lemma_exploded_first(rest2);
                assert(t[at] == s[k]);
                assert(t[at + 1] == s[k + 1]);
                assert(t[at + 2] == s[k + 2]);
                assert(spaced_at(t, at));
            }
        }
    }
}

pub proof fn lemma_exploded_spaced(s: Seq<SpecNode>)
    requires
        ast::all_sound(s),
        spaced(s),
    ensures
        spaced(exploded(s)),
    decreases s.len(),
{
    if s.len() > 0 {
        let head = s.drop_last();
        let last = s.last();
        assert(ast::sound(s[s.len() - 1]));
        assert(ast::all_sound(head)) by {
            assert forall|k: int| 0 <= k < head.len() implies ast::sound(#[trigger] head[k]) by {
                assert(head[k] == s[k]);
            }
        }
        assert(head =~= s.take(s.len() - 1));
        lemma_spaced_take(s, s.len() - 1);
        lemma_exploded_spaced(head);
        lemma_exploded_ends(head);
        let t = exploded(head);
        let p = pieces(last);
        let all = exploded(s);
        assert forall|k: int| #[trigger] spaced_at(all, k) by {
            if 0 <= k && k + 2 < all.len() && all[k] is Globstar && all[k + 1] is Separator
                && all[k + 2] is Globstar {
                if k + 2 < t.len() {
                    assert(spaced_at(t, k));
                } else {
                    assert(all[k + 2] == p[k + 2 - t.len()]);
                    assert(last is Globstar);
                    assert(p.len() == 1);
                    assert(all[k + 1] == t.last());
                    assert(all[k] == t[t.len() - 2]);
                    let mid = head.drop_last();
                    assert(head.last() is Separator);
                    assert(t =~= exploded(mid) + seq![head.last()]);
                    assert(ast::all_sound(mid)) by {
                        assert forall|x: int| 0 <= x < mid.len() implies ast::sound(
                            #[trigger] mid[x],
                        ) by {
                            assert(mid[x] == s[x]);
                        }
                    }
                    lemma_exploded_ends(mid);
                    assert(all[k] == exploded(mid).last());
                    assert(mid.last() == s[s.len() - 3]);
                    assert(head.last() == s[s.len() - 2]);
                    assert(spaced_at(s, s.len() - 3));
                }
            }
        }
    }
}

/// A sequence of nodes has a program.
pub proof fn lemma_program_some(x: Seq<SpecNode>, ci: bool)
    requires
        x.len() > 0,
        !(x[0] is Concat),
        sheltered(x),
    ensures
        program(x, ci).len() > 0,
{
    lemma_raw_heads(x, ci);
    folding::lemma_fold_some(lower::raw_all(x, ci));
}

pub proof fn lemma_lead_branches(bs: Seq<Seq<SpecOp>>)
    ensures
        lower::lead_branches(bs).len() == bs.len(),
        forall|k: int|
            0 <= k < bs.len() ==> #[trigger] lower::lead_branches(bs)[k] == lower::lead(bs[k]),
    decreases bs.len(),
{
    if bs.len() > 0 {
        let head = bs.drop_last();
        lemma_lead_branches(head);
        let all = lower::lead_branches(bs);
        let front = lower::lead_branches(head);
        assert forall|k: int| 0 <= k < bs.len() implies #[trigger] all[k] == lower::lead(
            bs[k],
        ) by {
            if k < front.len() {
                assert(all[k] == front[k]);
                assert(head[k] == bs[k]);
            }
        }
    }
}

// How the programs start.

// What the parser gives.

pub proof fn lemma_push_sound(nodes: Seq<SpecNode>, n: SpecNode)
    requires
        ast::all_sound(nodes),
        ast::sound(n),
    ensures
        ast::all_sound(nodes.push(n)),
{
    assert forall|k: int| 0 <= k < nodes.push(n).len() implies ast::sound(
        #[trigger] nodes.push(n)[k],
    ) by {
        if k < nodes.len() {
            assert(nodes.push(n)[k] == nodes[k]);
        }
    }
}

proof fn lemma_flushed_sound(nodes: Seq<SpecNode>, lit: Seq<u8>)
    requires
        ast::all_sound(nodes),
    ensures
        ast::all_sound(parser::flushed(nodes, lit)),
{
    if lit.len() > 0 {
        lemma_push_sound(nodes, SpecNode::Literal(lit));
    }
}

/// What is parsed is sound.
proof fn lemma_sequence_sound(
    s: Seq<u8>,
    p: int,
    depth: int,
    ctx: SequenceContext,
    nodes: Seq<SpecNode>,
    lit: Seq<u8>,
)
    requires
        ast::all_sound(nodes),
    ensures
        parser::sequence(s, p, depth, ctx, nodes, lit) matches Ok((n, q)) ==> ast::sound(n),
    decreases parser::left(s, p), 0int,
{
    let all = parser::flushed(nodes, lit);
    lemma_flushed_sound(nodes, lit);
    if p >= s.len() || (ctx is Brace && (s[p] == 0x2c || s[p] == 0x7d)) {
        if all.len() == 1 {
            assert(ast::sound(all[0]));
        }
    } else if s[p] == 0x5c {
        if p + 1 < s.len() {
            lemma_sequence_sound(s, p + 2, depth, ctx, nodes, lit.push(s[p + 1]));
        }
    } else if s[p] == 0x2f {
        lemma_push_sound(all, SpecNode::Separator);
        lemma_sequence_sound(s, p + 1, depth, ctx, all.push(SpecNode::Separator), seq![]);
    } else if s[p] == 0x3f {
        lemma_push_sound(all, SpecNode::AnyChar);
        lemma_sequence_sound(s, p + 1, depth, ctx, all.push(SpecNode::AnyChar), seq![]);
    } else if s[p] == 0x2a {
        if parser::owns_segment(s, p, ctx, all) {
            parser::lemma_past_globstars(s, p + 2);
            lemma_push_sound(all, SpecNode::Globstar);
            lemma_sequence_sound(
                s,
                parser::past_globstars(s, p + 2),
                depth,
                ctx,
                all.push(SpecNode::Globstar),
                seq![],
            );
        } else {
            lemma_push_sound(all, SpecNode::Star);
            lemma_sequence_sound(s, p + 1, depth, ctx, all.push(SpecNode::Star), seq![]);
        }
    } else if s[p] == 0x5b {
        parser::lemma_class_at(s, p);
        if let Ok((c, q)) = parser::class_at(s, p) {
            lemma_push_sound(all, SpecNode::Class(c));
            lemma_sequence_sound(s, q, depth, ctx, all.push(SpecNode::Class(c)), seq![]);
        }
    } else if s[p] == 0x7b {
        let (single, after) = parser::look_ahead(s, p + 1, 0, true, ctx);
        let inner = SequenceContext::Brace {
            prev_boundary: !single && lit.len() == 0 && ctx.starts_segment(nodes),
            next_boundary: !single && after,
        };
        lemma_branches_sound(s, p + 1, depth + 1, inner, p, seq![]);
        if let Ok((bs, q)) = parser::branches(s, p + 1, depth + 1, inner, p, seq![]) {
            if q > p {
                if bs.len() == 1 {
                    assert(ast::sound(bs[0]));
                    lemma_flushed_sound(nodes, lit.push(0x7b));
                    let front = parser::flushed(nodes, lit.push(0x7b));
                    lemma_push_sound(front, bs[0]);
                    lemma_sequence_sound(s, q, depth, ctx, front.push(bs[0]), seq![0x7d]);
                } else {
                    lemma_push_sound(all, SpecNode::Brace(bs));
                    lemma_sequence_sound(s, q, depth, ctx, all.push(SpecNode::Brace(bs)), seq![]);
                }
            }
        }
    } else {
        lemma_sequence_sound(s, p + 1, depth, ctx, nodes, lit.push(s[p]));
    }
}

proof fn lemma_branches_sound(
    s: Seq<u8>,
    p: int,
    depth: int,
    ctx: SequenceContext,
    start: int,
    done: Seq<SpecNode>,
)
    requires
        ast::all_sound(done),
    ensures
        parser::branches(s, p, depth, ctx, start, done) matches Ok((bs, q)) ==> ast::all_sound(bs)
            && bs.len() > 0,
    decreases parser::left(s, p), 1int,
{
    lemma_sequence_sound(s, p, depth, ctx, seq![], seq![]);
    if let Ok((n, q)) = parser::sequence(s, p, depth, ctx, seq![], seq![]) {
        if q >= p {
            lemma_push_sound(done, n);
            if q < s.len() && s[q] == 0x2c {
                lemma_branches_sound(s, q + 1, depth, ctx, start, done.push(n));
            }
        }
    }
}

proof fn lemma_past_globstars_end(s: Seq<u8>, p: int)
    requires
        0 <= p,
        p >= s.len() || s[p] == 0x2f,
    ensures
        ({
            let q = parser::past_globstars(s, p);
            &&& p <= q
            &&& q >= s.len() || s[q] == 0x2f
            &&& !parser::repeats_globstar(s, q)
        }),
    decreases parser::left(s, p),
{
    if parser::repeats_globstar(s, p) {
        lemma_past_globstars_end(s, p + 3);
    }
}

/// The nodes so far are as they should be, and so is what may follow.
spec fn parsed_ok(s: Seq<u8>, p: int, nodes: Seq<SpecNode>, lit: Seq<u8>) -> bool {
    &&& ast::all_sound(nodes)
    &&& spaced(nodes)
    &&& sheltered(nodes)
    &&& first_ok(nodes)
    &&& nodes.len() > 0 && nodes.last() is Concat ==> lit.len() > 0
    &&& nodes.len() > 0 && nodes.last() is Globstar && lit.len() == 0 ==> p >= s.len() || (s[p]
        == 0x2f && !parser::repeats_globstar(s, p))
    &&& nodes.len() > 1 && nodes.last() is Separator && nodes[nodes.len() - 2] is Globstar
        && lit.len() == 0 ==> 0 < p <= s.len() && s[p - 1] == 0x2f && !parser::repeats_globstar(
        s,
        p - 1,
    )
}

/// Another node behind the nodes so far.
proof fn lemma_parsed_push(nodes: Seq<SpecNode>, n: SpecNode)
    requires
        ast::all_sound(nodes),
        ast::sound(n),
        spaced(nodes),
        sheltered(nodes),
        first_ok(nodes),
        n is Concat ==> nodes.len() > 0 && nodes.last() is Literal,
        nodes.len() > 0 && nodes.last() is Concat ==> n is Literal,
        !(n is Globstar && nodes.len() > 1 && nodes.last() is Separator && nodes[nodes.len()
            - 2] is Globstar),
    ensures
        ast::all_sound(nodes.push(n)),
        spaced(nodes.push(n)),
        sheltered(nodes.push(n)),
        first_ok(nodes.push(n)),
{
    let all = nodes.push(n);
    lemma_push_sound(nodes, n);
    assert forall|k: int| #[trigger] spaced_at(all, k) by {
        assert(spaced_at(nodes, k));
    }
    assert forall|k: int| #[trigger] sheltered_at(all, k) by {
        assert(sheltered_at(nodes, k));
    }
}

proof fn lemma_parsed_flush(s: Seq<u8>, p: int, nodes: Seq<SpecNode>, lit: Seq<u8>)
    requires
        parsed_ok(s, p, nodes, lit),
    ensures
        ({
            let all = parser::flushed(nodes, lit);
            &&& ast::all_sound(all)
            &&& spaced(all)
            &&& sheltered(all)
            &&& first_ok(all)
            &&& all.len() > 0 ==> !(all.last() is Concat)
        }),
{
    if lit.len() > 0 {
        lemma_parsed_push(nodes, SpecNode::Literal(lit));
    }
}

/// What is parsed at the top level has the shape that a member must have.
#[verifier::spinoff_prover]
#[verifier::rlimit(40)]
proof fn lemma_sequence_shape(
    s: Seq<u8>,
    p: int,
    depth: int,
    nodes: Seq<SpecNode>,
    lit: Seq<u8>,
)
    requires
        0 <= p,
        parsed_ok(s, p, nodes, lit),
    ensures
        parser::sequence(s, p, depth, SequenceContext::Top, nodes, lit) matches Ok((n, q)) ==> {
            let x = factor::spelled_out(n);
            &&& ast::all_sound(x)
            &&& spaced(x)
            &&& sheltered(x)
            &&& first_ok(x)
            &&& factor::joined(x) == n
        },
    decreases parser::left(s, p),
{
    let ctx = SequenceContext::Top;
    let all = parser::flushed(nodes, lit);
    lemma_parsed_flush(s, p, nodes, lit);
    let none = Seq::<u8>::empty();
    if p >= s.len() {
        if all.len() == 1 {
            assert(factor::spelled_out(all[0]) =~= all);
        }
    } else if s[p] == 0x5c {
        if p + 1 < s.len() {
            lemma_sequence_shape(s, p + 2, depth, nodes, lit.push(s[p + 1]));
        }
    } else if s[p] == 0x2f {
        lemma_parsed_push(all, SpecNode::Separator);
        if all.len() > 0 && all.last() is Globstar {
            assert(lit.len() == 0);
        }
        assert(parsed_ok(s, p + 1, all.push(SpecNode::Separator), none));
        lemma_sequence_shape(s, p + 1, depth, all.push(SpecNode::Separator), none);
    } else if s[p] == 0x3f {
        lemma_parsed_push(all, SpecNode::AnyChar);
        lemma_sequence_shape(s, p + 1, depth, all.push(SpecNode::AnyChar), none);
    } else if s[p] == 0x2a {
        if parser::owns_segment(s, p, ctx, all) {
            let q = parser::past_globstars(s, p + 2);
            lemma_past_globstars_end(s, p + 2);
            if all.len() > 1 && all.last() is Separator && all[all.len() - 2] is Globstar {
                assert(lit.len() == 0);
                assert(parser::repeats_globstar(s, p - 1));
            }
            lemma_parsed_push(all, SpecNode::Globstar);
            assert(parsed_ok(s, q, all.push(SpecNode::Globstar), none));
            lemma_sequence_shape(s, q, depth, all.push(SpecNode::Globstar), none);
        } else {
            lemma_parsed_push(all, SpecNode::Star);
            lemma_sequence_shape(s, p + 1, depth, all.push(SpecNode::Star), none);
        }
    } else if s[p] == 0x5b {
        parser::lemma_class_at(s, p);
        if let Ok((c, q)) = parser::class_at(s, p) {
            lemma_parsed_push(all, SpecNode::Class(c));
            lemma_sequence_shape(s, q, depth, all.push(SpecNode::Class(c)), none);
        }
    } else if s[p] == 0x7b {
        let (single, after) = parser::look_ahead(s, p + 1, 0, true, ctx);
        let inner = SequenceContext::Brace {
            prev_boundary: !single && lit.len() == 0 && ctx.starts_segment(nodes),
            next_boundary: !single && after,
        };
        lemma_branches_sound(s, p + 1, depth + 1, inner, p, seq![]);
        if let Ok((bs, q)) = parser::branches(s, p + 1, depth + 1, inner, p, seq![]) {
            if q > p {
                if bs.len() == 1 {
                    let open = lit.push(0x7b);
                    let front = parser::flushed(nodes, open);
                    assert(ast::sound(bs[0]));
                    lemma_parsed_push(nodes, SpecNode::Literal(open));
                    lemma_parsed_push(front, bs[0]);
                    assert(parsed_ok(s, q, front.push(bs[0]), seq![0x7d]));
                    lemma_sequence_shape(s, q, depth, front.push(bs[0]), seq![0x7d]);
                } else {
                    lemma_parsed_push(all, SpecNode::Brace(bs));
                    lemma_sequence_shape(s, q, depth, all.push(SpecNode::Brace(bs)), none);
                }
            }
        }
    } else {
        lemma_sequence_shape(s, p + 1, depth, nodes, lit.push(s[p]));
    }
}

proof fn lemma_bangs(s: Seq<u8>, p: int)
    requires
        0 <= p,
    ensures
        parser::bangs(s, p) >= 0,
    decreases parser::left(s, p),
{
    if p < s.len() && s[p] == 0x21 {
        lemma_bangs(s, p + 1);
    }
}

/// Every pattern parses to the shape that a member must have.
pub proof fn lemma_parsed_shape(text: Seq<u8>)
    ensures
        parser::parsed(text) matches Ok((bangs, body)) ==> {
            let x = factor::spelled_out(body);
            &&& fit(x)
            &&& first_ok(x)
            &&& factor::joined(x) == body
        },
{
    if let Ok((bangs, body)) = parser::parsed(text) {
        let none = Seq::<SpecNode>::empty();
        let p = parser::bangs(text, 0);
        lemma_bangs(text, 0);
        assert(parsed_ok(text, p, none, seq![]));
        lemma_sequence_shape(text, p, 0, none, seq![]);
    }
}

// Literals.

/// Where the literal is spelled from `i` on, no backslash of `s` stands in the
/// place of an escaped `/`.
pub open spec fn clear(n: SpecNode, s: Seq<u8>, i: int) -> bool
    decreases n, 0int,
{
    match n {
        SpecNode::Literal(b) => forall|k: int|
            0 <= k < b.len() && i + k < s.len() && #[trigger] b[k] == 0x2f ==> s[i + k] != 0x5c,
        SpecNode::Concat(xs) => all_clear(xs, s, i),
        _ => true,
    }
}

pub open spec fn all_clear(xs: Seq<SpecNode>, s: Seq<u8>, i: int) -> bool
    decreases xs, xs.len(),
{
    xs.len() > 0 ==> all_clear(xs.drop_last(), s, i) && clear(
        xs.last(),
        s,
        i + ast::literal_bytes_all(xs.drop_last()).len(),
    )
}

/// `to` goes on behind `s`, and has no backslash there where `b`, spelled from
/// `i` on, has a `/`.
spec fn goes_on(s: Seq<u8>, to: Seq<u8>, b: Seq<u8>, i: int) -> bool {
    &&& s.len() <= to.len()
    &&& forall|k: int| 0 <= k < s.len() ==> s[k] == to[k]
    &&& forall|k: int|
        0 <= k < b.len() && s.len() <= i + k < to.len() && #[trigger] b[k] == 0x2f ==> to[i + k]
            != 0x5c
}

proof fn lemma_clear_on(n: SpecNode, s: Seq<u8>, to: Seq<u8>, i: int)
    requires
        clear(n, s, i),
        0 <= i,
        goes_on(s, to, ast::literal_bytes(n), i),
    ensures
        clear(n, to, i),
    decreases n, 0nat,
{
    match n {
        SpecNode::Literal(b) => {
            assert forall|k: int|
                0 <= k < b.len() && i + k < to.len() && #[trigger] b[k] == 0x2f implies to[i + k]
                != 0x5c by {
                if i + k < s.len() {
                    assert(s[i + k] == to[i + k]);
                }
            }
        },
        SpecNode::Concat(xs) => {
            lemma_all_clear_on(xs, s, to, i);
        },
        _ => {},
    }
}

proof fn lemma_all_clear_on(xs: Seq<SpecNode>, s: Seq<u8>, to: Seq<u8>, i: int)
    requires
        all_clear(xs, s, i),
        0 <= i,
        goes_on(s, to, ast::literal_bytes_all(xs), i),
    ensures
        all_clear(xs, to, i),
    decreases xs, xs.len(),
{
    if xs.len() > 0 {
        let head = xs.drop_last();
        let x = ast::literal_bytes_all(head);
        let y = ast::literal_bytes(xs.last());
        let mid = i + x.len();
        assert forall|k: int|
            0 <= k < x.len() && s.len() <= i + k < to.len() && #[trigger] x[k] == 0x2f implies to[i
            + k] != 0x5c by {
            assert((x + y)[k] == x[k]);
        }
        assert forall|k: int|
            0 <= k < y.len() && s.len() <= mid + k < to.len() && #[trigger] y[k] == 0x2f implies to[
        mid + k] != 0x5c by {
            assert((x + y)[x.len() + k] == y[k]);
            assert(i + (x.len() + k) == mid + k);
        }
        lemma_all_clear_on(head, s, to, i);
        assert(decreases_to!(xs => xs[xs.len() - 1]));
        lemma_clear_on(xs.last(), s, to, mid);
    }
}

/// A path without backslashes is clear.
proof fn lemma_slashed_clear(n: SpecNode, s: Seq<u8>)
    requires
        forall|k: int| 0 <= k < s.len() ==> #[trigger] s[k] != 0x5c,
    ensures
        clear(n, s, 0),
{
    let none = Seq::<u8>::empty();
    lemma_empty_clear(n, 0);
    lemma_clear_on(n, none, s, 0);
}

proof fn lemma_empty_clear(n: SpecNode, i: int)
    requires
        0 <= i,
    ensures
        clear(n, Seq::<u8>::empty(), i),
    decreases n, 0nat,
{
    if let SpecNode::Concat(xs) = n {
        lemma_empty_all_clear(xs, i);
    }
}

proof fn lemma_empty_all_clear(xs: Seq<SpecNode>, i: int)
    requires
        0 <= i,
    ensures
        all_clear(xs, Seq::<u8>::empty(), i),
    decreases xs, xs.len(),
{
    if xs.len() > 0 {
        lemma_empty_all_clear(xs.drop_last(), i);
        assert(decreases_to!(xs => xs[xs.len() - 1]));
        lemma_empty_clear(xs.last(), i + ast::literal_bytes_all(xs.drop_last()).len());
    }
}

/// The bytes of `s` from `i` up to `j` stand for the literal `b`.
spec fn spells_at(cx: Cx, b: Seq<u8>, s: Seq<u8>, i: int, j: int) -> bool {
    0 <= i && j == i + b.len() && j <= s.len() && forall|k: int|
        0 <= k < b.len() ==> literal::literal_byte(cx.seps, cx.ci, #[trigger] b[k], s[i + k])
}

proof fn lemma_spells_concat(cx: Cx, a: Seq<u8>, b: Seq<u8>, s: Seq<u8>, i: int, j: int)
    ensures
        spells_at(cx, a + b, s, i, j) <==> spells_at(cx, a, s, i, i + a.len()) && spells_at(
            cx,
            b,
            s,
            i + a.len(),
            j,
        ),
{
    let ab = a + b;
    if spells_at(cx, ab, s, i, j) {
        assert forall|k: int| 0 <= k < a.len() implies literal::literal_byte(
            cx.seps,
            cx.ci,
            #[trigger] a[k],
            s[i + k],
        ) by {
            assert(ab[k] == a[k]);
        }
        assert forall|k: int| 0 <= k < b.len() implies literal::literal_byte(
            cx.seps,
            cx.ci,
            #[trigger] b[k],
            s[i + a.len() + k],
        ) by {
            assert(ab[a.len() + k] == b[k]);
            assert(i + (a.len() + k) == i + a.len() + k);
        }
    }
    if spells_at(cx, a, s, i, i + a.len()) && spells_at(cx, b, s, i + a.len(), j) {
        assert forall|k: int| 0 <= k < ab.len() implies literal::literal_byte(
            cx.seps,
            cx.ci,
            #[trigger] ab[k],
            s[i + k],
        ) by {
            if k < a.len() {
                assert(ab[k] == a[k]);
            } else {
                assert(ab[k] == b[k - a.len()]);
                assert(i + a.len() + (k - a.len()) == i + k);
            }
        }
    }
}

/// The raw ops of a literal match what the literal spells.
proof fn lemma_literal_raw(n: SpecNode, ci: bool, cx: Cx, s: Seq<u8>, i: int, j: int)
    requires
        ast::pure_literal(n),
        cx.ci == ci,
    ensures
        lang::ops_span(lower::raw(n, ci), cx, s, i, j) ==> spells_at(
            cx,
            ast::literal_bytes(n),
            s,
            i,
            j,
        ),
        spells_at(cx, ast::literal_bytes(n), s, i, j) && (!cx.seps.backslash || clear(n, s, i))
            ==> lang::ops_span(
            lower::raw(n, ci),
            cx,
            s,
            i,
            j,
        ),
    decreases n, 0nat,
{
    match n {
        SpecNode::Literal(b) => {
            lang::lemma_span_single(SpecOp::Lit(b), cx, s, i, j);
            if lang::op_span(SpecOp::Lit(b), cx, s, i, j) {
                assert forall|k: int| 0 <= k < b.len() implies literal::literal_byte(
                    cx.seps,
                    cx.ci,
                    #[trigger] b[k],
                    s[i + k],
                ) by {
                    assert(ast::same_byte(cx.ci, b[k], s[i + k]));
                }
            }
            if spells_at(cx, b, s, i, j) && (!cx.seps.backslash || clear(n, s, i)) {
                assert forall|k: int| 0 <= k < b.len() implies ast::same_byte(
                    cx.ci,
                    #[trigger] b[k],
                    s[i + k],
                ) by {
                    assert(literal::literal_byte(cx.seps, cx.ci, b[k], s[i + k]));
                }
                assert(lang::op_span(SpecOp::Lit(b), cx, s, i, j));
            }
        },
        SpecNode::Separator => {
            lang::lemma_span_single(SpecOp::Sep, cx, s, i, j);
            let b = seq![0x2fu8];
            if spells_at(cx, b, s, i, j) {
                assert(literal::literal_byte(cx.seps, cx.ci, b[0], s[i + 0]));
            }
        },
        SpecNode::Concat(xs) => {
            lemma_literal_raw_all(xs, ci, cx, s, i, j);
        },
        _ => {},
    }
}

proof fn lemma_literal_raw_all(xs: Seq<SpecNode>, ci: bool, cx: Cx, s: Seq<u8>, i: int, j: int)
    requires
        ast::all_pure(xs),
        cx.ci == ci,
    ensures
        lang::ops_span(lower::raw_all(xs, ci), cx, s, i, j) ==> spells_at(
            cx,
            ast::literal_bytes_all(xs),
            s,
            i,
            j,
        ),
        spells_at(cx, ast::literal_bytes_all(xs), s, i, j) && (!cx.seps.backslash || all_clear(
            xs,
            s,
            i,
        )) ==> lang::ops_span(
            lower::raw_all(xs, ci),
            cx,
            s,
            i,
            j,
        ),
    decreases xs, xs.len(),
{
    if xs.len() > 0 {
        let head = xs.drop_last();
        let last = xs.last();
        assert(ast::pure_literal(xs[xs.len() - 1]));
        assert(ast::all_pure(head)) by {
            assert forall|k: int| 0 <= k < head.len() implies ast::pure_literal(
                #[trigger] head[k],
            ) by {
                assert(head[k] == xs[k]);
            }
        }
        let a = lower::raw_all(head, ci);
        let b = lower::raw(last, ci);
        let x = ast::literal_bytes_all(head);
        let y = ast::literal_bytes(last);
        lang::lemma_span_concat(a, b, cx, s, i, j);
        lemma_spells_concat(cx, x, y, s, i, j);
        assert(decreases_to!(xs => xs[xs.len() - 1]));
        let mid = i + x.len();
        if lang::ops_span(a + b, cx, s, i, j) {
            let k = choose|k: int| #[trigger]
                lang::cut(k) && lang::ops_span(a, cx, s, i, k) && lang::ops_span(b, cx, s, k, j);
            lemma_literal_raw_all(head, ci, cx, s, i, k);
            lemma_literal_raw(last, ci, cx, s, k, j);
            assert(k == mid);
        }
        if spells_at(cx, x + y, s, i, j) && (!cx.seps.backslash || all_clear(xs, s, i)) {
            lemma_literal_raw_all(head, ci, cx, s, i, mid);
            lemma_literal_raw(last, ci, cx, s, mid, j);
            assert(lang::cut(mid));
        }
    } else {
        assert(lower::raw_all(xs, ci).len() == 0);
        assert(ast::literal_bytes_all(xs).len() == 0);
    }
}

/// The raw ops of a literal are literals and separators.
proof fn lemma_literal_plain(n: SpecNode, ci: bool)
    requires
        ast::pure_literal(n),
    ensures
        forall|k: int|
            0 <= k < lower::raw(n, ci).len() ==> (#[trigger] lower::raw(n, ci)[k] is Lit
                || lower::raw(n, ci)[k] is Sep),
    decreases n, 0nat,
{
    if let SpecNode::Concat(xs) = n {
        lemma_literal_plain_all(xs, ci);
    }
}

proof fn lemma_literal_plain_all(xs: Seq<SpecNode>, ci: bool)
    requires
        ast::all_pure(xs),
    ensures
        forall|k: int|
            0 <= k < lower::raw_all(xs, ci).len() ==> (#[trigger] lower::raw_all(
                xs,
                ci,
            )[k] is Lit || lower::raw_all(xs, ci)[k] is Sep),
    decreases xs, xs.len(),
{
    if xs.len() > 0 {
        let head = xs.drop_last();
        assert(ast::pure_literal(xs[xs.len() - 1]));
        assert(ast::all_pure(head)) by {
            assert forall|k: int| 0 <= k < head.len() implies ast::pure_literal(
                #[trigger] head[k],
            ) by {
                assert(head[k] == xs[k]);
            }
        }
        assert(decreases_to!(xs => xs[xs.len() - 1]));
        lemma_literal_plain_all(head, ci);
        lemma_literal_plain(xs.last(), ci);
        let a = lower::raw_all(head, ci);
        let b = lower::raw(xs.last(), ci);
        assert forall|k: int| 0 <= k < (a + b).len() implies (#[trigger] (a + b)[k] is Lit || (a
            + b)[k] is Sep) by {
            if k < a.len() {
                assert((a + b)[k] == a[k]);
            } else {
                assert((a + b)[k] == b[k - a.len()]);
            }
        }
    }
}

proof fn lemma_pure_calm(n: SpecNode)
    requires
        ast::pure_literal(n),
    ensures
        calm(n),
    decreases n,
{
    if let SpecNode::Concat(xs) = n {
        assert forall|k: int| 0 <= k < xs.len() implies calm(#[trigger] xs[k]) by {
            assert(ast::pure_literal(xs[k]));
            lemma_pure_calm(xs[k]);
        }
    }
}

/// The program of a literal matches what the literal spells.
proof fn lemma_literal_program(n: SpecNode, ci: bool, cx: Cx, path: Seq<u8>)
    requires
        ast::pure_literal(n),
        cx.ci == ci,
    ensures
        lang::matches(lower::lowered(n, ci), cx, path) ==> spells_at(
            cx,
            ast::literal_bytes(n),
            path,
            0,
            path.len() as int,
        ),
        spells_at(cx, ast::literal_bytes(n), path, 0, path.len() as int) && (!cx.seps.backslash
            || clear(n, path, 0)) ==> lang::matches(
            lower::lowered(n, ci),
            cx,
            path,
        ),
{
    let j = path.len() as int;
    let r = lower::raw(n, ci);
    lemma_pure_calm(n);
    lemma_calm_uncrowded(n);
    lemma_raw_unfolded(n, ci);
    lemma_literal_plain(n, ci);
    assert(!folding::opens(r)) by {
        if r.len() > 0 {
            assert(r[0] is Lit || r[0] is Sep);
        }
    }
    folding::lemma_merge_lead(r, cx, path);
    assert(folding::alike_at(
        lower::lead(lower::fold(lower::append_all(seq![], r))),
        lower::lead(lower::fold(r)),
        cx,
        path,
        0,
        j,
    ));
    folding::lemma_led(r);
    folding::lemma_open_none(r);
    assert(lower::soften(r) =~= r);
    folding::lemma_close_none(r);
    assert(lower::bare_globstars(r) =~= r);
    assert(lower::fold(r) == r);
    assert(folding::led(r) == r) by {
        if r.len() > 0 {
            assert(r[0] is Lit || r[0] is Sep);
        }
    }
    lemma_literal_raw(n, ci, cx, path, 0, j);
}

/// Where a backslash separates too, none stands in the path where a literal
/// pattern has an escaped `/`.
pub open spec fn told_apart(body: SpecNode, seps: Seps, path: Seq<u8>) -> bool {
    !seps.backslash || !ast::pure_literal(body) || clear(body, path, 0)
}

/// A path in which only slashes stand between segments is told apart from every
/// pattern.
pub proof fn law_slashed_paths_are_told_apart(body: SpecNode, seps: Seps, path: Seq<u8>)
    requires
        prefixes::slashed(seps, path),
    ensures
        told_apart(body, seps, path),
{
    if seps.backslash {
        lemma_slashed_clear(body, path);
    }
}

/// A literal compared byte by byte matches what its program matches.
pub proof fn law_literal_matches_program(g: SpecGlob, path: Seq<u8>)
    requires
        ast::pure_literal(g.body),
        told_apart(g.body, g.seps, path),
    ensures
        g.body_matches(path) == lang::matches(g.program(), g.cx(path.len() as int), path),
{
    let ci = g.case_insensitive;
    let cx = g.cx(path.len() as int);
    let j = path.len() as int;
    lemma_literal_program(g.body, ci, cx, path);
    let b = g.literal();
    if g.body_matches(path) {
        assert forall|k: int| 0 <= k < b.len() implies literal::literal_byte(
            cx.seps,
            cx.ci,
            #[trigger] b[k],
            path[0 + k],
        ) by {
            assert(literal::literal_byte(g.seps, ci, g.literal()[k], path[k]));
        }
    }
    if spells_at(cx, b, path, 0, j) {
        assert forall|k: int| 0 <= k < j implies literal::literal_byte(
            g.seps,
            ci,
            #[trigger] g.literal()[k],
            path[k],
        ) by {
            assert(literal::literal_byte(cx.seps, cx.ci, b[k], path[0 + k]));
        }
    }
}

/// The program of the pattern matches something below `dir`, where beyond
/// `dir` no dot is hidden.
pub open spec fn leads_below(g: SpecGlob, dir: Seq<u8>) -> bool {
    laws::program_below(g.program(), g.cx(dir.len() as int), dir)
}

/// So does the literal that it is, compared byte by byte.
proof fn lemma_literal_below(g: SpecGlob, dir: Seq<u8>)
    requires
        ast::pure_literal(g.body),
        told_apart(g.body, g.seps, dir),
        dir.len() > 0,
    ensures
        g.body_below(dir) == leads_below(g, dir),
{
    let ci = g.case_insensitive;
    let n = dir.len() as int;
    let cx = g.cx(n);
    let pre = dir + seq![0x2fu8];
    let b = g.literal();
    if g.body_below(dir) {
        let t = b.skip(n + 1);
        let path = pre + t;
        lemma_literal_program(g.body, ci, cx, path);
        assert forall|k: int| 0 <= k < b.len() implies literal::literal_byte(
            cx.seps,
            cx.ci,
            #[trigger] b[k],
            path[0 + k],
        ) by {
            if k < n {
                assert(literal::literal_byte(g.seps, ci, g.literal()[k], dir[k]));
            } else if k > n {
                assert(path[k] == t[k - n - 1]);
            }
        }
        if g.seps.backslash {
            assert forall|k: int|
                0 <= k < b.len() && dir.len() <= 0 + k < path.len() && #[trigger] b[k]
                    == 0x2f implies path[0 + k] != 0x5c by {
                if k > n {
                    assert(path[k] == t[k - n - 1]);
                }
            }
            assert(goes_on(dir, path, b, 0));
            lemma_clear_on(g.body, dir, path, 0);
        }
        assert(lang::matches(g.program(), cx, pre + t));
    }
    if leads_below(g, dir) {
        let t = choose|t: Seq<u8>| #[trigger] lang::matches(g.program(), cx, pre + t);
        let path = pre + t;
        lemma_literal_program(g.body, ci, cx, path);
        assert forall|k: int| 0 <= k < n implies literal::literal_byte(
            g.seps,
            ci,
            #[trigger] g.literal()[k],
            dir[k],
        ) by {
            assert(literal::literal_byte(cx.seps, cx.ci, b[k], path[0 + k]));
        }
        assert(literal::literal_byte(cx.seps, cx.ci, b[n], path[0 + n]));
        assert(path[n] == 0x2f);
    }
}

// The law.

/// The compiled pattern.
pub open spec fn member(text: Seq<char>, opts: CompileOptions, seps: Seps) -> SpecGlob {
    glob::compiled(text, opts, seps)->Ok_0
}

/// A pattern that a union takes, told apart from the path.
pub open spec fn joins(text: Seq<char>, seps: Seps, path: Seq<u8>) -> bool {
    glob::admitted(text) && told_apart(glob::member_body(text), seps, path)
}

/// The syntax trees of the patterns.
pub open spec fn bodies(texts: Seq<Seq<char>>) -> Seq<SpecNode> {
    Seq::new(texts.len(), |i: int| glob::member_body(texts[i]))
}

/// What a compiled pattern or union matches is what its program matches.
pub proof fn lemma_glob_program(g: SpecGlob, path: Seq<u8>)
    requires
        !g.negated,
        told_apart(g.body, g.seps, path),
        openings::fair(g.body),
    ensures
        g.matches(path) == lang::matches(g.program(), g.cx(path.len() as int), path),
{
    if ast::pure_literal(g.body) {
        law_literal_matches_program(g, path);
    } else {
        laws::law_engines_agree(g, path.len() as int, path);
    }
}

/// What lies below a directory is a matter of the program.
pub proof fn lemma_below_program(g: SpecGlob, dir: Seq<u8>)
    requires
        told_apart(g.body, g.seps, dir),
        openings::fair(g.body),
        dir.len() > 0,
    ensures
        g.body_below(dir) == leads_below(g, dir),
{
    let n = dir.len() as int;
    let pre = dir + seq![0x2fu8];
    if ast::pure_literal(g.body) {
        lemma_literal_below(g, dir);
    } else {
        if g.body_below(dir) {
            let t = choose|t: Seq<u8>| #[trigger] g.program_matches(n, pre + t);
            laws::law_engines_agree(g, n, pre + t);
            assert(lang::matches(g.program(), g.cx(n), pre + t));
        }
        if leads_below(g, dir) {
            let t = choose|t: Seq<u8>| #[trigger] lang::matches(g.program(), g.cx(n), pre + t);
            laws::law_engines_agree(g, n, pre + t);
            assert(g.program_matches(n, pre + t));
        }
    }
}

/// The tree of a union of several patterns is no literal.
pub proof fn lemma_union_brace(bs: Seq<SpecNode>)
    requires
        bs.len() >= 2,
    ensures
        !ast::pure_literal(factor::factored(bs)),
{
    lemma_parts_pieces(bs, 0);
    let start = factor::parts(bs).0;
    let xs = nodes(bs);
    let at = start.len() as int;
    assert(factor::factored(bs) == factor::joined(xs) || factor::factored(bs) is Brace);
    assert(xs[at] is Brace);
    assert(!ast::pure_literal(xs[at]));
}

// Trees in which nothing moves.

/// A sequence in which no brace has a separator next to a `**` at its edge
/// stays as it is.
proof fn lemma_spread_from_idle(xs: Seq<SpecNode>, i: int)
    requires
        0 <= i <= xs.len(),
        forall|k: int| 0 <= k < xs.len() ==> !#[trigger] distribute::crowded_at(xs, k),
        forall|k: int| 0 <= k < xs.len() ==> !distribute::crowded(#[trigger] xs[k]),
    ensures
        distribute::spread_from(xs.take(i), xs.skip(i)) == xs,
    decreases xs, xs.len() - i,
{
    let out = xs.take(i);
    let rest = xs.skip(i);
    if i == xs.len() {
        assert(out =~= xs);
    } else {
        let tail = rest.drop_first();
        assert(rest[0] == xs[i]);
        assert(tail =~= xs.skip(i + 1));
        assert(!distribute::crowded(xs[i]));
        assert(decreases_to!(xs => xs[i]));
        lemma_spread_idle(xs[i]);
        assert(out.push(xs[i]) =~= xs.take(i + 1));
        lemma_spread_from_idle(xs, i + 1);
        if let SpecNode::Brace(bs) = xs[i] {
            assert(!distribute::crowded_at(xs, i));
            if i > 0 {
                assert(out.last() == xs[i - 1]);
            }
            if tail.len() > 0 {
                assert(tail[0] == xs[i + 1]);
            }
            assert(!distribute::takes_before(out, bs));
            assert(!distribute::takes_after(bs, tail));
        }
    }
}

proof fn lemma_spread_all_idle(bs: Seq<SpecNode>)
    requires
        forall|k: int| 0 <= k < bs.len() ==> !distribute::crowded(#[trigger] bs[k]),
    ensures
        distribute::spread_all(bs) == bs,
    decreases bs, bs.len(),
{
    if bs.len() > 0 {
        let head = bs.drop_last();
        assert forall|k: int| 0 <= k < head.len() implies !distribute::crowded(
            #[trigger] head[k],
        ) by {
            assert(head[k] == bs[k]);
        }
        lemma_spread_all_idle(head);
        assert(!distribute::crowded(bs[bs.len() - 1]));
        assert(decreases_to!(bs => bs[bs.len() - 1]));
        lemma_spread_idle(bs.last());
        assert(head.push(bs.last()) =~= bs);
    } else {
        assert(distribute::spread_all(bs) =~= bs);
    }
}

/// A tree that is not crowded stays as it is.
pub proof fn lemma_spread_idle(n: SpecNode)
    requires
        !distribute::crowded(n),
    ensures
        distribute::spread(n) == n,
    decreases n, 0int,
{
    match n {
        SpecNode::Concat(xs) => {
            assert(!distribute::some_crowded(xs));
            assert forall|k: int| 0 <= k < xs.len() implies !distribute::crowded(
                #[trigger] xs[k],
            ) by {}
            lemma_spread_from_idle(xs, 0);
            assert(xs.take(0) =~= Seq::<SpecNode>::empty());
            assert(xs.skip(0) =~= xs);
        },
        SpecNode::Brace(bs) => {
            assert(!distribute::some_crowded(bs));
            assert forall|k: int| 0 <= k < bs.len() implies !distribute::crowded(
                #[trigger] bs[k],
            ) by {}
            lemma_spread_all_idle(bs);
        },
        _ => {},
    }
}

pub proof fn lemma_spread_all_index(bs: Seq<SpecNode>)
    ensures
        distribute::spread_all(bs).len() == bs.len(),
        forall|k: int|
            0 <= k < bs.len() ==> #[trigger] distribute::spread_all(bs)[k] == distribute::spread(
                bs[k],
            ),
    decreases bs.len(),
{
    if bs.len() > 0 {
        let head = bs.drop_last();
        lemma_spread_all_index(head);
        let all = distribute::spread_all(bs);
        let front = distribute::spread_all(head);
        assert forall|k: int| 0 <= k < bs.len() implies #[trigger] all[k] == distribute::spread(
            bs[k],
        ) by {
            if k < front.len() {
                assert(all[k] == front[k]);
                assert(head[k] == bs[k]);
            }
        }
    }
}

} // verus!
