//! From a syntax tree to a program.
//!
//! The tree is flattened into raw ops, with adjacent literals merged. Then raw
//! `**` and the separators next to them are folded:
//!
//! | source         | op                 | like          |
//! |----------------|--------------------|---------------|
//! | `**/`          | `OptSegmentsSlash` | `(?:[^/]+/+)*` |
//! | `/` before it  | `SepRun`           | `/+`          |
//! | `/**` at an end | `SlashAnything`   | `/.*`         |
//! | `**` alone     | `GlobstarAny`      | `.*`          |
//!
//! So `**/foo` matches `foo`, `a/**/b` matches `a/b`, and `a/**` does not match
//! `a`. A `**/` at the start of the pattern absorbs leading separators too.

use crate::ast::{self, Node, SpecNode};
use crate::engine::lang::{self, Cx};
use crate::engine::ops::distribute;
use crate::engine::ops::distribute::{distribute_seps, needs_sep_distribution, reversed};
use crate::engine::ops::ir;
use crate::engine::ops::prefixes;
use crate::engine::ops::{Op, OpProgram, SpecOp};
use crate::engine::segment::elems;
use vstd::prelude::*;

verus! {

/// `out` with `op` behind it: merged into a literal that `out` ends with, and
/// left out where it is a `*` behind another.
pub open spec fn append(out: Seq<SpecOp>, op: SpecOp) -> Seq<SpecOp> {
    if out.len() == 0 {
        out.push(op)
    } else {
        match (out.last(), op) {
            (SpecOp::Star, SpecOp::Star) => out,
            (SpecOp::Lit(a), SpecOp::Lit(b)) => out.drop_last().push(SpecOp::Lit(a + b)),
            _ => out.push(op),
        }
    }
}

pub open spec fn append_all(out: Seq<SpecOp>, ops: Seq<SpecOp>) -> Seq<SpecOp>
    decreases ops.len(),
{
    if ops.len() == 0 {
        out
    } else {
        append(append_all(out, ops.drop_last()), ops.last())
    }
}

/// The ops that the leaves of a node stand for, in order.
pub open spec fn raw(n: SpecNode, ci: bool) -> Seq<SpecOp>
    decreases n, 0nat,
{
    match n {
        SpecNode::Literal(b) => seq![SpecOp::Lit(b)],
        SpecNode::Separator => seq![SpecOp::Sep],
        SpecNode::AnyChar => seq![SpecOp::AnyChar],
        SpecNode::Star => seq![SpecOp::Star],
        SpecNode::Globstar => seq![SpecOp::Globstar],
        SpecNode::Class(c) => seq![
            SpecOp::Class(
                if ci {
                    ast::fold_class(c)
                } else {
                    c
                },
            ),
        ],
        SpecNode::Concat(xs) => raw_all(xs, ci),
        SpecNode::Brace(bs) => seq![SpecOp::Alternation(folded_branches(bs, ci))],
    }
}

pub open spec fn raw_all(xs: Seq<SpecNode>, ci: bool) -> Seq<SpecOp>
    decreases xs, xs.len(),
{
    if xs.len() == 0 {
        seq![]
    } else {
        raw_all(xs.drop_last(), ci) + raw(xs.last(), ci)
    }
}

/// Each branch as a sequence of its own.
pub open spec fn folded_branches(bs: Seq<SpecNode>, ci: bool) -> Seq<Seq<SpecOp>>
    decreases bs, bs.len(),
{
    if bs.len() == 0 {
        seq![]
    } else {
        folded_branches(bs.drop_last(), ci).push(fold(append_all(seq![], raw(bs.last(), ci))))
    }
}

/// `**` with the separator behind it becomes a run of segments.
pub open spec fn open_globstars(s: Seq<SpecOp>) -> Seq<SpecOp>
    decreases s.len(),
{
    if s.len() == 0 {
        seq![]
    } else if s[0] is Globstar && s.len() > 1 && s[1] is Sep {
        seq![SpecOp::OptSegmentsSlash] + open_globstars(s.skip(2))
    } else {
        seq![s[0]] + open_globstars(s.skip(1))
    }
}

/// The separator before a run of segments may repeat.
pub open spec fn soften(s: Seq<SpecOp>) -> Seq<SpecOp> {
    Seq::new(
        s.len(),
        |k: int|
            if s[k] is Sep && k + 1 < s.len() && s[k + 1] is OptSegmentsSlash {
                SpecOp::SepRun
            } else {
                s[k]
            },
    )
}

/// `**` with the separator before it becomes anything below that separator.
pub open spec fn close_globstars(s: Seq<SpecOp>) -> Seq<SpecOp>
    decreases s.len(),
{
    if s.len() == 0 {
        seq![]
    } else if s[0] is Sep && s.len() > 1 && s[1] is Globstar {
        seq![SpecOp::SlashAnything] + close_globstars(s.skip(2))
    } else {
        seq![s[0]] + close_globstars(s.skip(1))
    }
}

/// `**` with no separator becomes anything.
pub open spec fn bare_globstars(s: Seq<SpecOp>) -> Seq<SpecOp> {
    Seq::new(
        s.len(),
        |k: int|
            if s[k] is Globstar {
                SpecOp::GlobstarAny
            } else {
                s[k]
            },
    )
}

/// Folds every raw `**`.
pub open spec fn fold(s: Seq<SpecOp>) -> Seq<SpecOp> {
    bare_globstars(close_globstars(soften(open_globstars(s))))
}

/// A `**/` at the start, in each branch that may start the pattern, absorbs
/// leading separators.
pub open spec fn lead(s: Seq<SpecOp>) -> Seq<SpecOp>
    decreases s, 1nat,
{
    if s.len() == 0 {
        s
    } else {
        match s[0] {
            SpecOp::OptSegmentsSlash => seq![SpecOp::LeadingSeps] + s,
            SpecOp::Alternation(bs) => s.update(0, SpecOp::Alternation(lead_branches(bs))),
            _ => s,
        }
    }
}

pub open spec fn lead_branches(bs: Seq<Seq<SpecOp>>) -> Seq<Seq<SpecOp>>
    decreases bs, bs.len(),
{
    if bs.len() == 0 {
        seq![]
    } else {
        lead_branches(bs.drop_last()).push(lead(bs.last()))
    }
}

/// The program of a syntax tree.
pub open spec fn lowered(n: SpecNode, ci: bool) -> Seq<SpecOp> {
    lead(
        fold(
            append_all(
                seq![],
                raw(
                    if distribute::crowded(n) {
                        distribute::spread(n)
                    } else {
                        n
                    },
                    ci,
                ),
            ),
        ),
    )
}

proof fn lemma_append_concat(out: Seq<SpecOp>, a: Seq<SpecOp>, b: Seq<SpecOp>)
    ensures
        append_all(out, a + b) == append_all(append_all(out, a), b),
    decreases b.len(),
{
    if b.len() == 0 {
        assert(a + b =~= a);
    } else {
        assert((a + b).drop_last() =~= a + b.drop_last());
        lemma_append_concat(out, a, b.drop_last());
    }
}

proof fn lemma_append_one(out: Seq<SpecOp>, op: SpecOp)
    ensures
        append_all(out, seq![op]) == append(out, op),
{
    assert(seq![op].drop_last() =~= Seq::<SpecOp>::empty());
    assert(append_all(out, Seq::<SpecOp>::empty()) == out);
}

// What folding leaves.

/// An op as the leaves of a tree give it, or as [`open_globstars`] leaves it.
spec fn early(op: SpecOp) -> bool {
    !(op is SepRun) && !(op is LeadingSeps) && prefixes::tidy_op(op)
}

spec fn all_early(s: Seq<SpecOp>) -> bool {
    forall|k: int| 0 <= k < s.len() ==> early(#[trigger] s[k])
}

/// Solid but for raw `**`.
spec fn nearly(op: SpecOp) -> bool {
    op is Globstar || ir::solid_op(op)
}

spec fn all_nearly(s: Seq<SpecOp>) -> bool {
    forall|k: int| 0 <= k < s.len() ==> nearly(#[trigger] s[k])
}

proof fn lemma_append_keeps(out: Seq<SpecOp>, ops: Seq<SpecOp>)
    ensures
        all_early(out) && all_early(ops) ==> all_early(append_all(out, ops)),
        all_nearly(out) && all_nearly(ops) ==> all_nearly(append_all(out, ops)),
    decreases ops.len(),
{
    if ops.len() > 0 {
        let head = ops.drop_last();
        lemma_append_keeps(out, head);
        let mid = append_all(out, head);
        let op = ops.last();
        let all = append(mid, op);
        assert(op == ops[ops.len() - 1]);
        assert(forall|k: int| 0 <= k < head.len() ==> head[k] == ops[k]);
        if all_early(out) && all_early(ops) {
            assert(all_early(head));
            assert forall|k: int| 0 <= k < all.len() implies early(#[trigger] all[k]) by {
                assert(early(op));
                if k < mid.len() {
                    assert(early(mid[k]));
                }
            }
        }
        if all_nearly(out) && all_nearly(ops) {
            assert(all_nearly(head));
            assert forall|k: int| 0 <= k < all.len() implies nearly(#[trigger] all[k]) by {
                assert(nearly(op));
                if k < mid.len() {
                    assert(nearly(mid[k]));
                }
            }
        }
    }
}

proof fn lemma_raw_keeps(n: SpecNode, ci: bool)
    ensures
        all_early(raw(n, ci)),
        ast::sound(n) ==> all_nearly(raw(n, ci)),
    decreases n, 0nat,
{
    match n {
        SpecNode::Concat(xs) => {
            lemma_raw_all_keeps(xs, ci);
        },
        SpecNode::Brace(bs) => {
            lemma_branches_keep(bs, ci);
            assert(prefixes::tidy_op(SpecOp::Alternation(folded_branches(bs, ci))));
        },
        _ => {},
    }
}

proof fn lemma_raw_all_keeps(xs: Seq<SpecNode>, ci: bool)
    ensures
        all_early(raw_all(xs, ci)),
        ast::all_sound(xs) ==> all_nearly(raw_all(xs, ci)),
    decreases xs, xs.len(),
{
    if xs.len() > 0 {
        let head = xs.drop_last();
        lemma_raw_all_keeps(head, ci);
        lemma_raw_keeps(xs.last(), ci);
        let a = raw_all(head, ci);
        let b = raw(xs.last(), ci);
        assert forall|k: int| 0 <= k < (a + b).len() implies early(#[trigger] (a + b)[k]) by {
            if k < a.len() {
                assert((a + b)[k] == a[k]);
            } else {
                assert((a + b)[k] == b[k - a.len()]);
            }
        }
        if ast::all_sound(xs) {
            assert(ast::sound(xs[xs.len() - 1]));
            assert(ast::all_sound(head)) by {
                assert forall|i: int| 0 <= i < head.len() implies ast::sound(#[trigger] head[i]) by {
                    assert(head[i] == xs[i]);
                }
            }
            assert forall|k: int| 0 <= k < (a + b).len() implies nearly(#[trigger] (a + b)[k]) by {
                if k < a.len() {
                    assert((a + b)[k] == a[k]);
                } else {
                    assert((a + b)[k] == b[k - a.len()]);
                }
            }
        }
    }
}

proof fn lemma_branches_keep(bs: Seq<SpecNode>, ci: bool)
    ensures
        prefixes::tidy_branches(folded_branches(bs, ci)),
        folded_branches(bs, ci).len() == bs.len(),
        ast::all_sound(bs) ==> ir::solid_branches(folded_branches(bs, ci)),
    decreases bs, bs.len(),
{
    if bs.len() > 0 {
        let head = bs.drop_last();
        lemma_branches_keep(head, ci);
        lemma_raw_keeps(bs.last(), ci);
        let none = Seq::<SpecOp>::empty();
        let one = append_all(none, raw(bs.last(), ci));
        lemma_append_keeps(none, raw(bs.last(), ci));
        lemma_fold_keeps(one);
        let front = folded_branches(head, ci);
        let all = folded_branches(bs, ci);
        assert forall|k: int| 0 <= k < all.len() implies prefixes::tidy(#[trigger] all[k]) by {
            if k < front.len() {
                assert(all[k] == front[k]);
            }
        }
        if ast::all_sound(bs) {
            assert(ast::sound(bs[bs.len() - 1]));
            assert(ast::all_sound(head)) by {
                assert forall|i: int| 0 <= i < head.len() implies ast::sound(#[trigger] head[i]) by {
                    assert(head[i] == bs[i]);
                }
            }
            assert forall|k: int| 0 <= k < all.len() implies ir::solid(#[trigger] all[k]) by {
                if k < front.len() {
                    assert(all[k] == front[k]);
                }
            }
        }
    }
}

proof fn lemma_open_keeps(s: Seq<SpecOp>)
    ensures
        all_early(s) ==> all_early(open_globstars(s)),
        all_nearly(s) ==> all_nearly(open_globstars(s)),
    decreases s.len(),
{
    if s.len() > 0 {
        let n: int = if s[0] is Globstar && s.len() > 1 && s[1] is Sep {
            2
        } else {
            1
        };
        let rest = s.skip(n);
        let tail = open_globstars(rest);
        let all = open_globstars(s);
        lemma_open_keeps(rest);
        assert(forall|k: int| 0 <= k < rest.len() ==> rest[k] == s[k + n]);
        assert(forall|k: int| 0 < k < all.len() ==> all[k] == tail[k - 1]);
        if all_early(s) {
            assert(all_early(rest));
            assert(early(s[0]));
            assert forall|k: int| 0 <= k < all.len() implies early(#[trigger] all[k]) by {
                if k > 0 {
                    assert(early(tail[k - 1]));
                }
            }
        }
        if all_nearly(s) {
            assert(all_nearly(rest));
            assert(nearly(s[0]));
            assert forall|k: int| 0 <= k < all.len() implies nearly(#[trigger] all[k]) by {
                if k > 0 {
                    assert(nearly(tail[k - 1]));
                }
            }
        }
    }
}

proof fn lemma_close_keeps(s: Seq<SpecOp>)
    ensures
        prefixes::tidy(s) ==> prefixes::tidy(close_globstars(s)),
        all_nearly(s) ==> all_nearly(close_globstars(s)),
        s.len() > 0 && s[0] is OptSegmentsSlash ==> close_globstars(s).len() > 0
            && close_globstars(s)[0] is OptSegmentsSlash,
    decreases s.len(),
{
    if s.len() > 0 {
        let n: int = if s[0] is Sep && s.len() > 1 && s[1] is Globstar {
            2
        } else {
            1
        };
        let rest = s.skip(n);
        let tail = close_globstars(rest);
        let all = close_globstars(s);
        lemma_close_keeps(rest);
        assert(forall|k: int| 0 <= k < rest.len() ==> rest[k] == s[k + n]);
        assert(forall|k: int| 0 < k < all.len() ==> all[k] == tail[k - 1]);
        if prefixes::tidy(s) {
            assert(prefixes::tidy(rest)) by {
                assert forall|k: int| 0 <= k < rest.len() implies #[trigger] prefixes::run_ok(
                    rest,
                    k,
                ) by {
                    assert(prefixes::run_ok(s, k + n));
                }
                assert forall|k: int| 0 <= k < rest.len() implies prefixes::tidy_op(
                    #[trigger] rest[k],
                ) by {
                    assert(prefixes::tidy_op(s[k + n]));
                }
            }
            assert(prefixes::run_ok(s, 0));
            assert(prefixes::tidy_op(s[0]));
            assert forall|k: int| 0 <= k < all.len() implies #[trigger] prefixes::run_ok(all, k) by {
                if k > 0 {
                    assert(prefixes::run_ok(tail, k - 1));
                }
            }
            assert forall|k: int| 0 <= k < all.len() implies prefixes::tidy_op(
                #[trigger] all[k],
            ) by {
                if k > 0 {
                    assert(prefixes::tidy_op(tail[k - 1]));
                }
            }
        }
        if all_nearly(s) {
            assert(all_nearly(rest));
            assert(nearly(s[0]));
            assert forall|k: int| 0 <= k < all.len() implies nearly(#[trigger] all[k]) by {
                if k > 0 {
                    assert(nearly(tail[k - 1]));
                }
            }
        }
    }
}

proof fn lemma_fold_keeps(s: Seq<SpecOp>)
    ensures
        all_early(s) ==> prefixes::tidy(fold(s)),
        all_nearly(s) ==> ir::solid(fold(s)),
{
    let a = open_globstars(s);
    lemma_open_keeps(s);
    let b = soften(a);
    if all_early(s) {
        assert(prefixes::tidy(b)) by {
            assert forall|k: int| 0 <= k < b.len() implies #[trigger] prefixes::run_ok(b, k) by {
                assert(early(a[k]));
            }
            assert forall|k: int| 0 <= k < b.len() implies prefixes::tidy_op(#[trigger] b[k]) by {
                assert(early(a[k]));
            }
        }
    }
    if all_nearly(s) {
        assert forall|k: int| 0 <= k < b.len() implies nearly(#[trigger] b[k]) by {
            assert(nearly(a[k]));
        }
    }
    lemma_close_keeps(b);
    let c = close_globstars(b);
    let d = fold(s);
    assert(d == bare_globstars(c));
    if all_early(s) {
        assert forall|k: int| 0 <= k < d.len() implies #[trigger] prefixes::run_ok(d, k) by {
            assert(prefixes::run_ok(c, k));
        }
        assert forall|k: int| 0 <= k < d.len() implies prefixes::tidy_op(#[trigger] d[k]) by {
            assert(prefixes::tidy_op(c[k]));
        }
    }
    if all_nearly(s) {
        assert forall|k: int| 0 <= k < d.len() implies ir::solid_op(#[trigger] d[k]) by {
            assert(nearly(c[k]));
        }
    }
}

proof fn lemma_lead_keeps(s: Seq<SpecOp>)
    ensures
        prefixes::tidy(s) ==> prefixes::tidy(lead(s)),
        ir::solid(s) ==> ir::solid(lead(s)),
    decreases s, 1nat,
{
    if s.len() > 0 {
        let all = lead(s);
        match s[0] {
            SpecOp::OptSegmentsSlash => {
                assert(forall|k: int| 0 < k < all.len() ==> all[k] == s[k - 1]);
                if prefixes::tidy(s) {
                    assert forall|k: int| 0 <= k < all.len() implies #[trigger] prefixes::run_ok(
                        all,
                        k,
                    ) by {
                        if k > 0 {
                            assert(prefixes::run_ok(s, k - 1));
                        }
                    }
                    assert forall|k: int| 0 <= k < all.len() implies prefixes::tidy_op(
                        #[trigger] all[k],
                    ) by {
                        if k > 0 {
                            assert(prefixes::tidy_op(s[k - 1]));
                        }
                    }
                }
                if ir::solid(s) {
                    assert forall|k: int| 0 <= k < all.len() implies ir::solid_op(
                        #[trigger] all[k],
                    ) by {
                        if k > 0 {
                            assert(ir::solid_op(s[k - 1]));
                        }
                    }
                }
            },
            SpecOp::Alternation(bs) => {
                lemma_lead_branches_keep(bs);
                if prefixes::tidy(s) {
                    assert(prefixes::tidy_op(s[0]));
                    assert forall|k: int| 0 <= k < all.len() implies #[trigger] prefixes::run_ok(
                        all,
                        k,
                    ) by {
                        assert(prefixes::run_ok(s, k));
                    }
                    assert forall|k: int| 0 <= k < all.len() implies prefixes::tidy_op(
                        #[trigger] all[k],
                    ) by {
                        if k > 0 {
                            assert(prefixes::tidy_op(s[k]));
                        }
                    }
                }
                if ir::solid(s) {
                    assert(ir::solid_op(s[0]));
                    assert forall|k: int| 0 <= k < all.len() implies ir::solid_op(
                        #[trigger] all[k],
                    ) by {
                        if k > 0 {
                            assert(ir::solid_op(s[k]));
                        }
                    }
                }
            },
            _ => {},
        }
    }
}

proof fn lemma_lead_branches_keep(bs: Seq<Seq<SpecOp>>)
    ensures
        lead_branches(bs).len() == bs.len(),
        prefixes::tidy_branches(bs) ==> prefixes::tidy_branches(lead_branches(bs)),
        ir::solid_branches(bs) ==> ir::solid_branches(lead_branches(bs)),
    decreases bs, bs.len(),
{
    if bs.len() > 0 {
        let head = bs.drop_last();
        lemma_lead_branches_keep(head);
        lemma_lead_keeps(bs.last());
        let front = lead_branches(head);
        let all = lead_branches(bs);
        assert(bs.last() == bs[bs.len() - 1]);
        assert(forall|k: int| 0 <= k < head.len() ==> head[k] == bs[k]);
        if prefixes::tidy_branches(bs) {
            assert(prefixes::tidy_branches(head));
            assert(prefixes::tidy(bs[bs.len() - 1]));
            assert forall|k: int| 0 <= k < all.len() implies prefixes::tidy(#[trigger] all[k]) by {
                if k < front.len() {
                    assert(all[k] == front[k]);
                }
            }
        }
        if ir::solid_branches(bs) {
            assert(ir::solid_branches(head));
            assert(ir::solid(bs[bs.len() - 1]));
            assert forall|k: int| 0 <= k < all.len() implies ir::solid(#[trigger] all[k]) by {
                if k < front.len() {
                    assert(all[k] == front[k]);
                }
            }
        }
    }
}

/// What a lowered program looks like.
pub proof fn lemma_lowered(n: SpecNode, ci: bool)
    ensures
        prefixes::tidy(lowered(n, ci)),
        ast::sound(n) ==> ir::solid(lowered(n, ci)),
{
    let m = if distribute::crowded(n) {
        distribute::spread(n)
    } else {
        n
    };
    if ast::sound(n) && distribute::crowded(n) {
        distribute::lemma_spread_sound(n);
    }
    let none = Seq::<SpecOp>::empty();
    lemma_raw_keeps(m, ci);
    lemma_append_keeps(none, raw(m, ci));
    lemma_fold_keeps(append_all(none, raw(m, ci)));
    lemma_lead_keeps(fold(append_all(none, raw(m, ci))));
}

/// `*` twice in a row is `*`.
pub proof fn lemma_star_pair(cx: Cx, s: Seq<u8>, i: int, j: int)
    ensures
        lang::ops_span(seq![SpecOp::Star, SpecOp::Star], cx, s, i, j) <==> lang::ops_span(
            seq![SpecOp::Star],
            cx,
            s,
            i,
            j,
        ),
{
    let one = seq![SpecOp::Star];
    assert(seq![SpecOp::Star, SpecOp::Star] =~= one + one);
    lang::lemma_span_concat(one, one, cx, s, i, j);
    lang::lemma_span_single(SpecOp::Star, cx, s, i, j);
    if lang::op_span(SpecOp::Star, cx, s, i, j) {
        lang::lemma_span_single(SpecOp::Star, cx, s, i, i);
        assert(lang::cut(i) && lang::ops_span(one, cx, s, i, i));
    }
    if lang::ops_span(one + one, cx, s, i, j) {
        let k = choose|k: int| #[trigger]
            lang::cut(k) && lang::ops_span(one, cx, s, i, k) && lang::ops_span(one, cx, s, k, j);
        lang::lemma_span_single(SpecOp::Star, cx, s, i, k);
        lang::lemma_span_single(SpecOp::Star, cx, s, k, j);
    }
}

/// Two ends that match alike do so behind anything.
pub proof fn lemma_same_end(
    head: Seq<SpecOp>,
    a: Seq<SpecOp>,
    b: Seq<SpecOp>,
    cx: Cx,
    s: Seq<u8>,
    i: int,
    j: int,
)
    requires
        forall|m: int| #[trigger]
            lang::ops_span(a, cx, s, m, j) <==> lang::ops_span(b, cx, s, m, j),
    ensures
        lang::ops_span(head + a, cx, s, i, j) <==> lang::ops_span(head + b, cx, s, i, j),
{
    lang::lemma_span_concat(head, a, cx, s, i, j);
    lang::lemma_span_concat(head, b, cx, s, i, j);
    if lang::ops_span(head + a, cx, s, i, j) {
        let k = choose|k: int| #[trigger]
            lang::cut(k) && lang::ops_span(head, cx, s, i, k) && lang::ops_span(a, cx, s, k, j);
        assert(lang::cut(k) && lang::ops_span(b, cx, s, k, j));
    }
    if lang::ops_span(head + b, cx, s, i, j) {
        let k = choose|k: int| #[trigger]
            lang::cut(k) && lang::ops_span(head, cx, s, i, k) && lang::ops_span(b, cx, s, k, j);
        assert(lang::cut(k) && lang::ops_span(a, cx, s, k, j));
    }
}

/// Merging literals and dropping a `*` behind another never changes what a
/// program matches.
pub proof fn law_merging_keeps_matches(
    out: Seq<SpecOp>,
    ops: Seq<SpecOp>,
    cx: Cx,
    s: Seq<u8>,
    i: int,
    j: int,
)
    ensures
        lang::ops_span(append_all(out, ops), cx, s, i, j) <==> lang::ops_span(
            out + ops,
            cx,
            s,
            i,
            j,
        ),
    decreases ops.len(),
{
    if ops.len() == 0 {
        assert(out + ops =~= out);
    } else {
        let head = ops.drop_last();
        let op = ops.last();
        let mid = append_all(out, head);
        assert(out + ops =~= (out + head) + seq![op]);
        lang::lemma_span_concat(out + head, seq![op], cx, s, i, j);
        lang::lemma_span_concat(mid, seq![op], cx, s, i, j);
        assert forall|k: int| #[trigger] lang::cut(k) implies (lang::ops_span(mid, cx, s, i, k)
            <==> lang::ops_span(out + head, cx, s, i, k)) by {
            law_merging_keeps_matches(out, head, cx, s, i, k);
        }
        assert(lang::ops_span(mid + seq![op], cx, s, i, j) <==> lang::ops_span(
            out + ops,
            cx,
            s,
            i,
            j,
        ));
        let all = append(mid, op);
        if mid.len() > 0 && mid.last() is Star && op is Star {
            let front = mid.drop_last();
            let two = seq![SpecOp::Star, SpecOp::Star];
            let one = seq![SpecOp::Star];
            assert(mid + seq![op] =~= front + two);
            assert(mid =~= front + one);
            assert forall|m: int| #[trigger]
                lang::ops_span(two, cx, s, m, j) <==> lang::ops_span(one, cx, s, m, j) by {
                lemma_star_pair(cx, s, m, j);
            }
            lemma_same_end(front, two, one, cx, s, i, j);
        } else if mid.len() > 0 && mid.last() is Lit && op is Lit {
            let front = mid.drop_last();
            let a = mid.last()->Lit_0;
            let b = op->Lit_0;
            let two = seq![SpecOp::Lit(a), SpecOp::Lit(b)];
            let one = seq![SpecOp::Lit(a + b)];
            assert(mid + seq![op] =~= front + two);
            assert(all =~= front + one);
            assert forall|m: int| #[trigger]
                lang::ops_span(two, cx, s, m, j) <==> lang::ops_span(one, cx, s, m, j) by {
                elems::lemma_lit_pair(a, b, cx, s, m, j);
            }
            lemma_same_end(front, two, one, cx, s, i, j);
        } else {
            assert(all =~= mid + seq![op]);
        }
    }
}

// The code.

proof fn lemma_view_push(ops: Seq<Op>, op: Op)
    ensures
        ir::ops_view(ops.push(op)) == ir::ops_view(ops).push(ir::op_view(op)),
{
    assert(ir::ops_view(ops.push(op)) =~= ir::ops_view(ops).push(ir::op_view(op)));
}

fn push_op(out: &mut Vec<Op>, op: Op)
    ensures
        ir::ops_view(final(out)@) == append(ir::ops_view(old(out)@), ir::op_view(op)),
{
    let ghost before = out@;
    let ghost views = ir::ops_view(before);
    let n: usize = out.len();
    if n > 0 {
        assert(views.last() == ir::op_view(before[n - 1]));
        if matches!(out[n - 1], Op::Star) && matches!(op, Op::Star) {
            return;
        }
        if matches!(out[n - 1], Op::Lit(_)) {
            if let Op::Lit(bytes) = op {
                if let Some(Op::Lit(previous)) = out.pop() {
                    let mut joined: Vec<u8> = previous;
                    let ghost a = joined@;
                    joined.extend_from_slice(&bytes);
                    proof {
                        assert(joined@ =~= a + bytes@);
                        assert(ir::ops_view(out@) =~= views.drop_last());
                        lemma_view_push(out@, Op::Lit(joined));
                    }
                    out.push(Op::Lit(joined));
                }
                return;
            }
        }
    }
    proof {
        lemma_view_push(before, op);
    }
    out.push(op);
}

fn lower_into(node: &Node, out: &mut Vec<Op>, case_insensitive: bool)
    ensures
        ir::ops_view(final(out)@) == append_all(
            ir::ops_view(old(out)@),
            raw(node@, case_insensitive),
        ),
    decreases node,
{
    let ghost views = ir::ops_view(out@);
    match node {
        Node::Literal(bytes) => {
            let copy: Vec<u8> = bytes.clone();
            proof {
                assert(copy@ =~= bytes@);
                lemma_append_one(views, SpecOp::Lit(bytes@));
            }
            push_op(out, Op::Lit(copy));
        },
        Node::Separator => {
            proof {
                lemma_append_one(views, SpecOp::Sep);
            }
            push_op(out, Op::Sep);
        },
        Node::AnyChar => {
            proof {
                lemma_append_one(views, SpecOp::AnyChar);
            }
            push_op(out, Op::AnyChar);
        },
        Node::Star => {
            proof {
                lemma_append_one(views, SpecOp::Star);
            }
            push_op(out, Op::Star);
        },
        Node::Globstar => {
            proof {
                lemma_append_one(views, SpecOp::Globstar);
            }
            push_op(out, Op::Globstar);
        },
        Node::Class(class) => {
            let class = if case_insensitive {
                class.expanded_ascii_case_insensitive()
            } else {
                class.clone()
            };
            proof {
                lemma_append_one(views, SpecOp::Class(class@));
            }
            push_op(out, Op::Class(class));
        },
        Node::Concat(children) => {
            lower_children(children, out, case_insensitive);
        },
        Node::Brace(branches) => {
            let lowered = lower_branches(branches, case_insensitive);
            proof {
                lemma_append_one(views, SpecOp::Alternation(ir::branches_view(lowered@)));
            }
            push_op(out, Op::Alternation(lowered));
        },
    }
}

fn lower_children(children: &Vec<Node>, out: &mut Vec<Op>, case_insensitive: bool)
    ensures
        ir::ops_view(final(out)@) == append_all(
            ir::ops_view(old(out)@),
            raw_all(ast::nodes_view(children@), case_insensitive),
        ),
    decreases children,
{
    let ghost views = ir::ops_view(out@);
    let ghost xs = ast::nodes_view(children@);
    assert(xs.take(0) =~= seq![]);
    for i in 0..children.len()
        invariant
            xs == ast::nodes_view(children@),
            ir::ops_view(out@) == append_all(
                views,
                raw_all(xs.take(i as int), case_insensitive),
            ),
    {
        assert(decreases_to!(children => children@[i as int]));
        lower_into(&children[i], out, case_insensitive);
        proof {
            let t = xs.take(i + 1);
            assert(t.drop_last() =~= xs.take(i as int));
            assert(t.last() == xs[i as int]);
            lemma_append_concat(
                views,
                raw_all(xs.take(i as int), case_insensitive),
                raw(xs[i as int], case_insensitive),
            );
        }
    }
    assert(xs.take(children@.len() as int) =~= xs);
}

fn lower_branches(branches: &Vec<Node>, case_insensitive: bool) -> (r: Vec<Vec<Op>>)
    ensures
        ir::branches_view(r@) == folded_branches(ast::nodes_view(branches@), case_insensitive),
    decreases branches,
{
    let ghost bs = ast::nodes_view(branches@);
    let mut lowered: Vec<Vec<Op>> = Vec::new();
    proof {
        assert(bs.take(0) =~= seq![]);
        assert(ir::branches_view(lowered@) =~= seq![]);
    }
    for i in 0..branches.len()
        invariant
            bs == ast::nodes_view(branches@),
            ir::branches_view(lowered@) == folded_branches(bs.take(i as int), case_insensitive),
    {
        assert(decreases_to!(branches => branches@[i as int]));
        let mut branch_ops: Vec<Op> = Vec::new();
        assert(ir::ops_view(branch_ops@) =~= seq![]);
        lower_into(&branches[i], &mut branch_ops, case_insensitive);
        let folded = fold_globstars(branch_ops);
        let ghost before = lowered@;
        lowered.push(folded);
        proof {
            let t = bs.take(i + 1);
            assert(t.drop_last() =~= bs.take(i as int));
            assert(t.last() == bs[i as int]);
            assert(ir::branches_view(lowered@) =~= ir::branches_view(before).push(
                ir::ops_view(folded@),
            ));
        }
    }
    assert(bs.take(branches@.len() as int) =~= bs);
    lowered
}

/// From right to left: `f` of what is left of `ops` and of what was taken.
fn open_pairs(ops: Vec<Op>) -> (r: Vec<Op>)
    ensures
        ir::ops_view(r@) == open_globstars(ir::ops_view(ops@)),
{
    let ghost all = ir::ops_view(ops@);
    let mut ops = ops;
    let mut back: Vec<Op> = Vec::new();
    proof {
        assert(all.skip(all.len() as int) =~= seq![]);
        assert(ir::ops_view(back@).reverse() =~= seq![]);
        assert(all.take(all.len() as int) =~= all);
    }
    while ops.len() > 0
        invariant
            ops@.len() <= all.len(),
            ir::ops_view(ops@) == all.take(ops@.len() as int),
            ir::ops_view(back@).reverse() == open_globstars(all.skip(ops@.len() as int)),
        decreases ops@.len(),
    {
        let ghost n = ops@.len() as int;
        let ghost done = all.skip(n);
        let ghost bv = ir::ops_view(back@);
        let ghost s = all.skip(n - 1);
        proof {
            assert(s[0] == all[n - 1]);
            assert(all.take(n)[n - 1] == ir::op_view(ops@[n - 1]));
            assert(s.skip(1) =~= done);
            if done.len() > 0 {
                assert(s.skip(2) =~= done.skip(1));
                assert(s[1] == done[0]);
            }
            assert(bv.len() > 0 ==> bv.last() == bv.reverse()[0]);
        }
        if let Some(op) = ops.pop() {
            assert(ir::ops_view(ops@) =~= all.take(n - 1));
            let m: usize = back.len();
            assert(m > 0 ==> bv.last() == ir::op_view(back@[m - 1]));
            if matches!(op, Op::Globstar) && m > 0 && matches!(back[m - 1], Op::Sep) {
                let dropped = back.pop();
                back.push(Op::OptSegmentsSlash);
                proof {
                    assert(done.len() > 0);
                    assert(done[0] is Sep);
                    assert(open_globstars(done) == seq![done[0]] + open_globstars(done.skip(1)));
                    assert(open_globstars(done).drop_first() =~= open_globstars(done.skip(1)));
                    assert(ir::ops_view(back@).reverse() =~= seq![SpecOp::OptSegmentsSlash]
                        + bv.reverse().drop_first());
                }
            } else {
                proof {
                    lemma_view_push(back@, op);
                }
                back.push(op);
                proof {
                    assert(ir::ops_view(back@).reverse() =~= seq![ir::op_view(op)] + bv.reverse());
                    if done.len() > 0 && done[0] is Sep {
                        assert(open_globstars(done)[0] == done[0]);
                    }
                }
            }
        }
    }
    assert(all.skip(0) =~= all);
    let ghost bv = ir::ops_view(back@);
    let r = reversed(back);
    assert(ir::ops_view(r@) =~= bv.reverse());
    r
}

fn close_pairs(ops: Vec<Op>) -> (r: Vec<Op>)
    ensures
        ir::ops_view(r@) == close_globstars(ir::ops_view(ops@)),
{
    let ghost all = ir::ops_view(ops@);
    let mut ops = ops;
    let mut back: Vec<Op> = Vec::new();
    proof {
        assert(all.skip(all.len() as int) =~= seq![]);
        assert(ir::ops_view(back@).reverse() =~= seq![]);
        assert(all.take(all.len() as int) =~= all);
    }
    while ops.len() > 0
        invariant
            ops@.len() <= all.len(),
            ir::ops_view(ops@) == all.take(ops@.len() as int),
            ir::ops_view(back@).reverse() == close_globstars(all.skip(ops@.len() as int)),
        decreases ops@.len(),
    {
        let ghost n = ops@.len() as int;
        let ghost done = all.skip(n);
        let ghost bv = ir::ops_view(back@);
        let ghost s = all.skip(n - 1);
        proof {
            assert(s[0] == all[n - 1]);
            assert(all.take(n)[n - 1] == ir::op_view(ops@[n - 1]));
            assert(s.skip(1) =~= done);
            if done.len() > 0 {
                assert(s.skip(2) =~= done.skip(1));
                assert(s[1] == done[0]);
            }
            assert(bv.len() > 0 ==> bv.last() == bv.reverse()[0]);
        }
        if let Some(op) = ops.pop() {
            assert(ir::ops_view(ops@) =~= all.take(n - 1));
            let m: usize = back.len();
            assert(m > 0 ==> bv.last() == ir::op_view(back@[m - 1]));
            if matches!(op, Op::Sep) && m > 0 && matches!(back[m - 1], Op::Globstar) {
                let dropped = back.pop();
                back.push(Op::SlashAnything);
                proof {
                    assert(done.len() > 0);
                    assert(done[0] is Globstar);
                    assert(close_globstars(done) == seq![done[0]] + close_globstars(done.skip(1)));
                    assert(close_globstars(done).drop_first() =~= close_globstars(done.skip(1)));
                    assert(ir::ops_view(back@).reverse() =~= seq![SpecOp::SlashAnything]
                        + bv.reverse().drop_first());
                }
            } else {
                proof {
                    lemma_view_push(back@, op);
                }
                back.push(op);
                proof {
                    assert(ir::ops_view(back@).reverse() =~= seq![ir::op_view(op)] + bv.reverse());
                    if done.len() > 0 && done[0] is Globstar {
                        assert(close_globstars(done)[0] == done[0]);
                    }
                }
            }
        }
    }
    assert(all.skip(0) =~= all);
    let ghost bv = ir::ops_view(back@);
    let r = reversed(back);
    assert(ir::ops_view(r@) =~= bv.reverse());
    r
}

/// Folds raw `**` and the separators next to them.
fn fold_globstars(ops: Vec<Op>) -> (r: Vec<Op>)
    ensures
        ir::ops_view(r@) == fold(ir::ops_view(ops@)),
{
    let mut opened = open_pairs(ops);
    let ghost a = ir::ops_view(opened@);
    let n: usize = opened.len();
    let mut i: usize = 0;
    while i < n
        invariant
            i <= n,
            n == opened@.len(),
            n == a.len(),
            forall|k: int| 0 <= k < i ==> ir::op_view(#[trigger] opened@[k]) == soften(a)[k],
            forall|k: int| i <= k < n ==> ir::op_view(#[trigger] opened@[k]) == a[k],
        decreases n - i,
    {
        assert(ir::op_view(opened@[i as int]) == a[i as int]);
        if i + 1 < n && matches!(opened[i], Op::Sep) && matches!(opened[i + 1], Op::OptSegmentsSlash) {
            opened[i] = Op::SepRun;
        }
        i = i + 1;
    }
    assert(ir::ops_view(opened@) =~= soften(a));
    let mut closed = close_pairs(opened);
    let ghost c = ir::ops_view(closed@);
    let m: usize = closed.len();
    let mut j: usize = 0;
    while j < m
        invariant
            j <= m,
            m == closed@.len(),
            m == c.len(),
            forall|k: int| 0 <= k < j ==> ir::op_view(#[trigger] closed@[k]) == bare_globstars(c)[k],
            forall|k: int| j <= k < m ==> ir::op_view(#[trigger] closed@[k]) == c[k],
        decreases m - j,
    {
        assert(ir::op_view(closed@[j as int]) == c[j as int]);
        if matches!(closed[j], Op::Globstar) {
            closed[j] = Op::GlobstarAny;
        }
        j = j + 1;
    }
    assert(ir::ops_view(closed@) =~= bare_globstars(c));
    closed
}

/// Lets a `**/` at the start absorb leading separators.
fn apply_leading_seps(ops: Vec<Op>) -> (r: Vec<Op>)
    ensures
        ir::ops_view(r@) == lead(ir::ops_view(ops@)),
    decreases ir::ops_view(ops@), 1nat,
{
    let ghost views = ir::ops_view(ops@);
    let mut ops = ops;
    if ops.len() == 0 {
        return ops;
    }
    assert(views[0] == ir::op_view(ops@[0]));
    if matches!(ops[0], Op::OptSegmentsSlash) {
        ops.insert(0, Op::LeadingSeps);
        assert(ir::ops_view(ops@) =~= seq![SpecOp::LeadingSeps] + views);
    } else if matches!(ops[0], Op::Alternation(_)) {
        if let Op::Alternation(branches) = ops.remove(0) {
            let ghost bs = ir::branches_view(branches@);
            assert(decreases_to!(views => views[0]));
            assert(views[0]->Alternation_0 == bs);
            assert(decreases_to!(views[0] => views[0]->Alternation_0));
            let led = lead_each(branches);
            ops.insert(0, Op::Alternation(led));
            assert(ir::ops_view(ops@) =~= views.update(
                0,
                SpecOp::Alternation(lead_branches(bs)),
            ));
        }
    }
    ops
}

fn lead_each(branches: Vec<Vec<Op>>) -> (r: Vec<Vec<Op>>)
    ensures
        ir::branches_view(r@) == lead_branches(ir::branches_view(branches@)),
    decreases ir::branches_view(branches@), branches@.len(),
{
    let ghost bs = ir::branches_view(branches@);
    let mut out: Vec<Vec<Op>> = Vec::new();
    let mut stack: Vec<Vec<Op>> = reversed(branches);
    let ghost mut i: int = 0;
    proof {
        assert(ir::branches_view(out@) =~= seq![]);
        assert(bs.take(0) =~= seq![]);
    }
    while stack.len() > 0
        invariant
            bs == ir::branches_view(branches@),
            0 <= i,
            i + stack@.len() == bs.len(),
            stack@ == branches@.reverse().take(stack@.len() as int),
            ir::branches_view(out@) == lead_branches(bs.take(i)),
        decreases stack@.len(),
    {
        let ghost n = stack@.len() as int;
        if let Some(branch) = stack.pop() {
            proof {
                assert(stack@ =~= branches@.reverse().take(n - 1));
                assert(branch == branches@.reverse()[n - 1]);
                assert(ir::ops_view(branch@) == bs[i]);
                assert(decreases_to!(bs => bs[i]));
            }
            let led = apply_leading_seps(branch);
            let ghost before = out@;
            out.push(led);
            proof {
                assert(ir::branches_view(out@) =~= ir::branches_view(before).push(
                    ir::ops_view(led@),
                ));
                let t = bs.take(i + 1);
                assert(t.drop_last() =~= bs.take(i));
                assert(t.last() == bs[i]);
                i = i + 1;
            }
        }
    }
    assert(bs.take(i) =~= bs);
    out
}

fn finish(node: &Node, case_insensitive: bool) -> (r: OpProgram)
    ensures
        r.wf(),
        r@ == lead(fold(append_all(seq![], raw(node@, case_insensitive)))),
        r.case_insensitive == case_insensitive,
{
    let mut ops: Vec<Op> = Vec::new();
    assert(ir::ops_view(ops@) =~= seq![]);
    lower_into(node, &mut ops, case_insensitive);
    OpProgram::new(apply_leading_seps(fold_globstars(ops)), case_insensitive)
}

/// Lowers a syntax tree to one normalized program. Braces stay nested, so they
/// are never multiplied out.
pub fn lower(node: &Node, case_insensitive: bool) -> (r: OpProgram)
    ensures
        r.wf(),
        r@ == lowered(node@, case_insensitive),
        r.case_insensitive == case_insensitive,
        prefixes::tidy(r@),
        ast::sound(node@) ==> ir::solid(r@),
{
    proof {
        lemma_lowered(node@, case_insensitive);
    }
    if needs_sep_distribution(node) {
        finish(&distribute_seps(node.clone()), case_insensitive)
    } else {
        finish(node, case_insensitive)
    }
}

/// [`lower`] of a tree that is no longer needed.
pub fn lower_owned(node: Node, case_insensitive: bool) -> (r: OpProgram)
    ensures
        r.wf(),
        r@ == lowered(node@, case_insensitive),
        r.case_insensitive == case_insensitive,
        prefixes::tidy(r@),
        ast::sound(node@) ==> ir::solid(r@),
{
    proof {
        lemma_lowered(node@, case_insensitive);
    }
    if needs_sep_distribution(&node) {
        finish(&distribute_seps(node), case_insensitive)
    } else {
        finish(&node, case_insensitive)
    }
}

} // verus!
