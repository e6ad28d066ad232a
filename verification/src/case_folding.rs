//! Where ASCII case is ignored, it makes no difference to a match.
//!
//! Literals are compared up to case, and lowering folds every class over it, so
//! a program cannot tell two paths apart that differ in case alone.

use crate::ast::{self, SpecClass, SpecNode};
use crate::engine::lang::{self, Cx};
use crate::engine::literal;
use crate::engine::ops::distribute;
use crate::engine::ops::lower;
use crate::engine::ops::SpecOp;
use crate::engine::segment::elems;
use crate::engine::segment::exec;
use crate::engine::segment::forks;
use crate::glob::{Glob, SpecGlob};
use vstd::prelude::*;

verus! {

/// The paths differ in ASCII case alone.
pub open spec fn same_letters(s: Seq<u8>, t: Seq<u8>) -> bool {
    s.len() == t.len() && forall|k: int|
        #![trigger s[k]]
        #![trigger t[k]]
        0 <= k < s.len() ==> ast::same_byte(true, s[k], t[k])
}

/// The class lists a letter in both cases or in neither.
pub open spec fn even_class(c: SpecClass) -> bool {
    forall|b: u8| ast::listed(c.items, b) == ast::listed(c.items, #[trigger] ast::case_alt(b))
}

/// Every class is even.
pub open spec fn even_op(op: SpecOp) -> bool
    decreases op, 0int,
{
    match op {
        SpecOp::Class(c) => even_class(c),
        SpecOp::Alternation(bs) => even_branches(bs),
        _ => true,
    }
}

pub open spec fn even(ops: Seq<SpecOp>) -> bool
    decreases ops, 1int,
{
    forall|i: int| 0 <= i < ops.len() ==> even_op(#[trigger] ops[i])
}

pub open spec fn even_branches(bs: Seq<Seq<SpecOp>>) -> bool
    decreases bs, 2int,
{
    forall|i: int| 0 <= i < bs.len() ==> even(#[trigger] bs[i])
}

proof fn lemma_same_letters_turned(s: Seq<u8>, t: Seq<u8>)
    requires
        same_letters(s, t),
    ensures
        same_letters(t, s),
{
    assert forall|k: int| 0 <= k < t.len() implies ast::same_byte(true, #[trigger] t[k], s[k]) by {
        assert(ast::same_byte(true, s[k], t[k]));
    }
}

/// What matching asks of a byte does not depend on its case.
proof fn lemma_hidden_alike(cx: Cx, s: Seq<u8>, t: Seq<u8>)
    requires
        same_letters(s, t),
    ensures
        forall|k: int|
            #![trigger s[k]]
            #![trigger t[k]]
            0 <= k < s.len() ==> cx.seps.has(s[k]) == cx.seps.has(t[k]),
        forall|k: int|
            #![trigger lang::hidden(cx, s, k)]
            #![trigger lang::hidden(cx, t, k)]
            lang::hidden(cx, s, k) == lang::hidden(cx, t, k),
{
    assert forall|k: int| lang::hidden(cx, s, k) == lang::hidden(cx, t, k) by {
        if 0 <= k < s.len() {
            assert(ast::same_byte(true, s[k], t[k]));
            if k > 0 {
                assert(ast::same_byte(true, s[k - 1], t[k - 1]));
            }
        }
    }
}

/// A program whose classes are even matches a path in any case.
proof fn lemma_even_span(ops: Seq<SpecOp>, cx: Cx, s: Seq<u8>, t: Seq<u8>, i: int, j: int)
    requires
        even(ops),
        cx.ci,
        same_letters(s, t),
        lang::ops_span(ops, cx, s, i, j),
    ensures
        lang::ops_span(ops, cx, t, i, j),
    decreases ops, 1int,
{
    if ops.len() > 0 {
        let rest = ops.drop_first();
        let k = choose|k: int| #[trigger]
            lang::cut(k) && lang::op_span(ops[0], cx, s, i, k) && lang::ops_span(rest, cx, s, k, j);
        assert(even(rest)) by {
            assert forall|x: int| 0 <= x < rest.len() implies even_op(#[trigger] rest[x]) by {
                assert(even_op(ops[x + 1]));
            }
        }
        assert(even_op(ops[0]));
        lemma_even_op_span(ops[0], cx, s, t, i, k);
        lemma_even_span(rest, cx, s, t, k, j);
        assert(lang::cut(k) && lang::op_span(ops[0], cx, t, i, k));
    }
}

proof fn lemma_even_op_span(op: SpecOp, cx: Cx, s: Seq<u8>, t: Seq<u8>, i: int, j: int)
    requires
        even_op(op),
        cx.ci,
        same_letters(s, t),
        lang::op_span(op, cx, s, i, j),
    ensures
        lang::op_span(op, cx, t, i, j),
    decreases op, 0int,
{
    lemma_hidden_alike(cx, s, t);
    match op {
        SpecOp::Lit(b) => {
            assert forall|k: int| 0 <= k < b.len() implies ast::same_byte(
                cx.ci,
                #[trigger] b[k],
                t[i + k],
            ) by {
                assert(ast::same_byte(cx.ci, b[k], s[i + k]));
                assert(ast::same_byte(true, s[i + k], t[i + k]));
            }
        },
        SpecOp::Class(c) => {
            assert(ast::same_byte(true, s[i], t[i]));
            assert(ast::listed(c.items, t[i]) == ast::listed(c.items, ast::case_alt(t[i])));
        },
        SpecOp::Alternation(bs) => {
            let b = choose|b: int|
                0 <= b < bs.len() && lang::ops_span(#[trigger] bs[b], cx, s, i, j);
            assert(even(bs[b]));
            lemma_even_span(bs[b], cx, s, t, i, j);
            assert(lang::some_span(bs, cx, t, i, j));
        },
        _ => {},
    }
}

proof fn lemma_even_concat(a: Seq<SpecOp>, b: Seq<SpecOp>)
    requires
        even(a),
        even(b),
    ensures
        even(a + b),
{
    let all = a + b;
    assert forall|i: int| 0 <= i < all.len() implies even_op(#[trigger] all[i]) by {
        if i < a.len() {
            assert(even_op(a[i]));
        } else {
            assert(even_op(b[i - a.len()]));
        }
    }
}

proof fn lemma_even_part(ops: Seq<SpecOp>, i: int, j: int)
    requires
        even(ops),
        0 <= i <= j <= ops.len(),
    ensures
        even(ops.subrange(i, j)),
{
    let part = ops.subrange(i, j);
    assert forall|k: int| 0 <= k < part.len() implies even_op(#[trigger] part[k]) by {
        assert(even_op(ops[i + k]));
    }
}

proof fn lemma_append_even(out: Seq<SpecOp>, op: SpecOp)
    requires
        even(out),
        even_op(op),
    ensures
        even(lower::append(out, op)),
{
    let all = lower::append(out, op);
    assert forall|i: int| 0 <= i < all.len() implies even_op(#[trigger] all[i]) by {
        if i < out.len() {
            assert(even_op(out[i]));
        }
    }
}

proof fn lemma_append_all_even(out: Seq<SpecOp>, ops: Seq<SpecOp>)
    requires
        even(out),
        even(ops),
    ensures
        even(lower::append_all(out, ops)),
    decreases ops.len(),
{
    if ops.len() > 0 {
        lemma_even_part(ops, 0, ops.len() - 1);
        assert(ops.subrange(0, ops.len() - 1) =~= ops.drop_last());
        lemma_append_all_even(out, ops.drop_last());
        assert(even_op(ops[ops.len() - 1]));
        lemma_append_even(lower::append_all(out, ops.drop_last()), ops.last());
    }
}

proof fn lemma_open_even(s: Seq<SpecOp>)
    requires
        even(s),
    ensures
        even(lower::open_globstars(s)),
    decreases s.len(),
{
    if s.len() > 0 {
        let n = s.len() as int;
        assert(even_op(s[0]));
        if s[0] is Globstar && s.len() > 1 && s[1] is Sep {
            lemma_even_part(s, 2, n);
            assert(s.subrange(2, n) =~= s.skip(2));
            lemma_open_even(s.skip(2));
            lemma_even_concat(seq![SpecOp::OptSegmentsSlash], lower::open_globstars(s.skip(2)));
        } else {
            lemma_even_part(s, 1, n);
            assert(s.subrange(1, n) =~= s.skip(1));
            lemma_open_even(s.skip(1));
            lemma_even_concat(seq![s[0]], lower::open_globstars(s.skip(1)));
        }
    }
}

proof fn lemma_close_even(s: Seq<SpecOp>)
    requires
        even(s),
    ensures
        even(lower::close_globstars(s)),
    decreases s.len(),
{
    if s.len() > 0 {
        let n = s.len() as int;
        assert(even_op(s[0]));
        if s[0] is Sep && s.len() > 1 && s[1] is Globstar {
            lemma_even_part(s, 2, n);
            assert(s.subrange(2, n) =~= s.skip(2));
            lemma_close_even(s.skip(2));
            lemma_even_concat(seq![SpecOp::SlashAnything], lower::close_globstars(s.skip(2)));
        } else {
            lemma_even_part(s, 1, n);
            assert(s.subrange(1, n) =~= s.skip(1));
            lemma_close_even(s.skip(1));
            lemma_even_concat(seq![s[0]], lower::close_globstars(s.skip(1)));
        }
    }
}

proof fn lemma_fold_even(s: Seq<SpecOp>)
    requires
        even(s),
    ensures
        even(lower::fold(s)),
{
    let a = lower::open_globstars(s);
    lemma_open_even(s);
    let b = lower::soften(a);
    assert forall|i: int| 0 <= i < b.len() implies even_op(#[trigger] b[i]) by {
        assert(even_op(a[i]));
    }
    let c = lower::close_globstars(b);
    lemma_close_even(b);
    let d = lower::bare_globstars(c);
    assert forall|i: int| 0 <= i < d.len() implies even_op(#[trigger] d[i]) by {
        assert(even_op(c[i]));
    }
}

/// A folded class is even.
proof fn lemma_fold_class_even(c: SpecClass)
    requires
        ast::ranges_ordered(c.items),
    ensures
        even_class(ast::fold_class(c)),
{
    let items = ast::fold_items(c.items);
    assert forall|b: u8|
        ast::listed(items, b) == ast::listed(items, #[trigger] ast::case_alt(b)) by {
        ast::law_fold_class_lists_both_cases(c.items, b);
        ast::law_fold_class_lists_both_cases(c.items, ast::case_alt(b));
        assert(ast::case_alt(ast::case_alt(b)) == b);
    }
}

proof fn lemma_raw_even(n: SpecNode)
    requires
        ast::sound(n),
    ensures
        even(lower::raw(n, true)),
    decreases n, 0nat,
{
    match n {
        SpecNode::Class(c) => {
            lemma_fold_class_even(c);
        },
        SpecNode::Concat(xs) => {
            lemma_raw_all_even(xs);
        },
        SpecNode::Brace(bs) => {
            lemma_branches_even(bs);
            assert(even_op(SpecOp::Alternation(lower::folded_branches(bs, true))));
        },
        _ => {},
    }
}

proof fn lemma_raw_all_even(xs: Seq<SpecNode>)
    requires
        ast::all_sound(xs),
    ensures
        even(lower::raw_all(xs, true)),
    decreases xs, xs.len(),
{
    if xs.len() > 0 {
        let head = xs.drop_last();
        assert(ast::all_sound(head)) by {
            assert forall|i: int| 0 <= i < head.len() implies ast::sound(#[trigger] head[i]) by {
                assert(ast::sound(xs[i]));
            }
        }
        lemma_raw_all_even(head);
        assert(ast::sound(xs[xs.len() - 1]));
        lemma_raw_even(xs.last());
        lemma_even_concat(lower::raw_all(head, true), lower::raw(xs.last(), true));
    }
}

proof fn lemma_branches_even(bs: Seq<SpecNode>)
    requires
        ast::all_sound(bs),
    ensures
        even_branches(lower::folded_branches(bs, true)),
    decreases bs, bs.len(),
{
    if bs.len() > 0 {
        let head = bs.drop_last();
        assert(ast::all_sound(head)) by {
            assert forall|i: int| 0 <= i < head.len() implies ast::sound(#[trigger] head[i]) by {
                assert(ast::sound(bs[i]));
            }
        }
        lemma_branches_even(head);
        assert(ast::sound(bs[bs.len() - 1]));
        let raw = lower::raw(bs.last(), true);
        lemma_raw_even(bs.last());
        lemma_append_all_even(seq![], raw);
        let last = lower::fold(lower::append_all(seq![], raw));
        lemma_fold_even(lower::append_all(seq![], raw));
        let before = lower::folded_branches(head, true);
        let all = before.push(last);
        assert forall|i: int| 0 <= i < all.len() implies even(#[trigger] all[i]) by {
            if i < before.len() {
                assert(even(before[i]));
            }
        }
    }
}

proof fn lemma_lead_even(s: Seq<SpecOp>)
    requires
        even(s),
    ensures
        even(lower::lead(s)),
    decreases s, 1nat,
{
    if s.len() > 0 {
        assert(even_op(s[0]));
        match s[0] {
            SpecOp::OptSegmentsSlash => {
                lemma_even_concat(seq![SpecOp::LeadingSeps], s);
            },
            SpecOp::Alternation(bs) => {
                lemma_lead_branches_even(bs);
                let all = lower::lead(s);
                assert(even_op(SpecOp::Alternation(lower::lead_branches(bs))));
                assert forall|i: int| 0 <= i < all.len() implies even_op(#[trigger] all[i]) by {
                    if i > 0 {
                        assert(even_op(s[i]));
                    }
                }
            },
            _ => {},
        }
    }
}

proof fn lemma_lead_branches_even(bs: Seq<Seq<SpecOp>>)
    requires
        even_branches(bs),
    ensures
        even_branches(lower::lead_branches(bs)),
    decreases bs, bs.len(),
{
    if bs.len() > 0 {
        let head = bs.drop_last();
        assert(even_branches(head)) by {
            assert forall|i: int| 0 <= i < head.len() implies even(#[trigger] head[i]) by {
                assert(even(bs[i]));
            }
        }
        lemma_lead_branches_even(head);
        assert(even(bs[bs.len() - 1]));
        lemma_lead_even(bs.last());
        let before = lower::lead_branches(head);
        let all = before.push(lower::lead(bs.last()));
        assert forall|i: int| 0 <= i < all.len() implies even(#[trigger] all[i]) by {
            if i < before.len() {
                assert(even(before[i]));
            }
        }
    }
}

/// Lowering a pattern without regard to case gives even classes.
proof fn lemma_lowered_even(n: SpecNode)
    requires
        ast::sound(n),
    ensures
        even(lower::lowered(n, true)),
{
    let m = if distribute::crowded(n) {
        distribute::lemma_spread_sound(n);
        distribute::spread(n)
    } else {
        n
    };
    let raw = lower::raw(m, true);
    lemma_raw_even(m);
    lemma_append_all_even(seq![], raw);
    lemma_fold_even(lower::append_all(seq![], raw));
    lemma_lead_even(lower::fold(lower::append_all(seq![], raw)));
}

proof fn lemma_product_even(a: Seq<Seq<SpecOp>>, b: Seq<Seq<SpecOp>>)
    requires
        even_branches(a),
        even_branches(b),
    ensures
        even_branches(forks::product(a, b)),
    decreases a.len(),
{
    if a.len() > 0 {
        let head = a.drop_last();
        assert(even_branches(head)) by {
            assert forall|i: int| 0 <= i < head.len() implies even(#[trigger] head[i]) by {
                assert(even(a[i]));
            }
        }
        lemma_product_even(head, b);
        let first = forks::product(head, b);
        let more = forks::prepend_all(a.last(), b);
        let all = first + more;
        assert forall|i: int| 0 <= i < all.len() implies even(#[trigger] all[i]) by {
            if i < first.len() {
                assert(even(first[i]));
            } else {
                assert(even(a[a.len() - 1]));
                assert(even(b[i - first.len()]));
                lemma_even_concat(a.last(), b[i - first.len()]);
            }
        }
    }
}

proof fn lemma_forks_even(ops: Seq<SpecOp>)
    requires
        even(ops),
    ensures
        forks::forks(ops) matches Some(fs) ==> even_branches(fs),
    decreases ops, 0int,
{
    if ops.len() > 0 {
        let head = ops.drop_last();
        lemma_even_part(ops, 0, ops.len() - 1);
        assert(ops.subrange(0, ops.len() - 1) =~= head);
        lemma_forks_even(head);
        if let Some(a) = forks::forks(head) {
            assert(even_op(ops[ops.len() - 1]));
            lemma_op_forks_even(ops.last(), a);
        }
    }
}

proof fn lemma_op_forks_even(op: SpecOp, a: Seq<Seq<SpecOp>>)
    requires
        even_op(op),
        even_branches(a),
    ensures
        forks::op_forks(op, a) matches Some(fs) ==> even_branches(fs),
    decreases op, 0int,
{
    assert(even_branches(forks::append_all(a, op))) by {
        let all = forks::append_all(a, op);
        assert forall|i: int| 0 <= i < all.len() implies even(#[trigger] all[i]) by {
            assert(even(a[i]));
            lemma_even_concat(a[i], seq![op]);
            assert(all[i] =~= a[i] + seq![op]);
        }
    }
    if let SpecOp::Alternation(bs) = op {
        lemma_branch_forks_even(bs);
        if let Some(b) = forks::branch_forks(bs) {
            lemma_product_even(a, b);
        }
    }
}

proof fn lemma_branch_forks_even(bs: Seq<Seq<SpecOp>>)
    requires
        even_branches(bs),
    ensures
        forks::branch_forks(bs) matches Some(fs) ==> even_branches(fs),
    decreases bs, 1int,
{
    if bs.len() > 0 {
        let head = bs.drop_last();
        assert(even_branches(head)) by {
            assert forall|i: int| 0 <= i < head.len() implies even(#[trigger] head[i]) by {
                assert(even(bs[i]));
            }
        }
        lemma_branch_forks_even(head);
        assert(even(bs[bs.len() - 1]));
        lemma_forks_even(bs.last());
        if let (Some(a), Some(b)) = (forks::branch_forks(head), forks::forks(bs.last())) {
            let all = a + b;
            assert forall|i: int| 0 <= i < all.len() implies even(#[trigger] all[i]) by {
                if i < a.len() {
                    assert(even(a[i]));
                } else {
                    assert(even(b[i - a.len()]));
                }
            }
        }
    }
}

proof fn lemma_program_alike(g: SpecGlob, n: int, s: Seq<u8>, t: Seq<u8>)
    requires
        ast::sound(g.body),
        g.case_insensitive,
        same_letters(s, t),
        g.program_matches(n, s),
    ensures
        g.program_matches(n, t),
{
    let ops = g.program();
    let cx = g.cx(n);
    lemma_lowered_even(g.body);
    if g.by_segment() {
        lemma_forks_even(ops);
        let fs = forks::forks(ops)->0;
        let f = choose|f: int|
            0 <= f < fs.len() && lang::matches(elems::with_leading_seps(#[trigger] fs[f]), cx, s);
        assert(even(fs[f]));
        let written = elems::with_leading_seps(fs[f]);
        lemma_even_concat(seq![SpecOp::LeadingSeps], fs[f]);
        lemma_even_span(written, cx, s, t, 0, s.len() as int);
        assert(lang::matches(written, cx, t));
        assert(exec::fork_matches(ops, cx, t));
    } else {
        lemma_even_span(ops, cx, s, t, 0, s.len() as int);
    }
}

proof fn lemma_literal_alike(g: SpecGlob, s: Seq<u8>, t: Seq<u8>, n: int)
    requires
        g.case_insensitive,
        same_letters(s, t),
        g.agrees(s, n),
    ensures
        g.agrees(t, n),
{
    assert forall|k: int| 0 <= k < n implies literal::literal_byte(
        g.seps,
        g.case_insensitive,
        #[trigger] g.literal()[k],
        t[k],
    ) by {
        assert(literal::literal_byte(g.seps, g.case_insensitive, g.literal()[k], s[k]));
        assert(ast::same_byte(true, s[k], t[k]));
    }
}

proof fn lemma_body_alike(g: SpecGlob, s: Seq<u8>, t: Seq<u8>)
    requires
        ast::sound(g.body),
        g.case_insensitive,
        same_letters(s, t),
    ensures
        g.body_matches(s) ==> g.body_matches(t),
        g.body_below(s) ==> g.body_below(t),
{
    let n = s.len() as int;
    if ast::pure_literal(g.body) {
        if g.agrees(s, n) {
            lemma_literal_alike(g, s, t, n);
        }
    } else {
        if g.program_matches(n, s) {
            lemma_program_alike(g, n, s, t);
        }
        if n > 0 && g.body_below(s) {
            let x = choose|x: Seq<u8>| #[trigger] g.program_matches(n, (s + seq![0x2fu8]) + x);
            let a = (s + seq![0x2fu8]) + x;
            let b = (t + seq![0x2fu8]) + x;
            assert(same_letters(a, b)) by {
                assert forall|k: int| 0 <= k < a.len() implies ast::same_byte(
                    true,
                    #[trigger] a[k],
                    b[k],
                ) by {
                    if k < n {
                        assert(ast::same_byte(true, s[k], t[k]));
                    }
                }
            }
            lemma_program_alike(g, n, a, b);
        }
    }
}

/// Where case is ignored, a pattern gives one answer to paths that differ in
/// ASCII case alone, and one verdict.
pub proof fn law_case_is_ignored(g: Glob, s: Seq<u8>, t: Seq<u8>)
    requires
        g.wf(),
        g@.case_insensitive,
        same_letters(s, t),
    ensures
        g@.matches(s) == g@.matches(t),
        g@.verdict(s) == g@.verdict(t),
{
    g.lemma_sound();
    lemma_same_letters_turned(s, t);
    lemma_body_alike(g@, s, t);
    lemma_body_alike(g@, t, s);
}

} // verus!
