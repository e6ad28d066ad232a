//! What a pattern matches, told from the marks it is written with.
//!
//! [`fits`] says of a pattern without braces which paths it matches, on the
//! bytes alone. A brace is the choice between its branches: [`way`] says what a
//! pattern is with a branch written out in place of each brace.

use crate::ast::{self, ClassItem, SpecNode};
use crate::engine::lang::{self, Cx};
use crate::engine::ops::folding;
use crate::engine::ops::lower;
use crate::engine::ops::SpecOp;
use crate::engine::segment::elems;
use crate::glob::{self, SpecGlob};
use crate::notation::{self, Bracket, Mark, Member};
use crate::openings;
use crate::options::CompileOptions;
use crate::parser;
use crate::seps::Seps;
use crate::unions;
use vstd::prelude::*;

verus! {

/// How a path is looked at.
pub struct Manner {
    /// A `.` that starts a segment before this position has to be named.
    pub dots: int,
    /// Letters are the same in both cases.
    pub case_insensitive: bool,
}

/// How the options of a pattern have the first `n` bytes of a path looked at.
pub open spec fn manner(opts: CompileOptions, n: int) -> Manner {
    Manner {
        dots: if opts.dot {
            0
        } else {
            n
        },
        case_insensitive: opts.case_insensitive,
    }
}

/// How they have a whole path looked at.
pub open spec fn wholly(opts: CompileOptions, path: Seq<u8>) -> Manner {
    manner(opts, path.len() as int)
}

// Bytes.

/// `b` separates segments: a `/`, and a backslash where it does so too.
pub open spec fn divides(seps: Seps, b: u8) -> bool {
    b == 0x2f || (seps.backslash && b == 0x5c)
}

/// One of `A` to `Z` and one of `a` to `z`, the same letter.
pub open spec fn other_case(a: u8, b: u8) -> bool {
    (0x41 <= a <= 0x5a && b == a + 0x20) || (0x61 <= a <= 0x7a && b + 0x20 == a)
}

/// The same byte, or the same letter where case is ignored.
pub open spec fn same(how: Manner, a: u8, b: u8) -> bool {
    a == b || (how.case_insensitive && other_case(a, b))
}

/// A `.` at `i` starts a segment, and only a `.` in the pattern may match it.
pub open spec fn dotted(how: Manner, seps: Seps, path: Seq<u8>, i: int) -> bool {
    0 <= i < path.len() && i < how.dots && path[i] == 0x2e && (i == 0 || divides(
        seps,
        path[i - 1],
    ))
}

/// No such `.` from `i` up to `j`.
pub open spec fn undotted(how: Manner, seps: Seps, path: Seq<u8>, i: int, j: int) -> bool {
    forall|k: int| i <= k < j ==> !#[trigger] dotted(how, seps, path, k)
}

/// Whole segments stand from `i` up to `j`, possibly none.
pub open spec fn segments(how: Manner, seps: Seps, path: Seq<u8>, i: int, j: int) -> bool {
    0 <= i <= j <= path.len() && (j == i || (divides(seps, path[j - 1]) && undotted(
        how,
        seps,
        path,
        i,
        j,
    )))
}

// Marks.

/// `b` is the member, or one of those it spans.
pub open spec fn spanned(m: Member, how: Manner, b: u8) -> bool {
    match m {
        Member::Single(l) => same(how, l.byte, b),
        Member::Span(lo, hi) => exists|x: u8|
            lo.byte <= x <= hi.byte && #[trigger] same(how, x, b),
    }
}

/// `b` is one of the members of a class.
pub open spec fn named(c: Bracket, how: Manner, b: u8) -> bool {
    (c.closing && b == 0x5d) || (c.dash && b == 0x2d) || exists|i: int|
        0 <= i < c.members.len() && spanned(#[trigger] c.members[i], how, b)
}

/// The mark matches the bytes from `i` up to `j`.
pub open spec fn takes(
    m: Mark,
    how: Manner,
    seps: Seps,
    path: Seq<u8>,
    i: int,
    j: int,
) -> bool {
    0 <= i <= j <= path.len() && match m {
        Mark::Byte(b) => j == i + 1 && same(how, b, path[i]),
        Mark::Escaped(b) => j == i + 1 && same(how, b, path[i]),
        Mark::Slash => j == i + 1 && divides(seps, path[i]),
        Mark::One => j == i + 1 && !divides(seps, path[i]) && !dotted(how, seps, path, i),
        Mark::Many => !dotted(how, seps, path, i) && forall|k: int|
            i <= k < j ==> !divides(seps, #[trigger] path[k]),
        Mark::Class(c) => j == i + 1 && !divides(seps, path[i]) && (named(c, how, path[i]) != (
        c.negation.len() > 0)) && !(c.negation.len() > 0 && dotted(how, seps, path, i)),
        Mark::Deep => false,
        Mark::Either(_) => false,
    }
}

/// The marks match the path from `i` to its end. A `**` stands for whole
/// segments, with the `/` behind it, or for all that is left where it is the
/// last mark.
pub open spec fn fits(
    w: Seq<Mark>,
    how: Manner,
    seps: Seps,
    path: Seq<u8>,
    i: int,
) -> bool
    decreases w.len(),
{
    if w.len() == 0 {
        i == path.len()
    } else if w[0] is Deep {
        if w.len() == 1 {
            undotted(how, seps, path, i, path.len() as int)
        } else {
            w[1] is Slash && exists|j: int| #[trigger]
                segments(how, seps, path, i, j) && fits(w.skip(2), how, seps, path, j)
        }
    } else {
        exists|j: int| #[trigger]
            takes(w[0], how, seps, path, i, j) && fits(w.drop_first(), how, seps, path, j)
    }
}

/// `w` is what `ms` are with one branch written out in place of each brace.
pub open spec fn way(ms: Seq<Mark>, w: Seq<Mark>) -> bool
    decreases ms, 0int,
{
    if ms.len() == 0 {
        w.len() == 0
    } else {
        match ms[0] {
            Mark::Either(bs) => exists|n: int|
                0 <= n <= w.len() && some_way(bs, #[trigger] w.take(n)) && way(
                    ms.drop_first(),
                    w.skip(n),
                ),
            m => w.len() > 0 && w[0] == m && way(ms.drop_first(), w.drop_first()),
        }
    }
}

pub open spec fn some_way(bs: Seq<Seq<Mark>>, w: Seq<Mark>) -> bool
    decreases bs, 0int,
{
    exists|i: int| 0 <= i < bs.len() && way(#[trigger] bs[i], w)
}

/// The marks match the path from `i` to its end, with some branch written out
/// in place of each brace.
pub open spec fn meets(
    ms: Seq<Mark>,
    how: Manner,
    seps: Seps,
    path: Seq<u8>,
    i: int,
) -> bool {
    exists|w: Seq<Mark>| #[trigger] way(ms, w) && fits(w, how, seps, path, i)
}

/// No brace holds a `**`, and where `deep` does not hold there is none at all.
pub open spec fn shallow(ms: Seq<Mark>, deep: bool) -> bool
    decreases ms, 0int,
{
    forall|i: int| 0 <= i < ms.len() ==> shallow_mark(#[trigger] ms[i], deep)
}

pub open spec fn shallow_mark(m: Mark, deep: bool) -> bool
    decreases m, 0int,
{
    match m {
        Mark::Deep => deep,
        Mark::Class(c) => notation::well_bracket(c),
        Mark::Either(bs) => all_shallow(bs),
        _ => true,
    }
}

pub open spec fn all_shallow(bs: Seq<Seq<Mark>>) -> bool
    decreases bs, 0int,
{
    forall|i: int| 0 <= i < bs.len() ==> shallow(#[trigger] bs[i], false)
}

/// A `**` stands between slashes or at an end, and follows no other. The last
/// mark may be one behind a brace whose branches all end with a slash.
pub open spec fn apart(ms: Seq<Mark>) -> bool {
    forall|k: int| #[trigger] apart_at(ms, k)
}

pub open spec fn apart_at(ms: Seq<Mark>, k: int) -> bool {
    0 <= k < ms.len() && ms[k] is Deep ==> (k == 0 || ms[k - 1] is Slash || (k + 1 == ms.len()
        && ms[k - 1] is Either && notation::shut(ms[k - 1]))) && (k + 1 == ms.len()
        || ms[k + 1] is Slash) && !(k + 2 < ms.len() && ms[k + 2] is Deep)
}

// Bytes and programs.

/// How a program is matched.
pub open spec fn sight(how: Manner, seps: Seps) -> Cx {
    Cx { seps, ci: how.case_insensitive, lim: how.dots }
}

proof fn lemma_sight(how: Manner, seps: Seps, path: Seq<u8>)
    ensures
        forall|b: u8| #[trigger] sight(how, seps).seps.has(b) == divides(seps, b),
        forall|i: int| #[trigger]
            lang::hidden(sight(how, seps), path, i) == dotted(how, seps, path, i),
        forall|a: u8, b: u8|
            #![trigger same(how, a, b)]
            #![trigger ast::same_byte(how.case_insensitive, a, b)]
            ast::same_byte(how.case_insensitive, a, b) == same(how, a, b),
{
    assert forall|a: u8, b: u8|
        #![trigger same(how, a, b)]
        #![trigger ast::same_byte(how.case_insensitive, a, b)]
        ast::same_byte(how.case_insensitive, a, b) == same(how, a, b) by {
        if 0x41 <= b <= 0x5a {
            assert(ast::case_alt(b) == b + 0x20);
        } else if 0x61 <= b <= 0x7a {
            assert(ast::case_alt(b) == b - 0x20);
        }
    }
}

/// The op of a mark.
pub open spec fn op_of(m: Mark, ci: bool) -> SpecOp {
    lower::raw(notation::node_of(m), ci)[0]
}

pub open spec fn ops_of(ms: Seq<Mark>, ci: bool) -> Seq<SpecOp> {
    Seq::new(ms.len(), |i: int| op_of(ms[i], ci))
}

/// The marks as a program.
pub open spec fn folded(ms: Seq<Mark>, ci: bool) -> Seq<SpecOp> {
    lower::fold(ops_of(ms, ci))
}

#[verifier::rlimit(40)]
proof fn lemma_listed(c: Bracket, how: Manner, seps: Seps, path: Seq<u8>, b: u8)
    requires
        notation::well_bracket(c),
    ensures
        ast::listed(
            if how.case_insensitive {
                ast::fold_class(notation::class_of(c))
            } else {
                notation::class_of(c)
            }.items,
            b,
        ) == named(c, how, b),
{
    let items = notation::class_of(c).items;
    let front = notation::maybe_item(c.closing, 0x5d);
    let mid = notation::items_of(c.members);
    lemma_sight(how, seps, path);
    assert(ast::ranges_ordered(items)) by {
        assert forall|i: int| 0 <= i < items.len() implies (#[trigger] items[i] matches ClassItem::Range(
            lo,
            hi,
        ) ==> lo <= hi) by {
            let k = i - front.len();
            if 0 <= k < mid.len() {
                assert(items[i] == mid[k]);
                assert(notation::well_member(c.members[k]));
            }
        }
    }
    ast::law_fold_class_lists_both_cases(items, b);
    let alt = ast::case_alt(b);
    let ci = how.case_insensitive;
    let either = ast::listed(items, b) || (ci && ast::listed(items, alt));
    assert(same(how, b, b));
    assert(ast::same_byte(ci, alt, b) == same(how, alt, b));
    if either {
        let x = if ast::listed(items, b) {
            b
        } else {
            alt
        };
        assert(same(how, x, b));
        let i = choose|i: int| 0 <= i < items.len() && ast::covers(#[trigger] items[i], x);
        let k = i - front.len();
        if 0 <= k < mid.len() {
            assert(items[i] == mid[k]);
            assert(spanned(c.members[k], how, b));
        }
    }
    if named(c, how, b) {
        if c.closing && b == 0x5d {
            assert(ast::covers(items[0], b));
        } else if c.dash && b == 0x2d {
            assert(ast::covers(items[items.len() - 1], b));
        } else {
            let k = choose|i: int|
                0 <= i < c.members.len() && spanned(#[trigger] c.members[i], how, b);
            let i = front.len() + k;
            assert(items[i] == mid[k]);
            match c.members[k] {
                Member::Single(l) => {
                    assert(ast::same_byte(ci, l.byte, b));
                    assert(ast::covers(items[i], b) || (ci && ast::covers(items[i], alt)));
                },
                Member::Span(lo, hi) => {
                    let x = choose|x: u8|
                        lo.byte <= x <= hi.byte && #[trigger] same(how, x, b);
                    assert(ast::same_byte(ci, x, b));
                    assert(ast::covers(items[i], b) || (ci && ast::covers(items[i], alt)));
                },
            }
        }
    }
}

/// The op of a mark other than `**` and a brace matches what the mark takes.
proof fn lemma_takes(
    m: Mark,
    how: Manner,
    seps: Seps,
    path: Seq<u8>,
    i: int,
    j: int,
)
    requires
        shallow_mark(m, false),
        !(m is Either),
    ensures
        lang::op_span(op_of(m, how.case_insensitive), sight(how, seps), path, i, j)
            == takes(m, how, seps, path, i, j),
{
    let cx = sight(how, seps);
    let op = op_of(m, how.case_insensitive);
    lemma_sight(how, seps, path);
    match m {
        Mark::Byte(b) => {
            assert(op == SpecOp::Lit(seq![b]));
            if 0 <= i {
                lemma_one_byte(b, how, seps, path, i);
            }
        },
        Mark::Escaped(b) => {
            assert(op == SpecOp::Lit(seq![b]));
            if 0 <= i {
                lemma_one_byte(b, how, seps, path, i);
            }
        },
        Mark::Many => {
            assert(op == SpecOp::Star);
        },
        Mark::Class(c) => {
            if 0 <= i < path.len() {
                lemma_listed(c, how, seps, path, path[i]);
            }
        },
        _ => {},
    }
}

proof fn lemma_one_byte(b: u8, how: Manner, seps: Seps, path: Seq<u8>, i: int)
    requires
        0 <= i,
    ensures
        lang::lit_at(sight(how, seps), seq![b], path, i) == (i < path.len() && same(
            how,
            b,
            path[i],
        )),
{
    lemma_sight(how, seps, path);
    let s = seq![b];
    if lang::lit_at(sight(how, seps), s, path, i) {
        assert(ast::same_byte(how.case_insensitive, s[0], path[i + 0]));
    }
}

// From trees to programs.

pub proof fn lemma_raw_node(m: Mark, ci: bool)
    ensures
        lower::raw(notation::node_of(m), ci) == seq![op_of(m, ci)],
{
    assert(lower::raw(notation::node_of(m), ci).len() == 1);
    assert(lower::raw(notation::node_of(m), ci) =~= seq![op_of(m, ci)]);
}

/// Collecting literal bytes in the tree and merging them in the program come to
/// the same.
proof fn lemma_merged_run(ms: Seq<Mark>, nodes: Seq<SpecNode>, lit: Seq<u8>, ci: bool)
    ensures
        lower::append_all(seq![], lower::raw_all(notation::nodes_of(ms, nodes, lit), ci))
            == lower::append_all(
            lower::append_all(seq![], lower::raw_all(parser::flushed(nodes, lit), ci)),
            ops_of(ms, ci),
        ),
    decreases ms.len(),
{
    let all = parser::flushed(nodes, lit);
    let before = lower::append_all(seq![], lower::raw_all(all, ci));
    if ms.len() == 0 {
        assert(ops_of(ms, ci) =~= seq![]);
    } else {
        let m = ms[0];
        let rest = ms.drop_first();
        let op = op_of(m, ci);
        assert(ops_of(ms, ci) =~= seq![op] + ops_of(rest, ci));
        folding::lemma_append_split(before, seq![op], ops_of(rest, ci));
        assert(seq![op].drop_last() =~= seq![]);
        assert(lower::append_all(before, seq![op]) == lower::append(before, op)) by {
            reveal_with_fuel(lower::append_all, 2);
        }
        lemma_raw_node(m, ci);
        match m {
            Mark::Byte(b) => {
                lemma_merged_run(rest, nodes, lit.push(b), ci);
                lemma_merged_byte(nodes, lit, b, ci);
            },
            Mark::Escaped(b) => {
                lemma_merged_run(rest, nodes, lit.push(b), ci);
                lemma_merged_byte(nodes, lit, b, ci);
            },
            _ => {
                let now = all.push(notation::node_of(m));
                lemma_merged_run(rest, now, seq![], ci);
                assert(parser::flushed(now, seq![]) == now);
                assert(now.drop_last() =~= all);
                let r = lower::raw_all(all, ci);
                assert(lower::raw_all(now, ci) =~= r + seq![op]);
                assert((r + seq![op]).drop_last() =~= r);
            },
        }
    }
}

proof fn lemma_merged_byte(nodes: Seq<SpecNode>, lit: Seq<u8>, b: u8, ci: bool)
    ensures
        lower::append_all(seq![], lower::raw_all(parser::flushed(nodes, lit.push(b)), ci))
            == lower::append(
            lower::append_all(seq![], lower::raw_all(parser::flushed(nodes, lit), ci)),
            SpecOp::Lit(seq![b]),
        ),
{
    let r = lower::raw_all(nodes, ci);
    let out = lower::append_all(seq![], r);
    let longer = parser::flushed(nodes, lit.push(b));
    assert(longer.drop_last() =~= nodes);
    let one = SpecOp::Lit(lit.push(b));
    assert(longer.last() == SpecNode::Literal(lit.push(b)));
    assert(lower::raw(longer.last(), ci) =~= seq![one]);
    assert(lower::raw_all(longer, ci) =~= r + seq![one]);
    assert((r + seq![one]).drop_last() =~= r);
    assert(lower::append_all(seq![], r + seq![one]) == lower::append(out, one));
    if lit.len() == 0 {
        assert(lit.push(b) =~= seq![b]);
    } else {
        let all = parser::flushed(nodes, lit);
        assert(all.drop_last() =~= nodes);
        let two = SpecOp::Lit(lit);
        assert(all.last() == SpecNode::Literal(lit));
        assert(lower::raw(all.last(), ci) =~= seq![two]);
        assert(lower::raw_all(all, ci) =~= r + seq![two]);
        assert((r + seq![two]).drop_last() =~= r);
        assert(lower::append_all(seq![], r + seq![two]) == lower::append(out, two));
        let mid = lower::append(out, two);
        if out.len() > 0 && out.last() is Lit {
            let a = out.last()->Lit_0;
            assert(mid =~= out.drop_last().push(SpecOp::Lit(a + lit)));
            assert(mid.drop_last() =~= out.drop_last());
            assert((a + lit) + seq![b] =~= a + lit.push(b));
        } else {
            assert(mid =~= out.push(two));
            assert(mid.drop_last() =~= out);
            assert(lit + seq![b] =~= lit.push(b));
        }
    }
}

/// The tree and the marks merge into one program.
pub proof fn lemma_merged_tree(ms: Seq<Mark>, ci: bool)
    ensures
        lower::append_all(seq![], lower::raw(notation::tree(ms), ci)) == lower::append_all(
            seq![],
            ops_of(ms, ci),
        ),
{
    let xs = notation::nodes_of(ms, seq![], seq![]);
    lemma_merged_run(ms, seq![], seq![], ci);
    let none = Seq::<SpecNode>::empty();
    assert(lower::raw_all(none, ci) =~= seq![]);
    assert(lower::append_all(seq![], Seq::<SpecOp>::empty()) =~= seq![]);
    if xs.len() == 1 {
        unions::lemma_raw_one(xs[0], ci);
        assert(xs =~= seq![xs[0]]);
    }
}

pub proof fn lemma_ops_unfolded(ms: Seq<Mark>, ci: bool)
    ensures
        folding::unfolded(ops_of(ms, ci)),
        forall|k: int|
            0 <= k < ms.len() ==> (#[trigger] ops_of(ms, ci)[k] is Globstar <==> ms[k] is Deep) && (
            ops_of(ms, ci)[k] is Sep <==> ms[k] is Slash) && (ops_of(ms, ci)[k] is Alternation
                <==> ms[k] is Either),
{
    assert forall|k: int| 0 <= k < ms.len() implies !(#[trigger] ops_of(
        ms,
        ci,
    )[k] is OptSegmentsSlash) by {
        lemma_raw_node(ms[k], ci);
    }
}

// Programs of branches.

/// No `**` is anywhere in the op.
pub open spec fn gentle(op: SpecOp) -> bool
    decreases op, 0int,
{
    match op {
        SpecOp::Globstar => false,
        SpecOp::OptSegmentsSlash => false,
        SpecOp::Alternation(bs) => gentle_branches(bs),
        _ => true,
    }
}

pub open spec fn gentle_ops(ops: Seq<SpecOp>) -> bool
    decreases ops, 0int,
{
    forall|k: int| 0 <= k < ops.len() ==> gentle(#[trigger] ops[k])
}

pub open spec fn gentle_branches(bs: Seq<Seq<SpecOp>>) -> bool
    decreases bs, 0int,
{
    forall|k: int| 0 <= k < bs.len() ==> gentle_ops(#[trigger] bs[k])
}

proof fn lemma_gentle_merged(out: Seq<SpecOp>, ops: Seq<SpecOp>)
    requires
        gentle_ops(out),
        gentle_ops(ops),
    ensures
        gentle_ops(lower::append_all(out, ops)),
    decreases ops.len(),
{
    if ops.len() > 0 {
        let head = ops.drop_last();
        assert(gentle_ops(head)) by {
            assert forall|k: int| 0 <= k < head.len() implies gentle(#[trigger] head[k]) by {
                assert(head[k] == ops[k]);
            }
        }
        lemma_gentle_merged(out, head);
        let a = lower::append_all(out, head);
        let op = ops.last();
        assert(gentle(ops[ops.len() - 1]));
        let b = lower::append(a, op);
        assert forall|k: int| 0 <= k < b.len() implies gentle(#[trigger] b[k]) by {
            if k < a.len() - 1 {
                assert(b[k] == a[k]);
            } else if k < a.len() {
                assert(gentle(a[k]));
            }
        }
    }
}

/// Folding leaves a program without `**` alone.
proof fn lemma_gentle_fold(ops: Seq<SpecOp>)
    requires
        gentle_ops(ops),
    ensures
        lower::fold(ops) == ops,
{
    assert forall|k: int| 0 <= k < ops.len() implies !(#[trigger] ops[k] is Globstar) && !(
    ops[k] is OptSegmentsSlash) by {
        assert(gentle(ops[k]));
    }
    folding::lemma_open_none(ops);
    assert(lower::soften(ops) =~= ops);
    folding::lemma_close_none(ops);
    assert(lower::bare_globstars(ops) =~= ops);
}

pub proof fn lemma_gentle_lead(ops: Seq<SpecOp>)
    requires
        gentle_ops(ops),
    ensures
        lower::lead(ops) == ops,
    decreases ops, 0int,
{
    if ops.len() > 0 {
        assert(gentle(ops[0]));
        if let SpecOp::Alternation(bs) = ops[0] {
            lemma_gentle_lead_branches(bs);
            assert(ops.update(0, ops[0]) =~= ops);
        }
    }
}

proof fn lemma_gentle_lead_branches(bs: Seq<Seq<SpecOp>>)
    requires
        gentle_branches(bs),
    ensures
        lower::lead_branches(bs) == bs,
    decreases bs, 0int,
{
    unions::lemma_lead_branches(bs);
    assert forall|k: int| 0 <= k < bs.len() implies #[trigger] lower::lead_branches(bs)[k] == bs[k] by {
        lemma_gentle_lead(bs[k]);
    }
    assert(lower::lead_branches(bs) =~= bs);
}

/// The program of one branch.
pub open spec fn branch_of(b: Seq<Mark>, ci: bool) -> Seq<SpecOp> {
    lower::fold(lower::append_all(seq![], lower::raw(notation::tree(b), ci)))
}

pub open spec fn branches_of(bs: Seq<Seq<Mark>>, ci: bool) -> Seq<Seq<SpecOp>> {
    Seq::new(bs.len(), |i: int| branch_of(bs[i], ci))
}

pub proof fn lemma_either_op(bs: Seq<Seq<Mark>>, ci: bool)
    ensures
        op_of(Mark::Either(bs), ci) == SpecOp::Alternation(branches_of(bs, ci)),
{
    let ts = notation::trees(bs);
    unions::lemma_folded_branches(ts, ci);
    assert(lower::folded_branches(ts, ci) =~= branches_of(bs, ci));
    assert(notation::node_of(Mark::Either(bs)) == SpecNode::Brace(ts));
}

pub proof fn lemma_gentle_mark(m: Mark, ci: bool)
    requires
        shallow_mark(m, false),
    ensures
        gentle(op_of(m, ci)),
    decreases m, 0int,
{
    if let Mark::Either(bs) = m {
        lemma_either_op(bs, ci);
        let ps = branches_of(bs, ci);
        assert(all_shallow(bs));
        assert forall|k: int| 0 <= k < ps.len() implies gentle_ops(#[trigger] ps[k]) by {
            assert(shallow(bs[k], false));
            lemma_gentle_branch(bs[k], ci);
        }
    }
}

proof fn lemma_gentle_branch(b: Seq<Mark>, ci: bool)
    requires
        shallow(b, false),
    ensures
        gentle_ops(ops_of(b, ci)),
        gentle_ops(branch_of(b, ci)),
        branch_of(b, ci) == lower::append_all(seq![], ops_of(b, ci)),
    decreases b, 0int,
{
    let ops = ops_of(b, ci);
    assert forall|k: int| 0 <= k < ops.len() implies gentle(#[trigger] ops[k]) by {
        assert(shallow_mark(b[k], false));
        lemma_gentle_mark(b[k], ci);
    }
    lemma_gentle_merged(seq![], ops);
    lemma_merged_tree(b, ci);
    lemma_gentle_fold(lower::append_all(seq![], ops));
}

// Parts of a path.

/// The marks match the bytes from `i` up to `j`, one after the other.
pub open spec fn piece(
    w: Seq<Mark>,
    how: Manner,
    seps: Seps,
    path: Seq<u8>,
    i: int,
    j: int,
) -> bool
    decreases w.len(),
{
    if w.len() == 0 {
        0 <= i == j <= path.len()
    } else {
        exists|k: int| #[trigger]
            takes(w[0], how, seps, path, i, k) && piece(w.drop_first(), how, seps, path, k, j)
    }
}

proof fn lemma_piece_bounds(
    w: Seq<Mark>,
    how: Manner,
    seps: Seps,
    path: Seq<u8>,
    i: int,
    j: int,
)
    requires
        piece(w, how, seps, path, i, j),
    ensures
        0 <= i <= j <= path.len(),
    decreases w.len(),
{
    if w.len() > 0 {
        let k = choose|k: int| #[trigger]
            takes(w[0], how, seps, path, i, k) && piece(w.drop_first(), how, seps, path, k, j);
        lemma_piece_bounds(w.drop_first(), how, seps, path, k, j);
    }
}

proof fn lemma_piece_concat(
    a: Seq<Mark>,
    b: Seq<Mark>,
    how: Manner,
    seps: Seps,
    path: Seq<u8>,
    i: int,
    j: int,
)
    ensures
        piece(a + b, how, seps, path, i, j) <==> exists|k: int| #[trigger]
            piece(a, how, seps, path, i, k) && piece(b, how, seps, path, k, j),
    decreases a.len(),
{
    let w = a + b;
    if a.len() == 0 {
        assert(w =~= b);
        if piece(b, how, seps, path, i, j) {
            lemma_piece_bounds(b, how, seps, path, i, j);
            assert(piece(a, how, seps, path, i, i));
        }
    } else {
        let rest = a.drop_first();
        assert(w.drop_first() =~= rest + b);
        assert(w[0] == a[0]);
        if piece(w, how, seps, path, i, j) {
            let m = choose|m: int| #[trigger]
                takes(w[0], how, seps, path, i, m) && piece(
                    w.drop_first(),
                    how,
                    seps,
                    path,
                    m,
                    j,
                );
            lemma_piece_concat(rest, b, how, seps, path, m, j);
            let k = choose|k: int| #[trigger]
                piece(rest, how, seps, path, m, k) && piece(b, how, seps, path, k, j);
            assert(takes(a[0], how, seps, path, i, m));
            assert(piece(a, how, seps, path, i, k));
        }
        if exists|k: int| #[trigger]
            piece(a, how, seps, path, i, k) && piece(b, how, seps, path, k, j) {
            let k = choose|k: int| #[trigger]
                piece(a, how, seps, path, i, k) && piece(b, how, seps, path, k, j);
            let m = choose|m: int| #[trigger]
                takes(a[0], how, seps, path, i, m) && piece(rest, how, seps, path, m, k);
            lemma_piece_concat(rest, b, how, seps, path, m, j);
            assert(takes(w[0], how, seps, path, i, m));
        }
    }
}

/// Neither a `**` nor a brace.
pub open spec fn simple(w: Seq<Mark>) -> bool {
    forall|k: int| 0 <= k < w.len() ==> !(#[trigger] w[k] is Deep) && !(w[k] is Either)
}

proof fn lemma_fits_concat(
    a: Seq<Mark>,
    b: Seq<Mark>,
    how: Manner,
    seps: Seps,
    path: Seq<u8>,
    i: int,
)
    requires
        simple(a),
        0 <= i <= path.len(),
    ensures
        fits(a + b, how, seps, path, i) <==> exists|k: int| #[trigger]
            piece(a, how, seps, path, i, k) && fits(b, how, seps, path, k),
    decreases a.len(),
{
    let w = a + b;
    if a.len() == 0 {
        assert(w =~= b);
        assert(piece(a, how, seps, path, i, i));
    } else {
        let rest = a.drop_first();
        assert(w.drop_first() =~= rest + b);
        assert(w[0] == a[0]);
        assert(simple(rest)) by {
            assert forall|k: int| 0 <= k < rest.len() implies !(#[trigger] rest[k] is Deep) && !(
            rest[k] is Either) by {
                assert(rest[k] == a[k + 1]);
            }
        }
        if fits(w, how, seps, path, i) {
            let m = choose|m: int| #[trigger]
                takes(w[0], how, seps, path, i, m) && fits(w.drop_first(), how, seps, path, m);
            lemma_fits_concat(rest, b, how, seps, path, m);
            let k = choose|k: int| #[trigger]
                piece(rest, how, seps, path, m, k) && fits(b, how, seps, path, k);
            assert(takes(a[0], how, seps, path, i, m));
            assert(piece(a, how, seps, path, i, k));
        }
        if exists|k: int| #[trigger]
            piece(a, how, seps, path, i, k) && fits(b, how, seps, path, k) {
            let k = choose|k: int| #[trigger]
                piece(a, how, seps, path, i, k) && fits(b, how, seps, path, k);
            let m = choose|m: int| #[trigger]
                takes(a[0], how, seps, path, i, m) && piece(rest, how, seps, path, m, k);
            lemma_fits_concat(rest, b, how, seps, path, m);
            assert(takes(w[0], how, seps, path, i, m));
        }
    }
}

// Ways.

proof fn lemma_way_front(ms: Seq<Mark>, w: Seq<Mark>)
    requires
        ms.len() > 0,
        !(ms[0] is Either),
        way(ms.drop_first(), w),
    ensures
        way(ms, seq![ms[0]] + w),
{
    assert((seq![ms[0]] + w).drop_first() =~= w);
}

proof fn lemma_way_simple(ms: Seq<Mark>, w: Seq<Mark>)
    requires
        shallow(ms, false),
        way(ms, w),
    ensures
        simple(w),
    decreases ms, 0int,
{
    if ms.len() > 0 {
        let rest = ms.drop_first();
        assert(shallow_mark(ms[0], false));
        assert(shallow(rest, false)) by {
            assert forall|k: int| 0 <= k < rest.len() implies shallow_mark(
                #[trigger] rest[k],
                false,
            ) by {
                assert(rest[k] == ms[k + 1]);
            }
        }
        match ms[0] {
            Mark::Either(bs) => {
                let n = choose|n: int|
                    0 <= n <= w.len() && some_way(bs, #[trigger] w.take(n)) && way(
                        rest,
                        w.skip(n),
                    );
                lemma_way_simple(rest, w.skip(n));
                lemma_some_way_simple(bs, w.take(n));
                assert forall|k: int| 0 <= k < w.len() implies !(#[trigger] w[k] is Deep) && !(
                w[k] is Either) by {
                    if k < n {
                        assert(w.take(n)[k] == w[k]);
                    } else {
                        assert(w.skip(n)[k - n] == w[k]);
                    }
                }
            },
            _ => {
                lemma_way_simple(rest, w.drop_first());
                assert forall|k: int| 0 <= k < w.len() implies !(#[trigger] w[k] is Deep) && !(
                w[k] is Either) by {
                    if k > 0 {
                        assert(w.drop_first()[k - 1] == w[k]);
                    }
                }
            },
        }
    }
}

proof fn lemma_some_way_simple(bs: Seq<Seq<Mark>>, w: Seq<Mark>)
    requires
        all_shallow(bs),
        some_way(bs, w),
    ensures
        simple(w),
    decreases bs, 0int,
{
    let i = choose|i: int| 0 <= i < bs.len() && way(#[trigger] bs[i], w);
    assert(shallow(bs[i], false));
    lemma_way_simple(bs[i], w);
}

/// A branch without `**` matches what one of its ways does.
#[verifier::rlimit(40)]
proof fn lemma_branch_piece(
    ms: Seq<Mark>,
    how: Manner,
    seps: Seps,
    path: Seq<u8>,
    i: int,
    j: int,
)
    requires
        shallow(ms, false),
    ensures
        lang::ops_span(
            ops_of(ms, how.case_insensitive),
            sight(how, seps),
            path,
            i,
            j,
        ) <==> exists|w: Seq<Mark>| #[trigger] way(ms, w) && piece(w, how, seps, path, i, j),
    decreases ms, 0int,
{
    let ci = how.case_insensitive;
    let cx = sight(how, seps);
    let ops = ops_of(ms, ci);
    if ms.len() == 0 {
        if 0 <= i == j <= path.len() {
            let w = Seq::<Mark>::empty();
            assert(way(ms, w) && piece(w, how, seps, path, i, j));
        }
    } else {
        let m = ms[0];
        let rest = ms.drop_first();
        assert(ops.drop_first() =~= ops_of(rest, ci));
        assert(ops[0] == op_of(m, ci));
        assert(shallow_mark(m, false));
        assert(shallow(rest, false)) by {
            assert forall|k: int| 0 <= k < rest.len() implies shallow_mark(
                #[trigger] rest[k],
                false,
            ) by {
                assert(rest[k] == ms[k + 1]);
            }
        }
        if lang::ops_span(ops, cx, path, i, j) {
            let k = choose|k: int| #[trigger]
                lang::cut(k) && lang::op_span(ops[0], cx, path, i, k) && lang::ops_span(
                    ops.drop_first(),
                    cx,
                    path,
                    k,
                    j,
                );
            lemma_branch_piece(rest, how, seps, path, k, j);
            let w2 = choose|w: Seq<Mark>| #[trigger]
                way(rest, w) && piece(w, how, seps, path, k, j);
            match m {
                Mark::Either(bs) => {
                    lemma_some_piece(bs, how, seps, path, i, k);
                    let w1 = choose|w: Seq<Mark>| #[trigger]
                        some_way(bs, w) && piece(w, how, seps, path, i, k);
                    let w = w1 + w2;
                    let n = w1.len() as int;
                    assert(w.take(n) =~= w1);
                    assert(w.skip(n) =~= w2);
                    assert(way(ms, w));
                    lemma_piece_concat(w1, w2, how, seps, path, i, j);
                },
                _ => {
                    lemma_takes(m, how, seps, path, i, k);
                    lemma_way_front(ms, w2);
                    let w = seq![m] + w2;
                    assert(w.drop_first() =~= w2);
                    assert(takes(w[0], how, seps, path, i, k));
                    assert(way(ms, w) && piece(w, how, seps, path, i, j));
                },
            }
        }
        if exists|w: Seq<Mark>| #[trigger] way(ms, w) && piece(w, how, seps, path, i, j) {
            let w = choose|w: Seq<Mark>| #[trigger]
                way(ms, w) && piece(w, how, seps, path, i, j);
            match m {
                Mark::Either(bs) => {
                    let n = choose|n: int|
                        0 <= n <= w.len() && some_way(bs, #[trigger] w.take(n)) && way(
                            rest,
                            w.skip(n),
                        );
                    let w1 = w.take(n);
                    let w2 = w.skip(n);
                    assert(w =~= w1 + w2);
                    lemma_piece_concat(w1, w2, how, seps, path, i, j);
                    let k = choose|k: int| #[trigger]
                        piece(w1, how, seps, path, i, k) && piece(w2, how, seps, path, k, j);
                    lemma_some_piece(bs, how, seps, path, i, k);
                    assert(some_way(bs, w1) && piece(w1, how, seps, path, i, k));
                    lemma_branch_piece(rest, how, seps, path, k, j);
                    assert(way(rest, w2) && piece(w2, how, seps, path, k, j));
                    assert(lang::cut(k));
                },
                _ => {
                    let w2 = w.drop_first();
                    let k = choose|k: int| #[trigger]
                        takes(w[0], how, seps, path, i, k) && piece(w2, how, seps, path, k, j);
                    lemma_takes(m, how, seps, path, i, k);
                    lemma_branch_piece(rest, how, seps, path, k, j);
                    assert(way(rest, w2) && piece(w2, how, seps, path, k, j));
                    assert(lang::cut(k));
                },
            }
        }
    }
}

/// A brace without `**` matches what a way through one of its branches does.
proof fn lemma_some_piece(
    bs: Seq<Seq<Mark>>,
    how: Manner,
    seps: Seps,
    path: Seq<u8>,
    i: int,
    j: int,
)
    requires
        all_shallow(bs),
    ensures
        lang::op_span(
            op_of(Mark::Either(bs), how.case_insensitive),
            sight(how, seps),
            path,
            i,
            j,
        ) <==> exists|w: Seq<Mark>| #[trigger] some_way(bs, w) && piece(w, how, seps, path, i, j),
    decreases bs, 0int,
{
    let ci = how.case_insensitive;
    let cx = sight(how, seps);
    let ps = branches_of(bs, ci);
    lemma_either_op(bs, ci);
    assert forall|q: int| 0 <= q < bs.len() implies (lang::ops_span(
        #[trigger] ps[q],
        cx,
        path,
        i,
        j,
    ) <==> exists|w: Seq<Mark>| #[trigger]
        way(bs[q], w) && piece(w, how, seps, path, i, j)) by {
        assert(shallow(bs[q], false));
        lemma_branch_piece(bs[q], how, seps, path, i, j);
        lemma_gentle_branch(bs[q], ci);
        lower::law_merging_keeps_matches(seq![], ops_of(bs[q], ci), cx, path, i, j);
        assert(Seq::<SpecOp>::empty() + ops_of(bs[q], ci) =~= ops_of(bs[q], ci));
    }
    let op = op_of(Mark::Either(bs), ci);
    assert(lang::op_span(op, cx, path, i, j) == (0 <= i <= j <= path.len() && lang::some_span(
        ps,
        cx,
        path,
        i,
        j,
    )));
    if lang::op_span(op, cx, path, i, j) {
        let q = choose|q: int| 0 <= q < ps.len() && lang::ops_span(#[trigger] ps[q], cx, path, i, j);
        let w = choose|w: Seq<Mark>| #[trigger] way(bs[q], w) && piece(w, how, seps, path, i, j);
        assert(some_way(bs, w) && piece(w, how, seps, path, i, j));
    }
    if exists|w: Seq<Mark>| #[trigger] some_way(bs, w) && piece(w, how, seps, path, i, j) {
        let w = choose|w: Seq<Mark>| #[trigger]
            some_way(bs, w) && piece(w, how, seps, path, i, j);
        let q = choose|q: int| 0 <= q < bs.len() && way(#[trigger] bs[q], w);
        lemma_piece_bounds(w, how, seps, path, i, j);
        assert(way(bs[q], w) && piece(w, how, seps, path, i, j));
        assert(lang::ops_span(ps[q], cx, path, i, j));
        assert(lang::some_span(ps, cx, path, i, j));
    }
}

// Folding.

pub proof fn lemma_fold_one(op: SpecOp)
    requires
        !(op is Globstar),
        !(op is OptSegmentsSlash),
    ensures
        lower::fold(seq![op]) == seq![op],
{
    let ops = seq![op];
    folding::lemma_open_none(ops);
    assert(lower::soften(ops) =~= ops);
    folding::lemma_close_none(ops);
    assert(lower::bare_globstars(ops) =~= ops);
}

pub proof fn lemma_fold_deep()
    ensures
        lower::fold(seq![SpecOp::Globstar]) == seq![SpecOp::GlobstarAny],
        lower::fold(seq![SpecOp::Globstar, SpecOp::Sep]) == seq![SpecOp::OptSegmentsSlash],
        lower::fold(seq![SpecOp::Sep, SpecOp::Globstar]) == seq![SpecOp::SlashAnything],
        lower::fold(seq![SpecOp::Sep, SpecOp::Globstar, SpecOp::Sep]) == seq![
            SpecOp::SepRun,
            SpecOp::OptSegmentsSlash,
        ],
{
    reveal_with_fuel(lower::open_globstars, 4);
    reveal_with_fuel(lower::close_globstars, 4);
    let none = Seq::<SpecOp>::empty();
    let g = seq![SpecOp::Globstar];
    assert(g.skip(1) =~= none);
    assert(lower::open_globstars(g) =~= g);
    assert(lower::soften(g) =~= g);
    assert(lower::close_globstars(g) =~= g);
    assert(lower::bare_globstars(g) =~= seq![SpecOp::GlobstarAny]);
    let gs = seq![SpecOp::Globstar, SpecOp::Sep];
    let o = seq![SpecOp::OptSegmentsSlash];
    assert(gs.skip(2) =~= none);
    assert(o.skip(1) =~= none);
    assert(lower::open_globstars(gs) =~= o);
    assert(lower::soften(o) =~= o);
    assert(lower::close_globstars(o) =~= o);
    assert(lower::bare_globstars(o) =~= o);
    let sg = seq![SpecOp::Sep, SpecOp::Globstar];
    assert(sg.skip(1) =~= g);
    assert(sg.skip(2) =~= none);
    assert(lower::open_globstars(sg) =~= sg);
    assert(lower::soften(sg) =~= sg);
    assert(lower::close_globstars(sg) =~= seq![SpecOp::SlashAnything]);
    assert(lower::bare_globstars(seq![SpecOp::SlashAnything]) =~= seq![SpecOp::SlashAnything]);
    let sgs = seq![SpecOp::Sep, SpecOp::Globstar, SpecOp::Sep];
    assert(sgs.skip(1) =~= gs);
    let so = seq![SpecOp::Sep, SpecOp::OptSegmentsSlash];
    let ro = seq![SpecOp::SepRun, SpecOp::OptSegmentsSlash];
    assert(lower::open_globstars(sgs) =~= so);
    assert(lower::soften(so) =~= ro);
    assert(ro.skip(1) =~= o);
    assert(lower::close_globstars(ro) =~= ro);
    assert(lower::bare_globstars(ro) =~= ro);
}

/// Cut where no `**` is parted from its slashes, a program is folded in two
/// parts.
pub proof fn lemma_folded_cut(a: Seq<Mark>, b: Seq<Mark>, ci: bool)
    requires
        a.len() > 0 && b.len() > 0 ==> !(a.last() is Deep && b[0] is Slash) && !(a.last() is Slash
            && b[0] is Deep),
    ensures
        folded(a + b, ci) == folded(a, ci) + folded(b, ci),
{
    lemma_ops_unfolded(a, ci);
    lemma_ops_unfolded(b, ci);
    assert(ops_of(a + b, ci) =~= ops_of(a, ci) + ops_of(b, ci));
    if a.len() > 0 && b.len() > 0 {
        assert(ops_of(a, ci).last() == ops_of(a, ci)[a.len() - 1]);
    }
    folding::lemma_fold_concat(ops_of(a, ci), ops_of(b, ci));
}

/// Separators before `**/` lead over whole segments.
proof fn lemma_segments(how: Manner, seps: Seps, path: Seq<u8>, i: int, j: int)
    requires
        0 <= i,
    ensures
        segments(how, seps, path, i, j) == (j <= path.len() && elems::hops(
            sight(how, seps),
            path,
            i,
            j,
        )),
        i <= j <= path.len() ==> segments(how, seps, path, i, j) == elems::seps_oss(
            sight(how, seps),
            path,
            i,
            j,
        ),
{
    let cx = sight(how, seps);
    lemma_sight(how, seps, path);
    if i <= j <= path.len() {
        elems::lemma_seps_oss(cx, path, i, j);
        if lang::no_hidden(cx, path, i, j) {
            assert forall|k: int| i <= k < j implies !#[trigger] dotted(how, seps, path, k) by {
                assert(!lang::hidden(cx, path, k));
            }
        }
        if undotted(how, seps, path, i, j) {
            assert forall|k: int| i <= k < j implies !#[trigger] lang::hidden(cx, path, k) by {
                assert(!dotted(how, seps, path, k));
            }
        }
    }
}

proof fn lemma_undotted(how: Manner, seps: Seps, path: Seq<u8>, i: int, j: int)
    ensures
        undotted(how, seps, path, i, j) == lang::no_hidden(sight(how, seps), path, i, j),
{
    let cx = sight(how, seps);
    lemma_sight(how, seps, path);
    if lang::no_hidden(cx, path, i, j) {
        assert forall|k: int| i <= k < j implies !#[trigger] dotted(how, seps, path, k) by {
            assert(!lang::hidden(cx, path, k));
        }
    }
    if undotted(how, seps, path, i, j) {
        assert forall|k: int| i <= k < j implies !#[trigger] lang::hidden(cx, path, k) by {
            assert(!dotted(how, seps, path, k));
        }
    }
}

/// Where `rest` is matched as it should be, `**/` and `rest` are, behind
/// separators that may repeat.
#[verifier::rlimit(40)]
proof fn lemma_deep_step(
    first: SpecOp,
    rest: Seq<SpecOp>,
    how: Manner,
    seps: Seps,
    path: Seq<u8>,
    i: int,
    from: int,
)
    requires
        0 <= i <= path.len(),
        (first is SepRun && from == i + 1) || (first is LeadingSeps && from == i),
    ensures
        lang::ops_span(
            seq![first, SpecOp::OptSegmentsSlash] + rest,
            sight(how, seps),
            path,
            i,
            path.len() as int,
        ) <==> (from == i || (i < path.len() && divides(seps, path[i]))) && exists|j: int| #[trigger]
            segments(how, seps, path, from, j) && lang::ops_span(
                rest,
                sight(how, seps),
                path,
                j,
                path.len() as int,
            ),
{
    let cx = sight(how, seps);
    let n = path.len() as int;
    let oss = SpecOp::OptSegmentsSlash;
    let ops = seq![first, oss] + rest;
    let tail = seq![oss] + rest;
    lemma_sight(how, seps, path);
    assert(ops.drop_first() =~= tail);
    assert(tail.drop_first() =~= rest);
    if lang::ops_span(ops, cx, path, i, n) {
        let k = choose|k: int| #[trigger]
            lang::cut(k) && lang::op_span(ops[0], cx, path, i, k) && lang::ops_span(
                ops.drop_first(),
                cx,
                path,
                k,
                n,
            );
        let j = choose|j: int| #[trigger]
            lang::cut(j) && lang::op_span(tail[0], cx, path, k, j) && lang::ops_span(
                tail.drop_first(),
                cx,
                path,
                j,
                n,
            );
        if first is SepRun {
            assert(cx.seps.has(path[i]));
        }
        assert(lang::all_sep(cx, path, from, k));
        assert(lang::cut(k));
        assert(elems::seps_oss(cx, path, from, j));
        lemma_segments(how, seps, path, from, j);
        assert(segments(how, seps, path, from, j) && lang::ops_span(rest, cx, path, j, n));
    }
    if (from == i || (i < n && divides(seps, path[i]))) && exists|j: int| #[trigger]
        segments(how, seps, path, from, j) && lang::ops_span(rest, cx, path, j, n) {
        let j = choose|j: int| #[trigger]
            segments(how, seps, path, from, j) && lang::ops_span(rest, cx, path, j, n);
        lemma_segments(how, seps, path, from, j);
        let k = choose|k: int| #[trigger]
            lang::cut(k) && from <= k <= j && lang::all_sep(cx, path, from, k) && lang::op_span(
                oss,
                cx,
                path,
                k,
                j,
            );
        assert(lang::all_sep(cx, path, i, k)) by {
            assert forall|q: int| i <= q < k implies cx.seps.has(#[trigger] path[q]) by {
                if q >= from {
                    assert(cx.seps.has(path[q]));
                }
            }
        }
        assert(lang::op_span(ops[0], cx, path, i, k));
        assert(lang::cut(j) && lang::op_span(tail[0], cx, path, k, j) && lang::ops_span(
            tail.drop_first(),
            cx,
            path,
            j,
            n,
        ));
        assert(lang::ops_span(tail, cx, path, k, n));
        assert(lang::cut(k) && lang::op_span(ops[0], cx, path, i, k) && lang::ops_span(
            ops.drop_first(),
            cx,
            path,
            k,
            n,
        ));
        assert(lang::ops_span(ops, cx, path, i, n));
    }
}

// The meaning of marks.

/// Behind its first mark a pattern goes on as one.
proof fn lemma_meets_front(
    ms: Seq<Mark>,
    how: Manner,
    seps: Seps,
    path: Seq<u8>,
    i: int,
)
    requires
        ms.len() > 0,
        !(ms[0] is Either),
        !(ms[0] is Deep),
    ensures
        meets(ms, how, seps, path, i) <==> exists|k: int| #[trigger]
            takes(ms[0], how, seps, path, i, k) && meets(ms.drop_first(), how, seps, path, k),
{
    let rest = ms.drop_first();
    if meets(ms, how, seps, path, i) {
        let w = choose|w: Seq<Mark>| #[trigger] way(ms, w) && fits(w, how, seps, path, i);
        let k = choose|k: int| #[trigger]
            takes(w[0], how, seps, path, i, k) && fits(w.drop_first(), how, seps, path, k);
        assert(way(rest, w.drop_first()));
        assert(takes(ms[0], how, seps, path, i, k));
        assert(meets(rest, how, seps, path, k));
    }
    if exists|k: int| #[trigger]
        takes(ms[0], how, seps, path, i, k) && meets(rest, how, seps, path, k) {
        let k = choose|k: int| #[trigger]
            takes(ms[0], how, seps, path, i, k) && meets(rest, how, seps, path, k);
        let v = choose|w: Seq<Mark>| #[trigger] way(rest, w) && fits(w, how, seps, path, k);
        lemma_way_front(ms, v);
        let w = seq![ms[0]] + v;
        assert(w.drop_first() =~= v);
        assert(takes(w[0], how, seps, path, i, k));
        assert(way(ms, w) && fits(w, how, seps, path, i));
    }
}

/// Behind a `**` and its slash a pattern goes on after whole segments.
proof fn lemma_meets_deep(
    ms: Seq<Mark>,
    how: Manner,
    seps: Seps,
    path: Seq<u8>,
    i: int,
)
    requires
        ms.len() > 1,
        ms[0] is Deep,
        ms[1] is Slash,
    ensures
        meets(ms, how, seps, path, i) <==> exists|j: int| #[trigger]
            segments(how, seps, path, i, j) && meets(ms.skip(2), how, seps, path, j),
{
    let mid = ms.drop_first();
    let rest = ms.skip(2);
    assert(mid.drop_first() =~= rest);
    if meets(ms, how, seps, path, i) {
        let w = choose|w: Seq<Mark>| #[trigger] way(ms, w) && fits(w, how, seps, path, i);
        let v = w.drop_first();
        assert(way(mid, v));
        assert(way(rest, v.drop_first()));
        assert(v.drop_first() =~= w.skip(2));
        let j = choose|j: int| #[trigger]
            segments(how, seps, path, i, j) && fits(w.skip(2), how, seps, path, j);
        assert(segments(how, seps, path, i, j));
        assert(meets(rest, how, seps, path, j));
    }
    if exists|j: int| #[trigger]
        segments(how, seps, path, i, j) && meets(rest, how, seps, path, j) {
        let j = choose|j: int| #[trigger]
            segments(how, seps, path, i, j) && meets(rest, how, seps, path, j);
        let v = choose|w: Seq<Mark>| #[trigger] way(rest, w) && fits(w, how, seps, path, j);
        lemma_way_front(mid, v);
        lemma_way_front(ms, seq![mid[0]] + v);
        let w = seq![ms[0]] + (seq![mid[0]] + v);
        assert(w.skip(2) =~= v);
        assert(way(ms, w));
        assert(fits(w, how, seps, path, i));
    }
}

proof fn lemma_meets_last(
    ms: Seq<Mark>,
    how: Manner,
    seps: Seps,
    path: Seq<u8>,
    i: int,
)
    requires
        ms.len() == 1,
        ms[0] is Deep,
    ensures
        meets(ms, how, seps, path, i) <==> undotted(how, seps, path, i, path.len() as int),
{
    let none = Seq::<Mark>::empty();
    assert(ms.drop_first() =~= none);
    assert(way(none, none));
    lemma_way_front(ms, none);
    let w = seq![ms[0]] + none;
    assert(w.len() == 1);
    assert(way(ms, w));
    if meets(ms, how, seps, path, i) {
        let v = choose|w: Seq<Mark>| #[trigger] way(ms, w) && fits(w, how, seps, path, i);
        assert(way(ms.drop_first(), v.drop_first()));
        assert(v.len() == 1);
    }
    if undotted(how, seps, path, i, path.len() as int) {
        assert(fits(w, how, seps, path, i));
    }
}

/// A first brace is one of its branches.
proof fn lemma_meets_either(
    ms: Seq<Mark>,
    how: Manner,
    seps: Seps,
    path: Seq<u8>,
    i: int,
)
    requires
        ms.len() > 0,
        ms[0] is Either,
        shallow_mark(ms[0], true),
        0 <= i <= path.len(),
    ensures
        meets(ms, how, seps, path, i) <==> exists|k: int| #[trigger]
            lang::cut(k) && lang::op_span(
                op_of(ms[0], how.case_insensitive),
                sight(how, seps),
                path,
                i,
                k,
            ) && meets(ms.drop_first(), how, seps, path, k),
{
    let rest = ms.drop_first();
    let op = op_of(ms[0], how.case_insensitive);
    let cx = sight(how, seps);
    if meets(ms, how, seps, path, i) {
        let w = choose|w: Seq<Mark>| #[trigger] way(ms, w) && fits(w, how, seps, path, i);
        let k = lemma_either_parts(ms, w, how, seps, path, i);
        assert(lang::cut(k));
    }
    if exists|k: int| #[trigger]
        lang::cut(k) && lang::op_span(op, cx, path, i, k) && meets(rest, how, seps, path, k) {
        let k = choose|k: int| #[trigger]
            lang::cut(k) && lang::op_span(op, cx, path, i, k) && meets(rest, how, seps, path, k);
        let w = lemma_either_joined(ms, how, seps, path, i, k);
        assert(way(ms, w));
    }
}

/// A way through a brace and what follows it comes in two parts.
proof fn lemma_either_parts(
    ms: Seq<Mark>,
    w: Seq<Mark>,
    how: Manner,
    seps: Seps,
    path: Seq<u8>,
    i: int,
) -> (k: int)
    requires
        ms.len() > 0,
        ms[0] is Either,
        shallow_mark(ms[0], true),
        0 <= i <= path.len(),
        way(ms, w),
        fits(w, how, seps, path, i),
    ensures
        lang::op_span(
            op_of(ms[0], how.case_insensitive),
            sight(how, seps),
            path,
            i,
            k,
        ),
        meets(ms.drop_first(), how, seps, path, k),
{
    let rest = ms.drop_first();
    let bs = ms[0]->Either_0;
    let n = choose|n: int|
        0 <= n <= w.len() && some_way(bs, #[trigger] w.take(n)) && way(rest, w.skip(n));
    let a = w.take(n);
    let b = w.skip(n);
    assert(some_way(bs, a));
    assert(way(rest, b));
    assert(w =~= a + b);
    lemma_some_way_simple(bs, a);
    lemma_fits_concat(a, b, how, seps, path, i);
    let k = choose|k: int| #[trigger]
        piece(a, how, seps, path, i, k) && fits(b, how, seps, path, k);
    lemma_some_piece(bs, how, seps, path, i, k);
    assert(some_way(bs, a) && piece(a, how, seps, path, i, k));
    assert(way(rest, b) && fits(b, how, seps, path, k));
    k
}

/// A way through a brace and one through what follows it make one.
proof fn lemma_either_joined(
    ms: Seq<Mark>,
    how: Manner,
    seps: Seps,
    path: Seq<u8>,
    i: int,
    k: int,
) -> (w: Seq<Mark>)
    requires
        ms.len() > 0,
        ms[0] is Either,
        shallow_mark(ms[0], true),
        0 <= i <= path.len(),
        lang::op_span(
            op_of(ms[0], how.case_insensitive),
            sight(how, seps),
            path,
            i,
            k,
        ),
        meets(ms.drop_first(), how, seps, path, k),
    ensures
        way(ms, w),
        fits(w, how, seps, path, i),
{
    let rest = ms.drop_first();
    let bs = ms[0]->Either_0;
    lemma_some_piece(bs, how, seps, path, i, k);
    let a = choose|w: Seq<Mark>| #[trigger] some_way(bs, w) && piece(w, how, seps, path, i, k);
    let b = choose|w: Seq<Mark>| #[trigger] way(rest, w) && fits(w, how, seps, path, k);
    lemma_some_way_simple(bs, a);
    lemma_fits_concat(a, b, how, seps, path, i);
    let w = a + b;
    let n = a.len() as int;
    assert(w.take(n) =~= a);
    assert(w.skip(n) =~= b);
    assert(piece(a, how, seps, path, i, k) && fits(b, how, seps, path, k));
    w
}

proof fn lemma_tail(ms: Seq<Mark>, n: int)
    requires
        0 <= n <= ms.len(),
        shallow(ms, true),
        apart(ms),
        n > 0 && n < ms.len() ==> !(ms[n] is Deep) || n + 1 == ms.len(),
    ensures
        shallow(ms.skip(n), true),
        apart(ms.skip(n)),
{
    let rest = ms.skip(n);
    assert forall|k: int| 0 <= k < rest.len() implies shallow_mark(#[trigger] rest[k], true) by {
        assert(rest[k] == ms[k + n]);
    }
    assert forall|k: int| #[trigger] apart_at(rest, k) by {
        assert(apart_at(ms, k + n));
    }
}

/// Where no `**` starts them or it is all there is, marks match what their
/// program matches.
#[verifier::rlimit(40)]
proof fn lemma_meets(ms: Seq<Mark>, how: Manner, seps: Seps, path: Seq<u8>, i: int)
    requires
        shallow(ms, true),
        apart(ms),
        ms.len() > 1 ==> !(ms[0] is Deep),
        0 <= i <= path.len(),
    ensures
        lang::ops_span(
            folded(ms, how.case_insensitive),
            sight(how, seps),
            path,
            i,
            path.len() as int,
        ) == meets(ms, how, seps, path, i),
    decreases ms.len(),
{
    let ci = how.case_insensitive;
    let cx = sight(how, seps);
    let n = path.len() as int;
    let ops = folded(ms, ci);
    if ms.len() == 0 {
        assert(ops_of(ms, ci) =~= seq![]);
        assert(ops =~= seq![]);
        let w = Seq::<Mark>::empty();
        assert(way(ms, w));
        if i == n {
            assert(fits(w, how, seps, path, i));
        }
    } else if ms[0] is Deep {
        lemma_fold_deep();
        assert(ops_of(ms, ci) =~= seq![SpecOp::Globstar]);
        lang::lemma_span_single(SpecOp::GlobstarAny, cx, path, i, n);
        lemma_meets_last(ms, how, seps, path, i);
        lemma_undotted(how, seps, path, i, n);
    } else if ms[0] is Slash && ms.len() > 1 && ms[1] is Deep {
        let deep = ms.drop_first();
        assert(apart_at(ms, 1));
        lemma_fold_deep();
        lemma_meets_front(ms, how, seps, path, i);
        lemma_sight(how, seps, path);
        let below = i < n && divides(seps, path[i]);
        assert(forall|k: int| #[trigger]
            takes(ms[0], how, seps, path, i, k) <==> below && k == i + 1);
        assert(meets(ms, how, seps, path, i) == (below && meets(deep, how, seps, path, i + 1)))
            by {
            if below {
                assert(takes(ms[0], how, seps, path, i, i + 1));
            }
        }
        if ms.len() == 2 {
            assert(ops_of(ms, ci) =~= seq![SpecOp::Sep, SpecOp::Globstar]);
            lang::lemma_span_single(SpecOp::SlashAnything, cx, path, i, n);
            lemma_meets_last(deep, how, seps, path, i + 1);
            lemma_undotted(how, seps, path, i + 1, n);
            assert(ops == seq![SpecOp::SlashAnything]);
            if below {
                assert(!lang::hidden(cx, path, i));
                assert(lang::no_hidden(cx, path, i, n) == lang::no_hidden(cx, path, i + 1, n)) by {
                    if lang::no_hidden(cx, path, i + 1, n) {
                        assert forall|k: int| i <= k < n implies !#[trigger] lang::hidden(
                            cx,
                            path,
                            k,
                        ) by {}
                    }
                }
            }
        } else {
            let front = ms.take(3);
            let rest = ms.skip(3);
            assert(ms =~= front + rest);
            assert(deep.skip(2) =~= rest);
            if rest.len() > 0 {
                assert(rest[0] == ms[3]);
            }
            assert(ops_of(front, ci) =~= seq![SpecOp::Sep, SpecOp::Globstar, SpecOp::Sep]);
            lemma_folded_cut(front, rest, ci);
            lemma_tail(ms, 3);
            lemma_deep_step(SpecOp::SepRun, folded(rest, ci), how, seps, path, i, i + 1);
            assert(ops == seq![SpecOp::SepRun, SpecOp::OptSegmentsSlash] + folded(rest, ci));
            lemma_meets_deep(deep, how, seps, path, i + 1);
            assert forall|j: int| #[trigger] segments(how, seps, path, i + 1, j) implies (
            lang::ops_span(folded(rest, ci), cx, path, j, n) == meets(rest, how, seps, path, j)) by {
                lemma_meets(rest, how, seps, path, j);
            }
        }
    } else {
        let m = ms[0];
        let rest = ms.drop_first();
        let front = ms.take(1);
        assert(rest =~= ms.skip(1));
        assert(ms =~= front + rest);
        if rest.len() > 0 {
            assert(rest[0] == ms[1]);
            assert(apart_at(ms, 1));
        }
        let op = op_of(m, ci);
        lemma_ops_unfolded(ms, ci);
        assert(ops_of(ms, ci)[0] == op);
        assert(ops_of(front, ci) =~= seq![op]);
        lemma_folded_cut(front, rest, ci);
        lemma_fold_one(op);
        lemma_tail(ms, 1);
        assert(ops.drop_first() =~= folded(rest, ci));
        assert(ops[0] == op);
        assert(shallow_mark(m, true));
        if m is Either {
            lemma_meets_either(ms, how, seps, path, i);
        } else {
            lemma_meets_front(ms, how, seps, path, i);
        }
        if lang::ops_span(ops, cx, path, i, n) {
            let k = choose|k: int| #[trigger]
                lang::cut(k) && lang::op_span(ops[0], cx, path, i, k) && lang::ops_span(
                    ops.drop_first(),
                    cx,
                    path,
                    k,
                    n,
                );
            lemma_meets(rest, how, seps, path, k);
            if !(m is Either) {
                lemma_takes(m, how, seps, path, i, k);
                assert(takes(m, how, seps, path, i, k));
            }
            assert(lang::cut(k));
        }
        if meets(ms, how, seps, path, i) {
            let k = if m is Either {
                choose|k: int| #[trigger]
                    lang::cut(k) && lang::op_span(op, cx, path, i, k) && meets(
                        rest,
                        how,
                        seps,
                        path,
                        k,
                    )
            } else {
                choose|k: int| #[trigger]
                    takes(m, how, seps, path, i, k) && meets(rest, how, seps, path, k)
            };
            if !(m is Either) {
                lemma_takes(m, how, seps, path, i, k);
            }
            lemma_meets(rest, how, seps, path, k);
            assert(lang::cut(k));
        }
    }
}

/// Marks match what their program matches, where a `**/` at the start takes
/// the separators before it.
#[verifier::rlimit(40)]
pub proof fn lemma_led_meets(ms: Seq<Mark>, how: Manner, seps: Seps, path: Seq<u8>)
    requires
        shallow(ms, true),
        apart(ms),
    ensures
        lang::matches(
            lower::lead(folded(ms, how.case_insensitive)),
            sight(how, seps),
            path,
        ) == meets(ms, how, seps, path, 0),
{
    let ci = how.case_insensitive;
    let cx = sight(how, seps);
    let n = path.len() as int;
    let ops = folded(ms, ci);
    lemma_ops_unfolded(ms, ci);
    lemma_fold_deep();
    if ms.len() == 0 {
        lemma_meets(ms, how, seps, path, 0);
        assert(ops_of(ms, ci) =~= seq![]);
        assert(ops =~= seq![]);
    } else if ms[0] is Deep {
        assert(apart_at(ms, 0));
        assert(ops_of(ms, ci)[0] is Globstar);
        if ms.len() == 1 {
            assert(ops_of(ms, ci) =~= seq![SpecOp::Globstar]);
            lang::lemma_span_single(SpecOp::GlobstarAny, cx, path, 0, n);
            lemma_meets_last(ms, how, seps, path, 0);
            lemma_undotted(how, seps, path, 0, n);
        } else {
            let front = ms.take(2);
            let rest = ms.skip(2);
            assert(ms =~= front + rest);
            if rest.len() > 0 {
                assert(rest[0] == ms[2]);
            }
            assert(ops_of(ms, ci)[1] is Sep);
            assert(ops_of(front, ci) =~= seq![SpecOp::Globstar, SpecOp::Sep]);
            lemma_folded_cut(front, rest, ci);
            lemma_tail(ms, 2);
            let led = seq![SpecOp::LeadingSeps, SpecOp::OptSegmentsSlash] + folded(rest, ci);
            assert(lower::lead(ops) =~= led);
            lemma_deep_step(SpecOp::LeadingSeps, folded(rest, ci), how, seps, path, 0, 0);
            lemma_meets_deep(ms, how, seps, path, 0);
            assert forall|j: int| #[trigger] segments(how, seps, path, 0, j) implies (
            lang::ops_span(folded(rest, ci), cx, path, j, n) == meets(rest, how, seps, path, j)) by {
                lemma_meets(rest, how, seps, path, j);
            }
        }
    } else {
        lemma_meets(ms, how, seps, path, 0);
        if ms[0] is Either {
            let front = ms.take(1);
            let rest = ms.skip(1);
            let op = op_of(ms[0], ci);
            assert(ms =~= front + rest);
            if rest.len() > 0 {
                assert(rest[0] == ms[1]);
                assert(apart_at(ms, 1));
            }
            assert(ops_of(front, ci) =~= seq![op]);
            assert(ops_of(ms, ci)[0] == op);
            lemma_fold_one(op);
            lemma_folded_cut(front, rest, ci);
            unions::lemma_lead_part(seq![op], folded(rest, ci));
            assert(shallow_mark(ms[0], true));
            lemma_gentle_mark(ms[0], ci);
            lemma_gentle_lead(seq![op]);
        } else {
            folding::lemma_fold_first(ops_of(ms, ci));
        }
    }
}

// Trees of marks.

proof fn lemma_run_calm(ms: Seq<Mark>, nodes: Seq<SpecNode>, lit: Seq<u8>, deep: bool)
    requires
        shallow(ms, deep),
        deep ==> unions::all_calm(nodes),
        !deep ==> !ast::some_mentions_globstar(nodes),
    ensures
        deep ==> unions::all_calm(notation::nodes_of(ms, nodes, lit)),
        !deep ==> !ast::some_mentions_globstar(notation::nodes_of(ms, nodes, lit)),
    decreases ms, 0int,
{
    let all = parser::flushed(nodes, lit);
    assert forall|k: int| 0 <= k < all.len() implies (deep ==> unions::calm(#[trigger] all[k])) && (
    !deep ==> !ast::mentions_globstar(all[k])) by {
        if k < nodes.len() {
            assert(all[k] == nodes[k]);
        }
    }
    if ms.len() > 0 {
        let m = ms[0];
        let rest = ms.drop_first();
        assert(shallow_mark(m, deep));
        assert(shallow(rest, deep)) by {
            assert forall|k: int| 0 <= k < rest.len() implies shallow_mark(
                #[trigger] rest[k],
                deep,
            ) by {
                assert(rest[k] == ms[k + 1]);
            }
        }
        match m {
            Mark::Byte(b) => lemma_run_calm(rest, nodes, lit.push(b), deep),
            Mark::Escaped(b) => lemma_run_calm(rest, nodes, lit.push(b), deep),
            _ => {
                let now = all.push(notation::node_of(m));
                lemma_node_calm(m, deep);
                assert forall|k: int| 0 <= k < now.len() implies (deep ==> unions::calm(
                    #[trigger] now[k],
                )) && (!deep ==> !ast::mentions_globstar(now[k])) by {
                    if k < all.len() {
                        assert(now[k] == all[k]);
                    }
                }
                lemma_run_calm(rest, now, seq![], deep);
            },
        }
    }
}

pub proof fn lemma_node_calm(m: Mark, deep: bool)
    requires
        shallow_mark(m, deep),
    ensures
        deep ==> unions::calm(notation::node_of(m)),
        !deep ==> !ast::mentions_globstar(notation::node_of(m)),
    decreases m, 0int,
{
    if let Mark::Either(bs) = m {
        let ts = notation::trees(bs);
        assert(all_shallow(bs));
        assert(notation::node_of(m) == SpecNode::Brace(ts));
        assert forall|k: int| 0 <= k < ts.len() implies !ast::mentions_globstar(#[trigger] ts[k]) by {
            assert(shallow(bs[k], false));
            lemma_tree_calm(bs[k], false);
        }
        assert(!ast::some_mentions_globstar(ts));
    }
}

pub proof fn lemma_tree_calm(ms: Seq<Mark>, deep: bool)
    requires
        shallow(ms, deep),
    ensures
        deep ==> unions::calm(notation::tree(ms)),
        !deep ==> !ast::mentions_globstar(notation::tree(ms)),
    decreases ms, 1int,
{
    let xs = notation::nodes_of(ms, seq![], seq![]);
    lemma_run_calm(ms, seq![], seq![], deep);
    if xs.len() == 1 {
        if deep {
            assert(unions::calm(xs[0]));
        } else {
            assert(!ast::mentions_globstar(xs[0]));
        }
    } else {
        assert(notation::tree(ms) == SpecNode::Concat(xs));
    }
}

/// No literal in the nodes holds a `/`.
pub open spec fn slashless(nodes: Seq<SpecNode>) -> bool {
    forall|k: int| 0 <= k < nodes.len() ==> slashless_node(#[trigger] nodes[k])
}

pub open spec fn slashless_node(n: SpecNode) -> bool {
    match n {
        SpecNode::Literal(b) => !b.contains(0x2fu8),
        SpecNode::Concat(_) => false,
        _ => true,
    }
}

/// No byte of the marks is a `/`, escaped or not.
pub open spec fn no_slash_byte(ms: Seq<Mark>) -> bool {
    forall|k: int|
        0 <= k < ms.len() ==> #[trigger] ms[k] != Mark::Escaped(0x2f) && ms[k] != Mark::Byte(0x2f)
}

proof fn lemma_run_slashless(ms: Seq<Mark>, nodes: Seq<SpecNode>, lit: Seq<u8>)
    requires
        no_slash_byte(ms),
        slashless(nodes),
        !lit.contains(0x2fu8),
    ensures
        slashless(notation::nodes_of(ms, nodes, lit)),
    decreases ms.len(),
{
    let all = parser::flushed(nodes, lit);
    assert forall|k: int| 0 <= k < all.len() implies slashless_node(#[trigger] all[k]) by {
        if k < nodes.len() {
            assert(all[k] == nodes[k]);
        }
    }
    if ms.len() > 0 {
        let m = ms[0];
        let rest = ms.drop_first();
        assert(no_slash_byte(rest)) by {
            assert forall|k: int| 0 <= k < rest.len() implies #[trigger] rest[k] != Mark::Escaped(
                0x2f,
            ) && rest[k] != Mark::Byte(0x2f) by {
                assert(rest[k] == ms[k + 1]);
            }
        }
        match m {
            Mark::Byte(b) => {
                lemma_without_slash(lit, b);
                lemma_run_slashless(rest, nodes, lit.push(b));
            },
            Mark::Escaped(b) => {
                lemma_without_slash(lit, b);
                lemma_run_slashless(rest, nodes, lit.push(b));
            },
            _ => {
                let now = all.push(notation::node_of(m));
                assert forall|k: int| 0 <= k < now.len() implies slashless_node(
                    #[trigger] now[k],
                ) by {
                    if k < all.len() {
                        assert(now[k] == all[k]);
                    }
                }
                lemma_run_slashless(rest, now, seq![]);
            },
        }
    }
}

proof fn lemma_without_slash(lit: Seq<u8>, b: u8)
    requires
        !lit.contains(0x2fu8),
        b != 0x2f,
    ensures
        !lit.push(b).contains(0x2fu8),
{
    let longer = lit.push(b);
    if longer.contains(0x2fu8) {
        let k = choose|k: int| 0 <= k < longer.len() && longer[k] == 0x2fu8;
        assert(lit[k] == 0x2fu8);
        assert(lit.contains(0x2fu8));
    }
}

proof fn lemma_slashless_clear(nodes: Seq<SpecNode>, s: Seq<u8>, i: int)
    requires
        slashless(nodes),
    ensures
        unions::all_clear(nodes, s, i),
    decreases nodes.len(),
{
    if nodes.len() > 0 {
        let head = nodes.drop_last();
        assert(slashless(head)) by {
            assert forall|k: int| 0 <= k < head.len() implies slashless_node(#[trigger] head[k]) by {
                assert(head[k] == nodes[k]);
            }
        }
        lemma_slashless_clear(head, s, i);
        assert(slashless_node(nodes[nodes.len() - 1]));
        lemma_slashless_node(nodes.last(), s, i + ast::literal_bytes_all(head).len());
    }
}

proof fn lemma_slashless_node(n: SpecNode, s: Seq<u8>, i: int)
    requires
        slashless_node(n),
    ensures
        unions::clear(n, s, i),
{
    if let SpecNode::Literal(b) = n {
        assert forall|k: int|
            0 <= k < b.len() && i + k < s.len() && #[trigger] b[k] == 0x2f implies s[i + k]
            != 0x5c by {
            assert(b.contains(b[k]));
        }
    }
}

/// Where a backslash separates too, no byte of the pattern is an escaped `/`.
pub open spec fn told(ms: Seq<Mark>, seps: Seps) -> bool {
    seps.backslash ==> no_slash_byte(ms)
}

pub proof fn lemma_told(ms: Seq<Mark>, seps: Seps, path: Seq<u8>)
    requires
        told(ms, seps),
    ensures
        unions::told_apart(notation::tree(ms), seps, path),
{
    if seps.backslash {
        let xs = notation::nodes_of(ms, seq![], seq![]);
        lemma_run_slashless(ms, seq![], seq![]);
        if xs.len() == 1 {
            assert(slashless_node(xs[0]));
            lemma_slashless_node(xs[0], path, 0);
        } else {
            lemma_slashless_clear(xs, path, 0);
        }
    }
}

// What a pattern matches.

/// Where the program of a pattern matches a path, the pattern does, and with an
/// odd number of `!` it does not.
pub proof fn lemma_pattern(
    n: nat,
    ms: Seq<Mark>,
    text: Seq<char>,
    opts: CompileOptions,
    seps: Seps,
    path: Seq<u8>,
)
    requires
        notation::whole(ms),
        told(ms, seps),
        0 < n + notation::text(ms).len() <= 65536,
        glob::text_bytes(text) == notation::exclamations(n) + notation::text(ms),
    ensures
        glob::compiled(text, opts, seps) matches Ok(g) && g.matches(path) == (lang::matches(
            lower::lowered(notation::tree(ms), opts.case_insensitive),
            sight(wholly(opts, path), seps),
            path,
        ) != (n % 2 == 1)),
{
    notation::lemma_reads(n, ms);
    openings::lemma_parsed_fair(glob::text_bytes(text));
    lemma_told(ms, seps, path);
    let g = glob::compiled(text, opts, seps)->Ok_0;
    let up = SpecGlob { negated: false, ..g };
    unions::lemma_glob_program(up, path);
    assert(up.body_matches(path) == g.body_matches(path));
}

pub proof fn lemma_apart_once(ms: Seq<Mark>, ci: bool)
    requires
        apart(ms),
    ensures
        folding::opens_once(ops_of(ms, ci)),
{
    lemma_ops_unfolded(ms, ci);
    if ms.len() > 2 {
        assert(apart_at(ms, 0));
        assert(ops_of(ms, ci)[2] is Globstar <==> ms[2] is Deep);
        assert(ops_of(ms, ci)[0] is Globstar <==> ms[0] is Deep);
    }
}

/// The program of a pattern matches what its marks do.
pub proof fn lemma_program_meets(ms: Seq<Mark>, how: Manner, seps: Seps, path: Seq<u8>)
    requires
        shallow(ms, true),
        apart(ms),
    ensures
        lang::matches(
            lower::lowered(notation::tree(ms), how.case_insensitive),
            sight(how, seps),
            path,
        ) == meets(ms, how, seps, path, 0),
{
    let ci = how.case_insensitive;
    let cx = sight(how, seps);
    lemma_tree_calm(ms, true);
    unions::lemma_calm_uncrowded(notation::tree(ms));
    lemma_merged_tree(ms, ci);
    lemma_ops_unfolded(ms, ci);
    lemma_apart_once(ms, ci);
    folding::lemma_merge_lead(ops_of(ms, ci), cx, path);
    assert(folding::alike_at(
        lower::lowered(notation::tree(ms), ci),
        lower::lead(folded(ms, ci)),
        cx,
        path,
        0,
        path.len() as int,
    ));
    lemma_led_meets(ms, how, seps, path);
}

/// A pattern matches a path exactly when its marks do, byte for byte, with some
/// branch written out in place of each brace. An odd number of `!` before them
/// turns the answer round.
///
/// No brace in it holds a `**`.
pub proof fn law_pattern_matches_what_its_marks_say(
    n: nat,
    ms: Seq<Mark>,
    text: Seq<char>,
    opts: CompileOptions,
    seps: Seps,
    path: Seq<u8>,
)
    requires
        notation::whole(ms),
        shallow(ms, true),
        apart(ms),
        told(ms, seps),
        0 < n + notation::text(ms).len() <= 65536,
        glob::text_bytes(text) == notation::exclamations(n) + notation::text(ms),
    ensures
        glob::compiled(text, opts, seps) matches Ok(g) && g.matches(path) == (meets(
            ms,
            wholly(opts, path),
            seps,
            path,
            0,
        ) != (n % 2 == 1)),
{
    lemma_pattern(n, ms, text, opts, seps, path);
    lemma_program_meets(ms, wholly(opts, path), seps, path);
}

} // verus!
