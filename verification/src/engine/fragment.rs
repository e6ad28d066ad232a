//! Which states an instruction compiles to, and that they accept what the
//! instruction matches.
//!
//! An instruction compiled at `base` takes up `op_size` states from there on,
//! is entered at `op_entry`, and leaves through `exit`. `op_built` says what
//! the states are. The main result is [`lemma_ops_built`]: the entry of a
//! compiled sequence accepts a suffix of a path exactly where the sequence
//! matches a part of it and `exit` accepts the rest.

use crate::ast::{self, ClassItem, SpecClass};
use crate::engine::lang::{self, Cx};
use crate::engine::nfa::{self, StateId, Trans};
use crate::engine::ops::SpecOp;
use vstd::prelude::*;

verus! {

/// How instructions are compiled.
pub struct Build {
    /// Literals ignore ASCII case.
    pub ci: bool,
    /// The zero-match exit of `*` is guarded against hidden dots.
    pub guards: bool,
}

pub open spec fn op_size(op: SpecOp, bd: Build) -> int
    decreases op, 0int,
{
    match op {
        SpecOp::Lit(b) => b.len() as int,
        SpecOp::AnyChar => 1,
        SpecOp::Star => if bd.guards { 3 } else { 2 },
        SpecOp::Class(_) => 1,
        SpecOp::Sep => 1,
        SpecOp::SepRun => 2,
        SpecOp::Globstar => 0,
        SpecOp::OptSegmentsSlash => 6,
        SpecOp::SlashAnything => 4,
        SpecOp::GlobstarAny => 2,
        SpecOp::LeadingSeps => 2,
        SpecOp::Alternation(bs) => branches_size(bs, bs.len() as int, bd) + bs.len() - 1,
    }
}

/// The states of the first `k` branches together.
pub open spec fn branches_size(bs: Seq<Seq<SpecOp>>, k: int, bd: Build) -> int
    decreases bs, k,
{
    if k <= 0 || k > bs.len() {
        0
    } else {
        branches_size(bs, k - 1, bd) + ops_size(bs[k - 1], bd)
    }
}

/// The states of a sequence; the empty one takes a single jump.
pub open spec fn ops_size(ops: Seq<SpecOp>, bd: Build) -> int
    decreases ops, 1int,
{
    if ops.len() == 0 {
        1
    } else {
        chain_size(ops, bd)
    }
}

pub open spec fn chain_size(ops: Seq<SpecOp>, bd: Build) -> int
    decreases ops, 0int,
{
    if ops.len() == 0 {
        0
    } else {
        op_size(ops[0], bd) + chain_size(ops.drop_first(), bd)
    }
}

pub open spec fn op_entry(op: SpecOp, bd: Build, base: int) -> int
    decreases op, 0int,
{
    match op {
        SpecOp::SepRun => base + 1,
        SpecOp::Alternation(bs) => alt_entry(bs, bd, base, bs.len() - 1),
        _ => base,
    }
}

/// Where the last `m + 1` branches are entered.
pub open spec fn alt_entry(bs: Seq<Seq<SpecOp>>, bd: Build, base: int, m: int) -> int
    decreases bs, 0int,
{
    if bs.len() == 0 {
        base
    } else if m <= 0 {
        ops_entry(
            bs[bs.len() - 1],
            bd,
            base + branches_size(bs, bs.len() - 1, bd),
        )
    } else {
        base + branches_size(bs, bs.len() as int, bd) + m - 1
    }
}

pub open spec fn ops_entry(ops: Seq<SpecOp>, bd: Build, base: int) -> int
    decreases ops, 1int,
{
    if ops.len() == 0 {
        base
    } else {
        op_entry(ops[0], bd, base)
    }
}

/// Where branch `k` is entered.
pub open spec fn branch_entry(bs: Seq<Seq<SpecOp>>, bd: Build, base: int, k: int) -> int {
    ops_entry(bs[k], bd, base + branches_size(bs, k, bd))
}

/// `t` consumes the literal byte `b` and goes to `next`.
pub open spec fn lit_state(t: Trans, ci: bool, b: u8, next: StateId) -> bool {
    if ci && ast::case_alt(b) != b {
        t matches Trans::Class { class, next: n } && n == next && class@ == (SpecClass {
            negated: false,
            items: seq![ClassItem::Byte(b), ClassItem::Byte(ast::case_alt(b))],
        })
    } else {
        t == Trans::Byte { b, next }
    }
}

/// The states of a literal from its byte `k` on.
pub open spec fn lit_built(
    states: Seq<Trans>,
    b: Seq<u8>,
    ci: bool,
    base: int,
    exit: StateId,
) -> bool {
    forall|k: int|
        0 <= k < b.len() ==> lit_state(
            #[trigger] states[base + k],
            ci,
            b[k],
            if k + 1 < b.len() { (base + k + 1) as StateId } else { exit },
        )
}

/// The states of `op`, compiled at `base` and leaving through `exit`.
pub open spec fn op_built(
    states: Seq<Trans>,
    op: SpecOp,
    bd: Build,
    base: int,
    exit: StateId,
) -> bool
    decreases op, 0int,
{
    let id = |k: int| (base + k) as StateId;
    0 <= base && base + op_size(op, bd) <= states.len() && match op {
        SpecOp::Lit(b) => b.len() > 0 && lit_built(states, b, bd.ci, base, exit),
        SpecOp::AnyChar => states[base] == Trans::AnyNonSep { next: exit },
        SpecOp::Star => if bd.guards {
            &&& states[base] == Trans::Split { a: id(1), b: id(2) }
            &&& states[base + 1] == Trans::AnyNonSep { next: id(0) }
            &&& states[base + 2] == Trans::DotGuard { next: exit }
        } else {
            &&& states[base] == Trans::Split { a: id(1), b: exit }
            &&& states[base + 1] == Trans::AnyNonSep { next: id(0) }
        },
        SpecOp::Class(c) => states[base] matches Trans::Class { class, next } && class@ == c && next
            == exit,
        SpecOp::Sep => states[base] == Trans::Sep { next: exit },
        SpecOp::SepRun => {
            &&& states[base] == Trans::Split { a: id(1), b: exit }
            &&& states[base + 1] == Trans::Sep { next: id(0) }
        },
        SpecOp::Globstar => false,
        SpecOp::OptSegmentsSlash => {
            &&& states[base] == Trans::Split { a: id(1), b: exit }
            &&& states[base + 1] == Trans::AnyNonSep { next: id(2) }
            &&& states[base + 2] == Trans::Split { a: id(3), b: id(4) }
            &&& states[base + 3] == Trans::AnyNonSep { next: id(2) }
            &&& states[base + 4] == Trans::Sep { next: id(5) }
            &&& states[base + 5] == Trans::Split { a: id(4), b: id(0) }
        },
        SpecOp::SlashAnything => {
            &&& states[base] == Trans::Sep { next: id(1) }
            &&& states[base + 1] == Trans::Split { a: id(0), b: id(2) }
            &&& states[base + 2] == Trans::Split { a: id(3), b: exit }
            &&& states[base + 3] == Trans::AnyByte { next: id(2) }
        },
        SpecOp::GlobstarAny => {
            &&& states[base] == Trans::Split { a: id(1), b: exit }
            &&& states[base + 1] == Trans::AnyByte { next: id(0) }
        },
        SpecOp::LeadingSeps => {
            &&& states[base] == Trans::Split { a: id(1), b: exit }
            &&& states[base + 1] == Trans::Sep { next: id(0) }
        },
        SpecOp::Alternation(bs) => bs.len() > 0 && branches_built(states, bs, bd, base, exit)
            && splits_built(states, bs, bd, base),
    }
}

/// Every branch is compiled behind the ones before it.
pub open spec fn branches_built(
    states: Seq<Trans>,
    bs: Seq<Seq<SpecOp>>,
    bd: Build,
    base: int,
    exit: StateId,
) -> bool
    decreases bs, 2int,
{
    forall|k: int|
        0 <= k < bs.len() ==> ops_built(
            states,
            #[trigger] bs[k],
            bd,
            base + branches_size(bs, k, bd),
            exit,
        )
}

/// The forks that lead to the branches stand behind them, last branch first.
pub open spec fn splits_built(
    states: Seq<Trans>,
    bs: Seq<Seq<SpecOp>>,
    bd: Build,
    base: int,
) -> bool {
    forall|m: int|
        0 <= m < bs.len() - 1 ==> #[trigger] split_built(states, bs, bd, base, m)
}

pub open spec fn split_built(
    states: Seq<Trans>,
    bs: Seq<Seq<SpecOp>>,
    bd: Build,
    base: int,
    m: int,
) -> bool {
    states[base + branches_size(bs, bs.len() as int, bd) + m] == Trans::Split {
        a: branch_entry(bs, bd, base, bs.len() - 2 - m) as StateId,
        b: alt_entry(bs, bd, base, m) as StateId,
    }
}

/// The states of a sequence.
pub open spec fn ops_built(
    states: Seq<Trans>,
    ops: Seq<SpecOp>,
    bd: Build,
    base: int,
    exit: StateId,
) -> bool
    decreases ops, 1int,
{
    if ops.len() == 0 {
        0 <= base < states.len() && states[base] == Trans::Jump { next: exit }
    } else {
        chain_built(states, ops, bd, base, exit)
    }
}

/// Where the first instruction of a sequence leaves to: the entry of the
/// second, or `exit` where there is none.
pub open spec fn chain_exit(ops: Seq<SpecOp>, bd: Build, base: int, exit: StateId) -> StateId {
    if ops.len() <= 1 {
        exit
    } else {
        op_entry(ops[1], bd, base + op_size(ops[0], bd)) as StateId
    }
}

/// The states of a nonempty sequence: each instruction leaves through the
/// entry of the next, the last one through `exit`.
pub open spec fn chain_built(
    states: Seq<Trans>,
    ops: Seq<SpecOp>,
    bd: Build,
    base: int,
    exit: StateId,
) -> bool
    decreases ops, 0int,
{
    ops.len() > 0 && op_built(states, ops[0], bd, base, chain_exit(ops, bd, base, exit)) && (
    ops.len() > 1 ==> chain_built(
        states,
        ops.drop_first(),
        bd,
        base + op_size(ops[0], bd),
        exit,
    ))
}

/// `op` matches from `i` up to some position from which `exit` accepts.
pub open spec fn op_then(
    states: Seq<Trans>,
    op: SpecOp,
    cx: Cx,
    s: Seq<u8>,
    i: int,
    exit: StateId,
) -> bool {
    exists|j: int| #[trigger]
        lang::cut(j) && lang::op_span(op, cx, s, i, j) && nfa::accepts(states, cx, s, exit as int, j)
}

/// `ops` match from `i` up to some position from which `exit` accepts.
pub open spec fn ops_then(
    states: Seq<Trans>,
    ops: Seq<SpecOp>,
    cx: Cx,
    s: Seq<u8>,
    i: int,
    exit: StateId,
) -> bool {
    exists|j: int| #[trigger]
        lang::cut(j) && lang::ops_span(ops, cx, s, i, j) && nfa::accepts(
            states,
            cx,
            s,
            exit as int,
            j,
        )
}

/// What the compiled states are matched against: the same case folding, and
/// no hidden dots where the guards are left out.
pub open spec fn fits(bd: Build, cx: Cx) -> bool {
    cx.ci == bd.ci && (!bd.guards ==> cx.lim <= 0)
}

proof fn lemma_lit_state(t: Trans, cx: Cx, b: u8, next: StateId, c: u8, dot: bool)
    requires
        lit_state(t, cx.ci, b, next),
    ensures
        nfa::consume(t, cx.seps, c, dot) == (if ast::same_byte(cx.ci, b, c) {
            Some(next)
        } else {
            None
        }),
        !(t is Match) && !(t is Split) && !(t is Jump) && !(t is DotGuard),
{
    if cx.ci && ast::case_alt(b) != b {
        let items = seq![ClassItem::Byte(b), ClassItem::Byte(ast::case_alt(b))];
        assert(items[0] == ClassItem::Byte(b) && items[1] == ClassItem::Byte(ast::case_alt(b)));
        assert(ast::listed(items, c) <==> (c == b || c == ast::case_alt(b)));
    }
}

proof fn lemma_lit_built(
    states: Seq<Trans>,
    b: Seq<u8>,
    base: int,
    exit: StateId,
    cx: Cx,
    s: Seq<u8>,
    k: int,
    i: int,
)
    requires
        lit_built(states, b, cx.ci, base, exit),
        0 <= base,
        base + b.len() <= states.len() <= usize::MAX,
        0 <= k < b.len(),
        0 <= i <= s.len(),
    ensures
        nfa::accepts(states, cx, s, base + k, i) <==> (lang::lit_at(cx, b.skip(k), s, i)
            && nfa::accepts(states, cx, s, exit as int, i + b.len() - k)),
    decreases b.len() - k,
{
    nfa::lemma_unfold(states, cx, s, base + k, i);
    let next = if k + 1 < b.len() { (base + k + 1) as StateId } else { exit };
    let t = states[base + k];
    if i < s.len() {
        lemma_lit_state(t, cx, b[k], next, s[i], lang::hidden(cx, s, i));
        if k + 1 < b.len() {
            lemma_lit_built(states, b, base, exit, cx, s, k + 1, i + 1);
        }
        let r = b.skip(k);
        let r1 = b.skip(k + 1);
        assert(r[0] == b[k]);
        assert forall|m: int| 0 <= m < r1.len() implies #[trigger] r1[m] == r[m + 1] by {}
        if lang::lit_at(cx, r, s, i) {
            assert forall|m: int| 0 <= m < r1.len() implies ast::same_byte(
                cx.ci,
                #[trigger] r1[m],
                s[i + 1 + m],
            ) by {
                assert(r[m + 1] == r1[m]);
                assert(s[i + (m + 1)] == s[i + 1 + m]);
            }
            assert(ast::same_byte(cx.ci, r[0], s[i + 0]));
        }
        if ast::same_byte(cx.ci, b[k], s[i]) && lang::lit_at(cx, r1, s, i + 1) {
            assert forall|m: int| 0 <= m < r.len() implies ast::same_byte(
                cx.ci,
                #[trigger] r[m],
                s[i + m],
            ) by {
                if m > 0 {
                    assert(r[m] == r1[m - 1]);
                    assert(s[i + 1 + (m - 1)] == s[i + m]);
                }
            }
        }
        if k + 1 == b.len() {
            assert(r1.len() == 0);
        }
    } else {
        lemma_lit_state(t, cx, b[k], next, 0, false);
        assert(b.skip(k).len() > 0);
    }
}

proof fn lemma_star_built(
    states: Seq<Trans>,
    bd: Build,
    base: int,
    exit: StateId,
    cx: Cx,
    s: Seq<u8>,
    i: int,
)
    requires
        op_built(states, SpecOp::Star, bd, base, exit),
        states.len() <= usize::MAX,
        fits(bd, cx),
        0 <= i <= s.len(),
    ensures
        nfa::accepts(states, cx, s, base, i) <==> op_then(states, SpecOp::Star, cx, s, i, exit),
    decreases s.len() - i,
{
    nfa::lemma_unfold(states, cx, s, base, i);
    nfa::lemma_unfold(states, cx, s, base + 1, i);
    if bd.guards {
        nfa::lemma_unfold(states, cx, s, base + 2, i);
    }
    if i < s.len() {
        lemma_star_built(states, bd, base, exit, cx, s, i + 1);
    }
    if nfa::accepts(states, cx, s, base, i) {
        if nfa::accepts(states, cx, s, base + 1, i) {
            let j = choose|j: int| #[trigger]
                lang::cut(j) && lang::op_span(SpecOp::Star, cx, s, i + 1, j) && nfa::accepts(
                    states,
                    cx,
                    s,
                    exit as int,
                    j,
                );
            assert(lang::cut(j) && lang::op_span(SpecOp::Star, cx, s, i, j));
        } else {
            assert(lang::cut(i) && lang::op_span(SpecOp::Star, cx, s, i, i));
        }
    }
    if op_then(states, SpecOp::Star, cx, s, i, exit) {
        let j = choose|j: int| #[trigger]
            lang::cut(j) && lang::op_span(SpecOp::Star, cx, s, i, j) && nfa::accepts(
                states,
                cx,
                s,
                exit as int,
                j,
            );
        if i < j {
            assert(!cx.seps.has(s[i]));
            assert(lang::cut(j) && lang::op_span(SpecOp::Star, cx, s, i + 1, j));
        }
    }
}

/// The two instructions whose states are a fork and one consuming state in a loop.
proof fn lemma_loop_built(
    states: Seq<Trans>,
    op: SpecOp,
    bd: Build,
    base: int,
    exit: StateId,
    cx: Cx,
    s: Seq<u8>,
    i: int,
)
    requires
        op is LeadingSeps || op is GlobstarAny,
        op_built(states, op, bd, base, exit),
        states.len() <= usize::MAX,
        fits(bd, cx),
        0 <= i <= s.len(),
    ensures
        nfa::accepts(states, cx, s, base, i) <==> op_then(states, op, cx, s, i, exit),
    decreases s.len() - i,
{
    nfa::lemma_unfold(states, cx, s, base, i);
    nfa::lemma_unfold(states, cx, s, base + 1, i);
    if i < s.len() {
        lemma_loop_built(states, op, bd, base, exit, cx, s, i + 1);
    }
    if nfa::accepts(states, cx, s, base, i) {
        if nfa::accepts(states, cx, s, base + 1, i) {
            let j = choose|j: int| #[trigger]
                lang::cut(j) && lang::op_span(op, cx, s, i + 1, j) && nfa::accepts(
                    states,
                    cx,
                    s,
                    exit as int,
                    j,
                );
            assert(lang::cut(j) && lang::op_span(op, cx, s, i, j));
        } else {
            assert(lang::cut(i) && lang::op_span(op, cx, s, i, i));
        }
    }
    if op_then(states, op, cx, s, i, exit) {
        let j = choose|j: int| #[trigger]
            lang::cut(j) && lang::op_span(op, cx, s, i, j) && nfa::accepts(
                states,
                cx,
                s,
                exit as int,
                j,
            );
        if i < j {
            assert(op is LeadingSeps ==> cx.seps.has(s[i]));
            assert(op is GlobstarAny ==> !lang::hidden(cx, s, i));
            assert(lang::cut(j) && lang::op_span(op, cx, s, i + 1, j));
        }
    }
}

proof fn lemma_sep_run_built(
    states: Seq<Trans>,
    bd: Build,
    base: int,
    exit: StateId,
    cx: Cx,
    s: Seq<u8>,
    i: int,
)
    requires
        op_built(states, SpecOp::SepRun, bd, base, exit),
        states.len() <= usize::MAX,
        0 <= i <= s.len(),
    ensures
        nfa::accepts(states, cx, s, base + 1, i) <==> op_then(
            states,
            SpecOp::SepRun,
            cx,
            s,
            i,
            exit,
        ),
    decreases s.len() - i,
{
    nfa::lemma_unfold(states, cx, s, base + 1, i);
    if i < s.len() {
        nfa::lemma_unfold(states, cx, s, base, i + 1);
        lemma_sep_run_built(states, bd, base, exit, cx, s, i + 1);
    }
    if nfa::accepts(states, cx, s, base + 1, i) {
        if nfa::accepts(states, cx, s, base + 1, i + 1) {
            let j = choose|j: int| #[trigger]
                lang::cut(j) && lang::op_span(SpecOp::SepRun, cx, s, i + 1, j) && nfa::accepts(
                    states,
                    cx,
                    s,
                    exit as int,
                    j,
                );
            assert(lang::cut(j) && lang::op_span(SpecOp::SepRun, cx, s, i, j));
        } else {
            assert(lang::cut(i + 1) && lang::op_span(SpecOp::SepRun, cx, s, i, i + 1));
        }
    }
    if op_then(states, SpecOp::SepRun, cx, s, i, exit) {
        let j = choose|j: int| #[trigger]
            lang::cut(j) && lang::op_span(SpecOp::SepRun, cx, s, i, j) && nfa::accepts(
                states,
                cx,
                s,
                exit as int,
                j,
            );
        assert(cx.seps.has(s[i]));
        if i + 1 < j {
            assert(lang::cut(j) && lang::op_span(SpecOp::SepRun, cx, s, i + 1, j));
        }
    }
}

/// What is matched between the first separator of `/**` and its end.
spec fn any_then(
    states: Seq<Trans>,
    cx: Cx,
    s: Seq<u8>,
    i: int,
    exit: StateId,
) -> bool {
    exists|j: int| #[trigger]
        lang::cut(j) && i <= j <= s.len() && lang::no_hidden(cx, s, i, j) && nfa::accepts(
            states,
            cx,
            s,
            exit as int,
            j,
        )
}

proof fn lemma_slash_tail(
    states: Seq<Trans>,
    bd: Build,
    base: int,
    exit: StateId,
    cx: Cx,
    s: Seq<u8>,
    i: int,
)
    requires
        op_built(states, SpecOp::SlashAnything, bd, base, exit),
        states.len() <= usize::MAX,
        0 <= i <= s.len(),
    ensures
        nfa::accepts(states, cx, s, base + 2, i) <==> any_then(states, cx, s, i, exit),
    decreases s.len() - i,
{
    nfa::lemma_unfold(states, cx, s, base + 2, i);
    nfa::lemma_unfold(states, cx, s, base + 3, i);
    if i < s.len() {
        lemma_slash_tail(states, bd, base, exit, cx, s, i + 1);
    }
    if nfa::accepts(states, cx, s, base + 2, i) {
        if nfa::accepts(states, cx, s, base + 3, i) {
            let j = choose|j: int| #[trigger]
                lang::cut(j) && i + 1 <= j <= s.len() && lang::no_hidden(cx, s, i + 1, j)
                    && nfa::accepts(states, cx, s, exit as int, j);
            assert(lang::no_hidden(cx, s, i, j));
            assert(lang::cut(j));
        } else {
            assert(lang::cut(i));
            assert(lang::no_hidden(cx, s, i, i));
        }
    }
    if any_then(states, cx, s, i, exit) {
        let j = choose|j: int| #[trigger]
            lang::cut(j) && i <= j <= s.len() && lang::no_hidden(cx, s, i, j) && nfa::accepts(
                states,
                cx,
                s,
                exit as int,
                j,
            );
        if i < j {
            assert(!lang::hidden(cx, s, i));
            assert(lang::no_hidden(cx, s, i + 1, j));
            assert(lang::cut(j));
            assert(any_then(states, cx, s, i + 1, exit));
        }
    }
}

proof fn lemma_slash_built(
    states: Seq<Trans>,
    bd: Build,
    base: int,
    exit: StateId,
    cx: Cx,
    s: Seq<u8>,
    i: int,
)
    requires
        op_built(states, SpecOp::SlashAnything, bd, base, exit),
        states.len() <= usize::MAX,
        0 <= i <= s.len(),
    ensures
        nfa::accepts(states, cx, s, base, i) <==> op_then(
            states,
            SpecOp::SlashAnything,
            cx,
            s,
            i,
            exit,
        ),
    decreases s.len() - i,
{
    let op = SpecOp::SlashAnything;
    nfa::lemma_unfold(states, cx, s, base, i);
    if i < s.len() {
        nfa::lemma_unfold(states, cx, s, base + 1, i + 1);
        lemma_slash_built(states, bd, base, exit, cx, s, i + 1);
        lemma_slash_tail(states, bd, base, exit, cx, s, i + 1);
    }
    if nfa::accepts(states, cx, s, base, i) {
        assert(cx.seps.has(s[i]));
        assert(!lang::hidden(cx, s, i));
        if nfa::accepts(states, cx, s, base, i + 1) {
            let j = choose|j: int| #[trigger]
                lang::cut(j) && lang::op_span(op, cx, s, i + 1, j) && nfa::accepts(
                    states,
                    cx,
                    s,
                    exit as int,
                    j,
                );
            assert(lang::cut(j) && lang::op_span(op, cx, s, i, j));
        } else {
            let j = choose|j: int| #[trigger]
                lang::cut(j) && i + 1 <= j <= s.len() && lang::no_hidden(cx, s, i + 1, j)
                    && nfa::accepts(states, cx, s, exit as int, j);
            assert(lang::cut(j) && lang::op_span(op, cx, s, i, j));
        }
    }
    if op_then(states, op, cx, s, i, exit) {
        let j = choose|j: int| #[trigger]
            lang::cut(j) && lang::op_span(op, cx, s, i, j) && nfa::accepts(
                states,
                cx,
                s,
                exit as int,
                j,
            );
        assert(lang::no_hidden(cx, s, i + 1, j));
        assert(lang::cut(j));
        assert(any_then(states, cx, s, i + 1, exit));
    }
}

/// What a thread inside a segment of `**/` still has to match: up to and
/// including the separators that end a segment, and any segments after them.
spec fn mid_then(states: Seq<Trans>, cx: Cx, s: Seq<u8>, i: int, exit: StateId) -> bool {
    exists|j: int| #[trigger]
        lang::cut(j) && i < j <= s.len() && cx.seps.has(s[j - 1]) && lang::no_hidden(cx, s, i, j)
            && nfa::accepts(states, cx, s, exit as int, j)
}

/// What a thread behind a separator of `**/` may still match.
spec fn tail_then(states: Seq<Trans>, cx: Cx, s: Seq<u8>, i: int, exit: StateId) -> bool {
    mid_then(states, cx, s, i, exit) || nfa::accepts(states, cx, s, exit as int, i)
}

proof fn lemma_mid_extend(
    states: Seq<Trans>,
    cx: Cx,
    s: Seq<u8>,
    i: int,
    exit: StateId,
)
    requires
        0 <= i < s.len(),
    ensures
        mid_then(states, cx, s, i, exit) <==> (!lang::hidden(cx, s, i) && (mid_then(
            states,
            cx,
            s,
            i + 1,
            exit,
        ) || (cx.seps.has(s[i]) && nfa::accepts(states, cx, s, exit as int, i + 1)))),
{
    if mid_then(states, cx, s, i, exit) {
        let j = choose|j: int| #[trigger]
            lang::cut(j) && i < j <= s.len() && cx.seps.has(s[j - 1]) && lang::no_hidden(
                cx,
                s,
                i,
                j,
            ) && nfa::accepts(states, cx, s, exit as int, j);
        assert(!lang::hidden(cx, s, i));
        assert(lang::no_hidden(cx, s, i + 1, j));
        if i + 1 < j {
            assert(lang::cut(j));
        }
    }
    if !lang::hidden(cx, s, i) {
        if mid_then(states, cx, s, i + 1, exit) {
            let j = choose|j: int| #[trigger]
                lang::cut(j) && i + 1 < j <= s.len() && cx.seps.has(s[j - 1]) && lang::no_hidden(
                    cx,
                    s,
                    i + 1,
                    j,
                ) && nfa::accepts(states, cx, s, exit as int, j);
            assert(lang::no_hidden(cx, s, i, j));
            assert(lang::cut(j));
        }
        if cx.seps.has(s[i]) && nfa::accepts(states, cx, s, exit as int, i + 1) {
            assert(lang::cut(i + 1));
            assert(lang::no_hidden(cx, s, i, i + 1));
            assert(s[i + 1 - 1] == s[i]);
        }
    }
}

proof fn lemma_oss_built(
    states: Seq<Trans>,
    bd: Build,
    base: int,
    exit: StateId,
    cx: Cx,
    s: Seq<u8>,
    i: int,
)
    requires
        op_built(states, SpecOp::OptSegmentsSlash, bd, base, exit),
        states.len() <= usize::MAX,
        0 <= i <= s.len(),
    ensures
        nfa::accepts(states, cx, s, base, i) <==> op_then(
            states,
            SpecOp::OptSegmentsSlash,
            cx,
            s,
            i,
            exit,
        ),
        nfa::accepts(states, cx, s, base + 2, i) <==> mid_then(states, cx, s, i, exit),
        nfa::accepts(states, cx, s, base + 5, i) <==> tail_then(states, cx, s, i, exit),
    decreases s.len() - i,
{
    let op = SpecOp::OptSegmentsSlash;
    nfa::lemma_unfold(states, cx, s, base, i);
    nfa::lemma_unfold(states, cx, s, base + 1, i);
    nfa::lemma_unfold(states, cx, s, base + 2, i);
    nfa::lemma_unfold(states, cx, s, base + 3, i);
    nfa::lemma_unfold(states, cx, s, base + 4, i);
    nfa::lemma_unfold(states, cx, s, base + 5, i);
    if i < s.len() {
        lemma_oss_built(states, bd, base, exit, cx, s, i + 1);
        lemma_mid_extend(states, cx, s, i, exit);
    }
    // The entry: nothing, or a first segment byte.
    if op_then(states, op, cx, s, i, exit) {
        let j = choose|j: int| #[trigger]
            lang::cut(j) && lang::op_span(op, cx, s, i, j) && nfa::accepts(
                states,
                cx,
                s,
                exit as int,
                j,
            );
        if i < j {
            assert(!lang::hidden(cx, s, i));
            assert(lang::cut(j));
            assert(mid_then(states, cx, s, i, exit));
        }
    }
    if i < s.len() && !cx.seps.has(s[i]) && mid_then(states, cx, s, i, exit) {
        let j = choose|j: int| #[trigger]
            lang::cut(j) && i < j <= s.len() && cx.seps.has(s[j - 1]) && lang::no_hidden(
                cx,
                s,
                i,
                j,
            ) && nfa::accepts(states, cx, s, exit as int, j);
        assert(lang::cut(j) && lang::op_span(op, cx, s, i, j));
    }
    if nfa::accepts(states, cx, s, exit as int, i) {
        assert(lang::cut(i) && lang::op_span(op, cx, s, i, i));
    }
}


/// Compiled instructions take up at least one state, and are entered in one
/// of theirs.
pub proof fn lemma_op_entry(states: Seq<Trans>, op: SpecOp, bd: Build, base: int, exit: StateId)
    requires
        op_built(states, op, bd, base, exit),
    ensures
        op_size(op, bd) > 0,
        base <= op_entry(op, bd, base) < base + op_size(op, bd),
    decreases op, 0int,
{
    match op {
        SpecOp::Alternation(bs) => {
            let last = bs.len() - 1;
            lemma_branches_size(states, bs, bd, base, exit, last);
            assert(ops_built(states, bs[last], bd, base + branches_size(bs, last, bd), exit));
            lemma_ops_entry(states, bs[last], bd, base + branches_size(bs, last, bd), exit);
            assert(branches_size(bs, bs.len() as int, bd) == branches_size(bs, last, bd) + ops_size(
                bs[last],
                bd,
            ));
        },
        _ => {},
    }
}

pub proof fn lemma_branches_size(
    states: Seq<Trans>,
    bs: Seq<Seq<SpecOp>>,
    bd: Build,
    base: int,
    exit: StateId,
    k: int,
)
    requires
        branches_built(states, bs, bd, base, exit),
        0 <= k <= bs.len(),
    ensures
        branches_size(bs, k, bd) >= k,
    decreases bs, k,
{
    if k > 0 {
        lemma_branches_size(states, bs, bd, base, exit, k - 1);
        assert(ops_built(states, bs[k - 1], bd, base + branches_size(bs, k - 1, bd), exit));
        lemma_ops_entry(states, bs[k - 1], bd, base + branches_size(bs, k - 1, bd), exit);
    }
}

pub proof fn lemma_branches_mono(
    states: Seq<Trans>,
    bs: Seq<Seq<SpecOp>>,
    bd: Build,
    base: int,
    exit: StateId,
    k: int,
    n: int,
)
    requires
        branches_built(states, bs, bd, base, exit),
        0 <= k <= n <= bs.len(),
    ensures
        branches_size(bs, k, bd) <= branches_size(bs, n, bd),
    decreases n - k,
{
    if k < n {
        lemma_branches_mono(states, bs, bd, base, exit, k, n - 1);
        assert(ops_built(states, bs[n - 1], bd, base + branches_size(bs, n - 1, bd), exit));
        lemma_ops_entry(states, bs[n - 1], bd, base + branches_size(bs, n - 1, bd), exit);
    }
}

pub proof fn lemma_ops_entry(
    states: Seq<Trans>,
    ops: Seq<SpecOp>,
    bd: Build,
    base: int,
    exit: StateId,
)
    requires
        ops_built(states, ops, bd, base, exit),
    ensures
        ops_size(ops, bd) > 0,
        base <= ops_entry(ops, bd, base) < base + ops_size(ops, bd),
        0 <= base,
        base + ops_size(ops, bd) <= states.len(),
    decreases ops, 1int,
{
    if ops.len() > 0 {
        lemma_chain_size(states, ops, bd, base, exit);
        lemma_op_entry(states, ops[0], bd, base, chain_exit(ops, bd, base, exit));
    }
}

pub proof fn lemma_chain_size(
    states: Seq<Trans>,
    ops: Seq<SpecOp>,
    bd: Build,
    base: int,
    exit: StateId,
)
    requires
        chain_built(states, ops, bd, base, exit),
    ensures
        chain_size(ops, bd) >= op_size(ops[0], bd),
        chain_size(ops, bd) > 0,
        0 <= base,
        base + chain_size(ops, bd) <= states.len(),
    decreases ops, 0int,
{
    let rest = ops.drop_first();
    assert(op_built(states, ops[0], bd, base, chain_exit(ops, bd, base, exit)));
    lemma_op_entry(states, ops[0], bd, base, chain_exit(ops, bd, base, exit));
    if ops.len() == 1 {
        assert(rest.len() == 0);
        assert(chain_size(rest, bd) == 0);
    } else {
        let next = base + op_size(ops[0], bd);
        assert(chain_built(states, rest, bd, next, exit));
        lemma_chain_size(states, rest, bd, next, exit);
        lemma_op_entry(states, rest[0], bd, next, chain_exit(rest, bd, next, exit));
    }
}

/// The entry of a compiled instruction accepts a suffix of a path exactly
/// where the instruction matches a part of it and `exit` accepts the rest.
pub proof fn lemma_op_built(
    states: Seq<Trans>,
    op: SpecOp,
    bd: Build,
    base: int,
    exit: StateId,
    cx: Cx,
    s: Seq<u8>,
    i: int,
)
    requires
        op_built(states, op, bd, base, exit),
        states.len() <= usize::MAX,
        fits(bd, cx),
        0 <= i <= s.len(),
    ensures
        nfa::accepts(states, cx, s, op_entry(op, bd, base), i) <==> op_then(
            states,
            op,
            cx,
            s,
            i,
            exit,
        ),
    decreases op, 0int,
{
    match op {
        SpecOp::Lit(b) => {
            lemma_lit_built(states, b, base, exit, cx, s, 0, i);
            assert(b.skip(0) =~= b);
            assert(lang::cut(i + b.len()));
            if lang::lit_at(cx, b, s, i) && nfa::accepts(states, cx, s, exit as int, i + b.len()) {
                assert(lang::op_span(op, cx, s, i, i + b.len()));
            }
        },
        SpecOp::AnyChar | SpecOp::Class(_) | SpecOp::Sep => {
            nfa::lemma_unfold(states, cx, s, base, i);
            assert(lang::cut(i + 1));
            if nfa::accepts(states, cx, s, base, i) {
                assert(lang::op_span(op, cx, s, i, i + 1));
            }
        },
        SpecOp::Star => {
            lemma_star_built(states, bd, base, exit, cx, s, i);
        },
        SpecOp::SepRun => {
            lemma_sep_run_built(states, bd, base, exit, cx, s, i);
        },
        SpecOp::Globstar => {},
        SpecOp::OptSegmentsSlash => {
            lemma_oss_built(states, bd, base, exit, cx, s, i);
        },
        SpecOp::SlashAnything => {
            lemma_slash_built(states, bd, base, exit, cx, s, i);
        },
        SpecOp::GlobstarAny | SpecOp::LeadingSeps => {
            lemma_loop_built(states, op, bd, base, exit, cx, s, i);
        },
        SpecOp::Alternation(bs) => {
            lemma_alt_built(states, bs, bd, base, exit, cx, s, i);
        },
    }
}

proof fn lemma_alt_built(
    states: Seq<Trans>,
    bs: Seq<Seq<SpecOp>>,
    bd: Build,
    base: int,
    exit: StateId,
    cx: Cx,
    s: Seq<u8>,
    i: int,
)
    requires
        op_built(states, SpecOp::Alternation(bs), bd, base, exit),
        states.len() <= usize::MAX,
        fits(bd, cx),
        0 <= i <= s.len(),
    ensures
        nfa::accepts(states, cx, s, alt_entry(bs, bd, base, bs.len() - 1), i) <==> op_then(
            states,
            SpecOp::Alternation(bs),
            cx,
            s,
            i,
            exit,
        ),
    decreases bs, 3int,
{
    let op = SpecOp::Alternation(bs);
    let entry = alt_entry(bs, bd, base, bs.len() - 1);
    assert(branches_built(states, bs, bd, base, exit));
    lemma_branches_built(states, bs, bd, base, exit, cx, s, i);
    lemma_branches_size(states, bs, bd, base, exit, bs.len() as int);
    assert forall|k: int| 0 <= k < bs.len() implies 0 <= #[trigger] branch_entry(bs, bd, base, k)
        < states.len() by {
        assert(ops_built(states, bs[k], bd, base + branches_size(bs, k, bd), exit));
        lemma_ops_entry(states, bs[k], bd, base + branches_size(bs, k, bd), exit);
    }
    lemma_alt_entry(states, bs, bd, base, cx, s, i, bs.len() - 1);
    if nfa::accepts(states, cx, s, entry, i) {
        let k = choose|k: int|
            bs.len() - 1 - (bs.len() - 1) <= k < bs.len() && nfa::accepts(
                states,
                cx,
                s,
                #[trigger] branch_entry(bs, bd, base, k),
                i,
            );
        assert(ops_then(states, bs[k], cx, s, i, exit));
        let j = choose|j: int| #[trigger]
            lang::cut(j) && lang::ops_span(bs[k], cx, s, i, j) && nfa::accepts(
                states,
                cx,
                s,
                exit as int,
                j,
            );
        lang::lemma_span_bounds(bs[k], cx, s, i, j);
        assert(lang::some_span(bs, cx, s, i, j));
        assert(lang::cut(j) && lang::op_span(op, cx, s, i, j));
    }
    if op_then(states, op, cx, s, i, exit) {
        let j = choose|j: int| #[trigger]
            lang::cut(j) && lang::op_span(op, cx, s, i, j) && nfa::accepts(
                states,
                cx,
                s,
                exit as int,
                j,
            );
        assert(lang::some_span(bs, cx, s, i, j));
        let k = choose|k: int| 0 <= k < bs.len() && lang::ops_span(#[trigger] bs[k], cx, s, i, j);
        assert(lang::cut(j));
        assert(ops_then(states, bs[k], cx, s, i, exit));
        assert(nfa::accepts(states, cx, s, branch_entry(bs, bd, base, k), i));
    }
}

proof fn lemma_branches_built(
    states: Seq<Trans>,
    bs: Seq<Seq<SpecOp>>,
    bd: Build,
    base: int,
    exit: StateId,
    cx: Cx,
    s: Seq<u8>,
    i: int,
)
    requires
        branches_built(states, bs, bd, base, exit),
        states.len() <= usize::MAX,
        fits(bd, cx),
        0 <= i <= s.len(),
    ensures
        forall|k: int|
            0 <= k < bs.len() ==> (nfa::accepts(
                states,
                cx,
                s,
                #[trigger] branch_entry(bs, bd, base, k),
                i,
            ) <==> ops_then(states, bs[k], cx, s, i, exit)),
    decreases bs, 2int,
{
    assert forall|k: int| 0 <= k < bs.len() implies (nfa::accepts(
        states,
        cx,
        s,
        #[trigger] branch_entry(bs, bd, base, k),
        i,
    ) <==> ops_then(states, bs[k], cx, s, i, exit)) by {
        assert(ops_built(states, bs[k], bd, base + branches_size(bs, k, bd), exit));
        lemma_ops_built(states, bs[k], bd, base + branches_size(bs, k, bd), exit, cx, s, i);
    }
}

/// The entry of the last `m + 1` branches accepts what one of them does.
proof fn lemma_alt_entry(
    states: Seq<Trans>,
    bs: Seq<Seq<SpecOp>>,
    bd: Build,
    base: int,
    cx: Cx,
    s: Seq<u8>,
    i: int,
    m: int,
)
    requires
        bs.len() > 0,
        0 <= base,
        branches_size(bs, bs.len() as int, bd) >= 0,
        base + branches_size(bs, bs.len() as int, bd) + bs.len() - 1 <= states.len() <= usize::MAX,
        forall|k: int|
            0 <= k < bs.len() ==> 0 <= #[trigger] branch_entry(bs, bd, base, k) < states.len(),
        splits_built(states, bs, bd, base),
        0 <= m < bs.len(),
        0 <= i <= s.len(),
    ensures
        0 <= alt_entry(bs, bd, base, m) < states.len(),
        nfa::accepts(states, cx, s, alt_entry(bs, bd, base, m), i) <==> exists|k: int|
            bs.len() - 1 - m <= k < bs.len() && nfa::accepts(
                states,
                cx,
                s,
                #[trigger] branch_entry(bs, bd, base, k),
                i,
            ),
    decreases m,
{
    let n = bs.len() as int;
    if m == 0 {
        assert(alt_entry(bs, bd, base, 0) == branch_entry(bs, bd, base, n - 1));
    } else {
        lemma_alt_entry(states, bs, bd, base, cx, s, i, m - 1);
        assert(split_built(states, bs, bd, base, m - 1));
        let q = alt_entry(bs, bd, base, m);
        let first = n - 1 - m;
        assert(0 <= branch_entry(bs, bd, base, first) < states.len());
        nfa::lemma_unfold(states, cx, s, q, i);
    }
}

/// [`lemma_op_built`] for a sequence.
pub proof fn lemma_ops_built(
    states: Seq<Trans>,
    ops: Seq<SpecOp>,
    bd: Build,
    base: int,
    exit: StateId,
    cx: Cx,
    s: Seq<u8>,
    i: int,
)
    requires
        ops_built(states, ops, bd, base, exit),
        states.len() <= usize::MAX,
        fits(bd, cx),
        0 <= i <= s.len(),
    ensures
        nfa::accepts(states, cx, s, ops_entry(ops, bd, base), i) <==> ops_then(
            states,
            ops,
            cx,
            s,
            i,
            exit,
        ),
    decreases ops, 1int,
{
    if ops.len() == 0 {
        nfa::lemma_unfold(states, cx, s, base, i);
        assert(lang::cut(i) && lang::ops_span(ops, cx, s, i, i));
    } else {
        lemma_chain_built(states, ops, bd, base, exit, cx, s, i);
    }
}

proof fn lemma_chain_built(
    states: Seq<Trans>,
    ops: Seq<SpecOp>,
    bd: Build,
    base: int,
    exit: StateId,
    cx: Cx,
    s: Seq<u8>,
    i: int,
)
    requires
        chain_built(states, ops, bd, base, exit),
        states.len() <= usize::MAX,
        fits(bd, cx),
        0 <= i <= s.len(),
    ensures
        nfa::accepts(states, cx, s, op_entry(ops[0], bd, base), i) <==> ops_then(
            states,
            ops,
            cx,
            s,
            i,
            exit,
        ),
    decreases ops, 0int,
{
    let rest = ops.drop_first();
    if ops.len() == 1 {
        lemma_op_built(states, ops[0], bd, base, exit, cx, s, i);
        assert(ops =~= seq![ops[0]]);
        assert forall|j: int| #[trigger]
            lang::ops_span(ops, cx, s, i, j) <==> lang::op_span(ops[0], cx, s, i, j) by {
            lang::lemma_span_single(ops[0], cx, s, i, j);
        }
    } else {
        let next = base + op_size(ops[0], bd);
        let mid = chain_exit(ops, bd, base, exit);
        lemma_op_built(states, ops[0], bd, base, mid, cx, s, i);
        assert(rest[0] == ops[1]);
        assert(chain_built(states, rest, bd, next, exit));
        lemma_op_entry(states, rest[0], bd, next, chain_exit(rest, bd, next, exit));
        lemma_chain_size(states, rest, bd, next, exit);
        assert(mid as int == op_entry(rest[0], bd, next));
        if op_then(states, ops[0], cx, s, i, mid) {
            let k = choose|k: int| #[trigger]
                lang::cut(k) && lang::op_span(ops[0], cx, s, i, k) && nfa::accepts(
                    states,
                    cx,
                    s,
                    mid as int,
                    k,
                );
            lemma_chain_built(states, rest, bd, next, exit, cx, s, k);
            let j = choose|j: int| #[trigger]
                lang::cut(j) && lang::ops_span(rest, cx, s, k, j) && nfa::accepts(
                    states,
                    cx,
                    s,
                    exit as int,
                    j,
                );
            assert(lang::cut(k) && lang::op_span(ops[0], cx, s, i, k) && lang::ops_span(
                ops.drop_first(),
                cx,
                s,
                k,
                j,
            ));
            assert(lang::cut(j) && lang::ops_span(ops, cx, s, i, j));
        }
        if ops_then(states, ops, cx, s, i, exit) {
            let j = choose|j: int| #[trigger]
                lang::cut(j) && lang::ops_span(ops, cx, s, i, j) && nfa::accepts(
                    states,
                    cx,
                    s,
                    exit as int,
                    j,
                );
            let k = choose|k: int| #[trigger]
                lang::cut(k) && lang::op_span(ops[0], cx, s, i, k) && lang::ops_span(
                    ops.drop_first(),
                    cx,
                    s,
                    k,
                    j,
                );
            lemma_chain_built(states, rest, bd, next, exit, cx, s, k);
            assert(lang::cut(j));
            assert(ops_then(states, rest, cx, s, k, exit));
            assert(lang::cut(k));
        }
    }
}

} // verus!
