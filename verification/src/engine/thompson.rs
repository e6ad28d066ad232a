//! Compiles a program into a nondeterministic automaton.
//!
//! Each instruction becomes a fragment: a few states with one entry and with
//! dangling exits, which are patched once what follows is known.

use crate::ast::CharClass;
use crate::engine::fragment::{self, Build};
use crate::engine::lang::{self, Cx};
use crate::engine::nfa::{self, StateId, Trans};
use crate::engine::ops::ir;
use crate::engine::ops::{Op, SpecOp};
use vstd::prelude::*;

verus! {

/// Stands for an exit that is not known yet.
pub const UNSET: StateId = usize::MAX;

/// `t` has an exit that is not known yet.
pub open spec fn dangling(t: Trans) -> bool {
    match t {
        Trans::Match => false,
        Trans::Byte { next, .. } => next == UNSET,
        Trans::Class { next, .. } => next == UNSET,
        Trans::AnyNonSep { next } => next == UNSET,
        Trans::AnyByte { next } => next == UNSET,
        Trans::Sep { next } => next == UNSET,
        Trans::Split { b, .. } => b == UNSET,
        Trans::Jump { next } => next == UNSET,
        Trans::DotGuard { next } => next == UNSET,
    }
}

pub open spec fn or_target(next: StateId, target: StateId) -> StateId {
    if next == UNSET {
        target
    } else {
        next
    }
}

/// `t` with its unknown exit set to `target`.
pub open spec fn patched(t: Trans, target: StateId) -> Trans {
    match t {
        Trans::Match => t,
        Trans::Byte { b, next } => Trans::Byte { b, next: or_target(next, target) },
        Trans::Class { class, next } => Trans::Class { class, next: or_target(next, target) },
        Trans::AnyNonSep { next } => Trans::AnyNonSep { next: or_target(next, target) },
        Trans::AnyByte { next } => Trans::AnyByte { next: or_target(next, target) },
        Trans::Sep { next } => Trans::Sep { next: or_target(next, target) },
        Trans::Split { a, b } => Trans::Split { a, b: or_target(b, target) },
        Trans::Jump { next } => Trans::Jump { next: or_target(next, target) },
        Trans::DotGuard { next } => Trans::DotGuard { next: or_target(next, target) },
    }
}

/// From `lo` up to `hi`, `new` is `old` with unknown exits set to `target`.
pub open spec fn patched_in(
    old_states: Seq<Trans>,
    new_states: Seq<Trans>,
    target: StateId,
    lo: int,
    hi: int,
) -> bool {
    hi <= new_states.len() && forall|q: int|
        lo <= q < hi ==> #[trigger] new_states[q] == patched(old_states[q], target)
}

proof fn lemma_op_patch(
    old_states: Seq<Trans>,
    new_states: Seq<Trans>,
    op: SpecOp,
    bd: Build,
    base: int,
    exit: StateId,
    target: StateId,
)
    requires
        fragment::op_built(old_states, op, bd, base, exit),
        old_states.len() <= usize::MAX,
        patched_in(
            old_states,
            new_states,
            target,
            base,
            base + fragment::op_size(op, bd),
        ),
    ensures
        fragment::op_built(new_states, op, bd, base, or_target(exit, target)),
    decreases op, 0int,
{
    let to = or_target(exit, target);
    match op {
        SpecOp::Lit(b) => {
            assert forall|k: int| 0 <= k < b.len() implies fragment::lit_state(
                #[trigger] new_states[base + k],
                bd.ci,
                b[k],
                if k + 1 < b.len() { (base + k + 1) as StateId } else { to },
            ) by {
                assert(fragment::lit_state(
                    old_states[base + k],
                    bd.ci,
                    b[k],
                    if k + 1 < b.len() { (base + k + 1) as StateId } else { exit },
                ));
                assert(new_states[base + k] == patched(old_states[base + k], target));
            }
            assert(fragment::lit_built(new_states, b, bd.ci, base, to));
        },
        SpecOp::Alternation(bs) => {
            lemma_branches_patch(old_states, new_states, bs, bd, base, exit, target);
        },
        SpecOp::OptSegmentsSlash => {
            assert(new_states[base] == patched(old_states[base], target));
            assert(new_states[base + 1] == patched(old_states[base + 1], target));
            assert(new_states[base + 2] == patched(old_states[base + 2], target));
            assert(new_states[base + 3] == patched(old_states[base + 3], target));
            assert(new_states[base + 4] == patched(old_states[base + 4], target));
            assert(new_states[base + 5] == patched(old_states[base + 5], target));
        },
        SpecOp::SlashAnything => {
            assert(new_states[base] == patched(old_states[base], target));
            assert(new_states[base + 1] == patched(old_states[base + 1], target));
            assert(new_states[base + 2] == patched(old_states[base + 2], target));
            assert(new_states[base + 3] == patched(old_states[base + 3], target));
        },
        SpecOp::Star => {
            assert(new_states[base] == patched(old_states[base], target));
            assert(new_states[base + 1] == patched(old_states[base + 1], target));
            if bd.guards {
                assert(new_states[base + 2] == patched(old_states[base + 2], target));
            }
        },
        SpecOp::SepRun | SpecOp::GlobstarAny | SpecOp::LeadingSeps => {
            assert(new_states[base] == patched(old_states[base], target));
            assert(new_states[base + 1] == patched(old_states[base + 1], target));
        },
        _ => {
            assert(new_states[base] == patched(old_states[base], target));
        },
    }
}

proof fn lemma_branches_patch(
    old_states: Seq<Trans>,
    new_states: Seq<Trans>,
    bs: Seq<Seq<SpecOp>>,
    bd: Build,
    base: int,
    exit: StateId,
    target: StateId,
)
    requires
        fragment::op_built(old_states, SpecOp::Alternation(bs), bd, base, exit),
        old_states.len() <= usize::MAX,
        patched_in(
            old_states,
            new_states,
            target,
            base,
            base + fragment::op_size(SpecOp::Alternation(bs), bd),
        ),
    ensures
        fragment::op_built(
            new_states,
            SpecOp::Alternation(bs),
            bd,
            base,
            or_target(exit, target),
        ),
    decreases bs, 3int,
{
    let to = or_target(exit, target);
    let n = bs.len() as int;
    assert(fragment::branches_built(old_states, bs, bd, base, exit));
    fragment::lemma_branches_size(old_states, bs, bd, base, exit, n);
    assert(fragment::branches_built(new_states, bs, bd, base, to)) by {
        assert forall|k: int| 0 <= k < n implies fragment::ops_built(
            new_states,
            #[trigger] bs[k],
            bd,
            base + fragment::branches_size(bs, k, bd),
            to,
        ) by {
            let at = base + fragment::branches_size(bs, k, bd);
            assert(fragment::ops_built(old_states, bs[k], bd, at, exit));
            fragment::lemma_branches_size(old_states, bs, bd, base, exit, k);
            fragment::lemma_branches_mono(old_states, bs, bd, base, exit, k + 1, n);
            assert(fragment::branches_size(bs, k + 1, bd) == fragment::branches_size(bs, k, bd)
                + fragment::ops_size(bs[k], bd));
            lemma_ops_patch(old_states, new_states, bs[k], bd, at, exit, target);
        }
    }
    let last = n - 1;
    let at = base + fragment::branches_size(bs, last, bd);
    assert(fragment::ops_built(old_states, bs[last], bd, at, exit));
    fragment::lemma_ops_entry(old_states, bs[last], bd, at, exit);
    lemma_splits_patch(old_states, new_states, bs, bd, base, target);
}

proof fn lemma_splits_patch(
    old_states: Seq<Trans>,
    new_states: Seq<Trans>,
    bs: Seq<Seq<SpecOp>>,
    bd: Build,
    base: int,
    target: StateId,
)
    requires
        bs.len() > 0,
        0 <= base,
        fragment::branches_size(bs, bs.len() as int, bd) >= 0,
        fragment::splits_built(old_states, bs, bd, base),
        base + fragment::branches_size(bs, bs.len() as int, bd) + bs.len() - 1 <= old_states.len()
            <= usize::MAX,
        0 <= fragment::alt_entry(bs, bd, base, 0) < old_states.len(),
        patched_in(
            old_states,
            new_states,
            target,
            base,
            base + fragment::branches_size(bs, bs.len() as int, bd) + bs.len() - 1,
        ),
    ensures
        fragment::splits_built(new_states, bs, bd, base),
{
    let n = bs.len() as int;
    assert forall|m: int| 0 <= m < n - 1 implies #[trigger] fragment::split_built(
        new_states,
        bs,
        bd,
        base,
        m,
    ) by {
        assert(fragment::split_built(old_states, bs, bd, base, m));
        let q = base + fragment::branches_size(bs, n, bd) + m;
        assert(new_states[q] == patched(old_states[q], target));
        if m > 0 {
            assert(fragment::alt_entry(bs, bd, base, m) == base + fragment::branches_size(bs, n, bd)
                + m - 1);
        }
    }
}

proof fn lemma_ops_patch(
    old_states: Seq<Trans>,
    new_states: Seq<Trans>,
    ops: Seq<SpecOp>,
    bd: Build,
    base: int,
    exit: StateId,
    target: StateId,
)
    requires
        fragment::ops_built(old_states, ops, bd, base, exit),
        old_states.len() <= usize::MAX,
        patched_in(
            old_states,
            new_states,
            target,
            base,
            base + fragment::ops_size(ops, bd),
        ),
    ensures
        fragment::ops_built(new_states, ops, bd, base, or_target(exit, target)),
    decreases ops, 1int,
{
    if ops.len() == 0 {
        assert(new_states[base] == patched(old_states[base], target));
    } else {
        lemma_chain_patch(old_states, new_states, ops, bd, base, exit, target);
    }
}

proof fn lemma_chain_patch(
    old_states: Seq<Trans>,
    new_states: Seq<Trans>,
    ops: Seq<SpecOp>,
    bd: Build,
    base: int,
    exit: StateId,
    target: StateId,
)
    requires
        fragment::chain_built(old_states, ops, bd, base, exit),
        old_states.len() <= usize::MAX,
        patched_in(
            old_states,
            new_states,
            target,
            base,
            base + fragment::chain_size(ops, bd),
        ),
    ensures
        fragment::chain_built(new_states, ops, bd, base, or_target(exit, target)),
    decreases ops, 0int,
{
    let to = or_target(exit, target);
    let mid = fragment::chain_exit(ops, bd, base, exit);
    fragment::lemma_chain_size(old_states, ops, bd, base, exit);
    assert(fragment::op_built(old_states, ops[0], bd, base, mid));
    lemma_op_patch(old_states, new_states, ops[0], bd, base, mid, target);
    if ops.len() > 1 {
        let rest = ops.drop_first();
        let next = base + fragment::op_size(ops[0], bd);
        assert(fragment::chain_built(old_states, rest, bd, next, exit));
        fragment::lemma_op_entry(
            old_states,
            rest[0],
            bd,
            next,
            fragment::chain_exit(rest, bd, next, exit),
        );
        fragment::lemma_chain_size(old_states, rest, bd, next, exit);
        fragment::lemma_op_entry(old_states, ops[0], bd, base, mid);
        assert(rest[0] == ops[1]);
        assert(mid != UNSET);
        lemma_chain_patch(old_states, new_states, rest, bd, next, exit, target);
    }
}

/// A compiled sequence and one more instruction behind it make a longer one.
proof fn lemma_chain_snoc(
    states: Seq<Trans>,
    ops: Seq<SpecOp>,
    op: SpecOp,
    bd: Build,
    base: int,
    exit: StateId,
)
    requires
        ops.len() > 0,
        fragment::chain_built(
            states,
            ops,
            bd,
            base,
            fragment::op_entry(op, bd, base + fragment::chain_size(ops, bd)) as StateId,
        ),
        fragment::op_built(states, op, bd, base + fragment::chain_size(ops, bd), exit),
    ensures
        fragment::chain_built(states, ops.push(op), bd, base, exit),
        fragment::chain_size(ops.push(op), bd) == fragment::chain_size(ops, bd)
            + fragment::op_size(op, bd),
    decreases ops,
{
    let all = ops.push(op);
    let rest = ops.drop_first();
    assert(all.drop_first() =~= rest.push(op));
    assert(all[0] == ops[0]);
    let mid = fragment::op_entry(op, bd, base + fragment::chain_size(ops, bd)) as StateId;
    let next = base + fragment::op_size(ops[0], bd);
    if ops.len() == 1 {
        assert(rest.len() == 0);
        assert(fragment::chain_size(rest, bd) == 0);
        assert(rest.push(op) =~= seq![op]);
        assert(seq![op].drop_first().len() == 0);
        assert(fragment::chain_size(seq![op].drop_first(), bd) == 0);
        assert(all[1] == op);
        assert(seq![op][0] == op);
        assert(fragment::chain_size(seq![op], bd) == fragment::op_size(op, bd));
        assert(fragment::chain_built(states, seq![op], bd, next, exit));
    } else {
        assert(fragment::chain_built(states, rest, bd, next, mid));
        assert(fragment::chain_size(ops, bd) == fragment::op_size(ops[0], bd)
            + fragment::chain_size(rest, bd));
        lemma_chain_snoc(states, rest, op, bd, next, exit);
        assert(all[1] == ops[1]);
    }
}


/// States under construction.
struct Builder {
    states: Vec<Trans>,
    case_insensitive: bool,
    guards: bool,
}

/// `t` leads to one of the first `n` states, or its exit is not known yet.
spec fn leads_to(t: Trans, n: int) -> bool {
    dangling(t) && (t matches Trans::Split { a, .. } ==> a < n) || nfa::target_ok(t, n)
}

/// Every unknown exit from `base` on belongs to a state in `tails`, every
/// state in `tails` lies there, and all known exits are states.
spec fn covered(states: Seq<Trans>, base: int, tails: Seq<StateId>) -> bool {
    &&& forall|q: int|
        base <= q < states.len() && dangling(#[trigger] states[q]) ==> tails.contains(
            q as StateId,
        )
    &&& forall|t: int|
        0 <= t < tails.len() ==> base <= #[trigger] tails[t] < states.len()
    &&& forall|q: int|
        base <= q < states.len() ==> leads_to(#[trigger] states[q], states.len() as int)
}

/// From `base` on there is no accept state.
spec fn no_match(states: Seq<Trans>, base: int) -> bool {
    forall|q: int| base <= q < states.len() ==> !(#[trigger] states[q] is Match)
}

/// `new` has the states of `old`, and `size` more.
spec fn grown(old_states: Seq<Trans>, new_states: Seq<Trans>, size: int) -> bool {
    new_states.len() == old_states.len() + size && forall|q: int|
        0 <= q < old_states.len() ==> #[trigger] new_states[q] == old_states[q]
}

impl Builder {
    spec fn bd(self) -> Build {
        Build { ci: self.case_insensitive, guards: self.guards }
    }

    fn new(case_insensitive: bool, guards: bool) -> (r: Self)
        ensures
            r.states@.len() == 0,
            r.bd() == (Build { ci: case_insensitive, guards }),
    {
        Builder { states: Vec::new(), case_insensitive, guards }
    }

    fn add_state(&mut self, t: Trans) -> (id: StateId)
        ensures
            id == old(self).states@.len(),
            id < UNSET,
            final(self).states@ == old(self).states@.push(t),
            final(self).bd() == old(self).bd(),
    {
        let id: StateId = self.states.len();
        self.states.push(t);
        assert(self.states.len() == id + 1);
        id
    }

    fn patch(&mut self, state: StateId, target: StateId)
        requires
            state < old(self).states@.len(),
        ensures
            final(self).states@ == old(self).states@.update(
                state as int,
                patched(old(self).states@[state as int], target),
            ),
            final(self).bd() == old(self).bd(),
    {
        match &mut self.states[state] {
            Trans::Match => {},
            Trans::Byte { next, .. } => {
                if *next == UNSET {
                    *next = target;
                }
            },
            Trans::Class { next, .. } => {
                if *next == UNSET {
                    *next = target;
                }
            },
            Trans::AnyNonSep { next } => {
                if *next == UNSET {
                    *next = target;
                }
            },
            Trans::AnyByte { next } => {
                if *next == UNSET {
                    *next = target;
                }
            },
            Trans::Sep { next } => {
                if *next == UNSET {
                    *next = target;
                }
            },
            Trans::Jump { next } => {
                if *next == UNSET {
                    *next = target;
                }
            },
            Trans::DotGuard { next } => {
                if *next == UNSET {
                    *next = target;
                }
            },
            Trans::Split { b, .. } => {
                if *b == UNSET {
                    *b = target;
                }
            },
        }
    }
}


/// What compiling one instruction gives: its states behind the old ones, with
/// `tails` as the unknown exits.
spec fn op_added(
    old_states: Seq<Trans>,
    new_states: Seq<Trans>,
    op: SpecOp,
    bd: Build,
    entry: StateId,
    tails: Seq<StateId>,
) -> bool {
    &&& grown(old_states, new_states, fragment::op_size(op, bd))
    &&& fragment::op_built(new_states, op, bd, old_states.len() as int, UNSET)
    &&& entry == fragment::op_entry(op, bd, old_states.len() as int)
    &&& covered(new_states, old_states.len() as int, tails)
    &&& no_match(new_states, old_states.len() as int)
}

/// [`op_added`] for a sequence.
spec fn ops_added(
    old_states: Seq<Trans>,
    new_states: Seq<Trans>,
    ops: Seq<SpecOp>,
    bd: Build,
    entry: StateId,
    tails: Seq<StateId>,
) -> bool {
    &&& grown(old_states, new_states, fragment::ops_size(ops, bd))
    &&& fragment::ops_built(new_states, ops, bd, old_states.len() as int, UNSET)
    &&& entry == fragment::ops_entry(ops, bd, old_states.len() as int)
    &&& covered(new_states, old_states.len() as int, tails)
    &&& no_match(new_states, old_states.len() as int)
}

impl Builder {
    /// Sets the unknown exits of `tails` to `target`.
    fn patch_all(&mut self, tails: &Vec<StateId>, target: StateId)
        requires
            target != UNSET,
            forall|t: int| 0 <= t < tails@.len() ==> #[trigger] tails@[t] < old(self).states@.len(),
        ensures
            final(self).states@.len() == old(self).states@.len(),
            final(self).bd() == old(self).bd(),
            forall|q: int|
                0 <= q < old(self).states@.len() ==> #[trigger] final(self).states@[q] == (
                if tails@.contains(q as StateId) {
                    patched(old(self).states@[q], target)
                } else {
                    old(self).states@[q]
                }),
    {
        let ghost before = self.states@;
        assert(self.states.len() == before.len());
        let mut i: usize = 0;
        while i < tails.len()
            invariant
                before.len() <= usize::MAX,
                i <= tails@.len(),
                target != UNSET,
                self.states@.len() == before.len(),
                self.bd() == old(self).bd(),
                forall|t: int| 0 <= t < tails@.len() ==> #[trigger] tails@[t] < before.len(),
                forall|q: int|
                    0 <= q < before.len() ==> #[trigger] self.states@[q] == (if tails@.take(
                        i as int,
                    ).contains(q as StateId) {
                        patched(before[q], target)
                    } else {
                        before[q]
                    }),
            decreases tails@.len() - i,
        {
            let t: StateId = tails[i];
            let ghost mid = self.states@;
            self.patch(t, target);
            proof {
                assert forall|q: int| 0 <= q < before.len() implies #[trigger] self.states@[q] == (
                if tails@.take(i + 1).contains(q as StateId) {
                    patched(before[q], target)
                } else {
                    before[q]
                }) by {
                    let now = tails@.take(i + 1);
                    let was = tails@.take(i as int);
                    if q == t {
                        assert(now[i as int] == t);
                        assert(now.contains(q as StateId));
                        assert(mid[q] == before[q] || mid[q] == patched(before[q], target));
                    } else {
                        if was.contains(q as StateId) {
                            let k = choose|k: int| 0 <= k < was.len() && was[k] == q as StateId;
                            assert(now[k] == q as StateId);
                        }
                        if now.contains(q as StateId) {
                            let k = choose|k: int| 0 <= k < now.len() && now[k] == q as StateId;
                            assert(was[k] == q as StateId);
                        }
                    }
                }
            }
            i = i + 1;
        }
        assert(tails@.take(i as int) =~= tails@);
    }

    fn add_lit_byte(&mut self, b: u8) -> (id: StateId)
        ensures
            id == old(self).states@.len(),
            id < UNSET,
            grown(old(self).states@, final(self).states@, 1),
            fragment::lit_state(
                final(self).states@[id as int],
                final(self).case_insensitive,
                b,
                UNSET,
            ),
            final(self).bd() == old(self).bd(),
    {
        if self.case_insensitive {
            match CharClass::ci_letter(b) {
                Some(class) => self.add_state(Trans::Class { class, next: UNSET }),
                None => self.add_state(Trans::Byte { b, next: UNSET }),
            }
        } else {
            self.add_state(Trans::Byte { b, next: UNSET })
        }
    }

    fn compile_lit(&mut self, bytes: &Vec<u8>) -> (r: (StateId, Vec<StateId>))
        requires
            bytes@.len() > 0,
        ensures
            op_added(
                old(self).states@,
                final(self).states@,
                SpecOp::Lit(bytes@),
                final(self).bd(),
                r.0,
                r.1@,
            ),
            final(self).bd() == old(self).bd(),
    {
        let ghost before = self.states@;
        let ghost base = before.len() as int;
        let entry: StateId = self.add_lit_byte(bytes[0]);
        let mut prev: StateId = entry;
        let mut i: usize = 1;
        assert(bytes@.take(1)[0] == bytes@[0]);
        while i < bytes.len()
            invariant
                1 <= i <= bytes@.len(),
                base == before.len(),
                grown(before, self.states@, i as int),
                prev == base + i - 1,
                self.bd() == old(self).bd(),
                forall|k: int|
                    0 <= k < i ==> fragment::lit_state(
                        #[trigger] self.states@[base + k],
                        self.case_insensitive,
                        bytes@[k],
                        if k + 1 < i { (base + k + 1) as StateId } else { UNSET },
                    ),
            decreases bytes@.len() - i,
        {
            let ghost s0 = self.states@;
            let s: StateId = self.add_lit_byte(bytes[i]);
            let ghost s1 = self.states@;
            self.patch(prev, s);
            proof {
                let s2 = self.states@;
                assert(s == base + i);
                assert forall|k: int| 0 <= k < i + 1 implies fragment::lit_state(
                    #[trigger] s2[base + k],
                    self.case_insensitive,
                    bytes@[k],
                    if k + 1 < i + 1 { (base + k + 1) as StateId } else { UNSET },
                ) by {
                    if k < i {
                        assert(s1[base + k] == s0[base + k]);
                        assert(fragment::lit_state(
                            s0[base + k],
                            self.case_insensitive,
                            bytes@[k],
                            if k + 1 < i { (base + k + 1) as StateId } else { UNSET },
                        ));
                    }
                }
            }
            prev = s;
            i = i + 1;
        }
        let tails: Vec<StateId> = vec![prev];
        proof {
            let st = self.states@;
            assert(self.states.len() == st.len());
            assert(fragment::lit_built(st, bytes@, self.case_insensitive, base, UNSET));
            assert(tails@[0] == prev);
            assert forall|q: int| base <= q < st.len() implies (dangling(#[trigger] st[q])
                ==> tails@.contains(q as StateId)) && !(st[q] is Match) && leads_to(
                st[q],
                st.len() as int,
            ) by {
                let k = q - base;
                assert(fragment::lit_state(
                    st[base + k],
                    self.case_insensitive,
                    bytes@[k],
                    if k + 1 < bytes@.len() { (base + k + 1) as StateId } else { UNSET },
                ));
            }
        }
        (entry, tails)
    }
}

impl Builder {
    fn compile_any_non_sep(&mut self) -> (r: (StateId, Vec<StateId>))
        ensures
            op_added(
                old(self).states@,
                final(self).states@,
                SpecOp::AnyChar,
                final(self).bd(),
                r.0,
                r.1@,
            ),
            final(self).bd() == old(self).bd(),
    {
        let s: StateId = self.add_state(Trans::AnyNonSep { next: UNSET });
        let tails: Vec<StateId> = vec![s];
        assert(tails@[0] == s);
        (s, tails)
    }

    fn compile_star(&mut self) -> (r: (StateId, Vec<StateId>))
        ensures
            op_added(
                old(self).states@,
                final(self).states@,
                SpecOp::Star,
                final(self).bd(),
                r.0,
                r.1@,
            ),
            final(self).bd() == old(self).bd(),
    {
        let entry: StateId = self.add_state(Trans::Split { a: UNSET, b: UNSET });
        let body: StateId = self.add_state(Trans::AnyNonSep { next: entry });
        if self.guards {
            let dot_guard: StateId = self.add_state(Trans::DotGuard { next: UNSET });
            self.states[entry] = Trans::Split { a: body, b: dot_guard };
            let tails: Vec<StateId> = vec![dot_guard];
            assert(tails@[0] == dot_guard);
            (entry, tails)
        } else {
            self.states[entry] = Trans::Split { a: body, b: UNSET };
            let tails: Vec<StateId> = vec![entry];
            assert(tails@[0] == entry);
            (entry, tails)
        }
    }

    fn compile_class(&mut self, class: &CharClass) -> (r: (StateId, Vec<StateId>))
        ensures
            op_added(
                old(self).states@,
                final(self).states@,
                SpecOp::Class(class@),
                final(self).bd(),
                r.0,
                r.1@,
            ),
            final(self).bd() == old(self).bd(),
    {
        let s: StateId = self.add_state(Trans::Class { class: class.clone(), next: UNSET });
        let tails: Vec<StateId> = vec![s];
        assert(tails@[0] == s);
        (s, tails)
    }

    fn compile_sep(&mut self) -> (r: (StateId, Vec<StateId>))
        ensures
            op_added(
                old(self).states@,
                final(self).states@,
                SpecOp::Sep,
                final(self).bd(),
                r.0,
                r.1@,
            ),
            final(self).bd() == old(self).bd(),
    {
        let entry: StateId = self.add_state(Trans::Sep { next: UNSET });
        let tails: Vec<StateId> = vec![entry];
        assert(tails@[0] == entry);
        (entry, tails)
    }

    fn compile_sep_run(&mut self) -> (r: (StateId, Vec<StateId>))
        ensures
            op_added(
                old(self).states@,
                final(self).states@,
                SpecOp::SepRun,
                final(self).bd(),
                r.0,
                r.1@,
            ),
            final(self).bd() == old(self).bd(),
    {
        let tail_split: StateId = self.add_state(Trans::Split { a: UNSET, b: UNSET });
        let entry: StateId = self.add_state(Trans::Sep { next: tail_split });
        self.states[tail_split] = Trans::Split { a: entry, b: UNSET };
        let tails: Vec<StateId> = vec![tail_split];
        assert(tails@[0] == tail_split);
        (entry, tails)
    }

    fn compile_leading_seps(&mut self) -> (r: (StateId, Vec<StateId>))
        ensures
            op_added(
                old(self).states@,
                final(self).states@,
                SpecOp::LeadingSeps,
                final(self).bd(),
                r.0,
                r.1@,
            ),
            final(self).bd() == old(self).bd(),
    {
        let entry: StateId = self.add_state(Trans::Split { a: UNSET, b: UNSET });
        let loop_body: StateId = self.add_state(Trans::Sep { next: entry });
        self.states[entry] = Trans::Split { a: loop_body, b: UNSET };
        let tails: Vec<StateId> = vec![entry];
        assert(tails@[0] == entry);
        (entry, tails)
    }

    fn compile_oss(&mut self) -> (r: (StateId, Vec<StateId>))
        ensures
            op_added(
                old(self).states@,
                final(self).states@,
                SpecOp::OptSegmentsSlash,
                final(self).bd(),
                r.0,
                r.1@,
            ),
            final(self).bd() == old(self).bd(),
    {
        let entry: StateId = self.add_state(Trans::Split { a: UNSET, b: UNSET });
        let seg_body: StateId = self.add_state(Trans::AnyNonSep { next: UNSET });
        let seg_cont: StateId = self.add_state(Trans::Split { a: UNSET, b: UNSET });
        let seg_body_loop: StateId = self.add_state(Trans::AnyNonSep { next: seg_cont });
        let sep_start: StateId = self.add_state(Trans::Sep { next: UNSET });
        let sep_tail: StateId = self.add_state(Trans::Split { a: sep_start, b: entry });
        self.states[entry] = Trans::Split { a: seg_body, b: UNSET };
        self.states[seg_body] = Trans::AnyNonSep { next: seg_cont };
        self.states[seg_cont] = Trans::Split { a: seg_body_loop, b: sep_start };
        self.states[sep_start] = Trans::Sep { next: sep_tail };
        let tails: Vec<StateId> = vec![entry];
        assert(tails@[0] == entry);
        (entry, tails)
    }

    fn compile_slash_anything(&mut self) -> (r: (StateId, Vec<StateId>))
        ensures
            op_added(
                old(self).states@,
                final(self).states@,
                SpecOp::SlashAnything,
                final(self).bd(),
                r.0,
                r.1@,
            ),
            final(self).bd() == old(self).bd(),
    {
        let entry: StateId = self.add_state(Trans::Sep { next: UNSET });
        let post_sep: StateId = self.add_state(Trans::Split { a: UNSET, b: UNSET });
        let tail: StateId = self.add_state(Trans::Split { a: UNSET, b: UNSET });
        let tail_loop: StateId = self.add_state(Trans::AnyByte { next: tail });
        self.states[entry] = Trans::Sep { next: post_sep };
        self.states[post_sep] = Trans::Split { a: entry, b: tail };
        self.states[tail] = Trans::Split { a: tail_loop, b: UNSET };
        let tails: Vec<StateId> = vec![tail];
        assert(tails@[0] == tail);
        (entry, tails)
    }

    fn compile_globstar_any(&mut self) -> (r: (StateId, Vec<StateId>))
        ensures
            op_added(
                old(self).states@,
                final(self).states@,
                SpecOp::GlobstarAny,
                final(self).bd(),
                r.0,
                r.1@,
            ),
            final(self).bd() == old(self).bd(),
    {
        let entry: StateId = self.add_state(Trans::Split { a: UNSET, b: UNSET });
        let body: StateId = self.add_state(Trans::AnyByte { next: entry });
        self.states[entry] = Trans::Split { a: body, b: UNSET };
        let tails: Vec<StateId> = vec![entry];
        assert(tails@[0] == entry);
        (entry, tails)
    }
}

/// Setting the unknown exits of one instruction and leaving the next alone
/// joins the two.
proof fn lemma_join(
    base: int,
    old_states: Seq<Trans>,
    mid_states: Seq<Trans>,
    new_states: Seq<Trans>,
    ops: Seq<SpecOp>,
    k: int,
    bd: Build,
    op_entry: StateId,
    pending: Seq<StateId>,
    op_tails: Seq<StateId>,
)
    requires
        0 < k < ops.len(),
        0 <= base,
        old_states.len() == base + fragment::chain_size(ops.take(k), bd),
        fragment::chain_built(old_states, ops.take(k), bd, base, UNSET),
        covered(old_states, base, pending),
        no_match(old_states, base),
        op_added(old_states, mid_states, ops[k], bd, op_entry, op_tails),
        mid_states.len() <= usize::MAX,
        new_states.len() == mid_states.len(),
        forall|q: int|
            0 <= q < mid_states.len() ==> #[trigger] new_states[q] == (if pending.contains(
                q as StateId,
            ) {
                patched(mid_states[q], op_entry)
            } else {
                mid_states[q]
            }),
    ensures
        new_states.len() == base + fragment::chain_size(ops.take(k + 1), bd),
        fragment::chain_built(new_states, ops.take(k + 1), bd, base, UNSET),
        covered(new_states, base, op_tails),
        no_match(new_states, base),
        op_entry != UNSET,
{
    let cur = old_states.len() as int;
    let head = ops.take(k);
    let size = fragment::op_size(ops[k], bd);
    fragment::lemma_op_entry(mid_states, ops[k], bd, cur, UNSET);
    fragment::lemma_chain_size(old_states, head, bd, base, UNSET);
    assert(patched_in(old_states, new_states, op_entry, base, cur)) by {
        assert forall|q: int| base <= q < cur implies #[trigger] new_states[q] == patched(
            old_states[q],
            op_entry,
        ) by {
            assert(mid_states[q] == old_states[q]);
            if !pending.contains(q as StateId) {
                assert(!dangling(old_states[q]));
            }
        }
    }
    lemma_chain_patch(old_states, new_states, head, bd, base, UNSET, op_entry);
    assert(patched_in(mid_states, new_states, UNSET, cur, cur + size)) by {
        assert forall|q: int| cur <= q < cur + size implies #[trigger] new_states[q] == patched(
            mid_states[q],
            UNSET,
        ) by {
            if pending.contains(q as StateId) {
                let t = choose|t: int| 0 <= t < pending.len() && pending[t] == q as StateId;
                assert(pending[t] < old_states.len());
            }
        }
    }
    lemma_op_patch(mid_states, new_states, ops[k], bd, cur, UNSET, UNSET);
    lemma_chain_snoc(new_states, head, ops[k], bd, base, UNSET);
    assert(ops.take(k + 1) =~= head.push(ops[k]));
    assert forall|q: int| base <= q < new_states.len() implies (dangling(#[trigger] new_states[q])
        ==> op_tails.contains(q as StateId)) && !(new_states[q] is Match) by {
        if q < cur {
            assert(mid_states[q] == old_states[q]);
            if !pending.contains(q as StateId) {
                assert(!dangling(old_states[q]));
            }
        } else {
            assert(new_states[q] == patched(mid_states[q], UNSET));
        }
    }
}

impl Builder {
    fn compile_op(&mut self, op: &Op) -> (r: (StateId, Vec<StateId>))
        requires
            ir::solid_op(op@),
        ensures
            op_added(
                old(self).states@,
                final(self).states@,
                op@,
                final(self).bd(),
                r.0,
                r.1@,
            ),
            final(self).bd() == old(self).bd(),
        decreases op,
    {
        match op {
            Op::Lit(bytes) => self.compile_lit(bytes),
            Op::AnyChar => self.compile_any_non_sep(),
            Op::Star => self.compile_star(),
            Op::Class(class) => self.compile_class(class),
            Op::Sep => self.compile_sep(),
            Op::SepRun => self.compile_sep_run(),
            Op::LeadingSeps => self.compile_leading_seps(),
            Op::OptSegmentsSlash => self.compile_oss(),
            Op::SlashAnything => self.compile_slash_anything(),
            Op::GlobstarAny => self.compile_globstar_any(),
            Op::Alternation(branches) => self.compile_alternation(branches),
            Op::Globstar => (UNSET, Vec::new()),
        }
    }

    fn compile_ops(&mut self, ops: &Vec<Op>) -> (r: (StateId, Vec<StateId>))
        requires
            ir::solid(ir::ops_view(ops@)),
        ensures
            ops_added(
                old(self).states@,
                final(self).states@,
                ir::ops_view(ops@),
                final(self).bd(),
                r.0,
                r.1@,
            ),
            final(self).bd() == old(self).bd(),
        decreases ops,
    {
        let ghost views = ir::ops_view(ops@);
        if ops.len() == 0 {
            let s: StateId = self.add_state(Trans::Jump { next: UNSET });
            let tails: Vec<StateId> = vec![s];
            assert(tails@[0] == s);
            return (s, tails);
        }
        let ghost before = self.states@;
        let ghost base = before.len() as int;
        let ghost bd = self.bd();
        assert(decreases_to!(ops => ops@[0]));
        assert(views[0] == ir::op_view(ops@[0]));
        let (entry, tails) = self.compile_op(&ops[0]);
        let mut pending: Vec<StateId> = tails;
        proof {
            let one = views.take(1);
            assert(one[0] == views[0]);
            assert(one.drop_first().len() == 0);
            assert(fragment::chain_size(one.drop_first(), bd) == 0);
            assert(fragment::chain_size(one, bd) == fragment::op_size(views[0], bd));
            assert(fragment::chain_built(self.states@, one, bd, base, UNSET));
        }
        let mut k: usize = 1;
        while k < ops.len()
            invariant
                1 <= k <= ops@.len(),
                views == ir::ops_view(ops@),
                ir::solid(views),
                base == before.len(),
                bd == self.bd(),
                bd == old(self).bd(),
                grown(before, self.states@, fragment::chain_size(views.take(k as int), bd)),
                fragment::chain_built(self.states@, views.take(k as int), bd, base, UNSET),
                covered(self.states@, base, pending@),
                no_match(self.states@, base),
            decreases ops@.len() - k,
        {
            let ghost s0 = self.states@;
            assert(decreases_to!(ops => ops@[k as int]));
            assert(views[k as int] == ir::op_view(ops@[k as int]));
            let (op_entry, op_tails) = self.compile_op(&ops[k]);
            let ghost s1 = self.states@;
            assert(self.states.len() == s1.len());
            proof {
                fragment::lemma_op_entry(s1, views[k as int], bd, s0.len() as int, UNSET);
                fragment::lemma_chain_size(s0, views.take(k as int), bd, base, UNSET);
            }
            self.patch_all(&pending, op_entry);
            proof {
                lemma_join(
                    base,
                    s0,
                    s1,
                    self.states@,
                    views,
                    k as int,
                    bd,
                    op_entry,
                    pending@,
                    op_tails@,
                );
                assert forall|q: int| 0 <= q < base implies #[trigger] self.states@[q] == before[q] by {
                    assert(s1[q] == s0[q]);
                    if pending@.contains(q as StateId) {
                        let t = choose|t: int|
                            0 <= t < pending@.len() && pending@[t] == q as StateId;
                        assert(base <= pending@[t]);
                    }
                }
            }
            pending = op_tails;
            k = k + 1;
        }
        assert(views.take(k as int) =~= views);
        (entry, pending)
    }

    fn compile_alternation(&mut self, branches: &Vec<Vec<Op>>) -> (r: (StateId, Vec<StateId>))
        requires
            branches@.len() > 0,
            ir::solid_branches(ir::branches_view(branches@)),
        ensures
            op_added(
                old(self).states@,
                final(self).states@,
                SpecOp::Alternation(ir::branches_view(branches@)),
                final(self).bd(),
                r.0,
                r.1@,
            ),
            final(self).bd() == old(self).bd(),
        decreases branches,
    {
        let ghost bs = ir::branches_view(branches@);
        let ghost before = self.states@;
        let ghost base = before.len() as int;
        let ghost bd = self.bd();
        let mut branch_entries: Vec<StateId> = Vec::new();
        let mut branch_tails: Vec<StateId> = Vec::new();
        let mut k: usize = 0;
        while k < branches.len()
            invariant
                k <= branches@.len(),
                bs == ir::branches_view(branches@),
                ir::solid_branches(bs),
                base == before.len(),
                bd == self.bd(),
                bd == old(self).bd(),
                grown(before, self.states@, fragment::branches_size(bs, k as int, bd)),
                before.len() <= self.states@.len(),
                first_built(self.states@, bs, bd, base, k as int, branch_entries@),
                covered(self.states@, base, branch_tails@),
                no_match(self.states@, base),
            decreases branches@.len() - k,
        {
            let ghost s0 = self.states@;
            assert(decreases_to!(branches => branches@[k as int]));
            assert(bs[k as int] == ir::ops_view(branches@[k as int]@));
            let (entry, tails) = self.compile_ops(&branches[k]);
            let ghost s1 = self.states@;
            let ghost entries0 = branch_entries@;
            branch_entries.push(entry);
            let ghost tails0 = branch_tails@;
            let ghost tails1 = tails@;
            let mut tails: Vec<StateId> = tails;
            branch_tails.append(&mut tails);
            assert(self.states.len() == s1.len());
            proof {
                lemma_add_branch(s0, s1, bs, bd, base, k as int, entries0, entry, tails1);
                lemma_covered_append(base, s0, s1, tails0, tails1);
            }
            k = k + 1;
        }
        let ghost s1 = self.states@;
        let entry: StateId = self.add_splits(&branch_entries, Ghost(bs), Ghost(base));
        proof {
            assert(self.states.len() == self.states@.len());
            lemma_alt_added(
                before,
                s1,
                self.states@,
                bs,
                bd,
                branch_entries@,
                entry,
                branch_tails@,
            );
        }
        (entry, branch_tails)
    }

    /// Adds the forks that lead to the branches entered at `entries`.
    fn add_splits(
        &mut self,
        entries: &Vec<StateId>,
        Ghost(bs): Ghost<Seq<Seq<SpecOp>>>,
        Ghost(base): Ghost<int>,
    ) -> (entry: StateId)
        requires
            bs.len() > 0,
            0 <= base,
            base + fragment::branches_size(bs, bs.len() as int, old(self).bd()) == old(
                self,
            ).states@.len(),
            entries@.len() == bs.len(),
            forall|k: int|
                0 <= k < bs.len() ==> #[trigger] entries@[k] == fragment::branch_entry(
                    bs,
                    old(self).bd(),
                    base,
                    k,
                ),
        ensures
            final(self).bd() == old(self).bd(),
            grown(old(self).states@, final(self).states@, bs.len() - 1),
            fragment::splits_built(final(self).states@, bs, old(self).bd(), base),
            entry == fragment::alt_entry(bs, old(self).bd(), base, bs.len() - 1),
            forall|q: int|
                old(self).states@.len() <= q < final(self).states@.len() ==> (
                #[trigger] final(self).states@[q] matches Trans::Split { a, b } && entries@.contains(a) && (b < q
                    || entries@.contains(b))),
    {
        let ghost bd = self.bd();
        let ghost s0 = self.states@;
        let ghost n = bs.len() as int;
        let ghost total = fragment::branches_size(bs, n, bd);
        let last: usize = entries.len() - 1;
        let mut entry: StateId = entries[last];
        assert(entry == fragment::branch_entry(bs, bd, base, n - 1));
        assert(entries@.contains(entry));
        let mut m: usize = 0;
        while m < last
            invariant
                m <= last,
                last == n - 1,
                n == bs.len(),
                bd == self.bd(),
                bd == old(self).bd(),
                total == fragment::branches_size(bs, n, bd),
                base + total == s0.len(),
                grown(s0, self.states@, m as int),
                entries@.len() == n,
                forall|k: int|
                    0 <= k < n ==> #[trigger] entries@[k] == fragment::branch_entry(
                        bs,
                        bd,
                        base,
                        k,
                    ),
                entry == fragment::alt_entry(bs, bd, base, m as int),
                entry < self.states@.len() || entries@.contains(entry),
                forall|j: int|
                    0 <= j < m ==> #[trigger] fragment::split_built(
                        self.states@,
                        bs,
                        bd,
                        base,
                        j,
                    ),
                forall|q: int|
                    s0.len() <= q < self.states@.len() ==> (
                    #[trigger] self.states@[q] matches Trans::Split { a, b } && entries@.contains(a) && (b < q
                        || entries@.contains(b))),
            decreases last - m,
        {
            let ghost s1 = self.states@;
            let a: StateId = entries[last - 1 - m];
            let b: StateId = entry;
            assert(entries@.contains(a));
            entry = self.add_state(Trans::Split { a, b });
            proof {
                let s2 = self.states@;
                assert forall|j: int| 0 <= j < m + 1 implies #[trigger] fragment::split_built(
                    s2,
                    bs,
                    bd,
                    base,
                    j,
                ) by {
                    if j < m {
                        assert(fragment::split_built(s1, bs, bd, base, j));
                    }
                }
            }
            m = m + 1;
        }
        entry
    }
}

/// Branch `m` is built behind the ones before it.
#[verifier::opaque]
spec fn branch_ok(
    states: Seq<Trans>,
    bs: Seq<Seq<SpecOp>>,
    bd: Build,
    base: int,
    m: int,
) -> bool {
    fragment::ops_built(states, bs[m], bd, base + fragment::branches_size(bs, m, bd), UNSET)
}

/// The first `k` branches are built, one behind the other, and entered at
/// `entries`.
spec fn first_built(
    states: Seq<Trans>,
    bs: Seq<Seq<SpecOp>>,
    bd: Build,
    base: int,
    k: int,
    entries: Seq<StateId>,
) -> bool {
    &&& entries.len() == k
    &&& forall|m: int| 0 <= m < k ==> #[trigger] branch_ok(states, bs, bd, base, m)
    &&& forall|m: int|
        0 <= m < k ==> #[trigger] entries[m] == fragment::branch_entry(bs, bd, base, m)
}

proof fn lemma_add_branch(
    s0: Seq<Trans>,
    s1: Seq<Trans>,
    bs: Seq<Seq<SpecOp>>,
    bd: Build,
    base: int,
    k: int,
    entries: Seq<StateId>,
    entry: StateId,
    tails: Seq<StateId>,
)
    requires
        0 <= k < bs.len(),
        0 <= base <= s0.len(),
        first_built(s0, bs, bd, base, k, entries),
        s0.len() == base + fragment::branches_size(bs, k, bd),
        ops_added(s0, s1, bs[k], bd, entry, tails),
        s1.len() <= usize::MAX,
        no_match(s0, base),
    ensures
        first_built(s1, bs, bd, base, k + 1, entries.push(entry)),
        s1.len() == base + fragment::branches_size(bs, k + 1, bd),
        no_match(s1, base),
        s0.len() < s1.len(),
{
    fragment::lemma_ops_entry(s1, bs[k], bd, s0.len() as int, UNSET);
    assert(fragment::branches_size(bs, k + 1, bd) == fragment::branches_size(bs, k, bd)
        + fragment::ops_size(bs[k], bd));
    assert forall|q: int| base <= q < s1.len() implies !(#[trigger] s1[q] is Match) by {
        if q < s0.len() {
            assert(s1[q] == s0[q]);
        }
    }
    lemma_keep_branches(s0, s1, bs, bd, base, k);
    assert(branch_ok(s1, bs, bd, base, k)) by {
        reveal(branch_ok);
    }
}

proof fn lemma_first_built_all(
    states: Seq<Trans>,
    bs: Seq<Seq<SpecOp>>,
    bd: Build,
    base: int,
    entries: Seq<StateId>,
)
    requires
        first_built(states, bs, bd, base, bs.len() as int, entries),
    ensures
        fragment::branches_built(states, bs, bd, base, UNSET),
{
    assert forall|k: int| 0 <= k < bs.len() implies fragment::ops_built(
        states,
        #[trigger] bs[k],
        bd,
        base + fragment::branches_size(bs, k, bd),
        UNSET,
    ) by {
        assert(branch_ok(states, bs, bd, base, k));
        reveal(branch_ok);
    }
}

/// Branches that are built stay built when states are added behind them.
proof fn lemma_keep_branches(
    s0: Seq<Trans>,
    s1: Seq<Trans>,
    bs: Seq<Seq<SpecOp>>,
    bd: Build,
    base: int,
    n: int,
)
    requires
        0 <= n <= bs.len(),
        s0.len() <= s1.len(),
        s0.len() <= usize::MAX,
        forall|q: int| 0 <= q < s0.len() ==> #[trigger] s1[q] == s0[q],
        forall|m: int| 0 <= m < n ==> #[trigger] branch_ok(s0, bs, bd, base, m),
    ensures
        forall|m: int| 0 <= m < n ==> #[trigger] branch_ok(s1, bs, bd, base, m),
{
    assert forall|m: int| 0 <= m < n implies #[trigger] branch_ok(s1, bs, bd, base, m) by {
        let at = base + fragment::branches_size(bs, m, bd);
        assert(branch_ok(s0, bs, bd, base, m));
        reveal(branch_ok);
        fragment::lemma_ops_entry(s0, bs[m], bd, at, UNSET);
        assert(patched_in(s0, s1, UNSET, at, at + fragment::ops_size(bs[m], bd)));
        lemma_ops_patch(s0, s1, bs[m], bd, at, UNSET, UNSET);
    }
}

/// The branches and the forks behind them make the alternation.
proof fn lemma_alt_added(
    before: Seq<Trans>,
    s1: Seq<Trans>,
    s2: Seq<Trans>,
    bs: Seq<Seq<SpecOp>>,
    bd: Build,
    entries: Seq<StateId>,
    entry: StateId,
    tails: Seq<StateId>,
)
    requires
        bs.len() > 0,
        grown(before, s1, fragment::branches_size(bs, bs.len() as int, bd)),
        before.len() <= s1.len(),
        first_built(s1, bs, bd, before.len() as int, bs.len() as int, entries),
        covered(s1, before.len() as int, tails),
        no_match(s1, before.len() as int),
        s2.len() <= usize::MAX,
        grown(s1, s2, bs.len() - 1),
        fragment::splits_built(s2, bs, bd, before.len() as int),
        entry == fragment::alt_entry(bs, bd, before.len() as int, bs.len() - 1),
        forall|q: int|
            s1.len() <= q < s2.len() ==> (#[trigger] s2[q] matches Trans::Split { a, b } && entries.contains(a) && (b < q
                || entries.contains(b))),
    ensures
        op_added(before, s2, SpecOp::Alternation(bs), bd, entry, tails),
{
    let base = before.len() as int;
    let n = bs.len() as int;
    lemma_keep_branches(s1, s2, bs, bd, base, n);
    lemma_first_built_all(s2, bs, bd, base, entries);
    assert(fragment::op_built(s2, SpecOp::Alternation(bs), bd, base, UNSET));
    assert forall|e: StateId| #[trigger] entries.contains(e) implies e < s2.len() by {
        let k = choose|k: int| 0 <= k < entries.len() && entries[k] == e;
        let at = base + fragment::branches_size(bs, k, bd);
        assert(fragment::ops_built(s2, bs[k], bd, at, UNSET));
        fragment::lemma_ops_entry(s2, bs[k], bd, at, UNSET);
    }
    lemma_alt_covered(base, s1, s2, entries, tails);
}

proof fn lemma_alt_covered(
    base: int,
    s1: Seq<Trans>,
    s2: Seq<Trans>,
    entries: Seq<StateId>,
    tails: Seq<StateId>,
)
    requires
        0 <= base <= s1.len() <= s2.len() <= usize::MAX,
        covered(s1, base, tails),
        no_match(s1, base),
        forall|q: int| 0 <= q < s1.len() ==> #[trigger] s2[q] == s1[q],
        forall|q: int|
            s1.len() <= q < s2.len() ==> (#[trigger] s2[q] matches Trans::Split { a, b }
                && entries.contains(a) && (b < q || entries.contains(b))),
        forall|e: StateId| #[trigger] entries.contains(e) ==> e < s2.len(),
    ensures
        covered(s2, base, tails),
        no_match(s2, base),
{
    assert forall|q: int| base <= q < s2.len() implies !(#[trigger] s2[q] is Match) && (dangling(
        s2[q],
    ) ==> tails.contains(q as StateId)) && leads_to(s2[q], s2.len() as int) by {
        if q < s1.len() {
            assert(s2[q] == s1[q]);
        }
    }
}

proof fn lemma_covered_append(
    base: int,
    s0: Seq<Trans>,
    s1: Seq<Trans>,
    tails0: Seq<StateId>,
    tails1: Seq<StateId>,
)
    requires
        0 <= base <= s0.len() <= s1.len() <= usize::MAX,
        forall|q: int| 0 <= q < s0.len() ==> #[trigger] s1[q] == s0[q],
        covered(s0, base, tails0),
        covered(s1, s0.len() as int, tails1),
    ensures
        covered(s1, base, tails0 + tails1),
{
    let all = tails0 + tails1;
    assert forall|q: int| base <= q < s1.len() && dangling(#[trigger] s1[q]) implies all.contains(
        q as StateId,
    ) by {
        if q < s0.len() {
            assert(dangling(s0[q]));
            let t = choose|t: int| 0 <= t < tails0.len() && tails0[t] == q as StateId;
            assert(all[t] == q as StateId);
        } else {
            let t = choose|t: int| 0 <= t < tails1.len() && tails1[t] == q as StateId;
            assert(all[tails0.len() + t] == q as StateId);
        }
    }
    assert forall|t: int| 0 <= t < all.len() implies base <= #[trigger] all[t] < s1.len() by {
        if t < tails0.len() {
            assert(all[t] == tails0[t]);
        } else {
            assert(all[t] == tails1[t - tails0.len()]);
        }
    }
}


/// A compiled automaton.
#[derive(Clone)]
pub struct Thompson {
    pub states: Vec<Trans>,
    pub initial: StateId,
    pub accept: StateId,
}

/// `states` is the automaton of `ops`.
pub open spec fn compiled(
    states: Seq<Trans>,
    initial: StateId,
    accept: StateId,
    ops: Seq<SpecOp>,
    bd: Build,
) -> bool {
    &&& accept < states.len() <= usize::MAX
    &&& states[accept as int] is Match
    &&& initial == fragment::ops_entry(ops, bd, 0)
    &&& initial < states.len()
    &&& fragment::ops_built(states, ops, bd, 0, accept)
    &&& nfa::targets_ok(states)
    &&& forall|q: int| 0 <= q < states.len() && #[trigger] states[q] is Match ==> q == accept
}

impl Thompson {
    /// Compiles `ops`. Without `guards` the zero-match exit of `*` is free,
    /// which is enough where no dot is hidden.
    pub fn compile(ops: &Vec<Op>, case_insensitive: bool, guards: bool) -> (r: Self)
        requires
            ir::solid(ir::ops_view(ops@)),
        ensures
            compiled(
                r.states@,
                r.initial,
                r.accept,
                ir::ops_view(ops@),
                Build { ci: case_insensitive, guards },
            ),
            r.states@.len() == fragment::ops_size(
                ir::ops_view(ops@),
                Build { ci: case_insensitive, guards },
            ) + 1,
    {
        let ghost views = ir::ops_view(ops@);
        let mut builder = Builder::new(case_insensitive, guards);
        let ghost bd = builder.bd();
        let (initial, tails) = builder.compile_ops(ops);
        let ghost s0 = builder.states@;
        let accept: StateId = builder.add_state(Trans::Match);
        let ghost s1 = builder.states@;
        builder.patch_all(&tails, accept);
        proof {
            let s2 = builder.states@;
            assert(builder.states.len() == s2.len());
            fragment::lemma_ops_entry(s0, views, bd, 0, UNSET);
            assert forall|q: int| 0 <= q < s0.len() implies #[trigger] s2[q] == patched(
                s0[q],
                accept,
            ) by {
                assert(s1[q] == s0[q]);
                if !tails@.contains(q as StateId) {
                    assert(!dangling(s0[q]));
                }
            }
            assert(patched_in(s0, s2, accept, 0, fragment::ops_size(views, bd)));
            lemma_ops_patch(s0, s2, views, bd, 0, UNSET, accept);
            assert(!tails@.contains(accept)) by {
                if tails@.contains(accept) {
                    let t = choose|t: int| 0 <= t < tails@.len() && tails@[t] == accept;
                    assert(tails@[t] < s0.len());
                }
            }
            assert forall|q: int| 0 <= q < s2.len() implies nfa::target_ok(
                #[trigger] s2[q],
                s2.len() as int,
            ) && (s2[q] is Match ==> q == accept) by {
                if q < s0.len() {
                    assert(leads_to(s0[q], s0.len() as int));
                    assert(s2[q] == patched(s0[q], accept));
                }
            }
        }
        Thompson { states: builder.states, initial, accept }
    }
}

/// The automaton of `ops` accepts exactly the paths that `ops` match.
pub proof fn lemma_compiled(
    states: Seq<Trans>,
    initial: StateId,
    accept: StateId,
    ops: Seq<SpecOp>,
    bd: Build,
    cx: Cx,
    s: Seq<u8>,
)
    requires
        compiled(states, initial, accept, ops, bd),
        fragment::fits(bd, cx),
    ensures
        nfa::accepts(states, cx, s, initial as int, 0) <==> lang::matches(ops, cx, s),
{
    fragment::lemma_ops_built(states, ops, bd, 0, accept, cx, s, 0);
    assert forall|j: int| #[trigger] nfa::accepts(states, cx, s, accept as int, j) <==> j
        == s.len() by {
        nfa::lemma_unfold(states, cx, s, accept as int, j);
    }
    assert(lang::cut(s.len() as int));
}

} // verus!
