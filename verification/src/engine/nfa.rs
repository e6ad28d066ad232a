//! States of a nondeterministic automaton, and what it means for one to
//! accept the rest of a path.

use crate::ast::{self, CharClass};
use crate::engine::lang::{self, Cx};
use crate::seps::Seps;
use vstd::prelude::*;

verus! {

/// Index of a state in the state table.
pub type StateId = usize;

/// One state, with where it leads.
#[derive(Debug, Clone)]
#[allow(inconsistent_fields)]
pub enum Trans {
    /// Accept state. A thread here at end of input means a match.
    Match,
    /// Consume byte `b`.
    Byte { b: u8, next: StateId },
    /// Consume one byte in `class`; a negated class leaves a hidden dot alone.
    Class { class: CharClass, next: StateId },
    /// Consume one non-separator byte that is not a hidden dot.
    AnyNonSep { next: StateId },
    /// Consume any byte, separators included, that is not a hidden dot.
    AnyByte { next: StateId },
    /// Consume exactly one separator.
    Sep { next: StateId },
    /// Free fork. Both targets are taken.
    Split { a: StateId, b: StateId },
    /// Free jump to `next`.
    Jump { next: StateId },
    /// Free jump that dies when the next byte is a hidden dot. Guards the
    /// zero-match exit of `*`.
    DotGuard { next: StateId },
}

/// The state that `t` leads to when it consumes `c`, if it does. `dot` says
/// that `c` is a hidden dot.
pub open spec fn consume(t: Trans, seps: Seps, c: u8, dot: bool) -> Option<StateId> {
    match t {
        Trans::Byte { b, next } => if b == c { Some(next) } else { None },
        Trans::Class { class, next } => if ast::class_has(class@, seps, c) && !(class.negated
            && dot) { Some(next) } else { None },
        Trans::AnyNonSep { next } => if !seps.has(c) && !dot { Some(next) } else { None },
        Trans::AnyByte { next } => if !dot { Some(next) } else { None },
        Trans::Sep { next } => if seps.has(c) { Some(next) } else { None },
        _ => None,
    }
}

/// Within `n` steps, state `q` accepts the bytes of `s` from `i` on.
pub open spec fn accepts_within(
    states: Seq<Trans>,
    cx: Cx,
    s: Seq<u8>,
    q: int,
    i: int,
    n: nat,
) -> bool
    decreases n,
{
    n > 0 && 0 <= q < states.len() && 0 <= i <= s.len() && match states[q] {
        Trans::Match => i == s.len(),
        Trans::Split { a, b } => accepts_within(states, cx, s, a as int, i, (n - 1) as nat)
            || accepts_within(states, cx, s, b as int, i, (n - 1) as nat),
        Trans::Jump { next } => accepts_within(states, cx, s, next as int, i, (n - 1) as nat),
        Trans::DotGuard { next } => !lang::hidden(cx, s, i) && accepts_within(
            states,
            cx,
            s,
            next as int,
            i,
            (n - 1) as nat,
        ),
        _ => i < s.len() && match consume(states[q], cx.seps, s[i], lang::hidden(cx, s, i)) {
            Some(next) => accepts_within(states, cx, s, next as int, i + 1, (n - 1) as nat),
            None => false,
        },
    }
}

/// State `q` accepts the bytes of `s` from `i` on.
pub open spec fn accepts(states: Seq<Trans>, cx: Cx, s: Seq<u8>, q: int, i: int) -> bool {
    exists|n: nat| #[trigger] accepts_within(states, cx, s, q, i, n)
}

/// `accepts`, one step unfolded.
pub open spec fn accepts_step(states: Seq<Trans>, cx: Cx, s: Seq<u8>, q: int, i: int) -> bool {
    0 <= q < states.len() && 0 <= i <= s.len() && match states[q] {
        Trans::Match => i == s.len(),
        Trans::Split { a, b } => accepts(states, cx, s, a as int, i) || accepts(
            states,
            cx,
            s,
            b as int,
            i,
        ),
        Trans::Jump { next } => accepts(states, cx, s, next as int, i),
        Trans::DotGuard { next } => !lang::hidden(cx, s, i) && accepts(
            states,
            cx,
            s,
            next as int,
            i,
        ),
        _ => i < s.len() && match consume(states[q], cx.seps, s[i], lang::hidden(cx, s, i)) {
            Some(next) => accepts(states, cx, s, next as int, i + 1),
            None => false,
        },
    }
}

/// `accepts` satisfies the equation that `accepts_step` writes down.
pub proof fn lemma_unfold(states: Seq<Trans>, cx: Cx, s: Seq<u8>, q: int, i: int)
    ensures
        accepts(states, cx, s, q, i) == accepts_step(states, cx, s, q, i),
{
    if accepts(states, cx, s, q, i) {
        let n = choose|n: nat| #[trigger] accepts_within(states, cx, s, q, i, n);
        let n1 = (n - 1) as nat;
        match states[q] {
            Trans::Match => {},
            Trans::Split { a, b } => {
                assert(accepts_within(states, cx, s, a as int, i, n1) || accepts_within(
                    states,
                    cx,
                    s,
                    b as int,
                    i,
                    n1,
                ));
            },
            Trans::Jump { next } => {
                assert(accepts_within(states, cx, s, next as int, i, n1));
            },
            Trans::DotGuard { next } => {
                assert(accepts_within(states, cx, s, next as int, i, n1));
            },
            _ => {
                let next = consume(states[q], cx.seps, s[i], lang::hidden(cx, s, i))->0;
                assert(accepts_within(states, cx, s, next as int, i + 1, n1));
            },
        }
    }
    if accepts_step(states, cx, s, q, i) {
        match states[q] {
            Trans::Match => {
                assert(accepts_within(states, cx, s, q, i, 1));
            },
            Trans::Split { a, b } => {
                if accepts(states, cx, s, a as int, i) {
                    let n = choose|n: nat| #[trigger] accepts_within(states, cx, s, a as int, i, n);
                    assert(accepts_within(states, cx, s, q, i, n + 1));
                } else {
                    let n = choose|n: nat| #[trigger] accepts_within(states, cx, s, b as int, i, n);
                    assert(accepts_within(states, cx, s, q, i, n + 1));
                }
            },
            Trans::Jump { next } => {
                let n = choose|n: nat| #[trigger] accepts_within(states, cx, s, next as int, i, n);
                assert(accepts_within(states, cx, s, q, i, n + 1));
            },
            Trans::DotGuard { next } => {
                let n = choose|n: nat| #[trigger] accepts_within(states, cx, s, next as int, i, n);
                assert(accepts_within(states, cx, s, q, i, n + 1));
            },
            _ => {
                let next = consume(states[q], cx.seps, s[i], lang::hidden(cx, s, i))->0;
                let n = choose|n: nat| #[trigger]
                    accepts_within(states, cx, s, next as int, i + 1, n);
                assert(accepts_within(states, cx, s, q, i, n + 1));
            },
        }
    }
}

/// The automaton's structure is closed: every target is a state.
pub open spec fn targets_ok(states: Seq<Trans>) -> bool {
    forall|q: int| 0 <= q < states.len() ==> target_ok(#[trigger] states[q], states.len() as int)
}

pub open spec fn target_ok(t: Trans, n: int) -> bool {
    match t {
        Trans::Match => true,
        Trans::Byte { next, .. } => next < n,
        Trans::Class { next, .. } => next < n,
        Trans::AnyNonSep { next } => next < n,
        Trans::AnyByte { next } => next < n,
        Trans::Sep { next } => next < n,
        Trans::Split { a, b } => a < n && b < n,
        Trans::Jump { next } => next < n,
        Trans::DotGuard { next } => next < n,
    }
}

} // verus!
