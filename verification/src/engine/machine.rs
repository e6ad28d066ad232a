//! Runs an automaton over bytes with bitmaps of active states.
//!
//! Free moves are taken ahead of time: each state has the set of states it
//! stands for once forks and jumps are followed. Whether a dot guard lets a
//! thread pass depends on the next byte, so guards stay in those sets, and the
//! set that a guard releases is kept beside it.

pub mod thompson_dfa;

use crate::engine::bits;
use crate::engine::fragment::{self, Build};
use crate::engine::lang::{self, Cx};
use crate::engine::nfa::{self, StateId, Trans};
use crate::engine::ops::ir;
use crate::engine::ops::{Op, SpecOp};
use crate::engine::thompson::{self, Thompson};
use crate::seps::Seps;
use vstd::prelude::*;

verus! {

/// Some state of the set accepts the bytes of `s` from `i` on.
pub open spec fn some_accepts(
    states: Seq<Trans>,
    words: Seq<u64>,
    cx: Cx,
    s: Seq<u8>,
    i: int,
) -> bool {
    exists|p: int| #[trigger] bits::member(words, p) && nfa::accepts(states, cx, s, p, i)
}

/// Where a thread in `t` may go without consuming a byte; `through` lets it
/// pass guards.
pub open spec fn free_moves(t: Trans, through: bool) -> Seq<StateId> {
    match t {
        Trans::Split { a, b } => seq![a, b],
        Trans::Jump { next } => seq![next],
        Trans::DotGuard { next } => if through { seq![next] } else { seq![] },
        _ => seq![],
    }
}

/// `t` can only consume a byte, accept, or guard.
pub open spec fn settled(t: Trans) -> bool {
    !(t is Split) && !(t is Jump)
}

/// Every member of the set is a state in which free moves have ended.
pub open spec fn all_settled(states: Seq<Trans>, words: Seq<u64>, through: bool) -> bool {
    forall|p: int| #[trigger]
        bits::member(words, p) ==> 0 <= p < states.len() && settled(states[p]) && (through
            ==> !(states[p] is DotGuard))
}

/// The set stands for state `q` at position `i` of `s`.
pub open spec fn stands_at(
    states: Seq<Trans>,
    q: int,
    words: Seq<u64>,
    through: bool,
    cx: Cx,
    s: Seq<u8>,
    i: int,
) -> bool {
    (through ==> !lang::hidden(cx, s, i)) ==> (nfa::accepts(states, cx, s, q, i) <==> some_accepts(
        states,
        words,
        cx,
        s,
        i,
    ))
}

/// The set stands for state `q` everywhere; where `through` is set, wherever
/// the next byte is no hidden dot.
pub open spec fn stands_for(
    states: Seq<Trans>,
    q: int,
    words: Seq<u64>,
    through: bool,
) -> bool {
    &&& all_settled(states, words, through)
    &&& forall|cx: Cx, s: Seq<u8>, i: int| #[trigger]
        stands_at(states, q, words, through, cx, s, i)
}

spec fn lead_at(
    states: Seq<Trans>,
    root: int,
    p: int,
    through: bool,
    cx: Cx,
    s: Seq<u8>,
    i: int,
) -> bool {
    (through ==> !lang::hidden(cx, s, i)) ==> nfa::accepts(states, cx, s, p, i) ==> nfa::accepts(
        states,
        cx,
        s,
        root,
        i,
    )
}

/// Whatever `p` accepts, `root` accepts.
spec fn leads(states: Seq<Trans>, root: int, p: int, through: bool) -> bool {
    forall|cx: Cx, s: Seq<u8>, i: int| #[trigger] lead_at(states, root, p, through, cx, s, i)
}

proof fn lemma_leads_child(states: Seq<Trans>, root: int, p: int, k: int, through: bool)
    requires
        0 <= p < states.len(),
        leads(states, root, p, through),
        0 <= k < free_moves(states[p], through).len(),
    ensures
        leads(states, root, free_moves(states[p], through)[k] as int, through),
{
    let c = free_moves(states[p], through)[k] as int;
    assert forall|cx: Cx, s: Seq<u8>, i: int| #[trigger]
        lead_at(states, root, c, through, cx, s, i) by {
        assert(lead_at(states, root, p, through, cx, s, i));
        nfa::lemma_unfold(states, cx, s, p, i);
        if nfa::accepts(states, cx, s, c, i) {
            nfa::lemma_unfold(states, cx, s, c, i);
        }
    }
}

/// A set of seen states that free moves do not leave is covered by those of
/// its members that are settled.
proof fn lemma_seen_covered(
    states: Seq<Trans>,
    seen: Seq<u64>,
    out: Seq<u64>,
    through: bool,
    cx: Cx,
    s: Seq<u8>,
    p: int,
    i: int,
    n: nat,
)
    requires
        forall|q: int| #[trigger]
            bits::member(seen, q) ==> 0 <= q < states.len() && seen_done(
                states,
                seen,
                out,
                through,
                q,
            ),
        through ==> !lang::hidden(cx, s, i),
        bits::member(seen, p),
        nfa::accepts_within(states, cx, s, p, i, n),
    ensures
        some_accepts(states, out, cx, s, i),
    decreases n,
{
    let n1 = (n - 1) as nat;
    assert(seen_done(states, seen, out, through, p));
    let moves = free_moves(states[p], through);
    match states[p] {
        Trans::Split { a, b } => {
            assert(moves[0] == a && moves[1] == b);
            if nfa::accepts_within(states, cx, s, a as int, i, n1) {
                lemma_seen_covered(states, seen, out, through, cx, s, a as int, i, n1);
            } else {
                lemma_seen_covered(states, seen, out, through, cx, s, b as int, i, n1);
            }
        },
        Trans::Jump { next } => {
            assert(moves[0] == next);
            lemma_seen_covered(states, seen, out, through, cx, s, next as int, i, n1);
        },
        Trans::DotGuard { next } => {
            if through {
                assert(moves[0] == next);
                lemma_seen_covered(states, seen, out, through, cx, s, next as int, i, n1);
            } else {
                assert(bits::member(out, p));
            }
        },
        _ => {
            assert(bits::member(out, p));
        },
    }
}

/// What has been done of a seen state once the walk is over.
spec fn seen_done(
    states: Seq<Trans>,
    seen: Seq<u64>,
    out: Seq<u64>,
    through: bool,
    q: int,
) -> bool {
    let moves = free_moves(states[q], through);
    &&& moves.len() == 0 ==> bits::member(out, q)
    &&& forall|k: int| 0 <= k < moves.len() ==> bits::member(seen, #[trigger] moves[k] as int)
}

/// [`seen_done`] while some states are still on the stack.
spec fn seen_ok(
    states: Seq<Trans>,
    seen: Seq<u64>,
    stack: Seq<StateId>,
    out: Seq<u64>,
    through: bool,
    q: int,
) -> bool {
    let moves = free_moves(states[q], through);
    &&& moves.len() == 0 ==> bits::member(out, q)
    &&& forall|k: int|
        0 <= k < moves.len() ==> bits::member(seen, #[trigger] moves[k] as int) || stack.contains(
            moves[k],
        )
}

/// The set of states that `root` stands for once free moves are followed.
fn expand(states: &Vec<Trans>, root: StateId, through: bool, n_words: usize) -> (out: Vec<u64>)
    requires
        root < states@.len(),
        nfa::targets_ok(states@),
        n_words == bits::words_for(states@.len() as int),
    ensures
        out@.len() == n_words,
        stands_for(states@, root as int, out@, through),
{
    let mut out: Vec<u64> = bits::empty(n_words);
    let mut seen: Vec<u64> = bits::empty(n_words);
    let mut stack: Vec<StateId> = vec![root];
    proof {
        assert(stack@[0] == root);
        assert(stack@.contains(root));
        bits::lemma_missing_bounds(seen@, states@.len() as int);
        assert forall|cx: Cx, s: Seq<u8>, i: int| #[trigger]
            lead_at(states@, root as int, root as int, through, cx, s, i) by {}
    }
    while stack.len() > 0
        invariant
            root < states@.len(),
            nfa::targets_ok(states@),
            n_words == bits::words_for(states@.len() as int),
            out@.len() == n_words,
            seen@.len() == n_words,
            bits::member(seen@, root as int) || stack@.contains(root),
            forall|t: int| 0 <= t < stack@.len() ==> #[trigger] stack@[t] < states@.len(),
            forall|t: int|
                0 <= t < stack@.len() ==> leads(
                    states@,
                    root as int,
                    #[trigger] stack@[t] as int,
                    through,
                ),
            forall|q: int| #[trigger]
                bits::member(seen@, q) ==> 0 <= q < states@.len() && seen_ok(
                    states@,
                    seen@,
                    stack@,
                    out@,
                    through,
                    q,
                ),
            all_settled(states@, out@, through),
            forall|p: int| #[trigger]
                bits::member(out@, p) ==> leads(states@, root as int, p, through),
        decreases bits::missing(seen@, states@.len() as int), stack@.len(),
    {
        let ghost stack0 = stack@;
        let ghost seen0 = seen@;
        let ghost out0 = out@;
        let p: StateId = stack.pop().unwrap();
        assert(p == stack0[stack0.len() - 1]);
        assert(p < states@.len());
        assert(leads(states@, root as int, p as int, through));
        if bits::contains(&seen, p) {
            proof {
                lemma_stack_pop(states@, seen@, stack0, out@, through, p);
                lemma_contains_pop(stack0, root, p);
            }
            continue;
        }
        assert(p as int / 64 < n_words);
        bits::insert(&mut seen, p);
        proof {
            bits::lemma_missing_bounds(seen@, states@.len() as int);
            bits::lemma_missing_insert(seen0, seen@, p as int, states@.len() as int);
            assert(nfa::target_ok(states@[p as int], states@.len() as int));
        }
        let ghost moves = free_moves(states@[p as int], through);
        match &states[p] {
            Trans::Split { a, b } => {
                proof {
                    assert(moves[0] == a && moves[1] == b);
                    lemma_leads_child(states@, root as int, p as int, 0, through);
                    lemma_leads_child(states@, root as int, p as int, 1, through);
                }
                stack.push(*a);
                stack.push(*b);
            },
            Trans::Jump { next } => {
                proof {
                    assert(moves[0] == next);
                    lemma_leads_child(states@, root as int, p as int, 0, through);
                }
                stack.push(*next);
            },
            Trans::DotGuard { next } => {
                if through {
                    proof {
                        assert(moves[0] == next);
                        lemma_leads_child(states@, root as int, p as int, 0, through);
                    }
                    stack.push(*next);
                } else {
                    bits::insert(&mut out, p);
                }
            },
            _ => {
                bits::insert(&mut out, p);
            },
        }
        proof {
            let base = stack0.drop_last();
            assert(stack@ =~= base + moves);
            lemma_contains_pop(stack0, root, p);
            assert forall|q: int| #[trigger] bits::member(seen@, q) implies 0 <= q < states@.len()
                && seen_ok(states@, seen@, stack@, out@, through, q) by {
                let qm = free_moves(states@[q], through);
                assert forall|k: int| 0 <= k < qm.len() implies bits::member(
                    seen@,
                    #[trigger] qm[k] as int,
                ) || stack@.contains(qm[k]) by {
                    if q == p {
                        assert(stack@[base.len() + k] == qm[k]);
                    } else {
                        assert(bits::member(seen0, q));
                        assert(seen_ok(states@, seen0, stack0, out0, through, q));
                        assert(bits::member(seen0, qm[k] as int) || stack0.contains(qm[k]));
                        if stack0.contains(qm[k]) && qm[k] != p {
                            lemma_contains_pop(stack0, qm[k], p);
                            let t = choose|t: int| 0 <= t < base.len() && base[t] == qm[k];
                            assert(stack@[t] == qm[k]);
                        }
                    }
                }
            }
            if bits::member(seen0, root as int) {
            } else if root != p {
                let t = choose|t: int| 0 <= t < base.len() && base[t] == root;
                assert(stack@[t] == root);
            }
            assert forall|t: int| 0 <= t < stack@.len() implies #[trigger] stack@[t] < states@.len()
                && leads(states@, root as int, stack@[t] as int, through) by {
                if t < base.len() {
                    assert(stack@[t] == stack0[t]);
                } else {
                    assert(stack@[t] == moves[t - base.len()]);
                }
            }
        }
    }
    proof {
        assert(!stack@.contains(root));
        assert forall|q: int| #[trigger] bits::member(seen@, q) implies 0 <= q < states@.len()
            && seen_done(states@, seen@, out@, through, q) by {
            assert(seen_ok(states@, seen@, stack@, out@, through, q));
            let moves = free_moves(states@[q], through);
            assert forall|k: int| 0 <= k < moves.len() implies bits::member(
                seen@,
                #[trigger] moves[k] as int,
            ) by {
                assert(!stack@.contains(moves[k]));
            }
        }
        assert forall|cx: Cx, s: Seq<u8>, i: int| #[trigger]
            stands_at(states@, root as int, out@, through, cx, s, i) by {
            if through ==> !lang::hidden(cx, s, i) {
                if nfa::accepts(states@, cx, s, root as int, i) {
                    let n = choose|n: nat| #[trigger]
                        nfa::accepts_within(states@, cx, s, root as int, i, n);
                    lemma_seen_covered(
                        states@,
                        seen@,
                        out@,
                        through,
                        cx,
                        s,
                        root as int,
                        i,
                        n,
                    );
                }
                if some_accepts(states@, out@, cx, s, i) {
                    let p = choose|p: int| #[trigger]
                        bits::member(out@, p) && nfa::accepts(states@, cx, s, p, i);
                    assert(lead_at(states@, root as int, p, through, cx, s, i));
                }
            }
        }
    }
    out
}

/// A member of a stack is its top or below it.
proof fn lemma_contains_pop(stack: Seq<StateId>, x: StateId, top: StateId)
    requires
        stack.len() > 0,
        top == stack[stack.len() - 1],
    ensures
        stack.contains(x) ==> x == top || stack.drop_last().contains(x),
{
    if stack.contains(x) {
        let t = choose|t: int| 0 <= t < stack.len() && stack[t] == x;
        if t < stack.len() - 1 {
            assert(stack.drop_last()[t] == x);
        }
    }
}

proof fn lemma_stack_pop(
    states: Seq<Trans>,
    seen: Seq<u64>,
    stack: Seq<StateId>,
    out: Seq<u64>,
    through: bool,
    top: StateId,
)
    requires
        stack.len() > 0,
        top == stack[stack.len() - 1],
        bits::member(seen, top as int),
        forall|q: int| #[trigger]
            bits::member(seen, q) ==> 0 <= q < states.len() && seen_ok(
                states,
                seen,
                stack,
                out,
                through,
                q,
            ),
    ensures
        forall|q: int| #[trigger]
            bits::member(seen, q) ==> 0 <= q < states.len() && seen_ok(
                states,
                seen,
                stack.drop_last(),
                out,
                through,
                q,
            ),
{
    assert forall|q: int| #[trigger] bits::member(seen, q) implies 0 <= q < states.len()
        && seen_ok(states, seen, stack.drop_last(), out, through, q) by {
        assert(seen_ok(states, seen, stack, out, through, q));
        let moves = free_moves(states[q], through);
        assert forall|k: int| 0 <= k < moves.len() implies bits::member(
            seen,
            #[trigger] moves[k] as int,
        ) || stack.drop_last().contains(moves[k]) by {
            lemma_contains_pop(stack, moves[k], top);
        }
    }
}


/// State `q` accepts some continuation in which no dot is hidden.
pub open spec fn can_finish(states: Seq<Trans>, seps: Seps, q: int) -> bool {
    exists|t: Seq<u8>| #[trigger] finishes(states, seps, q, t)
}

/// State `q` accepts `t`, with no dot hidden.
pub open spec fn finishes(states: Seq<Trans>, seps: Seps, q: int, t: Seq<u8>) -> bool {
    nfa::accepts(states, open_cx(seps), t, q, 0)
}

/// A context in which no dot is hidden.
pub open spec fn open_cx(seps: Seps) -> Cx {
    Cx { seps, ci: false, lim: 0 }
}

/// Beyond the protected bytes only the bytes still to come matter.
proof fn lemma_shift_within(
    states: Seq<Trans>,
    cx: Cx,
    pre: Seq<u8>,
    t: Seq<u8>,
    q: int,
    i: int,
    n: nat,
)
    requires
        cx.lim <= pre.len(),
        0 <= i <= t.len(),
    ensures
        nfa::accepts_within(states, cx, pre + t, q, pre.len() + i, n) <==> nfa::accepts_within(
            states,
            open_cx(cx.seps),
            t,
            q,
            i,
            n,
        ),
    decreases n,
{
    let s = pre + t;
    let o = open_cx(cx.seps);
    let at = pre.len() + i;
    assert(!lang::hidden(cx, s, at));
    assert(!lang::hidden(o, t, i));
    if n > 0 && 0 <= q < states.len() {
        let n1 = (n - 1) as nat;
        match states[q] {
            Trans::Match => {},
            Trans::Split { a, b } => {
                lemma_shift_within(states, cx, pre, t, a as int, i, n1);
                lemma_shift_within(states, cx, pre, t, b as int, i, n1);
            },
            Trans::Jump { next } => {
                lemma_shift_within(states, cx, pre, t, next as int, i, n1);
            },
            Trans::DotGuard { next } => {
                lemma_shift_within(states, cx, pre, t, next as int, i, n1);
            },
            _ => {
                if i < t.len() {
                    assert(s[at] == t[i]);
                    match nfa::consume(states[q], cx.seps, s[at], false) {
                        Some(next) => {
                            lemma_shift_within(states, cx, pre, t, next as int, i + 1, n1);
                            assert(pre.len() + (i + 1) == at + 1);
                        },
                        None => {},
                    }
                }
            },
        }
    }
}

proof fn lemma_shift(states: Seq<Trans>, cx: Cx, pre: Seq<u8>, t: Seq<u8>, q: int)
    requires
        cx.lim <= pre.len(),
    ensures
        nfa::accepts(states, cx, pre + t, q, pre.len() as int) <==> finishes(
            states,
            cx.seps,
            q,
            t,
        ),
{
    let s = pre + t;
    let o = open_cx(cx.seps);
    if nfa::accepts(states, cx, s, q, pre.len() as int) {
        let n = choose|n: nat| #[trigger]
            nfa::accepts_within(states, cx, s, q, pre.len() as int, n);
        lemma_shift_within(states, cx, pre, t, q, 0, n);
        assert(nfa::accepts_within(states, o, t, q, 0, n));
    }
    if nfa::accepts(states, o, t, q, 0) {
        let n = choose|n: nat| #[trigger] nfa::accepts_within(states, o, t, q, 0, n);
        lemma_shift_within(states, cx, pre, t, q, 0, n);
        assert(nfa::accepts_within(states, cx, s, q, pre.len() as int, n));
    }
}

/// `t` consumes some byte.
pub open spec fn fires(t: Trans, seps: Seps) -> bool {
    exists|c: u8| #[trigger] nfa::consume(t, seps, c, false) is Some
}

/// `q` finishes, given which states are known to.
spec fn finishes_by(states: Seq<Trans>, seps: Seps, known: Seq<u64>, q: int) -> bool {
    match states[q] {
        Trans::Match => true,
        Trans::Split { a, b } => bits::member(known, a as int) || bits::member(known, b as int),
        Trans::Jump { next } => bits::member(known, next as int),
        Trans::DotGuard { next } => bits::member(known, next as int),
        Trans::Byte { next, .. } => bits::member(known, next as int),
        Trans::Class { next, .. } => fires(states[q], seps) && bits::member(known, next as int),
        Trans::AnyNonSep { next } => bits::member(known, next as int),
        Trans::AnyByte { next } => bits::member(known, next as int),
        Trans::Sep { next } => bits::member(known, next as int),
    }
}

/// A state that consumes `c` on the way to one that finishes, finishes.
proof fn lemma_finish_consume(states: Seq<Trans>, seps: Seps, q: int, c: u8)
    requires
        0 <= q < states.len(),
        nfa::consume(states[q], seps, c, false) is Some,
        can_finish(states, seps, nfa::consume(states[q], seps, c, false)->0 as int),
    ensures
        can_finish(states, seps, q),
{
    let next = nfa::consume(states[q], seps, c, false)->0 as int;
    let t = choose|t: Seq<u8>| #[trigger] finishes(states, seps, next, t);
    let pre = seq![c];
    let s = pre + t;
    lemma_shift(states, open_cx(seps), pre, t, next);
    nfa::lemma_unfold(states, open_cx(seps), s, q, 0);
    assert(s[0] == c);
    assert(finishes(states, seps, q, s));
}

proof fn lemma_finish_step(states: Seq<Trans>, seps: Seps, known: Seq<u64>, q: int)
    requires
        0 <= q < states.len(),
        forall|p: int| #[trigger] bits::member(known, p) ==> can_finish(states, seps, p),
        finishes_by(states, seps, known, q),
    ensures
        can_finish(states, seps, q),
{
    let o = open_cx(seps);
    match states[q] {
        Trans::Match => {
            nfa::lemma_unfold(states, o, Seq::<u8>::empty(), q, 0);
            assert(finishes(states, seps, q, Seq::<u8>::empty()));
        },
        Trans::Split { a, b } => {
            let next = if bits::member(known, a as int) { a as int } else { b as int };
            let t = choose|t: Seq<u8>| #[trigger] finishes(states, seps, next, t);
            nfa::lemma_unfold(states, o, t, q, 0);
            nfa::lemma_unfold(states, o, t, next, 0);
            assert(finishes(states, seps, q, t));
        },
        Trans::Jump { next } => {
            let t = choose|t: Seq<u8>| #[trigger] finishes(states, seps, next as int, t);
            nfa::lemma_unfold(states, o, t, q, 0);
            assert(finishes(states, seps, q, t));
        },
        Trans::DotGuard { next } => {
            let t = choose|t: Seq<u8>| #[trigger] finishes(states, seps, next as int, t);
            nfa::lemma_unfold(states, o, t, q, 0);
            assert(finishes(states, seps, q, t));
        },
        Trans::Byte { b, next } => {
            lemma_finish_consume(states, seps, q, b);
        },
        Trans::Class { class, next } => {
            let c = choose|c: u8| #[trigger] nfa::consume(states[q], seps, c, false) is Some;
            lemma_finish_consume(states, seps, q, c);
        },
        Trans::AnyNonSep { next } => {
            lemma_finish_consume(states, seps, q, 0x61);
        },
        Trans::AnyByte { next } => {
            lemma_finish_consume(states, seps, q, 0x61);
        },
        Trans::Sep { next } => {
            lemma_finish_consume(states, seps, q, 0x2f);
        },
    }
}

/// Once nothing can be added, every state that finishes is known.
proof fn lemma_finish_complete(
    states: Seq<Trans>,
    seps: Seps,
    known: Seq<u64>,
    t: Seq<u8>,
    q: int,
    i: int,
    n: nat,
)
    requires
        forall|p: int|
            0 <= p < states.len() && #[trigger] finishes_by(states, seps, known, p)
                ==> bits::member(known, p),
        nfa::accepts_within(states, open_cx(seps), t, q, i, n),
    ensures
        bits::member(known, q),
    decreases n,
{
    let n1 = (n - 1) as nat;
    match states[q] {
        Trans::Match => {},
        Trans::Split { a, b } => {
            if nfa::accepts_within(states, open_cx(seps), t, a as int, i, n1) {
                lemma_finish_complete(states, seps, known, t, a as int, i, n1);
            } else {
                lemma_finish_complete(states, seps, known, t, b as int, i, n1);
            }
        },
        Trans::Jump { next } => {
            lemma_finish_complete(states, seps, known, t, next as int, i, n1);
        },
        Trans::DotGuard { next } => {
            lemma_finish_complete(states, seps, known, t, next as int, i, n1);
        },
        _ => {
            let next = nfa::consume(states[q], seps, t[i], false)->0;
            lemma_finish_complete(states, seps, known, t, next as int, i + 1, n1);
            assert(fires(states[q], seps));
        },
    }
    assert(finishes_by(states, seps, known, q));
}

/// Whether a class accepts any byte.
fn class_fires(class: &crate::ast::CharClass, seps: Seps) -> (r: bool)
    ensures
        r == exists|c: u8| #[trigger] crate::ast::class_has(class@, seps, c),
{
    let mut c: u8 = 0;
    loop
        invariant_except_break
            forall|d: u8| d < c ==> !#[trigger] crate::ast::class_has(class@, seps, d),
        ensures
            forall|d: u8| !#[trigger] crate::ast::class_has(class@, seps, d),
        decreases 255 - c,
    {
        if class.matches_with(seps, c) {
            return true;
        }
        if c == 255 {
            break;
        }
        c = c + 1;
    }
    false
}

/// The states that accept some continuation in which no dot is hidden.
fn reach_to_accept(states: &Vec<Trans>, seps: Seps, n_words: usize) -> (r: Vec<u64>)
    requires
        nfa::targets_ok(states@),
        n_words == bits::words_for(states@.len() as int),
    ensures
        r@.len() == n_words,
        forall|q: int|
            0 <= q < states@.len() ==> (#[trigger] bits::member(r@, q) <==> can_finish(
                states@,
                seps,
                q,
            )),
{
    let n: usize = states.len();
    let mut known: Vec<u64> = bits::empty(n_words);
    let mut changed: bool = true;
    while changed
        invariant
            n == states@.len(),
            nfa::targets_ok(states@),
            n_words == bits::words_for(n as int),
            known@.len() == n_words,
            forall|p: int| #[trigger]
                bits::member(known@, p) ==> 0 <= p < n && can_finish(states@, seps, p),
            !changed ==> forall|p: int|
                0 <= p < n && #[trigger] finishes_by(states@, seps, known@, p) ==> bits::member(
                    known@,
                    p,
                ),
        decreases bits::missing(known@, n as int), if changed { 1int } else { 0int },
    {
        changed = false;
        let ghost start = known@;
        proof {
            bits::lemma_missing_bounds(start, n as int);
        }
        let mut q: usize = n;
        while q > 0
            invariant
                q <= n,
                n == states@.len(),
                nfa::targets_ok(states@),
                n_words == bits::words_for(n as int),
                known@.len() == n_words,
                forall|p: int| #[trigger]
                    bits::member(known@, p) ==> 0 <= p < n && can_finish(states@, seps, p),
                !changed ==> known@ == start,
                changed ==> bits::missing(known@, n as int) < bits::missing(start, n as int),
                !changed ==> forall|p: int|
                    q <= p < n && #[trigger] finishes_by(states@, seps, known@, p)
                        ==> bits::member(known@, p),
            decreases q,
        {
            q = q - 1;
            if !bits::contains(&known, q) {
                let hit: bool = finish_hit(states, seps, &known, q);
                if hit {
                    let ghost before = known@;
                    assert(q as int / 64 < n_words);
                    bits::insert(&mut known, q);
                    proof {
                        lemma_finish_step(states@, seps, before, q as int);
                        bits::lemma_missing_insert(before, known@, q as int, n as int);
                        bits::lemma_missing_bounds(known@, n as int);
                    }
                    changed = true;
                }
            }
        }
        proof {
            bits::lemma_missing_bounds(known@, n as int);
        }
    }
    proof {
        assert forall|q: int| 0 <= q < n && can_finish(states@, seps, q) implies #[trigger]
            bits::member(known@, q) by {
            let t = choose|t: Seq<u8>| #[trigger] finishes(states@, seps, q, t);
            let k = choose|k: nat| #[trigger]
                nfa::accepts_within(states@, open_cx(seps), t, q, 0, k);
            lemma_finish_complete(states@, seps, known@, t, q, 0, k);
        }
    }
    known
}

fn finish_hit(states: &Vec<Trans>, seps: Seps, known: &Vec<u64>, q: usize) -> (r: bool)
    requires
        q < states@.len(),
        nfa::targets_ok(states@),
    ensures
        r == finishes_by(states@, seps, known@, q as int),
{
    match &states[q] {
        Trans::Match => true,
        Trans::Split { a, b } => bits::contains(known, *a) || bits::contains(known, *b),
        Trans::Jump { next } => bits::contains(known, *next),
        Trans::DotGuard { next } => bits::contains(known, *next),
        Trans::Byte { next, .. } => bits::contains(known, *next),
        Trans::Class { class, next } => {
            let open: bool = class_fires(class, seps);
            proof {
                let t = states@[q as int];
                if open {
                    let c = choose|c: u8| #[trigger] crate::ast::class_has(class@, seps, c);
                    assert(nfa::consume(t, seps, c, false) is Some);
                }
                if fires(t, seps) {
                    let c = choose|c: u8| #[trigger] nfa::consume(t, seps, c, false) is Some;
                    assert(crate::ast::class_has(class@, seps, c));
                }
            }
            open && bits::contains(known, *next)
        },
        Trans::AnyNonSep { next } => bits::contains(known, *next),
        Trans::AnyByte { next } => bits::contains(known, *next),
        Trans::Sep { next } => bits::contains(known, *next),
    }
}


/// A dot guard with the set of states it releases when it lets a thread pass.
#[derive(Clone)]
struct Guard {
    state: StateId,
    released: Vec<u64>,
}

/// An automaton ready to run.
#[derive(Clone)]
pub struct Machine {
    states: Vec<Trans>,
    n_words: usize,
    /// For each state, the states it stands for once free moves are followed.
    closures: Vec<Vec<u64>>,
    /// What the initial state stands for.
    init_bits: Vec<u64>,
    /// The states that accept at the end of the path.
    accept_bits: Vec<u64>,
    /// The states that accept some continuation.
    reach_bits: Vec<u64>,
    guards: Vec<Guard>,
    seps: Seps,
    dot: bool,
    initial: StateId,
    accept: StateId,
    ops: Ghost<Seq<SpecOp>>,
    bd: Ghost<Build>,
}

/// Extends: `s` starts with `pre`.
pub open spec fn starts_with(s: Seq<u8>, pre: Seq<u8>) -> bool {
    pre.len() <= s.len() && s.take(pre.len() as int) == pre
}

impl Machine {
    /// The program that the machine was made of.
    pub closed spec fn spec_ops(self) -> Seq<SpecOp> {
        self.ops@
    }

    pub closed spec fn spec_seps(self) -> Seps {
        self.seps
    }

    pub closed spec fn spec_dot(self) -> bool {
        self.dot
    }

    pub closed spec fn spec_ci(self) -> bool {
        self.bd@.ci
    }

    /// Whether guards were compiled in.
    pub closed spec fn spec_guards(self) -> bool {
        self.bd@.guards
    }

    /// The machine has no states but those of its program.
    pub closed spec fn lean(self) -> bool {
        self.states@.len() == fragment::ops_size(self.ops@, self.bd@) + 1
    }

    /// How the first `n` bytes of a path are matched: dots are hidden there
    /// unless the machine lets wildcards take them.
    pub open spec fn cx(self, n: int) -> Cx {
        lang::cx(self.spec_seps(), self.spec_ci(), self.spec_dot(), n)
    }

    pub closed spec fn wf(self) -> bool {
        &&& thompson::compiled(self.states@, self.initial, self.accept, self.ops@, self.bd@)
        &&& !self.bd@.guards ==> self.dot
        &&& self.n_words == bits::words_for(self.states@.len() as int)
        &&& self.closures@.len() == self.states@.len()
        &&& forall|q: int| 0 <= q < self.states@.len() ==> self.closure_ok(q)
        &&& self.init_bits@.len() == self.n_words
        &&& stands_for(self.states@, self.initial as int, self.init_bits@, false)
        &&& self.accept_bits@.len() == self.n_words
        &&& forall|q: int|
            0 <= q < self.states@.len() ==> (#[trigger] bits::member(self.accept_bits@, q)
                <==> end_state(self.states@, q))
        &&& self.reach_bits@.len() == self.n_words
        &&& forall|q: int|
            0 <= q < self.states@.len() ==> (#[trigger] bits::member(self.reach_bits@, q)
                <==> can_finish(self.states@, self.seps, q))
        &&& forall|g: int| 0 <= g < self.guards@.len() ==> self.guard_ok(g)
        &&& forall|q: int|
            0 <= q < self.states@.len() && #[trigger] self.states@[q] is DotGuard
                ==> guard_listed(self.guards@, q)
    }

    spec fn closure_ok(self, q: int) -> bool {
        self.closures@[q]@.len() == self.n_words && stands_for(
            self.states@,
            q,
            self.closures@[q]@,
            false,
        )
    }

    spec fn guard_ok(self, g: int) -> bool {
        let guard = self.guards@[g];
        &&& guard.state < self.states@.len()
        &&& self.states@[guard.state as int] is DotGuard
        &&& guard.released@.len() == self.n_words
        &&& stands_for(self.states@, guard.state as int, guard.released@, true)
    }

    /// The states of `cur` accept from position `i` on exactly the paths that
    /// the machine accepts, among those that start with `pre`.
    spec fn tracks(self, cur: Seq<u64>, pre: Seq<u8>, lim: int) -> bool {
        forall|s: Seq<u8>| #[trigger]
            starts_with(s, pre) ==> (some_accepts(
                self.states@,
                cur,
                self.cx(lim),
                s,
                pre.len() as int,
            ) <==> nfa::accepts(self.states@, self.cx(lim), s, self.initial as int, 0))
    }
}


/// At the end of a path a settled state that is no guard accepts exactly if it
/// is the accept state.
proof fn lemma_settled_end(states: Seq<Trans>, cx: Cx, s: Seq<u8>, q: int)
    requires
        0 <= q < states.len(),
        settled(states[q]),
        !(states[q] is DotGuard),
    ensures
        nfa::accepts(states, cx, s, q, s.len() as int) <==> states[q] is Match,
{
    nfa::lemma_unfold(states, cx, s, q, s.len() as int);
}

/// At the end of a path a guard accepts exactly if it releases the accept
/// state.
proof fn lemma_guard_end(
    states: Seq<Trans>,
    released: Seq<u64>,
    accept: StateId,
    cx: Cx,
    s: Seq<u8>,
    q: int,
)
    requires
        stands_for(states, q, released, true),
        accept < states.len(),
        states[accept as int] is Match,
        forall|p: int| 0 <= p < states.len() && #[trigger] states[p] is Match ==> p == accept,
    ensures
        nfa::accepts(states, cx, s, q, s.len() as int) <==> bits::member(released, accept as int),
{
    let end = s.len() as int;
    assert(!lang::hidden(cx, s, end));
    assert(stands_at(states, q, released, true, cx, s, end));
    if some_accepts(states, released, cx, s, end) {
        let p = choose|p: int| #[trigger]
            bits::member(released, p) && nfa::accepts(states, cx, s, p, end);
        lemma_settled_end(states, cx, s, p);
    }
    if bits::member(released, accept as int) {
        lemma_settled_end(states, cx, s, accept as int);
        assert(some_accepts(states, released, cx, s, end));
    }
}

impl Machine {
    /// Compiles `ops` into a machine. `guards` must be set unless wildcards
    /// may take every dot.
    pub fn new(
        ops: &Vec<Op>,
        case_insensitive: bool,
        guards: bool,
        dot: bool,
        seps: Seps,
    ) -> (r: Self)
        requires
            ir::solid(ir::ops_view(ops@)),
            guards || dot,
        ensures
            r.wf(),
            r.spec_ops() == ir::ops_view(ops@),
            r.spec_seps() == seps,
            r.spec_dot() == dot,
            r.spec_ci() == case_insensitive,
            r.spec_guards() == guards,
            r.lean(),
    {
        let thompson = Thompson::compile(ops, case_insensitive, guards);
        Machine::of(
            thompson,
            dot,
            seps,
            Ghost(ir::ops_view(ops@)),
            Ghost(Build { ci: case_insensitive, guards }),
        )
    }

    /// [`Machine::new`] with guards, or `None` where the automaton has more
    /// than `limit` states.
    pub fn with_limit(
        ops: &Vec<Op>,
        case_insensitive: bool,
        dot: bool,
        seps: Seps,
        limit: usize,
    ) -> (r: Option<Self>)
        requires
            ir::solid(ir::ops_view(ops@)),
        ensures
            r is Some <==> fragment::ops_size(
                ir::ops_view(ops@),
                Build { ci: case_insensitive, guards: true },
            ) + 1 <= limit,
            r is Some ==> {
                &&& r->0.wf()
                &&& r->0.spec_ops() == ir::ops_view(ops@)
                &&& r->0.spec_seps() == seps
                &&& r->0.spec_dot() == dot
                &&& r->0.spec_ci() == case_insensitive
            },
    {
        let thompson = Thompson::compile(ops, case_insensitive, true);
        if thompson.states.len() > limit {
            return None;
        }
        Some(
            Machine::of(
                thompson,
                dot,
                seps,
                Ghost(ir::ops_view(ops@)),
                Ghost(Build { ci: case_insensitive, guards: true }),
            ),
        )
    }

    fn of(
        thompson: Thompson,
        dot: bool,
        seps: Seps,
        Ghost(views): Ghost<Seq<SpecOp>>,
        Ghost(bd): Ghost<Build>,
    ) -> (r: Self)
        requires
            thompson::compiled(
                thompson.states@,
                thompson.initial,
                thompson.accept,
                views,
                bd,
            ),
            bd.guards || dot,
        ensures
            r.wf(),
            r.spec_ops() == views,
            r.spec_seps() == seps,
            r.spec_dot() == dot,
            r.spec_ci() == bd.ci,
            r.bd@ == bd,
            r.states@ == thompson.states@,
    {
        let states: Vec<Trans> = thompson.states;
        let initial: StateId = thompson.initial;
        let accept: StateId = thompson.accept;
        let n: usize = states.len();
        let n_words: usize = bits::word_count(n);
        let mut closures: Vec<Vec<u64>> = Vec::new();
        let mut guards_out: Vec<Guard> = Vec::new();
        let mut accept_bits: Vec<u64> = bits::empty(n_words);
        let mut q: usize = 0;
        while q < n
            invariant
                q <= n,
                n == states@.len(),
                n_words == bits::words_for(n as int),
                thompson::compiled(states@, initial, accept, views, bd),
                closures@.len() == q,
                forall|p: int|
                    0 <= p < q ==> (#[trigger] closures@[p])@.len() == n_words && stands_for(
                        states@,
                        p,
                        closures@[p]@,
                        false,
                    ),
                accept_bits@.len() == n_words,
                forall|p: int|
                    q <= p < n ==> !#[trigger] bits::member(accept_bits@, p),
                forall|p: int|
                    0 <= p < q ==> (#[trigger] bits::member(accept_bits@, p) <==> end_state(
                        states@,
                        p,
                    )),
                forall|g: int|
                    0 <= g < guards_out@.len() ==> guard_entry(
                        states@,
                        #[trigger] guards_out@[g],
                        n_words,
                    ),
                forall|p: int|
                    0 <= p < q && #[trigger] states@[p] is DotGuard ==> guard_listed(
                        guards_out@,
                        p,
                    ),
            decreases n - q,
        {
            let closure: Vec<u64> = expand(&states, q, false, n_words);
            let through: Vec<u64> = expand(&states, q, true, n_words);
            let ghost bits0 = accept_bits@;
            let ends: bool = bits::contains(&through, accept);
            proof {
                assert forall|cx: Cx, s: Seq<u8>| #[trigger]
                    nfa::accepts(states@, cx, s, q as int, s.len() as int) <==> ends by {
                    lemma_guard_end(states@, through@, accept, cx, s, q as int);
                }
                lemma_end_state(states@, q as int, ends);
            }
            if ends {
                assert(q as int / 64 < n_words);
                bits::insert(&mut accept_bits, q);
            }
            closures.push(closure);
            let is_guard: bool = matches!(&states[q], Trans::DotGuard { .. });
            if is_guard {
                let ghost old_guards = guards_out@;
                guards_out.push(Guard { state: q, released: through });
                proof {
                    assert(guards_out@[old_guards.len() as int].state == q);
                    assert forall|p: int|
                        0 <= p < q + 1 && #[trigger] states@[p] is DotGuard implies guard_listed(
                        guards_out@,
                        p,
                    ) by {
                        if p < q {
                            let g = choose|g: int|
                                0 <= g < old_guards.len() && (#[trigger] old_guards[g]).state == p;
                            assert(guards_out@[g].state == p);
                        }
                    }
                }
            }
            q = q + 1;
        }
        let init_bits: Vec<u64> = closures[initial].clone();
        assert(init_bits@ =~= closures@[initial as int]@);
        let reach_bits: Vec<u64> = reach_to_accept(&states, seps, n_words);
        let r = Machine {
            states,
            n_words,
            closures,
            init_bits,
            accept_bits,
            reach_bits,
            guards: guards_out,
            seps,
            dot,
            initial,
            accept,
            ops: Ghost(views),
            bd: Ghost(bd),
        };
        proof {
            assert forall|p: int| 0 <= p < r.states@.len() implies r.closure_ok(p) by {
                assert(r.closures@[p]@.len() == n_words);
            }
            assert forall|g: int| 0 <= g < r.guards@.len() implies r.guard_ok(g) by {
                assert(guard_entry(r.states@, r.guards@[g], n_words));
            }
        }
        r
    }
}

/// State `q` accepts at the end of every path.
spec fn end_state(states: Seq<Trans>, q: int) -> bool {
    forall|cx: Cx, s: Seq<u8>| #[trigger] nfa::accepts(states, cx, s, q, s.len() as int)
}

proof fn lemma_end_state(states: Seq<Trans>, q: int, ends: bool)
    requires
        forall|cx: Cx, s: Seq<u8>| #[trigger]
            nfa::accepts(states, cx, s, q, s.len() as int) <==> ends,
    ensures
        end_state(states, q) <==> ends,
{
    let cx = open_cx(Seps { backslash: false });
    let s = Seq::<u8>::empty();
    assert(nfa::accepts(states, cx, s, q, s.len() as int) <==> ends);
}

/// Some guard of the list stands at `q`.
spec fn guard_listed(guards: Seq<Guard>, q: int) -> bool {
    exists|g: int| 0 <= g < guards.len() && (#[trigger] guards[g]).state == q
}

spec fn guard_entry(states: Seq<Trans>, guard: Guard, n_words: usize) -> bool {
    &&& guard.state < states.len()
    &&& states[guard.state as int] is DotGuard
    &&& guard.released@.len() == n_words
    &&& stands_for(states, guard.state as int, guard.released@, true)
}


/// Applies the byte test of one state. `dot` says that `c` is a hidden dot.
#[inline]
fn byte_step(t: &Trans, seps: Seps, c: u8, dot: bool) -> (r: Option<StateId>)
    ensures
        r == nfa::consume(*t, seps, c, dot),
{
    match t {
        Trans::Byte { b, next } => if *b == c { Some(*next) } else { None },
        Trans::Class { class, next } => if class.matches_with(seps, c) && !(class.negated && dot) {
            Some(*next)
        } else {
            None
        },
        Trans::AnyNonSep { next } => if !seps.is_sep(c) && !dot { Some(*next) } else { None },
        Trans::AnyByte { next } => if !dot { Some(*next) } else { None },
        Trans::Sep { next } => if seps.is_sep(c) { Some(*next) } else { None },
        _ => None,
    }
}

impl Machine {
    /// State `p` is in the set that consuming `c` in state `q` leads to.
    spec fn leads_over(self, q: int, c: u8, dot: bool, p: int) -> bool {
        0 <= q < self.states@.len() && match nfa::consume(self.states@[q], self.seps, c, dot) {
            Some(next) => bits::member(self.closures@[next as int]@, p),
            None => false,
        }
    }

    /// Adds what the guards in `cur` release.
    fn release(&self, cur: &mut Vec<u64>)
        requires
            self.wf(),
            old(cur)@.len() == self.n_words,
            all_settled(self.states@, old(cur)@, false),
        ensures
            final(cur)@.len() == self.n_words,
            all_settled(self.states@, final(cur)@, false),
            forall|p: int| #[trigger]
                bits::member(final(cur)@, p) <==> (bits::member(old(cur)@, p) || exists|g: int|
                    0 <= g < self.guards@.len() && bits::member(
                        old(cur)@,
                        (#[trigger] self.guards@[g]).state as int,
                    ) && bits::member(self.guards@[g].released@, p)),
    {
        let ghost before = cur@;
        let mut g: usize = 0;
        while g < self.guards.len()
            invariant
                g <= self.guards@.len(),
                self.wf(),
                cur@.len() == self.n_words,
                all_settled(self.states@, before, false),
                forall|p: int| #[trigger]
                    bits::member(cur@, p) <==> (bits::member(before, p) || exists|h: int|
                        0 <= h < g && bits::member(
                            before,
                            (#[trigger] self.guards@[h]).state as int,
                        ) && bits::member(self.guards@[h].released@, p)),
            decreases self.guards@.len() - g,
        {
            let ghost cur0 = cur@;
            assert(self.guard_ok(g as int));
            let state: StateId = self.guards[g].state;
            proof {
                // What guards release holds no guard, so it cannot set one off.
                if bits::member(cur0, state as int) && !bits::member(before, state as int) {
                    let h = choose|h: int|
                        0 <= h < g && bits::member(
                            before,
                            (#[trigger] self.guards@[h]).state as int,
                        ) && bits::member(self.guards@[h].released@, state as int);
                    assert(self.guard_ok(h));
                }
            }
            if bits::contains(cur, state) {
                bits::union_into(cur, &self.guards[g].released);
            }
            proof {
                assert forall|p: int| #[trigger] bits::member(cur@, p) <==> (bits::member(before, p)
                    || exists|h: int|
                    0 <= h < g + 1 && bits::member(
                        before,
                        (#[trigger] self.guards@[h]).state as int,
                    ) && bits::member(self.guards@[h].released@, p)) by {
                    assert(bits::member(cur0, p) <==> (bits::member(before, p) || exists|h: int|
                        0 <= h < g && bits::member(
                            before,
                            (#[trigger] self.guards@[h]).state as int,
                        ) && bits::member(self.guards@[h].released@, p)));
                    if bits::member(before, state as int) {
                        assert(bits::member(cur0, state as int));
                        assert(self.guards@[g as int].state == state);
                    }
                }
            }
            g = g + 1;
        }
        proof {
            assert forall|p: int| #[trigger] bits::member(cur@, p) implies 0 <= p
                < self.states@.len() && settled(self.states@[p]) by {
                if !bits::member(before, p) {
                    let h = choose|h: int|
                        0 <= h < self.guards@.len() && bits::member(
                            before,
                            (#[trigger] self.guards@[h]).state as int,
                        ) && bits::member(self.guards@[h].released@, p);
                    assert(self.guard_ok(h));
                }
            }
        }
    }

    /// Where the states of `cur` lead over byte `c`.
    fn sweep(&self, cur: &Vec<u64>, c: u8, dot: bool) -> (next: Vec<u64>)
        requires
            self.wf(),
            cur@.len() == self.n_words,
            all_settled(self.states@, cur@, false),
        ensures
            next@.len() == self.n_words,
            forall|p: int| #[trigger]
                bits::member(next@, p) <==> exists|q: int| #[trigger]
                    bits::member(cur@, q) && self.leads_over(q, c, dot, p),
    {
        let mut next: Vec<u64> = bits::empty(self.n_words);
        let mut w: usize = 0;
        while w < cur.len()
            invariant
                w <= cur@.len(),
                self.wf(),
                cur@.len() == self.n_words,
                all_settled(self.states@, cur@, false),
                next@.len() == self.n_words,
                forall|p: int| #[trigger]
                    bits::member(next@, p) <==> exists|q: int| #[trigger]
                        bits::member(cur@, q) && q / 64 < w && self.leads_over(q, c, dot, p),
            decreases cur@.len() - w,
        {
            let whole: u64 = cur[w];
            let mut word: u64 = whole;
            let ghost next0 = next@;
            while word != 0
                invariant
                    w < cur@.len(),
                    whole == cur@[w as int],
                    self.wf(),
                    cur@.len() == self.n_words,
                    all_settled(self.states@, cur@, false),
                    next@.len() == self.n_words,
                    forall|k: int| #[trigger] bits::bit(word, k) ==> bits::bit(whole, k),
                    forall|p: int| #[trigger]
                        bits::member(next0, p) <==> exists|q: int| #[trigger]
                            bits::member(cur@, q) && q / 64 < w && self.leads_over(q, c, dot, p),
                    forall|p: int| #[trigger]
                        bits::member(next@, p) <==> (bits::member(next0, p) || exists|k: int|
                            bits::bit(whole, k) && !(#[trigger] bits::bit(word, k))
                                && self.leads_over(w * 64 + k, c, dot, p)),
                decreases word,
            {
                let low: u32 = bits::lowest(word);
                let ghost word0 = word;
                let ghost next1 = next@;
                assert(bits::bit(whole, low as int));
                let ghost q = w * 64 + low;
                proof {
                    assert(q / 64 == w && q % 64 == low);
                    assert(bits::member(cur@, q));
                }
                let state: usize = w * 64 + low as usize;
                word = bits::without_lowest(word, low);
                match byte_step(&self.states[state], self.seps, c, dot) {
                    Some(n) => {
                        proof {
                            assert(nfa::target_ok(
                                self.states@[state as int],
                                self.states@.len() as int,
                            ));
                            assert(self.closure_ok(n as int));
                        }
                        bits::union_into(&mut next, &self.closures[n]);
                    },
                    None => {},
                }
                proof {
                    assert forall|p: int| #[trigger] bits::member(next@, p) <==> (bits::member(
                        next0,
                        p,
                    ) || exists|k: int|
                        bits::bit(whole, k) && !(#[trigger] bits::bit(word, k)) && self.leads_over(
                            w * 64 + k,
                            c,
                            dot,
                            p,
                        )) by {
                        assert(bits::member(next@, p) <==> (bits::member(next1, p)
                            || self.leads_over(q, c, dot, p)));
                        assert(bits::member(next1, p) <==> (bits::member(next0, p) || exists|k: int|
                            bits::bit(whole, k) && !(#[trigger] bits::bit(word0, k))
                                && self.leads_over(w * 64 + k, c, dot, p)));
                        if bits::member(next1, p) && !bits::member(next0, p) {
                            let k = choose|k: int|
                                bits::bit(whole, k) && !(#[trigger] bits::bit(word0, k))
                                    && self.leads_over(w * 64 + k, c, dot, p);
                            assert(!bits::bit(word, k));
                        }
                        if self.leads_over(q, c, dot, p) {
                            assert(!bits::bit(word, low as int));
                        }
                        if exists|k: int|
                            bits::bit(whole, k) && !(#[trigger] bits::bit(word, k))
                                && self.leads_over(w * 64 + k, c, dot, p) {
                            let k = choose|k: int|
                                bits::bit(whole, k) && !(#[trigger] bits::bit(word, k))
                                    && self.leads_over(w * 64 + k, c, dot, p);
                            if k != low {
                                assert(!bits::bit(word0, k));
                            }
                        }
                    }
                }
            }
            proof {
                bits::lemma_zero_word(word);
                assert forall|p: int| #[trigger] bits::member(next@, p) <==> exists|q: int|
                    #[trigger]
                    bits::member(cur@, q) && q / 64 < w + 1 && self.leads_over(q, c, dot, p) by {
                    if bits::member(next@, p) {
                        if bits::member(next0, p) {
                            let q = choose|q: int| #[trigger]
                                bits::member(cur@, q) && q / 64 < w && self.leads_over(
                                    q,
                                    c,
                                    dot,
                                    p,
                                );
                            assert(bits::member(cur@, q));
                        } else {
                            let k = choose|k: int|
                                bits::bit(whole, k) && !(#[trigger] bits::bit(word, k))
                                    && self.leads_over(w * 64 + k, c, dot, p);
                            let q = w * 64 + k;
                            assert(q / 64 == w && q % 64 == k);
                            assert(bits::member(cur@, q));
                        }
                    }
                    if exists|q: int| #[trigger]
                        bits::member(cur@, q) && q / 64 < w + 1 && self.leads_over(q, c, dot, p) {
                        let q = choose|q: int| #[trigger]
                            bits::member(cur@, q) && q / 64 < w + 1 && self.leads_over(
                                q,
                                c,
                                dot,
                                p,
                            );
                        if q / 64 == w {
                            let k = q % 64;
                            assert(bits::bit(whole, k));
                            assert(!bits::bit(word, k));
                            assert(w * 64 + k == q);
                        } else {
                            assert(bits::member(next0, p));
                        }
                    }
                }
            }
            w = w + 1;
        }
        proof {
            assert forall|p: int| #[trigger] bits::member(next@, p) <==> exists|q: int| #[trigger]
                bits::member(cur@, q) && self.leads_over(q, c, dot, p) by {
                if exists|q: int| #[trigger]
                    bits::member(cur@, q) && self.leads_over(q, c, dot, p) {
                    let q = choose|q: int| #[trigger]
                        bits::member(cur@, q) && self.leads_over(q, c, dot, p);
                    assert(q / 64 < w);
                }
            }
        }
        next
    }
}


/// `c` would be a hidden dot behind `pre`.
pub open spec fn next_hidden(cx: Cx, pre: Seq<u8>, c: u8) -> bool {
    pre.len() < cx.lim && c == 0x2e && (pre.len() == 0 || cx.seps.has(pre.last()))
}

impl Machine {
    /// The set after byte `c`, in terms of the set before it.
    spec fn stepped(self, cur: Seq<u64>, next: Seq<u64>, c: u8, dot: bool) -> bool {
        forall|p: int| #[trigger]
            bits::member(next, p) <==> exists|q: int| #[trigger]
                bits::member(cur, q) && self.leads_over(q, c, dot, p)
    }

    /// The set with what its guards release.
    spec fn released(self, cur: Seq<u64>, wide: Seq<u64>) -> bool {
        forall|p: int| #[trigger]
            bits::member(wide, p) <==> (bits::member(cur, p) || exists|g: int|
                0 <= g < self.guards@.len() && bits::member(
                    cur,
                    (#[trigger] self.guards@[g]).state as int,
                ) && bits::member(self.guards@[g].released@, p))
    }

    /// One byte on, the stepped set accepts what the set accepted.
    proof fn lemma_step(
        self,
        cur: Seq<u64>,
        wide: Seq<u64>,
        next: Seq<u64>,
        cx: Cx,
        s: Seq<u8>,
        i: int,
    )
        requires
            self.wf(),
            cx.seps == self.seps,
            0 <= i < s.len(),
            all_settled(self.states@, cur, false),
            all_settled(self.states@, wide, false),
            lang::hidden(cx, s, i) ==> wide == cur,
            !lang::hidden(cx, s, i) ==> self.released(cur, wide),
            self.stepped(wide, next, s[i], lang::hidden(cx, s, i)),
        ensures
            some_accepts(self.states@, cur, cx, s, i) <==> some_accepts(
                self.states@,
                next,
                cx,
                s,
                i + 1,
            ),
            all_settled(self.states@, next, false),
    {
        let st = self.states@;
        let hid = lang::hidden(cx, s, i);
        if some_accepts(st, cur, cx, s, i) {
            let q = choose|q: int| #[trigger]
                bits::member(cur, q) && nfa::accepts(st, cx, s, q, i);
            nfa::lemma_unfold(st, cx, s, q, i);
            let w = if st[q] is DotGuard {
                assert(guard_listed(self.guards@, q));
                let g = choose|g: int|
                    0 <= g < self.guards@.len() && (#[trigger] self.guards@[g]).state == q;
                assert(self.guard_ok(g));
                assert(stands_at(st, q, self.guards@[g].released@, true, cx, s, i));
                let p = choose|p: int| #[trigger]
                    bits::member(self.guards@[g].released@, p) && nfa::accepts(st, cx, s, p, i);
                assert(bits::member(wide, p));
                p
            } else {
                assert(bits::member(wide, q));
                q
            };
            nfa::lemma_unfold(st, cx, s, w, i);
            assert(nfa::target_ok(st[w], st.len() as int));
            let n = nfa::consume(st[w], cx.seps, s[i], hid)->0 as int;
            assert(self.closure_ok(n));
            assert(stands_at(st, n, self.closures@[n]@, false, cx, s, i + 1));
            let p = choose|p: int| #[trigger]
                bits::member(self.closures@[n]@, p) && nfa::accepts(st, cx, s, p, i + 1);
            assert(self.leads_over(w, s[i], hid, p));
            assert(bits::member(next, p));
        }
        if some_accepts(st, next, cx, s, i + 1) {
            let p = choose|p: int| #[trigger]
                bits::member(next, p) && nfa::accepts(st, cx, s, p, i + 1);
            let w = choose|w: int| #[trigger]
                bits::member(wide, w) && self.leads_over(w, s[i], hid, p);
            assert(nfa::target_ok(st[w], st.len() as int));
            let n = nfa::consume(st[w], cx.seps, s[i], hid)->0 as int;
            assert(self.closure_ok(n));
            assert(stands_at(st, n, self.closures@[n]@, false, cx, s, i + 1));
            assert(some_accepts(st, self.closures@[n]@, cx, s, i + 1));
            nfa::lemma_unfold(st, cx, s, w, i);
            if !bits::member(cur, w) {
                let g = choose|g: int|
                    0 <= g < self.guards@.len() && bits::member(
                        cur,
                        (#[trigger] self.guards@[g]).state as int,
                    ) && bits::member(self.guards@[g].released@, w);
                assert(self.guard_ok(g));
                let q = self.guards@[g].state as int;
                assert(stands_at(st, q, self.guards@[g].released@, true, cx, s, i));
                assert(some_accepts(st, self.guards@[g].released@, cx, s, i));
                assert(bits::member(cur, q));
            }
        }
        assert forall|p: int| #[trigger] bits::member(next, p) implies 0 <= p < st.len()
            && settled(st[p]) by {
            let w = choose|w: int| #[trigger]
                bits::member(wide, w) && self.leads_over(w, s[i], hid, p);
            assert(nfa::target_ok(st[w], st.len() as int));
            let n = nfa::consume(st[w], cx.seps, s[i], hid)->0 as int;
            assert(self.closure_ok(n));
        }
    }

    proof fn lemma_tracks_step(
        self,
        cur: Seq<u64>,
        wide: Seq<u64>,
        next: Seq<u64>,
        pre: Seq<u8>,
        c: u8,
        lim: int,
    )
        requires
            self.wf(),
            self.tracks(cur, pre, lim),
            all_settled(self.states@, cur, false),
            all_settled(self.states@, wide, false),
            next_hidden(self.cx(lim), pre, c) ==> wide == cur,
            !next_hidden(self.cx(lim), pre, c) ==> self.released(cur, wide),
            self.stepped(wide, next, c, next_hidden(self.cx(lim), pre, c)),
        ensures
            self.tracks(next, pre.push(c), lim),
            all_settled(self.states@, next, false),
    {
        let cx = self.cx(lim);
        let longer = pre.push(c);
        let i = pre.len() as int;
        assert forall|s: Seq<u8>| #[trigger] starts_with(s, longer) implies (some_accepts(
            self.states@,
            next,
            cx,
            s,
            i + 1,
        ) <==> nfa::accepts(self.states@, cx, s, self.initial as int, 0)) by {
            lemma_starts_push(s, pre, c);
            assert(lang::hidden(cx, s, i) == next_hidden(cx, pre, c));
            self.lemma_step(cur, wide, next, cx, s, i);
        }
        lemma_starts_self(longer);
        lemma_starts_push(longer, pre, c);
        assert(lang::hidden(cx, longer, i) == next_hidden(cx, pre, c));
        self.lemma_step(cur, wide, next, cx, longer, i);
    }

    /// The set that the machine reaches over `path`.
    fn run(&self, path: &[u8]) -> (cur: Vec<u64>)
        requires
            self.wf(),
        ensures
            cur@.len() == self.n_words,
            all_settled(self.states@, cur@, false),
            self.tracks(cur@, path@, path@.len() as int),
    {
        let mut cur: Vec<u64> = self.init_bits.clone();
        assert(cur@ =~= self.init_bits@);
        let mut at_seg_start: bool = true;
        let ghost lim = path@.len() as int;
        let mut i: usize = 0;
        proof {
            assert(path@.take(0) =~= Seq::<u8>::empty());
            assert forall|s: Seq<u8>| #[trigger] starts_with(s, path@.take(0)) implies (
            some_accepts(self.states@, cur@, self.cx(lim), s, 0) <==> nfa::accepts(
                self.states@,
                self.cx(lim),
                s,
                self.initial as int,
                0,
            )) by {
                assert(stands_at(
                    self.states@,
                    self.initial as int,
                    cur@,
                    false,
                    self.cx(lim),
                    s,
                    0,
                ));
            }
        }
        while i < path.len()
            invariant
                i <= path@.len(),
                lim == path@.len(),
                self.wf(),
                cur@.len() == self.n_words,
                all_settled(self.states@, cur@, false),
                self.tracks(cur@, path@.take(i as int), lim),
                at_seg_start == (i == 0 || self.seps.has(path@[i - 1])),
            decreases path@.len() - i,
        {
            let c: u8 = path[i];
            let ghost pre = path@.take(i as int);
            let ghost cur0 = cur@;
            let dot_mask: bool = !self.dot && at_seg_start && c == 0x2e;
            proof {
                if i > 0 {
                    assert(pre.last() == path@[i - 1]);
                }
                assert(dot_mask == next_hidden(self.cx(lim), pre, c));
            }
            if !dot_mask {
                self.release(&mut cur);
                assert(self.released(cur0, cur@));
            }
            let next: Vec<u64> = self.sweep(&cur, c, dot_mask);
            proof {
                assert(self.stepped(cur@, next@, c, dot_mask));
                self.lemma_tracks_step(cur0, cur@, next@, pre, c, lim);
                assert(path@.take(i + 1) =~= pre.push(c));
            }
            cur = next;
            at_seg_start = self.seps.is_sep(c);
            i = i + 1;
            if bits::is_empty(&cur) {
                proof {
                    self.lemma_tracks_dead(cur@, path@.take(i as int), path@, lim);
                }
                return cur;
            }
        }
        assert(path@.take(i as int) =~= path@);
        cur
    }

    /// A set that has run empty stays so.
    proof fn lemma_tracks_dead(self, cur: Seq<u64>, pre: Seq<u8>, path: Seq<u8>, lim: int)
        requires
            self.tracks(cur, pre, lim),
            forall|q: int| !bits::member(cur, q),
            starts_with(path, pre),
        ensures
            self.tracks(cur, path, lim),
    {
        assert forall|s: Seq<u8>| #[trigger] starts_with(s, path) implies (some_accepts(
            self.states@,
            cur,
            self.cx(lim),
            s,
            path.len() as int,
        ) <==> nfa::accepts(self.states@, self.cx(lim), s, self.initial as int, 0)) by {
            assert(s.take(pre.len() as int) =~= path.take(pre.len() as int));
            assert(starts_with(s, pre));
        }
    }

    /// Whether the machine's program matches the whole of `path`.
    pub fn accepts(&self, path: &[u8]) -> (r: bool)
        requires
            self.wf(),
        ensures
            r == lang::matches(self.spec_ops(), self.cx(path@.len() as int), path@),
    {
        let cur: Vec<u64> = self.run(path);
        proof {
            self.lemma_at_end(cur@, path@);
        }
        bits::intersects(&cur, &self.accept_bits)
    }

    proof fn lemma_at_end(self, cur: Seq<u64>, path: Seq<u8>)
        requires
            self.wf(),
            all_settled(self.states@, cur, false),
            self.tracks(cur, path, path.len() as int),
        ensures
            (exists|q: int| bits::member(cur, q) && bits::member(self.accept_bits@, q))
                == lang::matches(self.ops@, self.cx(path.len() as int), path),
    {
        let cx = self.cx(path.len() as int);
        let st = self.states@;
        let end = path.len() as int;
        lemma_starts_self(path);
        thompson::lemma_compiled(st, self.initial, self.accept, self.ops@, self.bd@, cx, path);
        if exists|q: int| bits::member(cur, q) && bits::member(self.accept_bits@, q) {
            let q = choose|q: int| bits::member(cur, q) && bits::member(self.accept_bits@, q);
            assert(end_state(st, q));
            assert(nfa::accepts(st, cx, path, q, path.len() as int));
            assert(some_accepts(st, cur, cx, path, end));
        }
        if some_accepts(st, cur, cx, path, end) {
            let q = choose|q: int| #[trigger]
                bits::member(cur, q) && nfa::accepts(st, cx, path, q, end);
            if st[q] is DotGuard {
                assert(guard_listed(self.guards@, q));
                let g = choose|g: int|
                    0 <= g < self.guards@.len() && (#[trigger] self.guards@[g]).state == q;
                assert(self.guard_ok(g));
                lemma_guard_end(st, self.guards@[g].released@, self.accept, cx, path, q);
                assert forall|cx2: Cx, s2: Seq<u8>| #[trigger]
                    nfa::accepts(st, cx2, s2, q, s2.len() as int) by {
                    lemma_guard_end(st, self.guards@[g].released@, self.accept, cx2, s2, q);
                }
            } else {
                lemma_settled_end(st, cx, path, q);
                assert forall|cx2: Cx, s2: Seq<u8>| #[trigger]
                    nfa::accepts(st, cx2, s2, q, s2.len() as int) by {
                    lemma_settled_end(st, cx2, s2, q);
                }
            }
            assert(end_state(st, q));
            assert(bits::member(self.accept_bits@, q));
        }
    }

    /// The program matches `dir`, a separator and some more bytes, where only
    /// the dots of `dir` are hidden.
    pub open spec fn below(self, dir: Seq<u8>) -> bool {
        exists|t: Seq<u8>| #[trigger]
            lang::matches(
                self.spec_ops(),
                self.cx(dir.len() as int),
                (dir + seq![0x2fu8]) + t,
            )
    }

    /// Whether the program matches `dir`, and whether it matches anything
    /// below it.
    pub fn accepts_dir(&self, dir: &[u8]) -> (r: (bool, bool))
        requires
            self.wf(),
        ensures
            r.0 == lang::matches(self.spec_ops(), self.cx(dir@.len() as int), dir@),
            r.1 == self.below(dir@),
    {
        let mut cur: Vec<u64> = self.run(dir);
        proof {
            self.lemma_at_end(cur@, dir@);
        }
        let exact: bool = bits::intersects(&cur, &self.accept_bits);
        let ghost cur0 = cur@;
        self.release(&mut cur);
        let after: Vec<u64> = self.sweep(&cur, 0x2f, false);
        proof {
            let lim = dir@.len() as int;
            assert(self.released(cur0, cur@));
            assert(self.stepped(cur@, after@, 0x2f, false));
            assert(!next_hidden(self.cx(lim), dir@, 0x2f));
            self.lemma_tracks_step(cur0, cur@, after@, dir@, 0x2f, lim);
            self.lemma_below(after@, dir@);
        }
        let prefix: bool = bits::intersects(&after, &self.reach_bits);
        (exact, prefix)
    }

    proof fn lemma_below(self, after: Seq<u64>, dir: Seq<u8>)
        requires
            self.wf(),
            all_settled(self.states@, after, false),
            self.tracks(after, dir.push(0x2f), dir.len() as int),
        ensures
            (exists|q: int| bits::member(after, q) && bits::member(self.reach_bits@, q))
                == self.below(dir),
    {
        let st = self.states@;
        let cx = self.cx(dir.len() as int);
        let pre = dir + seq![0x2fu8];
        assert(pre =~= dir.push(0x2f));
        if exists|q: int| bits::member(after, q) && bits::member(self.reach_bits@, q) {
            let q = choose|q: int| bits::member(after, q) && bits::member(self.reach_bits@, q);
            assert(can_finish(st, self.seps, q));
            let t = choose|t: Seq<u8>| #[trigger] finishes(st, self.seps, q, t);
            lemma_shift(st, cx, pre, t, q);
            let s = pre + t;
            lemma_starts_concat(pre, t);
            assert(some_accepts(st, after, cx, s, pre.len() as int));
            thompson::lemma_compiled(st, self.initial, self.accept, self.ops@, self.bd@, cx, s);
            assert(lang::matches(self.spec_ops(), self.cx(dir.len() as int), (dir + seq![0x2fu8]) + t));
        }
        if self.below(dir) {
            let t = choose|t: Seq<u8>| #[trigger] lang::matches(self.ops@, cx, pre + t);
            let s = pre + t;
            lemma_starts_concat(pre, t);
            thompson::lemma_compiled(st, self.initial, self.accept, self.ops@, self.bd@, cx, s);
            let q = choose|q: int| #[trigger]
                bits::member(after, q) && nfa::accepts(st, cx, s, q, pre.len() as int);
            lemma_shift(st, cx, pre, t, q);
            assert(can_finish(st, self.seps, q));
            assert(bits::member(self.reach_bits@, q));
        }
    }

    /// Whether the program matches any path when no dot is hidden.
    pub fn satisfiable(&self) -> (r: bool)
        requires
            self.wf(),
        ensures
            r == exists|t: Seq<u8>| #[trigger] lang::matches(self.spec_ops(), self.cx(0), t),
    {
        let r: bool = bits::contains(&self.reach_bits, self.initial);
        proof {
            let st = self.states@;
            let cx = self.cx(0);
            let e = Seq::<u8>::empty();
            assert forall|t: Seq<u8>| #[trigger]
                lang::matches(self.spec_ops(), self.cx(0), t) <==> finishes(
                st,
                self.seps,
                self.initial as int,
                t,
            ) by {
                thompson::lemma_compiled(
                    st,
                    self.initial,
                    self.accept,
                    self.ops@,
                    self.bd@,
                    cx,
                    t,
                );
                lemma_shift(st, cx, e, t, self.initial as int);
                assert(e + t =~= t);
            }
            if r {
                let t = choose|t: Seq<u8>| #[trigger]
                    finishes(st, self.seps, self.initial as int, t);
                assert(lang::matches(self.spec_ops(), self.cx(0), t));
            }
        }
        r
    }
}

proof fn lemma_starts_push(s: Seq<u8>, pre: Seq<u8>, c: u8)
    requires
        starts_with(s, pre.push(c)),
    ensures
        starts_with(s, pre),
        s[pre.len() as int] == c,
        pre.len() > 0 ==> s[pre.len() - 1] == pre.last(),
        pre.len() < s.len(),
{
    let longer = pre.push(c);
    assert(s.take(pre.len() as int) =~= pre) by {
        assert forall|k: int| 0 <= k < pre.len() implies s[k] == pre[k] by {
            assert(s.take(longer.len() as int)[k] == longer[k]);
        }
    }
    assert(s.take(longer.len() as int)[pre.len() as int] == longer[pre.len() as int]);
    if pre.len() > 0 {
        assert(s.take(pre.len() as int)[pre.len() - 1] == pre[pre.len() - 1]);
    }
}

proof fn lemma_starts_self(s: Seq<u8>)
    ensures
        starts_with(s, s),
{
    assert(s.take(s.len() as int) =~= s);
}

proof fn lemma_starts_concat(pre: Seq<u8>, t: Seq<u8>)
    ensures
        starts_with(pre + t, pre),
{
    assert((pre + t).take(pre.len() as int) =~= pre);
}

} // verus!
