//! One compiled fork, with what running it needs precomputed.
//!
//! The elements are states of an automaton over segments. Element `k` is
//! entered in state `entry(k)`; a globstar that must absorb something has a
//! second state, its body, in which it may also be left. The last state
//! accepts.

use crate::engine::bits;
use crate::engine::facts;
use crate::engine::lang::{self, Cx};
use crate::engine::ops::ir;
use crate::engine::segment::compile;
use crate::engine::segment::compile::{Elem, MAX_SEQ_STATES};
use crate::engine::segment::elems::{self, SpecElem};
use crate::engine::segment::wild;
use crate::seps::Seps;
use vstd::prelude::*;

verus! {

/// One fork.
#[derive(Clone)]
pub struct ElemSeq {
    pub elems: Vec<Elem>,
    /// Index of the globstar element where there is exactly one, else
    /// `usize::MAX`.
    pub single_g: usize,
    /// Number of globstar elements.
    pub g_count: usize,
    /// All-literal head of a single-globstar sequence, pre-joined with `/`
    /// (`"src/"`). Empty: not applicable.
    pub joined_head: Vec<u8>,
    /// The entry state of each element.
    pub state_of: Vec<usize>,
    /// The element that each state belongs to; unused for the accept state.
    pub elem_of: Vec<usize>,
    pub num_states: usize,
    /// For each state, the states reachable from it without consuming a
    /// segment, itself included.
    pub eps: Vec<u64>,
    /// States that can still consume a segment on a way to accept.
    pub reach1: u64,
    /// Bytes that every match of this fork ends with.
    pub quick_suffix: Vec<u8>,
    pub read: Ghost<Seq<SpecElem>>,
}

/// What state `q` matches from `i` on: as entry of element `k`, or, where
/// `body` is set, as its body.
pub open spec fn state_match(
    es: Seq<SpecElem>,
    k: int,
    body: bool,
    cx: Cx,
    s: Seq<u8>,
    i: int,
) -> bool {
    if body {
        elems::absorb(es.skip(k + 1), cx, s, i)
    } else {
        elems::elems_match(es.skip(k), cx, s, i)
    }
}

/// [`state_match`], where the state consumes the segment at `i`, or accepts
/// behind the last one.
pub open spec fn consumes_match(
    es: Seq<SpecElem>,
    k: int,
    body: bool,
    cx: Cx,
    s: Seq<u8>,
    i: int,
) -> bool {
    let end = elems::seg_end(cx.seps, s, i);
    if k >= es.len() {
        i == s.len() + 1
    } else {
        match es[k] {
            SpecElem::Seg(ops) => i <= s.len() && lang::ops_span(ops, cx, s, i, end)
                && elems::elems_match(es.skip(k + 1), cx, s, end + 1),
            SpecElem::G0Strict => i <= s.len() && (body || (i < s.len() && !cx.seps.has(s[i])))
                && !lang::hidden(cx, s, i) && elems::absorb(es.skip(k + 1), cx, s, end + 1),
            _ => i <= s.len() && !lang::hidden(cx, s, i) && elems::absorb(
                es.skip(k + 1),
                cx,
                s,
                end + 1,
            ),
        }
    }
}

/// The element that state `q` belongs to.
pub open spec fn elem_at(es: Seq<SpecElem>, q: int, k: int) -> int
    decreases es.len() - k,
{
    if k >= es.len() || q < compile::entry(es, k + 1) {
        k
    } else {
        elem_at(es, q, k + 1)
    }
}

pub open spec fn elem_of(es: Seq<SpecElem>, q: int) -> int {
    elem_at(es, q, 0)
}

/// State `q` is the body of its element.
pub open spec fn is_body(es: Seq<SpecElem>, q: int) -> bool {
    elem_of(es, q) < es.len() && q == compile::entry(es, elem_of(es, q)) + 1
}

/// What state `q` matches from `i` on.
pub open spec fn q_match(es: Seq<SpecElem>, q: int, cx: Cx, s: Seq<u8>, i: int) -> bool {
    state_match(es, elem_of(es, q), is_body(es, q), cx, s, i)
}

/// What state `q` matches from `i` on by consuming the segment there.
pub open spec fn q_consumes(es: Seq<SpecElem>, q: int, cx: Cx, s: Seq<u8>, i: int) -> bool {
    consumes_match(es, elem_of(es, q), is_body(es, q), cx, s, i)
}

/// Some state of the set goes on from `i`.
pub open spec fn some_consumes(es: Seq<SpecElem>, set: u64, cx: Cx, s: Seq<u8>, i: int) -> bool {
    exists|q: int| #[trigger] bits::bit(set, q) && q_consumes(es, q, cx, s, i)
}

pub open spec fn eps_at(es: Seq<SpecElem>, q: int, set: u64, cx: Cx, s: Seq<u8>, i: int) -> bool {
    elems::at_start(cx, s, i) ==> (q_match(es, q, cx, s, i) <==> some_consumes(es, set, cx, s, i))
}

/// `set` stands for state `q` everywhere.
pub open spec fn eps_ok(es: Seq<SpecElem>, q: int, set: u64) -> bool {
    &&& forall|u: int| #[trigger]
        bits::bit(set, u) ==> 0 <= u <= compile::entry(es, es.len() as int)
    &&& forall|cx: Cx, s: Seq<u8>, i: int| #[trigger] eps_at(es, q, set, cx, s, i)
}

/// State `u` is reached from element `k` without consuming a segment: from its
/// entry or, where `body` is set, from its body.
pub open spec fn skips_to(es: Seq<SpecElem>, k: int, body: bool, u: int) -> bool
    decreases es.len() - k,
{
    if 0 <= k < es.len() {
        ||| u == compile::entry(es, k) + if body {
            1int
        } else {
            0int
        }
        ||| (es[k] is G0 || es[k] is G0Strict || (es[k] is G1 && body)) && skips_to(
            es,
            k + 1,
            false,
            u,
        )
    } else {
        u == compile::entry(es, es.len() as int)
    }
}

/// `set` holds exactly the states reached from `q` without consuming a segment.
pub open spec fn eps_exact(es: Seq<SpecElem>, q: int, set: u64) -> bool {
    forall|u: int| #[trigger]
        bits::bit(set, u) <==> skips_to(es, elem_of(es, q), is_body(es, q), u)
}

pub proof fn lemma_entry_mono(es: Seq<SpecElem>, a: int, b: int)
    requires
        0 <= a <= b <= es.len(),
    ensures
        compile::entry(es, a) + (b - a) <= compile::entry(es, b),
        0 <= compile::entry(es, a),
    decreases b,
{
    if a < b {
        lemma_entry_mono(es, a, b - 1);
    } else if a > 0 {
        lemma_entry_mono(es, a - 1, a - 1);
    }
}

proof fn lemma_elem_at(es: Seq<SpecElem>, q: int, from: int, k: int)
    requires
        0 <= from <= k <= es.len(),
        compile::entry(es, k) <= q,
        k < es.len() ==> q < compile::entry(es, k + 1),
    ensures
        elem_at(es, q, from) == k,
    decreases k - from,
{
    if from < k {
        lemma_entry_mono(es, from + 1, k);
        lemma_elem_at(es, q, from + 1, k);
    }
}

/// The states of element `k`.
pub proof fn lemma_states_of(es: Seq<SpecElem>, k: int)
    requires
        0 <= k <= es.len(),
    ensures
        elem_of(es, compile::entry(es, k)) == k,
        !is_body(es, compile::entry(es, k)),
        k < es.len() && compile::weight(es[k]) == 2 ==> elem_of(es, compile::entry(es, k) + 1) == k
            && is_body(es, compile::entry(es, k) + 1),
{
    lemma_elem_at(es, compile::entry(es, k), 0, k);
    if k < es.len() && compile::weight(es[k]) == 2 {
        lemma_elem_at(es, compile::entry(es, k) + 1, 0, k);
    }
}

/// Every state below the accept state belongs to an element.
pub proof fn lemma_elem_of_state(es: Seq<SpecElem>, q: int, k: int)
    requires
        0 <= k <= es.len(),
        compile::entry(es, k) <= q <= compile::entry(es, es.len() as int),
    ensures
        k <= elem_at(es, q, k) <= es.len(),
        compile::entry(es, elem_at(es, q, k)) <= q,
        elem_at(es, q, k) < es.len() ==> q < compile::entry(es, elem_at(es, q, k) + 1),
        elem_at(es, q, k) == es.len() ==> q == compile::entry(es, es.len() as int),
    decreases es.len() - k,
{
    if k < es.len() && q >= compile::entry(es, k + 1) {
        lemma_elem_of_state(es, q, k + 1);
    }
}


/// A state that can only consume stands for itself.
proof fn lemma_eps_single(es: Seq<SpecElem>, q: int, set: u64)
    requires
        0 <= q <= compile::entry(es, es.len() as int),
        forall|u: int| #[trigger] bits::bit(set, u) <==> u == q,
        forall|cx: Cx, s: Seq<u8>, i: int|
            elems::at_start(cx, s, i) ==> (#[trigger] q_match(es, q, cx, s, i) <==> q_consumes(
                es,
                q,
                cx,
                s,
                i,
            )),
    ensures
        eps_ok(es, q, set),
{
    assert forall|cx: Cx, s: Seq<u8>, i: int| #[trigger] eps_at(es, q, set, cx, s, i) by {
        if elems::at_start(cx, s, i) {
            assert(q_match(es, q, cx, s, i) <==> q_consumes(es, q, cx, s, i));
            assert(bits::bit(set, q));
            if some_consumes(es, set, cx, s, i) {
                let u = choose|u: int| #[trigger]
                    bits::bit(set, u) && q_consumes(es, u, cx, s, i);
                assert(u == q);
            }
        }
    }
}

/// A state that can also be left stands for itself and for where it leads.
proof fn lemma_eps_union(es: Seq<SpecElem>, q: int, set: u64, next: int, next_set: u64)
    requires
        0 <= q <= compile::entry(es, es.len() as int),
        eps_ok(es, next, next_set),
        forall|u: int| #[trigger] bits::bit(set, u) <==> (u == q || bits::bit(next_set, u)),
        forall|cx: Cx, s: Seq<u8>, i: int|
            elems::at_start(cx, s, i) ==> (#[trigger] q_match(es, q, cx, s, i) <==> (q_consumes(
                es,
                q,
                cx,
                s,
                i,
            ) || q_match(es, next, cx, s, i))),
    ensures
        eps_ok(es, q, set),
{
    assert forall|cx: Cx, s: Seq<u8>, i: int| #[trigger] eps_at(es, q, set, cx, s, i) by {
        if elems::at_start(cx, s, i) {
            assert(q_match(es, q, cx, s, i) <==> (q_consumes(es, q, cx, s, i) || q_match(
                es,
                next,
                cx,
                s,
                i,
            )));
            assert(eps_at(es, next, next_set, cx, s, i));
            assert(bits::bit(set, q));
            if some_consumes(es, next_set, cx, s, i) {
                let u = choose|u: int| #[trigger]
                    bits::bit(next_set, u) && q_consumes(es, u, cx, s, i);
                assert(bits::bit(set, u));
            }
            if some_consumes(es, set, cx, s, i) {
                let u = choose|u: int| #[trigger]
                    bits::bit(set, u) && q_consumes(es, u, cx, s, i);
                if u != q {
                    assert(bits::bit(next_set, u));
                }
            }
        }
    }
}

/// What the states of element `k` match, in terms of the element behind it.
pub proof fn lemma_state_step(es: Seq<SpecElem>, k: int, cx: Cx, s: Seq<u8>, i: int)
    requires
        0 <= k < es.len(),
        elems::at_start(cx, s, i),
    ensures
        ({
            let here = state_match(es, k, false, cx, s, i);
            let body = state_match(es, k, true, cx, s, i);
            let next = state_match(es, k + 1, false, cx, s, i);
            let eats = consumes_match(es, k, false, cx, s, i);
            let body_eats = consumes_match(es, k, true, cx, s, i);
            &&& es[k] is Seg || es[k] is G1 ==> (here <==> eats)
            &&& es[k] is G0 || es[k] is G0Strict ==> (here <==> eats || next)
            &&& es[k] is G1 || es[k] is G0Strict ==> (body <==> body_eats || next)
        }),
{
    let at = es.skip(k);
    let rest = es.skip(k + 1);
    let end = elems::seg_end(cx.seps, s, i);
    assert(at[0] == es[k]);
    assert(at.drop_first() =~= rest);
    assert(elems::absorb(rest, cx, s, i) == (elems::elems_match(rest, cx, s, i) || (i <= s.len()
        && !lang::hidden(cx, s, i) && elems::absorb(rest, cx, s, end + 1))));
    if es[k] is G0 {
        assert(elems::elems_match(at, cx, s, i) == elems::absorb(rest, cx, s, i));
    }
}

proof fn lemma_accept_step(es: Seq<SpecElem>, cx: Cx, s: Seq<u8>, i: int)
    ensures
        state_match(es, es.len() as int, false, cx, s, i) <==> consumes_match(
            es,
            es.len() as int,
            false,
            cx,
            s,
            i,
        ),
{
    assert(es.skip(es.len() as int).len() == 0);
}

/// The sets of the states of all elements, last one first.
fn compute_eps(read: Ghost<Seq<SpecElem>>, elems: &Vec<Elem>, state_of: &Vec<usize>, n: usize) -> (
eps: Vec<u64>)
    requires
        elems@.len() == read@.len(),
        forall|k: int|
            0 <= k < elems@.len() ==> same_kind(#[trigger] elems@[k], read@[k]),
        state_of@.len() == elems@.len(),
        forall|k: int|
            0 <= k < elems@.len() ==> #[trigger] state_of@[k] == compile::entry(read@, k),
        n == compile::entry(read@, read@.len() as int) + 1,
        n <= 64,
    ensures
        eps@.len() == n,
        forall|q: int| 0 <= q < n ==> eps_ok(read@, q, #[trigger] eps@[q]),
        forall|q: int| 0 <= q < n ==> eps_exact(read@, q, #[trigger] eps@[q]),
{
    let ghost es = read@;
    let m: usize = elems.len();
    proof {
        lemma_entry_mono(es, 0, m as int);
    }
    let accept: usize = n - 1;
    let mut eps: Vec<u64> = vec![0u64; n];
    let own: u64 = bits::single(accept);
    eps[accept] = own;
    proof {
        lemma_states_of(es, m as int);
        assert forall|cx: Cx, s: Seq<u8>, i: int| elems::at_start(cx, s, i) implies (
        #[trigger] q_match(es, accept as int, cx, s, i) <==> q_consumes(
            es,
            accept as int,
            cx,
            s,
            i,
        )) by {
            lemma_accept_step(es, cx, s, i);
        }
        lemma_eps_single(es, accept as int, own);
    }
    let mut k: usize = m;
    while k > 0
        invariant
            k <= m,
            m == elems@.len(),
            m == es.len(),
            es == read@,
            accept == n - 1,
            n <= 64,
            n == compile::entry(es, es.len() as int) + 1,
            eps@.len() == n,
            forall|j: int| 0 <= j < m ==> same_kind(#[trigger] elems@[j], es[j]),
            state_of@.len() == m,
            forall|j: int| 0 <= j < m ==> #[trigger] state_of@[j] == compile::entry(es, j),
            forall|q: int|
                compile::entry(es, k as int) <= q < n ==> eps_ok(es, q, #[trigger] eps@[q]),
            forall|q: int|
                compile::entry(es, k as int) <= q < n ==> eps_exact(es, q, #[trigger] eps@[q]),
        decreases k,
    {
        let next_entry: usize = if k < m { state_of[k] } else { accept };
        k = k - 1;
        let s: usize = state_of[k];
        let ghost kk = k as int;
        let ghost next = compile::entry(es, kk + 1);
        proof {
            assert(same_kind(elems@[kk], es[kk]));
            lemma_entry_mono(es, kk + 1, m as int);
            lemma_states_of(es, kk);
            lemma_states_of(es, kk + 1);
            assert(next_entry == next);
            assert(s == compile::entry(es, kk));
            assert(next == s + compile::weight(es[kk]));
        }
        let after: u64 = eps[next_entry];
        let own: u64 = bits::single(s);
        assert(eps_ok(es, next, after));
        assert(eps_exact(es, next, after));
        match &elems[k] {
            Elem::Lit(_) | Elem::Wild(_) => {
                eps[s] = own;
                proof {
                    assert forall|cx: Cx, st: Seq<u8>, i: int|
                        elems::at_start(cx, st, i) implies (#[trigger] q_match(
                        es,
                        s as int,
                        cx,
                        st,
                        i,
                    ) <==> q_consumes(es, s as int, cx, st, i)) by {
                        lemma_state_step(es, kk, cx, st, i);
                    }
                    lemma_eps_single(es, s as int, own);
                }
            },
            Elem::G0 => {
                let both: u64 = bits::either(own, after);
                eps[s] = both;
                proof {
                    assert forall|cx: Cx, st: Seq<u8>, i: int|
                        elems::at_start(cx, st, i) implies (#[trigger] q_match(
                        es,
                        s as int,
                        cx,
                        st,
                        i,
                    ) <==> (q_consumes(es, s as int, cx, st, i) || q_match(es, next, cx, st, i))) by {
                        lemma_state_step(es, kk, cx, st, i);
                    }
                    lemma_eps_union(es, s as int, both, next, after);
                }
            },
            Elem::G0Strict => {
                let both: u64 = bits::either(own, after);
                let body_own: u64 = bits::single(s + 1);
                let body: u64 = bits::either(body_own, after);
                eps[s] = both;
                eps[s + 1] = body;
                proof {
                    assert forall|cx: Cx, st: Seq<u8>, i: int|
                        elems::at_start(cx, st, i) implies (#[trigger] q_match(
                        es,
                        s as int,
                        cx,
                        st,
                        i,
                    ) <==> (q_consumes(es, s as int, cx, st, i) || q_match(es, next, cx, st, i))) by {
                        lemma_state_step(es, kk, cx, st, i);
                    }
                    lemma_eps_union(es, s as int, both, next, after);
                    assert forall|cx: Cx, st: Seq<u8>, i: int|
                        elems::at_start(cx, st, i) implies (#[trigger] q_match(
                        es,
                        s + 1,
                        cx,
                        st,
                        i,
                    ) <==> (q_consumes(es, s + 1, cx, st, i) || q_match(es, next, cx, st, i))) by {
                        lemma_state_step(es, kk, cx, st, i);
                    }
                    lemma_eps_union(es, s + 1, body, next, after);
                }
            },
            Elem::G1 => {
                let body_own: u64 = bits::single(s + 1);
                let body: u64 = bits::either(body_own, after);
                eps[s] = own;
                eps[s + 1] = body;
                proof {
                    assert forall|cx: Cx, st: Seq<u8>, i: int|
                        elems::at_start(cx, st, i) implies (#[trigger] q_match(
                        es,
                        s as int,
                        cx,
                        st,
                        i,
                    ) <==> q_consumes(es, s as int, cx, st, i)) by {
                        lemma_state_step(es, kk, cx, st, i);
                    }
                    lemma_eps_single(es, s as int, own);
                    assert forall|cx: Cx, st: Seq<u8>, i: int|
                        elems::at_start(cx, st, i) implies (#[trigger] q_match(
                        es,
                        s + 1,
                        cx,
                        st,
                        i,
                    ) <==> (q_consumes(es, s + 1, cx, st, i) || q_match(es, next, cx, st, i))) by {
                        lemma_state_step(es, kk, cx, st, i);
                    }
                    lemma_eps_union(es, s + 1, body, next, after);
                }
            },
        }
        proof {
            assert forall|q: int| compile::entry(es, kk) <= q < n implies eps_ok(
                es,
                q,
                #[trigger] eps@[q],
            ) by {
                if q >= next {
                }
            }
            assert forall|q: int| compile::entry(es, kk) <= q < n implies eps_exact(
                es,
                q,
                #[trigger] eps@[q],
            ) by {
                if q < next {
                    assert(q == s || q == s + 1);
                }
            }
        }
    }
    eps
}

/// The element is of the kind of `se`.
pub open spec fn same_kind(e: Elem, se: SpecElem) -> bool {
    match e {
        Elem::Lit(_) => se is Seg,
        Elem::Wild(_) => se is Seg,
        Elem::G0 => se is G0,
        Elem::G0Strict => se is G0Strict,
        Elem::G1 => se is G1,
    }
}


/// A context in which no dot is hidden.
pub open spec fn open_cx(seps: Seps, ci: bool) -> Cx {
    Cx { seps, ci, lim: 0 }
}

/// The element matches some segments.
pub open spec fn elem_sat(e: SpecElem, seps: Seps, ci: bool) -> bool {
    e matches SpecElem::Seg(ops) ==> wild::satisfiable(ops, seps, ci)
}

/// All elements from `k` on match some segments.
pub open spec fn all_sat(es: Seq<SpecElem>, k: int, seps: Seps, ci: bool) -> bool {
    forall|j: int| k <= j < es.len() ==> elem_sat(#[trigger] es[j], seps, ci)
}

/// State `q` can go on over some segment to accept.
pub open spec fn can_go_on(es: Seq<SpecElem>, q: int, seps: Seps, ci: bool) -> bool {
    exists|t: Seq<u8>| #[trigger] q_consumes(es, q, open_cx(seps, ci), t, 0)
}

pub proof fn lemma_segs_rest(es: Seq<SpecElem>, k: int, seps: Seps)
    requires
        compile::segs_in(es, seps),
        0 <= k <= es.len(),
    ensures
        compile::segs_in(es.skip(k), seps),
{
    assert forall|j: int| 0 <= j < es.skip(k).len() implies (#[trigger] es.skip(k)[j] matches SpecElem::Seg(
        ops,
    ) ==> elems::in_seg(ops, seps) && ir::solid(ops)) by {
        assert(es.skip(k)[j] == es[k + j]);
    }
}

/// Where elements match, each of them matches some segments.
proof fn lemma_match_sat(es: Seq<SpecElem>, cx: Cx, s: Seq<u8>, i: int)
    requires
        compile::segs_in(es, cx.seps),
        cx.lim <= 0,
        elems::at_start(cx, s, i),
        elems::elems_match(es, cx, s, i),
    ensures
        all_sat(es, 0, cx.seps, cx.ci),
    decreases es.len(), s.len() + 2 - i, 1int,
{
    if es.len() > 0 {
        let rest = es.drop_first();
        assert(rest =~= es.skip(1));
        lemma_segs_rest(es, 1, cx.seps);
        elems::lemma_seg_end(cx.seps, s, i);
        let end = elems::seg_end(cx.seps, s, i);
        match es[0] {
            SpecElem::Seg(ops) => {
                wild::lemma_alone_open(ops, cx, s, i);
                let t = s.subrange(i, end);
                assert(Cx { seps: cx.seps, ci: cx.ci, lim: 0 } == open_cx(cx.seps, cx.ci));
                assert(lang::matches(ops, open_cx(cx.seps, cx.ci), t));
                assert(wild::satisfiable(ops, cx.seps, cx.ci));
                lemma_match_sat(rest, cx, s, end + 1);
            },
            SpecElem::G0 => {
                lemma_absorb_sat(rest, cx, s, i);
            },
            SpecElem::G0Strict => {
                if elems::elems_match(rest, cx, s, i) {
                    lemma_match_sat(rest, cx, s, i);
                } else {
                    lemma_absorb_sat(rest, cx, s, end + 1);
                }
            },
            SpecElem::G1 => {
                lemma_absorb_sat(rest, cx, s, end + 1);
            },
        }
        assert forall|j: int| 0 <= j < es.len() implies elem_sat(
            #[trigger] es[j],
            cx.seps,
            cx.ci,
        ) by {
            if j > 0 {
                assert(rest[j - 1] == es[j]);
            }
        }
    }
}

proof fn lemma_absorb_sat(rest: Seq<SpecElem>, cx: Cx, s: Seq<u8>, i: int)
    requires
        compile::segs_in(rest, cx.seps),
        cx.lim <= 0,
        elems::at_start(cx, s, i),
        elems::absorb(rest, cx, s, i),
    ensures
        all_sat(rest, 0, cx.seps, cx.ci),
    decreases rest.len(), s.len() + 2 - i, 2int,
{
    if elems::elems_match(rest, cx, s, i) {
        lemma_match_sat(rest, cx, s, i);
    } else {
        elems::lemma_seg_end(cx.seps, s, i);
        lemma_absorb_sat(rest, cx, s, elems::seg_end(cx.seps, s, i) + 1);
    }
}

proof fn lemma_seg_end_shift(seps: Seps, pre: Seq<u8>, t: Seq<u8>, i: int)
    requires
        0 <= i <= t.len(),
    ensures
        elems::seg_end(seps, pre + t, pre.len() + i) == pre.len() + elems::seg_end(seps, t, i),
    decreases t.len() - i,
{
    if i < t.len() {
        assert((pre + t)[pre.len() + i] == t[i]);
        if !seps.has(t[i]) {
            lemma_seg_end_shift(seps, pre, t, i + 1);
            assert(pre.len() + (i + 1) == pre.len() + i + 1);
        }
    }
}

/// Behind a separator, beyond the protected bytes, only the bytes still to
/// come matter.
proof fn lemma_shift(es: Seq<SpecElem>, cx: Cx, pre: Seq<u8>, t: Seq<u8>, i: int)
    requires
        compile::segs_in(es, cx.seps),
        pre.len() > 0,
        cx.seps.has(pre.last()),
        cx.lim <= pre.len(),
        elems::at_start(open_cx(cx.seps, cx.ci), t, i),
    ensures
        elems::elems_match(es, cx, pre + t, pre.len() + i) <==> elems::elems_match(
            es,
            open_cx(cx.seps, cx.ci),
            t,
            i,
        ),
        elems::at_start(cx, pre + t, pre.len() + i),
    decreases es.len(), t.len() + 2 - i, 1int,
{
    let s = pre + t;
    let o = open_cx(cx.seps, cx.ci);
    let at = pre.len() + i;
    assert(elems::at_start(cx, s, at)) by {
        if i == 0 {
            assert(s[at - 1] == pre.last());
        } else if i <= t.len() {
            assert(s[at - 1] == t[i - 1]);
        }
    }
    if es.len() > 0 {
        let rest = es.drop_first();
        assert(rest =~= es.skip(1));
        lemma_segs_rest(es, 1, cx.seps);
        if i <= t.len() {
            lemma_seg_end_shift(cx.seps, pre, t, i);
            elems::lemma_seg_end(cx.seps, t, i);
            let end = elems::seg_end(cx.seps, t, i);
            assert(pre.len() + end + 1 == pre.len() + (end + 1));
            assert(!lang::hidden(cx, s, at) && !lang::hidden(o, t, i));
            match es[0] {
                SpecElem::Seg(ops) => {
                    wild::lemma_alone_open(ops, cx, s, at);
                    wild::lemma_alone_open(ops, o, t, i);
                    assert(s.subrange(at, pre.len() + end) =~= t.subrange(i, end));
                    lemma_shift(rest, cx, pre, t, end + 1);
                },
                SpecElem::G0 => {
                    lemma_shift_absorb(rest, cx, pre, t, i);
                },
                SpecElem::G0Strict => {
                    if i < t.len() {
                        assert(s[at] == t[i]);
                    }
                    lemma_shift(rest, cx, pre, t, i);
                    lemma_shift_absorb(rest, cx, pre, t, end + 1);
                },
                SpecElem::G1 => {
                    lemma_shift_absorb(rest, cx, pre, t, end + 1);
                },
            }
        } else {
            match es[0] {
                SpecElem::G0 => {
                    lemma_shift_absorb(rest, cx, pre, t, i);
                },
                SpecElem::G0Strict => {
                    lemma_shift(rest, cx, pre, t, i);
                },
                _ => {},
            }
        }
    }
}

proof fn lemma_shift_absorb(rest: Seq<SpecElem>, cx: Cx, pre: Seq<u8>, t: Seq<u8>, i: int)
    requires
        compile::segs_in(rest, cx.seps),
        pre.len() > 0,
        cx.seps.has(pre.last()),
        cx.lim <= pre.len(),
        elems::at_start(open_cx(cx.seps, cx.ci), t, i),
    ensures
        elems::absorb(rest, cx, pre + t, pre.len() + i) <==> elems::absorb(
            rest,
            open_cx(cx.seps, cx.ci),
            t,
            i,
        ),
    decreases rest.len(), t.len() + 2 - i, 2int,
{
    let s = pre + t;
    let o = open_cx(cx.seps, cx.ci);
    lemma_shift(rest, cx, pre, t, i);
    if i <= t.len() {
        lemma_seg_end_shift(cx.seps, pre, t, i);
        elems::lemma_seg_end(cx.seps, t, i);
        let end = elems::seg_end(cx.seps, t, i);
        assert(!lang::hidden(cx, s, pre.len() + i) && !lang::hidden(o, t, i));
        lemma_shift_absorb(rest, cx, pre, t, end + 1);
        assert(pre.len() + end + 1 == pre.len() + (end + 1));
    }
}

/// [`lemma_shift`] for one state that consumes the next segment.
pub proof fn lemma_shift_state(es: Seq<SpecElem>, q: int, cx: Cx, pre: Seq<u8>, t: Seq<u8>)
    requires
        compile::segs_in(es, cx.seps),
        pre.len() > 0,
        cx.seps.has(pre.last()),
        cx.lim <= pre.len(),
        0 <= q <= compile::entry(es, es.len() as int),
    ensures
        q_consumes(es, q, cx, pre + t, pre.len() as int) <==> q_consumes(
            es,
            q,
            open_cx(cx.seps, cx.ci),
            t,
            0,
        ),
{
    let s = pre + t;
    let o = open_cx(cx.seps, cx.ci);
    let at = pre.len() as int;
    lemma_entry_mono(es, 0, 0);
    lemma_elem_of_state(es, q, 0);
    let k = elem_of(es, q);
    if k < es.len() {
        let rest = es.skip(k + 1);
        lemma_segs_rest(es, k + 1, cx.seps);
        lemma_seg_end_shift(cx.seps, pre, t, 0);
        elems::lemma_seg_end(cx.seps, t, 0);
        let end = elems::seg_end(cx.seps, t, 0);
        assert(s[at - 1] == pre.last());
        assert(!lang::hidden(cx, s, at) && !lang::hidden(o, t, 0));
        lemma_shift(rest, cx, pre, t, end + 1);
        lemma_shift_absorb(rest, cx, pre, t, end + 1);
        assert(pre.len() + (end + 1) == pre.len() + end + 1);
        if t.len() > 0 {
            assert(s[at] == t[0]);
        }
        match es[k] {
            SpecElem::Seg(ops) => {
                wild::lemma_alone_open(ops, cx, s, at);
                wild::lemma_alone_open(ops, o, t, 0);
                assert(s.subrange(at, pre.len() + end) =~= t.subrange(0, end));
            },
            _ => {},
        }
    }
}

/// A segment that the first element takes, and segments for the rest.
proof fn lemma_go_on(es: Seq<SpecElem>, k: int, seps: Seps, ci: bool) -> (t: Seq<u8>)
    requires
        0 <= k < es.len(),
        compile::segs_in(es, seps),
        all_sat(es, k, seps, ci),
    ensures
        consumes_match(es, k, false, open_cx(seps, ci), t, 0),
        consumes_match(es, k, true, open_cx(seps, ci), t, 0),
    decreases es.len() - k,
{
    let o = open_cx(seps, ci);
    let rest = es.skip(k + 1);
    assert(elem_sat(es[k], seps, ci));
    let x = match es[k] {
        SpecElem::Seg(ops) => choose|x: Seq<u8>| #[trigger] lang::matches(ops, o, x),
        _ => seq![0x61u8],
    };
    assert(forall|m: int| 0 <= m < x.len() ==> !seps.has(#[trigger] x[m])) by {
        match es[k] {
            SpecElem::Seg(ops) => {
                elems::lemma_in_seg(ops, o, x, 0, x.len() as int);
            },
            _ => {},
        }
    }
    let more = if k + 1 < es.len() {
        lemma_go_on(es, k + 1, seps, ci)
    } else {
        seq![]
    };
    let t = if k + 1 < es.len() {
        (x + seq![0x2fu8]) + more
    } else {
        x
    };
    let end = x.len() as int;
    assert(t.subrange(0, end) =~= x);
    assert(elems::seg_end(seps, t, 0) == end) by {
        assert forall|m: int| 0 <= m < end implies !o.seps.has(#[trigger] t[m]) by {
            assert(t[m] == x[m]);
        }
        if k + 1 < es.len() {
            assert(t[end] == 0x2f);
        }
        elems::lemma_span_to_end(o, t, 0, end);
    }
    assert(elems::elems_match(rest, o, t, end + 1)) by {
        if k + 1 < es.len() {
            let pre = x + seq![0x2fu8];
            lemma_segs_rest(es, k + 1, seps);
            lemma_shift(rest, o, pre, more, 0);
            assert(elems::at_start(o, more, 0));
            lemma_state_step(es, k + 1, o, more, 0);
        }
    }
    match es[k] {
        SpecElem::Seg(ops) => {
            wild::lemma_alone_open(ops, o, t, 0);
        },
        _ => {
            assert(t[0] == x[0]);
            assert(elems::absorb(rest, o, t, end + 1));
        },
    }
    t
}


/// State `q` can go on exactly if its element and all behind it can be
/// satisfied.
pub proof fn lemma_can_go_on(es: Seq<SpecElem>, k: int, body: bool, q: int, seps: Seps, ci: bool)
    requires
        0 <= k < es.len(),
        compile::segs_in(es, seps),
        q == compile::entry(es, k) + (if body { 1int } else { 0int }),
        body ==> compile::weight(es[k]) == 2,
    ensures
        can_go_on(es, q, seps, ci) <==> all_sat(es, k, seps, ci),
{
    let o = open_cx(seps, ci);
    lemma_states_of(es, k);
    if all_sat(es, k, seps, ci) {
        let t = lemma_go_on(es, k, seps, ci);
        assert(q_consumes(es, q, o, t, 0));
    }
    if can_go_on(es, q, seps, ci) {
        let t = choose|t: Seq<u8>| #[trigger] q_consumes(es, q, o, t, 0);
        let rest = es.skip(k + 1);
        let end = elems::seg_end(seps, t, 0);
        elems::lemma_seg_end(seps, t, 0);
        lemma_segs_rest(es, k + 1, seps);
        match es[k] {
            SpecElem::Seg(ops) => {
                wild::lemma_alone_open(ops, o, t, 0);
                assert(lang::matches(ops, o, t.subrange(0, end)));
                lemma_match_sat(rest, o, t, end + 1);
            },
            _ => {
                lemma_absorb_sat(rest, o, t, end + 1);
            },
        }
        assert forall|j: int| k <= j < es.len() implies elem_sat(#[trigger] es[j], seps, ci) by {
            if j > k {
                assert(rest[j - k - 1] == es[j]);
            }
        }
    }
}

/// Behind the accept state nothing goes on.
pub proof fn lemma_accept_stops(es: Seq<SpecElem>, seps: Seps, ci: bool)
    ensures
        !can_go_on(es, compile::entry(es, es.len() as int), seps, ci),
{
    lemma_states_of(es, es.len() as int);
}

/// `bytes` end with `lit` and a slash.
pub open spec fn ends_lit(bytes: Seq<u8>, lit: Seq<u8>) -> bool {
    lit.len() < bytes.len() && bytes.last() == 0x2f && bytes.subrange(
        bytes.len() - 1 - lit.len(),
        bytes.len() - 1,
    ) == lit
}

/// The first `g` elements are literals, and `bytes` spell them with a slash
/// behind each.
pub open spec fn joined(es: Seq<SpecElem>, g: int, bytes: Seq<u8>) -> bool
    decreases g,
{
    if g <= 0 {
        bytes.len() == 0
    } else {
        exists|lit: Seq<u8>| #[trigger]
            ends_lit(bytes, lit) && es[g - 1] == SpecElem::Seg(compile::lit_ops(lit)) && joined(
                es,
                g - 1,
                bytes.take(bytes.len() - 1 - lit.len()),
            )
    }
}

/// `suffix` is what the last element ends with, as far as it is known.
pub open spec fn quick_ok(es: Seq<SpecElem>, suffix: Seq<u8>) -> bool {
    suffix.len() > 0 ==> es.len() > 0 && (es.last() matches SpecElem::Seg(ops) && (ops
        == compile::lit_ops(suffix) || wild::spellings(wild::after_wilds(ops)) == Some(
        seq![suffix],
    )))
}

/// The bytes of the first `g` elements, which are literals, with a slash
/// behind each.
pub open spec fn slashed(elems: Seq<Elem>, g: int) -> Seq<u8>
    decreases g,
{
    if g <= 0 {
        seq![]
    } else {
        match elems[g - 1] {
            Elem::Lit(bytes) => slashed(elems, g - 1) + bytes@ + seq![0x2f],
            _ => seq![],
        }
    }
}

/// [`slashed`] where the first `g` elements are all literals; else nothing.
pub open spec fn head_text(elems: Seq<Elem>, g: int) -> Seq<u8> {
    if forall|k: int| 0 <= k < g ==> #[trigger] elems[k] is Lit {
        slashed(elems, g)
    } else {
        seq![]
    }
}

/// What the last element ends with: the bytes of a literal, or the one literal
/// behind the wildcards of a segment; else nothing.
pub open spec fn last_text(elems: Seq<Elem>) -> Seq<u8> {
    if elems.len() == 0 {
        seq![]
    } else {
        match elems.last() {
            Elem::Lit(bytes) => bytes@,
            Elem::Wild(w) => wild::sole_suffix(w.ops@),
            _ => seq![],
        }
    }
}

/// How many of the elements are globstars.
pub open spec fn globstars(es: Seq<SpecElem>) -> int
    decreases es.len(),
{
    if es.len() == 0 {
        0
    } else {
        globstars(es.drop_last()) + if es.last() is Seg {
            0int
        } else {
            1int
        }
    }
}

/// There is a single globstar, with something in front of it.
pub open spec fn joins_head(es: Seq<SpecElem>, single_g: int) -> bool {
    globstars(es) == 1 && single_g > 0
}

impl ElemSeq {
    pub open spec fn wf(self, seps: Seps, ci: bool, dot: bool) -> bool {
        let es = self.read@;
        let m = es.len() as int;
        &&& m > 0
        &&& compile::all_read(self.elems@, es, seps, ci, dot)
        &&& compile::segs_in(es, seps)
        &&& self.state_of@.len() == m
        &&& forall|k: int| 0 <= k < m ==> #[trigger] self.state_of@[k] == compile::entry(es, k)
        &&& self.num_states == compile::entry(es, m) + 1
        &&& self.num_states <= 64
        &&& self.elem_of@.len() == self.num_states
        &&& forall|q: int|
            0 <= q < self.num_states - 1 ==> #[trigger] self.elem_of@[q] == elem_of(es, q)
        &&& self.elem_of@[self.num_states - 1] == 0
        &&& self.eps@.len() == self.num_states
        &&& forall|q: int| 0 <= q < self.num_states ==> eps_ok(es, q, #[trigger] self.eps@[q])
        &&& forall|q: int| 0 <= q < self.num_states ==> eps_exact(es, q, #[trigger] self.eps@[q])
        &&& forall|q: int|
            0 <= q < self.num_states ==> (#[trigger] bits::bit(self.reach1, q) <==> can_go_on(
                es,
                q,
                seps,
                ci,
            ))
        &&& forall|q: int| q >= self.num_states ==> !#[trigger] bits::bit(self.reach1, q)
        &&& self.g_count == globstars(es)
        &&& self.g_count == 0 ==> forall|k: int| 0 <= k < m ==> #[trigger] es[k] is Seg
        &&& self.g_count == 1 ==> {
            &&& self.single_g < m
            &&& !(es[self.single_g as int] is Seg)
            &&& forall|k: int| 0 <= k < m && k != self.single_g ==> #[trigger] es[k] is Seg
        }
        &&& self.g_count != 1 ==> self.single_g == usize::MAX
        &&& self.joined_head@ == if joins_head(es, self.single_g as int) {
            head_text(self.elems@, self.single_g as int)
        } else {
            seq![]
        }
        &&& self.quick_suffix@ == last_text(self.elems@)
        &&& self.g_count == 1 && self.joined_head@.len() > 0 ==> joined(
            es,
            self.single_g as int,
            self.joined_head@,
        )
        &&& quick_ok(es, self.quick_suffix@)
    }

    /// The elements of the fork.
    pub open spec fn spec_elems(self) -> Seq<SpecElem> {
        self.read@
    }
}

/// Joins an all-literal head with slashes.
fn join_head(elems: &Vec<Elem>, g: usize, read: Ghost<Seq<SpecElem>>, seps: Ghost<Seps>, ci: Ghost<
    bool,
>, dot: Ghost<bool>) -> (r: Vec<u8>)
    requires
        g < elems@.len(),
        compile::all_read(elems@, read@, seps@, ci@, dot@),
    ensures
        r@ == head_text(elems@, g as int),
        r@.len() > 0 ==> joined(read@, g as int, r@),
{
    let mut out: Vec<u8> = Vec::new();
    let mut k: usize = 0;
    while k < g
        invariant
            k <= g,
            g < elems@.len(),
            compile::all_read(elems@, read@, seps@, ci@, dot@),
            joined(read@, k as int, out@),
            forall|j: int| 0 <= j < k ==> #[trigger] elems@[j] is Lit,
            out@ == slashed(elems@, k as int),
        decreases g - k,
    {
        assert(compile::reads(elems@[k as int], read@[k as int], seps@, ci@, dot@));
        match &elems[k] {
            Elem::Lit(bytes) => {
                let ghost before = out@;
                out.extend_from_slice(bytes);
                out.push(0x2f);
                proof {
                    let now = out@;
                    let lit = bytes@;
                    assert(now =~= before + lit + seq![0x2fu8]);
                    assert(elems@[k as int] is Lit);
                    assert(now == slashed(elems@, k + 1));
                    assert(now.take(now.len() - 1 - lit.len()) =~= before);
                    assert(now.subrange(now.len() - 1 - lit.len(), now.len() - 1) =~= lit);
                    assert(ends_lit(now, lit));
                    assert(joined(read@, k as int, now.take(now.len() - 1 - lit.len())));
                    assert(joined(read@, k + 1, now));
                }
            },
            _ => {
                assert(!(elems@[k as int] is Lit));
                return Vec::new();
            },
        }
        k = k + 1;
    }
    out
}

/// What a match ends with, as far as the last element tells.
fn last_suffix(elems: &Vec<Elem>, read: Ghost<Seq<SpecElem>>, seps: Ghost<Seps>, ci: Ghost<
    bool,
>, dot: Ghost<bool>) -> (r: Vec<u8>)
    requires
        compile::all_read(elems@, read@, seps@, ci@, dot@),
    ensures
        r@ == last_text(elems@),
        quick_ok(read@, r@),
{
    if elems.len() == 0 {
        return Vec::new();
    }
    let n: usize = elems.len() - 1;
    proof {
        assert(compile::reads(elems@[n as int], read@[n as int], seps@, ci@, dot@));
        assert(read@.last() == read@[n as int]);
    }
    match &elems[n] {
        Elem::Lit(bytes) => facts::clone_bytes(bytes),
        Elem::Wild(w) => w.known_suffix(seps, ci, dot),
        _ => Vec::new(),
    }
}

/// Precomputes what running the elements needs, or `None` where they are too
/// many.
pub fn finish(
    elems: Vec<Elem>,
    seps: Seps,
    ci: bool,
    dot: bool,
    read: Ghost<Seq<SpecElem>>,
) -> (r: Option<ElemSeq>)
    requires
        elems@.len() > 0,
        compile::all_read(elems@, read@, seps, ci, dot),
        compile::segs_in(read@, seps),
    ensures
        r is Some <==> compile::entry(read@, read@.len() as int) < MAX_SEQ_STATES,
        r is Some ==> r->0.wf(seps, ci, dot) && r->0.spec_elems() == read@,
{
    let ghost es = read@;
    let m: usize = elems.len();
    let mut state_of: Vec<usize> = Vec::new();
    let mut elem_of_states: Vec<usize> = Vec::new();
    let mut n: usize = 0;
    let mut g_count: usize = 0;
    let mut first_g: usize = 0;
    let mut k: usize = 0;
    while k < m
        invariant
            k <= m,
            m == elems@.len(),
            es == read@,
            m == es.len(),
            compile::all_read(elems@, es, seps, ci, dot),
            state_of@.len() == k,
            forall|j: int| 0 <= j < k ==> #[trigger] state_of@[j] == compile::entry(es, j),
            n == compile::entry(es, k as int),
            n < MAX_SEQ_STATES,
            elem_of_states@.len() == n,
            forall|q: int| 0 <= q < n ==> #[trigger] elem_of_states@[q] == elem_of(es, q),
            g_count <= k,
            g_count == globstars(es.take(k as int)),
            g_count == 0 ==> forall|j: int| 0 <= j < k ==> #[trigger] es[j] is Seg,
            g_count == 1 ==> first_g < k && !(es[first_g as int] is Seg) && forall|j: int|
                0 <= j < k && j != first_g ==> #[trigger] es[j] is Seg,
        decreases m - k,
    {
        proof {
            assert(compile::reads(elems@[k as int], es[k as int], seps, ci, dot));
            lemma_states_of(es, k as int);
        }
        proof {
            assert(es.take(k + 1).drop_last() =~= es.take(k as int));
            assert(es.take(k + 1).last() == es[k as int]);
        }
        state_of.push(n);
        let two: bool = matches!(&elems[k], Elem::G0Strict | Elem::G1);
        let globstar: bool = matches!(&elems[k], Elem::G0 | Elem::G0Strict | Elem::G1);
        if globstar {
            if g_count == 0 {
                first_g = k;
            }
            g_count = g_count + 1;
        }
        elem_of_states.push(k);
        n = n + 1;
        if two {
            elem_of_states.push(k);
            n = n + 1;
        }
        if n >= MAX_SEQ_STATES {
            proof {
                lemma_entry_mono(es, k + 1, m as int);
            }
            return None;
        }
        k = k + 1;
    }
    assert(es.take(m as int) =~= es);
    n = n + 1;
    elem_of_states.push(0);
    let eps: Vec<u64> = compute_eps(read, &elems, &state_of, n);
    let mut reach1: u64 = 0;
    let mut sat_tail: bool = true;
    let mut i: usize = m;
    proof {
        bits::lemma_zero_word(reach1);
        lemma_accept_stops(es, seps, ci);
    }
    while i > 0
        invariant
            i <= m,
            m == elems@.len(),
            es == read@,
            m == es.len(),
            n <= 64,
            n == compile::entry(es, m as int) + 1,
            compile::all_read(elems@, es, seps, ci, dot),
            compile::segs_in(es, seps),
            state_of@.len() == m,
            forall|j: int| 0 <= j < m ==> #[trigger] state_of@[j] == compile::entry(es, j),
            sat_tail == all_sat(es, i as int, seps, ci),
            forall|q: int|
                0 <= q < compile::entry(es, i as int) ==> !#[trigger] bits::bit(reach1, q),
            forall|q: int|
                compile::entry(es, i as int) <= q < n ==> (#[trigger] bits::bit(reach1, q)
                    <==> can_go_on(es, q, seps, ci)),
            forall|q: int| q >= n ==> !#[trigger] bits::bit(reach1, q),
        decreases i,
    {
        let ghost above = compile::entry(es, i as int);
        let ghost was = reach1;
        i = i - 1;
        let ghost kk = i as int;
        proof {
            assert(compile::reads(elems@[kk], es[kk], seps, ci, dot));
            lemma_entry_mono(es, kk, m as int);
            lemma_entry_mono(es, kk + 1, m as int);
        }
        let sat_i: bool = match &elems[i] {
            Elem::Wild(w) => w.is_satisfiable(seps, ci, dot),
            Elem::Lit(bytes) => {
                proof {
                    wild::lemma_lit_satisfiable(bytes@, seps, ci);
                }
                true
            },
            _ => true,
        };
        sat_tail = sat_i && sat_tail;
        proof {
            assert(sat_i == elem_sat(es[kk], seps, ci));
            assert(sat_tail == all_sat(es, kk, seps, ci)) by {
                if sat_tail {
                    assert forall|j: int| kk <= j < es.len() implies elem_sat(
                        #[trigger] es[j],
                        seps,
                        ci,
                    ) by {
                        if j > kk {
                        }
                    }
                } else if all_sat(es, kk, seps, ci) {
                    assert(elem_sat(es[kk], seps, ci));
                    assert(all_sat(es, kk + 1, seps, ci));
                }
            }
        }
        let s: usize = state_of[i];
        let two: bool = matches!(&elems[i], Elem::G0Strict | Elem::G1);
        proof {
            lemma_can_go_on(es, kk, false, s as int, seps, ci);
            if two {
                lemma_can_go_on(es, kk, true, s + 1, seps, ci);
            }
        }
        if sat_tail {
            reach1 = bits::either(reach1, bits::single(s));
            if two {
                reach1 = bits::either(reach1, bits::single(s + 1));
            }
        }
    }
    let single_g: usize = if g_count == 1 { first_g } else { usize::MAX };
    let joined_head: Vec<u8> = if g_count == 1 && single_g > 0 {
        join_head(&elems, single_g, read, Ghost(seps), Ghost(ci), Ghost(dot))
    } else {
        Vec::new()
    };
    let quick_suffix: Vec<u8> = last_suffix(&elems, read, Ghost(seps), Ghost(ci), Ghost(dot));
    proof {
        if g_count == 1 {
            assert(compile::reads(
                elems@[single_g as int],
                es[single_g as int],
                seps,
                ci,
                dot,
            ));
        }
    }
    Some(
        ElemSeq {
            elems,
            single_g,
            g_count,
            joined_head,
            state_of,
            elem_of: elem_of_states,
            num_states: n,
            eps,
            reach1,
            quick_suffix,
            read,
        },
    )
}

} // verus!
