//! Runs compiled forks over the segments of a path.

use crate::ast;
use crate::dir_match::DirMatch;
use crate::engine::bits;
use crate::engine::facts::{self, LiteralFacts};
use crate::engine::lang::{self, Cx};
use crate::engine::ops::ir;
use crate::engine::ops::prefixes;
use crate::engine::ops::{compute_static_prefixes, OpProgram, SpecOp};
use crate::engine::segment::compile;
use crate::engine::segment::compile::Elem;
use crate::engine::segment::elems::{self, SpecElem};
use crate::engine::segment::forks;
use crate::engine::segment::states::{self, ElemSeq};
use crate::engine::segment::wild;
use crate::seps::Seps;
use vstd::prelude::*;

verus! {

/// `s` goes on behind `path`, if at all, with a separator.
pub open spec fn extends(s: Seq<u8>, path: Seq<u8>, seps: Seps) -> bool {
    path.len() <= s.len() && s.take(path.len() as int) == path && (s.len() == path.len()
        || seps.has(s[path.len() as int]))
}

proof fn lemma_extends_seg(s: Seq<u8>, path: Seq<u8>, seps: Seps, i: int)
    requires
        extends(s, path, seps),
        0 <= i <= path.len(),
    ensures
        elems::seg_end(seps, s, i) == elems::seg_end(seps, path, i),
        i < path.len() ==> s[i] == path[i],
        i > 0 ==> s[i - 1] == path[i - 1],
    decreases path.len() - i,
{
    if i > 0 {
        assert(s.take(path.len() as int)[i - 1] == path[i - 1]);
    }
    if i < path.len() {
        assert(s.take(path.len() as int)[i] == path[i]);
        if !seps.has(path[i]) {
            lemma_extends_seg(s, path, seps, i + 1);
        }
    }
}

proof fn lemma_extends_self(path: Seq<u8>, seps: Seps)
    ensures
        extends(path, path, seps),
{
    assert(path.take(path.len() as int) =~= path);
}

/// The general run of a fork over `path` ends in the states of `active`: they
/// go on, behind whatever follows `path`, exactly as the fork does.
pub open spec fn reached(one: ElemSeq, cx: Cx, path: Seq<u8>, active: u64) -> bool {
    &&& forall|s: Seq<u8>| #[trigger]
        extends(s, path, cx.seps) ==> (elems::elems_match(one.read@, cx, s, 0)
            <==> states::some_consumes(one.read@, active, cx, s, path.len() as int + 1))
    &&& forall|u: int| #[trigger] bits::bit(active, u) ==> 0 <= u < one.num_states
}

/// Behind the whole path only the accept state goes on.
proof fn lemma_accepts(one: ElemSeq, cx: Cx, path: Seq<u8>, active: u64)
    requires
        one.num_states == compile::entry(one.read@, one.read@.len() as int) + 1,
        forall|u: int| #[trigger] bits::bit(active, u) ==> 0 <= u < one.num_states,
    ensures
        states::some_consumes(one.read@, active, cx, path, path.len() as int + 1) <==> bits::bit(
            active,
            one.num_states - 1,
        ),
{
    let es = one.read@;
    let i = path.len() as int + 1;
    let m = es.len() as int;
    let accept = compile::entry(es, m);
    states::lemma_entry_mono(es, 0, m);
    states::lemma_states_of(es, m);
    if bits::bit(active, accept) {
        assert(states::q_consumes(es, accept, cx, path, i));
    }
    if states::some_consumes(es, active, cx, path, i) {
        let q = choose|q: int| #[trigger]
            bits::bit(active, q) && states::q_consumes(es, q, cx, path, i);
        states::lemma_elem_of_state(es, q, 0);
        assert(q == accept);
    }
}

/// The shortcuts give the verdict of the general run. A fork without globstars
/// is compared segment by segment, and one with a single globstar from both
/// ends; what either finds is whether the run over the same path ends in the
/// accept state.
pub proof fn law_shortcuts_agree_with_run(
    one: ElemSeq,
    seps: Seps,
    ci: bool,
    dot: bool,
    path: Seq<u8>,
    active: u64,
)
    requires
        one.wf(seps, ci, dot),
        reached(one, lang::cx(seps, ci, dot, path.len() as int), path, active),
    ensures
        elems::elems_match(one.spec_elems(), lang::cx(seps, ci, dot, path.len() as int), path, 0)
            <==> bits::bit(active, one.num_states - 1),
{
    let cx = lang::cx(seps, ci, dot, path.len() as int);
    lemma_extends_self(path, seps);
    assert(extends(path, path, cx.seps));
    lemma_accepts(one, cx, path, active);
}

/// Where the segment that starts at `start` ends.
fn find_end(path: &[u8], start: usize, seps: Seps) -> (end: usize)
    requires
        start <= path@.len(),
    ensures
        end == elems::seg_end(seps, path@, start as int),
        start <= end <= path@.len(),
{
    let mut i: usize = start;
    while i < path.len() && !seps.is_sep(path[i])
        invariant
            start <= i <= path@.len(),
            elems::seg_end(seps, path@, i as int) == elems::seg_end(seps, path@, start as int),
        decreases path@.len() - i,
    {
        i = i + 1;
    }
    i
}

/// Where the segment that ends at `end` starts.
fn find_start(path: &[u8], end: usize, seps: Seps) -> (start: usize)
    requires
        end <= path@.len(),
    ensures
        start <= end,
        start == 0 || seps.has(path@[start - 1]),
        forall|k: int| start <= k < end ==> !seps.has(#[trigger] path@[k]),
{
    let mut s: usize = end;
    while s > 0 && !seps.is_sep(path[s - 1])
        invariant
            s <= end <= path@.len(),
            forall|k: int| s <= k < end ==> !seps.has(#[trigger] path@[k]),
        decreases s,
    {
        s = s - 1;
    }
    s
}

/// Whether one element takes the segment of `path` from `s` up to `t`.
fn elem_consumes(
    e: &Elem,
    path: &[u8],
    s: usize,
    t: usize,
    seps: Seps,
    ci: bool,
    dot: bool,
    se: Ghost<SpecElem>,
) -> (r: bool)
    requires
        compile::reads(*e, se@, seps, ci, dot),
        se@ matches SpecElem::Seg(ops) ==> elems::in_seg(ops, seps),
        s <= t <= path@.len(),
        s == 0 || seps.has(path@[s - 1]),
        t == elems::seg_end(seps, path@, s as int),
    ensures
        se@ is Seg ==> forall|whole: Seq<u8>| #[trigger]
            extends(whole, path@, seps) ==> r == lang::ops_span(
                se@->Seg_0,
                lang::cx(seps, ci, dot, path@.len() as int),
                whole,
                s as int,
                t as int,
            ),
        !(se@ is Seg) ==> !r,
{
    let seg: &[u8] = &path[s..t];
    let r: bool = match e {
        Elem::Lit(lit) => lit_eq(ci, lit, seg, Ghost(seps), Ghost(dot)),
        Elem::Wild(w) => {
            proof {
                elems::lemma_seg_end(seps, path@, s as int);
                assert forall|k: int| 0 <= k < seg@.len() implies !seps.has(#[trigger] seg@[k]) by {
                    assert(seg@[k] == path@[s + k]);
                }
            }
            w.consumes(seps, ci, dot, seg)
        },
        _ => false,
    };
    proof {
        if se@ is Seg {
            let ops = se@->Seg_0;
            let lim = path@.len() as int;
            assert forall|whole: Seq<u8>| #[trigger] extends(whole, path@, seps) implies r
                == lang::ops_span(
                ops,
                lang::cx(seps, ci, dot, lim),
                whole,
                s as int,
                t as int,
            ) by {
                lemma_extends_seg(whole, path@, seps, s as int);
                wild::lemma_alone(ops, seps, ci, dot, lim, whole, s as int);
                assert(whole.subrange(s as int, t as int) =~= seg@) by {
                    assert forall|k: int| s <= k < t implies whole[k] == path@[k] by {
                        assert(whole.take(path@.len() as int)[k] == path@[k]);
                    }
                }
            }
        }
    }
    r
}

/// Whether a segment is the literal.
fn lit_eq(ci: bool, lit: &Vec<u8>, seg: &[u8], seps: Ghost<Seps>, dot: Ghost<bool>) -> (r: bool)
    ensures
        r == lang::matches(
            compile::lit_ops(lit@),
            lang::cx(seps@, ci, dot@, seg@.len() as int),
            seg@,
        ),
{
    let ghost cx = lang::cx(seps@, ci, dot@, seg@.len() as int);
    proof {
        if lit@.len() > 0 {
            lang::lemma_span_single(SpecOp::Lit(lit@), cx, seg@, 0, seg@.len() as int);
        }
    }
    lit.len() == seg.len() && wild::lit_here(ci, lit, seg, 0, Ghost(cx))
}

/// A program that is matched segment by segment.
#[derive(Clone)]
pub struct SegmentMatcher {
    seqs: Vec<ElemSeq>,
    facts: LiteralFacts,
    prefixes: Vec<Vec<u8>>,
    case_insensitive: bool,
    dot: bool,
    seps: Seps,
    ops: Ghost<Seq<SpecOp>>,
}

/// Some fork of `ops` matches, with a leading `**/` absorbing leading
/// separators.
pub open spec fn fork_matches(ops: Seq<SpecOp>, cx: Cx, s: Seq<u8>) -> bool {
    exists|f: int|
        0 <= f < (forks::forks(ops)->0).len() && lang::matches(
            elems::with_leading_seps(#[trigger] (forks::forks(ops)->0)[f]),
            cx,
            s,
        )
}

impl SegmentMatcher {
    pub closed spec fn spec_ops(self) -> Seq<SpecOp> {
        self.ops@
    }

    pub closed spec fn spec_seps(self) -> Seps {
        self.seps
    }

    pub closed spec fn spec_ci(self) -> bool {
        self.case_insensitive
    }

    pub closed spec fn spec_dot(self) -> bool {
        self.dot
    }

    pub closed spec fn wf(self) -> bool {
        let fs = forks::forks(self.ops@)->0;
        &&& forks::forks(self.ops@) is Some
        &&& forks::all_flat(fs)
        &&& self.seqs@.len() == fs.len()
        &&& forall|f: int|
            0 <= f < fs.len() ==> compile::fork_elems(
                #[trigger] fs[f],
                self.seps,
                self.case_insensitive,
            ) is Some
        &&& forall|f: int|
            0 <= f < fs.len() ==> self.seq_ok(#[trigger] self.seqs@[f], fs[f])
        &&& self.facts.facts_of(self.ops@, self.case_insensitive)
        &&& prefixes::static_prefixes(self.ops@, facts::bytes_views(self.prefixes@))
    }

    spec fn seq_ok(self, one: ElemSeq, fork: Seq<SpecOp>) -> bool {
        one.wf(self.seps, self.case_insensitive, self.dot) && one.spec_elems()
            == compile::fork_elems(fork, self.seps, self.case_insensitive)->0
    }

    /// How the first `n` bytes of a path are matched.
    pub open spec fn cx(self, n: int) -> Cx {
        lang::cx(self.spec_seps(), self.spec_ci(), self.spec_dot(), n)
    }

    /// The program matches `path`.
    pub open spec fn matches(self, path: Seq<u8>) -> bool {
        fork_matches(self.spec_ops(), self.cx(path.len() as int), path)
    }

    /// The program matches something below `dir`, where beyond `dir` no dot is
    /// hidden.
    pub open spec fn below(self, dir: Seq<u8>) -> bool {
        exists|t: Seq<u8>| #[trigger]
            fork_matches(
                self.spec_ops(),
                self.cx(dir.len() as int),
                (dir + seq![0x2fu8]) + t,
            )
    }
}


/// A state over the segment at `i`: whether it takes it, and where it goes.
proof fn lemma_q_step(es: Seq<SpecElem>, k: int, body: bool, cx: Cx, s: Seq<u8>, i: int)
    requires
        0 <= k < es.len(),
        body ==> compile::weight(es[k]) == 2,
        0 <= i <= s.len(),
        elems::at_start(cx, s, i),
    ensures
        ({
            let end = elems::seg_end(cx.seps, s, i);
            let eats = states::consumes_match(es, k, body, cx, s, i);
            let to_next = states::state_match(es, k + 1, false, cx, s, end + 1);
            let to_entry = states::state_match(es, k, false, cx, s, end + 1);
            let to_body = states::state_match(es, k, true, cx, s, end + 1);
            &&& es[k] matches SpecElem::Seg(ops) ==> (eats <==> lang::ops_span(ops, cx, s, i, end)
                && to_next)
            &&& es[k] is G0 ==> (eats <==> !lang::hidden(cx, s, i) && to_entry)
            &&& es[k] is G0Strict ==> (eats <==> !lang::hidden(cx, s, i) && (body || end > i)
                && to_body)
            &&& es[k] is G1 ==> (eats <==> !lang::hidden(cx, s, i) && to_body)
        }),
{
    let end = elems::seg_end(cx.seps, s, i);
    elems::lemma_seg_end(cx.seps, s, i);
    let at = es.skip(k);
    let rest = es.skip(k + 1);
    assert(at[0] == es[k]);
    assert(at.drop_first() =~= rest);
    if es[k] is G0 {
        assert(elems::elems_match(at, cx, s, end + 1) == elems::absorb(rest, cx, s, end + 1));
    }
    if es[k] is G0Strict {
        assert(end > i <==> i < s.len() && !cx.seps.has(s[i])) by {
            if i < s.len() && !cx.seps.has(s[i]) {
                elems::lemma_seg_end(cx.seps, s, i + 1);
            }
        }
    }
}

impl SegmentMatcher {
    /// The set `active` goes on from `i` exactly as `next` does from `j`,
    /// however the path is continued.
    spec fn carries(
        self,
        es: Seq<SpecElem>,
        active: u64,
        i: int,
        next: u64,
        j: int,
        path: Seq<u8>,
    ) -> bool {
        forall|s: Seq<u8>| #[trigger]
            extends(s, path, self.seps) ==> (states::some_consumes(
                es,
                active,
                self.cx(path.len() as int),
                s,
                i,
            ) <==> states::some_consumes(es, next, self.cx(path.len() as int), s, j))
    }

    /// State `q` goes on from `i` exactly as `next` does from `j`, however the
    /// path is continued.
    spec fn carries_one(
        self,
        es: Seq<SpecElem>,
        q: int,
        i: int,
        next: u64,
        j: int,
        path: Seq<u8>,
    ) -> bool {
        forall|s: Seq<u8>| #[trigger]
            extends(s, path, self.seps) ==> (states::q_consumes(
                es,
                q,
                self.cx(path.len() as int),
                s,
                i,
            ) <==> states::some_consumes(es, next, self.cx(path.len() as int), s, j))
    }

    /// Where state `q` leads over the segment from `s` up to `t`.
    fn state_step(&self, one: &ElemSeq, q: usize, path: &[u8], s: usize, t: usize) -> (r: u64)
        requires
            one.wf(self.seps, self.case_insensitive, self.dot),
            q < one.num_states,
            s <= t <= path@.len(),
            s == 0 || self.seps.has(path@[s - 1]),
            t == elems::seg_end(self.seps, path@, s as int),
        ensures
            self.carries_one(one.read@, q as int, s as int, r, t + 1, path@),
            forall|u: int| #[trigger] bits::bit(r, u) ==> 0 <= u < one.num_states,
    {
        let ghost es = one.read@;
        let ghost lim = path@.len() as int;
        let ghost cx = self.cx(lim);
        let m: usize = one.elems.len();
        let accept: usize = one.num_states - 1;
        if q == accept {
            proof {
                states::lemma_states_of(es, m as int);
                bits::lemma_zero_word(0);
                assert forall|whole: Seq<u8>| #[trigger]
                    extends(whole, path@, self.seps) implies (states::q_consumes(
                    es,
                    q as int,
                    cx,
                    whole,
                    s as int,
                ) <==> states::some_consumes(es, 0, cx, whole, t + 1)) by {}
            }
            return 0;
        }
        proof {
            states::lemma_entry_mono(es, 0, m as int);
            states::lemma_elem_of_state(es, q as int, 0);
        }
        let k: usize = one.elem_of[q];
        let entry: usize = one.state_of[k];
        let next_entry: usize = if k + 1 < m { one.state_of[k + 1] } else { accept };
        let seg_dot_led: bool = s < t && path[s] == 0x2e;
        let absorb_ok: bool = self.dot || !seg_dot_led;
        let ghost kk = k as int;
        let ghost body = states::is_body(es, q as int);
        proof {
            states::lemma_states_of(es, kk);
            states::lemma_states_of(es, kk + 1);
            assert(compile::reads(
                one.elems@[kk],
                es[kk],
                self.seps,
                self.case_insensitive,
                self.dot,
            ));
            assert(compile::entry(es, kk + 1) == compile::entry(es, kk) + compile::weight(es[kk]));
            assert(next_entry == compile::entry(es, kk + 1));
            states::lemma_entry_mono(es, kk + 1, m as int);
            elems::lemma_seg_end(self.seps, path@, s as int);
            assert forall|whole: Seq<u8>| #[trigger] extends(whole, path@, self.seps) implies (
            absorb_ok <==> !lang::hidden(cx, whole, s as int)) && elems::at_start(
                cx,
                whole,
                s as int,
            ) && elems::at_start(cx, whole, t + 1) && elems::seg_end(self.seps, whole, s as int)
                == t by {
                lemma_extends_seg(whole, path@, self.seps, s as int);
                if t < path@.len() {
                    lemma_extends_seg(whole, path@, self.seps, t as int);
                }
            }
        }
        let (ok, target): (bool, usize) = match &one.elems[k] {
            Elem::Lit(_) | Elem::Wild(_) => (
                elem_consumes(
                    &one.elems[k],
                    path,
                    s,
                    t,
                    self.seps,
                    self.case_insensitive,
                    self.dot,
                    Ghost(es[kk]),
                ),
                next_entry,
            ),
            Elem::G0 => (absorb_ok, entry),
            Elem::G0Strict => (absorb_ok && !(q == entry && s == t), entry + 1),
            Elem::G1 => (absorb_ok, entry + 1),
        };
        let r: u64 = if ok { one.eps[target] } else { 0 };
        proof {
            bits::lemma_zero_word(0);
            assert(states::eps_ok(es, target as int, one.eps@[target as int]));
            assert forall|whole: Seq<u8>| #[trigger] extends(whole, path@, self.seps) implies (
            states::q_consumes(es, q as int, cx, whole, s as int) <==> states::some_consumes(
                es,
                r,
                cx,
                whole,
                t + 1,
            )) by {
                lemma_q_step(es, kk, body, cx, whole, s as int);
                assert(states::eps_at(
                    es,
                    target as int,
                    one.eps@[target as int],
                    cx,
                    whole,
                    t + 1,
                ));
            }
        }
        r
    }

    /// Where the set leads over the segment from `s` up to `t`.
    fn nfa_step(&self, one: &ElemSeq, active: u64, path: &[u8], s: usize, t: usize) -> (next: u64)
        requires
            one.wf(self.seps, self.case_insensitive, self.dot),
            forall|u: int| #[trigger] bits::bit(active, u) ==> 0 <= u < one.num_states,
            s <= t <= path@.len(),
            s == 0 || self.seps.has(path@[s - 1]),
            t == elems::seg_end(self.seps, path@, s as int),
        ensures
            self.carries(one.read@, active, s as int, next, t + 1, path@),
            forall|u: int| #[trigger] bits::bit(next, u) ==> 0 <= u < one.num_states,
    {
        let ghost es = one.read@;
        let ghost cx = self.cx(path@.len() as int);
        let mut next: u64 = 0;
        let mut word: u64 = active;
        proof {
            bits::lemma_zero_word(0);
        }
        while word != 0
            invariant
                one.wf(self.seps, self.case_insensitive, self.dot),
                es == one.read@,
                cx == self.cx(path@.len() as int),
                forall|u: int| #[trigger] bits::bit(active, u) ==> 0 <= u < one.num_states,
                forall|u: int| #[trigger] bits::bit(word, u) ==> bits::bit(active, u),
                forall|u: int| #[trigger] bits::bit(next, u) ==> 0 <= u < one.num_states,
                s <= t <= path@.len(),
                s == 0 || self.seps.has(path@[s - 1]),
                t == elems::seg_end(self.seps, path@, s as int),
                forall|whole: Seq<u8>| #[trigger]
                    extends(whole, path@, self.seps) ==> (states::some_consumes(
                        es,
                        next,
                        cx,
                        whole,
                        t + 1,
                    ) <==> exists|q: int|
                        bits::bit(active, q) && !(#[trigger] bits::bit(word, q))
                            && states::q_consumes(es, q, cx, whole, s as int)),
            decreases word,
        {
            let low: u32 = bits::lowest(word);
            let ghost word0 = word;
            let ghost next0 = next;
            let q: usize = low as usize;
            assert(bits::bit(active, q as int));
            word = bits::without_lowest(word, low);
            let to: u64 = self.state_step(one, q, path, s, t);
            next = bits::either(next, to);
            proof {
                assert forall|whole: Seq<u8>| #[trigger] extends(whole, path@, self.seps) implies (
                states::some_consumes(es, next, cx, whole, t + 1) <==> exists|p: int|
                    bits::bit(active, p) && !(#[trigger] bits::bit(word, p)) && states::q_consumes(
                        es,
                        p,
                        cx,
                        whole,
                        s as int,
                    )) by {
                    lemma_some_union(es, next0, to, next, cx, whole, t + 1);
                    let one_ok = states::q_consumes(es, q as int, cx, whole, s as int);
                    assert(one_ok <==> states::some_consumes(es, to, cx, whole, t + 1));
                    if states::some_consumes(es, next0, cx, whole, t + 1) {
                        let p = choose|p: int|
                            bits::bit(active, p) && !(#[trigger] bits::bit(word0, p))
                                && states::q_consumes(es, p, cx, whole, s as int);
                        assert(!bits::bit(word, p));
                    }
                    if one_ok {
                        assert(!bits::bit(word, q as int));
                    }
                    if exists|p: int|
                        bits::bit(active, p) && !(#[trigger] bits::bit(word, p))
                            && states::q_consumes(es, p, cx, whole, s as int) {
                        let p = choose|p: int|
                            bits::bit(active, p) && !(#[trigger] bits::bit(word, p))
                                && states::q_consumes(es, p, cx, whole, s as int);
                        if p != q {
                            assert(!bits::bit(word0, p));
                        }
                    }
                }
            }
        }
        proof {
            bits::lemma_zero_word(word);
            assert forall|whole: Seq<u8>| #[trigger] extends(whole, path@, self.seps) implies (
            states::some_consumes(es, active, cx, whole, s as int) <==> states::some_consumes(
                es,
                next,
                cx,
                whole,
                t + 1,
            )) by {
                if states::some_consumes(es, active, cx, whole, s as int) {
                    let q = choose|q: int| #[trigger]
                        bits::bit(active, q) && states::q_consumes(es, q, cx, whole, s as int);
                    assert(!bits::bit(word, q));
                }
            }
        }
        next
    }

    /// The set that the fork reaches over `path`.
    fn nfa_run(&self, one: &ElemSeq, path: &[u8]) -> (active: u64)
        requires
            one.wf(self.seps, self.case_insensitive, self.dot),
        ensures
            reached(*one, self.cx(path@.len() as int), path@, active),
    {
        let ghost es = one.read@;
        let ghost cx = self.cx(path@.len() as int);
        proof {
            states::lemma_states_of(es, 0);
            states::lemma_entry_mono(es, 0, es.len() as int);
        }
        let mut active: u64 = one.eps[one.state_of[0]];
        let mut pos: usize = 0;
        let mut done: bool = false;
        proof {
            assert(es.skip(0) =~= es);
            assert(states::eps_ok(es, 0, active));
            assert forall|s: Seq<u8>| #[trigger] extends(s, path@, self.seps) implies (
            elems::elems_match(es, cx, s, 0) <==> states::some_consumes(es, active, cx, s, 0)) by {
                assert(states::eps_at(es, 0, active, cx, s, 0));
                assert(elems::at_start(cx, s, 0));
            }
        }
        while !done
            invariant
                one.wf(self.seps, self.case_insensitive, self.dot),
                es == one.read@,
                cx == self.cx(path@.len() as int),
                !done ==> pos <= path@.len() && (pos == 0 || self.seps.has(path@[pos - 1])),
                forall|u: int| #[trigger] bits::bit(active, u) ==> 0 <= u < one.num_states,
                forall|s: Seq<u8>| #[trigger]
                    extends(s, path@, self.seps) ==> (elems::elems_match(es, cx, s, 0)
                        <==> states::some_consumes(
                        es,
                        active,
                        cx,
                        s,
                        if done { path@.len() as int + 1 } else { pos as int },
                    )),
            decreases path@.len() + 1 - pos, if done { 0nat } else { 1 },
        {
            if active == 0 {
                proof {
                    bits::lemma_zero_word(0);
                }
                return 0;
            }
            let end: usize = find_end(path, pos, self.seps);
            let next: u64 = self.nfa_step(one, active, path, pos, end);
            proof {
                elems::lemma_seg_end(self.seps, path@, pos as int);
                assert forall|s: Seq<u8>| #[trigger] extends(s, path@, self.seps) implies (
                elems::elems_match(es, cx, s, 0) <==> states::some_consumes(
                    es,
                    next,
                    cx,
                    s,
                    end + 1,
                )) by {
                    assert(self.carries(es, active, pos as int, next, end + 1, path@));
                }
            }
            active = next;
            if end == path.len() {
                done = true;
            } else {
                pos = end + 1;
            }
        }
        active
    }
}

proof fn lemma_some_union(
    es: Seq<SpecElem>,
    a: u64,
    b: u64,
    both: u64,
    cx: Cx,
    s: Seq<u8>,
    i: int,
)
    requires
        forall|j: int| #[trigger] bits::bit(both, j) <==> (bits::bit(a, j) || bits::bit(b, j)),
    ensures
        states::some_consumes(es, both, cx, s, i) <==> (states::some_consumes(es, a, cx, s, i)
            || states::some_consumes(es, b, cx, s, i)),
{
    if states::some_consumes(es, a, cx, s, i) {
        let q = choose|q: int| #[trigger]
            bits::bit(a, q) && states::q_consumes(es, q, cx, s, i);
        assert(bits::bit(both, q));
    }
    if states::some_consumes(es, b, cx, s, i) {
        let q = choose|q: int| #[trigger]
            bits::bit(b, q) && states::q_consumes(es, q, cx, s, i);
        assert(bits::bit(both, q));
    }
    if states::some_consumes(es, both, cx, s, i) {
        let q = choose|q: int| #[trigger]
            bits::bit(both, q) && states::q_consumes(es, q, cx, s, i);
        if bits::bit(a, q) {
        } else {
            assert(bits::bit(b, q));
        }
    }
}

/// How far the segments of a path have been taken.
struct Mark {
    /// Where the next segment starts.
    pos: usize,
    /// The last segment has been taken.
    past: bool,
}

impl Mark {
    spec fn at(self, n: int) -> int {
        if self.past {
            n + 1
        } else {
            self.pos as int
        }
    }
}

/// A segment element takes the segment at `i`.
proof fn lemma_seg_elem(es: Seq<SpecElem>, k: int, cx: Cx, s: Seq<u8>, i: int)
    requires
        0 <= k < es.len(),
        es[k] is Seg,
    ensures
        elems::elems_match(es.skip(k), cx, s, i) <==> i <= s.len() && lang::ops_span(
            es[k]->Seg_0,
            cx,
            s,
            i,
            elems::seg_end(cx.seps, s, i),
        ) && elems::elems_match(es.skip(k + 1), cx, s, elems::seg_end(cx.seps, s, i) + 1),
{
    assert(es.skip(k)[0] == es[k]);
    assert(es.skip(k).drop_first() =~= es.skip(k + 1));
}

/// Only one segment ends at `end`.
proof fn lemma_one_start(cx: Cx, s: Seq<u8>, start: int, end: int, i: int)
    requires
        0 <= start <= end <= s.len(),
        end == s.len() || cx.seps.has(s[end]),
        start == 0 || cx.seps.has(s[start - 1]),
        forall|k: int| start <= k < end ==> !cx.seps.has(#[trigger] s[k]),
        elems::at_start(cx, s, i),
        i <= s.len(),
    ensures
        elems::seg_end(cx.seps, s, i) == end <==> i == start,
{
    elems::lemma_seg_end(cx.seps, s, i);
    let e = elems::seg_end(cx.seps, s, i);
    if i == start {
        if e < end {
            assert(!cx.seps.has(s[e]));
        }
        if e > end {
            assert(!cx.seps.has(s[end]));
        }
    } else if e == end {
        if i < start {
            assert(!cx.seps.has(s[start - 1]));
        } else {
            assert(!cx.seps.has(s[i - 1]));
        }
    }
}

/// One segment of a run of hops.
proof fn lemma_hop(cx: Cx, s: Seq<u8>, i: int, j: int)
    requires
        elems::at_start(cx, s, i),
        elems::at_start(cx, s, j),
        i <= s.len(),
        i < j,
    ensures
        elems::hops(cx, s, i, j) <==> !lang::hidden(cx, s, i) && elems::hops(
            cx,
            s,
            elems::seg_end(cx.seps, s, i) + 1,
            j,
        ),
{
    let end = elems::seg_end(cx.seps, s, i);
    elems::lemma_seg_end(cx.seps, s, i);
    elems::lemma_next_start(cx, s, i, j);
    if !lang::hidden(cx, s, i) {
        elems::lemma_segment_hidden(cx, s, i);
        if elems::hops(cx, s, end + 1, j) {
            assert(lang::no_hidden(cx, s, i, j));
        }
    }
    if elems::hops(cx, s, i, j) {
        assert(!lang::hidden(cx, s, i));
        assert(lang::no_hidden(cx, s, end + 1, j));
    }
}

/// The elements behind element `g` match from position `t` alone.
spec fn only_at(es: Seq<SpecElem>, g: int, cx: Cx, s: Seq<u8>, t: int) -> bool {
    forall|i: int| #[trigger]
        elems::at_start(cx, s, i) ==> (elems::elems_match(es.skip(g), cx, s, i) <==> i == t)
}

/// The elements from `g` on match nowhere.
spec fn nowhere(es: Seq<SpecElem>, g: int, cx: Cx, s: Seq<u8>) -> bool {
    forall|i: int| #[trigger]
        elems::at_start(cx, s, i) ==> !elems::elems_match(es.skip(g), cx, s, i)
}

/// What fails behind element `k` fails as a whole.
proof fn lemma_nowhere(es: Seq<SpecElem>, k: int, cx: Cx, s: Seq<u8>)
    requires
        0 <= k <= es.len(),
        nowhere(es, k, cx, s),
    ensures
        nowhere(es, 0, cx, s),
    decreases k,
{
    if k > 0 {
        assert forall|i: int| #[trigger] elems::at_start(cx, s, i) implies !elems::elems_match(
            es.skip(k - 1),
            cx,
            s,
            i,
        ) by {
            let at = es.skip(k - 1);
            let rest = es.skip(k);
            assert(at[0] == es[k - 1]);
            assert(at.drop_first() =~= rest);
            elems::lemma_seg_end(cx.seps, s, i);
            let end = elems::seg_end(cx.seps, s, i);
            elems::lemma_absorb(rest, cx, s, i);
            assert forall|j: int| #[trigger] lang::cut(j) && elems::hops(cx, s, i, j) implies
                elems::at_start(cx, s, j) by {}
            assert(!elems::absorb(rest, cx, s, i));
            if i <= s.len() {
                assert(elems::at_start(cx, s, end + 1));
                elems::lemma_absorb(rest, cx, s, end + 1);
                assert forall|j: int| #[trigger]
                    lang::cut(j) && elems::hops(cx, s, end + 1, j) implies elems::at_start(
                    cx,
                    s,
                    j,
                ) by {}
                assert(!elems::absorb(rest, cx, s, end + 1));
            }
            if at[0] is G0 {
                assert(elems::elems_match(at, cx, s, i) == elems::absorb(rest, cx, s, i));
            }
        }
        lemma_nowhere(es, k - 1, cx, s);
    }
}

/// What a globstar in front of a tail that matches from `t` alone matches.
proof fn lemma_globstar_then(es: Seq<SpecElem>, g: int, cx: Cx, s: Seq<u8>, i: int, t: int)
    requires
        0 <= g < es.len(),
        !(es[g] is Seg),
        only_at(es, g + 1, cx, s, t),
        elems::at_start(cx, s, i),
        elems::at_start(cx, s, t),
    ensures
        elems::elems_match(es.skip(g), cx, s, i) <==> elems::hops(cx, s, i, t) && (match es[g] {
            SpecElem::G0Strict => i == t || (i < s.len() && !cx.seps.has(s[i])),
            SpecElem::G1 => i < t,
            _ => true,
        }),
{
    let at = es.skip(g);
    let rest = es.skip(g + 1);
    assert(at[0] == es[g]);
    assert(at.drop_first() =~= rest);
    lemma_absorb_at(es, g, cx, s, i, t);
    elems::lemma_seg_end(cx.seps, s, i);
    let end = elems::seg_end(cx.seps, s, i);
    if i <= s.len() {
        assert(elems::at_start(cx, s, end + 1));
        lemma_absorb_at(es, g, cx, s, end + 1, t);
        if i < t {
            lemma_hop(cx, s, i, t);
        }
    }
    if at[0] is G0 {
        assert(elems::elems_match(at, cx, s, i) == elems::absorb(rest, cx, s, i));
    }
}

proof fn lemma_absorb_at(es: Seq<SpecElem>, g: int, cx: Cx, s: Seq<u8>, i: int, t: int)
    requires
        0 <= g < es.len(),
        only_at(es, g + 1, cx, s, t),
        elems::at_start(cx, s, i),
        elems::at_start(cx, s, t),
    ensures
        elems::absorb(es.skip(g + 1), cx, s, i) <==> elems::hops(cx, s, i, t),
{
    let rest = es.skip(g + 1);
    elems::lemma_absorb(rest, cx, s, i);
    assert(elems::elems_match(rest, cx, s, t));
    if elems::hops(cx, s, i, t) {
        assert(lang::cut(t) && elems::hops(cx, s, i, t));
    }
    if elems::hops_then(rest, cx, s, i) {
        let j = choose|j: int| #[trigger]
            lang::cut(j) && elems::hops(cx, s, i, j) && elems::elems_match(rest, cx, s, j);
        assert(elems::at_start(cx, s, j));
    }
}

/// Whether the bytes of a joined head stand at the front of a path.
spec fn head_here(ci: bool, seps: Seps, head: Seq<u8>, path: Seq<u8>) -> bool {
    head.len() <= path.len() && forall|k: int|
        0 <= k < head.len() ==> head_byte(ci, seps, #[trigger] head[k], path[k])
}

spec fn head_byte(ci: bool, seps: Seps, h: u8, b: u8) -> bool {
    if h == 0x2f {
        seps.has(b)
    } else {
        ast::same_byte(ci, h, b)
    }
}

/// A joined head takes what its elements take, but for the end of the path.
#[verifier::spinoff_prover]
proof fn lemma_joined(es: Seq<SpecElem>, g: int, head: Seq<u8>, cx: Cx, path: Seq<u8>)
    requires
        0 <= g <= es.len(),
        states::joined(es, g, head),
        compile::segs_in(es, cx.seps),
    ensures
        head_here(cx.ci, cx.seps, head, path) ==> elems::at_start(cx, path, head.len() as int)
            && head.len() <= path.len() && (elems::elems_match(es, cx, path, 0)
            <==> elems::elems_match(es.skip(g), cx, path, head.len() as int)),
        !head_here(cx.ci, cx.seps, head, path) && elems::elems_match(es, cx, path, 0)
            ==> elems::elems_match(es.skip(g), cx, path, path.len() as int + 1),
    decreases g,
{
    if g == 0 {
        assert(es.skip(0) =~= es);
    } else {
        let lit = choose|lit: Seq<u8>| #[trigger]
            states::ends_lit(head, lit) && es[g - 1] == SpecElem::Seg(compile::lit_ops(lit))
                && states::joined(es, g - 1, head.take(head.len() - 1 - lit.len()));
        let at = head.len() - 1 - lit.len();
        let before = head.take(at);
        lemma_joined(es, g - 1, before, cx, path);
        lemma_seg_elem(es, g - 1, cx, path, at);
        lemma_seg_elem(es, g - 1, cx, path, path.len() as int + 1);
        assert(head.subrange(at, head.len() - 1) == lit);
        if head_here(cx.ci, cx.seps, head, path) {
            assert forall|k: int| 0 <= k < before.len() implies head_byte(
                cx.ci,
                cx.seps,
                #[trigger] before[k],
                path[k],
            ) by {
                assert(before[k] == head[k]);
            }
        }
        if head_here(cx.ci, cx.seps, before, path) {
            lemma_lit_seg(lit, head, cx, path, at, es[g - 1]);
        }
    }
}

/// One literal of a joined head.
proof fn lemma_lit_seg(lit: Seq<u8>, head: Seq<u8>, cx: Cx, path: Seq<u8>, at: int, e: SpecElem)
    requires
        e == SpecElem::Seg(compile::lit_ops(lit)),
        elems::in_seg(compile::lit_ops(lit), cx.seps),
        states::ends_lit(head, lit),
        at == head.len() - 1 - lit.len(),
        head_here(cx.ci, cx.seps, head.take(at), path),
        elems::at_start(cx, path, at),
        at <= path.len(),
    ensures
        ({
            let end = elems::seg_end(cx.seps, path, at);
            let eats = lang::ops_span(compile::lit_ops(lit), cx, path, at, end);
            &&& head_here(cx.ci, cx.seps, head, path) ==> eats && end + 1 == head.len()
            &&& !head_here(cx.ci, cx.seps, head, path) && eats ==> end == path.len()
        }),
{
    let end = elems::seg_end(cx.seps, path, at);
    elems::lemma_seg_end(cx.seps, path, at);
    let here = head_here(cx.ci, cx.seps, head, path);
    if lit.len() > 0 {
        lang::lemma_span_single(SpecOp::Lit(lit), cx, path, at, end);
        assert(compile::lit_ops(lit)[0] == SpecOp::Lit(lit));
        assert(elems::in_seg_op(compile::lit_ops(lit)[0], cx.seps));
    }
    assert forall|k: int| 0 <= k < lit.len() implies #[trigger] lit[k] == head[at + k]
        && !cx.seps.has(lit[k]) by {
        assert(head.subrange(at, head.len() - 1)[k] == head[at + k]);
    }
    if here {
        assert(head_byte(cx.ci, cx.seps, head[head.len() - 1], path[head.len() - 1]));
        assert forall|k: int| 0 <= k < lit.len() implies ast::same_byte(
            cx.ci,
            #[trigger] lit[k],
            path[at + k],
        ) && !cx.seps.has(path[at + k]) by {
            assert(lit[k] == head[at + k]);
            assert(head_byte(cx.ci, cx.seps, head[at + k], path[at + k]));
        }
        assert(end == at + lit.len()) by {
            if end < at + lit.len() {
                assert(lit[end - at] == head[end]);
            }
            if end > at + lit.len() {
                assert(!cx.seps.has(path[at + lit.len()]));
            }
        }
    } else if lang::ops_span(compile::lit_ops(lit), cx, path, at, end) {
        assert(end == at + lit.len());
        if end < path.len() {
            assert forall|k: int| 0 <= k < head.len() implies head_byte(
                cx.ci,
                cx.seps,
                #[trigger] head[k],
                path[k],
            ) by {
                if k < at {
                    assert(head.take(at)[k] == head[k]);
                } else if k < end {
                    assert(lit[k - at] == head[k]);
                    assert(ast::same_byte(cx.ci, lit[k - at], path[at + (k - at)]));
                }
            }
        }
    }
}

impl SegmentMatcher {
    /// Takes the first `n` elements, none of them a globstar, from the front.
    fn match_head(&self, one: &ElemSeq, path: &[u8], n: usize) -> (r: Option<Mark>)
        requires
            one.wf(self.seps, self.case_insensitive, self.dot),
            n <= one.read@.len(),
            forall|k: int| 0 <= k < n ==> #[trigger] one.read@[k] is Seg,
        ensures
            ({
                let cx = self.cx(path@.len() as int);
                let all = elems::elems_match(one.read@, cx, path@, 0);
                match r {
                    Some(m) => {
                        let at = m.at(path@.len() as int);
                        elems::at_start(cx, path@, at) && (m.past || m.pos <= path@.len()) && (
                        all <==> elems::elems_match(
                            one.read@.skip(n as int),
                            cx,
                            path@,
                            at,
                        ))
                    },
                    None => !all,
                }
            }),
    {
        let ghost es = one.read@;
        let ghost cx = self.cx(path@.len() as int);
        let mut mark = Mark { pos: 0, past: false };
        proof {
            assert(es.skip(0) =~= es);
            lemma_extends_self(path@, self.seps);
        }
        for k in 0..n
            invariant
                one.wf(self.seps, self.case_insensitive, self.dot),
                n <= es.len(),
                es == one.read@,
                cx == self.cx(path@.len() as int),
                forall|j: int| 0 <= j < n ==> #[trigger] es[j] is Seg,
                extends(path@, path@, self.seps),
                elems::at_start(cx, path@, mark.at(path@.len() as int)),
                !mark.past ==> mark.pos <= path@.len(),
                elems::elems_match(es, cx, path@, 0) <==> elems::elems_match(
                    es.skip(k as int),
                    cx,
                    path@,
                    mark.at(path@.len() as int),
                ),
        {
            proof {
                lemma_seg_elem(es, k as int, cx, path@, mark.at(path@.len() as int));
                assert(compile::reads(
                    one.elems@[k as int],
                    es[k as int],
                    self.seps,
                    self.case_insensitive,
                    self.dot,
                ));
            }
            if mark.past {
                return None;
            }
            let s: usize = mark.pos;
            let t: usize = find_end(path, s, self.seps);
            let ok: bool = elem_consumes(
                &one.elems[k],
                path,
                s,
                t,
                self.seps,
                self.case_insensitive,
                self.dot,
                Ghost(es[k as int]),
            );
            if !ok {
                return None;
            }
            proof {
                elems::lemma_seg_end(self.seps, path@, s as int);
            }
            if t < path.len() {
                mark = Mark { pos: t + 1, past: false };
            } else {
                mark = Mark { pos: t, past: true };
            }
        }
        Some(mark)
    }

    /// A fork without globstars takes its segments one by one.
    fn match_fixed(&self, one: &ElemSeq, path: &[u8]) -> (r: bool)
        requires
            one.wf(self.seps, self.case_insensitive, self.dot),
            one.g_count == 0,
        ensures
            r == elems::elems_match(one.read@, self.cx(path@.len() as int), path@, 0),
    {
        let m: usize = one.elems.len();
        assert(one.read@.skip(m as int).len() == 0);
        match self.match_head(one, path, m) {
            Some(mark) => mark.past,
            None => false,
        }
    }

    /// Whether a joined head stands at the front of the path.
    fn head_matches(&self, head: &Vec<u8>, path: &[u8]) -> (r: bool)
        ensures
            r == head_here(self.case_insensitive, self.seps, head@, path@),
    {
        if path.len() < head.len() {
            return false;
        }
        for i in 0..head.len()
            invariant
                head@.len() <= path@.len(),
                forall|k: int|
                    0 <= k < i ==> head_byte(
                        self.case_insensitive,
                        self.seps,
                        #[trigger] head@[k],
                        path@[k],
                    ),
        {
            let hb: u8 = head[i];
            let pb: u8 = path[i];
            let ok: bool = if hb == 0x2f {
                self.seps.is_sep(pb)
            } else {
                ast::eq_byte(self.case_insensitive, hb, pb)
            };
            if !ok {
                assert(!head_byte(self.case_insensitive, self.seps, head@[i as int], path@[i as int]));
                return false;
            }
        }
        true
    }

    /// Takes the elements behind element `g` from the back. `Some` is where
    /// they start.
    fn match_tail(&self, one: &ElemSeq, path: &[u8], g: usize) -> (r: Option<usize>)
        requires
            one.wf(self.seps, self.case_insensitive, self.dot),
            g + 1 < one.read@.len(),
            forall|k: int| g < k < one.read@.len() ==> #[trigger] one.read@[k] is Seg,
        ensures
            ({
                let cx = self.cx(path@.len() as int);
                match r {
                    Some(ts) => elems::at_start(cx, path@, ts as int) && ts <= path@.len()
                        && only_at(one.read@, g + 1, cx, path@, ts as int),
                    None => !elems::elems_match(one.read@, cx, path@, 0),
                }
            }),
    {
        let ghost es = one.read@;
        let ghost cx = self.cx(path@.len() as int);
        let ghost n = path@.len() as int;
        let mut tail_end: usize = path.len();
        let mut j: usize = one.elems.len();
        let mut ts: usize = 0;
        proof {
            lemma_extends_self(path@, self.seps);
            assert(es.skip(j as int).len() == 0);
            assert(es.skip(0) =~= es);
            assert(elems::at_start(cx, path@, 0));
        }
        while j > g + 1
            invariant
                one.wf(self.seps, self.case_insensitive, self.dot),
                es == one.read@,
                cx == self.cx(n),
                n == path@.len(),
                es.skip(0) == es,
                elems::at_start(cx, path@, 0),
                g + 1 <= j <= es.len(),
                forall|k: int| g < k < es.len() ==> #[trigger] es[k] is Seg,
                extends(path@, path@, self.seps),
                j > g + 1 ==> tail_end <= n && (tail_end == n || self.seps.has(path@[tail_end as int])),
                j > g + 1 ==> only_at(es, j as int, cx, path@, tail_end + 1),
                j == g + 1 ==> ts <= n && elems::at_start(cx, path@, ts as int) && only_at(
                    es,
                    j as int,
                    cx,
                    path@,
                    ts as int,
                ),
            decreases j,
        {
            let s: usize = find_start(path, tail_end, self.seps);
            let ghost jj = j as int;
            j = j - 1;
            proof {
                lemma_one_start(cx, path@, s as int, tail_end as int, s as int);
                assert(compile::reads(
                    one.elems@[j as int],
                    es[j as int],
                    self.seps,
                    self.case_insensitive,
                    self.dot,
                ));
            }
            let ok: bool = elem_consumes(
                &one.elems[j],
                path,
                s,
                tail_end,
                self.seps,
                self.case_insensitive,
                self.dot,
                Ghost(es[j as int]),
            );
            proof {
                assert forall|i: int| #[trigger] elems::at_start(cx, path@, i) implies (
                elems::elems_match(es.skip(j as int), cx, path@, i) <==> ok && i == s) by {
                    lemma_seg_elem(es, j as int, cx, path@, i);
                    if i <= n {
                        lemma_one_start(cx, path@, s as int, tail_end as int, i);
                        elems::lemma_seg_end(cx.seps, path@, i);
                        assert(elems::at_start(
                            cx,
                            path@,
                            elems::seg_end(cx.seps, path@, i) + 1,
                        ));
                    }
                }
            }
            if !ok {
                proof {
                    lemma_nowhere(es, j as int, cx, path@);
                }
                return None;
            }
            if j > g + 1 {
                if s == 0 {
                    proof {
                        assert forall|i: int| #[trigger]
                            elems::at_start(cx, path@, i) implies !elems::elems_match(
                            es.skip(j - 1),
                            cx,
                            path@,
                            i,
                        ) by {
                            lemma_seg_elem(es, j - 1, cx, path@, i);
                            if i <= n {
                                elems::lemma_seg_end(cx.seps, path@, i);
                                assert(elems::at_start(
                                    cx,
                                    path@,
                                    elems::seg_end(cx.seps, path@, i) + 1,
                                ));
                            }
                        }
                        lemma_nowhere(es, j - 1, cx, path@);
                    }
                    return None;
                }
                tail_end = s - 1;
            }
            ts = s;
        }
        Some(ts)
    }

    /// Whether no segment between the two positions starts with a hidden dot.
    fn no_dot_between(&self, path: &[u8], start: usize, end: usize) -> (r: bool)
        requires
            start <= path@.len(),
            end <= path@.len(),
            start == 0 || self.seps.has(path@[start - 1]),
            !self.dot,
        ensures
            r == lang::no_hidden(self.cx(path@.len() as int), path@, start as int, end as int),
    {
        let ghost cx = self.cx(path@.len() as int);
        if start < end && path[start] == 0x2e {
            assert(lang::hidden(cx, path@, start as int));
            return false;
        }
        let mut i: usize = start;
        while i < end
            invariant
                start <= i <= path@.len(),
                end <= path@.len(),
                start == 0 || self.seps.has(path@[start - 1]),
                start < end ==> path@[start as int] != 0x2e,
                !self.dot,
                cx == self.cx(path@.len() as int),
                lang::no_hidden(
                    cx,
                    path@,
                    start as int,
                    if i < end {
                        i + 1
                    } else {
                        end as int
                    },
                ),
            decreases end - i,
        {
            if i + 1 < end && self.seps.is_sep(path[i]) && path[i + 1] == 0x2e {
                assert(lang::hidden(cx, path@, i + 1));
                return false;
            }
            i = i + 1;
        }
        true
    }

    /// A fork with one globstar: the elements in front of it are taken from
    /// the front, those behind it from the back, and it absorbs what is left.
    fn match_single_g(&self, one: &ElemSeq, path: &[u8]) -> (r: bool)
        requires
            one.wf(self.seps, self.case_insensitive, self.dot),
            one.g_count == 1,
        ensures
            r == elems::elems_match(one.read@, self.cx(path@.len() as int), path@, 0),
    {
        let ghost es = one.read@;
        let ghost n = path@.len() as int;
        let ghost cx = self.cx(n);
        let g: usize = one.single_g;
        let m: usize = one.elems.len();
        let has_tail: bool = g + 1 < m;
        let mut ts: usize = path.len();
        if has_tail {
            match self.match_tail(one, path, g) {
                Some(t) => {
                    ts = t;
                },
                None => {
                    return false;
                },
            }
        }
        let ghost t = if has_tail {
            ts as int
        } else {
            n + 1
        };
        proof {
            if !has_tail {
                assert(es.skip(g + 1).len() == 0);
            }
            assert(only_at(es, g + 1, cx, path@, t));
            assert(elems::at_start(cx, path@, t));
        }
        let needs_more: bool = has_tail || matches!(&one.elems[g], Elem::G1);
        assert(compile::reads(
            one.elems@[g as int],
            es[g as int],
            self.seps,
            self.case_insensitive,
            self.dot,
        ));
        let mark: Mark = if one.joined_head.len() > 0 && needs_more {
            proof {
                lemma_joined(es, g as int, one.joined_head@, cx, path@);
                lemma_globstar_then(es, g as int, cx, path@, n + 1, t);
            }
            if !self.head_matches(&one.joined_head, path) {
                return false;
            }
            Mark { pos: one.joined_head.len(), past: false }
        } else {
            match self.match_head(one, path, g) {
                Some(mark) => mark,
                None => {
                    return false;
                },
            }
        };
        let ghost i = mark.at(n);
        proof {
            lemma_globstar_then(es, g as int, cx, path@, i, t);
        }
        let mid_exists: bool = if has_tail {
            if mark.past || ts < mark.pos {
                return false;
            }
            ts > mark.pos
        } else {
            !mark.past
        };
        let mid_end: usize = if has_tail && ts > 0 {
            ts - 1
        } else {
            ts
        };
        assert(mid_exists <==> i < t);
        match &one.elems[g] {
            Elem::G0Strict => {
                if mid_exists && (mark.pos >= path.len() || self.seps.is_sep(path[mark.pos])) {
                    return false;
                }
            },
            Elem::G1 => {
                if !mid_exists {
                    return false;
                }
            },
            _ => {},
        }
        if self.dot || !mid_exists {
            return true;
        }
        let r: bool = self.no_dot_between(path, mark.pos, mid_end);
        proof {
            assert(!lang::hidden(cx, path@, t - 1));
            assert(r == lang::no_hidden(cx, path@, i, t));
        }
        r
    }
}

/// What every match of the elements ends with.
proof fn lemma_quick(
    es: Seq<SpecElem>,
    suffix: Seq<u8>,
    seps: Seps,
    ci: bool,
    dot: bool,
    path: Seq<u8>,
)
    requires
        states::quick_ok(es, suffix),
        suffix.len() > 0,
        compile::segs_in(es, seps),
        elems::elems_match(es, lang::cx(seps, ci, dot, path.len() as int), path, 0),
    ensures
        lang::lit_at(
            lang::cx(seps, ci, dot, path.len() as int),
            suffix,
            path,
            path.len() - suffix.len(),
        ),
        suffix.len() <= path.len(),
{
    let n = path.len() as int;
    let cx = lang::cx(seps, ci, dot, n);
    let last = es.len() - 1;
    assert(es[last] is Seg);
    let ops = es[last]->Seg_0;
    assert(es.skip(0) =~= es);
    assert(es.skip(last + 1).len() == 0);
    if nowhere(es, last, cx, path) {
        lemma_nowhere(es, last, cx, path);
        assert(elems::at_start(cx, path, 0));
    }
    let i = choose|i: int| #[trigger]
        elems::at_start(cx, path, i) && elems::elems_match(es.skip(last), cx, path, i);
    lemma_seg_elem(es, last, cx, path, i);
    elems::lemma_seg_end(seps, path, i);
    assert(lang::ops_span(ops, cx, path, i, n));
    if ops == compile::lit_ops(suffix) {
        lang::lemma_span_single(SpecOp::Lit(suffix), cx, path, i, n);
    } else {
        let seg = path.subrange(i, n);
        let alone = lang::cx(seps, ci, dot, seg.len() as int);
        wild::lemma_alone(ops, seps, ci, dot, n, path, i);
        wild::lemma_affix(ops, alone, seg);
        let k = choose|k: int|
            0 <= k < seq![suffix].len() && #[trigger] wild::affix_end(
                wild::lead_bytes(ops),
                wild::any_chars(wild::wilds(ops)),
                wild::has_star(wild::wilds(ops)),
                seq![suffix][k],
                alone,
                seg,
            );
        assert(seq![suffix][k] == suffix);
        wild::lemma_wilds_count(ops);
        assert forall|m: int| 0 <= m < suffix.len() implies ast::same_byte(
            ci,
            #[trigger] suffix[m],
            path[n - suffix.len() + m],
        ) by {
            assert(seg[seg.len() - suffix.len() + m] == path[n - suffix.len() + m]);
        }
    }
}

/// A match of some fork is a match of the program behind leading separators.
proof fn lemma_fork_span(ops: Seq<SpecOp>, cx: Cx, s: Seq<u8>) -> (k: int)
    requires
        forks::forks(ops) is Some,
        fork_matches(ops, cx, s),
    ensures
        lang::ops_span(ops, cx, s, k, s.len() as int),
        0 <= k <= s.len(),
        lang::all_sep(cx, s, 0, k),
{
    let fs = forks::forks(ops)->0;
    let n = s.len() as int;
    let f = choose|f: int|
        0 <= f < fs.len() && lang::matches(elems::with_leading_seps(#[trigger] fs[f]), cx, s);
    let fork = fs[f];
    let k: int = if fork.len() > 0 && fork[0] is OptSegmentsSlash {
        lang::lemma_span_concat(seq![SpecOp::LeadingSeps], fork, cx, s, 0, n);
        let k = choose|k: int| #[trigger]
            lang::cut(k) && lang::ops_span(seq![SpecOp::LeadingSeps], cx, s, 0, k)
                && lang::ops_span(fork, cx, s, k, n);
        lang::lemma_span_single(SpecOp::LeadingSeps, cx, s, 0, k);
        k
    } else {
        0
    };
    assert(lang::ops_span(fs[f], cx, s, k, n));
    forks::lemma_forks(ops, cx, s, k, n);
    k
}

/// Read fork by fork and segment by segment, a program matches every path that
/// it matches byte by byte. It matches no other path that starts with no
/// separator, and none at all where no fork starts with a bare `**/`.
pub proof fn law_forks_match_program(ops: Seq<SpecOp>, cx: Cx, s: Seq<u8>)
    requires
        forks::forks(ops) is Some,
    ensures
        lang::matches(ops, cx, s) ==> fork_matches(ops, cx, s),
        fork_matches(ops, cx, s) && (s.len() == 0 || !cx.seps.has(s[0]) || no_bare_globstar(ops))
            ==> lang::matches(ops, cx, s),
{
    let fs = forks::forks(ops)->0;
    let n = s.len() as int;
    forks::lemma_forks(ops, cx, s, 0, n);
    if lang::matches(ops, cx, s) {
        let f = choose|f: int| 0 <= f < fs.len() && lang::ops_span(#[trigger] fs[f], cx, s, 0, n);
        let fork = fs[f];
        if fork.len() > 0 && fork[0] is OptSegmentsSlash {
            lang::lemma_span_single(SpecOp::LeadingSeps, cx, s, 0, 0);
            lang::lemma_span_concat(seq![SpecOp::LeadingSeps], fork, cx, s, 0, n);
            assert(lang::cut(0));
        }
        assert(lang::matches(elems::with_leading_seps(fs[f]), cx, s));
    }
    if fork_matches(ops, cx, s) {
        if s.len() == 0 || !cx.seps.has(s[0]) {
            let k = lemma_fork_span(ops, cx, s);
            assert(k == 0) by {
                if k > 0 {
                    assert(cx.seps.has(s[0]));
                }
            }
        } else if no_bare_globstar(ops) {
            let f = choose|f: int|
                0 <= f < fs.len() && lang::matches(
                    elems::with_leading_seps(#[trigger] fs[f]),
                    cx,
                    s,
                );
            assert(lang::ops_span(fs[f], cx, s, 0, n));
        }
    }
}

/// No fork starts with a `**/` that leading separators were not written out
/// for.
pub open spec fn no_bare_globstar(ops: Seq<SpecOp>) -> bool {
    let fs = forks::forks(ops)->0;
    forall|f: int|
        0 <= f < fs.len() && (#[trigger] fs[f]).len() > 0 ==> !(fs[f][0] is OptSegmentsSlash)
}

impl SegmentMatcher {
    /// The diagnostic numbers of a program: how many forks it has, and how many
    /// elements its first fork.
    pub open spec fn spec_shape(self) -> (int, int) {
        let fs = forks::forks(self.spec_ops())->0;
        (
            fs.len() as int,
            if fs.len() == 0 {
                0
            } else {
                (compile::fork_elems(fs[0], self.spec_seps(), self.spec_ci())->0).len() as int
            },
        )
    }

    /// Some fork's elements match.
    spec fn some_seq(self, cx: Cx, s: Seq<u8>) -> bool {
        exists|f: int|
            0 <= f < self.seqs@.len() && elems::elems_match(
                (#[trigger] self.seqs@[f]).read@,
                cx,
                s,
                0,
            )
    }

    proof fn lemma_some_seq(self, cx: Cx, s: Seq<u8>)
        requires
            self.wf(),
            cx.seps == self.seps,
            cx.ci == self.case_insensitive,
        ensures
            fork_matches(self.ops@, cx, s) <==> self.some_seq(cx, s),
    {
        let fs = forks::forks(self.ops@)->0;
        assert forall|f: int| 0 <= f < fs.len() implies (lang::matches(
            elems::with_leading_seps(#[trigger] fs[f]),
            cx,
            s,
        ) <==> elems::elems_match(self.seqs@[f].read@, cx, s, 0)) by {
            assert(forks::flat(fs[f]));
            assert(self.seq_ok(self.seqs@[f], fs[f]));
            assert(compile::fork_elems(fs[f], self.seps, self.case_insensitive) is Some);
            forks::lemma_fork(fs[f], self.seqs@[f].read@, cx, s);
        }
        if fork_matches(self.ops@, cx, s) {
            let f = choose|f: int|
                0 <= f < fs.len() && lang::matches(
                    elems::with_leading_seps(#[trigger] fs[f]),
                    cx,
                    s,
                );
            assert(elems::elems_match(self.seqs@[f].read@, cx, s, 0));
        }
        if self.some_seq(cx, s) {
            let f = choose|f: int|
                0 <= f < self.seqs@.len() && elems::elems_match(
                    (#[trigger] self.seqs@[f]).read@,
                    cx,
                    s,
                    0,
                );
            assert(lang::matches(elems::with_leading_seps(fs[f]), cx, s));
        }
    }

    /// Compiles a program for the separators of this platform. The program
    /// comes back where it cannot be matched segment by segment.
    pub fn build(program: OpProgram, dot: bool) -> (r: Result<Self, OpProgram>)
        requires
            program.wf(),
            ir::full(program@),
            prefixes::tidy(program@),
        ensures
            match r {
                Ok(m) => m.wf() && m.spec_ops() == program@ && m.spec_ci()
                    == program.case_insensitive && m.spec_dot() == dot && compile::expressible(
                    program@,
                    m.spec_seps(),
                    program.case_insensitive,
                ),
                Err(p) => p == program && exists|seps: Seps| !#[trigger] compile::expressible(
                    program@,
                    seps,
                    program.case_insensitive,
                ),
            },
    {
        SegmentMatcher::build_with_seps(program, dot, Seps::platform())
    }

    /// Compiles a program. It comes back where it cannot be matched segment by
    /// segment.
    pub fn build_with_seps(program: OpProgram, dot: bool, seps: Seps) -> (r: Result<
        Self,
        OpProgram,
    >)
        requires
            program.wf(),
            ir::full(program@),
            prefixes::tidy(program@),
        ensures
            match r {
                Ok(m) => m.wf() && m.spec_ops() == program@ && m.spec_ci()
                    == program.case_insensitive && m.spec_dot() == dot && m.spec_seps() == seps
                    && compile::expressible(program@, seps, program.case_insensitive),
                Err(p) => p == program && !compile::expressible(
                    program@,
                    seps,
                    program.case_insensitive,
                ),
            },
    {
        let ci: bool = program.case_insensitive;
        let seqs: Vec<ElemSeq> = match compile::compile_seqs(&program.ops, seps, ci, dot) {
            Some(seqs) => seqs,
            None => {
                return Err(program);
            },
        };
        let prefixes: Vec<Vec<u8>> = compute_static_prefixes(&program.ops);
        let ghost ops = program@;
        let m = SegmentMatcher {
            seqs,
            facts: program.facts,
            prefixes,
            case_insensitive: ci,
            dot,
            seps,
            ops: Ghost(ops),
        };
        proof {
            let fs = forks::forks(ops)->0;
            forks::lemma_forks_flat(ops);
            assert forall|f: int| 0 <= f < fs.len() implies m.seq_ok(
                #[trigger] m.seqs@[f],
                fs[f],
            ) by {}
        }
        Ok(m)
    }

    /// Cached static path prefixes.
    pub fn static_prefixes(&self) -> (r: &Vec<Vec<u8>>)
        requires
            self.wf(),
        ensures
            prefixes::static_prefixes(self.spec_ops(), facts::bytes_views(r@)),
    {
        &self.prefixes
    }

    /// Diagnostic: `(fork count, element count of first fork)`.
    pub fn shape(&self) -> (r: (usize, usize))
        requires
            self.wf(),
        ensures
            r.0 == self.spec_shape().0,
            r.1 == self.spec_shape().1,
    {
        if self.seqs.len() == 0 {
            (0, 0)
        } else {
            proof {
                let fs = forks::forks(self.ops@)->0;
                assert(self.seq_ok(self.seqs@[0], fs[0]));
            }
            (self.seqs.len(), self.seqs[0].elems.len())
        }
    }

    /// Whether one fork matches the whole path.
    fn seq_matches(&self, one: &ElemSeq, path: &[u8]) -> (r: bool)
        requires
            one.wf(self.seps, self.case_insensitive, self.dot),
        ensures
            r == elems::elems_match(one.read@, self.cx(path@.len() as int), path@, 0),
    {
        if one.g_count == 0 {
            self.match_fixed(one, path)
        } else if one.g_count == 1 {
            self.match_single_g(one, path)
        } else {
            let active: u64 = self.nfa_run(one, path);
            proof {
                lemma_extends_self(path@, self.seps);
            }
            self.accepted(one, active, path)
        }
    }

    /// Whether the set that a fork reaches over the path accepts.
    fn accepted(&self, one: &ElemSeq, active: u64, path: &[u8]) -> (r: bool)
        requires
            one.wf(self.seps, self.case_insensitive, self.dot),
            forall|u: int| #[trigger] bits::bit(active, u) ==> 0 <= u < one.num_states,
        ensures
            r == states::some_consumes(
                one.read@,
                active,
                self.cx(path@.len() as int),
                path@,
                path@.len() as int + 1,
            ),
    {
        proof {
            states::lemma_entry_mono(one.read@, 0, one.read@.len() as int);
            lemma_accepts(*one, self.cx(path@.len() as int), path@, active);
        }
        bits::has_bit(active, one.num_states - 1)
    }

    /// Whether one fork matches, once its own suffix has been looked at.
    fn seq_matches_quick(&self, one: &ElemSeq, path: &[u8]) -> (r: bool)
        requires
            one.wf(self.seps, self.case_insensitive, self.dot),
        ensures
            r == elems::elems_match(one.read@, self.cx(path@.len() as int), path@, 0),
    {
        if one.quick_suffix.len() > 0 {
            proof {
                if elems::elems_match(one.read@, self.cx(path@.len() as int), path@, 0) {
                    lemma_quick(
                        one.read@,
                        one.quick_suffix@,
                        self.seps,
                        self.case_insensitive,
                        self.dot,
                        path@,
                    );
                }
            }
            let n: usize = path.len();
            if n < one.quick_suffix.len() || !wild::lit_here(
                self.case_insensitive,
                &one.quick_suffix,
                path,
                n - one.quick_suffix.len(),
                Ghost(self.cx(path@.len() as int)),
            ) {
                return false;
            }
        }
        self.seq_matches(one, path)
    }

    /// Whether the whole `path` matches.
    pub fn is_match(&self, path: &[u8]) -> (r: bool)
        requires
            self.wf(),
        ensures
            r == self.matches(path@),
    {
        let ghost cx = self.cx(path@.len() as int);
        proof {
            if self.matches(path@) {
                let k = lemma_fork_span(self.ops@, cx, path@);
                facts::lemma_facts_sound(self.ops@, cx, path@, k);
            }
            self.lemma_some_seq(cx, path@);
        }
        if !self.facts.accept_with(self.seps, path) {
            return false;
        }
        let ghost fs = forks::forks(self.ops@)->0;
        if self.seqs.len() == 1 {
            assert(self.seq_ok(self.seqs@[0], fs[0]));
            let r: bool = self.seq_matches(&self.seqs[0], path);
            assert(r == self.some_seq(cx, path@));
            return r;
        }
        for f in 0..self.seqs.len()
            invariant
                self.wf(),
                cx == self.cx(path@.len() as int),
                fs == forks::forks(self.ops@)->0,
                self.matches(path@) <==> self.some_seq(cx, path@),
                forall|g: int|
                    0 <= g < f ==> !elems::elems_match(
                        (#[trigger] self.seqs@[g]).read@,
                        cx,
                        path@,
                        0,
                    ),
        {
            assert(self.seq_ok(self.seqs@[f as int], fs[f as int]));
            if self.seq_matches_quick(&self.seqs[f], path) {
                return true;
            }
        }
        false
    }

    /// Whether one fork matches a directory, and whether it matches anything
    /// below it.
    fn seq_match_dir(&self, one: &ElemSeq, dir: &[u8]) -> (r: (bool, bool))
        requires
            one.wf(self.seps, self.case_insensitive, self.dot),
        ensures
            r.0 == elems::elems_match(one.read@, self.cx(dir@.len() as int), dir@, 0),
            r.1 == seq_below(one.read@, self.cx(dir@.len() as int), dir@),
    {
        let active: u64 = self.nfa_run(one, dir);
        let ghost es = one.read@;
        let ghost cx = self.cx(dir@.len() as int);
        proof {
            lemma_extends_self(dir@, self.seps);
        }
        let exact: bool = self.accepted(one, active, dir);
        let prefix: bool = bits::overlap(active, one.reach1);
        proof {
            let pre = dir@ + seq![0x2fu8];
            let open = states::open_cx(self.seps, self.case_insensitive);
            assert(pre.last() == 0x2f);
            assert forall|t: Seq<u8>| #[trigger] extends(pre + t, dir@, self.seps) by {
                assert((pre + t).take(dir@.len() as int) =~= dir@);
                assert((pre + t)[dir@.len() as int] == 0x2f);
            }
            if seq_below(es, cx, dir@) {
                let t = choose|t: Seq<u8>| #[trigger] elems::elems_match(es, cx, pre + t, 0);
                assert(extends(pre + t, dir@, cx.seps));
                assert(states::some_consumes(es, active, cx, pre + t, dir@.len() as int + 1));
                let q = choose|q: int| #[trigger]
                    bits::bit(active, q) && states::q_consumes(
                        es,
                        q,
                        cx,
                        pre + t,
                        dir@.len() as int + 1,
                    );
                assert(0 <= q < one.num_states);
                states::lemma_shift_state(es, q, cx, pre, t);
                assert(states::q_consumes(es, q, open, t, 0));
                assert(states::can_go_on(es, q, self.seps, self.case_insensitive));
                assert(bits::bit(one.reach1, q));
            }
            if prefix {
                let q = choose|q: int| #[trigger] bits::bit(active, q) && bits::bit(one.reach1, q);
                assert(0 <= q < one.num_states);
                assert(states::can_go_on(es, q, self.seps, self.case_insensitive));
                let t = choose|t: Seq<u8>| #[trigger] states::q_consumes(es, q, open, t, 0);
                states::lemma_shift_state(es, q, cx, pre, t);
                assert(extends(pre + t, dir@, cx.seps));
                assert(states::some_consumes(es, active, cx, pre + t, dir@.len() as int + 1));
                assert(elems::elems_match(es, cx, pre + t, 0));
            }
        }
        (exact, prefix)
    }

    /// Whether `dir_path` matches, and whether anything below it can. The
    /// empty path stands for the directory that all paths lie under.
    pub fn match_dir(&self, dir_path: &[u8]) -> (r: DirMatch)
        requires
            self.wf(),
        ensures
            r.exact() == self.matches(dir_path@),
            r.below() == (dir_path@.len() == 0 || self.below(dir_path@)),
    {
        if dir_path.len() == 0 {
            return DirMatch::from_exact_prefix(self.is_match(dir_path), true);
        }
        self.match_named_dir(dir_path)
    }

    /// Whether `dir_path` matches, and whether anything below it can. The
    /// empty path is a directory with an empty name.
    fn match_named_dir(&self, dir_path: &[u8]) -> (r: DirMatch)
        requires
            self.wf(),
        ensures
            r.exact() == self.matches(dir_path@),
            r.below() == self.below(dir_path@),
    {
        let ghost cx = self.cx(dir_path@.len() as int);
        let ghost fs = forks::forks(self.ops@)->0;
        let mut exact: bool = false;
        let mut prefix: bool = false;
        let mut f: usize = 0;
        while f < self.seqs.len() && !(exact && prefix)
            invariant
                self.wf(),
                f <= self.seqs@.len(),
                cx == self.cx(dir_path@.len() as int),
                fs == forks::forks(self.ops@)->0,
                exact <==> exists|g: int|
                    0 <= g < f && elems::elems_match(
                        (#[trigger] self.seqs@[g]).read@,
                        cx,
                        dir_path@,
                        0,
                    ),
                prefix <==> exists|g: int|
                    0 <= g < f && seq_below((#[trigger] self.seqs@[g]).read@, cx, dir_path@),
            decreases self.seqs@.len() - f,
        {
            assert(self.seq_ok(self.seqs@[f as int], fs[f as int]));
            let (e, p) = self.seq_match_dir(&self.seqs[f], dir_path);
            exact = exact || e;
            prefix = prefix || p;
            f = f + 1;
        }
        proof {
            self.lemma_some_seq(cx, dir_path@);
            assert(exact == self.matches(dir_path@));
            let pre = dir_path@ + seq![0x2fu8];
            if prefix {
                let g = choose|g: int|
                    0 <= g < self.seqs@.len() && seq_below(
                        (#[trigger] self.seqs@[g]).read@,
                        cx,
                        dir_path@,
                    );
                let t = choose|t: Seq<u8>| #[trigger]
                    elems::elems_match(self.seqs@[g].read@, cx, pre + t, 0);
                assert(self.some_seq(cx, pre + t));
                self.lemma_some_seq(cx, pre + t);
                assert(fork_matches(self.spec_ops(), self.cx(dir_path@.len() as int), pre + t));
            }
            if self.below(dir_path@) {
                let t = choose|t: Seq<u8>| #[trigger]
                    fork_matches(self.spec_ops(), self.cx(dir_path@.len() as int), pre + t);
                self.lemma_some_seq(cx, pre + t);
                let g = choose|g: int|
                    0 <= g < self.seqs@.len() && elems::elems_match(
                        (#[trigger] self.seqs@[g]).read@,
                        cx,
                        pre + t,
                        0,
                    );
                assert(seq_below(self.seqs@[g].read@, cx, dir_path@));
            }
        }
        DirMatch::from_exact_prefix(exact, prefix)
    }
}

/// The elements match something below `dir`.
spec fn seq_below(es: Seq<SpecElem>, cx: Cx, dir: Seq<u8>) -> bool {
    exists|t: Seq<u8>| #[trigger] elems::elems_match(es, cx, (dir + seq![0x2fu8]) + t, 0)
}

} // verus!
