//! An automaton made deterministic.
//!
//! Each state stands for a set of states of a [`Machine`], and for whether a
//! segment starts there. Bytes that no state tells apart share a column of the
//! transition table. The table is built ahead of time, up to a limit on the
//! number of states.

use super::Machine;
use crate::dir_match::DirMatch;
use crate::engine::bits;
use crate::engine::facts::{self, LiteralFacts};
use crate::engine::fxhash;
use crate::engine::fxhash::hash_words;
use crate::engine::lang::{self, Cx};
use crate::engine::nfa::{self, Trans};
use crate::engine::ops::ir;
use crate::engine::ops::prefixes;
use crate::engine::ops::{compute_static_prefixes, OpProgram, SpecOp};
use crate::seps::Seps;
use std::collections::HashMap;
use vstd::prelude::*;

verus! {

/// A table has at most this many states, the dead one among them.
pub const MAX_DFA_STATES: usize = 4096;

/// What a state of the table stands for: states of the machine, and whether a
/// segment starts here.
pub struct SpecKey {
    pub active: Set<int>,
    pub at_start: bool,
}

/// What the state does depends on whether the byte is a hidden dot.
pub open spec fn reads_dot(t: Trans) -> bool {
    match t {
        Trans::AnyNonSep { .. } => true,
        Trans::AnyByte { .. } => true,
        Trans::DotGuard { .. } => true,
        Trans::Class { class, .. } => class.negated,
        _ => false,
    }
}

/// The state tells separators from other bytes.
pub open spec fn reads_sep(t: Trans) -> bool {
    t is Sep || t is AnyNonSep
}

/// The state consumes `c`, unless it is a hidden dot.
pub open spec fn takes(t: Trans, seps: Seps, c: u8) -> bool {
    nfa::consume(t, seps, c, false) is Some
}

spec fn words_set(words: Seq<u64>) -> Set<int> {
    Set::new(|q: int| bits::member(words, q))
}

spec fn blank(words: Seq<u64>) -> bool {
    forall|q: int| !bits::member(words, q)
}

spec fn segment_starts(seps: Seps, p: Seq<u8>) -> bool {
    p.len() == 0 || seps.has(p.last())
}

impl Machine {
    /// The table tells whether a segment starts: a dot may be hidden, and some
    /// state cares.
    pub closed spec fn tracks_start(self) -> bool {
        !self.dot && exists|q: int|
            0 <= q < self.states@.len() && reads_dot(#[trigger] self.states@[q])
    }

    /// Columns tell separators from other bytes.
    pub closed spec fn splits_seps(self) -> bool {
        self.tracks_start() || exists|q: int|
            0 <= q < self.states@.len() && reads_sep(#[trigger] self.states@[q])
    }

    /// No state tells the two bytes apart.
    pub closed spec fn alike(self, c: u8, d: u8) -> bool {
        &&& forall|q: int|
            0 <= q < self.states@.len() ==> takes(#[trigger] self.states@[q], self.seps, c)
                == takes(self.states@[q], self.seps, d)
        &&& self.splits_seps() ==> self.seps.has(c) == self.seps.has(d)
        &&& self.tracks_start() ==> (c == 0x2e) == (d == 0x2e)
    }

    /// Some byte below `c` is like it.
    pub open spec fn has_like_below(self, c: int) -> bool {
        exists|d: u8| d < c && #[trigger] self.alike(d, c as u8)
    }

    /// How many classes of like bytes there are among the first `n`.
    pub open spec fn classes(self, n: int) -> int
        decreases n,
    {
        if n <= 0 {
            0
        } else {
            self.classes(n - 1) + if self.has_like_below(n - 1) {
                0int
            } else {
                1int
            }
        }
    }

    spec fn in_wide(self, cur: Set<int>, dot: bool, q: int) -> bool {
        cur.contains(q) || (!dot && exists|g: int|
            0 <= g < self.guards@.len() && cur.contains(
                (#[trigger] self.guards@[g]).state as int,
            ) && bits::member(self.guards@[g].released@, q))
    }

    spec fn arrives(self, cur: Set<int>, c: u8, dot: bool, p: int) -> bool {
        exists|q: int| #[trigger] self.in_wide(cur, dot, q) && self.leads_over(q, c, dot, p)
    }

    /// Where a set leads over byte `c`.
    pub closed spec fn after(self, cur: Set<int>, c: u8, dot: bool) -> Set<int> {
        Set::new(|p: int| self.arrives(cur, c, dot, p))
    }

    pub closed spec fn start_set(self) -> Set<int> {
        words_set(self.init_bits@)
    }

    /// The key that the bytes `p` lead to.
    pub open spec fn key_after(self, p: Seq<u8>) -> SpecKey
        decreases p.len(),
    {
        if p.len() == 0 {
            SpecKey { active: self.start_set(), at_start: self.tracks_start() }
        } else {
            let k = self.key_after(p.drop_last());
            let c = p.last();
            SpecKey {
                active: self.after(k.active, c, k.at_start && c == 0x2e),
                at_start: self.tracks_start() && self.spec_seps().has(c),
            }
        }
    }

    /// Some bytes lead to the key, and it is not dead.
    pub open spec fn reachable(self, k: SpecKey) -> bool {
        k.active != Set::<int>::empty() && exists|p: Seq<u8>| #[trigger] self.key_after(p) == k
    }

    /// There are `n` different keys: the first one, and others that bytes lead
    /// to.
    pub open spec fn has_keys(self, n: nat) -> bool {
        exists|ks: Seq<SpecKey>| #[trigger] self.key_list(ks, n)
    }

    pub open spec fn key_list(self, ks: Seq<SpecKey>, n: nat) -> bool {
        &&& ks.len() == n
        &&& n > 0
        &&& ks.no_duplicates()
        &&& ks[0] == self.key_after(Seq::<u8>::empty())
        &&& forall|i: int| 1 <= i < ks.len() ==> self.reachable(#[trigger] ks[i])
    }

    /// Like bytes lead the same way.
    proof fn lemma_alike(self, c: u8, d: u8, dot_c: bool, dot_d: bool, q: int, p: int)
        requires
            self.alike(c, d),
            dot_c == dot_d,
        ensures
            self.leads_over(q, c, dot_c, p) == self.leads_over(q, d, dot_d, p),
    {
        if 0 <= q < self.states@.len() {
            assert(takes(self.states@[q], self.seps, c) == takes(self.states@[q], self.seps, d));
        }
    }

    proof fn lemma_alike_trans(self, a: u8, b: u8, c: u8)
        requires
            self.alike(a, b),
            self.alike(b, c),
        ensures
            self.alike(a, c),
            self.alike(b, a),
    {
        assert forall|q: int| 0 <= q < self.states@.len() implies takes(
            #[trigger] self.states@[q],
            self.seps,
            a,
        ) == takes(self.states@[q], self.seps, c) by {
            assert(takes(self.states@[q], self.seps, a) == takes(self.states@[q], self.seps, b));
            assert(takes(self.states@[q], self.seps, b) == takes(self.states@[q], self.seps, c));
        }
    }
}

/// The words of a set, before and behind its guards, and its flag.
struct Entry {
    active: Vec<u64>,
    wide: Vec<u64>,
    at_start: bool,
}

spec fn entry_key(e: Entry) -> SpecKey {
    SpecKey { active: words_set(e.active@), at_start: e.at_start }
}

impl Machine {
    spec fn entry_ok(self, e: Entry) -> bool {
        &&& e.active@.len() == self.n_words
        &&& e.wide@.len() == self.n_words
        &&& super::all_settled(self.states@, e.active@, false)
        &&& super::all_settled(self.states@, e.wide@, false)
        &&& self.released(e.active@, e.wide@)
        &&& e.at_start ==> self.tracks_start()
    }

    /// Entry `to` is where `from` leads over byte `c`.
    spec fn arrow(self, from: Entry, to: Entry, c: u8) -> bool {
        let dot = from.at_start && c == 0x2e;
        &&& self.stepped(
            if dot {
                from.active@
            } else {
                from.wide@
            },
            to.active@,
            c,
            dot,
        )
        &&& blank(to.active@) || to.at_start == (self.tracks_start() && self.seps.has(c))
    }

    /// An arrow leads where the key leads.
    proof fn lemma_arrow_key(self, from: Entry, to: Entry, c: u8)
        requires
            self.entry_ok(from),
            self.arrow(from, to, c),
        ensures
            words_set(to.active@) == self.after(
                words_set(from.active@),
                c,
                from.at_start && c == 0x2e,
            ),
    {
        let dot = from.at_start && c == 0x2e;
        let cur = words_set(from.active@);
        let base = if dot {
            from.active@
        } else {
            from.wide@
        };
        assert forall|q: int| #[trigger] bits::member(base, q) == self.in_wide(cur, dot, q) by {
            if !dot {
                assert(bits::member(from.wide@, q) <==> (bits::member(from.active@, q)
                    || exists|g: int|
                    0 <= g < self.guards@.len() && bits::member(
                        from.active@,
                        (#[trigger] self.guards@[g]).state as int,
                    ) && bits::member(self.guards@[g].released@, q)));
                if self.in_wide(cur, dot, q) && !cur.contains(q) {
                    let g = choose|g: int|
                        0 <= g < self.guards@.len() && cur.contains(
                            (#[trigger] self.guards@[g]).state as int,
                        ) && bits::member(self.guards@[g].released@, q);
                    assert(bits::member(from.active@, self.guards@[g].state as int));
                }
                if bits::member(base, q) && !bits::member(from.active@, q) {
                    let g = choose|g: int|
                        0 <= g < self.guards@.len() && bits::member(
                            from.active@,
                            (#[trigger] self.guards@[g]).state as int,
                        ) && bits::member(self.guards@[g].released@, q);
                    assert(cur.contains(self.guards@[g].state as int));
                }
            }
        }
        let next = words_set(to.active@);
        let want = self.after(cur, c, dot);
        assert forall|p: int| next.contains(p) == want.contains(p) by {
            assert(bits::member(to.active@, p) <==> exists|q: int| #[trigger]
                bits::member(base, q) && self.leads_over(q, c, dot, p));
            if bits::member(to.active@, p) {
                let q = choose|q: int| #[trigger]
                    bits::member(base, q) && self.leads_over(q, c, dot, p);
                assert(self.in_wide(cur, dot, q));
            }
            if self.arrives(cur, c, dot, p) {
                let q = choose|q: int| #[trigger]
                    self.in_wide(cur, dot, q) && self.leads_over(q, c, dot, p);
                assert(bits::member(base, q));
            }
        }
        assert(next =~= want);
    }

    /// An empty set leads to an empty set.
    proof fn lemma_arrow_blank(self, from: Entry, to: Entry, c: u8)
        requires
            self.entry_ok(from),
            self.arrow(from, to, c),
            blank(from.active@),
        ensures
            blank(to.active@),
    {
        let dot = from.at_start && c == 0x2e;
        let base = if dot {
            from.active@
        } else {
            from.wide@
        };
        assert forall|p: int| !bits::member(to.active@, p) by {
            if bits::member(to.active@, p) {
                let q = choose|q: int| #[trigger]
                    bits::member(base, q) && self.leads_over(q, c, dot, p);
                if !bits::member(from.active@, q) {
                    let g = choose|g: int|
                        0 <= g < self.guards@.len() && bits::member(
                            from.active@,
                            (#[trigger] self.guards@[g]).state as int,
                        ) && bits::member(self.guards@[g].released@, q);
                    assert(bits::member(from.active@, self.guards@[g].state as int));
                }
            }
        }
    }

    /// A set that accepts exactly what the machine accepts behind `pre` leads
    /// to one that does so one byte on.
    proof fn lemma_arrow_tracks(self, from: Entry, to: Entry, pre: Seq<u8>, c: u8, lim: int)
        requires
            self.wf(),
            self.entry_ok(from),
            self.entry_ok(to),
            self.arrow(from, to, c),
            self.tracks(from.active@, pre, lim),
            pre.len() < lim || c != 0x2e,
            blank(from.active@) || from.at_start == (self.tracks_start() && segment_starts(
                self.seps,
                pre,
            )),
        ensures
            self.tracks(to.active@, pre.push(c), lim),
            blank(to.active@) || to.at_start == (self.tracks_start() && segment_starts(
                self.seps,
                pre.push(c),
            )),
    {
        let hid = super::next_hidden(self.cx(lim), pre, c);
        let dot = from.at_start && c == 0x2e;
        let base = if dot {
            from.active@
        } else {
            from.wide@
        };
        assert(pre.push(c).last() == c);
        if blank(from.active@) {
            self.lemma_arrow_blank(from, to, c);
            self.lemma_blank_tracks(from.active@, to.active@, pre, c, lim);
        } else if hid == dot {
            self.lemma_tracks_step(from.active@, base, to.active@, pre, c, lim);
        } else {
            // The byte is a hidden dot, but no state cares.
            assert(!self.tracks_start() && !self.dot && hid);
            self.lemma_no_guards();
            assert(self.stepped(from.active@, to.active@, c, true)) by {
                assert forall|p: int| #[trigger]
                    bits::member(to.active@, p) <==> exists|q: int| #[trigger]
                        bits::member(from.active@, q) && self.leads_over(q, c, true, p) by {
                    if bits::member(to.active@, p) {
                        let q = choose|q: int| #[trigger]
                            bits::member(from.wide@, q) && self.leads_over(q, c, false, p);
                        assert(bits::member(from.active@, q));
                        assert(!reads_dot(self.states@[q]));
                        assert(self.leads_over(q, c, true, p));
                    }
                    if exists|q: int| #[trigger]
                        bits::member(from.active@, q) && self.leads_over(q, c, true, p) {
                        let q = choose|q: int| #[trigger]
                            bits::member(from.active@, q) && self.leads_over(q, c, true, p);
                        assert(bits::member(from.wide@, q));
                        assert(!reads_dot(self.states@[q]));
                        assert(self.leads_over(q, c, false, p));
                    }
                }
            }
            self.lemma_tracks_step(from.active@, from.active@, to.active@, pre, c, lim);
        }
    }

    proof fn lemma_no_guards(self)
        requires
            self.wf(),
            !self.tracks_start(),
            !self.dot,
        ensures
            self.guards@.len() == 0,
    {
        if self.guards@.len() > 0 {
            assert(self.guard_ok(0));
            assert(reads_dot(self.states@[self.guards@[0].state as int]));
        }
    }

    proof fn lemma_blank_tracks(
        self,
        cur: Seq<u64>,
        next: Seq<u64>,
        pre: Seq<u8>,
        c: u8,
        lim: int,
    )
        requires
            self.tracks(cur, pre, lim),
            blank(cur),
            blank(next),
        ensures
            self.tracks(next, pre.push(c), lim),
    {
        assert forall|s: Seq<u8>| #[trigger] super::starts_with(s, pre.push(c)) implies (
        super::some_accepts(self.states@, next, self.cx(lim), s, pre.len() as int + 1)
            <==> nfa::accepts(self.states@, self.cx(lim), s, self.initial as int, 0)) by {
            super::lemma_starts_push(s, pre, c);
            assert(!super::some_accepts(self.states@, cur, self.cx(lim), s, pre.len() as int));
        }
    }
}

/// A table that is being built.
struct Builder {
    machine: Machine,
    class_of_byte: Vec<usize>,
    /// A byte of each class.
    bytes: Vec<u8>,
    tracks_start: bool,
    entries: Vec<Entry>,
    rows: Vec<Vec<usize>>,
    accepting: Vec<bool>,
    /// The entries of each hash.
    by_hash: HashMap<u64, Vec<usize>>,
    /// Bytes that lead to each entry but the dead one.
    paths: Ghost<Seq<Seq<u8>>>,
}

/// The hash of a set and flag.
spec fn hash_of(words: Seq<u64>, flag: bool) -> u64 {
    fxhash::mix(
        fxhash::mix_all(0, words),
        if flag {
            1u64
        } else {
            0u64
        },
    )
}

impl Builder {
    spec fn classes_ok(self) -> bool {
        &&& self.class_of_byte@.len() == 256
        &&& self.bytes@.len() == self.machine.classes(256)
        &&& forall|c: u8|
            self.class_of_byte@[c as int] < self.bytes@.len() && self.machine.alike(
                c,
                self.bytes@[#[trigger] self.class_of_byte@[c as int] as int],
            )
        &&& forall|k: int|
            0 <= k < self.bytes@.len() ==> self.class_of_byte@[#[trigger] self.bytes@[k] as int] == k
    }

    spec fn listed(self, id: int) -> bool {
        let e = self.entries@[id];
        let h = hash_of(e.active@, e.at_start);
        self.by_hash@.contains_key(h) && self.by_hash@[h]@.contains(id as usize)
    }

    spec fn row_ok(self, id: int) -> bool {
        &&& self.rows@[id]@.len() == self.bytes@.len()
        &&& forall|k: int|
            0 <= k < self.bytes@.len() ==> (#[trigger] self.rows@[id]@[k]) < self.entries@.len()
                && self.machine.arrow(
                self.entries@[id],
                self.entries@[self.rows@[id]@[k] as int],
                self.bytes@[k],
            )
    }

    spec fn found(self, id: int) -> bool {
        let e = self.entries@[id];
        &&& entry_key(e) == self.machine.key_after(self.paths@[id])
        &&& id == 1 || !blank(e.active@)
    }

    spec fn differ(self, i: int, j: int) -> bool {
        !(self.entries@[i].active@ == self.entries@[j].active@ && self.entries@[i].at_start
            == self.entries@[j].at_start)
    }

    spec fn wf(self) -> bool {
        let n = self.entries@.len();
        &&& self.machine.wf()
        &&& self.classes_ok()
        &&& self.tracks_start == self.machine.tracks_start()
        &&& 2 <= n <= MAX_DFA_STATES
        &&& self.accepting@.len() == n
        &&& self.paths@.len() == n
        &&& forall|id: int| 0 <= id < n ==> self.machine.entry_ok(#[trigger] self.entries@[id])
        &&& forall|id: int|
            0 <= id < n ==> #[trigger] self.accepting@[id] == exists|q: int|
                bits::member(self.entries@[id].active@, q) && bits::member(
                    self.machine.accept_bits@,
                    q,
                )
        &&& blank(self.entries@[0].active@)
        &&& !self.entries@[0].at_start
        &&& self.entries@[1].active@ == self.machine.init_bits@
        &&& self.entries@[1].at_start == self.machine.tracks_start()
        &&& self.paths@[1] == Seq::<u8>::empty()
        &&& forall|id: int| 1 <= id < n ==> #[trigger] self.listed(id)
        &&& forall|h: u64, k: int|
            self.by_hash@.contains_key(h) && 0 <= k < self.by_hash@[h]@.len() ==> 1 <= (
            #[trigger] self.by_hash@[h]@[k]) < n
        &&& forall|id: int| 1 <= id < n ==> #[trigger] self.found(id)
        &&& forall|i: int, j: int| 1 <= i < j < n ==> #[trigger] self.differ(i, j)
        &&& self.rows@.len() <= n
        &&& forall|id: int| 0 <= id < self.rows@.len() ==> #[trigger] self.row_ok(id)
    }

    /// Everything but the entries is as it was, and they only grew.
    spec fn grew(self, from: Self) -> bool {
        &&& self.machine == from.machine
        &&& self.class_of_byte@ == from.class_of_byte@
        &&& self.bytes@ == from.bytes@
        &&& self.tracks_start == from.tracks_start
        &&& self.rows@ == from.rows@
        &&& from.entries@.len() <= self.entries@.len()
        &&& forall|id: int|
            0 <= id < from.entries@.len() ==> #[trigger] self.entries@[id] == from.entries@[id]
    }
}

fn words_eq(a: &Vec<u64>, b: &Vec<u64>) -> (r: bool)
    ensures
        r == (a@ == b@),
{
    if a.len() != b.len() {
        return false;
    }
    for i in 0..a.len()
        invariant
            a@.len() == b@.len(),
            forall|k: int| 0 <= k < i ==> a@[k] == b@[k],
    {
        if a[i] != b[i] {
            return false;
        }
    }
    assert(a@ =~= b@);
    true
}

impl Machine {
    /// Which states consume `c`.
    fn signature(&self, c: u8) -> (r: Vec<u64>)
        requires
            self.wf(),
        ensures
            r@.len() == self.n_words,
            forall|q: int| #[trigger]
                bits::member(r@, q) <==> (0 <= q < self.states@.len() && takes(
                    self.states@[q],
                    self.seps,
                    c,
                )),
    {
        let mut r: Vec<u64> = bits::empty(self.n_words);
        for q in 0..self.states.len()
            invariant
                self.wf(),
                r@.len() == self.n_words,
                forall|p: int| #[trigger]
                    bits::member(r@, p) <==> (0 <= p < q && takes(self.states@[p], self.seps, c)),
        {
            if super::byte_step(&self.states[q], self.seps, c, false).is_some() {
                bits::insert(&mut r, q);
            }
        }
        r
    }

    fn any_reads_dot(&self) -> (r: bool)
        ensures
            r == exists|q: int|
                0 <= q < self.states@.len() && reads_dot(#[trigger] self.states@[q]),
    {
        for q in 0..self.states.len()
            invariant
                forall|p: int| 0 <= p < q ==> !reads_dot(#[trigger] self.states@[p]),
        {
            let reads: bool = match &self.states[q] {
                Trans::AnyNonSep { .. } => true,
                Trans::AnyByte { .. } => true,
                Trans::DotGuard { .. } => true,
                Trans::Class { class, .. } => class.negated,
                _ => false,
            };
            if reads {
                assert(reads_dot(self.states@[q as int]));
                return true;
            }
        }
        false
    }

    fn any_reads_sep(&self) -> (r: bool)
        ensures
            r == exists|q: int|
                0 <= q < self.states@.len() && reads_sep(#[trigger] self.states@[q]),
    {
        for q in 0..self.states.len()
            invariant
                forall|p: int| 0 <= p < q ==> !reads_sep(#[trigger] self.states@[p]),
        {
            let reads: bool = match &self.states[q] {
                Trans::AnyNonSep { .. } => true,
                Trans::Sep { .. } => true,
                _ => false,
            };
            if reads {
                assert(reads_sep(self.states@[q as int]));
                return true;
            }
        }
        false
    }

    /// Groups the bytes that no state tells apart: the class of each byte, and
    /// the least byte of each class. The classes are numbered by that byte.
    fn byte_classes(&self, tracks_start: bool) -> (r: (Vec<usize>, Vec<u8>))
        requires
            self.wf(),
            tracks_start == self.tracks_start(),
        ensures
            r.0@.len() == 256,
            r.1@.len() == self.classes(256),
            forall|c: u8|
                r.0@[c as int] < r.1@.len() && self.alike(
                    c,
                    r.1@[#[trigger] r.0@[c as int] as int],
                ),
            forall|k: int| 0 <= k < r.1@.len() ==> r.0@[#[trigger] r.1@[k] as int] == k,
            forall|c: u8| r.1@[#[trigger] r.0@[c as int] as int] <= c,
            forall|j: int, k: int| 0 <= j < k < r.1@.len() ==> r.1@[j] < r.1@[k],
    {
        let splits: bool = tracks_start || self.any_reads_sep();
        let mut class_of: Vec<usize> = Vec::new();
        let mut bytes: Vec<u8> = Vec::new();
        let mut sigs: Vec<Vec<u64>> = Vec::new();
        let mut i: usize = 0;
        while i < 256
            invariant
                i <= 256,
                self.wf(),
                tracks_start == self.tracks_start(),
                splits == self.splits_seps(),
                class_of@.len() == i,
                sigs@.len() == bytes@.len(),
                bytes@.len() == self.classes(i as int),
                bytes@.len() <= i,
                forall|k: int|
                    0 <= k < bytes@.len() ==> (#[trigger] bytes@[k]) < i
                        && class_of@[bytes@[k] as int] == k,
                forall|k: int| 0 <= k < sigs@.len() ==> self.signs(#[trigger] sigs@[k]@, bytes@[k]),
                forall|d: int|
                    0 <= d < i ==> (#[trigger] class_of@[d]) < bytes@.len() && self.alike(
                        d as u8,
                        bytes@[class_of@[d] as int],
                    ) && bytes@[class_of@[d] as int] <= d,
                forall|j: int, k: int| 0 <= j < k < bytes@.len() ==> bytes@[j] < bytes@[k],
            decreases 256 - i,
        {
            let c: u8 = i as u8;
            let sig: Vec<u64> = self.signature(c);
            let mut k: usize = 0;
            while k < bytes.len() && !(words_eq(&sig, &sigs[k]) && (!splits || self.seps.is_sep(
                bytes[k],
            ) == self.seps.is_sep(c)) && (!tracks_start || (bytes[k] == 0x2e) == (c == 0x2e)))
                invariant
                    k <= bytes@.len(),
                    sigs@.len() == bytes@.len(),
                    self.wf(),
                    tracks_start == self.tracks_start(),
                    splits == self.splits_seps(),
                    self.signs(sig@, c),
                    forall|j: int|
                        0 <= j < sigs@.len() ==> self.signs(#[trigger] sigs@[j]@, bytes@[j]),
                    forall|j: int| 0 <= j < k ==> !self.alike(c, #[trigger] bytes@[j]),
                decreases bytes@.len() - k,
            {
                proof {
                    assert(self.signs(sigs@[k as int]@, bytes@[k as int]));
                    self.lemma_sign(sig@, c, sigs@[k as int]@, bytes@[k as int]);
                }
                k = k + 1;
            }
            proof {
                if k < bytes@.len() {
                    assert(self.signs(sigs@[k as int]@, bytes@[k as int]));
                    self.lemma_sign(sig@, c, sigs@[k as int]@, bytes@[k as int]);
                    assert(self.alike(c, bytes@[k as int]));
                    assert(self.alike(bytes@[k as int], c)) by {
                        self.lemma_alike_trans(c, bytes@[k as int], bytes@[k as int]);
                    }
                    assert(self.has_like_below(i as int));
                } else {
                    if self.has_like_below(i as int) {
                        let d = choose|d: u8| d < i && #[trigger] self.alike(d, i as u8);
                        let j = class_of@[d as int] as int;
                        assert(self.alike(d, bytes@[j]));
                        self.lemma_alike_trans(d, c, c);
                        self.lemma_alike_trans(c, d, bytes@[j]);
                        assert(false);
                    }
                    self.lemma_alike_self(c);
                }
            }
            if k == bytes.len() {
                bytes.push(c);
                sigs.push(sig);
            }
            class_of.push(k);
            i = i + 1;
        }
        proof {
            assert forall|c: u8|
                class_of@[c as int] < bytes@.len() && self.alike(
                    c,
                    bytes@[#[trigger] class_of@[c as int] as int],
                ) && bytes@[class_of@[c as int] as int] <= c by {
                let d = c as int;
                assert(class_of@[d] < bytes@.len());
            }
        }
        (class_of, bytes)
    }

    spec fn signs(self, sig: Seq<u64>, c: u8) -> bool {
        sig.len() == self.n_words && forall|q: int| #[trigger]
            bits::member(sig, q) <==> (0 <= q < self.states@.len() && takes(
                self.states@[q],
                self.seps,
                c,
            ))
    }

    proof fn lemma_alike_self(self, c: u8)
        ensures
            self.alike(c, c),
    {
    }

    /// Like bytes have like signatures, and the other way round.
    proof fn lemma_sign(self, a: Seq<u64>, c: u8, b: Seq<u64>, d: u8)
        requires
            self.signs(a, c),
            self.signs(b, d),
        ensures
            self.alike(c, d) <==> (a == b && (self.splits_seps() ==> self.seps.has(c)
                == self.seps.has(d)) && (self.tracks_start() ==> (c == 0x2e) == (d == 0x2e))),
    {
        if a == b {
            assert forall|q: int| 0 <= q < self.states@.len() implies takes(
                #[trigger] self.states@[q],
                self.seps,
                c,
            ) == takes(self.states@[q], self.seps, d) by {
                assert(bits::member(a, q) <==> bits::member(b, q));
            }
        }
        if self.alike(c, d) {
            assert forall|q: int| #[trigger] bits::member(a, q) <==> bits::member(b, q) by {
                if 0 <= q < self.states@.len() {
                    assert(takes(self.states@[q], self.seps, c) == takes(
                        self.states@[q],
                        self.seps,
                        d,
                    ));
                }
            }
            bits::lemma_words_equal(a, b);
        }
    }

    /// Adds the guards' releases to a copy of the set.
    fn widened(&self, cur: &Vec<u64>) -> (r: Vec<u64>)
        requires
            self.wf(),
            cur@.len() == self.n_words,
            super::all_settled(self.states@, cur@, false),
        ensures
            r@.len() == self.n_words,
            super::all_settled(self.states@, r@, false),
            self.released(cur@, r@),
    {
        let mut r: Vec<u64> = cur.clone();
        assert(r@ =~= cur@);
        self.release(&mut r);
        r
    }

    proof fn lemma_stepped_settled(self, cur: Seq<u64>, next: Seq<u64>, c: u8, dot: bool)
        requires
            self.wf(),
            super::all_settled(self.states@, cur, false),
            self.stepped(cur, next, c, dot),
        ensures
            super::all_settled(self.states@, next, false),
    {
        let st = self.states@;
        assert forall|p: int| #[trigger] bits::member(next, p) implies 0 <= p < st.len()
            && super::settled(st[p]) by {
            let w = choose|w: int| #[trigger]
                bits::member(cur, w) && self.leads_over(w, c, dot, p);
            assert(nfa::target_ok(st[w], st.len() as int));
            let n = nfa::consume(st[w], self.seps, c, dot)->0 as int;
            assert(self.closure_ok(n));
        }
    }
}

impl Builder {
    fn find(&self, words: &Vec<u64>, flag: bool) -> (r: Option<usize>)
        requires
            self.wf(),
        ensures
            match r {
                Some(id) => 1 <= id < self.entries@.len() && self.entries@[id as int].active@
                    == words@ && self.entries@[id as int].at_start == flag,
                None => forall|id: int|
                    1 <= id < self.entries@.len() ==> !((#[trigger] self.entries@[id]).active@
                        == words@ && self.entries@[id].at_start == flag),
            },
    {
        let h: u64 = hash_words(words, flag);
        let ghost map = self.by_hash@;
        let list: &Vec<usize> = match self.by_hash.get(&h) {
            Some(list) => list,
            None => {
                proof {
                    assert forall|id: int| 1 <= id < self.entries@.len() implies !((
                    #[trigger] self.entries@[id]).active@ == words@ && self.entries@[id].at_start
                        == flag) by {
                        assert(self.listed(id));
                    }
                }
                return None;
            },
        };
        for k in 0..list.len()
            invariant
                self.wf(),
                map == self.by_hash@,
                map.contains_key(h),
                map[h] == *list,
                h == hash_of(words@, flag),
                forall|j: int|
                    0 <= j < k ==> !(self.entries@[#[trigger] map[h]@[j] as int].active@ == words@
                        && self.entries@[map[h]@[j] as int].at_start == flag),
        {
            let id: usize = list[k];
            assert(1 <= self.by_hash@[h]@[k as int] < self.entries@.len());
            if self.entries[id].at_start == flag && words_eq(&self.entries[id].active, words) {
                return Some(id);
            }
        }
        proof {
            assert forall|id: int| 1 <= id < self.entries@.len() implies !((
            #[trigger] self.entries@[id]).active@ == words@ && self.entries@[id].at_start == flag) by {
                assert(self.listed(id));
                let e = self.entries@[id];
                if e.active@ == words@ && e.at_start == flag {
                    let j = choose|j: int| 0 <= j < list@.len() && list@[j] == id as usize;
                    assert(list@[j] == map[h]@[j]);
                }
            }
        }
        None
    }

    /// The state for a set and flag, made where there is none yet. `None` where
    /// the table is full.
    #[verifier::spinoff_prover]
    #[verifier::rlimit(50)]
    fn intern(&mut self, words: Vec<u64>, flag: bool, Ghost(path): Ghost<Seq<u8>>) -> (r: Option<
        usize,
    >)
        requires
            old(self).wf(),
            words@.len() == old(self).machine.n_words,
            super::all_settled(old(self).machine.states@, words@, false),
            flag ==> old(self).machine.tracks_start(),
            (SpecKey { active: words_set(words@), at_start: flag })
                == old(self).machine.key_after(path),
        ensures
            match r {
                Some(id) => {
                    &&& final(self).wf()
                    &&& final(self).grew(*old(self))
                    &&& id < final(self).entries@.len()
                    &&& final(self).entries@[id as int].active@ == words@
                    &&& blank(words@) || final(self).entries@[id as int].at_start == flag
                },
                None => old(self).machine.has_keys(MAX_DFA_STATES as nat),
            },
    {
        if bits::is_empty(&words) {
            proof {
                let z = self.entries@[0].active@;
                bits::lemma_words_equal(z, words@);
            }
            return Some(0);
        }
        if let Some(id) = self.find(&words, flag) {
            return Some(id);
        }
        if self.entries.len() >= MAX_DFA_STATES {
            proof {
                let ks = Seq::new(
                    MAX_DFA_STATES as nat,
                    |i: int|
                        if i + 1 < self.entries@.len() {
                            entry_key(self.entries@[i + 1])
                        } else {
                            SpecKey { active: words_set(words@), at_start: flag }
                        },
                );
                self.lemma_full(ks, words@, flag, path);
            }
            return None;
        }
        let ghost before = *self;
        let new_id: usize = self.entries.len();
        let accepts: bool = bits::intersects(&words, &self.machine.accept_bits);
        let wide: Vec<u64> = self.machine.widened(&words);
        let h: u64 = hash_words(&words, flag);
        let entry = Entry { active: words, wide, at_start: flag };
        let ghost ev = entry;
        self.entries.push(entry);
        self.accepting.push(accepts);
        let mut list: Vec<usize> = match self.by_hash.remove(&h) {
            Some(list) => list,
            None => Vec::new(),
        };
        let ghost old_list = list@;
        list.push(new_id);
        let ghost full = list;
        self.by_hash.insert(h, list);
        self.paths = Ghost(self.paths@.push(path));
        proof {
            let n = before.entries@.len() as int;
            assert(old_list == (if before.by_hash@.contains_key(h) {
                before.by_hash@[h]@
            } else {
                seq![]
            }));
            assert(self.entries@ =~= before.entries@.push(ev));
            assert(self.by_hash@ =~= before.by_hash@.insert(h, full));
            assert forall|id: int| 0 <= id < n implies #[trigger] self.entries@[id]
                == before.entries@[id] by {}
            assert forall|id: int| 0 <= id < self.entries@.len() implies self.machine.entry_ok(
                #[trigger] self.entries@[id],
            ) by {
                if id < n {
                    assert(before.machine.entry_ok(before.entries@[id]));
                }
            }
            assert forall|id: int| 0 <= id < self.entries@.len() implies #[trigger] self.accepting@[id]
                == exists|q: int|
                bits::member(self.entries@[id].active@, q) && bits::member(
                    self.machine.accept_bits@,
                    q,
                ) by {
                if id < n {
                    assert(self.accepting@[id] == before.accepting@[id]);
                    assert(self.entries@[id] == before.entries@[id]);
                } else {
                    assert(self.accepting@[id] == accepts);
                }
            }
            assert forall|id: int| 1 <= id < self.entries@.len() implies #[trigger] self.listed(
                id,
            ) by {
                let e = self.entries@[id];
                let g = hash_of(e.active@, e.at_start);
                if id < n {
                    assert(before.listed(id));
                    let was = before.by_hash@[g]@;
                    let j = choose|j: int| 0 <= j < was.len() && was[j] == id as usize;
                    assert(self.by_hash@[g]@[j] == id as usize);
                } else {
                    assert(g == h);
                    assert(self.by_hash@[g]@[old_list.len() as int] == new_id);
                }
            }
            assert forall|g: u64, k: int|
                self.by_hash@.contains_key(g) && 0 <= k < self.by_hash@[g]@.len() implies 1 <= (
            #[trigger] self.by_hash@[g]@[k]) < self.entries@.len() by {
                if g == h && k == old_list.len() {
                } else {
                    assert(self.by_hash@[g]@[k] == before.by_hash@[g]@[k]);
                }
            }
            assert forall|id: int| 1 <= id < self.entries@.len() implies #[trigger] self.found(
                id,
            ) by {
                if id < n {
                    assert(before.found(id));
                    assert(self.paths@[id] == before.paths@[id]);
                } else {
                    assert(self.paths@[id] == path);
                }
            }
            assert forall|i: int, j: int| 1 <= i < j < self.entries@.len() implies #[trigger] self.differ(
                i,
                j,
            ) by {
                if j < n {
                    assert(before.differ(i, j));
                }
            }
            assert forall|id: int| 0 <= id < self.rows@.len() implies #[trigger] self.row_ok(id) by {
                assert(before.row_ok(id));
                assert forall|k: int| 0 <= k < self.bytes@.len() implies (
                #[trigger] self.rows@[id]@[k]) < self.entries@.len() && self.machine.arrow(
                    self.entries@[id],
                    self.entries@[self.rows@[id]@[k] as int],
                    self.bytes@[k],
                ) by {
                    assert(before.rows@[id]@[k] < before.entries@.len());
                }
            }
            assert(self.paths@[1] == before.paths@[1]);
        }
        Some(new_id)
    }

    /// A full table and one more key are too many keys.
    proof fn lemma_full(self, ks: Seq<SpecKey>, words: Seq<u64>, flag: bool, path: Seq<u8>)
        requires
            self.wf(),
            self.entries@.len() == MAX_DFA_STATES,
            words.len() == self.machine.n_words,
            !blank(words),
            (SpecKey { active: words_set(words), at_start: flag }) == self.machine.key_after(path),
            forall|id: int|
                1 <= id < self.entries@.len() ==> !((#[trigger] self.entries@[id]).active@ == words
                    && self.entries@[id].at_start == flag),
            ks.len() == MAX_DFA_STATES,
            forall|i: int|
                0 <= i < ks.len() ==> #[trigger] ks[i] == (if i + 1 < self.entries@.len() {
                    entry_key(self.entries@[i + 1])
                } else {
                    SpecKey { active: words_set(words), at_start: flag }
                }),
        ensures
            self.machine.has_keys(MAX_DFA_STATES as nat),
    {
        let m = self.machine;
        assert(self.found(1));
        assert(ks[0] == m.key_after(Seq::<u8>::empty()));
        assert forall|i: int| 1 <= i < ks.len() implies m.reachable(#[trigger] ks[i]) by {
            if i + 1 < self.entries@.len() {
                assert(self.found(i + 1));
                let e = self.entries@[i + 1];
                lemma_not_empty(e.active@);
                assert(m.key_after(self.paths@[i + 1]) == ks[i]);
            } else {
                lemma_not_empty(words);
                assert(m.key_after(path) == ks[i]);
            }
        }
        assert forall|i: int, j: int| 0 <= i < ks.len() && 0 <= j < ks.len() && i != j implies ks[i]
            != ks[j] by {
            let (a, b) = if i < j {
                (i, j)
            } else {
                (j, i)
            };
            assert(m.entry_ok(self.entries@[a + 1]));
            if b + 1 < self.entries@.len() {
                assert(self.differ(a + 1, b + 1));
                assert(m.entry_ok(self.entries@[b + 1]));
                if ks[a] == ks[b] {
                    lemma_same_words(
                        self.entries@[a + 1].active@,
                        self.entries@[b + 1].active@,
                    );
                }
            } else if ks[a] == ks[b] {
                lemma_same_words(self.entries@[a + 1].active@, words);
            }
        }
        assert(m.key_list(ks, MAX_DFA_STATES as nat));
    }
}

proof fn lemma_not_empty(words: Seq<u64>)
    requires
        !blank(words),
    ensures
        words_set(words) != Set::<int>::empty(),
{
    let q = choose|q: int| bits::member(words, q);
    assert(words_set(words).contains(q));
}

proof fn lemma_same_words(a: Seq<u64>, b: Seq<u64>)
    requires
        a.len() == b.len(),
        words_set(a) == words_set(b),
    ensures
        a == b,
{
    assert forall|q: int| #[trigger] bits::member(a, q) <==> bits::member(b, q) by {
        assert(words_set(a).contains(q) == bits::member(a, q));
        assert(words_set(b).contains(q) == bits::member(b, q));
    }
    bits::lemma_words_equal(a, b);
}


impl Machine {
    /// Like bytes lead from an entry to the same entry.
    proof fn lemma_arrow_alike(self, from: Entry, to: Entry, c: u8, d: u8)
        requires
            self.entry_ok(from),
            self.arrow(from, to, c),
            self.alike(c, d),
        ensures
            self.arrow(from, to, d),
    {
        let dot = from.at_start && c == 0x2e;
        let base = if dot {
            from.active@
        } else {
            from.wide@
        };
        assert(dot == (from.at_start && d == 0x2e));
        assert forall|q: int, p: int| self.leads_over(q, c, dot, p) == #[trigger] self.leads_over(
            q,
            d,
            dot,
            p,
        ) by {
            self.lemma_alike(c, d, dot, dot, q, p);
        }
        assert forall|p: int| #[trigger] bits::member(to.active@, p) <==> exists|q: int| #[trigger]
            bits::member(base, q) && self.leads_over(q, d, dot, p) by {
            assert(bits::member(to.active@, p) <==> exists|q: int| #[trigger]
                bits::member(base, q) && self.leads_over(q, c, dot, p));
            if bits::member(to.active@, p) {
                let q = choose|q: int| #[trigger]
                    bits::member(base, q) && self.leads_over(q, c, dot, p);
                assert(self.leads_over(q, d, dot, p));
            }
        }
    }
}

impl Builder {
    /// Fills the row of state `id`. `false` where the table is full.
    fn fill_row(&mut self, id: usize) -> (r: bool)
        requires
            old(self).wf(),
            old(self).rows@.len() == id,
            1 <= id < old(self).entries@.len(),
        ensures
            r ==> {
                &&& final(self).wf()
                &&& final(self).machine == old(self).machine
                &&& final(self).rows@.len() == id + 1
            },
            !r ==> old(self).machine.has_keys(MAX_DFA_STATES as nat),
    {
        let ghost start = *self;
        let mut row: Vec<usize> = Vec::new();
        let mut k: usize = 0;
        while k < self.bytes.len()
            invariant
                k <= self.bytes@.len(),
                row@.len() == k,
                start == *old(self),
                self.wf(),
                self.machine == start.machine,
                self.rows@.len() == id,
                1 <= id < self.entries@.len(),
                forall|j: int|
                    0 <= j < k ==> (#[trigger] row@[j]) < self.entries@.len() && self.machine.arrow(
                        self.entries@[id as int],
                        self.entries@[row@[j] as int],
                        self.bytes@[j],
                    ),
            decreases self.bytes@.len() - k,
        {
            let c: u8 = self.bytes[k];
            let ghost before = *self;
            let ghost from = self.entries@[id as int];
            assert(self.machine.entry_ok(from));
            assert(self.found(id as int));
            let dot: bool = self.entries[id].at_start && c == 0x2e;
            let next: Vec<u64> = if dot {
                self.machine.sweep(&self.entries[id].active, c, dot)
            } else {
                self.machine.sweep(&self.entries[id].wide, c, dot)
            };
            let flag: bool = self.tracks_start && self.machine.seps.is_sep(c);
            let ghost path = self.paths@[id as int].push(c);
            proof {
                let to = Entry { active: next, wide: next, at_start: flag };
                assert(self.machine.arrow(from, to, c));
                self.machine.lemma_arrow_key(from, to, c);
                self.machine.lemma_stepped_settled(
                    if dot {
                        from.active@
                    } else {
                        from.wide@
                    },
                    next@,
                    c,
                    dot,
                );
                assert(path.drop_last() =~= self.paths@[id as int]);
                assert(path.last() == c);
            }
            let ghost words = next@;
            match self.intern(next, flag, Ghost(path)) {
                Some(to) => {
                    row.push(to);
                    proof {
                        assert forall|j: int| 0 <= j < k + 1 implies (#[trigger] row@[j])
                            < self.entries@.len() && self.machine.arrow(
                            self.entries@[id as int],
                            self.entries@[row@[j] as int],
                            self.bytes@[j],
                        ) by {
                            assert(self.entries@[id as int] == before.entries@[id as int]);
                            if j < k {
                                assert(self.entries@[row@[j] as int]
                                    == before.entries@[row@[j] as int]);
                            }
                        }
                    }
                },
                None => {
                    return false;
                },
            }
            k = k + 1;
        }
        let ghost filled = *self;
        self.rows.push(row);
        proof {
            assert forall|i: int| 1 <= i < self.entries@.len() implies #[trigger] self.listed(i) by {
                assert(filled.listed(i));
            }
            assert forall|i: int| 1 <= i < self.entries@.len() implies #[trigger] self.found(i) by {
                assert(filled.found(i));
            }
            assert forall|i: int, j: int| 1 <= i < j < self.entries@.len() implies #[trigger] self.differ(
                i,
                j,
            ) by {
                assert(filled.differ(i, j));
            }
            assert forall|i: int| 0 <= i < self.rows@.len() implies #[trigger] self.row_ok(i) by {
                if i < id {
                    assert(filled.row_ok(i));
                }
            }
        }
        true
    }

    /// The states over the table of a machine, the dead one and the first one.
    fn seed(machine: Machine) -> (r: Self)
        requires
            machine.wf(),
        ensures
            r.wf(),
            r.machine == machine,
            r.rows@.len() == 1,
    {
        let tracks_start: bool = !machine.dot && machine.any_reads_dot();
        let (class_of_byte, bytes) = machine.byte_classes(tracks_start);
        let mut row: Vec<usize> = Vec::new();
        while row.len() < bytes.len()
            invariant
                row@.len() <= bytes@.len(),
                forall|j: int| 0 <= j < row@.len() ==> #[trigger] row@[j] == 0,
            decreases bytes@.len() - row@.len(),
        {
            row.push(0);
        }
        let none: Vec<u64> = bits::empty(machine.n_words);
        let wide: Vec<u64> = machine.widened(&none);
        let dead = Entry { active: none, wide, at_start: false };
        let active: Vec<u64> = machine.init_bits.clone();
        assert(active@ =~= machine.init_bits@);
        let wide: Vec<u64> = machine.widened(&active);
        let accepts: bool = bits::intersects(&active, &machine.accept_bits);
        let h: u64 = hash_words(&active, tracks_start);
        let first = Entry { active, wide, at_start: tracks_start };
        let mut by_hash: HashMap<u64, Vec<usize>> = HashMap::new();
        let list: Vec<usize> = vec![1];
        let ghost one = list;
        by_hash.insert(h, list);
        let ghost paths = seq![Seq::<u8>::empty(), Seq::<u8>::empty()];
        let r = Builder {
            machine,
            class_of_byte,
            bytes,
            tracks_start,
            entries: vec![dead, first],
            rows: vec![row],
            accepting: vec![false, accepts],
            by_hash,
            paths: Ghost(paths),
        };
        proof {
            assert(r.entries@[0] == dead);
            assert(r.entries@[1] == first);
            assert(r.rows@[0] == row);
            assert forall|id: int| 0 <= id < r.entries@.len() implies r.machine.entry_ok(
                #[trigger] r.entries@[id],
            ) by {
                assert(id == 0 || id == 1);
            }
            assert(r.listed(1)) by {
                assert(r.by_hash@[h]@[0] == 1);
            }
            assert forall|g: u64, k: int|
                r.by_hash@.contains_key(g) && 0 <= k < r.by_hash@[g]@.len() implies 1 <= (
            #[trigger] r.by_hash@[g]@[k]) < 2 by {
                assert(g == h);
                assert(r.by_hash@[g] == one);
            }
            assert(r.found(1));
            assert(r.machine.arrow(dead, dead, 0)) by {
                r.lemma_dead_arrow(dead, 0);
            }
            assert(r.row_ok(0)) by {
                assert forall|k: int| 0 <= k < r.bytes@.len() implies (#[trigger] r.rows@[0]@[k])
                    < r.entries@.len() && r.machine.arrow(
                    r.entries@[0],
                    r.entries@[r.rows@[0]@[k] as int],
                    r.bytes@[k],
                ) by {
                    r.lemma_dead_arrow(dead, r.bytes@[k]);
                }
            }
            assert(blank(dead.active@));
        }
        r
    }

    proof fn lemma_dead_arrow(self, dead: Entry, c: u8)
        requires
            self.machine.entry_ok(dead),
            blank(dead.active@),
        ensures
            self.machine.arrow(dead, dead, c),
    {
        let m = self.machine;
        assert forall|q: int| !bits::member(dead.wide@, q) by {
            if bits::member(dead.wide@, q) {
                let g = choose|g: int|
                    0 <= g < m.guards@.len() && bits::member(
                        dead.active@,
                        (#[trigger] m.guards@[g]).state as int,
                    ) && bits::member(m.guards@[g].released@, q);
                assert(!bits::member(dead.active@, m.guards@[g].state as int));
            }
        }
        let dot = dead.at_start && c == 0x2e;
        let base = if dot {
            dead.active@
        } else {
            dead.wide@
        };
        assert forall|p: int| #[trigger] bits::member(dead.active@, p) <==> exists|q: int|
            #[trigger]
            bits::member(base, q) && m.leads_over(q, c, dot, p) by {
            assert(!bits::member(dead.active@, p));
        }
    }
}

impl Builder {
    spec fn done(self) -> bool {
        self.wf() && self.rows@.len() == self.entries@.len()
    }

    spec fn next(self, id: int, c: u8) -> int {
        self.rows@[id]@[self.class_of_byte@[c as int] as int] as int
    }

    /// The state that the bytes of `p` lead to from `id`.
    spec fn run_from(self, id: int, p: Seq<u8>) -> int
        decreases p.len(),
    {
        if p.len() == 0 {
            id
        } else {
            self.next(self.run_from(id, p.drop_last()), p.last())
        }
    }

    proof fn lemma_next(self, id: int, c: u8)
        requires
            self.done(),
            0 <= id < self.entries@.len(),
        ensures
            0 <= self.next(id, c) < self.entries@.len(),
            self.machine.arrow(self.entries@[id], self.entries@[self.next(id, c)], c),
    {
        let k = self.class_of_byte@[c as int] as int;
        assert(self.row_ok(id));
        assert(self.rows@[id]@[k] < self.entries@.len());
        let rep = self.bytes@[k];
        assert(self.machine.alike(c, rep));
        self.machine.lemma_alike_self(rep);
        self.machine.lemma_alike_trans(c, rep, rep);
        assert(self.machine.entry_ok(self.entries@[id]));
        self.machine.lemma_arrow_alike(
            self.entries@[id],
            self.entries@[self.next(id, c)],
            rep,
            c,
        );
    }

    proof fn lemma_run_in(self, id: int, p: Seq<u8>)
        requires
            self.done(),
            0 <= id < self.entries@.len(),
        ensures
            0 <= self.run_from(id, p) < self.entries@.len(),
        decreases p.len(),
    {
        if p.len() > 0 {
            self.lemma_run_in(id, p.drop_last());
            self.lemma_next(self.run_from(id, p.drop_last()), p.last());
        }
    }

    proof fn lemma_run_push(self, id: int, p: Seq<u8>, c: u8)
        ensures
            self.run_from(id, p.push(c)) == self.next(self.run_from(id, p), c),
    {
        assert(p.push(c).drop_last() =~= p);
    }

    proof fn lemma_run_append(self, id: int, a: Seq<u8>, b: Seq<u8>)
        ensures
            self.run_from(id, a + b) == self.run_from(self.run_from(id, a), b),
        decreases b.len(),
    {
        if b.len() == 0 {
            assert(a + b =~= a);
        } else {
            assert((a + b).drop_last() =~= a + b.drop_last());
            assert((a + b).last() == b.last());
            self.lemma_run_append(id, a, b.drop_last());
        }
    }

    /// An empty set stays empty and accepts nothing.
    proof fn lemma_run_blank(self, id: int, t: Seq<u8>)
        requires
            self.done(),
            0 <= id < self.entries@.len(),
            blank(self.entries@[id].active@),
        ensures
            0 <= self.run_from(id, t) < self.entries@.len(),
            blank(self.entries@[self.run_from(id, t)].active@),
            !self.accepting@[self.run_from(id, t)],
        decreases t.len(),
    {
        if t.len() > 0 {
            self.lemma_run_blank(id, t.drop_last());
            let at = self.run_from(id, t.drop_last());
            self.lemma_next(at, t.last());
            assert(self.machine.entry_ok(self.entries@[at]));
            self.machine.lemma_arrow_blank(
                self.entries@[at],
                self.entries@[self.next(at, t.last())],
                t.last(),
            );
        }
        let e = self.entries@[self.run_from(id, t)];
        assert(self.accepting@[self.run_from(id, t)] == exists|q: int|
            bits::member(e.active@, q) && bits::member(self.machine.accept_bits@, q));
    }

    /// The state behind `p` accepts exactly if the program matches `p`.
    proof fn lemma_run(self, p: Seq<u8>)
        requires
            self.done(),
        ensures
            0 <= self.run_from(1, p) < self.entries@.len(),
            self.accepting@[self.run_from(1, p)] == lang::matches(
                self.machine.spec_ops(),
                self.machine.cx(p.len() as int),
                p,
            ),
    {
        self.lemma_run_tracks(p, p.len() as int);
        let e = self.entries@[self.run_from(1, p)];
        assert(self.machine.entry_ok(e));
        self.machine.lemma_at_end(e.active@, p);
    }

    proof fn lemma_run_tracks(self, p: Seq<u8>, lim: int)
        requires
            self.done(),
            p.len() <= lim,
        ensures
            0 <= self.run_from(1, p) < self.entries@.len(),
            ({
                let e = self.entries@[self.run_from(1, p)];
                &&& self.machine.tracks(e.active@, p, lim)
                &&& blank(e.active@) || e.at_start == (self.machine.tracks_start()
                    && segment_starts(self.machine.seps, p))
            }),
        decreases p.len(),
    {
        let m = self.machine;
        if p.len() == 0 {
            let cur = self.entries@[1].active@;
            assert forall|s: Seq<u8>| #[trigger] super::starts_with(s, p) implies (
            super::some_accepts(m.states@, cur, m.cx(lim), s, 0) <==> nfa::accepts(
                m.states@,
                m.cx(lim),
                s,
                m.initial as int,
                0,
            )) by {
                assert(super::stands_at(
                    m.states@,
                    m.initial as int,
                    cur,
                    false,
                    m.cx(lim),
                    s,
                    0,
                ));
            }
        } else {
            let pre = p.drop_last();
            self.lemma_run_tracks(pre, lim);
            let id = self.run_from(1, pre);
            self.lemma_next(id, p.last());
            assert(m.entry_ok(self.entries@[id]));
            assert(m.entry_ok(self.entries@[self.next(id, p.last())]));
            m.lemma_arrow_tracks(
                self.entries@[id],
                self.entries@[self.next(id, p.last())],
                pre,
                p.last(),
                lim,
            );
            assert(pre.push(p.last()) =~= p);
        }
    }

    /// The state behind `p` stands for the key behind `p`, or both are dead.
    proof fn lemma_run_key(self, p: Seq<u8>)
        requires
            self.done(),
        ensures
            0 <= self.run_from(1, p) < self.entries@.len(),
            ({
                let e = self.entries@[self.run_from(1, p)];
                let k = self.machine.key_after(p);
                &&& words_set(e.active@) == k.active
                &&& blank(e.active@) || e.at_start == k.at_start
            }),
        decreases p.len(),
    {
        let m = self.machine;
        self.lemma_run_in(1, p);
        if p.len() > 0 {
            let pre = p.drop_last();
            self.lemma_run_key(pre);
            let id = self.run_from(1, pre);
            let e = self.entries@[id];
            let to = self.entries@[self.next(id, p.last())];
            self.lemma_next(id, p.last());
            assert(m.entry_ok(e));
            m.lemma_arrow_key(e, to, p.last());
            if blank(e.active@) {
                let cur = words_set(e.active@);
                assert forall|dot: bool, q: int| !#[trigger] m.in_wide(cur, dot, q) by {
                    if m.in_wide(cur, dot, q) {
                        if !cur.contains(q) {
                            let g = choose|g: int|
                                0 <= g < m.guards@.len() && cur.contains(
                                    (#[trigger] m.guards@[g]).state as int,
                                ) && bits::member(m.guards@[g].released@, q);
                            assert(bits::member(e.active@, m.guards@[g].state as int));
                        }
                    }
                }
                assert forall|dot: bool| m.after(cur, p.last(), dot) =~= Set::<int>::empty() by {}
            }
        }
    }

    /// A finished table has room for every key.
    proof fn lemma_keys_fit(self, ks: Seq<SpecKey>, n: nat)
        requires
            self.done(),
            self.machine.key_list(ks, n),
        ensures
            n < self.entries@.len(),
    {
        let m = self.machine;
        let size = (self.entries@.len() - 1) as nat;
        let list = Seq::new(size, |i: int| entry_key(self.entries@[i + 1]));
        assert forall|k: SpecKey| #[trigger] ks.to_set().contains(k) implies list.to_set().contains(
            k,
        ) by {
            let i = choose|i: int| 0 <= i < ks.len() && ks[i] == k;
            if i == 0 {
                assert(self.found(1));
                assert(list[0] == k);
            } else {
                assert(m.reachable(ks[i]));
                let p = choose|p: Seq<u8>| #[trigger] m.key_after(p) == k;
                self.lemma_run_key(p);
                let id = self.run_from(1, p);
                let e = self.entries@[id];
                if blank(e.active@) {
                    assert(words_set(e.active@) =~= Set::<int>::empty());
                }
                assert(id != 0);
                assert(list[id - 1] == k);
            }
        }
        ks.unique_seq_to_set();
        list.lemma_cardinality_of_set();
        vstd::seq_lib::seq_to_set_is_finite(list);
        vstd::set_lib::lemma_len_subset(ks.to_set(), list.to_set());
    }

    /// A finished table has one state for each key, and a dead one.
    proof fn lemma_num_states(self)
        requires
            self.done(),
        ensures
            self.machine.has_keys((self.entries@.len() - 1) as nat),
            forall|n: nat|
                self.machine.has_keys(n) ==> n < self.entries@.len(),
    {
        let m = self.machine;
        let size = (self.entries@.len() - 1) as nat;
        let ks = Seq::new(size, |i: int| entry_key(self.entries@[i + 1]));
        assert(self.found(1));
        assert forall|i: int| 1 <= i < ks.len() implies m.reachable(#[trigger] ks[i]) by {
            assert(self.found(i + 1));
            lemma_not_empty(self.entries@[i + 1].active@);
            assert(m.key_after(self.paths@[i + 1]) == ks[i]);
        }
        assert forall|i: int, j: int| 0 <= i < ks.len() && 0 <= j < ks.len() && i != j implies ks[i]
            != ks[j] by {
            let (a, b) = if i < j {
                (i, j)
            } else {
                (j, i)
            };
            assert(self.differ(a + 1, b + 1));
            assert(m.entry_ok(self.entries@[a + 1]));
            assert(m.entry_ok(self.entries@[b + 1]));
            if ks[a] == ks[b] {
                lemma_same_words(self.entries@[a + 1].active@, self.entries@[b + 1].active@);
            }
        }
        assert(m.key_list(ks, size));
        assert forall|n: nat| m.has_keys(n) implies n < self.entries@.len() by {
            let ks = choose|ks: Seq<SpecKey>| #[trigger] m.key_list(ks, n);
            self.lemma_keys_fit(ks, n);
        }
    }

    /// Some state of the set that state `id` stands for accepts a continuation
    /// in which no dot is hidden.
    spec fn lives(self, id: int) -> bool {
        exists|q: int|
            bits::member(self.entries@[id].active@, q) && bits::member(
                self.machine.reach_bits@,
                q,
            )
    }

    /// Marks the states from which some bytes may lead to one that accepts.
    fn reach_to_accept(&self) -> (r: Vec<bool>)
        requires
            self.done(),
        ensures
            r@.len() == self.entries@.len(),
            forall|id: int| 0 <= id < r@.len() ==> #[trigger] r@[id] == self.lives(id),
    {
        let mut out: Vec<bool> = Vec::new();
        for id in 0..self.entries.len()
            invariant
                self.done(),
                out@.len() == id,
                forall|k: int| 0 <= k < id ==> #[trigger] out@[k] == self.lives(k),
        {
            assert(self.machine.entry_ok(self.entries@[id as int]));
            out.push(bits::intersects(&self.entries[id].active, &self.machine.reach_bits));
        }
        out
    }
}

/// A compiled program as a table of transitions.
#[derive(Clone)]
pub struct ThompsonDfa {
    rows: Vec<Vec<usize>>,
    class_of_byte: Vec<usize>,
    num_classes: usize,
    accepting: Vec<bool>,
    reach_to_accept: Vec<bool>,
    facts: LiteralFacts,
    prefixes: Vec<Vec<u8>>,
    seps: Seps,
    table: Ghost<Builder>,
}

/// The machine is that of the program.
pub open spec fn machine_of(
    m: Machine,
    ops: Seq<SpecOp>,
    case_insensitive: bool,
    dot: bool,
    seps: Seps,
) -> bool {
    &&& m.wf()
    &&& m.lean()
    &&& m.spec_ops() == ops
    &&& m.spec_ci() == case_insensitive
    &&& m.spec_dot() == dot
    &&& m.spec_guards() == !dot
    &&& m.spec_seps() == seps
}

impl ThompsonDfa {
    pub closed spec fn wf(self) -> bool {
        let table = self.table@;
        &&& table.done()
        &&& self.rows@ == table.rows@
        &&& self.class_of_byte@ == table.class_of_byte@
        &&& self.num_classes == table.bytes@.len()
        &&& self.accepting@ == table.accepting@
        &&& self.reach_to_accept@.len() == table.entries@.len()
        &&& forall|id: int|
            0 <= id < table.entries@.len() ==> #[trigger] self.reach_to_accept@[id] == table.lives(
                id,
            )
        &&& machine_of(
            table.machine,
            self.spec_ops(),
            self.spec_ci(),
            self.spec_dot(),
            self.seps,
        )
        &&& self.facts.facts_of(self.spec_ops(), self.spec_ci())
        &&& prefixes::static_prefixes(self.spec_ops(), facts::bytes_views(self.prefixes@))
    }

    /// The machine whose sets of states the table's states stand for.
    pub closed spec fn machine(self) -> Machine {
        self.table@.machine
    }

    /// The program.
    pub closed spec fn spec_ops(self) -> Seq<SpecOp> {
        self.table@.machine.spec_ops()
    }

    pub closed spec fn spec_seps(self) -> Seps {
        self.seps
    }

    pub closed spec fn spec_dot(self) -> bool {
        self.table@.machine.spec_dot()
    }

    pub closed spec fn spec_ci(self) -> bool {
        self.table@.machine.spec_ci()
    }

    /// How the first `n` bytes of a path are matched.
    pub open spec fn cx(self, n: int) -> Cx {
        lang::cx(self.spec_seps(), self.spec_ci(), self.spec_dot(), n)
    }

    /// The program matches `path`.
    pub open spec fn matches(self, path: Seq<u8>) -> bool {
        lang::matches(self.spec_ops(), self.cx(path.len() as int), path)
    }

    /// The program matches `dir`, a separator and some more bytes, where only
    /// the dots of `dir` are hidden.
    pub open spec fn below(self, dir: Seq<u8>) -> bool {
        exists|t: Seq<u8>| #[trigger]
            lang::matches(self.spec_ops(), self.cx(dir.len() as int), (dir + seq![0x2fu8]) + t)
    }

    /// Builds the table for the separators of this platform. Where it would
    /// have too many states, the program is handed back.
    pub fn build(program: OpProgram, dot: bool) -> (r: Result<Self, OpProgram>)
        requires
            program.wf(),
            ir::solid(program@),
        ensures
            match r {
                Ok(dfa) => {
                    &&& dfa.wf()
                    &&& dfa.spec_ops() == program@
                    &&& dfa.spec_ci() == program.case_insensitive
                    &&& dfa.spec_dot() == dot
                    &&& machine_of(
                        dfa.machine(),
                        program@,
                        program.case_insensitive,
                        dot,
                        dfa.spec_seps(),
                    )
                    &&& !dfa.machine().has_keys(MAX_DFA_STATES as nat)
                },
                Err(p) => p == program && exists|m: Machine|
                    #[trigger] machine_of(
                        m,
                        program@,
                        program.case_insensitive,
                        dot,
                        m.spec_seps(),
                    ) && m.has_keys(MAX_DFA_STATES as nat),
            },
    {
        ThompsonDfa::build_with_seps(program, dot, Seps::platform())
    }

    /// Builds the table. Where it would have too many states, the program is
    /// handed back.
    pub fn build_with_seps(program: OpProgram, dot: bool, seps: Seps) -> (r: Result<
        Self,
        OpProgram,
    >)
        requires
            program.wf(),
            ir::solid(program@),
        ensures
            match r {
                Ok(dfa) => {
                    &&& dfa.wf()
                    &&& dfa.spec_ops() == program@
                    &&& dfa.spec_ci() == program.case_insensitive
                    &&& dfa.spec_dot() == dot
                    &&& dfa.spec_seps() == seps
                    &&& machine_of(
                        dfa.machine(),
                        program@,
                        program.case_insensitive,
                        dot,
                        seps,
                    )
                    &&& !dfa.machine().has_keys(MAX_DFA_STATES as nat)
                },
                Err(p) => p == program && exists|m: Machine|
                    #[trigger] machine_of(
                        m,
                        program@,
                        program.case_insensitive,
                        dot,
                        seps,
                    ) && m.has_keys(MAX_DFA_STATES as nat),
            },
    {
        let machine = Machine::new(&program.ops, program.case_insensitive, !dot, dot, seps);
        let ghost m = machine;
        let mut builder = Builder::seed(machine);
        let mut id: usize = 1;
        while id < builder.entries.len()
            invariant
                builder.wf(),
                builder.machine == m,
                machine_of(m, program@, program.case_insensitive, dot, seps),
                1 <= id <= builder.entries@.len(),
                builder.rows@.len() == id,
            decreases MAX_DFA_STATES - id,
        {
            if !builder.fill_row(id) {
                return Err(program);
            }
            id = id + 1;
        }
        let reach_to_accept: Vec<bool> = builder.reach_to_accept();
        let prefixes: Vec<Vec<u8>> = compute_static_prefixes(&program.ops);
        proof {
            builder.lemma_num_states();
        }
        let ghost table = builder;
        let num_classes: usize = builder.bytes.len();
        Ok(
            ThompsonDfa {
                rows: builder.rows,
                class_of_byte: builder.class_of_byte,
                num_classes,
                accepting: builder.accepting,
                reach_to_accept,
                facts: program.facts,
                prefixes,
                seps,
                table: Ghost(table),
            },
        )
    }

    /// Cached static path prefixes.
    pub fn static_prefixes(&self) -> (r: &Vec<Vec<u8>>)
        requires
            self.wf(),
        ensures
            prefixes::static_prefixes(self.spec_ops(), facts::bytes_views(r@)),
    {
        &self.prefixes
    }

    /// How many classes of bytes the table tells apart.
    pub fn num_byte_classes(&self) -> (r: usize)
        requires
            self.wf(),
        ensures
            r == self.machine().classes(256),
    {
        self.num_classes
    }

    /// How many states the table has: one for each different key that bytes
    /// lead to, and the dead one.
    pub fn num_states(&self) -> (r: usize)
        requires
            self.wf(),
        ensures
            r >= 2,
            self.machine().has_keys((r - 1) as nat),
            forall|n: nat| self.machine().has_keys(n) ==> n < r,
    {
        proof {
            self.table@.lemma_num_states();
        }
        self.accepting.len()
    }

    #[inline]
    fn step(&self, state: usize, c: u8) -> (r: usize)
        requires
            self.wf(),
            state < self.table@.entries@.len(),
        ensures
            r == self.table@.next(state as int, c),
            r < self.table@.entries@.len(),
    {
        proof {
            self.table@.lemma_next(state as int, c);
            assert(self.table@.row_ok(state as int));
        }
        let class: usize = self.class_of_byte[c as usize];
        self.rows[state][class]
    }

    /// Whether the whole `path` matches.
    pub fn is_match(&self, path: &[u8]) -> (r: bool)
        requires
            self.wf(),
        ensures
            r == self.matches(path@),
    {
        proof {
            if self.matches(path@) {
                facts::lemma_facts_sound(
                    self.spec_ops(),
                    self.cx(path@.len() as int),
                    path@,
                    0,
                );
            }
        }
        if !self.facts.accept_with(self.seps, path) {
            return false;
        }
        let mut state: usize = 1;
        assert(path@.take(0) =~= Seq::<u8>::empty());
        for i in 0..path.len()
            invariant
                self.wf(),
                state < self.table@.entries@.len(),
                state == self.table@.run_from(1, path@.take(i as int)),
        {
            proof {
                self.table@.lemma_run_push(1, path@.take(i as int), path@[i as int]);
                assert(path@.take(i + 1) =~= path@.take(i as int).push(path@[i as int]));
            }
            state = self.step(state, path[i]);
        }
        proof {
            assert(path@.take(path@.len() as int) =~= path@);
            self.table@.lemma_run(path@);
        }
        self.accepting[state]
    }

    /// Whether `dir_path` matches, and whether anything below it can. The
    /// empty path stands for the directory that all paths lie under.
    pub fn match_dir(&self, dir_path: &[u8]) -> (r: DirMatch)
        requires
            self.wf(),
        ensures
            r.exact() == self.matches(dir_path@),
            r.below() == (dir_path@.len() == 0 || self.below(dir_path@)),
    {
        if dir_path.len() == 0 {
            return DirMatch::from_exact_prefix(self.is_match(dir_path), true);
        }
        let mut state: usize = 1;
        assert(dir_path@.take(0) =~= Seq::<u8>::empty());
        for i in 0..dir_path.len()
            invariant
                self.wf(),
                state < self.table@.entries@.len(),
                state == self.table@.run_from(1, dir_path@.take(i as int)),
        {
            proof {
                self.table@.lemma_run_push(1, dir_path@.take(i as int), dir_path@[i as int]);
                assert(dir_path@.take(i + 1) =~= dir_path@.take(i as int).push(
                    dir_path@[i as int],
                ));
            }
            state = self.step(state, dir_path[i]);
            if state == 0 {
                proof {
                    self.lemma_dead(dir_path@.take(i + 1), dir_path@.skip(i + 1));
                    assert(dir_path@.take(i + 1) + dir_path@.skip(i + 1) =~= dir_path@);
                    self.lemma_below(dir_path@);
                }
                return DirMatch::Pruned;
            }
        }
        let after_sep: usize = self.step(state, 0x2f);
        proof {
            assert(dir_path@.take(dir_path@.len() as int) =~= dir_path@);
            self.table@.lemma_run(dir_path@);
            self.lemma_below(dir_path@);
        }
        DirMatch::from_exact_prefix(self.accepting[state], self.reach_to_accept[after_sep])
    }

    proof fn lemma_below(self, dir: Seq<u8>)
        requires
            self.wf(),
        ensures
            ({
                let id = self.table@.next(self.table@.run_from(1, dir), 0x2f);
                self.below(dir) == self.table@.lives(id)
            }),
    {
        let table = self.table@;
        let m = table.machine;
        let lim = dir.len() as int;
        table.lemma_run_tracks(dir, lim);
        let id = table.run_from(1, dir);
        table.lemma_next(id, 0x2f);
        let to = table.next(id, 0x2f);
        assert(m.entry_ok(table.entries@[id]));
        assert(m.entry_ok(table.entries@[to]));
        m.lemma_arrow_tracks(table.entries@[id], table.entries@[to], dir, 0x2f, lim);
        m.lemma_below(table.entries@[to].active@, dir);
        assert(self.cx(lim) == m.cx(lim));
        if self.below(dir) {
            let t = choose|t: Seq<u8>| #[trigger]
                lang::matches(self.spec_ops(), self.cx(lim), (dir + seq![0x2fu8]) + t);
            assert(lang::matches(m.spec_ops(), m.cx(lim), (dir + seq![0x2fu8]) + t));
        }
        if m.below(dir) {
            let t = choose|t: Seq<u8>| #[trigger]
                lang::matches(m.spec_ops(), m.cx(lim), (dir + seq![0x2fu8]) + t);
            assert(lang::matches(self.spec_ops(), self.cx(lim), (dir + seq![0x2fu8]) + t));
        }
    }

    /// Nothing leads out of the dead state.
    proof fn lemma_dead(self, pre: Seq<u8>, t: Seq<u8>)
        requires
            self.wf(),
            self.table@.run_from(1, pre) == 0,
        ensures
            !self.matches(pre + t),
            !self.below(pre + t),
    {
        let table = self.table@;
        table.lemma_run_append(1, pre, t);
        table.lemma_run_blank(0, t);
        table.lemma_run(pre + t);
        self.lemma_below(pre + t);
        let dir = pre + t;
        let id = table.run_from(1, dir);
        table.lemma_next(id, 0x2f);
        assert(table.machine.entry_ok(table.entries@[id]));
        table.machine.lemma_arrow_blank(
            table.entries@[id],
            table.entries@[table.next(id, 0x2f)],
            0x2f,
        );
    }
}

} // verus!
