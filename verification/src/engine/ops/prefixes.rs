//! Literal path prefixes that a walk can start from.

use crate::engine::facts;
use crate::engine::lang::{self, Cx};
use crate::engine::ops::ir;
use crate::engine::ops::ir::{Op, SpecOp};
use crate::seps::Seps;
use vstd::prelude::*;

verus! {

/// `op` spells fixed bytes, up to how many separators a run has.
pub open spec fn spells(op: SpecOp) -> bool {
    op is Lit || op is Sep || op is SepRun
}

/// A segment ends at `op`.
pub open spec fn ends_segment(op: SpecOp) -> bool {
    op is Sep || op is SepRun
}

/// The bytes that `ops` spell.
pub open spec fn spelled(ops: Seq<SpecOp>) -> Seq<u8>
    decreases ops.len(),
{
    if ops.len() == 0 {
        seq![]
    } else {
        match ops.last() {
            SpecOp::Lit(b) => spelled(ops.drop_last()) + b,
            _ => spelled(ops.drop_last()).push(0x2f),
        }
    }
}

/// How many ops at the head of `ops` spell bytes.
pub open spec fn lead(ops: Seq<SpecOp>) -> int
    decreases ops.len(),
{
    if ops.len() == 0 || !spells(ops[0]) {
        0
    } else {
        1 + lead(ops.drop_first())
    }
}

/// How many of the first `n` ops there are up to the last end of a segment.
pub open spec fn boundary(ops: Seq<SpecOp>, n: int) -> int
    decreases n,
{
    if n <= 0 || n > ops.len() {
        0
    } else if ends_segment(ops[n - 1]) {
        n
    } else {
        boundary(ops, n - 1)
    }
}

/// `b` without the slashes at its end.
pub open spec fn strip_slashes(b: Seq<u8>) -> Seq<u8>
    decreases b.len(),
{
    if b.len() > 0 && b.last() == 0x2f {
        strip_slashes(b.drop_last())
    } else {
        b
    }
}

/// The whole segments that `ops` start with, and their last part too where
/// `ops` spell bytes alone.
pub open spec fn prefix_of(ops: Seq<SpecOp>) -> Seq<u8> {
    strip_slashes(
        spelled(
            ops.take(
                if lead(ops) == ops.len() {
                    ops.len() as int
                } else {
                    boundary(ops, lead(ops))
                },
            ),
        ),
    )
}

/// The branches of a leading alternation that fills whole segments are taken
/// one by one.
pub open spec fn splits(ops: Seq<SpecOp>) -> bool {
    ops.len() > 0 && ops[0] is Alternation && (ops.len() == 1 || ends_segment(ops[1]))
}

/// The prefixes of `ops`, one for each way through its leading alternations.
pub open spec fn branch_prefixes(ops: Seq<SpecOp>) -> Seq<Seq<u8>>
    decreases ops, 0int,
{
    if ops.len() > 0 && (ops.len() == 1 || ends_segment(ops[1])) {
        match ops[0] {
            SpecOp::Alternation(bs) => all_branch_prefixes(bs),
            _ => seq![prefix_of(ops)],
        }
    } else {
        seq![prefix_of(ops)]
    }
}

pub open spec fn all_branch_prefixes(bs: Seq<Seq<SpecOp>>) -> Seq<Seq<u8>>
    decreases bs, 1int,
{
    if bs.len() == 0 {
        seq![]
    } else {
        all_branch_prefixes(bs.drop_last()) + branch_prefixes(bs.last())
    }
}

/// `short` is a directory above `long`.
pub open spec fn dir_above(short: Seq<u8>, long: Seq<u8>) -> bool {
    short.len() < long.len() && long[short.len() as int] == 0x2f && long.take(short.len() as int)
        == short
}

/// Some member of `all` is a directory above `p`.
pub open spec fn covered(all: Seq<Seq<u8>>, p: Seq<u8>) -> bool {
    exists|k: int| 0 <= k < all.len() && dir_above(#[trigger] all[k], p)
}

/// At their first difference `a` has the smaller byte.
pub open spec fn lex_less(a: Seq<u8>, b: Seq<u8>) -> bool {
    exists|k: int|
        0 <= k < a.len() && k < b.len() && #[trigger] a[k] < b[k] && a.take(k) == b.take(k)
}

/// Shorter first, and bytewise among equal lengths.
pub open spec fn before(a: Seq<u8>, b: Seq<u8>) -> bool {
    a.len() < b.len() || (a.len() == b.len() && lex_less(a, b))
}

pub open spec fn sorted(all: Seq<Seq<u8>>) -> bool {
    forall|i: int, j: int| 0 <= i < j < all.len() ==> before(#[trigger] all[i], #[trigger] all[j])
}

/// `out` is what is left of `all` when repetitions and everything below
/// another member are dropped, in order. An empty member stands for all.
pub open spec fn deduped(all: Seq<Seq<u8>>, out: Seq<Seq<u8>>) -> bool {
    if all.len() > 1 && all.contains(seq![]) {
        out == seq![Seq::<u8>::empty()]
    } else {
        &&& sorted(out)
        &&& forall|p: Seq<u8>| #[trigger]
            out.contains(p) <==> (all.contains(p) && !covered(all, p))
    }
}

/// The static prefixes of a program.
pub open spec fn static_prefixes(ops: Seq<SpecOp>, out: Seq<Seq<u8>>) -> bool {
    deduped(branch_prefixes(ops), out)
}

proof fn lemma_lex_total(a: Seq<u8>, b: Seq<u8>, k: int)
    requires
        a.len() == b.len(),
        0 <= k <= a.len(),
        a.take(k) == b.take(k),
    ensures
        lex_less(a, b) || lex_less(b, a) || a == b,
    decreases a.len() - k,
{
    if k == a.len() {
        assert(a.take(k) =~= a);
        assert(b.take(k) =~= b);
    } else if a[k] < b[k] {
    } else if b[k] < a[k] {
    } else {
        assert(a.take(k + 1) =~= a.take(k).push(a[k]));
        assert(b.take(k + 1) =~= b.take(k).push(b[k]));
        lemma_lex_total(a, b, k + 1);
    }
}

proof fn lemma_lex_trans(a: Seq<u8>, b: Seq<u8>, c: Seq<u8>)
    requires
        lex_less(a, b),
        lex_less(b, c),
        a.len() == b.len() == c.len(),
    ensures
        lex_less(a, c),
{
    let i = choose|k: int|
        0 <= k < a.len() && k < b.len() && #[trigger] a[k] < b[k] && a.take(k) == b.take(k);
    let j = choose|k: int|
        0 <= k < b.len() && k < c.len() && #[trigger] b[k] < c[k] && b.take(k) == c.take(k);
    let k = if i < j { i } else { j };
    assert(a.take(k) =~= c.take(k)) by {
        assert forall|m: int| 0 <= m < k implies a[m] == c[m] by {
            assert(a.take(i)[m] == b.take(i)[m]);
            assert(b.take(j)[m] == c.take(j)[m]);
        }
    }
    if i < j {
        assert(b.take(j)[i] == c.take(j)[i]);
    } else if j < i {
        assert(a.take(i)[j] == b.take(i)[j]);
    }
    assert(a[k] < c[k]);
}

proof fn lemma_before_trans(a: Seq<u8>, b: Seq<u8>, c: Seq<u8>)
    requires
        before(a, b),
        before(b, c),
    ensures
        before(a, c),
{
    if a.len() == b.len() && b.len() == c.len() {
        lemma_lex_trans(a, b, c);
    }
}

proof fn lemma_before_total(a: Seq<u8>, b: Seq<u8>)
    ensures
        before(a, b) || before(b, a) || a == b,
{
    if a.len() == b.len() {
        assert(a.take(0) =~= b.take(0));
        lemma_lex_total(a, b, 0);
    }
}

/// Whether `a` comes before `b`.
fn comes_before(a: &Vec<u8>, b: &Vec<u8>) -> (r: bool)
    ensures
        r == before(a@, b@),
{
    if a.len() < b.len() {
        return true;
    }
    if a.len() > b.len() {
        return false;
    }
    let mut k: usize = 0;
    while k < a.len()
        invariant
            k <= a@.len(),
            a@.len() == b@.len(),
            a@.take(k as int) == b@.take(k as int),
        decreases a@.len() - k,
    {
        if a[k] < b[k] {
            return true;
        }
        if b[k] < a[k] {
            proof {
                if lex_less(a@, b@) {
                    let m = choose|m: int|
                        0 <= m < a@.len() && m < b@.len() && #[trigger] a@[m] < b@[m] && a@.take(m)
                            == b@.take(m);
                    if m < k {
                        assert(a@.take(k as int)[m] == b@.take(k as int)[m]);
                    } else if m > k {
                        assert(a@.take(m)[k as int] == b@.take(m)[k as int]);
                    }
                }
            }
            return false;
        }
        proof {
            assert(a@.take(k + 1) =~= a@.take(k as int).push(a@[k as int]));
            assert(b@.take(k + 1) =~= b@.take(k as int).push(b@[k as int]));
        }
        k = k + 1;
    }
    proof {
        if lex_less(a@, b@) {
            let m = choose|m: int|
                0 <= m < a@.len() && m < b@.len() && #[trigger] a@[m] < b@[m] && a@.take(m)
                    == b@.take(m);
            assert(a@.take(k as int)[m] == b@.take(k as int)[m]);
        }
    }
    false
}

/// Puts `p` where it belongs in the sorted list, unless it is there already.
fn insert_sorted(list: &mut Vec<Vec<u8>>, p: Vec<u8>)
    requires
        sorted(facts::bytes_views(old(list)@)),
    ensures
        sorted(facts::bytes_views(final(list)@)),
        forall|q: Seq<u8>| #[trigger]
            facts::bytes_views(final(list)@).contains(q) <==> (facts::bytes_views(
                old(list)@,
            ).contains(q) || q == p@),
{
    let ghost all = facts::bytes_views(list@);
    let mut k: usize = list.len();
    while k > 0 && !comes_before(&list[k - 1], &p)
        invariant
            k <= list@.len(),
            list@ == old(list)@,
            all == facts::bytes_views(list@),
            forall|m: int| k <= m < all.len() ==> !before(#[trigger] all[m], p@),
        decreases k,
    {
        k = k - 1;
        assert(all[k as int] == list@[k as int]@);
    }
    proof {
        if k > 0 {
            assert(all[k - 1] == list@[k - 1]@);
        }
    }
    if k < list.len() {
        assert(all[k as int] == list@[k as int]@);
        if !comes_before(&p, &list[k]) {
            proof {
                lemma_before_total(all[k as int], p@);
                assert(all[k as int] == p@);
                assert(all.contains(p@));
            }
            return;
        }
    }
    let ghost pv = p@;
    list.insert(k, p);
    proof {
        let now = facts::bytes_views(list@);
        assert(now =~= all.insert(k as int, pv));
        assert forall|i: int, j: int| 0 <= i < j < now.len() implies before(
            #[trigger] now[i],
            #[trigger] now[j],
        ) by {
            let i0 = if i < k { i } else { i - 1 };
            let j0 = if j < k { j } else { j - 1 };
            if i == k {
                assert(now[j] == all[j0]);
                if j0 > k {
                    assert(before(all[k as int], all[j0]));
                    lemma_before_trans(pv, all[k as int], all[j0]);
                }
            } else if j == k {
                assert(now[i] == all[i0]);
                if i0 < k - 1 {
                    assert(before(all[i0], all[k - 1]));
                    lemma_before_trans(all[i0], all[k - 1], pv);
                }
            } else {
                assert(now[i] == all[i0] && now[j] == all[j0]);
            }
        }
        assert forall|q: Seq<u8>| #[trigger] now.contains(q) <==> (all.contains(q) || q == pv) by {
            if now.contains(q) {
                let i = choose|i: int| 0 <= i < now.len() && now[i] == q;
                if i < k {
                    assert(all[i] == q);
                } else if i > k {
                    assert(all[i - 1] == q);
                }
            }
            if all.contains(q) {
                let i = choose|i: int| 0 <= i < all.len() && all[i] == q;
                if i < k {
                    assert(now[i] == q);
                } else {
                    assert(now[i + 1] == q);
                }
            }
            if q == pv {
                assert(now[k as int] == q);
            }
        }
    }
}

/// Whether `short` is a directory above `long`.
fn is_dir_prefix_of(short: &Vec<u8>, long: &Vec<u8>) -> (r: bool)
    ensures
        r == dir_above(short@, long@),
{
    if short.len() >= long.len() || long[short.len()] != 0x2f {
        return false;
    }
    let mut k: usize = 0;
    while k < short.len()
        invariant
            k <= short@.len(),
            short@.len() < long@.len(),
            forall|m: int| 0 <= m < k ==> short@[m] == long@[m],
        decreases short@.len() - k,
    {
        if short[k] != long[k] {
            assert(long@.take(short@.len() as int)[k as int] != short@[k as int]);
            return false;
        }
        k = k + 1;
    }
    assert(long@.take(short@.len() as int) =~= short@);
    true
}

/// Drops repetitions and what lies below another prefix.
fn dedupe_prefixes(prefixes: Vec<Vec<u8>>) -> (r: Vec<Vec<u8>>)
    ensures
        deduped(facts::bytes_views(prefixes@), facts::bytes_views(r@)),
{
    let ghost all = facts::bytes_views(prefixes@);
    if prefixes.len() <= 1 {
        proof {
            assert forall|p: Seq<u8>| #[trigger] all.contains(p) implies !covered(all, p) by {
                if covered(all, p) {
                    let k = choose|k: int| 0 <= k < all.len() && dir_above(#[trigger] all[k], p);
                }
            }
        }
        return prefixes;
    }
    let mut distinct: Vec<Vec<u8>> = Vec::new();
    let mut k: usize = 0;
    while k < prefixes.len()
        invariant
            k <= prefixes@.len(),
            prefixes@.len() > 1,
            all == facts::bytes_views(prefixes@),
            sorted(facts::bytes_views(distinct@)),
            forall|q: Seq<u8>| #[trigger]
                facts::bytes_views(distinct@).contains(q) <==> all.take(k as int).contains(q),
            forall|m: int| 0 <= m < k ==> (#[trigger] all[m]).len() > 0,
        decreases prefixes@.len() - k,
    {
        assert(all[k as int] == prefixes@[k as int]@);
        if prefixes[k].len() == 0 {
            let mut only: Vec<Vec<u8>> = Vec::new();
            only.push(Vec::new());
            proof {
                assert(all[k as int] =~= Seq::<u8>::empty());
                assert(all.contains(Seq::<u8>::empty()));
                assert(facts::bytes_views(only@) =~= seq![Seq::<u8>::empty()]);
            }
            return only;
        }
        let ghost d0 = facts::bytes_views(distinct@);
        insert_sorted(&mut distinct, facts::clone_bytes(&prefixes[k]));
        proof {
            let now = all.take(k + 1);
            let was = all.take(k as int);
            assert(now =~= was.push(all[k as int]));
            assert forall|q: Seq<u8>| #[trigger] facts::bytes_views(distinct@).contains(q)
                <==> now.contains(q) by {
                assert(d0.contains(q) <==> was.contains(q));
                if was.contains(q) {
                    let i = choose|i: int| 0 <= i < was.len() && was[i] == q;
                    assert(now[i] == q);
                }
                if now.contains(q) {
                    let i = choose|i: int| 0 <= i < now.len() && now[i] == q;
                    if i < k {
                        assert(was[i] == q);
                    }
                }
                if q == all[k as int] {
                    assert(now[k as int] == q);
                }
            }
        }
        k = k + 1;
    }
    let ghost ds = facts::bytes_views(distinct@);
    assert(all.take(k as int) =~= all);
    assert(!all.contains(Seq::<u8>::empty())) by {
        if all.contains(Seq::<u8>::empty()) {
            let i = choose|i: int| 0 <= i < all.len() && all[i] == Seq::<u8>::empty();
            assert(all[i].len() > 0);
        }
    }
    let mut out: Vec<Vec<u8>> = Vec::new();
    let mut i: usize = 0;
    while i < distinct.len()
        invariant
            i <= distinct@.len(),
            ds == facts::bytes_views(distinct@),
            sorted(ds),
            forall|q: Seq<u8>| #[trigger] ds.contains(q) <==> all.contains(q),
            sorted(facts::bytes_views(out@)),
            forall|q: Seq<u8>| #[trigger]
                facts::bytes_views(out@).contains(q) <==> (ds.take(i as int).contains(q)
                    && !covered(all, q)),
        decreases distinct@.len() - i,
    {
        assert(ds[i as int] == distinct@[i as int]@);
        let mut hit: bool = false;
        let mut j: usize = 0;
        while j < distinct.len() && !hit
            invariant
                i < distinct@.len(),
                j <= distinct@.len(),
                ds == facts::bytes_views(distinct@),
                ds[i as int] == distinct@[i as int]@,
                hit ==> covered(ds, ds[i as int]),
                !hit ==> forall|m: int|
                    0 <= m < j ==> !dir_above(#[trigger] ds[m], ds[i as int]),
            decreases distinct@.len() - j,
        {
            assert(ds[j as int] == distinct@[j as int]@);
            if is_dir_prefix_of(&distinct[j], &distinct[i]) {
                hit = true;
            }
            j = j + 1;
        }
        proof {
            lemma_covered_same(ds, all, ds[i as int]);
        }
        let ghost o0 = facts::bytes_views(out@);
        let ghost was = ds.take(i as int);
        let ghost now = ds.take(i + 1);
        assert(now =~= was.push(ds[i as int]));
        if !hit {
            out.push(facts::clone_bytes(&distinct[i]));
            assert(facts::bytes_views(out@) =~= o0.push(ds[i as int]));
        }
        proof {
            let o1 = facts::bytes_views(out@);
            assert forall|q: Seq<u8>| #[trigger] o1.contains(q) <==> (now.contains(q) && !covered(
                all,
                q,
            )) by {
                assert(o0.contains(q) <==> (was.contains(q) && !covered(all, q)));
                if was.contains(q) {
                    let m = choose|m: int| 0 <= m < was.len() && was[m] == q;
                    assert(now[m] == q);
                }
                if now.contains(q) {
                    let m = choose|m: int| 0 <= m < now.len() && now[m] == q;
                    if m < i {
                        assert(was[m] == q);
                    }
                }
                if q == ds[i as int] {
                    assert(now[i as int] == q);
                }
                if o0.contains(q) {
                    let m = choose|m: int| 0 <= m < o0.len() && o0[m] == q;
                    assert(o1[m] == q);
                }
                if o1.contains(q) {
                    let m = choose|m: int| 0 <= m < o1.len() && o1[m] == q;
                    if m < o0.len() {
                        assert(o0[m] == q);
                    }
                }
                if !hit && q == ds[i as int] {
                    assert(o1[o0.len() as int] == q);
                }
            }
            assert(sorted(o1)) by {
                assert forall|a: int, b: int| 0 <= a < b < o1.len() implies before(
                    #[trigger] o1[a],
                    #[trigger] o1[b],
                ) by {
                    if b < o0.len() {
                        assert(o1[a] == o0[a] && o1[b] == o0[b]);
                    } else {
                        assert(o0.contains(o0[a]));
                        assert(o1[a] == o0[a]);
                        let m = choose|m: int| 0 <= m < was.len() && was[m] == o0[a];
                        assert(ds[m] == o0[a]);
                    }
                }
            }
        }
        i = i + 1;
    }
    assert(ds.take(i as int) =~= ds);
    out
}

/// Whether something is covered depends on the members alone.
proof fn lemma_covered_same(a: Seq<Seq<u8>>, b: Seq<Seq<u8>>, p: Seq<u8>)
    requires
        forall|q: Seq<u8>| #[trigger] a.contains(q) <==> b.contains(q),
    ensures
        covered(a, p) <==> covered(b, p),
{
    if covered(a, p) {
        let k = choose|k: int| 0 <= k < a.len() && dir_above(#[trigger] a[k], p);
        assert(a.contains(a[k]));
        let m = choose|m: int| 0 <= m < b.len() && b[m] == a[k];
        assert(dir_above(b[m], p));
    }
    if covered(b, p) {
        let k = choose|k: int| 0 <= k < b.len() && dir_above(#[trigger] b[k], p);
        assert(a.contains(b[k]));
        let m = choose|m: int| 0 <= m < a.len() && a[m] == b[k];
        assert(dir_above(a[m], p));
    }
}


proof fn lemma_lead(ops: Seq<SpecOp>, n: int)
    requires
        0 <= n <= ops.len(),
        forall|k: int| 0 <= k < n ==> spells(#[trigger] ops[k]),
        n < ops.len() ==> !spells(ops[n]),
    ensures
        lead(ops) == n,
    decreases ops.len(),
{
    if n > 0 {
        let rest = ops.drop_first();
        assert(spells(ops[0]));
        assert forall|k: int| 0 <= k < n - 1 implies spells(#[trigger] rest[k]) by {
            assert(rest[k] == ops[k + 1]);
        }
        if n < ops.len() {
            assert(rest[n - 1] == ops[n]);
        }
        lemma_lead(rest, n - 1);
    }
}

proof fn lemma_lead_spells(ops: Seq<SpecOp>)
    ensures
        0 <= lead(ops) <= ops.len(),
        forall|k: int| 0 <= k < lead(ops) ==> spells(#[trigger] ops[k]),
    decreases ops.len(),
{
    if ops.len() > 0 && spells(ops[0]) {
        let rest = ops.drop_first();
        lemma_lead_spells(rest);
        assert forall|k: int| 0 <= k < lead(ops) implies spells(#[trigger] ops[k]) by {
            if k > 0 {
                assert(rest[k - 1] == ops[k]);
            }
        }
    }
}

proof fn lemma_boundary_range(ops: Seq<SpecOp>, n: int)
    requires
        0 <= n <= ops.len(),
    ensures
        0 <= boundary(ops, n) <= n,
        boundary(ops, n) > 0 ==> ends_segment(ops[boundary(ops, n) - 1]),
    decreases n,
{
    if n > 0 && !ends_segment(ops[n - 1]) {
        lemma_boundary_range(ops, n - 1);
    }
}

/// The literal prefix of `ops`, cut back to whole segments.
pub fn extract_prefix(ops: &Vec<Op>) -> (r: Vec<u8>)
    ensures
        r@ == prefix_of(ir::ops_view(ops@)),
{
    let ghost views = ir::ops_view(ops@);
    let mut acc: Vec<u8> = Vec::new();
    let mut last_boundary: usize = 0;
    let mut i: usize = 0;
    while i < ops.len() && matches!(&ops[i], Op::Lit(_) | Op::Sep | Op::SepRun)
        invariant
            i <= ops@.len(),
            views == ir::ops_view(ops@),
            forall|k: int| 0 <= k < i ==> spells(#[trigger] views[k]),
            acc@ == spelled(views.take(i as int)),
            last_boundary <= acc@.len(),
            acc@.take(last_boundary as int) == spelled(views.take(boundary(views, i as int))),
        decreases ops@.len() - i,
    {
        let ghost acc0 = acc@;
        assert(views[i as int] == ir::op_view(ops@[i as int]));
        match &ops[i] {
            Op::Lit(bytes) => {
                acc.extend_from_slice(bytes);
                assert(acc@ =~= acc0 + bytes@);
                assert(acc@.take(last_boundary as int) =~= acc0.take(last_boundary as int));
            },
            _ => {
                acc.push(0x2f);
                last_boundary = acc.len();
                assert(acc@.take(last_boundary as int) =~= acc@);
            },
        }
        proof {
            let t = views.take(i + 1);
            assert(t.drop_last() =~= views.take(i as int));
            assert(t.last() == views[i as int]);
        }
        i = i + 1;
    }
    proof {
        if i < ops@.len() {
            assert(views[i as int] == ir::op_view(ops@[i as int]));
        }
        lemma_lead(views, i as int);
    }
    if i < ops.len() {
        acc.truncate(last_boundary);
    }
    let ghost whole = acc@;
    while acc.len() > 0 && acc[acc.len() - 1] == 0x2f
        invariant
            strip_slashes(acc@) == strip_slashes(whole),
        decreases acc@.len(),
    {
        let ghost acc0 = acc@;
        acc.pop();
        assert(acc@ =~= acc0.drop_last());
    }
    acc
}

fn extract_prefixes_per_branch(ops: &Vec<Op>) -> (r: Vec<Vec<u8>>)
    ensures
        facts::bytes_views(r@) == branch_prefixes(ir::ops_view(ops@)),
    decreases ops,
{
    let ghost views = ir::ops_view(ops@);
    proof {
        if ops@.len() > 0 {
            assert(views[0] == ir::op_view(ops@[0]));
        }
        if ops@.len() > 1 {
            assert(views[1] == ir::op_view(ops@[1]));
        }
    }
    if ops.len() > 0 && (ops.len() == 1 || matches!(&ops[1], Op::Sep | Op::SepRun)) {
        assert(decreases_to!(ops => ops@[0]));
        match alternation_prefixes(&ops[0]) {
            Some(r) => {
                return r;
            },
            None => {},
        }
    }
    let mut out: Vec<Vec<u8>> = Vec::new();
    out.push(extract_prefix(ops));
    assert(facts::bytes_views(out@) =~= seq![prefix_of(views)]);
    out
}

/// The prefixes of the branches of `op`, if it is an alternation.
fn alternation_prefixes(op: &Op) -> (r: Option<Vec<Vec<u8>>>)
    ensures
        r is Some <==> op@ is Alternation,
        op@ matches SpecOp::Alternation(bs) ==> facts::bytes_views(r->0@) == all_branch_prefixes(
            bs,
        ),
    decreases op,
{
    match op {
        Op::Alternation(branches) => Some(all_prefixes(branches)),
        _ => None,
    }
}

fn all_prefixes(branches: &Vec<Vec<Op>>) -> (out: Vec<Vec<u8>>)
    ensures
        facts::bytes_views(out@) == all_branch_prefixes(ir::branches_view(branches@)),
    decreases branches,
{
    let ghost bs = ir::branches_view(branches@);
    let mut out: Vec<Vec<u8>> = Vec::new();
    assert(facts::bytes_views(out@) =~= all_branch_prefixes(bs.take(0)));
    for k in 0..branches.len()
        invariant
            bs == ir::branches_view(branches@),
            facts::bytes_views(out@) == all_branch_prefixes(bs.take(k as int)),
    {
        let ghost o0 = facts::bytes_views(out@);
        assert(bs[k as int] == ir::ops_view(branches@[k as int]@));
        assert(decreases_to!(branches => branches@[k as int]));
        let mut more: Vec<Vec<u8>> = extract_prefixes_per_branch(&branches[k]);
        let ghost m0 = facts::bytes_views(more@);
        out.append(&mut more);
        proof {
            assert(facts::bytes_views(out@) =~= o0 + m0);
            let t = bs.take(k + 1);
            assert(t.drop_last() =~= bs.take(k as int));
            assert(t.last() == bs[k as int]);
        }
    }
    assert(bs.take(branches@.len() as int) =~= bs);
    out
}

/// The literal prefixes of a program: shortest first, none below another.
pub fn compute_static_prefixes(ops: &Vec<Op>) -> (r: Vec<Vec<u8>>)
    ensures
        static_prefixes(ir::ops_view(ops@), facts::bytes_views(r@)),
{
    dedupe_prefixes(extract_prefixes_per_branch(ops))
}

/// The first bytes of `path` are `p`, up to how separators and, where it is
/// ignored, ASCII case are written.
pub open spec fn begins(cx: Cx, p: Seq<u8>, path: Seq<u8>) -> bool {
    p.len() <= path.len() && forall|k: int|
        0 <= k < p.len() ==> facts::suffix_byte(cx.seps, cx.ci, #[trigger] p[k], path[k])
}

/// The first `n` bytes of `path` are whole segments.
pub open spec fn whole(cx: Cx, n: int, path: Seq<u8>) -> bool {
    n == 0 || n == path.len() || (n < path.len() && cx.seps.has(path[n]))
}

/// `path` is `p` or lies below it, up to how separators and, where it is
/// ignored, ASCII case are written.
pub open spec fn starts_like(cx: Cx, p: Seq<u8>, path: Seq<u8>) -> bool {
    begins(cx, p, path) && whole(cx, p.len() as int, path)
}

/// Runs of separators stand only before `**/`.
pub open spec fn runs_before_globstars(ops: Seq<SpecOp>) -> bool {
    forall|k: int| 0 <= k < ops.len() ==> #[trigger] run_ok(ops, k)
}

pub open spec fn run_ok(ops: Seq<SpecOp>, k: int) -> bool {
    ops[k] is SepRun || ops[k] is LeadingSeps ==> k + 1 < ops.len() && ops[k
        + 1] is OptSegmentsSlash
}

/// [`runs_before_globstars`] here and in every branch.
pub open spec fn tidy(ops: Seq<SpecOp>) -> bool
    decreases ops, 1int,
{
    runs_before_globstars(ops) && forall|k: int|
        0 <= k < ops.len() ==> tidy_op(#[trigger] ops[k])
}

pub open spec fn tidy_op(op: SpecOp) -> bool
    decreases op, 0int,
{
    match op {
        SpecOp::Alternation(bs) => tidy_branches(bs),
        _ => true,
    }
}

pub open spec fn tidy_branches(bs: Seq<Seq<SpecOp>>) -> bool
    decreases bs, 2int,
{
    forall|k: int| 0 <= k < bs.len() ==> tidy(#[trigger] bs[k])
}

/// What is left without the slashes at the end is a start of it.
pub proof fn lemma_strip_prefix(b: Seq<u8>)
    ensures
        strip_slashes(b).len() <= b.len(),
        b.take(strip_slashes(b).len() as int) == strip_slashes(b),
    decreases b.len(),
{
    if b.len() > 0 && b.last() == 0x2f {
        lemma_strip_prefix(b.drop_last());
        let n = strip_slashes(b).len() as int;
        assert(b.take(n) =~= b.drop_last().take(n));
    } else {
        assert(b.take(b.len() as int) =~= b);
    }
}

/// A path that `ops` match from its start begins with what the first `n` of
/// them spell.
proof fn lemma_spelled_start(ops: Seq<SpecOp>, cx: Cx, s: Seq<u8>, n: int, j: int)
    requires
        lang::ops_span(ops, cx, s, 0, j),
        0 <= n <= ops.len(),
        forall|k: int| 0 <= k < n ==> spells(#[trigger] ops[k]),
        forall|k: int| 0 <= k < n - 1 ==> !(#[trigger] ops[k] is SepRun),
    ensures
        begins(cx, spelled(ops.take(n)), s),
        n == ops.len() && (n > 0 ==> !(ops[n - 1] is SepRun)) ==> spelled(ops).len() == j,
{
    let head = ops.take(n);
    lang::lemma_span_bounds(ops, cx, s, 0, j);
    assert(ops =~= head + ops.skip(n));
    lang::lemma_span_concat(head, ops.skip(n), cx, s, 0, j);
    let m = choose|m: int| #[trigger]
        lang::cut(m) && lang::ops_span(head, cx, s, 0, m) && lang::ops_span(
            ops.skip(n),
            cx,
            s,
            m,
            j,
        );
    lemma_spelled_span(head, cx, s, m);
    if n == ops.len() {
        assert(head =~= ops);
        assert(ops.skip(n).len() == 0);
    }
}

proof fn lemma_spelled_span(ops: Seq<SpecOp>, cx: Cx, s: Seq<u8>, j: int)
    requires
        lang::ops_span(ops, cx, s, 0, j),
        forall|k: int| 0 <= k < ops.len() ==> spells(#[trigger] ops[k]),
        forall|k: int| 0 <= k < ops.len() - 1 ==> !(#[trigger] ops[k] is SepRun),
    ensures
        begins(cx, spelled(ops), s),
        spelled(ops).len() <= j <= s.len(),
        (ops.len() > 0 ==> !(ops.last() is SepRun)) ==> spelled(ops).len() == j,
    decreases ops.len(),
{
    lang::lemma_span_bounds(ops, cx, s, 0, j);
    if ops.len() > 0 {
        let head = ops.drop_last();
        let last = ops.last();
        assert(ops =~= head + seq![last]);
        lang::lemma_span_concat(head, seq![last], cx, s, 0, j);
        let m = choose|m: int| #[trigger]
            lang::cut(m) && lang::ops_span(head, cx, s, 0, m) && lang::ops_span(
                seq![last],
                cx,
                s,
                m,
                j,
            );
        lang::lemma_span_single(last, cx, s, m, j);
        assert forall|k: int| 0 <= k < head.len() implies spells(#[trigger] head[k]) && !(
        head[k] is SepRun) by {
            assert(head[k] == ops[k]);
        }
        lemma_spelled_span(head, cx, s, m);
        let a = spelled(head);
        let b = spelled(ops);
        assert(a.len() == m);
        assert(spells(ops[ops.len() - 1]));
        assert forall|k: int| 0 <= k < b.len() implies facts::suffix_byte(
            cx.seps,
            cx.ci,
            #[trigger] b[k],
            s[k],
        ) by {
            if k < a.len() {
                assert(b[k] == a[k]);
            } else {
                match last {
                    SpecOp::Lit(x) => {
                        assert(b[k] == x[k - a.len()]);
                        assert(crate::ast::same_byte(cx.ci, x[k - m], s[m + (k - m)]));
                    },
                    _ => {
                        assert(k == m);
                        assert(cx.seps.has(s[m]));
                    },
                }
            }
        }
    }
}

proof fn lemma_prefix_sound(ops: Seq<SpecOp>, cx: Cx, s: Seq<u8>, j: int)
    requires
        lang::ops_span(ops, cx, s, 0, j),
        runs_before_globstars(ops),
        j == s.len() || cx.seps.has(s[j]),
    ensures
        starts_like(cx, prefix_of(ops), s),
{
    lang::lemma_span_bounds(ops, cx, s, 0, j);
    lemma_lead_spells(ops);
    let l = lead(ops);
    let n = if l == ops.len() { ops.len() as int } else { boundary(ops, l) };
    lemma_boundary_range(ops, l);
    assert forall|k: int| 0 <= k < n - 1 implies !(#[trigger] ops[k] is SepRun) by {
        if ops[k] is SepRun {
            assert(run_ok(ops, k));
            assert(spells(ops[k + 1]));
        }
    }
    lemma_spelled_start(ops, cx, s, n, j);
    let b = spelled(ops.take(n));
    lemma_strip_prefix(b);
    let p = prefix_of(ops);
    assert forall|k: int| 0 <= k < p.len() implies facts::suffix_byte(
        cx.seps,
        cx.ci,
        #[trigger] p[k],
        s[k],
    ) by {
        assert(b.take(p.len() as int)[k] == p[k]);
    }
    if p.len() < b.len() {
        lemma_strip_next(b);
        assert(facts::suffix_byte(cx.seps, cx.ci, b[p.len() as int], s[p.len() as int]));
    } else if l == ops.len() {
        assert(ops.take(n) =~= ops);
        if n > 0 {
            assert(run_ok(ops, n - 1));
        }
    } else if n > 0 {
        assert(ops.take(n).last() == ops[n - 1]);
        assert(b.last() == 0x2f);
        lemma_strip_prefix(b.drop_last());
    } else {
        assert(b.len() == 0);
    }
}

/// What follows what is left without the slashes at the end is a slash.
pub proof fn lemma_strip_next(b: Seq<u8>)
    requires
        strip_slashes(b).len() < b.len(),
    ensures
        b[strip_slashes(b).len() as int] == 0x2f,
    decreases b.len(),
{
    if strip_slashes(b).len() < b.len() - 1 {
        lemma_strip_next(b.drop_last());
    }
}

proof fn lemma_branch_prefixes_sound(ops: Seq<SpecOp>, cx: Cx, s: Seq<u8>, j: int)
    requires
        lang::ops_span(ops, cx, s, 0, j),
        tidy(ops),
        j == s.len() || cx.seps.has(s[j]),
    ensures
        some_start(branch_prefixes(ops), cx, s),
    decreases ops, 1int,
{
    if splits(ops) {
        let k = choose|k: int| #[trigger]
            lang::cut(k) && lang::op_span(ops[0], cx, s, 0, k) && lang::ops_span(
                ops.drop_first(),
                cx,
                s,
                k,
                j,
            );
        assert(tidy_op(ops[0]));
        if ops.len() > 1 {
            let rest = ops.drop_first();
            assert(rest[0] == ops[1]);
            let m = choose|m: int| #[trigger]
                lang::cut(m) && lang::op_span(rest[0], cx, s, k, m) && lang::ops_span(
                    rest.drop_first(),
                    cx,
                    s,
                    m,
                    j,
                );
            assert(cx.seps.has(s[k]));
        }
        lemma_alternation_sound(ops[0], cx, s, k);
        assert(branch_prefixes(ops) == all_branch_prefixes(ops[0]->Alternation_0));
    } else {
        lemma_prefix_sound(ops, cx, s, j);
        assert(branch_prefixes(ops)[0] == prefix_of(ops));
    }
}

proof fn lemma_alternation_sound(op: SpecOp, cx: Cx, s: Seq<u8>, k: int)
    requires
        op is Alternation,
        lang::op_span(op, cx, s, 0, k),
        tidy_op(op),
        k == s.len() || cx.seps.has(s[k]),
    ensures
        some_start(all_branch_prefixes(op->Alternation_0), cx, s),
    decreases op, 0int,
{
    let bs = op->Alternation_0;
    assert(lang::some_span(bs, cx, s, 0, k));
    assert(tidy_branches(bs));
    let b = choose|b: int| 0 <= b < bs.len() && lang::ops_span(#[trigger] bs[b], cx, s, 0, k);
    assert(tidy(bs[b]));
    lemma_branch_prefixes_sound(bs[b], cx, s, k);
    let inner = branch_prefixes(bs[b]);
    let m = choose|m: int| 0 <= m < inner.len() && starts_like(cx, #[trigger] inner[m], s);
    assert(inner.contains(inner[m]));
    lemma_all_branch_prefixes(bs, b, inner[m]);
    let all = all_branch_prefixes(bs);
    let x = choose|x: int| 0 <= x < all.len() && all[x] == inner[m];
    assert(starts_like(cx, all[x], s));
}

/// `path` is `p` or lies below the directory `p`.
pub open spec fn at_or_below(p: Seq<u8>, path: Seq<u8>) -> bool {
    p.len() == 0 || p == path || dir_above(p, path)
}

/// The segments of `path` stand between slashes alone.
pub open spec fn slashed(seps: Seps, path: Seq<u8>) -> bool {
    seps.backslash ==> forall|k: int| 0 <= k < path.len() ==> #[trigger] path[k] != 0x5c
}

/// Where only `/` stands between segments and case counts, there is one way to
/// write a path.
pub proof fn lemma_at_or_below(cx: Cx, p: Seq<u8>, path: Seq<u8>)
    requires
        starts_like(cx, p, path),
        !cx.ci,
        slashed(cx.seps, path),
    ensures
        at_or_below(p, path),
{
    assert(path.take(p.len() as int) =~= p) by {
        assert forall|k: int| 0 <= k < p.len() implies path[k] == p[k] by {
            assert(facts::suffix_byte(cx.seps, cx.ci, p[k], path[k]));
        }
    }
    if p.len() == path.len() {
        assert(path.take(p.len() as int) =~= path);
    }
}

/// `s` is some member of `all` or lies below one.
pub open spec fn some_start(all: Seq<Seq<u8>>, cx: Cx, s: Seq<u8>) -> bool {
    exists|m: int| 0 <= m < all.len() && starts_like(cx, #[trigger] all[m], s)
}

proof fn lemma_all_branch_prefixes(bs: Seq<Seq<SpecOp>>, b: int, p: Seq<u8>)
    requires
        0 <= b < bs.len(),
        branch_prefixes(bs[b]).contains(p),
    ensures
        all_branch_prefixes(bs).contains(p),
    decreases bs.len(),
{
    let head = bs.drop_last();
    let all = all_branch_prefixes(bs);
    let first = all_branch_prefixes(head);
    let more = branch_prefixes(bs.last());
    assert(all == first + more);
    if b < head.len() {
        assert(head[b] == bs[b]);
        lemma_all_branch_prefixes(head, b, p);
        let m = choose|m: int| 0 <= m < first.len() && first[m] == p;
        assert(all[m] == p);
    } else {
        let m = choose|m: int| 0 <= m < more.len() && more[m] == p;
        assert(all[first.len() + m] == p);
    }
}

/// What starts a path also does when cut back to a directory above it, and one
/// of the prefixes that are kept is left.
pub proof fn lemma_deduped_start(
    all: Seq<Seq<u8>>,
    out: Seq<Seq<u8>>,
    cx: Cx,
    s: Seq<u8>,
    m: int,
)
    requires
        deduped(all, out),
        0 <= m < all.len(),
        starts_like(cx, all[m], s),
    ensures
        some_start(out, cx, s),
    decreases all[m].len(),
{
    if all.len() > 1 && all.contains(seq![]) {
        assert(starts_like(cx, out[0], s));
    } else if covered(all, all[m]) {
        let k = choose|k: int| 0 <= k < all.len() && dir_above(#[trigger] all[k], all[m]);
        assert(starts_like(cx, all[k], s)) by {
            assert forall|x: int| 0 <= x < all[k].len() implies facts::suffix_byte(
                cx.seps,
                cx.ci,
                #[trigger] all[k][x],
                s[x],
            ) by {
                assert(all[m].take(all[k].len() as int)[x] == all[m][x]);
            }
            assert(facts::suffix_byte(
                cx.seps,
                cx.ci,
                all[m][all[k].len() as int],
                s[all[k].len() as int],
            ));
        }
        lemma_deduped_start(all, out, cx, s, k);
    } else {
        assert(all.contains(all[m]));
        assert(out.contains(all[m]));
        let x = choose|x: int| 0 <= x < out.len() && out[x] == all[m];
        assert(starts_like(cx, out[x], s));
    }
}

/// Every matching path is one of the static prefixes or lies below one. Where
/// only `/` separates and case counts, it starts with it byte for byte.
pub proof fn law_matches_start_with_prefix(
    ops: Seq<SpecOp>,
    prefixes: Seq<Seq<u8>>,
    cx: Cx,
    path: Seq<u8>,
)
    requires
        tidy(ops),
        static_prefixes(ops, prefixes),
        lang::matches(ops, cx, path),
    ensures
        some_start(prefixes, cx, path),
        !cx.ci && slashed(cx.seps, path) ==> exists|m: int|
            0 <= m < prefixes.len() && at_or_below(#[trigger] prefixes[m], path),
{
    lemma_branch_prefixes_sound(ops, cx, path, path.len() as int);
    let all = branch_prefixes(ops);
    let m = choose|m: int| 0 <= m < all.len() && starts_like(cx, #[trigger] all[m], path);
    lemma_deduped_start(all, prefixes, cx, path, m);
    if !cx.ci && slashed(cx.seps, path) {
        let x = choose|x: int|
            0 <= x < prefixes.len() && starts_like(cx, #[trigger] prefixes[x], path);
        lemma_at_or_below(cx, prefixes[x], path);
    }
}

} // verus!
