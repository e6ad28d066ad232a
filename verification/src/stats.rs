//! Statistics of measurements.

use vstd::prelude::*;

verus! {

/// How many samples lie below `x`.
pub open spec fn below(samples: Seq<usize>, x: usize) -> int
    decreases samples.len(),
{
    if samples.len() == 0 {
        0
    } else {
        below(samples.drop_last(), x) + if samples.last() < x {
            1int
        } else {
            0int
        }
    }
}

/// How many samples are at most `x`.
pub open spec fn up_to(samples: Seq<usize>, x: usize) -> int
    decreases samples.len(),
{
    if samples.len() == 0 {
        0
    } else {
        up_to(samples.drop_last(), x) + if samples.last() <= x {
            1int
        } else {
            0int
        }
    }
}

/// `x` stands at position `k` when the samples are sorted.
pub open spec fn ranks(samples: Seq<usize>, x: usize, k: int) -> bool {
    below(samples, x) <= k < up_to(samples, x)
}

fn counts(samples: &Vec<usize>, x: usize) -> (r: (usize, usize))
    ensures
        r.0 == below(samples@, x),
        r.1 == up_to(samples@, x),
{
    let mut less: usize = 0;
    let mut most: usize = 0;
    for i in 0..samples.len()
        invariant
            less <= most <= i,
            less == below(samples@.take(i as int), x),
            most == up_to(samples@.take(i as int), x),
    {
        assert(samples@.take(i + 1).drop_last() =~= samples@.take(i as int));
        if samples[i] < x {
            less = less + 1;
        }
        if samples[i] <= x {
            most = most + 1;
        }
    }
    assert(samples@.take(samples@.len() as int) =~= samples@);
    (less, most)
}

proof fn lemma_up_to_all(samples: Seq<usize>, x: usize)
    requires
        forall|i: int| 0 <= i < samples.len() ==> #[trigger] samples[i] <= x,
    ensures
        up_to(samples, x) == samples.len(),
    decreases samples.len(),
{
    if samples.len() > 0 {
        assert forall|i: int| 0 <= i < samples.drop_last().len() implies #[trigger] samples.drop_last()[i]
            <= x by {
            assert(samples.drop_last()[i] == samples[i]);
        }
        lemma_up_to_all(samples.drop_last(), x);
    }
}

/// Below some sample, nothing is counted that is not a sample.
proof fn lemma_below_is_up_to(samples: Seq<usize>, x: usize, y: usize)
    requires
        x < y,
        forall|i: int| 0 <= i < samples.len() ==> (#[trigger] samples[i] <= x || y <= samples[i]),
    ensures
        up_to(samples, x) == below(samples, y),
    decreases samples.len(),
{
    if samples.len() > 0 {
        assert forall|i: int| 0 <= i < samples.drop_last().len() implies (
        #[trigger] samples.drop_last()[i] <= x || y <= samples.drop_last()[i]) by {
            assert(samples.drop_last()[i] == samples[i]);
        }
        lemma_below_is_up_to(samples.drop_last(), x, y);
        assert(samples[samples.len() - 1] <= x || y <= samples[samples.len() - 1]);
    }
}

proof fn lemma_below_none(samples: Seq<usize>, x: usize)
    requires
        forall|i: int| 0 <= i < samples.len() ==> x <= #[trigger] samples[i],
    ensures
        below(samples, x) == 0,
    decreases samples.len(),
{
    if samples.len() > 0 {
        assert forall|i: int| 0 <= i < samples.drop_last().len() implies x
            <= #[trigger] samples.drop_last()[i] by {
            assert(samples.drop_last()[i] == samples[i]);
        }
        lemma_below_none(samples.drop_last(), x);
    }
}

/// The sample in the middle when the samples are sorted; the upper one of two.
pub fn median(samples: &Vec<usize>) -> (r: usize)
    requires
        samples@.len() > 0,
    ensures
        samples@.contains(r),
        ranks(samples@, r, samples@.len() as int / 2),
{
    let half: usize = samples.len() / 2;
    // The smallest sample with more than half of them at or below it.
    let mut best: usize = samples[0];
    let mut seen: bool = false;
    for i in 0..samples.len()
        invariant
            half == samples@.len() / 2,
            samples@.len() > 0,
            samples@.contains(best),
            seen ==> up_to(samples@, best) > half,
            forall|k: int|
                0 <= k < i && up_to(samples@, #[trigger] samples@[k]) > half ==> seen && best
                    <= samples@[k],
    {
        let x: usize = samples[i];
        let (less, most) = counts(samples, x);
        if most > half && (!seen || x < best) {
            best = x;
            seen = true;
            assert(samples@.contains(samples@[i as int]));
        }
    }
    proof {
        let s = samples@;
        let top = lemma_max(s);
        lemma_up_to_all(s, s[top]);
        assert(up_to(s, s[top]) > half);
        lemma_best(s, best, half as int);
    }
    best
}

/// Some sample is the largest.
proof fn lemma_max(samples: Seq<usize>) -> (top: int)
    requires
        samples.len() > 0,
    ensures
        0 <= top < samples.len(),
        forall|i: int| 0 <= i < samples.len() ==> #[trigger] samples[i] <= samples[top],
    decreases samples.len(),
{
    if samples.len() == 1 {
        0
    } else {
        let t = lemma_max(samples.drop_last());
        let top = if samples.drop_last()[t] < samples.last() {
            samples.len() - 1
        } else {
            t
        };
        assert forall|i: int| 0 <= i < samples.len() implies #[trigger] samples[i]
            <= samples[top] by {
            if i < samples.len() - 1 {
                assert(samples.drop_last()[i] == samples[i]);
            }
        }
        top
    }
}

/// The smallest sample that counts more than half has at most half below it.
proof fn lemma_best(samples: Seq<usize>, best: usize, half: int)
    requires
        samples.contains(best),
        half >= 0,
        forall|k: int|
            0 <= k < samples.len() && up_to(samples, #[trigger] samples[k]) > half ==> best
                <= samples[k],
    ensures
        below(samples, best) <= half,
{
    if exists|k: int| 0 <= k < samples.len() && #[trigger] samples[k] < best {
        let t = lemma_max_below(samples, best);
        lemma_below_is_up_to(samples, samples[t], best);
    } else {
        lemma_below_none(samples, best);
    }
}

/// Among the samples below `x`, some one is the largest.
proof fn lemma_max_below(samples: Seq<usize>, x: usize) -> (top: int)
    requires
        exists|k: int| 0 <= k < samples.len() && #[trigger] samples[k] < x,
    ensures
        0 <= top < samples.len(),
        samples[top] < x,
        forall|i: int|
            0 <= i < samples.len() ==> (#[trigger] samples[i] <= samples[top] || x <= samples[i]),
    decreases samples.len(),
{
    let head = samples.drop_last();
    if exists|k: int| 0 <= k < head.len() && #[trigger] head[k] < x {
        let t = lemma_max_below(head, x);
        let top = if samples.last() < x && head[t] < samples.last() {
            samples.len() - 1
        } else {
            t
        };
        assert forall|i: int| 0 <= i < samples.len() implies (#[trigger] samples[i] <= samples[top]
            || x <= samples[i]) by {
            if i < samples.len() - 1 {
                assert(head[i] == samples[i]);
            }
        }
        top
    } else {
        assert forall|i: int| 0 <= i < samples.len() implies (#[trigger] samples[i]
            <= samples.last() || x <= samples[i]) by {
            if i < samples.len() - 1 {
                assert(head[i] == samples[i]);
            }
        }
        let k = choose|k: int| 0 <= k < samples.len() && #[trigger] samples[k] < x;
        if k < samples.len() - 1 {
            assert(head[k] < x);
        }
        samples.len() - 1
    }
}

/// Where `x` stands in sorted samples.
proof fn lemma_sorted_counts(t: Seq<usize>, x: usize, k: int)
    requires
        forall|i: int, j: int| 0 <= i <= j < t.len() ==> #[trigger] t[i] <= #[trigger] t[j],
        0 <= k < t.len(),
    ensures
        t[k] < x ==> below(t, x) > k,
        x < t[k] ==> up_to(t, x) <= k,
        below(t, x) <= t.len(),
        up_to(t, x) <= t.len(),
    decreases t.len(),
{
    let less = t.drop_last();
    if less.len() > 0 {
        assert forall|i: int, j: int| 0 <= i <= j < less.len() implies #[trigger] less[i]
            <= #[trigger] less[j] by {
            assert(t[i] <= t[j]);
        }
        if k < less.len() {
            lemma_sorted_counts(less, x, k);
            assert(less[k] == t[k]);
            assert(t[k] <= t[t.len() - 1]);
        } else {
            lemma_sorted_counts(less, x, k - 1);
            assert(less[k - 1] == t[k - 1]);
            assert(t[k - 1] <= t[k]);
        }
    } else {
        assert(below(less, x) == 0);
        assert(up_to(less, x) == 0);
    }
}

/// Counting does not depend on the order of the samples.
proof fn lemma_counts_by_value(s: Seq<usize>, x: usize)
    ensures
        below(s, x) == s.to_multiset().filter(|v: usize| v < x).len(),
        up_to(s, x) == s.to_multiset().filter(|v: usize| v <= x).len(),
    decreases s.len(),
{
    broadcast use vstd::seq_lib::group_to_multiset_ensures;
    broadcast use vstd::multiset::group_multiset_axioms;

    let f = |v: usize| v < x;
    let g = |v: usize| v <= x;
    if s.len() == 0 {
        assert(s.to_multiset() =~= vstd::multiset::Multiset::empty());
        assert(s.to_multiset().filter(f) =~= vstd::multiset::Multiset::empty());
        assert(s.to_multiset().filter(g) =~= vstd::multiset::Multiset::empty());
    } else {
        let less = s.drop_last();
        let v = s.last();
        lemma_counts_by_value(less, x);
        assert(s =~= less.push(v));
        let m = less.to_multiset();
        assert(s.to_multiset() =~= m.insert(v));
        if f(v) {
            assert(m.insert(v).filter(f) =~= m.filter(f).insert(v));
        } else {
            assert(m.insert(v).filter(f) =~= m.filter(f));
        }
        if g(v) {
            assert(m.insert(v).filter(g) =~= m.filter(g).insert(v));
        } else {
            assert(m.insert(v).filter(g) =~= m.filter(g));
        }
    }
}

/// What ranks at a position among the samples is what stands there once they
/// are sorted.
pub proof fn law_rank_is_the_place_when_sorted(
    samples: Seq<usize>,
    sorted: Seq<usize>,
    x: usize,
    k: int,
)
    requires
        sorted.to_multiset() == samples.to_multiset(),
        forall|i: int, j: int|
            0 <= i <= j < sorted.len() ==> #[trigger] sorted[i] <= #[trigger] sorted[j],
        0 <= k < sorted.len(),
    ensures
        ranks(samples, x, k) <==> x == sorted[k],
{
    lemma_counts_by_value(samples, x);
    lemma_counts_by_value(sorted, x);
    lemma_sorted_counts(sorted, x, k);
    if x == sorted[k] {
        lemma_place(sorted, x, k);
    }
}

proof fn lemma_place(t: Seq<usize>, x: usize, k: int)
    requires
        forall|i: int, j: int| 0 <= i <= j < t.len() ==> #[trigger] t[i] <= #[trigger] t[j],
        0 <= k < t.len(),
        t[k] == x,
    ensures
        ranks(t, x, k),
    decreases t.len(),
{
    let less = t.drop_last();
    assert forall|i: int, j: int| 0 <= i <= j < less.len() implies #[trigger] less[i]
        <= #[trigger] less[j] by {
        assert(t[i] <= t[j]);
    }
    if k < less.len() {
        assert(less[k] == x);
        lemma_place(less, x, k);
        assert(t[k] <= t[t.len() - 1]);
    } else {
        lemma_all_up_to(less, x);
    }
}

proof fn lemma_all_up_to(t: Seq<usize>, x: usize)
    requires
        forall|i: int| 0 <= i < t.len() ==> #[trigger] t[i] <= x,
    ensures
        up_to(t, x) == t.len(),
        below(t, x) <= t.len(),
    decreases t.len(),
{
    if t.len() > 0 {
        let less = t.drop_last();
        assert(t[t.len() - 1] <= x);
        assert forall|i: int| 0 <= i < less.len() implies #[trigger] less[i] <= x by {
            assert(t[i] <= x);
        }
        lemma_all_up_to(less, x);
    }
}

} // verus!
