//! Sets of small numbers as bitmaps of 64-bit words.

use vstd::prelude::*;
use vstd::std_specs::bits::u64_trailing_zeros;

verus! {

/// Bit `k` of a word.
pub open spec fn bit(word: u64, k: int) -> bool {
    0 <= k < 64 && (word >> (k as u64)) & 1u64 == 1u64
}

/// `q` is in the set that `words` holds.
pub open spec fn member(words: Seq<u64>, q: int) -> bool {
    0 <= q && q / 64 < words.len() && bit(words[q / 64], q % 64)
}

/// How many words hold `n` bits.
pub open spec fn words_for(n: int) -> int {
    if n % 64 == 0 { n / 64 } else { n / 64 + 1 }
}

proof fn lemma_set_bit(word: u64, k: u64, j: u64)
    requires
        k < 64,
        j < 64,
    ensures
        ((word | (1u64 << k)) >> j) & 1u64 == 1u64 <==> ((word >> j) & 1u64 == 1u64 || j == k),
{
    assert(((word | (1u64 << k)) >> j) & 1u64 == 1u64 <==> ((word >> j) & 1u64 == 1u64 || j == k))
        by (bit_vector)
        requires
            k < 64,
            j < 64,
    ;
}

proof fn lemma_or_bit(a: u64, b: u64, j: u64)
    ensures
        ((a | b) >> j) & 1u64 == 1u64 <==> ((a >> j) & 1u64 == 1u64 || (b >> j) & 1u64 == 1u64),
{
    assert(((a | b) >> j) & 1u64 == 1u64 <==> ((a >> j) & 1u64 == 1u64 || (b >> j) & 1u64 == 1u64))
        by (bit_vector);
}

/// A word with no bit set is zero.
pub proof fn lemma_zero_word(a: u64)
    ensures
        a == 0 <==> forall|j: int| !bit(a, j),
{
    if a == 0 {
        assert forall|j: int| !bit(a, j) by {
            if 0 <= j < 64 {
                let k = j as u64;
                assert((0u64 >> k) & 1u64 == 0u64) by (bit_vector);
            }
        }
    } else {
        vstd::std_specs::bits::axiom_u64_trailing_zeros(a);
        let t = u64_trailing_zeros(a) as int;
        assert(bit(a, t));
    }
}

proof fn lemma_and_bit(a: u64, b: u64, j: u64)
    ensures
        ((a & b) >> j) & 1u64 == 1u64 <==> ((a >> j) & 1u64 == 1u64 && (b >> j) & 1u64 == 1u64),
{
    assert(((a & b) >> j) & 1u64 == 1u64 <==> ((a >> j) & 1u64 == 1u64 && (b >> j) & 1u64 == 1u64))
        by (bit_vector);
}

/// Clearing the lowest set bit removes that bit and no other.
proof fn lemma_clear_lowest(a: u64)
    requires
        a != 0,
    ensures
        0 <= u64_trailing_zeros(a) < 64,
        bit(a, u64_trailing_zeros(a) as int),
        forall|j: int|
            #[trigger] bit(a & ((a - 1) as u64), j) <==> (bit(a, j) && j != u64_trailing_zeros(a)),
        (a & ((a - 1) as u64)) < a,
{
    vstd::std_specs::bits::axiom_u64_trailing_zeros(a);
    let t = u64_trailing_zeros(a) as u64;
    assert(t < 64);
    let low = t;
    assert(a << ((64 - low) as u64) == 0u64);
    let up = (64 - low) as u64;
    assert((a & ((a - 1) as u64)) < a) by (bit_vector)
        requires
            a != 0,
    ;
    assert forall|j: int|
        #[trigger] bit(a & ((a - 1) as u64), j) <==> (bit(a, j) && j != u64_trailing_zeros(a)) by {
        if 0 <= j < 64 {
            let k = j as u64;
            assert(((a & ((a - 1) as u64)) >> k) & 1u64 == 1u64 <==> ((a >> k) & 1u64 == 1u64 && k
                != low)) by (bit_vector)
                requires
                    a != 0,
                    k < 64,
                    low < 64,
                    up == 64 - low,
                    (a >> low) & 1u64 == 1u64,
                    a << up == 0u64,
            ;
        }
    }
}

/// How many words hold `n` bits.
pub fn word_count(n: usize) -> (r: usize)
    ensures
        r == words_for(n as int),
{
    if n % 64 == 0 {
        n / 64
    } else {
        n / 64 + 1
    }
}

/// The empty set, in `n_words` words.
pub fn empty(n_words: usize) -> (r: Vec<u64>)
    ensures
        r@.len() == n_words,
        forall|q: int| !member(r@, q),
{
    let r: Vec<u64> = vec![0u64; n_words];
    assert forall|q: int| !member(r@, q) by {
        if 0 <= q && q / 64 < r@.len() {
            lemma_zero_word(r@[q / 64]);
        }
    }
    r
}

/// Adds `q` to the set.
pub fn insert(words: &mut Vec<u64>, q: usize)
    requires
        q / 64 < old(words)@.len(),
    ensures
        final(words)@.len() == old(words)@.len(),
        forall|p: int| #[trigger]
            member(final(words)@, p) <==> (member(old(words)@, p) || p == q),
{
    let ghost before = words@;
    let w: usize = q / 64;
    let k: u64 = (q % 64) as u64;
    let word: u64 = words[w];
    words[w] = word | (1u64 << k);
    proof {
        assert forall|p: int| #[trigger] member(words@, p) <==> (member(before, p) || p == q) by {
            if 0 <= p && p / 64 < before.len() {
                if p / 64 == w {
                    lemma_set_bit(word, k, (p % 64) as u64);
                    assert(p % 64 == k <==> p == q);
                }
            }
        }
    }
}

/// Whether `q` is in the set.
pub fn contains(words: &Vec<u64>, q: usize) -> (r: bool)
    ensures
        r == member(words@, q as int),
{
    if q / 64 < words.len() {
        (words[q / 64] >> ((q % 64) as u64)) & 1 == 1
    } else {
        false
    }
}

/// Adds every member of `other` to the set.
pub fn union_into(words: &mut Vec<u64>, other: &Vec<u64>)
    requires
        old(words)@.len() == other@.len(),
    ensures
        final(words)@.len() == old(words)@.len(),
        forall|p: int| #[trigger]
            member(final(words)@, p) <==> (member(old(words)@, p) || member(other@, p)),
{
    let ghost before = words@;
    let mut w: usize = 0;
    while w < other.len()
        invariant
            w <= other@.len(),
            words@.len() == before.len(),
            before.len() == other@.len(),
            forall|k: int| 0 <= k < w ==> #[trigger] words@[k] == before[k] | other@[k],
            forall|k: int| w <= k < before.len() ==> #[trigger] words@[k] == before[k],
        decreases other@.len() - w,
    {
        let x: u64 = words[w];
        words[w] = x | other[w];
        w = w + 1;
    }
    assert forall|p: int| #[trigger] member(words@, p) <==> (member(before, p) || member(other@, p)) by {
        if 0 <= p && p / 64 < before.len() {
            assert(words@[p / 64] == before[p / 64] | other@[p / 64]);
            lemma_or_bit(before[p / 64], other@[p / 64], (p % 64) as u64);
        }
    }
}

/// Whether the two sets have a member in common.
pub fn intersects(a: &Vec<u64>, b: &Vec<u64>) -> (r: bool)
    requires
        a@.len() == b@.len(),
    ensures
        r == exists|q: int| member(a@, q) && member(b@, q),
{
    let mut w: usize = 0;
    while w < a.len()
        invariant
            w <= a@.len(),
            a@.len() == b@.len(),
            forall|q: int| 0 <= q && q / 64 < w ==> !(member(a@, q) && member(b@, q)),
        decreases a@.len() - w,
    {
        let x: u64 = a[w];
        let y: u64 = b[w];
        let both: u64 = x & y;
        proof {
            lemma_zero_word(both);
        }
        if both != 0 {
            proof {
                let j = choose|j: int| bit(both, j);
                lemma_and_bit(x, y, j as u64);
                let q = w * 64 + j;
                assert(q / 64 == w && q % 64 == j);
                assert(member(a@, q) && member(b@, q));
            }
            return true;
        }
        proof {
            assert forall|q: int| 0 <= q && q / 64 < w + 1 implies !(member(a@, q) && member(b@, q)) by {
                if q / 64 == w && member(a@, q) && member(b@, q) {
                    lemma_and_bit(x, y, (q % 64) as u64);
                    assert(bit(both, q % 64));
                }
            }
        }
        w = w + 1;
    }
    assert forall|q: int| !(member(a@, q) && member(b@, q)) by {
        if 0 <= q && q / 64 < a@.len() {
        }
    }
    false
}

/// Whether the set has no member.
pub fn is_empty(a: &Vec<u64>) -> (r: bool)
    ensures
        r == forall|q: int| !member(a@, q),
{
    let mut w: usize = 0;
    while w < a.len()
        invariant
            w <= a@.len(),
            forall|q: int| 0 <= q && q / 64 < w ==> !member(a@, q),
        decreases a@.len() - w,
    {
        let x: u64 = a[w];
        proof {
            lemma_zero_word(x);
        }
        if x != 0 {
            proof {
                let j = choose|j: int| bit(x, j);
                let q = w * 64 + j;
                assert(q / 64 == w && q % 64 == j);
                assert(member(a@, q));
            }
            return false;
        }
        proof {
            assert forall|q: int| 0 <= q && q / 64 < w + 1 implies !member(a@, q) by {
                if q / 64 == w && member(a@, q) {
                    assert(bit(x, q % 64));
                }
            }
        }
        w = w + 1;
    }
    assert forall|q: int| !member(a@, q) by {
        if 0 <= q && q / 64 < a@.len() {
        }
    }
    true
}

/// The lowest set bit of a nonzero word.
pub fn lowest(word: u64) -> (r: u32)
    requires
        word != 0,
    ensures
        r < 64,
        bit(word, r as int),
        forall|j: int| 0 <= j < r ==> !bit(word, j),
{
    proof {
        lemma_clear_lowest(word);
        vstd::std_specs::bits::axiom_u64_trailing_zeros(word);
        assert forall|j: int| 0 <= j < u64_trailing_zeros(word) implies !bit(word, j) by {
            assert((word >> (j as u64)) & 1u64 == 0u64);
        }
    }
    word.trailing_zeros()
}

/// The word without its lowest set bit.
pub fn without_lowest(word: u64, low: u32) -> (r: u64)
    requires
        word != 0,
        bit(word, low as int),
        forall|j: int| 0 <= j < low ==> !bit(word, j),
    ensures
        forall|j: int| #[trigger] bit(r, j) <==> (bit(word, j) && j != low),
        r < word,
{
    proof {
        lemma_clear_lowest(word);
        let t = u64_trailing_zeros(word) as int;
        vstd::std_specs::bits::axiom_u64_trailing_zeros(word);
        assert(t == low) by {
            if t < low {
                assert(!bit(word, t));
            }
            if low < t {
                assert((word >> (low as u64)) & 1u64 == 0u64);
            }
        }
    }
    word & (word - 1)
}


/// How many of the numbers below `n` are not in the set.
pub open spec fn missing(words: Seq<u64>, n: int) -> int
    decreases n,
{
    if n <= 0 {
        0
    } else {
        missing(words, n - 1) + if member(words, n - 1) { 0int } else { 1int }
    }
}

pub proof fn lemma_missing_bounds(words: Seq<u64>, n: int)
    ensures
        0 <= missing(words, n),
    decreases n,
{
    if n > 0 {
        lemma_missing_bounds(words, n - 1);
    }
}

/// A number added to the set is no longer missing.
pub proof fn lemma_missing_insert(before: Seq<u64>, after: Seq<u64>, q: int, n: int)
    requires
        forall|p: int| #[trigger] member(after, p) <==> (member(before, p) || p == q),
        !member(before, q),
    ensures
        missing(after, n) == missing(before, n) - if 0 <= q < n { 1int } else { 0int },
    decreases n,
{
    if n > 0 {
        lemma_missing_insert(before, after, q, n - 1);
    }
}


/// The word with bit `k` alone.
pub fn single(k: usize) -> (r: u64)
    requires
        k < 64,
    ensures
        forall|j: int| #[trigger] bit(r, j) <==> j == k,
{
    let kk: u64 = k as u64;
    proof {
        assert forall|j: int| #[trigger] bit(1u64 << kk, j) <==> j == k by {
            if 0 <= j < 64 {
                lemma_set_bit(0, kk, j as u64);
                let jj = j as u64;
                assert((0u64 >> jj) & 1u64 == 0u64) by (bit_vector);
                assert(0u64 | (1u64 << kk) == 1u64 << kk) by (bit_vector);
            }
        }
    }
    1u64 << kk
}

/// The bits of both words.
pub fn either(a: u64, b: u64) -> (r: u64)
    ensures
        forall|j: int| #[trigger] bit(r, j) <==> (bit(a, j) || bit(b, j)),
{
    proof {
        assert forall|j: int| #[trigger] bit(a | b, j) <==> (bit(a, j) || bit(b, j)) by {
            if 0 <= j < 64 {
                lemma_or_bit(a, b, j as u64);
            }
        }
    }
    a | b
}

/// Whether bit `k` is set.
pub fn has_bit(word: u64, k: usize) -> (r: bool)
    requires
        k < 64,
    ensures
        r == bit(word, k as int),
{
    (word >> (k as u64)) & 1 == 1
}

/// Whether the two words have a bit in common.
pub fn overlap(a: u64, b: u64) -> (r: bool)
    ensures
        r == exists|j: int| #[trigger] bit(a, j) && bit(b, j),
{
    let both: u64 = a & b;
    proof {
        lemma_zero_word(both);
        assert forall|j: int| #[trigger] bit(both, j) <==> (bit(a, j) && bit(b, j)) by {
            if 0 <= j < 64 {
                lemma_and_bit(a, b, j as u64);
            }
        }
        if both != 0 {
            let j = choose|j: int| bit(both, j);
            assert(bit(a, j) && bit(b, j));
        }
        if exists|j: int| #[trigger] bit(a, j) && bit(b, j) {
            let j = choose|j: int| #[trigger] bit(a, j) && bit(b, j);
            assert(bit(both, j));
        }
    }
    both != 0
}

/// Two sets of the same size with the same members are the same words.
pub proof fn lemma_words_equal(a: Seq<u64>, b: Seq<u64>)
    requires
        a.len() == b.len(),
        forall|q: int| #[trigger] member(a, q) <==> member(b, q),
    ensures
        a == b,
{
    assert forall|w: int| 0 <= w < a.len() implies a[w] == b[w] by {
        let x = a[w];
        let y = b[w];
        if x != y {
            let d = x ^ y;
            assert(d != 0) by (bit_vector)
                requires
                    d == x ^ y,
                    x != y,
            ;
            lemma_zero_word(d);
            let k = choose|k: int| bit(d, k);
            let j = k as u64;
            assert((x >> j) & 1u64 == 1u64 <==> (y >> j) & 1u64 != 1u64) by (bit_vector)
                requires
                    d == x ^ y,
                    (d >> j) & 1u64 == 1u64,
                    j < 64,
            ;
            let q = w * 64 + k;
            assert(q / 64 == w && q % 64 == k);
            assert(member(a, q) == bit(x, k));
            assert(member(b, q) == bit(y, k));
        }
    }
    assert(a =~= b);
}

} // verus!
