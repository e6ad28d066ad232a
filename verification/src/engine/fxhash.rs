//! A small, fast hash for keys that are a few words long.
//!
//! Each word is mixed in with a rotation, an exclusive or and a
//! multiplication.

use vstd::prelude::*;

verus! {

/// The multiplier.
pub const SEED: u64 = 0x517c_c1b7_2722_0a95;

/// The hash `h` with the word `w` mixed in.
pub open spec fn mix(h: u64, w: u64) -> u64 {
    (((h << 5u64) | (h >> 59u64)) ^ w).wrapping_mul(SEED)
}

/// [`mix`] for each word in turn.
pub open spec fn mix_all(h: u64, words: Seq<u64>) -> u64
    decreases words.len(),
{
    if words.len() == 0 {
        h
    } else {
        mix(mix_all(h, words.drop_last()), words.last())
    }
}

/// The number that the bytes spell, least significant first.
pub open spec fn le_value(bytes: Seq<u8>) -> nat
    decreases bytes.len(),
{
    if bytes.len() == 0 {
        0
    } else {
        bytes[0] as nat + 256 * le_value(bytes.drop_first())
    }
}

pub open spec fn pow256(n: nat) -> nat
    decreases n,
{
    if n == 0 {
        1
    } else {
        256 * pow256((n - 1) as nat)
    }
}

/// How many of `n` bytes are mixed in as one word: eight while there are as
/// many, then four, two and one.
pub open spec fn chunk(n: nat) -> nat {
    if n >= 8 {
        8
    } else if n >= 4 {
        4
    } else if n >= 2 {
        2
    } else {
        n
    }
}

/// The hash `h` with all bytes mixed in.
pub open spec fn absorbed(h: u64, bytes: Seq<u8>) -> u64
    decreases bytes.len(),
{
    if bytes.len() == 0 {
        h
    } else {
        let n = chunk(bytes.len()) as int;
        absorbed(mix(h, le_value(bytes.take(n)) as u64), bytes.skip(n))
    }
}

proof fn lemma_le_bound(bytes: Seq<u8>)
    ensures
        le_value(bytes) < pow256(bytes.len()),
    decreases bytes.len(),
{
    if bytes.len() > 0 {
        lemma_le_bound(bytes.drop_first());
    }
}

proof fn lemma_pow256_mono(a: nat, b: nat)
    requires
        a <= b,
    ensures
        pow256(a) <= pow256(b),
    decreases b,
{
    if a < b {
        lemma_pow256_mono(a, (b - 1) as nat);
    }
}

/// The number that up to eight bytes spell.
fn read_le(bytes: &[u8], from: usize, n: usize) -> (r: u64)
    requires
        n <= 8,
        from + n <= bytes@.len(),
    ensures
        r == le_value(bytes@.subrange(from as int, from + n)),
{
    let mut acc: u64 = 0;
    let mut k: usize = n;
    let ghost part = bytes@.subrange(from as int, from + n);
    assert(part.skip(n as int) =~= seq![]);
    while k > 0
        invariant
            k <= n <= 8,
            from + n <= bytes@.len(),
            part == bytes@.subrange(from as int, from + n),
            acc == le_value(part.skip(k as int)),
        decreases k,
    {
        k = k - 1;
        assert(from + k < bytes.len());
        let b: u8 = bytes[from + k];
        proof {
            let now = part.skip(k as int);
            assert(now[0] == b);
            assert(now.drop_first() =~= part.skip(k + 1));
            lemma_le_bound(now);
            lemma_pow256_mono(now.len(), 8);
            assert(pow256(8) == 0x1_0000_0000_0000_0000) by {
                reveal_with_fuel(pow256, 9);
            }
        }
        acc = acc * 256 + b as u64;
    }
    assert(part.skip(0) =~= part);
    acc
}

/// The state of a hash.
#[derive(Clone)]
pub struct FxHasher {
    hash: u64,
}

impl Default for FxHasher {
    fn default() -> (r: Self)
        ensures
            r.value() == 0,
    {
        FxHasher { hash: 0 }
    }
}

impl FxHasher {
    /// What has been mixed in so far.
    pub closed spec fn value(self) -> u64 {
        self.hash
    }

    fn add(&mut self, w: u64)
        ensures
            final(self).value() == mix(old(self).value(), w),
    {
        let h: u64 = self.hash;
        self.hash = (((h << 5u64) | (h >> 59u64)) ^ w).wrapping_mul(SEED);
    }

    pub fn finish(&self) -> (r: u64)
        ensures
            r == self.value(),
    {
        self.hash
    }

    /// Mixes bytes in, as many as fit a word at a time.
    pub fn write(&mut self, bytes: &[u8])
        ensures
            final(self).value() == absorbed(old(self).value(), bytes@),
    {
        let mut i: usize = 0;
        assert(bytes@.skip(0) =~= bytes@);
        while i < bytes.len()
            invariant
                i <= bytes@.len(),
                absorbed(self.value(), bytes@.skip(i as int)) == absorbed(
                    old(self).value(),
                    bytes@,
                ),
            decreases bytes@.len() - i,
        {
            let left: usize = bytes.len() - i;
            let n: usize = if left >= 8 {
                8
            } else if left >= 4 {
                4
            } else if left >= 2 {
                2
            } else {
                left
            };
            let ghost rest = bytes@.skip(i as int);
            let w: u64 = read_le(bytes, i, n);
            proof {
                assert(rest.take(n as int) =~= bytes@.subrange(i as int, i + n));
                assert(rest.skip(n as int) =~= bytes@.skip(i + n));
            }
            self.add(w);
            i = i + n;
        }
        assert(bytes@.skip(i as int) =~= seq![]);
    }

    pub fn write_u8(&mut self, n: u8)
        ensures
            final(self).value() == mix(old(self).value(), n as u64),
    {
        self.add(n as u64)
    }

    pub fn write_u16(&mut self, n: u16)
        ensures
            final(self).value() == mix(old(self).value(), n as u64),
    {
        self.add(n as u64)
    }

    pub fn write_u32(&mut self, n: u32)
        ensures
            final(self).value() == mix(old(self).value(), n as u64),
    {
        self.add(n as u64)
    }

    pub fn write_u64(&mut self, n: u64)
        ensures
            final(self).value() == mix(old(self).value(), n),
    {
        self.add(n)
    }

    pub fn write_usize(&mut self, n: usize)
        ensures
            final(self).value() == mix(old(self).value(), n as u64),
    {
        self.add(n as u64)
    }
}

/// The hash of a sequence of words and a flag.
pub(crate) fn hash_words(words: &Vec<u64>, flag: bool) -> (r: u64)
    ensures
        r == mix(mix_all(0, words@), if flag { 1u64 } else { 0u64 }),
{
    let mut h = FxHasher::default();
    assert(words@.take(0) =~= seq![]);
    for i in 0..words.len()
        invariant
            h.value() == mix_all(0, words@.take(i as int)),
    {
        h.write_u64(words[i]);
        assert(words@.take(i + 1).drop_last() =~= words@.take(i as int));
    }
    assert(words@.take(words@.len() as int) =~= words@);
    h.write_u8(if flag { 1 } else { 0 });
    h.finish()
}

} // verus!
