//! The seeded hasher for hash maps: each builder hands out hashers that
//! start from its own seed, so that two maps do not share collisions.
//!
//! Input is absorbed as little-endian 8-byte words; a tail of fewer than 8
//! bytes becomes one word that also records its length.
use vstd::prelude::*;

use crate::bytes::{
    le_value, word_at, wmul, byte_range, read_word, lemma_le_value_bound, lemma_le_value_injective,
    lemma_byte_range_monotone,
};
use crate::hash::{finalize, mix, PHI};

verus! {

/// One absorbing step: xor the word in and multiply by `PHI`.
pub open spec fn seeded_step(acc: u64, input: u64) -> u64 {
    wmul(acc ^ input, PHI)
}

/// The state after the first `k` words of `s`.
pub open spec fn seeded_words(acc: u64, s: Seq<u8>, k: nat) -> u64
    decreases k,
{
    if k == 0 {
        acc
    } else {
        seeded_step(seeded_words(acc, s, (k - 1) as nat), word_at(s, 8 * (k - 1)))
    }
}

/// The word a tail of fewer than 8 bytes becomes: its length in the byte
/// above the tail bytes, which sit below little-endian.
pub open spec fn tail_word(t: Seq<u8>) -> u64 {
    (t.len() * byte_range(t.len()) + le_value(t)) as u64
}

/// The state after absorbing all of `s` into `acc`.
pub open spec fn seeded_absorb(acc: u64, s: Seq<u8>) -> u64 {
    let k = s.len() / 8;
    let a = seeded_words(acc, s, k);
    let t = s.subrange((8 * k) as int, s.len() as int);
    if t.len() == 0 {
        a
    } else {
        seeded_step(a, tail_word(t))
    }
}

/// Hands out hashers that all start from one seed.
pub struct Builder {
    seed: u64,
}

impl View for Builder {
    type V = u64;

    /// The seed.
    closed spec fn view(&self) -> u64 {
        self.seed
    }
}

impl Builder {
    /// A builder with the given seed.
    pub fn from_seed(seed: u64) -> (b: Builder)
        ensures
            b@ == seed,
    {
        Builder { seed }
    }

    /// A fresh hasher whose state is the seed.
    pub fn build_hasher(&self) -> (h: Hasher)
        ensures
            h@ == self@,
    {
        Hasher { state: self.seed }
    }
}

/// A hasher of the seeded family.
pub struct Hasher {
    state: u64,
}

impl View for Hasher {
    type V = u64;

    /// The hasher's state word.
    closed spec fn view(&self) -> u64 {
        self.state
    }
}

impl Default for Hasher {
    /// An unseeded hasher starts from all ones.
    fn default() -> (h: Self)
        ensures
            h@ == u64::MAX,
    {
        assert(!0u64 == u64::MAX) by (bit_vector);
        Hasher { state: !0u64 }
    }
}

impl Hasher {
    /// Absorbs a byte string: its 8-byte words, then its tagged tail.
    pub fn write(&mut self, input: &[u8])
        ensures
            final(self)@ == seeded_absorb(old(self)@, input@),
    {
        let len = input.len();
        let k = len / 8;
        let mut i: usize = 0;
        while i < k
            invariant
                0 <= i <= k,
                k == input@.len() / 8,
                len == input@.len(),
                self@ == seeded_words(old(self)@, input@, i as nat),
            decreases k - i,
        {
            assert(8 * i + 8 <= 8 * k) by (nonlinear_arith)
                requires
                    i < k,
            ;
            let w = read_word(input, 8 * i);
            self.write_u64(w);
            i += 1;
        }
        let n = len - 8 * k;
        if n >= 1 {
            let w = fold_tagged(input, 8 * k);
            self.write_u64(w);
        }
    }

    /// Absorbs one word.
    pub fn write_u64(&mut self, input: u64)
        ensures
            final(self)@ == seeded_step(old(self)@, input),
    {
        self.state = (self.state ^ input).wrapping_mul(PHI);
    }

    /// The fingerprint of everything written so far.
    pub fn finish(&self) -> (r: u64)
        ensures
            r == finalize(self@),
    {
        mix(self.state)
    }
}

proof fn lemma_shift_in(acc: u64, b: u64)
    by (bit_vector)
    requires
        acc < 0x100_0000_0000_0000,
        b < 256,
    ensures
        (acc << 8u64) | b == acc * 256 + b,
{
}

/// Builds the tail word of the bytes of `input` from `start` on, folding from
/// the last byte down onto the length.
pub fn fold_tagged(input: &[u8], start: usize) -> (w: u64)
    requires
        start < input@.len() < start + 8,
    ensures
        w == tail_word(input@.subrange(start as int, input@.len() as int)),
{
    let len = input.len();
    let n = len - start;
    let mut acc: u64 = n as u64;
    let mut j = len;
    proof {
        assert(input@.subrange(len as int, len as int) =~= Seq::<u8>::empty());
        assert(byte_range(0) == 1);
        assert(n as nat * byte_range(0) == n as nat * 1);
        assert(le_value(input@.subrange(len as int, len as int)) == 0);
    }
    while j > start
        invariant
            start <= j <= len,
            len == input@.len(),
            n == len - start,
            n < 8,
            acc as nat == n * byte_range((len - j) as nat) + le_value(
                input@.subrange(j as int, len as int),
            ),
        decreases j,
    {
        let ghost rest = input@.subrange(j as int, len as int);
        let ghost m = (len - j) as nat;
        proof {
            lemma_le_value_bound(rest);
            assert(m < 7);
            lemma_tail_bound(n as nat, m, le_value(rest));
        }
        let b = input[j - 1] as u64;
        proof {
            lemma_shift_in(acc, b);
            let more = input@.subrange(j - 1, len as int);
            assert(more.drop_first() =~= rest);
            assert(le_value(more) == b + 256 * le_value(rest));
            assert(byte_range(m + 1) == 256 * byte_range(m));
            assert(acc * 256 + b == n * byte_range(m + 1) + le_value(more)) by (nonlinear_arith)
                requires
                    acc == n * byte_range(m) + le_value(rest),
                    le_value(more) == b + 256 * le_value(rest),
                    byte_range(m + 1) == 256 * byte_range(m),
            ;
        }
        acc = (acc << 8u64) | b;
        j -= 1;
    }
    proof {
        let t = input@.subrange(start as int, len as int);
        lemma_le_value_bound(t);
        lemma_tail_bound(n as nat, n as nat, le_value(t));
    }
    acc
}

/// A tail word in the making fits well within a word.
proof fn lemma_tail_bound(n: nat, m: nat, v: nat)
    requires
        n < 8,
        m <= 7,
        v < byte_range(m),
    ensures
        n * byte_range(m) + v < 0x100_0000_0000_0000nat * (if m < 7 { 1nat } else { 256nat }),
        m < 7 ==> n * byte_range(m) + v < 0x100_0000_0000_0000nat,
        n * byte_range(m) + v < 0x1_0000_0000_0000_0000nat,
{
    reveal_with_fuel(byte_range, 8);
    assert(byte_range(m) <= byte_range(7)) by {
        lemma_byte_range_monotone(m, 7);
    }
    if m < 7 {
        assert(byte_range(m) <= byte_range(6)) by {
            lemma_byte_range_monotone(m, 6);
        }
        assert(n * byte_range(m) <= 7 * byte_range(6)) by (nonlinear_arith)
            requires
                n < 8,
                byte_range(m) <= byte_range(6),
        ;
    } else {
        assert(n * byte_range(m) <= 7 * byte_range(7)) by (nonlinear_arith)
            requires
                n < 8,
                m == 7,
        ;
    }
}

/// Law: a tail word records both the bytes of the tail and how many there
/// are, so two tails of 1 to 7 bytes give the same word only if they are equal.
pub proof fn lemma_tail_word_injective(s: Seq<u8>, t: Seq<u8>)
    requires
        1 <= s.len() < 8,
        1 <= t.len() < 8,
        tail_word(s) == tail_word(t),
    ensures
        s == t,
{
    lemma_le_value_bound(s);
    lemma_le_value_bound(t);
    lemma_tail_bound(s.len(), s.len(), le_value(s));
    lemma_tail_bound(t.len(), t.len(), le_value(t));
    let (n, m) = (s.len(), t.len());
    let (rs, rt) = (byte_range(n), byte_range(m));
    let (vs, vt) = (le_value(s), le_value(t));
    assert(n * rs + vs == m * rt + vt);
    if n < m {
        lemma_gap(n, m, vs);
        assert(false);
    } else if m < n {
        lemma_gap(m, n, vt);
        assert(false);
    } else {
        assert(vs == vt);
        lemma_le_value_injective(s, t);
    }
}

/// A tail word of a shorter tail is below every tail word of a longer one.
proof fn lemma_gap(n: nat, m: nat, v: nat)
    requires
        1 <= n < m < 8,
        v < byte_range(n),
    ensures
        n * byte_range(n) + v < m * byte_range(m),
{
    lemma_byte_range_monotone(n + 1, m);
    assert(byte_range(n + 1) == 256 * byte_range(n));
    assert(n * byte_range(n) + v < (n + 1) * byte_range(n)) by (nonlinear_arith)
        requires
            v < byte_range(n),
    ;
    assert((n + 1) * byte_range(n) <= 256 * byte_range(n)) by (nonlinear_arith)
        requires
            n < 8,
    ;
    assert(byte_range(m) <= m * byte_range(m)) by (nonlinear_arith)
        requires
            m >= 1,
    ;
}

/// Law: absorbing a word is one-to-one in the state and in the word.
pub proof fn lemma_seeded_step_injective(a: u64, b: u64, w: u64, v: u64)
    ensures
        seeded_step(a, w) == seeded_step(b, w) ==> a == b,
        seeded_step(a, w) == seeded_step(a, v) ==> w == v,
{
    crate::hash::lemma_step_injective(a, b, w, v, 0);
    assert(crate::bytes::rotr(a ^ w, 0) == a ^ w);
}

} // verus!
