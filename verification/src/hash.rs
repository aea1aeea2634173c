//! The fast word-at-a-time hasher used to fingerprint file contents.
//!
//! Input is consumed as 128-byte blocks spread over 16 independent lanes,
//! then as 8-byte words, then as a tail of fewer than 8 bytes packed into one
//! word. Each word is mixed into the state by xor, a rotation that depends on
//! how many bytes the word carries, and a multiplication by the golden ratio.
//! Words are read little-endian.
use vstd::prelude::*;
use vstd::arithmetic::div_mod::{lemma_mul_mod_noop_left, lemma_mul_mod_noop_right, lemma_small_mod};
use vstd::arithmetic::mul::lemma_mul_is_associative;

use crate::bytes::{
    le_value, word_at, wmul, rotr, word_modulus, read_word, rotate_right, lemma_le_value_unfold,
    lemma_le_value_bound, byte_range, lemma_le_value_injective, lemma_byte_range_monotone,
};

verus! {

/// 2^64 divided by the golden ratio, odd.
pub const PHI: u64 = 0x9e3779b97f4a7c15;

/// Number of lanes the block loop runs in parallel.
pub const LANES: usize = 16;

/// Bytes per block (one word per lane).
pub const BLOCK: usize = 128;

/// The rotation applied to a word that carries `id` bytes (0: a full word
/// from the block or word loops).
pub open spec fn rotation(id: u32) -> u32 {
    if id == 0 {
        0
    } else {
        (1 + 2 * id) as u32
    }
}

/// One mixing step: xor the word in, rotate, multiply by `PHI`.
pub open spec fn step(acc: u64, input: u64, id: u32) -> u64 {
    wmul(rotr(acc ^ input, rotation(id)), PHI)
}

/// The output finalizer: two xorshift-multiply rounds and a last xorshift.
pub open spec fn finalize(x: u64) -> u64 {
    let a = wmul(x ^ (x >> 27u64), 0x3c79ac492ba7b653);
    let b = wmul(a ^ (a >> 33u64), 0x1c69b3f74ac4ae35);
    b ^ (b >> 27u64)
}

/// The starting value of lane `i`.
pub open spec fn lane_seed(i: nat) -> u64 {
    wmul(PHI, (i + 2) as u64)
}

/// Lane `i` after the first `nblocks` blocks of `s`.
pub open spec fn lane_after(s: Seq<u8>, nblocks: nat, i: nat) -> u64
    decreases nblocks,
{
    if nblocks == 0 {
        lane_seed(i)
    } else {
        step(
            lane_after(s, (nblocks - 1) as nat, i),
            word_at(s, 128 * (nblocks - 1) + 8 * i),
            0,
        )
    }
}

/// `acc` xor-ed with lanes `0..k` after `nblocks` blocks, in lane order.
pub open spec fn fold_lanes(acc: u64, s: Seq<u8>, nblocks: nat, k: nat) -> u64
    decreases k,
{
    if k == 0 {
        acc
    } else {
        fold_lanes(acc, s, nblocks, (k - 1) as nat) ^ lane_after(s, nblocks, (k - 1) as nat)
    }
}

/// The block stage: with no block the state is kept, else it absorbs all lanes.
pub open spec fn blocks_hash(acc: u64, s: Seq<u8>, nblocks: nat) -> u64 {
    if nblocks == 0 {
        acc
    } else {
        fold_lanes(acc, s, nblocks, LANES as nat)
    }
}

/// The word stage: `k` words of `s` from offset `start`, one step each.
pub open spec fn words_hash(acc: u64, s: Seq<u8>, start: int, k: nat) -> u64
    decreases k,
{
    if k == 0 {
        acc
    } else {
        step(words_hash(acc, s, start, (k - 1) as nat), word_at(s, start + 8 * (k - 1)), 0)
    }
}

/// The tail stage: a non-empty tail is one word tagged with its length.
pub open spec fn tail_hash(acc: u64, t: Seq<u8>) -> u64 {
    if t.len() == 0 {
        acc
    } else {
        step(acc, le_value(t) as u64, t.len() as u32)
    }
}

/// The state after absorbing all of `s` into `acc`.
pub open spec fn absorb(acc: u64, s: Seq<u8>) -> u64 {
    let nblocks = s.len() / 128;
    let start = 128 * nblocks;
    let nwords = ((s.len() - start) / 8) as nat;
    let end = start + 8 * nwords;
    tail_hash(
        words_hash(blocks_hash(acc, s, nblocks), s, start as int, nwords),
        s.subrange(end as int, s.len() as int),
    )
}

/// The mixing step on executable words.
pub fn hash_8(acc: u64, input: u64, id: u32) -> (r: u64)
    requires
        id < 0x8000_0000,
    ensures
        r == step(acc, input, id),
{
    let rot = if id == 0 {
        0
    } else {
        1 + 2 * id
    };
    rotate_right(acc ^ input, rot).wrapping_mul(PHI)
}

/// The output finalizer.
pub fn mix(acc: u64) -> (r: u64)
    ensures
        r == finalize(acc),
{
    let mut acc = acc;
    acc = (acc ^ acc >> 27u64).wrapping_mul(0x3c79ac492ba7b653);
    acc = (acc ^ acc >> 33u64).wrapping_mul(0x1c69b3f74ac4ae35);
    acc ^ acc >> 27u64
}

/// Absorbs `input` (the whole slice) into `acc`.
pub fn hash_n(acc: u64, input: &[u8]) -> (r: u64)
    ensures
        r == absorb(acc, input@),
{
    let len = input.len();
    let nblocks = len / BLOCK;
    let acc = hash_by(acc, input, nblocks);
    let start = BLOCK * nblocks;
    let nwords = (len - start) / 8;
    let acc = hash_by8(acc, input, start, nwords);
    hash_tail(acc, input, start + 8 * nwords)
}

/// The block stage over the first `nblocks` blocks of `input`.
pub fn hash_by(acc: u64, input: &[u8], nblocks: usize) -> (r: u64)
    requires
        128 * nblocks <= input@.len(),
    ensures
        r == blocks_hash(acc, input@, nblocks as nat),
{
    if nblocks == 0 {
        return acc;
    }
    let mut lanes = [0u64; 16];
    let mut i: usize = 0;
    while i < LANES
        invariant
            0 <= i <= LANES,
            forall|j: int| 0 <= j < i ==> lanes[j] == lane_seed(j as nat),
        decreases LANES - i,
    {
        lanes[i] = PHI.wrapping_mul((i + 2) as u64);
        i += 1;
    }
    let len = input.len();
    let mut b: usize = 0;
    while b < nblocks
        invariant
            0 <= b <= nblocks,
            len == input@.len(),
            128 * nblocks <= input@.len(),
            forall|j: int| 0 <= j < LANES ==> lanes[j] == lane_after(input@, b as nat, j as nat),
        decreases nblocks - b,
    {
        let mut i: usize = 0;
        while i < LANES
            invariant
                0 <= i <= LANES,
                b < nblocks,
                len == input@.len(),
                128 * nblocks <= input@.len(),
                forall|j: int|
                    0 <= j < i ==> lanes[j] == lane_after(input@, (b + 1) as nat, j as nat),
                forall|j: int|
                    i <= j < LANES ==> lanes[j] == lane_after(input@, b as nat, j as nat),
            decreases LANES - i,
        {
            assert(128 * b + 8 * i + 8 <= 128 * nblocks) by (nonlinear_arith)
                requires
                    b < nblocks,
                    i < 16,
            ;
            let w = read_word(input, BLOCK * b + 8 * i);
            lanes[i] = hash_8(lanes[i], w, 0);
            i += 1;
        }
        b += 1;
    }
    let mut r = acc;
    let mut i: usize = 0;
    while i < LANES
        invariant
            0 <= i <= LANES,
            forall|j: int| 0 <= j < LANES ==> lanes[j] == lane_after(input@, nblocks as nat, j as nat),
            r == fold_lanes(acc, input@, nblocks as nat, i as nat),
        decreases LANES - i,
    {
        r = r ^ lanes[i];
        i += 1;
    }
    r
}

/// The word stage over `nwords` words of `input` from offset `start`.
pub fn hash_by8(acc: u64, input: &[u8], start: usize, nwords: usize) -> (r: u64)
    requires
        start + 8 * nwords <= input@.len(),
    ensures
        r == words_hash(acc, input@, start as int, nwords as nat),
{
    let len = input.len();
    let mut r = acc;
    let mut k: usize = 0;
    while k < nwords
        invariant
            0 <= k <= nwords,
            len == input@.len(),
            start + 8 * nwords <= input@.len(),
            r == words_hash(acc, input@, start as int, k as nat),
        decreases nwords - k,
    {
        assert(8 * k + 8 <= 8 * nwords) by (nonlinear_arith)
            requires
                k < nwords,
        ;
        let w = read_word(input, start + 8 * k);
        r = hash_8(r, w, 0);
        k += 1;
    }
    r
}

/// The tail stage over the bytes of `input` from `start` to the end.
pub fn hash_tail(acc: u64, input: &[u8], start: usize) -> (r: u64)
    requires
        start <= input@.len() < start + 8,
    ensures
        r == tail_hash(acc, input@.subrange(start as int, input@.len() as int)),
{
    let n = input.len() - start;
    if n == 0 {
        return acc;
    }
    hash_8(acc, fold_tail(input, start), n as u32)
}

/// Packs the fewer than 8 bytes of `input` from `start` on into one word,
/// little-endian: a 4-byte group first, then a 2-byte group, then a byte.
pub fn fold_tail(input: &[u8], start: usize) -> (w: u64)
    requires
        start <= input@.len() < start + 8,
    ensures
        w as nat == le_value(input@.subrange(start as int, input@.len() as int)),
{
    let ghost t = input@.subrange(start as int, input@.len() as int);
    let n = input.len() - start;
    let mut acc: u64 = 0;
    let mut c = start;
    if n >= 4 {
        let b0 = input[c] as u64;
        let b1 = input[c + 1] as u64;
        let b2 = input[c + 2] as u64;
        let b3 = input[c + 3] as u64;
        acc = b0 | (b1 << 8u64) | (b2 << 16u64) | (b3 << 24u64);
        c = c + 4;
    }
    // the 2-byte group sits above the 4-byte group when there is one
    let shift16: u64 = if n >= 4 {
        32
    } else {
        0
    };
    let mut pair: u64 = 0;
    if input.len() - c >= 2 {
        let b0 = input[c] as u64;
        let b1 = input[c + 1] as u64;
        pair = b0 | (b1 << 8u64);
        acc = acc | (pair << shift16);
        c = c + 2;
    }
    let mut byte: u64 = 0;
    if input.len() - c >= 1 {
        // the odd byte is the last one
        byte = input[c] as u64;
        acc = acc | (byte << (8 * (n as u64 - 1)));
    }
    proof {
        lemma_le_value_unfold(t);
        lemma_fold_tail_cases(input@, start as int, acc);
    }
    acc
}

/// Ties the pieces that `fold_tail` or-s together to the tail's value.
proof fn lemma_fold_tail_cases(s: Seq<u8>, start: int, acc: u64)
    requires
        0 <= start <= s.len() < start + 8,
        ({
            let n = s.len() - start;
            let b = |k: int| s[start + k] as u64;
            &&& n == 0 ==> acc == 0
            &&& n == 1 ==> acc == (0u64 | (b(0) << 0u64))
            &&& n == 2 ==> acc == (0u64 | ((b(0) | (b(1) << 8u64)) << 0u64))
            &&& n == 3 ==> acc == ((0u64 | ((b(0) | (b(1) << 8u64)) << 0u64)) | (b(2) << 16u64))
            &&& n == 4 ==> acc == (b(0) | (b(1) << 8u64) | (b(2) << 16u64) | (b(3) << 24u64))
            &&& n == 5 ==> acc == ((b(0) | (b(1) << 8u64) | (b(2) << 16u64) | (b(3) << 24u64))
                | (b(4) << 32u64))
            &&& n == 6 ==> acc == ((b(0) | (b(1) << 8u64) | (b(2) << 16u64) | (b(3) << 24u64))
                | ((b(4) | (b(5) << 8u64)) << 32u64))
            &&& n == 7 ==> acc == (((b(0) | (b(1) << 8u64) | (b(2) << 16u64) | (b(3) << 24u64))
                | ((b(4) | (b(5) << 8u64)) << 32u64)) | (b(6) << 48u64))
        }),
    ensures
        ({
            let t = s.subrange(start, s.len() as int);
            &&& t.len() == 0 ==> acc == 0
            &&& t.len() == 1 ==> acc == t[0]
            &&& t.len() == 2 ==> acc == t[0] + 256 * t[1]
            &&& t.len() == 3 ==> acc == t[0] + 256 * (t[1] + 256 * t[2])
            &&& t.len() == 4 ==> acc == t[0] + 256 * (t[1] + 256 * (t[2] + 256 * t[3]))
            &&& t.len() == 5 ==> acc == t[0] + 256 * (t[1] + 256 * (t[2] + 256 * (t[3] + 256
                * t[4])))
            &&& t.len() == 6 ==> acc == t[0] + 256 * (t[1] + 256 * (t[2] + 256 * (t[3] + 256 * (
            t[4] + 256 * t[5]))))
            &&& t.len() == 7 ==> acc == t[0] + 256 * (t[1] + 256 * (t[2] + 256 * (t[3] + 256 * (
            t[4] + 256 * (t[5] + 256 * t[6])))))
        }),
{
    let n = s.len() - start;
    let t = s.subrange(start, s.len() as int);
    let b0 = if n > 0 { s[start] as u64 } else { 0 };
    let b1 = if n > 1 { s[start + 1] as u64 } else { 0 };
    let b2 = if n > 2 { s[start + 2] as u64 } else { 0 };
    let b3 = if n > 3 { s[start + 3] as u64 } else { 0 };
    let b4 = if n > 4 { s[start + 4] as u64 } else { 0 };
    let b5 = if n > 5 { s[start + 5] as u64 } else { 0 };
    let b6 = if n > 6 { s[start + 6] as u64 } else { 0 };
    lemma_pack_tail(b0, b1, b2, b3, b4, b5, b6);
}

/// The or-ed byte groups of a tail equal its little-endian value, for
/// each tail length.
proof fn lemma_pack_tail(b0: u64, b1: u64, b2: u64, b3: u64, b4: u64, b5: u64, b6: u64)
    by (bit_vector)
    requires
        b0 < 256,
        b1 < 256,
        b2 < 256,
        b3 < 256,
        b4 < 256,
        b5 < 256,
        b6 < 256,
    ensures
        (0u64 | (b0 << 0u64)) == b0,
        (0u64 | ((b0 | (b1 << 8u64)) << 0u64)) == b0 + 256 * b1,
        ((0u64 | ((b0 | (b1 << 8u64)) << 0u64)) | (b2 << 16u64)) == b0 + 256 * (b1 + 256 * b2),
        (b0 | (b1 << 8u64) | (b2 << 16u64) | (b3 << 24u64)) == b0 + 256 * (b1 + 256 * (b2 + 256
            * b3)),
        ((b0 | (b1 << 8u64) | (b2 << 16u64) | (b3 << 24u64)) | (b4 << 32u64)) == b0 + 256 * (b1
            + 256 * (b2 + 256 * (b3 + 256 * b4))),
        ((b0 | (b1 << 8u64) | (b2 << 16u64) | (b3 << 24u64)) | ((b4 | (b5 << 8u64)) << 32u64))
            == b0 + 256 * (b1 + 256 * (b2 + 256 * (b3 + 256 * (b4 + 256 * b5)))),
        (((b0 | (b1 << 8u64) | (b2 << 16u64) | (b3 << 24u64)) | ((b4 | (b5 << 8u64)) << 32u64))
            | (b6 << 48u64)) == b0 + 256 * (b1 + 256 * (b2 + 256 * (b3 + 256 * (b4 + 256 * (b5
            + 256 * b6))))),
{
}

} // verus!

verus! {

/// Hashes a stream of writes into one 64-bit fingerprint.
pub struct Hasher {
    state: u64,
}

impl View for Hasher {
    type V = u64;

    /// The hasher's state word.
    closed spec fn view(&self) -> u64 {
        self.state
    }
}

impl Default for Hasher {
    /// A fresh hasher starts from `PHI`.
    fn default() -> (h: Self)
        ensures
            h@ == PHI,
    {
        Hasher { state: PHI }
    }
}

impl Hasher {
    /// The fingerprint of everything written so far.
    pub fn finish(&self) -> (r: u64)
        ensures
            r == finalize(self@),
    {
        mix(self.state)
    }

    /// Absorbs a byte string.
    pub fn write(&mut self, input: &[u8])
        ensures
            final(self)@ == absorb(old(self)@, input@),
    {
        self.state = hash_n(self.state, input);
    }

    /// Absorbs one byte, tagged as a 1-byte word.
    pub fn write_u8(&mut self, input: u8)
        ensures
            final(self)@ == step(old(self)@, input as u64, 1),
    {
        self.state = hash_8(self.state, input as u64, 1);
    }

    /// Absorbs a 2-byte integer, tagged as a 2-byte word.
    pub fn write_u16(&mut self, input: u16)
        ensures
            final(self)@ == step(old(self)@, input as u64, 2),
    {
        self.state = hash_8(self.state, input as u64, 2);
    }

    /// Absorbs a 4-byte integer, tagged as a 4-byte word.
    pub fn write_u32(&mut self, input: u32)
        ensures
            final(self)@ == step(old(self)@, input as u64, 4),
    {
        self.state = hash_8(self.state, input as u64, 4);
    }

    /// Absorbs an 8-byte integer, tagged as an 8-byte word.
    pub fn write_u64(&mut self, input: u64)
        ensures
            final(self)@ == step(old(self)@, input, 8),
    {
        self.state = hash_8(self.state, input, 8);
    }

    /// Absorbs a 16-byte integer: its low half as a full word, then its high
    /// half tagged as the 16th byte.
    pub fn write_u128(&mut self, input: u128)
        ensures
            final(self)@ == step(step(old(self)@, input as u64, 0), (input >> 64u128) as u64, 16),
    {
        self.state = hash_8(self.state, input as u64, 0);
        self.state = hash_8(self.state, (input >> 64u128) as u64, 16);
    }

    /// Absorbs a pointer-sized integer, tagged with the pointer size in bytes.
    pub fn write_usize(&mut self, input: usize)
        ensures
            final(self)@ == step(old(self)@, input as u64, (usize::BITS / 8) as u32),
    {
        self.state = hash_8(self.state, input as u64, usize::BITS / 8);
    }
}

/// Multiplying by `c` and then by its inverse modulo 2^64 gives the word back.
proof fn lemma_wmul_inverse(a: u64, c: u64, ci: u64)
    requires
        (c as nat * ci as nat) % word_modulus() == 1,
    ensures
        wmul(wmul(a, c), ci) == a,
{
    let m = word_modulus() as int;
    let (a, c, ci) = (a as int, c as int, ci as int);
    lemma_mul_mod_noop_left(a * c, ci, m);
    lemma_mul_is_associative(a, c, ci);
    lemma_mul_mod_noop_right(a, c * ci, m);
    lemma_small_mod(a as nat, m as nat);
}

/// Multiplication by an odd constant with a known inverse is one-to-one.
proof fn lemma_wmul_cancel(a: u64, b: u64, c: u64, ci: u64)
    requires
        (c as nat * ci as nat) % word_modulus() == 1,
        wmul(a, c) == wmul(b, c),
    ensures
        a == b,
{
    lemma_wmul_inverse(a, c, ci);
    lemma_wmul_inverse(b, c, ci);
}

proof fn lemma_rotr_injective(x: u64, y: u64, r: u32)
    requires
        rotr(x, r) == rotr(y, r),
    ensures
        x == y,
{
    let s = r % 64;
    if s != 0 {
        assert(x == y) by (bit_vector)
            requires
                0 < s < 64,
                (x >> s) | (x << ((64 - s) as u32)) == (y >> s) | (y << ((64 - s) as u32)),
        ;
    }
}

proof fn lemma_xorshift_injective(x: u64, y: u64)
    requires
        x ^ (x >> 27u64) == y ^ (y >> 27u64) || x ^ (x >> 33u64) == y ^ (y >> 33u64),
    ensures
        x == y,
{
    assert(x ^ (x >> 27u64) == y ^ (y >> 27u64) ==> x == y) by (bit_vector);
    assert(x ^ (x >> 33u64) == y ^ (y >> 33u64) ==> x == y) by (bit_vector);
}

/// Law: a mixing step never maps two different states to the same state, nor
/// two different words into one state to the same state.
pub proof fn lemma_step_injective(a: u64, b: u64, w: u64, v: u64, id: u32)
    ensures
        step(a, w, id) == step(b, w, id) ==> a == b,
        step(a, w, id) == step(a, v, id) ==> w == v,
{
    assert((PHI as nat * 0xf1de83e19937733du64 as nat) % word_modulus() == 1);
    if step(a, w, id) == step(b, w, id) {
        lemma_wmul_cancel(rotr(a ^ w, rotation(id)), rotr(b ^ w, rotation(id)), PHI, 0xf1de83e19937733d);
        lemma_rotr_injective(a ^ w, b ^ w, rotation(id));
        assert(a == b) by (bit_vector)
            requires
                a ^ w == b ^ w,
        ;
    }
    if step(a, w, id) == step(a, v, id) {
        lemma_wmul_cancel(rotr(a ^ w, rotation(id)), rotr(a ^ v, rotation(id)), PHI, 0xf1de83e19937733d);
        lemma_rotr_injective(a ^ w, a ^ v, rotation(id));
        assert(w == v) by (bit_vector)
            requires
                a ^ w == a ^ v,
        ;
    }
}

/// Law: the finalizer is one-to-one, so `finish` gives different
/// fingerprints for different states.
pub proof fn lemma_finalize_injective(x: u64, y: u64)
    requires
        finalize(x) == finalize(y),
    ensures
        x == y,
{
    assert((0x3c79ac492ba7b653u64 as nat * 0xc09c5fe5bd6dfddbu64 as nat) % word_modulus() == 1)
       ;
    assert((0x1c69b3f74ac4ae35u64 as nat * 0xc47c8f6b6bafb41du64 as nat) % word_modulus() == 1)
       ;
    let ax = wmul(x ^ (x >> 27u64), 0x3c79ac492ba7b653);
    let ay = wmul(y ^ (y >> 27u64), 0x3c79ac492ba7b653);
    let bx = wmul(ax ^ (ax >> 33u64), 0x1c69b3f74ac4ae35);
    let by = wmul(ay ^ (ay >> 33u64), 0x1c69b3f74ac4ae35);
    lemma_xorshift_injective(bx, by);
    lemma_wmul_cancel(ax ^ (ax >> 33u64), ay ^ (ay >> 33u64), 0x1c69b3f74ac4ae35, 0xc47c8f6b6bafb41d);
    lemma_xorshift_injective(ax, ay);
    lemma_wmul_cancel(x ^ (x >> 27u64), y ^ (y >> 27u64), 0x3c79ac492ba7b653, 0xc09c5fe5bd6dfddb);
    lemma_xorshift_injective(x, y);
}

/// Law: writing nothing leaves the state as it was.
pub proof fn lemma_absorb_empty(acc: u64)
    ensures
        absorb(acc, Seq::<u8>::empty()) == acc,
{
    assert(Seq::<u8>::empty().subrange(0, 0) =~= Seq::<u8>::empty());
}

/// What absorbing a string of at most 8 bytes amounts to.
proof fn lemma_absorb_short(acc: u64, s: Seq<u8>)
    requires
        s.len() <= 8,
    ensures
        s.len() == 8 ==> absorb(acc, s) == step(acc, word_at(s, 0), 0),
        s.len() < 8 ==> absorb(acc, s) == tail_hash(acc, s),
{
    assert(s.len() / 128 == 0);
    assert(blocks_hash(acc, s, 0) == acc);
    assert(s.subrange(s.len() as int, s.len() as int) =~= Seq::<u8>::empty());
    assert(s.subrange(0, s.len() as int) =~= s);
    if s.len() == 8 {
        assert((s.len() - 0) / 8 == 1);
        assert(words_hash(acc, s, 0, 1) == step(words_hash(acc, s, 0, 0), word_at(s, 0), 0));
    } else {
        assert((s.len() - 0) / 8 == 0);
    }
}

/// Law: into one state, two different byte strings of one length of at most
/// 8 bytes lead to two different states.
pub proof fn lemma_absorb_short_injective(acc: u64, s: Seq<u8>, t: Seq<u8>)
    requires
        s.len() == t.len(),
        s.len() <= 8,
        absorb(acc, s) == absorb(acc, t),
    ensures
        s == t,
{
    lemma_absorb_short(acc, s);
    lemma_absorb_short(acc, t);
    lemma_le_value_bound(s);
    lemma_le_value_bound(t);
    reveal_with_fuel(byte_range, 9);
    if s.len() == 8 {
        assert(s.subrange(0, 8) =~= s);
        assert(t.subrange(0, 8) =~= t);
        lemma_step_injective(acc, acc, word_at(s, 0), word_at(t, 0), 0);
        assert(byte_range(8) == 0x1_0000_0000_0000_0000nat);
        lemma_le_value_injective(s, t);
    } else if s.len() > 0 {
        lemma_step_injective(acc, acc, le_value(s) as u64, le_value(t) as u64, s.len() as u32);
        assert(byte_range(7) < 0x1_0000_0000_0000_0000nat);
        lemma_byte_range_monotone(s.len(), 7);
        lemma_le_value_injective(s, t);
    } else {
        assert(s =~= t);
    }
}

/// `s` and `t` have one length and differ in exactly one byte, at `k`.
pub open spec fn one_byte_apart(s: Seq<u8>, t: Seq<u8>, k: int) -> bool {
    &&& s.len() == t.len()
    &&& 0 <= k < s.len()
    &&& s[k] != t[k]
    &&& forall|i: int| 0 <= i < s.len() && i != k ==> s[i] == t[i]
}

/// Xor keeps a difference on one side and keeps equality.
proof fn lemma_xor_apart(x: u64, y: u64, a: u64, b: u64)
    by (bit_vector)
    ensures
        (x == y && a == b) ==> (x ^ a) == (y ^ b),
        (x == y && a != b) ==> (x ^ a) != (y ^ b),
        (x != y && a == b) ==> (x ^ a) != (y ^ b),
{
}

/// A step keeps equal inputs equal, and one difference, in the state or
/// in the word, apart.
proof fn lemma_step_apart(a: u64, b: u64, w: u64, v: u64, id: u32)
    ensures
        (a == b && w == v) ==> step(a, w, id) == step(b, v, id),
        (a == b && w != v) ==> step(a, w, id) != step(b, v, id),
        (a != b && w == v) ==> step(a, w, id) != step(b, v, id),
{
    lemma_step_injective(a, b, w, v, id);
}

/// The word at `off` differs between `s` and `t` exactly when it covers `k`.
proof fn lemma_word_at_apart(s: Seq<u8>, t: Seq<u8>, k: int, off: int)
    requires
        one_byte_apart(s, t, k),
        0 <= off,
        off + 8 <= s.len(),
    ensures
        word_at(s, off) != word_at(t, off) <==> (off <= k < off + 8),
{
    let x = s.subrange(off, off + 8);
    let y = t.subrange(off, off + 8);
    if off <= k < off + 8 {
        lemma_le_value_bound(x);
        lemma_le_value_bound(y);
        reveal_with_fuel(byte_range, 9);
        assert(byte_range(8) == 0x1_0000_0000_0000_0000nat);
        if word_at(s, off) == word_at(t, off) {
            lemma_le_value_injective(x, y);
            assert(x[k - off] == y[k - off]);
        }
    } else {
        assert(x =~= y);
    }
}

/// Where byte `k` sits in the block stage: the block and the lane.
proof fn lemma_block_position(k: int, b: int, i: int)
    requires
        0 <= k,
        0 <= b,
        0 <= i < 16,
    ensures
        (128 * b + 8 * i <= k < 128 * b + 8 * i + 8) <==> (b == k / 128 && i == (k % 128) / 8),
{
    let q = k / 128;
    let r = k % 128;
    assert(k == 128 * q + r && 0 <= r < 128);
    let ri = r / 8;
    assert(r == 8 * ri + r % 8 && 0 <= r % 8 < 8);
    if 128 * b + 8 * i <= k < 128 * b + 8 * i + 8 {
        assert(b == q && i == ri) by (nonlinear_arith)
            requires
                128 * b + 8 * i <= k < 128 * b + 8 * i + 8,
                k == 128 * q + r,
                0 <= r < 128,
                r == 8 * ri + r % 8,
                0 <= r % 8 < 8,
                0 <= i < 16,
        ;
    }
}

/// Lane `i` after `b` blocks differs between `s` and `t` exactly when the
/// differing byte lies in one of those blocks, in lane `i`.
proof fn lemma_lanes_apart(s: Seq<u8>, t: Seq<u8>, k: int, b: nat, i: nat)
    requires
        one_byte_apart(s, t, k),
        128 * b <= s.len(),
        i < 16,
    ensures
        lane_after(s, b, i) != lane_after(t, b, i) <==> (b > k / 128 && i == (k % 128) / 8),
    decreases b,
{
    if b > 0 {
        let pb = (b - 1) as nat;
        lemma_lanes_apart(s, t, k, pb, i);
        let off = (128 * pb + 8 * i) as int;
        assert(off + 8 <= 128 * b);
        lemma_word_at_apart(s, t, k, off);
        lemma_block_position(k, pb as int, i as int);
        lemma_step_apart(
            lane_after(s, pb, i),
            lane_after(t, pb, i),
            word_at(s, off),
            word_at(t, off),
            0,
        );
    }
}

/// Xor-ing in the first `m` lanes after `n` blocks differs between `s` and
/// `t` exactly when the differing byte lies in those blocks and lanes.
proof fn lemma_fold_apart(acc: u64, s: Seq<u8>, t: Seq<u8>, k: int, n: nat, m: nat)
    requires
        one_byte_apart(s, t, k),
        128 * n <= s.len(),
        m <= 16,
    ensures
        fold_lanes(acc, s, n, m) != fold_lanes(acc, t, n, m) <==> (n > k / 128 && m > (k % 128)
            / 8),
    decreases m,
{
    if m > 0 {
        let pm = (m - 1) as nat;
        lemma_fold_apart(acc, s, t, k, n, pm);
        lemma_lanes_apart(s, t, k, n, pm);
        lemma_xor_apart(
            fold_lanes(acc, s, n, pm),
            fold_lanes(acc, t, n, pm),
            lane_after(s, n, pm),
            lane_after(t, n, pm),
        );
    }
}

/// The word stage from one state differs between `s` and `t` exactly when
/// one of its words covers `k`.
proof fn lemma_words_apart(a: u64, s: Seq<u8>, t: Seq<u8>, k: int, start: int, m: nat)
    requires
        one_byte_apart(s, t, k),
        0 <= start,
        start + 8 * m <= s.len(),
    ensures
        words_hash(a, s, start, m) != words_hash(a, t, start, m) <==> (start <= k < start + 8 * m),
    decreases m,
{
    if m > 0 {
        let pm = (m - 1) as nat;
        lemma_words_apart(a, s, t, k, start, pm);
        let off = start + 8 * pm;
        lemma_word_at_apart(s, t, k, off);
        lemma_step_apart(
            words_hash(a, s, start, pm),
            words_hash(a, t, start, pm),
            word_at(s, off),
            word_at(t, off),
            0,
        );
    }
}

/// The word stage keeps two different states apart when its words agree.
proof fn lemma_words_keep(a: u64, b: u64, s: Seq<u8>, t: Seq<u8>, k: int, start: int, m: nat)
    requires
        one_byte_apart(s, t, k),
        a != b,
        k < start,
        start + 8 * m <= s.len(),
    ensures
        words_hash(a, s, start, m) != words_hash(b, t, start, m),
    decreases m,
{
    if m > 0 {
        let pm = (m - 1) as nat;
        lemma_words_keep(a, b, s, t, k, start, pm);
        let off = start + 8 * pm;
        lemma_word_at_apart(s, t, k, off);
        lemma_step_apart(
            words_hash(a, s, start, pm),
            words_hash(b, t, start, pm),
            word_at(s, off),
            word_at(t, off),
            0,
        );
    }
}

/// The tail stage keeps one difference, in the state or in the tail, apart.
proof fn lemma_tail_apart(a: u64, b: u64, x: Seq<u8>, y: Seq<u8>)
    requires
        x.len() == y.len(),
        x.len() < 8,
        (a != b && x == y) || (a == b && x != y),
    ensures
        tail_hash(a, x) != tail_hash(b, y),
{
    if x.len() > 0 {
        lemma_le_value_bound(x);
        lemma_le_value_bound(y);
        reveal_with_fuel(byte_range, 8);
        lemma_byte_range_monotone(x.len(), 7);
        assert(byte_range(7) < 0x1_0000_0000_0000_0000nat);
        if x != y {
            if le_value(x) as u64 == le_value(y) as u64 {
                lemma_le_value_injective(x, y);
            }
        }
        assert(le_value(x) < 0x1_0000_0000_0000_0000nat && le_value(y) < 0x1_0000_0000_0000_0000nat);
        lemma_step_apart(a, b, le_value(x) as u64, le_value(y) as u64, x.len() as u32);
    } else {
        assert(x =~= y);
    }
}

/// Law: absorbing depends on every byte: two byte strings of one length
/// that differ in a single byte, wherever it is (in a block, in a word or
/// in the tail), lead from one state to two different states.
pub proof fn lemma_absorb_every_byte(acc: u64, s: Seq<u8>, t: Seq<u8>, k: int)
    requires
        one_byte_apart(s, t, k),
    ensures
        absorb(acc, s) != absorb(acc, t),
{
    let len = s.len();
    let nb = len / 128;
    let start = 128 * nb;
    let nw = ((len - start) / 8) as nat;
    let end = start + 8 * nw;
    let xs = s.subrange(end as int, len as int);
    let xt = t.subrange(end as int, len as int);
    let bs = blocks_hash(acc, s, nb);
    let bt = blocks_hash(acc, t, nb);
    if nb > 0 {
        lemma_fold_apart(acc, s, t, k, nb, 16);
    }
    assert((k % 128) / 8 < 16);
    if k < start {
        assert(k / 128 < nb);
        assert(bs != bt);
        lemma_words_keep(bs, bt, s, t, k, start as int, nw);
        assert(xs =~= xt);
        lemma_tail_apart(
            words_hash(bs, s, start as int, nw),
            words_hash(bt, t, start as int, nw),
            xs,
            xt,
        );
    } else {
        assert(k / 128 >= nb);
        assert(bs == bt);
        lemma_words_apart(bs, s, t, k, start as int, nw);
        if k < end {
            assert(xs =~= xt);
            lemma_tail_apart(
                words_hash(bs, s, start as int, nw),
                words_hash(bt, t, start as int, nw),
                xs,
                xt,
            );
        } else {
            assert(xs[k - end] != xt[k - end]);
            lemma_tail_apart(
                words_hash(bs, s, start as int, nw),
                words_hash(bt, t, start as int, nw),
                xs,
                xt,
            );
        }
    }
}

} // verus!
