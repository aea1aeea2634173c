//! Little-endian packing of bytes into machine words, and the word
//! operations (rotation, wrapping product) that the hashers are built from.
use vstd::prelude::*;

verus! {

/// The number 2^64, the modulus of `u64` arithmetic.
pub open spec fn word_modulus() -> nat {
    0x1_0000_0000_0000_0000nat
}

/// The value of a byte string read as a little-endian number:
/// `s[0] + 256 * s[1] + 256^2 * s[2] + ...`.
pub open spec fn le_value(s: Seq<u8>) -> nat
    decreases s.len(),
{
    if s.len() == 0 {
        0
    } else {
        s[0] as nat + 256 * le_value(s.drop_first())
    }
}

/// 256 to the power `n`: one more than the largest value of `n` bytes.
pub open spec fn byte_range(n: nat) -> nat
    decreases n,
{
    if n == 0 {
        1
    } else {
        256 * byte_range((n - 1) as nat)
    }
}

/// The 8 bytes of `s` from offset `off` on, read as a little-endian word
/// (what `u64::from_le_bytes` gives for them).
pub open spec fn word_at(s: Seq<u8>, off: int) -> u64 {
    le_value(s.subrange(off, off + 8)) as u64
}

/// The product of two words modulo 2^64 (`u64::wrapping_mul`).
pub open spec fn wmul(x: u64, y: u64) -> u64 {
    vstd::wrapping::u64_specs::wrapping_mul(x, y)
}

/// `x` rotated right by `r` bit positions, `r` taken modulo 64
/// (`u64::rotate_right`).
pub open spec fn rotr(x: u64, r: u32) -> u64 {
    let s = r % 64;
    if s == 0 {
        x
    } else {
        (x >> s) | (x << ((64 - s) as u32))
    }
}

/// More bytes give a larger range.
pub proof fn lemma_byte_range_monotone(a: nat, b: nat)
    requires
        a <= b,
    ensures
        byte_range(a) <= byte_range(b),
    decreases b,
{
    if a < b {
        lemma_byte_range_monotone(a, (b - 1) as nat);
    }
}

/// A little-endian value of `n` bytes is below `256^n`.
pub proof fn lemma_le_value_bound(s: Seq<u8>)
    ensures
        le_value(s) < byte_range(s.len()),
    decreases s.len(),
{
    if s.len() > 0 {
        lemma_le_value_bound(s.drop_first());
    }
}

/// Splitting a byte string splits its value: the low part, plus the high
/// part scaled by the range of the low part.
pub proof fn lemma_le_value_split(s: Seq<u8>, k: int)
    requires
        0 <= k <= s.len(),
    ensures
        le_value(s) == le_value(s.subrange(0, k)) + byte_range(k as nat) * le_value(
            s.subrange(k, s.len() as int),
        ),
    decreases k,
{
    if k == 0 {
        assert(s.subrange(0, 0) =~= Seq::<u8>::empty());
        assert(s.subrange(0, s.len() as int) =~= s);
        assert(le_value(s.subrange(0, 0)) == 0);
        assert(byte_range(0) == 1);
        let v = le_value(s);
        assert(v == 0 + 1 * v);
    } else {
        let t = s.drop_first();
        lemma_le_value_split(t, k - 1);
        assert(t.subrange(0, k - 1) =~= s.subrange(0, k).drop_first());
        assert(t.subrange(k - 1, t.len() as int) =~= s.subrange(k, s.len() as int));
        let hi = le_value(s.subrange(k, s.len() as int));
        let r = byte_range((k - 1) as nat);
        let low = s.subrange(0, k);
        assert(low[0] == s[0]);
        assert(le_value(low) == s[0] as nat + 256 * le_value(low.drop_first()));
        assert(byte_range(k as nat) == 256 * r);
        assert(256 * (r * hi) == (256 * r) * hi) by (nonlinear_arith);
        assert(le_value(s) == s[0] as nat + 256 * le_value(t));
        assert(256 * (le_value(t.subrange(0, k - 1)) + r * hi) == 256 * le_value(
            t.subrange(0, k - 1),
        ) + 256 * (r * hi)) by (nonlinear_arith);
        assert(le_value(t) == le_value(t.subrange(0, k - 1)) + r * hi);
        assert(le_value(low.drop_first()) == le_value(t.subrange(0, k - 1)));
        let l = le_value(t.subrange(0, k - 1));
        assert(s[0] as nat + 256 * (l + r * hi) == (s[0] as nat + 256 * l) + (256 * r) * hi)
            by (nonlinear_arith);
    }
}

/// Two byte strings of one length have one value only if they are equal.
pub proof fn lemma_le_value_injective(a: Seq<u8>, b: Seq<u8>)
    requires
        a.len() == b.len(),
        le_value(a) == le_value(b),
    ensures
        a == b,
    decreases a.len(),
{
    if a.len() > 0 {
        let (x, y) = (le_value(a.drop_first()), le_value(b.drop_first()));
        assert(a[0] as nat + 256 * x == b[0] as nat + 256 * y);
        assert(a[0] == b[0] && x == y) by (nonlinear_arith)
            requires
                a[0] as nat + 256 * x == b[0] as nat + 256 * y,
                a[0] < 256,
                b[0] < 256,
        ;
        lemma_le_value_injective(a.drop_first(), b.drop_first());
        assert(a =~= b) by {
            assert forall|i: int| 0 <= i < a.len() implies a[i] == b[i] by {
                if i > 0 {
                    assert(a[i] == a.drop_first()[i - 1]);
                    assert(b[i] == b.drop_first()[i - 1]);
                }
            }
        }
    }
}

/// Or-ing eight bytes into their places is the same as adding them.
proof fn lemma_pack8(b0: u64, b1: u64, b2: u64, b3: u64, b4: u64, b5: u64, b6: u64, b7: u64)
    by (bit_vector)
    requires
        b0 < 256,
        b1 < 256,
        b2 < 256,
        b3 < 256,
        b4 < 256,
        b5 < 256,
        b6 < 256,
        b7 < 256,
    ensures
        b0 | (b1 << 8u64) | (b2 << 16u64) | (b3 << 24u64) | (b4 << 32u64) | (b5 << 40u64) | (b6
            << 48u64) | (b7 << 56u64) == b0 + 256 * (b1 + 256 * (b2 + 256 * (b3 + 256 * (b4 + 256
            * (b5 + 256 * (b6 + 256 * b7)))))),
{
}

/// The value of a short byte string, unfolded byte by byte.
pub proof fn lemma_le_value_unfold(s: Seq<u8>)
    requires
        s.len() <= 8,
    ensures
        s.len() == 0 ==> le_value(s) == 0,
        s.len() == 1 ==> le_value(s) == s[0],
        s.len() == 2 ==> le_value(s) == s[0] + 256 * s[1],
        s.len() == 3 ==> le_value(s) == s[0] + 256 * (s[1] + 256 * s[2]),
        s.len() == 4 ==> le_value(s) == s[0] + 256 * (s[1] + 256 * (s[2] + 256 * s[3])),
        s.len() == 5 ==> le_value(s) == s[0] + 256 * (s[1] + 256 * (s[2] + 256 * (s[3] + 256
            * s[4]))),
        s.len() == 6 ==> le_value(s) == s[0] + 256 * (s[1] + 256 * (s[2] + 256 * (s[3] + 256 * (
        s[4] + 256 * s[5])))),
        s.len() == 7 ==> le_value(s) == s[0] + 256 * (s[1] + 256 * (s[2] + 256 * (s[3] + 256 * (
        s[4] + 256 * (s[5] + 256 * s[6]))))),
        s.len() == 8 ==> le_value(s) == s[0] + 256 * (s[1] + 256 * (s[2] + 256 * (s[3] + 256 * (
        s[4] + 256 * (s[5] + 256 * (s[6] + 256 * s[7])))))),
    decreases s.len(),
{
    if s.len() > 0 {
        let t = s.drop_first();
        lemma_le_value_unfold(t);
        assert forall|i: int| 0 <= i < t.len() implies t[i] == s[i + 1] by {}
    }
}

/// Reads the little-endian word at `off` (as `u64::from_le_bytes` on
/// those 8 bytes).
pub fn read_word(s: &[u8], off: usize) -> (w: u64)
    requires
        off + 8 <= s@.len(),
    ensures
        w == word_at(s@, off as int),
        w as nat == le_value(s@.subrange(off as int, off + 8)),
{
    let (b0, b1, b2, b3) = (s[off] as u64, s[off + 1] as u64, s[off + 2] as u64, s[off + 3] as u64);
    let (b4, b5, b6, b7) = (
        s[off + 4] as u64,
        s[off + 5] as u64,
        s[off + 6] as u64,
        s[off + 7] as u64,
    );
    let w = b0 | (b1 << 8u64) | (b2 << 16u64) | (b3 << 24u64) | (b4 << 32u64) | (b5 << 40u64) | (b6
        << 48u64) | (b7 << 56u64);
    proof {
        lemma_pack8(b0, b1, b2, b3, b4, b5, b6, b7);
        let x = s@.subrange(off as int, off + 8);
        lemma_le_value_unfold(x);
    }
    w
}

/// `x.rotate_right(r)`, written out with shifts.
pub fn rotate_right(x: u64, r: u32) -> (y: u64)
    ensures
        y == rotr(x, r),
{
    let s = r % 64;
    if s == 0 {
        x
    } else {
        (x >> s) | (x << (64 - s))
    }
}

} // verus!
