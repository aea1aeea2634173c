//! Units for sizes and times, and the widths of the summary's columns.
use vstd::prelude::*;

verus! {

/// The floor of the base-2 logarithm (0 for 0 and 1).
pub open spec fn log2_floor(x: nat) -> nat
    decreases x,
{
    if x < 2 {
        0
    } else {
        1 + log2_floor(x / 2)
    }
}

/// The floor of the base-10 logarithm (0 below 10).
pub open spec fn log10_floor(x: nat) -> nat
    decreases x,
{
    if x < 10 {
        0
    } else {
        1 + log10_floor(x / 10)
    }
}

/// 1024 to the power `i`.
pub open spec fn pow1024(i: nat) -> nat
    decreases i,
{
    if i == 0 {
        1
    } else {
        1024 * pow1024((i - 1) as nat)
    }
}

/// A number of bytes, shown in binary units.
pub struct Size(pub u64);

/// A number of nanoseconds, shown in decimal units.
pub struct Time(pub u64);

/// The unit a size is shown in: the power of 1024 at or below it
/// (bytes for sizes below 1 KiB).
pub open spec fn size_unit(bytes: u64) -> nat {
    log2_floor(if bytes == 0 {
        1
    } else {
        bytes as nat
    }) / 10
}

/// The name of size unit `i`.
pub open spec fn size_unit_name(i: nat) -> Seq<char> {
    if i == 0 {
        ""@
    } else if i == 1 {
        "Ki"@
    } else if i == 2 {
        "Mi"@
    } else if i == 3 {
        "Gi"@
    } else if i == 4 {
        "Ti"@
    } else if i == 5 {
        "Pi"@
    } else {
        "Ei"@
    }
}

/// The unit a time is shown in: nanoseconds, micro-, milli- or whole
/// seconds, by the power of 1000 at or below it (capped at seconds).
pub open spec fn time_unit(nanos: u64) -> nat {
    let d = log10_floor(if nanos == 0 {
        1
    } else {
        nanos as nat
    });
    (if d > 9 {
        9
    } else {
        d
    }) / 3
}

/// The nanoseconds in time unit `i`.
pub open spec fn time_divisor(i: nat) -> nat {
    if i == 0 {
        1
    } else if i == 1 {
        1_000
    } else if i == 2 {
        1_000_000
    } else {
        1_000_000_000
    }
}

/// The name of time unit `i`.
pub open spec fn time_unit_name(i: nat) -> Seq<char> {
    if i == 0 {
        "n"@
    } else if i == 1 {
        "\u{b5}"@
    } else if i == 2 {
        "m"@
    } else {
        ""@
    }
}

/// 2 to the power `m`.
pub open spec fn pow2n(m: nat) -> nat
    decreases m,
{
    if m == 0 {
        1
    } else {
        2 * pow2n((m - 1) as nat)
    }
}

proof fn lemma_log2_bound(x: nat, m: nat)
    requires
        x < pow2n(m),
        m >= 1,
    ensures
        log2_floor(x) < m,
    decreases m,
{
    if x >= 2 {
        assert(m >= 2) by {
            if m == 1 {
                reveal_with_fuel(pow2n, 2);
                assert(pow2n(1) == 2);
            }
        }
        lemma_log2_bound(x / 2, (m - 1) as nat);
    }
}

proof fn lemma_log10_bound(x: nat, m: nat)
    requires
        x < pow10n(m),
        m >= 1,
    ensures
        log10_floor(x) < m,
    decreases m,
{
    if x >= 10 {
        assert(m >= 2) by {
            if m == 1 {
                reveal_with_fuel(pow10n, 2);
                assert(pow10n(1) == 10);
            }
        }
        lemma_log10_bound(x / 10, (m - 1) as nat);
    }
}

/// 10 to the power `m`.
pub open spec fn pow10n(m: nat) -> nat
    decreases m,
{
    if m == 0 {
        1
    } else {
        10 * pow10n((m - 1) as nat)
    }
}

/// `x.ilog2()`: the floor of the base-2 logarithm of a positive number.
pub fn ilog2(x: u64) -> (k: u32)
    requires
        x > 0,
    ensures
        k == log2_floor(x as nat),
        k < 64,
{
    proof {
        reveal_with_fuel(pow2n, 65);
        assert(pow2n(64) == 0x1_0000_0000_0000_0000nat);
        lemma_log2_bound(x as nat, 64);
    }
    let mut v = x;
    let mut k: u32 = 0;
    while v >= 2
        invariant
            v >= 1,
            log2_floor(x as nat) == k + log2_floor(v as nat),
            log2_floor(x as nat) < 64,
        decreases v,
    {
        v = v / 2;
        k = k + 1;
    }
    k
}

/// `x.ilog10()`: the floor of the base-10 logarithm of a positive number.
pub fn ilog10(x: u64) -> (k: u32)
    requires
        x > 0,
    ensures
        k == log10_floor(x as nat),
        k < 20,
{
    proof {
        reveal_with_fuel(pow10n, 21);
        assert(pow10n(20) == 100_000_000_000_000_000_000nat);
        lemma_log10_bound(x as nat, 20);
    }
    let mut v = x;
    let mut k: u32 = 0;
    while v >= 10
        invariant
            v >= 1,
            log10_floor(x as nat) == k + log10_floor(v as nat),
            log10_floor(x as nat) < 20,
        decreases v,
    {
        v = v / 10;
        k = k + 1;
    }
    k
}

impl Size {
    /// The unit to show the size in (0: bytes, 1: KiB, ..., 6: EiB).
    pub fn unit_index(&self) -> (i: usize)
        ensures
            i == size_unit(self.0),
            i <= 6,
    {
        let b = if self.0 < 1 {
            1
        } else {
            self.0
        };
        (ilog2(b) / 10) as usize
    }

    /// The name of the unit (`""`, `"Ki"`, ..., `"Ei"`).
    pub fn unit(&self) -> (s: &'static str)
        ensures
            s@ == size_unit_name(size_unit(self.0)),
    {
        match self.unit_index() {
            0 => "",
            1 => "Ki",
            2 => "Mi",
            3 => "Gi",
            4 => "Ti",
            5 => "Pi",
            _ => "Ei",
        }
    }

    /// The bytes in the unit (`1024^i`).
    pub fn divisor(&self) -> (d: u64)
        ensures
            d == pow1024(size_unit(self.0)),
    {
        let i = self.unit_index();
        let mut d: u64 = 1;
        let mut k: usize = 0;
        while k < i
            invariant
                k <= i <= 6,
                d == pow1024(k as nat),
                i == size_unit(self.0),
            decreases i - k,
        {
            proof {
                reveal_with_fuel(pow1024, 7);
                assert(pow1024(k as nat) <= pow1024(5)) by {
                    lemma_pow1024_monotone(k as nat, 5);
                }
            }
            d = d * 1024;
            k += 1;
        }
        d
    }
}

proof fn lemma_pow1024_monotone(a: nat, b: nat)
    requires
        a <= b,
    ensures
        pow1024(a) <= pow1024(b),
    decreases b,
{
    if a < b {
        lemma_pow1024_monotone(a, (b - 1) as nat);
    }
}

impl Time {
    /// The unit to show the time in (0: ns, 1: µs, 2: ms, 3: s).
    pub fn unit_index(&self) -> (i: usize)
        ensures
            i == time_unit(self.0),
            i <= 3,
    {
        let t = if self.0 < 1 {
            1
        } else {
            self.0
        };
        let d = ilog10(t);
        let d = if d > 9 {
            9
        } else {
            d
        };
        (d / 3) as usize
    }

    /// The name of the unit (`"n"`, `"µ"`, `"m"`, `""`).
    pub fn unit(&self) -> (s: &'static str)
        ensures
            s@ == time_unit_name(time_unit(self.0)),
    {
        match self.unit_index() {
            0 => "n",
            1 => "\u{b5}",
            2 => "m",
            _ => "",
        }
    }

    /// The nanoseconds in the unit.
    pub fn divisor(&self) -> (d: u64)
        ensures
            d == time_divisor(time_unit(self.0)),
    {
        match self.unit_index() {
            0 => 1,
            1 => 1_000,
            2 => 1_000_000,
            _ => 1_000_000_000,
        }
    }
}

/// The width of a count column of the summary table: the digits of the
/// count, and never less than 4.
pub fn column_width(n: u64) -> (w: usize)
    ensures
        w == 1 + log10_floor(if n < 1000 {
            1000
        } else {
            n as nat
        }),
        4 <= w <= 20,
{
    let m = if n < 1000 {
        1000
    } else {
        n
    };
    proof {
        let l = log10_floor(m as nat);
        lemma_log10_brackets(m as nat);
        reveal_with_fuel(pow10n, 4);
        if l < 3 {
            lemma_pow10n_monotone(l + 1, 3);
        }
    }
    1 + ilog10(m) as usize
}

/// The floor logarithm brackets its number between powers of two.
proof fn lemma_log2_brackets(x: nat)
    requires
        x >= 1,
    ensures
        pow2n(log2_floor(x)) <= x < 2 * pow2n(log2_floor(x)),
    decreases x,
{
    if x >= 2 {
        lemma_log2_brackets(x / 2);
    }
}

/// The floor logarithm brackets its number between powers of ten.
proof fn lemma_log10_brackets(x: nat)
    requires
        x >= 1,
    ensures
        pow10n(log10_floor(x)) <= x < 10 * pow10n(log10_floor(x)),
    decreases x,
{
    if x >= 10 {
        lemma_log10_brackets(x / 10);
    }
}

proof fn lemma_pow2n_monotone(a: nat, b: nat)
    requires
        a <= b,
    ensures
        pow2n(a) <= pow2n(b),
    decreases b,
{
    if a < b {
        lemma_pow2n_monotone(a, (b - 1) as nat);
    }
}

proof fn lemma_pow10n_monotone(a: nat, b: nat)
    requires
        a <= b,
    ensures
        pow10n(a) <= pow10n(b),
    decreases b,
{
    if a < b {
        lemma_pow10n_monotone(a, (b - 1) as nat);
    }
}

proof fn lemma_pow1024(i: nat)
    ensures
        pow1024(i) == pow2n(10 * i),
    decreases i,
{
    if i > 0 {
        lemma_pow1024((i - 1) as nat);
        reveal_with_fuel(pow2n, 11);
        lemma_pow2n_add((10 * (i - 1)) as nat, 10);
    }
}

proof fn lemma_pow2n_add(a: nat, b: nat)
    ensures
        pow2n(a + b) == pow2n(a) * pow2n(b),
    decreases b,
{
    if b > 0 {
        let c = (b - 1) as nat;
        lemma_pow2n_add(a, c);
        assert(pow2n(a + b) == 2 * pow2n(a + c)) by {
            assert((a + b - 1) as nat == a + c);
        }
        assert(pow2n(b) == 2 * pow2n(c));
        assert(pow2n(a) * (2 * pow2n(c)) == 2 * (pow2n(a) * pow2n(c))) by (nonlinear_arith);
    } else {
        assert(a + b == a);
        assert(pow2n(b) == 1);
        assert(pow2n(a) * 1 == pow2n(a)) by (nonlinear_arith);
    }
}

/// Law: a size of at least one byte is shown as a number of at least one of
/// its unit, and below 1024 of it unless the unit is the largest (EiB).
pub proof fn lemma_size_in_unit(bytes: u64)
    requires
        bytes >= 1,
    ensures
        pow1024(size_unit(bytes)) <= bytes,
        size_unit(bytes) < 6 ==> bytes < 1024 * pow1024(size_unit(bytes)),
{
    let l = log2_floor(bytes as nat);
    let i = l / 10;
    lemma_log2_brackets(bytes as nat);
    lemma_pow1024(i);
    lemma_pow2n_monotone(10 * i, l);
    lemma_pow1024(i + 1);
    lemma_pow2n_monotone(l + 1, 10 * (i + 1));
    reveal_with_fuel(pow1024, 2);
    assert(pow2n(l + 1) == 2 * pow2n(l));
}

/// Law: a time of at least one nanosecond is shown as a number of at least
/// one of its unit, and below 1000 of it unless the unit is whole seconds.
pub proof fn lemma_time_in_unit(nanos: u64)
    requires
        nanos >= 1,
    ensures
        time_divisor(time_unit(nanos)) <= nanos,
        time_unit(nanos) < 3 ==> nanos < 1000 * time_divisor(time_unit(nanos)),
{
    let d = log10_floor(nanos as nat);
    lemma_log10_brackets(nanos as nat);
    reveal_with_fuel(pow10n, 10);
    let i = time_unit(nanos);
    assert(time_divisor(i) == pow10n(3 * i));
    lemma_pow10n_monotone(3 * i, d);
    if i < 3 {
        assert(d < 9);
        lemma_pow10n_monotone(d + 1, 3 * (i + 1));
        assert(pow10n(3 * (i + 1)) == 1000 * pow10n(3 * i));
    }
}

} // verus!
