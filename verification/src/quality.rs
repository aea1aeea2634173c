//! Integer measurements of how well the lane hasher spreads its input:
//! collisions among the prefixes of byte patterns and among counters, how
//! evenly triples of counters fill buckets, and how often flipping one input
//! bit flips each output bit.
use vstd::prelude::*;
use vstd::arithmetic::div_mod::lemma_add_mod_noop;

use crate::count::{index_sum, lemma_index_sum_le, lemma_index_sum_plus};
use crate::fmt::{ilog2, ilog10, log2_floor, log10_floor};
use crate::hash::{
    Hasher, PHI, absorb, finalize, step, lemma_finalize_injective, lemma_step_injective,
};
use crate::order::{
    Ranked, Grouped, Run, sort_by_rank, sorted_by_rank, runs_of, maximal_runs, is_run_split,
    distinct_groups, grouped_ascending, groups_of, lemma_groups_of_index, lemma_runs_count_groups,
    lemma_distinct_groups_perm,
};

verus! {

/// How the bytes of a test pattern follow from its first byte.
#[derive(Clone, Copy, PartialEq, Eq, Structural, Debug)]
pub enum Pattern {
    /// Every byte is the first byte.
    Repeat,
    /// Byte `i` is the first byte plus `i`, wrapping around at 256.
    Count,
    /// Byte `i` is the first byte plus `i / 8`, wrapping around at 256.
    CountEighths,
}

/// Byte `i` of pattern `p` started at `first`.
pub open spec fn pattern_byte(p: Pattern, first: u8, i: nat) -> u8 {
    match p {
        Pattern::Repeat => first,
        Pattern::Count => ((first + i) % 256) as u8,
        Pattern::CountEighths => ((first + i / 8) % 256) as u8,
    }
}

/// The first `n` bytes of pattern `p` started at `first`.
pub open spec fn pattern_seq(p: Pattern, first: u8, n: nat) -> Seq<u8> {
    Seq::new(n, |i: int| pattern_byte(p, first, i as nat))
}

/// The first `n` bytes of pattern `p` started at `first`.
pub fn pattern_input(p: Pattern, first: u8, n: usize) -> (v: Vec<u8>)
    ensures
        v@ == pattern_seq(p, first, n as nat),
{
    let mut v: Vec<u8> = Vec::new();
    let mut i: usize = 0;
    while i < n
        invariant
            i <= n,
            v@.len() == i,
            forall|k: int| 0 <= k < i ==> #[trigger] v@[k] == pattern_byte(p, first, k as nat),
        decreases n - i,
    {
        let b: u8 = match p {
            Pattern::Repeat => first,
            Pattern::Count => {
                proof {
                    lemma_add_mod_noop(first as int, i as int, 256);
                }
                ((first as usize + i % 256) % 256) as u8
            },
            Pattern::CountEighths => {
                proof {
                    lemma_add_mod_noop(first as int, (i / 8) as int, 256);
                }
                ((first as usize + (i / 8) % 256) % 256) as u8
            },
        };
        v.push(b);
        i += 1;
    }
    proof {
        assert(v@ =~= pattern_seq(p, first, n as nat));
    }
    v
}

/// The lane hasher's fingerprint of a byte string, from a fresh hasher.
pub open spec fn fingerprint(s: Seq<u8>) -> u64 {
    finalize(absorb(PHI, s))
}

/// The fingerprint of a byte string, as a fresh hasher gives it.
pub fn hash_bytes(input: &[u8]) -> (h: u64)
    ensures
        h == fingerprint(input@),
{
    let mut hasher = Hasher::default();
    hasher.write(input);
    hasher.finish()
}

/// A hashed prefix of a byte pattern: its fingerprint, the pattern's first
/// byte and the prefix length.
#[derive(Clone, Copy, PartialEq, Eq, Structural, Debug)]
pub struct Probe {
    pub hash: u64,
    pub first: u8,
    pub len: u32,
}

impl Ranked for Probe {
    /// Probes sort by fingerprint, then first byte, then length.
    open spec fn rank(&self) -> int {
        self.hash as int * 0x100_0000_0000 + self.first as int * 0x1_0000_0000 + self.len as int
    }

    fn rank_le(&self, other: &Self) -> (r: bool) {
        proof {
            lemma_probe_rank(*self, *other);
        }
        self.hash < other.hash || (self.hash == other.hash && (self.first < other.first || (
        self.first == other.first && self.len <= other.len)))
    }
}

impl Grouped for Probe {
    /// Probes group by fingerprint.
    open spec fn group(&self) -> int {
        self.hash as int
    }

    fn same_group(&self, other: &Self) -> (r: bool) {
        self.hash == other.hash
    }
}

/// The rank of a probe orders by fingerprint, then first byte, then length.
proof fn lemma_probe_rank(a: Probe, b: Probe)
    ensures
        a.rank() <= b.rank() <==> (a.hash < b.hash || (a.hash == b.hash && (a.first < b.first || (
        a.first == b.first && a.len <= b.len)))),
{
    let (x, y, z) = (a.hash as int, a.first as int, a.len as int);
    let (u, v, w) = (b.hash as int, b.first as int, b.len as int);
    let m = 0x1_0000_0000int;
    let big = 0x100_0000_0000int;
    assert(y * m + z < big && v * m + w < big && y * m + z >= 0 && v * m + w >= 0) by (
    nonlinear_arith)
        requires
            0 <= y < 256,
            0 <= v < 256,
            0 <= z < m,
            0 <= w < m,
            m == 0x1_0000_0000int,
            big == 0x100_0000_0000int,
    ;
    assert(y * m + z <= v * m + w <==> (y < v || (y == v && z <= w))) by (nonlinear_arith)
        requires
            0 <= z < m,
            0 <= w < m,
            0 <= y,
            0 <= v,
    ;
    assert(x * big + (y * m + z) <= u * big + (v * m + w) <==> (x < u || (x == u && y * m + z
        <= v * m + w))) by (nonlinear_arith)
        requires
            0 <= y * m + z < big,
            0 <= v * m + w < big,
            0 <= x,
            0 <= u,
    ;
}

/// Probes in rank order have ascending fingerprints.
proof fn lemma_probes_ascending(s: Seq<Probe>)
    requires
        sorted_by_rank(s),
    ensures
        grouped_ascending(s),
{
    assert forall|i: int, j: int| 0 <= i <= j < s.len() implies s[i].group() <= s[j].group() by {
        lemma_probe_rank(s[i], s[j]);
    }
}

/// The probes of the first 256 prefixes of pattern `p` started at `first`:
/// probe `k` is the prefix of `k + 1` bytes.
pub fn pattern_probes(p: Pattern, first: u8) -> (probes: Vec<Probe>)
    ensures
        probes@.len() == 256,
        forall|k: int|
            0 <= k < 256 ==> #[trigger] probes@[k] == (Probe {
                hash: fingerprint(pattern_seq(p, first, (k + 1) as nat)),
                first,
                len: (k + 1) as u32,
            }),
{
    let input = pattern_input(p, first, 256);
    let mut probes: Vec<Probe> = Vec::new();
    let mut n: usize = 1;
    while n <= 256
        invariant
            1 <= n <= 257,
            input@ == pattern_seq(p, first, 256),
            probes@.len() == n - 1,
            forall|k: int|
                0 <= k < n - 1 ==> #[trigger] probes@[k] == (Probe {
                    hash: fingerprint(pattern_seq(p, first, (k + 1) as nat)),
                    first,
                    len: (k + 1) as u32,
                }),
        decreases 257 - n,
    {
        let prefix = vstd::slice::slice_subrange(input.as_slice(), 0, n);
        proof {
            assert(prefix@ =~= pattern_seq(p, first, n as nat));
        }
        let h = hash_bytes(prefix);
        probes.push(Probe { hash: h, first, len: n as u32 });
        n += 1;
    }
    probes
}

/// The number of distinct fingerprints among the probes.
pub fn distinct_hashes(probes: Vec<Probe>) -> (n: usize)
    ensures
        n == distinct_groups(probes@),
{
    let (_, runs) = collision_groups(probes);
    runs.len()
}

/// Sorts the probes and splits them into runs of one fingerprint: runs of
/// two or more probes are collisions, and there is one run per distinct
/// fingerprint.
pub fn collision_groups(probes: Vec<Probe>) -> (r: (Vec<Probe>, Vec<Run>))
    ensures
        sorted_by_rank(r.0@),
        r.0@.to_multiset() == probes@.to_multiset(),
        r.0@.len() == probes@.len(),
        r.1@ == maximal_runs(r.0@),
        is_run_split(r.0@, r.1@),
        r.1@.len() == distinct_groups(probes@),
{
    let ghost given = probes@;
    let sorted = sort_by_rank(probes);
    let runs = runs_of(&sorted);
    proof {
        lemma_probes_ascending(sorted@);
        lemma_runs_count_groups(sorted@);
        lemma_distinct_groups_perm(sorted@, given);
    }
    (sorted, runs)
}

/// The lane hasher's fingerprint of one 64-bit word, from a fresh hasher.
pub open spec fn word_fingerprint(x: u64) -> u64 {
    finalize(step(PHI, x, 8))
}

/// The fingerprint of one 64-bit word, as a fresh hasher gives it.
pub fn hash_word(x: u64) -> (h: u64)
    ensures
        h == word_fingerprint(x),
{
    let mut hasher = Hasher::default();
    hasher.write_u64(x);
    hasher.finish()
}

/// A counter value and its fingerprint.
#[derive(Clone, Copy, PartialEq, Eq, Structural, Debug)]
pub struct Sample {
    pub index: u64,
    pub hash: u64,
}

impl Ranked for Sample {
    /// Samples sort by fingerprint, then by counter value.
    open spec fn rank(&self) -> int {
        self.hash as int * 0x1_0000_0000_0000_0000 + self.index as int
    }

    fn rank_le(&self, other: &Self) -> (r: bool) {
        proof {
            lemma_sample_rank(*self, *other);
        }
        self.hash < other.hash || (self.hash == other.hash && self.index <= other.index)
    }
}

impl Grouped for Sample {
    /// Samples group by fingerprint.
    open spec fn group(&self) -> int {
        self.hash as int
    }

    fn same_group(&self, other: &Self) -> (r: bool) {
        self.hash == other.hash
    }
}

/// The rank of a sample orders by fingerprint, then counter value.
proof fn lemma_sample_rank(a: Sample, b: Sample)
    ensures
        a.rank() <= b.rank() <==> (a.hash < b.hash || (a.hash == b.hash && a.index <= b.index)),
{
    let m = 0x1_0000_0000_0000_0000int;
    let (x, y, u, v) = (a.hash as int, a.index as int, b.hash as int, b.index as int);
    assert(x * m + y <= u * m + v <==> (x < u || (x == u && y <= v))) by (nonlinear_arith)
        requires
            0 <= y < m,
            0 <= v < m,
            0 <= x,
            0 <= u,
    ;
}

/// The samples of the counters `0..n`, in counter order.
pub open spec fn counter_seq(n: nat) -> Seq<Sample> {
    Seq::new(n, |i: int| Sample { index: i as u64, hash: word_fingerprint(i as u64) })
}

/// The counters `0..n` with their fingerprints, sorted by fingerprint and
/// then by counter.
pub fn counter_samples(n: u64) -> (samples: Vec<Sample>)
    ensures
        sorted_by_rank(samples@),
        samples@.to_multiset() == counter_seq(n as nat).to_multiset(),
        samples@.len() == n,
{
    let mut v: Vec<Sample> = Vec::new();
    let mut i: u64 = 0;
    while i < n
        invariant
            i <= n,
            v@ == counter_seq(i as nat),
        decreases n - i,
    {
        let h = hash_word(i);
        v.push(Sample { index: i, hash: h });
        proof {
            assert(v@ =~= counter_seq((i + 1) as nat));
        }
        i += 1;
    }
    sort_by_rank(v)
}

/// Law: two different words never share a fingerprint, so the counters
/// `0..n` have `n` distinct fingerprints.
pub proof fn lemma_counters_distinct(n: nat)
    requires
        n <= 0x1_0000_0000_0000_0000,
    ensures
        distinct_groups(counter_seq(n)) == n,
{
    let s = counter_seq(n);
    let g = groups_of(s);
    lemma_groups_of_index(s);
    assert forall|i: int, j: int| 0 <= i < g.len() && 0 <= j < g.len() && i != j implies g[i]
        != g[j] by {
        assert(g[i] == word_fingerprint(i as u64) && g[j] == word_fingerprint(j as u64));
        assert(i as u64 != j as u64);
        if word_fingerprint(i as u64) == word_fingerprint(j as u64) {
            lemma_finalize_injective(step(PHI, i as u64, 8), step(PHI, j as u64, 8));
            lemma_step_injective(PHI, PHI, i as u64, j as u64, 8);
        }
    }
    g.unique_seq_to_set();
}

/// The number of distinct fingerprints among samples sorted by rank.
pub fn distinct_sample_hashes(samples: &Vec<Sample>) -> (n: usize)
    requires
        sorted_by_rank(samples@),
    ensures
        n == distinct_groups(samples@),
{
    let runs = runs_of(samples);
    proof {
        assert forall|i: int, j: int| 0 <= i <= j < samples@.len() implies samples@[i].group()
            <= samples@[j].group() by {
            lemma_sample_rank(samples@[i], samples@[j]);
        }
        lemma_runs_count_groups(samples@);
    }
    runs.len()
}

/// The fingerprint of a triple of pointer-sized integers, each absorbed as a
/// pointer-sized word, from a fresh hasher.
pub open spec fn triple_fingerprint(x: usize, y: usize, z: usize) -> u64 {
    let w = (usize::BITS / 8) as u32;
    finalize(step(step(step(PHI, x as u64, w), y as u64, w), z as u64, w))
}

/// The fingerprint of a triple, as a fresh hasher gives it.
pub fn hash_triple(x: usize, y: usize, z: usize) -> (h: u64)
    ensures
        h == triple_fingerprint(x, y, z),
{
    let mut hasher = Hasher::default();
    hasher.write_usize(x);
    hasher.write_usize(y);
    hasher.write_usize(z);
    hasher.finish()
}

/// The bucket, of `nb`, that cell `k` of the cube of side `side` falls in.
/// Cells are numbered with `x` running fastest, then `y`, then `z`.
pub open spec fn cell_bucket(side: usize, nb: usize, k: nat) -> nat {
    let d = side as nat;
    let x = k % d;
    let y = (k / d) % d;
    let z = k / (d * d);
    (triple_fingerprint(x as usize, y as usize, z as usize) % (nb as u64)) as nat
}

/// How many of the first `t` cells fall into bucket `b`.
pub open spec fn bucket_hits(side: usize, nb: usize, b: nat, t: nat) -> nat
    decreases t,
{
    if t == 0 {
        0
    } else {
        bucket_hits(side, nb, b, (t - 1) as nat) + if cell_bucket(side, nb, (t - 1) as nat) == b {
            1nat
        } else {
            0nat
        }
    }
}

proof fn lemma_bucket_hits_bound(side: usize, nb: usize, b: nat, t: nat)
    ensures
        bucket_hits(side, nb, b, t) <= t,
    decreases t,
{
    if t > 0 {
        lemma_bucket_hits_bound(side, nb, b, (t - 1) as nat);
    }
}

/// How many cells of the cube of side `side` fall into each of `nb`
/// buckets, a cell's bucket being its fingerprint modulo `nb`.
pub fn bucket_counts(side: usize, nb: usize) -> (counts: Vec<u32>)
    requires
        nb >= 1,
        side * side * side <= u32::MAX,
    ensures
        counts@.len() == nb,
        forall|b: int|
            0 <= b < nb ==> #[trigger] counts@[b] == bucket_hits(
                side,
                nb,
                b as nat,
                side as nat * side as nat * side as nat,
            ),
{
    assert(side * side <= side * side * side) by (nonlinear_arith)
        requires
            side >= 0,
    ;
    let sq = side * side;
    let total = sq * side;
    let mut counts: Vec<u32> = Vec::new();
    while counts.len() < nb
        invariant
            counts@.len() <= nb,
            forall|b: int| 0 <= b < counts@.len() ==> #[trigger] counts@[b] == 0,
        decreases nb - counts@.len(),
    {
        counts.push(0);
    }
    let mut k: usize = 0;
    while k < total
        invariant
            k <= total,
            total == side * side * side,
            sq == side * side,
            total <= u32::MAX,
            nb >= 1,
            counts@.len() == nb,
            forall|b: int|
                0 <= b < nb ==> #[trigger] counts@[b] == bucket_hits(side, nb, b as nat, k as nat),
        decreases total - k,
    {
        assert(side > 0) by (nonlinear_arith)
            requires
                k < total,
                total == side * side * side,
        ;
        let x = k % side;
        let y = (k / side) % side;
        let z = k / sq;
        let h = hash_triple(x, y, z);
        let b = (h % (nb as u64)) as usize;
        proof {
            assert(b == cell_bucket(side, nb, k as nat));
            lemma_bucket_hits_bound(side, nb, b as nat, k as nat);
        }
        let c = counts[b];
        counts.set(b, c + 1);
        k += 1;
    }
    counts
}

/// The counts of all buckets after the first `t` cells, as a function of
/// the bucket.
pub open spec fn hits_at(side: usize, nb: usize, t: nat) -> spec_fn(int) -> nat {
    |b: int| bucket_hits(side, nb, b as nat, t)
}

/// 1 at `c`, 0 elsewhere.
pub open spec fn indicator(c: int) -> spec_fn(int) -> nat {
    |b: int|
        if b == c {
            1nat
        } else {
            0nat
        }
}

proof fn lemma_indicator_sum(k: int, c: int)
    requires
        0 <= c,
        k >= 0,
    ensures
        index_sum(k, indicator(c)) == if k > c {
            1nat
        } else {
            0nat
        },
    decreases k,
{
    if k > 0 {
        lemma_indicator_sum(k - 1, c);
    }
}

/// Law: each cell lands in exactly one bucket, so the counts of all buckets
/// add up to the number of cells.
pub proof fn lemma_bucket_total(side: usize, nb: usize, t: nat)
    requires
        nb >= 1,
    ensures
        index_sum(nb as int, hits_at(side, nb, t)) == t,
    decreases t,
{
    if t == 0 {
        assert(index_sum(nb as int, hits_at(side, nb, 0)) == 0) by {
            lemma_indicator_sum(nb as int, nb as int);
            assert forall|i: int| 0 <= i < nb implies #[trigger] hits_at(side, nb, 0)(i) <= indicator(
                nb as int,
            )(i) by {}
            lemma_index_sum_le(nb as int, hits_at(side, nb, 0), indicator(nb as int));
        }
    } else {
        let p = (t - 1) as nat;
        lemma_bucket_total(side, nb, p);
        let c = cell_bucket(side, nb, p);
        lemma_indicator_sum(nb as int, c as int);
        assert forall|b: int| 0 <= b < nb implies #[trigger] hits_at(side, nb, t)(b) == hits_at(
            side,
            nb,
            p,
        )(b) + indicator(c as int)(b) by {}
        lemma_index_sum_plus(nb as int, hits_at(side, nb, p), indicator(c as int), hits_at(side, nb, t));
    }
}

/// The number of nonzero entries of `s`.
pub open spec fn nonzero_count(s: Seq<u32>) -> nat
    decreases s.len(),
{
    if s.len() == 0 {
        0
    } else {
        nonzero_count(s.drop_last()) + if s.last() != 0 {
            1nat
        } else {
            0nat
        }
    }
}

/// The number of buckets that received at least one cell.
pub fn used_buckets(counts: &Vec<u32>) -> (n: usize)
    ensures
        n == nonzero_count(counts@),
{
    let mut n: usize = 0;
    let mut i: usize = 0;
    while i < counts.len()
        invariant
            i <= counts@.len(),
            n == nonzero_count(counts@.take(i as int)),
            n <= i,
        decreases counts@.len() - i,
    {
        proof {
            assert(counts@.take(i + 1).drop_last() =~= counts@.take(i as int));
        }
        if counts[i] != 0 {
            n += 1;
        }
        i += 1;
    }
    proof {
        assert(counts@.take(counts@.len() as int) =~= counts@);
    }
    n
}

/// A bucket's number and how many cells it received.
#[derive(Clone, Copy, PartialEq, Eq, Structural, Debug)]
pub struct Bucket {
    pub index: usize,
    pub count: u32,
}

impl Ranked for Bucket {
    /// Buckets sort by count, then by number.
    open spec fn rank(&self) -> int {
        self.count as int * 0x1_0000_0000_0000_0000 + self.index as int
    }

    fn rank_le(&self, other: &Self) -> (r: bool) {
        proof {
            let m = 0x1_0000_0000_0000_0000int;
            let (x, y, u, v) = (
                self.count as int,
                self.index as int,
                other.count as int,
                other.index as int,
            );
            assert(x * m + y <= u * m + v <==> (x < u || (x == u && y <= v))) by (nonlinear_arith)
                requires
                    0 <= y < m,
                    0 <= v < m,
                    0 <= x,
                    0 <= u,
            ;
        }
        self.count < other.count || (self.count == other.count && self.index <= other.index)
    }
}

/// The buckets with their counts, in bucket order.
pub open spec fn bucket_seq(counts: Seq<u32>) -> Seq<Bucket> {
    Seq::new(counts.len(), |i: int| Bucket { index: i as usize, count: counts[i] })
}

/// The buckets sorted by count, then by number.
pub fn buckets_by_count(counts: &Vec<u32>) -> (buckets: Vec<Bucket>)
    ensures
        sorted_by_rank(buckets@),
        buckets@.to_multiset() == bucket_seq(counts@).to_multiset(),
        buckets@.len() == counts@.len(),
{
    let mut v: Vec<Bucket> = Vec::new();
    let mut i: usize = 0;
    while i < counts.len()
        invariant
            i <= counts@.len(),
            v@ == bucket_seq(counts@.take(i as int)),
        decreases counts@.len() - i,
    {
        v.push(Bucket { index: i, count: counts[i] });
        proof {
            assert(v@ =~= bucket_seq(counts@.take(i + 1)));
        }
        i += 1;
    }
    proof {
        assert(counts@.take(counts@.len() as int) =~= counts@);
    }
    sort_by_rank(v)
}

/// The multiplier of the generator that draws the avalanche inputs.
pub const LCG_MUL: u64 = 0x5851f42d4c957f2d;

/// The generator's state after `k` draws: it starts at 1, and each draw
/// multiplies by `LCG_MUL` and adds 1, modulo 2^64.
pub open spec fn lcg(k: nat) -> u64
    decreases k,
{
    if k == 0 {
        1
    } else {
        vstd::wrapping::u64_specs::wrapping_add(
            vstd::wrapping::u64_specs::wrapping_mul(lcg((k - 1) as nat), LCG_MUL),
            1,
        )
    }
}

/// The output bits that flip when input bit `i` of avalanche input `k` (the
/// generator's draw `k + 1`) flips.
pub open spec fn flip_diff(k: nat, i: nat) -> u64 {
    let x = lcg(k + 1);
    word_fingerprint(x) ^ word_fingerprint(x ^ (1u64 << (i as u64)))
}

/// Bit `o` of `x`, as 0 or 1.
pub open spec fn bit(x: u64, o: nat) -> u64 {
    (x >> (o as u64)) & 1u64
}

/// Over the first `t` avalanche inputs, how often flipping input bit `i`
/// flips output bit `o`.
pub open spec fn flip_count(t: nat, i: nat, o: nat) -> nat
    decreases t,
{
    if t == 0 {
        0
    } else {
        flip_count((t - 1) as nat, i, o) + bit(flip_diff((t - 1) as nat, i), o) as nat
    }
}

proof fn lemma_bit_le_one(x: u64, o: u64)
    by (bit_vector)
    ensures
        (x >> o) & 1u64 <= 1u64,
{
}

proof fn lemma_flip_count_bound(t: nat, i: nat, o: nat)
    ensures
        flip_count(t, i, o) <= t,
    decreases t,
{
    if t > 0 {
        lemma_flip_count_bound((t - 1) as nat, i, o);
        lemma_bit_le_one(flip_diff((t - 1) as nat, i), o as u64);
    }
}

/// The avalanche matrix over the first `n` inputs of the generator: entry
/// `64 * i + o` counts the inputs for which flipping input bit `i` flips
/// output bit `o`.
pub fn avalanche(n: usize) -> (m: Vec<u32>)
    requires
        n <= u32::MAX,
    ensures
        m@.len() == 4096,
        forall|j: int|
            0 <= j < 4096 ==> #[trigger] m@[j] == flip_count(
                n as nat,
                (j / 64) as nat,
                (j % 64) as nat,
            ),
{
    let mut m: Vec<u32> = Vec::new();
    while m.len() < 4096
        invariant
            m@.len() <= 4096,
            forall|j: int| 0 <= j < m@.len() ==> #[trigger] m@[j] == 0,
        decreases 4096 - m@.len(),
    {
        m.push(0);
    }
    let mut rng: u64 = 1;
    let mut k: usize = 0;
    while k < n
        invariant
            k <= n <= u32::MAX,
            rng == lcg(k as nat),
            m@.len() == 4096,
            forall|j: int|
                0 <= j < 4096 ==> #[trigger] m@[j] == flip_count(
                    k as nat,
                    (j / 64) as nat,
                    (j % 64) as nat,
                ),
        decreases n - k,
    {
        rng = rng.wrapping_mul(LCG_MUL).wrapping_add(1);
        let input = rng;
        let base = hash_word(input);
        let mut i: usize = 0;
        while i < 64
            invariant
                k < n <= u32::MAX,
                i <= 64,
                input == lcg((k + 1) as nat),
                base == word_fingerprint(input),
                m@.len() == 4096,
                forall|j: int|
                    0 <= j < 4096 ==> #[trigger] m@[j] == if j < 64 * i {
                        flip_count((k + 1) as nat, (j / 64) as nat, (j % 64) as nat)
                    } else {
                        flip_count(k as nat, (j / 64) as nat, (j % 64) as nat)
                    },
            decreases 64 - i,
        {
            let diff = base ^ hash_word(input ^ (1u64 << (i as u64)));
            let mut o: usize = 0;
            while o < 64
                invariant
                    k < n <= u32::MAX,
                    i < 64,
                    o <= 64,
                    diff == flip_diff(k as nat, i as nat),
                    m@.len() == 4096,
                    forall|j: int|
                        0 <= j < 4096 ==> #[trigger] m@[j] == if j < 64 * i + o {
                            flip_count((k + 1) as nat, (j / 64) as nat, (j % 64) as nat)
                        } else {
                            flip_count(k as nat, (j / 64) as nat, (j % 64) as nat)
                        },
                decreases 64 - o,
            {
                let idx = 64 * i + o;
                let b = (diff >> (o as u64)) & 1u64;
                proof {
                    lemma_bit_le_one(diff, o as u64);
                    lemma_flip_count_bound(k as nat, i as nat, o as nat);
                    assert(idx / 64 == i && idx % 64 == o);
                }
                let c = m[idx];
                m.set(idx, c + b as u32);
                o += 1;
            }
            i += 1;
        }
        k += 1;
    }
    m
}

/// The largest of the counts `s`, and 1 when none is larger.
pub open spec fn largest_count(s: Seq<u32>) -> nat
    decreases s.len(),
{
    if s.len() == 0 {
        1
    } else {
        let m = largest_count(s.drop_last());
        if s.last() as nat > m {
            s.last() as nat
        } else {
            m
        }
    }
}

/// The number of bits of `x` (0 for 0).
pub open spec fn bit_length(x: u32) -> nat {
    if x == 0 {
        0
    } else {
        log2_floor(x as nat) + 1
    }
}

/// How the bar of a histogram bin of `count` is drawn when the largest count
/// is `max`: a linear bar of `100 * count / max` cells and a logarithmic bar
/// of the count's bits, as the part both cover, the part only the linear
/// bar covers and the part only the logarithmic bar covers.
pub open spec fn histogram_bar(count: u32, max: nat) -> (usize, usize, usize) {
    let lin = (100 * count as nat) / max;
    let log = bit_length(count);
    let both = if lin < log {
        lin
    } else {
        log
    };
    (both as usize, (lin - both) as usize, (log - both) as usize)
}

proof fn lemma_largest_count(s: Seq<u32>)
    ensures
        largest_count(s) >= 1,
        largest_count(s) <= u32::MAX,
        forall|i: int| 0 <= i < s.len() ==> #[trigger] s[i] as nat <= largest_count(s),
    decreases s.len(),
{
    if s.len() > 0 {
        let p = s.drop_last();
        lemma_largest_count(p);
        assert forall|i: int| 0 <= i < s.len() implies #[trigger] s[i] as nat <= largest_count(s) by {
            if i < p.len() {
                assert(s[i] == p[i]);
            }
        }
    }
}

/// The bars of a histogram's bins, with the width of its count column (two
/// more than the digits of the largest count below the first).
pub fn histogram_bars(bins: &Vec<u32>) -> (r: (usize, Vec<(usize, usize, usize)>))
    requires
        forall|i: int| 0 <= i < bins@.len() ==> 100 * #[trigger] bins@[i] <= u32::MAX,
    ensures
        r.0 == 2 + log10_floor(largest_count(bins@)),
        r.1@.len() == bins@.len(),
        forall|i: int|
            0 <= i < bins@.len() ==> #[trigger] r.1@[i] == histogram_bar(
                bins@[i],
                largest_count(bins@),
            ),
{
    let mut max: u32 = 1;
    let mut i: usize = 0;
    while i < bins.len()
        invariant
            i <= bins@.len(),
            max == largest_count(bins@.take(i as int)),
        decreases bins@.len() - i,
    {
        proof {
            assert(bins@.take(i + 1).drop_last() =~= bins@.take(i as int));
        }
        if bins[i] > max {
            max = bins[i];
        }
        i += 1;
    }
    proof {
        assert(bins@.take(bins@.len() as int) =~= bins@);
        lemma_largest_count(bins@);
    }
    let width = 2 + ilog10(max as u64) as usize;
    let mut bars: Vec<(usize, usize, usize)> = Vec::new();
    let mut j: usize = 0;
    while j < bins.len()
        invariant
            j <= bins@.len(),
            max == largest_count(bins@),
            max >= 1,
            forall|k: int| 0 <= k < bins@.len() ==> #[trigger] bins@[k] as nat <= max,
            forall|k: int| 0 <= k < bins@.len() ==> 100 * #[trigger] bins@[k] <= u32::MAX,
            bars@.len() == j,
            forall|k: int|
                0 <= k < j ==> #[trigger] bars@[k] == histogram_bar(bins@[k], max as nat),
        decreases bins@.len() - j,
    {
        let count = bins[j];
        assert((100 * count as nat) / (max as nat) <= 100) by (nonlinear_arith)
            requires
                count <= max,
                max >= 1,
        ;
        let lin = (100 * count / max) as usize;
        let log: usize = if count == 0 {
            0
        } else {
            ilog2(count as u64) as usize + 1
        };
        let both = if lin < log {
            lin
        } else {
            log
        };
        bars.push((both, lin - both, log - both));
        j += 1;
    }
    (width, bars)
}

} // verus!
