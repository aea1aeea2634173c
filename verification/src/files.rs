//! The records the duplicate search works on: a file (by its index in the
//! caller's path table) with its signature, the size of the file and the
//! latest hash of its contents.
use vstd::prelude::*;

use crate::order::{Ranked, Grouped, sorted_by_rank};
use crate::slice::{alone, alone_upto, crowded_upto};
use crate::fs::FileHash;
use crate::count::{seq_sum, lemma_seq_sum_remove, lemma_seq_sum_term};

verus! {

/// What is known of a file's contents: its size, the hash of its first
/// 4 KiB, and the latest hash of more of it (its last 4 KiB, then all of
/// it). A hash of 0 is one not yet taken.
#[derive(Clone, Copy, PartialEq, Eq, Structural, Debug)]
pub struct Sig {
    pub size: u64,
    pub prefix: u64,
    pub hash: u64,
}

/// A file: its index in the caller's table of paths, and its signature.
#[derive(Clone, Copy, PartialEq, Eq, Structural, Debug)]
pub struct File {
    pub id: usize,
    pub sig: Sig,
}

/// The signature once a hash of kind `h` gave `value`: a prefix hash sets
/// the prefix hash, a suffix or full hash replaces the later hash; the rest
/// is kept.
pub open spec fn recorded(s: Sig, h: FileHash, value: u64) -> Sig {
    match h {
        FileHash::Prefix(_) => Sig { prefix: value, ..s },
        _ => Sig { hash: value, ..s },
    }
}

/// The latest hash taken of a file: the later hash if one was taken, else
/// the prefix hash (0 if none was).
pub open spec fn latest(s: Sig) -> u64 {
    if s.hash != 0 {
        s.hash
    } else {
        s.prefix
    }
}

impl Sig {
    /// Records the result of a hash of kind `h`.
    pub fn record(self, h: FileHash, value: u64) -> (r: Sig)
        ensures
            r == recorded(self, h, value),
    {
        match h {
            FileHash::Prefix(_) => Sig { size: self.size, prefix: value, hash: self.hash },
            _ => Sig { size: self.size, prefix: self.prefix, hash: value },
        }
    }

    /// The latest hash taken: the later hash if one was taken, else the
    /// prefix hash (0 if none was).
    pub fn latest_hash(self) -> (r: u64)
        ensures
            r == latest(self),
    {
        if self.hash != 0 {
            self.hash
        } else {
            self.prefix
        }
    }
}

/// Two words as one number, the first one high.
pub open spec fn pair_key(x: int, y: int) -> int {
    x * 0x1_0000_0000_0000_0000 + y
}

/// Signatures in order of size, then prefix hash, then later hash.
pub open spec fn sig_key(s: Sig) -> int {
    pair_key(pair_key(s.size as int, s.prefix as int), s.hash as int)
}

/// A pair key orders by its first word, then its second.
proof fn lemma_pair_key(x: int, y: int, u: int, v: int)
    requires
        0 <= x,
        0 <= u,
        0 <= y < 0x1_0000_0000_0000_0000,
        0 <= v < 0x1_0000_0000_0000_0000,
    ensures
        pair_key(x, y) <= pair_key(u, v) <==> (x < u || (x == u && y <= v)),
        pair_key(x, y) == pair_key(u, v) <==> (x == u && y == v),
        pair_key(x, y) >= 0,
{
    let m = 0x1_0000_0000_0000_0000int;
    assert(x * m + y <= u * m + v <==> (x < u || (x == u && y <= v))) by (nonlinear_arith)
        requires
            0 <= y < m,
            0 <= v < m,
            0 <= x,
            0 <= u,
    ;
    assert(x * m + y == u * m + v <==> (x == u && y == v)) by (nonlinear_arith)
        requires
            0 <= y < m,
            0 <= v < m,
            0 <= x,
            0 <= u,
    ;
    assert(x * m + y >= 0) by (nonlinear_arith)
        requires
            0 <= y,
            0 <= x,
            m > 0,
    ;
}

/// The signature key orders by size, then prefix hash, then later hash, and
/// tells signatures apart.
pub proof fn lemma_sig_key_order(a: Sig, b: Sig)
    ensures
        sig_key(a) <= sig_key(b) <==> (a.size < b.size || (a.size == b.size && (a.prefix < b.prefix
            || (a.prefix == b.prefix && a.hash <= b.hash)))),
        sig_key(a) == sig_key(b) <==> a == b,
{
    lemma_pair_key(a.size as int, a.prefix as int, b.size as int, b.prefix as int);
    let (p, q) = (pair_key(a.size as int, a.prefix as int), pair_key(b.size as int, b.prefix as int));
    lemma_pair_key(p, a.hash as int, q, b.hash as int);
}

impl Ranked for File {
    /// Files sort by signature.
    open spec fn rank(&self) -> int {
        sig_key(self.sig)
    }

    fn rank_le(&self, other: &Self) -> (r: bool) {
        proof {
            lemma_sig_key_order(self.sig, other.sig);
        }
        self.sig.size < other.sig.size || (self.sig.size == other.sig.size && (self.sig.prefix
            < other.sig.prefix || (self.sig.prefix == other.sig.prefix && self.sig.hash
            <= other.sig.hash)))
    }
}

impl Grouped for File {
    /// Files group by signature.
    open spec fn group(&self) -> int {
        sig_key(self.sig)
    }

    fn same_group(&self, other: &Self) -> (r: bool) {
        proof {
            lemma_sig_key_order(self.sig, other.sig);
        }
        self.sig == other.sig
    }
}

/// A file whose signature already settles it: an empty file, or a file of
/// at most 4 KiB that was hashed (its latest hash is not 0), since any hash
/// of it covered all of it.
pub open spec fn settled(sig: Sig) -> bool {
    sig.size == 0 || (sig.size <= crate::fs::PARTIAL_HASH_SIZE && latest(sig) != 0)
}

/// Whether a signature settles its file.
pub fn is_settled(sig: Sig) -> (r: bool)
    ensures
        r == settled(sig),
        r == (sig.size == 0 || (sig.size <= 4096 && (sig.prefix != 0 || sig.hash != 0))),
{
    sig.size == 0 || sig.size <= crate::fs::PARTIAL_HASH_SIZE && sig.latest_hash() != 0
}

/// Counts the files of signature `g`.
pub open spec fn sig_weight(g: Sig) -> spec_fn(File) -> nat {
    |f: File|
        if f.sig == g {
            1nat
        } else {
            0nat
        }
}

/// How many of the files in `s` have signature `g`.
pub open spec fn sig_count(s: Seq<File>, g: Sig) -> nat {
    seq_sum(s, sig_weight(g))
}

/// A file's signature is counted at least once.
pub proof fn lemma_sig_count_pos(s: Seq<File>, i: int)
    requires
        0 <= i < s.len(),
    ensures
        sig_count(s, s[i].sig) >= 1,
{
    lemma_seq_sum_term(s, i, sig_weight(s[i].sig));
}

/// Two files with one signature count it twice.
pub proof fn lemma_sig_count_two(s: Seq<File>, i: int, j: int)
    requires
        0 <= i < s.len(),
        0 <= j < s.len(),
        i != j,
        s[i].sig == s[j].sig,
    ensures
        sig_count(s, s[i].sig) >= 2,
{
    let g = s[i].sig;
    lemma_seq_sum_remove(s, i, sig_weight(g));
    let r = s.remove(i);
    let jj = if j < i {
        j
    } else {
        j - 1
    };
    assert(r[jj] == s[j]);
    lemma_seq_sum_term(r, jj, sig_weight(g));
}

/// A signature carried by no file is counted zero times.
pub proof fn lemma_sig_count_zero(s: Seq<File>, g: Sig)
    requires
        forall|j: int| 0 <= j < s.len() ==> s[j].sig != g,
    ensures
        sig_count(s, g) == 0,
    decreases s.len(),
{
    if s.len() > 0 {
        lemma_sig_count_zero(s.drop_last(), g);
    }
}

/// A signature carried by one file only is counted once.
pub proof fn lemma_sig_count_one(s: Seq<File>, i: int)
    requires
        0 <= i < s.len(),
        forall|j: int| 0 <= j < s.len() && j != i ==> s[j].sig != s[i].sig,
    ensures
        sig_count(s, s[i].sig) == 1,
{
    let g = s[i].sig;
    lemma_seq_sum_remove(s, i, sig_weight(g));
    let r = s.remove(i);
    assert forall|j: int| 0 <= j < r.len() implies r[j].sig != g by {
        if j < i {
            assert(r[j] == s[j]);
        } else {
            assert(r[j] == s[j + 1]);
        }
    }
    lemma_sig_count_zero(r, g);
}

/// In files sorted by signature, a file stands alone exactly when no other
/// file shares its signature.
pub proof fn lemma_sorted_alone(t: Seq<File>, i: int)
    requires
        sorted_by_rank(t),
        0 <= i < t.len(),
    ensures
        alone(t, i) <==> sig_count(t, t[i].sig) == 1,
{
    if alone(t, i) {
        assert forall|j: int| 0 <= j < t.len() && j != i implies t[j].sig != t[i].sig by {
            if t[j].sig == t[i].sig {
                if j > i {
                    assert(t[i].rank() <= t[i + 1].rank() <= t[j].rank());
                    lemma_sig_key_order(t[i + 1].sig, t[i].sig);
                } else {
                    assert(t[j].rank() <= t[i - 1].rank() <= t[i].rank());
                    lemma_sig_key_order(t[i - 1].sig, t[i].sig);
                }
            }
        }
        lemma_sig_count_one(t, i);
    } else {
        if i > 0 && t[i - 1].group() == t[i].group() {
            lemma_sig_key_order(t[i - 1].sig, t[i].sig);
            lemma_sig_count_two(t, i, i - 1);
        } else {
            lemma_sig_key_order(t[i + 1].sig, t[i].sig);
            lemma_sig_count_two(t, i, i + 1);
        }
    }
}

/// Adding a file to the end counts its signature once more.
pub proof fn lemma_sig_count_push(s: Seq<File>, x: File, g: Sig)
    ensures
        sig_count(s.push(x), g) == sig_count(s, g) + (if x.sig == g {
            1nat
        } else {
            0nat
        }),
{
    assert(s.push(x).drop_last() =~= s);
}

/// In files sorted by signature, the files that have a neighbour of their
/// signature are all files of the signatures carried twice or more.
pub proof fn lemma_sorted_crowded_count(t: Seq<File>, g: Sig, k: nat)
    requires
        sorted_by_rank(t),
        k <= t.len(),
    ensures
        sig_count(crowded_upto(t, k), g) == if sig_count(t, g) >= 2 {
            sig_count(t.take(k as int), g)
        } else {
            0
        },
    decreases k,
{
    if k == 0 {
        assert(t.take(0) =~= Seq::<File>::empty());
    } else {
        let i = k - 1;
        lemma_sorted_crowded_count(t, g, (k - 1) as nat);
        assert(t.take(k as int) =~= t.take(i).push(t[i]));
        lemma_sig_count_push(t.take(i), t[i], g);
        lemma_sig_count_push(crowded_upto(t, (k - 1) as nat), t[i], g);
        if t[i].sig == g {
            lemma_sorted_alone(t, i);
            lemma_sig_count_pos(t, i);
        }
    }
}

/// Every file in `alone_upto(t, k)` is a file of `t` before `k` that stands alone.
pub proof fn lemma_alone_member(t: Seq<File>, k: nat, m: int)
    requires
        k <= t.len(),
        0 <= m < alone_upto(t, k).len(),
    ensures
        exists|i: int| 0 <= i < k && alone(t, i) && alone_upto(t, k)[m] == t[i],
    decreases k,
{
    if k > 0 {
        let p = alone_upto(t, (k - 1) as nat);
        if m < p.len() {
            lemma_alone_member(t, (k - 1) as nat, m);
            let i = choose|i: int| 0 <= i < k - 1 && alone(t, i) && p[m] == t[i];
            assert(alone_upto(t, k)[m] == t[i]);
        } else {
            assert(alone_upto(t, k)[m] == t[k - 1]);
        }
    }
}

/// Every file in `crowded_upto(t, k)` is a file of `t` before `k` that has a
/// neighbour of its group.
pub proof fn lemma_crowded_member(t: Seq<File>, k: nat, m: int)
    requires
        k <= t.len(),
        0 <= m < crowded_upto(t, k).len(),
    ensures
        exists|i: int| 0 <= i < k && !alone(t, i) && crowded_upto(t, k)[m] == t[i],
    decreases k,
{
    if k > 0 {
        let p = crowded_upto(t, (k - 1) as nat);
        if m < p.len() {
            lemma_crowded_member(t, (k - 1) as nat, m);
            let i = choose|i: int| 0 <= i < k - 1 && !alone(t, i) && p[m] == t[i];
            assert(crowded_upto(t, k)[m] == t[i]);
        } else {
            assert(crowded_upto(t, k)[m] == t[k - 1]);
        }
    }
}

/// The test on files that applies `q` to their signature.
pub open spec fn by_sig(q: spec_fn(Sig) -> bool) -> spec_fn(File) -> bool {
    |f: File| q(f.sig)
}

/// Keeping the files whose signature passes a test keeps, for each
/// signature, all of its files or none.
pub proof fn lemma_sig_count_filter(s: Seq<File>, q: spec_fn(Sig) -> bool, g: Sig)
    ensures
        sig_count(s.filter(by_sig(q)), g) == if q(g) {
            sig_count(s, g)
        } else {
            0
        },
    decreases s.len(),
{
    let p = by_sig(q);
    if s.len() > 0 {
        lemma_sig_count_filter(s.drop_last(), q, g);
        let x = s.last();
        reveal(Seq::filter);
        assert(s.filter(p) == if p(x) {
            s.drop_last().filter(p).push(x)
        } else {
            s.drop_last().filter(p)
        });
        if p(x) {
            lemma_sig_count_push(s.drop_last().filter(p), x, g);
        }
    } else {
        reveal(Seq::filter);
        assert(s.filter(p) == s);
    }
}

} // verus!
