//! What the report shows: the totals of the summary table, the groups of
//! duplicates in order of wasted bytes, the groups of errors, and which
//! paths of a group are shown.
use vstd::prelude::*;
use vstd::seq_lib::to_multiset_contains;

use crate::order::{
    Ranked, Grouped, Run, sorted_by_rank, sort_by_rank, runs_of, maximal_runs, is_run_split, ends_run,
};
use crate::slice::alone;
use crate::files::{File, Sig, latest, lemma_sig_key_order};
use crate::count::{
    seq_sum, index_sum, lemma_seq_sum_perm, lemma_seq_sum_index, lemma_index_sum_le,
    lemma_index_sum_monotone, lemma_index_sum_plus,
};
use crate::state::{State, ErrorEntry};

verus! {

/// The size of a file, as a weight.
pub open spec fn size_weight() -> spec_fn(File) -> nat {
    |f: File| f.sig.size as nat
}

/// The total size of the files of `s`.
pub open spec fn total_bytes(s: Seq<File>) -> nat {
    seq_sum(s, size_weight())
}

/// One for each index where `p` holds.
pub open spec fn ones(p: spec_fn(int) -> bool) -> spec_fn(int) -> nat {
    |i: int|
        if p(i) {
            1nat
        } else {
            0nat
        }
}

/// The size of the file at each index of `t` where `p` holds.
pub open spec fn sizes(t: Seq<File>, p: spec_fn(int) -> bool) -> spec_fn(int) -> nat {
    |i: int|
        if p(i) {
            t[i].sig.size as nat
        } else {
            0nat
        }
}

/// How many indices of `t` satisfy `p`.
pub open spec fn count_where(t: Seq<File>, p: spec_fn(int) -> bool) -> nat {
    index_sum(t.len() as int, ones(p))
}

/// The total size of the files of `t` at the indices that satisfy `p`.
pub open spec fn bytes_where(t: Seq<File>, p: spec_fn(int) -> bool) -> nat {
    index_sum(t.len() as int, sizes(t, p))
}

/// Every index.
pub open spec fn everywhere() -> spec_fn(int) -> bool {
    |i: int| true
}

/// Files that were never hashed (their latest hash is 0).
pub open spec fn skipped_at(t: Seq<File>) -> spec_fn(int) -> bool {
    |i: int| latest(t[i].sig) == 0
}

/// Files whose signature no other file has (in files sorted by signature).
pub open spec fn unique_at(t: Seq<File>) -> spec_fn(int) -> bool {
    |i: int| alone(t, i)
}

/// The file at `i` repeats the signature of the file before it.
pub open spec fn is_repeat(t: Seq<File>, i: int) -> bool {
    i > 0 && t[i - 1].sig == t[i].sig
}

/// Files that repeat an earlier file: the copies one could delete.
pub open spec fn repeat_at(t: Seq<File>) -> spec_fn(int) -> bool {
    |i: int| is_repeat(t, i)
}

/// The first file of each group of two or more: the copy one keeps.
pub open spec fn kept_at(t: Seq<File>) -> spec_fn(int) -> bool {
    |i: int| !alone(t, i) && !is_repeat(t, i)
}

/// The totals of the summary table.
#[derive(Clone, Copy, Debug)]
pub struct Summary {
    pub total_n: u64,
    pub total: u64,
    pub skipped_n: u64,
    pub skipped: u64,
    pub unique_n: u64,
    pub unique: u64,
    pub keep_n: u64,
    pub keep: u64,
    pub delete_n: u64,
    pub delete: u64,
}

/// `s` holds the totals of the files `t`, sorted by signature.
pub open spec fn summarizes(s: Summary, t: Seq<File>) -> bool {
    &&& s.total_n == t.len()
    &&& s.total == bytes_where(t, everywhere())
    &&& s.skipped_n == count_where(t, skipped_at(t))
    &&& s.skipped == bytes_where(t, skipped_at(t))
    &&& s.unique_n == count_where(t, unique_at(t))
    &&& s.unique == bytes_where(t, unique_at(t))
    &&& s.delete_n == count_where(t, repeat_at(t))
    &&& s.delete == bytes_where(t, repeat_at(t))
    &&& s.keep_n == s.total_n - s.unique_n - s.delete_n
    &&& s.keep == s.total - s.unique - s.delete
}

/// The files left where one keeps one file of each group of duplicates are
/// the unique files and the first file of each group: per index, exactly
/// one of unique, repeat and kept holds.
proof fn lemma_partition_at(t: Seq<File>, i: int)
    requires
        0 <= i < t.len(),
    ensures
        ones(everywhere())(i) == ones(unique_at(t))(i) + ones(repeat_at(t))(i) + ones(kept_at(t))(i),
        sizes(t, everywhere())(i) == sizes(t, unique_at(t))(i) + sizes(t, repeat_at(t))(i) + sizes(
            t,
            kept_at(t),
        )(i),
{
    if i > 0 {
        lemma_sig_key_order(t[i - 1].sig, t[i].sig);
    }
}

/// Law: in the summary, the unique files and the copies to delete never
/// outnumber (or outweigh) all files, and what is left is exactly one kept
/// copy of each group of duplicates.
pub proof fn lemma_keep_is_one_per_group(t: Seq<File>)
    ensures
        count_where(t, unique_at(t)) + count_where(t, repeat_at(t)) + count_where(t, kept_at(t))
            == t.len(),
        bytes_where(t, unique_at(t)) + bytes_where(t, repeat_at(t)) + bytes_where(t, kept_at(t))
            == bytes_where(t, everywhere()),
{
    let n = t.len() as int;
    let ur = |i: int| ones(unique_at(t))(i) + ones(repeat_at(t))(i);
    let urb = |i: int| sizes(t, unique_at(t))(i) + sizes(t, repeat_at(t))(i);
    assert forall|i: int| 0 <= i < n implies #[trigger] ones(everywhere())(i) == ur(i) + ones(
        kept_at(t),
    )(i) && sizes(t, everywhere())(i) == urb(i) + sizes(t, kept_at(t))(i) by {
        lemma_partition_at(t, i);
    }
    lemma_index_sum_plus(n, ones(unique_at(t)), ones(repeat_at(t)), ur);
    lemma_index_sum_plus(n, ur, ones(kept_at(t)), ones(everywhere()));
    lemma_index_sum_plus(n, sizes(t, unique_at(t)), sizes(t, repeat_at(t)), urb);
    lemma_index_sum_plus(n, urb, sizes(t, kept_at(t)), sizes(t, everywhere()));
    lemma_count_all(n);
}

proof fn lemma_count_all(n: int)
    requires
        n >= 0,
    ensures
        index_sum(n, ones(everywhere())) == n,
    decreases n,
{
    if n > 0 {
        lemma_count_all(n - 1);
    }
}

impl State {
    /// Sorts the files by signature and adds up the summary table.
    pub fn summary(&mut self) -> (s: Summary)
        requires
            total_bytes(old(self).files@) <= u64::MAX,
        ensures
            final(self).files@.to_multiset() == old(self).files@.to_multiset(),
            sorted_by_rank(final(self).files@),
            final(self).errs@ == old(self).errs@,
            final(self).stage == old(self).stage,
            summarizes(s, final(self).files@),
            s.total == total_bytes(old(self).files@),
    {
        let mut taken: Vec<File> = Vec::new();
        std::mem::swap(&mut taken, &mut self.files);
        self.files = sort_by_rank(taken);
        let ghost t = self.files@;
        let n = self.files.len();
        proof {
            lemma_seq_sum_perm(old(self).files@, t, size_weight());
            lemma_seq_sum_index(t, size_weight(), sizes(t, everywhere()));
        }
        let mut total: u64 = 0;
        let mut skipped_n: u64 = 0;
        let mut skipped: u64 = 0;
        let mut unique_n: u64 = 0;
        let mut unique: u64 = 0;
        let mut delete_n: u64 = 0;
        let mut delete: u64 = 0;
        let mut i: usize = 0;
        while i < n
            invariant
                i <= n,
                n == t.len(),
                t == self.files@,
                bytes_where(t, everywhere()) <= u64::MAX,
                total == index_sum(i as int, sizes(t, everywhere())),
                skipped_n == index_sum(i as int, ones(skipped_at(t))),
                skipped == index_sum(i as int, sizes(t, skipped_at(t))),
                unique_n == index_sum(i as int, ones(unique_at(t))),
                unique == index_sum(i as int, sizes(t, unique_at(t))),
                delete_n == index_sum(i as int, ones(repeat_at(t))),
                delete == index_sum(i as int, sizes(t, repeat_at(t))),
            decreases n - i,
        {
            let f = self.files[i];
            let ghost ii = i as int;
            proof {
                lemma_index_sum_monotone(ii + 1, n as int, sizes(t, everywhere()));
                lemma_index_sum_le(ii + 1, sizes(t, skipped_at(t)), sizes(t, everywhere()));
                lemma_index_sum_le(ii + 1, sizes(t, unique_at(t)), sizes(t, everywhere()));
                lemma_index_sum_le(ii + 1, sizes(t, repeat_at(t)), sizes(t, everywhere()));
                lemma_index_sum_le(ii + 1, ones(skipped_at(t)), ones(everywhere()));
                lemma_index_sum_le(ii + 1, ones(unique_at(t)), ones(everywhere()));
                lemma_index_sum_le(ii + 1, ones(repeat_at(t)), ones(everywhere()));
                lemma_count_all(ii + 1);
                if i > 0 {
                    lemma_sig_key_order(t[ii - 1].sig, t[ii].sig);
                }
                if i + 1 < n {
                    lemma_sig_key_order(t[ii + 1].sig, t[ii].sig);
                }
            }
            let size = f.sig.size;
            total = total + size;
            if f.sig.latest_hash() == 0 {
                skipped_n = skipped_n + 1;
                skipped = skipped + size;
            }
            let first = i == 0 || self.files[i - 1].sig != f.sig;
            let last = i + 1 == n || self.files[i + 1].sig != f.sig;
            if first && last {
                unique_n = unique_n + 1;
                unique = unique + size;
            }
            if !first {
                delete_n = delete_n + 1;
                delete = delete + size;
            }
            i += 1;
        }
        proof {
            lemma_keep_is_one_per_group(t);
        }
        let total_n = n as u64;
        Summary {
            total_n,
            total,
            skipped_n,
            skipped,
            unique_n,
            unique,
            keep_n: total_n - unique_n - delete_n,
            keep: total - unique - delete,
            delete_n,
            delete,
        }
    }
}

/// A group of two or more files with one signature: `count` files from
/// index `start` on in the files sorted by signature, and the bytes that all
/// copies but one take.
#[derive(Clone, Copy, Debug)]
pub struct DupGroup {
    pub start: usize,
    pub count: usize,
    pub sig: Sig,
    pub wasted: u64,
}

impl Ranked for DupGroup {
    /// Groups sort by wasted bytes, fewest first.
    open spec fn rank(&self) -> int {
        self.wasted as int
    }

    fn rank_le(&self, other: &Self) -> (r: bool) {
        self.wasted <= other.wasted
    }
}

/// Runs of two or more files.
pub open spec fn is_dup_run() -> spec_fn(Run) -> bool {
    |r: Run| r.count >= 2
}

/// The group a run of the files `t` forms.
pub open spec fn to_group(t: Seq<File>) -> spec_fn(Run) -> DupGroup {
    |r: Run|
        DupGroup {
            start: r.start,
            count: r.count,
            sig: t[r.start as int].sig,
            wasted: ((r.count - 1) * t[r.start as int].sig.size) as u64,
        }
}

/// The groups of duplicates among the files `t`, sorted by signature: the
/// maximal runs of two or more files, in order.
pub open spec fn dup_groups(t: Seq<File>) -> Seq<DupGroup> {
    maximal_runs(t).filter(is_dup_run()).map_values(to_group(t))
}

/// A stretch of equal terms adds their number times their value.
proof fn lemma_index_sum_const(f: spec_fn(int) -> nat, s: int, c: int, z: nat)
    requires
        0 <= s,
        0 <= c,
        forall|i: int| s <= i < s + c ==> #[trigger] f(i) == z,
    ensures
        index_sum(s + c, f) == index_sum(s, f) + c * z,
    decreases c,
{
    if c > 0 {
        lemma_index_sum_const(f, s, c - 1, z);
        assert(index_sum(s + c, f) == index_sum(s + c - 1, f) + f(s + c - 1));
        assert((c - 1) * z + z == c * z) by (nonlinear_arith);
    }
}

/// The bytes of a run of files of one signature fit in the total.
proof fn lemma_run_bytes(t: Seq<File>, r: Run)
    requires
        r.start + r.count <= t.len(),
        r.count >= 1,
        forall|i: int| r.start <= i < r.start + r.count ==> #[trigger] t[i].sig == t[r.start as int].sig,
    ensures
        r.count * t[r.start as int].sig.size <= total_bytes(t),
        (r.count - 1) * t[r.start as int].sig.size <= r.count * t[r.start as int].sig.size,
{
    let z = t[r.start as int].sig.size as nat;
    let f = sizes(t, everywhere());
    assert forall|i: int| r.start <= i < r.start + r.count implies #[trigger] f(i) == z by {}
    lemma_index_sum_const(f, r.start as int, r.count as int, z);
    lemma_index_sum_monotone(r.start + r.count, t.len() as int, f);
    lemma_seq_sum_index(t, size_weight(), f);
    assert((r.count - 1) * z <= r.count * z) by (nonlinear_arith);
}

/// Law: every group of duplicates holds two or more files, all with the
/// group's signature, and its wasted bytes are all its copies but one.
pub proof fn lemma_dup_group_members(t: Seq<File>, k: int)
    requires
        t.len() <= usize::MAX,
        total_bytes(t) <= u64::MAX,
        0 <= k < dup_groups(t).len(),
    ensures
        ({
            let g = dup_groups(t)[k];
            &&& g.count >= 2
            &&& g.start + g.count <= t.len()
            &&& forall|i: int| g.start <= i < g.start + g.count ==> #[trigger] t[i].sig == g.sig
            &&& g.wasted == (g.count - 1) * g.sig.size
        }),
{
    let runs = maximal_runs(t);
    crate::order::lemma_maximal_runs_split(t);
    let dups = runs.filter(is_dup_run());
    let r = dups[k];
    runs.lemma_filter_pred(is_dup_run(), k);
    runs.lemma_filter_contains_rev(is_dup_run(), r);
    let j = choose|j: int| 0 <= j < runs.len() && runs[j] == r;
    assert forall|i: int| r.start <= i < r.start + r.count implies #[trigger] t[i].sig
        == t[r.start as int].sig by {
        assert(t[i].group() == t[r.start as int].group());
        lemma_sig_key_order(t[i].sig, t[r.start as int].sig);
    }
    assert(runs[j].start + runs[j].count <= t.len());
    lemma_run_bytes(t, r);
}

/// The bytes a run of the files `t` wastes: all its copies but one.
pub open spec fn run_waste(t: Seq<File>) -> spec_fn(Run) -> nat {
    |r: Run| ((r.count - 1) * t[r.start as int].sig.size) as nat
}

/// The copies of a run beyond the first.
pub open spec fn run_extra() -> spec_fn(Run) -> nat {
    |r: Run| (r.count - 1) as nat
}

/// The bytes a group of duplicates wastes.
pub open spec fn group_waste() -> spec_fn(DupGroup) -> nat {
    |g: DupGroup| g.wasted as nat
}

/// The copies of a group beyond the first.
pub open spec fn group_extra() -> spec_fn(DupGroup) -> nat {
    |g: DupGroup| (g.count - 1) as nat
}

/// Over the first `k` files of `t`, the repeated files are the copies
/// beyond the first of each maximal run, in number and in bytes.
proof fn lemma_repeats_by_runs(t: Seq<File>, k: nat)
    requires
        k <= t.len() <= usize::MAX,
    ensures
        index_sum(k as int, sizes(t, repeat_at(t))) == seq_sum(
            maximal_runs(t.take(k as int)),
            run_waste(t),
        ),
        index_sum(k as int, ones(repeat_at(t))) == seq_sum(
            maximal_runs(t.take(k as int)),
            run_extra(),
        ),
    decreases k,
{
    if k == 0 {
        assert(t.take(0) =~= Seq::<File>::empty());
    } else {
        let j = (k - 1) as nat;
        lemma_repeats_by_runs(t, j);
        let s = t.take(k as int);
        let p = t.take(j as int);
        assert(s.drop_last() =~= p);
        let prev = maximal_runs(p);
        if k >= 2 && s[s.len() - 2].group() == s.last().group() {
            crate::order::lemma_maximal_runs_split(p);
            let last = prev.last();
            let start = last.start as int;
            assert(p[j - 1].group() == p[start].group());
            lemma_sig_key_order(t[j - 1].sig, t[start].sig);
            lemma_sig_key_order(t[j - 1].sig, t[j as int].sig);
            let z = t[j as int].sig.size as int;
            let c = last.count as int;
            let next = Run { start: last.start, count: (last.count + 1) as usize };
            let runs = prev.update(prev.len() - 1, next);
            assert(maximal_runs(s) == runs);
            assert(runs.drop_last() =~= prev.drop_last());
            assert(t[start].sig.size == z);
            assert(c * z == (c - 1) * z + z) by (nonlinear_arith);
            assert(run_waste(t)(next) == run_waste(t)(last) + z);
            assert(run_extra()(next) == run_extra()(last) + 1);
            assert(sizes(t, repeat_at(t))(j as int) == z);
            assert(index_sum(k as int, sizes(t, repeat_at(t))) == index_sum(j as int, sizes(t, repeat_at(t))) + z);
        } else {
            if k >= 2 {
                lemma_sig_key_order(t[j - 1].sig, t[j as int].sig);
            }
            let runs = prev.push(Run { start: j as usize, count: 1 });
            assert(maximal_runs(s) == runs);
            assert(runs.drop_last() =~= prev);
            let z = t[j as int].sig.size as int;
            assert((1 - 1) * z == 0) by (nonlinear_arith);
            assert(run_waste(t)(runs.last()) == 0);
            assert(sizes(t, repeat_at(t))(j as int) == 0);
        }
    }
}

/// Summing over the groups of duplicates is summing over all maximal runs:
/// a run of one file wastes nothing.
proof fn lemma_groups_by_runs(t: Seq<File>, runs: Seq<Run>)
    requires
        forall|i: int| 0 <= i < runs.len() ==> #[trigger] runs[i].count >= 1,
        forall|i: int|
            0 <= i < runs.len() ==> (#[trigger] runs[i].count - 1) * t[runs[i].start as int].sig.size
                <= u64::MAX,
    ensures
        seq_sum(runs.filter(is_dup_run()).map_values(to_group(t)), group_waste()) == seq_sum(
            runs,
            run_waste(t),
        ),
        seq_sum(runs.filter(is_dup_run()).map_values(to_group(t)), group_extra()) == seq_sum(
            runs,
            run_extra(),
        ),
    decreases runs.len(),
{
    reveal(Seq::filter);
    if runs.len() > 0 {
        let p = runs.drop_last();
        let r = runs.last();
        assert(runs =~= p.push(r));
        lemma_groups_by_runs(t, p);
        p.lemma_filter_push(r, is_dup_run());
        let f = p.filter(is_dup_run());
        if r.count >= 2 {
            f.lemma_push_map_commute(to_group(t), r);
            assert(f.push(r).map_values(to_group(t)).drop_last() =~= f.map_values(to_group(t)));
        } else {
            let z = t[r.start as int].sig.size as int;
            assert((r.count - 1) * z == 0) by (nonlinear_arith)
                requires
                    r.count == 1,
            ;
        }
    }
}

/// Law: the groups of duplicates add up to the summary's column of copies
/// to delete: their wasted bytes sum to the bytes of the repeated files, and
/// their copies beyond the first to the number of repeated files.
pub proof fn lemma_groups_match_summary(t: Seq<File>)
    requires
        t.len() <= usize::MAX,
        total_bytes(t) <= u64::MAX,
    ensures
        seq_sum(dup_groups(t), group_waste()) == bytes_where(t, repeat_at(t)),
        seq_sum(dup_groups(t), group_extra()) == count_where(t, repeat_at(t)),
{
    let runs = maximal_runs(t);
    crate::order::lemma_maximal_runs_split(t);
    assert forall|i: int| 0 <= i < runs.len() implies (#[trigger] runs[i].count - 1)
        * t[runs[i].start as int].sig.size <= u64::MAX by {
        let r = runs[i];
        assert forall|m: int| r.start <= m < r.start + r.count implies #[trigger] t[m].sig
            == t[r.start as int].sig by {
            assert(t[m].group() == t[r.start as int].group());
            lemma_sig_key_order(t[m].sig, t[r.start as int].sig);
        }
        lemma_run_bytes(t, r);
    }
    lemma_groups_by_runs(t, runs);
    lemma_repeats_by_runs(t, t.len());
    assert(t.take(t.len() as int) =~= t);
}

impl State {
    /// Sorts the files by signature and lists the groups of duplicates,
    /// fewest wasted bytes first.
    pub fn duplicate_groups(&mut self) -> (groups: Vec<DupGroup>)
        requires
            total_bytes(old(self).files@) <= u64::MAX,
        ensures
            final(self).files@.to_multiset() == old(self).files@.to_multiset(),
            sorted_by_rank(final(self).files@),
            final(self).errs@ == old(self).errs@,
            final(self).stage == old(self).stage,
            groups@.to_multiset() == dup_groups(final(self).files@).to_multiset(),
            sorted_by_rank(groups@),
            forall|k: int| 0 <= k < groups@.len() - 1 ==> #[trigger] groups@[k].wasted <= groups@[k
                + 1].wasted,
            forall|k: int|
                0 <= k < groups@.len() ==> {
                    let g = #[trigger] groups@[k];
                    &&& g.count >= 2
                    &&& g.start + g.count <= final(self).files@.len()
                    &&& g.wasted == (g.count - 1) * g.sig.size
                    &&& forall|i: int|
                        g.start <= i < g.start + g.count ==> #[trigger] final(self).files@[i].sig
                            == g.sig
                },
    {
        let mut taken: Vec<File> = Vec::new();
        std::mem::swap(&mut taken, &mut self.files);
        self.files = sort_by_rank(taken);
        let ghost t = self.files@;
        proof {
            lemma_seq_sum_perm(old(self).files@, t, size_weight());
        }
        let runs = runs_of(&self.files);
        let mut groups: Vec<DupGroup> = Vec::new();
        let mut k: usize = 0;
        proof {
            reveal(Seq::filter);
            assert(runs@.take(0) =~= Seq::<Run>::empty());
            assert(groups@ =~= runs@.take(0).filter(is_dup_run()).map_values(to_group(t)));
        }
        while k < runs.len()
            invariant
                k <= runs@.len(),
                t == self.files@,
                runs@ == maximal_runs(t),
                is_run_split(t, runs@),
                total_bytes(t) <= u64::MAX,
                groups@ == runs@.take(k as int).filter(is_dup_run()).map_values(to_group(t)),
            decreases runs@.len() - k,
        {
            let r = runs[k];
            proof {
                assert(runs@.take(k + 1) =~= runs@.take(k as int).push(r));
                runs@.take(k as int).lemma_filter_push(r, is_dup_run());
            }
            if r.count >= 2 {
                proof {
                    assert forall|i: int| r.start <= i < r.start + r.count implies #[trigger] t[i].sig
                        == t[r.start as int].sig by {
                        assert(t[i].group() == t[r.start as int].group());
                        lemma_sig_key_order(t[i].sig, t[r.start as int].sig);
                    }
                    lemma_run_bytes(t, r);
                }
                let f = self.files[r.start];
                let g = DupGroup {
                    start: r.start,
                    count: r.count,
                    sig: f.sig,
                    wasted: (r.count as u64 - 1) * f.sig.size,
                };
                proof {
                    let prev = runs@.take(k as int).filter(is_dup_run());
                    assert(prev.push(r).map_values(to_group(t)) =~= prev.map_values(to_group(t)).push(
                        g,
                    ));
                }
                groups.push(g);
            }
            k += 1;
        }
        proof {
            assert(runs@.take(runs@.len() as int) =~= runs@);
        }
        let groups = sort_by_rank(groups);
        let nfiles = self.files.len();
        proof {
            lemma_groups_by_wasted(groups@);
            assert(t.len() == nfiles);
            let d = dup_groups(t);
            assert forall|k: int| 0 <= k < groups@.len() implies {
                let g = #[trigger] groups@[k];
                &&& g.count >= 2
                &&& g.start + g.count <= t.len()
                &&& g.wasted == (g.count - 1) * g.sig.size
                &&& forall|i: int| g.start <= i < g.start + g.count ==> #[trigger] t[i].sig == g.sig
            } by {
                let g = groups@[k];
                to_multiset_contains(groups@, g);
                assert(groups@.contains(g));
                to_multiset_contains(d, g);
                let j = choose|j: int| 0 <= j < d.len() && d[j] == g;
                lemma_dup_group_members(t, j);
            }
        }
        groups
    }

    /// Sorts the errors by kind, then path, and splits them into runs of one
    /// kind.
    pub fn error_groups(&mut self) -> (runs: Vec<Run>)
        ensures
            final(self).errs@.to_multiset() == old(self).errs@.to_multiset(),
            sorted_by_rank(final(self).errs@),
            final(self).files@ == old(self).files@,
            final(self).stage == old(self).stage,
            runs@ == maximal_runs(final(self).errs@),
            is_run_split(final(self).errs@, runs@),
            forall|i: int, j: int|
                0 <= i <= j < final(self).errs@.len() ==> final(self).errs@[i].class
                    <= final(self).errs@[j].class,
            forall|k: int, i: int|
                0 <= k < runs@.len() && runs@[k].start <= i < runs@[k].start + runs@[k].count
                    ==> #[trigger] final(self).errs@[i].class == final(self).errs@[#[trigger] runs@[
                    k].start as int].class,
            forall|k: int|
                0 <= k < runs@.len() - 1 ==> final(self).errs@[runs@[k].start + runs@[k].count
                    - 1].class != final(self).errs@[#[trigger] runs@[k + 1].start as int].class,
    {
        let mut taken: Vec<ErrorEntry> = Vec::new();
        std::mem::swap(&mut taken, &mut self.errs);
        self.errs = sort_by_rank(taken);
        let runs = runs_of(&self.errs);
        proof {
            lemma_errors_sorted(self.errs@);
            lemma_error_runs(self.errs@, runs@);
        }
        runs
    }
}

/// Law: groups in rank order ascend in wasted bytes.
pub proof fn lemma_groups_by_wasted(g: Seq<DupGroup>)
    requires
        sorted_by_rank(g),
    ensures
        forall|i: int, j: int| 0 <= i <= j < g.len() ==> g[i].wasted <= g[j].wasted,
        forall|k: int| 0 <= k < g.len() - 1 ==> #[trigger] g[k].wasted <= g[k + 1].wasted,
{
    assert forall|i: int, j: int| 0 <= i <= j < g.len() implies g[i].wasted <= g[j].wasted by {
        assert(g[i].rank() <= g[j].rank());
    }
    assert forall|k: int| 0 <= k < g.len() - 1 implies #[trigger] g[k].wasted <= g[k + 1].wasted by {
        assert(g[k].rank() <= g[k + 1].rank());
    }
}

/// Law: errors in rank order ascend by kind, and within a kind by path.
pub proof fn lemma_errors_sorted(e: Seq<ErrorEntry>)
    requires
        sorted_by_rank(e),
    ensures
        forall|i: int, j: int|
            0 <= i <= j < e.len() ==> e[i].class <= e[j].class && (e[i].class == e[j].class
                ==> e[i].path_rank <= e[j].path_rank),
{
    assert forall|i: int, j: int| 0 <= i <= j < e.len() implies e[i].class <= e[j].class && (
    e[i].class == e[j].class ==> e[i].path_rank <= e[j].path_rank) by {
        assert(e[i].rank() <= e[j].rank());
        let m = 0x1_0000_0000_0000_0000int;
        let (x, y, u, v) = (e[i].class as int, e[i].path_rank as int, e[j].class as int, e[j].path_rank as int);
        assert(x * m + y <= u * m + v ==> (x < u || (x == u && y <= v))) by (nonlinear_arith)
            requires
                0 <= y < m,
                0 <= v < m,
                0 <= x,
                0 <= u,
        ;
    }
}

/// Law: a split of errors into maximal runs puts one kind in each run, and
/// neighbouring runs hold different kinds.
pub proof fn lemma_error_runs(e: Seq<ErrorEntry>, runs: Seq<Run>)
    requires
        is_run_split(e, runs),
    ensures
        forall|k: int, i: int|
            0 <= k < runs.len() && runs[k].start <= i < runs[k].start + runs[k].count
                ==> #[trigger] e[i].class == e[#[trigger] runs[k].start as int].class,
        forall|k: int|
            0 <= k < runs.len() - 1 ==> e[runs[k].start + runs[k].count - 1].class
                != e[#[trigger] runs[k + 1].start as int].class,
{
    assert forall|k: int, i: int|
        0 <= k < runs.len() && runs[k].start <= i < runs[k].start + runs[k].count implies #[trigger] e[i].class
        == e[#[trigger] runs[k].start as int].class by {
        assert(e[i].group() == e[runs[k].start as int].group());
    }
    assert forall|k: int| 0 <= k < runs.len() - 1 implies e[runs[k].start + runs[k].count
        - 1].class != e[#[trigger] runs[k + 1].start as int].class by {
        assert(ends_run(e, runs[k].start + runs[k].count - 1));
        assert(runs[k + 1].start == runs[k].start + runs[k].count);
    }
}

/// Law: path keys are ordered by depth first, then by length, then by rank,
/// and two keys are equal in the order only when they are equal.
pub proof fn lemma_path_order(a: PathKey, b: PathKey)
    ensures
        path_order(a) < path_order(b) <==> (a.depth < b.depth || (a.depth == b.depth && (a.len
            < b.len || (a.len == b.len && a.rank < b.rank)))),
        path_order(a) == path_order(b) <==> a == b,
{
    let m = 0x1_0000_0000_0000_0000int;
    let (x1, y1, z1) = (a.depth as int, a.len as int, a.rank as int);
    let (x2, y2, z2) = (b.depth as int, b.len as int, b.rank as int);
    assert((x1 * m + y1) * m + z1 < (x2 * m + y2) * m + z2 <==> (x1 < x2 || (x1 == x2 && (y1 < y2
        || (y1 == y2 && z1 < z2))))) by (nonlinear_arith)
        requires
            0 <= x1 < m,
            0 <= y1 < m,
            0 <= z1 < m,
            0 <= x2 < m,
            0 <= y2 < m,
            0 <= z2 < m,
    ;
    assert((x1 * m + y1) * m + z1 == (x2 * m + y2) * m + z2 <==> (x1 == x2 && y1 == y2 && z1
        == z2)) by (nonlinear_arith)
        requires
            0 <= x1 < m,
            0 <= y1 < m,
            0 <= z1 < m,
            0 <= x2 < m,
            0 <= y2 < m,
            0 <= z2 < m,
    ;
}

/// How many paths of a group the report shows.
pub const PATHS_PER_ENTRY: usize = 3;

/// How a path is ranked for showing: by depth, then by length, then by
/// its place among all paths.
#[derive(Clone, Copy, PartialEq, Eq, Structural, Debug)]
pub struct PathKey {
    pub depth: u64,
    pub len: u64,
    pub rank: u64,
}

/// The order of path keys, as one number.
pub open spec fn path_order(k: PathKey) -> int {
    (k.depth as int * 0x1_0000_0000_0000_0000 + k.len as int) * 0x1_0000_0000_0000_0000
        + k.rank as int
}

/// Whether `a` comes strictly before `b`.
pub fn path_key_lt(a: PathKey, b: PathKey) -> (r: bool)
    ensures
        r == (path_order(a) < path_order(b)),
        r == (a.depth < b.depth || (a.depth == b.depth && (a.len < b.len || (a.len == b.len
            && a.rank < b.rank)))),
{
    proof {
        let m = 0x1_0000_0000_0000_0000int;
        let (x1, y1, z1) = (a.depth as int, a.len as int, a.rank as int);
        let (x2, y2, z2) = (b.depth as int, b.len as int, b.rank as int);
        assert((x1 * m + y1) * m + z1 < (x2 * m + y2) * m + z2 <==> (x1 < x2 || (x1 == x2 && (y1
            < y2 || (y1 == y2 && z1 < z2))))) by (nonlinear_arith)
            requires
                0 <= x1 < m,
                0 <= y1 < m,
                0 <= z1 < m,
                0 <= x2 < m,
                0 <= y2 < m,
                0 <= z2 < m,
        ;
    }
    a.depth < b.depth || (a.depth == b.depth && (a.len < b.len || (a.len == b.len && a.rank
        < b.rank)))
}

/// The indices of the keys that come first: `min(3, n)` of them, distinct,
/// in ascending order of key; every key not picked comes at or after every
/// key picked.
pub open spec fn picks_first(keys: Seq<PathKey>, picked: Seq<usize>, n: int) -> bool {
    &&& picked.len() == if n < PATHS_PER_ENTRY {
        n
    } else {
        PATHS_PER_ENTRY as int
    }
    &&& forall|k: int| 0 <= k < picked.len() ==> #[trigger] picked[k] < n
    &&& forall|k1: int, k2: int|
        0 <= k1 < picked.len() && 0 <= k2 < picked.len() && k1 != k2 ==> picked[k1] != picked[k2]
    &&& forall|k1: int, k2: int|
        0 <= k1 <= k2 < picked.len() ==> path_order(keys[picked[k1] as int]) <= path_order(
            keys[picked[k2] as int],
        )
    &&& picked.len() < PATHS_PER_ENTRY ==> forall|j: int|
        0 <= j < n ==> #[trigger] picked.contains(j as usize)
    &&& forall|j: int|
        #![trigger keys[j]]
        0 <= j < n ==> picked.contains(j as usize) || forall|k: int|
            0 <= k < picked.len() ==> path_order(keys[#[trigger] picked[k] as int]) <= path_order(
                keys[j],
            )
}

/// Offering `j` when fewer than 3 are picked: it joins at `p`.
proof fn lemma_offer_insert(keys: Seq<PathKey>, old: Seq<usize>, p: int, j: int)
    requires
        0 <= j < keys.len(),
        keys.len() <= usize::MAX,
        picks_first(keys, old, j),
        old.len() < PATHS_PER_ENTRY,
        0 <= p <= old.len(),
        forall|q: int| 0 <= q < p ==> path_order(keys[#[trigger] old[q] as int]) <= path_order(keys[j]),
        p < old.len() ==> path_order(keys[j]) < path_order(keys[old[p] as int]),
    ensures
        picks_first(keys, old.insert(p, j as usize), j + 1),
{
    let new = old.insert(p, j as usize);
    assert forall|q: int| 0 <= q < new.len() implies (if q < p {
        new[q] == old[q]
    } else if q == p {
        new[q] == j
    } else {
        new[q] == old[q - 1]
    }) by {}
    assert forall|jj: int| 0 <= jj < j + 1 implies #[trigger] new.contains(jj as usize) by {
        if jj < j {
            assert(old.contains(jj as usize));
            let q = choose|q: int| 0 <= q < old.len() && old[q] == jj as usize;
            if q < p {
                assert(new[q] == jj as usize);
            } else {
                assert(new[q + 1] == jj as usize);
            }
        } else {
            assert(new[p] == j);
        }
    }
    assert forall|k1: int, k2: int| 0 <= k1 <= k2 < new.len() implies path_order(
        keys[new[k1] as int],
    ) <= path_order(keys[new[k2] as int]) by {
        if k1 < p && k2 > p {
            assert(path_order(keys[old[k1] as int]) <= path_order(keys[old[k2 - 1] as int]));
        }
        if k1 == p && k2 > p {
            assert(path_order(keys[old[p] as int]) <= path_order(keys[old[k2 - 1] as int]));
        }
    }
}

/// Offering `j` when 3 are picked and `j` comes before the third: it joins
/// at `p` and the third drops out.
#[verifier::rlimit(40)]
proof fn lemma_offer_replace(keys: Seq<PathKey>, old: Seq<usize>, p: int, j: int)
    requires
        0 <= j < keys.len(),
        keys.len() <= usize::MAX,
        picks_first(keys, old, j),
        old.len() == PATHS_PER_ENTRY,
        0 <= p < old.len(),
        forall|q: int| 0 <= q < p ==> path_order(keys[#[trigger] old[q] as int]) <= path_order(keys[j]),
        path_order(keys[j]) < path_order(keys[old[p] as int]),
    ensures
        picks_first(keys, old.insert(p, j as usize).subrange(0, PATHS_PER_ENTRY as int), j + 1),
{
    let full = old.insert(p, j as usize);
    let new = full.subrange(0, PATHS_PER_ENTRY as int);
    let d = old[2];
    assert forall|q: int| 0 <= q < full.len() implies (if q < p {
        full[q] == old[q]
    } else if q == p {
        full[q] == j
    } else {
        full[q] == old[q - 1]
    }) by {}
    assert(full[3] == d);
    assert forall|k1: int, k2: int| 0 <= k1 <= k2 < new.len() implies path_order(
        keys[new[k1] as int],
    ) <= path_order(keys[new[k2] as int]) by {
        if k1 < p && k2 > p {
            assert(path_order(keys[old[k1] as int]) <= path_order(keys[old[k2 - 1] as int]));
        }
        if k1 == p && k2 > p {
            assert(path_order(keys[old[p] as int]) <= path_order(keys[old[k2 - 1] as int]));
        }
    }
    assert forall|k: int| 0 <= k < new.len() implies path_order(keys[#[trigger] new[k] as int])
        <= path_order(keys[d as int]) by {
        if k < p {
            assert(path_order(keys[old[k] as int]) <= path_order(keys[old[2] as int]));
        } else if k > p {
            assert(path_order(keys[old[k - 1] as int]) <= path_order(keys[old[2] as int]));
        } else {
            assert(path_order(keys[old[p] as int]) <= path_order(keys[old[2] as int]));
        }
    }
    assert forall|jj: int|
        #![trigger keys[jj]]
        0 <= jj < j + 1 implies new.contains(jj as usize) || forall|k: int|
        0 <= k < new.len() ==> path_order(keys[#[trigger] new[k] as int]) <= path_order(keys[jj]) by {
        if !new.contains(jj as usize) {
            if jj == j {
                assert(new[p] == j);
            } else if jj as usize != d {
                if old.contains(jj as usize) {
                    let q = choose|q: int| 0 <= q < old.len() && old[q] == jj as usize;
                    if q < p {
                        assert(new[q] == jj as usize);
                    } else if q < 2 {
                        assert(new[q + 1] == jj as usize);
                    }
                } else {
                    assert(path_order(keys[old[2] as int]) <= path_order(keys[jj]));
                }
            }
        }
    }
    assert forall|k1: int, k2: int|
        0 <= k1 < new.len() && 0 <= k2 < new.len() && k1 != k2 implies new[k1] != new[k2] by {
        if k1 != p && k2 != p {
            let (q1, q2) = (if k1 < p { k1 } else { k1 - 1 }, if k2 < p { k2 } else { k2 - 1 });
            assert(new[k1] == old[q1] && new[k2] == old[q2]);
        }
    }
}

/// Offering `j` when 3 are picked and `j` comes no earlier than the third:
/// nothing changes.
proof fn lemma_offer_skip(keys: Seq<PathKey>, old: Seq<usize>, j: int)
    requires
        0 <= j < keys.len(),
        keys.len() <= usize::MAX,
        picks_first(keys, old, j),
        old.len() == PATHS_PER_ENTRY,
        forall|q: int| 0 <= q < old.len() ==> path_order(keys[#[trigger] old[q] as int]) <= path_order(keys[j]),
    ensures
        picks_first(keys, old, j + 1),
{
}

/// Offers the key at `j` to the keys picked among the first `j`.
fn offer(keys: &Vec<PathKey>, best: &mut Vec<usize>, j: usize)
    requires
        j < keys@.len(),
        picks_first(keys@, old(best)@, j as int),
    ensures
        picks_first(keys@, final(best)@, j + 1),
{
    let n = keys.len();
    let len = best.len();
    let mut p: usize = 0;
    while p < len && !path_key_lt(keys[j], keys[best[p]])
        invariant
            p <= len,
            len == best@.len(),
            n == keys@.len(),
            j < keys@.len(),
            picks_first(keys@, best@, j as int),
            forall|q: int|
                0 <= q < p ==> path_order(keys@[#[trigger] best@[q] as int]) <= path_order(
                    keys@[j as int],
                ),
        decreases len - p,
    {
        p += 1;
    }
    let ghost old_best = best@;
    if len < PATHS_PER_ENTRY {
        proof {
            lemma_offer_insert(keys@, old_best, p as int, j as int);
        }
        best.insert(p, j);
    } else if p < len {
        proof {
            lemma_offer_replace(keys@, old_best, p as int, j as int);
        }
        best.insert(p, j);
        best.pop();
        proof {
            assert(best@ =~= old_best.insert(p as int, j).subrange(0, PATHS_PER_ENTRY as int));
        }
    } else {
        proof {
            lemma_offer_skip(keys@, old_best, j as int);
        }
    }
}

/// Picks the paths a group shows: the first `min(3, n)` by key, in order.
pub fn pick_shown(keys: &Vec<PathKey>) -> (picked: Vec<usize>)
    ensures
        picks_first(keys@, picked@, keys@.len() as int),
        forall|k1: int, k2: int|
            0 <= k1 <= k2 < picked@.len() ==> {
                let (a, b) = (keys@[#[trigger] picked@[k1] as int], keys@[#[trigger] picked@[k2] as int]);
                a.depth < b.depth || (a.depth == b.depth && (a.len < b.len || (a.len == b.len
                    && a.rank <= b.rank)))
            },
        forall|j: int, k: int|
            0 <= j < keys@.len() && 0 <= k < picked@.len() && !picked@.contains(j as usize) ==> {
                let (a, b) = (keys@[#[trigger] picked@[k] as int], #[trigger] keys@[j]);
                a.depth < b.depth || (a.depth == b.depth && (a.len < b.len || (a.len == b.len
                    && a.rank <= b.rank)))
            },
{
    let n = keys.len();
    let mut best: Vec<usize> = Vec::new();
    let mut j: usize = 0;
    while j < n
        invariant
            j <= n,
            n == keys@.len(),
            picks_first(keys@, best@, j as int),
        decreases n - j,
    {
        offer(keys, &mut best, j);
        j += 1;
    }
    proof {
        assert forall|k1: int, k2: int| 0 <= k1 <= k2 < best@.len() implies {
            let (a, b) = (keys@[#[trigger] best@[k1] as int], keys@[#[trigger] best@[k2] as int]);
            a.depth < b.depth || (a.depth == b.depth && (a.len < b.len || (a.len == b.len && a.rank
                <= b.rank)))
        } by {
            let (a, b) = (keys@[best@[k1] as int], keys@[best@[k2] as int]);
            lemma_path_order(a, b);
            lemma_path_order(b, a);
            assert(path_order(a) <= path_order(b));
        }
        assert forall|j: int, k: int|
            0 <= j < keys@.len() && 0 <= k < best@.len() && !best@.contains(j as usize) implies {
            let (a, b) = (keys@[#[trigger] best@[k] as int], #[trigger] keys@[j]);
            a.depth < b.depth || (a.depth == b.depth && (a.len < b.len || (a.len == b.len && a.rank
                <= b.rank)))
        } by {
            let (a, b) = (keys@[best@[k] as int], keys@[j]);
            assert(keys@[j] == b);
            lemma_path_order(a, b);
            lemma_path_order(b, a);
            assert(path_order(a) <= path_order(b));
        }
    }
    best
}

} // verus!
