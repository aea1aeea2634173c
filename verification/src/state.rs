//! The duplicate search: files found by a scan go through a prefix hash, a
//! suffix hash and a full hash, and after each stage only the files whose
//! signature is still shared by another file go on to the next.
use vstd::prelude::*;
use vstd::seq_lib::{lemma_multiset_commutative, to_multiset_build, to_multiset_contains};
use vstd::multiset::group_multiset_axioms;

use crate::order::{Ranked, Grouped, sorted_by_rank, sort_by_rank, lemma_empty_multiset};
use crate::slice::{SliceExt, alone, alone_records, crowded_records, alone_upto};
use crate::files::{
    File, Sig, settled, is_settled, sig_count, by_sig, lemma_sorted_alone, lemma_sorted_crowded_count,
    lemma_alone_member, lemma_crowded_member, lemma_sig_count_filter, sig_weight, lemma_sig_count_one,
};
use crate::count::lemma_seq_sum_perm;
use crate::fs::{FileHash, PARTIAL_HASH_SIZE};

verus! {

/// The signatures that do not settle their file.
pub open spec fn unsettled_sigs() -> spec_fn(Sig) -> bool {
    |g: Sig| !settled(g)
}

/// The signatures that settle their file.
pub open spec fn settled_sigs() -> spec_fn(Sig) -> bool {
    |g: Sig| settled(g)
}

/// The settled and the unsettled files of `s` together are all of `s`.
proof fn lemma_settled_split(s: Seq<File>)
    ensures
        s.filter(by_sig(settled_sigs())).to_multiset().add(
            s.filter(by_sig(unsettled_sigs())).to_multiset(),
        ) =~= s.to_multiset(),
    decreases s.len(),
{
    broadcast use group_multiset_axioms;

    let (p, q) = (by_sig(settled_sigs()), by_sig(unsettled_sigs()));
    reveal(Seq::filter);
    if s.len() == 0 {
        lemma_empty_multiset(s);
        lemma_empty_multiset(s.filter(p));
        lemma_empty_multiset(s.filter(q));
    } else {
        let x = s.last();
        let r = s.drop_last();
        lemma_settled_split(r);
        assert(s =~= r.push(x));
        to_multiset_build(r, x);
        to_multiset_build(r.filter(p), x);
        to_multiset_build(r.filter(q), x);
    }
}

/// What a round of sorting, partitioning and filtering yields: the files
/// handed on (`pending`) and the files set aside (`settled_dups`, then
/// `unique`) together are the input, the files handed on are unsettled and
/// share their signature with another one handed on, and the files set aside
/// are settled or have a signature no other input file has.
proof fn lemma_round(
    input: Seq<File>,
    sorted: Seq<File>,
    parted: Seq<File>,
    mid: int,
    pending: Seq<File>,
    settled_dups: Seq<File>,
)
    requires
        sorted.to_multiset() == input.to_multiset(),
        sorted_by_rank(sorted),
        parted.len() == sorted.len(),
        0 <= mid <= parted.len(),
        parted.subrange(0, mid) == alone_records(sorted),
        parted.subrange(mid, parted.len() as int).to_multiset() == crowded_records(
            sorted,
        ).to_multiset(),
        parted.to_multiset() == sorted.to_multiset(),
        pending == parted.subrange(mid, parted.len() as int).filter(by_sig(unsettled_sigs())),
        settled_dups == parted.subrange(mid, parted.len() as int).filter(by_sig(settled_sigs())),
    ensures
        (settled_dups + parted.subrange(0, mid) + pending).to_multiset() =~= input.to_multiset(),
        forall|i: int|
            0 <= i < pending.len() ==> !settled(#[trigger] pending[i].sig) && sig_count(
                pending,
                pending[i].sig,
            ) >= 2,
        forall|i: int|
            0 <= i < settled_dups.len() ==> settled(#[trigger] settled_dups[i].sig),
        forall|i: int|
            0 <= i < mid ==> sig_count(input, #[trigger] parted[i].sig) == 1,
{
    broadcast use group_multiset_axioms;

    let region = parted.subrange(mid, parted.len() as int);
    let unique = parted.subrange(0, mid);
    // the multisets add up
    lemma_settled_split(region);
    lemma_multiset_commutative(settled_dups, unique);
    lemma_multiset_commutative(settled_dups + unique, pending);
    lemma_multiset_commutative(unique, region);
    assert(parted =~= unique + region);
    // the files handed on
    assert forall|i: int| 0 <= i < pending.len() implies !settled(#[trigger] pending[i].sig)
        && sig_count(pending, pending[i].sig) >= 2 by {
        let x = pending[i];
        let pr = by_sig(unsettled_sigs());
        region.lemma_filter_pred(pr, i);
        region.lemma_filter_contains_rev(pr, x);
        assert(region.contains(x));
        to_multiset_contains(region, x);
        let crowd = crowded_records(sorted);
        to_multiset_contains(crowd, x);
        let m = choose|m: int| 0 <= m < crowd.len() && crowd[m] == x;
        lemma_crowded_member(sorted, sorted.len(), m);
        let k = choose|k: int|
            0 <= k < sorted.len() && !alone(sorted, k) && crowd[m] == sorted[k];
        lemma_sorted_alone(sorted, k);
        crate::files::lemma_sig_count_pos(sorted, k);
        lemma_sorted_crowded_count(sorted, x.sig, sorted.len());
        assert(sorted.take(sorted.len() as int) =~= sorted);
        lemma_seq_sum_perm(region, crowd, sig_weight(x.sig));
        lemma_sig_count_filter(region, unsettled_sigs(), x.sig);
    }
    assert forall|i: int| 0 <= i < settled_dups.len() implies settled(
        #[trigger] settled_dups[i].sig,
    ) by {
        region.lemma_filter_pred(by_sig(settled_sigs()), i);
    }
    assert forall|i: int| 0 <= i < mid implies sig_count(input, #[trigger] parted[i].sig) == 1 by {
        assert(parted[i] == unique[i]);
        lemma_alone_member(sorted, sorted.len(), i);
        let k = choose|k: int|
            0 <= k < sorted.len() && alone(sorted, k) && alone_upto(sorted, sorted.len())[i]
                == sorted[k];
        lemma_sorted_alone(sorted, k);
        lemma_seq_sum_perm(sorted, input, sig_weight(parted[i].sig));
    }
}

/// A file that could not be read, or whose directory could not be read.
#[derive(Clone, Copy, PartialEq, Eq, Structural, Debug)]
pub struct ErrorEntry {
    /// The index of the path in the caller's table of paths.
    pub id: usize,
    /// Whether the path is the file itself (else it is the directory).
    pub full_path: bool,
    /// The kind of error, as a rank among the kinds met.
    pub class: u64,
    /// The rank of the path among all paths.
    pub path_rank: u64,
}

impl Ranked for ErrorEntry {
    /// Errors sort by kind, then by path.
    open spec fn rank(&self) -> int {
        self.class as int * 0x1_0000_0000_0000_0000 + self.path_rank as int
    }

    fn rank_le(&self, other: &Self) -> (r: bool) {
        proof {
            let m = 0x1_0000_0000_0000_0000int;
            let (x, y, u, v) = (
                self.class as int,
                self.path_rank as int,
                other.class as int,
                other.path_rank as int,
            );
            assert(x * m + y <= u * m + v <==> (x < u || (x == u && y <= v))) by (nonlinear_arith)
                requires
                    0 <= y < m,
                    0 <= v < m,
                    0 <= x,
                    0 <= u,
            ;
        }
        self.class < other.class || (self.class == other.class && self.path_rank
            <= other.path_rank)
    }
}

impl Grouped for ErrorEntry {
    /// Errors group by kind.
    open spec fn group(&self) -> int {
        self.class as int
    }

    fn same_group(&self, other: &Self) -> (r: bool) {
        self.class == other.class
    }
}

/// How far the search has come.
#[derive(Clone, Copy, PartialEq, Eq, Structural, Debug)]
pub enum Stage {
    /// Waiting for the files that the scan found.
    Scan,
    /// Waiting for prefix hashes.
    Prefix,
    /// Waiting for suffix hashes.
    Suffix,
    /// Waiting for full hashes.
    Full,
    /// All files are settled; what is left is the report.
    Report,
}

/// What the caller is to do next.
pub enum Action {
    /// Hash these files this way, and hand back the files with their new
    /// signatures and the errors met.
    Hash(FileHash, Vec<File>),
    /// Report the duplicates, the errors and the summary.
    Report,
}

/// The state of a duplicate search.
pub struct State {
    /// The files set aside: settled, or with a signature no other file has.
    pub files: Vec<File>,
    /// The errors met so far.
    pub errs: Vec<ErrorEntry>,
    /// How far the search has come.
    pub stage: Stage,
}

/// The stage that follows `s`.
pub open spec fn next_stage(s: Stage) -> Stage {
    match s {
        Stage::Scan => Stage::Prefix,
        Stage::Prefix => Stage::Suffix,
        Stage::Suffix => Stage::Full,
        Stage::Full | Stage::Report => Stage::Report,
    }
}

/// The hash asked for on entering stage `s`.
pub open spec fn stage_hash(s: Stage) -> FileHash {
    match s {
        Stage::Prefix => FileHash::Prefix(PARTIAL_HASH_SIZE),
        Stage::Suffix => FileHash::Suffix(PARTIAL_HASH_SIZE),
        _ => FileHash::Full,
    }
}

/// One round of the search took the files `input` into the set-aside
/// files `before`, giving the set-aside files `after` and the files
/// `pending` to look at more closely: nothing is lost or made up, what was
/// set aside stays, each pending file is unsettled and shares its signature
/// with another pending file, and each file newly set aside is settled or has
/// a signature no other input file has.
pub open spec fn sound_round(
    before: Seq<File>,
    input: Seq<File>,
    after: Seq<File>,
    pending: Seq<File>,
) -> bool {
    &&& before.len() <= after.len()
    &&& after.subrange(0, before.len() as int) == before
    &&& (after + pending).to_multiset() == (before + input).to_multiset()
    &&& forall|i: int|
        0 <= i < pending.len() ==> !settled(#[trigger] pending[i].sig) && sig_count(
            pending,
            pending[i].sig,
        ) >= 2
    &&& forall|i: int|
        before.len() <= i < after.len() ==> settled(#[trigger] after[i].sig) || sig_count(
            input,
            after[i].sig,
        ) == 1
}

/// The file at `i` of `files` shares its whole signature (size, prefix
/// hash and later hash) with another file of `files`.
pub open spec fn shares_signature(files: Seq<File>, i: int) -> bool {
    exists|j: int|
        0 <= j < files.len() && j != i && #[trigger] files[j].sig.size == files[i].sig.size
            && files[j].sig.prefix == files[i].sig.prefix && files[j].sig.hash == files[i].sig.hash
}

/// A file counted twice or more has another file of its signature.
proof fn lemma_shares_signature(files: Seq<File>)
    requires
        forall|i: int| 0 <= i < files.len() ==> sig_count(files, #[trigger] files[i].sig) >= 2,
    ensures
        forall|i: int| 0 <= i < files.len() ==> #[trigger] shares_signature(files, i),
{
    assert forall|i: int| 0 <= i < files.len() implies #[trigger] shares_signature(files, i) by {
        if !shares_signature(files, i) {
            assert forall|j: int| 0 <= j < files.len() && j != i implies files[j].sig
                != files[i].sig by {
                if files[j].sig == files[i].sig {
                    assert(files[j].sig.size == files[i].sig.size);
                }
            }
            lemma_sig_count_one(files, i);
        }
    }
}

/// Law: a round sets a non-empty file aside while another file of the round
/// shares its signature only if the file is at most 4 KiB and was hashed;
/// so a non-empty file never hashed is set aside only when its signature is
/// its own.
pub proof fn lemma_set_aside_shared(
    before: Seq<File>,
    input: Seq<File>,
    after: Seq<File>,
    pending: Seq<File>,
)
    requires
        sound_round(before, input, after, pending),
    ensures
        forall|i: int|
            before.len() <= i < after.len() && #[trigger] after[i].sig.size > 0 && sig_count(
                input,
                after[i].sig,
            ) != 1 ==> after[i].sig.size <= 4096 && (after[i].sig.prefix != 0
                || after[i].sig.hash != 0),
{
    assert forall|i: int|
        before.len() <= i < after.len() && #[trigger] after[i].sig.size > 0 && sig_count(
            input,
            after[i].sig,
        ) != 1 implies after[i].sig.size <= 4096 && (after[i].sig.prefix != 0
        || after[i].sig.hash != 0) by {
        assert(settled(after[i].sig));
    }
}

impl State {
    /// A search that waits for the scan.
    pub fn new() -> (s: State)
        ensures
            s.files@ == Seq::<File>::empty(),
            s.errs@ == Seq::<ErrorEntry>::empty(),
            s.stage == Stage::Scan,
    {
        State { files: Vec::new(), errs: Vec::new(), stage: Stage::Scan }
    }

    /// Sets aside the files of `files` that are settled or whose signature
    /// no other file in `files` has, and leaves in `files` the others: the
    /// files that still need a closer look.
    pub fn filter_and_collect(&mut self, files: &mut Vec<File>)
        ensures
            final(self).errs@ == old(self).errs@,
            final(self).stage == old(self).stage,
            sound_round(old(self).files@, old(files)@, final(self).files@, final(files)@),
            forall|i: int|
                old(self).files@.len() <= i < final(self).files@.len()
                    && #[trigger] final(self).files@[i].sig.size > 0 && sig_count(
                    old(files)@,
                    final(self).files@[i].sig,
                ) != 1 ==> final(self).files@[i].sig.size <= 4096 && (final(self).files@[i].sig.prefix
                    != 0 || final(self).files@[i].sig.hash != 0),
    {
        let ghost input = old(files)@;
        let ghost before = self.files@;
        let mut taken: Vec<File> = Vec::new();
        std::mem::swap(&mut taken, files);
        let sorted = sort_by_rank(taken);
        let ghost sorted_seq = sorted@;
        let mut parted = sorted;
        let mid = parted.partition_unique_by_key();
        let n = parted.len();
        let ghost region = parted@.subrange(mid as int, n as int);
        let ghost pending_test = by_sig(unsettled_sigs());
        let ghost settled_test = by_sig(settled_sigs());
        proof {
            reveal(Seq::filter);
            assert(region.take(0) =~= Seq::<File>::empty());
            assert(files@ =~= region.take(0).filter(pending_test));
            assert(self.files@ =~= before + region.take(0).filter(settled_test));
        }
        let mut i = mid;
        while i < n
            invariant
                mid <= i <= n,
                n == parted@.len(),
                region == parted@.subrange(mid as int, n as int),
                files@ == region.take(i - mid).filter(pending_test),
                self.files@ == before + region.take(i - mid).filter(settled_test),
                self.errs@ == old(self).errs@,
                self.stage == old(self).stage,
                pending_test == by_sig(unsettled_sigs()),
                settled_test == by_sig(settled_sigs()),
            decreases n - i,
        {
            let f = parted[i];
            proof {
                assert(region.take(i - mid + 1) =~= region.take(i - mid).push(f));
                region.take(i - mid).lemma_filter_push(f, pending_test);
                region.take(i - mid).lemma_filter_push(f, settled_test);
            }
            if is_settled(f.sig) {
                self.files.push(f);
            } else {
                files.push(f);
            }
            i += 1;
        }
        let ghost after_dups = self.files@;
        let mut j: usize = 0;
        while j < mid
            invariant
                j <= mid <= n,
                n == parted@.len(),
                self.files@ == after_dups + parted@.subrange(0, j as int),
                self.errs@ == old(self).errs@,
                self.stage == old(self).stage,
            decreases mid - j,
        {
            proof {
                assert(parted@.subrange(0, j + 1) =~= parted@.subrange(0, j as int).push(
                    parted@[j as int],
                ));
            }
            self.files.push(parted[j]);
            j += 1;
        }
        proof {
            assert(region.take(n - mid) =~= region);
            let settled_dups = region.filter(settled_test);
            let unique = parted@.subrange(0, mid as int);
            lemma_round(input, sorted_seq, parted@, mid as int, files@, settled_dups);
            assert(self.files@ =~= before + (settled_dups + unique));
            lemma_multiset_commutative(before, settled_dups + unique);
            lemma_multiset_commutative(before + (settled_dups + unique), files@);
            lemma_multiset_commutative(settled_dups + unique, files@);
            lemma_multiset_commutative(before, old(files)@);
            assert(self.files@ + files@ =~= before + (settled_dups + unique + files@));
            lemma_multiset_commutative(before, settled_dups + unique + files@);
            assert(self.files@.subrange(0, before.len() as int) =~= before);
            assert forall|k: int|
                before.len() <= k < self.files@.len() implies settled(
                    #[trigger] self.files@[k].sig,
                ) || sig_count(input, self.files@[k].sig) == 1 by {
                let m = k - before.len();
                if m < settled_dups.len() {
                    assert(self.files@[k] == settled_dups[m]);
                } else {
                    assert(self.files@[k] == parted@[m - settled_dups.len()]);
                }
            }
            lemma_set_aside_shared(before, input, self.files@, files@);
        }
    }

    /// Sets the files aside as they are.
    pub fn collect(&mut self, files: Vec<File>)
        ensures
            final(self).files@ == old(self).files@ + files@,
            final(self).errs@ == old(self).errs@,
            final(self).stage == old(self).stage,
    {
        let mut files = files;
        self.files.append(&mut files);
    }

    /// Takes in the outcome of the last step (the files the scan found, or
    /// the files of the last round of hashing with their new signatures, and
    /// the errors met) and says what to do next: hash the files that still
    /// share their signature by prefix, then by suffix, then in full; after
    /// the full hashes, report. Each file sent to be hashed shares its whole
    /// signature with another file sent along; with hashes recorded by
    /// `Sig::record`, a file goes to the full round only when another file
    /// has its size, its prefix hash and its suffix hash.
    pub fn run(&mut self, found: Vec<File>, errors: Vec<ErrorEntry>) -> (action: Action)
        ensures
            final(self).errs@ == old(self).errs@ + errors@,
            final(self).stage == next_stage(old(self).stage),
            match old(self).stage {
                Stage::Full | Stage::Report => {
                    &&& action is Report
                    &&& final(self).files@ == old(self).files@ + found@
                },
                _ => {
                    &&& action matches Action::Hash(h, pending) && h == stage_hash(final(self).stage)
                        && sound_round(old(self).files@, found@, final(self).files@, pending@)
                        && forall|i: int|
                        0 <= i < pending@.len() ==> #[trigger] shares_signature(pending@, i)
                },
            },
    {
        let mut errors = errors;
        self.errs.append(&mut errors);
        match self.stage {
            Stage::Full | Stage::Report => {
                self.collect(found);
                self.stage = Stage::Report;
                Action::Report
            },
            Stage::Scan | Stage::Prefix | Stage::Suffix => {
                let mut pending = found;
                self.filter_and_collect(&mut pending);
                proof {
                    lemma_shares_signature(pending@);
                }
                let hash = match self.stage {
                    Stage::Scan => {
                        self.stage = Stage::Prefix;
                        FileHash::Prefix(PARTIAL_HASH_SIZE)
                    },
                    Stage::Prefix => {
                        self.stage = Stage::Suffix;
                        FileHash::Suffix(PARTIAL_HASH_SIZE)
                    },
                    _ => {
                        self.stage = Stage::Full;
                        FileHash::Full
                    },
                };
                Action::Hash(hash, pending)
            },
        }
    }
}

} // verus!
