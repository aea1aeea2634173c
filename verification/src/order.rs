//! Ordering and grouping of records: a merge sort by rank, and the split of a
//! sequence into maximal runs of records of one group.
use vstd::prelude::*;
use vstd::seq_lib::{
    lemma_multiset_commutative, to_multiset_build, to_multiset_len, to_multiset_contains,
    seq_to_set_is_finite,
};
use vstd::set::axiom_set_insert_len;
use vstd::multiset::{lemma_multiset_empty_len, Multiset};

verus! {

/// Records that are ordered by an integer rank.
pub trait Ranked: Copy {
    /// Where the record sorts: smaller ranks first.
    spec fn rank(&self) -> int;

    /// Whether `self` may stand before `other`.
    fn rank_le(&self, other: &Self) -> (r: bool)
        ensures
            r == (self.rank() <= other.rank()),
    ;
}

/// Records that fall into groups, told apart by an integer key.
pub trait Grouped: Copy {
    /// The group the record belongs to.
    spec fn group(&self) -> int;

    /// Whether two records belong to one group.
    fn same_group(&self, other: &Self) -> (r: bool)
        ensures
            r == (self.group() == other.group()),
    ;
}

impl Grouped for u32 {
    /// An integer is its own group.
    open spec fn group(&self) -> int {
        *self as int
    }

    fn same_group(&self, other: &Self) -> (r: bool) {
        *self == *other
    }
}

impl Grouped for u64 {
    /// An integer is its own group.
    open spec fn group(&self) -> int {
        *self as int
    }

    fn same_group(&self, other: &Self) -> (r: bool) {
        *self == *other
    }
}

impl Grouped for usize {
    /// An integer is its own group.
    open spec fn group(&self) -> int {
        *self as int
    }

    fn same_group(&self, other: &Self) -> (r: bool) {
        *self == *other
    }
}

impl Grouped for i64 {
    /// An integer is its own group.
    open spec fn group(&self) -> int {
        *self as int
    }

    fn same_group(&self, other: &Self) -> (r: bool) {
        *self == *other
    }
}

/// `s` is in ascending order of rank.
pub open spec fn sorted_by_rank<T: Ranked>(s: Seq<T>) -> bool {
    forall|i: int, j: int| 0 <= i <= j < s.len() ==> s[i].rank() <= s[j].rank()
}

/// Sorts by rank (ties in no promised order).
pub fn sort_by_rank<T: Ranked>(v: Vec<T>) -> (r: Vec<T>)
    ensures
        sorted_by_rank(r@),
        r@.to_multiset() == v@.to_multiset(),
        r@.len() == v@.len(),
    decreases v@.len(),
{
    let n = v.len();
    if n <= 1 {
        return v;
    }
    let mut left = v;
    let ghost whole = left@;
    let right = left.split_off(n / 2);
    proof {
        assert(whole =~= left@ + right@);
        lemma_multiset_commutative(left@, right@);
    }
    let left = sort_by_rank(left);
    let right = sort_by_rank(right);
    merge(&left, &right)
}

/// Merges two sorted sequences into one.
fn merge<T: Ranked>(a: &Vec<T>, b: &Vec<T>) -> (r: Vec<T>)
    requires
        sorted_by_rank(a@),
        sorted_by_rank(b@),
    ensures
        sorted_by_rank(r@),
        r@.to_multiset() == a@.to_multiset().add(b@.to_multiset()),
        r@.len() == a@.len() + b@.len(),
{
    let mut r: Vec<T> = Vec::new();
    let mut i: usize = 0;
    let mut j: usize = 0;
    proof {
        assert(a@.subrange(0, 0) =~= Seq::<T>::empty());
        assert(b@.subrange(0, 0) =~= Seq::<T>::empty());
        lemma_empty_multiset(a@.subrange(0, 0));
        lemma_empty_multiset(b@.subrange(0, 0));
        lemma_empty_multiset(r@);
    }
    while i < a.len() || j < b.len()
        invariant
            i <= a@.len(),
            j <= b@.len(),
            sorted_by_rank(a@),
            sorted_by_rank(b@),
            sorted_by_rank(r@),
            r@.len() == i + j,
            r@.to_multiset() == a@.subrange(0, i as int).to_multiset().add(
                b@.subrange(0, j as int).to_multiset(),
            ),
            r@.len() > 0 && i < a@.len() ==> r@.last().rank() <= a@[i as int].rank(),
            r@.len() > 0 && j < b@.len() ==> r@.last().rank() <= b@[j as int].rank(),
        decreases a@.len() + b@.len() - i - j,
    {
        let take_a = if i < a.len() && j < b.len() {
            a[i].rank_le(&b[j])
        } else {
            i < a.len()
        };
        let ghost old_r = r@;
        if take_a {
            let x = a[i];
            r.push(x);
            proof {
                assert(a@.subrange(0, i + 1) =~= a@.subrange(0, i as int).push(x));
                to_multiset_build(a@.subrange(0, i as int), x);
                to_multiset_build(old_r, x);
            }
            i += 1;
        } else {
            let x = b[j];
            r.push(x);
            proof {
                assert(b@.subrange(0, j + 1) =~= b@.subrange(0, j as int).push(x));
                to_multiset_build(b@.subrange(0, j as int), x);
                to_multiset_build(old_r, x);
            }
            j += 1;
        }
        proof {
            assert forall|p: int, q: int| 0 <= p <= q < r@.len() implies r@[p].rank()
                <= r@[q].rank() by {
                if q == r@.len() - 1 && p < q {
                    assert(r@[p] == old_r[p]);
                    assert(old_r[p].rank() <= old_r.last().rank());
                }
            }
        }
    }
    proof {
        assert(a@.subrange(0, a@.len() as int) =~= a@);
        assert(b@.subrange(0, b@.len() as int) =~= b@);
    }
    r
}

/// The empty sequence has the empty multiset.
pub proof fn lemma_empty_multiset<T>(s: Seq<T>)
    requires
        s.len() == 0,
    ensures
        s.to_multiset() =~= Multiset::<T>::empty(),
{
    to_multiset_len(s);
    lemma_multiset_empty_len(s.to_multiset());
}

/// A maximal stretch of consecutive records of one group: `count` records
/// from index `start` on.
#[derive(Clone, Copy)]
pub struct Run {
    pub start: usize,
    pub count: usize,
}

/// The records at `i` and `i + 1` belong to different groups (or `i` is the
/// last index): a run may end at `i`.
pub open spec fn ends_run<T: Grouped>(s: Seq<T>, i: int) -> bool {
    i + 1 >= s.len() || s[i].group() != s[i + 1].group()
}

/// `runs` splits `s` into its maximal runs, in order: each run is non-empty,
/// starts where the previous ended, holds records of one group, and differs
/// in group from the next run.
pub open spec fn is_run_split<T: Grouped>(s: Seq<T>, runs: Seq<Run>) -> bool {
    &&& forall|k: int| 0 <= k < runs.len() ==> #[trigger] runs[k].count >= 1
    &&& forall|k: int| 0 <= k < runs.len() ==> #[trigger] runs[k].start + runs[k].count <= s.len()
    &&& runs.len() > 0 ==> runs[0].start == 0
    &&& runs.len() == 0 <==> s.len() == 0
    &&& runs.len() > 0 ==> runs.last().start + runs.last().count == s.len()
    &&& forall|k: int|
        0 <= k < runs.len() - 1 ==> #[trigger] runs[k + 1].start == runs[k].start + runs[k].count
    &&& forall|k: int, i: int|
        0 <= k < runs.len() && runs[k].start <= i < runs[k].start + runs[k].count ==> #[trigger] s[i].group()
            == #[trigger] s[runs[k].start as int].group()
    &&& forall|k: int|
        0 <= k < runs.len() ==> #[trigger] ends_run(s, runs[k].start + runs[k].count - 1)
}

/// The maximal runs of `s`, in order: each record either extends the run of
/// the record before it (same group) or starts a new run.
pub open spec fn maximal_runs<T: Grouped>(s: Seq<T>) -> Seq<Run>
    decreases s.len(),
{
    if s.len() == 0 {
        Seq::empty()
    } else {
        let prev = maximal_runs(s.drop_last());
        if s.len() >= 2 && s[s.len() - 2].group() == s.last().group() {
            prev.update(
                prev.len() - 1,
                Run { start: prev.last().start, count: (prev.last().count + 1) as usize },
            )
        } else {
            prev.push(Run { start: (s.len() - 1) as usize, count: 1 })
        }
    }
}

/// The maximal runs split the sequence as `is_run_split` describes.
pub proof fn lemma_maximal_runs_split<T: Grouped>(s: Seq<T>)
    requires
        s.len() <= usize::MAX,
    ensures
        is_run_split(s, maximal_runs(s)),
    decreases s.len(),
{
    if s.len() > 0 {
        let p = s.drop_last();
        let x = s.last();
        lemma_maximal_runs_split(p);
        let rp = maximal_runs(p);
        let r = maximal_runs(s);
        assert forall|i: int| 0 <= i < p.len() implies s[i] == p[i] by {}
        if s.len() >= 2 && s[s.len() - 2].group() == x.group() {
            let last = rp.len() - 1;
            assert(rp[last].start <= p.len() - 1);
            assert forall|k: int| 0 <= k < r.len() implies #[trigger] ends_run(
                s,
                r[k].start + r[k].count - 1,
            ) by {
                if k < last {
                    assert(r[k] == rp[k]);
                    assert(rp[k + 1].start + rp[k + 1].count <= p.len());
                    assert(rp[k + 1].count >= 1);
                    assert(ends_run(p, rp[k].start + rp[k].count - 1));
                    if k + 1 < rp.len() {
                        assert(rp[k + 1].start == rp[k].start + rp[k].count);
                    }
                } else {
                    assert(rp[last].start + rp[last].count == p.len());
                    assert(r[k].start == rp[last].start);
                    assert(r[k].count == rp[last].count + 1);
                }
            }
            assert forall|k: int, i: int|
                0 <= k < r.len() && r[k].start <= i < r[k].start + r[k].count
                    implies #[trigger] s[i].group() == #[trigger] s[r[k].start as int].group() by {
                assert(rp[last].start + rp[last].count == p.len());
                if k < last {
                    assert(r[k] == rp[k]);
                    assert(rp[k].start + rp[k].count <= p.len());
                    assert(p[i].group() == p[rp[k].start as int].group());
                } else if i < p.len() {
                    assert(r[k].start == rp[last].start);
                    assert(p[i].group() == p[rp[last].start as int].group());
                } else {
                    assert(r[k].start == rp[last].start);
                    assert(p[p.len() - 1].group() == p[rp[last].start as int].group());
                }
            }
            assert forall|k: int| 0 <= k < r.len() - 1 implies #[trigger] r[k + 1].start
                == r[k].start + r[k].count by {
                assert(rp[k + 1].start == rp[k].start + rp[k].count);
            }
            assert forall|k: int| 0 <= k < r.len() implies #[trigger] r[k].count >= 1 by {
                assert(rp[k].count >= 1);
            }
            assert forall|k: int| 0 <= k < r.len() implies #[trigger] r[k].start + r[k].count
                <= s.len() by {
                assert(rp[k].start + rp[k].count <= p.len());
            }
        } else {
            assert forall|k: int| 0 <= k < r.len() implies #[trigger] ends_run(
                s,
                r[k].start + r[k].count - 1,
            ) by {
                if k < rp.len() {
                    assert(r[k] == rp[k]);
                    assert(ends_run(p, rp[k].start + rp[k].count - 1));
                    if k + 1 < rp.len() {
                        assert(rp[k + 1].start == rp[k].start + rp[k].count);
                        assert(rp[k + 1].start + rp[k + 1].count <= p.len());
                        assert(rp[k + 1].count >= 1);
                    }
                    if k == rp.len() - 1 {
                        assert(rp[k].start + rp[k].count == p.len());
                    }
                } else {
                    assert(r[k] == Run { start: (s.len() - 1) as usize, count: 1 });
                }
            }
            assert forall|k: int, i: int|
                0 <= k < r.len() && r[k].start <= i < r[k].start + r[k].count
                    implies #[trigger] s[i].group() == #[trigger] s[r[k].start as int].group() by {
                if k < rp.len() {
                    assert(r[k] == rp[k]);
                    assert(rp[k].start + rp[k].count <= p.len());
                    assert(p[i].group() == p[rp[k].start as int].group());
                } else {
                    assert(r[k] == Run { start: (s.len() - 1) as usize, count: 1 });
                    assert(i == s.len() - 1);
                }
            }
            assert forall|k: int| 0 <= k < r.len() - 1 implies #[trigger] r[k + 1].start
                == r[k].start + r[k].count by {
                if k + 1 < rp.len() {
                    assert(rp[k + 1].start == rp[k].start + rp[k].count);
                }
            }
            assert forall|k: int| 0 <= k < r.len() implies #[trigger] r[k].count >= 1 by {
                if k < rp.len() {
                    assert(rp[k].count >= 1);
                }
            }
            assert forall|k: int| 0 <= k < r.len() implies #[trigger] r[k].start + r[k].count
                <= s.len() by {
                if k < rp.len() {
                    assert(rp[k].start + rp[k].count <= p.len());
                }
            }
        }
    }
}

/// The groups of the records of `s`, in order.
pub open spec fn groups_of<T: Grouped>(s: Seq<T>) -> Seq<int>
    decreases s.len(),
{
    if s.len() == 0 {
        Seq::empty()
    } else {
        groups_of(s.drop_last()).push(s.last().group())
    }
}

/// The number of distinct groups among the records of `s`.
pub open spec fn distinct_groups<T: Grouped>(s: Seq<T>) -> nat {
    groups_of(s).to_set().len()
}

/// The groups of `s` never decrease along it.
pub open spec fn grouped_ascending<T: Grouped>(s: Seq<T>) -> bool {
    forall|i: int, j: int| 0 <= i <= j < s.len() ==> s[i].group() <= s[j].group()
}

/// `groups_of` lists the group of each record at its index.
pub proof fn lemma_groups_of_index<T: Grouped>(s: Seq<T>)
    ensures
        groups_of(s).len() == s.len(),
        forall|i: int| 0 <= i < s.len() ==> #[trigger] groups_of(s)[i] == s[i].group(),
    decreases s.len(),
{
    if s.len() > 0 {
        lemma_groups_of_index(s.drop_last());
    }
}

/// A group occurs in `groups_of(s)` exactly when some record of `s` has it.
proof fn lemma_groups_of_contains<T: Grouped>(s: Seq<T>, g: int)
    ensures
        groups_of(s).to_set().contains(g) <==> exists|i: int|
            0 <= i < s.len() && #[trigger] s[i].group() == g,
{
    lemma_groups_of_index(s);
    if groups_of(s).to_set().contains(g) {
        let i = choose|i: int| 0 <= i < groups_of(s).len() && groups_of(s)[i] == g;
        assert(s[i].group() == g);
    }
    if exists|i: int| 0 <= i < s.len() && #[trigger] s[i].group() == g {
        let i = choose|i: int| 0 <= i < s.len() && #[trigger] s[i].group() == g;
        assert(groups_of(s)[i] == g);
        assert(groups_of(s).contains(g));
    }
}

/// Law: reordering the records keeps the number of distinct groups.
pub proof fn lemma_distinct_groups_perm<T: Grouped>(a: Seq<T>, b: Seq<T>)
    requires
        a.to_multiset() == b.to_multiset(),
    ensures
        distinct_groups(a) == distinct_groups(b),
{
    assert(groups_of(a).to_set() =~= groups_of(b).to_set()) by {
        assert forall|g: int| groups_of(a).to_set().contains(g) implies groups_of(
            b,
        ).to_set().contains(g) by {
            lemma_groups_of_contains(a, g);
            lemma_groups_of_contains(b, g);
            let i = choose|i: int| 0 <= i < a.len() && #[trigger] a[i].group() == g;
            to_multiset_contains(a, a[i]);
            to_multiset_contains(b, a[i]);
            assert(a.contains(a[i]));
            let j = choose|j: int| 0 <= j < b.len() && b[j] == a[i];
            assert(b[j].group() == g);
        }
        assert forall|g: int| groups_of(b).to_set().contains(g) implies groups_of(
            a,
        ).to_set().contains(g) by {
            lemma_groups_of_contains(a, g);
            lemma_groups_of_contains(b, g);
            let j = choose|j: int| 0 <= j < b.len() && #[trigger] b[j].group() == g;
            to_multiset_contains(a, b[j]);
            to_multiset_contains(b, b[j]);
            assert(b.contains(b[j]));
            let i = choose|i: int| 0 <= i < a.len() && a[i] == b[j];
            assert(a[i].group() == g);
        }
    }
}

/// Law: a sequence whose groups ascend has exactly one maximal run per
/// distinct group.
pub proof fn lemma_runs_count_groups<T: Grouped>(s: Seq<T>)
    requires
        grouped_ascending(s),
    ensures
        maximal_runs(s).len() == distinct_groups(s),
    decreases s.len(),
{
    if s.len() == 0 {
        assert(groups_of(s).to_set() =~= Set::<int>::empty());
    } else {
        let p = s.drop_last();
        let x = s.last();
        lemma_runs_count_groups(p);
        let gp = groups_of(p);
        seq_to_set_is_finite(gp);
        gp.lemma_push_to_set_commute(x.group());
        axiom_set_insert_len(gp.to_set(), x.group());
        lemma_groups_of_contains(p, x.group());
        if s.len() >= 2 && s[s.len() - 2].group() == x.group() {
            assert(p[p.len() - 1].group() == x.group());
        } else if s.len() >= 2 {
            assert forall|i: int| 0 <= i < p.len() implies #[trigger] p[i].group() != x.group() by {
                assert(p[i] == s[i]);
                assert(s[i].group() <= s[s.len() - 2].group());
                assert(s[s.len() - 2].group() <= x.group());
            }
        }
    }
}

/// Splits `v` into its maximal runs of records of one group.
pub fn runs_of<T: Grouped>(v: &Vec<T>) -> (runs: Vec<Run>)
    ensures
        runs@ == maximal_runs(v@),
        is_run_split(v@, runs@),
{
    let n = v.len();
    let mut runs: Vec<Run> = Vec::new();
    let mut i: usize = 0;
    proof {
        assert(v@.take(0) =~= Seq::<T>::empty());
    }
    while i < n
        invariant
            n == v@.len(),
            i <= n,
            runs@ == maximal_runs(v@.take(i as int)),
        decreases n - i,
    {
        let ghost p = v@.take(i as int);
        let ghost s = v@.take(i + 1);
        proof {
            assert(s.drop_last() =~= p);
            lemma_maximal_runs_split(p);
        }
        if i > 0 && v[i - 1].same_group(&v[i]) {
            let last = runs.len() - 1;
            let r = runs[last];
            runs.set(last, Run { start: r.start, count: r.count + 1 });
        } else {
            runs.push(Run { start: i, count: 1 });
        }
        i += 1;
    }
    proof {
        assert(v@.take(n as int) =~= v@);
        lemma_maximal_runs_split(v@);
    }
    runs
}

} // verus!
