//! Splitting a sequence into the records that stand alone in their group
//! and those that have a neighbour of the same group.
use vstd::prelude::*;
use vstd::seq_lib::{lemma_multiset_commutative, to_multiset_build};

use crate::order::{Grouped, grouped_ascending, lemma_empty_multiset};

verus! {

/// The record at `i` has no neighbour of its own group.
pub open spec fn alone<T: Grouped>(s: Seq<T>, i: int) -> bool {
    &&& (i == 0 || s[i - 1].group() != s[i].group())
    &&& (i + 1 >= s.len() || s[i + 1].group() != s[i].group())
}

/// The records among the first `k` of `s` that stand alone, in order.
pub open spec fn alone_upto<T: Grouped>(s: Seq<T>, k: nat) -> Seq<T>
    decreases k,
{
    if k == 0 {
        Seq::empty()
    } else if alone(s, k - 1) {
        alone_upto(s, (k - 1) as nat).push(s[k - 1])
    } else {
        alone_upto(s, (k - 1) as nat)
    }
}

/// The records among the first `k` of `s` that have a neighbour of their
/// group, in order.
pub open spec fn crowded_upto<T: Grouped>(s: Seq<T>, k: nat) -> Seq<T>
    decreases k,
{
    if k == 0 {
        Seq::empty()
    } else if alone(s, k - 1) {
        crowded_upto(s, (k - 1) as nat)
    } else {
        crowded_upto(s, (k - 1) as nat).push(s[k - 1])
    }
}

/// The records that stand alone in their group, in order.
pub open spec fn alone_records<T: Grouped>(s: Seq<T>) -> Seq<T> {
    alone_upto(s, s.len())
}

/// The records that have a neighbour of their group, in order.
pub open spec fn crowded_records<T: Grouped>(s: Seq<T>) -> Seq<T> {
    crowded_upto(s, s.len())
}

/// How many records of `s` belong to group `g`.
pub open spec fn group_count<T: Grouped>(s: Seq<T>, g: int) -> nat
    decreases s.len(),
{
    if s.len() == 0 {
        0
    } else {
        group_count(s.drop_last(), g) + if s.last().group() == g {
            1nat
        } else {
            0nat
        }
    }
}

proof fn lemma_group_count_zero<T: Grouped>(s: Seq<T>, g: int)
    requires
        forall|j: int| 0 <= j < s.len() ==> #[trigger] s[j].group() != g,
    ensures
        group_count(s, g) == 0,
    decreases s.len(),
{
    if s.len() > 0 {
        let p = s.drop_last();
        assert forall|j: int| 0 <= j < p.len() implies #[trigger] p[j].group() != g by {
            assert(p[j] == s[j]);
        }
        lemma_group_count_zero(p, g);
    }
}

proof fn lemma_group_count_pos<T: Grouped>(s: Seq<T>, i: int)
    requires
        0 <= i < s.len(),
    ensures
        group_count(s, s[i].group()) >= 1,
    decreases s.len(),
{
    if i < s.len() - 1 {
        let p = s.drop_last();
        assert(p[i] == s[i]);
        lemma_group_count_pos(p, i);
    }
}

proof fn lemma_group_count_two<T: Grouped>(s: Seq<T>, i: int, j: int)
    requires
        0 <= i < s.len(),
        0 <= j < s.len(),
        i != j,
        s[i].group() == s[j].group(),
    ensures
        group_count(s, s[i].group()) >= 2,
    decreases s.len(),
{
    let p = s.drop_last();
    let n = s.len() - 1;
    if j == n {
        assert(p[i] == s[i]);
        lemma_group_count_pos(p, i);
    } else if i == n {
        assert(p[j] == s[j]);
        lemma_group_count_pos(p, j);
    } else {
        assert(p[i] == s[i] && p[j] == s[j]);
        lemma_group_count_two(p, i, j);
    }
}

proof fn lemma_group_count_one<T: Grouped>(s: Seq<T>, i: int)
    requires
        0 <= i < s.len(),
        forall|j: int| 0 <= j < s.len() && j != i ==> #[trigger] s[j].group() != s[i].group(),
    ensures
        group_count(s, s[i].group()) == 1,
    decreases s.len(),
{
    let p = s.drop_last();
    let g = s[i].group();
    if i == s.len() - 1 {
        assert forall|j: int| 0 <= j < p.len() implies #[trigger] p[j].group() != g by {
            assert(p[j] == s[j]);
        }
        lemma_group_count_zero(p, g);
    } else {
        assert(p[i] == s[i]);
        assert forall|j: int| 0 <= j < p.len() && j != i implies #[trigger] p[j].group() != p[
            i
        ].group() by {
            assert(p[j] == s[j]);
        }
        lemma_group_count_one(p, i);
    }
}

/// Law: when the groups of `s` ascend, a record stands alone exactly when
/// no other record belongs to its group.
pub proof fn lemma_alone_iff_unique<T: Grouped>(s: Seq<T>, i: int)
    requires
        grouped_ascending(s),
        0 <= i < s.len(),
    ensures
        alone(s, i) <==> group_count(s, s[i].group()) == 1,
{
    if alone(s, i) {
        assert forall|j: int| 0 <= j < s.len() && j != i implies #[trigger] s[j].group()
            != s[i].group() by {
            if j < i {
                assert(s[j].group() <= s[i - 1].group());
            } else {
                assert(s[i + 1].group() <= s[j].group());
            }
        }
        lemma_group_count_one(s, i);
    } else if i > 0 && s[i - 1].group() == s[i].group() {
        lemma_group_count_two(s, i, i - 1);
    } else {
        lemma_group_count_two(s, i, i + 1);
    }
}

proof fn lemma_upto_members<T: Grouped>(s: Seq<T>, k: nat, x: T)
    requires
        k <= s.len(),
    ensures
        alone_upto(s, k).contains(x) ==> exists|m: int| 0 <= m < k && alone(s, m) && s[m] == x,
        crowded_upto(s, k).contains(x) ==> exists|m: int| 0 <= m < k && !alone(s, m) && s[m] == x,
    decreases k,
{
    if k > 0 {
        let j = (k - 1) as nat;
        lemma_upto_members(s, j, x);
        if alone(s, j as int) {
            let a = alone_upto(s, j);
            if a.push(s[j as int]).contains(x) && !a.contains(x) {
                let q = choose|q: int| 0 <= q < a.push(s[j as int]).len() && a.push(s[j as int])[q] == x;
                assert(q == a.len());
            }
        } else {
            let c = crowded_upto(s, j);
            if c.push(s[j as int]).contains(x) && !c.contains(x) {
                let q = choose|q: int| 0 <= q < c.push(s[j as int]).len() && c.push(s[j as int])[q] == x;
                assert(q == c.len());
            }
        }
    }
}

/// Law: when the groups of `s` ascend, the records the partition puts in
/// front are those whose group has one member, and the records it puts
/// behind them are those whose group has two or more.
pub proof fn lemma_partition_counts<T: Grouped>(s: Seq<T>)
    requires
        grouped_ascending(s),
    ensures
        forall|x: T| #[trigger] alone_records(s).contains(x) ==> group_count(s, x.group()) == 1,
        forall|x: T| #[trigger] crowded_records(s).contains(x) ==> group_count(s, x.group()) >= 2,
{
    assert forall|x: T| #[trigger] alone_records(s).contains(x) implies group_count(s, x.group())
        == 1 by {
        lemma_upto_members(s, s.len(), x);
        let m = choose|m: int| 0 <= m < s.len() && alone(s, m) && s[m] == x;
        lemma_alone_iff_unique(s, m);
    }
    assert forall|x: T| #[trigger] crowded_records(s).contains(x) implies group_count(
        s,
        x.group(),
    ) >= 2 by {
        lemma_upto_members(s, s.len(), x);
        let m = choose|m: int| 0 <= m < s.len() && !alone(s, m) && s[m] == x;
        lemma_alone_iff_unique(s, m);
        lemma_group_count_pos(s, m);
    }
}

/// Sequences of records that can move their lone records to the front.
pub trait SliceExt<T: Grouped> {
    /// The records, in order.
    spec fn records(&self) -> Seq<T>;

    /// Moves the records that have no neighbour of their own group to the
    /// front, in their order, and the others behind them, in some order;
    /// returns how many stand alone. On records sorted by group these are
    /// the records whose group has no other member (`lemma_partition_counts`).
    /// Zero-sized record types are accepted too: the partition needs no
    /// element size, and partitions such records like any others.
    fn partition_unique_by_key(&mut self) -> (mid: usize)
        ensures
            final(self).records().len() == old(self).records().len(),
            mid <= final(self).records().len(),
            final(self).records().subrange(0, mid as int) == alone_records(old(self).records()),
            final(self).records().subrange(mid as int, final(self).records().len() as int).to_multiset()
                == crowded_records(old(self).records()).to_multiset(),
            final(self).records().to_multiset() == old(self).records().to_multiset(),
    ;

    /// The partition by equality: moves the records equal to neither
    /// neighbour to the front, in their order, and the others behind them,
    /// in some order; returns how many stand alone. It is for record types
    /// whose groups tell records apart (two records are equal exactly when
    /// their groups are), such as the integer types.
    fn partition_unique(&mut self) -> (mid: usize)
        requires
            forall|a: T, b: T| #[trigger] a.group() == #[trigger] b.group() <==> a == b,
        ensures
            final(self).records().len() == old(self).records().len(),
            mid <= final(self).records().len(),
            final(self).records().subrange(0, mid as int) == alone_records(old(self).records()),
            final(self).records().subrange(mid as int, final(self).records().len() as int).to_multiset()
                == crowded_records(old(self).records()).to_multiset(),
            final(self).records().to_multiset() == old(self).records().to_multiset(),
    ;
}

/// Inside a run of two or more records of one group no record stands alone.
proof fn lemma_run_crowded<T: Grouped>(s: Seq<T>, read: int, cursor: int)
    requires
        0 <= read,
        read + 1 < cursor <= s.len(),
        forall|i: int| read <= i < cursor ==> s[i].group() == s[read].group(),
    ensures
        forall|k: int| read <= k < cursor ==> !alone(s, k),
{
    assert forall|k: int| read <= k < cursor implies !alone(s, k) by {
        if k == read {
            assert(s[k + 1].group() == s[k].group());
        } else {
            assert(s[k - 1].group() == s[k].group());
        }
    }
}

/// Past records that do not stand alone, the alone records stay and the
/// crowded ones grow by those records.
proof fn lemma_extend_crowded<T: Grouped>(s: Seq<T>, read: int, cursor: int)
    requires
        0 <= read <= cursor <= s.len(),
        forall|k: int| read <= k < cursor ==> !alone(s, k),
    ensures
        alone_upto(s, cursor as nat) == alone_upto(s, read as nat),
        crowded_upto(s, cursor as nat) =~= crowded_upto(s, read as nat) + s.subrange(read, cursor),
    decreases cursor - read,
{
    if cursor > read {
        lemma_extend_crowded(s, read, cursor - 1);
        assert(s.subrange(read, cursor) =~= s.subrange(read, cursor - 1).push(s[cursor - 1]));
    } else {
        assert(s.subrange(read, cursor) =~= Seq::<T>::empty());
    }
}

/// The alone and the crowded records together are all the records.
proof fn lemma_split_multiset<T: Grouped>(s: Seq<T>, k: nat)
    requires
        k <= s.len(),
    ensures
        alone_upto(s, k).to_multiset().add(crowded_upto(s, k).to_multiset()) =~= s.subrange(
            0,
            k as int,
        ).to_multiset(),
    decreases k,
{
    if k == 0 {
        lemma_empty_multiset(alone_upto(s, 0));
        lemma_empty_multiset(crowded_upto(s, 0));
        lemma_empty_multiset(s.subrange(0, 0));
    } else {
        lemma_split_multiset(s, (k - 1) as nat);
        let x = s[k - 1];
        assert(s.subrange(0, k as int) =~= s.subrange(0, k - 1).push(x));
        to_multiset_build(s.subrange(0, k - 1), x);
        to_multiset_build(alone_upto(s, (k - 1) as nat), x);
        to_multiset_build(crowded_upto(s, (k - 1) as nat), x);
    }
}

/// Moving the first record of a stretch to its end keeps the multiset.
proof fn lemma_rotate_multiset<T>(x: T, mid: Seq<T>)
    ensures
        (seq![x] + mid).to_multiset() =~= (mid + seq![x]).to_multiset(),
{
    lemma_multiset_commutative(seq![x], mid);
    lemma_multiset_commutative(mid, seq![x]);
}

impl<T: Grouped> SliceExt<T> for Vec<T> {
    open spec fn records(&self) -> Seq<T> {
        self@
    }

    fn partition_unique(&mut self) -> (mid: usize) {
        self.partition_unique_by_key()
    }

    fn partition_unique_by_key(&mut self) -> (mid: usize) {
        let ghost orig = self@;
        let n = self.len();
        let mut read: usize = 0;
        let mut write: usize = 0;
        proof {
            assert(self@.subrange(0, 0) =~= alone_upto(orig, 0));
            lemma_empty_multiset(self@.subrange(0, 0));
            lemma_empty_multiset(crowded_upto(orig, 0));
            assert(self@.subrange(0, n as int) =~= orig);
        }
        while read < n
            invariant
                n == orig.len(),
                self@.len() == n,
                write <= read <= n,
                self@.subrange(read as int, n as int) == orig.subrange(read as int, n as int),
                self@.subrange(0, write as int) == alone_upto(orig, read as nat),
                self@.subrange(write as int, read as int).to_multiset() == crowded_upto(
                    orig,
                    read as nat,
                ).to_multiset(),
                read == 0 || read == n || orig[read - 1].group() != orig[read as int].group(),
            decreases n - read,
        {
            assert(self@[read as int] == orig[read as int]) by {
                assert(self@[read as int] == self@.subrange(read as int, n as int)[0]);
            }
            let mut cursor = read + 1;
            while cursor < n && self[read].same_group(&self[cursor])
                invariant
                    n == orig.len(),
                    self@.len() == n,
                    read < cursor <= n,
                    self@.subrange(read as int, n as int) == orig.subrange(read as int, n as int),
                    forall|i: int| read <= i < cursor ==> orig[i].group() == orig[read as int].group(),
                decreases n - cursor,
            {
                assert(self@[cursor as int] == self@.subrange(read as int, n as int)[cursor - read]);
                assert(self@[read as int] == self@.subrange(read as int, n as int)[0]);
                cursor += 1;
            }
            proof {
                if cursor < n {
                    assert(self@[cursor as int] == self@.subrange(read as int, n as int)[cursor
                        - read]);
                }
            }
            if cursor - read == 1 {
                let ghost before = self@;
                let x = self[write];
                let y = self[read];
                self.set(write, y);
                self.set(read, x);
                proof {
                    assert(alone(orig, read as int));
                    assert(alone_upto(orig, (read + 1) as nat) == alone_upto(orig, read as nat).push(
                        orig[read as int],
                    ));
                    assert(self@.subrange(0, write + 1) =~= before.subrange(0, write as int).push(
                        y,
                    ));
                    assert(self@.subrange(read + 1, n as int) =~= before.subrange(
                        read + 1,
                        n as int,
                    ));
                    assert(self@.subrange(read + 1, n as int) =~= orig.subrange(read + 1, n as int))
                        by {
                        assert(before.subrange(read + 1, n as int) =~= before.subrange(
                            read as int,
                            n as int,
                        ).subrange(1, n - read));
                        assert(orig.subrange(read + 1, n as int) =~= orig.subrange(
                            read as int,
                            n as int,
                        ).subrange(1, n - read));
                    }
                    if write < read {
                        let mid = before.subrange(write + 1, read as int);
                        assert(before.subrange(write as int, read as int) =~= seq![x] + mid);
                        assert(self@.subrange(write + 1, read + 1) =~= mid + seq![x]);
                        lemma_rotate_multiset(x, mid);
                    } else {
                        assert(self@.subrange(write + 1, read + 1) =~= Seq::<T>::empty());
                        assert(before.subrange(write as int, read as int) =~= Seq::<T>::empty());
                    }
                }
                write += 1;
            } else {
                proof {
                    lemma_run_crowded(orig, read as int, cursor as int);
                    lemma_extend_crowded(orig, read as int, cursor as int);
                    let left = self@.subrange(write as int, read as int);
                    let run = self@.subrange(read as int, cursor as int);
                    assert(run =~= orig.subrange(read as int, cursor as int)) by {
                        assert(run =~= self@.subrange(read as int, n as int).subrange(
                            0,
                            cursor - read,
                        ));
                        assert(orig.subrange(read as int, cursor as int) =~= orig.subrange(
                            read as int,
                            n as int,
                        ).subrange(0, cursor - read));
                    }
                    assert(self@.subrange(write as int, cursor as int) =~= left + run);
                    lemma_multiset_commutative(left, run);
                    lemma_multiset_commutative(crowded_upto(orig, read as nat), run);
                    assert(self@.subrange(cursor as int, n as int) =~= self@.subrange(
                        read as int,
                        n as int,
                    ).subrange(cursor - read, n - read));
                    assert(orig.subrange(cursor as int, n as int) =~= orig.subrange(
                        read as int,
                        n as int,
                    ).subrange(cursor - read, n - read));
                }
            }
            read = cursor;
        }
        proof {
            lemma_split_multiset(orig, n as nat);
            assert(orig.subrange(0, n as int) =~= orig);
            let final_seq = self@;
            assert(final_seq =~= final_seq.subrange(0, write as int) + final_seq.subrange(
                write as int,
                n as int,
            ));
            lemma_multiset_commutative(
                final_seq.subrange(0, write as int),
                final_seq.subrange(write as int, n as int),
            );
        }
        write
    }
}

} // verus!
