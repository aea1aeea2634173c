//! Weighted counts over sequences, and why they do not depend on order.
use vstd::prelude::*;
use vstd::seq_lib::{to_multiset_build, to_multiset_remove, to_multiset_len, to_multiset_contains};
use vstd::multiset::group_multiset_axioms;

verus! {

/// The sum of `f` over the elements of `s`.
pub open spec fn seq_sum<A>(s: Seq<A>, f: spec_fn(A) -> nat) -> nat
    decreases s.len(),
{
    if s.len() == 0 {
        0
    } else {
        seq_sum(s.drop_last(), f) + f(s.last())
    }
}

/// The sum of `f(i)` for `i` in `0..k`.
pub open spec fn index_sum(k: int, f: spec_fn(int) -> nat) -> nat
    decreases k,
{
    if k <= 0 {
        0
    } else {
        index_sum(k - 1, f) + f(k - 1)
    }
}

/// A sum over a concatenation is the sum of the sums.
pub proof fn lemma_seq_sum_add<A>(a: Seq<A>, b: Seq<A>, f: spec_fn(A) -> nat)
    ensures
        seq_sum(a + b, f) == seq_sum(a, f) + seq_sum(b, f),
    decreases b.len(),
{
    if b.len() == 0 {
        assert(a + b =~= a);
    } else {
        assert((a + b).drop_last() =~= a + b.drop_last());
        lemma_seq_sum_add(a, b.drop_last(), f);
    }
}

/// Taking an element out of a sequence takes its weight off the sum.
pub proof fn lemma_seq_sum_remove<A>(s: Seq<A>, k: int, f: spec_fn(A) -> nat)
    requires
        0 <= k < s.len(),
    ensures
        seq_sum(s, f) == seq_sum(s.remove(k), f) + f(s[k]),
{
    let (lo, hi) = (s.subrange(0, k), s.subrange(k + 1, s.len() as int));
    assert(s =~= lo + (seq![s[k]] + hi));
    assert(s.remove(k) =~= lo + hi);
    lemma_seq_sum_add(lo, seq![s[k]] + hi, f);
    lemma_seq_sum_add(seq![s[k]], hi, f);
    lemma_seq_sum_add(lo, hi, f);
    let one = seq![s[k]];
    assert(one.drop_last() =~= Seq::<A>::empty());
    assert(seq_sum(one.drop_last(), f) == 0);
    assert(one.last() == s[k]);
    assert(seq_sum(one, f) == f(s[k]));
}

/// Sums do not depend on the order of the elements.
pub proof fn lemma_seq_sum_perm<A>(a: Seq<A>, b: Seq<A>, f: spec_fn(A) -> nat)
    requires
        a.to_multiset() == b.to_multiset(),
    ensures
        seq_sum(a, f) == seq_sum(b, f),
    decreases a.len(),
{
    broadcast use group_multiset_axioms;

    to_multiset_len(a);
    to_multiset_len(b);
    if a.len() > 0 {
        let x = a.last();
        let rest = a.drop_last();
        assert(a =~= rest.push(x));
        to_multiset_build(rest, x);
        assert(b.to_multiset().count(x) > 0);
        to_multiset_contains(b, x);
        let k = choose|k: int| 0 <= k < b.len() && b[k] == x;
        to_multiset_remove(b, k);
        assert(b.remove(k).to_multiset() =~= rest.to_multiset());
        lemma_seq_sum_perm(rest, b.remove(k), f);
        lemma_seq_sum_remove(b, k, f);
    }
}

/// A sum is at least any one of its terms.
pub proof fn lemma_seq_sum_term<A>(s: Seq<A>, k: int, f: spec_fn(A) -> nat)
    requires
        0 <= k < s.len(),
    ensures
        f(s[k]) <= seq_sum(s, f),
{
    lemma_seq_sum_remove(s, k, f);
}

/// A sum over a prefix is at most the whole sum.
pub proof fn lemma_index_sum_monotone(j: int, k: int, f: spec_fn(int) -> nat)
    requires
        j <= k,
    ensures
        index_sum(j, f) <= index_sum(k, f),
    decreases k - j,
{
    if j < k {
        lemma_index_sum_monotone(j, k - 1, f);
    }
}

/// Pointwise smaller terms give a smaller sum.
pub proof fn lemma_index_sum_le(k: int, f: spec_fn(int) -> nat, g: spec_fn(int) -> nat)
    requires
        forall|i: int| 0 <= i < k ==> #[trigger] f(i) <= g(i),
    ensures
        index_sum(k, f) <= index_sum(k, g),
    decreases k,
{
    if k > 0 {
        lemma_index_sum_le(k - 1, f, g);
    }
}

/// Sums of pointwise sums add up.
pub proof fn lemma_index_sum_plus(
    k: int,
    f: spec_fn(int) -> nat,
    g: spec_fn(int) -> nat,
    h: spec_fn(int) -> nat,
)
    requires
        forall|i: int| 0 <= i < k ==> #[trigger] h(i) == f(i) + g(i),
    ensures
        index_sum(k, h) == index_sum(k, f) + index_sum(k, g),
    decreases k,
{
    if k > 0 {
        lemma_index_sum_plus(k - 1, f, g, h);
    }
}

/// A sum over the elements of a sequence is the sum over its indices.
pub proof fn lemma_seq_sum_index<A>(s: Seq<A>, f: spec_fn(A) -> nat, g: spec_fn(int) -> nat)
    requires
        forall|i: int| 0 <= i < s.len() ==> #[trigger] g(i) == f(s[i]),
    ensures
        seq_sum(s, f) == index_sum(s.len() as int, g),
    decreases s.len(),
{
    if s.len() > 0 {
        lemma_seq_sum_index(s.drop_last(), f, g);
    }
}

} // verus!
