//! Evenly spread windows over a sequence, for showing samples of a long
//! sorted list: the first window at the start, the last at the end.
use vstd::prelude::*;

verus! {

/// Where window `i` of `count` windows of `n` items starts in a sequence
/// of `len` items.
pub open spec fn window_start(len: nat, n: nat, count: nat, i: nat) -> nat {
    i * ((len - n) as nat) / ((count - 1) as nat)
}

/// The starts of `count` windows of `n` items spread evenly over `len`
/// items: window `i` starts at `i * (len - n) / (count - 1)`.
pub fn windows(len: usize, n: usize, count: usize) -> (starts: Vec<usize>)
    requires
        count >= 2,
        count * n <= len,
        (count - 1) * (len - n) <= usize::MAX,
    ensures
        starts@.len() == count,
        forall|i: int|
            0 <= i < count ==> #[trigger] starts@[i] == window_start(
                len as nat,
                n as nat,
                count as nat,
                i as nat,
            ),
        forall|i: int| 0 <= i < count ==> #[trigger] starts@[i] + n <= len,
{
    let mut starts: Vec<usize> = Vec::new();
    assert(n <= count * n) by (nonlinear_arith)
        requires
            count >= 2,
    ;
    let span = len - n;
    let mut i: usize = 0;
    while i < count
        invariant
            i <= count,
            count >= 2,
            count * n <= len,
            span == len - n,
            (count - 1) * span <= usize::MAX,
            starts@.len() == i,
            forall|k: int|
                0 <= k < i ==> #[trigger] starts@[k] == window_start(
                    len as nat,
                    n as nat,
                    count as nat,
                    k as nat,
                ),
            forall|k: int| 0 <= k < i ==> #[trigger] starts@[k] + n <= len,
        decreases count - i,
    {
        assert(i * span <= (count - 1) * span) by (nonlinear_arith)
            requires
                i < count,
                span >= 0,
        ;
        assert(n <= count * n) by (nonlinear_arith)
            requires
                count >= 2,
        ;
        assert(i * span / (count - 1) <= span) by (nonlinear_arith)
            requires
                i <= count - 1,
                count >= 2,
                span >= 0,
        ;
        starts.push(i * span / (count - 1));
        i += 1;
    }
    starts
}

} // verus!
