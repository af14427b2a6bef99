//! Bounded line sampler: a sorted sequence of uniformly drawn line offsets,
//! kept in ascending order so the word source can be walked once, forwards.

use vstd::prelude::*;
use crate::rng::rand_below;

verus! {

/// Non-decreasing order.
pub open spec fn sorted(s: Seq<usize>) -> bool {
    forall|i: int, j: int| 0 <= i <= j < s.len() ==> s[i] <= s[j]
}

/// Draws `length` line offsets, each uniform in `[0, bound)`, and returns
/// them in ascending order; duplicates are permitted.
pub fn sample_sorted(length: usize, bound: usize) -> (r: Vec<usize>)
    requires
        bound >= 1,
    ensures
        r@.len() == length,
        forall|i: int| 0 <= i < r@.len() ==> r@[i] < bound,
        sorted(r@),
{
    let mut out: Vec<usize> = Vec::new();
    let mut k: usize = 0;
    while k < length
        invariant
            bound >= 1,
            k <= length,
            out@.len() == k,
            forall|i: int| 0 <= i < out@.len() ==> out@[i] < bound,
            sorted(out@),
        decreases length - k,
    {
        let x = rand_below(bound);
        let mut p: usize = 0;
        while p < out.len() && out[p] <= x
            invariant
                p <= out@.len(),
                forall|j: int| 0 <= j < p ==> out@[j] <= x,
                sorted(out@),
                forall|i: int| 0 <= i < out@.len() ==> out@[i] < bound,
            decreases out@.len() - p,
        {
            p = p + 1;
        }
        let ghost prev = out@;
        out.insert(p, x);
        proof {
            prev.insert_ensures(p as int, x);
            assert forall|i: int, j: int| 0 <= i <= j < out@.len() implies out@[i] <= out@[j] by {
                if j < p {
                } else if i < p && j == p {
                    assert(out@[i] == prev[i]);
                } else if i == p && j > p {
                    assert(out@[j] == prev[j - 1] && prev[j - 1] >= prev[p as int]);
                } else if i > p {
                    assert(out@[i] == prev[i - 1] && out@[j] == prev[j - 1]);
                } else if i == p && j == p {
                }
            }
            assert forall|i: int| 0 <= i < out@.len() implies out@[i] < bound by {
                if i < p {
                    assert(out@[i] == prev[i]);
                } else if i > p {
                    assert(out@[i] == prev[i - 1]);
                }
            }
        }
        k = k + 1;
    }
    out
}

} // verus!
