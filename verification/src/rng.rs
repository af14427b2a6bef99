//! The only places where randomness enters the library. Each wrapper states
//! no more than what holds of every outcome of the call.

use vstd::prelude::*;

verus! {

/// Relies on fastrand::usize: a draw from the non-empty range `0..bound`
/// lies in that range (the crate panics only on an empty range).
#[verifier::external_body]
pub(crate) fn rand_below(bound: usize) -> (r: usize)
    requires
        bound >= 1,
    ensures
        r < bound,
{
    fastrand::usize(..bound)
}

/// Relies on fastrand::shuffle: a Fisher-Yates pass over the slice only
/// swaps elements in place, so the multiset of elements is unchanged.
#[verifier::external_body]
pub(crate) fn shuffle_strings(v: &mut Vec<String>)
    ensures
        final(v)@.to_multiset() == old(v)@.to_multiset(),
        final(v)@.len() == old(v)@.len(),
{
    fastrand::shuffle(v);
}

} // verus!
