//! The two uses this library makes of randomness: drawing an index below a
//! bound and shuffling a vector.  Nothing is assumed of the draws beyond
//! their range; callers state what holds of every outcome.

use vstd::prelude::*;

verus! {

/// Relies on `rand::Rng::gen_range` over `0..n` with the thread-local
/// generator: a uniformly drawn value below `n`; it panics on an empty
/// range, so `n` must be positive.
#[verifier::external_body]
pub(crate) fn random_below(n: usize) -> (r: usize)
    requires
        n > 0,
    ensures
        r < n,
{
    rand::Rng::gen_range(&mut rand::thread_rng(), 0..n)
}

/// Relies on `rand::seq::SliceRandom::shuffle` with the thread-local
/// generator: an in-place Fisher-Yates permutation built from swaps, so the
/// elements are rearranged and none is added or lost.
#[verifier::external_body]
pub(crate) fn shuffle_u32(v: &mut Vec<u32>)
    ensures
        final(v)@.len() == old(v)@.len(),
        final(v)@.to_multiset() == old(v)@.to_multiset(),
{
    rand::seq::SliceRandom::shuffle(v.as_mut_slice(), &mut rand::thread_rng());
}

} // verus!
