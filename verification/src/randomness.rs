//! The two points where chance enters the library, each behind a contract
//! that holds of every outcome.
use vstd::prelude::*;

verus! {

/// Relies on rand's `SliceRandom::shuffle`: an in-place Fisher-Yates pass
/// that only swaps elements, so the shuffled vector holds exactly the same
/// elements with the same multiplicities.
#[verifier::external_body]
pub(crate) fn shuffle_indices(v: &mut Vec<usize>)
    ensures
        final(v)@.to_multiset() == old(v)@.to_multiset(),
{
    let mut rng = rand::thread_rng();
    rand::seq::SliceRandom::shuffle(v.as_mut_slice(), &mut rng);
}

/// Relies on rand's `Rng::gen_range`: a sample from the given range, which
/// is nonempty here, so the result lies inside it.
#[verifier::external_body]
pub(crate) fn pick_in_range(lo: usize, hi: usize) -> (r: usize)
    requires
        lo <= hi,
    ensures
        lo <= r <= hi,
{
    let mut rng = rand::thread_rng();
    rand::Rng::gen_range(&mut rng, lo..=hi)
}

} // verus!
