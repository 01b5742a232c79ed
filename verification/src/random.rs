//! Random choices, made by the `rand` crate.

use rand::Rng;
use rand::seq::SliceRandom;
use vstd::prelude::*;

verus! {

/// `rand::Rng::gen_range` on the thread's generator over `lo..=hi`: a
/// number from `lo` to `hi`. The range must not be empty, or the call
/// panics. Which number comes back is left to chance.
#[verifier::external_body]
pub(crate) fn random_in_range(lo: usize, hi: usize) -> (r: usize)
    requires
        lo <= hi,
    ensures
        lo <= r <= hi,
{
    rand::thread_rng().gen_range(lo..=hi)
}

/// `rand::seq::SliceRandom::choose` on the thread's generator: one element
/// of `items`, or nothing when `items` is empty. Which element comes back is
/// left to chance.
#[verifier::external_body]
pub(crate) fn choose_one(items: &Vec<usize>) -> (r: Option<usize>)
    ensures
        r is None <==> items@.len() == 0,
        r matches Some(x) ==> items@.contains(x),
{
    items.as_slice().choose(&mut rand::thread_rng()).copied()
}

} // verus!
