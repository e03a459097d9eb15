//! The call into `rand`.
use rand::Rng;
use vstd::prelude::*;

verus! {

/// Draws a number from `low` (included) to `high` (excluded) with
/// `rand::thread_rng().gen_range`, which panics when `low >= high` (ruled
/// out here). The draw is random, so nothing more is stated of it.
#[verifier::external_body]
pub(crate) fn random_between(low: usize, high: usize) -> (r: usize)
    requires
        low < high,
    ensures
        low <= r < high,
{
    rand::thread_rng().gen_range(low, high)
}

} // verus!
