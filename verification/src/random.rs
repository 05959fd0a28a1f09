//! The source of randomness.

use rand::Rng;
use vstd::prelude::*;

verus! {

/// `Rng::gen_range` of the rand crate, asked of the generator that
/// `rand::thread_rng` hands out. It returns a number that is at least `low`
/// and less than `high`, and it panics when `low` is not below `high`.
/// Nothing more is known of the number: two calls may well differ.
#[verifier::external_body]
pub(crate) fn random_between(low: u64, high: u64) -> (value: u64)
    requires
        low < high,
    ensures
        low <= value < high,
{
    rand::thread_rng().gen_range(low, high)
}

} // verus!
