//! The library's source of chance: the thread-local generator of the `rand`
//! crate. Nothing here is proved; each contract states what `rand` documents.

use rand::Rng;
use vstd::prelude::*;

verus! {

/// Calls `Rng::random_range(0..bound)` on `rand::rng()`.
///
/// `rand` panics on an empty range, so `bound` must be positive; the value it
/// returns lies in the range. Which value comes is not stated: two calls with
/// the same bound may differ.
#[verifier::external_body]
pub(crate) fn random_below(bound: usize) -> (r: usize)
    requires
        bound > 0,
    ensures
        r < bound,
{
    rand::rng().random_range(0..bound)
}

/// Calls `Rng::random_ratio(numerator, denominator)` on `rand::rng()`: `true`
/// with a chance of `numerator` in `denominator`.
///
/// `rand` panics when the denominator is zero or smaller than the numerator.
/// It documents that the result is always `true` when the two are equal and
/// always `false` when the numerator is zero; of the other cases nothing is
/// stated.
#[verifier::external_body]
pub(crate) fn random_ratio(numerator: u32, denominator: u32) -> (r: bool)
    requires
        denominator > 0,
        numerator <= denominator,
    ensures
        numerator == denominator ==> r,
        numerator == 0 ==> !r,
{
    rand::rng().random_ratio(numerator, denominator)
}

} // verus!
