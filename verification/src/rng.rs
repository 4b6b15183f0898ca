//! Randomness, drawn through the `rand` crate. All random choices the
//! library makes go through these two functions, so everything downstream is
//! verified for every outcome they may produce.

use vstd::prelude::*;

verus! {

/// Relies on rand::random_range over `0..n`: a uniform draw from the range.
/// It panics only on an empty range, which the precondition rules out.
#[verifier::external_body]
pub(crate) fn rand_below(n: usize) -> (r: usize)
    requires
        1 <= n,
    ensures
        r < n,
{
    rand::random_range(0..n)
}

/// Relies on rand::random_ratio: true with probability `numerator /
/// denominator`; guaranteed true when the two are equal and false when the
/// numerator is 0. It panics when the denominator is 0 or smaller than the
/// numerator, which the precondition rules out.
#[verifier::external_body]
pub(crate) fn rand_ratio(numerator: u32, denominator: u32) -> (r: bool)
    requires
        1 <= denominator,
        numerator <= denominator,
    ensures
        numerator == denominator ==> r,
        numerator == 0 ==> !r,
{
    rand::random_ratio(numerator, denominator)
}

} // verus!
