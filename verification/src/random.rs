//! The source of randomness: a seedable generator that the caller owns.

use vstd::prelude::*;
use rand::Rng;
use rand::rngs::StdRng;

verus! {

#[verifier::external_type_specification]
#[verifier::external_body]
pub struct ExStdRng(rand::rngs::StdRng);

/// Draws a position in a list of `n` entries.
///
/// Calls `Rng::random_range` of the `rand` crate on the range `0..n`. That
/// method panics on an empty range, so `n` must be positive; it then returns
/// a value of the range. Which one depends on the state of the generator, and
/// nothing more is claimed of it.
#[verifier::external_body]
pub(crate) fn pick(rng: &mut StdRng, n: usize) -> (k: usize)
    requires
        n > 0,
    ensures
        k < n,
{
    rng.random_range(0..n)
}

} // verus!
