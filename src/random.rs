//! The source of randomness used by sampling and model ordering.

use vstd::prelude::*;

verus! {

/// Relies on `rand::random_range`: a value that the thread-local generator
/// draws from `0..bound` (the call panics on an empty range).
#[verifier::external_body]
pub(crate) fn draw_below(bound: u128) -> (r: u128)
    requires
        bound > 0,
    ensures
        r < bound,
{
    rand::random_range(0..bound)
}

} // verus!
