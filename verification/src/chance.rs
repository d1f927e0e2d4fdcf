use vstd::prelude::*;
use rand::Rng;

verus! {

/// Draws a number from `0..bound` with `rand::Rng::random_range` on the
/// thread-local generator returned by `rand::rng()`.
///
/// Claimed of the outside code: the result lies in `0..bound` (the range's
/// sampler returns a value `low <= v < high` and panics only on an empty
/// range, which `bound > 0` rules out). Which value comes out rests on
/// chance and is not stated. `rand::rng()` panics if the operating
/// system's random source cannot seed the generator; no precondition can
/// rule that out.
#[verifier::external_body]
pub(crate) fn random_below(bound: u32) -> (r: u32)
    requires
        bound > 0,
    ensures
        r < bound,
{
    rand::rng().random_range(0..bound)
}

} // verus!
