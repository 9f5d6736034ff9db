//! Random draws for the simulator. Every randomized operation takes the
//! caller's generator so that simulations are reproducible given a seed.

use vstd::prelude::*;

verus! {

#[verifier::external_type_specification]
#[verifier::external_body]
pub struct ExStdRng(rand::rngs::StdRng);

/// Relies on rand's `Rng::gen_range` over `0..hi`: returns a uniformly
/// distributed value below `hi`. Nothing further can be promised of a
/// random draw.
#[verifier::external_body]
pub(crate) fn rng_below(rng: &mut rand::rngs::StdRng, hi: usize) -> (r: usize)
    requires
        hi >= 1,
    ensures
        r < hi,
{
    rand::Rng::gen_range(rng, 0..hi)
}

} // verus!
