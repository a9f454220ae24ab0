//! The randomness source used by the generators: a seedable generator passed
//! in explicitly, so that runs are reproducible.

use vstd::prelude::*;

verus! {

#[verifier::external_type_specification]
#[verifier::external_body]
pub struct ExStdRng(rand::rngs::StdRng);

/// Relies on rand's `Rng::random_range` over `0..bound`: a draw uniformly
/// below `bound`. The range is non-empty, so the call cannot panic.
#[verifier::external_body]
pub fn draw_below(r: &mut rand::rngs::StdRng, bound: usize) -> (k: usize)
    requires
        bound >= 1,
    ensures
        k < bound,
{
    rand::Rng::random_range(r, 0..bound)
}

/// Relies on rand's `RngCore::next_u64`: the generator's next word; nothing
/// can be promised of its value.
#[verifier::external_body]
pub fn draw_u64(r: &mut rand::rngs::StdRng) -> u64 {
    rand::RngCore::next_u64(r)
}

} // verus!
