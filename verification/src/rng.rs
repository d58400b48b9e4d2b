//! The seeded stream that resolves ties.

use vstd::prelude::*;
use rand::rngs::StdRng;
use rand::Rng;
use rand::SeedableRng;

verus! {

/// `rand::rngs::StdRng`, the generator behind the seeded tie-break. Nothing
/// inside it is visible to proofs.
#[verifier::external_type_specification]
#[verifier::external_body]
pub struct ExStdRng(StdRng);

/// `StdRng::seed_from_u64`: a generator seeded with `seed`. Nothing is
/// claimed of the generator or of the values that it will hand out.
#[verifier::external_body]
pub(crate) fn seeded_stream(seed: u64) -> StdRng {
    StdRng::seed_from_u64(seed)
}

/// `Rng::gen_range(0..bound)`: advances the stream and returns an index below
/// `bound`. The call panics on an empty range, so `bound` must be positive.
/// Which index comes back is not claimed.
#[verifier::external_body]
pub(crate) fn draw_below(rng: &mut StdRng, bound: usize) -> (drawn: usize)
    requires
        bound > 0,
    ensures
        drawn < bound,
{
    rng.gen_range(0..bound)
}

} // verus!
