//! The network's seeded pseudo-random source, used only for internal
//! scheduling choices and for deriving further seeded sources for tests.

use vstd::prelude::*;

verus! {

#[verifier::external_type_specification]
#[verifier::external_body]
pub struct ExStdRng(rand::rngs::StdRng);

/// Relies on rand::SeedableRng::seed_from_u64: builds a pseudo-random source
/// determined by the seed alone. Nothing is claimed of the values it yields.
#[verifier::external_body]
pub(crate) fn rng_from_seed(seed: u64) -> rand::rngs::StdRng {
    <rand::rngs::StdRng as rand::SeedableRng>::seed_from_u64(seed)
}

/// Relies on rand::SeedableRng::from_entropy: builds a pseudo-random source
/// from fresh system entropy. Nothing is claimed of the values it yields.
#[verifier::external_body]
pub(crate) fn rng_from_entropy() -> rand::rngs::StdRng {
    <rand::rngs::StdRng as rand::SeedableRng>::from_entropy()
}

/// Relies on rand::Rng::gen_range: the sample lies inside the given range,
/// and the call panics only on an empty range, which `n > 0` rules out.
#[verifier::external_body]
pub(crate) fn rng_pick(rng: &mut rand::rngs::StdRng, n: usize) -> (r: usize)
    requires
        n > 0,
    ensures
        r < n,
{
    rand::Rng::gen_range(rng, 0..n)
}

/// Relies on rand::Rng::gen: draws the next pseudo-random value from the
/// source. Nothing is claimed of the value.
#[verifier::external_body]
pub(crate) fn rng_next_u64(rng: &mut rand::rngs::StdRng) -> u64 {
    rand::Rng::gen(rng)
}

} // verus!
