//! The crate's only randomness: a seedable generator from the `rand`
//! crate, reached through trusted wrappers.

use vstd::prelude::*;

verus! {

#[verifier::external_type_specification]
#[verifier::external_body]
pub struct ExStdRng(rand::rngs::StdRng);

/// Relies on rand::SeedableRng::seed_from_u64: builds a generator whose
/// stream is determined by the seed.
#[verifier::external_body]
pub(crate) fn rng_from_seed(seed: u64) -> (r: rand::rngs::StdRng) {
    <rand::rngs::StdRng as rand::SeedableRng>::seed_from_u64(seed)
}

/// Relies on rand::Rng::random_range: a sample from the nonempty range
/// `0..n` lies below `n`, whatever the generator's state.
#[verifier::external_body]
pub(crate) fn rng_below(rng: &mut rand::rngs::StdRng, n: usize) -> (r: usize)
    requires
        n > 0,
    ensures
        r < n,
{
    rand::Rng::random_range(rng, 0..n)
}

/// Relies on rand::random: one draw from the thread-local generator,
/// used only to seed a fresh agent.
#[verifier::external_body]
pub(crate) fn entropy_seed() -> (r: u64) {
    rand::random::<u64>()
}

} // verus!
