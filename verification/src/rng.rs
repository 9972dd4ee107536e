//! Random number supply: thin trusted wrappers around `rand`'s standard
//! generator, and a uniform fixed-point draw built on them.

use vstd::prelude::*;
use rand::rngs::StdRng;
use crate::fixed::FP_ONE;

verus! {

#[verifier::external_type_specification]
#[verifier::external_body]
pub struct ExStdRng(StdRng);

/// Relies on rand::Rng::next_u32 for rand::rngs::StdRng: the next 32 bits
/// of the generator's stream. Nothing is promised about the value.
#[verifier::external_body]
fn rng_next_u32(rng: &mut StdRng) -> u32 {
    rand::Rng::next_u32(rng)
}

/// Relies on rand::SeedableRng::seed_from_u64: a generator derived
/// deterministically from the seed.
#[verifier::external_body]
fn rng_seeded(seed: u64) -> StdRng {
    rand::SeedableRng::seed_from_u64(seed)
}

/// Relies on rand::make_rng: a generator seeded from the thread-local
/// entropy source.
#[verifier::external_body]
fn rng_entropy() -> StdRng {
    rand::make_rng()
}

/// A generator: deterministic when a seed is given, seeded from system
/// entropy otherwise.
pub fn get_rng(seed: Option<u64>) -> StdRng {
    match seed {
        Option::Some(s) => rng_seeded(s),
        Option::None => rng_entropy(),
    }
}

/// A uniform fixed-point draw in `[0, 1)`: the low bits of the next word.
pub fn random_fp(rng: &mut StdRng) -> (r: i64)
    ensures
        0 <= r < FP_ONE,
{
    let x: u32 = rng_next_u32(rng);
    (x % 65536) as i64
}

} // verus!
