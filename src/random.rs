//! The random source the trainer draws from: rand's `StdRng`, seen through
//! a few draws whose contracts say what rand documents of them.
use vstd::prelude::*;

use rand::rngs::StdRng;
use rand::{Rng, SeedableRng};

verus! {

/// rand's standard generator, held opaque.
#[verifier::external_type_specification]
#[verifier::external_body]
pub struct ExStdRng(StdRng);

/// Relies on rand's `Rng::gen` for `i8`: any value of the type.
#[verifier::external_body]
pub(crate) fn random_i8(rng: &mut StdRng) -> (r: i8) {
    rng.gen::<i8>()
}

/// Relies on rand's `Rng::gen` for `u64`: any value of the type.
#[verifier::external_body]
pub(crate) fn random_u64(rng: &mut StdRng) -> (r: u64) {
    rng.gen::<u64>()
}

/// Relies on rand's `Rng::gen_range(low, high)`: a value in `[low, high)`;
/// it panics unless `low < high`.
#[verifier::external_body]
pub(crate) fn random_range(rng: &mut StdRng, low: u64, high: u64) -> (r: u64)
    requires
        low < high,
    ensures
        low <= r < high,
{
    rng.gen_range(low, high)
}

/// Relies on rand's `Rng::gen` for `[u8; 32]`: any seed.
#[verifier::external_body]
pub(crate) fn random_seed(rng: &mut StdRng) -> (r: [u8; 32]) {
    rng.gen::<[u8; 32]>()
}

/// Relies on rand's `SeedableRng::from_seed` for `StdRng`: a generator whose
/// draws follow from the seed.
#[verifier::external_body]
pub(crate) fn seeded_rng(seed: [u8; 32]) -> (r: StdRng) {
    StdRng::from_seed(seed)
}

} // verus!
