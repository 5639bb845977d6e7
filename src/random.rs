//! The random stream, taken from `rand`.

use rand::rngs::SmallRng;
use rand::{Rng, SeedableRng};
use vstd::prelude::*;

verus! {

#[verifier::external_type_specification]
#[verifier::external_body]
pub struct ExSmallRng(SmallRng);

/// Relies on rand's `SeedableRng::seed_from_u64` for `SmallRng`: a generator
/// whose stream depends on the seed alone.
#[verifier::external_body]
pub(crate) fn seeded_rng(seed: u64) -> SmallRng {
    SmallRng::seed_from_u64(seed)
}

/// Relies on rand's `Rng::gen::<bool>`: a fair coin; nothing is known of the
/// outcome.
#[verifier::external_body]
pub(crate) fn flip_coin(rng: &mut SmallRng) -> bool {
    rng.gen::<bool>()
}

/// Relies on rand's `Rng::gen_range` over `0..=max`: a value in that range,
/// which must not be empty.
#[verifier::external_body]
pub(crate) fn draw_up_to(rng: &mut SmallRng, max: i64) -> (r: i64)
    requires
        0 <= max,
    ensures
        0 <= r <= max,
{
    rng.gen_range(0..=max)
}

} // verus!
