//! The seedable random source, taken from the `rand` crate.

use rand::Rng;
use rand::SeedableRng;
use vstd::prelude::*;

verus! {

#[verifier::external_type_specification]
#[verifier::external_body]
pub struct ExStdRng(rand::rngs::StdRng);

/// Relies on `SeedableRng::from_seed` for `StdRng`: a generator whose whole
/// stream is fixed by the seed. Nothing about the stream is stated.
#[verifier::external_body]
pub(crate) fn seeded_rng(seed: [u8; 32]) -> (r: rand::rngs::StdRng) {
    rand::rngs::StdRng::from_seed(seed)
}

/// Relies on `Rng::gen_range` over `0..n`: a value in that range. It panics
/// on an empty range, hence `n > 0`.
#[verifier::external_body]
pub(crate) fn random_below(rng: &mut rand::rngs::StdRng, n: usize) -> (r: usize)
    requires
        n > 0,
    ensures
        r < n,
{
    rng.gen_range(0..n)
}

/// Relies on `Rng::gen_ratio(1, 2)`: a fair coin, drawn from the stream in the
/// same way as `gen_bool(0.5)`. It panics only on a zero denominator or a
/// numerator above it, which `1 / 2` is not.
#[verifier::external_body]
pub(crate) fn random_coin(rng: &mut rand::rngs::StdRng) -> (r: bool) {
    rng.gen_ratio(1, 2)
}

} // verus!
