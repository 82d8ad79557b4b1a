//! The random source for multisampling: a seeded generator injected into the
//! render driver, so that a fixed seed reproduces a render exactly.

use vstd::prelude::*;
use rand::Rng;
use rand::SeedableRng;

verus! {

#[verifier::external_type_specification]
#[verifier::external_body]
pub struct ExStdRng(rand::rngs::StdRng);

/// Relies on rand's `SeedableRng::seed_from_u64`: builds the standard
/// generator from a word-sized seed.
#[verifier::external_body]
pub fn rng_from_seed(seed: u64) -> rand::rngs::StdRng {
    rand::rngs::StdRng::seed_from_u64(seed)
}

/// Relies on rand's `Rng::gen_range`: a draw from `low..high` lies in the
/// half-open range, and the call panics only on an empty range, which the
/// precondition rules out.  Nothing more is promised of the value: every
/// caller must hold for every outcome.
#[verifier::external_body]
pub fn rng_below(rng: &mut rand::rngs::StdRng, bound: u64) -> (r: u64)
    requires
        bound >= 1,
    ensures
        r < bound,
{
    rng.gen_range(0..bound)
}

} // verus!
