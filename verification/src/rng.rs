//! The pseudo-random source behind bootstrap resampling.
//!
//! The engine draws uniformly random indices into the historical-returns
//! sample from a `rand::rngs::StdRng` seeded once per path, so that a
//! path is reproducible from its seed alone.  The generator type and the
//! two calls into `rand` are the only trusted items of this crate.
use vstd::prelude::*;

use rand::rngs::StdRng;

verus! {

#[verifier::external_type_specification]
#[verifier::external_body]
pub struct ExStdRng(StdRng);

/// Relies on rand's `SeedableRng::seed_from_u64`: constructs a generator
/// whose state, and hence whose draw sequence, is a function of `seed`
/// alone.  Nothing is claimed of the state itself; callers state what
/// holds of every generator.
#[verifier::external_body]
pub(crate) fn rng_from_seed(seed: u64) -> StdRng {
    <StdRng as rand::SeedableRng>::seed_from_u64(seed)
}

/// Relies on rand's `Rng::gen_range` over `0..n`: returns an index drawn
/// uniformly from `[0, n)`.  The call panics only on an empty range,
/// which the precondition excludes.
#[verifier::external_body]
pub(crate) fn gen_index(rng: &mut StdRng, n: usize) -> (r: usize)
    requires
        n >= 1,
    ensures
        r < n,
{
    rand::Rng::gen_range(rng, 0..n)
}

} // verus!
