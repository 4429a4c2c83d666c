use vstd::prelude::*;

verus! {

/// rand's standard generator. Its state is opaque to verification: the
/// engine only ever asks it for an index below a bound.
#[verifier::external_type_specification]
#[verifier::external_body]
pub struct ExStdRng(rand::rngs::StdRng);

/// Relies on rand's `SeedableRng::seed_from_u64`: builds a generator from a
/// 64-bit seed, so that a maze can be reproduced. Nothing is promised of its
/// state.
#[verifier::external_body]
pub(crate) fn rng_from_seed(seed: u64) -> rand::rngs::StdRng {
    <rand::rngs::StdRng as rand::SeedableRng>::seed_from_u64(seed)
}

/// Relies on rand's `Rng::gen_range`: a sample from the non-empty range
/// `0..n` is uniform over it, so in particular it is below `n`. `gen_range`
/// panics on an empty range, which `n >= 1` rules out.
#[verifier::external_body]
pub(crate) fn rand_below(rng: &mut rand::rngs::StdRng, n: usize) -> (r: usize)
    requires
        n >= 1,
    ensures
        r < n,
{
    rand::Rng::gen_range(rng, 0..n)
}

} // verus!
