//! The random source: the `rand` crate's standard generator.
//!
//! What is stated here is taken on trust from `rand`; nothing in this file is
//! proved.
use vstd::prelude::*;

verus! {

/// `rand::rngs::StdRng`, a seedable pseudo-random generator. Its state is
/// hidden from the proofs: a generator is only handed on to the draws below.
#[verifier::external_type_specification]
#[verifier::external_body]
pub struct ExStdRng(rand::rngs::StdRng);

/// Draws an index below `bound` with `rand::Rng::gen_range` on the range
/// `0..bound`.
///
/// Trusted: `gen_range` returns a value of the range it is given, and panics
/// only on an empty range, which `bound > 0` excludes. Which value comes is
/// left open: two draws with the same bound may differ.
#[verifier::external_body]
pub(crate) fn random_below(rng: &mut rand::rngs::StdRng, bound: usize) -> (k: usize)
    requires
        bound > 0,
    ensures
        k < bound,
{
    rand::Rng::gen_range(rng, 0..bound)
}

/// A generator seeded by the operating system, made with
/// `rand::SeedableRng::from_entropy`.
///
/// Trusted: the call returns a generator. Nothing is claimed of its state.
/// `from_entropy` gives up only where the system has no entropy to offer.
#[verifier::external_body]
pub(crate) fn entropy_rng() -> (rng: rand::rngs::StdRng) {
    rand::SeedableRng::from_entropy()
}

} // verus!
