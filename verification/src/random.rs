//! The source of random bits: a seedable generator of the `rand` crate,
//! handed to the estimator by its owner. Nothing is proved of the calls in
//! this file; their contracts say what the crate documents.

use rand::rngs::StdRng;
use rand::Rng;
use vstd::prelude::*;

verus! {

/// `rand::rngs::StdRng`, carried through the library as an opaque value.
#[verifier::external_type_specification]
#[verifier::external_body]
pub struct ExStdRng(StdRng);

/// `Rng::gen::<u64>` on a `StdRng`: the next 64 bits of the generator. Every
/// `u64` is a possible outcome, so nothing is claimed of the result.
#[verifier::external_body]
pub(crate) fn next_bits(rng: &mut StdRng) -> (raw: u64) {
    rng.gen::<u64>()
}

/// `Rng::gen::<bool>` on a `StdRng`: a fair coin. Both outcomes are possible,
/// so nothing is claimed of the result.
#[verifier::external_body]
pub(crate) fn next_coin(rng: &mut StdRng) -> (heads: bool) {
    rng.gen::<bool>()
}

} // verus!
