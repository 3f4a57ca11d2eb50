//! The boundary to the caller-supplied random generator: the sampling
//! operators consume uniform bits drawn from a `StdRng` handed in by the
//! caller, so that runs can be seeded deterministically.

use rand::Rng;
use vstd::prelude::*;

verus! {

/// rand's standard generator, declared so diagrams can be sampled with it.
/// Values of it are opaque here; only the coin flip below reads them.
#[verifier::external_type_specification]
#[verifier::external_body]
pub struct ExStdRng(rand::rngs::StdRng);

/// Relies on rand's `Rng::gen::<bool>` for `StdRng`: one fair coin flip.
/// Nothing can be promised about the drawn value.
#[verifier::external_body]
pub(crate) fn coin(rng: &mut rand::rngs::StdRng) -> bool {
    rng.gen()
}

} // verus!
