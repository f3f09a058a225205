//! The injected random source for stochastic production selection.
//!
//! The rewriting engine draws one 32-bit value per element and interprets
//! it as the fraction `draw / 2^32` in `[0, 1)`.  The generator is an
//! explicit, seedable value handed to the engine at construction, so a run
//! is reproducible under a fixed seed.  Nothing is assumed about the
//! drawn values themselves: every contract downstream holds for every
//! possible draw.

use rand::rngs::StdRng;
use vstd::prelude::*;

verus! {

/// rand's standard seedable generator, opaque to the verifier; the engine
/// only carries it and hands it to `next_draw`.
#[verifier::external_type_specification]
#[verifier::external_body]
pub struct ExStdRng(StdRng);

/// Relies on rand's `Rng::gen::<u32>` for `StdRng`: one uniformly
/// distributed 32-bit draw.  Nothing is assumed of the value it returns;
/// every caller must be correct for every outcome.
#[verifier::external_body]
pub(crate) fn next_draw(rng: &mut StdRng) -> u32 {
    rand::Rng::gen(rng)
}

} // verus!
