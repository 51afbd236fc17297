//! Chance, drawn from the game's pseudo-random generator.

use vstd::prelude::*;

verus! {

/// The largest bound accepted by `random_below`.
///
/// The generator scales a 32-bit draw by the bound in double precision; up
/// to 2^21 the product needs at most 53 bits and is exact, so the draw
/// always lands strictly below its bound.
pub const RANDOM_LIMIT: u32 = 2_097_152;

/// A number drawn at random in `0..bound`.
///
/// Calls `quad_rand::gen_range(0, bound)`, the generator behind
/// `macroquad::rand`. The contract claims only that the draw is below its
/// bound: which number comes out depends on the generator's hidden state.
#[verifier::external_body]
pub(crate) fn random_below(bound: u32) -> (r: u32)
    requires
        0 < bound <= RANDOM_LIMIT,
    ensures
        r < bound,
{
    quad_rand::gen_range(0u32, bound)
}

} // verus!
