//! The source of randomness: macroquad's pseudo-random generator.
use vstd::prelude::*;

verus! {

/// Largest bound accepted by `random_below`.
pub const RANDOM_RANGE_LIMIT: usize = 1_048_576;

/// Relies on `macroquad::rand::gen_range` (quad-rand) on `usize`: it scales a
/// 32-bit draw in `[0, 1)` onto `[low, high)` in `f64` and truncates; for
/// ranges below 2^20 that arithmetic is exact, so the result is below `n`.
#[verifier::external_body]
pub(crate) fn random_below(n: usize) -> (r: usize)
    requires
        0 < n <= RANDOM_RANGE_LIMIT,
    ensures
        r < n,
{
    macroquad::rand::gen_range(0usize, n)
}

} // verus!
