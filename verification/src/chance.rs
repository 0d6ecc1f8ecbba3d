use vstd::prelude::*;

verus! {

/// Draws an `i32` with `macroquad::rand::gen_range` (the global generator of `quad_rand`).
///
/// That function maps a 32-bit random word `r` to `low + (high - low) * r / 2^32`,
/// computed in `f64` and truncated toward zero. On the ranges admitted here this
/// lies between `low` and `high`, and below `high` when `high` is positive: the
/// bound on `high` keeps the rounding error of the `f64` sum below the gap to `high`.
/// Which value comes out depends on the generator's hidden state.
#[verifier::external_body]
pub(crate) fn random_i32(low: i32, high: i32) -> (r: i32)
    requires
        low < high,
        -(high - low) * 0x100000 <= high <= (high - low) * 0x100000,
    ensures
        low <= r <= high,
        high > 0 ==> r < high,
{
    macroquad::rand::gen_range(low, high)
}

/// Draws a `u32` with `macroquad::rand::gen_range`; see `random_i32` for the mapping.
/// For unsigned ranges the truncation rounds down, so the result stays below `high`.
#[verifier::external_body]
pub(crate) fn random_u32(low: u32, high: u32) -> (r: u32)
    requires
        low < high,
        high <= (high - low) * 0x100000,
    ensures
        low <= r < high,
{
    macroquad::rand::gen_range(low, high)
}

/// Draws a `usize` with `macroquad::rand::gen_range`; see `random_i32` for the mapping.
/// The bound on `high` keeps both ends exactly representable in `f64`.
#[verifier::external_body]
pub(crate) fn random_usize(low: usize, high: usize) -> (r: usize)
    requires
        low < high,
        high <= 0xffff_ffff,
        high <= (high - low) * 0x100000,
    ensures
        low <= r < high,
{
    macroquad::rand::gen_range(low, high)
}

} // verus!
