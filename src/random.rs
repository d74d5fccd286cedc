//! The random draws that breeding needs, taken from the thread-local generator
//! of the `rand` crate.
use rand::Rng;
use vstd::prelude::*;

verus! {

/// Relies on `rand::Rng::gen_range` (rand 0.7) on `thread_rng()`: a value in
/// `[0, high)`; it panics when `high` is 0, which `requires` leaves out.
#[verifier::external_body]
pub(crate) fn gen_below(high: usize) -> (r: usize)
    requires
        0 < high,
    ensures
        r < high,
{
    rand::thread_rng().gen_range(0, high)
}

/// Relies on `rand::Rng::gen_ratio` (rand 0.7) on `thread_rng()`: `true` with
/// chance `numerator / denominator`, always `false` when `numerator` is 0 and
/// always `true` when it equals `denominator`; it panics when `denominator`
/// is 0 or below `numerator`, which `requires` leaves out.
#[verifier::external_body]
pub(crate) fn gen_ratio(numerator: u32, denominator: u32) -> (r: bool)
    requires
        0 < denominator,
        numerator <= denominator,
    ensures
        numerator == 0 ==> !r,
        numerator == denominator ==> r,
{
    rand::thread_rng().gen_ratio(numerator, denominator)
}

} // verus!
