//! The calls into `rand` that the game makes. Each is a trusted wrapper: what it
//! states is what the crate's documentation promises of every outcome.
use vstd::prelude::*;
use rand::RngExt;

verus! {

/// The thread-local generator of `rand`, carried through opaquely. `rand`
/// documents that it panics if the operating system's random source fails
/// while reseeding; no precondition can rule that out.
#[verifier::external_type_specification]
#[verifier::external_body]
pub struct ExThreadRng(rand::rngs::ThreadRng);

/// Calls `rand::RngExt::random_range` on `0..n`. `rand` documents that the
/// result lies in the range and that it panics on an empty range, which the
/// `requires` leaves out. Which value comes back is left open.
#[verifier::external_body]
pub(crate) fn random_below(rng: &mut rand::rngs::ThreadRng, n: usize) -> (r: usize)
    requires
        n > 0,
    ensures
        r < n,
{
    rng.random_range(0..n)
}

/// Calls `rand::RngExt::random_range` on `lo..hi`. `rand` documents that the
/// result lies in the range and that it panics on an empty range, which the
/// `requires` leaves out. Which value comes back is left open.
#[verifier::external_body]
pub(crate) fn random_in_range(rng: &mut rand::rngs::ThreadRng, lo: i32, hi: i32) -> (r: i32)
    requires
        lo < hi,
    ensures
        lo <= r < hi,
{
    rng.random_range(lo..hi)
}

/// Calls `rand::RngExt::random_ratio(1, 2)`, a fair coin. Any boolean may come
/// back, so nothing is stated of the result.
#[verifier::external_body]
pub(crate) fn random_coin(rng: &mut rand::rngs::ThreadRng) -> bool {
    rng.random_ratio(1, 2)
}

} // verus!
