//! The source of randomness: the `rand` crate's thread-local generator and
//! its seedable standard generator.
use vstd::prelude::*;
use rand::rngs::StdRng;
use rand::RngExt;

verus! {

/// The `rand` crate's seedable standard generator, carried through opaque.
#[verifier::external_type_specification]
#[verifier::external_body]
pub struct ExStdRng(StdRng);

/// Calls `rand::random::<u32>()`, which draws a `u32` from the thread-local
/// generator. Nothing is promised of the value: every `u32` may come back.
#[verifier::external_body]
pub(crate) fn random_u32() -> (r: u32) {
    rand::random::<u32>()
}

/// Calls `rand::random_range(0..bound)` on the thread-local generator. The
/// crate panics on an empty range, hence `bound > 0`; the value lies in
/// `0..bound`, and which one comes back is left to chance.
#[verifier::external_body]
pub(crate) fn random_i32_below(bound: i32) -> (r: i32)
    requires
        bound > 0,
    ensures
        0 <= r < bound,
{
    rand::random_range(0..bound)
}

/// Calls `RngExt::random_range(rng, 0..n)` on a seeded generator. The crate
/// panics on an empty range, hence `n > 0`; the value lies in `0..n`. What
/// the generator's state becomes is not stated.
#[verifier::external_body]
pub(crate) fn random_below(rng: &mut StdRng, n: usize) -> (r: usize)
    requires
        n > 0,
    ensures
        r < n,
{
    rng.random_range(0..n)
}

} // verus!
