//! Calls into code outside this crate.
//!
//! Nothing here is verified: each item hands a request to an outside
//! function and states what that function's documentation and source
//! promise of the answer. For a random source that is only what holds of
//! every value that can come back.

use vstd::prelude::*;
use rand::seq::SliceRandom;
use crate::T;

verus! {

/// The generator type of the `fastrand` crate, carried through as an opaque
/// value.
#[verifier::external_type_specification]
#[verifier::external_body]
pub struct ExFastRng(fastrand::Rng);

/// `fastrand::Rng::new` creates a generator seeded from the thread-local
/// one. Nothing is claimed of the generator it returns.
pub assume_specification[ fastrand::Rng::new ]() -> fastrand::Rng;

/// `u32::isqrt` returns the integer square root: the largest `r` whose
/// square does not exceed `n`.
pub assume_specification[ <u32>::isqrt ](n: u32) -> (r: u32)
    ensures
        r * r <= n < (r + 1) * (r + 1),
;

/// Calls `rand::random_range(0..n)`, which draws from the thread-local
/// generator. The range is non-empty by the precondition, so the call does
/// not panic, and the value it returns lies in the range.
#[verifier::external_body]
pub(crate) fn random_index(n: usize) -> (r: usize)
    requires
        n > 0,
    ensures
        r < n,
{
    rand::random_range(0..n)
}

/// Calls `fastrand::Rng::u64` on the inclusive range `low..=high`. The range
/// is non-empty by the precondition, so the call does not panic, and the
/// value it returns lies in the range.
#[verifier::external_body]
pub(crate) fn random_u64(rng: &mut fastrand::Rng, low: u64, high: u64) -> (r: u64)
    requires
        low <= high,
    ensures
        low <= r <= high,
{
    rng.u64(low..=high)
}

/// Calls `rand::seq::SliceRandom::shuffle` with the thread-local generator
/// of `rand`. The keys are permuted in place: afterwards `keys` holds the
/// same keys, each as often as before.
#[verifier::external_body]
pub(crate) fn shuffle(keys: &mut Vec<T>)
    ensures
        final(keys)@.to_multiset() == old(keys)@.to_multiset(),
        final(keys)@.len() == old(keys)@.len(),
{
    keys.shuffle(&mut rand::rng());
}

} // verus!
