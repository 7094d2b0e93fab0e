//! The one source of randomness the library uses.
use vstd::prelude::*;

verus! {

/// Relies on rand::Rng::gen_range over rand::thread_rng: returns a number
/// drawn uniformly from the half-open range below `n`. Nothing more is
/// promised of the value: callers must hold for every outcome below `n`.
#[verifier::external_body]
pub(crate) fn rand_below(n: u128) -> (r: u128)
    requires
        n > 0,
    ensures
        r < n,
{
    rand::Rng::gen_range(&mut rand::thread_rng(), 0..n)
}

} // verus!
