//! The randomness source used by mine placement.

use vstd::prelude::*;

verus! {

/// Relies on `rand::random_range` over the half-open integer range
/// `0..n`: the thread-local generator returns a value of that range, so
/// the result is always below `n`. Nothing more is assumed of the value.
/// The call panics on an empty range, which `n >= 1` rules out.
#[verifier::external_body]
pub(crate) fn random_below(n: usize) -> (r: usize)
    requires
        n >= 1,
    ensures
        r < n,
{
    rand::random_range(0..n)
}

} // verus!
