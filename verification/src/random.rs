//! Random draws.

use vstd::prelude::*;

verus! {

/// `rand::random_range` on `..n`: a draw from the thread-local generator
/// that lies below `n`. Nothing else is known of it.
#[verifier::external_body]
pub(crate) fn random_below(n: usize) -> (r: usize)
    requires
        n > 0,
    ensures
        r < n,
{
    rand::random_range(..n)
}

} // verus!
