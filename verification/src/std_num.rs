//! Standard-library integer operations without a specification in vstd.

use vstd::prelude::*;
use crate::tsp::is_int_sqrt;

verus! {

/// Calls `i32::isqrt`. Trusted: the standard library documents that it
/// returns the square root rounded down and panics on a negative number,
/// which `requires` leaves out.
#[verifier::external_body]
pub(crate) fn std_isqrt(v: i32) -> (r: i32)
    requires
        v >= 0,
    ensures
        is_int_sqrt(v as int, r as int),
{
    v.isqrt()
}

} // verus!
