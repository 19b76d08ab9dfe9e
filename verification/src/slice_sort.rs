//! The standard library's slice sort, as the base case of every sort here.

use vstd::prelude::*;
use crate::order::{sorted, same_elements};

verus! {

/// Sorts `s` in place with `<[i32]>::sort`. Trusted: the standard library
/// documents that it sorts the slice, so afterwards the slice is in
/// non-decreasing order and holds the same elements as before.
#[verifier::external_body]
pub(crate) fn std_sort(s: &mut [i32])
    ensures
        final(s)@.len() == old(s)@.len(),
        sorted(final(s)@),
        same_elements(final(s)@, old(s)@),
{
    s.sort();
}

/// Sorts the slice in place; the body of the C-callable sort that the
/// benchmarks link against.
pub fn rust_sort_i32(slice: &mut [i32])
    ensures
        final(slice)@.len() == old(slice)@.len(),
        sorted(final(slice)@),
        same_elements(final(slice)@, old(slice)@),
{
    std_sort(slice);
}

} // verus!
