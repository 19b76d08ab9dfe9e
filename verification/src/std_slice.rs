//! Standard-library slice operations used by the window merge sort.

use vstd::prelude::*;
use crate::order::sorted;

verus! {

/// The result of `<[i32]>::binary_search` on a slice holding `s`, searching
/// for `x`. Among several equal elements, which index comes back is fixed by
/// the standard library's code alone, so it is a function of `s` and `x`.
pub uninterp spec fn slice_binary_search(s: Seq<i32>, x: i32) -> Result<usize, usize>;

/// Calls `<[i32]>::binary_search`. Trusted: on a sorted slice the standard
/// library documents `Ok` with the index of an element equal to `x` when
/// there is one, and otherwise `Err` with the index at which `x` could be
/// inserted keeping the order. On an unsorted slice the result is left
/// unspecified beyond its being the named result.
#[verifier::external_body]
pub(crate) fn std_binary_search(s: &[i32], x: &i32) -> (r: Result<usize, usize>)
    ensures
        r == slice_binary_search(s@, *x),
        sorted(s@) ==> match r {
            Ok(i) => i < s@.len() && s@[i as int] == *x,
            Err(i) => {
                &&& i <= s@.len()
                &&& forall|k: int| 0 <= k < i ==> s@[k] < *x
                &&& forall|k: int| i <= k < s@.len() ==> s@[k] > *x
            },
        },
{
    s.binary_search(x)
}

/// Calls `<[i32]>::copy_from_slice`. Trusted: for slices of equal length,
/// which the standard library requires (it panics otherwise), `dst` ends up
/// holding exactly the elements of `src`.
#[verifier::external_body]
pub(crate) fn std_copy_from_slice(dst: &mut [i32], src: &[i32])
    requires
        old(dst)@.len() == src@.len(),
    ensures
        final(dst)@ == src@,
{
    dst.copy_from_slice(src);
}

} // verus!
