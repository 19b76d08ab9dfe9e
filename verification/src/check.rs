//! The benchmarks' check on a sort's output: it must be in order, and two
//! zeros in a row are taken as a sign of a buffer that was never written.

use vstd::prelude::*;

verus! {

/// What the check found.
#[derive(Clone, Copy, Debug, PartialEq, Eq, Structural)]
pub enum SortCheck {
    /// In order, and no two zeros in a row.
    Sorted,
    /// Two zeros in a row, the second at this index.
    DoubleZeroes(usize),
    /// An element smaller than the one before it, at this index.
    NotSorted(usize),
}

/// Position `i` breaks the check: a zero after a zero, or a decrease.
pub open spec fn breaks_check(s: Seq<i32>, i: int) -> bool {
    (s[i - 1] == 0 && s[i] == 0) || s[i] < s[i - 1]
}

/// Scans the non-empty `sorted` from the left and reports the first
/// position that breaks the check, or that there is none.
pub fn check(sorted: &[i32]) -> (verdict: SortCheck)
    requires
        sorted@.len() > 0,
    ensures
        match verdict {
            SortCheck::Sorted => forall|i: int| 1 <= i < sorted@.len() ==> !breaks_check(sorted@, i),
            SortCheck::DoubleZeroes(i) => {
                &&& 1 <= i < sorted@.len()
                &&& sorted@[i - 1] == 0 && sorted@[i as int] == 0
                &&& forall|k: int| 1 <= k < i ==> !breaks_check(sorted@, k)
            },
            SortCheck::NotSorted(i) => {
                &&& 1 <= i < sorted@.len()
                &&& sorted@[i as int] < sorted@[i - 1]
                &&& !(sorted@[i - 1] == 0 && sorted@[i as int] == 0)
                &&& forall|k: int| 1 <= k < i ==> !breaks_check(sorted@, k)
            },
        },
{
    let mut prev = sorted[0];
    let mut i: usize = 1;
    while i < sorted.len()
        invariant
            1 <= i <= sorted@.len(),
            prev == sorted@[i - 1],
            forall|k: int| 1 <= k < i ==> !breaks_check(sorted@, k),
        decreases sorted@.len() - i,
    {
        if prev == 0 && sorted[i] == 0 {
            return SortCheck::DoubleZeroes(i);
        }
        if sorted[i] < prev {
            return SortCheck::NotSorted(i);
        } else {
            prev = sorted[i];
        }
        i = i + 1;
    }
    SortCheck::Sorted
}

} // verus!
