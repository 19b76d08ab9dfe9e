//! What it means for a sequence of integers to be sorted, and for two
//! sequences to hold the same elements.

use vstd::prelude::*;
use vstd::relations::{sorted_by, total_ordering};

verus! {

/// `s` is in non-decreasing order.
pub open spec fn sorted(s: Seq<i32>) -> bool {
    forall|i: int, j: int| 0 <= i <= j < s.len() ==> s[i] <= s[j]
}

/// `a` and `b` hold the same elements, each as often.
pub open spec fn same_elements(a: Seq<i32>, b: Seq<i32>) -> bool {
    a.to_multiset() == b.to_multiset()
}

/// The usual order on `i32`, as a relation.
pub open spec fn le_i32() -> spec_fn(i32, i32) -> bool {
    |a: i32, b: i32| a <= b
}

/// A sequence holds, in sorted order, exactly the elements of another.
pub open spec fn sorted_version_of(result: Seq<i32>, input: Seq<i32>) -> bool {
    sorted(result) && same_elements(result, input)
}

/// There is only one sorted arrangement of a given collection of elements:
/// every sort of this library therefore produces the same sequence.
pub proof fn lemma_sorted_arrangement_unique(a: Seq<i32>, b: Seq<i32>)
    requires
        sorted(a),
        sorted(b),
        same_elements(a, b),
    ensures
        a == b,
{
    let leq = le_i32();
    assert(total_ordering(leq));
    assert(sorted_by(a, leq));
    assert(sorted_by(b, leq));
    vstd::seq_lib::lemma_sorted_unique(a, b, leq);
}

/// A run of a sorted sequence is sorted.
pub proof fn lemma_sorted_subrange(s: Seq<i32>, lo: int, hi: int, lo2: int, hi2: int)
    requires
        0 <= lo <= lo2 <= hi2 <= hi <= s.len(),
        sorted(s.subrange(lo, hi)),
    ensures
        sorted(s.subrange(lo2, hi2)),
{
    let big = s.subrange(lo, hi);
    let small = s.subrange(lo2, hi2);
    assert forall|i: int, j: int| 0 <= i <= j < small.len() implies small[i] <= small[j] by {
        assert(small[i] == big[i + lo2 - lo]);
        assert(small[j] == big[j + lo2 - lo]);
    }
}

/// Two sorted sequences, each element of the first at most each element of
/// the second, make a sorted sequence when put one after the other.
pub proof fn lemma_sorted_concat(x: Seq<i32>, y: Seq<i32>)
    requires
        sorted(x),
        sorted(y),
        forall|i: int, j: int| 0 <= i < x.len() && 0 <= j < y.len() ==> x[i] <= y[j],
    ensures
        sorted(x + y),
{
    let z = x + y;
    assert forall|i: int, j: int| 0 <= i <= j < z.len() implies z[i] <= z[j] by {
        if j < x.len() {
        } else if i >= x.len() {
            assert(z[i] == y[i - x.len()]);
            assert(z[j] == y[j - x.len()]);
        } else {
            assert(z[j] == y[j - x.len()]);
        }
    }
}

/// Every element of a sequence is an element of any sequence with the same
/// elements.
pub proof fn lemma_same_elements_member(x: Seq<i32>, y: Seq<i32>, i: int) -> (j: int)
    requires
        same_elements(x, y),
        0 <= i < x.len(),
    ensures
        0 <= j < y.len(),
        y[j] == x[i],
{
    broadcast use vstd::seq_lib::group_to_multiset_ensures;
    assert(x.contains(x[i]));
    assert(x.to_multiset().count(x[i]) > 0);
    assert(y.contains(x[i]));
    choose|j: int| 0 <= j < y.len() && y[j] == x[i]
}

/// The sorted arrangement of the elements of `s`.
pub open spec fn sorted_seq(s: Seq<i32>) -> Seq<i32> {
    s.sort_by(le_i32())
}

/// Anything sorted with the elements of `s` is `sorted_seq(s)`.
pub proof fn lemma_sorted_version_is_sorted_seq(x: Seq<i32>, s: Seq<i32>)
    requires
        sorted_version_of(x, s),
    ensures
        x == sorted_seq(s),
{
    let leq = le_i32();
    assert(total_ordering(leq));
    s.lemma_sort_by_ensures(leq);
    let t = sorted_seq(s);
    assert(sorted(t)) by {
        assert forall|i: int, j: int| 0 <= i <= j < t.len() implies t[i] <= t[j] by {
            if i < j {
                assert(leq(t[i], t[j]));
            }
        }
    }
    lemma_sorted_arrangement_unique(x, t);
}

/// The two halves of `s`, split at `s.len() / 2`, each sorted on its own
/// and put one after the other.
pub open spec fn sorted_halves(s: Seq<i32>) -> Seq<i32> {
    let mid = s.len() as int / 2;
    sorted_seq(s.subrange(0, mid)) + sorted_seq(s.subrange(mid, s.len() as int))
}

/// The two sorted halves of `s` hold the elements of `s`: a sort that
/// leaves them behind in its scratch space loses nothing there.
pub proof fn lemma_sorted_halves_same_elements(s: Seq<i32>)
    ensures
        same_elements(sorted_halves(s), s),
{
    let leq = le_i32();
    let mid = s.len() as int / 2;
    let a = s.subrange(0, mid);
    let b = s.subrange(mid, s.len() as int);
    assert(total_ordering(leq));
    a.lemma_sort_by_ensures(leq);
    b.lemma_sort_by_ensures(leq);
    vstd::seq_lib::lemma_multiset_commutative(sorted_seq(a), sorted_seq(b));
    vstd::seq_lib::lemma_multiset_commutative(a, b);
    assert(a + b =~= s);
}

/// `s[lo..hi]` is sorted.
pub open spec fn sorted_range(s: Seq<i32>, lo: int, hi: int) -> bool {
    sorted(s.subrange(lo, hi))
}

/// `after` and `before` agree outside `[lo, hi)`.
pub open spec fn same_outside(after: Seq<i32>, before: Seq<i32>, lo: int, hi: int) -> bool {
    after.len() == before.len() && forall|k: int|
        0 <= k < before.len() && !(lo <= k < hi) ==> after[k] == before[k]
}

} // verus!
