//! Sequential merge sort over a slice and a scratch buffer of the same
//! length. Short runs go to the standard library's sort; longer ones are
//! split in two, sorted into the buffer and merged back.

use vstd::prelude::*;
use crate::order::{
    sorted, same_elements, sorted_version_of, sorted_halves, lemma_sorted_version_is_sorted_seq, sorted_seq,
    lemma_same_elements_member, lemma_sorted_concat,
};
use crate::slice_sort::std_sort;

verus! {

/// `merge_sort` on `len` elements with base-case size `threshold` never
/// reaches a merge of an empty run.
pub open spec fn merge_sort_splits_ok(len: int, threshold: int) -> bool
    decreases len, 1int,
{
    len <= threshold || (len >= 2 && sort_into_splits_ok(len / 2, threshold)
        && sort_into_splits_ok(len - len / 2, threshold))
}

/// `sort_into` on `len` elements with base-case size `threshold` never
/// reaches a merge of an empty run.
pub open spec fn sort_into_splits_ok(len: int, threshold: int) -> bool
    decreases len, 0int,
{
    len >= 2 && merge_sort_splits_ok(len / 2, threshold) && merge_sort_splits_ok(
        len - len / 2,
        threshold,
    )
}

/// With a base case of at least three elements every split is fine.
pub proof fn lemma_threshold_three_suffices(len: int, threshold: int)
    requires
        threshold >= 3,
        len >= 0,
    ensures
        merge_sort_splits_ok(len, threshold),
    decreases len,
{
    if len > threshold {
        let a = len / 2;
        let b = len - len / 2;
        lemma_threshold_three_suffices(a / 2, threshold);
        lemma_threshold_three_suffices(a - a / 2, threshold);
        lemma_threshold_three_suffices(b / 2, threshold);
        lemma_threshold_three_suffices(b - b / 2, threshold);
    }
}

/// Whether `merge_sort` on `len` elements with base-case size `threshold`
/// never reaches a merge of an empty run.
pub fn merge_sort_fits(len: usize, threshold: usize) -> (r: bool)
    ensures
        r == merge_sort_splits_ok(len as int, threshold as int),
    decreases len, 1int,
{
    if threshold >= 3 {
        proof {
            lemma_threshold_three_suffices(len as int, threshold as int);
        }
        return true;
    }
    if len <= threshold {
        return true;
    }
    len >= 2 && sort_into_fits(len / 2, threshold) && sort_into_fits(len - len / 2, threshold)
}

/// Whether `sort_into` on `len` elements with base-case size `threshold`
/// never reaches a merge of an empty run.
pub fn sort_into_fits(len: usize, threshold: usize) -> (r: bool)
    ensures
        r == sort_into_splits_ok(len as int, threshold as int),
    decreases len, 0int,
{
    len >= 2 && merge_sort_fits(len / 2, threshold) && merge_sort_fits(len - len / 2, threshold)
}

/// Sorts `src` in place, using `buf` as scratch space when it splits: the
/// buffer is then left holding the two sorted halves that were merged.
pub fn merge_sort(src: &mut [i32], buf: &mut [i32], threshold: usize)
    requires
        old(buf)@.len() == old(src)@.len(),
        merge_sort_splits_ok(old(src)@.len() as int, threshold as int),
    ensures
        sorted_version_of(final(src)@, old(src)@),
        final(src)@.len() == old(src)@.len(),
        final(buf)@.len() == old(buf)@.len(),
        old(src)@.len() <= threshold ==> final(buf)@ == old(buf)@,
        old(src)@.len() > threshold ==> final(buf)@ == sorted_halves(old(src)@),
    decreases old(src)@.len(), 1int,
{
    if src.len() <= threshold {
        std_sort(src);
        return;
    }
    let ghost s0 = src@;
    let mid = src.len() / 2;
    let (left_src, right_src) = src.split_at_mut(mid);
    let (left_buf, right_buf) = buf.split_at_mut(mid);
    let left_sorted = sort_into(left_src, left_buf, threshold);
    let right_sorted = sort_into(right_src, right_buf, threshold);
    proof {
        lemma_halves_same_elements(s0, mid as int, left_sorted@, right_sorted@);
        lemma_sorted_version_is_sorted_seq(left_sorted@, s0.subrange(0, mid as int));
        lemma_sorted_version_is_sorted_seq(right_sorted@, s0.subrange(mid as int, s0.len() as int));
    }
    merge(left_sorted, right_sorted, src);
}

/// Sorts the elements of `src` into `dest`, which has the same length;
/// `src` serves as scratch space and is left holding its two halves, each
/// sorted in place.
pub fn sort_into<'dest>(src: &mut [i32], dest: &'dest mut [i32], threshold: usize) -> (sorted_dest: &'dest [i32])
    requires
        old(dest)@.len() == old(src)@.len(),
        sort_into_splits_ok(old(src)@.len() as int, threshold as int),
    ensures
        sorted_version_of(sorted_dest@, old(src)@),
        sorted_dest@.len() == old(src)@.len(),
        final(dest)@ == sorted_dest@,
        final(src)@.len() == old(src)@.len(),
        final(src)@ == sorted_halves(old(src)@),
    decreases old(src)@.len(), 0int,
{
    let ghost s0 = src@;
    let mid = src.len() / 2;
    let (left_src, right_src) = src.split_at_mut(mid);
    let (left_dest, right_dest) = dest.split_at_mut(mid);
    merge_sort(left_src, left_dest, threshold);
    merge_sort(right_src, right_dest, threshold);
    proof {
        lemma_halves_same_elements(s0, mid as int, left_src@, right_src@);
        lemma_sorted_version_is_sorted_seq(left_src@, s0.subrange(0, mid as int));
        lemma_sorted_version_is_sorted_seq(right_src@, s0.subrange(mid as int, s0.len() as int));
    }
    merge(left_src, right_src, dest);
    dest
}

/// Sorting each half of a sequence keeps the elements of the whole.
proof fn lemma_halves_same_elements(s: Seq<i32>, mid: int, a: Seq<i32>, b: Seq<i32>)
    requires
        0 <= mid <= s.len(),
        same_elements(a, s.subrange(0, mid)),
        same_elements(b, s.subrange(mid, s.len() as int)),
    ensures
        same_elements(a + b, s),
{
    vstd::seq_lib::lemma_multiset_commutative(a, b);
    vstd::seq_lib::lemma_multiset_commutative(s.subrange(0, mid), s.subrange(mid, s.len() as int));
    assert(s.subrange(0, mid) + s.subrange(mid, s.len() as int) =~= s);
}

/// The larger of the last elements of two non-empty runs: what `merge`
/// reads in place of the head of a run that is used up.
pub open spec fn runs_max(left: Seq<i32>, right: Seq<i32>) -> i32 {
    if left.last() < right.last() {
        right.last()
    } else {
        left.last()
    }
}

/// Merges two sorted, non-empty runs into `dest`. Once a run is used up its
/// head is replaced by the larger of the two last elements, which no
/// remaining element exceeds; so `dest` receives the first `dest.len()`
/// elements of the sorted merge, followed by copies of that element where
/// `dest` is longer than the two runs.
pub fn merge(left: &[i32], right: &[i32], dest: &mut [i32])
    requires
        left@.len() > 0,
        right@.len() > 0,
        sorted(left@),
        sorted(right@),
    ensures
        final(dest)@.len() == old(dest)@.len(),
        final(dest)@ == (sorted_seq(left@ + right@) + Seq::new(
            old(dest)@.len(),
            |p: int| runs_max(left@, right@),
        )).take(old(dest)@.len() as int),
        old(dest)@.len() == left@.len() + right@.len() ==> sorted(final(dest)@) && same_elements(
            final(dest)@,
            left@ + right@,
        ),
{
    let ll = left.len();
    let rl = right.len();
    let max = Ord::max(left[ll - 1], right[rl - 1]);
    assert(max >= left@[ll - 1] && max >= right@[rl - 1]);
    assert(max == runs_max(left@, right@));
    let mut li: usize = 1;
    let mut left_n = left[0];
    let mut ri: usize = 1;
    let mut right_n = right[0];
    let n = dest.len();
    let mut k: usize = 0;
    // elements of each run accounted for in dest[..i + j]
    let ghost mut i: int = 0;
    let ghost mut j: int = 0;
    // copies of `max` written after both runs were used up
    let ghost mut extra: int = 0;
    // set once the right run is used up and only copies of `max` remain
    let ghost mut tail: bool = false;
    proof {
        assert(dest@.subrange(0, 0) =~= Seq::<i32>::empty());
        assert(left@.subrange(0, 0) + right@.subrange(0, 0) =~= Seq::<i32>::empty());
    }
    while k < n
        invariant
            n == dest@.len(),
            ll == left@.len(),
            rl == right@.len(),
            ll > 0,
            rl > 0,
            sorted(left@),
            sorted(right@),
            max >= left@[ll - 1],
            max >= right@[rl - 1],
            0 <= i <= ll,
            0 <= j <= rl,
            extra >= 0,
            k == i + j + extra,
            k <= n,
            extra > 0 ==> i == ll && j == rl,
            i < ll ==> left_n == left@[i],
            i == ll ==> left_n == max,
            j < rl ==> right_n == right@[j],
            j == rl ==> right_n == max,
            !tail ==> li == (if i < ll { i + 1 } else { ll as int }),
            j < rl ==> ri == j + 1,
            j == rl ==> ri == rl,
            tail ==> j == rl && forall|p: int| i <= p < ll ==> left@[p] == max,
            sorted(dest@.subrange(0, i + j)),
            i + j > 0 ==> dest@[i + j - 1] <= left_n && dest@[i + j - 1] <= right_n,
            same_elements(
                dest@.subrange(0, i + j),
                left@.subrange(0, i) + right@.subrange(0, j),
            ),
            forall|p: int| i + j <= p < k ==> dest@[p] == max,
        decreases n - k,
    {
        let ghost prev = dest@;
        proof {
            if i < ll {
                assert(left@[i] <= left@[ll - 1]);
            }
            if j < rl {
                assert(right@[j] <= right@[rl - 1]);
            }
        }
        if left_n < right_n {
            dest[k] = left_n;
            proof {
                assert(extra == 0);
                lemma_extend_prefix(prev, dest@, k as int, left_n);
                vstd::seq_lib::to_multiset_build(prev.subrange(0, k as int), left_n);
                lemma_take_one_more(left@, i, right@.subrange(0, j));
                i = i + 1;
            }
            if li < ll {
                left_n = left[li];
                li = li + 1;
            } else {
                left_n = max;
            }
            proof {
                if i < ll {
                    assert(left@[i - 1] <= left@[i]);
                }
            }
        } else {
            dest[k] = right_n;
            proof {
                if i == ll && j == rl {
                    assert(dest@.subrange(0, i + j) =~= prev.subrange(0, i + j));
                    extra = extra + 1;
                } else {
                    assert(extra == 0);
                    lemma_extend_prefix(prev, dest@, k as int, right_n);
                    vstd::seq_lib::to_multiset_build(prev.subrange(0, k as int), right_n);
                    if j < rl {
                        lemma_take_one_more_right(left@.subrange(0, i), right@, j);
                        j = j + 1;
                    } else {
                        assert(left_n == max);
                        assert(i < ll);
                        lemma_take_one_more(left@, i, right@.subrange(0, j));
                        tail = true;
                        i = i + 1;
                    }
                }
            }
            if ri < rl {
                right_n = right[ri];
                ri = ri + 1;
            } else {
                right_n = max;
            }
            proof {
                if j < rl && j > 0 {
                    assert(right@[j - 1] <= right@[j]);
                }
            }
        }
        k = k + 1;
    }
    proof {
        lemma_merge_result(dest@, left@, right@, i, j, max);
    }
}

/// What the merge loop leaves: the sorted prefix of `i` left and `j` right
/// elements, no greater than what remains of either run, then copies of
/// `max` when both runs are used up, is the sorted merge followed by copies
/// of `max`, cut to the length written.
proof fn lemma_merge_result(d: Seq<i32>, l: Seq<i32>, r: Seq<i32>, i: int, j: int, max: i32)
    requires
        l.len() > 0,
        r.len() > 0,
        sorted(l),
        sorted(r),
        max == runs_max(l, r),
        0 <= i <= l.len(),
        0 <= j <= r.len(),
        i + j <= d.len(),
        i + j < d.len() ==> i == l.len() && j == r.len(),
        sorted(d.subrange(0, i + j)),
        same_elements(d.subrange(0, i + j), l.subrange(0, i) + r.subrange(0, j)),
        forall|p: int| i + j <= p < d.len() ==> d[p] == max,
        i + j > 0 ==> forall|p: int| i <= p < l.len() ==> d[i + j - 1] <= l[p],
        i + j > 0 ==> forall|p: int| j <= p < r.len() ==> d[i + j - 1] <= r[p],
    ensures
        d == (sorted_seq(l + r) + Seq::new(d.len(), |p: int| runs_max(l, r))).take(d.len() as int),
        d.len() == l.len() + r.len() ==> sorted(d) && same_elements(d, l + r),
{
    let n = i + j;
    let done = d.subrange(0, n);
    let rest = l.subrange(i, l.len() as int) + r.subrange(j, r.len() as int);
    let tail = sorted_seq(rest);
    let leq = crate::order::le_i32();
    assert(vstd::relations::total_ordering(leq));
    rest.lemma_sort_by_ensures(leq);
    rest.to_multiset_ensures();
    tail.to_multiset_ensures();
    assert(tail.len() == rest.len());
    assert(sorted(tail)) by {
        assert forall|a: int, b: int| 0 <= a <= b < tail.len() implies tail[a] <= tail[b] by {
            if a < b {
                assert(leq(tail[a], tail[b]));
            }
        }
    }
    assert forall|a: int, b: int| 0 <= a < done.len() && 0 <= b < tail.len() implies done[a] <= tail[b] by {
        let q = lemma_same_elements_member(tail, rest, b);
        assert(done[a] <= done[n - 1]);
        if q < l.len() - i {
            assert(rest[q] == l[i + q]);
        } else {
            assert(rest[q] == r[j + q - (l.len() - i)]);
        }
    }
    lemma_sorted_concat(done, tail);
    vstd::seq_lib::lemma_multiset_commutative(done, tail);
    vstd::seq_lib::lemma_multiset_commutative(l.subrange(0, i) + r.subrange(0, j), rest);
    vstd::seq_lib::lemma_multiset_commutative(l.subrange(0, i), r.subrange(0, j));
    vstd::seq_lib::lemma_multiset_commutative(l.subrange(i, l.len() as int), r.subrange(j, r.len() as int));
    vstd::seq_lib::lemma_multiset_commutative(l.subrange(0, i), l.subrange(i, l.len() as int));
    vstd::seq_lib::lemma_multiset_commutative(r.subrange(0, j), r.subrange(j, r.len() as int));
    vstd::seq_lib::lemma_multiset_commutative(l, r);
    assert(l.subrange(0, i) + l.subrange(i, l.len() as int) =~= l);
    assert(r.subrange(0, j) + r.subrange(j, r.len() as int) =~= r);
    assert((done + tail).to_multiset() =~= (l + r).to_multiset());
    lemma_sorted_version_is_sorted_seq(done + tail, l + r);
    let full = sorted_seq(l + r) + Seq::new(d.len(), |p: int| runs_max(l, r));
    if n < d.len() {
        assert(rest =~= Seq::<i32>::empty());
        assert(tail.len() == 0);
        assert(done + tail =~= done);
        assert(d =~= full.take(d.len() as int));
    } else {
        assert(d =~= done);
        assert(tail.len() == rest.len());
        assert(d =~= full.take(d.len() as int));
    }
    if d.len() == l.len() + r.len() {
        assert(tail.len() == rest.len());
        assert(d =~= done + tail);
    }
}

/// Writing `x` at position `k` of a sequence whose first `k` elements are
/// sorted and at most `x` keeps the first `k + 1` sorted and adds `x` to
/// their elements.
pub(crate) proof fn lemma_extend_prefix(prev: Seq<i32>, next: Seq<i32>, k: int, x: i32)
    requires
        0 <= k < prev.len(),
        next == prev.update(k, x),
        sorted(prev.subrange(0, k)),
        k > 0 ==> prev[k - 1] <= x,
    ensures
        sorted(next.subrange(0, k + 1)),
        next.subrange(0, k + 1) == prev.subrange(0, k).push(x),
{
    assert(next.subrange(0, k + 1) =~= prev.subrange(0, k).push(x));
    let s = next.subrange(0, k + 1);
    assert forall|a: int, b: int| 0 <= a <= b < s.len() implies s[a] <= s[b] by {
        if b == k && a < k {
            assert(prev.subrange(0, k)[a] <= prev.subrange(0, k)[k - 1]);
        }
    }
}

/// Taking the next element of the left run.
pub(crate) proof fn lemma_take_one_more(l: Seq<i32>, i: int, r: Seq<i32>)
    requires
        0 <= i < l.len(),
    ensures
        (l.subrange(0, i) + r).to_multiset().insert(l[i])
            == (l.subrange(0, i + 1) + r).to_multiset(),
{
    broadcast use vstd::seq_lib::group_to_multiset_ensures;
    vstd::seq_lib::lemma_multiset_commutative(l.subrange(0, i), r);
    vstd::seq_lib::lemma_multiset_commutative(l.subrange(0, i + 1), r);
    assert(l.subrange(0, i + 1) =~= l.subrange(0, i).push(l[i]));
    assert(l.subrange(0, i).push(l[i]).to_multiset() =~= l.subrange(0, i).to_multiset().insert(l[i]));
    assert((l.subrange(0, i) + r).to_multiset().insert(l[i])
        =~= (l.subrange(0, i + 1) + r).to_multiset());
}

/// Taking the next element of the right run.
pub(crate) proof fn lemma_take_one_more_right(l: Seq<i32>, r: Seq<i32>, j: int)
    requires
        0 <= j < r.len(),
    ensures
        (l + r.subrange(0, j)).to_multiset().insert(r[j])
            == (l + r.subrange(0, j + 1)).to_multiset(),
{
    assert(r.subrange(0, j + 1) =~= r.subrange(0, j).push(r[j]));
    assert(l + r.subrange(0, j + 1) =~= (l + r.subrange(0, j)).push(r[j]));
    vstd::seq_lib::to_multiset_build(l + r.subrange(0, j), r[j]);
}

} // verus!
