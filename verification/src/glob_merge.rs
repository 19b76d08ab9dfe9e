//! Merge sort over three shared buffers: the input, a buffer that receives
//! sorted runs and a second buffer for the merge steps in between. Runs are
//! merged by splitting the longer one at its middle element and the shorter
//! one where that element would go, so that the two halves of every merge
//! can proceed independently.

use vstd::prelude::*;
use crate::order::{
    sorted, same_elements, sorted_version_of, lemma_sorted_subrange, lemma_sorted_concat,
    lemma_same_elements_member, sorted_range, same_outside, sorted_halves,
    lemma_sorted_version_is_sorted_seq, sorted_seq,
};
use crate::slice_sort::std_sort;
use crate::merge_sort::{merge, runs_max};

verus! {

/// The input and the two working buffers, all of one length.
pub struct GlobBuffers {
    pub input: Vec<i32>,
    pub sorted: Vec<i32>,
    pub merged: Vec<i32>,
}

impl GlobBuffers {
    /// All three buffers have the input's length.
    pub open spec fn wf(&self) -> bool {
        self.sorted@.len() == self.input@.len() && self.merged@.len() == self.input@.len()
    }

    /// Takes the input and zero-filled working buffers of the same length.
    pub fn new(input: Vec<i32>) -> (bufs: GlobBuffers)
        ensures
            bufs.wf(),
            bufs.input@ == input@,
            bufs.sorted@ == Seq::new(input@.len(), |i: int| 0i32),
            bufs.merged@ == Seq::new(input@.len(), |i: int| 0i32),
    {
        let len = input.len();
        let sorted = vec![0i32; len];
        let merged = vec![0i32; len];
        proof {
            assert(sorted@ =~= Seq::new(input@.len(), |i: int| 0i32));
            assert(merged@ =~= Seq::new(input@.len(), |i: int| 0i32));
        }
        GlobBuffers { input, sorted, merged }
    }
}

/// Where bisection of `s[lo..hi]` for `target` stops: it looks at the
/// middle element, stops there if it equals `target`, and otherwise goes on
/// in the half above or below it; an empty range stops at `lo`.
pub open spec fn bisect(s: Seq<i32>, target: i32, lo: int, hi: int) -> int
    decreases hi - lo,
{
    if lo >= hi {
        lo
    } else {
        let mid = lo + (hi - lo) / 2;
        if s[mid] == target {
            mid
        } else if s[mid] < target {
            bisect(s, target, mid + 1, hi)
        } else {
            bisect(s, target, lo, mid)
        }
    }
}

/// Searches `src[b_left..b_right]` for `target` by bisection: returns the
/// index of an element equal to it if the bisection meets one, else the
/// index at which it would be inserted.
pub fn binary_search(src: &[i32], target: i32, b_left: usize, b_right: usize) -> (r: usize)
    requires
        b_left < b_right ==> b_right <= src@.len(),
    ensures
        r == bisect(src@, target, b_left as int, b_right as int),
        b_left >= b_right ==> r == b_left,
        b_left < b_right ==> b_left <= r <= b_right,
        b_left < b_right && sorted(src@.subrange(b_left as int, b_right as int)) ==> {
            &&& forall|k: int| b_left <= k < r ==> src@[k] <= target
            &&& forall|k: int| r <= k < b_right ==> src@[k] >= target
            &&& (exists|k: int| b_left <= k < b_right && src@[k] == target) ==> (r < b_right
                && src@[r as int] == target)
        },
{
    let ghost lo0 = b_left;
    let ghost hi0 = b_right;
    let mut lo = b_left;
    let mut hi = b_right;
    if lo >= hi {
        return lo;
    }
    let ghost is_sorted = sorted(src@.subrange(lo0 as int, hi0 as int));
    while lo < hi
        invariant
            lo0 == b_left,
            hi0 == b_right,
            lo0 < hi0 <= src@.len(),
            lo0 <= lo <= hi <= hi0,
            is_sorted == sorted(src@.subrange(lo0 as int, hi0 as int)),
            is_sorted ==> forall|k: int| lo0 <= k < lo ==> src@[k] < target,
            is_sorted ==> forall|k: int| hi <= k < hi0 ==> src@[k] > target,
            bisect(src@, target, lo as int, hi as int) == bisect(src@, target, lo0 as int, hi0 as int),
        decreases hi - lo,
    {
        let mid = lo + (hi - lo) / 2;
        let mid_val = src[mid];
        proof {
            if is_sorted {
                assert forall|k: int| lo0 <= k <= mid implies src@[k] <= mid_val by {
                    let s = src@.subrange(lo0 as int, hi0 as int);
                    assert(s[k - lo0] <= s[mid - lo0]);
                }
                assert forall|k: int| mid <= k < hi0 implies src@[k] >= mid_val by {
                    let s = src@.subrange(lo0 as int, hi0 as int);
                    assert(s[mid - lo0] <= s[k - lo0]);
                }
            }
        }
        if mid_val == target {
            proof {
                if is_sorted {
                    assert forall|k: int| lo0 <= k < mid implies src@[k] <= target by {
                        let s = src@.subrange(lo0 as int, hi0 as int);
                        assert(s[k - lo0] <= s[mid - lo0]);
                    }
                    assert forall|k: int| mid <= k < hi0 implies src@[k] >= target by {
                        let s = src@.subrange(lo0 as int, hi0 as int);
                        assert(s[mid - lo0] <= s[k - lo0]);
                    }
                }
            }
            return mid;
        } else if mid_val < target {
            lo = mid + 1;
        } else {
            hi = mid;
        }
    }
    lo
}

/// `p` is where `x` goes in the sorted `run`: after the elements no greater
/// than it.
pub open spec fn cut_point(run: Seq<i32>, x: i32, p: int) -> bool {
    &&& 0 <= p <= run.len()
    &&& forall|k: int| 0 <= k < p ==> run[k] <= x
    &&& forall|k: int| p <= k < run.len() ==> run[k] > x
}

/// What a merge with an empty first run whose head reads `x` leaves: `run`
/// with `x` put in after the elements no greater than it, cut back to the
/// length of `run`.
pub open spec fn empty_run_merge(result: Seq<i32>, run: Seq<i32>, x: i32) -> bool {
    exists|p: int| cut_point(run, x, p) && result == (run.take(p).push(x) + run.skip(p)).take(run.len() as int)
}

/// A sorted run has a place for every `x`.
pub proof fn lemma_cut_point_exists(run: Seq<i32>, x: i32)
    requires
        sorted(run),
    ensures
        exists|p: int| cut_point(run, x, p),
    decreases run.len(),
{
    if run.len() == 0 {
        assert(cut_point(run, x, 0));
    } else if run[run.len() - 1] <= x {
        assert forall|k: int| 0 <= k < run.len() implies run[k] <= x by {
            assert(run[k] <= run[run.len() - 1]);
        }
        assert(cut_point(run, x, run.len() as int));
    } else {
        let front = run.drop_last();
        assert(sorted(front));
        lemma_cut_point_exists(front, x);
        let p = choose|p: int| cut_point(front, x, p);
        assert forall|k: int| p <= k < run.len() implies run[k] > x by {
            if k < front.len() {
                assert(front[k] == run[k]);
            }
        }
        assert forall|k: int| 0 <= k < p implies run[k] <= x by {
            assert(front[k] == run[k]);
        }
        assert(cut_point(run, x, p));
    }
}

/// Merges the sorted runs `src[a.0..a.1]` and `src[b.0..b.1]` into
/// `dest[d.0..d.1]`: the first `d.1 - d.0` elements of their sorted merge,
/// followed by copies of the larger of the two last elements where the
/// window is longer than the runs. When the second run is empty the first
/// is copied. When only the first is empty, its head still reads `src[a.0]`,
/// which goes in among the second run's elements, and the last place falls
/// away.
pub fn merge_seq(src: &[i32], dest: &mut [i32], a: (usize, usize), b: (usize, usize), d: (usize, usize))
    requires
        a.0 <= a.1 <= src@.len(),
        b.0 <= b.1 <= src@.len(),
        d.0 <= d.1 <= old(dest)@.len(),
        b.1 <= b.0 ==> a.0 + (d.1 - d.0) <= src@.len(),
        b.0 < b.1 ==> {
            &&& sorted_range(src@, a.0 as int, a.1 as int)
            &&& sorted_range(src@, b.0 as int, b.1 as int)
            &&& (a.0 < a.1 || (1 <= a.0 < src@.len() && d.1 - d.0 == b.1 - b.0))
        },
    ensures
        same_outside(final(dest)@, old(dest)@, d.0 as int, d.1 as int),
        b.1 <= b.0 ==> final(dest)@.subrange(d.0 as int, d.1 as int) == src@.subrange(
            a.0 as int,
            a.0 + (d.1 - d.0),
        ),
        b.0 < b.1 && a.0 < a.1 ==> final(dest)@.subrange(d.0 as int, d.1 as int) == (sorted_seq(
            src@.subrange(a.0 as int, a.1 as int) + src@.subrange(b.0 as int, b.1 as int),
        ) + Seq::new(
            (d.1 - d.0) as nat,
            |p: int| runs_max(src@.subrange(a.0 as int, a.1 as int), src@.subrange(b.0 as int, b.1 as int)),
        )).take(d.1 - d.0),
        b.0 < b.1 && a.0 < a.1 && d.1 - d.0 == (a.1 - a.0) + (b.1 - b.0) ==> sorted_version_of(
            final(dest)@.subrange(d.0 as int, d.1 as int),
            src@.subrange(a.0 as int, a.1 as int) + src@.subrange(b.0 as int, b.1 as int),
        ),
        // the first run empty: its head reads `src[a.0]`, which belongs to no run
        b.0 < b.1 && a.1 <= a.0 ==> empty_run_merge(
            final(dest)@.subrange(d.0 as int, d.1 as int),
            src@.subrange(b.0 as int, b.1 as int),
            src@[a.0 as int],
        ),
{
    let (a_left, a_right) = a;
    let (b_left, b_right) = b;
    let (d_left, d_right) = d;
    if b_right <= b_left {
        let mut i = d_left;
        while i < d_right
            invariant
                d_left <= i <= d_right <= dest@.len(),
                a_left + (d_right - d_left) <= src@.len(),
                same_outside(dest@, old(dest)@, d_left as int, d_right as int),
                forall|k: int| d_left <= k < i ==> dest@[k] == src@[a_left + (k - d_left)],
            decreases d_right - i,
        {
            assert(a_left + (i - d_left) < src.len());
            dest[i] = src[a_left + (i - d_left)];
            i = i + 1;
        }
        proof {
            assert(dest@.subrange(d_left as int, d_right as int) =~= src@.subrange(
                a_left as int,
                a_left + (d_right - d_left),
            ));
        }
        return;
    }
    if a_right <= a_left {
        // the first run is empty: its head `src[a_left]` and the bound
        // `src[a_right - 1]` are read from outside both runs
        let max = Ord::max(src[a_right - 1], src[b_right - 1]);
        let x = src[a_left];
        let ghost run = src@.subrange(b_left as int, b_right as int);
        let ghost blen = run.len() as int;
        let ghost p = choose|p: int| cut_point(run, x, p);
        proof {
            lemma_cut_point_exists(run, x);
        }
        let mut left_n = x;
        let mut right_n = src[b_left];
        let mut ri: usize = b_left + 1;
        let mut k = d_left;
        // elements of the run written so far, and whether `x` has been
        let ghost mut j: int = 0;
        let ghost mut x_written: bool = false;
        while k < d_right
            invariant
                d_left <= k <= d_right <= dest@.len(),
                b_left < b_right <= src@.len(),
                d_right - d_left == blen,
                run == src@.subrange(b_left as int, b_right as int),
                blen == run.len(),
                sorted(run),
                cut_point(run, x, p),
                max >= run[blen - 1],
                same_outside(dest@, old(dest)@, d_left as int, d_right as int),
                0 <= j <= blen,
                k - d_left == j + (if x_written { 1int } else { 0int }),
                j < blen ==> right_n == run[j] && ri == b_left + j + 1,
                !x_written ==> j <= p && left_n == x,
                x_written ==> j >= p && left_n == max,
                !x_written ==> dest@.subrange(d_left as int, k as int) == run.take(j),
                x_written ==> dest@.subrange(d_left as int, k as int) == run.take(p).push(x) + run.subrange(p, j),
            decreases d_right - k,
        {
            let ghost prev = dest@;
            assert(j < blen);
            assert(run[j] <= run[blen - 1]);
            if left_n < right_n {
                dest[k] = left_n;
                proof {
                    assert(dest@.subrange(d_left as int, k + 1) =~= prev.subrange(d_left as int, k as int).push(left_n));
                    if !x_written {
                        assert(j == p);
                        assert(run.take(j).push(x) + run.subrange(p, j) =~= run.take(p).push(x));
                    }
                    x_written = true;
                }
                left_n = max;
            } else {
                dest[k] = right_n;
                proof {
                    assert(dest@.subrange(d_left as int, k + 1) =~= prev.subrange(d_left as int, k as int).push(right_n));
                    if !x_written {
                        assert(j < p);
                        assert(run.take(j + 1) =~= run.take(j).push(run[j]));
                    } else {
                        assert(run.take(p).push(x) + run.subrange(p, j + 1) =~= (run.take(p).push(x) + run.subrange(p, j)).push(run[j]));
                    }
                    j = j + 1;
                }
                if ri < b_right {
                    right_n = src[ri];
                    ri = ri + 1;
                } else {
                    right_n = max;
                }
            }
            k = k + 1;
        }
        proof {
            if x_written {
                assert((run.take(p).push(x) + run.skip(p)).take(blen) =~= run.take(p).push(x) + run.subrange(p, j));
            } else {
                assert(j == blen);
                assert(p == blen);
                assert((run.take(p).push(x) + run.skip(p)).take(blen) =~= run.take(j));
            }
        }
        return;
    }
    let (lower, rest) = dest.split_at_mut(d_left);
    let (window, upper) = rest.split_at_mut(d_right - d_left);
    merge(&src[a_left..a_right], &src[b_left..b_right], window);
    proof {
        assert(dest@ =~= lower@ + (window@ + upper@));
        assert(dest@.subrange(d_left as int, d_right as int) =~= window@);
    }
}

/// Merges the sorted runs `src[a.0..a.1]` and `src[b.0..b.1]` into
/// `dest[d.0..d.1]`. Runs whose merge exceeds `merge_chunk` are split: the
/// longer at its middle element, the shorter where the binary search puts
/// that element, and the two lower parts and the two upper parts are merged
/// separately.
pub fn merge_par_glob(
    src: &[i32],
    dest: &mut [i32],
    a: (usize, usize),
    b: (usize, usize),
    d: (usize, usize),
    merge_chunk: usize,
)
    requires
        a.0 <= a.1 <= src@.len(),
        b.0 <= b.1 <= src@.len(),
        d.0 <= d.1 <= old(dest)@.len(),
        d.1 - d.0 == (a.1 - a.0) + (b.1 - b.0),
        sorted_range(src@, a.0 as int, a.1 as int),
        sorted_range(src@, b.0 as int, b.1 as int),
        merge_chunk >= 2,
        d.1 - d.0 <= merge_chunk ==> (a.0 < a.1 || b.1 == b.0 || (b.1 - b.0 == 1 && 1 <= a.0 < src@.len()
            && src@[a.0 as int] >= src@[b.0 as int])),
    ensures
        same_outside(final(dest)@, old(dest)@, d.0 as int, d.1 as int),
        sorted_version_of(
            final(dest)@.subrange(d.0 as int, d.1 as int),
            src@.subrange(a.0 as int, a.1 as int) + src@.subrange(b.0 as int, b.1 as int),
        ),
    decreases d.1 - d.0,
{
    let (d_left, d_right) = d;
    if d_right - d_left <= merge_chunk {
        merge_seq(src, dest, a, b, d);
        proof {
            if b.0 < b.1 && a.1 <= a.0 {
                assert(src@.subrange(a.0 as int, a.1 as int) + src@.subrange(b.0 as int, b.1 as int)
                    =~= seq![src@[b.0 as int]]);
                assert(dest@.subrange(d.0 as int, d.1 as int) =~= seq![src@[b.0 as int]]);
            }
            if b.1 <= b.0 {
                assert(src@.subrange(b.0 as int, b.1 as int) =~= Seq::<i32>::empty());
                assert(src@.subrange(a.0 as int, a.1 as int) + src@.subrange(b.0 as int, b.1 as int)
                    =~= src@.subrange(a.0 as int, a.1 as int));
            }
        }
        return;
    }
    let (mut a_left, mut a_right) = a;
    let (mut b_left, mut b_right) = b;
    // let the first run be the longer of the two
    if !(a_right - a_left > b_right - b_left) {
        let (tmp_left, tmp_right) = (a_left, a_right);
        a_left = b_left;
        a_right = b_right;
        b_left = tmp_left;
        b_right = tmp_right;
    }
    let a_mid = (a_right - a_left) / 2;
    let val = src[a_left + a_mid];
    let b_mid = binary_search(src, val, b_left, b_right) - b_left;
    let m = a_mid + b_mid;
    proof {
        lemma_sorted_subrange(src@, a_left as int, a_right as int, a_left as int, (a_left + a_mid) as int);
        lemma_sorted_subrange(src@, a_left as int, a_right as int, (a_left + a_mid) as int, a_right as int);
        lemma_sorted_subrange(src@, b_left as int, b_right as int, b_left as int, (b_left + b_mid) as int);
        lemma_sorted_subrange(src@, b_left as int, b_right as int, (b_left + b_mid) as int, b_right as int);
    }
    merge_par_glob(src, dest, (a_left, a_left + a_mid), (b_left, b_left + b_mid), (d_left, d_left + m), merge_chunk);
    let ghost low = dest@.subrange(d_left as int, (d_left + m) as int);
    merge_par_glob(src, dest, (a_left + a_mid, a_right), (b_left + b_mid, b_right), (d_left + m, d_right), merge_chunk);
    proof {
        let high = dest@.subrange((d_left + m) as int, d_right as int);
        assert(dest@.subrange(d_left as int, (d_left + m) as int) =~= low);
        lemma_split_merge(src@, a_left as int, (a_left + a_mid) as int, a_right as int,
            b_left as int, (b_left + b_mid) as int, b_right as int, low, high, val);
        assert(dest@.subrange(d_left as int, d_right as int) =~= low + high);
        vstd::seq_lib::lemma_seq_union_to_multiset_commutative(
            src@.subrange(a.0 as int, a.1 as int), src@.subrange(b.0 as int, b.1 as int));
    }
}

/// The two halves of a split merge, put one after the other, are the sorted
/// merge of the two runs.
pub(crate) proof fn lemma_split_merge(
    s: Seq<i32>,
    al: int,
    am: int,
    ar: int,
    bl: int,
    bm: int,
    br: int,
    low: Seq<i32>,
    high: Seq<i32>,
    val: i32,
)
    requires
        0 <= al <= am < ar <= s.len(),
        0 <= bl <= bm <= br <= s.len(),
        s[am] == val,
        sorted(s.subrange(al, ar)),
        forall|k: int| bl <= k < bm ==> s[k] <= val,
        forall|k: int| bm <= k < br ==> s[k] >= val,
        sorted_version_of(low, s.subrange(al, am) + s.subrange(bl, bm)),
        sorted_version_of(high, s.subrange(am, ar) + s.subrange(bm, br)),
    ensures
        sorted_version_of(low + high, s.subrange(al, ar) + s.subrange(bl, br)),
{
    let l1 = s.subrange(al, am);
    let l2 = s.subrange(am, ar);
    let r1 = s.subrange(bl, bm);
    let r2 = s.subrange(bm, br);
    assert forall|i: int, j: int| 0 <= i < low.len() && 0 <= j < high.len() implies low[i] <= high[j] by {
        let p = lemma_same_elements_member(low, l1 + r1, i);
        let q = lemma_same_elements_member(high, l2 + r2, j);
        let big = s.subrange(al, ar);
        if p < l1.len() {
            assert(big[p] <= big[am - al]);
        }
        if q < l2.len() {
            assert(big[am - al] <= big[q + am - al]);
        }
    }
    lemma_sorted_concat(low, high);
    vstd::seq_lib::lemma_multiset_commutative(low, high);
    vstd::seq_lib::lemma_multiset_commutative(l1, r1);
    vstd::seq_lib::lemma_multiset_commutative(l2, r2);
    vstd::seq_lib::lemma_multiset_commutative(l1, l2);
    vstd::seq_lib::lemma_multiset_commutative(r1, r2);
    vstd::seq_lib::lemma_multiset_commutative(s.subrange(al, ar), s.subrange(bl, br));
    assert(l1 + l2 =~= s.subrange(al, ar));
    assert(r1 + r2 =~= s.subrange(bl, br));
    assert((low + high).to_multiset() =~= (s.subrange(al, ar) + s.subrange(bl, br)).to_multiset());
}

/// `sort_par_glob` on the `len` elements from `left` with base-case size
/// `sort_chunk` comes to an end, and each of its merges has a non-empty
/// first run, an empty second run, or (away from index 0) a second run of
/// one element after an empty first one, which its merge handles.
pub open spec fn glob_sort_splits(left: int, len: int, usebuf: bool, sort_chunk: int) -> bool
    decreases 2 * len + (if usebuf { 0int } else { 1int }),
{
    if len < 0 {
        false
    } else if usebuf && len < sort_chunk {
        true
    } else if usebuf && len <= 1 {
        false
    } else {
        let mid = len / 2;
        &&& glob_sort_splits(left, mid, !usebuf, sort_chunk)
        &&& glob_sort_splits(left + mid, len - mid, !usebuf, sort_chunk)
        &&& (mid > 0 || len == 0 || left >= 1)
        &&& sort_chunk >= 1
    }
}

/// With a base case of at least four elements every sort is fine.
pub proof fn lemma_chunk_four_suffices(left: int, len: int, usebuf: bool, sort_chunk: int)
    requires
        sort_chunk >= 4,
        len >= 0,
        usebuf || len != 1,
    ensures
        glob_sort_splits(left, len, usebuf, sort_chunk),
    decreases 2 * len + (if usebuf { 0int } else { 1int }),
{
    if usebuf && len < sort_chunk {
    } else {
        let mid = len / 2;
        lemma_chunk_four_suffices(left, mid, !usebuf, sort_chunk);
        lemma_chunk_four_suffices(left + mid, len - mid, !usebuf, sort_chunk);
    }
}

/// Whether `sort_par_glob` on the `len` elements from `left` with base-case
/// size `sort_chunk` comes to an end with every merge one it handles.
pub fn glob_sort_fits(left: usize, len: usize, usebuf: bool, sort_chunk: usize) -> (r: bool)
    requires
        left + len <= usize::MAX,
    ensures
        r == glob_sort_splits(left as int, len as int, usebuf, sort_chunk as int),
    decreases 2 * len + (if usebuf { 0int } else { 1int }),
{
    if sort_chunk >= 4 && (usebuf || len != 1) {
        proof {
            lemma_chunk_four_suffices(left as int, len as int, usebuf, sort_chunk as int);
        }
        return true;
    }
    if usebuf && len < sort_chunk {
        return true;
    }
    if usebuf && len <= 1 {
        return false;
    }
    let mid = len / 2;
    glob_sort_fits(left, mid, !usebuf, sort_chunk) && glob_sort_fits(left + mid, len - mid, !usebuf, sort_chunk)
        && (mid > 0 || len == 0 || left >= 1) && sort_chunk >= 1
}

/// Sorts `input[left..right]` into `sorted` when `usebuf` holds and into
/// `merged` otherwise. Runs shorter than `sort_chunk` that go to `sorted`
/// are sorted directly; the others are split in two, each half is sorted
/// into the other buffer, and the halves are merged back, so that the other
/// buffer is left holding the two sorted halves.
pub fn sort_par_glob(bufs: &mut GlobBuffers, left: usize, right: usize, usebuf: bool, sort_chunk: usize)
    requires
        old(bufs).wf(),
        left <= right <= old(bufs).input@.len(),
        glob_sort_splits(left as int, right - left, usebuf, sort_chunk as int),
        2 * sort_chunk <= usize::MAX,
    ensures
        final(bufs).wf(),
        final(bufs).input@ == old(bufs).input@,
        usebuf ==> sorted_version_of(
            final(bufs).sorted@.subrange(left as int, right as int),
            old(bufs).input@.subrange(left as int, right as int),
        ),
        !usebuf ==> sorted_version_of(
            final(bufs).merged@.subrange(left as int, right as int),
            old(bufs).input@.subrange(left as int, right as int),
        ),
        same_outside(final(bufs).sorted@, old(bufs).sorted@, left as int, right as int),
        same_outside(final(bufs).merged@, old(bufs).merged@, left as int, right as int),
        usebuf && right - left < sort_chunk ==> final(bufs).merged@ == old(bufs).merged@,
        !(usebuf && right - left < sort_chunk) ==> (if usebuf {
            final(bufs).merged@
        } else {
            final(bufs).sorted@
        }).subrange(left as int, right as int) == sorted_halves(
            old(bufs).input@.subrange(left as int, right as int),
        ),
    decreases 2 * (right - left) + (if usebuf { 0int } else { 1int }),
{
    let len = right - left;
    if usebuf && len < sort_chunk {
        let mut seq_vec = vstd::slice::slice_to_vec(&bufs.input.as_slice()[left..right]);
        std_sort(seq_vec.as_mut_slice());
        let mut i = left;
        while i < right
            invariant
                left <= i <= right <= bufs.input@.len(),
                bufs.wf(),
                bufs.input@ == old(bufs).input@,
                bufs.merged@ == old(bufs).merged@,
                seq_vec@.len() == right - left,
                sorted_version_of(seq_vec@, old(bufs).input@.subrange(left as int, right as int)),
                same_outside(bufs.sorted@, old(bufs).sorted@, left as int, right as int),
                forall|k: int| left <= k < i ==> bufs.sorted@[k] == seq_vec@[k - left],
            decreases right - i,
        {
            bufs.sorted.set(i, seq_vec[i - left]);
            i = i + 1;
        }
        proof {
            assert(bufs.sorted@.subrange(left as int, right as int) =~= seq_vec@);
        }
        return;
    }
    let mid = len / 2;
    sort_par_glob(bufs, left, left + mid, !usebuf, sort_chunk);
    let ghost first = if usebuf { bufs.merged@ } else { bufs.sorted@ };
    sort_par_glob(bufs, left + mid, right, !usebuf, sort_chunk);
    let ghost halves = if usebuf { bufs.merged@ } else { bufs.sorted@ };
    proof {
        assert(halves.subrange(left as int, (left + mid) as int) =~= first.subrange(left as int, (left + mid) as int));
    }
    if usebuf {
        merge_par_glob(bufs.merged.as_slice(), bufs.sorted.as_mut_slice(), (left, left + mid), (left + mid, right), (left, right), 2 * sort_chunk);
    } else {
        merge_par_glob(bufs.sorted.as_slice(), bufs.merged.as_mut_slice(), (left, left + mid), (left + mid, right), (left, right), 2 * sort_chunk);
    }
    proof {
        let inp = old(bufs).input@;
        let s1 = halves.subrange(left as int, (left + mid) as int);
        let s2 = halves.subrange((left + mid) as int, right as int);
        let part = inp.subrange(left as int, right as int);
        assert(part.subrange(0, mid as int) =~= inp.subrange(left as int, (left + mid) as int));
        assert(part.subrange(mid as int, part.len() as int) =~= inp.subrange((left + mid) as int, right as int));
        lemma_sorted_version_is_sorted_seq(s1, inp.subrange(left as int, (left + mid) as int));
        lemma_sorted_version_is_sorted_seq(s2, inp.subrange((left + mid) as int, right as int));
        let other = if usebuf { bufs.merged@ } else { bufs.sorted@ };
        assert(other == halves);
        assert(other.subrange(left as int, right as int) =~= s1 + s2);
        vstd::seq_lib::lemma_multiset_commutative(s1, s2);
        vstd::seq_lib::lemma_multiset_commutative(
            inp.subrange(left as int, (left + mid) as int), inp.subrange((left + mid) as int, right as int));
        assert(inp.subrange(left as int, (left + mid) as int) + inp.subrange((left + mid) as int, right as int)
            =~= inp.subrange(left as int, right as int));
    }
}

} // verus!
