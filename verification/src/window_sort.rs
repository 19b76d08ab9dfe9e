//! Merge sort over windows of two buffers. A window names a run of a buffer
//! by its first index and length; sorting a window of one buffer uses the
//! window of the same place in the other buffer as scratch space, and the
//! merge of two runs splits itself like the shared-buffer sort does.

use vstd::prelude::*;
use crate::order::{
    sorted, same_elements, sorted_version_of, same_outside, lemma_sorted_concat, sorted_seq,
    lemma_sorted_subrange, lemma_sorted_version_is_sorted_seq, sorted_halves,
};
use crate::glob_merge::lemma_split_merge;
use crate::slice_sort::std_sort;
use crate::merge_sort::{lemma_take_one_more, lemma_take_one_more_right};
use crate::std_slice::{std_copy_from_slice, std_binary_search, slice_binary_search};

verus! {

/// A window `[start, start + len)` of a buffer that is passed alongside it.
#[derive(Clone, Copy)]
pub struct MutBuf {
    pub start: usize,
    pub len: usize,
}

impl MutBuf {
    /// The window lies inside a buffer of length `buf_len`.
    pub open spec fn fits(self, buf_len: int) -> bool {
        self.start + self.len <= buf_len
    }

    /// What the window shows of `buf`.
    pub open spec fn contents(self, buf: Seq<i32>) -> Seq<i32> {
        buf.subrange(self.start as int, self.start + self.len)
    }

    /// The window over the whole of `s`.
    pub fn from_slice(s: &[i32]) -> (w: MutBuf)
        ensures
            w.start == 0,
            w.len == s@.len(),
    {
        MutBuf { start: 0, len: s.len() }
    }

    /// The element at `index` within the window.
    pub fn read(&self, buf: &[i32], index: usize) -> (x: i32)
        requires
            index < self.len,
            self.fits(buf@.len() as int),
        ensures
            x == self.contents(buf@)[index as int],
    {
        assert(self.start + index < buf.len());
        buf[self.start + index]
    }

    /// The part of `buf` that the window shows.
    pub fn as_slice<'a>(&self, buf: &'a [i32]) -> (s: &'a [i32])
        requires
            self.fits(buf@.len() as int),
        ensures
            s@ == self.contents(buf@),
    {
        assert(self.start + self.len <= buf.len());
        &buf[self.start..self.start + self.len]
    }

    /// The part of `buf` that the window shows, to be written through.
    pub fn as_mut_slice<'a>(&self, buf: &'a mut [i32]) -> (s: &'a mut [i32])
        requires
            self.fits(old(buf)@.len() as int),
        ensures
            s@ == self.contents(old(buf)@),
            final(buf)@ == old(buf)@.subrange(0, self.start as int) + (final(s)@ + old(buf)@.subrange(
                self.start + self.len,
                old(buf)@.len() as int,
            )),
    {
        let ghost whole = buf@;
        let (lower, rest) = buf.split_at_mut(self.start);
        let (window, upper) = rest.split_at_mut(self.len);
        proof {
            assert(whole =~= whole.subrange(0, self.start as int) + (window@ + whole.subrange(self.start + self.len, whole.len() as int)));
        }
        window
    }

    /// The window `[start, end)` within this one; both ends must leave it
    /// non-empty.
    pub fn sub_slice(&self, start: usize, end: usize) -> (w: MutBuf)
        requires
            start < end <= self.len,
            self.start + self.len <= usize::MAX,
        ensures
            w.start == self.start + start,
            w.len == end - start,
    {
        MutBuf { start: self.start + start, len: end - start }
    }
}

/// The merge of `l` and `r` that takes the head of `l` unless the head of
/// `r` is smaller, and the rest of either run once the other is used up.
pub open spec fn merge_left_first(l: Seq<i32>, r: Seq<i32>) -> Seq<i32>
    decreases l.len() + r.len(),
{
    if l.len() == 0 {
        r
    } else if r.len() == 0 {
        l
    } else if l[0] <= r[0] {
        seq![l[0]] + merge_left_first(l.drop_first(), r)
    } else {
        seq![r[0]] + merge_left_first(l, r.drop_first())
    }
}

/// Merges the runs that `left` and `right` show of `from` into the window
/// `dest` of `to`, taking from the left run on ties, and copies over the
/// rest of whichever run is left once the other is used up.
pub fn merge_seq_unsafe(from: &[i32], left: MutBuf, right: MutBuf, to: &mut [i32], dest: MutBuf)
    requires
        left.fits(from@.len() as int),
        right.fits(from@.len() as int),
        dest.fits(old(to)@.len() as int),
        dest.len == left.len + right.len,
    ensures
        same_outside(final(to)@, old(to)@, dest.start as int, dest.start + dest.len),
        dest.contents(final(to)@) == merge_left_first(left.contents(from@), right.contents(from@)),
        same_elements(dest.contents(final(to)@), left.contents(from@) + right.contents(from@)),
        sorted(left.contents(from@)) && sorted(right.contents(from@)) ==> sorted(
            dest.contents(final(to)@),
        ),
{
    let l = left.as_slice(from);
    let r = right.as_slice(from);
    let ghost whole = to@;
    let d = dest.as_mut_slice(to);
    proof {
        lemma_splice(whole.subrange(0, dest.start as int), d@, whole.subrange(dest.start + dest.len, whole.len() as int));
        assert(whole =~= whole.subrange(0, dest.start as int) + (d@ + whole.subrange(dest.start + dest.len, whole.len() as int)));
    }
    if r.is_empty() {
        std_copy_from_slice(d, l);
        proof {
            assert(r@ =~= Seq::<i32>::empty());
            assert(l@ + r@ =~= l@);
            assert(merge_left_first(l@, r@) == l@);
        }
        return;
    }
    let ghost srt = sorted(l@) && sorted(r@);
    let left_len = l.len();
    let right_len = r.len();
    let mut i: usize = 0;
    let mut j: usize = 0;
    let mut k: usize = 0;
    proof {
        assert(d@.subrange(0, 0) =~= Seq::<i32>::empty());
        assert(l@.subrange(0, 0) + r@.subrange(0, 0) =~= Seq::<i32>::empty());
        assert(l@.subrange(0, left_len as int) =~= l@);
        assert(r@.subrange(0, right_len as int) =~= r@);
        assert(d@.subrange(0, 0) + merge_left_first(l@, r@) =~= merge_left_first(l@, r@));
    }
    while i < left_len && j < right_len
        invariant
            left_len == l@.len(),
            right_len == r@.len(),
            d@.len() == left_len + right_len,
            i <= left_len,
            j <= right_len,
            k == i + j,
            srt == (sorted(l@) && sorted(r@)),
            same_elements(d@.subrange(0, k as int), l@.subrange(0, i as int) + r@.subrange(0, j as int)),
            srt ==> sorted(d@.subrange(0, k as int)),
            srt && k > 0 && i < left_len ==> d@[k - 1] <= l@[i as int],
            srt && k > 0 && j < right_len ==> d@[k - 1] <= r@[j as int],
            d@.subrange(0, k as int) + merge_left_first(
                l@.subrange(i as int, left_len as int),
                r@.subrange(j as int, right_len as int),
            ) == merge_left_first(l@, r@),
        decreases left_len + right_len - k,
    {
        let ghost prev = d@;
        let lv = l[i];
        let rv = r[j];
        let ghost ls = l@.subrange(i as int, left_len as int);
        let ghost rs = r@.subrange(j as int, right_len as int);
        proof {
            assert(ls[0] == lv && rs[0] == rv);
            assert(ls.drop_first() =~= l@.subrange(i + 1, left_len as int));
            assert(rs.drop_first() =~= r@.subrange(j + 1, right_len as int));
        }
        if lv <= rv {
            d[k] = lv;
            proof {
                let rest = merge_left_first(ls.drop_first(), rs);
                assert(merge_left_first(ls, rs) == seq![lv] + rest);
                assert(prev.subrange(0, k as int).push(lv) + rest =~= prev.subrange(0, k as int) + (seq![lv] + rest));
                lemma_push_prefix(prev, d@, k as int, lv, srt);
                lemma_take_one_more(l@, i as int, r@.subrange(0, j as int));
                if srt && i + 1 < left_len {
                    assert(l@[i as int] <= l@[i + 1]);
                }
            }
            i = i + 1;
        } else {
            d[k] = rv;
            proof {
                let rest = merge_left_first(ls, rs.drop_first());
                assert(merge_left_first(ls, rs) == seq![rv] + rest);
                assert(prev.subrange(0, k as int).push(rv) + rest =~= prev.subrange(0, k as int) + (seq![rv] + rest));
                lemma_push_prefix(prev, d@, k as int, rv, srt);
                lemma_take_one_more_right(l@.subrange(0, i as int), r@, j as int);
                if srt && j + 1 < right_len {
                    assert(r@[j as int] <= r@[j + 1]);
                }
            }
            j = j + 1;
        }
        k = k + 1;
    }
    let ghost done = d@.subrange(0, k as int);
    if i < left_len {
        proof {
            assert(r@.subrange(0, j as int) =~= r@);
        }
        let (_, tail) = d.split_at_mut(k);
        std_copy_from_slice(tail, &l[i..left_len]);
        proof {
            lemma_finish_with_tail(done, l@, i as int, r@, srt, true);
            assert(d@ =~= done + l@.subrange(i as int, left_len as int));
            assert(r@.subrange(j as int, right_len as int) =~= Seq::<i32>::empty());
            assert(merge_left_first(l@.subrange(i as int, left_len as int), Seq::<i32>::empty())
                == l@.subrange(i as int, left_len as int));
        }
    } else if j < right_len {
        proof {
            assert(l@.subrange(0, i as int) =~= l@);
        }
        let (_, tail) = d.split_at_mut(k);
        std_copy_from_slice(tail, &r[j..right_len]);
        proof {
            lemma_finish_with_tail(done, r@, j as int, l@, srt, false);
            assert(d@ =~= done + r@.subrange(j as int, right_len as int));
            assert(l@.subrange(i as int, left_len as int) =~= Seq::<i32>::empty());
        }
    } else {
        proof {
            assert(d@ =~= done);
            assert(l@.subrange(0, i as int) =~= l@);
            assert(r@.subrange(0, j as int) =~= r@);
            assert(l@.subrange(i as int, left_len as int) =~= Seq::<i32>::empty());
            assert(r@.subrange(j as int, right_len as int) =~= Seq::<i32>::empty());
            assert(done + Seq::<i32>::empty() =~= done);
        }
    }
}

/// The index that the standard library's binary search reports for `x` in
/// `s`, whether it found `x` or not.
pub open spec fn search_point(s: Seq<i32>, x: i32) -> int {
    match slice_binary_search(s, x) {
        Ok(i) => i as int,
        Err(i) => i as int,
    }
}

/// Every split that `merge_unsafe` makes while merging the runs `l` and `r`
/// leaves both parts of both runs non-empty, as `MutBuf::sub_slice` demands.
#[verifier::opaque]
pub open spec fn window_merge_splits(l: Seq<i32>, r: Seq<i32>, merge_chunk: int) -> bool
    decreases l.len() + r.len(),
{
    if l.len() + r.len() <= merge_chunk {
        true
    } else {
        let big = if l.len() < r.len() { r } else { l };
        let small = if l.len() < r.len() { l } else { r };
        let am = big.len() as int / 2;
        let bm = search_point(small, big[am]);
        &&& 0 < am
        &&& 0 < bm < small.len()
        &&& window_merge_splits(big.subrange(0, am), small.subrange(0, bm), merge_chunk)
        &&& window_merge_splits(
            big.subrange(am, big.len() as int),
            small.subrange(bm, small.len() as int),
            merge_chunk,
        )
    }
}

/// Every split that `sort_unsafe` makes on `s`, and every split of the
/// merges that follow, leaves its parts non-empty.
pub open spec fn sort_splits(s: Seq<i32>, usebuf: bool, sort_chunk: int) -> bool
    decreases 2 * s.len() + (if usebuf { 0int } else { 1int }),
{
    if usebuf && s.len() <= sort_chunk {
        true
    } else {
        let mid = s.len() as int / 2;
        &&& 0 < mid
        &&& sort_splits(s.subrange(0, mid), !usebuf, sort_chunk)
        &&& sort_splits(s.subrange(mid, s.len() as int), !usebuf, sort_chunk)
        &&& window_merge_splits(
            sorted_seq(s.subrange(0, mid)),
            sorted_seq(s.subrange(mid, s.len() as int)),
            2 * sort_chunk,
        )
    }
}

/// Merges the sorted runs that `left` and `right` show of `from` into the
/// window `dest` of `to`. A merge longer than `merge_chunk` splits the
/// longer run at its middle element and the shorter one where the binary
/// search puts that element, and merges the lower and the upper parts
/// separately. Returns `false`, leaving `dest` unspecified, where a split
/// would leave a part empty, which `MutBuf::sub_slice` refuses.
pub fn merge_unsafe(from: &[i32], left: MutBuf, right: MutBuf, to: &mut [i32], dest: MutBuf, merge_chunk: usize) -> (ok: bool)
    requires
        left.fits(from@.len() as int),
        right.fits(from@.len() as int),
        dest.fits(old(to)@.len() as int),
        dest.len == left.len + right.len,
        sorted(left.contents(from@)),
        sorted(right.contents(from@)),
    ensures
        ok == window_merge_splits(left.contents(from@), right.contents(from@), merge_chunk as int),
        same_outside(final(to)@, old(to)@, dest.start as int, dest.start + dest.len),
        ok ==> sorted_version_of(
            dest.contents(final(to)@),
            left.contents(from@) + right.contents(from@),
        ),
    decreases dest.len,
{
    let ghost lc = left.contents(from@);
    let ghost rc = right.contents(from@);
    if dest.len <= merge_chunk {
        merge_seq_unsafe(from, left, right, to, dest);
        proof {
            lemma_short_merge_splits(lc, rc, merge_chunk as int);
        }
        return true;
    }
    let mut left = left;
    let mut right = right;
    // let the left run be the longer of the two
    if left.len < right.len {
        let tmp_left = left;
        left = right;
        right = tmp_left;
    }
    let a_mid = left.len / 2;
    let val = left.read(from, a_mid);
    let b_mid = split_point(from, right, val);
    proof {
        lemma_unfold_merge_splits(lc, rc, merge_chunk as int, left.contents(from@), right.contents(from@), b_mid as int);
    }
    if a_mid == 0 || b_mid == 0 || b_mid >= right.len {
        return false;
    }
    assert(from.len() >= left.start + left.len && from.len() >= right.start + right.len);
    assert(to.len() >= dest.start + dest.len);
    let left_low = left.sub_slice(0, a_mid);
    let right_low = right.sub_slice(0, b_mid);
    let dest_low = dest.sub_slice(0, a_mid + b_mid);
    proof {
        lemma_sub_window(from@, left, 0, a_mid as int, left_low);
        lemma_sub_window(from@, right, 0, b_mid as int, right_low);
    }
    let ok_low = merge_unsafe(from, left_low, right_low, to, dest_low, merge_chunk);
    if !ok_low {
        return false;
    }
    let ghost low = dest_low.contents(to@);
    let left_high = left.sub_slice(a_mid, left.len);
    let right_high = right.sub_slice(b_mid, right.len);
    let dest_high = dest.sub_slice(a_mid + b_mid, dest.len);
    proof {
        lemma_sub_window(from@, left, a_mid as int, left.len as int, left_high);
        lemma_sub_window(from@, right, b_mid as int, right.len as int, right_high);
    }
    let ghost to_mid = to@;
    let ok_high = merge_unsafe(from, left_high, right_high, to, dest_high, merge_chunk);
    proof {
        if ok_high {
            lemma_join_windows(to_mid, to@, dest, dest_low, dest_high);
            lemma_window_halves(from@, left, right, a_mid as int, b_mid as int, val, low, dest_high.contents(to@));
            vstd::seq_lib::lemma_seq_union_to_multiset_commutative(lc, rc);
        }
    }
    ok_high
}

/// Where the standard library's binary search puts `val` in the sorted run
/// that `w` shows of `from`: the elements before it are at most `val`, the
/// elements from it on at least `val`.
fn split_point(from: &[i32], w: MutBuf, val: i32) -> (p: usize)
    requires
        w.fits(from@.len() as int),
        sorted(w.contents(from@)),
    ensures
        p == search_point(w.contents(from@), val),
        p <= w.len,
        forall|k: int| 0 <= k < p ==> w.contents(from@)[k] <= val,
        forall|k: int| p <= k < w.len ==> w.contents(from@)[k] >= val,
{
    let s = w.as_slice(from);
    match std_binary_search(s, &val) {
        Ok(i) => {
            proof {
                assert forall|k: int| 0 <= k < i implies s@[k] <= val by {
                    assert(s@[k] <= s@[i as int]);
                }
                assert forall|k: int| i <= k < s@.len() implies s@[k] >= val by {
                    assert(s@[i as int] <= s@[k]);
                }
            }
            i
        },
        Err(i) => i,
    }
}

/// After the upper part of a window is written, the window shows the lower
/// part as it was, followed by the new upper part.
proof fn lemma_join_windows(before: Seq<i32>, after: Seq<i32>, dest: MutBuf, dest_low: MutBuf, dest_high: MutBuf)
    requires
        dest.fits(before.len() as int),
        dest_low.start == dest.start,
        dest_high.start == dest.start + dest_low.len,
        dest.len == dest_low.len + dest_high.len,
        same_outside(after, before, dest_high.start as int, dest_high.start + dest_high.len),
    ensures
        dest.contents(after) == dest_low.contents(before) + dest_high.contents(after),
        same_outside(after, before, dest.start as int, dest.start + dest.len),
{
    assert(dest.contents(after) =~= dest_low.contents(before) + dest_high.contents(after));
}

/// Sorts the run that `src` shows of `arr`, into `arr` itself when `usebuf`
/// holds and into the window `buf` of `scratch` otherwise. Runs of at most
/// `sort_chunk` elements bound for `arr` are sorted directly; the others are
/// split in two, each half is sorted into the other buffer, and the halves
/// are merged back, so that the other buffer is left holding the two sorted
/// halves. A run bound for `scratch` must have at least two elements to
/// split. Returns `false` where a later split would leave a part empty,
/// which `MutBuf::sub_slice` refuses: nothing is written when that is the
/// first split, and the windows are left unspecified when it comes later.
pub fn sort_unsafe(arr: &mut [i32], scratch: &mut [i32], src: MutBuf, buf: MutBuf, usebuf: bool, sort_chunk: usize) -> (ok: bool)
    requires
        src.fits(old(arr)@.len() as int),
        buf.fits(old(scratch)@.len() as int),
        buf.len == src.len,
        usebuf || src.len >= 2,
        2 * sort_chunk <= usize::MAX,
    ensures
        ok == sort_splits(src.contents(old(arr)@), usebuf, sort_chunk as int),
        same_outside(final(arr)@, old(arr)@, src.start as int, src.start + src.len),
        same_outside(final(scratch)@, old(scratch)@, buf.start as int, buf.start + buf.len),
        ok && usebuf ==> sorted_version_of(src.contents(final(arr)@), src.contents(old(arr)@)),
        ok && !usebuf ==> sorted_version_of(buf.contents(final(scratch)@), src.contents(old(arr)@)),
        ok && !usebuf ==> src.contents(final(arr)@) == sorted_halves(src.contents(old(arr)@)),
        ok && usebuf && src.len > sort_chunk ==> buf.contents(final(scratch)@) == sorted_halves(
            src.contents(old(arr)@),
        ),
        usebuf && src.len <= sort_chunk ==> final(scratch)@ == old(scratch)@,
        !ok && (src.len < 2 || (usebuf && src.len < 4)) ==> final(arr)@ == old(arr)@ && final(scratch)@
            == old(scratch)@,
    decreases 2 * src.len + (if usebuf { 0int } else { 1int }),
{
    let ghost s0 = src.contents(arr@);
    if usebuf && src.len <= sort_chunk {
        let ghost whole = arr@;
        let window = src.as_mut_slice(arr);
        proof {
            lemma_splice(whole.subrange(0, src.start as int), window@, whole.subrange(src.start + src.len, whole.len() as int));
            assert(whole =~= whole.subrange(0, src.start as int) + (window@ + whole.subrange(src.start + src.len, whole.len() as int)));
        }
        std_sort(window);
        return true;
    }
    let mid = src.len / 2;
    if mid == 0 || (usebuf && mid < 2) {
        proof {
            if mid > 0 {
                let h1 = s0.subrange(0, mid as int);
                assert(!sort_splits(h1, false, sort_chunk as int));
            }
        }
        return false;
    }
    assert(arr.len() >= src.start + src.len && scratch.len() >= buf.start + buf.len);
    let left = src.sub_slice(0, mid);
    let right = src.sub_slice(mid, src.len);
    let buf_left = buf.sub_slice(0, mid);
    let buf_right = buf.sub_slice(mid, buf.len);
    proof {
        assert(left.contents(arr@) =~= s0.subrange(0, mid as int));
        assert(right.contents(arr@) =~= s0.subrange(mid as int, s0.len() as int));
    }
    if !sort_unsafe(arr, scratch, left, buf_left, !usebuf, sort_chunk) {
        return false;
    }
    let ghost first_arr = left.contents(arr@);
    let ghost first_scratch = buf_left.contents(scratch@);
    proof {
        assert(right.contents(arr@) =~= s0.subrange(mid as int, s0.len() as int));
    }
    if !sort_unsafe(arr, scratch, right, buf_right, !usebuf, sort_chunk) {
        return false;
    }
    proof {
        assert(left.contents(arr@) =~= first_arr);
        assert(buf_left.contents(scratch@) =~= first_scratch);
        let h1 = s0.subrange(0, mid as int);
        let h2 = s0.subrange(mid as int, s0.len() as int);
        if usebuf {
            lemma_sorted_version_is_sorted_seq(buf_left.contents(scratch@), h1);
            lemma_sorted_version_is_sorted_seq(buf_right.contents(scratch@), h2);
        } else {
            lemma_sorted_version_is_sorted_seq(left.contents(arr@), h1);
            lemma_sorted_version_is_sorted_seq(right.contents(arr@), h2);
        }
        vstd::seq_lib::lemma_multiset_commutative(h1, h2);
        assert(h1 + h2 =~= s0);
    }
    if usebuf {
        let ok = merge_unsafe(scratch, buf_left, buf_right, arr, src, 2 * sort_chunk);
        proof {
            if ok {
                vstd::seq_lib::lemma_multiset_commutative(buf_left.contents(scratch@), buf_right.contents(scratch@));
                assert(buf.contents(scratch@) =~= buf_left.contents(scratch@) + buf_right.contents(scratch@));
            }
        }
        ok
    } else {
        let ok = merge_unsafe(arr, left, right, scratch, buf, 2 * sort_chunk);
        proof {
            if ok {
                vstd::seq_lib::lemma_multiset_commutative(left.contents(arr@), right.contents(arr@));
                assert(src.contents(arr@) =~= left.contents(arr@) + right.contents(arr@));
            }
        }
        ok
    }
}

/// The two separately merged parts of a split window merge, one after the
/// other, are the sorted merge of the two runs.
proof fn lemma_window_halves(from: Seq<i32>, left: MutBuf, right: MutBuf, a_mid: int, b_mid: int, val: i32, low: Seq<i32>, high: Seq<i32>)
    requires
        left.fits(from.len() as int),
        right.fits(from.len() as int),
        0 < a_mid < left.len,
        0 < b_mid < right.len,
        val == from[left.start + a_mid],
        sorted(left.contents(from)),
        sorted(right.contents(from)),
        forall|k: int| 0 <= k < b_mid ==> right.contents(from)[k] <= val,
        forall|k: int| b_mid <= k < right.len ==> right.contents(from)[k] >= val,
        sorted_version_of(low, left.contents(from).subrange(0, a_mid) + right.contents(from).subrange(0, b_mid)),
        sorted_version_of(high, left.contents(from).subrange(a_mid, left.len as int) + right.contents(from).subrange(b_mid, right.len as int)),
    ensures
        sorted_version_of(low + high, left.contents(from) + right.contents(from)),
{
    let small = right.contents(from);
    let big = left.contents(from);
    assert forall|k: int| right.start <= k < right.start + b_mid implies from[k] <= val by {
        assert(from[k] == small[k - right.start]);
    }
    assert forall|k: int| right.start + b_mid <= k < right.start + right.len implies from[k] >= val by {
        assert(from[k] == small[k - right.start]);
    }
    assert(big.subrange(0, a_mid) =~= from.subrange(left.start as int, left.start + a_mid));
    assert(big.subrange(a_mid, left.len as int) =~= from.subrange(left.start + a_mid, left.start + left.len));
    assert(small.subrange(0, b_mid) =~= from.subrange(right.start as int, right.start + b_mid));
    assert(small.subrange(b_mid, right.len as int) =~= from.subrange(right.start + b_mid, right.start + right.len));
    lemma_split_merge(from, left.start as int, left.start + a_mid, left.start + left.len,
        right.start as int, right.start + b_mid, right.start + right.len, low, high, val);
}

/// A window within a window shows the matching run of the outer one, and
/// is sorted when the outer one is.
proof fn lemma_sub_window(buf: Seq<i32>, w: MutBuf, a: int, b: int, sub: MutBuf)
    requires
        w.fits(buf.len() as int),
        0 <= a <= b <= w.len,
        sub.start == w.start + a,
        sub.len == b - a,
    ensures
        sub.contents(buf) == w.contents(buf).subrange(a, b),
        sorted(w.contents(buf)) ==> sorted(sub.contents(buf)),
{
    assert(sub.contents(buf) =~= w.contents(buf).subrange(a, b));
    if sorted(w.contents(buf)) {
        lemma_sorted_subrange(w.contents(buf), 0, w.len as int, a, b);
        assert(w.contents(buf).subrange(0, w.len as int) =~= w.contents(buf));
    }
}

/// One step of `window_merge_splits` on a merge longer than the chunk.
proof fn lemma_unfold_merge_splits(l: Seq<i32>, r: Seq<i32>, merge_chunk: int, big: Seq<i32>, small: Seq<i32>, bm: int)
    requires
        l.len() + r.len() > merge_chunk,
        big == (if l.len() < r.len() { r } else { l }),
        small == (if l.len() < r.len() { l } else { r }),
        big.len() > 0,
        bm == search_point(small, big[big.len() as int / 2]),
    ensures
        window_merge_splits(l, r, merge_chunk) == {
            let am = big.len() as int / 2;
            &&& 0 < am
            &&& 0 < bm < small.len()
            &&& window_merge_splits(big.subrange(0, am), small.subrange(0, bm), merge_chunk)
            &&& window_merge_splits(
                big.subrange(am, big.len() as int),
                small.subrange(bm, small.len() as int),
                merge_chunk,
            )
        },
{
    reveal(window_merge_splits);
}

/// Merges no longer than the chunk make no split.
proof fn lemma_short_merge_splits(l: Seq<i32>, r: Seq<i32>, merge_chunk: int)
    requires
        l.len() + r.len() <= merge_chunk,
    ensures
        window_merge_splits(l, r, merge_chunk),
{
    reveal(window_merge_splits);
}

/// Putting any run of the same length in place of the middle part of
/// `p + (w + q)` changes nothing outside it.
proof fn lemma_splice(p: Seq<i32>, w: Seq<i32>, q: Seq<i32>)
    ensures
        forall|w2: Seq<i32>|
            #![trigger (p + (w2 + q))]
            w2.len() == w.len() ==> (p + (w2 + q)).subrange(p.len() as int, (p.len() + w.len()) as int) == w2
                && same_outside(p + w2 + q, p + (w + q), p.len() as int, (p.len() + w.len()) as int),
{
    assert forall|w2: Seq<i32>| #![trigger (p + (w2 + q))] w2.len() == w.len() implies (p + w2
        + q).subrange(p.len() as int, (p.len() + w.len()) as int) == w2 && same_outside(
        p + w2 + q,
        p + (w + q),
        p.len() as int,
        (p.len() + w.len()) as int,
    ) by {
        assert((p + (w2 + q)).subrange(p.len() as int, (p.len() + w.len()) as int) =~= w2);
    }
}

/// Writing `x` after a prefix: the prefix grows by `x`, and stays sorted
/// when it was sorted and `x` is no smaller than its last element.
proof fn lemma_push_prefix(prev: Seq<i32>, next: Seq<i32>, k: int, x: i32, srt: bool)
    requires
        0 <= k < prev.len(),
        next == prev.update(k, x),
        srt ==> sorted(prev.subrange(0, k)),
        srt && k > 0 ==> prev[k - 1] <= x,
    ensures
        next.subrange(0, k + 1) == prev.subrange(0, k).push(x),
        next.subrange(0, k + 1).to_multiset() == prev.subrange(0, k).to_multiset().insert(x),
        srt ==> sorted(next.subrange(0, k + 1)),
{
    assert(next.subrange(0, k + 1) =~= prev.subrange(0, k).push(x));
    vstd::seq_lib::to_multiset_build(prev.subrange(0, k), x);
    if srt {
        let s = next.subrange(0, k + 1);
        assert forall|a: int, b: int| 0 <= a <= b < s.len() implies s[a] <= s[b] by {
            if b == k && a < k {
                assert(prev.subrange(0, k)[a] <= prev.subrange(0, k)[k - 1]);
            }
        }
    }
}

/// Once one run is used up, the merged prefix followed by the rest of the
/// other run holds both runs, and is sorted when they are.
proof fn lemma_finish_with_tail(done: Seq<i32>, rest: Seq<i32>, i: int, other: Seq<i32>, srt: bool, rest_is_left: bool)
    requires
        0 <= i < rest.len(),
        rest_is_left ==> same_elements(done, rest.subrange(0, i) + other),
        !rest_is_left ==> same_elements(done, other + rest.subrange(0, i)),
        srt ==> sorted(done) && sorted(rest),
        srt && done.len() > 0 ==> done[done.len() - 1] <= rest[i],
    ensures
        rest_is_left ==> same_elements(done + rest.subrange(i, rest.len() as int), rest + other),
        !rest_is_left ==> same_elements(done + rest.subrange(i, rest.len() as int), other + rest),
        srt ==> sorted(done + rest.subrange(i, rest.len() as int)),
{
    let tail = rest.subrange(i, rest.len() as int);
    let head = rest.subrange(0, i);
    assert(head + tail =~= rest);
    vstd::seq_lib::lemma_multiset_commutative(done, tail);
    vstd::seq_lib::lemma_multiset_commutative(head, other);
    vstd::seq_lib::lemma_multiset_commutative(other, head);
    vstd::seq_lib::lemma_multiset_commutative(head, tail);
    vstd::seq_lib::lemma_multiset_commutative(rest, other);
    vstd::seq_lib::lemma_multiset_commutative(other, rest);
    if rest_is_left {
        assert((done + tail).to_multiset() =~= (rest + other).to_multiset());
    } else {
        assert((done + tail).to_multiset() =~= (other + rest).to_multiset());
    }
    if srt {
        assert forall|a: int, b: int| 0 <= a < done.len() && 0 <= b < tail.len() implies done[a] <= tail[b] by {
            assert(done[a] <= done[done.len() - 1]);
            assert(rest[i] <= rest[i + b]);
        }
        assert(sorted(tail)) by {
            crate::order::lemma_sorted_subrange(rest, 0, rest.len() as int, i, rest.len() as int);
            assert(rest.subrange(0, rest.len() as int) =~= rest);
        }
        lemma_sorted_concat(done, tail);
    }
}

} // verus!
