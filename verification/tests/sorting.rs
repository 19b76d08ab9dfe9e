use bench_kernels::check::{check, SortCheck};
use bench_kernels::glob_merge::{binary_search, glob_sort_fits, merge_par_glob, merge_seq, sort_par_glob, GlobBuffers};
use bench_kernels::merge_sort::{merge, merge_sort, merge_sort_fits, sort_into};
use bench_kernels::random::gen_vec;
use bench_kernels::slice_sort::rust_sort_i32;
use bench_kernels::window_sort::{merge_seq_unsafe, merge_unsafe, sort_unsafe, MutBuf};

fn std_sorted(v: &[i32]) -> Vec<i32> {
    let mut w = v.to_vec();
    w.sort();
    w
}

#[test]
fn merge_interleaves_two_runs() {
    let left = [1, 4, 6, 9];
    let right = [2, 3, 8];
    let mut dest = [0; 7];
    merge(&left, &right, &mut dest);
    assert_eq!(dest, [1, 2, 3, 4, 6, 8, 9]);
}

#[test]
fn merge_with_equal_maxima_and_one_run_used_up() {
    let left = [5, 7, 7];
    let right = [1, 7];
    let mut dest = [0; 5];
    merge(&left, &right, &mut dest);
    assert_eq!(dest, [1, 5, 7, 7, 7]);
}

#[test]
fn merge_single_elements() {
    let mut dest = [0; 2];
    merge(&[3], &[-3], &mut dest);
    assert_eq!(dest, [-3, 3]);
}

#[test]
fn merge_sort_sorts_random_input() {
    let mut v = gen_vec(1000, 42);
    let expected = std_sorted(&v);
    let mut buf = vec![0; v.len()];
    merge_sort(&mut v, &mut buf, 3);
    assert_eq!(v, expected);
}

#[test]
fn merge_sort_below_threshold_uses_base_sort() {
    let mut v = vec![5, -1, 3, 3, 0];
    let mut buf = vec![0; 5];
    merge_sort(&mut v, &mut buf, 10);
    assert_eq!(v, vec![-1, 0, 3, 3, 5]);
}

#[test]
fn merge_sort_with_odd_lengths() {
    for n in [4usize, 5, 7, 9, 31, 33] {
        let mut v = gen_vec(n, n);
        let expected = std_sorted(&v);
        let mut buf = vec![0; n];
        merge_sort(&mut v, &mut buf, 3);
        assert_eq!(v, expected);
    }
}

#[test]
fn sort_into_fills_destination() {
    let mut src = vec![9, 1, 8, 2, 7, 3];
    let mut dest = vec![0; 6];
    let out = sort_into(&mut src, &mut dest, 4).to_vec();
    assert_eq!(out, vec![1, 2, 3, 7, 8, 9]);
    assert_eq!(dest, vec![1, 2, 3, 7, 8, 9]);
}

#[test]
fn rust_sort_i32_sorts() {
    let mut v = [3, -7, 2, 2, i32::MIN, i32::MAX];
    rust_sort_i32(&mut v);
    assert_eq!(v, [i32::MIN, -7, 2, 2, 3, i32::MAX]);
}

#[test]
fn binary_search_finds_present_value() {
    let s = [1, 3, 5, 7, 9, 11];
    let r = binary_search(&s, 7, 0, 6);
    assert_eq!(r, 3);
}

#[test]
fn binary_search_reports_insertion_point() {
    let s = [1, 3, 5, 7, 9, 11];
    assert_eq!(binary_search(&s, 6, 0, 6), 3);
    assert_eq!(binary_search(&s, 0, 0, 6), 0);
    assert_eq!(binary_search(&s, 12, 0, 6), 6);
    assert_eq!(binary_search(&s, 4, 2, 5), 2);
}

#[test]
fn binary_search_on_empty_range() {
    let s = [1, 2, 3];
    assert_eq!(binary_search(&s, 2, 2, 2), 2);
    assert_eq!(binary_search(&s, 2, 3, 1), 3);
}

#[test]
fn merge_seq_copies_when_second_run_is_empty() {
    let src = [4, 5, 6, 7];
    let mut dest = [0; 5];
    merge_seq(&src, &mut dest, (1, 3), (3, 3), (2, 4));
    assert_eq!(dest, [0, 0, 5, 6, 0]);
}

#[test]
fn merge_seq_merges_ranges() {
    let src = [2, 4, 6, 1, 5, 9];
    let mut dest = [0; 8];
    merge_seq(&src, &mut dest, (0, 3), (3, 6), (1, 7));
    assert_eq!(dest, [0, 1, 2, 4, 5, 6, 9, 0]);
}

#[test]
fn merge_par_glob_splits_long_merges() {
    let src = [1, 2, 2, 5, 8, 9, 12, 0, 2, 3, 4, 10];
    let mut dest = [0; 12];
    merge_par_glob(&src, &mut dest, (0, 7), (7, 12), (0, 12), 2);
    assert_eq!(dest, [0, 1, 2, 2, 2, 3, 4, 5, 8, 9, 10, 12]);
}

#[test]
fn glob_buffers_start_zeroed() {
    let b = GlobBuffers::new(vec![3, 1, 2]);
    assert_eq!(b.input, vec![3, 1, 2]);
    assert_eq!(b.sorted, vec![0, 0, 0]);
    assert_eq!(b.merged, vec![0, 0, 0]);
}

#[test]
fn sort_par_glob_sorts_into_sorted_buffer() {
    let input = gen_vec(500, 7);
    let expected = std_sorted(&input);
    let mut b = GlobBuffers::new(input.clone());
    sort_par_glob(&mut b, 0, 500, true, 4);
    assert_eq!(b.sorted, expected);
    assert_eq!(b.input, input);
}

#[test]
fn sort_par_glob_without_buffer_sorts_into_merged() {
    let input = vec![5, 4, 3, 2, 1, 0, -1, -2];
    let mut b = GlobBuffers::new(input);
    sort_par_glob(&mut b, 2, 8, false, 4);
    assert_eq!(&b.merged[2..8], &[-2, -1, 0, 1, 2, 3]);
    assert_eq!(&b.merged[0..2], &[0, 0]);
}

#[test]
fn mutbuf_windows() {
    let data = [10, 20, 30, 40, 50];
    let w = MutBuf::from_slice(&data);
    assert_eq!(w.start, 0);
    assert_eq!(w.len, 5);
    let sub = w.sub_slice(1, 4);
    assert_eq!(sub.as_slice(&data), &[20, 30, 40]);
    assert_eq!(sub.read(&data, 2), 40);
    let mut buf = [0; 5];
    sub.as_mut_slice(&mut buf)[0] = 7;
    assert_eq!(buf, [0, 7, 0, 0, 0]);
}

#[test]
fn merge_seq_unsafe_takes_left_on_ties_and_copies_tails() {
    let from = [1, 3, 3, 2, 3, 8, 9];
    let mut to = [0; 7];
    merge_seq_unsafe(&from, MutBuf { start: 0, len: 3 }, MutBuf { start: 3, len: 4 }, &mut to, MutBuf { start: 0, len: 7 });
    assert_eq!(to, [1, 2, 3, 3, 3, 8, 9]);
    let mut to2 = [0; 4];
    merge_seq_unsafe(&from, MutBuf { start: 0, len: 3 }, MutBuf { start: 3, len: 0 }, &mut to2, MutBuf { start: 1, len: 3 });
    assert_eq!(to2, [0, 1, 3, 3]);
}

#[test]
fn merge_unsafe_splits_long_merges() {
    let from = [1, 3, 5, 7, 9, 11, 2, 4, 6, 8, 10];
    let mut to = [0; 11];
    let ok = merge_unsafe(&from, MutBuf { start: 0, len: 6 }, MutBuf { start: 6, len: 5 }, &mut to, MutBuf { start: 0, len: 11 }, 3);
    assert!(ok);
    assert_eq!(to, [1, 2, 3, 4, 5, 6, 7, 8, 9, 10, 11]);
}

#[test]
fn merge_unsafe_refuses_a_split_deep_in_the_merge() {
    // [9, 11] against [10] puts 11 past the end of the shorter run
    let from = [1, 3, 5, 7, 9, 11, 2, 4, 6, 8, 10];
    let mut to = [0; 11];
    let ok = merge_unsafe(&from, MutBuf { start: 0, len: 6 }, MutBuf { start: 6, len: 5 }, &mut to, MutBuf { start: 0, len: 11 }, 2);
    assert!(!ok);
}

#[test]
fn merge_unsafe_refuses_a_split_at_the_end_of_a_run() {
    // the middle of the longer run is larger than the whole shorter run
    let from = [5, 6, 7, 8, 1, 2, 3];
    let mut to = [0; 7];
    let ok = merge_unsafe(&from, MutBuf { start: 0, len: 4 }, MutBuf { start: 4, len: 3 }, &mut to, MutBuf { start: 0, len: 7 }, 2);
    assert!(!ok);
}

#[test]
fn sort_unsafe_sorts_in_place() {
    let mut arr = gen_vec(200, 3);
    let expected = std_sorted(&arr);
    let mut scratch = vec![0; 200];
    let src = MutBuf::from_slice(&arr).sub_slice(0, 200);
    let buf = MutBuf::from_slice(&scratch);
    let ok = sort_unsafe(&mut arr, &mut scratch, src, buf, true, 64);
    assert!(ok);
    assert_eq!(arr, expected);
}

#[test]
fn sort_unsafe_below_threshold() {
    let mut arr = vec![3, 1, 2];
    let mut scratch = vec![0; 3];
    let ok = sort_unsafe(&mut arr, &mut scratch, MutBuf { start: 0, len: 3 }, MutBuf { start: 0, len: 3 }, true, 3);
    assert!(ok);
    assert_eq!(arr, vec![1, 2, 3]);
}

#[test]
fn sort_unsafe_refuses_a_window_of_one_element_to_split() {
    let mut arr = vec![3, 1];
    let mut scratch = vec![0; 2];
    let ok = sort_unsafe(&mut arr, &mut scratch, MutBuf { start: 0, len: 2 }, MutBuf { start: 0, len: 2 }, true, 0);
    assert!(!ok);
}

#[test]
fn all_sorts_agree() {
    let input = gen_vec(300, 11);
    let mut a = input.clone();
    let mut buf = vec![0; 300];
    merge_sort(&mut a, &mut buf, 5);
    let mut g = GlobBuffers::new(input.clone());
    sort_par_glob(&mut g, 0, 300, true, 5);
    let mut c = input.clone();
    rust_sort_i32(&mut c);
    assert_eq!(a, g.sorted);
    assert_eq!(a, c);
}

#[test]
fn check_accepts_sorted_output() {
    assert_eq!(check(&[1, 2, 2, 5]), SortCheck::Sorted);
    assert_eq!(check(&[0]), SortCheck::Sorted);
    assert_eq!(check(&[-1, 0, 1]), SortCheck::Sorted);
}

#[test]
fn check_reports_double_zeroes() {
    assert_eq!(check(&[-3, 0, 0, 4]), SortCheck::DoubleZeroes(2));
}

#[test]
fn check_reports_first_decrease() {
    assert_eq!(check(&[1, 5, 4, 3]), SortCheck::NotSorted(2));
    assert_eq!(check(&[1, 0, 0]), SortCheck::NotSorted(1));
}

#[test]
fn check_of_merge_sort_output() {
    let mut v = gen_vec(64, 5);
    let mut buf = vec![0; 64];
    merge_sort(&mut v, &mut buf, 8);
    assert_eq!(check(&v), SortCheck::Sorted);
}

#[test]
fn merge_seq_with_empty_first_run_takes_the_single_element() {
    let src = [7, 3];
    let mut dest = [0; 2];
    merge_seq(&src, &mut dest, (1, 1), (1, 2), (0, 1));
    assert_eq!(dest, [3, 0]);
}

#[test]
fn sort_par_glob_with_small_chunk() {
    let input = vec![4, -2, 9, 0, 3];
    let mut b = GlobBuffers::new(input);
    sort_par_glob(&mut b, 0, 5, true, 2);
    assert_eq!(b.sorted, vec![-2, 0, 3, 4, 9]);
}

#[test]
fn sort_into_leaves_sorted_halves_in_source() {
    let mut s = vec![4, 3, 2, 1];
    let mut d = vec![0; 4];
    let out = sort_into(&mut s, &mut d, 2097152).to_vec();
    assert_eq!(out, vec![1, 2, 3, 4]);
    assert_eq!(d, vec![1, 2, 3, 4]);
    assert_eq!(s, vec![3, 4, 1, 2]);
}

#[test]
fn merge_sort_leaves_sorted_halves_in_buffer() {
    let mut s = vec![9, 1, 8, 2, 7, 3];
    let mut b = vec![0; 6];
    merge_sort(&mut s, &mut b, 4);
    assert_eq!(s, vec![1, 2, 3, 7, 8, 9]);
    assert_eq!(b, vec![1, 8, 9, 2, 3, 7]);
    let mut s = vec![3, 1, 2];
    let mut b = vec![5, 5, 5];
    merge_sort(&mut s, &mut b, 4);
    assert_eq!(s, vec![1, 2, 3]);
    assert_eq!(b, vec![5, 5, 5]);
}

#[test]
fn merge_sort_fits_small_base_cases() {
    assert!(merge_sort_fits(1_000_000, 3));
    assert!(merge_sort_fits(5, 2));
    assert!(!merge_sort_fits(3, 2));
    assert!(merge_sort_fits(4, 1));
    assert!(!merge_sort_fits(3, 0));
    assert!(merge_sort_fits(2, 2));
    assert!(merge_sort_fits(0, 0));
    let mut v = vec![5, 4, 3, 2, 1];
    let mut buf = vec![0; 5];
    merge_sort(&mut v, &mut buf, 2);
    assert_eq!(v, vec![1, 2, 3, 4, 5]);
}

#[test]
fn glob_sort_fits_small_base_cases() {
    assert!(glob_sort_fits(0, 100, true, 4));
    assert!(glob_sort_fits(0, 5, true, 2));
    assert!(!glob_sort_fits(0, 2, true, 1));
    assert!(!glob_sort_fits(0, 1, true, 1));
    assert!(glob_sort_fits(0, 1, true, 2));
    let mut b = GlobBuffers::new(vec![5, 1, 4, 2, 3]);
    sort_par_glob(&mut b, 0, 5, true, 2);
    assert_eq!(b.sorted, vec![1, 2, 3, 4, 5]);
}

#[test]
fn sort_par_glob_leaves_sorted_halves_in_the_other_buffer() {
    let input = vec![5, 4, 3, 2, 1, 0, -1, -2];
    let mut b = GlobBuffers::new(input);
    sort_par_glob(&mut b, 0, 8, true, 4);
    assert_eq!(b.sorted, vec![-2, -1, 0, 1, 2, 3, 4, 5]);
    assert_eq!(b.merged, vec![2, 3, 4, 5, -2, -1, 0, 1]);
    let mut c = GlobBuffers::new(vec![3, 2, 1]);
    sort_par_glob(&mut c, 0, 3, true, 4);
    assert_eq!(c.sorted, vec![1, 2, 3]);
    assert_eq!(c.merged, vec![0, 0, 0]);
}

#[test]
fn sort_unsafe_into_scratch_leaves_sorted_halves() {
    let mut s = vec![4, 3, 2, 1];
    let mut b = vec![0; 4];
    let src = MutBuf::from_slice(&s);
    let buf = MutBuf::from_slice(&b);
    let ok = sort_unsafe(&mut s, &mut b, src, buf, false, 2097152);
    assert!(ok);
    assert_eq!(b, vec![1, 2, 3, 4]);
    assert_eq!(s, vec![3, 4, 1, 2]);
}

#[test]
fn sort_unsafe_refusing_the_first_split_writes_nothing() {
    let mut s = vec![7];
    let mut b = vec![9];
    let ok = sort_unsafe(&mut s, &mut b, MutBuf { start: 0, len: 1 }, MutBuf { start: 0, len: 1 }, true, 0);
    assert!(!ok);
    assert_eq!(s, vec![7]);
    assert_eq!(b, vec![9]);
    // three elements bound for the first buffer split into a half of one for the second
    let mut s = vec![3, 2, 1];
    let mut b = vec![9, 9, 9];
    let ok = sort_unsafe(&mut s, &mut b, MutBuf { start: 0, len: 3 }, MutBuf { start: 0, len: 3 }, true, 1);
    assert!(!ok);
    assert_eq!(s, vec![3, 2, 1]);
    assert_eq!(b, vec![9, 9, 9]);
}

#[test]
fn merge_seq_with_empty_first_run_and_longer_second_run() {
    // the head of the empty run reads 5, which goes in after 1 and 3
    let src = [9, 5, 1, 3, 6];
    let mut dest = [0; 4];
    merge_seq(&src, &mut dest, (1, 1), (2, 5), (0, 3));
    assert_eq!(dest, [1, 3, 5, 0]);
    let src = [0, 8, 1, 2];
    let mut dest = [7; 2];
    merge_seq(&src, &mut dest, (1, 1), (2, 4), (0, 2));
    assert_eq!(dest, [1, 2]);
}

#[test]
fn binary_search_stops_where_the_bisection_meets_an_equal_element() {
    let v = [1, 2, 2, 2, 2, 2, 3];
    assert_eq!(binary_search(&v, 2, 0, 7), 3);
    assert_eq!(binary_search(&v, 2, 0, 2), 1);
    // on an unsorted range the bisection still decides
    let u = [5, 1, 4];
    assert_eq!(binary_search(&u, 4, 0, 3), 2);
    assert_eq!(binary_search(&u, 0, 0, 3), 0);
}

#[test]
fn merge_seq_unsafe_on_unsorted_runs() {
    let from = [3, 1, 2];
    let mut to = [0; 3];
    merge_seq_unsafe(&from, MutBuf { start: 0, len: 2 }, MutBuf { start: 2, len: 1 }, &mut to, MutBuf { start: 0, len: 3 });
    assert_eq!(to, [2, 3, 1]);
}

#[test]
fn merge_into_shorter_and_longer_destinations() {
    let mut short = [0; 2];
    merge(&[1, 4], &[2, 3], &mut short);
    assert_eq!(short, [1, 2]);
    let mut long = [0; 6];
    merge(&[1, 4], &[2, 3], &mut long);
    assert_eq!(long, [1, 2, 3, 4, 4, 4]);
}

#[test]
fn merge_seq_into_a_longer_window() {
    let src = [1, 5, 2, 3];
    let mut dest = [0; 6];
    merge_seq(&src, &mut dest, (0, 2), (2, 4), (1, 6));
    assert_eq!(dest, [0, 1, 2, 3, 5, 5]);
}
