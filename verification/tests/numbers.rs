use bench_kernels::fib::{fib, fib_seq};
use bench_kernels::random::{gen_vec, UniformI32, UniformUsize, RangeError};
use bench_kernels::threshold::{parse_threshold, ThresholdError};

#[test]
fn fib_seq_values() {
    assert_eq!(fib_seq(0), 0);
    assert_eq!(fib_seq(1), 1);
    assert_eq!(fib_seq(2), 1);
    assert_eq!(fib_seq(10), 55);
    assert_eq!(fib_seq(25), 75025);
}

#[test]
fn fib_matches_sequential_for_every_threshold() {
    for t in [2u64, 3, 5, 25, 100] {
        assert_eq!(fib(27, t), fib_seq(27));
    }
    assert_eq!(fib(0, 1), 0);
    assert_eq!(fib(1, 2), 1);
}

#[test]
fn fib_thirty() {
    assert_eq!(fib_seq(30), 832040);
}

#[test]
fn parse_threshold_default_when_absent() {
    assert_eq!(parse_threshold(None, 2097152), Ok(2097152));
}

#[test]
fn parse_threshold_reads_digits() {
    assert_eq!(parse_threshold(Some(b"123"), 7), Ok(123));
    assert_eq!(parse_threshold(Some(b"0042"), 7), Ok(42));
    assert_eq!(parse_threshold(Some(b""), 7), Ok(0));
    assert_eq!(parse_threshold(Some(b"18446744073709551615"), 7), Ok(u64::MAX));
}

#[test]
fn parse_threshold_rejects_non_digits() {
    assert_eq!(parse_threshold(Some(b"12a"), 7), Err(ThresholdError::InvalidDigit));
    assert_eq!(parse_threshold(Some(b"-1"), 7), Err(ThresholdError::InvalidDigit));
}

#[test]
fn parse_threshold_rejects_overflow() {
    assert_eq!(parse_threshold(Some(b"18446744073709551616"), 7), Err(ThresholdError::Overflow));
    // the overflow comes before the bad byte
    assert_eq!(parse_threshold(Some(b"99999999999999999999x"), 7), Err(ThresholdError::Overflow));
}

#[test]
fn gen_vec_is_reproducible() {
    let a = gen_vec(100, 42);
    let b = gen_vec(100, 42);
    let c = gen_vec(100, 43);
    assert_eq!(a.len(), 100);
    assert_eq!(a, b);
    assert_ne!(a, c);
    assert!(a.iter().all(|&x| x < i32::MAX));
}

#[test]
fn gen_vec_empty() {
    assert!(gen_vec(0, 1).is_empty());
}

#[test]
fn uniform_ranges_refuse_empty_ranges() {
    assert!(matches!(UniformI32::new(3, 3), Err(RangeError::EmptyRange)));
    assert!(UniformI32::new(-1, 3).is_ok());
    assert!(matches!(UniformUsize::new(5, 2), Err(RangeError::EmptyRange)));
    assert!(UniformUsize::new(0, 100).is_ok());
}
