//! The benchmarks' base-case thresholds, read as decimal digits from the
//! build environment, with a default where none is given.

use vstd::prelude::*;

verus! {

/// Why a threshold text was refused.
#[derive(Clone, Copy, Debug, PartialEq, Eq, Structural)]
pub enum ThresholdError {
    /// A byte that is not an ASCII digit.
    InvalidDigit,
    /// A value beyond `u64::MAX`.
    Overflow,
}

/// `b` is an ASCII digit.
pub open spec fn is_digit(b: u8) -> bool {
    48 <= b <= 57
}

/// Reading `s` as a decimal number from left to right: the first byte that
/// is not a digit, or the first digit that takes the value beyond
/// `u64::MAX`, ends the reading with an error.
pub open spec fn decimal_value(s: Seq<u8>) -> Result<int, ThresholdError>
    decreases s.len(),
{
    if s.len() == 0 {
        Ok(0)
    } else {
        match decimal_value(s.drop_last()) {
            Err(e) => Err(e),
            Ok(v) => {
                let b = s.last();
                if !is_digit(b) {
                    Err(ThresholdError::InvalidDigit)
                } else if v * 10 + (b - 48) > u64::MAX {
                    Err(ThresholdError::Overflow)
                } else {
                    Ok(v * 10 + (b - 48))
                }
            },
        }
    }
}

/// The threshold that `text` spells, or `default` where there is no text.
///
/// A text that is not a decimal number within `u64` (a byte that is not a
/// digit, or a value past `u64::MAX`) is no threshold at all: it is
/// answered with the error that says which, and never with a number. The
/// text is fixed when a program is built but read here when it runs, so
/// the refusal is handed to the caller rather than raised here; the
/// benchmark programs stop on it with the message of that error.
pub fn parse_threshold(text: Option<&[u8]>, default: u64) -> (r: Result<u64, ThresholdError>)
    ensures
        text is None ==> r == Ok::<u64, ThresholdError>(default),
        text matches Some(t) ==> match decimal_value(t@) {
            Ok(v) => r == Ok::<u64, ThresholdError>(v as u64),
            Err(e) => r == Err::<u64, ThresholdError>(e),
        },
{
    match text {
        None => Ok(default),
        Some(bytes) => {
            let mut res: u64 = 0;
            let mut i: usize = 0;
            proof {
                assert(bytes@.subrange(0, 0) =~= Seq::<u8>::empty());
            }
            while i < bytes.len()
                invariant
                    text == Some(bytes),
                    i <= bytes@.len(),
                    decimal_value(bytes@.subrange(0, i as int)) == Ok::<int, ThresholdError>(res as int),
                decreases bytes@.len() - i,
            {
                let byte = bytes[i];
                proof {
                    assert(bytes@.subrange(0, i + 1).drop_last() =~= bytes@.subrange(0, i as int));
                }
                if !(48 <= byte && byte <= 57) {
                    proof {
                        lemma_error_persists(bytes@, i as int + 1, ThresholdError::InvalidDigit);
                    }
                    return Err(ThresholdError::InvalidDigit);
                }
                let digit = (byte - 48) as u64;
                if res > (u64::MAX - digit) / 10 {
                    proof {
                        assert(res * 10 + digit > u64::MAX) by (nonlinear_arith)
                            requires
                                res > (u64::MAX - digit) / 10,
                                digit <= 9,
                        ;
                        lemma_error_persists(bytes@, i as int + 1, ThresholdError::Overflow);
                    }
                    return Err(ThresholdError::Overflow);
                }
                proof {
                    assert(res * 10 + digit <= u64::MAX) by (nonlinear_arith)
                        requires
                            res <= (u64::MAX - digit) / 10,
                            digit <= 9,
                    ;
                }
                res = res * 10 + digit;
                i = i + 1;
            }
            proof {
                assert(bytes@.subrange(0, i as int) =~= bytes@);
            }
            Ok(res)
        },
    }
}

/// An error in reading a prefix is the error of reading the whole.
proof fn lemma_error_persists(s: Seq<u8>, k: int, e: ThresholdError)
    requires
        0 <= k <= s.len(),
        decimal_value(s.subrange(0, k)) == Err::<int, ThresholdError>(e),
    ensures
        decimal_value(s) == Err::<int, ThresholdError>(e),
    decreases s.len() - k,
{
    if k < s.len() {
        assert(s.subrange(0, k + 1).drop_last() =~= s.subrange(0, k));
        lemma_error_persists(s, k + 1, e);
    } else {
        assert(s.subrange(0, k) =~= s);
    }
}

} // verus!
