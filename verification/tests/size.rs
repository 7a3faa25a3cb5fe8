use musefs_format::error::FormatError;
use musefs_format::size::{checked_add, checked_sum};

#[test]
fn checked_add_reports_overflow_as_too_large() {
    assert_eq!(checked_add(2, 3), Ok(5));
    assert_eq!(checked_add(u64::MAX, 1), Err(FormatError::TooLarge));
}

#[test]
fn checked_sum_reports_overflow_as_too_large() {
    assert_eq!(checked_sum(&[1u64, 2, 3]), Ok(6));
    assert_eq!(checked_sum(&[]), Ok(0));
    assert_eq!(checked_sum(&[u64::MAX, 1]), Err(FormatError::TooLarge));
}
