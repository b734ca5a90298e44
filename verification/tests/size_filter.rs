use fadupes::size_filter::{parse_size_bytes, parse_size_filter, SizeFilter, SizeFilterError};

const MB: u64 = 1024 * 1024;

#[test]
fn greater_than_excludes_above_and_keeps_the_bound() {
    let f = parse_size_filter(">800MB").unwrap();
    assert_eq!(f, SizeFilter::Gt(800 * MB));
    assert!(f.should_ignore(900 * MB));
    assert!(!f.should_ignore(800 * MB));
    assert!(f.should_ignore(800 * MB + 1));
}

#[test]
fn less_than_is_exclusive() {
    let f = parse_size_filter("<3MB").unwrap();
    assert_eq!(f, SizeFilter::Lt(3 * MB));
    assert!(f.should_ignore(3 * MB - 1));
    assert!(!f.should_ignore(3 * MB));
}

#[test]
fn range_bounds_are_inclusive() {
    let f = parse_size_filter("3MB..800MB").unwrap();
    assert_eq!(f, SizeFilter::Range(3 * MB, 800 * MB));
    assert!(f.should_ignore(3 * MB));
    assert!(f.should_ignore(800 * MB));
    assert!(!f.should_ignore(3 * MB - 1));
    assert!(!f.should_ignore(800 * MB + 1));
}

#[test]
fn reversed_range_is_put_in_order() {
    assert_eq!(parse_size_filter("800MB..3MB"), Ok(SizeFilter::Range(3 * MB, 800 * MB)));
    assert_eq!(parse_size_filter(" 2k .. 1k "), Ok(SizeFilter::Range(1024, 2048)));
}

#[test]
fn units_are_binary_and_case_insensitive() {
    assert_eq!(parse_size_bytes("1"), Ok(1));
    assert_eq!(parse_size_bytes("17b"), Ok(17));
    assert_eq!(parse_size_bytes("17B"), Ok(17));
    assert_eq!(parse_size_bytes("1k"), Ok(1024));
    assert_eq!(parse_size_bytes("1KB"), Ok(1024));
    assert_eq!(parse_size_bytes("1kB"), Ok(1024));
    assert_eq!(parse_size_bytes("2m"), Ok(2 * MB));
    assert_eq!(parse_size_bytes("2Mb"), Ok(2 * MB));
    assert_eq!(parse_size_bytes("3g"), Ok(3 * 1024 * MB));
    assert_eq!(parse_size_bytes("3GB"), Ok(3 * 1024 * MB));
    assert_eq!(parse_size_bytes("  5 MB  "), Ok(5 * MB));
}

#[test]
fn fractions_are_rounded_to_the_nearest_byte() {
    assert_eq!(parse_size_bytes("1.5k"), Ok(1536));
    assert_eq!(parse_size_bytes(".5k"), Ok(512));
    assert_eq!(parse_size_bytes("1.k"), Ok(1024));
    assert_eq!(parse_size_bytes("0.5"), Ok(1));
    assert_eq!(parse_size_bytes("0.4999"), Ok(0));
    assert_eq!(parse_size_bytes("2.5"), Ok(3));
    assert_eq!(parse_size_bytes("0.0004k"), Ok(0));
    assert_eq!(parse_size_bytes("0.0005k"), Ok(1));
    assert_eq!(parse_size_bytes("1.25MB"), Ok(1310720));
    assert_eq!(parse_size_bytes("0.1GB"), Ok(107374182));
    assert_eq!(parse_size_bytes("0.00000000000000000000000000000000000001GB"), Ok(0));
    assert_eq!(parse_size_bytes("0.99999999999999999999999999999999999999"), Ok(1));
}

#[test]
fn large_numbers_saturate() {
    assert_eq!(parse_size_bytes("18446744073709551615"), Ok(u64::MAX));
    assert_eq!(parse_size_bytes("18446744073709551616"), Ok(u64::MAX));
    assert_eq!(parse_size_bytes("99999999999999999999999999999999999999GB"), Ok(u64::MAX));
    assert_eq!(parse_size_bytes("17179869184GB"), Ok(u64::MAX));
    assert_eq!(parse_size_bytes("17179869183GB"), Ok(17179869183 * 1024 * MB));
}

#[test]
fn missing_number_is_rejected() {
    assert_eq!(parse_size_bytes(""), Err(SizeFilterError::MissingNumber));
    assert_eq!(parse_size_bytes("MB"), Err(SizeFilterError::MissingNumber));
    assert_eq!(parse_size_filter(""), Err(SizeFilterError::MissingNumber));
    assert_eq!(parse_size_filter("   "), Err(SizeFilterError::MissingNumber));
    assert_eq!(parse_size_filter("<"), Err(SizeFilterError::MissingNumber));
    assert_eq!(parse_size_filter("3MB"), Err(SizeFilterError::MissingNumber));
    assert_eq!(parse_size_filter("..3MB"), Err(SizeFilterError::MissingNumber));
    assert_eq!(parse_size_filter("3MB.."), Err(SizeFilterError::MissingNumber));
}

#[test]
fn bad_number_is_rejected() {
    assert_eq!(parse_size_bytes("."), Err(SizeFilterError::BadNumber));
    assert_eq!(parse_size_bytes("1.2.3"), Err(SizeFilterError::BadNumber));
    assert_eq!(parse_size_bytes("1.2.3xy"), Err(SizeFilterError::BadNumber));
    assert_eq!(parse_size_filter("<1.2.3MB"), Err(SizeFilterError::BadNumber));
}

#[test]
fn unknown_unit_is_rejected() {
    assert_eq!(parse_size_bytes("3TB"), Err(SizeFilterError::UnknownUnit));
    assert_eq!(parse_size_bytes("3bb"), Err(SizeFilterError::UnknownUnit));
    assert_eq!(parse_size_bytes("3 M B"), Err(SizeFilterError::UnknownUnit));
    assert_eq!(parse_size_bytes("-3"), Err(SizeFilterError::MissingNumber));
    assert_eq!(parse_size_filter(">3e2"), Err(SizeFilterError::UnknownUnit));
}

#[test]
fn missing_operator_is_rejected() {
    assert_eq!(parse_size_filter("=3MB"), Err(SizeFilterError::ExpectedOperator));
    assert_eq!(parse_size_filter("33MB"), Err(SizeFilterError::ExpectedOperator));
    assert_eq!(parse_size_filter("\u{e9}3MB"), Err(SizeFilterError::ExpectedOperator));
}

#[test]
fn first_separator_splits_a_range() {
    assert_eq!(parse_size_filter("1...5k"), Ok(SizeFilter::Range(1, 512)));
    assert_eq!(parse_size_filter("1.5..3"), Ok(SizeFilter::Range(2, 3)));
    assert_eq!(parse_size_filter("<1..2"), Err(SizeFilterError::MissingNumber));
}
