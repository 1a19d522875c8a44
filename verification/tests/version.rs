#![allow(non_snake_case)]
use appender::error::{currentVersion, ResourceError};
use appender::version::{compareVersion, compare_numbers, parse_version};
use std::cmp::Ordering;

#[test]
fn equal_versions() {
    assert_eq!(compareVersion("1.0.0", "1.0.0"), Ok(Ordering::Equal));
    assert_eq!(compareVersion("1.0", "1.0.0"), Ok(Ordering::Equal));
    assert_eq!(compareVersion("1", "1.0.0.0"), Ok(Ordering::Equal));
    assert_eq!(compareVersion("01.00", "1.0.0"), Ok(Ordering::Equal));
    assert_eq!(compareVersion("+1.-0", "1"), Ok(Ordering::Equal));
}

#[test]
fn lower_and_higher_versions() {
    assert_eq!(compareVersion("0.9.9", "1.0.0"), Ok(Ordering::Less));
    assert_eq!(compareVersion("1.2", "1.10"), Ok(Ordering::Less));
    assert_eq!(compareVersion("1.0", "1.0.1"), Ok(Ordering::Less));
    assert_eq!(compareVersion("-1", "0"), Ok(Ordering::Less));
    assert_eq!(compareVersion("2", "1.9.9"), Ok(Ordering::Greater));
    assert_eq!(compareVersion("1.0.1", "1.0"), Ok(Ordering::Greater));
    assert_eq!(compareVersion("1.0.0", "1.0.-1"), Ok(Ordering::Greater));
    assert_eq!(compareVersion("2147483647", "-2147483648"), Ok(Ordering::Greater));
}

#[test]
fn malformed_versions() {
    for bad in ["", "1.", ".1", "1..0", "a", "1.0.x", "1.0 ", "2147483648", "1,0"] {
        assert_eq!(compareVersion(bad, "1.0.0"), Err(ResourceError::MalformedVersion), "{:?}", bad);
        assert_eq!(compareVersion("1.0.0", bad), Err(ResourceError::MalformedVersion), "{:?}", bad);
    }
    // a difference in an earlier place does not hide a malformed later one
    assert_eq!(compareVersion("2.x", "1.0"), Err(ResourceError::MalformedVersion));
}

#[test]
fn versions_are_parsed_into_numbers() {
    assert_eq!(parse_version("1.0.0"), Some(vec![1, 0, 0]));
    assert_eq!(parse_version("10.-2.+3"), Some(vec![10, -2, 3]));
    assert_eq!(parse_version("7"), Some(vec![7]));
    assert_eq!(parse_version(""), None);
    assert_eq!(parse_version("1..2"), None);
    assert_eq!(parse_version(currentVersion()), Some(vec![1, 0, 0]));
}

#[test]
fn numbers_are_compared_place_by_place() {
    assert_eq!(compare_numbers(&vec![1, 2], &vec![1, 2]), 0);
    assert_eq!(compare_numbers(&vec![1, 2], &vec![1, 2, 0, 0]), 0);
    assert_eq!(compare_numbers(&vec![], &vec![0]), 0);
    assert_eq!(compare_numbers(&vec![1, 2], &vec![1, 3]), -1);
    assert_eq!(compare_numbers(&vec![1], &vec![1, -1]), 1);
    assert_eq!(compare_numbers(&vec![3], &vec![2, 9]), 1);
}
