//! Decimal texts in millionths.
use modelsteward::num::{parse_leading_micro, parse_micro, MICRO_MAX};

fn read(t: &str) -> Option<i128> {
    parse_micro(&t.chars().collect::<Vec<char>>())
}

const MAX: i128 = MICRO_MAX as i128;

#[test]
fn decimals_are_read_in_millionths() {
    assert_eq!(read("38.25"), Some(38_250_000));
    assert_eq!(read("+1"), Some(1_000_000));
    assert_eq!(read("-0.5"), Some(-500_000));
    assert_eq!(read(".5"), Some(500_000));
    assert_eq!(read("5."), Some(5_000_000));
    assert_eq!(read("1.5e3"), Some(1_500_000_000));
    assert_eq!(read("15E-1"), Some(1_500_000));
    assert_eq!(read("0.0000019"), Some(1));
}

#[test]
fn what_is_no_number_is_not_read() {
    for t in ["", ".", "e5", "1e", "1e+", "1.2.3", "+-1", "1 ", "1,5", "nan", "[N/A]"] {
        assert_eq!(read(t), None, "{t:?}");
    }
}

#[test]
fn digits_beyond_every_integer_are_read() {
    let long = "9".repeat(60);
    assert_eq!(read(&format!("1.{long}")), Some(1_999_999));
    assert_eq!(read(&format!("0.{}{long}", "0".repeat(60))), Some(0));
    assert_eq!(read(&format!("{long}e-58")), Some(99_999_999));
    assert_eq!(read(&format!("{}7", "0".repeat(60))), Some(7_000_000));
}

#[test]
fn what_is_larger_than_is_held_counts_as_the_largest() {
    let long = "9".repeat(60);
    assert_eq!(read(&long), Some(MAX));
    assert_eq!(read(&format!("-{long}")), Some(-MAX));
    assert_eq!(read("1e300"), Some(MAX));
    assert_eq!(read(&format!("1e{long}")), Some(MAX));
    assert_eq!(read(&format!("0e{long}")), Some(0));
    assert_eq!(read(&format!("1e-{long}")), Some(0));
    assert_eq!(read("inf"), Some(MAX));
    assert_eq!(read("-Infinity"), Some(-MAX));
    assert_eq!(read("4611686018427.387904"), Some(MAX));
    assert_eq!(read("4611686018427.387903"), Some(MAX - 1));
}

#[test]
fn a_leading_decimal_ends_with_its_digits() {
    let lead = |t: &str| parse_leading_micro(&t.chars().collect::<Vec<char>>());
    assert_eq!(lead("0.42, n_past"), Some(420_000));
    assert_eq!(lead("tokens"), None);
}
