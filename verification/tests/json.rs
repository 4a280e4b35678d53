//! Values of JSON, their numbers and when two are the same.
use modelsteward::json::parse;

fn same(a: &str, b: &str) -> bool {
    parse(a).unwrap().same(&parse(b).unwrap())
}

#[test]
fn values_are_the_same_by_what_they_hold() {
    assert!(same("{\"a\": [1, null, \"x\"], \"b\": 1.50}", "{\"b\": 15e-1, \"a\": [1, null, \"x\"]}"));
    assert!(!same("[1]", "[1, 1]"));
    assert!(!same("{\"a\": 1}", "{\"b\": 1}"));
    assert!(!same("1", "1.0"), "an integer is no fraction");
    assert!(!same("1", "-1"));
    assert!(!same("true", "false"));
}

#[test]
fn the_two_zeros_are_one() {
    assert!(same("-0.0", "0.0"));
    assert!(same("{\"a\": [-0.0]}", "{\"a\": [0.0]}"));
    assert!(!same("-0.0", "0.5"));
    assert!(!same("0", "0.0"));
}

#[test]
fn every_number_is_read_in_millionths() {
    let micro = |t: &str| parse(t).unwrap().as_micro();
    assert_eq!(micro("38.25"), Some(38_250_000));
    assert_eq!(micro("7"), Some(7_000_000));
    assert_eq!(micro("-7"), Some(-7_000_000));
    assert_eq!(micro("-7.5"), Some(-7_500_000));
    assert_eq!(micro("-1e300"), Some(-0x4000_0000_0000_0000));
    assert_eq!(micro("1e300"), Some(0x4000_0000_0000_0000));
    assert_eq!(micro("18446744073709551615"), Some(0x4000_0000_0000_0000));
    assert_eq!(micro("\"7\""), None);
    assert_eq!(micro("null"), None);
}
