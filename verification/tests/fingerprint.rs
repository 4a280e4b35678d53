//! Fingerprints of bytes.
use modelsteward::fingerprint::{fnv, fnv_bytes};

#[test]
fn the_known_values_come_out() {
    assert_eq!(fnv(""), "cbf29ce484222325");
    assert_eq!(fnv("a"), "af63dc4c8601ec8c");
    assert_eq!(fnv("foobar"), "85944171f73967e8");
    assert_eq!(fnv("a"), fnv_bytes(b"a"));
}

#[test]
fn one_byte_makes_a_difference() {
    let text = *b"b10216|CUDA0:24111";
    let whole = fnv_bytes(&text);
    for i in 0..text.len() {
        let mut other = text;
        other[i] ^= 1;
        assert_ne!(whole, fnv_bytes(&other), "byte {i}");
    }
}
