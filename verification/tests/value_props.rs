//! Value primitives: substring search, equality, cloning.
use reactive_core::value::{Value, bytes_eq, clone_value, text_contains, value_eq};

fn bytes(s: &str) -> Vec<u8> {
    s.as_bytes().to_vec()
}

#[test]
fn contains_finds_inner_needle() {
    assert!(text_contains(&bytes("banana"), &bytes("an")));
    assert!(text_contains(&bytes("banana"), &bytes("banana")));
    assert!(text_contains(&bytes("banana"), &bytes("na")));
    assert!(!text_contains(&bytes("apple"), &bytes("an")));
    assert!(!text_contains(&bytes("cherry"), &bytes("an")));
}

#[test]
fn contains_empty_needle_always_holds() {
    assert!(text_contains(&bytes(""), &bytes("")));
    assert!(text_contains(&bytes("apple"), &bytes("")));
}

#[test]
fn contains_needle_longer_than_hay_fails() {
    assert!(!text_contains(&bytes("an"), &bytes("banana")));
    assert!(!text_contains(&bytes(""), &bytes("a")));
}

#[test]
fn contains_matches_at_both_ends() {
    assert!(text_contains(&bytes("banana"), &bytes("ban")));
    assert!(text_contains(&bytes("banana"), &bytes("ana")));
    assert!(!text_contains(&bytes("banana"), &bytes("nab")));
}

#[test]
fn contains_handles_overlapping_windows() {
    assert!(text_contains(&bytes("aaab"), &bytes("aab")));
    assert!(text_contains(&bytes("abab"), &bytes("bab")));
    assert!(!text_contains(&bytes("abab"), &bytes("bb")));
}

#[test]
fn byte_equality_is_exact() {
    assert!(bytes_eq(&bytes(""), &bytes("")));
    assert!(bytes_eq(&bytes("abc"), &bytes("abc")));
    assert!(!bytes_eq(&bytes("abc"), &bytes("abd")));
    assert!(!bytes_eq(&bytes("abc"), &bytes("ab")));
}

#[test]
fn value_equality_distinguishes_kinds() {
    assert!(value_eq(&Value::Flag(true), &Value::Flag(true)));
    assert!(!value_eq(&Value::Flag(true), &Value::Flag(false)));
    assert!(value_eq(&Value::Text(bytes("x")), &Value::Text(bytes("x"))));
    assert!(!value_eq(&Value::Text(bytes("x")), &Value::Text(bytes("y"))));
    assert!(!value_eq(&Value::Flag(true), &Value::Text(bytes("true"))));
}

#[test]
fn clone_preserves_the_value() {
    let v = Value::Text(bytes("payload"));
    let c = clone_value(&v);
    assert!(value_eq(&v, &c));
    let f = Value::Flag(true);
    assert!(value_eq(&f, &clone_value(&f)));
}
