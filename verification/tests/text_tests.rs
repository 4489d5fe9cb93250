use diskovery::drive::starts_with;
use diskovery::text::{decimal_string, join};

#[test]
fn decimal_writes_numbers() {
    assert_eq!(decimal_string(0), "0");
    assert_eq!(decimal_string(7), "7");
    assert_eq!(decimal_string(10), "10");
    assert_eq!(decimal_string(1234567890), "1234567890");
    assert_eq!(decimal_string(u64::MAX), u64::MAX.to_string());
}

#[test]
fn join_puts_separator_between_parts() {
    assert_eq!(join(&vec![], "; "), "");
    assert_eq!(join(&vec!["a".to_string()], "; "), "a");
    assert_eq!(join(&vec!["a".to_string(), "b".to_string(), "c".to_string()], "; "), "a; b; c");
}

#[test]
fn starts_with_compares_prefixes() {
    assert!(starts_with("/home/u", "/home"));
    assert!(starts_with("/home/u", ""));
    assert!(!starts_with("/ho", "/home"));
    assert!(!starts_with("c:\\users", "d:\\"));
    assert!(starts_with("é/x", "é"));
}
