use lockguard::text::{decimal_string, str_before, str_eq};

#[test]
fn decimal_rendering() {
    assert_eq!(decimal_string(0), "0");
    assert_eq!(decimal_string(7), "7");
    assert_eq!(decimal_string(10), "10");
    assert_eq!(decimal_string(1234567890), "1234567890");
    assert_eq!(decimal_string(usize::MAX), usize::MAX.to_string());
}

#[test]
fn string_order_and_equality() {
    assert!(str_before("aaa/first", "zzz/last"));
    assert!(!str_before("zzz/last", "aaa/first"));
    assert!(str_before("vendor/pkg", "vendor/pkg2"));
    assert!(!str_before("same", "same"));
    assert!(str_before("Z", "a"));
    assert!(str_before("a", "é"));
    assert!(str_eq("x", "x"));
    assert!(!str_eq("x", "X"));
}
