use phone_companion::phone::canonicalize_phone_number;
use phone_companion::phone::is_address_valid;
use phone_companion::phone::normalize_phone_number;

#[test]
fn test_normalize_phone_number() {
    assert_eq!(normalize_phone_number("(555) 123-4567"), "5551234567");
    assert_eq!(normalize_phone_number("+1-555-123-4567"), "5551234567");
    assert_eq!(normalize_phone_number("15551234567"), "5551234567");
    assert_eq!(normalize_phone_number("555.123.4567"), "5551234567");
}

#[test]
fn normalize_agrees_across_representations() {
    let a = normalize_phone_number("(555) 123-4567");
    let b = normalize_phone_number("+1-555-123-4567");
    let c = normalize_phone_number("15551234567");
    assert_eq!(a, b);
    assert_eq!(b, c);
    assert_eq!(c, "5551234567");
}

#[test]
fn normalize_keeps_non_us_lengths() {
    assert_eq!(normalize_phone_number("0123456789"), "0123456789");
    assert_eq!(normalize_phone_number("20123456789"), "20123456789");
    assert_eq!(normalize_phone_number("112"), "112");
}

#[test]
fn canonicalize_strips_formatting_only() {
    assert_eq!(canonicalize_phone_number("+1 (555) 123-4567"), "15551234567");
    assert_eq!(canonicalize_phone_number("007 123"), "007123");
    assert_eq!(canonicalize_phone_number("+49-30-1234"), "49301234");
    assert_eq!(canonicalize_phone_number("a@b"), "a@b");
}

#[test]
fn address_validity() {
    assert!(is_address_valid("123"));
    assert!(!is_address_valid("12"));
    assert!(is_address_valid("a@b"));
    assert!(!is_address_valid("a@"));
    assert!(!is_address_valid("@b"));
    assert!(!is_address_valid("a@b@c"));
    assert!(is_address_valid("+1 (555) 123-4567"));
    assert!(is_address_valid("123456789012345"));
    assert!(!is_address_valid("1234567890123456"));
    assert!(!is_address_valid("55x5"));
}
