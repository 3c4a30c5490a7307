use phone_companion::device::DeviceType;
use phone_companion::digits::i64_to_dec;
use phone_companion::digits::parse_u128;
use phone_companion::digits::u64_to_dec;
use phone_companion::display::format_duration;

#[test]
fn duration_zero_and_negative() {
    assert_eq!(format_duration(0), "0:00");
    assert_eq!(format_duration(-1500), "0:00");
}

#[test]
fn duration_formats_mm_ss() {
    assert_eq!(format_duration(1), "0:00");
    assert_eq!(format_duration(59_999), "0:59");
    assert_eq!(format_duration(65_000), "1:05");
    assert_eq!(format_duration(600_000), "10:00");
    assert_eq!(format_duration(3_725_000), "62:05");
}

#[test]
fn device_type_from_strings() {
    assert_eq!(DeviceType::from("phone"), DeviceType::Phone);
    assert_eq!(DeviceType::from("smartphone"), DeviceType::Phone);
    assert_eq!(DeviceType::from("tablet"), DeviceType::Tablet);
    assert_eq!(DeviceType::from("desktop"), DeviceType::Desktop);
    assert_eq!(DeviceType::from("laptop"), DeviceType::Laptop);
    assert_eq!(DeviceType::from("tv"), DeviceType::Tv);
    assert_eq!(DeviceType::from("fridge"), DeviceType::Unknown);
    assert_eq!(DeviceType::from("Phone"), DeviceType::Unknown);
}

#[test]
fn decimal_rendering() {
    assert_eq!(u64_to_dec(0), "0");
    assert_eq!(u64_to_dec(907), "907");
    assert_eq!(u64_to_dec(u64::MAX), "18446744073709551615");
    assert_eq!(i64_to_dec(-45), "-45");
    assert_eq!(i64_to_dec(7), "7");
    assert_eq!(i64_to_dec(i64::MIN), "-9223372036854775808");
}

#[test]
fn decimal_parsing() {
    assert_eq!(parse_u128("123"), Some(123));
    assert_eq!(parse_u128("+123"), Some(123));
    assert_eq!(parse_u128("0"), Some(0));
    assert_eq!(parse_u128(""), None);
    assert_eq!(parse_u128("+"), None);
    assert_eq!(parse_u128("12a"), None);
    assert_eq!(parse_u128(" 12"), None);
    assert_eq!(parse_u128("340282366920938463463374607431768211455"), Some(u128::MAX));
    assert_eq!(parse_u128("340282366920938463463374607431768211456"), None);
}
