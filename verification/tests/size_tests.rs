use dockrs::size::Size;
use dockrs::text::u64_to_string;

#[test]
fn test_size_display() {
    let size = Size::from(1125);

    let expected = "1.12kB";

    assert_eq!(size.display_string(), expected);
}

#[test]
fn test_size_display_plain_bytes() {
    assert_eq!(Size::from(0).display_string(), "0B");
    assert_eq!(Size::from(999).display_string(), "999B");
    assert_eq!(Size::from(1000).display_string(), "1000B");
}

#[test]
fn test_size_display_negative() {
    assert_eq!(Size::from(-5).display_string(), "-5B");
}

#[test]
fn test_size_display_rounds_half_to_even() {
    // 1.125 rounds down to the even hundredth, 1.126 rounds up.
    assert_eq!(Size::from(1125).display_string(), "1.12kB");
    assert_eq!(Size::from(1126).display_string(), "1.13kB");
}

#[test]
fn test_size_display_larger_units() {
    assert_eq!(Size::from(1_500_000).display_string(), "1.50MB");
    assert_eq!(Size::from(2_000_000_000).display_string(), "2.00GB");
    assert_eq!(Size::from(3_141_000_000_000).display_string(), "3.14TB");
}

#[test]
fn test_size_display_petabytes() {
    assert_eq!(Size::from(2_000_000_000_000_001).display_string(), "2PB");
}

#[test]
fn test_u64_to_string() {
    assert_eq!(u64_to_string(0), "0");
    assert_eq!(u64_to_string(7), "7");
    assert_eq!(u64_to_string(1234567890), "1234567890");
    assert_eq!(u64_to_string(u64::MAX), "18446744073709551615");
}
