use canvibe::strutil::i64_to_string;
use canvibe::strutil::u64_to_string;

#[test]
fn u64_rendering() {
    assert_eq!(u64_to_string(0), "0".to_string());
    assert_eq!(u64_to_string(7), "7".to_string());
    assert_eq!(u64_to_string(10), "10".to_string());
    assert_eq!(u64_to_string(1234567890), "1234567890".to_string());
    assert_eq!(u64_to_string(u64::MAX), "18446744073709551615".to_string());
}

#[test]
fn i64_rendering() {
    assert_eq!(i64_to_string(0), "0".to_string());
    assert_eq!(i64_to_string(42), "42".to_string());
    assert_eq!(i64_to_string(-42), "-42".to_string());
    assert_eq!(i64_to_string(i64::MIN), "-9223372036854775808".to_string());
    assert_eq!(i64_to_string(i64::MAX), "9223372036854775807".to_string());
}
