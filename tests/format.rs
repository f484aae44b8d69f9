use supercv::format::{decimal_string, format_size, padded_decimal, signed_decimal_string};

#[test]
fn decimals() {
    assert_eq!(decimal_string(0), "0");
    assert_eq!(decimal_string(12345), "12345");
    assert_eq!(decimal_string(u64::MAX), "18446744073709551615");
    assert_eq!(signed_decimal_string(-42), "-42");
    assert_eq!(signed_decimal_string(i64::MIN), "-9223372036854775808");
    assert_eq!(signed_decimal_string(7), "7");
}

#[test]
fn padding() {
    assert_eq!(padded_decimal(7, 2), "07");
    assert_eq!(padded_decimal(2024, 4), "2024");
    assert_eq!(padded_decimal(123, 2), "123");
    assert_eq!(padded_decimal(0, 3), "000");
}

#[test]
fn sizes_in_base_1024_units() {
    assert_eq!(format_size(0), "0 B");
    assert_eq!(format_size(1023), "1023 B");
    assert_eq!(format_size(1024), "1.0 KB");
    assert_eq!(format_size(1536), "1.5 KB");
    assert_eq!(format_size(2411725), "2.3 MB");
    assert_eq!(format_size(1073741824), "1.0 GB");
    assert_eq!(format_size(1099511627776), "1.0 TB");
    assert_eq!(format_size(5 * 1099511627776 * 1024), "5120.0 TB");
}
