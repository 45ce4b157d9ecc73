use musicbox::textfmt::{format_size, u64_to_string};

#[test]
fn decimal_rendering() {
    assert_eq!(u64_to_string(0), "0");
    assert_eq!(u64_to_string(7), "7");
    assert_eq!(u64_to_string(10), "10");
    assert_eq!(u64_to_string(105), "105");
    assert_eq!(u64_to_string(u64::MAX), "18446744073709551615");
}

#[test]
fn bytes_under_one_kib_are_plain() {
    assert_eq!(format_size(0), "0 B");
    assert_eq!(format_size(1), "1 B");
    assert_eq!(format_size(1023), "1023 B");
}

#[test]
fn kib_mib_gib_have_two_decimals() {
    assert_eq!(format_size(1024), "1.00 KB");
    assert_eq!(format_size(1536), "1.50 KB");
    assert_eq!(format_size(1024 * 1024), "1.00 MB");
    assert_eq!(format_size(1024 * 1024 * 2 + 1024 * 256), "2.25 MB");
    assert_eq!(format_size(1024 * 1024 * 1024), "1.00 GB");
    assert_eq!(format_size(1024 * 1024 * 1024 * 3 / 2), "1.50 GB");
}

#[test]
fn rounding_is_half_up_on_the_second_decimal() {
    // 1.005 KB rounds up to 1.01 KB; just under stays at 1.00 KB.
    assert_eq!(format_size(1029), "1.00 KB");
    assert_eq!(format_size(1030), "1.01 KB");
}
