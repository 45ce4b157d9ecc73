use musicbox::range::parse_range;

#[test]
fn explicit_range_within_file() {
    assert_eq!(parse_range("bytes=0-499", 1000), Some((0, 499)));
    assert_eq!(parse_range("bytes=500-999", 1000), Some((500, 999)));
    assert_eq!(parse_range("bytes=7-7", 1000), Some((7, 7)));
}

#[test]
fn open_ended_range_reaches_end_of_file() {
    assert_eq!(parse_range("bytes=0-", 1000), Some((0, 999)));
    assert_eq!(parse_range("bytes=990-", 1000), Some((990, 999)));
}

#[test]
fn open_ended_range_on_empty_file_is_rejected() {
    assert_eq!(parse_range("bytes=0-", 0), None);
}

#[test]
fn start_past_end_is_rejected() {
    assert_eq!(parse_range("bytes=500-499", 1000), None);
}

#[test]
fn end_at_or_past_file_size_is_rejected() {
    assert_eq!(parse_range("bytes=0-1000", 1000), None);
    assert_eq!(parse_range("bytes=0-999", 1000), Some((0, 999)));
}

#[test]
fn malformed_headers_are_rejected() {
    assert_eq!(parse_range("", 1000), None);
    assert_eq!(parse_range("bytes", 1000), None);
    assert_eq!(parse_range("bytes=", 1000), None);
    assert_eq!(parse_range("bytes=-", 1000), None);
    assert_eq!(parse_range("bytes=-500", 1000), None);
    assert_eq!(parse_range("bytes=a-b", 1000), None);
    assert_eq!(parse_range("bytes=1-2-3", 1000), None);
    assert_eq!(parse_range("bytes=12", 1000), None);
    assert_eq!(parse_range("items=0-10", 1000), None);
    assert_eq!(parse_range("bytes=+1-5", 1000), None);
    assert_eq!(parse_range("bytes= 1-5", 1000), None);
}

#[test]
fn values_past_u64_are_rejected() {
    assert_eq!(parse_range("bytes=18446744073709551616-", 1000), None);
    assert_eq!(
        parse_range("bytes=0-18446744073709551615", u64::MAX),
        None
    );
}

#[test]
fn large_values_inside_u64_parse() {
    assert_eq!(
        parse_range("bytes=0-18446744073709551614", u64::MAX),
        Some((0, u64::MAX - 1))
    );
}
