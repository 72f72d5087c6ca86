use node_log::config::{node_log_max_bytes, node_log_max_files, parse_positive_u64};

#[test]
fn parse_plain_number() {
    assert_eq!(parse_positive_u64("42"), Some(42));
    assert_eq!(parse_positive_u64("1"), Some(1));
}

#[test]
fn parse_trims_whitespace() {
    assert_eq!(parse_positive_u64(" 10 "), Some(10));
    assert_eq!(parse_positive_u64("\t7\n"), Some(7));
}

#[test]
fn parse_trims_unicode_whitespace() {
    // the trim matches str::trim: all Unicode whitespace goes
    assert_eq!(parse_positive_u64("\u{a0}7"), Some(7));
    assert_eq!(parse_positive_u64("\u{2003}8\u{3000}"), Some(8));
    assert_eq!("\u{a0}7".trim().parse::<u64>().ok(), parse_positive_u64("\u{a0}7"));
    assert_eq!(node_log_max_bytes(Some("\u{a0}7")), 7);
    assert_eq!(node_log_max_files(Some("\u{2028}4")), 4);
}

#[test]
fn parse_accepts_leading_plus() {
    assert_eq!(parse_positive_u64("+7"), Some(7));
}

#[test]
fn parse_rejects_zero_and_garbage() {
    assert_eq!(parse_positive_u64("0"), None);
    assert_eq!(parse_positive_u64("-3"), None);
    assert_eq!(parse_positive_u64("abc"), None);
    assert_eq!(parse_positive_u64(""), None);
    assert_eq!(parse_positive_u64("  "), None);
    assert_eq!(parse_positive_u64("10x"), None);
    assert_eq!(parse_positive_u64("+"), None);
}

#[test]
fn parse_u64_boundary() {
    assert_eq!(parse_positive_u64("18446744073709551615"), Some(u64::MAX));
    assert_eq!(parse_positive_u64("18446744073709551616"), None);
    assert_eq!(parse_positive_u64("99999999999999999999999"), None);
}

#[test]
fn max_bytes_falls_back_to_default() {
    assert_eq!(node_log_max_bytes(None), 10 * 1024 * 1024);
    assert_eq!(node_log_max_bytes(Some("0")), 10 * 1024 * 1024);
    assert_eq!(node_log_max_bytes(Some("nope")), 10 * 1024 * 1024);
    assert_eq!(node_log_max_bytes(Some("2048")), 2048);
}

#[test]
fn max_files_falls_back_to_default() {
    assert_eq!(node_log_max_files(None), 5);
    assert_eq!(node_log_max_files(Some("0")), 5);
    assert_eq!(node_log_max_files(Some("-1")), 5);
    assert_eq!(node_log_max_files(Some("3")), 3);
}
