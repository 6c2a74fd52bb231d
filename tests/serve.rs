use boxy_catalog::serve::{parse_range, percent_decode};

#[test]
fn ranges_are_read_and_clamped() {
    assert_eq!(parse_range("bytes=0-99", 1000), Some((0, 99)));
    assert_eq!(parse_range("bytes=100-", 1000), Some((100, 999)));
    assert_eq!(parse_range("bytes=0-5000", 1000), Some((0, 999)));
    assert_eq!(parse_range("bytes=5", 1000), Some((5, 999)));
    assert_eq!(parse_range("bytes=1-x", 1000), Some((1, 999)));
    assert_eq!(parse_range("bytes=+3-4", 1000), Some((3, 4)));
}

#[test]
fn bad_ranges_are_refused() {
    assert_eq!(parse_range("bytes=500-100", 1000), None);
    assert_eq!(parse_range("items=0-1", 1000), None);
    assert_eq!(parse_range("bytes=-5", 1000), None);
    assert_eq!(parse_range("bytes=1000-", 1000), None);
    assert_eq!(parse_range("byte", 1000), None);
}

#[test]
fn percent_escapes_are_decoded() {
    assert_eq!(percent_decode("C%3A/Videos/a%20b.mp4"), "C:/Videos/a b.mp4");
    assert_eq!(percent_decode("%E2%9C%93"), "\u{2713}");
    assert_eq!(percent_decode("100%"), "100%");
    assert_eq!(percent_decode("%zz"), "%zz");
    assert_eq!(percent_decode("%41%4"), "A%4");
    assert_eq!(percent_decode("%+4z"), "\u{4}z");
    assert_eq!(percent_decode("%FF"), "\u{FFFD}");
}
