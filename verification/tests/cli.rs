use zim::format::md5;
use zim::serve::parse_range;

#[test]
fn parse_range_basic() {
    assert_eq!(parse_range("bytes=0-99"), Some((0, 99)));
    assert_eq!(parse_range("bytes=100-199"), Some((100, 199)));
    assert_eq!(parse_range("bytes=0-0"), Some((0, 0)));
}

#[test]
fn parse_range_rejects_suffix() {
    assert_eq!(parse_range("bytes=-500"), None);
}

#[test]
fn parse_range_rejects_open_ended() {
    assert_eq!(parse_range("bytes=100-"), None);
}

#[test]
fn parse_range_rejects_descending() {
    assert_eq!(parse_range("bytes=100-50"), None);
}

#[test]
fn parse_range_rejects_invalid() {
    assert_eq!(parse_range("bytes=abc-def"), None);
    assert_eq!(parse_range(""), None);
    assert_eq!(parse_range("garbage"), None);
}

#[test]
fn parse_range_with_whitespace() {
    // The caller strips the "Range:" header name, lowercases, and trims;
    // parse_range receives the pre-trimmed value.
    assert_eq!(parse_range("bytes=0-99"), Some((0, 99)));
    assert_eq!(parse_range(" bytes=50-100"), None); // not trimmed here
}

#[test]
fn md5_known_vector() {
    assert_eq!(
        md5(b"abc"),
        [
            0x90, 0x01, 0x50, 0x98, 0x3c, 0xd2, 0x4f, 0xb0, 0xd6, 0x96, 0x3f, 0x7d, 0x28, 0xe1,
            0x7f, 0x72
        ]
    );
}
