use chunked_downloader::error::DownloadError;
use chunked_downloader::header::{range_header_value, RANGE_HEADER};
use chunked_downloader::range::ByteRange;
use chunked_downloader::text::decimal_text;

#[test]
fn header_is_named_range() {
    assert_eq!(RANGE_HEADER, "Range");
}

#[test]
fn header_value_names_both_ends() {
    assert_eq!(range_header_value(ByteRange { start: 0, end: 9 }), "bytes=0-9");
    assert_eq!(range_header_value(ByteRange { start: 10, end: 19 }), "bytes=10-19");
    assert_eq!(range_header_value(ByteRange { start: 20, end: 24 }), "bytes=20-24");
    assert_eq!(
        range_header_value(ByteRange { start: 10_485_760, end: 20_971_519 }),
        "bytes=10485760-20971519"
    );
}

#[test]
fn header_value_of_the_largest_offsets() {
    assert_eq!(
        range_header_value(ByteRange { start: 0, end: u64::MAX }),
        "bytes=0-18446744073709551615"
    );
}

#[test]
fn decimal_text_agrees_with_std() {
    for value in [0u64, 1, 9, 10, 11, 99, 100, 101, 1234567890, u64::MAX - 1, u64::MAX] {
        assert_eq!(decimal_text(value), value.to_string());
    }
    for value in 0u64..2000 {
        assert_eq!(decimal_text(value), value.to_string());
    }
}

#[test]
fn errors_describe_themselves() {
    let range = ByteRange { start: 10, end: 19 };
    assert_eq!(
        DownloadError::Network { range }.describe(),
        "network failure while fetching bytes 10-19"
    );
    assert_eq!(
        DownloadError::Protocol { range, status: 404 }.describe(),
        "unexpected HTTP status 404 for bytes 10-19"
    );
    assert_eq!(
        DownloadError::LengthMismatch { range, received: 7 }.describe(),
        "received 7 bytes for bytes 10-19"
    );
    assert_eq!(
        DownloadError::Assembly.describe(),
        "the chunks received do not make up the resource"
    );
}
