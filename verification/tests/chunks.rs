use chunked_downloader::chunk::{check_chunk, FetchOutcome};
use chunked_downloader::error::DownloadError;
use chunked_downloader::range::ByteRange;

fn response(status: u16, body: Vec<u8>) -> FetchOutcome {
    FetchOutcome::Response { status, body }
}

#[test]
fn partial_content_of_the_right_length_is_accepted() {
    let range = ByteRange { start: 20, end: 24 };
    let chunk = check_chunk(range, response(206, vec![1, 2, 3, 4, 5])).unwrap();
    assert_eq!(chunk.range, range);
    assert_eq!(chunk.data, vec![1, 2, 3, 4, 5]);
}

#[test]
fn every_success_status_is_accepted() {
    let range = ByteRange { start: 0, end: 0 };
    for status in [200u16, 206, 299] {
        let chunk = check_chunk(range, response(status, vec![7])).unwrap();
        assert_eq!(chunk.data, vec![7]);
    }
}

#[test]
fn other_statuses_are_protocol_errors() {
    let range = ByteRange { start: 0, end: 0 };
    for status in [0u16, 100, 199, 300, 304, 404, 416, 500, u16::MAX] {
        assert_eq!(
            check_chunk(range, response(status, vec![7])).unwrap_err(),
            DownloadError::Protocol { range, status }
        );
    }
}

#[test]
fn failed_transport_is_a_network_error() {
    let range = ByteRange { start: 10, end: 19 };
    assert_eq!(
        check_chunk(range, FetchOutcome::TransportFailed).unwrap_err(),
        DownloadError::Network { range }
    );
}

#[test]
fn short_body_is_a_length_mismatch() {
    let range = ByteRange { start: 10, end: 19 };
    assert_eq!(
        check_chunk(range, response(206, vec![0; 9])).unwrap_err(),
        DownloadError::LengthMismatch { range, received: 9 }
    );
    assert_eq!(
        check_chunk(range, response(206, Vec::new())).unwrap_err(),
        DownloadError::LengthMismatch { range, received: 0 }
    );
}

#[test]
fn long_body_is_a_length_mismatch() {
    let range = ByteRange { start: 10, end: 19 };
    assert_eq!(
        check_chunk(range, response(200, vec![0; 25])).unwrap_err(),
        DownloadError::LengthMismatch { range, received: 25 }
    );
}

#[test]
fn bad_status_is_reported_before_bad_length() {
    let range = ByteRange { start: 10, end: 19 };
    assert_eq!(
        check_chunk(range, response(503, vec![0; 3])).unwrap_err(),
        DownloadError::Protocol { range, status: 503 }
    );
}

#[test]
fn range_that_ends_before_it_starts_holds_nothing() {
    let range = ByteRange { start: 5, end: 4 };
    assert_eq!(
        check_chunk(range, response(206, Vec::new())).unwrap_err(),
        DownloadError::LengthMismatch { range, received: 0 }
    );
}
