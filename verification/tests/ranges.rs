use chunked_downloader::range::{split_into_ranges, ByteRange};
use chunked_downloader::request::{DownloadRequest, DEFAULT_CHUNK_SIZE};

fn range(start: u64, end: u64) -> ByteRange {
    ByteRange { start, end }
}

#[test]
fn empty_resource_has_no_ranges() {
    assert_eq!(split_into_ranges(0, 10), Vec::<ByteRange>::new());
    assert_eq!(split_into_ranges(0, 1), Vec::<ByteRange>::new());
}

#[test]
fn resource_of_one_chunk_has_one_range() {
    assert_eq!(split_into_ranges(10, 10), vec![range(0, 9)]);
    assert_eq!(split_into_ranges(1, 1), vec![range(0, 0)]);
    assert_eq!(split_into_ranges(10_485_760, 10_485_760), vec![range(0, 10_485_759)]);
}

#[test]
fn resource_shorter_than_a_chunk_has_one_short_range() {
    assert_eq!(split_into_ranges(7, 10), vec![range(0, 6)]);
    assert_eq!(split_into_ranges(1, 10), vec![range(0, 0)]);
}

#[test]
fn two_and_a_half_chunks_give_three_ranges() {
    assert_eq!(split_into_ranges(25, 10), vec![range(0, 9), range(10, 19), range(20, 24)]);
}

#[test]
fn whole_multiple_of_the_chunk_size_has_no_short_range() {
    assert_eq!(split_into_ranges(30, 10), vec![range(0, 9), range(10, 19), range(20, 29)]);
}

#[test]
fn one_byte_more_than_a_chunk_gives_a_range_of_one_byte() {
    assert_eq!(split_into_ranges(11, 10), vec![range(0, 9), range(10, 10)]);
}

#[test]
fn chunk_size_of_one_gives_a_range_per_byte() {
    assert_eq!(split_into_ranges(3, 1), vec![range(0, 0), range(1, 1), range(2, 2)]);
}

#[test]
fn largest_resource_does_not_overflow() {
    let chunk = 1u64 << 62;
    let ranges = split_into_ranges(u64::MAX, chunk);
    assert_eq!(
        ranges,
        vec![
            range(0, chunk - 1),
            range(chunk, 2 * chunk - 1),
            range(2 * chunk, 3 * chunk - 1),
            range(3 * chunk, u64::MAX - 1),
        ]
    );
    assert_eq!(split_into_ranges(u64::MAX, u64::MAX), vec![range(0, u64::MAX - 1)]);
}

#[test]
fn ranges_tile_the_resource_for_many_sizes() {
    for chunk in 1u64..=12 {
        for total in 0u64..=60 {
            let ranges = split_into_ranges(total, chunk);
            let mut next = 0u64;
            let mut sum = 0u64;
            for (i, r) in ranges.iter().enumerate() {
                assert_eq!(r.start, next);
                assert!(r.start <= r.end);
                let len = r.end - r.start + 1;
                if i + 1 < ranges.len() {
                    assert_eq!(len, chunk);
                } else {
                    assert!(len >= 1 && len <= chunk);
                }
                sum += len;
                next = r.end + 1;
            }
            assert_eq!(next, total);
            assert_eq!(sum, total);
            assert_eq!(ranges.len() as u64, (total + chunk - 1) / chunk);
        }
    }
}

#[test]
fn holds_compares_a_length_with_the_range() {
    assert!(range(20, 24).holds(5));
    assert!(!range(20, 24).holds(4));
    assert!(!range(20, 24).holds(6));
    assert!(!range(20, 24).holds(0));
    assert!(range(0, 0).holds(1));
    assert!(!range(5, 4).holds(0));
    assert!(!range(0, u64::MAX).holds(usize::MAX));
}

#[test]
fn default_chunk_size_is_ten_mebibytes() {
    assert_eq!(DEFAULT_CHUNK_SIZE, 10_485_760);
    let request = DownloadRequest::new("https://example.org/a.m4a".to_string(), 26_214_400);
    assert_eq!(request.chunk_size(), 10_485_760);
    assert_eq!(request.total_size(), 26_214_400);
    assert_eq!(request.url(), "https://example.org/a.m4a");
    assert_eq!(
        request.ranges(),
        vec![range(0, 10_485_759), range(10_485_760, 20_971_519), range(20_971_520, 26_214_399)]
    );
}

#[test]
fn request_with_its_own_chunk_size() {
    let request = DownloadRequest::with_chunk_size("u".to_string(), 25, 10);
    assert_eq!(request.chunk_size(), 10);
    assert_eq!(request.ranges(), vec![range(0, 9), range(10, 19), range(20, 24)]);
    assert_eq!(request.assembler().ranges(), &vec![range(0, 9), range(10, 19), range(20, 24)]);
}
