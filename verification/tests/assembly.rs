use chunked_downloader::assembly::{assemble, Assembler, Progress};
use chunked_downloader::chunk::{check_chunk, ChunkResult, FetchOutcome};
use chunked_downloader::error::DownloadError;
use chunked_downloader::range::{split_into_ranges, ByteRange};

fn source(len: usize) -> Vec<u8> {
    (0..len).map(|i| (i * 7 + 3) as u8).collect()
}

fn slice(source: &[u8], range: ByteRange) -> Vec<u8> {
    source[range.start as usize..=range.end as usize].to_vec()
}

fn fetched(source: &[u8], range: ByteRange) -> Result<ChunkResult, DownloadError> {
    check_chunk(range, FetchOutcome::Response { status: 206, body: slice(source, range) })
}

fn permutations(n: usize) -> Vec<Vec<usize>> {
    if n == 0 {
        return vec![Vec::new()];
    }
    let mut all = Vec::new();
    for shorter in permutations(n - 1) {
        for at in 0..=shorter.len() {
            let mut longer = shorter.clone();
            longer.insert(at, n - 1);
            all.push(longer);
        }
    }
    all
}

#[test]
fn download_of_nothing_is_an_empty_buffer() {
    assert_eq!(assemble(0, 10, Vec::new()), Ok(Vec::new()));
    let assembler = Assembler::new(0, 10);
    assert!(assembler.ranges().is_empty());
    assert_eq!(assembler.progress(), Progress::Complete);
    assert_eq!(assembler.finish(), Ok(Vec::new()));
}

#[test]
fn single_chunk_is_the_whole_resource() {
    let data = source(10);
    let ranges = split_into_ranges(10, 10);
    assert_eq!(ranges.len(), 1);
    assert_eq!(assemble(10, 10, vec![fetched(&data, ranges[0])]), Ok(data));
}

#[test]
fn chunks_in_range_order_give_the_resource() {
    let data = source(25);
    let results = split_into_ranges(25, 10).into_iter().map(|r| fetched(&data, r)).collect();
    assert_eq!(assemble(25, 10, results), Ok(data));
}

#[test]
fn late_first_chunk_still_comes_first() {
    let data = source(25);
    let ranges = split_into_ranges(25, 10);
    let results = vec![fetched(&data, ranges[1]), fetched(&data, ranges[2]), fetched(&data, ranges[0])];
    let buffer = assemble(25, 10, results).unwrap();
    assert_eq!(buffer, data);
    assert_eq!(&buffer[0..10], &data[0..10]);
}

#[test]
fn every_arrival_order_gives_the_same_buffer() {
    let data = source(23);
    let ranges = split_into_ranges(23, 5);
    assert_eq!(ranges.len(), 5);
    for order in permutations(5) {
        let results = order.iter().map(|&i| fetched(&data, ranges[i])).collect();
        assert_eq!(assemble(23, 5, results), Ok(data.clone()));
    }
}

#[test]
fn progress_follows_the_chunks() {
    let data = source(25);
    let mut assembler = Assembler::new(25, 10);
    let ranges = assembler.ranges().clone();
    assert_eq!(assembler.progress(), Progress::Pending);
    assert_eq!(assembler.settle(fetched(&data, ranges[2])), Progress::Pending);
    assert_eq!(assembler.settle(fetched(&data, ranges[0])), Progress::Pending);
    assert_eq!(assembler.settle(fetched(&data, ranges[1])), Progress::Complete);
    assert_eq!(assembler.progress(), Progress::Complete);
    assert_eq!(assembler.finish(), Ok(data));
}

#[test]
fn failed_chunk_fails_the_download() {
    let data = source(25);
    let ranges = split_into_ranges(25, 10);
    for failed in 0..3 {
        for order in permutations(3) {
            let results = order
                .iter()
                .map(|&i| {
                    if i == failed {
                        check_chunk(ranges[i], FetchOutcome::TransportFailed)
                    } else {
                        fetched(&data, ranges[i])
                    }
                })
                .collect();
            assert_eq!(
                assemble(25, 10, results),
                Err(DownloadError::Network { range: ranges[failed] })
            );
        }
    }
}

#[test]
fn short_chunk_fails_the_download() {
    let data = source(25);
    let ranges = split_into_ranges(25, 10);
    let short = check_chunk(ranges[1], FetchOutcome::Response { status: 206, body: vec![0; 9] });
    let results = vec![fetched(&data, ranges[0]), short, fetched(&data, ranges[2])];
    assert_eq!(
        assemble(25, 10, results),
        Err(DownloadError::LengthMismatch { range: ranges[1], received: 9 })
    );
}

#[test]
fn refused_chunk_fails_the_download() {
    let data = source(25);
    let ranges = split_into_ranges(25, 10);
    let refused = check_chunk(ranges[2], FetchOutcome::Response { status: 403, body: Vec::new() });
    let results = vec![refused, fetched(&data, ranges[0]), fetched(&data, ranges[1])];
    assert_eq!(
        assemble(25, 10, results),
        Err(DownloadError::Protocol { range: ranges[2], status: 403 })
    );
}

#[test]
fn first_failure_is_the_one_reported() {
    let ranges = split_into_ranges(25, 10);
    let results = vec![
        Err(DownloadError::Protocol { range: ranges[1], status: 500 }),
        Err(DownloadError::Network { range: ranges[0] }),
        Err(DownloadError::Assembly),
    ];
    assert_eq!(
        assemble(25, 10, results),
        Err(DownloadError::Protocol { range: ranges[1], status: 500 })
    );
}

#[test]
fn failure_stops_further_filing() {
    let data = source(25);
    let mut assembler = Assembler::new(25, 10);
    let ranges = assembler.ranges().clone();
    assert_eq!(assembler.settle(fetched(&data, ranges[0])), Progress::Pending);
    assert_eq!(
        assembler.settle(Err(DownloadError::Network { range: ranges[1] })),
        Progress::Failed
    );
    assert_eq!(assembler.settle(fetched(&data, ranges[1])), Progress::Failed);
    assert_eq!(assembler.settle(fetched(&data, ranges[2])), Progress::Failed);
    assert_eq!(assembler.progress(), Progress::Failed);
    assert_eq!(assembler.finish(), Err(DownloadError::Network { range: ranges[1] }));
}

#[test]
fn missing_chunk_is_an_assembly_error() {
    let data = source(25);
    let ranges = split_into_ranges(25, 10);
    let results = vec![fetched(&data, ranges[0]), fetched(&data, ranges[2])];
    assert_eq!(assemble(25, 10, results), Err(DownloadError::Assembly));
    assert_eq!(assemble(25, 10, Vec::new()), Err(DownloadError::Assembly));
}

#[test]
fn second_chunk_for_a_range_is_an_assembly_error() {
    let data = source(25);
    let ranges = split_into_ranges(25, 10);
    let results = vec![
        fetched(&data, ranges[0]),
        fetched(&data, ranges[0]),
        fetched(&data, ranges[1]),
        fetched(&data, ranges[2]),
    ];
    assert_eq!(assemble(25, 10, results), Err(DownloadError::Assembly));
}

#[test]
fn chunk_for_an_unplanned_range_is_an_assembly_error() {
    let stray = |start: u64, end: u64| {
        let range = ByteRange { start, end };
        Ok(ChunkResult { range, data: vec![0; (end - start + 1) as usize] })
    };
    assert_eq!(assemble(25, 10, vec![stray(5, 14)]), Err(DownloadError::Assembly));
    assert_eq!(assemble(25, 10, vec![stray(0, 8)]), Err(DownloadError::Assembly));
    assert_eq!(assemble(25, 10, vec![stray(20, 29)]), Err(DownloadError::Assembly));
    assert_eq!(assemble(25, 10, vec![stray(30, 39)]), Err(DownloadError::Assembly));
    assert_eq!(assemble(0, 10, vec![stray(0, 9)]), Err(DownloadError::Assembly));
}

#[test]
fn chunk_of_the_wrong_length_is_never_filed() {
    let range = ByteRange { start: 10, end: 19 };
    let results = vec![Ok(ChunkResult { range, data: vec![0; 11] })];
    assert_eq!(
        assemble(25, 10, results),
        Err(DownloadError::LengthMismatch { range, received: 11 })
    );
}

#[test]
fn buffer_is_never_of_the_wrong_length() {
    let data = source(25);
    let ranges = split_into_ranges(25, 10);
    let bodies: Vec<Vec<u8>> = vec![Vec::new(), vec![1; 4], vec![2; 5], vec![3; 10], vec![4; 11]];
    for first in &bodies {
        for last in &bodies {
            let results = vec![
                check_chunk(ranges[0], FetchOutcome::Response { status: 206, body: first.clone() }),
                fetched(&data, ranges[1]),
                check_chunk(ranges[2], FetchOutcome::Response { status: 206, body: last.clone() }),
            ];
            match assemble(25, 10, results) {
                Ok(buffer) => {
                    assert_eq!(buffer.len(), 25);
                    assert_eq!(first.len(), 10);
                    assert_eq!(last.len(), 5);
                },
                Err(_) => assert!(first.len() != 10 || last.len() != 5),
            }
        }
    }
}

#[test]
fn downloads_side_by_side_do_not_mix() {
    let one = source(25);
    let other: Vec<u8> = (0..17).map(|i| (200 - i) as u8).collect();
    let mut first = Assembler::new(25, 10);
    let mut second = Assembler::new(17, 4);
    let first_ranges = first.ranges().clone();
    let second_ranges = second.ranges().clone();
    assert_eq!(second_ranges.len(), 5);
    first.settle(fetched(&one, first_ranges[2]));
    second.settle(fetched(&other, second_ranges[4]));
    second.settle(fetched(&other, second_ranges[0]));
    first.settle(fetched(&one, first_ranges[0]));
    second.settle(fetched(&other, second_ranges[2]));
    second.settle(fetched(&other, second_ranges[1]));
    first.settle(fetched(&one, first_ranges[1]));
    second.settle(fetched(&other, second_ranges[3]));
    assert_eq!(first.finish(), Ok(one.clone()));
    assert_eq!(second.finish(), Ok(other));
    let again = first_ranges.iter().map(|&r| fetched(&one, r)).collect();
    assert_eq!(assemble(25, 10, again), Ok(one));
}

#[test]
fn failure_of_one_download_leaves_the_other_alone() {
    let data = source(12);
    let mut failing = Assembler::new(12, 6);
    let mut sound = Assembler::new(12, 6);
    let ranges = sound.ranges().clone();
    failing.settle(check_chunk(ranges[0], FetchOutcome::TransportFailed));
    sound.settle(fetched(&data, ranges[1]));
    failing.settle(fetched(&data, ranges[1]));
    sound.settle(fetched(&data, ranges[0]));
    assert_eq!(failing.finish(), Err(DownloadError::Network { range: ranges[0] }));
    assert_eq!(sound.finish(), Ok(data));
}
