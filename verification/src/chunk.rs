//! What one ranged request brings back, and whether it can be accepted.

use vstd::prelude::*;
use crate::error::DownloadError;
use crate::range::ByteRange;

verus! {

/// How the request for one range ended.
#[derive(Debug)]
pub enum FetchOutcome {
    /// The server answered with `status` and a body of these bytes.
    Response { status: u16, body: Vec<u8> },
    /// No answer arrived.
    TransportFailed,
}

/// The bytes of one range, as accepted from the server.
#[derive(Debug)]
pub struct ChunkResult {
    pub range: ByteRange,
    pub data: Vec<u8>,
}

impl ChunkResult {
    /// The chunk holds as many bytes as its range covers.
    pub open spec fn well_formed(&self) -> bool {
        self.range.fits(self.data@)
    }
}

/// A status that stands for success, partial content (206) included.
pub open spec fn status_accepted(status: u16) -> bool {
    200 <= status <= 299
}

/// The bytes that the request for `range` yields, or the error it ends in:
/// a failed transport is a network error, a status that is no success a
/// protocol error, and a body of another length than the range a length
/// mismatch.
pub open spec fn chunk_verdict(range: ByteRange, outcome: FetchOutcome) -> Result<
    Seq<u8>,
    DownloadError,
> {
    match outcome {
        FetchOutcome::TransportFailed => Err(DownloadError::Network { range }),
        FetchOutcome::Response { status, body } => {
            if !status_accepted(status) {
                Err(DownloadError::Protocol { range, status })
            } else if !range.fits(body@) {
                Err(DownloadError::LengthMismatch { range, received: body@.len() as u64 })
            } else {
                Ok(body@)
            }
        },
    }
}

/// Judges the outcome of the request for `range`: the body becomes the
/// chunk of that range if the status is a success and the body is as long
/// as the range; otherwise the request has failed, whatever it brought.
pub fn check_chunk(range: ByteRange, outcome: FetchOutcome) -> (result: Result<
    ChunkResult,
    DownloadError,
>)
    ensures
        match chunk_verdict(range, outcome) {
            Ok(data) => result matches Ok(chunk) && chunk.range == range && chunk.data@ == data
                && chunk.well_formed(),
            Err(error) => result == Err::<ChunkResult, DownloadError>(error),
        },
{
    match outcome {
        FetchOutcome::TransportFailed => Err(DownloadError::Network { range }),
        FetchOutcome::Response { status, body } => {
            if status < 200 || status > 299 {
                Err(DownloadError::Protocol { range, status })
            } else if !range.holds(body.len()) {
                Err(DownloadError::LengthMismatch { range, received: body.len() as u64 })
            } else {
                Ok(ChunkResult { range, data: body })
            }
        },
    }
}

} // verus!
