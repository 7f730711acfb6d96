//! What a caller asks for: a resource, its length, and the size of the
//! chunks to fetch it in.

use vstd::prelude::*;
use crate::assembly::{Assembler, AssemblerState};
use crate::range::{chunk_ranges, split_into_ranges, ByteRange};

verus! {

/// Chunk size of a request that names none: 10 MiB.
pub const DEFAULT_CHUNK_SIZE: u64 = 10 * 1024 * 1024;

/// A request as a mathematical value.
pub struct DownloadRequestView {
    pub url: Seq<char>,
    pub total_size: u64,
    pub chunk_size: u64,
}

/// One download: where the resource is, how long it is, and in chunks of
/// what size it is fetched. A request does not change once it is made.
pub struct DownloadRequest {
    url: String,
    total_size: u64,
    chunk_size: u64,
}

impl View for DownloadRequest {
    type V = DownloadRequestView;

    closed spec fn view(&self) -> DownloadRequestView {
        DownloadRequestView {
            url: self.url@,
            total_size: self.total_size,
            chunk_size: self.chunk_size,
        }
    }
}

impl DownloadRequest {
    #[verifier::type_invariant]
    spec fn positive_chunk_size(self) -> bool {
        self.chunk_size > 0
    }

    /// A request for the `total_size` bytes at `url`, in chunks of the
    /// default size.
    pub fn new(url: String, total_size: u64) -> (request: DownloadRequest)
        ensures
            request@ == (DownloadRequestView {
                url: url@,
                total_size,
                chunk_size: DEFAULT_CHUNK_SIZE,
            }),
    {
        DownloadRequest { url, total_size, chunk_size: DEFAULT_CHUNK_SIZE }
    }

    /// A request for the `total_size` bytes at `url`, in chunks of
    /// `chunk_size` bytes.
    pub fn with_chunk_size(url: String, total_size: u64, chunk_size: u64) -> (request:
        DownloadRequest)
        requires
            chunk_size > 0,
        ensures
            request@ == (DownloadRequestView { url: url@, total_size, chunk_size }),
    {
        DownloadRequest { url, total_size, chunk_size }
    }

    /// Where the resource is.
    pub fn url(&self) -> (url: &str)
        ensures
            url@ == self@.url,
    {
        self.url.as_str()
    }

    /// Length of the resource in bytes.
    pub fn total_size(&self) -> (size: u64)
        ensures
            size == self@.total_size,
    {
        self.total_size
    }

    /// Length in bytes of every chunk but the last; never zero.
    pub fn chunk_size(&self) -> (size: u64)
        ensures
            size == self@.chunk_size,
            size > 0,
    {
        proof {
            use_type_invariant(self);
        }
        self.chunk_size
    }

    /// The ranges to fetch, in ascending order.
    pub fn ranges(&self) -> (ranges: Vec<ByteRange>)
        ensures
            self@.chunk_size > 0,
            ranges@ == chunk_ranges(self@.total_size, self@.chunk_size),
    {
        proof {
            use_type_invariant(self);
        }
        split_into_ranges(self.total_size, self.chunk_size)
    }

    /// An assembler for the chunks of this request, with nothing filed yet.
    pub fn assembler(&self) -> (assembler: Assembler)
        ensures
            self@.chunk_size > 0,
            assembler.wf(),
            assembler@ == AssemblerState::initial(self@.total_size, self@.chunk_size),
    {
        proof {
            use_type_invariant(self);
        }
        Assembler::new(self.total_size, self.chunk_size)
    }
}

} // verus!
