//! Byte ranges and the tiling of a resource into fixed-size chunks.

use vstd::prelude::*;

verus! {

/// A contiguous span of bytes of a resource, given by the offsets of its
/// first and last byte (both included, counted from zero).
#[derive(Clone, Copy, Debug, PartialEq, Eq, Structural)]
pub struct ByteRange {
    pub start: u64,
    pub end: u64,
}

impl ByteRange {
    /// Number of bytes the range covers.
    pub open spec fn spec_len(self) -> int {
        self.end - self.start + 1
    }

    /// Whether `data` holds exactly as many bytes as the range covers.
    pub open spec fn fits(self, data: Seq<u8>) -> bool {
        self.start <= self.end && data.len() == self.spec_len()
    }

    /// Tells whether a body of `received` bytes fills the range exactly.
    pub fn holds(&self, received: usize) -> (yes: bool)
        ensures
            yes == (self.start <= self.end && received == self.spec_len()),
    {
        self.start <= self.end && received > 0 && (received - 1) as u64 == self.end - self.start
    }
}

/// Number of chunks that cover `total_size` bytes: the quotient of the two
/// sizes, rounded up.
pub open spec fn chunk_count(total_size: u64, chunk_size: u64) -> nat {
    if chunk_size == 0 {
        0
    } else {
        ((total_size + chunk_size - 1) / (chunk_size as int)) as nat
    }
}

/// The chunk with the given index: it starts at `index * chunk_size` and
/// runs for `chunk_size` bytes, or to the end of the resource if that comes
/// first.
pub open spec fn chunk_at(total_size: u64, chunk_size: u64, index: int) -> ByteRange {
    let start = index * chunk_size;
    let stop = if start + chunk_size < total_size {
        start + chunk_size
    } else {
        total_size as int
    };
    ByteRange { start: start as u64, end: (stop - 1) as u64 }
}

/// The ranges that tile `[0, total_size)` in steps of `chunk_size`, in
/// ascending order.
pub open spec fn chunk_ranges(total_size: u64, chunk_size: u64) -> Seq<ByteRange> {
    Seq::new(chunk_count(total_size, chunk_size), |index: int| chunk_at(total_size, chunk_size, index))
}

/// Sum of the lengths of `ranges`.
pub open spec fn covered(ranges: Seq<ByteRange>) -> int
    decreases ranges.len(),
{
    if ranges.len() == 0 {
        0
    } else {
        covered(ranges.drop_last()) + ranges.last().spec_len()
    }
}

/// `ranges` cut `[0, total)` into non-empty pieces: they ascend without
/// overlap, each begins right after the one before it, the first begins at
/// offset zero, the last ends at the last byte, and their lengths add up to
/// `total`.
pub open spec fn tiles(ranges: Seq<ByteRange>, total: int) -> bool {
    &&& forall|i: int| 0 <= i < ranges.len() ==> (#[trigger] ranges[i]).start <= ranges[i].end
    &&& forall|i: int, j: int|
        0 <= i < j < ranges.len() ==> (#[trigger] ranges[i]).end < (#[trigger] ranges[j]).start
    &&& forall|i: int|
        0 <= i < ranges.len() - 1 ==> (#[trigger] ranges[i]).end + 1 == ranges[i + 1].start
    &&& if ranges.len() == 0 {
        total == 0
    } else {
        ranges[0].start == 0 && ranges.last().end + 1 == total
    }
    &&& covered(ranges) == total
}

/// The quotient rounded up is the least number of chunks whose sizes reach
/// `total_size`.
pub proof fn lemma_chunk_count_bounds(total_size: u64, chunk_size: u64)
    requires
        chunk_size > 0,
    ensures
        chunk_count(total_size, chunk_size) * chunk_size >= total_size,
        total_size > 0 ==> (chunk_count(total_size, chunk_size) - 1) * chunk_size < total_size,
        total_size == 0 <==> chunk_count(total_size, chunk_size) == 0,
{
    let t = total_size as int;
    let c = chunk_size as int;
    let q = (t + c - 1) / c;
    assert(0 <= q && q * c >= t && (q - 1) * c < t && (t == 0 <==> q == 0)) by (nonlinear_arith)
        requires
            c > 0,
            t >= 0,
            q == (t + c - 1) / c,
    ;
}

/// An index is below the chunk count exactly when its chunk would begin
/// inside the resource.
pub proof fn lemma_index_in_count(total_size: u64, chunk_size: u64, index: int)
    requires
        chunk_size > 0,
        0 <= index,
    ensures
        index < chunk_count(total_size, chunk_size) <==> index * chunk_size < total_size,
{
    lemma_chunk_count_bounds(total_size, chunk_size);
    let t = total_size as int;
    let c = chunk_size as int;
    let n = chunk_count(total_size, chunk_size) as int;
    assert(index < n <==> index * c < t) by (nonlinear_arith)
        requires
            c > 0,
            0 <= index,
            0 <= n,
            n * c >= t,
            t > 0 ==> (n - 1) * c < t,
            t == 0 <==> n == 0,
            t >= 0,
    ;
}

/// Offsets and length of one chunk of the tiling.
pub proof fn lemma_chunk_at_shape(total_size: u64, chunk_size: u64, index: int)
    requires
        chunk_size > 0,
        0 <= index < chunk_count(total_size, chunk_size),
    ensures
        ({
            let r = chunk_at(total_size, chunk_size, index);
            &&& r.start == index * chunk_size
            &&& r.start <= r.end < total_size
            &&& 1 <= r.spec_len() <= chunk_size
            &&& index < chunk_count(total_size, chunk_size) - 1 ==> r.spec_len() == chunk_size && r.end + 1
                == (index + 1) * chunk_size
            &&& index == chunk_count(total_size, chunk_size) - 1 ==> r.end + 1 == total_size
        }),
{
    lemma_index_in_count(total_size, chunk_size, index);
    lemma_index_in_count(total_size, chunk_size, index + 1);
    lemma_chunk_count_bounds(total_size, chunk_size);
    let t = total_size as int;
    let c = chunk_size as int;
    let n = chunk_count(total_size, chunk_size) as int;
    assert((index + 1) * c == index * c + c) by (nonlinear_arith);
    assert(0 <= index * c) by (nonlinear_arith)
        requires
            0 <= index,
            c > 0,
    ;
    if index == n - 1 {
        assert(index * c + c >= t);
    }
}

/// The sum of the lengths of the first `count` chunks is the offset at which
/// the next chunk begins, or the whole size once every chunk is counted.
pub proof fn lemma_covered_prefix(total_size: u64, chunk_size: u64, count: int)
    requires
        chunk_size > 0,
        0 <= count <= chunk_count(total_size, chunk_size),
    ensures
        covered(chunk_ranges(total_size, chunk_size).take(count)) == if count < chunk_count(
            total_size,
            chunk_size,
        ) {
            count * chunk_size
        } else {
            total_size as int
        },
    decreases count,
{
    let ranges = chunk_ranges(total_size, chunk_size);
    let n = chunk_count(total_size, chunk_size) as int;
    if count == 0 {
        lemma_chunk_count_bounds(total_size, chunk_size);
        assert(0 * chunk_size == 0);
    } else {
        lemma_covered_prefix(total_size, chunk_size, count - 1);
        lemma_chunk_at_shape(total_size, chunk_size, count - 1);
        assert(ranges.take(count).drop_last() =~= ranges.take(count - 1));
        assert(ranges.take(count).last() == chunk_at(total_size, chunk_size, count - 1));
    }
}

/// The computed ranges are disjoint, ascending and contiguous, every one of
/// them but the last is `chunk_size` bytes long, the last is no longer, and
/// their lengths add up to `total_size`.
pub proof fn lemma_chunk_ranges_tile(total_size: u64, chunk_size: u64)
    requires
        chunk_size > 0,
    ensures
        tiles(chunk_ranges(total_size, chunk_size), total_size as int),
        forall|i: int|
            0 <= i < chunk_ranges(total_size, chunk_size).len() - 1 ==> (#[trigger] chunk_ranges(
                total_size,
                chunk_size,
            )[i]).spec_len() == chunk_size,
        forall|i: int|
            0 <= i < chunk_ranges(total_size, chunk_size).len() ==> 1 <= (#[trigger] chunk_ranges(
                total_size,
                chunk_size,
            )[i]).spec_len() <= chunk_size,
{
    let ranges = chunk_ranges(total_size, chunk_size);
    let n = chunk_count(total_size, chunk_size) as int;
    let c = chunk_size as int;
    lemma_chunk_count_bounds(total_size, chunk_size);
    assert forall|i: int| 0 <= i < ranges.len() implies {
        &&& (#[trigger] ranges[i]).start == i * c
        &&& ranges[i].start <= ranges[i].end
        &&& 1 <= ranges[i].spec_len() <= c
        &&& i < n - 1 ==> ranges[i].spec_len() == c && ranges[i].end + 1 == (i + 1) * c
        &&& i == n - 1 ==> ranges[i].end + 1 == total_size
    } by {
        lemma_chunk_at_shape(total_size, chunk_size, i);
    }
    assert forall|i: int, j: int| 0 <= i < j < ranges.len() implies (#[trigger] ranges[i]).end < (
    #[trigger] ranges[j]).start by {
        assert((i + 1) * c <= j * c) by (nonlinear_arith)
            requires
                i + 1 <= j,
                c > 0,
        ;
    }
    if n > 0 {
        assert(0 * c == 0);
    }
    lemma_covered_prefix(total_size, chunk_size, n);
    assert(ranges.take(n) =~= ranges);
}

/// Cuts a resource of `total_size` bytes into ranges of `chunk_size` bytes,
/// the last one shortened to what is left. A resource of no bytes has no
/// ranges.
pub fn split_into_ranges(total_size: u64, chunk_size: u64) -> (ranges: Vec<ByteRange>)
    requires
        chunk_size > 0,
    ensures
        ranges@ == chunk_ranges(total_size, chunk_size),
        tiles(ranges@, total_size as int),
{
    proof {
        lemma_chunk_ranges_tile(total_size, chunk_size);
    }
    let mut ranges: Vec<ByteRange> = Vec::new();
    let mut start: u64 = 0;
    proof {
        lemma_index_in_count(total_size, chunk_size, 0);
        assert(0 * chunk_size == 0);
    }
    while start < total_size
        invariant
            chunk_size > 0,
            start <= total_size,
            ranges@.len() <= chunk_count(total_size, chunk_size),
            start < total_size ==> start == ranges@.len() * chunk_size,
            start == total_size ==> ranges@.len() == chunk_count(total_size, chunk_size),
            ranges@ =~= chunk_ranges(total_size, chunk_size).take(ranges@.len() as int),
        decreases total_size - start,
    {
        let ghost index = ranges@.len() as int;
        let left: u64 = total_size - start;
        proof {
            lemma_index_in_count(total_size, chunk_size, index);
            lemma_index_in_count(total_size, chunk_size, index + 1);
            lemma_chunk_at_shape(total_size, chunk_size, index);
            assert((index + 1) * chunk_size == index * chunk_size + chunk_size) by (nonlinear_arith);
        }
        if left > chunk_size {
            ranges.push(ByteRange { start, end: start + (chunk_size - 1) });
            start = start + chunk_size;
        } else {
            ranges.push(ByteRange { start, end: total_size - 1 });
            start = total_size;
        }
    }
    proof {
        assert(chunk_ranges(total_size, chunk_size).take(ranges@.len() as int) =~= chunk_ranges(
            total_size,
            chunk_size,
        ));
    }
    ranges
}

/// A resource that is no longer than one chunk is fetched as a single
/// range that covers all of it.
pub proof fn lemma_single_range(total_size: u64, chunk_size: u64)
    requires
        0 < total_size <= chunk_size,
    ensures
        chunk_ranges(total_size, chunk_size) =~= seq![
            ByteRange { start: 0, end: (total_size - 1) as u64 },
        ],
{
    lemma_chunk_count_bounds(total_size, chunk_size);
    let n = chunk_count(total_size, chunk_size) as int;
    let c = chunk_size as int;
    assert(n == 1) by (nonlinear_arith)
        requires
            0 < total_size <= c,
            n * c >= total_size,
            (n - 1) * c < total_size,
            n >= 0,
    ;
    lemma_chunk_at_shape(total_size, chunk_size, 0);
    assert(0 * c == 0);
}

/// A resource of two and a half chunks is fetched as two full ranges and
/// one of half a chunk.
pub proof fn lemma_two_and_a_half_chunks(half: u64)
    requires
        0 < half,
        5 * half <= u64::MAX,
    ensures
        chunk_ranges((5 * half) as u64, (2 * half) as u64) =~= seq![
            ByteRange { start: 0, end: (2 * half - 1) as u64 },
            ByteRange { start: (2 * half) as u64, end: (4 * half - 1) as u64 },
            ByteRange { start: (4 * half) as u64, end: (5 * half - 1) as u64 },
        ],
{
    let total = (5 * half) as u64;
    let chunk = (2 * half) as u64;
    lemma_chunk_count_bounds(total, chunk);
    let n = chunk_count(total, chunk) as int;
    let c = chunk as int;
    assert(n == 3) by (nonlinear_arith)
        requires
            c == 2 * half,
            half > 0,
            n * c >= 5 * half,
            (n - 1) * c < 5 * half,
    ;
    lemma_chunk_at_shape(total, chunk, 0);
    lemma_chunk_at_shape(total, chunk, 1);
    lemma_chunk_at_shape(total, chunk, 2);
    assert(0 * c == 0);
    assert(1 * c == c);
    assert(2 * c == c + c);
}

} // verus!
