//! What holds of every download: the buffer has the length of the resource,
//! a failed request fails the download, and the order in which the chunks
//! arrive leaves no trace in the buffer.

use vstd::prelude::*;
use vstd::set_lib::{lemma_int_range, lemma_subset_equality, set_int_range};
use crate::assembly::{joined, AssemblerState};
use crate::chunk::ChunkResult;
use crate::error::DownloadError;
use crate::range::{
    chunk_count,
    chunk_ranges,
    lemma_chunk_at_shape,
    lemma_chunk_count_bounds,
    ByteRange,
};

verus! {

/// The bytes of `source` that `range` covers.
pub open spec fn slice_of(source: Seq<u8>, range: ByteRange) -> Seq<u8> {
    source.subrange(range.start as int, range.end + 1)
}

/// Whether `result` is a chunk that `state` can file: its range is planned
/// and its data is as long as the range.
pub open spec fn acceptable(state: AssemblerState, result: Result<ChunkResult, DownloadError>) -> bool {
    match result {
        Ok(chunk) => state.slot_of(chunk.range) is Some && chunk.range.fits(chunk.data@),
        Err(_) => false,
    }
}

/// Every planned range is found in its own slot.
pub proof fn lemma_slot_of_planned(state: AssemblerState, index: int)
    requires
        state.chunk_size > 0,
        0 <= index < state.ranges().len(),
    ensures
        state.slot_of(state.ranges()[index]) == Some(index),
{
    lemma_chunk_at_shape(state.total_size, state.chunk_size, index);
    let c = state.chunk_size as int;
    assert((index * c) / c == index) by (nonlinear_arith)
        requires
            c > 0,
    ;
}

/// Settling a result keeps a valid state valid, and leaves the sizes and
/// the number of slots as they were.
pub proof fn lemma_settle_keeps_valid(
    state: AssemblerState,
    result: Result<ChunkResult, DownloadError>,
)
    requires
        state.valid(),
    ensures
        state.settle(result).valid(),
        state.settle(result).total_size == state.total_size,
        state.settle(result).chunk_size == state.chunk_size,
{
}

/// Settling any number of results keeps a valid state valid, and leaves
/// the sizes as they were.
pub proof fn lemma_settle_all_keeps_valid(
    state: AssemblerState,
    results: Seq<Result<ChunkResult, DownloadError>>,
)
    requires
        state.valid(),
    ensures
        state.settle_all(results).valid(),
        state.settle_all(results).total_size == state.total_size,
        state.settle_all(results).chunk_size == state.chunk_size,
    decreases results.len(),
{
    if results.len() > 0 {
        lemma_settle_all_keeps_valid(state, results.drop_last());
        lemma_settle_keeps_valid(state.settle_all(results.drop_last()), results.last());
    }
}

/// The first failure stays: once a state has failed, no later result
/// changes it.
pub proof fn lemma_failure_is_final(
    state: AssemblerState,
    results: Seq<Result<ChunkResult, DownloadError>>,
)
    requires
        state.failure is Some,
    ensures
        state.settle_all(results) == state,
    decreases results.len(),
{
    if results.len() > 0 {
        lemma_failure_is_final(state, results.drop_last());
    }
}

/// Settling two runs of results one after the other is settling them as one
/// run.
pub proof fn lemma_settle_all_concat(
    state: AssemblerState,
    first: Seq<Result<ChunkResult, DownloadError>>,
    second: Seq<Result<ChunkResult, DownloadError>>,
)
    ensures
        state.settle_all(first + second) == state.settle_all(first).settle_all(second),
    decreases second.len(),
{
    if second.len() == 0 {
        assert(first + second =~= first);
    } else {
        lemma_settle_all_concat(state, first, second.drop_last());
        assert((first + second).drop_last() =~= first + second.drop_last());
        assert((first + second).last() == second.last());
    }
}

/// A result that is a failure, or a chunk that cannot be filed, leaves the
/// state failed.
pub proof fn lemma_rejected_result_fails(
    state: AssemblerState,
    result: Result<ChunkResult, DownloadError>,
)
    requires
        !acceptable(state, result),
    ensures
        state.settle(result).failure is Some,
{
}

/// If the request for any one chunk fails, or brings a number of bytes
/// that is not the length of its range, the download ends in an error,
/// whatever the other requests brought and in whatever order they finished.
pub proof fn lemma_failed_chunk_fails_download(
    total_size: u64,
    chunk_size: u64,
    results: Seq<Result<ChunkResult, DownloadError>>,
    failed: int,
)
    requires
        chunk_size > 0,
        0 <= failed < results.len(),
        !acceptable(AssemblerState::initial(total_size, chunk_size), results[failed]),
    ensures
        AssemblerState::initial(total_size, chunk_size).settle_all(results).outcome() is Err,
{
    let start = AssemblerState::initial(total_size, chunk_size);
    let before = results.take(failed);
    let upto = results.take(failed + 1);
    let after = results.skip(failed + 1);
    assert(upto.drop_last() =~= before);
    assert(upto.last() == results[failed]);
    assert(upto + after =~= results);
    lemma_settle_all_keeps_valid(start, before);
    let reached = start.settle_all(before);
    assert(reached.slot_of(results[failed]->Ok_0.range) == start.slot_of(
        results[failed]->Ok_0.range,
    ));
    lemma_rejected_result_fails(reached, results[failed]);
    lemma_failure_is_final(start.settle_all(upto), after);
    lemma_settle_all_concat(start, upto, after);
}

/// The joined bytes of slots that are all filled are as many as their
/// ranges cover.
pub proof fn lemma_joined_length(state: AssemblerState, count: int)
    requires
        state.valid(),
        state.complete(),
        0 <= count <= state.slots.len(),
    ensures
        joined(state.slots.take(count)).len() == if count < state.slots.len() {
            count * state.chunk_size
        } else {
            state.total_size as int
        },
    decreases count,
{
    let c = state.chunk_size as int;
    if count == 0 {
        lemma_chunk_count_bounds(state.total_size, state.chunk_size);
        assert(0 * c == 0);
    } else {
        lemma_joined_length(state, count - 1);
        lemma_chunk_at_shape(state.total_size, state.chunk_size, count - 1);
        assert(state.slots.take(count).drop_last() =~= state.slots.take(count - 1));
        assert(state.slots.take(count).last() == state.slots[count - 1]);
        assert(state.slots[count - 1] is Some);
        assert(state.ranges()[count - 1].fits(state.slots[count - 1]->Some_0));
        assert((count - 1) * c + c == count * c) by (nonlinear_arith);
    }
}

/// A download never succeeds with a buffer of the wrong length: the buffer
/// is as long as the resource.
pub proof fn lemma_outcome_length(state: AssemblerState)
    requires
        state.valid(),
    ensures
        state.outcome() matches Ok(buffer) ==> buffer.len() == state.total_size,
{
    if state.outcome() is Ok {
        lemma_joined_length(state, state.slots.len() as int);
        assert(state.slots.take(state.slots.len() as int) =~= state.slots);
    }
}

/// Whatever results are settled, in whatever order, a buffer that comes
/// out is as long as the resource.
pub proof fn lemma_download_length(
    total_size: u64,
    chunk_size: u64,
    results: Seq<Result<ChunkResult, DownloadError>>,
)
    requires
        chunk_size > 0,
    ensures
        AssemblerState::initial(total_size, chunk_size).settle_all(results).outcome() matches Ok(
            buffer,
        ) ==> buffer.len() == total_size,
{
    let start = AssemblerState::initial(total_size, chunk_size);
    lemma_settle_all_keeps_valid(start, results);
    lemma_outcome_length(start.settle_all(results));
}

/// A resource of no bytes needs no request: the download is complete from
/// the start, and its buffer is empty.
pub proof fn lemma_empty_resource(chunk_size: u64)
    requires
        chunk_size > 0,
    ensures
        chunk_ranges(0, chunk_size) =~= Seq::<ByteRange>::empty(),
        AssemblerState::initial(0, chunk_size).outcome() == Ok::<Seq<u8>, DownloadError>(
            Seq::empty(),
        ),
{
    lemma_chunk_count_bounds(0, chunk_size);
}

/// Slots that hold the bytes of their ranges join to the bytes of the
/// resource up to the range that comes next.
pub proof fn lemma_joined_prefix(state: AssemblerState, source: Seq<u8>, count: int)
    requires
        state.chunk_size > 0,
        source.len() == state.total_size,
        state.slots.len() == state.ranges().len(),
        0 <= count <= state.slots.len(),
        forall|i: int|
            0 <= i < state.slots.len() ==> #[trigger] state.slots[i] == Some(
                slice_of(source, state.ranges()[i]),
            ),
    ensures
        joined(state.slots.take(count)) == source.subrange(
            0,
            if count < state.slots.len() {
                count * state.chunk_size
            } else {
                state.total_size as int
            },
        ),
    decreases count,
{
    let c = state.chunk_size as int;
    if count == 0 {
        lemma_chunk_count_bounds(state.total_size, state.chunk_size);
        assert(0 * c == 0);
        assert(joined(state.slots.take(0)) =~= source.subrange(0, 0));
    } else {
        lemma_joined_prefix(state, source, count - 1);
        lemma_chunk_at_shape(state.total_size, state.chunk_size, count - 1);
        assert(state.slots.take(count).drop_last() =~= state.slots.take(count - 1));
        assert(state.slots.take(count).last() == state.slots[count - 1]);
        assert((count - 1) * c + c == count * c) by (nonlinear_arith);
        let stop = if count < state.slots.len() {
            count * c
        } else {
            state.total_size as int
        };
        let range = state.ranges()[count - 1];
        assert(range.start == (count - 1) * c);
        assert(range.end + 1 == stop);
        assert(source.subrange(0, range.start as int) + slice_of(source, range) =~= source.subrange(
            0,
            stop,
        ));
    }
}

/// Chunks that each hold the bytes of their own range join to the
/// resource, byte for byte.
pub proof fn lemma_joined_is_source(state: AssemblerState, source: Seq<u8>)
    requires
        state.chunk_size > 0,
        source.len() == state.total_size,
        state.slots.len() == state.ranges().len(),
        forall|i: int|
            0 <= i < state.slots.len() ==> #[trigger] state.slots[i] == Some(
                slice_of(source, state.ranges()[i]),
            ),
    ensures
        joined(state.slots) == source,
{
    lemma_joined_prefix(state, source, state.slots.len() as int);
    assert(state.slots.take(state.slots.len() as int) =~= state.slots);
    assert(source.subrange(0, source.len() as int) =~= source);
}

/// `order` names every index below `count` exactly once.
pub open spec fn is_arrival_order(order: Seq<int>, count: int) -> bool {
    &&& order.len() == count
    &&& forall|k: int| 0 <= k < order.len() ==> 0 <= #[trigger] order[k] < count
    &&& order.no_duplicates()
}

/// An arrival order leaves no index out.
pub proof fn lemma_arrival_order_covers(order: Seq<int>, count: int, index: int)
    requires
        is_arrival_order(order, count),
        0 <= index < count,
    ensures
        exists|k: int| 0 <= k < order.len() && order[k] == index,
{
    broadcast use vstd::seq_lib::seq_to_set_is_finite;

    let named = order.to_set();
    let all = set_int_range(0, count);
    order.unique_seq_to_set();
    lemma_int_range(0, count);
    assert(named.subset_of(all)) by {
        assert forall|value: int| named.contains(value) implies all.contains(value) by {
            let k = choose|k: int| 0 <= k < order.len() && order[k] == value;
            assert(0 <= order[k] < count);
        }
    }
    lemma_subset_equality(named, all);
    assert(all.contains(index));
    assert(named.contains(index));
}

/// What the slots hold after the first `arrived` chunks of an arrival
/// order: the bytes of its range in every slot whose chunk has come, and
/// nothing in the others.
pub open spec fn slots_after(
    ranges: Seq<ByteRange>,
    source: Seq<u8>,
    order: Seq<int>,
    arrived: int,
) -> Seq<Option<Seq<u8>>> {
    Seq::new(
        ranges.len(),
        |i: int|
            if exists|k: int| 0 <= k < arrived && order[k] == i {
                Some(slice_of(source, ranges[i]))
            } else {
                None
            },
    )
}

/// After the first `arrived` chunks of an arrival order nothing has
/// failed, and the slots hold what `slots_after` says.
pub proof fn lemma_arrivals_fill_slots(
    total_size: u64,
    chunk_size: u64,
    source: Seq<u8>,
    order: Seq<int>,
    results: Seq<Result<ChunkResult, DownloadError>>,
    arrived: int,
)
    requires
        chunk_size > 0,
        source.len() == total_size,
        is_arrival_order(order, chunk_count(total_size, chunk_size) as int),
        results.len() == order.len(),
        forall|k: int|
            0 <= k < results.len() ==> (#[trigger] results[k] matches Ok(chunk) && chunk.range
                == chunk_ranges(total_size, chunk_size)[order[k]] && chunk.data@ == slice_of(
                source,
                chunk.range,
            )),
        0 <= arrived <= results.len(),
    ensures
        ({
            let state = AssemblerState::initial(total_size, chunk_size).settle_all(
                results.take(arrived),
            );
            &&& state.failure is None
            &&& state.total_size == total_size
            &&& state.chunk_size == chunk_size
            &&& state.slots == slots_after(
                chunk_ranges(total_size, chunk_size),
                source,
                order,
                arrived,
            )
        }),
    decreases arrived,
{
    let start = AssemblerState::initial(total_size, chunk_size);
    let ranges = chunk_ranges(total_size, chunk_size);
    if arrived == 0 {
        assert(results.take(0) =~= Seq::empty());
        assert(start.slots =~= slots_after(ranges, source, order, 0));
    } else {
        lemma_arrivals_fill_slots(total_size, chunk_size, source, order, results, arrived - 1);
        let before = start.settle_all(results.take(arrived - 1));
        assert(results.take(arrived).drop_last() =~= results.take(arrived - 1));
        assert(results.take(arrived).last() == results[arrived - 1]);
        let chunk = results[arrived - 1]->Ok_0;
        let index = order[arrived - 1];
        assert(0 <= index < ranges.len());
        lemma_slot_of_planned(before, index);
        lemma_chunk_at_shape(total_size, chunk_size, index);
        assert(chunk.range.fits(chunk.data@));
        assert(before.slots[index] is None) by {
            if exists|k: int| 0 <= k < arrived - 1 && order[k] == index {
                let k = choose|k: int| 0 <= k < arrived - 1 && order[k] == index;
                assert(order[k] == order[arrived - 1]);
            }
        }
        let after = before.settle(results[arrived - 1]);
        assert(after.slots =~= slots_after(ranges, source, order, arrived)) by {
            assert forall|i: int| 0 <= i < ranges.len() implies after.slots[i] == slots_after(
                ranges,
                source,
                order,
                arrived,
            )[i] by {
                if i == index {
                    assert(0 <= arrived - 1 < arrived && order[arrived - 1] == i);
                } else {
                    if exists|k: int| 0 <= k < arrived && order[k] == i {
                        let k = choose|k: int| 0 <= k < arrived && order[k] == i;
                        assert(0 <= k < arrived - 1 && order[k] == i);
                    }
                }
            }
        }
    }
}

/// The buffer is the resource, byte for byte, in whatever order the chunks
/// arrive: if every planned range has its chunk among the results exactly
/// once, and every chunk holds the bytes of `source` that its range
/// covers, the download yields `source`.
pub proof fn lemma_any_order_yields_source(
    total_size: u64,
    chunk_size: u64,
    source: Seq<u8>,
    order: Seq<int>,
    results: Seq<Result<ChunkResult, DownloadError>>,
)
    requires
        chunk_size > 0,
        source.len() == total_size,
        is_arrival_order(order, chunk_count(total_size, chunk_size) as int),
        results.len() == order.len(),
        forall|k: int|
            0 <= k < results.len() ==> (#[trigger] results[k] matches Ok(chunk) && chunk.range
                == chunk_ranges(total_size, chunk_size)[order[k]] && chunk.data@ == slice_of(
                source,
                chunk.range,
            )),
    ensures
        AssemblerState::initial(total_size, chunk_size).settle_all(results).outcome() == Ok::<
            Seq<u8>,
            DownloadError,
        >(source),
{
    let count = results.len() as int;
    let ranges = chunk_ranges(total_size, chunk_size);
    lemma_arrivals_fill_slots(total_size, chunk_size, source, order, results, count);
    assert(results.take(count) =~= results);
    let state = AssemblerState::initial(total_size, chunk_size).settle_all(results);
    assert forall|i: int| 0 <= i < state.slots.len() implies #[trigger] state.slots[i] == Some(
        slice_of(source, state.ranges()[i]),
    ) by {
        lemma_arrival_order_covers(order, count, i);
    }
    lemma_joined_is_source(state, source);
}

} // verus!
