//! Putting the chunks of a download back together.
//!
//! Chunks come back in whatever order their requests finish. The assembler
//! keeps one slot per planned range and files each chunk under the range it
//! was fetched for, so the order of arrival never shows in the result.

use vstd::prelude::*;
use crate::chunk::ChunkResult;
use crate::error::DownloadError;
use crate::range::{chunk_count, chunk_ranges, split_into_ranges, ByteRange};
use crate::reassembly::{lemma_outcome_length, lemma_settle_all_keeps_valid};

verus! {

/// What there is to do after a result has been settled.
#[derive(Clone, Copy, Debug, PartialEq, Eq, Structural)]
pub enum Progress {
    /// No failure so far, and some ranges still lack their chunk.
    Pending,
    /// Every range has its chunk: the buffer can be taken.
    Complete,
    /// The download has failed: requests still under way can be dropped.
    Failed,
}

/// The state of an assembler as a mathematical value.
pub struct AssemblerState {
    /// Length of the resource.
    pub total_size: u64,
    /// Length of every chunk but the last.
    pub chunk_size: u64,
    /// For each planned range, in order, the bytes filed under it so far.
    pub slots: Seq<Option<Seq<u8>>>,
    /// The first failure that was seen, if any.
    pub failure: Option<DownloadError>,
}

/// The bytes of the filled slots, one after the other in slot order.
pub open spec fn joined(slots: Seq<Option<Seq<u8>>>) -> Seq<u8>
    decreases slots.len(),
{
    if slots.len() == 0 {
        Seq::empty()
    } else {
        joined(slots.drop_last()) + match slots.last() {
            Some(data) => data,
            None => Seq::empty(),
        }
    }
}

/// Number of slots that hold nothing yet.
pub open spec fn vacancies(slots: Seq<Option<Seq<u8>>>) -> nat
    decreases slots.len(),
{
    if slots.len() == 0 {
        0
    } else {
        vacancies(slots.drop_last()) + if slots.last() is None {
            1nat
        } else {
            0nat
        }
    }
}

impl AssemblerState {
    /// The state before any result has come in.
    pub open spec fn initial(total_size: u64, chunk_size: u64) -> AssemblerState {
        AssemblerState {
            total_size,
            chunk_size,
            slots: Seq::new(chunk_count(total_size, chunk_size), |i: int| None),
            failure: None,
        }
    }

    /// The planned ranges.
    pub open spec fn ranges(self) -> Seq<ByteRange> {
        chunk_ranges(self.total_size, self.chunk_size)
    }

    /// There is one slot per planned range, and what a slot holds is as long
    /// as its range.
    pub open spec fn valid(self) -> bool {
        &&& self.chunk_size > 0
        &&& self.slots.len() == self.ranges().len()
        &&& forall|i: int|
            0 <= i < self.slots.len() ==> match #[trigger] self.slots[i] {
                Some(data) => self.ranges()[i].fits(data),
                None => true,
            }
    }

    /// Index of the slot of `range`, if `range` is one of the planned ranges.
    pub open spec fn slot_of(self, range: ByteRange) -> Option<int> {
        let index = range.start as int / self.chunk_size as int;
        if self.chunk_size > 0 && index < self.ranges().len() && self.ranges()[index] == range {
            Some(index)
        } else {
            None
        }
    }

    /// The state with `error` as its failure.
    pub open spec fn failed_with(self, error: DownloadError) -> AssemblerState {
        AssemblerState { failure: Some(error), ..self }
    }

    /// The state after one more result.
    ///
    /// Once a failure is recorded nothing changes any more. Otherwise a
    /// failed request is recorded as the failure, and a chunk is filed
    /// under its range, unless the range was never planned (an assembly
    /// error), the chunk is not as long as its range (a length mismatch), or
    /// the slot is taken already (an assembly error).
    pub open spec fn settle(self, result: Result<ChunkResult, DownloadError>) -> AssemblerState {
        if self.failure is Some {
            self
        } else {
            match result {
                Err(error) => self.failed_with(error),
                Ok(chunk) => match self.slot_of(chunk.range) {
                    None => self.failed_with(DownloadError::Assembly),
                    Some(index) => {
                        if !chunk.range.fits(chunk.data@) {
                            self.failed_with(
                                DownloadError::LengthMismatch {
                                    range: chunk.range,
                                    received: chunk.data@.len() as u64,
                                },
                            )
                        } else if self.slots[index] is Some {
                            self.failed_with(DownloadError::Assembly)
                        } else {
                            AssemblerState {
                                slots: self.slots.update(index, Some(chunk.data@)),
                                ..self
                            }
                        }
                    },
                },
            }
        }
    }

    /// The state after the results of `results`, taken from first to last.
    pub open spec fn settle_all(
        self,
        results: Seq<Result<ChunkResult, DownloadError>>,
    ) -> AssemblerState
        decreases results.len(),
    {
        if results.len() == 0 {
            self
        } else {
            self.settle_all(results.drop_last()).settle(results.last())
        }
    }

    /// Every slot is filled.
    pub open spec fn complete(self) -> bool {
        forall|i: int| 0 <= i < self.slots.len() ==> (#[trigger] self.slots[i]) is Some
    }

    /// What there is to do in this state.
    pub open spec fn progress(self) -> Progress {
        if self.failure is Some {
            Progress::Failed
        } else if self.complete() {
            Progress::Complete
        } else {
            Progress::Pending
        }
    }

    /// What the download comes to in this state: the first failure if there
    /// was one, an assembly error if a range still lacks its chunk, and
    /// otherwise the chunks joined in the order of their ranges.
    pub open spec fn outcome(self) -> Result<Seq<u8>, DownloadError> {
        match self.failure {
            Some(error) => Err(error),
            None => if self.complete() {
                Ok(joined(self.slots))
            } else {
                Err(DownloadError::Assembly)
            },
        }
    }
}

/// A download's result with the buffer taken as a sequence of bytes.
pub open spec fn outcome_view(result: Result<Vec<u8>, DownloadError>) -> Result<
    Seq<u8>,
    DownloadError,
> {
    match result {
        Ok(buffer) => Ok(buffer@),
        Err(error) => Err(error),
    }
}

/// No slot is vacant exactly when every slot is filled.
pub proof fn lemma_vacancies_zero(slots: Seq<Option<Seq<u8>>>)
    ensures
        vacancies(slots) == 0 <==> (forall|i: int|
            0 <= i < slots.len() ==> (#[trigger] slots[i]) is Some),
        vacancies(slots) <= slots.len(),
    decreases slots.len(),
{
    if slots.len() > 0 {
        lemma_vacancies_zero(slots.drop_last());
        if vacancies(slots) == 0 {
            assert forall|i: int| 0 <= i < slots.len() implies (#[trigger] slots[i]) is Some by {
                if i < slots.len() - 1 {
                    assert(slots.drop_last()[i] == slots[i]);
                }
            }
        } else if slots.last() is Some {
            let prefix = slots.drop_last();
            let i = choose|i: int| 0 <= i < prefix.len() && !((#[trigger] prefix[i]) is Some);
            assert(slots[i] == prefix[i]);
        }
    }
}

/// Filling a vacant slot leaves one vacancy less.
pub proof fn lemma_vacancies_fill(slots: Seq<Option<Seq<u8>>>, index: int, data: Seq<u8>)
    requires
        0 <= index < slots.len(),
        slots[index] is None,
    ensures
        vacancies(slots.update(index, Some(data))) == vacancies(slots) - 1,
    decreases slots.len(),
{
    let filled = slots.update(index, Some(data));
    if index == slots.len() - 1 {
        assert(filled.drop_last() =~= slots.drop_last());
    } else {
        lemma_vacancies_fill(slots.drop_last(), index, data);
        assert(filled.drop_last() =~= slots.drop_last().update(index, Some(data)));
    }
}

/// Slots that are all vacant count as many vacancies as there are slots.
pub proof fn lemma_vacancies_initial(count: nat)
    ensures
        vacancies(Seq::new(count, |i: int| None::<Seq<u8>>)) == count,
    decreases count,
{
    if count > 0 {
        lemma_vacancies_initial((count - 1) as nat);
        assert(Seq::new(count, |i: int| None::<Seq<u8>>).drop_last() =~= Seq::new(
            (count - 1) as nat,
            |i: int| None::<Seq<u8>>,
        ));
    }
}

/// The slots of an assembler: the chunks of a download, filed by range.
pub struct Assembler {
    total_size: u64,
    chunk_size: u64,
    ranges: Vec<ByteRange>,
    slots: Vec<Option<Vec<u8>>>,
    vacant: usize,
    failure: Option<DownloadError>,
}

/// The slots as sequences of bytes.
pub open spec fn slots_view(slots: Seq<Option<Vec<u8>>>) -> Seq<Option<Seq<u8>>> {
    Seq::new(
        slots.len(),
        |i: int|
            match slots[i] {
                Some(data) => Some(data@),
                None => None,
            },
    )
}

impl View for Assembler {
    type V = AssemblerState;

    closed spec fn view(&self) -> AssemblerState {
        AssemblerState {
            total_size: self.total_size,
            chunk_size: self.chunk_size,
            slots: slots_view(self.slots@),
            failure: self.failure,
        }
    }
}

impl Assembler {
    /// The assembler holds the plan for its sizes and one slot per range of
    /// the plan, and its state is valid.
    pub closed spec fn wf(&self) -> bool {
        &&& self.ranges@ == chunk_ranges(self.total_size, self.chunk_size)
        &&& self.vacant == vacancies(self@.slots)
        &&& self@.valid()
    }

    /// The state of a well-formed assembler is valid.
    pub proof fn lemma_wf_is_valid(&self)
        requires
            self.wf(),
        ensures
            self@.valid(),
    {
    }

    /// An assembler for a resource of `total_size` bytes that is fetched in
    /// chunks of `chunk_size` bytes. No chunk has come in yet.
    pub fn new(total_size: u64, chunk_size: u64) -> (assembler: Assembler)
        requires
            chunk_size > 0,
        ensures
            assembler.wf(),
            assembler@ == AssemblerState::initial(total_size, chunk_size),
    {
        let ranges = split_into_ranges(total_size, chunk_size);
        let mut slots: Vec<Option<Vec<u8>>> = Vec::new();
        while slots.len() < ranges.len()
            invariant
                slots@.len() <= ranges@.len(),
                forall|i: int| 0 <= i < slots@.len() ==> slots@[i] is None,
            decreases ranges@.len() - slots@.len(),
        {
            slots.push(None);
        }
        let vacant = slots.len();
        let assembler = Assembler { total_size, chunk_size, ranges, slots, vacant, failure: None };
        proof {
            assert(assembler@.slots =~= AssemblerState::initial(total_size, chunk_size).slots);
            lemma_vacancies_initial(chunk_count(total_size, chunk_size));
        }
        assembler
    }

    /// The planned ranges, in ascending order: one request is due for each.
    pub fn ranges(&self) -> (ranges: &Vec<ByteRange>)
        requires
            self.wf(),
        ensures
            ranges@ == self@.ranges(),
    {
        &self.ranges
    }

    /// What there is to do now.
    pub fn progress(&self) -> (progress: Progress)
        requires
            self.wf(),
        ensures
            progress == self@.progress(),
    {
        proof {
            lemma_vacancies_zero(self@.slots);
        }
        if self.failure.is_some() {
            Progress::Failed
        } else if self.vacant == 0 {
            Progress::Complete
        } else {
            Progress::Pending
        }
    }

    /// Takes in the result of one request, in whatever order the requests
    /// finish, and tells what there is to do next.
    pub fn settle(&mut self, result: Result<ChunkResult, DownloadError>) -> (progress: Progress)
        requires
            old(self).wf(),
        ensures
            final(self).wf(),
            final(self)@ == old(self)@.settle(result),
            progress == final(self)@.progress(),
    {
        if self.failure.is_none() {
            match result {
                Err(error) => {
                    self.failure = Some(error);
                },
                Ok(chunk) => {
                    let range = chunk.range;
                    let index = range.start / self.chunk_size;
                    let count = self.ranges.len();
                    if index >= count as u64 || self.ranges[index as usize] != range {
                        self.failure = Some(DownloadError::Assembly);
                    } else if !range.holds(chunk.data.len()) {
                        self.failure = Some(
                            DownloadError::LengthMismatch {
                                range,
                                received: chunk.data.len() as u64,
                            },
                        );
                    } else if self.slots[index as usize].is_some() {
                        self.failure = Some(DownloadError::Assembly);
                    } else {
                        proof {
                            lemma_vacancies_fill(old(self)@.slots, index as int, chunk.data@);
                            lemma_vacancies_zero(old(self)@.slots);
                        }
                        self.slots.set(index as usize, Some(chunk.data));
                        self.vacant = self.vacant - 1;
                        assert(self@.slots =~= old(self)@.slots.update(
                            index as int,
                            Some(chunk.data@),
                        ));
                    }
                },
            }
        }
        self.progress()
    }

    /// Ends the download: the buffer if every range has its chunk and
    /// nothing has failed, and the error otherwise.
    pub fn finish(self) -> (result: Result<Vec<u8>, DownloadError>)
        requires
            self.wf(),
        ensures
            outcome_view(result) == self@.outcome(),
            result matches Ok(buffer) ==> buffer@.len() == self@.total_size,
    {
        proof {
            lemma_vacancies_zero(self@.slots);
            lemma_outcome_length(self@);
        }
        if let Some(error) = self.failure {
            return Err(error);
        }
        if self.vacant != 0 {
            return Err(DownloadError::Assembly);
        }
        let ghost state = self@;
        let mut slots = self.slots;
        let mut buffer: Vec<u8> = Vec::new();
        let mut index: usize = 0;
        assert(state.slots.take(0) =~= Seq::empty());
        while index < slots.len()
            invariant
                index <= slots@.len(),
                slots@.len() == state.slots.len(),
                forall|i: int| index <= i < slots@.len() ==> slots_view(slots@)[i] == state.slots[i],
                buffer@ == joined(state.slots.take(index as int)),
            decreases slots@.len() - index,
        {
            let ghost before = slots@;
            let mut piece: Option<Vec<u8>> = None;
            slots.set_and_swap(index, &mut piece);
            proof {
                assert(slots_view(before)[index as int] == state.slots[index as int]);
                assert forall|i: int| index < i < slots@.len() implies slots_view(slots@)[i]
                    == state.slots[i] by {
                    assert(slots_view(before)[i] == state.slots[i]);
                }
                assert(state.slots.take(index + 1).drop_last() =~= state.slots.take(index as int));
            }
            if let Some(mut data) = piece {
                buffer.append(&mut data);
            }
            index = index + 1;
        }
        assert(state.slots.take(index as int) =~= state.slots);
        Ok(buffer)
    }
}

/// Puts a download together from the results of its requests, given in
/// the order in which the requests finished: the buffer of `total_size`
/// bytes if every planned range has exactly one chunk among them and none
/// has failed, and otherwise the first failure that shows when the results
/// are taken in turn.
pub fn assemble(
    total_size: u64,
    chunk_size: u64,
    results: Vec<Result<ChunkResult, DownloadError>>,
) -> (result: Result<Vec<u8>, DownloadError>)
    requires
        chunk_size > 0,
    ensures
        outcome_view(result) == AssemblerState::initial(total_size, chunk_size).settle_all(
            results@,
        ).outcome(),
        result matches Ok(buffer) ==> buffer@.len() == total_size,
{
    let mut assembler = Assembler::new(total_size, chunk_size);
    let ghost start = assembler@;
    proof {
        assembler.lemma_wf_is_valid();
        lemma_settle_all_keeps_valid(start, results@);
    }
    assert(results@.take(0) =~= Seq::empty());
    for settled in it: results
        invariant
            assembler.wf(),
            it.seq() == results@,
            assembler@ == start.settle_all(results@.take(it.index() as int)),
    {
        proof {
            let next = it.index() + 1;
            assert(results@.take(next).drop_last() =~= results@.take(it.index() as int));
        }
        assembler.settle(settled);
    }
    assert(results@.take(results@.len() as int) =~= results@);
    assembler.finish()
}

} // verus!
