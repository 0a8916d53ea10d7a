//! Sampling the records of a file: which part of it to go to and to read next.
//!
//! [`read_samples`] starts the reading and says what to do first. The caller does it, tells
//! [`SampleReader::advance`] what came of it, and gets the next thing to do.

use vstd::prelude::*;

verus! {

/// What to do with the file next.
#[derive(Clone, Copy, Debug, PartialEq, Eq, Structural)]
pub enum ReadAction {
    /// Go to a position, counted in bytes from the start of the file.
    SeekTo { position: u64 },
    /// Read one record.
    ReadRecord,
    /// Go forward by so many bytes.
    SkipForward { bytes: i64 },
    /// The sample is complete.
    Finish,
}

/// What came of it.
#[derive(Clone, Copy, Debug, PartialEq, Eq, Structural)]
pub enum ReadEvent {
    /// The position has changed.
    Moved,
    /// A record was read.
    Record,
    /// The file ended before the record did.
    EndOfFile,
}

/// What the reader waits for.
#[derive(Clone, Copy, Debug, PartialEq, Eq, Structural)]
pub enum ReadStage {
    /// A change of position.
    Moving,
    /// A record or the end of the file.
    Reading,
    /// Nothing.
    Done,
}

/// The progress of a sample through a file.
#[derive(Clone, Copy, Debug)]
pub struct SampleReader {
    /// The length of a record in bytes.
    pub record: u64,
    /// The record to start with.
    pub offset: u64,
    /// One in so many records is read.
    pub stride: u64,
    /// The largest number of records to read.
    pub max: usize,
    /// The number of records that were read.
    pub taken: usize,
    /// What the reader waits for.
    pub stage: ReadStage,
}

/// How far to go forward after a record, held to what one step can cover.
pub open spec fn skip_bytes(stride: u64, record: u64) -> int {
    if (stride - 1) * record <= i64::MAX {
        (stride - 1) * record
    } else {
        i64::MAX as int
    }
}

/// How the sampling of a file of `file_len` bytes starts.
pub open spec fn started(file_len: u64, record: u64, offset: u64, stride: u64, max: usize) -> (
    SampleReader,
    ReadAction,
) {
    let reader = SampleReader {
        record,
        offset,
        stride,
        max,
        taken: 0,
        stage: ReadStage::Moving,
    };
    if offset >= file_len / record {
        (SampleReader { stage: ReadStage::Done, ..reader }, ReadAction::Finish)
    } else {
        (reader, ReadAction::SeekTo { position: (offset * record) as u64 })
    }
}

impl SampleReader {
    /// No more records were read than are wanted.
    pub open spec fn wf(&self) -> bool {
        &&& self.taken <= self.max
        &&& self.stage == ReadStage::Reading ==> self.taken < self.max
    }

    /// The reader waits for such an event.
    pub open spec fn expects(&self, event: ReadEvent) -> bool {
        match event {
            ReadEvent::Moved => self.stage == ReadStage::Moving,
            ReadEvent::Record | ReadEvent::EndOfFile => self.stage == ReadStage::Reading,
        }
    }

    /// The next record is read, unless there are enough.
    pub open spec fn ready(self) -> (SampleReader, ReadAction) {
        if self.taken < self.max {
            (SampleReader { stage: ReadStage::Reading, ..self }, ReadAction::ReadRecord)
        } else {
            (SampleReader { stage: ReadStage::Done, ..self }, ReadAction::Finish)
        }
    }

    /// What follows an event.
    pub open spec fn after(self, event: ReadEvent) -> (SampleReader, ReadAction) {
        match event {
            ReadEvent::Moved => self.ready(),
            ReadEvent::Record => {
                let counted = SampleReader { taken: (self.taken + 1) as usize, ..self };
                if self.stride > 1 {
                    (
                        SampleReader { stage: ReadStage::Moving, ..counted },
                        ReadAction::SkipForward {
                            bytes: skip_bytes(self.stride, self.record) as i64,
                        },
                    )
                } else {
                    counted.ready()
                }
            },
            ReadEvent::EndOfFile => (
                SampleReader { stage: ReadStage::Done, ..self },
                ReadAction::Finish,
            ),
        }
    }

    /// Goes on to the next record, unless there are enough.
    fn go_on(&mut self) -> (r: ReadAction)
        requires
            old(self).taken <= old(self).max,
        ensures
            (*final(self), r) == old(self).ready(),
            final(self).wf(),
    {
        if self.taken < self.max {
            self.stage = ReadStage::Reading;
            ReadAction::ReadRecord
        } else {
            self.stage = ReadStage::Done;
            ReadAction::Finish
        }
    }

    /// Takes in what came of the last action, and says what to do next.
    pub fn advance(&mut self, event: ReadEvent) -> (r: ReadAction)
        requires
            old(self).wf(),
            old(self).expects(event),
        ensures
            (*final(self), r) == old(self).after(event),
            final(self).wf(),
    {
        match event {
            ReadEvent::Moved => self.go_on(),
            ReadEvent::Record => {
                self.taken = self.taken + 1;
                if self.stride > 1 {
                    self.stage = ReadStage::Moving;
                    let bytes: i64 = match (self.stride - 1).checked_mul(self.record) {
                        Some(b) => if b <= 0x7FFF_FFFF_FFFF_FFFF {
                            b as i64
                        } else {
                            i64::MAX
                        },
                        None => i64::MAX,
                    };
                    ReadAction::SkipForward { bytes }
                } else {
                    self.go_on()
                }
            },
            ReadEvent::EndOfFile => {
                self.stage = ReadStage::Done;
                ReadAction::Finish
            },
        }
    }
}

/// Starts to sample a file of `file_len` bytes: at most `max` records of `record` bytes each, one
/// in `stride`, from the record `offset` on.
pub fn read_samples(file_len: u64, record: u64, offset: u64, stride: u64, max: usize) -> (r: (
    SampleReader,
    ReadAction,
))
    requires
        record > 0,
    ensures
        r == started(file_len, record, offset, stride, max),
        r.0.wf(),
{
    let mut reader = SampleReader {
        record,
        offset,
        stride,
        max,
        taken: 0,
        stage: ReadStage::Moving,
    };
    let total: u64 = file_len / record;
    if offset >= total {
        reader.stage = ReadStage::Done;
        return (reader, ReadAction::Finish);
    }
    assert(offset * record <= file_len) by (nonlinear_arith)
        requires
            offset < file_len / record,
            record > 0,
    ;
    (reader, ReadAction::SeekTo { position: offset * record })
}

/// Where a file of `len` bytes stands after an action at `position`.
pub open spec fn moved(action: ReadAction, position: int, record: u64) -> int {
    match action {
        ReadAction::SeekTo { position: to } => to as int,
        ReadAction::ReadRecord => position + record,
        ReadAction::SkipForward { bytes } => position + bytes,
        ReadAction::Finish => position,
    }
}

/// What comes of an action on a file of `len` bytes that stands at `position`.
pub open spec fn outcome(action: ReadAction, position: int, record: u64, len: int) -> ReadEvent {
    if action != ReadAction::ReadRecord {
        ReadEvent::Moved
    } else if position + record <= len {
        ReadEvent::Record
    } else {
        ReadEvent::EndOfFile
    }
}

/// Where in a file of `len` bytes the records start that are read from here on.
pub open spec fn places(reader: SampleReader, action: ReadAction, position: int, len: int) -> Seq<
    int,
>
    decreases
            reader.max - reader.taken,
            if reader.stage == ReadStage::Moving {
                2int
            } else if reader.stage == ReadStage::Reading {
                1
            } else {
                0
            },
    when reader.wf() && (action == ReadAction::Finish || reader.expects(
        outcome(action, position, reader.record, len),
    ))
{
    if action == ReadAction::Finish {
        seq![]
    } else {
        let event = outcome(action, position, reader.record, len);
        let (next, then) = reader.after(event);
        let here = if event == ReadEvent::Record {
            seq![position]
        } else {
            seq![]
        };
        here + places(next, then, moved(action, position, reader.record), len)
    }
}

/// How many of the records `first`, `first + stride`, and so on come before the record `total`.
pub open spec fn available(first: int, stride: u64, total: int) -> nat {
    if first >= total {
        0
    } else {
        ((total - first - 1) / (stride as int) + 1) as nat
    }
}

/// Where the first `count` of the records `first`, `first + stride`, and so on start.
pub open spec fn every_nth(first: int, stride: u64, record: u64, count: nat) -> Seq<int> {
    Seq::new(count, |k: int| (first + k * stride) * record)
}

/// The smaller of two counts.
pub open spec fn fewer(a: nat, b: nat) -> nat {
    if a < b {
        a
    } else {
        b
    }
}

/// One record further there is one record less.
proof fn lemma_available(first: int, stride: u64, total: int)
    requires
        0 <= first < total,
        stride > 0,
    ensures
        available(first, stride, total) == 1 + available(first + stride, stride, total),
{
    let rest = total - first - 1;
    let n = stride as int;
    if first + n >= total {
        assert(rest / n == 0) by (nonlinear_arith)
            requires
                0 <= rest < n,
        ;
    } else {
        vstd::arithmetic::div_mod::lemma_div_plus_one(rest - n, n);
    }
}

/// A record is there whole if it is one of those that the length counts.
proof fn lemma_record_is_there(first: int, record: u64, len: int)
    requires
        first >= 0,
        record > 0,
        len >= 0,
    ensures
        first * record + record <= len <==> first < len / (record as int),
{
    let r = record as int;
    vstd::arithmetic::div_mod::lemma_fundamental_div_mod(len, r);
    let q = len / r;
    let m = len % r;
    assert(first * r + r <= len <==> first < q) by (nonlinear_arith)
        requires
            len == r * q + m,
            0 <= m < r,
            r > 0,
    ;
}

/// A step that is too long to take at once leads past every record of a file.
proof fn lemma_step_past_the_end(stride: u64, record: u64, len: int)
    requires
        record > 0,
        0 <= len <= i64::MAX,
        (stride - 1) * record > i64::MAX,
    ensures
        stride > 1,
        stride >= len / (record as int),
{
    let r = record as int;
    vstd::arithmetic::div_mod::lemma_fundamental_div_mod(len, r);
    let q = len / r;
    let m = len % r;
    let n = stride as int;
    assert(n >= q && n > 1) by (nonlinear_arith)
        requires
            len == r * q + m,
            0 <= m,
            r > 0,
            n >= 0,
            len >= 0,
            (n - 1) * r > len,
    ;
}

/// After such a step nothing more is read.
proof fn lemma_nothing_behind(moving: SampleReader, position: int, len: int)
    requires
        moving.wf(),
        moving.stage == ReadStage::Moving,
        moving.record > 0,
        position >= 0,
        len <= i64::MAX,
    ensures
        places(moving, ReadAction::SkipForward { bytes: i64::MAX }, position, len) == Seq::<
            int,
        >::empty(),
{
    let skip = ReadAction::SkipForward { bytes: i64::MAX };
    let (next, then) = moving.after(ReadEvent::Moved);
    let behind = position + i64::MAX;
    assert(outcome(skip, position, moving.record, len) == ReadEvent::Moved);
    if moving.taken < moving.max {
        assert(outcome(then, behind, moving.record, len) == ReadEvent::EndOfFile);
        let (last, stop) = next.after(ReadEvent::EndOfFile);
        assert(places(last, stop, behind + moving.record, len) =~= seq![]);
    }
    assert(places(next, then, behind, len) =~= seq![]);
    assert(places(moving, skip, position, len) =~= seq![]);
}

/// From the record `first` on, every `stride`-th one is read.
proof fn lemma_places(reader: SampleReader, first: int, len: int)
    requires
        reader.taken <= reader.max,
        reader.record > 0,
        reader.stride > 0,
        (reader.stride - 1) * reader.record <= i64::MAX || len <= i64::MAX,
        first >= 0,
        len >= 0,
    ensures
        ({
            let (next, then) = reader.ready();
            places(next, then, first * reader.record, len) == every_nth(
                first,
                reader.stride,
                reader.record,
                fewer(
                    (reader.max - reader.taken) as nat,
                    available(first, reader.stride, len / (reader.record as int)),
                ),
            )
        }),
    decreases reader.max - reader.taken,
{
    let record = reader.record;
    let stride = reader.stride;
    let total = len / (record as int);
    let position = first * record;
    let (next, then) = reader.ready();
    let wanted = (reader.max - reader.taken) as nat;
    let all = every_nth(first, stride, record, fewer(wanted, available(first, stride, total)));
    lemma_record_is_there(first, record, len);
    if reader.taken == reader.max {
        assert(places(next, then, position, len) =~= all);
    } else if first >= total {
        assert(outcome(then, position, record, len) == ReadEvent::EndOfFile);
        let (last, stop) = next.after(ReadEvent::EndOfFile);
        assert(places(last, stop, position + record, len) =~= seq![]);
        assert(places(next, then, position, len) =~= all);
    } else {
        assert(outcome(then, position, record, len) == ReadEvent::Record);
        lemma_available(first, stride, total);
        let counted = SampleReader { taken: (next.taken + 1) as usize, ..next };
        let rest = every_nth(
            first + stride,
            stride,
            record,
            fewer((wanted - 1) as nat, available(first + stride, stride, total)),
        );
        let ahead = (first + stride) * record;
        assert(ahead == position + record + (stride - 1) * record) by (nonlinear_arith)
            requires
                ahead == (first + stride) * record,
                position == first * record,
        ;
        let (moving, skip) = next.after(ReadEvent::Record);
        assert(places(moving, skip, position + record, len) == rest) by {
            if (stride - 1) * record > i64::MAX {
                lemma_step_past_the_end(stride, record, len);
                assert(first + stride >= total);
                assert(rest =~= seq![]);
                assert(position >= 0) by (nonlinear_arith)
                    requires
                        position == first * record,
                        first >= 0,
                ;
                lemma_nothing_behind(moving, position + record, len);
            } else if stride > 1 {
                lemma_places(counted, first + stride, len);
                assert(outcome(skip, position + record, record, len) == ReadEvent::Moved);
                assert(moving.after(ReadEvent::Moved) == counted.ready());
                assert(seq![] + rest =~= rest);
            } else {
                lemma_places(counted, first + stride, len);
                assert((stride - 1) * record == 0) by (nonlinear_arith)
                    requires
                        stride == 1,
                ;
            }
        }
        assert forall|k: int| 0 <= k < all.len() implies all[k] == (seq![position] + rest)[k] by {
            if k == 0 {
                assert((first + 0 * stride) * record == position) by (nonlinear_arith)
                    requires
                        position == first * record,
                ;
            } else {
                assert((first + k * stride) * record == (first + stride + (k - 1) * stride)
                    * record) by (nonlinear_arith);
            }
        }
        assert(all =~= seq![position] + rest);
        assert(places(next, then, position, len) =~= seq![position] + rest);
    }
}

/// Sampling reads the records `offset`, `offset + stride`, `offset + 2 * stride` and so on, each
/// from its first byte, until there are enough or the file has no further whole record. Only in a
/// file beyond `i64::MAX` bytes can a step be too long to be taken at once.
pub proof fn law_every_nth_record_is_read(
    file_len: u64,
    record: u64,
    offset: u64,
    stride: u64,
    max: usize,
)
    requires
        record > 0,
        stride > 0,
        (stride - 1) * record <= i64::MAX || file_len <= i64::MAX,
    ensures
        ({
            let (reader, action) = started(file_len, record, offset, stride, max);
            places(reader, action, 0, file_len as int) == every_nth(
                offset as int,
                stride,
                record,
                fewer(
                    max as nat,
                    available(offset as int, stride, file_len as int / (record as int)),
                ),
            )
        }),
{
    let (reader, action) = started(file_len, record, offset, stride, max);
    let count = fewer(
        max as nat,
        available(offset as int, stride, file_len as int / (record as int)),
    );
    let all = every_nth(offset as int, stride, record, count);
    if offset >= file_len / record {
        assert(places(reader, action, 0, file_len as int) =~= all);
    } else {
        assert(offset * record <= file_len) by (nonlinear_arith)
            requires
                offset < file_len / record,
                record > 0,
        ;
        lemma_places(reader, offset as int, file_len as int);
        assert(reader.after(ReadEvent::Moved) == reader.ready());
        assert(outcome(action, 0, record, file_len as int) == ReadEvent::Moved);
        assert(seq![] + all =~= all);
    }
}

/// Between two records that are read, those that are left out are skipped whole: their bytes, as
/// long as a step can be that long, and otherwise the longest step.
pub proof fn law_skipped_records_are_skipped_whole(stride: u64, record: u64)
    requires
        stride >= 1,
    ensures
        0 <= skip_bytes(stride, record) <= 0x7FFF_FFFF_FFFF_FFFF,
        (stride - 1) * record <= 0x7FFF_FFFF_FFFF_FFFF ==> skip_bytes(stride, record) == (stride
            - 1) * record,
        (stride - 1) * record > 0x7FFF_FFFF_FFFF_FFFF ==> skip_bytes(stride, record)
            == 0x7FFF_FFFF_FFFF_FFFF,
{
    assert((stride - 1) * record >= 0) by (nonlinear_arith)
        requires
            stride >= 1,
    ;
}

/// A reader never takes more records than are wanted, takes one for each record that is read and
/// for nothing else, and keeps what it was told at the start.
pub proof fn law_reader_counts_the_records(reader: SampleReader, event: ReadEvent)
    requires
        reader.wf(),
        reader.expects(event),
    ensures
        ({
            let (next, action) = reader.after(event);
            &&& next.wf()
            &&& next.taken == reader.taken + if event == ReadEvent::Record {
                1int
            } else {
                0
            }
            &&& next.taken <= next.max
            &&& next.record == reader.record
            &&& next.offset == reader.offset
            &&& next.stride == reader.stride
            &&& next.max == reader.max
            &&& action == ReadAction::ReadRecord ==> next.taken < next.max
            &&& action == ReadAction::Finish <==> next.stage == ReadStage::Done
            &&& event == ReadEvent::EndOfFile ==> action == ReadAction::Finish
        }),
{
}

/// A stride of zero is taken for one: every record is read.
pub proof fn law_no_stride_reads_every_record(reader: SampleReader, event: ReadEvent)
    requires
        reader.stride == 0,
    ensures
        ({
            let every = SampleReader { stride: 1, ..reader };
            &&& reader.after(event).1 == every.after(event).1
            &&& reader.after(event).0.stage == every.after(event).0.stage
            &&& reader.after(event).0.taken == every.after(event).0.taken
        }),
{
}

} // verus!
