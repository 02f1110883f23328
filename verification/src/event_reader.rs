//! Reading the event log.
//!
//! A reader walks the records from a position on. A bad record at the very end
//! of the log is a torn write; a bad record with data behind it is corruption.

use crate::checksum::{crc32, crc32_of};
use crate::encoding::{le_u32, lemma_u32_round_trip, read_u32_le, u32_of_le};
use crate::error::{BadRecord, Error};
use crate::event_record::{
    decode_payload, event_payload, event_record, event_record_magic, has_event_magic,
    law_record_round_trip, lemma_payload_bounded, parse_payload, parse_record, EventView,
    SegmentEvent, EVENT_RECORD_HEADER_SIZE, EVENT_RECORD_VERSION, MAX_PAYLOAD_SIZE,
};
use crate::types::{id_of_bytes, EventWalPos, SegmentId};
use vstd::prelude::*;

verus! {

/// A file of the event log.
#[derive(Debug, PartialEq, Eq)]
pub struct EventFile {
    /// The file's sequence number.
    pub seq: u32,
    /// The file's bytes.
    pub data: Vec<u8>,
}

/// What stands at a place of a log file.
pub enum RecordView {
    /// A record of `size` bytes.
    Good { event: EventView, size: nat },
    /// A bad record; `more` says whether the file goes on behind it.
    Bad { kind: BadRecord, more: bool },
}

/// What stands at the start of `b`, the rest of a log file.
///
/// A record that the file cuts short has nothing behind it. A whole header
/// that is not one is taken to be as short as a record can be, 32 bytes.
#[verifier::opaque]
pub open spec fn record_at(b: Seq<u8>) -> RecordView {
    let n = b.len() as int;
    if n < EVENT_RECORD_HEADER_SIZE {
        RecordView::Bad { kind: BadRecord::TruncatedHeader, more: false }
    } else if b.subrange(0, 4) != event_record_magic() {
        RecordView::Bad { kind: BadRecord::BadMagic, more: n > 32 }
    } else if b[4] != EVENT_RECORD_VERSION {
        RecordView::Bad { kind: BadRecord::UnsupportedVersion, more: n > 32 }
    } else if u32_of_le(b.subrange(8, 12)) > MAX_PAYLOAD_SIZE {
        RecordView::Bad { kind: BadRecord::ImplausibleLength, more: n > 32 }
    } else {
        let len = u32_of_le(b.subrange(8, 12)) as int;
        if n < 32 + len {
            RecordView::Bad { kind: BadRecord::TruncatedPayload, more: false }
        } else if u32_of_le(b.subrange(28 + len, 32 + len)) != crc32(b.subrange(0, 28 + len)) {
            RecordView::Bad { kind: BadRecord::ChecksumMismatch, more: n > 32 + len }
        } else {
            match parse_payload(b[5], id_of_bytes(b.subrange(12, 28)), b.subrange(28, 28 + len)) {
                Some(event) => RecordView::Good { event, size: (32 + len) as nat },
                None => RecordView::Bad { kind: BadRecord::InvalidPayload, more: n > 32 + len },
            }
        }
    }
}

/// How the readable part of a log ends.
pub enum LogEnd {
    /// At the end of the last file.
    Clean,
    /// At a bad record with nothing behind it.
    Torn { pos: EventWalPos, detail: BadRecord },
    /// At a bad record with data behind it.
    Corrupt { pos: EventWalPos, detail: BadRecord },
}

/// What a reader gives: the records in order, and how they end.
pub struct LogRead {
    pub events: Seq<(EventWalPos, EventView)>,
    pub end: LogEnd,
}

/// Some file after the one at index `i` holds data.
pub open spec fn data_after(files: Seq<EventFile>, i: int) -> bool {
    exists|j: int| i < j < files.len() && (#[trigger] files[j]).data@.len() > 0
}

/// Reads the log from `offset` in the file at index `i` to its end.
pub open spec fn read_log(files: Seq<EventFile>, i: int, offset: int) -> LogRead
    decreases files.len() - i, (if 0 <= i < files.len() {
        files[i].data@.len() - offset
    } else {
        0
    }),
{
    if i < 0 || i >= files.len() || offset < 0 {
        LogRead { events: Seq::empty(), end: LogEnd::Clean }
    } else if offset >= files[i].data@.len() {
        read_log(files, i + 1, 0)
    } else {
        let pos = EventWalPos { file_seq: files[i].seq, offset: offset as u64 };
        match record_at(files[i].data@.skip(offset)) {
            RecordView::Good { event, size } => if 0 < size <= files[i].data@.len() - offset {
                let rest = read_log(files, i, offset + size);
                LogRead { events: seq![(pos, event)] + rest.events, end: rest.end }
            } else {
                LogRead { events: Seq::empty(), end: LogEnd::Clean }
            },
            RecordView::Bad { kind, more } => LogRead {
                events: Seq::empty(),
                end: if more || data_after(files, i) {
                    LogEnd::Corrupt { pos, detail: kind }
                } else {
                    LogEnd::Torn { pos, detail: kind }
                },
            },
        }
    }
}

/// The files come in order of their sequence numbers, none twice.
pub open spec fn files_ordered(files: Seq<EventFile>) -> bool {
    forall|i: int, j: int| 0 <= i < j < files.len() ==> (#[trigger] files[i]).seq < (
    #[trigger] files[j]).seq
}

/// Index of the first file from `from` on whose sequence number is at least
/// `seq`; the number of files when there is none.
pub open spec fn first_file_from(files: Seq<EventFile>, seq: u32, from: int) -> int
    decreases files.len() - from,
{
    if from < 0 || from >= files.len() {
        files.len() as int
    } else if files[from].seq >= seq {
        from
    } else {
        first_file_from(files, seq, from + 1)
    }
}

/// Reads the log from `pos` to its end. Where the file of `pos` is gone, its
/// events are covered by a checkpoint, and reading starts at the next file.
pub open spec fn read_log_from(files: Seq<EventFile>, pos: EventWalPos) -> LogRead {
    let i = first_file_from(files, pos.file_seq, 0);
    if i < files.len() && files[i].seq == pos.file_seq {
        read_log(files, i, pos.offset as int)
    } else {
        read_log(files, i, 0)
    }
}

/// The result of reading one record.
enum RecordStep {
    Good { event: SegmentEvent, size: usize },
    Bad { kind: BadRecord, more: bool },
}

impl RecordStep {
    spec fn view(&self) -> RecordView {
        match *self {
            RecordStep::Good { event, size } => RecordView::Good {
                event: event@,
                size: size as nat,
            },
            RecordStep::Bad { kind, more } => RecordView::Bad { kind, more },
        }
    }
}

/// Reads the record that starts at `at`.
fn read_record(data: &[u8], at: usize) -> (step: RecordStep)
    requires
        at < data@.len(),
    ensures
        step@ == record_at(data@.skip(at as int)),
        step matches RecordStep::Good { size, .. } ==> 32 <= size <= data@.len() - at,
{
    proof {
        reveal(record_at);
    }
    let ghost b = data@.skip(at as int);
    let n: usize = data.len() - at;
    if n < EVENT_RECORD_HEADER_SIZE {
        return RecordStep::Bad { kind: BadRecord::TruncatedHeader, more: false };
    }
    assert(b.subrange(0, 4) =~= data@.subrange(at as int, at + 4));
    if !has_event_magic(data, at) {
        return RecordStep::Bad { kind: BadRecord::BadMagic, more: n > 32 };
    }
    assert(b[4] == data@[at + 4]);
    if data[at + 4] != EVENT_RECORD_VERSION {
        return RecordStep::Bad { kind: BadRecord::UnsupportedVersion, more: n > 32 };
    }
    assert(b.subrange(8, 12) =~= data@.subrange(at + 8, at + 12));
    let payload_len: u32 = read_u32_le(data, at + 8);
    if payload_len as u64 > MAX_PAYLOAD_SIZE as u64 {
        return RecordStep::Bad { kind: BadRecord::ImplausibleLength, more: n > 32 };
    }
    let len: usize = payload_len as usize;
    if n < 32 + len {
        return RecordStep::Bad { kind: BadRecord::TruncatedPayload, more: false };
    }
    assert(b.subrange(28 + len, 32 + len) =~= data@.subrange(at + 28 + len, at + 32 + len));
    assert(b.subrange(0, 28 + len) =~= data@.subrange(at as int, at + 28 + len));
    let stored_crc: u32 = read_u32_le(data, at + 28 + len);
    if stored_crc != crc32_of(&data[at..at + 28 + len]) {
        return RecordStep::Bad { kind: BadRecord::ChecksumMismatch, more: n > 32 + len };
    }
    assert(b[5] == data@[at + 5]);
    assert(b.subrange(12, 28) =~= data@.subrange(at + 12, at + 28));
    assert(b.subrange(28, 28 + len) =~= data@.subrange(at + 28, at + 28 + len));
    let segment_id = SegmentId::read(data, at + 12);
    match decode_payload(data[at + 5], segment_id, &data[at + 28..at + 28 + len]) {
        Some(event) => RecordStep::Good { event, size: 32 + len },
        None => RecordStep::Bad { kind: BadRecord::InvalidPayload, more: n > 32 + len },
    }
}

/// Walks the records of the event log from a position on.
///
/// Gives each record's position with its event. Stops at the first bad
/// record; a clean end of a file leads on to the next file.
pub struct EventWalReader {
    files: Vec<EventFile>,
    next: EventWalPos,
    done: bool,
}

impl EventWalReader {
    /// The files come in order, none twice.
    pub closed spec fn wf(&self) -> bool {
        files_ordered(self.files@)
    }

    /// What the reader still gives.
    pub closed spec fn rest(&self) -> LogRead {
        if self.done {
            LogRead { events: Seq::empty(), end: LogEnd::Clean }
        } else {
            read_log_from(self.files@, self.next)
        }
    }

    /// Starts reading at `pos`.
    pub fn read_from(files: Vec<EventFile>, pos: EventWalPos) -> (reader: EventWalReader)
        requires
            files_ordered(files@),
        ensures
            reader.wf(),
            reader.rest() == read_log_from(files@, pos),
    {
        EventWalReader { files, next: pos, done: false }
    }

    /// Index of the first file whose sequence number is at least `seq`.
    fn first_file(&self, seq: u32) -> (i: usize)
        ensures
            i == first_file_from(self.files@, seq, 0),
            i <= self.files@.len(),
    {
        let mut i: usize = 0;
        while i < self.files.len() && self.files[i].seq < seq
            invariant
                i <= self.files@.len(),
                first_file_from(self.files@, seq, 0) == first_file_from(self.files@, seq, i as int),
            decreases self.files@.len() - i,
        {
            i = i + 1;
        }
        i
    }

    /// Whether some file after the one at index `i` holds data.
    fn has_data_after(&self, i: usize) -> (r: bool)
        requires
            i < self.files@.len(),
        ensures
            r == data_after(self.files@, i as int),
    {
        let n: usize = self.files.len();
        let mut j: usize = i + 1;
        while j < n
            invariant
                i < j <= n,
                n == self.files@.len(),
                forall|k: int| i < k < j ==> (#[trigger] self.files@[k]).data@.len() == 0,
            decreases n - j,
        {
            if self.files[j].data.len() > 0 {
                return true;
            }
            j = j + 1;
        }
        false
    }

    /// The next record with its position, the error at a bad record, or
    /// `None` behind the last record.
    pub fn next(&mut self) -> (item: Option<Result<(EventWalPos, SegmentEvent), Error>>)
        requires
            old(self).wf(),
        ensures
            final(self).wf(),
            match item {
                None => {
                    &&& old(self).rest().events.len() == 0
                    &&& old(self).rest().end is Clean
                    &&& final(self).rest() == old(self).rest()
                },
                Some(Ok((pos, event))) => {
                    &&& old(self).rest().events == seq![(pos, event@)] + final(self).rest().events
                    &&& old(self).rest().end == final(self).rest().end
                },
                Some(Err(error)) => {
                    &&& old(self).rest().events.len() == 0
                    &&& match old(self).rest().end {
                        LogEnd::Clean => false,
                        LogEnd::Torn { pos, detail } => error == (Error::TornEventRecord {
                            pos,
                            detail,
                        }),
                        LogEnd::Corrupt { pos, detail } => error == (Error::CorruptEventLog {
                            pos,
                            detail,
                        }),
                    }
                    &&& final(self).rest().events.len() == 0
                    &&& final(self).rest().end is Clean
                },
            },
    {
        if self.done {
            return None;
        }
        let start: usize = self.first_file(self.next.file_seq);
        let ghost files = self.files@;
        let mut i: usize = start;
        let mut offset: u64 = if i < self.files.len() && self.files[i].seq == self.next.file_seq {
            self.next.offset
        } else {
            0
        };
        while i < self.files.len() && offset >= self.files[i].data.len() as u64
            invariant
                self.files@ == files,
                self.files@ == old(self).files@,
                !self.done,
                self.next == old(self).next,
                i <= files.len(),
                read_log_from(files, self.next) == read_log(files, i as int, offset as int),
            decreases files.len() - i,
        {
            i = i + 1;
            offset = 0;
        }
        if i >= self.files.len() {
            self.done = true;
            return None;
        }
        let file_seq: u32 = self.files[i].seq;
        let pos = EventWalPos { file_seq, offset };
        let step = read_record(self.files[i].data.as_slice(), offset as usize);
        match step {
            RecordStep::Good { event, size } => {
                let next_offset: usize = offset as usize + size;
                self.next = EventWalPos { file_seq, offset: next_offset as u64 };
                proof {
                    lemma_first_file(files, i as int);
                }
                Some(Ok((pos, event)))
            },
            RecordStep::Bad { kind, more } => {
                let corrupt = more || self.has_data_after(i);
                self.done = true;
                if corrupt {
                    Some(Err(Error::CorruptEventLog { pos, detail: kind }))
                } else {
                    Some(Err(Error::TornEventRecord { pos, detail: kind }))
                }
            },
        }
    }
}

/// In ordered files, the first file at or after a file's sequence number is
/// that file.
proof fn lemma_first_file(files: Seq<EventFile>, i: int)
    requires
        files_ordered(files),
        0 <= i < files.len(),
    ensures
        first_file_from(files, files[i].seq, 0) == i,
{
    lemma_first_file_upto(files, i, i);
}

proof fn lemma_first_file_upto(files: Seq<EventFile>, i: int, k: int)
    requires
        files_ordered(files),
        0 <= k <= i < files.len(),
    ensures
        first_file_from(files, files[i].seq, k) == i ==> first_file_from(files, files[i].seq, 0)
            == i,
        first_file_from(files, files[i].seq, i) == i,
    decreases k,
{
    if k > 0 {
        assert(files[k - 1].seq < files[i].seq);
        lemma_first_file_upto(files, i, k - 1);
    }
}


/// A record lies within the bytes that it is read from.
proof fn lemma_record_size(b: Seq<u8>)
    ensures
        record_at(b) matches RecordView::Good { size, .. } ==> 32 <= size <= b.len(),
{
    reveal(record_at);
}

/// A record is read the same whatever follows it.
proof fn lemma_record_local(b: Seq<u8>, c: Seq<u8>)
    requires
        record_at(b) is Good,
        record_at(b)->size <= c.len(),
        c.take(record_at(b)->size as int) == b.take(record_at(b)->size as int),
    ensures
        record_at(c) == record_at(b),
        32 <= record_at(b)->size <= b.len(),
{
    reveal(record_at);
    let size = record_at(b)->size as int;
    let len = size - 32;
    assert(forall|i: int| 0 <= i < size ==> b[i] == b.take(size)[i] && c[i] == c.take(size)[i]);
    assert(b.subrange(0, 4) =~= c.subrange(0, 4));
    assert(b.subrange(8, 12) =~= c.subrange(8, 12));
    assert(b.subrange(12, 28) =~= c.subrange(12, 28));
    assert(b.subrange(28 + len, 32 + len) =~= c.subrange(28 + len, 32 + len));
    assert(b.subrange(0, 28 + len) =~= c.subrange(0, 28 + len));
    assert(b.subrange(28, 28 + len) =~= c.subrange(28, 28 + len));
}

/// A record that was written is read as the event that it was written from,
/// whatever follows it.
pub proof fn law_written_record_is_read(e: EventView, tail: Seq<u8>)
    requires
        e.encodable(),
    ensures
        record_at(event_record(e) + tail) == (RecordView::Good {
            event: e,
            size: event_record(e).len(),
        }),
{
    reveal(record_at);
    reveal(event_record);
    reveal(parse_record);
    let r = event_record(e);
    let b = r + tail;
    let n = r.len() as int;
    let len = event_payload(e).len() as int;
    lemma_payload_bounded(e);
    law_record_round_trip(e);
    lemma_u32_round_trip(event_payload(e).len() as u32);
    assert(r.subrange(8, 12) =~= le_u32(event_payload(e).len() as u32));
    assert(b.subrange(0, 4) =~= r.subrange(0, 4));
    assert(b.subrange(8, 12) =~= r.subrange(8, 12));
    assert(b.subrange(12, 28) =~= r.subrange(12, 28));
    assert(b.subrange(28 + len, 32 + len) =~= r.subrange(n - 4, n));
    assert(b.subrange(0, 28 + len) =~= r.subrange(0, n - 4));
    assert(b.subrange(28, 28 + len) =~= r.subrange(28, n - 4));
}

/// The bytes of a run of records.
pub open spec fn records_bytes(events: Seq<EventView>) -> Seq<u8>
    decreases events.len(),
{
    if events.len() == 0 {
        Seq::empty()
    } else {
        event_record(events[0]) + records_bytes(events.drop_first())
    }
}

/// Every event fits its record.
pub open spec fn all_encodable(events: Seq<EventView>) -> bool {
    forall|i: int| 0 <= i < events.len() ==> (#[trigger] events[i]).encodable()
}

/// A run of events as a reading gives them: with the places of their records,
/// the first of which is at `offset`.
pub open spec fn placed(seq: u32, offset: int, events: Seq<EventView>) -> Seq<
    (EventWalPos, EventView),
>
    decreases events.len(),
{
    if events.len() == 0 {
        Seq::empty()
    } else {
        seq![(EventWalPos { file_seq: seq, offset: offset as u64 }, events[0])] + placed(
            seq,
            offset + event_record(events[0]).len(),
            events.drop_first(),
        )
    }
}

/// The events of the files from index `i` up to index `j`, with their places.
pub open spec fn placed_files(
    files: Seq<EventFile>,
    groups: Seq<Seq<EventView>>,
    i: int,
    j: int,
) -> Seq<(EventWalPos, EventView)>
    decreases j - i,
{
    if i >= j {
        Seq::empty()
    } else {
        placed(files[i].seq, 0, groups[i]) + placed_files(files, groups, i + 1, j)
    }
}

/// The file holds the records of the given events, and nothing else.
pub open spec fn file_holds(file: EventFile, events: Seq<EventView>) -> bool {
    all_encodable(events) && file.data@ == records_bytes(events)
}

/// A reading goes on after the records at the front of the rest of a file.
pub proof fn lemma_read_prefix(files: Seq<EventFile>, i: int, offset: int, events: Seq<EventView>)
    requires
        0 <= i < files.len(),
        0 <= offset,
        offset + records_bytes(events).len() <= files[i].data@.len(),
        files[i].data@.subrange(offset, offset + records_bytes(events).len()) == records_bytes(
            events,
        ),
        all_encodable(events),
    ensures
        read_log(files, i, offset).events == placed(files[i].seq, offset, events) + read_log(
            files,
            i,
            offset + records_bytes(events).len(),
        ).events,
        read_log(files, i, offset).end == read_log(
            files,
            i,
            offset + records_bytes(events).len(),
        ).end,
    decreases events.len(),
{
    let data = files[i].data@;
    let seq = files[i].seq;
    if events.len() == 0 {
        assert(records_bytes(events).len() == 0);
        assert(placed(seq, offset, events) + read_log(files, i, offset).events =~= read_log(
            files,
            i,
            offset,
        ).events);
    } else {
        let first = event_record(events[0]);
        let rest = events.drop_first();
        let size = first.len() as int;
        assert(all_encodable(rest)) by {
            assert(forall|k: int| 0 <= k < rest.len() ==> rest[k] == events[k + 1]);
        }
        lemma_payload_bounded(events[0]);
        assert(records_bytes(events) == first + records_bytes(rest));
        let whole = data.subrange(offset, offset + records_bytes(events).len());
        assert(whole.subrange(0, size) =~= first);
        assert(whole.subrange(size, whole.len() as int) =~= records_bytes(rest));
        assert(data.subrange(offset + size, offset + size + records_bytes(rest).len())
            =~= whole.subrange(size, whole.len() as int));
        let tail = data.skip(offset + size);
        assert(data.skip(offset) =~= first + tail) by {
            assert forall|k: int| 0 <= k < size implies data[offset + k] == first[k] by {
                assert(whole.subrange(0, size)[k] == data[offset + k]);
            }
        }
        law_written_record_is_read(events[0], tail);
        lemma_read_prefix(files, i, offset + size, rest);
        let end = offset + records_bytes(events).len();
        assert(read_log(files, i, offset).events =~= placed(seq, offset, events) + read_log(
            files,
            i,
            end,
        ).events);
    }
}

/// The bytes of a run of records, in two parts.
proof fn lemma_records_split(events: Seq<EventView>, n: int)
    requires
        0 <= n <= events.len(),
    ensures
        records_bytes(events) == records_bytes(events.take(n)) + records_bytes(events.skip(n)),
    decreases n,
{
    if n == 0 {
        assert(events.take(0) =~= Seq::empty());
        assert(events.skip(0) =~= events);
        assert(records_bytes(events) =~= records_bytes(events.take(0)) + records_bytes(events));
    } else {
        let rest = events.drop_first();
        lemma_records_split(rest, n - 1);
        assert(events.take(n).drop_first() =~= rest.take(n - 1));
        assert(events.skip(n) =~= rest.skip(n - 1));
        assert(records_bytes(events) =~= records_bytes(events.take(n)) + records_bytes(
            events.skip(n),
        ));
    }
}

/// A reading that starts behind the first `n` records of a file that holds just
/// records gives the others, and goes on with the next file.
proof fn lemma_read_rest_of_file(files: Seq<EventFile>, i: int, events: Seq<EventView>, n: int)
    requires
        0 <= i < files.len(),
        file_holds(files[i], events),
        0 <= n <= events.len(),
    ensures
        ({
            let offset = records_bytes(events.take(n)).len() as int;
            let read = read_log(files, i, offset);
            let next = read_log(files, i + 1, 0);
            &&& offset <= files[i].data@.len()
            &&& read.events == placed(files[i].seq, offset, events.skip(n)) + next.events
            &&& read.end == next.end
        }),
{
    let data = files[i].data@;
    let offset = records_bytes(events.take(n)).len() as int;
    let rest = events.skip(n);
    lemma_records_split(events, n);
    assert(data.subrange(offset, data.len() as int) =~= records_bytes(rest));
    assert(all_encodable(rest)) by {
        assert(forall|k: int| 0 <= k < rest.len() ==> rest[k] == events[k + n]);
    }
    lemma_read_prefix(files, i, offset, rest);
}

/// A reading passes through files that hold just records.
pub proof fn lemma_read_files(files: Seq<EventFile>, groups: Seq<Seq<EventView>>, i: int, j: int)
    requires
        0 <= i <= j <= files.len(),
        j <= groups.len(),
        forall|k: int| i <= k < j ==> file_holds(#[trigger] files[k], groups[k]),
    ensures
        read_log(files, i, 0).events == placed_files(files, groups, i, j) + read_log(
            files,
            j,
            0,
        ).events,
        read_log(files, i, 0).end == read_log(files, j, 0).end,
    decreases j - i,
{
    if i == j {
        assert(placed_files(files, groups, i, j) + read_log(files, j, 0).events =~= read_log(
            files,
            j,
            0,
        ).events);
    } else {
        assert(file_holds(files[i], groups[i]));
        assert(groups[i].take(0) =~= Seq::empty());
        assert(groups[i].skip(0) =~= groups[i]);
        lemma_read_rest_of_file(files, i, groups[i], 0);
        lemma_read_files(files, groups, i + 1, j);
        assert(read_log(files, i, 0).events =~= placed_files(files, groups, i, j) + read_log(
            files,
            j,
            0,
        ).events);
    }
}

/// Files that hold whole records are read back in full, from the boundary of any
/// record: here behind the first `n` records of the file at index `i`. Every
/// event from there on comes, in order and with the place of its record, to a
/// clean end.
pub proof fn law_log_reads_back(
    files: Seq<EventFile>,
    groups: Seq<Seq<EventView>>,
    i: int,
    n: int,
)
    requires
        files_ordered(files),
        files.len() == groups.len(),
        0 <= i < files.len(),
        0 <= n <= groups[i].len(),
        forall|k: int| 0 <= k < files.len() ==> file_holds(#[trigger] files[k], groups[k]),
    ensures
        ({
            let offset = records_bytes(groups[i].take(n)).len();
            let read = read_log_from(
                files,
                EventWalPos { file_seq: files[i].seq, offset: offset as u64 },
            );
            &&& offset <= u64::MAX
            &&& read.events == placed(files[i].seq, offset as int, groups[i].skip(n))
                + placed_files(files, groups, i + 1, files.len() as int)
            &&& read.end is Clean
        }),
{
    let len = files.len() as int;
    assert(file_holds(files[i], groups[i]));
    lemma_read_rest_of_file(files, i, groups[i], n);
    assert(files[i].data@.len() == files[i].data.len());
    lemma_read_files(files, groups, i + 1, len);
    lemma_first_file(files, i);
    let rest = read_log(files, len, 0);
    assert(rest.events =~= Seq::empty());
    let later = placed_files(files, groups, i + 1, len);
    assert(later + rest.events =~= later);
}

/// The header fields of a written record.
proof fn lemma_record_header(e: EventView)
    requires
        e.encodable(),
    ensures
        event_record(e).len() == 32 + event_payload(e).len(),
        event_record(e).subrange(0, 4) == event_record_magic(),
        event_record(e)[4] == EVENT_RECORD_VERSION,
        u32_of_le(event_record(e).subrange(8, 12)) == event_payload(e).len(),
        event_payload(e).len() <= MAX_PAYLOAD_SIZE,
{
    reveal(event_record);
    lemma_payload_bounded(e);
    lemma_u32_round_trip(event_payload(e).len() as u32);
    let r = event_record(e);
    assert(r.subrange(0, 4) =~= event_record_magic());
    assert(r.subrange(8, 12) =~= le_u32(event_payload(e).len() as u32));
}

/// A record that a crash cut short at the end of the log is torn, never
/// corruption, and every record before it is read: those of the files before it,
/// and those before it in its own.
pub proof fn law_cut_record_is_torn(
    files: Seq<EventFile>,
    groups: Seq<Seq<EventView>>,
    i: int,
    events: Seq<EventView>,
    last: EventView,
    kept: int,
)
    requires
        0 <= i < files.len(),
        i <= groups.len(),
        forall|k: int| 0 <= k < i ==> file_holds(#[trigger] files[k], groups[k]),
        all_encodable(events),
        last.encodable(),
        0 < kept < event_record(last).len(),
        files[i].data@ == records_bytes(events) + event_record(last).take(kept),
        !data_after(files, i),
    ensures
        read_log(files, 0, 0).events == placed_files(files, groups, 0, i) + placed(
            files[i].seq,
            0,
            events,
        ),
        read_log(files, 0, 0).end matches LogEnd::Torn { pos, .. } && pos == (EventWalPos {
            file_seq: files[i].seq,
            offset: records_bytes(events).len() as u64,
        }),
{
    let data = files[i].data@;
    let r = event_record(last);
    let good = records_bytes(events);
    let at = good.len() as int;
    assert(data.subrange(0, at) =~= good);
    lemma_read_prefix(files, i, 0, events);
    let cut = data.skip(at);
    assert(cut =~= r.take(kept));
    lemma_record_header(last);
    if kept >= 28 {
        assert(cut.subrange(0, 4) =~= r.subrange(0, 4));
        assert(cut.subrange(8, 12) =~= r.subrange(8, 12));
        assert(cut[4] == r[4]);
    }
    assert(record_at(cut) matches RecordView::Bad { more, .. } && !more) by {
        reveal(record_at);
    }
    let rest = read_log(files, i, at);
    assert(rest.events =~= Seq::empty());
    assert(placed(files[i].seq, 0, events) + rest.events =~= placed(files[i].seq, 0, events));
    lemma_read_files(files, groups, 0, i);
}


/// Where the run of good records that starts at `offset` ends.
pub open spec fn good_end(data: Seq<u8>, offset: int) -> int
    decreases data.len() - offset,
{
    if offset < 0 || offset >= data.len() {
        offset
    } else {
        match record_at(data.skip(offset)) {
            RecordView::Good { size, .. } => if 0 < size <= data.len() - offset {
                good_end(data, offset + size)
            } else {
                offset
            },
            RecordView::Bad { .. } => offset,
        }
    }
}

/// How much of the last log file is kept at start-up: all of it, unless it
/// ends in a torn record, which goes.
pub open spec fn kept_tail(data: Seq<u8>) -> int {
    let end = good_end(data, 0);
    if end >= data.len() {
        data.len() as int
    } else {
        match record_at(data.skip(end)) {
            RecordView::Bad { more, .. } => if more {
                data.len() as int
            } else {
                end
            },
            RecordView::Good { .. } => data.len() as int,
        }
    }
}

/// How many bytes of the last log file stay: a torn record at its end is cut
/// off, so that the next append starts at a record boundary. A file with
/// corruption before its end stays as it is, for the recovery to report.
pub fn truncate_torn_tail(data: &[u8]) -> (kept: usize)
    ensures
        kept == kept_tail(data@),
        kept <= data@.len(),
{
    let n: usize = data.len();
    let mut end: usize = 0;
    while end < n
        invariant
            end <= n == data@.len(),
            good_end(data@, 0) == good_end(data@, end as int),
        decreases n - end,
    {
        match read_record(data, end) {
            RecordStep::Good { size, .. } => {
                end = end + size;
            },
            RecordStep::Bad { more, .. } => {
                return if more {
                    n
                } else {
                    end
                };
            },
        }
    }
    n
}

proof fn lemma_good_end_grows(data: Seq<u8>, offset: int)
    requires
        0 <= offset <= data.len(),
    ensures
        offset <= good_end(data, offset) <= data.len(),
    decreases data.len() - offset,
{
    if offset < data.len() {
        if let RecordView::Good { size, .. } = record_at(data.skip(offset)) {
            if 0 < size <= data.len() - offset {
                lemma_good_end_grows(data, offset + size);
            }
        }
    }
}

/// Reading a file whose records run to its very end is clean; cutting a torn
/// record off keeps every record before it.
proof fn lemma_read_cut(
    files: Seq<EventFile>,
    healed: Seq<EventFile>,
    i: int,
    offset: int,
    cut: int,
)
    requires
        0 <= i < files.len(),
        i == files.len() - 1,
        healed.len() == files.len(),
        0 <= offset <= cut,
        cut == good_end(files[i].data@, offset),
        cut <= files[i].data@.len(),
        healed[i].seq == files[i].seq,
        healed[i].data@ == files[i].data@.take(cut),
    ensures
        read_log(healed, i, offset).events == read_log(files, i, offset).events,
        read_log(healed, i, offset).end is Clean,
    decreases cut - offset,
{
    let data = files[i].data@;
    let kept = healed[i].data@;
    if offset < cut {
        let b = data.skip(offset);
        let size = record_at(b)->size as int;
        assert(record_at(b) is Good);
        lemma_good_end_grows(data, offset + size);
        let c = kept.skip(offset);
        assert(c.take(size) =~= b.take(size));
        lemma_record_local(b, c);
        lemma_read_cut(files, healed, i, offset + size, cut);
    } else {
        assert(read_log(healed, i, offset) == read_log(healed, i + 1, 0));
        assert(read_log(healed, i + 1, 0).events =~= Seq::empty());
        if cut < data.len() {
            if let RecordView::Good { size, .. } = record_at(data.skip(cut)) {
                lemma_record_size(data.skip(cut));
                lemma_good_end_grows(data, cut + size);
                assert(false);
            }
        } else {
            assert(read_log(files, i, offset) == read_log(files, i + 1, 0));
        }
    }
}

/// A record boundary of a file: `offset` is reached from `from` over good
/// records.
pub open spec fn at_record(data: Seq<u8>, offset: int, from: int) -> bool
    decreases data.len() - from,
{
    if from >= offset || from < 0 || from >= data.len() {
        from == offset
    } else {
        match record_at(data.skip(from)) {
            RecordView::Good { size, .. } => 0 < size <= data.len() - from && at_record(
                data,
                offset,
                from + size,
            ),
            RecordView::Bad { .. } => false,
        }
    }
}

/// The good records end at the same place from each of their boundaries.
proof fn lemma_good_end_from(data: Seq<u8>, offset: int, from: int)
    requires
        0 <= from,
        at_record(data, offset, from),
    ensures
        good_end(data, from) == good_end(data, offset),
    decreases data.len() - from,
{
    if from < offset {
        if let RecordView::Good { size, .. } = record_at(data.skip(from)) {
            lemma_good_end_from(data, offset, from + size);
        }
    }
}

/// Which file a reading starts with depends on the sequence numbers alone.
proof fn lemma_first_file_by_seq(a: Seq<EventFile>, b: Seq<EventFile>, seq: u32, from: int)
    requires
        0 <= from <= a.len(),
        a.len() == b.len(),
        forall|k: int| 0 <= k < a.len() ==> (#[trigger] a[k]).seq == b[k].seq,
    ensures
        first_file_from(a, seq, from) == first_file_from(b, seq, from),
    decreases a.len() - from,
{
    if from < a.len() {
        assert(a[from].seq == b[from].seq);
        lemma_first_file_by_seq(a, b, seq, from + 1);
    }
}

proof fn lemma_read_healed(
    files: Seq<EventFile>,
    healed: Seq<EventFile>,
    i: int,
    offset: int,
)
    requires
        0 <= i < files.len(),
        0 <= offset,
        files.last().data@.len() > 0,
        read_log(files, i, offset).end is Torn,
        i == files.len() - 1 ==> at_record(files[i].data@, offset, 0),
        healed.len() == files.len(),
        forall|k: int| 0 <= k < files.len() - 1 ==> #[trigger] healed[k] == files[k],
        healed.last().seq == files.last().seq,
        healed.last().data@ == files.last().data@.take(kept_tail(files.last().data@)),
    ensures
        read_log(healed, i, offset).events == read_log(files, i, offset).events,
        read_log(healed, i, offset).end is Clean,
    decreases files.len() - i, files[i].data@.len() - offset,
{
    let data = files[i].data@;
    let last = files.len() - 1;
    if i == last {
        assert(offset <= data.len()) by {
            if offset > data.len() {
                assert(read_log(files, i, offset) == read_log(files, i + 1, 0));
            }
        }
        lemma_good_end_from(data, offset, 0);
        lemma_good_end_grows(data, offset);
        lemma_end_of_read(files, i, offset);
        lemma_read_cut(files, healed, i, offset, good_end(data, offset));
    } else {
        assert(healed[i] == files[i]);
        if offset >= data.len() {
            lemma_read_healed(files, healed, i + 1, 0);
        } else {
            lemma_record_size(data.skip(offset));
            match record_at(data.skip(offset)) {
                RecordView::Good { size, .. } => {
                    lemma_read_healed(files, healed, i, offset + size);
                },
                RecordView::Bad { .. } => {
                    assert(files[last].data@.len() > 0);
                    assert(data_after(files, i));
                },
            }
        }
    }
}

/// Cutting a torn tail off the last file loses no event and leaves a log that
/// reads to a clean end, from wherever it is read: from a place in a file before
/// the last, or from a record boundary of the last.
pub proof fn law_healed_tail_reads_clean(
    files: Seq<EventFile>,
    healed: EventFile,
    pos: EventWalPos,
)
    requires
        files.len() > 0,
        files.last().data@.len() > 0,
        read_log_from(files, pos).end is Torn,
        pos.file_seq == files.last().seq ==> at_record(
            files.last().data@,
            pos.offset as int,
            0,
        ),
        healed.seq == files.last().seq,
        healed.data@ == files.last().data@.take(kept_tail(files.last().data@)),
    ensures
        read_log_from(files.drop_last().push(healed), pos).events == read_log_from(
            files,
            pos,
        ).events,
        read_log_from(files.drop_last().push(healed), pos).end is Clean,
{
    let after = files.drop_last().push(healed);
    lemma_first_file_by_seq(files, after, pos.file_seq, 0);
    let i = first_file_from(files, pos.file_seq, 0);
    lemma_first_file_in_range(files, pos.file_seq, 0);
    let offset = if i < files.len() && files[i].seq == pos.file_seq {
        pos.offset as int
    } else {
        0
    };
    lemma_read_healed(files, after, i, offset);
}

proof fn lemma_first_file_in_range(files: Seq<EventFile>, seq: u32, from: int)
    requires
        0 <= from <= files.len(),
    ensures
        from <= first_file_from(files, seq, from) <= files.len(),
    decreases files.len() - from,
{
    if from < files.len() {
        lemma_first_file_in_range(files, seq, from + 1);
    }
}

/// A reading of the last file ends where its good records end.
proof fn lemma_end_of_read(files: Seq<EventFile>, i: int, offset: int)
    requires
        0 <= i < files.len(),
        i == files.len() - 1,
        0 <= offset <= files[i].data@.len(),
    ensures
        read_log(files, i, offset).end is Torn ==> {
            let end = good_end(files[i].data@, offset);
            &&& end < files[i].data@.len()
            &&& record_at(files[i].data@.skip(end)) matches RecordView::Bad { more, .. } && !more
        },
    decreases files[i].data@.len() - offset,
{
    let data = files[i].data@;
    if offset < data.len() {
        if let RecordView::Good { size, .. } = record_at(data.skip(offset)) {
            lemma_record_size(data.skip(offset));
            lemma_end_of_read(files, i, offset + size);
        }
    } else {
        assert(read_log(files, i, offset) == read_log(files, i + 1, 0));
    }
}


/// A reading depends only on the files from its start on.
pub proof fn lemma_read_suffix(
    a: Seq<EventFile>,
    i: int,
    b: Seq<EventFile>,
    j: int,
    offset: int,
)
    requires
        0 <= i <= a.len(),
        0 <= j <= b.len(),
        a.skip(i) == b.skip(j),
    ensures
        read_log(a, i, offset) == read_log(b, j, offset),
    decreases a.len() - i, (if 0 <= i < a.len() {
        a[i].data@.len() - offset
    } else {
        0
    }),
{
    assert(a.skip(i).len() == a.len() - i && b.skip(j).len() == b.len() - j);
    assert(a.len() - i == b.len() - j);
    assert forall|k: int| 0 <= k < a.len() - i implies #[trigger] a[i + k] == b[j + k] by {
        assert(a.skip(i)[k] == a[i + k] && b.skip(j)[k] == b[j + k]);
    }
    if i < a.len() && offset >= 0 {
        assert(a[i + 0] == b[j + 0]);
        if offset >= a[i].data@.len() {
            assert(a.skip(i + 1) =~= a.skip(i).skip(1));
            assert(b.skip(j + 1) =~= b.skip(j).skip(1));
            lemma_read_suffix(a, i + 1, b, j + 1, 0);
        } else {
            let data = a[i].data@;
            lemma_record_size(data.skip(offset));
            match record_at(data.skip(offset)) {
                RecordView::Good { size, .. } => {
                    lemma_read_suffix(a, i, b, j, offset + size);
                },
                RecordView::Bad { .. } => {
                    assert(data_after(a, i) == data_after(b, j)) by {
                        if data_after(a, i) {
                            let k = choose|k: int|
                                i < k < a.len() && (#[trigger] a[k]).data@.len() > 0;
                            assert(a[i + (k - i)] == b[j + (k - i)]);
                        }
                        if data_after(b, j) {
                            let k = choose|k: int|
                                j < k < b.len() && (#[trigger] b[k]).data@.len() > 0;
                            assert(a[i + (k - j)] == b[j + (k - j)]);
                        }
                    }
                },
            }
        }
    }
}

} // verus!
