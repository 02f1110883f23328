//! Checkpoints of the event log: snapshots of the lifecycle registry.
//!
//! A checkpoint bounds the work of a restart: recovery loads the newest valid
//! snapshot and applies the events behind the position that it covers. It is
//! asked for by the growth of the log alone.
//!
//! ```text
//! checkpoint-{file_seq:08}-{offset}:
//!   magic        [4]   = b"CHK\1"
//!   version      [1]   = 3
//!   covered_pos  [12]  file_seq(4 LE) + offset(8 LE)
//!   entry_count  [4]   LE
//!   entries      [entry_count]
//!     segment_id [16]
//!     state      [1]   0=Reserved, 1=Sealed
//!     meta_len   [4]   LE
//!     metadata   [meta_len]
//!     and for a sealed segment:
//!     data_wal_pos  [12]  file_seq(4 LE) + offset(8 LE)
//!     repacked_flag [1]   0 or 1
//!     repacked_from [16]  present iff the flag is 1
//!   crc32        [4]   LE, over all preceding bytes
//! ```
//!
//! A version 2 snapshot was written before storage pools existed. It is
//! neither read nor passed over: the directory is refused.

use crate::checksum::{crc32, crc32_of, lemma_changed_byte, one_byte_off};
use crate::encoding::{
    le_u32, le_u64, lemma_u32_round_trip, lemma_u64_round_trip, push_u32_le, push_u64_le,
    read_u32_le, read_u64_le, u32_of_le, u64_of_le,
};
use crate::error::Error;
use crate::event_wal::EventWal;
use crate::lifecycle::{
    after_record_pos, after_reserve, after_seal, evicted, is_live, is_live_listing, listing_view,
    reserve_outcome, entry_at, Entries, EntryView, LifecycleEntry, SegmentLifecycleRegistry, SegmentState,
};
use crate::metadata_codec::{decode_metadata, encode_metadata, metadata_bytes, parse_metadata};
use crate::text::{
    chars_of, decimal, join_path, lemma_decimal_round_trip, parse_number, parse_number_at,
    path_join, push_decimal, push_decimal_padded, zero_padded,
};
use crate::types::{
    id_bytes, id_of_bytes, lemma_id_round_trip, reserved_metadata, DataWalPos, EventWalConfig,
    EventWalPos, LifecycleConfig, MetadataView, SegmentId, SegmentMetadata,
};
use vstd::prelude::*;
use vstd::string::*;

verus! {

/// On-disk format version of checkpoint files.
pub const CHECKPOINT_VERSION: u8 = 3;

/// Version of the snapshots that were written before storage pools.
pub const PRE_POOL_VERSION: u8 = 2;

/// Size of a checkpoint before its entries.
pub const CHECKPOINT_HEADER_SIZE: usize = 21;

/// Size of an entry before its metadata.
pub const ENTRY_FIXED_SIZE: usize = 21;

/// Bytes at the start of every checkpoint.
pub open spec fn checkpoint_magic() -> Seq<u8> {
    seq![0x43u8, 0x48u8, 0x4Bu8, 1u8]
}

/// What a checkpoint write gives.
#[derive(Clone, Copy, Debug, PartialEq, Eq, Structural)]
pub struct CheckpointInfo {
    /// The position that the snapshot covers.
    pub covered_pos: EventWalPos,
    /// Number of entries in the snapshot.
    pub entries: usize,
    /// Size of the snapshot in bytes.
    pub bytes: u64,
}

/// Name of the checkpoint that covers `pos`.
pub open spec fn checkpoint_name(pos: EventWalPos) -> Seq<char> {
    "checkpoint-"@ + zero_padded(decimal(pos.file_seq as nat), 8) + "-"@ + decimal(
        pos.offset as nat,
    )
}

/// Index of the first `-` from `from` on; the length when there is none.
pub open spec fn first_dash(s: Seq<char>, from: int) -> int
    decreases s.len() - from,
{
    if from < 0 || from >= s.len() {
        s.len() as int
    } else if s[from] == '-' {
        from
    } else {
        first_dash(s, from + 1)
    }
}

/// The position in the name of a checkpoint; `None` for another name.
pub open spec fn checkpoint_pos(name: Seq<char>) -> Option<EventWalPos> {
    let n = name.len() as int;
    if n < 11 || name.subrange(0, 11) != "checkpoint-"@ {
        None
    } else {
        let dash = first_dash(name, 11);
        if dash >= n {
            None
        } else {
            match (
                parse_number(name.subrange(11, dash), u32::MAX as nat),
                parse_number(name.subrange(dash + 1, n), u64::MAX as nat),
            ) {
                (Some(seq), Some(offset)) => Some(
                    EventWalPos { file_seq: seq as u32, offset: offset as u64 },
                ),
                _ => None,
            }
        }
    }
}

/// Name of the checkpoint that covers `pos`.
pub fn checkpoint_file_name(pos: EventWalPos) -> (name: String)
    ensures
        name@ == checkpoint_name(pos),
{
    let mut name: String = "checkpoint-".to_owned();
    push_decimal_padded(&mut name, pos.file_seq as u64, 8);
    name.append("-");
    push_decimal(&mut name, pos.offset);
    name
}

/// Path of the checkpoint that covers `pos` in `dir`.
pub fn checkpoint_file_path(dir: &str, pos: EventWalPos) -> (path: String)
    ensures
        path@ == path_join(dir@, checkpoint_name(pos)),
{
    join_path(dir, checkpoint_file_name(pos).as_str())
}

/// Whether `chars` starts with `checkpoint-`.
fn has_checkpoint_prefix(chars: &Vec<char>) -> (r: bool)
    ensures
        r == (chars@.len() >= 11 && chars@.subrange(0, 11) == "checkpoint-"@),
{
    proof {
        reveal_strlit("checkpoint-");
    }
    if chars.len() < 11 {
        return false;
    }
    let ghost head = chars@.subrange(0, 11);
    let r = chars[0] == 'c' && chars[1] == 'h' && chars[2] == 'e' && chars[3] == 'c' && chars[4]
        == 'k' && chars[5] == 'p' && chars[6] == 'o' && chars[7] == 'i' && chars[8] == 'n'
        && chars[9] == 't' && chars[10] == '-';
    proof {
        if r {
            assert(head =~= "checkpoint-"@);
        } else {
            assert(head[0] == chars@[0] && head[1] == chars@[1] && head[2] == chars@[2] && head[3]
                == chars@[3] && head[4] == chars@[4] && head[5] == chars@[5] && head[6]
                == chars@[6] && head[7] == chars@[7] && head[8] == chars@[8] && head[9]
                == chars@[9] && head[10] == chars@[10]);
        }
    }
    r
}

/// Reads the covered position from the name of a checkpoint.
pub fn parse_checkpoint_name(name: &str) -> (pos: Option<EventWalPos>)
    ensures
        pos == checkpoint_pos(name@),
{
    let chars = chars_of(name);
    let n: usize = chars.len();
    if !has_checkpoint_prefix(&chars) {
        return None;
    }
    let mut dash: usize = 11;
    while dash < n && chars[dash] != '-'
        invariant
            11 <= dash <= n == chars@.len(),
            first_dash(chars@, 11) == first_dash(chars@, dash as int),
        decreases n - dash,
    {
        dash = dash + 1;
    }
    if dash >= n {
        return None;
    }
    let seq = parse_number_at(&chars, 11, dash, u32::MAX as u64);
    let offset = parse_number_at(&chars, dash + 1, n, u64::MAX);
    match (seq, offset) {
        (Some(seq), Some(offset)) => Some(EventWalPos { file_seq: seq as u32, offset }),
        _ => None,
    }
}

/// The name of a checkpoint gives back the position that it covers.
pub proof fn law_checkpoint_name_round_trip(pos: EventWalPos)
    ensures
        checkpoint_pos(checkpoint_name(pos)) == Some(pos),
{
    reveal_strlit("checkpoint-");
    reveal_strlit("-");
    let name = checkpoint_name(pos);
    let n = name.len() as int;
    let seq = zero_padded(decimal(pos.file_seq as nat), 8);
    let offset = decimal(pos.offset as nat);
    let dash = 11 + seq.len() as int;
    lemma_decimal_round_trip(pos.file_seq as nat, 8);
    lemma_decimal_round_trip(pos.offset as nat, 0);
    assert(name.subrange(0, 11) =~= "checkpoint-"@);
    assert(name.subrange(11, dash) =~= seq);
    assert(name[dash] == '-');
    assert(name.subrange(dash + 1, n) =~= offset);
    assert forall|i: int| 11 <= i < dash implies #[trigger] name[i] != '-' by {
        assert(name[i] == seq[i - 11]);
    }
    lemma_first_dash(name, dash, 11);
    assert('0' <= seq[0] <= '9');
    assert('0' <= offset[0] <= '9');
}

proof fn lemma_first_dash(s: Seq<char>, dash: int, from: int)
    requires
        0 <= from <= dash < s.len(),
        s[dash] == '-',
        forall|i: int| from <= i < dash ==> #[trigger] s[i] != '-',
    ensures
        first_dash(s, from) == dash,
    decreases dash - from,
{
    if from < dash {
        lemma_first_dash(s, dash, from + 1);
    }
}

/// A left-over of a checkpoint write that did not complete.
pub open spec fn orphan_tmp_name(name: Seq<char>) -> bool {
    let n = name.len() as int;
    n >= 11 && name.subrange(0, 11) == "checkpoint-"@ && name.subrange(n - 4, n) == ".tmp"@
}

/// Whether a file is the left-over of a checkpoint write that did not
/// complete, to be removed.
pub fn is_orphan_tmp(name: &str) -> (r: bool)
    ensures
        r == orphan_tmp_name(name@),
{
    let chars = chars_of(name);
    let n: usize = chars.len();
    if !has_checkpoint_prefix(&chars) {
        return false;
    }
    proof {
        reveal_strlit(".tmp");
    }
    let ghost tail = name@.subrange(n - 4, n as int);
    let r = chars[n - 4] == '.' && chars[n - 3] == 't' && chars[n - 2] == 'm' && chars[n - 1]
        == 'p';
    proof {
        if r {
            assert(tail =~= ".tmp"@);
        } else {
            assert(tail[0] == chars@[n - 4] && tail[1] == chars@[n - 3] && tail[2] == chars@[n - 2]
                && tail[3] == chars@[n - 1]);
        }
    }
    r
}


/// The position that a sealed entry is written with: `(0, 0)` stands for none.
pub open spec fn written_pos(e: EntryView) -> DataWalPos {
    match e.data_wal_pos {
        Some(pos) => pos,
        None => DataWalPos { file_seq: 0, offset: 0 },
    }
}

/// The bytes that a sealed entry has behind its metadata.
pub open spec fn sealed_tail(e: EntryView) -> Seq<u8> {
    le_u32(written_pos(e).file_seq) + le_u64(written_pos(e).offset) + (match e.repacked_from {
        Some(old_id) => seq![1u8] + id_bytes(old_id),
        None => seq![0u8],
    })
}

/// The bytes of an entry, given those of its metadata.
#[verifier::opaque]
pub open spec fn entry_bytes(id: SegmentId, e: EntryView, meta: Seq<u8>) -> Seq<u8> {
    id_bytes(id) + seq![
        if e.state == SegmentState::Sealed {
            1u8
        } else {
            0u8
        },
    ] + le_u32(meta.len() as u32) + meta + (if e.state == SegmentState::Sealed {
        sealed_tail(e)
    } else {
        Seq::empty()
    })
}

/// The bytes of a list of entries.
pub open spec fn entries_bytes(s: Seq<(SegmentId, EntryView)>) -> Seq<u8>
    decreases s.len(),
{
    if s.len() == 0 {
        Seq::empty()
    } else {
        entry_bytes(s[0].0, s[0].1, metadata_bytes(s[0].1.metadata)->0) + entries_bytes(
            s.drop_first(),
        )
    }
}

/// A snapshot of a list of entries, without its checksum.
pub open spec fn snapshot_body(s: Seq<(SegmentId, EntryView)>, pos: EventWalPos) -> Seq<u8> {
    checkpoint_magic() + seq![CHECKPOINT_VERSION] + le_u32(pos.file_seq) + le_u64(pos.offset)
        + le_u32(s.len() as u32) + entries_bytes(s)
}

/// A snapshot of a list of entries that covers `pos`.
#[verifier::opaque]
pub open spec fn snapshot_bytes(s: Seq<(SegmentId, EntryView)>, pos: EventWalPos) -> Seq<u8> {
    snapshot_body(s, pos) + le_u32(crc32(snapshot_body(s, pos)))
}

/// The metadata of every entry can be written.
pub open spec fn all_writable(s: Seq<(SegmentId, EntryView)>) -> bool {
    forall|i: int| 0 <= i < s.len() ==> metadata_bytes((#[trigger] s[i]).1.metadata) is Some
}

/// The number of entries and the length of their metadata fit their fields.
pub open spec fn snapshot_fits(s: Seq<(SegmentId, EntryView)>) -> bool {
    &&& s.len() <= u32::MAX
    &&& forall|i: int|
        0 <= i < s.len() ==> metadata_bytes((#[trigger] s[i]).1.metadata)->0.len() <= u32::MAX
}

/// One entry of a snapshot, as it is read.
pub struct ParsedEntry {
    pub id: SegmentId,
    pub sealed: bool,
    pub metadata: MetadataView,
    pub data_wal_pos: DataWalPos,
    pub repacked_from: Option<SegmentId>,
    pub size: int,
}

/// The entry at the start of `b`; `None` when it is cut short or malformed.
#[verifier::opaque]
pub open spec fn parse_entry(b: Seq<u8>) -> Option<ParsedEntry> {
    let n = b.len() as int;
    if n < ENTRY_FIXED_SIZE {
        None
    } else {
        let id = id_of_bytes(b.subrange(0, 16));
        let end = ENTRY_FIXED_SIZE + u32_of_le(b.subrange(17, 21));
        if n < end {
            None
        } else {
            match parse_metadata(b.subrange(21, end)) {
                None => None,
                Some(metadata) => if b[16] == 0 {
                    Some(
                        ParsedEntry {
                            id,
                            sealed: false,
                            metadata,
                            data_wal_pos: DataWalPos { file_seq: 0, offset: 0 },
                            repacked_from: None,
                            size: end,
                        },
                    )
                } else if b[16] != 1 || n < end + 13 {
                    None
                } else {
                    let data_wal_pos = DataWalPos {
                        file_seq: u32_of_le(b.subrange(end, end + 4)),
                        offset: u64_of_le(b.subrange(end + 4, end + 12)),
                    };
                    if b[end + 12] == 0 {
                        Some(
                            ParsedEntry {
                                id,
                                sealed: true,
                                metadata,
                                data_wal_pos,
                                repacked_from: None,
                                size: end + 13,
                            },
                        )
                    } else if b[end + 12] == 1 && n >= end + 29 {
                        Some(
                            ParsedEntry {
                                id,
                                sealed: true,
                                metadata,
                                data_wal_pos,
                                repacked_from: Some(id_of_bytes(b.subrange(end + 13, end + 29))),
                                size: end + 29,
                            },
                        )
                    } else {
                        None
                    }
                },
            }
        }
    }
}

/// Puts a read entry into a registry: a reserved segment is reserved, a sealed
/// one is reserved and sealed. `None` when the segment is sealed already.
pub open spec fn apply_entry(m: Entries, p: ParsedEntry) -> Option<Entries> {
    if reserve_outcome(entry_at(m, p.id, 0)) is Err {
        None
    } else if !p.sealed {
        Some(after_reserve(m, p.id, p.metadata, 0))
    } else {
        let reserved = after_reserve(
            m,
            p.id,
            reserved_metadata(p.id, p.metadata.size_tier, p.metadata.ec_k, p.metadata.ec_m),
            0,
        );
        let placed = after_record_pos(reserved, p.id, p.data_wal_pos);
        Some(after_seal(placed, p.id, p.metadata, p.repacked_from, 0))
    }
}

/// Reads `count` entries from the start of `b` into a registry.
pub open spec fn parse_entries(b: Seq<u8>, count: nat, m: Entries) -> Option<Entries>
    decreases count,
{
    if count == 0 {
        Some(m)
    } else {
        match parse_entry(b) {
            None => None,
            Some(p) => match apply_entry(m, p) {
                None => None,
                Some(next) => parse_entries(b.skip(p.size), (count - 1) as nat, next),
            },
        }
    }
}

/// A file has the frame of a checkpoint of the given version: magic, version
/// and checksum are right.
pub open spec fn framed(b: Seq<u8>, version: u8) -> bool {
    let n = b.len() as int;
    &&& n >= CHECKPOINT_HEADER_SIZE + 4
    &&& b.subrange(0, 4) == checkpoint_magic()
    &&& b[4] == version
    &&& u32_of_le(b.subrange(n - 4, n)) == crc32(b.subrange(0, n - 4))
}

/// The covered position and the registry that a snapshot stands for; `None`
/// when it is malformed.
#[verifier::opaque]
pub open spec fn parse_snapshot(b: Seq<u8>) -> Option<(EventWalPos, Entries)> {
    if !framed(b, CHECKPOINT_VERSION) {
        None
    } else {
        let covered = EventWalPos {
            file_seq: u32_of_le(b.subrange(5, 9)),
            offset: u64_of_le(b.subrange(9, 17)),
        };
        match parse_entries(
            b.subrange(21, b.len() - 4),
            u32_of_le(b.subrange(17, 21)) as nat,
            Map::empty(),
        ) {
            Some(m) => Some((covered, m)),
            None => None,
        }
    }
}

/// Bytes of another version, the one before storage pools among them, or too
/// short for a frame, stand for no snapshot, whatever their checksum.
pub proof fn law_other_frames_are_refused(b: Seq<u8>)
    requires
        b.len() < CHECKPOINT_HEADER_SIZE + 4 || b[4] != CHECKPOINT_VERSION,
    ensures
        parse_snapshot(b) is None,
{
    reveal(parse_snapshot);
}

/// What a snapshot keeps of an entry: its state and metadata, and for a sealed
/// segment its position and the repacked-from marker.
pub open spec fn snapshot_entry(e: EntryView) -> EntryView {
    if e.state == SegmentState::Sealed {
        EntryView {
            data_wal_pos: Some(written_pos(e)),
            repacked_from: e.repacked_from,
            ..EntryView::fresh(SegmentState::Sealed, e.metadata)
        }
    } else {
        EntryView::fresh(SegmentState::Reserved, e.metadata)
    }
}

/// What a snapshot keeps of a registry: its live entries.
pub open spec fn snapshot_of(m: Entries) -> Entries {
    Map::new(|id: SegmentId| is_live(m, id), |id: SegmentId| snapshot_entry(m[id]))
}

/// The registry that a list of entries is read back as.
pub open spec fn listed(s: Seq<(SegmentId, EntryView)>) -> Entries
    decreases s.len(),
{
    if s.len() == 0 {
        Map::empty()
    } else {
        listed(s.drop_last()).insert(s.last().0, snapshot_entry(s.last().1))
    }
}

/// Writes a snapshot of the live entries that covers `up_to`.
///
/// Fails when the metadata of an entry cannot be written. A snapshot that fits
/// its fields reads back as what it keeps of the registry. It does not read
/// back with any one byte of it changed.
pub fn encode_snapshot(registry: &SegmentLifecycleRegistry, up_to: EventWalPos) -> (r: Result<
    Vec<u8>,
    Error,
>)
    ensures
        exists|s: Seq<(SegmentId, EntryView)>| #[trigger]
            is_live_listing(registry@, s) && match r {
                Ok(bytes) => {
                    &&& all_writable(s)
                    &&& bytes@ == snapshot_bytes(s, up_to)
                    &&& snapshot_fits(s) ==> parse_snapshot(bytes@) == Some(
                        (up_to, snapshot_of(registry@)),
                    )
                    &&& forall|other: Seq<u8>| #[trigger]
                        one_byte_off(bytes@, other) ==> parse_snapshot(other) is None
                },
                Err(e) => exists|i: int|
                    0 <= i < s.len() && metadata_bytes((#[trigger] s[i]).1.metadata) is None
                        && all_writable(s.take(i)) && e == Error::MetadataEncoding(s[i].0),
            },
{
    proof {
        reveal(snapshot_bytes);
    }
    let live = registry.for_each();
    let ghost s = listing_view(live@);
    let n: usize = live.len();
    let mut buf: Vec<u8> = Vec::new();
    buf.push(0x43);
    buf.push(0x48);
    buf.push(0x4B);
    buf.push(1);
    buf.push(CHECKPOINT_VERSION);
    push_u32_le(&mut buf, up_to.file_seq);
    push_u64_le(&mut buf, up_to.offset);
    push_u32_le(&mut buf, #[verifier::truncate] (n as u32));
    let ghost head = buf@;
    assert(head + entries_bytes(s) =~= snapshot_body(s, up_to));
    assert(s.skip(0) =~= s);
    let mut i: usize = 0;
    while i < n
        invariant
            i <= n == live@.len(),
            s == listing_view(live@),
            is_live_listing(registry@, s),
            head + entries_bytes(s) =~= buf@ + entries_bytes(s.skip(i as int)),
            forall|k: int|
                0 <= k < i ==> metadata_bytes((#[trigger] s[k]).1.metadata) is Some
                    && parse_metadata(metadata_bytes(s[k].1.metadata)->0) == Some(s[k].1.metadata),
        decreases n - i,
    {
        let (id, entry) = &live[i];
        assert(s[i as int] == (*id, entry@));
        match encode_metadata(&entry.metadata) {
            None => {
                assert(all_writable(s.take(i as int)));
                return Err(Error::MetadataEncoding(*id));
            },
            Some(meta) => {
                let ghost before = buf@;
                push_entry(&mut buf, *id, entry, &meta);
                proof {
                    assert(s.skip(i as int).drop_first() =~= s.skip(i + 1));
                    assert(buf@ =~= before + entry_bytes(*id, entry@, meta@));
                }
            },
        }
        i = i + 1;
    }
    assert(entries_bytes(s.skip(n as int)) =~= Seq::empty());
    assert(buf@ =~= snapshot_body(s, up_to));
    let crc: u32 = crc32_of(buf.as_slice());
    push_u32_le(&mut buf, crc);
    proof {
        if snapshot_fits(s) {
            assert forall|k: int| 0 <= k < s.len() implies (#[trigger] s[k]).1.state
                != SegmentState::Deleted by {
                assert(is_live(registry@, s[k].0));
            }
            assert(readable(s));
            lemma_snapshot_reads_back(registry@, s, up_to);
        }
        assert forall|other: Seq<u8>| #[trigger] one_byte_off(buf@, other) implies parse_snapshot(
            other,
        ) is None by {
            reveal(parse_snapshot);
            lemma_changed_byte(snapshot_body(s, up_to), other);
        }
    }
    Ok(buf)
}

/// Appends an entry with the bytes of its metadata.
fn push_entry(buf: &mut Vec<u8>, id: SegmentId, entry: &LifecycleEntry, meta: &Vec<u8>)
    ensures
        final(buf)@ == old(buf)@ + entry_bytes(id, entry@, meta@),
{
    proof {
        reveal(entry_bytes);
    }
    id.push_to(buf);
    let sealed = match entry.state {
        SegmentState::Sealed => true,
        _ => false,
    };
    buf.push(if sealed {
        1
    } else {
        0
    });
    let len: usize = meta.len();
    push_u32_le(buf, #[verifier::truncate] (len as u32));
    buf.extend_from_slice(meta.as_slice());
    if sealed {
        let pos = match entry.data_wal_pos {
            Some(pos) => pos,
            None => DataWalPos { file_seq: 0, offset: 0 },
        };
        push_u32_le(buf, pos.file_seq);
        push_u64_le(buf, pos.offset);
        match entry.repacked_from {
            Some(old_id) => {
                buf.push(1);
                old_id.push_to(buf);
            },
            None => {
                buf.push(0);
            },
        }
    }
    assert(buf@ =~= old(buf)@ + entry_bytes(id, entry@, meta@));
}

/// Whether the file has the frame of a checkpoint of the given version.
fn is_framed(bytes: &[u8], version: u8) -> (r: bool)
    ensures
        r == framed(bytes@, version),
{
    let n: usize = bytes.len();
    if n < CHECKPOINT_HEADER_SIZE + 4 {
        return false;
    }
    let ghost m = bytes@.subrange(0, 4);
    let magic = bytes[0] == 0x43 && bytes[1] == 0x48 && bytes[2] == 0x4B && bytes[3] == 1;
    proof {
        if magic {
            assert(m =~= checkpoint_magic());
        } else {
            assert(m[0] == bytes@[0] && m[1] == bytes@[1] && m[2] == bytes@[2] && m[3]
                == bytes@[3]);
        }
    }
    magic && bytes[4] == version && read_u32_le(bytes, n - 4) == crc32_of(&bytes[0..n - 4])
}

/// Whether a file is a whole checkpoint from before storage pools.
pub fn is_pre_pool_checkpoint(bytes: &[u8]) -> (r: bool)
    ensures
        r == framed(bytes@, PRE_POOL_VERSION),
{
    is_framed(bytes, PRE_POOL_VERSION)
}

/// Reads a snapshot into a fresh registry; `None` on any framing error.
pub fn decode_snapshot(bytes: &[u8]) -> (r: Option<(EventWalPos, SegmentLifecycleRegistry)>)
    ensures
        match r {
            Some((covered, registry)) => parse_snapshot(bytes@) == Some((covered, registry@))
                && registry.grace() == 0,
            None => parse_snapshot(bytes@) is None,
        },
{
    proof {
        reveal(parse_snapshot);
    }
    if !is_framed(bytes, CHECKPOINT_VERSION) {
        return None;
    }
    let covered = EventWalPos { file_seq: read_u32_le(bytes, 5), offset: read_u64_le(bytes, 9) };
    let entry_count: u32 = read_u32_le(bytes, 17);
    let mut registry = SegmentLifecycleRegistry::new(&LifecycleConfig::default());
    let end: usize = bytes.len() - 4;
    let ghost body = bytes@.subrange(21, end as int);
    let ghost all = parse_entries(body, entry_count as nat, Map::empty());
    let mut cursor: usize = CHECKPOINT_HEADER_SIZE;
    let mut i: u32 = 0;
    assert(bytes@.subrange(cursor as int, end as int) =~= body);
    while i < entry_count
        invariant
            i <= entry_count,
            end == bytes@.len() - 4,
            21 <= cursor <= end,
            registry.grace() == 0,
            all == parse_entries(
                bytes@.subrange(cursor as int, end as int),
                (entry_count - i) as nat,
                registry@,
            ),
            framed(bytes@, CHECKPOINT_VERSION),
            body == bytes@.subrange(21, end as int),
            entry_count == u32_of_le(bytes@.subrange(17, 21)),
            all == parse_entries(body, entry_count as nat, Map::empty()),
        decreases entry_count - i,
    {
        let ghost rest = bytes@.subrange(cursor as int, end as int);
        match decode_entry(bytes, cursor, end, &mut registry) {
            None => {
                proof {
                    reveal(parse_snapshot);
                }
                return None;
            },
            Some(next) => {
                proof {
                    let p = parse_entry(rest)->0;
                    assert(rest.skip(p.size) =~= bytes@.subrange(next as int, end as int));
                }
                cursor = next;
            },
        }
        i = i + 1;
    }
    Some((covered, registry))
}

/// Reads the entry at `at` into the registry, and gives the place behind it.
fn decode_entry(
    bytes: &[u8],
    at: usize,
    end: usize,
    registry: &mut SegmentLifecycleRegistry,
) -> (next: Option<usize>)
    requires
        at <= end <= bytes@.len(),
    ensures
        final(registry).grace() == old(registry).grace(),
        match (next, parse_entry(bytes@.subrange(at as int, end as int))) {
            (Some(to), Some(p)) => {
                &&& apply_entry(old(registry)@, p) == Some(final(registry)@)
                &&& to == at + p.size
                &&& at <= to <= end
                &&& 0 <= p.size
            },
            (None, Some(p)) => apply_entry(old(registry)@, p) is None,
            (Some(_), None) => false,
            (None, None) => true,
        },
{
    proof {
        reveal(parse_entry);
    }
    let ghost b = bytes@.subrange(at as int, end as int);
    if end - at < ENTRY_FIXED_SIZE {
        return None;
    }
    assert(b.subrange(0, 16) =~= bytes@.subrange(at as int, at + 16));
    assert(b.subrange(17, 21) =~= bytes@.subrange(at + 17, at + 21));
    assert(b[16] == bytes@[at + 16]);
    let id = SegmentId::read(bytes, at);
    let state: u8 = bytes[at + 16];
    let meta_len: u32 = read_u32_le(bytes, at + 17);
    let rest: usize = end - at - ENTRY_FIXED_SIZE;
    if (rest as u64) < meta_len as u64 {
        return None;
    }
    let meta_end: usize = at + ENTRY_FIXED_SIZE + meta_len as usize;
    assert(b.subrange(21, 21 + meta_len) =~= bytes@.subrange(at + 21, meta_end as int));
    let meta = match decode_metadata(&bytes[at + ENTRY_FIXED_SIZE..meta_end]) {
        Some(meta) => meta,
        None => {
            return None;
        },
    };
    if state == 0 {
        return match registry.reserve(id, meta, 0) {
            Ok(()) => Some(meta_end),
            Err(_) => None,
        };
    }
    if state != 1 || end - meta_end < 13 {
        return None;
    }
    let ghost e = 21 + meta_len as int;
    assert(b.subrange(e, e + 4) =~= bytes@.subrange(meta_end as int, meta_end + 4));
    assert(b.subrange(e + 4, e + 12) =~= bytes@.subrange(meta_end + 4, meta_end + 12));
    assert(b[e + 12] == bytes@[meta_end + 12]);
    let data_wal_pos = DataWalPos {
        file_seq: read_u32_le(bytes, meta_end),
        offset: read_u64_le(bytes, meta_end + 4),
    };
    let flag: u8 = bytes[meta_end + 12];
    let mut next: usize = meta_end + 13;
    let mut repacked_from: Option<SegmentId> = None;
    if flag == 1 {
        if end - next < 16 {
            return None;
        }
        assert(b.subrange(e + 13, e + 29) =~= bytes@.subrange(next as int, next + 16));
        repacked_from = Some(SegmentId::read(bytes, next));
        next = next + 16;
    } else if flag != 0 {
        return None;
    }
    let reserved = SegmentMetadata::reserved(id, meta.size_tier, meta.ec_k, meta.ec_m);
    match registry.reserve(id, reserved, 0) {
        Ok(()) => {},
        Err(_) => {
            return None;
        },
    }
    registry.record_data_wal_pos(id, data_wal_pos);
    match registry.seal_with(id, meta, repacked_from, 0) {
        Ok(()) => Some(next),
        Err(_) => None,
    }
}


/// The entries read back one by one: their metadata reads back, and none is
/// deleted.
spec fn readable(s: Seq<(SegmentId, EntryView)>) -> bool {
    forall|k: int|
        0 <= k < s.len() ==> (#[trigger] s[k]).1.state != SegmentState::Deleted && metadata_bytes(
            s[k].1.metadata,
        ) is Some && parse_metadata(metadata_bytes(s[k].1.metadata)->0) == Some(s[k].1.metadata)
            && metadata_bytes(s[k].1.metadata)->0.len() <= u32::MAX
}

/// What a written entry is read as.
spec fn parsed_of(id: SegmentId, e: EntryView, size: int) -> ParsedEntry {
    let sealed = e.state == SegmentState::Sealed;
    ParsedEntry {
        id,
        sealed,
        metadata: e.metadata,
        data_wal_pos: if sealed {
            written_pos(e)
        } else {
            DataWalPos { file_seq: 0, offset: 0 }
        },
        repacked_from: if sealed {
            e.repacked_from
        } else {
            None
        },
        size,
    }
}

proof fn lemma_entry_reads_back(id: SegmentId, e: EntryView, meta: Seq<u8>, tail: Seq<u8>)
    requires
        e.state != SegmentState::Deleted,
        parse_metadata(meta) == Some(e.metadata),
        meta.len() <= u32::MAX,
    ensures
        parse_entry(entry_bytes(id, e, meta) + tail) == Some(
            parsed_of(id, e, entry_bytes(id, e, meta).len() as int),
        ),
{
    reveal(entry_bytes);
    reveal(parse_entry);
    let w = entry_bytes(id, e, meta);
    let b = w + tail;
    let end = 21 + meta.len() as int;
    lemma_id_round_trip(id);
    lemma_u32_round_trip(meta.len() as u32);
    assert(b.subrange(0, 16) =~= id_bytes(id));
    assert(b.subrange(17, 21) =~= le_u32(meta.len() as u32));
    assert(b.subrange(21, end) =~= meta);
    if e.state == SegmentState::Sealed {
        let pos = written_pos(e);
        lemma_u32_round_trip(pos.file_seq);
        lemma_u64_round_trip(pos.offset);
        assert(b.subrange(end, end + 4) =~= le_u32(pos.file_seq));
        assert(b.subrange(end + 4, end + 12) =~= le_u64(pos.offset));
        if let Some(old_id) = e.repacked_from {
            lemma_id_round_trip(old_id);
            assert(b.subrange(end + 13, end + 29) =~= id_bytes(old_id));
        }
    }
}

proof fn lemma_apply_fresh(m: Entries, id: SegmentId, e: EntryView, size: int)
    requires
        e.state != SegmentState::Deleted,
        !m.contains_key(id),
        forall|x: SegmentId| #[trigger] m.contains_key(x) ==> m[x].state != SegmentState::Deleted,
    ensures
        apply_entry(m, parsed_of(id, e, size)) == Some(m.insert(id, snapshot_entry(e))),
{
    assert(evicted(m, 0) =~= m);
    if e.state == SegmentState::Sealed {
        let reserved = after_reserve(
            m,
            id,
            reserved_metadata(id, e.metadata.size_tier, e.metadata.ec_k, e.metadata.ec_m),
            0,
        );
        let placed = after_record_pos(reserved, id, written_pos(e));
        assert(evicted(placed, 0) =~= placed);
        assert(after_seal(placed, id, e.metadata, e.repacked_from, 0) =~= m.insert(
            id,
            snapshot_entry(e),
        ));
    }
}

proof fn lemma_listed(s: Seq<(SegmentId, EntryView)>)
    requires
        forall|i: int, j: int|
            0 <= i < j < s.len() ==> (#[trigger] s[i]).0.bits < (#[trigger] s[j]).0.bits,
        forall|k: int| 0 <= k < s.len() ==> (#[trigger] s[k]).1.state != SegmentState::Deleted,
    ensures
        forall|id: SegmentId| #[trigger]
            listed(s).contains_key(id) ==> exists|k: int|
                0 <= k < s.len() && (#[trigger] s[k]).0 == id && listed(s)[id] == snapshot_entry(
                    s[k].1,
                ),
        forall|k: int| 0 <= k < s.len() ==> listed(s).contains_key((#[trigger] s[k]).0),
        forall|id: SegmentId| #[trigger]
            listed(s).contains_key(id) ==> listed(s)[id].state != SegmentState::Deleted,
    decreases s.len(),
{
    if s.len() > 0 {
        let front = s.drop_last();
        assert(forall|i: int| 0 <= i < front.len() ==> front[i] == s[i]);
        lemma_listed(front);
        let last = s.len() - 1;
        assert forall|id: SegmentId| #[trigger] listed(s).contains_key(id) implies exists|k: int|
            0 <= k < s.len() && (#[trigger] s[k]).0 == id && listed(s)[id] == snapshot_entry(
                s[k].1,
            ) by {
            if id == s.last().0 {
                assert(s[last].0 == id);
            } else {
                assert(listed(front).contains_key(id));
                let k = choose|k: int|
                    0 <= k < front.len() && (#[trigger] front[k]).0 == id && listed(front)[id]
                        == snapshot_entry(front[k].1);
                assert(s[k].0 == id);
            }
        }
        assert forall|k: int| 0 <= k < s.len() implies listed(s).contains_key(
            (#[trigger] s[k]).0,
        ) by {
            if k < last {
                assert(listed(front).contains_key(front[k].0));
            }
        }
    }
}

proof fn lemma_entries_read_back(s: Seq<(SegmentId, EntryView)>, i: int)
    requires
        0 <= i <= s.len(),
        readable(s),
        forall|a: int, b: int|
            0 <= a < b < s.len() ==> (#[trigger] s[a]).0.bits < (#[trigger] s[b]).0.bits,
    ensures
        parse_entries(entries_bytes(s.skip(i)), (s.len() - i) as nat, listed(s.take(i))) == Some(
            listed(s),
        ),
    decreases s.len() - i,
{
    if i == s.len() {
        assert(s.take(i) =~= s);
    } else {
        let t = s.take(i);
        let (id, e) = s[i];
        let meta = metadata_bytes(e.metadata)->0;
        let w = entry_bytes(id, e, meta);
        let tail = entries_bytes(s.skip(i + 1));
        assert(s[i].1.state != SegmentState::Deleted);
        assert(s.skip(i).drop_first() =~= s.skip(i + 1));
        assert(s.skip(i)[0] == s[i]);
        assert(entries_bytes(s.skip(i)) == w + tail);
        lemma_entry_reads_back(id, e, meta, tail);
        assert forall|a: int, b: int| 0 <= a < b < t.len() implies (#[trigger] t[a]).0.bits < (
        #[trigger] t[b]).0.bits by {
            assert(s[a].0.bits < s[b].0.bits);
        }
        assert forall|k: int| 0 <= k < t.len() implies (#[trigger] t[k]).1.state
            != SegmentState::Deleted by {
            assert(s[k].1.state != SegmentState::Deleted);
        }
        lemma_listed(t);
        assert(!listed(t).contains_key(id)) by {
            if listed(t).contains_key(id) {
                let k = choose|k: int|
                    0 <= k < t.len() && (#[trigger] t[k]).0 == id && listed(t)[id]
                        == snapshot_entry(t[k].1);
                assert(s[k].0.bits < s[i].0.bits);
            }
        }
        lemma_apply_fresh(listed(t), id, e, w.len() as int);
        assert(s.take(i + 1).drop_last() =~= t);
        assert((w + tail).skip(w.len() as int) =~= tail);
        lemma_entries_read_back(s, i + 1);
    }
}

proof fn lemma_snapshot_reads_back(m: Entries, s: Seq<(SegmentId, EntryView)>, pos: EventWalPos)
    requires
        is_live_listing(m, s),
        snapshot_fits(s),
        readable(s),
    ensures
        parse_snapshot(snapshot_bytes(s, pos)) == Some((pos, snapshot_of(m))),
{
    reveal(snapshot_bytes);
    reveal(parse_snapshot);
    let body = snapshot_body(s, pos);
    let b = snapshot_bytes(s, pos);
    let n = b.len() as int;
    lemma_u32_round_trip(pos.file_seq);
    lemma_u64_round_trip(pos.offset);
    lemma_u32_round_trip(s.len() as u32);
    lemma_u32_round_trip(crc32(body));
    assert(b.subrange(0, 4) =~= checkpoint_magic());
    assert(b.subrange(5, 9) =~= le_u32(pos.file_seq));
    assert(b.subrange(9, 17) =~= le_u64(pos.offset));
    assert(b.subrange(17, 21) =~= le_u32(s.len() as u32));
    assert(b.subrange(21, n - 4) =~= entries_bytes(s));
    assert(b.subrange(n - 4, n) =~= le_u32(crc32(body)));
    assert(b.subrange(0, n - 4) =~= body);
    lemma_entries_read_back(s, 0);
    assert(s.skip(0) =~= s);
    assert(s.take(0) =~= Seq::empty());
    assert(listed(s.take(0)) =~= Map::empty());
    assert(listed(s) =~= snapshot_of(m)) by {
        lemma_listed(s);
        assert forall|id: SegmentId| is_live(m, id) implies #[trigger] listed(s).contains_key(
            id,
        ) by {
            let k = choose|k: int| 0 <= k < s.len() && (#[trigger] s[k]).0 == id;
            assert(listed(s).contains_key(s[k].0));
        }
        assert forall|id: SegmentId| #[trigger] listed(s).contains_key(id) implies is_live(m, id)
            && listed(s)[id] == snapshot_entry(m[id]) by {
            let k = choose|k: int|
                0 <= k < s.len() && (#[trigger] s[k]).0 == id && listed(s)[id] == snapshot_entry(
                    s[k].1,
                );
            assert(is_live(m, s[k].0));
        }
    }
}


/// What a checkpoint file is good for.
pub enum Verdict {
    /// It is valid and covers the position of its name.
    Use(SegmentLifecycleRegistry),
    /// It is damaged or does not match its name: an older one is tried.
    Skip,
    /// It was written before storage pools: start-up is refused.
    PrePool,
}

/// The view of [`Verdict`].
pub enum VerdictView {
    Use(Entries),
    Skip,
    PrePool,
}

impl View for Verdict {
    type V = VerdictView;

    open spec fn view(&self) -> VerdictView {
        match *self {
            Verdict::Use(registry) => VerdictView::Use(registry@),
            Verdict::Skip => VerdictView::Skip,
            Verdict::PrePool => VerdictView::PrePool,
        }
    }
}

/// What the checkpoint file for `pos` with the given bytes is good for.
pub open spec fn verdict(pos: EventWalPos, raw: Seq<u8>) -> VerdictView {
    match parse_snapshot(raw) {
        Some((covered, m)) => if covered == pos {
            VerdictView::Use(m)
        } else {
            VerdictView::Skip
        },
        None => if framed(raw, PRE_POOL_VERSION) {
            VerdictView::PrePool
        } else {
            VerdictView::Skip
        },
    }
}

/// Judges the checkpoint file for `pos`.
pub fn judge_checkpoint(pos: EventWalPos, raw: &[u8]) -> (v: Verdict)
    ensures
        v@ == verdict(pos, raw@),
        v matches Verdict::Use(registry) ==> registry.grace() == 0,
{
    match decode_snapshot(raw) {
        Some((covered, registry)) => if covered == pos {
            Verdict::Use(registry)
        } else {
            Verdict::Skip
        },
        None => if is_pre_pool_checkpoint(raw) {
            Verdict::PrePool
        } else {
            Verdict::Skip
        },
    }
}

/// A checkpoint file: the position of its name, and its bytes if it could be
/// read.
#[derive(Debug, PartialEq, Eq)]
pub struct CheckpointFile {
    /// The position of its name.
    pub pos: EventWalPos,
    /// Its bytes; `None` when it could not be read.
    pub raw: Option<Vec<u8>>,
}

/// What a checkpoint file is good for; one that could not be read is skipped.
pub open spec fn file_verdict(f: CheckpointFile) -> VerdictView {
    match f.raw {
        Some(raw) => verdict(f.pos, raw@),
        None => VerdictView::Skip,
    }
}

/// Every file newer than `pos` is skipped.
pub open spec fn newer_skipped(files: Seq<CheckpointFile>, pos: EventWalPos) -> bool {
    forall|i: int|
        0 <= i < files.len() && pos.before((#[trigger] files[i]).pos) ==> file_verdict(files[i])
            is Skip
}

/// What to write for a checkpoint.
#[derive(Debug, PartialEq, Eq)]
pub struct CheckpointWrite {
    /// Name of the checkpoint file.
    pub name: String,
    /// Its bytes.
    pub bytes: Vec<u8>,
    /// What the write gives.
    pub info: CheckpointInfo,
}

/// The checkpoint manager: the newest covered position.
pub struct EventCheckpoint {
    last_covered: Option<EventWalPos>,
}

impl View for EventCheckpoint {
    type V = Option<EventWalPos>;

    closed spec fn view(&self) -> Option<EventWalPos> {
        self.last_covered
    }
}

/// `newest` is the newest position in the names of checkpoints among `names`.
pub open spec fn is_newest(names: Seq<String>, newest: Option<EventWalPos>) -> bool {
    match newest {
        None => forall|i: int|
            0 <= i < names.len() ==> checkpoint_pos((#[trigger] names[i])@) is None,
        Some(pos) => {
            &&& exists|i: int|
                0 <= i < names.len() && checkpoint_pos((#[trigger] names[i])@) == Some(pos)
            &&& forall|i: int|
                0 <= i < names.len() ==> (checkpoint_pos((#[trigger] names[i])@) matches Some(p)
                    ==> !pos.before(p))
        },
    }
}

/// The places of the left-over temporary files among `names`, in order.
pub open spec fn orphan_places(names: Seq<String>) -> Seq<int>
    decreases names.len(),
{
    if names.len() == 0 {
        Seq::empty()
    } else if orphan_tmp_name(names.last()@) {
        orphan_places(names.drop_last()).push(names.len() - 1)
    } else {
        orphan_places(names.drop_last())
    }
}

/// Finds the left-over temporary files among the names of a directory: those
/// that are to be removed.
pub fn orphan_tmp_files(names: &Vec<String>) -> (orphans: Vec<usize>)
    ensures
        orphans@.map_values(|i: usize| i as int) == orphan_places(names@),
{
    let mut orphans: Vec<usize> = Vec::new();
    let n: usize = names.len();
    let mut i: usize = 0;
    assert(names@.take(0) =~= Seq::empty());
    while i < n
        invariant
            i <= n == names@.len(),
            orphans@.map_values(|i: usize| i as int) =~= orphan_places(names@.take(i as int)),
        decreases n - i,
    {
        assert(names@.take(i + 1).drop_last() =~= names@.take(i as int));
        if is_orphan_tmp(names[i].as_str()) {
            orphans.push(i);
        }
        i = i + 1;
    }
    assert(names@.take(n as int) =~= names@);
    orphans
}

impl EventCheckpoint {
    /// Opens the manager on a directory with the given file names: the newest
    /// checkpoint by name is the last one. Gives with it the places of the
    /// left-over temporary files, which are then removed.
    pub fn open(names: &Vec<String>) -> (opened: (Self, Vec<usize>))
        ensures
            is_newest(names@, opened.0@),
            opened.1@.map_values(|i: usize| i as int) == orphan_places(names@),
    {
        let mut newest: Option<EventWalPos> = None;
        let n: usize = names.len();
        let mut i: usize = 0;
        while i < n
            invariant
                i <= n == names@.len(),
                is_newest(names@.take(i as int), newest),
            decreases n - i,
        {
            let ghost done = names@.take(i as int);
            let ghost next = names@.take(i + 1);
            let ghost before = newest;
            proof {
                assert(next =~= done.push(names@[i as int]));
                assert(forall|k: int| 0 <= k < done.len() ==> done[k] == next[k]);
            }
            if let Some(pos) = parse_checkpoint_name(names[i].as_str()) {
                match newest {
                    None => {
                        newest = Some(pos);
                    },
                    Some(best) => {
                        if best.is_before(&pos) {
                            newest = Some(pos);
                        }
                    },
                }
            }
            proof {
                if let Some(best) = newest {
                    if newest == before {
                        let k = choose|k: int|
                            0 <= k < done.len() && checkpoint_pos((#[trigger] done[k])@) == Some(
                                best,
                            );
                        assert(next[k] == done[k]);
                    } else {
                        assert(checkpoint_pos(next[i as int]@) == Some(best));
                    }
                    assert forall|k: int| 0 <= k < next.len() implies (checkpoint_pos(
                        (#[trigger] next[k])@,
                    ) matches Some(p) ==> !best.before(p)) by {
                        if k < i {
                            assert(next[k] == done[k]);
                        }
                    }
                }
            }
            i = i + 1;
        }
        assert(names@.take(n as int) =~= names@);
        (EventCheckpoint { last_covered: newest }, orphan_tmp_files(names))
    }

    /// The snapshot of the registry that covers `up_to`, to be written. It does
    /// not read back with any one byte of it changed.
    pub fn write_checkpoint(&self, registry: &SegmentLifecycleRegistry, up_to: EventWalPos) -> (r:
        Result<CheckpointWrite, Error>)
        ensures
            exists|s: Seq<(SegmentId, EntryView)>| #[trigger]
                is_live_listing(registry@, s) && match r {
                    Ok(w) => {
                        &&& all_writable(s)
                        &&& w.name@ == checkpoint_name(up_to)
                        &&& w.bytes@ == snapshot_bytes(s, up_to)
                        &&& w.info.covered_pos == up_to
                        &&& s.len() <= u32::MAX ==> w.info.entries == s.len()
                        &&& w.info.bytes == w.bytes@.len()
                        &&& snapshot_fits(s) ==> verdict(up_to, w.bytes@) == VerdictView::Use(
                            snapshot_of(registry@),
                        )
                        &&& forall|other: Seq<u8>| #[trigger]
                            one_byte_off(w.bytes@, other) ==> parse_snapshot(other) is None
                    },
                    Err(e) => exists|i: int|
                        0 <= i < s.len() && metadata_bytes((#[trigger] s[i]).1.metadata) is None
                            && all_writable(s.take(i)) && e == Error::MetadataEncoding(s[i].0),
                },
    {
        match encode_snapshot(registry, up_to) {
            Err(e) => Err(e),
            Ok(bytes) => {
                let ghost s = choose|s: Seq<(SegmentId, EntryView)>| #[trigger]
                    is_live_listing(registry@, s) && all_writable(s) && bytes@ == snapshot_bytes(
                        s,
                        up_to,
                    ) && (snapshot_fits(s) ==> parse_snapshot(bytes@) == Some(
                        (up_to, snapshot_of(registry@)),
                    ));
                proof {
                    lemma_u32_round_trip(s.len() as u32);
                    assert(bytes@.len() >= 21 && bytes@.subrange(17, 21) == le_u32(s.len() as u32))
                        by {
                        reveal(snapshot_bytes);
                        assert(bytes@.subrange(17, 21) =~= le_u32(s.len() as u32));
                    }
                }
                let entries: usize = read_u32_le(bytes.as_slice(), 17) as usize;
                let size: u64 = bytes.len() as u64;
                Ok(
                    CheckpointWrite {
                        name: checkpoint_file_name(up_to),
                        bytes,
                        info: CheckpointInfo { covered_pos: up_to, entries, bytes: size },
                    },
                )
            },
        }
    }

    /// Takes note of a checkpoint that is durable.
    pub fn checkpoint_written(&mut self, info: &CheckpointInfo)
        ensures
            final(self)@ == Some(info.covered_pos),
    {
        self.last_covered = Some(info.covered_pos);
    }

    /// Picks the newest valid checkpoint. A damaged one, or one whose content
    /// does not match its name, is passed over for an older one: every
    /// checkpoint is complete at its position. One from before storage pools
    /// is refused.
    pub fn load_checkpoint(files: Vec<CheckpointFile>) -> (r: Result<
        Option<(SegmentLifecycleRegistry, EventWalPos)>,
        Error,
    >)
        ensures
            match r {
                Ok(Some((registry, pos))) => {
                    &&& newer_skipped(files@, pos)
                    &&& registry.grace() == 0
                    &&& exists|i: int|
                        0 <= i < files@.len() && (#[trigger] files@[i]).pos == pos && file_verdict(
                            files@[i],
                        ) == VerdictView::Use(registry@)
                },
                Ok(None) => forall|i: int|
                    0 <= i < files@.len() ==> file_verdict(#[trigger] files@[i]) is Skip,
                Err(e) => exists|i: int|
                    0 <= i < files@.len() && file_verdict(#[trigger] files@[i]) is PrePool
                        && newer_skipped(files@, files@[i].pos) && e
                        == Error::UnsupportedPrePoolDataDir(files@[i].pos),
            },
    {
        let ghost all = files@;
        let mut remaining = files;
        while remaining.len() > 0
            invariant
                all == files@,
                forall|i: int|
                    0 <= i < all.len() ==> file_verdict(#[trigger] all[i]) is Skip
                        || remaining@.contains(all[i]),
                forall|j: int| 0 <= j < remaining@.len() ==> all.contains(#[trigger] remaining@[j]),
            decreases remaining@.len(),
        {
            let at: usize = newest_file(&remaining);
            let ghost before = remaining@;
            let file = remaining.swap_remove(at);
            let ghost pos = file.pos;
            proof {
                assert(before.contains(file)) by {
                    assert(before[at as int] == file);
                }
                assert forall|i: int| 0 <= i < all.len() && pos.before(
                    (#[trigger] all[i]).pos,
                ) implies file_verdict(all[i]) is Skip by {
                    if before.contains(all[i]) {
                        let j = choose|j: int| 0 <= j < before.len() && before[j] == all[i];
                        assert(!before[at as int].pos.before(before[j].pos));
                    }
                }
                assert forall|j: int| 0 <= j < before.len() && j != at implies remaining@.contains(
                    #[trigger] before[j],
                ) by {
                    if j == before.len() - 1 {
                        assert(remaining@[at as int] == before[j]);
                    } else {
                        assert(remaining@[j] == before[j]);
                    }
                }
                assert forall|j: int| 0 <= j < remaining@.len() implies all.contains(
                    #[trigger] remaining@[j],
                ) by {
                    if j == at {
                        assert(remaining@[j] == before[before.len() - 1]);
                    } else {
                        assert(remaining@[j] == before[j]);
                    }
                }
                let i = choose|i: int| 0 <= i < all.len() && all[i] == file;
                assert(all[i] == file);
            }
            let judged = match &file.raw {
                Some(raw) => judge_checkpoint(file.pos, raw.as_slice()),
                None => Verdict::Skip,
            };
            match judged {
                Verdict::Use(registry) => {
                    return Ok(Some((registry, file.pos)));
                },
                Verdict::PrePool => {
                    return Err(Error::UnsupportedPrePoolDataDir(file.pos));
                },
                Verdict::Skip => {
                    proof {
                        assert forall|i: int| 0 <= i < all.len() implies file_verdict(
                            #[trigger] all[i],
                        ) is Skip || remaining@.contains(all[i]) by {
                            if before.contains(all[i]) && all[i] != file {
                                let j = choose|j: int| 0 <= j < before.len() && before[j] == all[i];
                                assert(j != at);
                            }
                        }
                    }
                },
            }
        }
        Ok(None)
    }

    /// The position that the newest checkpoint covers, if there is one.
    pub fn last_checkpoint_pos(&self) -> (pos: Option<EventWalPos>)
        ensures
            pos == self@,
    {
        self.last_covered
    }

    /// Whether the log has grown enough since the last checkpoint.
    pub fn needs_checkpoint(&self, wal: &EventWal, config: &EventWalConfig) -> (r: bool)
        ensures
            r == (wal@.bytes_since(
                match self@ {
                    Some(pos) => pos,
                    None => EventWalPos { file_seq: 0, offset: 0 },
                },
            ) >= config.event_wal_checkpoint_bytes),
    {
        let last = match self.last_covered {
            Some(pos) => pos,
            None => EventWalPos { file_seq: 0, offset: 0 },
        };
        wal.bytes_since(last) >= config.event_wal_checkpoint_bytes
    }
}

/// Index of a file that none is newer than.
fn newest_file(files: &Vec<CheckpointFile>) -> (at: usize)
    requires
        files@.len() > 0,
    ensures
        at < files@.len(),
        forall|j: int|
            0 <= j < files@.len() ==> !files@[at as int].pos.before((#[trigger] files@[j]).pos),
{
    let n: usize = files.len();
    let mut at: usize = 0;
    let mut i: usize = 1;
    while i < n
        invariant
            at < i <= n == files@.len(),
            forall|j: int|
                0 <= j < i ==> !files@[at as int].pos.before((#[trigger] files@[j]).pos),
        decreases n - i,
    {
        if files[at].pos.is_before(&files[i].pos) {
            at = i;
        }
        i = i + 1;
    }
    at
}

} // verus!
