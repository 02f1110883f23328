//! Lifecycle events and their on-disk records.
//!
//! ```text
//! record:
//!   magic        [4]   = b"EVL\1"
//!   version      [1]   = 1
//!   kind         [1]   0=Reserve, 1=Seal, 2=Delete, 3=MetadataRefresh
//!   reserved     [2]   = 0
//!   payload_len  [4]   LE
//!   segment_id   [16]
//!   payload      [payload_len]
//!   crc32        [4]   LE, over all preceding bytes
//! ```
//!
//! Payloads:
//!
//! ```text
//! Reserve          tier(1) ec_k(1) ec_m(1) 0
//! Seal             tier(1) ec_k(1) ec_m(1) flags(1) merkle_root(32)
//!                  data_wal_pos(12) [repacked_from(16)] [pool_id(4)]
//! Delete           (empty)
//! MetadataRefresh  flags(1) [merkle_root(32)] [count(1) (len(1) utf8(len))*]
//!                  [pool_id(4)]
//! ```
//!
//! Bit 0 of the seal flags says that `repacked_from` is there, bit 1 that
//! `pool_id` is; a payload whose length disagrees with its flags is rejected.
//! Bit 0 of the refresh flags says that the root is there, bit 1 that the
//! holder list is, bit 2 that `pool_id` is, which then ends the payload.

use crate::checksum::{crc32, crc32_of, lemma_changed_byte, one_byte_off};
use crate::encoding::{
    copy_range, le_u32, le_u64, lemma_u32_round_trip, lemma_u64_round_trip, push_u32_le,
    push_u64_le, read_u32_le, read_u64_le, u32_of_le, u64_of_le,
};
use crate::node_list::{optional_names, NodeId, NodeList};
use crate::text::string_from_utf8;
use crate::types::{
    hash_of, id_bytes, id_of_bytes, lemma_hash_of, lemma_id_round_trip, DataWalPos, HashOutput,
    SegmentId, SizeTier,
};
use vstd::prelude::*;
use vstd::utf8::{decode_utf8, encode_utf8, encode_utf8_decode_utf8, encode_utf8_valid_utf8, valid_utf8};

verus! {

/// On-disk format version of event records.
pub const EVENT_RECORD_VERSION: u8 = 1;

/// Size of a record before its payload.
pub const EVENT_RECORD_HEADER_SIZE: usize = 28;

/// Payload size of a reserve event.
pub const RESERVE_PAYLOAD_SIZE: usize = 4;

/// Payload size of a seal event without its optional fields.
pub const SEAL_PAYLOAD_SIZE: usize = 48;

/// Size of the optional `repacked_from` field of a seal payload.
pub const SEAL_REPACKED_FROM_SIZE: usize = 16;

/// Size of the optional `pool_id` field of a seal payload.
pub const SEAL_POOL_ID_SIZE: usize = 4;

/// Payload size of a metadata refresh without its optional fields.
pub const REFRESH_PAYLOAD_SIZE: usize = 1;

/// Size of the optional root of a refresh payload.
pub const REFRESH_ROOT_SIZE: usize = 32;

/// Size of the optional `pool_id` field of a refresh payload.
pub const REFRESH_POOL_ID_SIZE: usize = 4;

/// Most nodes that a refresh may name.
pub const REFRESH_MAX_LOCATIONS: usize = 16;

/// Largest payload that any kind of event has.
pub const MAX_PAYLOAD_SIZE: usize = 4134;

/// Kind byte of a reserve event.
pub const KIND_RESERVE: u8 = 0;

/// Kind byte of a seal event.
pub const KIND_SEAL: u8 = 1;

/// Kind byte of a delete event.
pub const KIND_DELETE: u8 = 2;

/// Kind byte of a metadata refresh.
pub const KIND_METADATA_REFRESH: u8 = 3;

/// Bytes at the start of every event record.
pub open spec fn event_record_magic() -> Seq<u8> {
    seq![0x45u8, 0x56u8, 0x4Cu8, 1u8]
}

/// A segment was reserved: appended before the segment's first data entry, so
/// that at recovery the segment's entries mean something.
#[derive(Clone, Copy, Debug, PartialEq, Eq)]
pub struct ReserveEvent {
    /// The segment being reserved.
    pub segment_id: SegmentId,
    /// The segment's storage tier.
    pub tier: SizeTier,
    /// Erasure-coding data shard count.
    pub ec_k: u8,
    /// Erasure-coding parity shard count.
    pub ec_m: u8,
}

/// A segment was sealed: its data file is durable.
#[derive(Clone, Copy, Debug, PartialEq, Eq)]
pub struct SealEvent {
    /// The segment being sealed.
    pub segment_id: SegmentId,
    /// The segment's storage tier.
    pub tier: SizeTier,
    /// Erasure-coding data shard count.
    pub ec_k: u8,
    /// Erasure-coding parity shard count.
    pub ec_m: u8,
    /// The seal-time Merkle root over the segment's data section.
    pub merkle_root: HashOutput,
    /// Position of the segment's last data entry in the data log; `(0, 0)`
    /// when it has no recorded entry.
    pub data_wal_pos: DataWalPos,
    /// The segment that this one was repacked from, if it was.
    pub repacked_from: Option<SegmentId>,
    /// The storage pool that holds the segment's data file.
    pub pool_id: u32,
}

/// A segment was deleted: appended before its data file is unlinked.
#[derive(Clone, Copy, Debug, PartialEq, Eq)]
pub struct DeleteEvent {
    /// The segment being deleted.
    pub segment_id: SegmentId,
}

/// A segment's metadata changed while its state did not.
#[derive(Debug, PartialEq, Eq)]
pub struct MetadataRefreshEvent {
    /// The segment whose metadata is refreshed.
    pub segment_id: SegmentId,
    /// The new root; `None` invalidates it until it is rebuilt.
    pub merkle_root: Option<HashOutput>,
    /// The new holders; `None` leaves them as they are.
    pub storage_locations: Option<NodeList>,
    /// The new pool; `None` leaves it as it is.
    pub pool_id: Option<u32>,
}

/// A record of the event log.
#[derive(Debug, PartialEq, Eq)]
pub enum SegmentEvent {
    /// Segment reserved.
    Reserve(ReserveEvent),
    /// Segment sealed.
    Seal(SealEvent),
    /// Segment deleted.
    Delete(DeleteEvent),
    /// Metadata refreshed, state unchanged.
    MetadataRefresh(MetadataRefreshEvent),
}

/// The mathematical view of [`SegmentEvent`].
pub enum EventView {
    Reserve(ReserveEvent),
    Seal(SealEvent),
    Delete(DeleteEvent),
    MetadataRefresh {
        segment_id: SegmentId,
        merkle_root: Option<HashOutput>,
        storage_locations: Option<Seq<Seq<char>>>,
        pool_id: Option<u32>,
    },
}

impl View for SegmentEvent {
    type V = EventView;

    open spec fn view(&self) -> EventView {
        match *self {
            SegmentEvent::Reserve(e) => EventView::Reserve(e),
            SegmentEvent::Seal(e) => EventView::Seal(e),
            SegmentEvent::Delete(e) => EventView::Delete(e),
            SegmentEvent::MetadataRefresh(e) => EventView::MetadataRefresh {
                segment_id: e.segment_id,
                merkle_root: e.merkle_root,
                storage_locations: optional_names(e.storage_locations),
                pool_id: e.pool_id,
            },
        }
    }
}

impl EventView {
    /// The segment that the event is about.
    pub open spec fn segment_id(self) -> SegmentId {
        match self {
            EventView::Reserve(e) => e.segment_id,
            EventView::Seal(e) => e.segment_id,
            EventView::Delete(e) => e.segment_id,
            EventView::MetadataRefresh { segment_id, .. } => segment_id,
        }
    }

    /// The event's kind byte.
    pub open spec fn kind(self) -> u8 {
        match self {
            EventView::Reserve(_) => KIND_RESERVE,
            EventView::Seal(_) => KIND_SEAL,
            EventView::Delete(_) => KIND_DELETE,
            EventView::MetadataRefresh { .. } => KIND_METADATA_REFRESH,
        }
    }

    /// The event fits its record: at most sixteen holders, and no name of more
    /// than 255 bytes.
    pub open spec fn encodable(self) -> bool {
        match self {
            EventView::MetadataRefresh { storage_locations: Some(locs), .. } => {
                &&& locs.len() <= REFRESH_MAX_LOCATIONS
                &&& forall|i: int|
                    0 <= i < locs.len() ==> encode_utf8(#[trigger] locs[i]).len() <= 255
            },
            _ => true,
        }
    }
}

/// The byte that stands for a tier.
pub open spec fn tier_byte(tier: SizeTier) -> u8 {
    match tier {
        SizeTier::Inline => 0,
        SizeTier::Small => 1,
        SizeTier::Standard => 2,
        SizeTier::Multi => 3,
    }
}

/// The tier that a byte stands for.
pub open spec fn tier_of_byte(value: u8) -> Option<SizeTier> {
    if value == 0 {
        Some(SizeTier::Inline)
    } else if value == 1 {
        Some(SizeTier::Small)
    } else if value == 2 {
        Some(SizeTier::Standard)
    } else if value == 3 {
        Some(SizeTier::Multi)
    } else {
        None
    }
}

/// Stable byte of a tier in a payload.
pub fn tier_to_u8(tier: SizeTier) -> (value: u8)
    ensures
        value == tier_byte(tier),
{
    match tier {
        SizeTier::Inline => 0,
        SizeTier::Small => 1,
        SizeTier::Standard => 2,
        SizeTier::Multi => 3,
    }
}

/// Inverse of [`tier_to_u8`]; `None` for a byte that stands for no tier.
pub fn tier_from_u8(value: u8) -> (tier: Option<SizeTier>)
    ensures
        tier == tier_of_byte(value),
{
    match value {
        0 => Some(SizeTier::Inline),
        1 => Some(SizeTier::Small),
        2 => Some(SizeTier::Standard),
        3 => Some(SizeTier::Multi),
        _ => None,
    }
}

/// The seal flags of an event with the given optional fields.
pub open spec fn seal_flags(repacked_from: Option<SegmentId>, pool_id: u32) -> u8 {
    match (repacked_from is Some, pool_id != 0) {
        (false, false) => 0,
        (true, false) => 1,
        (false, true) => 2,
        (true, true) => 3,
    }
}

/// Length of the `repacked_from` field under the given seal flags.
pub open spec fn repacked_len(flags: u8) -> int {
    if flags == 1 || flags == 3 {
        SEAL_REPACKED_FROM_SIZE as int
    } else {
        0
    }
}

/// Length of the `pool_id` field under the given seal flags.
pub open spec fn pool_len(flags: u8) -> int {
    if flags == 2 || flags == 3 {
        SEAL_POOL_ID_SIZE as int
    } else {
        0
    }
}

/// The bytes of a holder list: each name's length and its UTF-8 bytes.
pub open spec fn location_bytes(locs: Seq<Seq<char>>) -> Seq<u8>
    decreases locs.len(),
{
    if locs.len() == 0 {
        Seq::empty()
    } else {
        seq![encode_utf8(locs[0]).len() as u8] + encode_utf8(locs[0]) + location_bytes(
            locs.drop_first(),
        )
    }
}

/// The flags of a refresh payload that say whether the root and the holder
/// list are there.
pub open spec fn anchor_flags(root: Option<HashOutput>, locs: Option<Seq<Seq<char>>>) -> u8 {
    match (root is Some, locs is Some) {
        (false, false) => 0,
        (true, false) => 1,
        (false, true) => 2,
        (true, true) => 3,
    }
}

/// The flags byte of a refresh payload.
pub open spec fn refresh_flags(
    root: Option<HashOutput>,
    locs: Option<Seq<Seq<char>>>,
    pool_id: Option<u32>,
) -> u8 {
    match (root is Some, locs is Some, pool_id is Some) {
        (false, false, false) => 0,
        (true, false, false) => 1,
        (false, true, false) => 2,
        (true, true, false) => 3,
        (false, false, true) => 4,
        (true, false, true) => 5,
        (false, true, true) => 6,
        (true, true, true) => 7,
    }
}

/// The payload of an event's record.
pub open spec fn event_payload(e: EventView) -> Seq<u8> {
    match e {
        EventView::Reserve(e) => seq![tier_byte(e.tier), e.ec_k, e.ec_m, 0u8],
        EventView::Seal(e) => seq![
            tier_byte(e.tier),
            e.ec_k,
            e.ec_m,
            seal_flags(e.repacked_from, e.pool_id),
        ] + e.merkle_root@ + le_u32(e.data_wal_pos.file_seq) + le_u64(e.data_wal_pos.offset) + (
        match e.repacked_from {
            Some(old_id) => id_bytes(old_id),
            None => Seq::empty(),
        }) + (if e.pool_id != 0 {
            le_u32(e.pool_id)
        } else {
            Seq::empty()
        }),
        EventView::Delete(_) => Seq::empty(),
        EventView::MetadataRefresh { merkle_root, storage_locations, pool_id, .. } => seq![
            refresh_flags(merkle_root, storage_locations, pool_id),
        ] + (match merkle_root {
            Some(root) => root@,
            None => Seq::empty(),
        }) + (match storage_locations {
            Some(locs) => seq![locs.len() as u8] + location_bytes(locs),
            None => Seq::empty(),
        }) + (match pool_id {
            Some(pool) => le_u32(pool),
            None => Seq::empty(),
        }),
    }
}

/// An event's record without its checksum.
pub open spec fn event_record_body(e: EventView) -> Seq<u8> {
    event_record_magic() + seq![EVENT_RECORD_VERSION, e.kind(), 0u8, 0u8] + le_u32(
        event_payload(e).len() as u32,
    ) + id_bytes(e.segment_id()) + event_payload(e)
}

/// An event's record.
#[verifier::opaque]
pub open spec fn event_record(e: EventView) -> Seq<u8> {
    event_record_body(e) + le_u32(crc32(event_record_body(e)))
}

/// Reads `count` names from the start of `b`; `None` when a name runs past the
/// end or is not UTF-8.
pub open spec fn parse_locations(b: Seq<u8>, count: nat) -> Option<Seq<Seq<char>>>
    decreases count,
{
    if count == 0 {
        Some(Seq::empty())
    } else if b.len() < 1 || b.len() < 1 + b[0] {
        None
    } else if !valid_utf8(b.subrange(1, 1 + b[0])) {
        None
    } else {
        match parse_locations(b.skip(1 + b[0]), (count - 1) as nat) {
            Some(rest) => Some(seq![decode_utf8(b.subrange(1, 1 + b[0]))] + rest),
            None => None,
        }
    }
}

/// The event that a payload of the given kind stands for, if any.
pub open spec fn parse_payload(kind: u8, id: SegmentId, p: Seq<u8>) -> Option<EventView> {
    if kind == KIND_RESERVE {
        parse_reserve(id, p)
    } else if kind == KIND_SEAL {
        parse_seal(id, p)
    } else if kind == KIND_DELETE {
        if p.len() == 0 {
            Some(EventView::Delete(DeleteEvent { segment_id: id }))
        } else {
            None
        }
    } else if kind == KIND_METADATA_REFRESH {
        parse_refresh(id, p)
    } else {
        None
    }
}

/// The reserve event that a payload stands for, if any.
pub open spec fn parse_reserve(id: SegmentId, p: Seq<u8>) -> Option<EventView> {
    if p.len() != RESERVE_PAYLOAD_SIZE {
        None
    } else {
        match tier_of_byte(p[0]) {
            Some(tier) => Some(
                EventView::Reserve(ReserveEvent { segment_id: id, tier, ec_k: p[1], ec_m: p[2] }),
            ),
            None => None,
        }
    }
}

/// The seal event that a payload stands for, if any.
pub open spec fn parse_seal(id: SegmentId, p: Seq<u8>) -> Option<EventView> {
    if p.len() < SEAL_PAYLOAD_SIZE || p[3] > 3 || p.len() != SEAL_PAYLOAD_SIZE + repacked_len(p[3])
        + pool_len(p[3]) {
        None
    } else {
        match tier_of_byte(p[0]) {
            Some(tier) => Some(
                EventView::Seal(
                    SealEvent {
                        segment_id: id,
                        tier,
                        ec_k: p[1],
                        ec_m: p[2],
                        merkle_root: hash_of(p.subrange(4, 36)),
                        data_wal_pos: DataWalPos {
                            file_seq: u32_of_le(p.subrange(36, 40)),
                            offset: u64_of_le(p.subrange(40, 48)),
                        },
                        repacked_from: if repacked_len(p[3]) > 0 {
                            Some(id_of_bytes(p.subrange(48, 64)))
                        } else {
                            None
                        },
                        pool_id: if pool_len(p[3]) > 0 {
                            u32_of_le(p.subrange(p.len() - 4, p.len() as int))
                        } else {
                            0
                        },
                    },
                ),
            ),
            None => None,
        }
    }
}

/// The root and the holder list of a refresh payload without its pool, with the
/// given flags.
pub open spec fn parse_anchor(flags: u8, p: Seq<u8>) -> Option<
    (Option<HashOutput>, Option<Seq<Seq<char>>>),
> {
    if flags & 2 == 0 {
        if p.len() == REFRESH_PAYLOAD_SIZE && flags == 0 {
            Some((None, None))
        } else if p.len() == REFRESH_PAYLOAD_SIZE + REFRESH_ROOT_SIZE && flags == 1 {
            Some((Some(hash_of(p.subrange(1, 33))), None))
        } else {
            None
        }
    } else {
        let at: int = if flags & 1 != 0 {
            33
        } else {
            1
        };
        if p.len() < at + 1 || p[at] > REFRESH_MAX_LOCATIONS {
            None
        } else {
            match parse_locations(p.skip(at + 1), p[at] as nat) {
                Some(locs) => Some(
                    (
                        if flags & 1 != 0 {
                            Some(hash_of(p.subrange(1, 33)))
                        } else {
                            None
                        },
                        Some(locs),
                    ),
                ),
                None => None,
            }
        }
    }
}

/// The refresh event that a payload stands for, if any.
pub open spec fn parse_refresh(id: SegmentId, p: Seq<u8>) -> Option<EventView> {
    if p.len() == 0 {
        None
    } else if p[0] & 4 == 0 {
        match parse_anchor(p[0], p) {
            Some((merkle_root, storage_locations)) => Some(
                EventView::MetadataRefresh {
                    segment_id: id,
                    merkle_root,
                    storage_locations,
                    pool_id: None,
                },
            ),
            None => None,
        }
    } else if p.len() < REFRESH_PAYLOAD_SIZE + REFRESH_POOL_ID_SIZE {
        None
    } else {
        let end = p.len() - 4;
        match parse_anchor((p[0] - 4) as u8, p.take(end)) {
            Some((merkle_root, storage_locations)) => Some(
                EventView::MetadataRefresh {
                    segment_id: id,
                    merkle_root,
                    storage_locations,
                    pool_id: Some(u32_of_le(p.subrange(end, p.len() as int))),
                },
            ),
            None => None,
        }
    }
}

/// The event that a record stands for; `None` when the record is malformed.
#[verifier::opaque]
pub open spec fn parse_record(b: Seq<u8>) -> Option<EventView> {
    let n = b.len() as int;
    if n < EVENT_RECORD_HEADER_SIZE + 4 {
        None
    } else if b.subrange(0, 4) != event_record_magic() || b[4] != EVENT_RECORD_VERSION {
        None
    } else if n != EVENT_RECORD_HEADER_SIZE + u32_of_le(b.subrange(8, 12)) + 4 {
        None
    } else if u32_of_le(b.subrange(n - 4, n)) != crc32(b.subrange(0, n - 4)) {
        None
    } else {
        parse_payload(b[5], id_of_bytes(b.subrange(12, 28)), b.subrange(28, n - 4))
    }
}


/// `parsed` is the view of `event`: both absent, or the same event.
pub open spec fn is_event(event: Option<SegmentEvent>, parsed: Option<EventView>) -> bool {
    match event {
        Some(e) => parsed == Some(e@),
        None => parsed is None,
    }
}

/// Appends the bytes of a holder list.
fn push_locations(out: &mut Vec<u8>, locs: &NodeList)
    ensures
        final(out)@ == old(out)@ + location_bytes(locs@),
{
    let n: usize = locs.len();
    let mut i: usize = 0;
    assert(locs@.skip(0) =~= locs@);
    while i < n
        invariant
            i <= n == locs@.len(),
            old(out)@ + location_bytes(locs@) =~= out@ + location_bytes(locs@.skip(i as int)),
        decreases n - i,
    {
        let name: &[u8] = locs.get(i).as_str().as_bytes();
        let len: usize = name.len();
        let ghost before = out@;
        out.push(#[verifier::truncate] (len as u8));
        out.extend_from_slice(name);
        proof {
            assert(locs@.skip(i as int).drop_first() =~= locs@.skip(i + 1));
            assert(out@ =~= before + seq![encode_utf8(locs@[i as int]).len() as u8] + encode_utf8(
                locs@[i as int],
            ));
        }
        i = i + 1;
    }
    assert(location_bytes(locs@.skip(n as int)) =~= Seq::empty());
}

impl SegmentEvent {
    /// The segment that the event is about.
    pub fn segment_id(&self) -> (id: SegmentId)
        ensures
            id == self@.segment_id(),
    {
        match self {
            SegmentEvent::Reserve(evt) => evt.segment_id,
            SegmentEvent::Seal(evt) => evt.segment_id,
            SegmentEvent::Delete(evt) => evt.segment_id,
            SegmentEvent::MetadataRefresh(evt) => evt.segment_id,
        }
    }

    /// The payload of the event's record, with its kind byte.
    fn payload(&self) -> (r: (u8, Vec<u8>))
        ensures
            r.0 == self@.kind(),
            r.1@ == event_payload(self@),
    {
        let mut payload: Vec<u8> = Vec::new();
        match self {
            SegmentEvent::Reserve(evt) => {
                payload.push(tier_to_u8(evt.tier));
                payload.push(evt.ec_k);
                payload.push(evt.ec_m);
                payload.push(0);
                assert(payload@ =~= event_payload(self@));
                (KIND_RESERVE, payload)
            },
            SegmentEvent::Seal(evt) => {
                payload.push(tier_to_u8(evt.tier));
                payload.push(evt.ec_k);
                payload.push(evt.ec_m);
                let flags: u8 = if evt.repacked_from.is_some() {
                    if evt.pool_id != 0 {
                        3
                    } else {
                        1
                    }
                } else if evt.pool_id != 0 {
                    2
                } else {
                    0
                };
                payload.push(flags);
                evt.merkle_root.push_to(&mut payload);
                push_u32_le(&mut payload, evt.data_wal_pos.file_seq);
                push_u64_le(&mut payload, evt.data_wal_pos.offset);
                if let Some(old_id) = evt.repacked_from {
                    old_id.push_to(&mut payload);
                }
                if evt.pool_id != 0 {
                    push_u32_le(&mut payload, evt.pool_id);
                }
                assert(payload@ =~= event_payload(self@));
                (KIND_SEAL, payload)
            },
            SegmentEvent::Delete(_) => {
                assert(payload@ =~= event_payload(self@));
                (KIND_DELETE, payload)
            },
            SegmentEvent::MetadataRefresh(evt) => {
                let anchor: u8 = if evt.merkle_root.is_some() {
                    if evt.storage_locations.is_some() {
                        3
                    } else {
                        1
                    }
                } else if evt.storage_locations.is_some() {
                    2
                } else {
                    0
                };
                let flags: u8 = if evt.pool_id.is_some() {
                    anchor + 4
                } else {
                    anchor
                };
                payload.push(flags);
                if let Some(root) = &evt.merkle_root {
                    root.push_to(&mut payload);
                }
                if let Some(locations) = &evt.storage_locations {
                    let count: usize = locations.len();
                    payload.push(#[verifier::truncate] (count as u8));
                    push_locations(&mut payload, locations);
                }
                if let Some(pool) = evt.pool_id {
                    push_u32_le(&mut payload, pool);
                }
                assert(payload@ =~= event_payload(self@));
                (KIND_METADATA_REFRESH, payload)
            },
        }
    }

    /// The event's full on-disk record: header, payload and checksum. It does
    /// not read back with any one byte of it changed.
    pub fn to_record_bytes(&self) -> (record: Vec<u8>)
        ensures
            record@ == event_record(self@),
            forall|other: Seq<u8>| #[trigger]
                one_byte_off(record@, other) ==> parse_record(other) is None,
    {
        proof {
            reveal(event_record);
            reveal(parse_record);
        }
        let (kind, payload) = self.payload();
        let segment_id = self.segment_id();
        let mut buf: Vec<u8> = Vec::new();
        buf.push(0x45);
        buf.push(0x56);
        buf.push(0x4C);
        buf.push(1);
        buf.push(EVENT_RECORD_VERSION);
        buf.push(kind);
        buf.push(0);
        buf.push(0);
        let payload_len: usize = payload.len();
        push_u32_le(&mut buf, #[verifier::truncate] (payload_len as u32));
        segment_id.push_to(&mut buf);
        buf.extend_from_slice(payload.as_slice());
        assert(buf@ =~= event_record_body(self@));
        let crc: u32 = crc32_of(buf.as_slice());
        push_u32_le(&mut buf, crc);
        assert forall|other: Seq<u8>| #[trigger] one_byte_off(buf@, other) implies parse_record(
            other,
        ) is None by {
            lemma_changed_byte(event_record_body(self@), other);
        }
        buf
    }

    /// Reads a full on-disk record; `None` when its framing is wrong: bad
    /// magic, unsupported version, unknown kind, a length that does not fit,
    /// a payload that does not fit its kind, or a checksum mismatch.
    pub fn from_record_bytes(bytes: &[u8]) -> (event: Option<SegmentEvent>)
        ensures
            is_event(event, parse_record(bytes@)),
    {
        proof {
            reveal(parse_record);
        }
        let n: usize = bytes.len();
        if n < EVENT_RECORD_HEADER_SIZE + 4 {
            return None;
        }
        if !has_event_magic(bytes, 0) {
            return None;
        }
        if bytes[4] != EVENT_RECORD_VERSION {
            return None;
        }
        let kind: u8 = bytes[5];
        let payload_len: u32 = read_u32_le(bytes, 8);
        if n as u64 != EVENT_RECORD_HEADER_SIZE as u64 + payload_len as u64 + 4 {
            return None;
        }
        let stored_crc: u32 = read_u32_le(bytes, n - 4);
        if stored_crc != crc32_of(&bytes[0..n - 4]) {
            return None;
        }
        let segment_id = SegmentId::read(bytes, 12);
        decode_payload(kind, segment_id, &bytes[EVENT_RECORD_HEADER_SIZE..n - 4])
    }
}

/// Whether the four bytes at `at` are the event record magic.
pub(crate) fn has_event_magic(bytes: &[u8], at: usize) -> (r: bool)
    requires
        at + 4 <= bytes@.len(),
    ensures
        r == (bytes@.subrange(at as int, at + 4) == event_record_magic()),
{
    let ghost m = bytes@.subrange(at as int, at + 4);
    let r = bytes[at] == 0x45 && bytes[at + 1] == 0x56 && bytes[at + 2] == 0x4C && bytes[at + 3]
        == 1;
    proof {
        if r {
            assert(m =~= event_record_magic());
        } else {
            assert(m[0] == bytes@[at as int] && m[1] == bytes@[at + 1] && m[2] == bytes@[at + 2]
                && m[3] == bytes@[at + 3]);
        }
    }
    r
}

/// Reads an event payload of the given kind for the segment of its header.
pub fn decode_payload(kind: u8, segment_id: SegmentId, payload: &[u8]) -> (event: Option<
    SegmentEvent,
>)
    ensures
        is_event(event, parse_payload(kind, segment_id, payload@)),
{
    match kind {
        KIND_RESERVE => {
            if payload.len() != RESERVE_PAYLOAD_SIZE {
                return None;
            }
            match tier_from_u8(payload[0]) {
                Some(tier) => Some(
                    SegmentEvent::Reserve(
                        ReserveEvent { segment_id, tier, ec_k: payload[1], ec_m: payload[2] },
                    ),
                ),
                None => None,
            }
        },
        KIND_SEAL => decode_seal(segment_id, payload),
        KIND_DELETE => {
            if payload.len() != 0 {
                return None;
            }
            Some(SegmentEvent::Delete(DeleteEvent { segment_id }))
        },
        KIND_METADATA_REFRESH => decode_refresh(segment_id, payload),
        _ => None,
    }
}

/// Reads a seal payload: its length must be the one that its flags call for.
fn decode_seal(segment_id: SegmentId, payload: &[u8]) -> (event: Option<SegmentEvent>)
    ensures
        is_event(event, parse_seal(segment_id, payload@)),
{
    if payload.len() < SEAL_PAYLOAD_SIZE {
        return None;
    }
    let flags: u8 = payload[3];
    if flags > 3 {
        return None;
    }
    let repacked = flags == 1 || flags == 3;
    let pooled = flags == 2 || flags == 3;
    let mut expected: usize = SEAL_PAYLOAD_SIZE;
    if repacked {
        expected = expected + SEAL_REPACKED_FROM_SIZE;
    }
    if pooled {
        expected = expected + SEAL_POOL_ID_SIZE;
    }
    if payload.len() != expected {
        return None;
    }
    let tier = match tier_from_u8(payload[0]) {
        Some(tier) => tier,
        None => {
            return None;
        },
    };
    let repacked_from = if repacked {
        Some(SegmentId::read(payload, 48))
    } else {
        None
    };
    let pool_id: u32 = if pooled {
        read_u32_le(payload, payload.len() - 4)
    } else {
        0
    };
    Some(
        SegmentEvent::Seal(
            SealEvent {
                segment_id,
                tier,
                ec_k: payload[1],
                ec_m: payload[2],
                merkle_root: HashOutput::read(payload, 4),
                data_wal_pos: DataWalPos {
                    file_seq: read_u32_le(payload, 36),
                    offset: read_u64_le(payload, 40),
                },
                repacked_from,
                pool_id,
            },
        ),
    )
}

/// Reads a refresh payload. Its length is checked before every access, so a
/// short record is rejected and never read past its end.
fn decode_refresh(segment_id: SegmentId, payload: &[u8]) -> (event: Option<SegmentEvent>)
    ensures
        is_event(event, parse_refresh(segment_id, payload@)),
{
    let n: usize = payload.len();
    if n == 0 {
        return None;
    }
    let flags: u8 = payload[0];
    let (anchor, pool_id) = if flags & 4 == 0 {
        (decode_anchor(flags, payload), None)
    } else {
        if n < REFRESH_PAYLOAD_SIZE + REFRESH_POOL_ID_SIZE {
            return None;
        }
        assert(flags >= 4) by (bit_vector)
            requires
                flags & 4 != 0,
        ;
        assert(payload@.subrange(0, n - 4) =~= payload@.take(n - 4));
        (decode_anchor(flags - 4, &payload[0..n - 4]), Some(read_u32_le(payload, n - 4)))
    };
    match anchor {
        Some((merkle_root, storage_locations)) => Some(
            SegmentEvent::MetadataRefresh(
                MetadataRefreshEvent { segment_id, merkle_root, storage_locations, pool_id },
            ),
        ),
        None => None,
    }
}

/// Reads the root and the holder list of a refresh payload without its pool.
fn decode_anchor(flags: u8, payload: &[u8]) -> (anchor: Option<
    (Option<HashOutput>, Option<NodeList>),
>)
    ensures
        match anchor {
            Some((root, locs)) => parse_anchor(flags, payload@) == Some(
                (root, optional_names(locs)),
            ),
            None => parse_anchor(flags, payload@) is None,
        },
{
    if flags & 2 == 0 {
        if payload.len() == REFRESH_PAYLOAD_SIZE && flags == 0 {
            return Some((None, None));
        }
        if payload.len() == REFRESH_PAYLOAD_SIZE + REFRESH_ROOT_SIZE && flags == 1 {
            return Some((Some(HashOutput::read(payload, 1)), None));
        }
        return None;
    }
    let at: usize = if flags & 1 != 0 {
        REFRESH_PAYLOAD_SIZE + REFRESH_ROOT_SIZE
    } else {
        REFRESH_PAYLOAD_SIZE
    };
    if payload.len() < at + 1 {
        return None;
    }
    let count: usize = payload[at] as usize;
    if count > REFRESH_MAX_LOCATIONS {
        return None;
    }
    match decode_locations(payload, at + 1, count) {
        Some(locations) => {
            let merkle_root = if flags & 1 != 0 {
                Some(HashOutput::read(payload, 1))
            } else {
                None
            };
            Some((merkle_root, Some(locations)))
        },
        None => None,
    }
}

/// Reads `count` names that start at `start`.
fn decode_locations(payload: &[u8], start: usize, count: usize) -> (locs: Option<NodeList>)
    requires
        start <= payload@.len(),
    ensures
        match locs {
            Some(list) => parse_locations(payload@.skip(start as int), count as nat) == Some(list@),
            None => parse_locations(payload@.skip(start as int), count as nat) is None,
        },
{
    let mut list = NodeList::new();
    let mut cursor: usize = start;
    let mut i: usize = 0;
    let n: usize = payload.len();
    let ghost all = parse_locations(payload@.skip(start as int), count as nat);
    assert(all is Some ==> all->0 =~= list@ + all->0);
    while i < count
        invariant
            i <= count,
            n == payload@.len(),
            cursor <= n,
            all == (match parse_locations(payload@.skip(cursor as int), (count - i) as nat) {
                Some(rest) => Some(list@ + rest),
                None => None,
            }),
            all == parse_locations(payload@.skip(start as int), count as nat),
        decreases count - i,
    {
        let ghost here = payload@.skip(cursor as int);
        let ghost before = list@;
        if n - cursor < 1 {
            return None;
        }
        let len: usize = payload[cursor] as usize;
        assert(here[0] == len);
        if n - cursor - 1 < len {
            return None;
        }
        assert(here.subrange(1, 1 + len) =~= payload@.subrange(cursor + 1, cursor + 1 + len));
        let name: Vec<u8> = copy_range(payload, cursor + 1, cursor + 1 + len);
        match string_from_utf8(name) {
            None => {
                return None;
            },
            Some(text) => {
                list.push(NodeId::from_name(text));
            },
        }
        cursor = cursor + 1 + len;
        i = i + 1;
        proof {
            assert(here.skip(1 + len) =~= payload@.skip(cursor as int));
            if let Some(rest) = parse_locations(payload@.skip(cursor as int), (count - i) as nat) {
                assert(before + (seq![list@.last()] + rest) =~= list@ + rest);
            }
        }
    }
    assert(list@ + Seq::<Seq<char>>::empty() =~= list@);
    Some(list)
}


/// Names written to a record are read back, whatever follows them.
proof fn lemma_locations_round_trip(locs: Seq<Seq<char>>, tail: Seq<u8>)
    requires
        forall|i: int| 0 <= i < locs.len() ==> encode_utf8(#[trigger] locs[i]).len() <= 255,
    ensures
        parse_locations(location_bytes(locs) + tail, locs.len()) == Some(locs),
    decreases locs.len(),
{
    let b = location_bytes(locs) + tail;
    if locs.len() == 0 {
        assert(locs =~= Seq::empty());
    } else {
        let name = encode_utf8(locs[0]);
        let rest = locs.drop_first();
        assert(forall|i: int| 0 <= i < rest.len() ==> rest[i] == locs[i + 1]);
        lemma_locations_round_trip(rest, tail);
        encode_utf8_valid_utf8(locs[0]);
        encode_utf8_decode_utf8(locs[0]);
        assert(b =~= seq![name.len() as u8] + name + (location_bytes(rest) + tail));
        assert(b[0] == name.len());
        assert(b.subrange(1, 1 + b[0]) =~= name);
        assert(b.skip(1 + b[0]) =~= location_bytes(rest) + tail);
        assert(seq![locs[0]] + rest =~= locs);
    }
}

/// Length of the bytes of a holder list.
proof fn lemma_location_bytes_len(locs: Seq<Seq<char>>)
    requires
        forall|i: int| 0 <= i < locs.len() ==> encode_utf8(#[trigger] locs[i]).len() <= 255,
    ensures
        location_bytes(locs).len() <= 256 * locs.len(),
    decreases locs.len(),
{
    if locs.len() > 0 {
        let rest = locs.drop_first();
        assert(forall|i: int| 0 <= i < rest.len() ==> rest[i] == locs[i + 1]);
        lemma_location_bytes_len(rest);
    }
}

/// The payload of an event that fits its record is no longer than the reader
/// admits.
pub proof fn lemma_payload_bounded(e: EventView)
    requires
        e.encodable(),
    ensures
        event_payload(e).len() <= MAX_PAYLOAD_SIZE,
        event_record(e).len() == EVENT_RECORD_HEADER_SIZE + event_payload(e).len() + 4,
{
    reveal(event_record);
    if let EventView::MetadataRefresh { storage_locations, merkle_root, .. } = e {
        if let Some(locs) = storage_locations {
            lemma_location_bytes_len(locs);
        }
        if let Some(root) = merkle_root {
            lemma_hash_of(root);
        }
    }
}

/// Record sizes: 36 bytes for a reserve, 32 for a delete, and for a seal 80
/// bytes, plus 16 with a repacked-from marker, plus 4 with a pool.
pub proof fn law_record_sizes(e: EventView)
    ensures
        e is Reserve ==> event_record(e).len() == 36,
        e is Delete ==> event_record(e).len() == 32,
        e matches EventView::Seal(s) ==> event_record(e).len() == 80 + (if s.repacked_from is Some {
            16int
        } else {
            0
        }) + (if s.pool_id != 0 {
            4int
        } else {
            0
        }),
{
    reveal(event_record);
}

/// A seal payload is read back as the event that it was written from.
proof fn lemma_seal_round_trip(s: SealEvent)
    ensures
        parse_seal(s.segment_id, event_payload(EventView::Seal(s))) == Some(EventView::Seal(s)),
{
    let p = event_payload(EventView::Seal(s));
    lemma_hash_of(s.merkle_root);
    lemma_u32_round_trip(s.data_wal_pos.file_seq);
    lemma_u64_round_trip(s.data_wal_pos.offset);
    lemma_u32_round_trip(s.pool_id);
    assert(p.subrange(4, 36) =~= s.merkle_root@);
    assert(p.subrange(36, 40) =~= le_u32(s.data_wal_pos.file_seq));
    assert(p.subrange(40, 48) =~= le_u64(s.data_wal_pos.offset));
    if let Some(old_id) = s.repacked_from {
        lemma_id_round_trip(old_id);
        assert(p.subrange(48, 64) =~= id_bytes(old_id));
    }
    if s.pool_id != 0 {
        assert(p.subrange(p.len() - 4, p.len() as int) =~= le_u32(s.pool_id));
    }
}

/// A refresh payload without a pool is read back as what it was written from.
proof fn lemma_anchor_round_trip(
    flag: u8,
    merkle_root: Option<HashOutput>,
    storage_locations: Option<Seq<Seq<char>>>,
)
    requires
        storage_locations matches Some(locs) ==> locs.len() <= REFRESH_MAX_LOCATIONS && forall|i: int|
            0 <= i < locs.len() ==> encode_utf8(#[trigger] locs[i]).len() <= 255,
    ensures
        parse_anchor(
            anchor_flags(merkle_root, storage_locations),
            seq![flag] + (match merkle_root {
                Some(root) => root@,
                None => Seq::empty(),
            }) + (match storage_locations {
                Some(locs) => seq![locs.len() as u8] + location_bytes(locs),
                None => Seq::empty(),
            }),
        ) == Some((merkle_root, storage_locations)),
{
    let p = seq![flag] + (match merkle_root {
        Some(root) => root@,
        None => Seq::empty(),
    }) + (match storage_locations {
        Some(locs) => seq![locs.len() as u8] + location_bytes(locs),
        None => Seq::empty(),
    });
    assert(0u8 & 2 == 0 && 1u8 & 2 == 0 && 2u8 & 2 != 0 && 3u8 & 2 != 0 && 2u8 & 1 == 0 && 3u8 & 1
        != 0) by (bit_vector);
    if let Some(root) = merkle_root {
        lemma_hash_of(root);
        assert(p.subrange(1, 33) =~= root@);
    }
    if let Some(locs) = storage_locations {
        let at: int = if merkle_root is Some {
            33
        } else {
            1
        };
        assert(p[at] == locs.len());
        assert(p.skip(at + 1) =~= location_bytes(locs) + Seq::empty());
        lemma_locations_round_trip(locs, Seq::empty());
    }
}

/// A refresh payload is read back as the event that it was written from.
proof fn lemma_refresh_round_trip(
    id: SegmentId,
    merkle_root: Option<HashOutput>,
    storage_locations: Option<Seq<Seq<char>>>,
    pool_id: Option<u32>,
)
    requires
        (EventView::MetadataRefresh {
            segment_id: id,
            merkle_root,
            storage_locations,
            pool_id,
        }).encodable(),
    ensures
        parse_refresh(
            id,
            event_payload(
                EventView::MetadataRefresh {
                    segment_id: id,
                    merkle_root,
                    storage_locations,
                    pool_id,
                },
            ),
        ) == Some(
            EventView::MetadataRefresh {
                segment_id: id,
                merkle_root,
                storage_locations,
                pool_id,
            },
        ),
{
    let flags = refresh_flags(merkle_root, storage_locations, pool_id);
    let p = event_payload(
        EventView::MetadataRefresh { segment_id: id, merkle_root, storage_locations, pool_id },
    );
    let base = seq![flags] + (match merkle_root {
        Some(root) => root@,
        None => Seq::empty(),
    }) + (match storage_locations {
        Some(locs) => seq![locs.len() as u8] + location_bytes(locs),
        None => Seq::empty(),
    });
    assert(0u8 & 4 == 0 && 1u8 & 4 == 0 && 2u8 & 4 == 0 && 3u8 & 4 == 0 && 4u8 & 4 != 0 && 5u8 & 4
        != 0 && 6u8 & 4 != 0 && 7u8 & 4 != 0) by (bit_vector);
    lemma_anchor_round_trip(flags, merkle_root, storage_locations);
    match pool_id {
        Some(pool) => {
            lemma_u32_round_trip(pool);
            assert(p =~= base + le_u32(pool));
            assert(p.take(p.len() - 4) =~= base);
            assert(p.subrange(p.len() - 4, p.len() as int) =~= le_u32(pool));
        },
        None => {
            assert(p =~= base);
        },
    }
}

/// A payload is read back as the event that it was written from.
proof fn lemma_payload_round_trip(e: EventView)
    requires
        e.encodable(),
    ensures
        parse_payload(e.kind(), e.segment_id(), event_payload(e)) == Some(e),
{
    match e {
        EventView::Reserve(_) => {},
        EventView::Seal(s) => {
            lemma_seal_round_trip(s);
        },
        EventView::Delete(_) => {},
        EventView::MetadataRefresh { segment_id, merkle_root, storage_locations, pool_id } => {
            lemma_refresh_round_trip(segment_id, merkle_root, storage_locations, pool_id);
        },
    }
}

/// What a record was written from is what it reads back as, for every event
/// that fits its record.
pub proof fn law_record_round_trip(e: EventView)
    requires
        e.encodable(),
    ensures
        parse_record(event_record(e)) == Some(e),
{
    reveal(event_record);
    reveal(parse_record);
    let payload = event_payload(e);
    let body = event_record_body(e);
    let b = event_record(e);
    let n = b.len() as int;
    lemma_payload_bounded(e);
    lemma_u32_round_trip(payload.len() as u32);
    lemma_u32_round_trip(crc32(body));
    lemma_id_round_trip(e.segment_id());
    assert(b.subrange(0, 4) =~= event_record_magic());
    assert(b.subrange(8, 12) =~= le_u32(payload.len() as u32));
    assert(b.subrange(12, 28) =~= id_bytes(e.segment_id()));
    assert(b.subrange(n - 4, n) =~= le_u32(crc32(body)));
    assert(b.subrange(0, n - 4) =~= body);
    assert(b.subrange(28, n - 4) =~= payload);
    lemma_payload_round_trip(e);
}

/// A record reads back whole only: neither a part of it from its beginning, nor
/// the record with anything behind it, stands for an event.
pub proof fn law_record_reads_back_whole_only(e: EventView, other: Seq<u8>)
    requires
        e.encodable(),
        other.is_prefix_of(event_record(e)) || event_record(e).is_prefix_of(other),
        other.len() != event_record(e).len(),
    ensures
        parse_record(other) is None,
{
    reveal(event_record);
    reveal(parse_record);
    let b = event_record(e);
    let payload = event_payload(e);
    lemma_payload_bounded(e);
    lemma_u32_round_trip(payload.len() as u32);
    if other.len() >= EVENT_RECORD_HEADER_SIZE + 4 {
        assert(other.subrange(8, 12) =~= le_u32(payload.len() as u32)) by {
            assert(b.subrange(8, 12) =~= le_u32(payload.len() as u32));
            assert(other.subrange(8, 12) =~= b.subrange(8, 12));
        }
    }
}

} // verus!
