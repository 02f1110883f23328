//! Laws of start-up: what becomes of the segments that a crash left reserved.
use crate::buf::bytes_contents;
use crate::coordinator::{
    changed, requested, ChangeView, SegmentLifecycleCoordinator, WriteView,
};
use crate::data_pass::{
    after_positions, chunks_view, data_section, empty_reserves, entries_of, is_group_of,
    law_last_position, law_pass_keeps_what_is_replayed, replayed, reserved_tiers,
    without_empty_reserves, DatFate, DataEntryView, EntryFate, PassView, ReplayGroup,
};
use crate::event_checkpoint::EventCheckpoint;
use crate::event_record::EventView;
use crate::event_wal::{base_of, law_append_accounting, EventWal};
use crate::header::{
    header_bytes, law_header_round_trip, parse_header, segment_magic, HeaderView, SEGMENT_VERSION,
};
use crate::lifecycle::{entry_at, is_live, Entries, EntryView, SegmentState};
use crate::startup::{
    adopted_metadata, checkpoint_wanted, first_failure, first_of_tier, is_deferred_seal, latched,
    readable, with_snapshot,
};
use crate::types::{DataWalPos, HashOutput, MetadataView, SegmentId, SizeTier};
use bytes::Bytes;
use vstd::prelude::*;

verus! {

/// An adopted segment keeps the coding, the tier and the pool of its
/// reservation. It gets the root of its data and the time of its seal, and no
/// holders.
pub proof fn law_adoption_keeps_reservation(
    e: EntryView,
    id: SegmentId,
    root: HashOutput,
    sealed_at: i64,
)
    ensures
        ({
            let meta = adopted_metadata(e, id, root, sealed_at);
            &&& meta.segment_id == id
            &&& meta.ec_k == e.metadata.ec_k
            &&& meta.ec_m == e.metadata.ec_m
            &&& meta.size_tier == e.metadata.size_tier
            &&& meta.pool_id == e.metadata.pool_id
            &&& meta.total_bytes == e.metadata.total_bytes
            &&& meta.merkle_root == Some(root)
            &&& meta.sealed_at == Some(sealed_at)
            &&& meta.storage_locations.len() == 0
        }),
{
}

/// Sealing an adopted segment is granted, and its event says what was reserved:
/// the tier, the coding and the pool, with the root of the data and the position
/// of its last entry. The registry then has the segment sealed, so.
pub proof fn law_adopted_segment_is_sealed_as_reserved(
    m: Entries,
    id: SegmentId,
    root: HashOutput,
    sealed_at: i64,
    grace: u64,
    now: u64,
)
    requires
        entry_at(m, id, now) is Some,
        m[id].state == SegmentState::Reserved,
    ensures
        ({
            let change = ChangeView::Seal(adopted_metadata(m[id], id, root, sealed_at), None);
            let after = changed(m, id, change, grace, now);
            &&& requested(m, true, id, change, now) is Ok
            &&& requested(m, true, id, change, now)->Ok_0.write matches WriteView::Append(
                EventView::Seal(e),
            ) && {
                &&& e.segment_id == id
                &&& e.tier == m[id].metadata.size_tier
                &&& e.ec_k == m[id].metadata.ec_k
                &&& e.ec_m == m[id].metadata.ec_m
                &&& e.pool_id == m[id].metadata.pool_id
                &&& e.merkle_root == root
                &&& e.repacked_from is None
                &&& m[id].data_wal_pos is Some ==> Some(e.data_wal_pos) == m[id].data_wal_pos
            }
            &&& after.contains_key(id)
            &&& after[id].state == SegmentState::Sealed
            &&& after[id].metadata.ec_k == m[id].metadata.ec_k
            &&& after[id].metadata.ec_m == m[id].metadata.ec_m
            &&& after[id].metadata.size_tier == m[id].metadata.size_tier
            &&& after[id].metadata.pool_id == m[id].metadata.pool_id
            &&& after[id].metadata.merkle_root == Some(root)
            &&& after[id].metadata.sealed_at == Some(sealed_at)
            &&& after[id].data_wal_pos == m[id].data_wal_pos
        }),
{
}

/// The log has an entry of the segment.
pub open spec fn has_entry(entries: Seq<DataEntryView>, id: SegmentId) -> bool {
    exists|i: int| 0 <= i < entries.len() && (#[trigger] entries[i]).id == id
}

/// A pass at its start: it knows the reserved segments of a registry, and which
/// of them have a complete data file.
pub open spec fn pass_of(m: Entries, adopted: Set<u128>) -> PassView {
    PassView {
        reserved: reserved_tiers(m),
        adopted,
        groups: Map::empty(),
        last: Map::empty(),
        swept: 0,
    }
}

proof fn lemma_pass(m: Entries, adopted: Set<u128>, entries: Seq<DataEntryView>, id: SegmentId)
    ensures
        ({
            let end = pass_of(m, adopted).steps(entries);
            &&& end.reserved == reserved_tiers(m)
            &&& end.adopted == adopted
            &&& end.last.contains_key(id.bits) <==> m.contains_key(id) && m[id].state
                == SegmentState::Reserved && has_entry(entries, id)
            &&& end.groups.contains_key(id.bits) <==> end.last.contains_key(id.bits)
                && !adopted.contains(id.bits)
        }),
    decreases entries.len(),
{
    if entries.len() > 0 {
        let rest = entries.drop_last();
        lemma_pass(m, adopted, rest, id);
        let last = entries.last();
        assert(SegmentId { bits: id.bits } == id);
        assert(last == entries[entries.len() - 1]);
        if has_entry(rest, id) {
            let i = choose|i: int| 0 <= i < rest.len() && (#[trigger] rest[i]).id == id;
            assert(entries[i].id == id);
        }
        if has_entry(entries, id) && last.id != id {
            let i = choose|i: int| 0 <= i < entries.len() && (#[trigger] entries[i]).id == id;
            assert(rest[i].id == id);
        }
        if last.id != id {
            assert(last.id.bits != id.bits);
        }
    }
}

/// Recovery drops the reserved segments that nothing is left of, and no others: a
/// segment whose data file is complete, or that has an entry in the data log,
/// stays, as does every sealed or deleted one. What stays is unchanged.
pub proof fn law_only_empty_reserves_are_dropped(
    m: Entries,
    adopted: Set<u128>,
    entries: Seq<DataEntryView>,
    id: SegmentId,
)
    ensures
        ({
            let after = without_empty_reserves(m, pass_of(m, adopted).steps(entries));
            let dropped = m.contains_key(id) && m[id].state == SegmentState::Reserved
                && !adopted.contains(id.bits) && !has_entry(entries, id);
            &&& after.contains_key(id) <==> m.contains_key(id) && !dropped
            &&& after.contains_key(id) ==> after[id] == m[id]
            &&& empty_reserves(m, pass_of(m, adopted).steps(entries)).contains(id) <==> dropped
        }),
{
    lemma_pass(m, adopted, entries, id);
}

/// A segment is replayed just when it is reserved, has an entry in the data log,
/// and has no complete data file. An entry of any other segment is swept.
pub proof fn law_reserved_segment_with_data_is_replayed(
    m: Entries,
    adopted: Set<u128>,
    entries: Seq<DataEntryView>,
    id: SegmentId,
)
    ensures
        ({
            let end = pass_of(m, adopted).steps(entries);
            let due = m.contains_key(id) && m[id].state == SegmentState::Reserved
                && !adopted.contains(id.bits);
            &&& replayed(end).contains(id.bits) <==> due && has_entry(entries, id)
            &&& end.groups.contains_key(id.bits) <==> due && has_entry(entries, id)
            &&& end.fate(id) == EntryFate::Replayed <==> due
            &&& due ==> end.reserved[id.bits] == m[id].metadata.size_tier
        }),
{
    lemma_pass(m, adopted, entries, id);
    assert(SegmentId { bits: id.bits } == id);
}

/// Positions are recorded for reserved segments alone: one that was sealed or deleted
/// meanwhile stays as it is.
pub proof fn law_sealed_segments_keep_their_position(
    m: Entries,
    last: Map<u128, DataWalPos>,
    id: SegmentId,
)
    requires
        m.contains_key(id),
    ensures
        after_positions(m, last).contains_key(id),
        m[id].state != SegmentState::Reserved ==> after_positions(m, last)[id] == m[id],
        m[id].state == SegmentState::Reserved && last.contains_key(id.bits) ==> after_positions(
            m,
            last,
        )[id].data_wal_pos == Some(last[id.bits]),
{
}

/// What the registry has already, a checkpoint does not replace; it adds only the live
/// segments that the registry lacks.
pub proof fn law_checkpoint_adds_what_is_missing(m: Entries, snapshot: Entries, id: SegmentId)
    ensures
        ({
            let after = with_snapshot(m, snapshot);
            &&& m.contains_key(id) ==> after.contains_key(id) && after[id] == m[id]
            &&& !m.contains_key(id) && !is_live(snapshot, id) ==> !after.contains_key(id)
            &&& !m.contains_key(id) && is_live(snapshot, id) ==> {
                &&& after.contains_key(id)
                &&& after[id].state == snapshot[id].state
                &&& after[id].metadata == snapshot[id].metadata
                &&& after[id].data_wal_pos == snapshot[id].data_wal_pos
                &&& after[id].repacked_from == snapshot[id].repacked_from
                &&& after[id].in_flight is None
                &&& !after[id].seal_queued
            }
        }),
{
}

/// The position of a reserved segment's last entry in the data log is recorded
/// for its seal; nothing else of it changes, and no other segment does.
pub proof fn law_last_positions_are_recorded(
    m: Entries,
    adopted: Set<u128>,
    entries: Seq<DataEntryView>,
    e: DataEntryView,
    rest: Seq<DataEntryView>,
    other: SegmentId,
)
    requires
        m.contains_key(e.id),
        m[e.id].state == SegmentState::Reserved,
        forall|i: int| 0 <= i < rest.len() ==> (#[trigger] rest[i]).id != e.id,
    ensures
        ({
            let all = entries.push(e) + rest;
            let after = after_positions(m, pass_of(m, adopted).steps(all).last);
            &&& after.contains_key(e.id)
            &&& after[e.id].data_wal_pos == Some(e.pos)
            &&& after[e.id].state == m[e.id].state
            &&& after[e.id].metadata == m[e.id].metadata
            &&& after[e.id].in_flight == m[e.id].in_flight
            &&& after[e.id].repacked_from == m[e.id].repacked_from
            &&& after[e.id].seal_queued == m[e.id].seal_queued
            &&& after.contains_key(other) <==> m.contains_key(other)
            &&& m.contains_key(other) && m[other].state != SegmentState::Reserved ==> after[other]
                == m[other]
            &&& m.contains_key(other) && !has_entry(all, other) ==> after[other] == m[other]
        }),
{
    let start = pass_of(m, adopted);
    assert(SegmentId { bits: e.id.bits } == e.id);
    law_last_position(start, entries, e, rest);
    lemma_pass(m, adopted, entries.push(e) + rest, other);
}

/// A data file that holds its header and all of its data is found complete, and
/// the data is what was written, whatever follows it.
pub proof fn law_complete_file_is_found(h: HeaderView, data: Seq<u8>, tail: Seq<u8>)
    requires
        h.magic == segment_magic(),
        h.version >= SEGMENT_VERSION,
        h.checksum.len() == 32,
        h.size == data.len(),
    ensures
        data_section(header_bytes(h) + data + tail) matches Some((from, to)) && 0 <= from <= to
            && to <= (header_bytes(h) + data + tail).len() && (header_bytes(h) + data
            + tail).subrange(from, to) == data,
{
    law_header_round_trip(h, data + tail);
    lemma_header_len(h);
    lemma_data_behind_header(header_bytes(h), h, data, tail);
}

/// Where the data stands in a file that begins with the given bytes as its header.
proof fn lemma_data_behind_header(head: Seq<u8>, h: HeaderView, data: Seq<u8>, tail: Seq<u8>)
    requires
        head.len() == 92,
        parse_header(head + (data + tail)) == Some(h),
        h.version >= SEGMENT_VERSION,
        h.size == data.len(),
    ensures
        data_section(head + data + tail) == Some((92int, 92 + data.len() as int)),
        (head + data + tail).subrange(92, 92 + data.len() as int) == data,
{
    let file = head + data + tail;
    assert(file =~= head + (data + tail));
    assert(file.subrange(92, 92 + data.len() as int) =~= data);
}

proof fn lemma_header_len(h: HeaderView)
    requires
        h.magic == segment_magic(),
        h.checksum.len() == 32,
    ensures
        header_bytes(h).len() == 92,
{
    crate::encoding::lemma_u16_round_trip(h.version);
    crate::encoding::lemma_u32_round_trip(h.blob_count);
    crate::encoding::lemma_u64_round_trip(h.size);
    crate::encoding::lemma_u64_round_trip(h.index_offset);
    crate::encoding::lemma_u64_round_trip(h.parity_offset);
    crate::encoding::lemma_u64_round_trip(h.parity_size);
    crate::types::lemma_id_round_trip(h.segment_id);
}

/// A data file that was cut before the end of its data is not taken for
/// complete.
pub proof fn law_cut_file_is_not_complete(h: HeaderView, data: Seq<u8>, n: int)
    requires
        h.magic == segment_magic(),
        h.version >= SEGMENT_VERSION,
        h.checksum.len() == 32,
        h.size == data.len(),
        92 <= n < 92 + data.len(),
    ensures
        data_section((header_bytes(h) + data).take(n)) is None,
{
    lemma_header_len(h);
    law_header_round_trip(h, data.take(n - 92));
    lemma_cut_behind_header(header_bytes(h), h, data, n);
}

proof fn lemma_cut_behind_header(head: Seq<u8>, h: HeaderView, data: Seq<u8>, n: int)
    requires
        head.len() == 92,
        parse_header(head + data.take(n - 92)) == Some(h),
        h.version >= SEGMENT_VERSION,
        h.size == data.len(),
        92 <= n < 92 + data.len(),
    ensures
        data_section((head + data).take(n)) is None,
{
    assert((head + data).take(n) =~= head + data.take(n - 92));
}

/// A listing of the metadata store is read up to its first failure, which is
/// reported; one without a failure is read whole.
pub proof fn law_listing_is_read_up_to_failure(
    items: Seq<Result<MetadataView, Seq<char>>>,
    n: int,
)
    requires
        0 <= n <= items.len(),
        forall|i: int| 0 <= i < n ==> #[trigger] items[i] is Ok,
        n < items.len() ==> items[n] is Err,
    ensures
        readable(items).len() == n,
        forall|i: int| 0 <= i < n ==> #[trigger] readable(items)[i] == items[i]->Ok_0,
        n == items.len() ==> first_failure(items) is None,
        n < items.len() ==> first_failure(items) == Some(items[n]->Err_0),
    decreases items.len(),
{
    if items.len() > 0 {
        let rest = items.drop_last();
        if n == items.len() {
            assert forall|i: int| 0 <= i < n - 1 implies #[trigger] rest[i] is Ok by {
                assert(items[i] is Ok);
            }
            law_listing_is_read_up_to_failure(rest, n - 1);
            assert(items[n - 1] is Ok);
        } else {
            assert forall|i: int| 0 <= i < n implies #[trigger] rest[i] is Ok by {
                assert(items[i] is Ok);
            }
            law_listing_is_read_up_to_failure(rest, n);
            assert forall|i: int| 0 <= i < n implies #[trigger] readable(items)[i]
                == items[i]->Ok_0 by {
                assert(rest[i] == items[i]);
            }
            if n < rest.len() {
                assert(rest[n] == items[n]);
            }
        }
    }
}

proof fn lemma_log_starts_at_zero(bases: Seq<(u32, u64)>)
    ensures
        (forall|i: int| 0 <= i < bases.len() ==> (#[trigger] bases[i]).0 > 0 || bases[i].1 == 0)
            ==> (base_of(bases, 0) is None || base_of(bases, 0) == Some(0u64)),
    decreases bases.len(),
{
    if bases.len() > 0 {
        lemma_log_starts_at_zero(bases.drop_last());
        if forall|i: int| 0 <= i < bases.len() ==> (#[trigger] bases[i]).0 > 0 || bases[i].1 == 0 {
            assert forall|i: int| 0 <= i < bases.drop_last().len() implies (
            #[trigger] bases.drop_last()[i]).0 > 0 || bases.drop_last()[i].1 == 0 by {
                assert(bases[i].0 > 0 || bases[i].1 == 0);
            }
            assert(bases[bases.len() - 1].0 > 0 || bases[bases.len() - 1].1 == 0);
        }
    }
}

/// A checkpoint is wanted once the log has grown by the configured size since the
/// last one, or since the start of the log, and stays wanted while it grows. Right behind a checkpoint none is, nor
/// is one ever without an event log or a configured size.
pub proof fn law_growth_wants_checkpoint(
    c: SegmentLifecycleCoordinator,
    checkpoint: EventCheckpoint,
    wal: EventWal,
    grown: EventWal,
    size: nat,
)
    requires
        wal@.accounted(),
        wal@.has_room(size),
        wal@.bytes_total <= u64::MAX,
        grown@ == wal@.appended(size),
        checkpoint@ matches Some(pos) ==> pos.file_seq <= wal@.latest.file_seq
            && wal@.bytes_before(pos) <= wal@.bytes_total,
    ensures
        checkpoint_wanted(c, checkpoint, wal) ==> c.event_log && c.checkpoint_config is Some,
        !c.event_log || c.checkpoint_config is None ==> !checkpoint_wanted(c, checkpoint, wal),
        checkpoint@ is Some && checkpoint_wanted(c, checkpoint, wal) ==> checkpoint_wanted(
            c,
            checkpoint,
            grown,
        ),
        checkpoint@ == Some(wal@.latest) && c.event_log && c.checkpoint_config is Some ==> (
        checkpoint_wanted(c, checkpoint, grown) <==> size
            >= c.checkpoint_config->0.event_wal_checkpoint_bytes),
        checkpoint@ is None && c.event_log && c.checkpoint_config is Some && (forall|i: int|
            0 <= i < wal@.bases.len() ==> (#[trigger] wal@.bases[i]).0 > 0 || wal@.bases[i].1 == 0)
            ==> (checkpoint_wanted(c, checkpoint, wal) <==> wal@.bytes_total
            >= c.checkpoint_config->0.event_wal_checkpoint_bytes),
{
    lemma_log_starts_at_zero(wal@.bases);
    if checkpoint@ is Some {
        law_append_accounting(wal@, size, checkpoint@->0);
    }
}

/// Only one checkpoint runs at a time: one is started when it is wanted and none is
/// running.
pub proof fn law_one_checkpoint_at_a_time(running: bool, wanted: bool)
    ensures
        running ==> !latched(running, wanted),
        !wanted ==> !latched(running, wanted),
        wanted && !running ==> latched(running, wanted),
{
}

/// A complete data file of a reserved segment is adopted, and one that was cut short
/// is removed. The file of a segment that is not reserved is adopted for no one.
pub proof fn law_complete_files_are_adopted(
    pass: PassView,
    id: SegmentId,
    raw: Seq<u8>,
    other: SegmentId,
)
    ensures
        ({
            let (after, fate) = pass.probed(id, raw);
            &&& fate == DatFate::Adopt <==> data_section(raw) is Some
            &&& after.adopted.contains(id.bits) <==> pass.adopted.contains(id.bits) || (
            pass.reserved.contains_key(id.bits) && data_section(raw) is Some)
            &&& other != id ==> (after.adopted.contains(other.bits) <==> pass.adopted.contains(
                other.bits,
            ))
            &&& after.reserved == pass.reserved
            &&& after.groups == pass.groups
            &&& after.last == pass.last
            &&& after.swept == pass.swept
        }),
{
    if other != id {
        assert(other.bits != id.bits);
    }
}

/// What is queued again carries the tier and the frozen data of its segment.
pub proof fn law_retried_seal_carries_frozen_data(m: Entries, item: (SegmentId, SizeTier, Bytes))
    requires
        is_deferred_seal(m, item),
    ensures
        m.contains_key(item.0),
        m[item.0].state == SegmentState::Reserved,
        !m[item.0].seal_queued,
        item.1 == m[item.0].metadata.size_tier,
        m[item.0].in_flight == Some(bytes_contents(item.2)),
{
}

/// What is replayed of a segment is all of its data in the log, chunk by chunk and in
/// the order of the log, into a pool of the segment's tier.
pub proof fn law_replay_group_is_all_of_a_segment(
    m: Entries,
    adopted: Set<u128>,
    entries: Seq<DataEntryView>,
    g: ReplayGroup,
)
    requires
        is_group_of(pass_of(m, adopted).steps(entries), g),
    ensures
        m.contains_key(g.segment_id),
        m[g.segment_id].state == SegmentState::Reserved,
        !adopted.contains(g.segment_id.bits),
        g.tier == m[g.segment_id].metadata.size_tier,
        chunks_view(g.chunks@) == entries_of(entries, g.segment_id.bits),
{
    lemma_pass(m, adopted, entries, g.segment_id);
    law_pass_keeps_what_is_replayed(pass_of(m, adopted), entries, g.segment_id);
    assert(SegmentId { bits: g.segment_id.bits } == g.segment_id);
}

/// The entries of a segment are found in the log in order: one more entry of the
/// segment comes behind the others, and one of another segment does not count.
pub proof fn law_entries_keep_log_order(
    entries: Seq<DataEntryView>,
    e: DataEntryView,
    id: u128,
)
    ensures
        e.id.bits == id ==> entries_of(entries.push(e), id) == entries_of(entries, id).push(e.data),
        e.id.bits != id ==> entries_of(entries.push(e), id) == entries_of(entries, id),
        entries_of(Seq::empty(), id).len() == 0,
{
    assert(entries.push(e).drop_last() =~= entries);
}

/// There is one first pool of a tier.
pub proof fn law_first_pool_of_tier_is_one(tiers: Seq<SizeTier>, tier: SizeTier, i: int, j: int)
    requires
        first_of_tier(tiers, tier, i),
    ensures
        0 <= i < tiers.len(),
        tiers[i] == tier,
        first_of_tier(tiers, tier, j) ==> i == j,
        0 <= j < i ==> tiers[j] != tier,
{
}

} // verus!
