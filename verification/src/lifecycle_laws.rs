//! Laws of the lifecycle registry.
use crate::error::TransitionError;
use crate::lifecycle::{
    after_attach, after_delete, after_drop, after_queued, after_record_pos, after_refresh,
    after_reserve, after_seal, after_seed, after_unqueued, delete_outcome, entry_at, evicted, garbage, is_live, ids_where, is_live_listing,
    read_source_of, reserve_outcome, seal_outcome, Counted, Entries, EntryView, SegmentState,
    SourceView,
};
use crate::startup::is_deferred;
use crate::types::{
    reserved_metadata, DataWalPos, HashOutput, MetadataView, SegmentId, SizeTier,
};
use vstd::prelude::*;

verus! {

/// No entry that is in both has a lower state in `after`.
pub open spec fn never_lower(before: Entries, after: Entries, now: u64) -> bool {
    forall|id: SegmentId|
        #![trigger after.contains_key(id)]
        entry_at(before, id, now) is Some && after.contains_key(id) ==> after[id].state.rank()
            >= entry_at(before, id, now)->0.state.rank()
}

/// No transition moves a segment back to an earlier state.
pub proof fn law_no_downgrade(
    m: Entries,
    id: SegmentId,
    metadata: MetadataView,
    repacked_from: Option<SegmentId>,
    root: Option<HashOutput>,
    locations: Option<Seq<Seq<char>>>,
    pool: Option<u32>,
    pos: DataWalPos,
    tier: SizeTier,
    ec_k: u8,
    ec_m: u8,
    data: Seq<u8>,
    grace: u64,
    now: u64,
)
    ensures
        never_lower(m, after_reserve(m, id, metadata, now), now),
        never_lower(m, after_seal(m, id, metadata, repacked_from, now), now),
        never_lower(m, after_delete(m, id, grace, now), now),
        never_lower(m, after_refresh(m, id, root, locations, pool, now), now),
        never_lower(m, after_record_pos(m, id, pos), now),
        never_lower(m, after_attach(m, id, tier, ec_k, ec_m, data), now),
{
}

/// A rejected transition changes no entry: all that can go are deleted entries
/// whose grace is over.
pub proof fn law_rejected_transition_changes_nothing(
    m: Entries,
    id: SegmentId,
    metadata: MetadataView,
    repacked_from: Option<SegmentId>,
    root: Option<HashOutput>,
    locations: Option<Seq<Seq<char>>>,
    pool: Option<u32>,
    grace: u64,
    now: u64,
)
    ensures
        reserve_outcome(entry_at(m, id, now)) is Err ==> after_reserve(m, id, metadata, now)
            == evicted(m, now),
        seal_outcome(entry_at(m, id, now)) is Err ==> after_seal(
            m,
            id,
            metadata,
            repacked_from,
            now,
        ) == evicted(m, now),
        delete_outcome(entry_at(m, id, now)) is Err ==> after_delete(m, id, grace, now) == evicted(
            m,
            now,
        ),
        delete_outcome(entry_at(m, id, now)) is Err ==> after_refresh(
            m,
            id,
            root,
            locations,
            pool,
            now,
        ) == evicted(m, now),
{
}

/// Dropping expired entries is not observable: every segment is seen as before,
/// now and later.
pub proof fn law_eviction_is_not_observable(m: Entries, now: u64, later: u64, id: SegmentId)
    requires
        now <= later,
    ensures
        entry_at(evicted(m, now), id, later) == entry_at(m, id, later),
{
}

/// Reserving a segment again succeeds and changes nothing.
pub proof fn law_reserve_idempotent(
    m: Entries,
    id: SegmentId,
    first: MetadataView,
    second: MetadataView,
    now: u64,
)
    requires
        reserve_outcome(entry_at(m, id, now)) is Ok,
    ensures
        reserve_outcome(entry_at(after_reserve(m, id, first, now), id, now)) is Ok,
        after_reserve(after_reserve(m, id, first, now), id, second, now) == after_reserve(
            m,
            id,
            first,
            now,
        ),
{
    let once = after_reserve(m, id, first, now);
    assert(evicted(once, now) =~= once);
}

/// A whole life, without a delete grace, leaves no trace: the registry holds
/// what lives, not what lived.
pub proof fn law_full_life_leaves_no_entry(
    m: Entries,
    id: SegmentId,
    reserved: MetadataView,
    sealed: MetadataView,
    now: u64,
)
    requires
        entry_at(m, id, now) is None,
    ensures
        after_delete(
            after_seal(after_reserve(m, id, reserved, now), id, sealed, None, now),
            id,
            0,
            now,
        ) == evicted(m, now),
{
    let a = after_reserve(m, id, reserved, now);
    let b = after_seal(a, id, sealed, None, now);
    assert(evicted(a, now) =~= a);
    assert(evicted(b, now) =~= b);
    assert(after_delete(b, id, 0, now) =~= evicted(m, now));
}

/// With a delete grace a deleted segment is seen as deleted until the grace is
/// over, and then as absent.
pub proof fn law_delete_grace(m: Entries, id: SegmentId, grace: u64, now: u64, later: u64)
    requires
        delete_outcome(entry_at(m, id, now)) is Ok,
        0 < grace,
        now + grace <= u64::MAX,
        now <= later,
    ensures
        later < now + grace ==> (entry_at(after_delete(m, id, grace, now), id, later) matches Some(
            e,
        ) && e.state == SegmentState::Deleted),
        later >= now + grace ==> entry_at(after_delete(m, id, grace, now), id, later) is None,
{
}

/// The read window of a filled segment has no gap: from the attachment of its
/// frozen data on it is read from there, and from the seal on from its file.
pub proof fn law_read_window_is_continuous(
    m: Entries,
    id: SegmentId,
    tier: SizeTier,
    ec_k: u8,
    ec_m: u8,
    data: Seq<u8>,
    reserved: MetadataView,
    sealed: MetadataView,
    now: u64,
)
    requires
        !m.contains_key(id) || m[id].state == SegmentState::Reserved,
    ensures
        ({
            let attached = after_attach(m, id, tier, ec_k, ec_m, data);
            let again = after_reserve(attached, id, reserved, now);
            let done = after_seal(again, id, sealed, None, now);
            &&& read_source_of(entry_at(attached, id, now)) == SourceView::InFlight(data)
            &&& read_source_of(entry_at(again, id, now)) == SourceView::InFlight(data)
            &&& read_source_of(entry_at(done, id, now)) == SourceView::Sealed
        }),
{
}

/// What is garbage at a position is garbage at every earlier one; what belongs
/// to a reserved segment never is, and what belongs to a deleted one always.
pub proof fn law_garbage_is_monotonic(e: EntryView, p: DataWalPos, q: DataWalPos)
    ensures
        garbage(e, p) && p.at_or_after(q) ==> garbage(e, q),
        e.state == SegmentState::Reserved ==> !garbage(e, p),
        e.state == SegmentState::Deleted ==> garbage(e, p),
{
}

/// The live entries have one listing only.
pub proof fn law_live_listing_unique(
    m: Entries,
    a: Seq<(SegmentId, EntryView)>,
    b: Seq<(SegmentId, EntryView)>,
)
    requires
        is_live_listing(m, a),
        is_live_listing(m, b),
    ensures
        a == b,
{
    lemma_listing_prefix(m, a, b, a.len() as int);
    lemma_listing_prefix(m, b, a, b.len() as int);
    assert(a =~= b);
}

/// The first `n` items of one listing are the first `n` of another.
proof fn lemma_listing_prefix(
    m: Entries,
    a: Seq<(SegmentId, EntryView)>,
    b: Seq<(SegmentId, EntryView)>,
    n: int,
)
    requires
        is_live_listing(m, a),
        is_live_listing(m, b),
        0 <= n <= a.len(),
    ensures
        n <= b.len(),
        forall|i: int| 0 <= i < n ==> #[trigger] a[i] == b[i],
    decreases n,
{
    if n > 0 {
        lemma_listing_prefix(m, a, b, n - 1);
        let last = a[n - 1];
        assert(is_live(m, last.0));
        let j = choose|j: int| 0 <= j < b.len() && (#[trigger] b[j]).0 == last.0;
        if j < n - 1 {
            assert(a[j] == b[j]);
            assert(a[j].0.bits < a[n - 1].0.bits);
        }
        if j > n - 1 {
            let skipped = b[n - 1];
            assert(skipped.0.bits < b[j].0.bits);
            assert(is_live(m, skipped.0));
            let i = choose|i: int| 0 <= i < a.len() && (#[trigger] a[i]).0 == skipped.0;
            if i >= n - 1 {
                assert(i == n - 1 || a[n - 1].0.bits < a[i].0.bits);
            } else {
                assert(a[i] == b[i]);
                assert(b[i].0.bits < b[n - 1].0.bits);
            }
        }
        assert(j == n - 1);
        assert(m[b[j].0] == b[j].1);
        assert(m[a[n - 1].0] == a[n - 1].1);
    }
}

/// A transition changes the entry of its own segment only: every other segment is
/// seen as before, now and later.
pub proof fn law_transition_leaves_others_alone(
    m: Entries,
    id: SegmentId,
    metadata: MetadataView,
    repacked_from: Option<SegmentId>,
    root: Option<HashOutput>,
    locations: Option<Seq<Seq<char>>>,
    pool: Option<u32>,
    pos: DataWalPos,
    entry: EntryView,
    data: Seq<u8>,
    grace: u64,
    now: u64,
    later: u64,
    other: SegmentId,
)
    requires
        other != id,
        now <= later,
    ensures
        entry_at(after_reserve(m, id, metadata, now), other, later) == entry_at(m, other, later),
        entry_at(after_seal(m, id, metadata, repacked_from, now), other, later) == entry_at(
            m,
            other,
            later,
        ),
        entry_at(after_delete(m, id, grace, now), other, later) == entry_at(m, other, later),
        entry_at(after_refresh(m, id, root, locations, pool, now), other, later) == entry_at(
            m,
            other,
            later,
        ),
        entry_at(after_record_pos(m, id, pos), other, later) == entry_at(m, other, later),
        entry_at(
            after_attach(m, id, metadata.size_tier, metadata.ec_k, metadata.ec_m, data),
            other,
            later,
        ) == entry_at(m, other, later),
        entry_at(after_seed(m, id, entry, now), other, later) == entry_at(m, other, later),
{
}

/// A new reservation leaves the segment reserved, with the metadata that it was
/// made with and nothing else.
pub proof fn law_reservation_is_seen(m: Entries, id: SegmentId, metadata: MetadataView, now: u64)
    requires
        entry_at(m, id, now) is None,
    ensures
        reserve_outcome(entry_at(m, id, now)) is Ok,
        entry_at(after_reserve(m, id, metadata, now), id, now) matches Some(e) && {
            &&& e.state == SegmentState::Reserved
            &&& e.metadata == metadata
            &&& e.data_wal_pos is None
            &&& e.repacked_from is None
            &&& e.in_flight is None
            &&& !e.seal_queued
        },
        read_source_of(entry_at(after_reserve(m, id, metadata, now), id, now)) is ActiveSlot,
{
}

/// A seal leaves the segment sealed, with the metadata and the origin that it was
/// made with. The position of its last data entry stays, and its data is read
/// from its file from now on.
pub proof fn law_seal_is_seen(
    m: Entries,
    id: SegmentId,
    metadata: MetadataView,
    repacked_from: Option<SegmentId>,
    now: u64,
    later: u64,
)
    requires
        seal_outcome(entry_at(m, id, now)) is Ok,
    ensures
        m[id].state == SegmentState::Reserved,
        entry_at(after_seal(m, id, metadata, repacked_from, now), id, later) matches Some(e) && {
            &&& e.state == SegmentState::Sealed
            &&& e.metadata == metadata
            &&& e.repacked_from == repacked_from
            &&& e.data_wal_pos == m[id].data_wal_pos
            &&& e.in_flight is None
            &&& !e.seal_queued
        },
        read_source_of(entry_at(after_seal(m, id, metadata, repacked_from, now), id, later)) is Sealed,
{
}

/// A deletion with a grace leaves the segment deleted until the grace is over: it
/// cannot be read, but what was known of it stays. Without a grace it is gone at
/// once.
pub proof fn law_deletion_is_seen(m: Entries, id: SegmentId, grace: u64, now: u64)
    requires
        delete_outcome(entry_at(m, id, now)) is Ok,
        now + grace <= u64::MAX,
    ensures
        read_source_of(entry_at(after_delete(m, id, grace, now), id, now)) is Missing,
        grace == 0 ==> entry_at(after_delete(m, id, grace, now), id, now) is None,
        grace > 0 ==> (entry_at(after_delete(m, id, grace, now), id, now) matches Some(e) && {
            &&& e.state == SegmentState::Deleted
            &&& e.evict_at == now + grace
            &&& e.metadata == m[id].metadata
            &&& e.data_wal_pos == m[id].data_wal_pos
            &&& e.repacked_from == m[id].repacked_from
        }),
{
}

/// A refresh replaces the root, and the holders and the pool where they are
/// given. All else of the segment stays: its state, its coding, its tier, its seal
/// time, its size, and where its data is.
pub proof fn law_refresh_replaces_what_is_given(
    m: Entries,
    id: SegmentId,
    root: Option<HashOutput>,
    locations: Option<Seq<Seq<char>>>,
    pool: Option<u32>,
    now: u64,
    later: u64,
)
    requires
        delete_outcome(entry_at(m, id, now)) is Ok,
    ensures
        m[id].state != SegmentState::Deleted,
        entry_at(after_refresh(m, id, root, locations, pool, now), id, later) matches Some(e) && {
            &&& e.metadata.merkle_root == root
            &&& locations matches Some(given) ==> e.metadata.storage_locations == given
            &&& locations is None ==> e.metadata.storage_locations
                == m[id].metadata.storage_locations
            &&& pool matches Some(given) ==> e.metadata.pool_id == given
            &&& pool is None ==> e.metadata.pool_id == m[id].metadata.pool_id
            &&& e.metadata.segment_id == m[id].metadata.segment_id
            &&& e.metadata.ec_k == m[id].metadata.ec_k
            &&& e.metadata.ec_m == m[id].metadata.ec_m
            &&& e.metadata.size_tier == m[id].metadata.size_tier
            &&& e.metadata.sealed_at == m[id].metadata.sealed_at
            &&& e.metadata.total_bytes == m[id].metadata.total_bytes
            &&& e.state == m[id].state
            &&& e.data_wal_pos == m[id].data_wal_pos
            &&& e.repacked_from == m[id].repacked_from
            &&& e.in_flight == m[id].in_flight
            &&& e.seal_queued == m[id].seal_queued
        },
{
}

/// What a segment takes depends on how far it has come: once it is sealed it is
/// not reserved or sealed again, and once it is deleted, while the deletion is
/// seen, it takes nothing. A segment that is not known can only be reserved.
pub proof fn law_transitions_follow_life(
    m: Entries,
    id: SegmentId,
    reserved: MetadataView,
    sealed: MetadataView,
    grace: u64,
    now: u64,
)
    requires
        entry_at(m, id, now) is None,
        now + grace <= u64::MAX,
    ensures
        ({
            let one = after_reserve(m, id, reserved, now);
            let two = after_seal(one, id, sealed, None, now);
            let gone = after_delete(two, id, grace, now);
            let early = after_delete(one, id, grace, now);
            &&& reserve_outcome(entry_at(m, id, now)) is Ok
            &&& seal_outcome(entry_at(m, id, now)) == Err::<(), _>(TransitionError::Missing)
            &&& delete_outcome(entry_at(m, id, now)) == Err::<(), _>(TransitionError::Missing)
            &&& reserve_outcome(entry_at(one, id, now)) is Ok
            &&& seal_outcome(entry_at(one, id, now)) is Ok
            &&& delete_outcome(entry_at(one, id, now)) is Ok
            &&& reserve_outcome(entry_at(two, id, now)) == Err::<(), _>(
                TransitionError::AlreadySealed,
            )
            &&& seal_outcome(entry_at(two, id, now)) == Err::<(), _>(TransitionError::AlreadySealed)
            &&& delete_outcome(entry_at(two, id, now)) is Ok
            &&& grace > 0 ==> {
                &&& reserve_outcome(entry_at(gone, id, now)) == Err::<(), _>(
                    TransitionError::AlreadyDeleted,
                )
                &&& seal_outcome(entry_at(gone, id, now)) == Err::<(), _>(
                    TransitionError::NotReserved,
                )
                &&& delete_outcome(entry_at(gone, id, now)) == Err::<(), _>(
                    TransitionError::AlreadyDeleted,
                )
                &&& seal_outcome(entry_at(early, id, now)) == Err::<(), _>(
                    TransitionError::NotReserved,
                )
            }
            &&& grace == 0 ==> entry_at(gone, id, now) is None && entry_at(early, id, now) is None
        }),
{
}

/// A position is recorded for a reserved segment, and stays through its seal. A
/// segment that is sealed or deleted keeps the one that it has.
pub proof fn law_recorded_position_survives_seal(
    m: Entries,
    id: SegmentId,
    pos: DataWalPos,
    late: DataWalPos,
    metadata: MetadataView,
    now: u64,
)
    requires
        entry_at(m, id, now) is Some,
        m[id].state == SegmentState::Reserved,
    ensures
        ({
            let recorded = after_record_pos(m, id, pos);
            let sealed = after_seal(recorded, id, metadata, None, now);
            &&& recorded[id].data_wal_pos == Some(pos)
            &&& recorded[id].state == m[id].state
            &&& recorded[id].metadata == m[id].metadata
            &&& recorded[id].in_flight == m[id].in_flight
            &&& recorded[id].seal_queued == m[id].seal_queued
            &&& sealed[id].data_wal_pos == Some(pos)
            &&& after_record_pos(sealed, id, late) == sealed
            &&& garbage(sealed[id], pos)
            &&& !garbage(recorded[id], pos)
        }),
{
}

/// A data entry of a sealed segment is garbage up to the segment's last recorded
/// entry, and not behind it; without a recorded entry none is.
pub proof fn law_garbage_ends_at_last_entry(e: EntryView, pos: DataWalPos)
    requires
        e.state == SegmentState::Sealed,
    ensures
        e.data_wal_pos is None ==> !garbage(e, pos),
        e.data_wal_pos matches Some(last) ==> (garbage(e, pos) <==> pos.file_seq < last.file_seq || (
        pos.file_seq == last.file_seq && pos.offset <= last.offset)),
{
}

/// The frozen data of a filled segment is attached to its entry, and its seal is
/// taken as queued; all else of the entry stays. A segment without an entry gets
/// one that is reserved, and a sealed or deleted one takes nothing.
pub proof fn law_frozen_data_is_attached(
    m: Entries,
    id: SegmentId,
    tier: SizeTier,
    ec_k: u8,
    ec_m: u8,
    data: Seq<u8>,
)
    ensures
        ({
            let after = after_attach(m, id, tier, ec_k, ec_m, data);
            &&& m.contains_key(id) && m[id].state != SegmentState::Reserved ==> after == m
            &&& !m.contains_key(id) || m[id].state == SegmentState::Reserved ==> {
                &&& after.contains_key(id)
                &&& after[id].state == SegmentState::Reserved
                &&& after[id].in_flight == Some(data)
                &&& after[id].seal_queued
            }
            &&& m.contains_key(id) ==> {
                &&& after[id].metadata == m[id].metadata
                &&& after[id].data_wal_pos == m[id].data_wal_pos
                &&& after[id].repacked_from == m[id].repacked_from
            }
            &&& !m.contains_key(id) ==> {
                &&& after[id].metadata.segment_id == id
                &&& after[id].metadata.size_tier == tier
                &&& after[id].metadata.ec_k == ec_k
                &&& after[id].metadata.ec_m == ec_m
                &&& after[id].metadata.merkle_root is None
                &&& after[id].metadata.sealed_at is None
                &&& after[id].data_wal_pos is None
            }
        }),
{
}

/// What is read of a segment: nothing when it is unknown or deleted; its frozen
/// data while it has some; else its file once it is sealed, and its slot before.
pub proof fn law_read_source(e: EntryView)
    ensures
        read_source_of(None) is Missing,
        read_source_of(Some(e)) is Missing <==> e.state == SegmentState::Deleted,
        e.state != SegmentState::Deleted ==> (e.in_flight matches Some(data) ==> read_source_of(
            Some(e),
        ) == SourceView::InFlight(data)),
        e.in_flight is None ==> (read_source_of(Some(e)) is Sealed <==> e.state
            == SegmentState::Sealed),
        e.in_flight is None ==> (read_source_of(Some(e)) is ActiveSlot <==> e.state
            == SegmentState::Reserved),
{
}

/// The metadata of a reservation: the segment, its tier and its coding; no root,
/// no holders, no seal time, and no data.
pub proof fn law_reserved_metadata(id: SegmentId, tier: SizeTier, ec_k: u8, ec_m: u8)
    ensures
        ({
            let meta = reserved_metadata(id, tier, ec_k, ec_m);
            &&& meta.segment_id == id
            &&& meta.size_tier == tier
            &&& meta.ec_k == ec_k
            &&& meta.ec_m == ec_m
            &&& meta.merkle_root is None
            &&& meta.sealed_at is None
            &&& meta.storage_locations.len() == 0
            &&& meta.pool_id == 0
            &&& meta.total_bytes == 0
        }),
{
}

/// Just the deleted entries whose grace is over are dropped; the others stay as
/// they are.
pub proof fn law_only_expired_entries_are_dropped(m: Entries, now: u64, id: SegmentId)
    ensures
        evicted(m, now).contains_key(id) <==> m.contains_key(id) && (m[id].state
            != SegmentState::Deleted || now < m[id].evict_at),
        evicted(m, now).contains_key(id) ==> evicted(m, now)[id] == m[id],
        entry_at(m, id, now) is Some <==> evicted(m, now).contains_key(id),
        entry_at(m, id, now) matches Some(e) ==> e == m[id],
{
}

/// What is counted as live: a reservation adds its segment, a deletion takes it
/// out, and a seal or a refresh changes nothing.
pub proof fn law_live_segments_are_counted(
    m: Entries,
    id: SegmentId,
    metadata: MetadataView,
    root: Option<HashOutput>,
    grace: u64,
    now: u64,
)
    ensures
        reserve_outcome(entry_at(m, id, now)) is Ok ==> ids_where(
            after_reserve(m, id, metadata, now),
            Counted::Live,
        ) == ids_where(m, Counted::Live).insert(id),
        delete_outcome(entry_at(m, id, now)) is Ok ==> ids_where(
            after_delete(m, id, grace, now),
            Counted::Live,
        ) == ids_where(m, Counted::Live).remove(id),
        ids_where(after_seal(m, id, metadata, None, now), Counted::Live) == ids_where(
            m,
            Counted::Live,
        ),
        ids_where(after_refresh(m, id, root, None, None, now), Counted::Live) == ids_where(
            m,
            Counted::Live,
        ),
        ids_where(m, Counted::Live).contains(id) <==> is_live(m, id),
{
    assert(reserve_outcome(entry_at(m, id, now)) is Ok ==> ids_where(
        after_reserve(m, id, metadata, now),
        Counted::Live,
    ) =~= ids_where(m, Counted::Live).insert(id));
    assert(delete_outcome(entry_at(m, id, now)) is Ok ==> ids_where(
        after_delete(m, id, grace, now),
        Counted::Live,
    ) =~= ids_where(m, Counted::Live).remove(id));
    assert(ids_where(after_seal(m, id, metadata, None, now), Counted::Live) =~= ids_where(
        m,
        Counted::Live,
    ));
    assert(ids_where(after_refresh(m, id, root, None, None, now), Counted::Live) =~= ids_where(
        m,
        Counted::Live,
    ));
}

/// What is counted as in flight: the attachment of frozen data adds its segment,
/// with its seal queued, and the seal takes it out.
pub proof fn law_frozen_segments_are_counted(
    m: Entries,
    id: SegmentId,
    tier: SizeTier,
    ec_k: u8,
    ec_m: u8,
    data: Seq<u8>,
    metadata: MetadataView,
    now: u64,
)
    requires
        entry_at(m, id, now) is Some,
        m[id].state == SegmentState::Reserved,
    ensures
        ({
            let attached = after_attach(m, id, tier, ec_k, ec_m, data);
            let sealed = after_seal(evicted(attached, now), id, metadata, None, now);
            &&& ids_where(attached, Counted::InFlight) == ids_where(m, Counted::InFlight).insert(id)
            &&& ids_where(attached, Counted::InFlightUnqueued) == ids_where(
                m,
                Counted::InFlightUnqueued,
            ).remove(id)
            &&& !ids_where(sealed, Counted::InFlight).contains(id)
            &&& !ids_where(sealed, Counted::InFlightUnqueued).contains(id)
            &&& ids_where(m, Counted::InFlightUnqueued).subset_of(ids_where(m, Counted::InFlight))
        }),
{
    let attached = after_attach(m, id, tier, ec_k, ec_m, data);
    assert(ids_where(attached, Counted::InFlight) =~= ids_where(m, Counted::InFlight).insert(id));
    assert(ids_where(attached, Counted::InFlightUnqueued) =~= ids_where(
        m,
        Counted::InFlightUnqueued,
    ).remove(id));
}

/// A segment whose frozen data could not be queued for its seal is found again until
/// it was queued, or sealed; its data stays readable all the while.
pub proof fn law_unqueued_seal_is_retried(
    m: Entries,
    id: SegmentId,
    tier: SizeTier,
    ec_k: u8,
    ec_m: u8,
    data: Seq<u8>,
    metadata: MetadataView,
    now: u64,
)
    requires
        !m.contains_key(id) || m[id].state == SegmentState::Reserved,
    ensures
        ({
            let attached = after_attach(m, id, tier, ec_k, ec_m, data);
            let failed = after_unqueued(attached, id);
            let queued = after_queued(failed, id);
            let sealed = after_seal(failed, id, metadata, None, now);
            &&& !is_deferred(attached, id)
            &&& is_deferred(failed, id)
            &&& !is_deferred(queued, id)
            &&& !is_deferred(sealed, id)
            &&& read_source_of(entry_at(failed, id, now)) == SourceView::InFlight(data)
            &&& read_source_of(entry_at(queued, id, now)) == SourceView::InFlight(data)
            &&& failed[id].metadata == attached[id].metadata
            &&& queued == attached
        }),
{
    let attached = after_attach(m, id, tier, ec_k, ec_m, data);
    let queued = after_queued(after_unqueued(attached, id), id);
    assert(queued[id] =~= attached[id]);
    assert(queued =~= attached);
}

/// Marking a seal as queued or not changes that of the segment alone; without frozen
/// data there is no seal to queue.
pub proof fn law_queue_marks_change_one_flag(m: Entries, id: SegmentId, other: SegmentId)
    requires
        m.contains_key(id),
    ensures
        other != id ==> after_queued(m, id).contains_key(other) == m.contains_key(other)
            && after_unqueued(m, id).contains_key(other) == m.contains_key(other),
        other != id && m.contains_key(other) ==> after_queued(m, id)[other] == m[other]
            && after_unqueued(m, id)[other] == m[other],
        m[id].in_flight is None ==> after_queued(m, id) == m,
        m[id].in_flight is Some ==> after_queued(m, id)[id].seal_queued,
        !after_unqueued(m, id)[id].seal_queued,
        after_queued(m, id)[id].state == m[id].state && after_unqueued(m, id)[id].state
            == m[id].state,
        after_queued(m, id)[id].in_flight == m[id].in_flight && after_unqueued(m, id)[id].in_flight
            == m[id].in_flight,
        after_queued(m, id)[id].metadata == m[id].metadata && after_unqueued(m, id)[id].metadata
            == m[id].metadata,
        after_queued(m, id)[id].data_wal_pos == m[id].data_wal_pos && after_unqueued(
            m,
            id,
        )[id].data_wal_pos == m[id].data_wal_pos,
{
}

/// Only a reservation can be dropped; it is gone then, and nothing else is.
pub proof fn law_only_reservations_are_dropped(m: Entries, id: SegmentId, other: SegmentId)
    ensures
        m.contains_key(id) && m[id].state == SegmentState::Reserved ==> !after_drop(
            m,
            id,
        ).contains_key(id),
        m.contains_key(id) && m[id].state != SegmentState::Reserved ==> after_drop(m, id) == m,
        other != id ==> after_drop(m, id).contains_key(other) == m.contains_key(other),
        other != id && m.contains_key(other) ==> after_drop(m, id)[other] == m[other],
{
}

} // verus!
