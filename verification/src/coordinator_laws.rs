//! Laws of the coordinator.

use crate::coordinator::{
    change_outcome, changed, completed, durable_write, mirrored, requested, stamped, ChangeView, MirrorView,
    PendingView,
    WriteView,
};
use crate::error::{TransitionError, TransitionView};
use crate::event_record::EventView;
use crate::lifecycle::{entry_at, Entries, SegmentState};
use crate::recovery::{fold_event, FoldState};
use crate::startup::seeded;
use crate::types::{reserved_metadata, MetadataView, SegmentId};
use vstd::prelude::*;

verus! {

/// Two registries agree on a segment: both lack it, or both have it in the same
/// state, with the same root, pool, tier and coding.
pub open spec fn same_segment(a: Entries, b: Entries, id: SegmentId) -> bool {
    &&& a.contains_key(id) <==> b.contains_key(id)
    &&& a.contains_key(id) ==> {
        &&& a[id].state == b[id].state
        &&& a[id].evict_at == b[id].evict_at
        &&& a[id].repacked_from == b[id].repacked_from
        &&& a[id].metadata.merkle_root == b[id].metadata.merkle_root
        &&& a[id].metadata.pool_id == b[id].metadata.pool_id
        &&& a[id].metadata.size_tier == b[id].metadata.size_tier
        &&& a[id].metadata.ec_k == b[id].metadata.ec_k
        &&& a[id].metadata.ec_m == b[id].metadata.ec_m
    }
}

/// The event of a transition says all of it: folding the event onto the
/// registry gives what the transition gives.
pub proof fn law_event_replays_transition(
    st: FoldState,
    id: SegmentId,
    change: ChangeView,
    grace: u64,
    now: u64,
    other: SegmentId,
)
    requires
        requested(st.entries, true, id, change, now) is Ok,
        change matches ChangeView::Reserve(meta) ==> meta == reserved_metadata(
            id,
            meta.size_tier,
            meta.ec_k,
            meta.ec_m,
        ),
    ensures
        durable_write(st.entries, true, id, change) is Append,
        ({
            let event = durable_write(st.entries, true, id, change)->Append_0;
            let folded = fold_event(st, event, grace, now);
            &&& event.segment_id() == id
            &&& folded is Ok
            &&& same_segment(
                folded->Ok_0.entries,
                changed(st.entries, id, change, grace, now),
                other,
            )
            &&& other != id ==> entry_at(folded->Ok_0.entries, other, now) == entry_at(
                changed(st.entries, id, change, grace, now),
                other,
                now,
            )
            &&& change !is Seal ==> folded->Ok_0.entries == changed(
                st.entries,
                id,
                change,
                grace,
                now,
            )
            &&& change is Seal && st.entries[id].data_wal_pos is Some
                ==> folded->Ok_0.entries[id].data_wal_pos == changed(
                st.entries,
                id,
                change,
                grace,
                now,
            )[id].data_wal_pos
            &&& folded->Ok_0.seen.contains(id.bits)
            &&& folded->Ok_0.deleted == (if change is Delete {
                st.deleted.insert(id.bits)
            } else {
                st.deleted
            })
        }),
{
}

/// The position that a seal's event carries is that of the segment's last data
/// entry.
pub proof fn law_seal_event_carries_last_position(
    m: Entries,
    id: SegmentId,
    change: ChangeView,
    now: u64,
)
    requires
        change is Seal,
        requested(m, true, id, change, now) is Ok,
        m[id].data_wal_pos is Some,
    ensures
        durable_write(m, true, id, change) matches WriteView::Append(EventView::Seal(e))
            && e.data_wal_pos == m[id].data_wal_pos->0,
{
}

/// Without a durable reservation there is no seal: a seal is requested of a
/// reserved segment only.
pub proof fn law_seal_needs_reservation(m: Entries, events: bool, id: SegmentId, change: ChangeView, now: u64)
    requires
        change is Seal,
        requested(m, events, id, change, now) is Ok,
    ensures
        entry_at(m, id, now) is Some,
        entry_at(m, id, now)->0.state == SegmentState::Reserved,
{
}

/// A request is granted or refused by the segment's state alone: an absent or
/// reserved segment can be reserved, a reserved one sealed, a reserved or sealed
/// one deleted or refreshed. Where there is an event log, a seal needs the root
/// too. What is granted is what was asked for, of the same segment.
pub proof fn law_request_is_granted_by_state(
    m: Entries,
    events: bool,
    id: SegmentId,
    change: ChangeView,
    now: u64,
)
    ensures
        ({
            let r = requested(m, events, id, change, now);
            let e = entry_at(m, id, now);
            &&& r matches Ok(p) ==> p.id == id && p.change == change
            &&& r is Ok <==> match change {
                ChangeView::Reserve(_) => e is None || e->0.state == SegmentState::Reserved,
                ChangeView::Seal(meta, _) => e is Some && e->0.state == SegmentState::Reserved && (
                events ==> meta.merkle_root is Some),
                _ => e is Some && e->0.state != SegmentState::Deleted,
            }
            &&& e is None && change !is Reserve ==> r == Err::<PendingView, TransitionView>(
                TransitionView::Missing,
            )
            &&& e is Some && e->0.state == SegmentState::Sealed && (change is Reserve
                || change is Seal) ==> r == Err::<PendingView, TransitionView>(TransitionView::AlreadySealed)
            &&& e is Some && e->0.state == SegmentState::Deleted && change is Seal ==> r == Err::<
                PendingView,
                TransitionView,
            >(TransitionView::NotReserved)
            &&& e is Some && e->0.state == SegmentState::Deleted && change !is Seal ==> r == Err::<
                PendingView,
                TransitionView,
            >(TransitionView::AlreadyDeleted)
            &&& r is Ok ==> change_outcome(m, id, change, now) is Ok
        }),
{
}

/// What was requested is still legal when its write has returned, as long as the
/// segment is in the state that it was in.
pub proof fn law_granted_change_applies(
    m: Entries,
    later: Entries,
    events: bool,
    id: SegmentId,
    change: ChangeView,
    now: u64,
    after_now: u64,
)
    requires
        requested(m, events, id, change, now) is Ok,
        entry_at(later, id, after_now) is None <==> entry_at(m, id, now) is None,
        entry_at(later, id, after_now) is Some ==> entry_at(later, id, after_now)->0.state == entry_at(
            m,
            id,
            now,
        )->0.state,
    ensures
        change_outcome(later, id, change, after_now) == Ok::<(), TransitionError>(()),
{
}

/// What the metadata store holds after a write to it.
pub open spec fn store_after(
    store: Map<SegmentId, MetadataView>,
    write: WriteView,
) -> Map<SegmentId, MetadataView> {
    match write {
        WriteView::PutSegment(meta) => store.insert(meta.segment_id, meta),
        WriteView::DeleteSegment(id) => store.remove(id),
        WriteView::Append(_) => store,
    }
}

/// What the mirror holds after a write to it.
pub open spec fn mirror_after(
    store: Map<SegmentId, MetadataView>,
    write: MirrorView,
) -> Map<SegmentId, MetadataView> {
    match write {
        MirrorView::Put(meta) => store.insert(meta.segment_id, meta),
        MirrorView::Delete(id) => store.remove(id),
    }
}

/// The metadata store tells of a segment what the registry knows: it has the
/// segment just when it is live, with the same metadata, and with a seal time
/// just when it is sealed.
pub open spec fn store_tells(
    m: Entries,
    store: Map<SegmentId, MetadataView>,
    id: SegmentId,
    now: u64,
) -> bool {
    match entry_at(m, id, now) {
        Some(e) => if e.state == SegmentState::Deleted {
            !store.contains_key(id)
        } else {
            &&& store.contains_key(id)
            &&& store[id] == e.metadata
            &&& e.metadata.segment_id == id
            &&& e.metadata.sealed_at is Some <==> e.state == SegmentState::Sealed
        },
        None => !store.contains_key(id),
    }
}

/// The change carries metadata of its own segment: that of a new reservation, or
/// that of a seal, with a seal time. A segment that is reserved again keeps its
/// entry, and is reserved with the metadata that it has.
pub open spec fn carries_own_metadata(
    m: Entries,
    id: SegmentId,
    change: ChangeView,
    now: u64,
) -> bool {
    match change {
        ChangeView::Reserve(meta) => meta.segment_id == id && meta.sealed_at is None && (entry_at(
            m,
            id,
            now,
        ) matches Some(e) ==> e.metadata == meta),
        ChangeView::Seal(meta, _) => meta.segment_id == id && meta.sealed_at is Some,
        _ => true,
    }
}

/// Without an event log the durable write of a transition says all of it: a
/// metadata store that tells what the registry knows still does so when the write
/// and the change were made. So does a mirror behind an event log, once it was
/// told.
pub proof fn law_store_keeps_up_with_registry(
    m: Entries,
    store: Map<SegmentId, MetadataView>,
    id: SegmentId,
    change: ChangeView,
    grace: u64,
    now: u64,
    other: SegmentId,
)
    requires
        store_tells(m, store, id, now),
        store_tells(m, store, other, now),
        carries_own_metadata(m, id, change, now),
        now + grace <= u64::MAX,
    ensures
        requested(m, false, id, change, now) matches Ok(p) ==> store_tells(
            changed(m, id, change, grace, now),
            store_after(store, p.write),
            other,
            now,
        ),
        change_outcome(m, id, change, now) is Ok ==> store_tells(
            changed(m, id, change, grace, now),
            mirror_after(store, mirrored(m, id, change)),
            other,
            now,
        ),
{
    if change_outcome(m, id, change, now) is Ok && change is Refresh {
        let e = entry_at(m, id, now)->0;
        assert(m[id] == e);
    }
}

/// Without an event log, seeding an empty registry from the durable write of a
/// granted transition gives the segment in the state, and with the metadata, in
/// which the transition leaves it. Of a deletion nothing is left to seed.
pub proof fn law_store_write_restores_transition(
    m: Entries,
    id: SegmentId,
    change: ChangeView,
    grace: u64,
    now: u64,
)
    requires
        requested(m, false, id, change, now) is Ok,
        carries_own_metadata(m, id, change, now),
        now + grace <= u64::MAX,
        entry_at(m, id, now) matches Some(e) ==> e.metadata.segment_id == id && (
        e.metadata.sealed_at is Some <==> e.state == SegmentState::Sealed),
    ensures
        ({
            let write = requested(m, false, id, change, now)->Ok_0.write;
            let after = changed(m, id, change, grace, now);
            if change is Delete {
                &&& write == WriteView::DeleteSegment(id)
                &&& entry_at(after, id, now) matches Some(e) ==> e.state == SegmentState::Deleted
            } else {
                &&& write is PutSegment
                &&& ({
                    let restored = seeded(Map::empty(), seq![write->PutSegment_0], now);
                    &&& restored.contains_key(id)
                    &&& after.contains_key(id)
                    &&& restored[id].state == after[id].state
                    &&& restored[id].metadata.segment_id == id
                    &&& restored[id].metadata.merkle_root == after[id].metadata.merkle_root
                    &&& restored[id].metadata.pool_id == after[id].metadata.pool_id
                    &&& restored[id].metadata.size_tier == after[id].metadata.size_tier
                    &&& restored[id].metadata.ec_k == after[id].metadata.ec_k
                    &&& restored[id].metadata.ec_m == after[id].metadata.ec_m
                    &&& restored[id].metadata.storage_locations
                        == after[id].metadata.storage_locations
                    &&& restored[id].metadata.sealed_at == after[id].metadata.sealed_at
                    &&& restored[id].metadata.total_bytes == after[id].metadata.total_bytes
                })
            }
        }),
{
    if change !is Delete {
        let meta = requested(m, false, id, change, now)->Ok_0.write->PutSegment_0;
        let one = seq![meta];
        assert(one.drop_last() =~= Seq::empty());
        reveal_with_fuel(seeded, 2);
    }
}

/// The segments of a listing are all different.
pub open spec fn listed_once(metas: Seq<MetadataView>) -> bool {
    forall|i: int, j: int|
        0 <= i < j < metas.len() ==> (#[trigger] metas[i]).segment_id != (
        #[trigger] metas[j]).segment_id
}

/// Seeding takes every segment of a listing that has no entry yet: sealed when it
/// has a seal time, else reserved, with the metadata of the listing and nothing
/// else. Entries that are there stay as they are, and no other segment gets one.
pub proof fn law_seeding_takes_the_listing(
    m: Entries,
    metas: Seq<MetadataView>,
    now: u64,
    id: SegmentId,
)
    requires
        listed_once(metas),
    ensures
        ({
            let after = seeded(m, metas, now);
            &&& entry_at(m, id, now) is Some ==> entry_at(after, id, now) == entry_at(m, id, now)
            &&& forall|i: int|
                0 <= i < metas.len() && entry_at(m, id, now) is None && (
                #[trigger] metas[i]).segment_id == id ==> {
                    &&& after.contains_key(id)
                    &&& after[id].metadata == metas[i]
                    &&& after[id].state == (if metas[i].sealed_at is Some {
                        SegmentState::Sealed
                    } else {
                        SegmentState::Reserved
                    })
                    &&& after[id].data_wal_pos is None
                    &&& after[id].repacked_from is None
                    &&& after[id].in_flight is None
                    &&& !after[id].seal_queued
                }
            &&& entry_at(m, id, now) is None && (forall|i: int|
                0 <= i < metas.len() ==> (#[trigger] metas[i]).segment_id != id) ==> entry_at(
                after,
                id,
                now,
            ) is None
        }),
    decreases metas.len(),
{
    if metas.len() > 0 {
        let rest = metas.drop_last();
        assert(listed_once(rest)) by {
            assert forall|i: int, j: int| 0 <= i < j < rest.len() implies (
            #[trigger] rest[i]).segment_id != (#[trigger] rest[j]).segment_id by {
                assert(rest[i] == metas[i] && rest[j] == metas[j]);
            }
        }
        law_seeding_takes_the_listing(m, rest, now, id);
        let last = metas.last();
        let before = seeded(m, rest, now);
        assert(forall|i: int| 0 <= i < rest.len() ==> #[trigger] rest[i] == metas[i]);
        assert forall|i: int|
            0 <= i < metas.len() && entry_at(m, id, now) is None && (
            #[trigger] metas[i]).segment_id == id implies {
            let after = seeded(m, metas, now);
            &&& after.contains_key(id)
            &&& after[id].metadata == metas[i]
            &&& after[id].state == (if metas[i].sealed_at is Some {
                SegmentState::Sealed
            } else {
                SegmentState::Reserved
            })
            &&& after[id].data_wal_pos is None
            &&& after[id].repacked_from is None
            &&& after[id].in_flight is None
            &&& !after[id].seal_queued
        } by {
            if i < rest.len() {
                assert(rest[i].segment_id == id);
                assert(metas[metas.len() - 1].segment_id != id);
            } else {
                assert forall|j: int| 0 <= j < rest.len() implies (#[trigger] rest[j]).segment_id
                    != id by {
                    assert(metas[j].segment_id != metas[i].segment_id);
                }
            }
        }
        if forall|i: int| 0 <= i < metas.len() ==> (#[trigger] metas[i]).segment_id != id {
            assert(metas[metas.len() - 1].segment_id != id);
            assert forall|j: int| 0 <= j < rest.len() implies (#[trigger] rest[j]).segment_id
                != id by {
                assert(metas[j].segment_id != id);
            }
        }
    }
}

/// Without an event log a restart restores the registry: seeding an empty one
/// from a metadata store that tells what the registry knows gives the live
/// segments, in their states and with their metadata, and no others.
pub proof fn law_restart_from_store_restores_registry(
    m: Entries,
    store: Map<SegmentId, MetadataView>,
    metas: Seq<MetadataView>,
    now: u64,
    id: SegmentId,
)
    requires
        store_tells(m, store, id, now),
        listed_once(metas),
        forall|i: int|
            0 <= i < metas.len() ==> store.contains_key((#[trigger] metas[i]).segment_id)
                && store[metas[i].segment_id] == metas[i],
        store.contains_key(id) ==> metas.contains(store[id]),
    ensures
        ({
            let after = entry_at(seeded(Map::empty(), metas, now), id, now);
            match entry_at(m, id, now) {
                Some(e) => if e.state == SegmentState::Deleted {
                    after is None
                } else {
                    after matches Some(f) && f.state == e.state && f.metadata == e.metadata
                },
                None => after is None,
            }
        }),
{
    law_seeding_takes_the_listing(Map::empty(), metas, now, id);
    if store.contains_key(id) {
        let i = metas.index_of(store[id]);
        assert(metas[i].segment_id == id);
    }
}

/// A transition is applied only when its durable write has succeeded: a failed write
/// changes no entry, tells the caller why it failed, and the mirror nothing.
pub proof fn law_failed_write_changes_nothing(
    m: Entries,
    events: bool,
    id: SegmentId,
    change: ChangeView,
    why: Seq<char>,
    grace: u64,
    now: u64,
)
    ensures
        ({
            let (after, r, mirror) = completed(m, events, id, change, Err(why), grace, now);
            &&& after == m
            &&& r == Err::<(), TransitionView>(TransitionView::DurableWriteFailed(why))
            &&& mirror is None
        }),
{
}

/// After a successful write a transition that is still legal is applied and
/// succeeds, and the mirror is told of it where there is an event log. One that has
/// become illegal changes no entry, fails with its reason, and tells the mirror
/// nothing.
pub proof fn law_successful_write_applies_change(
    m: Entries,
    events: bool,
    id: SegmentId,
    change: ChangeView,
    grace: u64,
    now: u64,
    other: SegmentId,
)
    requires
        now + grace <= u64::MAX,
    ensures
        ({
            let (after, r, mirror) = completed(m, events, id, change, Ok(()), grace, now);
            let e = entry_at(m, id, now);
            let legal = match change {
                ChangeView::Reserve(_) => e is None || e->0.state == SegmentState::Reserved,
                ChangeView::Seal(_, _) => e is Some && e->0.state == SegmentState::Reserved,
                _ => e is Some && e->0.state != SegmentState::Deleted,
            };
            &&& r is Ok <==> legal
            &&& mirror is Some <==> legal && events
            &&& !legal ==> entry_at(after, other, now) == entry_at(m, other, now)
            &&& other != id ==> entry_at(after, other, now) == entry_at(m, other, now)
            &&& legal ==> match change {
                ChangeView::Reserve(meta) => after.contains_key(id) && after[id].state
                    == SegmentState::Reserved && (e is None ==> after[id].metadata == meta)
                    && (mirror matches Some(w) ==> w == MirrorView::Put(meta)),
                ChangeView::Seal(meta, from) => after.contains_key(id) && after[id].state
                    == SegmentState::Sealed && after[id].metadata == meta
                    && after[id].repacked_from == from && (mirror matches Some(w) ==> w
                    == MirrorView::Put(meta)),
                ChangeView::Delete => (entry_at(after, id, now) matches Some(f) ==> f.state
                    == SegmentState::Deleted) && (mirror matches Some(w) ==> w
                    == MirrorView::Delete(id)),
                ChangeView::Refresh(root, holders, pool) => after.contains_key(id)
                    && after[id].state == e->0.state && after[id].metadata.merkle_root == root
                    && (mirror matches Some(w) ==> w == MirrorView::Put(after[id].metadata)),
            }
        }),
{
}

/// Stamping the holders of a segment replaces them, and nothing else of it.
pub proof fn law_stamp_replaces_holders_only(
    m: Entries,
    events: bool,
    id: SegmentId,
    holders: Seq<Seq<char>>,
    grace: u64,
    now: u64,
)
    requires
        entry_at(m, id, now) is Some,
        m[id].state != SegmentState::Deleted,
    ensures
        requested(m, events, id, stamped(m, id, holders), now) is Ok,
        ({
            let after = changed(m, id, stamped(m, id, holders), grace, now);
            &&& after[id].metadata.storage_locations == holders
            &&& after[id].metadata.merkle_root == m[id].metadata.merkle_root
            &&& after[id].metadata.pool_id == m[id].metadata.pool_id
            &&& after[id].metadata.sealed_at == m[id].metadata.sealed_at
            &&& after[id].metadata.size_tier == m[id].metadata.size_tier
            &&& after[id].metadata.ec_k == m[id].metadata.ec_k
            &&& after[id].metadata.ec_m == m[id].metadata.ec_m
            &&& after[id].state == m[id].state
            &&& after[id].data_wal_pos == m[id].data_wal_pos
        }),
{
}

} // verus!
