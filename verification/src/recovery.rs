//! Recovery: the registry is the fold of the event log.
//!
//! The events are applied in order through the registry's transitions. A torn
//! record ends the fold; corruption, or an event that is not a legal
//! transition, aborts it. A deletion wins over what the log holds behind it: a
//! second deletion, a seal or a refresh of a segment that the log has deleted
//! changes nothing.

use crate::error::{Error, TransitionError};
use crate::event_record::{EventView, SealEvent, SegmentEvent};
use crate::lifecycle::{
    after_delete, after_record_pos, after_refresh, after_reserve, after_seal, delete_outcome,
    entry_at, evicted, reserve_outcome, seal_outcome, Entries, SegmentLifecycleRegistry,
    SegmentState,
};
use crate::node_list::NodeList;
use crate::types::{
    reserved_metadata, EventWalPos, MetadataView, SegmentId, SegmentMetadata,
};
use std::collections::BTreeSet;
use vstd::prelude::*;

verus! {

/// What a start-up recovery did.
#[derive(Clone, Copy, Debug, PartialEq, Eq, Structural)]
pub struct RebuildOutcome {
    /// Number of distinct segments that the fold established.
    pub folded_segments: usize,
    /// Number of reserved segments without a data entry, which were dropped.
    pub dropped_empty_reserves: usize,
    /// Number of reserved segments that were rebuilt from the data log and
    /// sealed again.
    pub re_sealed_segments: usize,
    /// Number of reserved segments whose durable data file was adopted.
    pub adopted_segments: usize,
    /// Number of data entries that were passed over: of sealed, deleted,
    /// adopted or unknown segments.
    pub swept_entries: u64,
}

impl Default for RebuildOutcome {
    fn default() -> (o: Self)
        ensures
            o.folded_segments == 0,
            o.dropped_empty_reserves == 0,
            o.re_sealed_segments == 0,
            o.adopted_segments == 0,
            o.swept_entries == 0,
    {
        RebuildOutcome {
            folded_segments: 0,
            dropped_empty_reserves: 0,
            re_sealed_segments: 0,
            adopted_segments: 0,
            swept_entries: 0,
        }
    }
}

/// The metadata that a folded seal leaves. The event carries no time, so the
/// seal time is 0.
pub open spec fn sealed_metadata(e: SealEvent) -> MetadataView {
    MetadataView {
        segment_id: e.segment_id,
        ec_k: e.ec_k,
        ec_m: e.ec_m,
        size_tier: e.tier,
        merkle_root: Some(e.merkle_root),
        storage_locations: Seq::empty(),
        sealed_at: Some(0),
        pool_id: e.pool_id,
        total_bytes: 0,
    }
}

/// How far a fold has come: the entries, the segments that it has seen, and
/// those that it has deleted.
#[verifier::ext_equal]
pub struct FoldState {
    pub entries: Entries,
    pub seen: Set<u128>,
    pub deleted: Set<u128>,
}

impl FoldState {
    /// The segment was deleted before, and has not come back.
    pub open spec fn is_deleted(self, id: SegmentId, now: u64) -> bool {
        match entry_at(self.entries, id, now) {
            Some(e) => e.state == SegmentState::Deleted,
            None => self.deleted.contains(id.bits),
        }
    }

    /// The state after an event whose transition left the given entries.
    pub open spec fn saw(self, id: SegmentId, entries: Entries) -> FoldState {
        FoldState { entries, seen: self.seen.insert(id.bits), deleted: self.deleted }
    }

    /// The state after an event that was rejected: only entries whose grace
    /// is over are gone.
    pub open spec fn rejected(self, now: u64) -> FoldState {
        FoldState { entries: evicted(self.entries, now), ..self }
    }
}

/// Applies one event; the error says why it is not a legal transition.
pub open spec fn fold_event(st: FoldState, e: EventView, grace: u64, now: u64) -> Result<
    FoldState,
    TransitionError,
> {
    let id = e.segment_id();
    let entry = entry_at(st.entries, id, now);
    match e {
        EventView::Reserve(r) => match reserve_outcome(entry) {
            Ok(_) => Ok(
                st.saw(
                    id,
                    after_reserve(
                        st.entries,
                        id,
                        reserved_metadata(id, r.tier, r.ec_k, r.ec_m),
                        now,
                    ),
                ),
            ),
            Err(err) => Err(err),
        },
        EventView::Seal(s) => match seal_outcome(entry) {
            Ok(_) => Ok(
                st.saw(
                    id,
                    after_seal(
                        after_record_pos(st.entries, id, s.data_wal_pos),
                        id,
                        sealed_metadata(s),
                        s.repacked_from,
                        now,
                    ),
                ),
            ),
            Err(err) => if st.is_deleted(id, now) {
                Ok(st.saw(id, evicted(st.entries, now)))
            } else {
                Err(err)
            },
        },
        EventView::Delete(_) => match delete_outcome(entry) {
            Ok(_) => Ok(
                FoldState {
                    deleted: st.deleted.insert(id.bits),
                    ..st.saw(id, after_delete(st.entries, id, grace, now))
                },
            ),
            Err(err) => if st.is_deleted(id, now) {
                Ok(st.saw(id, evicted(st.entries, now)))
            } else {
                Err(err)
            },
        },
        EventView::MetadataRefresh { merkle_root, storage_locations, pool_id, .. } => match delete_outcome(
            entry,
        ) {
            Ok(_) => Ok(
                st.saw(
                    id,
                    after_refresh(st.entries, id, merkle_root, storage_locations, pool_id, now),
                ),
            ),
            Err(err) => if st.is_deleted(id, now) {
                Ok(st.saw(id, evicted(st.entries, now)))
            } else {
                Err(err)
            },
        },
    }
}

/// What a reader gives at one step.
pub enum ItemView {
    Event(EventWalPos, EventView),
    Failed(Error),
}

/// The view of what a reader gives.
pub open spec fn item_view(item: Result<(EventWalPos, SegmentEvent), Error>) -> ItemView {
    match item {
        Ok((pos, event)) => ItemView::Event(pos, event@),
        Err(e) => ItemView::Failed(e),
    }
}

/// How a fold ends.
pub enum FoldEnd {
    /// All events up to the end or a torn record were applied.
    Done(FoldState),
    /// The fold was aborted; what was applied before stays.
    Aborted(FoldState, Error),
}

/// Applies what a reader gives, in order.
pub open spec fn fold_items(st: FoldState, items: Seq<ItemView>, grace: u64, now: u64) -> FoldEnd
    decreases items.len(),
{
    if items.len() == 0 {
        FoldEnd::Done(st)
    } else {
        match items[0] {
            ItemView::Failed(Error::TornEventRecord { .. }) => FoldEnd::Done(st),
            ItemView::Failed(e) => FoldEnd::Aborted(st, e),
            ItemView::Event(pos, event) => match fold_event(st, event, grace, now) {
                Ok(next) => fold_items(next, items.drop_first(), grace, now),
                Err(cause) => FoldEnd::Aborted(
                    st.rejected(now),
                    Error::EventFoldError { pos, segment_id: event.segment_id(), cause },
                ),
            },
        }
    }
}

/// The view of a list of items.
pub open spec fn items_view(items: Seq<Result<(EventWalPos, SegmentEvent), Error>>) -> Seq<
    ItemView,
> {
    items.map_values(|item: Result<(EventWalPos, SegmentEvent), Error>| item_view(item))
}

/// The running state of a fold.
pub struct Fold {
    seen: BTreeSet<u128>,
    deleted: BTreeSet<u128>,
}

impl Fold {
    /// The segments that the fold has seen.
    pub closed spec fn seen(&self) -> Set<u128> {
        self.seen@
    }

    /// The segments that the fold has deleted.
    pub closed spec fn deleted(&self) -> Set<u128> {
        self.deleted@
    }

    /// The state of the fold, with the registry that it works on.
    pub open spec fn state(&self, registry: Entries) -> FoldState {
        FoldState { entries: registry, seen: self.seen(), deleted: self.deleted() }
    }

    /// A fold that has seen nothing.
    pub fn new() -> (f: Self)
        ensures
            f.seen() == Set::<u128>::empty(),
            f.deleted() == Set::<u128>::empty(),
    {
        Fold { seen: BTreeSet::new(), deleted: BTreeSet::new() }
    }

    /// Number of segments that the fold has seen.
    pub fn seen_count(&self) -> (n: usize)
        ensures
            n == self.seen().len(),
    {
        self.seen.len()
    }

    /// Whether the fold has deleted the segment.
    pub fn has_deleted(&self, id: SegmentId) -> (r: bool)
        ensures
            r == self.deleted().contains(id.bits),
    {
        self.deleted.contains(&id.bits)
    }

    /// Whether the segment was deleted before, and has not come back.
    fn is_deleted(&self, registry: &SegmentLifecycleRegistry, id: SegmentId, now: u64) -> (r: bool)
        ensures
            r == self.state(registry@).is_deleted(id, now),
    {
        match registry.get(id, now) {
            Some(e) => match e.state {
                SegmentState::Deleted => true,
                _ => false,
            },
            None => self.has_deleted(id),
        }
    }

    /// Applies one event to the registry.
    pub fn apply(
        &mut self,
        registry: &mut SegmentLifecycleRegistry,
        event: SegmentEvent,
        now: u64,
    ) -> (r: Result<(), TransitionError>)
        requires
            now + old(registry).grace() <= u64::MAX,
        ensures
            final(registry).grace() == old(registry).grace(),
            match fold_event(
                old(self).state(old(registry)@),
                event@,
                old(registry).grace(),
                now,
            ) {
                Ok(next) => r is Ok && final(self).state(final(registry)@) == next,
                Err(e) => r == Err::<(), TransitionError>(e) && final(self).state(
                    final(registry)@,
                ) == old(self).state(old(registry)@).rejected(now),
            },
    {
        let id = event.segment_id();
        let ghost st = self.state(registry@);
        let ghost grace = registry.grace();
        let gone = self.is_deleted(registry, id, now);
        let mut removed = false;
        let r = match event {
            SegmentEvent::Reserve(evt) => {
                let meta = SegmentMetadata::reserved(id, evt.tier, evt.ec_k, evt.ec_m);
                match registry.reserve(id, meta, now) {
                    Ok(()) => Ok(()),
                    Err(e) => {
                        return Err(e);
                    },
                }
            },
            SegmentEvent::Seal(evt) => {
                registry.record_data_wal_pos(id, evt.data_wal_pos);
                let meta = SegmentMetadata {
                    segment_id: id,
                    ec_k: evt.ec_k,
                    ec_m: evt.ec_m,
                    size_tier: evt.tier,
                    merkle_root: Some(evt.merkle_root),
                    storage_locations: NodeList::new(),
                    sealed_at: Some(0),
                    pool_id: evt.pool_id,
                    total_bytes: 0,
                };
                assert(meta@ == sealed_metadata(evt));
                registry.seal_with(id, meta, evt.repacked_from, now)
            },
            SegmentEvent::Delete(_) => {
                let r = registry.delete(id, now);
                removed = r.is_ok();
                r
            },
            SegmentEvent::MetadataRefresh(evt) => {
                registry.refresh_metadata(
                    id,
                    evt.merkle_root,
                    evt.storage_locations,
                    evt.pool_id,
                    now,
                )
            },
        };
        match r {
            Err(e) => {
                if !gone {
                    return Err(e);
                }
            },
            Ok(()) => {},
        }
        self.seen.insert(id.bits);
        if removed {
            self.deleted.insert(id.bits);
        }
        assert(self.state(registry@) =~= fold_event(st, event@, grace, now)->Ok_0);
        Ok(())
    }

    /// Applies what a reader gives, in order: to its end or a torn record, or
    /// to the first failure.
    pub fn run(
        &mut self,
        registry: &mut SegmentLifecycleRegistry,
        items: Vec<Result<(EventWalPos, SegmentEvent), Error>>,
        now: u64,
    ) -> (r: Result<(), Error>)
        requires
            now + old(registry).grace() <= u64::MAX,
        ensures
            final(registry).grace() == old(registry).grace(),
            match fold_items(
                old(self).state(old(registry)@),
                items_view(items@),
                old(registry).grace(),
                now,
            ) {
                FoldEnd::Done(st) => r is Ok && final(self).state(final(registry)@) == st,
                FoldEnd::Aborted(st, e) => r == Err::<(), Error>(e) && final(self).state(
                    final(registry)@,
                ) == st,
            },
    {
        let ghost all = items_view(items@);
        let ghost end = fold_items(self.state(registry@), all, registry.grace(), now);
        let ghost grace = registry.grace();
        assert(all.skip(0) =~= all);
        for item in it: items
            invariant
                all == items_view(it.seq()),
                registry.grace() == grace,
                grace == old(registry).grace(),
                now + grace <= u64::MAX,
                end == fold_items(
                    self.state(registry@),
                    all.skip(it.index()),
                    grace,
                    now,
                ),
                end == fold_items(
                    old(self).state(old(registry)@),
                    all,
                    grace,
                    now,
                ),
        {
            let ghost rest = all.skip(it.index());
            proof {
                assert(rest[0] == item_view(item));
                assert(rest.drop_first() =~= all.skip(it.index() + 1));
            }
            match item {
                Err(Error::TornEventRecord { .. }) => {
                    return Ok(());
                },
                Err(e) => {
                    return Err(e);
                },
                Ok((pos, event)) => {
                    let segment_id = event.segment_id();
                    match self.apply(registry, event, now) {
                        Ok(()) => {},
                        Err(cause) => {
                            return Err(Error::EventFoldError { pos, segment_id, cause });
                        },
                    }
                },
            }
        }
        assert(all.skip(all.len() as int) =~= Seq::empty());
        Ok(())
    }
}


/// Folding a log in two parts gives what folding it in one gives: a restart may
/// begin with the state of the first part.
pub proof fn law_fold_in_two_parts(
    st: FoldState,
    first: Seq<ItemView>,
    second: Seq<ItemView>,
    grace: u64,
    now: u64,
)
    requires
        forall|i: int| 0 <= i < first.len() ==> #[trigger] first[i] is Event,
    ensures
        fold_items(st, first + second, grace, now) == (match fold_items(st, first, grace, now) {
            FoldEnd::Done(mid) => fold_items(mid, second, grace, now),
            FoldEnd::Aborted(mid, e) => FoldEnd::Aborted(mid, e),
        }),
    decreases first.len(),
{
    if first.len() == 0 {
        assert(first + second =~= second);
    } else {
        let all = first + second;
        let rest = first.drop_first();
        assert(all[0] == first[0]);
        assert(first[0] is Event);
        assert(all.drop_first() =~= rest + second);
        assert forall|i: int| 0 <= i < rest.len() implies #[trigger] rest[i] is Event by {
            assert(rest[i] == first[i + 1]);
        }
        if let ItemView::Event(_, event) = first[0] {
            if let Ok(next) = fold_event(st, event, grace, now) {
                law_fold_in_two_parts(next, rest, second, grace, now);
            }
        }
    }
}

/// A deletion wins: behind it in the log, another deletion, a seal or a refresh
/// of the segment is accepted and changes no entry.
pub proof fn law_deletion_wins(
    st: FoldState,
    deletion: EventView,
    later: EventView,
    grace: u64,
    now: u64,
)
    requires
        deletion is Delete,
        !(later is Reserve),
        later.segment_id() == deletion.segment_id(),
        fold_event(st, deletion, grace, now) is Ok,
        now + grace <= u64::MAX,
    ensures
        ({
            let after = fold_event(st, deletion, grace, now)->Ok_0;
            let again = fold_event(after, later, grace, now);
            &&& again is Ok
            &&& again->Ok_0.entries == after.entries
            &&& again->Ok_0.deleted == after.deleted
        }),
{
    let id = deletion.segment_id();
    let after = fold_event(st, deletion, grace, now)->Ok_0;
    assert(evicted(after.entries, now) =~= after.entries);
    let again = fold_event(after, later, grace, now)->Ok_0;
    assert(again.entries =~= after.entries);
}

/// A seal, a deletion or a refresh of a segment that was never reserved is
/// rejected.
pub proof fn law_unknown_segment_is_rejected(st: FoldState, e: EventView, grace: u64, now: u64)
    requires
        !(e is Reserve),
        entry_at(st.entries, e.segment_id(), now) is None,
        !st.deleted.contains(e.segment_id().bits),
    ensures
        fold_event(st, e, grace, now) == Err::<FoldState, TransitionError>(TransitionError::Missing),
{
}

/// A fold changes only the segments that it has seen.
pub proof fn law_fold_changes_only_what_it_saw(
    st: FoldState,
    items: Seq<ItemView>,
    grace: u64,
    now: u64,
    id: SegmentId,
)
    ensures
        fold_items(st, items, grace, now) matches FoldEnd::Done(end) ==> {
            &&& st.seen.subset_of(end.seen)
            &&& !end.seen.contains(id.bits) ==> entry_at(end.entries, id, now) == entry_at(
                st.entries,
                id,
                now,
            )
        },
    decreases items.len(),
{
    if items.len() > 0 {
        if let ItemView::Event(_, event) = items[0] {
            if let Ok(next) = fold_event(st, event, grace, now) {
                law_fold_changes_only_what_it_saw(next, items.drop_first(), grace, now, id);
                assert(next.seen == st.seen.insert(event.segment_id().bits));
                if event.segment_id() != id {
                    assert(event.segment_id().bits != id.bits);
                    assert(entry_at(next.entries, id, now) == entry_at(st.entries, id, now));
                }
            }
        }
    }
}

} // verus!
