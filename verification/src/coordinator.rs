//! The single writer of segment lifecycle state.
//!
//! A transition is requested, written durably, and only then applied to the
//! registry: a request validates it and says what is to be written, and
//! [`SegmentLifecycleCoordinator::complete`] takes the outcome of that write.
//! Without an event log the durable write is that of the metadata store. With
//! one it is the append of an event, and the metadata store is a mirror that
//! is written afterwards and may lag.

use crate::error::{transition_view, TransitionError, TransitionView};
use crate::event_record::{
    DeleteEvent, EventView, MetadataRefreshEvent, ReserveEvent, SealEvent, SegmentEvent,
};
use crate::lifecycle::{
    after_delete, after_record_pos, after_refresh, after_reserve, after_seal, delete_outcome,
    entry_at, reserve_outcome, seal_outcome, Entries, SegmentLifecycleRegistry,
};
use crate::node_list::{optional_names, NodeList};
use crate::recovery::Fold;
use crate::types::{
    reserved_metadata, DataWalPos, EventWalConfig, HashOutput, LifecycleConfig, MetadataView,
    SegmentId, SegmentMetadata, SizeTier,
};
use vstd::prelude::*;

verus! {

/// A durable write that a transition needs.
#[derive(Debug)]
pub enum DurableWrite {
    /// Append the event to the event log.
    Append(SegmentEvent),
    /// Put the segment into the metadata store.
    PutSegment(SegmentMetadata),
    /// Delete the segment from the metadata store.
    DeleteSegment(SegmentId),
}

/// The mathematical view of [`DurableWrite`].
#[verifier::ext_equal]
pub enum WriteView {
    Append(EventView),
    PutSegment(MetadataView),
    DeleteSegment(SegmentId),
}

impl View for DurableWrite {
    type V = WriteView;

    open spec fn view(&self) -> WriteView {
        match *self {
            DurableWrite::Append(event) => WriteView::Append(event@),
            DurableWrite::PutSegment(meta) => WriteView::PutSegment(meta@),
            DurableWrite::DeleteSegment(id) => WriteView::DeleteSegment(id),
        }
    }
}

/// A write to the mirror.
#[derive(Debug)]
pub enum MirrorWrite {
    /// Put the segment.
    Put(SegmentMetadata),
    /// Delete the segment.
    Delete(SegmentId),
}

/// The mathematical view of [`MirrorWrite`].
#[verifier::ext_equal]
pub enum MirrorView {
    Put(MetadataView),
    Delete(SegmentId),
}

impl View for MirrorWrite {
    type V = MirrorView;

    open spec fn view(&self) -> MirrorView {
        match *self {
            MirrorWrite::Put(meta) => MirrorView::Put(meta@),
            MirrorWrite::Delete(id) => MirrorView::Delete(id),
        }
    }
}

/// The view of an optional mirror write.
pub open spec fn mirror_view(w: Option<MirrorWrite>) -> Option<MirrorView> {
    match w {
        Some(w) => Some(w@),
        None => None,
    }
}

/// What a transition does to the registry.
#[derive(Debug)]
pub enum Change {
    /// Reserve the segment.
    Reserve(SegmentMetadata),
    /// Seal the segment, with the segment that it was repacked from.
    Seal(SegmentMetadata, Option<SegmentId>),
    /// Delete the segment.
    Delete,
    /// Refresh the segment's metadata: the root, and the holders and the pool
    /// where they are given.
    Refresh(Option<HashOutput>, Option<NodeList>, Option<u32>),
}

/// The mathematical view of [`Change`].
#[verifier::ext_equal]
pub enum ChangeView {
    Reserve(MetadataView),
    Seal(MetadataView, Option<SegmentId>),
    Delete,
    Refresh(Option<HashOutput>, Option<Seq<Seq<char>>>, Option<u32>),
}

impl View for Change {
    type V = ChangeView;

    open spec fn view(&self) -> ChangeView {
        match *self {
            Change::Reserve(meta) => ChangeView::Reserve(meta@),
            Change::Seal(meta, from) => ChangeView::Seal(meta@, from),
            Change::Delete => ChangeView::Delete,
            Change::Refresh(root, locations, pool) => ChangeView::Refresh(
                root,
                optional_names(locations),
                pool,
            ),
        }
    }
}

/// A transition that was validated and waits for its durable write.
#[derive(Debug)]
pub struct PendingTransition {
    /// The segment.
    pub id: SegmentId,
    /// What the transition does.
    pub change: Change,
    /// What is to be written first.
    pub write: DurableWrite,
}

/// The mathematical view of [`PendingTransition`].
#[verifier::ext_equal]
pub struct PendingView {
    pub id: SegmentId,
    pub change: ChangeView,
    pub write: WriteView,
}

impl View for PendingTransition {
    type V = PendingView;

    open spec fn view(&self) -> PendingView {
        PendingView { id: self.id, change: self.change@, write: self.write@ }
    }
}

/// The view of the answer to a request.
pub open spec fn request_view(r: Result<PendingTransition, TransitionError>) -> Result<
    PendingView,
    TransitionView,
> {
    match r {
        Ok(p) => Ok(p@),
        Err(e) => Err(e@),
    }
}

/// Why a seal without a root is refused when there is an event log.
pub open spec fn missing_root() -> TransitionView {
    TransitionView::DurableWriteFailed(
        "seal without merkle_root (the event log requires the seal-time root)"@,
    )
}

/// The event of a seal: it carries the position of the segment's last data
/// entry, or the start of the log when none was recorded.
pub open spec fn seal_event(
    m: Entries,
    id: SegmentId,
    meta: MetadataView,
    root: HashOutput,
    repacked_from: Option<SegmentId>,
) -> SealEvent {
    SealEvent {
        segment_id: id,
        tier: meta.size_tier,
        ec_k: meta.ec_k,
        ec_m: meta.ec_m,
        merkle_root: root,
        data_wal_pos: if m.contains_key(id) && m[id].data_wal_pos is Some {
            m[id].data_wal_pos->0
        } else {
            DataWalPos { file_seq: 0, offset: 0 }
        },
        repacked_from,
        pool_id: meta.pool_id,
    }
}

/// Whether a change is legal for a segment with the given entry.
pub open spec fn change_outcome(m: Entries, id: SegmentId, change: ChangeView, now: u64) -> Result<
    (),
    TransitionError,
> {
    let entry = entry_at(m, id, now);
    match change {
        ChangeView::Reserve(_) => reserve_outcome(entry),
        ChangeView::Seal(_, _) => seal_outcome(entry),
        ChangeView::Delete => delete_outcome(entry),
        ChangeView::Refresh(_, _, _) => delete_outcome(entry),
    }
}

/// The entries after a change.
pub open spec fn changed(m: Entries, id: SegmentId, change: ChangeView, grace: u64, now: u64)
    -> Entries {
    match change {
        ChangeView::Reserve(meta) => after_reserve(m, id, meta, now),
        ChangeView::Seal(meta, from) => after_seal(m, id, meta, from, now),
        ChangeView::Delete => after_delete(m, id, grace, now),
        ChangeView::Refresh(root, locations, pool) => after_refresh(
            m,
            id,
            root,
            locations,
            pool,
            now,
        ),
    }
}

/// What is written durably before a change: its event where there is an event
/// log, else the metadata store's entry.
pub open spec fn durable_write(m: Entries, events: bool, id: SegmentId, change: ChangeView)
    -> WriteView {
    match change {
        ChangeView::Reserve(meta) => if events {
            WriteView::Append(
                EventView::Reserve(
                    ReserveEvent {
                        segment_id: id,
                        tier: meta.size_tier,
                        ec_k: meta.ec_k,
                        ec_m: meta.ec_m,
                    },
                ),
            )
        } else {
            WriteView::PutSegment(meta)
        },
        ChangeView::Seal(meta, from) => if events {
            WriteView::Append(EventView::Seal(seal_event(m, id, meta, meta.merkle_root->0, from)))
        } else {
            WriteView::PutSegment(meta)
        },
        ChangeView::Delete => if events {
            WriteView::Append(EventView::Delete(DeleteEvent { segment_id: id }))
        } else {
            WriteView::DeleteSegment(id)
        },
        ChangeView::Refresh(root, locations, pool) => if events {
            WriteView::Append(
                EventView::MetadataRefresh {
                    segment_id: id,
                    merkle_root: root,
                    storage_locations: locations,
                    pool_id: pool,
                },
            )
        } else {
            WriteView::PutSegment(m[id].refreshed(root, locations, pool).metadata)
        },
    }
}

/// The answer to a request: an illegal change is refused, as is a seal without
/// a root where there is an event log; else the change waits for its write.
pub open spec fn requested(m: Entries, events: bool, id: SegmentId, change: ChangeView, now: u64)
    -> Result<PendingView, TransitionView> {
    match change_outcome(m, id, change, now) {
        Err(e) => Err(e@),
        Ok(()) => match change {
            ChangeView::Seal(meta, _) if events && meta.merkle_root is None => Err(missing_root()),
            _ => Ok(PendingView { id, change, write: durable_write(m, events, id, change) }),
        },
    }
}

/// What the mirror is told after a change.
pub open spec fn mirrored(m: Entries, id: SegmentId, change: ChangeView) -> MirrorView {
    match change {
        ChangeView::Reserve(meta) => MirrorView::Put(meta),
        ChangeView::Seal(meta, _) => MirrorView::Put(meta),
        ChangeView::Delete => MirrorView::Delete(id),
        ChangeView::Refresh(root, locations, pool) => MirrorView::Put(
            m[id].refreshed(root, locations, pool).metadata,
        ),
    }
}

/// How a transition ends whose durable write has returned: the entries, what the
/// caller is told, and what the mirror is told.
pub open spec fn completed(
    m: Entries,
    events: bool,
    id: SegmentId,
    change: ChangeView,
    written: Result<(), Seq<char>>,
    grace: u64,
    now: u64,
) -> (Entries, Result<(), TransitionView>, Option<MirrorView>) {
    match written {
        Err(why) => (m, Err(TransitionView::DurableWriteFailed(why)), None),
        Ok(()) => {
            let outcome = change_outcome(m, id, change, now);
            (
                changed(m, id, change, grace, now),
                transition_view(outcome),
                if outcome is Ok && events {
                    Some(mirrored(m, id, change))
                } else {
                    None
                },
            )
        },
    }
}

/// The change that stamps the holders of a segment: its root stays.
pub open spec fn stamped(m: Entries, id: SegmentId, holders: Seq<Seq<char>>) -> ChangeView {
    ChangeView::Refresh(m[id].metadata.merkle_root, Some(holders), None)
}

/// The single writer of segment lifecycle state.
pub struct SegmentLifecycleCoordinator {
    /// The registry.
    pub registry: SegmentLifecycleRegistry,
    /// Whether transitions are written to an event log.
    pub event_log: bool,
    /// What the start-up fold has seen.
    pub fold: Fold,
    /// The checkpoint threshold, when checkpoints are taken.
    pub checkpoint_config: Option<EventWalConfig>,
    /// Whether a checkpoint is being written.
    pub checkpoint_running: bool,
    /// The tiers of the pools, in the order in which they are searched.
    pub pool_tiers: Vec<SizeTier>,
    /// How long a segment may wait for its next write, in milliseconds.
    pub idle_seal_timeout_ms: u64,
}

/// The lifecycle machine.
pub type SegmentLifecycle = SegmentLifecycleCoordinator;

impl SegmentLifecycleCoordinator {
    /// A coordinator with an empty registry, without an event log.
    pub fn new(config: &LifecycleConfig) -> (c: Self)
        ensures
            c.registry@ == Map::<SegmentId, crate::lifecycle::EntryView>::empty(),
            c.registry.grace() == config.delete_grace_ms,
            !c.event_log,
            c.checkpoint_config is None,
            !c.checkpoint_running,
            c.pool_tiers@.len() == 0,
            c.idle_seal_timeout_ms == 0,
            c.fold.seen() == Set::<u128>::empty(),
            c.fold.deleted() == Set::<u128>::empty(),
    {
        Self::with_registry(SegmentLifecycleRegistry::new(config))
    }

    /// A coordinator over the given registry, without an event log.
    pub fn with_registry(registry: SegmentLifecycleRegistry) -> (c: Self)
        ensures
            c.registry == registry,
            !c.event_log,
            c.checkpoint_config is None,
            !c.checkpoint_running,
            c.pool_tiers@.len() == 0,
            c.idle_seal_timeout_ms == 0,
            c.fold.seen() == Set::<u128>::empty(),
            c.fold.deleted() == Set::<u128>::empty(),
    {
        SegmentLifecycleCoordinator {
            registry,
            event_log: false,
            fold: Fold::new(),
            checkpoint_config: None,
            checkpoint_running: false,
            pool_tiers: Vec::new(),
            idle_seal_timeout_ms: 0,
        }
    }

    /// The coordinator with an event log: the event is the durable write, and
    /// the metadata store becomes a mirror.
    pub fn with_event_wal(self) -> (c: Self)
        ensures
            c == (SegmentLifecycleCoordinator { event_log: true, ..self }),
    {
        SegmentLifecycleCoordinator { event_log: true, ..self }
    }

    /// The coordinator with checkpoints, taken when the event log has grown
    /// past the configured size.
    pub fn with_checkpoint(self, config: EventWalConfig) -> (c: Self)
        ensures
            c == (SegmentLifecycleCoordinator { checkpoint_config: Some(config), ..self }),
    {
        SegmentLifecycleCoordinator { checkpoint_config: Some(config), ..self }
    }

    /// The coordinator with the pools whose idle segments are sealed.
    pub fn with_idle_seal(self, pool_tiers: Vec<SizeTier>, seal_timeout_ms: u64) -> (c: Self)
        ensures
            c == (SegmentLifecycleCoordinator {
                pool_tiers,
                idle_seal_timeout_ms: seal_timeout_ms,
                ..self
            }),
    {
        SegmentLifecycleCoordinator { pool_tiers, idle_seal_timeout_ms: seal_timeout_ms, ..self }
    }

    /// The registry.
    pub fn registry(&self) -> (r: &SegmentLifecycleRegistry)
        ensures
            r == &self.registry,
    {
        &self.registry
    }

    /// Everything but the registry is as in `before`.
    pub open spec fn only_registry_changed(self, before: Self) -> bool {
        &&& self == (SegmentLifecycleCoordinator { registry: self.registry, ..before })
        &&& self.registry.grace() == before.registry.grace()
    }

    /// Records the position of a segment's latest data entry.
    pub fn record_data_wal_pos(&mut self, id: SegmentId, pos: DataWalPos)
        ensures
            final(self).registry@ == after_record_pos(old(self).registry@, id, pos),
            final(self).only_registry_changed(*old(self)),
    {
        self.registry.record_data_wal_pos(id, pos);
    }

    /// Requests a reservation: the segment is absent or reserved.
    pub fn request_reserve(&self, id: SegmentId, tier: SizeTier, ec_k: u8, ec_m: u8, now: u64)
        -> (r: Result<PendingTransition, TransitionError>)
        ensures
            request_view(r) == requested(
                self.registry@,
                self.event_log,
                id,
                ChangeView::Reserve(reserved_metadata(id, tier, ec_k, ec_m)),
                now,
            ),
    {
        match self.registry.validate_reserve(id, now) {
            Ok(()) => {},
            Err(e) => {
                return Err(e);
            },
        }
        let meta = SegmentMetadata::reserved(id, tier, ec_k, ec_m);
        let write = if self.event_log {
            DurableWrite::Append(
                SegmentEvent::Reserve(ReserveEvent { segment_id: id, tier, ec_k, ec_m }),
            )
        } else {
            DurableWrite::PutSegment(meta.clone())
        };
        Ok(PendingTransition { id, change: Change::Reserve(meta), write })
    }

    /// The event of a seal.
    pub(crate) fn seal_event(
        &self,
        id: SegmentId,
        meta: &SegmentMetadata,
        root: HashOutput,
        repacked_from: Option<SegmentId>,
    ) -> (e: SealEvent)
        ensures
            e == seal_event(self.registry@, id, meta@, root, repacked_from),
    {
        let data_wal_pos = match self.registry.last_data_wal_pos(id) {
            Some(pos) => pos,
            None => DataWalPos { file_seq: 0, offset: 0 },
        };
        SealEvent {
            segment_id: id,
            tier: meta.size_tier,
            ec_k: meta.ec_k,
            ec_m: meta.ec_m,
            merkle_root: root,
            data_wal_pos,
            repacked_from,
            pool_id: meta.pool_id,
        }
    }

    /// Requests a seal: the segment is reserved and its data file is durable.
    pub fn request_seal(
        &self,
        id: SegmentId,
        metadata: SegmentMetadata,
        repacked_from: Option<SegmentId>,
        now: u64,
    ) -> (r: Result<PendingTransition, TransitionError>)
        ensures
            request_view(r) == requested(
                self.registry@,
                self.event_log,
                id,
                ChangeView::Seal(metadata@, repacked_from),
                now,
            ),
    {
        match self.registry.validate_seal(id, now) {
            Ok(()) => {},
            Err(e) => {
                return Err(e);
            },
        }
        let write = if self.event_log {
            match metadata.merkle_root {
                Some(root) => DurableWrite::Append(
                    SegmentEvent::Seal(self.seal_event(id, &metadata, root, repacked_from)),
                ),
                None => {
                    return Err(missing_root_error());
                },
            }
        } else {
            DurableWrite::PutSegment(metadata.clone())
        };
        Ok(PendingTransition { id, change: Change::Seal(metadata, repacked_from), write })
    }

    /// Requests a deletion: the segment is reserved or sealed. Its data file is
    /// unlinked only after the transition is complete.
    pub fn request_delete(&self, id: SegmentId, now: u64) -> (r: Result<
        PendingTransition,
        TransitionError,
    >)
        ensures
            request_view(r) == requested(
                self.registry@,
                self.event_log,
                id,
                ChangeView::Delete,
                now,
            ),
    {
        match self.registry.validate_delete(id, now) {
            Ok(()) => {},
            Err(e) => {
                return Err(e);
            },
        }
        let write = if self.event_log {
            DurableWrite::Append(SegmentEvent::Delete(DeleteEvent { segment_id: id }))
        } else {
            DurableWrite::DeleteSegment(id)
        };
        Ok(PendingTransition { id, change: Change::Delete, write })
    }

    /// Requests a refresh of a live segment's metadata.
    pub fn request_refresh_metadata(
        &self,
        id: SegmentId,
        merkle_root: Option<HashOutput>,
        storage_locations: Option<NodeList>,
        pool_id: Option<u32>,
        now: u64,
    ) -> (r: Result<PendingTransition, TransitionError>)
        ensures
            request_view(r) == requested(
                self.registry@,
                self.event_log,
                id,
                ChangeView::Refresh(merkle_root, optional_names(storage_locations), pool_id),
                now,
            ),
    {
        match self.registry.validate_delete(id, now) {
            Ok(()) => {},
            Err(e) => {
                return Err(e);
            },
        }
        let copy = duplicate_locations(&storage_locations);
        let write = if self.event_log {
            DurableWrite::Append(
                SegmentEvent::MetadataRefresh(
                    MetadataRefreshEvent {
                        segment_id: id,
                        merkle_root,
                        storage_locations: copy,
                        pool_id,
                    },
                ),
            )
        } else {
            DurableWrite::PutSegment(self.refreshed(id, merkle_root, copy, pool_id, now))
        };
        Ok(
            PendingTransition {
                id,
                change: Change::Refresh(merkle_root, storage_locations, pool_id),
                write,
            },
        )
    }

    /// Requests a durable stamp of a live segment's holders; its root stays.
    pub fn persist_storage_locations(&self, id: SegmentId, storage_locations: NodeList, now: u64)
        -> (r: Result<PendingTransition, TransitionError>)
        ensures
            request_view(r) == requested(
                self.registry@,
                self.event_log,
                id,
                ChangeView::Refresh(
                    self.registry@[id].metadata.merkle_root,
                    Some(storage_locations@),
                    None,
                ),
                now,
            ),
            request_view(r) == requested(
                self.registry@,
                self.event_log,
                id,
                stamped(self.registry@, id, storage_locations@),
                now,
            ),
    {
        let merkle_root = match self.registry.get(id, now) {
            Some(e) => e.metadata.merkle_root,
            None => {
                return Err(TransitionError::Missing);
            },
        };
        self.request_refresh_metadata(id, merkle_root, Some(storage_locations), None, now)
    }

    /// The refreshed metadata of a live segment.
    fn refreshed(
        &self,
        id: SegmentId,
        merkle_root: Option<HashOutput>,
        storage_locations: Option<NodeList>,
        pool_id: Option<u32>,
        now: u64,
    ) -> (meta: SegmentMetadata)
        requires
            entry_at(self.registry@, id, now) is Some,
        ensures
            meta@ == self.registry@[id].refreshed(
                merkle_root,
                optional_names(storage_locations),
                pool_id,
            ).metadata,
    {
        let ghost was = self.registry@[id];
        let ghost locations = optional_names(storage_locations);
        let mut meta = match self.registry.get(id, now) {
            Some(e) => e.metadata,
            None => SegmentMetadata::reserved(id, SizeTier::Standard, 0, 0),
        };
        meta.merkle_root = merkle_root;
        if let Some(list) = storage_locations {
            meta.storage_locations = list;
        }
        if let Some(pool) = pool_id {
            meta.pool_id = pool;
        }
        assert(meta@ =~= was.refreshed(merkle_root, locations, pool_id).metadata);
        meta
    }

    /// Completes a transition whose durable write has returned. A failed write
    /// leaves the registry as it is. After a successful one the change is
    /// applied; where there is an event log, the mirror is then told.
    pub fn complete(
        &mut self,
        pending: PendingTransition,
        written: Result<(), String>,
        now: u64,
    ) -> (r: (Result<(), TransitionError>, Option<MirrorWrite>))
        requires
            now + old(self).registry.grace() <= u64::MAX,
        ensures
            final(self).only_registry_changed(*old(self)),
            (final(self).registry@, transition_view(r.0), mirror_view(r.1)) == completed(
                old(self).registry@,
                old(self).event_log,
                pending.id,
                pending@.change,
                match written {
                    Ok(()) => Ok(()),
                    Err(why) => Err(why@),
                },
                old(self).registry.grace(),
                now,
            ),
            match written {
                Err(why) => {
                    &&& transition_view(r.0) == Err::<(), TransitionView>(
                        TransitionView::DurableWriteFailed(why@),
                    )
                    &&& r.1 is None
                    &&& final(self).registry@ == old(self).registry@
                },
                Ok(()) => {
                    let outcome = change_outcome(
                        old(self).registry@,
                        pending.id,
                        pending@.change,
                        now,
                    );
                    &&& r.0 == outcome
                    &&& final(self).registry@ == changed(
                        old(self).registry@,
                        pending.id,
                        pending@.change,
                        old(self).registry.grace(),
                        now,
                    )
                    &&& mirror_view(r.1) == (if outcome is Ok && old(self).event_log {
                        Some(mirrored(old(self).registry@, pending.id, pending@.change))
                    } else {
                        None
                    })
                },
            },
    {
        match written {
            Err(why) => {
                return (Err(TransitionError::DurableWriteFailed(why)), None);
            },
            Ok(()) => {},
        }
        let id = pending.id;
        let (r, mirror) = match pending.change {
            Change::Reserve(meta) => {
                let copy = meta.clone();
                (self.registry.fold_reserve(id, meta, now), MirrorWrite::Put(copy))
            },
            Change::Seal(meta, from) => {
                let copy = meta.clone();
                (self.registry.fold_seal(id, meta, from, now), MirrorWrite::Put(copy))
            },
            Change::Delete => (self.registry.fold_delete(id, now), MirrorWrite::Delete(id)),
            Change::Refresh(root, locations, pool) => {
                let live = self.registry.validate_delete(id, now).is_ok();
                let mirror = if live {
                    let copy = duplicate_locations(&locations);
                    MirrorWrite::Put(self.refreshed(id, root, copy, pool, now))
                } else {
                    MirrorWrite::Delete(id)
                };
                (self.registry.refresh_metadata(id, root, locations, pool, now), mirror)
            },
        };
        if self.event_log && r.is_ok() {
            (r, Some(mirror))
        } else {
            (r, None)
        }
    }
}

/// The error of a seal without a root.
pub(crate) fn missing_root_error() -> (e: TransitionError)
    ensures
        e@ == missing_root(),
{
    TransitionError::DurableWriteFailed(
        "seal without merkle_root (the event log requires the seal-time root)".to_owned(),
    )
}

/// A copy of an optional list of holders.
fn duplicate_locations(list: &Option<NodeList>) -> (copy: Option<NodeList>)
    ensures
        optional_names(copy) == optional_names(*list),
{
    match list {
        Some(l) => Some(l.duplicate()),
        None => None,
    }
}

} // verus!
