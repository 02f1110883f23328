//! Start-up of the coordinator, and what it does from time to time: seeding
//! and rebuilding the registry, adopting data files, finding seals that are to
//! be queued again, and triggering checkpoints.

use crate::buf::{bytes_clone, bytes_contents};
use crate::coordinator::SegmentLifecycleCoordinator;
use crate::data_pass::{
    empty_reserves, replayed, without_empty_reserves, DataWalPass, ReplayGroup,
};
use crate::error::{Error, TransitionError, TransitionView};
use crate::event_checkpoint::{snapshot_entry, snapshot_of, EventCheckpoint};
use crate::event_record::{EventView, SegmentEvent};
use crate::event_wal::EventWal;
use crate::lifecycle::{
    after_seed, entry_at, evicted, is_live, is_live_listing, listing_view, Counted, Entries,
    EntryView, SegmentLifecycleRegistry, SegmentState,
};
use crate::recovery::{
    fold_event, fold_items, items_view, Fold, FoldEnd, FoldState, ItemView, RebuildOutcome,
};
use crate::types::{
    EventWalPos, HashOutput, MetadataView, SegmentId, SegmentMetadata, SizeTier,
};
use crate::node_list::NodeList;
use bytes::Bytes;
use vstd::prelude::*;

verus! {

/// The entry that is made of a segment in the metadata store: sealed when it
/// has a seal time.
pub open spec fn stored_entry(meta: MetadataView) -> EntryView {
    EntryView::fresh(
        if meta.sealed_at is Some {
            SegmentState::Sealed
        } else {
            SegmentState::Reserved
        },
        meta,
    )
}

/// The entries after seeding from a listing of the metadata store. Entries
/// that are there are kept.
pub open spec fn seeded(m: Entries, metas: Seq<MetadataView>, now: u64) -> Entries
    decreases metas.len(),
{
    if metas.len() == 0 {
        m
    } else {
        let meta = metas.last();
        after_seed(seeded(m, metas.drop_last(), now), meta.segment_id, stored_entry(meta), now)
    }
}

/// The view of one item of a listing.
pub open spec fn listed_view(item: Result<SegmentMetadata, String>) -> Result<
    MetadataView,
    Seq<char>,
> {
    match item {
        Ok(meta) => Ok(meta@),
        Err(why) => Err(why@),
    }
}

/// The view of a listing.
pub open spec fn listing_items(items: Seq<Result<SegmentMetadata, String>>) -> Seq<
    Result<MetadataView, Seq<char>>,
> {
    items.map_values(|item: Result<SegmentMetadata, String>| listed_view(item))
}

/// The metadata of a listing up to its first failure.
pub open spec fn readable(items: Seq<Result<MetadataView, Seq<char>>>) -> Seq<MetadataView>
    decreases items.len(),
{
    if items.len() == 0 {
        Seq::empty()
    } else {
        match first_failure(items.drop_last()) {
            Some(_) => readable(items.drop_last()),
            None => match items.last() {
                Ok(meta) => readable(items.drop_last()).push(meta),
                Err(_) => readable(items.drop_last()),
            },
        }
    }
}

/// The first failure of a listing.
pub open spec fn first_failure(items: Seq<Result<MetadataView, Seq<char>>>) -> Option<Seq<char>>
    decreases items.len(),
{
    if items.len() == 0 {
        None
    } else {
        match first_failure(items.drop_last()) {
            Some(why) => Some(why),
            None => match items.last() {
                Ok(_) => None,
                Err(why) => Some(why),
            },
        }
    }
}

proof fn lemma_failure_ends_listing(items: Seq<Result<MetadataView, Seq<char>>>, n: int)
    requires
        0 <= n <= items.len(),
        first_failure(items.take(n)) is Some,
    ensures
        first_failure(items) == first_failure(items.take(n)),
        readable(items) == readable(items.take(n)),
    decreases items.len() - n,
{
    if n < items.len() {
        let next = items.take(n + 1);
        assert(next.drop_last() =~= items.take(n));
        lemma_failure_ends_listing(items, n + 1);
    } else {
        assert(items.take(n) =~= items);
    }
}

/// The entry that is restored from a checkpoint.
pub open spec fn restored(e: EntryView) -> EntryView {
    EntryView {
        data_wal_pos: e.data_wal_pos,
        repacked_from: e.repacked_from,
        ..EntryView::fresh(e.state, e.metadata)
    }
}

/// The entries with the live ones of a snapshot where there are none.
pub open spec fn with_snapshot(m: Entries, snapshot: Entries) -> Entries {
    Map::new(
        |id: SegmentId| m.contains_key(id) || is_live(snapshot, id),
        |id: SegmentId|
            if m.contains_key(id) {
                m[id]
            } else {
                restored(snapshot[id])
            },
    )
}

/// The metadata with which an adopted segment is sealed: that of its
/// reservation, with the root of its data and the time of its seal.
pub open spec fn adopted_metadata(
    e: EntryView,
    id: SegmentId,
    root: HashOutput,
    sealed_at: i64,
) -> MetadataView {
    MetadataView {
        segment_id: id,
        merkle_root: Some(root),
        storage_locations: Seq::empty(),
        sealed_at: Some(sealed_at),
        ..e.metadata
    }
}

/// The seal of the segment's frozen data is to be queued again.
pub open spec fn is_deferred(m: Entries, id: SegmentId) -> bool {
    &&& m.contains_key(id)
    &&& m[id].state == SegmentState::Reserved
    &&& m[id].in_flight is Some
    &&& !m[id].seal_queued
}

/// `item` is a segment whose seal is to be queued again, with its tier and its
/// frozen data.
pub open spec fn is_deferred_seal(m: Entries, item: (SegmentId, SizeTier, Bytes)) -> bool {
    &&& is_deferred(m, item.0)
    &&& item.1 == m[item.0].metadata.size_tier
    &&& bytes_contents(item.2) == m[item.0].in_flight->0
}

/// The place of the first pool of a tier.
pub open spec fn first_of_tier(tiers: Seq<SizeTier>, tier: SizeTier, i: int) -> bool {
    &&& 0 <= i < tiers.len()
    &&& tiers[i] == tier
    &&& forall|j: int| 0 <= j < i ==> #[trigger] tiers[j] != tier
}

/// Whether a checkpoint is started: it is wanted, and none is running.
pub open spec fn latched(running: bool, wanted: bool) -> bool {
    wanted && !running
}

/// Whether the log has grown past the threshold since the last checkpoint.
pub open spec fn checkpoint_wanted(
    c: SegmentLifecycleCoordinator,
    checkpoint: EventCheckpoint,
    wal: EventWal,
) -> bool {
    &&& c.event_log
    &&& c.checkpoint_config is Some
    &&& wal@.bytes_since(
        match checkpoint@ {
            Some(pos) => pos,
            None => EventWalPos { file_seq: 0, offset: 0 },
        },
    ) >= c.checkpoint_config->0.event_wal_checkpoint_bytes
}

impl SegmentLifecycleCoordinator {
    /// Seeds the registry from a listing of the metadata store, up to the first
    /// segment that cannot be listed. Nothing is written: the segments are
    /// durable already.
    pub fn seed_from_metadata_store(
        &mut self,
        items: Vec<Result<SegmentMetadata, String>>,
        now: u64,
    ) -> (r: Result<(), TransitionError>)
        ensures
            final(self).only_registry_changed(*old(self)),
            final(self).registry@ == seeded(
                old(self).registry@,
                readable(listing_items(items@)),
                now,
            ),
            match first_failure(listing_items(items@)) {
                None => r is Ok,
                Some(why) => r is Err && r->Err_0@ == TransitionView::DurableWriteFailed(why),
            },
    {
        let ghost all = listing_items(items@);
        let ghost before = *self;
        for item in it: items
            invariant
                before == *old(self),
                all == listing_items(it.seq()),
                self.only_registry_changed(before),
                first_failure(all.take(it.index())) is None,
                self.registry@ == seeded(before.registry@, readable(all.take(it.index())), now),
        {
            let ghost next = all.take(it.index() + 1);
            let ghost metas = readable(all.take(it.index()));
            proof {
                assert(next.drop_last() =~= all.take(it.index()));
                assert(next.last() == listed_view(item));
            }
            match item {
                Ok(meta) => {
                    let state = if meta.sealed_at.is_some() {
                        SegmentState::Sealed
                    } else {
                        SegmentState::Reserved
                    };
                    let id = meta.segment_id;
                    assert(readable(next).drop_last() =~= metas);
                    self.registry.seed_entry(id, state, meta, None, None, now);
                },
                Err(why) => {
                    proof {
                        lemma_failure_ends_listing(all, it.index() + 1);
                    }
                    return Err(TransitionError::DurableWriteFailed(why));
                },
            }
        }
        assert(all.take(all.len() as int) =~= all);
        Ok(())
    }

    /// Seeds the registry from a checkpoint: every live entry of the snapshot
    /// is restored, with its data position, unless the segment has an entry.
    pub fn seed_from_checkpoint(&mut self, snapshot: &SegmentLifecycleRegistry, now: u64)
        ensures
            final(self).only_registry_changed(*old(self)),
            evicted(final(self).registry@, now) == with_snapshot(
                evicted(old(self).registry@, now),
                snapshot@,
            ),
    {
        let live = snapshot.for_each();
        let ghost s = listing_view(live@);
        let ghost before = *self;
        let ghost m = evicted(before.registry@, now);
        let n: usize = live.len();
        let mut i: usize = 0;
        while i < n
            invariant
                i <= n == live@.len(),
                before == *old(self),
                m == evicted(before.registry@, now),
                s == listing_view(live@),
                is_live_listing(snapshot@, s),
                self.only_registry_changed(before),
                forall|id: SegmentId| #[trigger]
                    evicted(self.registry@, now).contains_key(id) ==> with_snapshot(
                        m,
                        snapshot@,
                    ).contains_key(id) && evicted(self.registry@, now)[id] == with_snapshot(
                        m,
                        snapshot@,
                    )[id],
                forall|id: SegmentId| #[trigger]
                    m.contains_key(id) ==> evicted(self.registry@, now).contains_key(id),
                forall|k: int|
                    0 <= k < i ==> evicted(self.registry@, now).contains_key((#[trigger] s[k]).0),
            decreases n - i,
        {
            let (id, entry) = &live[i];
            let ghost was = self.registry@;
            proof {
                assert(s[i as int] == (*id, entry@));
                assert(is_live(snapshot@, s[i as int].0));
                assert(restored(entry@).state != SegmentState::Deleted);
            }
            self.registry.seed_entry(
                *id,
                entry.state,
                entry.metadata.clone(),
                entry.data_wal_pos,
                entry.repacked_from,
                now,
            );
            proof {
                let live_before = evicted(was, now);
                let live_after = evicted(self.registry@, now);
                assert(self.registry@ == after_seed(was, *id, restored(entry@), now));
                assert(live_after =~= self.registry@);
            }
            i = i + 1;
        }
        proof {
            let live_after = evicted(self.registry@, now);
            assert forall|id: SegmentId| #[trigger] with_snapshot(m, snapshot@).contains_key(
                id,
            ) implies live_after.contains_key(id) by {
                if !m.contains_key(id) {
                    assert(is_live(snapshot@, id));
                    let k = choose|k: int| 0 <= k < s.len() && (#[trigger] s[k]).0 == id;
                    assert(live_after.contains_key(s[k].0));
                }
            }
            assert(live_after =~= with_snapshot(m, snapshot@));
        }
    }

    /// Folds the event log into the registry: the same events give the same
    /// registry. A torn record ends the fold; a corrupt one, or an event that
    /// is not a legal transition, aborts it.
    pub fn rebuild_from_events(
        &mut self,
        items: Vec<Result<(EventWalPos, SegmentEvent), Error>>,
        now: u64,
    ) -> (r: Result<RebuildOutcome, Error>)
        requires
            now + old(self).registry.grace() <= u64::MAX,
        ensures
            *final(self) == (SegmentLifecycleCoordinator {
                registry: final(self).registry,
                fold: final(self).fold,
                ..*old(self)
            }),
            final(self).registry.grace() == old(self).registry.grace(),
            ({
                let start = FoldState {
                    entries: old(self).registry@,
                    seen: Set::empty(),
                    deleted: Set::empty(),
                };
                let end = fold_items(start, items_view(items@), old(self).registry.grace(), now);
                match end {
                    FoldEnd::Done(st) => {
                        &&& final(self).fold.state(final(self).registry@) == st
                        &&& r is Ok
                        &&& r->Ok_0.folded_segments == st.seen.len()
                        &&& r->Ok_0.dropped_empty_reserves == 0
                        &&& r->Ok_0.re_sealed_segments == 0
                        &&& r->Ok_0.adopted_segments == 0
                        &&& r->Ok_0.swept_entries == 0
                    },
                    FoldEnd::Aborted(st, e) => {
                        &&& final(self).fold.state(final(self).registry@) == st
                        &&& r == Err::<RebuildOutcome, Error>(e)
                    },
                }
            }),
    {
        self.fold = Fold::new();
        match self.fold.run(&mut self.registry, items, now) {
            Ok(()) => {
                let mut outcome = RebuildOutcome::default();
                outcome.folded_segments = self.fold.seen_count();
                Ok(outcome)
            },
            Err(e) => Err(e),
        }
    }

    /// The metadata with which an adopted segment is sealed; `None` when the
    /// segment has no entry, or its data has no root: it then stays reserved.
    pub fn adopt_metadata(
        &self,
        id: SegmentId,
        root: Option<HashOutput>,
        sealed_at: i64,
        now: u64,
    ) -> (meta: Option<SegmentMetadata>)
        ensures
            match meta {
                Some(meta) => {
                    &&& entry_at(self.registry@, id, now) is Some
                    &&& root is Some
                    &&& meta@ == adopted_metadata(self.registry@[id], id, root->0, sealed_at)
                    &&& meta.segment_id == id
                    &&& meta.ec_k == self.registry@[id].metadata.ec_k
                    &&& meta.ec_m == self.registry@[id].metadata.ec_m
                    &&& meta.size_tier == self.registry@[id].metadata.size_tier
                    &&& meta.pool_id == self.registry@[id].metadata.pool_id
                    &&& meta.merkle_root == root
                    &&& meta.sealed_at == Some(sealed_at)
                },
                None => entry_at(self.registry@, id, now) is None || root is None,
            },
    {
        match (self.registry.get(id, now), root) {
            (Some(e), Some(root)) => {
                let mut meta = e.metadata;
                meta.segment_id = id;
                meta.merkle_root = Some(root);
                meta.storage_locations = NodeList::new();
                meta.sealed_at = Some(sealed_at);
                assert(meta@ =~= adopted_metadata(self.registry@[id], id, root, sealed_at));
                Some(meta)
            },
            _ => None,
        }
    }

    /// Ends the recovery: drops the empty reserves and counts what was done.
    pub fn finish_recovery(
        &mut self,
        pass: &DataWalPass,
        folded: RebuildOutcome,
        adopted_segments: usize,
    ) -> (outcome: RebuildOutcome)
        requires
            pass@.last.dom().subset_of(pass@.reserved.dom()),
        ensures
            final(self).only_registry_changed(*old(self)),
            final(self).registry@ == without_empty_reserves(old(self).registry@, pass@),
            outcome.folded_segments == folded.folded_segments,
            outcome.dropped_empty_reserves == empty_reserves(old(self).registry@, pass@).len(),
            outcome.re_sealed_segments == replayed(pass@).len(),
            outcome.adopted_segments == adopted_segments,
            outcome.swept_entries == pass@.swept,
    {
        let dropped: usize = pass.drop_empty_reserves(&mut self.registry);
        RebuildOutcome {
            folded_segments: folded.folded_segments,
            dropped_empty_reserves: dropped,
            re_sealed_segments: pass.replayed_count(),
            adopted_segments,
            swept_entries: pass.swept_entries(),
        }
    }

    /// The place of the first pool of a tier, if there is one.
    pub fn pool_for_tier(&self, tier: SizeTier) -> (at: Option<usize>)
        ensures
            match at {
                Some(i) => first_of_tier(self.pool_tiers@, tier, i as int),
                None => forall|j: int|
                    0 <= j < self.pool_tiers@.len() ==> #[trigger] self.pool_tiers@[j] != tier,
            },
    {
        let n: usize = self.pool_tiers.len();
        let mut i: usize = 0;
        while i < n
            invariant
                i <= n == self.pool_tiers@.len(),
                forall|j: int| 0 <= j < i ==> #[trigger] self.pool_tiers@[j] != tier,
            decreases n - i,
        {
            if self.pool_tiers[i] == tier {
                return Some(i);
            }
            i = i + 1;
        }
        None
    }

    /// The pool that replays a group; an error when no pool has its tier.
    pub fn drain_replay_group(&self, group: &ReplayGroup) -> (at: Result<usize, Error>)
        ensures
            match at {
                Ok(i) => first_of_tier(self.pool_tiers@, group.tier, i as int),
                Err(e) => {
                    &&& e == Error::NoPoolForTier { segment_id: group.segment_id, tier: group.tier }
                    &&& forall|j: int|
                        0 <= j < self.pool_tiers@.len() ==> #[trigger] self.pool_tiers@[j]
                            != group.tier
                },
            },
    {
        match self.pool_for_tier(group.tier) {
            Some(i) => Ok(i),
            None => Err(Error::NoPoolForTier { segment_id: group.segment_id, tier: group.tier }),
        }
    }

    /// The frozen segments whose seal is to be queued again, with their data,
    /// in order of their identifiers.
    pub fn retry_deferred_seals(&self) -> (pending: Vec<(SegmentId, SizeTier, Bytes)>)
        ensures
            forall|i: int, j: int|
                0 <= i < j < pending@.len() ==> (#[trigger] pending@[i]).0.bits < (
                #[trigger] pending@[j]).0.bits,
            forall|i: int|
                0 <= i < pending@.len() ==> is_deferred_seal(self.registry@, #[trigger] pending@[i]),
            forall|id: SegmentId| #[trigger]
                is_deferred(self.registry@, id) ==> exists|i: int|
                    0 <= i < pending@.len() && (#[trigger] pending@[i]).0 == id,
    {
        let live = self.registry.for_each();
        let ghost s = listing_view(live@);
        let ghost m = self.registry@;
        let mut pending: Vec<(SegmentId, SizeTier, Bytes)> = Vec::new();
        let n: usize = live.len();
        let mut i: usize = 0;
        while i < n
            invariant
                i <= n == live@.len(),
                m == self.registry@,
                s == listing_view(live@),
                is_live_listing(m, s),
                forall|a: int, b: int|
                    0 <= a < b < pending@.len() ==> (#[trigger] pending@[a]).0.bits < (
                    #[trigger] pending@[b]).0.bits,
                forall|a: int|
                    0 <= a < pending@.len() ==> is_deferred_seal(m, #[trigger] pending@[a]),
                forall|a: int, k: int|
                    0 <= a < pending@.len() && i <= k < n ==> (#[trigger] pending@[a]).0.bits < (
                    #[trigger] s[k]).0.bits,
                forall|k: int|
                    0 <= k < i && is_deferred(m, (#[trigger] s[k]).0) ==> exists|a: int|
                        0 <= a < pending@.len() && (#[trigger] pending@[a]).0 == s[k].0,
            decreases n - i,
        {
            let (id, entry) = &live[i];
            let ghost were = pending@;
            proof {
                assert(s[i as int] == (*id, entry@));
                assert(is_live(m, s[i as int].0));
            }
            let reserved = match entry.state {
                SegmentState::Reserved => true,
                _ => false,
            };
            if reserved && !entry.seal_queued {
                if let Some(data) = &entry.in_flight {
                    pending.push((*id, entry.metadata.size_tier, bytes_clone(data)));
                    proof {
                        assert(pending@[were.len() as int].0 == s[i as int].0);
                        assert forall|a: int, k: int| 0 <= a < pending@.len() && i < k < n implies (
                        #[trigger] pending@[a]).0.bits < (#[trigger] s[k]).0.bits by {
                            if a < were.len() {
                                assert(pending@[a] == were[a]);
                            } else {
                                assert(s[i as int].0.bits < s[k].0.bits);
                            }
                        }
                        assert forall|k: int| 0 <= k < i && is_deferred(
                            m,
                            (#[trigger] s[k]).0,
                        ) implies exists|a: int|
                            0 <= a < pending@.len() && (#[trigger] pending@[a]).0 == s[k].0 by {
                            let a = choose|a: int|
                                0 <= a < were.len() && (#[trigger] were[a]).0 == s[k].0;
                            assert(pending@[a] == were[a]);
                        }
                    }
                }
            }
            i = i + 1;
        }
        proof {
            assert forall|id: SegmentId| #[trigger] is_deferred(m, id) implies exists|a: int|
                0 <= a < pending@.len() && (#[trigger] pending@[a]).0 == id by {
                assert(is_live(m, id));
                let k = choose|k: int| 0 <= k < s.len() && (#[trigger] s[k]).0 == id;
                assert(is_deferred(m, s[k].0));
            }
        }
        pending
    }

    /// Whether to start a checkpoint now, after an event was appended: one is
    /// wanted, and none is running. Gives the position that it covers. An event
    /// that was appended but not yet applied to the registry is not covered,
    /// nor is what follows it: `unapplied` is where the first such event
    /// starts, if there is one. From then on a checkpoint is running, until
    /// [`Self::checkpoint_finished`].
    pub fn maybe_checkpoint(
        &mut self,
        checkpoint: &EventCheckpoint,
        wal: &EventWal,
        unapplied: Option<EventWalPos>,
    ) -> (up_to: Option<EventWalPos>)
        ensures
            up_to == (if latched(
                old(self).checkpoint_running,
                checkpoint_wanted(*old(self), *checkpoint, *wal),
            ) {
                Some(
                    match unapplied {
                        Some(pos) => pos,
                        None => wal@.latest,
                    },
                )
            } else {
                None
            }),
            *final(self) == (SegmentLifecycleCoordinator {
                checkpoint_running: old(self).checkpoint_running || up_to is Some,
                ..*old(self)
            }),
    {
        if !self.event_log {
            return None;
        }
        match &self.checkpoint_config {
            None => None,
            Some(config) => {
                if !checkpoint.needs_checkpoint(wal, config) {
                    return None;
                }
                if self.checkpoint_running {
                    return None;
                }
                self.checkpoint_running = true;
                match unapplied {
                    Some(pos) => Some(pos),
                    None => Some(wal.latest_pos()),
                }
            },
        }
    }

    /// The checkpoint that was started has ended, well or badly.
    pub fn checkpoint_finished(&mut self)
        ensures
            *final(self) == (SegmentLifecycleCoordinator {
                checkpoint_running: false,
                ..*old(self)
            }),
    {
        self.checkpoint_running = false;
    }

    /// The values of the size gauges: the number of live entries, and the
    /// estimated memory of the registry in bytes.
    pub fn update_gauges(&self) -> (gauges: (usize, u64))
        requires
            crate::lifecycle::ids_where(self.registry@, Counted::Live).len()
                * crate::lifecycle::ESTIMATED_BYTES_PER_ENTRY <= u64::MAX,
        ensures
            gauges.0 == crate::lifecycle::ids_where(self.registry@, Counted::Live).len(),
            gauges.1 == gauges.0 * crate::lifecycle::ESTIMATED_BYTES_PER_ENTRY,
    {
        (self.registry.len(), self.registry.mem_estimate_bytes())
    }
}

/// Number of checkpoints that a burst of appends starts, while none ends.
pub open spec fn starts(running: bool, wanted: Seq<bool>) -> nat
    decreases wanted.len(),
{
    if wanted.len() == 0 {
        0
    } else {
        let start = latched(running, wanted[0]);
        (if start {
            1nat
        } else {
            0
        }) + starts(running || start, wanted.drop_first())
    }
}

/// A burst past the threshold starts exactly one checkpoint: none while one is
/// running, one if it is wanted at all.
pub proof fn law_burst_starts_one_checkpoint(running: bool, wanted: Seq<bool>)
    ensures
        running ==> starts(running, wanted) == 0,
        !running ==> starts(running, wanted) == (if wanted.contains(true) {
            1nat
        } else {
            0
        }),
    decreases wanted.len(),
{
    if wanted.len() > 0 {
        let rest = wanted.drop_first();
        law_burst_starts_one_checkpoint(running || latched(running, wanted[0]), rest);
        if rest.contains(true) {
            let i = choose|i: int| 0 <= i < rest.len() && rest[i] == true;
            assert(wanted[i + 1] == true);
        }
        if wanted.contains(true) && !wanted[0] {
            let i = choose|i: int| 0 <= i < wanted.len() && wanted[i] == true;
            assert(rest[i - 1] == true);
        }
    }
}

/// An empty registry that is seeded from a checkpoint holds just the live
/// entries of the registry that the checkpoint was taken of, with their states,
/// metadata and data positions.
pub proof fn law_checkpoint_restores_live_entries(m: Entries, id: SegmentId)
    ensures
        ({
            let after = with_snapshot(Map::empty(), m);
            &&& after.contains_key(id) <==> is_live(m, id)
            &&& is_live(m, id) ==> {
                &&& after[id].state == m[id].state
                &&& after[id].metadata == m[id].metadata
                &&& after[id].data_wal_pos == m[id].data_wal_pos
                &&& after[id].repacked_from == m[id].repacked_from
            }
        }),
{
}

/// How a fold from a snapshot of `start` keeps to the fold from `start` itself,
/// which is at `a`: they have the same live entries, as far as snapshots show;
/// what `b` knows as deleted, `a` knows as deleted; and what `a` alone knows as
/// deleted was so at the start.
spec fn alike(start: FoldState, a: FoldState, b: FoldState, now: u64) -> bool {
    &&& snapshot_of(a.entries) == snapshot_of(b.entries)
    &&& forall|x: SegmentId|
        b.entries.contains_key(x) && (#[trigger] b.entries[x]).state == SegmentState::Deleted
            && !b.entries[x].expired(now) ==> a.entries.contains_key(x) && a.entries[x].state
            == SegmentState::Deleted && !a.entries[x].expired(now)
    &&& forall|x: SegmentId|
        !is_live(a.entries, x) && !b.is_deleted(x, now) && #[trigger] a.is_deleted(x, now)
            ==> start.is_deleted(x, now)
}

/// The live entries of alike registries.
proof fn lemma_alike_live(start: FoldState, a: FoldState, b: FoldState, now: u64, x: SegmentId)
    requires
        alike(start, a, b, now),
    ensures
        is_live(a.entries, x) == is_live(b.entries, x),
        is_live(a.entries, x) ==> snapshot_entry(a.entries[x]) == snapshot_entry(b.entries[x]),
{
    assert(snapshot_of(a.entries).dom().contains(x) == is_live(a.entries, x));
    assert(snapshot_of(b.entries).dom().contains(x) == is_live(b.entries, x));
    if is_live(a.entries, x) {
        assert(snapshot_of(a.entries)[x] == snapshot_of(b.entries)[x]);
    }
}

/// What is legal in a registry is legal in one that is alike to it, but for an
/// event of a segment that was deleted at the start: it is missing there.
proof fn lemma_alike_legal(
    start: FoldState,
    a: FoldState,
    b: FoldState,
    e: EventView,
    grace: u64,
    now: u64,
)
    requires
        alike(start, a, b, now),
        fold_event(a, e, grace, now) is Ok,
    ensures
        fold_event(b, e, grace, now) matches Err(cause) ==> cause == TransitionError::Missing
            && start.is_deleted(e.segment_id(), now),
{
    let id = e.segment_id();
    lemma_alike_live(start, a, b, now, id);
    if is_live(a.entries, id) {
        assert(a.entries[id].state == b.entries[id].state);
    } else if !(e is Reserve) {
        assert(a.is_deleted(id, now));
    }
}

/// One event that is legal in both keeps two registries alike.
proof fn lemma_event_keeps_alike(
    start: FoldState,
    a: FoldState,
    b: FoldState,
    e: EventView,
    grace: u64,
    now: u64,
)
    requires
        alike(start, a, b, now),
        fold_event(a, e, grace, now) is Ok,
        fold_event(b, e, grace, now) is Ok,
    ensures
        alike(
            start,
            fold_event(a, e, grace, now)->Ok_0,
            fold_event(b, e, grace, now)->Ok_0,
            now,
        ),
{
    let id = e.segment_id();
    let a2 = fold_event(a, e, grace, now)->Ok_0;
    let b2 = fold_event(b, e, grace, now)->Ok_0;
    let a1 = a2.entries;
    let b1 = b2.entries;
    assert forall|x: SegmentId| is_live(a1, x) == is_live(b1, x) by {
        lemma_alike_live(start, a, b, now, x);
        if x != id {
            assert(is_live(a1, x) == is_live(a.entries, x));
            assert(is_live(b1, x) == is_live(b.entries, x));
        }
    }
    assert forall|x: SegmentId| is_live(a1, x) implies snapshot_entry(a1[x]) == snapshot_entry(
        b1[x],
    ) by {
        lemma_alike_live(start, a, b, now, x);
        assert(is_live(b1, x));
        if is_live(a.entries, x) {
            let (old_a, old_b) = (a.entries[x], b.entries[x]);
            assert(old_a.metadata == old_b.metadata && old_a.state == old_b.state);
        }
        if x != id {
            assert(a1[x] == a.entries[x]);
            assert(b1[x] == b.entries[x]);
        }
    }
    assert(snapshot_of(a1) =~= snapshot_of(b1));
    assert forall|x: SegmentId|
        b1.contains_key(x) && (#[trigger] b1[x]).state == SegmentState::Deleted && !b1[x].expired(
            now,
        ) implies a1.contains_key(x) && a1[x].state == SegmentState::Deleted && !a1[x].expired(
        now,
    ) by {
        lemma_alike_live(start, a, b, now, x);
        if x != id {
            assert(b1[x] == b.entries[x]);
            assert(a1[x] == a.entries[x]);
        }
    }
    assert forall|x: SegmentId|
        !is_live(a1, x) && !b2.is_deleted(x, now) && #[trigger] a2.is_deleted(
            x,
            now,
        ) implies start.is_deleted(x, now) by {
        lemma_alike_live(start, a, b, now, x);
        if x != id {
            assert(x.bits != id.bits);
            assert(is_live(a1, x) == is_live(a.entries, x));
            assert(a.is_deleted(x, now) == a2.is_deleted(x, now));
            assert(b.is_deleted(x, now) == b2.is_deleted(x, now));
        }
    }
}

/// An event of the segment stands at `pos` among the items.
pub open spec fn is_event_of(items: Seq<ItemView>, pos: EventWalPos, id: SegmentId) -> bool {
    exists|i: int|
        0 <= i < items.len() && (#[trigger] items[i] matches ItemView::Event(p, e) && p == pos
            && e.segment_id() == id)
}

proof fn lemma_items_keep_alike(
    start: FoldState,
    a: FoldState,
    b: FoldState,
    items: Seq<ItemView>,
    grace: u64,
    now: u64,
)
    requires
        alike(start, a, b, now),
        fold_items(a, items, grace, now) is Done,
    ensures
        match fold_items(b, items, grace, now) {
            FoldEnd::Done(st) => alike(start, fold_items(a, items, grace, now)->Done_0, st, now),
            FoldEnd::Aborted(_, error) => stopped_by_deleted(start, items, error, now),
        },
    decreases items.len(),
{
    if items.len() > 0 {
        if let ItemView::Event(_, e) = items[0] {
            lemma_alike_legal(start, a, b, e, grace, now);
            if let Ok(next_b) = fold_event(b, e, grace, now) {
                let next_a = fold_event(a, e, grace, now)->Ok_0;
                let rest = items.drop_first();
                lemma_event_keeps_alike(start, a, b, e, grace, now);
                lemma_items_keep_alike(start, next_a, next_b, rest, grace, now);
                if let FoldEnd::Aborted(_, error) = fold_items(next_b, rest, grace, now) {
                    if let Error::EventFoldError { pos, segment_id, .. } = error {
                        let i = choose|i: int|
                            0 <= i < rest.len() && (#[trigger] rest[i] matches ItemView::Event(
                                p,
                                e,
                            ) && p == pos && e.segment_id() == segment_id);
                        assert(items[i + 1] == rest[i]);
                    }
                }
            } else {
                assert(items[0] is Event);
            }
        }
    }
}

/// A fold was stopped by an event of a segment that was deleted in `start`.
pub open spec fn stopped_by_deleted(
    start: FoldState,
    items: Seq<ItemView>,
    error: Error,
    now: u64,
) -> bool {
    error matches Error::EventFoldError { pos, segment_id, cause } && {
        &&& cause == TransitionError::Missing
        &&& start.is_deleted(segment_id, now)
        &&& is_event_of(items, pos, segment_id)
    }
}

/// A checkpoint and the events behind it restore the registry: seeding an empty
/// registry from the snapshot of a registry, and applying later events that can
/// be applied to the registry itself, gives the live entries that they give
/// there. Only an event of a segment that was deleted before the checkpoint can
/// stop it: the snapshot does not know that segment.
pub proof fn law_checkpoint_and_later_events_restore_registry(
    full: FoldState,
    later: Seq<ItemView>,
    grace: u64,
    now: u64,
)
    requires
        fold_items(full, later, grace, now) is Done,
    ensures
        match fold_items(fold_from_snapshot(full.entries), later, grace, now) {
            FoldEnd::Done(st) => snapshot_of(st.entries) == snapshot_of(
                fold_items(full, later, grace, now)->Done_0.entries,
            ),
            FoldEnd::Aborted(_, error) => stopped_by_deleted(full, later, error, now),
        },
{
    let back = fold_from_snapshot(full.entries);
    assert(snapshot_of(back.entries) =~= snapshot_of(full.entries));
    lemma_items_keep_alike(full, full, back, later, grace, now);
}

/// The start of a fold over a registry that was seeded from the snapshot of
/// the given one.
pub open spec fn fold_from_snapshot(m: Entries) -> FoldState {
    FoldState {
        entries: with_snapshot(Map::empty(), snapshot_of(m)),
        seen: Set::empty(),
        deleted: Set::empty(),
    }
}

} // verus!
