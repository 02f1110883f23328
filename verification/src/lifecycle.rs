//! The lifecycle registry: which state each segment of a node is in.
//!
//! A segment is reserved, then sealed, then deleted. The registry holds one
//! entry per segment that is not gone. Its transitions never move a segment
//! back: a reservation of a sealed segment is rejected, so that a late
//! metadata write cannot undo a seal. A deleted entry stays for a grace
//! period, during which it is visible as deleted, and is then dropped.
//!
//! Time is passed in, in milliseconds of a monotonic clock.

use crate::buf::{bytes_clone, bytes_contents};
use crate::error::TransitionError;
use crate::node_list::{optional_names, NodeList};
use crate::types::{
    reserved_metadata, DataWalPos, HashOutput, LifecycleConfig, MetadataView, SegmentId,
    SegmentMetadata, SizeTier,
};
use bytes::Bytes;
use std::collections::{BTreeMap, BTreeSet};
use vstd::prelude::*;
use vstd::std_specs::cmp::OrdSpec;
use vstd::std_specs::iter::IteratorSpec;

verus! {

/// Estimated memory of one registry entry, in bytes.
pub const ESTIMATED_BYTES_PER_ENTRY: u64 = 300;

/// The lifecycle states that a segment can be in.
#[derive(Clone, Copy, Debug, PartialEq, Eq, Hash, Structural)]
pub enum SegmentState {
    /// Reserved: data may be in flight, the data file is not yet durable.
    Reserved,
    /// Sealed: the data file is durable and the full metadata is committed.
    Sealed,
    /// Deleted: the durable deletion happened; the entry remains only for the
    /// delete grace.
    Deleted,
}

impl SegmentState {
    /// How far along its life a segment is.
    pub open spec fn rank(self) -> int {
        match self {
            SegmentState::Reserved => 0,
            SegmentState::Sealed => 1,
            SegmentState::Deleted => 2,
        }
    }
}

/// The registry's entry of one segment.
#[derive(Debug)]
pub struct LifecycleEntry {
    /// The segment's state.
    pub state: SegmentState,
    /// The segment's metadata, as the last transition left it.
    pub metadata: SegmentMetadata,
    /// Position of the segment's last entry in the data log; `None` until the
    /// first one is recorded.
    pub data_wal_pos: Option<DataWalPos>,
    /// The segment that this one was repacked from, if it was.
    pub repacked_from: Option<SegmentId>,
    /// When a deleted entry is dropped.
    pub evict_at: u64,
    /// The frozen data between the fill of the segment and its durable seal.
    pub in_flight: Option<Bytes>,
    /// Whether the seal of the in-flight data is taken care of.
    pub seal_queued: bool,
}

/// The mathematical view of [`LifecycleEntry`].
#[verifier::ext_equal]
pub struct EntryView {
    pub state: SegmentState,
    pub metadata: MetadataView,
    pub data_wal_pos: Option<DataWalPos>,
    pub repacked_from: Option<SegmentId>,
    /// When a deleted entry is dropped.
    pub evict_at: u64,
    /// The frozen data between the fill of the segment and its durable seal.
    pub in_flight: Option<Seq<u8>>,
    /// Whether the seal of the in-flight data is taken care of.
    pub seal_queued: bool,
}

impl View for LifecycleEntry {
    type V = EntryView;

    open spec fn view(&self) -> EntryView {
        EntryView {
            state: self.state,
            metadata: self.metadata@,
            data_wal_pos: self.data_wal_pos,
            repacked_from: self.repacked_from,
            evict_at: self.evict_at,
            in_flight: match self.in_flight {
                Some(b) => Some(bytes_contents(b)),
                None => None,
            },
            seal_queued: self.seal_queued,
        }
    }
}

impl EntryView {
    /// A new entry: nothing recorded, nothing in flight.
    pub open spec fn fresh(state: SegmentState, metadata: MetadataView) -> EntryView {
        EntryView {
            state,
            metadata,
            data_wal_pos: None,
            repacked_from: None,
            evict_at: 0,
            in_flight: None,
            seal_queued: false,
        }
    }

    /// The entry is deleted and its grace is over.
    pub open spec fn expired(self, now: u64) -> bool {
        self.state == SegmentState::Deleted && self.evict_at <= now
    }

    /// The entry after its seal: the sealed metadata, and nothing in flight.
    pub open spec fn sealed(self, metadata: MetadataView, repacked_from: Option<SegmentId>)
        -> EntryView {
        EntryView {
            state: SegmentState::Sealed,
            metadata,
            repacked_from,
            in_flight: None,
            seal_queued: false,
            ..self
        }
    }

    /// The entry after its deletion.
    pub open spec fn deleted(self, evict_at: u64) -> EntryView {
        EntryView { state: SegmentState::Deleted, evict_at, ..self }
    }

    /// The entry with refreshed metadata: the new root, and the new holders
    /// and pool where they are given.
    pub open spec fn refreshed(
        self,
        merkle_root: Option<HashOutput>,
        storage_locations: Option<Seq<Seq<char>>>,
        pool_id: Option<u32>,
    ) -> EntryView {
        EntryView {
            metadata: MetadataView {
                merkle_root,
                storage_locations: match storage_locations {
                    Some(locs) => locs,
                    None => self.metadata.storage_locations,
                },
                pool_id: match pool_id {
                    Some(pool) => pool,
                    None => self.metadata.pool_id,
                },
                ..self.metadata
            },
            ..self
        }
    }
}

impl LifecycleEntry {
    /// A new entry in the given state.
    pub fn new(state: SegmentState, metadata: SegmentMetadata) -> (entry: Self)
        ensures
            entry@ == EntryView::fresh(state, metadata@),
    {
        LifecycleEntry {
            state,
            metadata,
            data_wal_pos: None,
            repacked_from: None,
            evict_at: 0,
            in_flight: None,
            seal_queued: false,
        }
    }

    fn is_expired(&self, now: u64) -> (r: bool)
        ensures
            r == self@.expired(now),
    {
        match self.state {
            SegmentState::Deleted => self.evict_at <= now,
            _ => false,
        }
    }
}

impl Clone for LifecycleEntry {
    fn clone(&self) -> (entry: Self)
        ensures
            entry@ == self@,
    {
        LifecycleEntry {
            state: self.state,
            metadata: self.metadata.clone(),
            data_wal_pos: self.data_wal_pos,
            repacked_from: self.repacked_from,
            evict_at: self.evict_at,
            in_flight: match &self.in_flight {
                Some(b) => Some(bytes_clone(b)),
                None => None,
            },
            seal_queued: self.seal_queued,
        }
    }
}

/// Where a segment's data can be read from.
#[derive(Debug)]
pub enum SegmentReadSource {
    /// In the buffer of an active slot.
    ActiveSlot,
    /// In the frozen buffer between fill and durable seal.
    InFlight(Bytes),
    /// In the durable data file.
    Sealed,
    /// Not on this node, or gone.
    Missing,
}

/// The registry's entries by segment.
pub type Entries = Map<SegmentId, EntryView>;

/// What is left of the entries at `now`: deleted ones whose grace is over are
/// gone.
pub open spec fn evicted(m: Entries, now: u64) -> Entries {
    Map::new(|id: SegmentId| m.contains_key(id) && !m[id].expired(now), |id: SegmentId| m[id])
}

/// The entry of a segment as seen at `now`.
pub open spec fn entry_at(m: Entries, id: SegmentId, now: u64) -> Option<EntryView> {
    if m.contains_key(id) && !m[id].expired(now) {
        Some(m[id])
    } else {
        None
    }
}

/// Whether a reservation is legal: the segment is absent or reserved.
pub open spec fn reserve_outcome(entry: Option<EntryView>) -> Result<(), TransitionError> {
    match entry {
        None => Ok(()),
        Some(e) => match e.state {
            SegmentState::Reserved => Ok(()),
            SegmentState::Sealed => Err(TransitionError::AlreadySealed),
            SegmentState::Deleted => Err(TransitionError::AlreadyDeleted),
        },
    }
}

/// Whether a seal is legal: the segment is reserved.
pub open spec fn seal_outcome(entry: Option<EntryView>) -> Result<(), TransitionError> {
    match entry {
        None => Err(TransitionError::Missing),
        Some(e) => match e.state {
            SegmentState::Reserved => Ok(()),
            SegmentState::Sealed => Err(TransitionError::AlreadySealed),
            SegmentState::Deleted => Err(TransitionError::NotReserved),
        },
    }
}

/// Whether a deletion is legal: the segment is reserved or sealed.
pub open spec fn delete_outcome(entry: Option<EntryView>) -> Result<(), TransitionError> {
    match entry {
        None => Err(TransitionError::Missing),
        Some(e) => match e.state {
            SegmentState::Deleted => Err(TransitionError::AlreadyDeleted),
            _ => Ok(()),
        },
    }
}

/// The entries after a reservation.
pub open spec fn after_reserve(m: Entries, id: SegmentId, metadata: MetadataView, now: u64)
    -> Entries {
    let live = evicted(m, now);
    if live.contains_key(id) {
        live
    } else {
        live.insert(id, EntryView::fresh(SegmentState::Reserved, metadata))
    }
}

/// The entries after a seal.
pub open spec fn after_seal(
    m: Entries,
    id: SegmentId,
    metadata: MetadataView,
    repacked_from: Option<SegmentId>,
    now: u64,
) -> Entries {
    let live = evicted(m, now);
    if seal_outcome(entry_at(m, id, now)) is Ok {
        live.insert(id, live[id].sealed(metadata, repacked_from))
    } else {
        live
    }
}

/// The entries after a deletion: with no grace the entry is gone at once.
pub open spec fn after_delete(m: Entries, id: SegmentId, grace: u64, now: u64) -> Entries {
    let live = evicted(m, now);
    if delete_outcome(entry_at(m, id, now)) is Ok {
        if grace == 0 {
            live.remove(id)
        } else {
            live.insert(id, live[id].deleted((now + grace) as u64))
        }
    } else {
        live
    }
}

/// The entries after a metadata refresh.
pub open spec fn after_refresh(
    m: Entries,
    id: SegmentId,
    merkle_root: Option<HashOutput>,
    storage_locations: Option<Seq<Seq<char>>>,
    pool_id: Option<u32>,
    now: u64,
) -> Entries {
    let live = evicted(m, now);
    if delete_outcome(entry_at(m, id, now)) is Ok {
        live.insert(id, live[id].refreshed(merkle_root, storage_locations, pool_id))
    } else {
        live
    }
}

/// The entries after recording a data position: only a reserved segment
/// takes it.
pub open spec fn after_record_pos(m: Entries, id: SegmentId, pos: DataWalPos) -> Entries {
    if m.contains_key(id) && m[id].state == SegmentState::Reserved {
        m.insert(id, EntryView { data_wal_pos: Some(pos), ..m[id] })
    } else {
        m
    }
}

/// The entries by identifier, and which of them are deleted.
struct Table {
    entries: BTreeMap<u128, LifecycleEntry>,
    deleted: BTreeSet<u128>,
}

impl Table {
    /// Every deleted entry is known as such.
    spec fn wf(&self) -> bool {
        forall|key: u128| #[trigger]
            self.entries@.contains_key(key) && self.entries@[key].state == SegmentState::Deleted
                ==> self.deleted@.contains(key)
    }

    fn new() -> (table: Self)
        ensures
            table.wf(),
            table.entries@ == Map::<u128, LifecycleEntry>::empty(),
    {
        Table { entries: BTreeMap::new(), deleted: BTreeSet::new() }
    }

    fn put(&mut self, key: u128, entry: LifecycleEntry)
        requires
            old(self).wf(),
        ensures
            final(self).wf(),
            final(self).entries@ == old(self).entries@.insert(key, entry),
    {
        broadcast use vstd::laws_cmp::group_laws_cmp;

        let deleted = match entry.state {
            SegmentState::Deleted => true,
            _ => false,
        };
        if deleted {
            self.deleted.insert(key);
        } else {
            self.deleted.remove(&key);
        }
        self.entries.insert(key, entry);
    }

    fn take(&mut self, key: u128) -> (entry: Option<LifecycleEntry>)
        requires
            old(self).wf(),
        ensures
            final(self).wf(),
            final(self).entries@ == old(self).entries@.remove(key),
            match entry {
                Some(e) => old(self).entries@.contains_key(key) && old(self).entries@[key] == e,
                None => !old(self).entries@.contains_key(key),
            },
    {
        broadcast use vstd::laws_cmp::group_laws_cmp;

        self.deleted.remove(&key);
        self.entries.remove(&key)
    }

    /// The identifiers of the deleted entries.
    fn deleted_ids(&self) -> (ids: Vec<SegmentId>)
        ensures
            forall|key: u128| #[trigger]
                self.deleted@.contains(key) ==> ids@.contains(SegmentId { bits: key }),
    {
        broadcast use vstd::laws_cmp::group_laws_cmp;

        let mut ids: Vec<SegmentId> = Vec::new();
        let ghost all = vstd::std_specs::btree::spec_btree_keys_iter(&self.deleted).remaining();
        for key in it: self.deleted.iter()
            invariant
                ids@.len() == it.index(),
                it.seq() == all,
                forall|i: int| 0 <= i < ids@.len() ==> (#[trigger] ids@[i]).bits == *all[i],
        {
            ids.push(SegmentId { bits: *key });
        }
        assert forall|key: u128| #[trigger] self.deleted@.contains(key) implies ids@.contains(
            SegmentId { bits: key },
        ) by {
            let keys = all.unref();
            assert(keys.to_set().contains(key));
            let i = choose|i: int| 0 <= i < keys.len() && keys[i] == key;
            assert(ids@[i] == SegmentId { bits: key });
        }
        ids
    }
}

/// The in-memory registry of segment lifecycles.
pub struct SegmentLifecycleRegistry {
    table: Table,
    config: LifecycleConfig,
}

impl View for SegmentLifecycleRegistry {
    type V = Entries;

    closed spec fn view(&self) -> Entries {
        Map::new(
            |id: SegmentId| self.table.entries@.contains_key(id.bits),
            |id: SegmentId| self.table.entries@[id.bits]@,
        )
    }
}

/// Number of registry shards of a configuration: at least one.
pub fn shard_count(config: &LifecycleConfig) -> (n: usize)
    ensures
        n == if config.lifecycle_registry_shards == 0 {
            1
        } else {
            config.lifecycle_registry_shards
        },
{
    if config.lifecycle_registry_shards == 0 {
        1
    } else {
        config.lifecycle_registry_shards
    }
}

/// The listing has an entry of the segment.
spec fn lists(live: Seq<(SegmentId, LifecycleEntry)>, id: SegmentId) -> bool {
    exists|a: int| 0 <= a < live.len() && (#[trigger] live[a]).0 == id
}

impl SegmentLifecycleRegistry {
    #[verifier::type_invariant]
    spec fn table_wf(self) -> bool {
        self.table.wf()
    }

    /// The delete grace, in milliseconds.
    pub closed spec fn grace(&self) -> u64 {
        self.config.delete_grace_ms
    }

    /// Creates an empty registry.
    pub fn new(config: &LifecycleConfig) -> (registry: Self)
        ensures
            registry@ == Map::<SegmentId, EntryView>::empty(),
            registry.grace() == config.delete_grace_ms,
    {
        let registry = SegmentLifecycleRegistry { table: Table::new(), config: *config };
        assert(registry@ =~= Map::<SegmentId, EntryView>::empty());
        registry
    }

    /// The entry of a segment, expired or not.
    fn entry(&self, id: SegmentId) -> (entry: Option<&LifecycleEntry>)
        ensures
            match entry {
                Some(e) => self@.contains_key(id) && self@[id] == e@,
                None => !self@.contains_key(id),
            },
    {
        self.table.entries.get(&id.bits)
    }

    /// The entry of a segment as seen at `now`.
    fn entry_now(&self, id: SegmentId, now: u64) -> (entry: Option<&LifecycleEntry>)
        ensures
            match entry {
                Some(e) => entry_at(self@, id, now) == Some(e@),
                None => entry_at(self@, id, now) is None,
            },
    {
        match self.entry(id) {
            Some(e) => if e.is_expired(now) {
                None
            } else {
                Some(e)
            },
            None => None,
        }
    }

    fn put(&mut self, id: SegmentId, entry: LifecycleEntry)
        ensures
            final(self)@ == old(self)@.insert(id, entry@),
            final(self).grace() == old(self).grace(),
    {
        proof {
            use_type_invariant(&*self);
        }
        let mut table = Table::new();
        core::mem::swap(&mut table, &mut self.table);
        table.put(id.bits, entry);
        self.table = table;
        assert(self@ =~= old(self)@.insert(id, entry@));
    }

    fn take(&mut self, id: SegmentId) -> (entry: Option<LifecycleEntry>)
        ensures
            final(self)@ == old(self)@.remove(id),
            final(self).grace() == old(self).grace(),
            match entry {
                Some(e) => old(self)@.contains_key(id) && old(self)@[id] == e@,
                None => !old(self)@.contains_key(id),
            },
    {
        proof {
            use_type_invariant(&*self);
        }
        let mut table = Table::new();
        core::mem::swap(&mut table, &mut self.table);
        let entry = table.take(id.bits);
        self.table = table;
        assert(self@ =~= old(self)@.remove(id));
        entry
    }

    /// The segments that have an entry, in order of their identifiers.
    fn ids(&self) -> (ids: Vec<SegmentId>)
        ensures
            forall|i: int, j: int|
                0 <= i < j < ids@.len() ==> (#[trigger] ids@[i]).bits < (#[trigger] ids@[j]).bits,
            forall|i: int| 0 <= i < ids@.len() ==> self@.contains_key(#[trigger] ids@[i]),
            forall|id: SegmentId| self@.contains_key(id) ==> ids@.contains(id),
    {
        broadcast use vstd::laws_cmp::group_laws_cmp;

        let mut ids: Vec<SegmentId> = Vec::new();
        let ghost all = vstd::std_specs::btree::spec_btree_map_iter(&self.table.entries).remaining();
        let ghost keys = all.map_values(|kv: (&u128, &LifecycleEntry)| *kv.0);
        for kv in it: self.table.entries.iter()
            invariant
                ids@.len() == it.index(),
                it.seq() == all,
                keys == all.map_values(|kv: (&u128, &LifecycleEntry)| *kv.0),
                vstd::std_specs::btree::increasing_seq(keys),
                forall|i: int| 0 <= i < ids@.len() ==> (#[trigger] ids@[i]).bits == keys[i],
        {
            ids.push(SegmentId { bits: *kv.0 });
        }
        proof {
            assert forall|i: int, j: int| 0 <= i < j < ids@.len() implies (#[trigger] ids@[i]).bits
                < (#[trigger] ids@[j]).bits by {
                assert(keys[i].cmp_spec(&keys[j]) is Less);
            }
            assert forall|i: int| 0 <= i < ids@.len() implies self@.contains_key(
                #[trigger] ids@[i],
            ) by {
                assert(self.table.entries@.contains_key(*all[i].0));
            }
            assert forall|id: SegmentId| self@.contains_key(id) implies ids@.contains(id) by {
                assert(all.contains((&id.bits, &self.table.entries@[id.bits])));
                let i = choose|i: int|
                    0 <= i < all.len() && all[i] == (&id.bits, &self.table.entries@[id.bits]);
                assert(ids@[i] == id);
            }
        }
        ids
    }

    /// Drops the deleted entries whose grace is over.
    fn evict_expired(&mut self, now: u64)
        ensures
            final(self)@ == evicted(old(self)@, now),
            final(self).grace() == old(self).grace(),
    {
        proof {
            use_type_invariant(&*self);
        }
        let ids = self.table.deleted_ids();
        let ghost before = self@;
        assert forall|id: SegmentId|
            #![trigger before.contains_key(id)]
            before.contains_key(id) && before[id].expired(now) implies ids@.contains(id) by {
            assert(self.table.entries@.contains_key(id.bits));
        }
        let n: usize = ids.len();
        let mut i: usize = 0;
        while i < n
            invariant
                i <= n == ids@.len(),
                before == old(self)@,
                self.grace() == old(self).grace(),
                forall|id: SegmentId| #[trigger]
                    self@.contains_key(id) <==> before.contains_key(id) && !(before[id].expired(now)
                        && ids@.take(i as int).contains(id)),
                forall|id: SegmentId| #[trigger]
                    self@.contains_key(id) ==> self@[id] == before[id],
            decreases n - i,
        {
            let id = ids[i];
            let ghost done = ids@.take(i as int);
            let ghost next = ids@.take(i + 1);
            proof {
                assert(next =~= done.push(id));
                assert(next.contains(id)) by {
                    assert(next[i as int] == id);
                }
                assert forall|x: SegmentId| next.contains(x) implies x == id || done.contains(x) by {
                    let k = choose|k: int| 0 <= k < next.len() && next[k] == x;
                    if k < i {
                        assert(done[k] == x);
                    }
                }
                assert forall|x: SegmentId| done.contains(x) implies next.contains(x) by {
                    let k = choose|k: int| 0 <= k < done.len() && done[k] == x;
                    assert(next[k] == x);
                }
            }
            let expired = match self.entry(id) {
                Some(e) => e.is_expired(now),
                None => false,
            };
            if expired {
                let gone = self.take(id);
            }
            i = i + 1;
        }
        assert(ids@.take(n as int) =~= ids@);
        assert(self@ =~= evicted(before, now));
    }

    /// Reserves a segment. Succeeds when it is absent, or already reserved,
    /// in which case its entry is kept as it is.
    pub fn reserve(&mut self, id: SegmentId, metadata: SegmentMetadata, now: u64) -> (r: Result<
        (),
        TransitionError,
    >)
        ensures
            r == reserve_outcome(entry_at(old(self)@, id, now)),
            final(self)@ == after_reserve(old(self)@, id, metadata@, now),
            final(self).grace() == old(self).grace(),
    {
        self.evict_expired(now);
        match self.entry(id) {
            None => {
                self.put(id, LifecycleEntry::new(SegmentState::Reserved, metadata));
                Ok(())
            },
            Some(e) => match e.state {
                SegmentState::Reserved => Ok(()),
                SegmentState::Sealed => Err(TransitionError::AlreadySealed),
                SegmentState::Deleted => Err(TransitionError::AlreadyDeleted),
            },
        }
    }

    /// Seals a reserved segment with its full metadata. The in-flight data is
    /// released: from now on the data file is authoritative.
    pub fn seal(&mut self, id: SegmentId, metadata: SegmentMetadata, now: u64) -> (r: Result<
        (),
        TransitionError,
    >)
        ensures
            r == seal_outcome(entry_at(old(self)@, id, now)),
            final(self)@ == after_seal(old(self)@, id, metadata@, None, now),
            final(self).grace() == old(self).grace(),
    {
        self.seal_with(id, metadata, None, now)
    }

    /// Seals a reserved segment, with the segment that it was repacked from.
    pub fn seal_with(
        &mut self,
        id: SegmentId,
        metadata: SegmentMetadata,
        repacked_from: Option<SegmentId>,
        now: u64,
    ) -> (r: Result<(), TransitionError>)
        ensures
            r == seal_outcome(entry_at(old(self)@, id, now)),
            final(self)@ == after_seal(old(self)@, id, metadata@, repacked_from, now),
            final(self).grace() == old(self).grace(),
    {
        self.evict_expired(now);
        let ghost live = self@;
        match self.validate_seal(id, now) {
            Ok(()) => {
                if let Some(mut e) = self.take(id) {
                    e.state = SegmentState::Sealed;
                    e.metadata = metadata;
                    e.repacked_from = repacked_from;
                    e.in_flight = None;
                    e.seal_queued = false;
                    self.put(id, e);
                    assert(self@ =~= after_seal(old(self)@, id, metadata@, repacked_from, now));
                }
                Ok(())
            },
            Err(e) => Err(e),
        }
    }

    /// Deletes a reserved or sealed segment. Its entry is dropped when the
    /// delete grace is over, at once when there is none.
    pub fn delete(&mut self, id: SegmentId, now: u64) -> (r: Result<(), TransitionError>)
        requires
            now + old(self).grace() <= u64::MAX,
        ensures
            r == delete_outcome(entry_at(old(self)@, id, now)),
            final(self)@ == after_delete(old(self)@, id, old(self).grace(), now),
            final(self).grace() == old(self).grace(),
    {
        self.evict_expired(now);
        match self.validate_delete(id, now) {
            Ok(()) => {
                if let Some(mut e) = self.take(id) {
                    if self.config.delete_grace_ms != 0 {
                        e.state = SegmentState::Deleted;
                        e.evict_at = now + self.config.delete_grace_ms;
                        self.put(id, e);
                    }
                    assert(self@ =~= after_delete(old(self)@, id, old(self).grace(), now));
                }
                Ok(())
            },
            Err(e) => Err(e),
        }
    }

    /// Refreshes the metadata of a live segment; its state stays. The root is
    /// replaced; the holders and the pool are replaced where they are given.
    pub fn refresh_metadata(
        &mut self,
        id: SegmentId,
        merkle_root: Option<HashOutput>,
        storage_locations: Option<NodeList>,
        pool_id: Option<u32>,
        now: u64,
    ) -> (r: Result<(), TransitionError>)
        ensures
            r == delete_outcome(entry_at(old(self)@, id, now)),
            final(self)@ == after_refresh(
                old(self)@,
                id,
                merkle_root,
                optional_names(storage_locations),
                pool_id,
                now,
            ),
            final(self).grace() == old(self).grace(),
    {
        self.evict_expired(now);
        match self.validate_delete(id, now) {
            Ok(()) => {
                if let Some(mut e) = self.take(id) {
                    let ghost was = e@;
                    let ghost locs = optional_names(storage_locations);
                    e.metadata.merkle_root = merkle_root;
                    if let Some(list) = storage_locations {
                        e.metadata.storage_locations = list;
                    }
                    if let Some(pool) = pool_id {
                        e.metadata.pool_id = pool;
                    }
                    assert(e@ =~= was.refreshed(merkle_root, locs, pool_id));
                    self.put(id, e);
                    assert(self@ =~= after_refresh(
                        old(self)@,
                        id,
                        merkle_root,
                        locs,
                        pool_id,
                        now,
                    ));
                }
                Ok(())
            },
            Err(e) => Err(e),
        }
    }

    /// The entry of a segment; a deleted one whose grace is over counts as
    /// absent.
    pub fn get(&self, id: SegmentId, now: u64) -> (entry: Option<LifecycleEntry>)
        ensures
            match entry {
                Some(e) => entry_at(self@, id, now) == Some(e@),
                None => entry_at(self@, id, now) is None,
            },
    {
        match self.entry_now(id, now) {
            Some(e) => Some(e.clone()),
            None => None,
        }
    }

    /// Where a segment's data can be read from, in one lookup.
    pub fn read_source(&self, id: SegmentId, now: u64) -> (source: SegmentReadSource)
        ensures
            source_view(source) == read_source_of(entry_at(self@, id, now)),
    {
        match self.entry_now(id, now) {
            None => SegmentReadSource::Missing,
            Some(e) => match e.state {
                SegmentState::Deleted => SegmentReadSource::Missing,
                _ => match &e.in_flight {
                    Some(data) => SegmentReadSource::InFlight(bytes_clone(data)),
                    None => match e.state {
                        SegmentState::Sealed => SegmentReadSource::Sealed,
                        _ => SegmentReadSource::ActiveSlot,
                    },
                },
            },
        }
    }

    /// Attaches the frozen data of a filled segment to its entry, and takes
    /// its seal as queued. A segment without an entry gets a reserved one: the
    /// reservation that follows keeps it. `false` when the segment is sealed
    /// or deleted.
    pub fn attach_in_flight(
        &mut self,
        id: SegmentId,
        tier: SizeTier,
        ec_k: u8,
        ec_m: u8,
        data: Bytes,
    ) -> (attached: bool)
        ensures
            attached == (!old(self)@.contains_key(id) || old(self)@[id].state
                == SegmentState::Reserved),
            final(self)@ == after_attach(old(self)@, id, tier, ec_k, ec_m, bytes_contents(data)),
            final(self).grace() == old(self).grace(),
    {
        let reserved = match self.entry(id) {
            None => {
                let mut e = LifecycleEntry::new(
                    SegmentState::Reserved,
                    SegmentMetadata::reserved(id, tier, ec_k, ec_m),
                );
                e.in_flight = Some(data);
                e.seal_queued = true;
                self.put(id, e);
                return true;
            },
            Some(e) => match e.state {
                SegmentState::Reserved => true,
                _ => false,
            },
        };
        if !reserved {
            return false;
        }
        if let Some(mut e) = self.take(id) {
            e.in_flight = Some(data);
            e.seal_queued = true;
            self.put(id, e);
        }
        assert(self@ =~= after_attach(old(self)@, id, tier, ec_k, ec_m, bytes_contents(data)));
        true
    }

    /// Marks the seal of a segment's in-flight data as queued. Does nothing
    /// when there is none.
    pub fn mark_seal_queued(&mut self, id: SegmentId)
        ensures
            final(self)@ == (if old(self)@.contains_key(id) && old(self)@[id].in_flight is Some {
                old(self)@.insert(id, EntryView { seal_queued: true, ..old(self)@[id] })
            } else {
                old(self)@
            }),
            final(self)@ == after_queued(old(self)@, id),
            final(self).grace() == old(self).grace(),
    {
        let frozen = match self.entry(id) {
            Some(e) => e.in_flight.is_some(),
            None => false,
        };
        if frozen {
            if let Some(mut e) = self.take(id) {
                e.seal_queued = true;
                self.put(id, e);
                assert(self@ =~= old(self)@.insert(
                    id,
                    EntryView { seal_queued: true, ..old(self)@[id] },
                ));
            }
        }
    }

    /// Marks the seal of a segment as not queued: an attempt to queue it
    /// failed and is to be repeated. The in-flight data stays readable.
    pub fn mark_seal_unqueued(&mut self, id: SegmentId)
        ensures
            final(self)@ == (if old(self)@.contains_key(id) {
                old(self)@.insert(id, EntryView { seal_queued: false, ..old(self)@[id] })
            } else {
                old(self)@
            }),
            final(self)@ == after_unqueued(old(self)@, id),
            final(self).grace() == old(self).grace(),
    {
        match self.take(id) {
            Some(mut e) => {
                e.seal_queued = false;
                self.put(id, e);
                assert(self@ =~= old(self)@.insert(
                    id,
                    EntryView { seal_queued: false, ..old(self)@[id] },
                ));
            },
            None => {
                assert(self@ =~= old(self)@);
            },
        }
    }

    /// Counts the entries of a kind.
    fn count(&self, what: Counted) -> (n: usize)
        ensures
            n == ids_where(self@, what).len(),
            ids_where(self@, what).finite(),
    {
        let ids = self.ids();
        let len: usize = ids.len();
        let mut n: usize = 0;
        let mut i: usize = 0;
        let ghost mut found: Set<SegmentId> = Set::empty();
        while i < len
            invariant
                i <= len == ids@.len(),
                n <= i,
                n == found.len(),
                found.finite(),
                forall|a: int, b: int|
                    0 <= a < b < ids@.len() ==> (#[trigger] ids@[a]).bits < (
                    #[trigger] ids@[b]).bits,
                forall|a: int| 0 <= a < ids@.len() ==> self@.contains_key(#[trigger] ids@[a]),
                forall|id: SegmentId| #[trigger]
                    found.contains(id) ==> what.holds(self@[id]) && (exists|k: int|
                        0 <= k < i && ids@[k] == id),
                forall|k: int|
                    0 <= k < i && what.holds(self@[#[trigger] ids@[k]]) ==> found.contains(ids@[k]),
            decreases len - i,
        {
            let id = ids[i];
            let hit = match self.entry(id) {
                Some(e) => what.check(e),
                None => false,
            };
            if hit {
                proof {
                    if found.contains(id) {
                        let k = choose|k: int| 0 <= k < i && ids@[k] == id;
                        assert(ids@[k].bits < ids@[i as int].bits);
                    }
                    found = found.insert(id);
                }
                n = n + 1;
            }
            i = i + 1;
        }
        proof {
            assert forall|id: SegmentId| #[trigger] found.contains(id) <==> ids_where(
                self@,
                what,
            ).contains(id) by {
                if ids_where(self@, what).contains(id) {
                    assert(ids@.contains(id));
                    let k = choose|k: int| 0 <= k < ids@.len() && ids@[k] == id;
                    assert(what.holds(self@[ids@[k]]));
                }
            }
            assert(found =~= ids_where(self@, what));
        }
        n
    }

    /// Number of entries with frozen data in flight.
    pub fn in_flight_count(&self) -> (n: usize)
        ensures
            n == ids_where(self@, Counted::InFlight).len(),
    {
        self.count(Counted::InFlight)
    }

    /// Number of entries with frozen data in flight whose seal is to be queued
    /// again.
    pub fn in_flight_unqueued_count(&self) -> (n: usize)
        ensures
            n == ids_where(self@, Counted::InFlightUnqueued).len(),
    {
        self.count(Counted::InFlightUnqueued)
    }

    /// Number of live entries: reserved or sealed.
    pub fn len(&self) -> (n: usize)
        ensures
            n == ids_where(self@, Counted::Live).len(),
    {
        self.count(Counted::Live)
    }

    /// Whether there is no live entry.
    pub fn is_empty(&self) -> (r: bool)
        ensures
            r == (forall|id: SegmentId| !is_live(self@, id)),
    {
        let n: usize = self.count(Counted::Live);
        proof {
            let live = ids_where(self@, Counted::Live);
            if n == 0 {
                assert forall|id: SegmentId| !is_live(self@, id) by {
                    if is_live(self@, id) {
                        assert(live.contains(id));
                    }
                }
            } else {
                let id = live.choose();
                assert(live.contains(id));
                assert(is_live(self@, id));
            }
        }
        n == 0
    }

    /// Estimated memory of the registry, in bytes.
    pub fn mem_estimate_bytes(&self) -> (n: u64)
        requires
            ids_where(self@, Counted::Live).len() * ESTIMATED_BYTES_PER_ENTRY <= u64::MAX,
        ensures
            n == ids_where(self@, Counted::Live).len() * ESTIMATED_BYTES_PER_ENTRY,
    {
        self.len() as u64 * ESTIMATED_BYTES_PER_ENTRY
    }

    /// The live entries, in order of their identifiers.
    pub fn for_each(&self) -> (live: Vec<(SegmentId, LifecycleEntry)>)
        ensures
            is_live_listing(self@, listing_view(live@)),
    {
        let ids = self.ids();
        let len: usize = ids.len();
        let mut live: Vec<(SegmentId, LifecycleEntry)> = Vec::new();
        let mut i: usize = 0;
        while i < len
            invariant
                i <= len == ids@.len(),
                forall|a: int, b: int|
                    0 <= a < b < ids@.len() ==> (#[trigger] ids@[a]).bits < (
                    #[trigger] ids@[b]).bits,
                forall|a: int, b: int|
                    0 <= a < b < live@.len() ==> (#[trigger] live@[a]).0.bits < (
                    #[trigger] live@[b]).0.bits,
                forall|a: int|
                    0 <= a < live@.len() ==> is_live(self@, (#[trigger] live@[a]).0)
                        && self@[live@[a].0] == live@[a].1@,
                forall|a: int, k: int|
                    0 <= a < live@.len() && i <= k < ids@.len() ==> (#[trigger] live@[a]).0.bits < (
                    #[trigger] ids@[k]).bits,
                forall|k: int|
                    0 <= k < i && is_live(self@, #[trigger] ids@[k]) ==> lists(live@, ids@[k]),
            decreases len - i,
        {
            let id = ids[i];
            let ghost before = live@;
            if let Some(e) = self.entry(id) {
                let keep = match e.state {
                    SegmentState::Deleted => false,
                    _ => true,
                };
                if keep {
                    live.push((id, e.clone()));
                    assert(live@[before.len() as int].0 == id);
                    assert forall|k: int| 0 <= k < i && is_live(
                        self@,
                        #[trigger] ids@[k],
                    ) implies lists(live@, ids@[k]) by {
                        let a = choose|a: int|
                            0 <= a < before.len() && (#[trigger] before[a]).0 == ids@[k];
                        assert(live@[a].0 == ids@[k]);
                    }
                }
            }
            i = i + 1;
        }
        proof {
            let s = listing_view(live@);
            assert forall|id: SegmentId| #[trigger] is_live(self@, id) implies exists|a: int|
                0 <= a < s.len() && (#[trigger] s[a]).0 == id by {
                assert(ids@.contains(id));
                let k = choose|k: int| 0 <= k < ids@.len() && ids@[k] == id;
                assert(is_live(self@, ids@[k]));
                assert(lists(live@, ids@[k]));
                let a = choose|a: int| 0 <= a < live@.len() && (#[trigger] live@[a]).0 == ids@[k];
                assert(s[a].0 == id);
            }
        }
        live
    }

    /// Puts an entry into the registry at start-up, unless the segment has
    /// one.
    pub fn seed_entry(
        &mut self,
        id: SegmentId,
        state: SegmentState,
        metadata: SegmentMetadata,
        data_wal_pos: Option<DataWalPos>,
        repacked_from: Option<SegmentId>,
        now: u64,
    )
        ensures
            final(self)@ == after_seed(
                old(self)@,
                id,
                EntryView {
                    data_wal_pos,
                    repacked_from,
                    ..EntryView::fresh(state, metadata@)
                },
                now,
            ),
            final(self).grace() == old(self).grace(),
    {
        self.evict_expired(now);
        if self.entry(id).is_none() {
            let mut e = LifecycleEntry::new(state, metadata);
            e.data_wal_pos = data_wal_pos;
            e.repacked_from = repacked_from;
            self.put(id, e);
        }
    }

    /// Drops the entry of a reserved segment. Nothing durable changes: a
    /// restart reserves the segment again and drops it again.
    pub fn drop_reserve(&mut self, id: SegmentId)
        ensures
            final(self)@ == (if old(self)@.contains_key(id) && old(self)@[id].state
                == SegmentState::Reserved {
                old(self)@.remove(id)
            } else {
                old(self)@
            }),
            final(self)@ == after_drop(old(self)@, id),
            final(self).grace() == old(self).grace(),
    {
        let reserved = match self.entry(id) {
            Some(e) => match e.state {
                SegmentState::Reserved => true,
                _ => false,
            },
            None => false,
        };
        if reserved {
            let gone = self.take(id);
        }
    }

    /// Records the position of a reserved segment's latest data entry.
    pub fn record_data_wal_pos(&mut self, id: SegmentId, pos: DataWalPos)
        ensures
            final(self)@ == after_record_pos(old(self)@, id, pos),
            final(self).grace() == old(self).grace(),
    {
        let reserved = match self.entry(id) {
            Some(e) => match e.state {
                SegmentState::Reserved => true,
                _ => false,
            },
            None => false,
        };
        if reserved {
            if let Some(mut e) = self.take(id) {
                e.data_wal_pos = Some(pos);
                self.put(id, e);
                assert(self@ =~= after_record_pos(old(self)@, id, pos));
            }
        }
    }

    /// The recorded position of a segment's last data entry.
    pub fn last_data_wal_pos(&self, id: SegmentId) -> (pos: Option<DataWalPos>)
        ensures
            pos == (if self@.contains_key(id) {
                self@[id].data_wal_pos
            } else {
                None
            }),
    {
        match self.entry(id) {
            Some(e) => e.data_wal_pos,
            None => None,
        }
    }

    /// Whether a reservation would be accepted.
    pub fn validate_reserve(&self, id: SegmentId, now: u64) -> (r: Result<(), TransitionError>)
        ensures
            r == reserve_outcome(entry_at(self@, id, now)),
    {
        match self.entry_now(id, now) {
            None => Ok(()),
            Some(e) => match e.state {
                SegmentState::Reserved => Ok(()),
                SegmentState::Sealed => Err(TransitionError::AlreadySealed),
                SegmentState::Deleted => Err(TransitionError::AlreadyDeleted),
            },
        }
    }

    /// Whether a seal would be accepted.
    pub fn validate_seal(&self, id: SegmentId, now: u64) -> (r: Result<(), TransitionError>)
        ensures
            r == seal_outcome(entry_at(self@, id, now)),
    {
        match self.entry_now(id, now) {
            None => Err(TransitionError::Missing),
            Some(e) => match e.state {
                SegmentState::Reserved => Ok(()),
                SegmentState::Sealed => Err(TransitionError::AlreadySealed),
                SegmentState::Deleted => Err(TransitionError::NotReserved),
            },
        }
    }

    /// Whether a deletion would be accepted.
    pub fn validate_delete(&self, id: SegmentId, now: u64) -> (r: Result<(), TransitionError>)
        ensures
            r == delete_outcome(entry_at(self@, id, now)),
    {
        match self.entry_now(id, now) {
            None => Err(TransitionError::Missing),
            Some(e) => match e.state {
                SegmentState::Deleted => Err(TransitionError::AlreadyDeleted),
                _ => Ok(()),
            },
        }
    }

    /// Applies a reservation whose durable write succeeded.
    pub fn fold_reserve(&mut self, id: SegmentId, metadata: SegmentMetadata, now: u64) -> (r: Result<
        (),
        TransitionError,
    >)
        ensures
            r == reserve_outcome(entry_at(old(self)@, id, now)),
            final(self)@ == after_reserve(old(self)@, id, metadata@, now),
            final(self).grace() == old(self).grace(),
    {
        self.reserve(id, metadata, now)
    }

    /// Applies a seal whose durable write succeeded.
    pub fn fold_seal(
        &mut self,
        id: SegmentId,
        metadata: SegmentMetadata,
        repacked_from: Option<SegmentId>,
        now: u64,
    ) -> (r: Result<(), TransitionError>)
        ensures
            r == seal_outcome(entry_at(old(self)@, id, now)),
            final(self)@ == after_seal(old(self)@, id, metadata@, repacked_from, now),
            final(self).grace() == old(self).grace(),
    {
        self.seal_with(id, metadata, repacked_from, now)
    }

    /// Applies a deletion whose durable write succeeded.
    pub fn fold_delete(&mut self, id: SegmentId, now: u64) -> (r: Result<(), TransitionError>)
        requires
            now + old(self).grace() <= u64::MAX,
        ensures
            r == delete_outcome(entry_at(old(self)@, id, now)),
            final(self)@ == after_delete(old(self)@, id, old(self).grace(), now),
            final(self).grace() == old(self).grace(),
    {
        self.delete(id, now)
    }
}

/// The entries after the seal of a segment's frozen data was queued.
pub open spec fn after_queued(m: Entries, id: SegmentId) -> Entries {
    if m.contains_key(id) && m[id].in_flight is Some {
        m.insert(id, EntryView { seal_queued: true, ..m[id] })
    } else {
        m
    }
}

/// The entries after the seal of a segment's frozen data could not be queued.
pub open spec fn after_unqueued(m: Entries, id: SegmentId) -> Entries {
    if m.contains_key(id) {
        m.insert(id, EntryView { seal_queued: false, ..m[id] })
    } else {
        m
    }
}

/// The entries after a reservation was dropped.
pub open spec fn after_drop(m: Entries, id: SegmentId) -> Entries {
    if m.contains_key(id) && m[id].state == SegmentState::Reserved {
        m.remove(id)
    } else {
        m
    }
}

/// The entries after attaching frozen data.
pub open spec fn after_attach(
    m: Entries,
    id: SegmentId,
    tier: SizeTier,
    ec_k: u8,
    ec_m: u8,
    data: Seq<u8>,
) -> Entries {
    if !m.contains_key(id) {
        m.insert(
            id,
            EntryView {
                in_flight: Some(data),
                seal_queued: true,
                ..EntryView::fresh(
                    SegmentState::Reserved,
                    reserved_metadata(id, tier, ec_k, ec_m),
                )
            },
        )
    } else if m[id].state == SegmentState::Reserved {
        m.insert(id, EntryView { in_flight: Some(data), seal_queued: true, ..m[id] })
    } else {
        m
    }
}

/// The entries after seeding one.
pub open spec fn after_seed(m: Entries, id: SegmentId, entry: EntryView, now: u64) -> Entries {
    let live = evicted(m, now);
    if live.contains_key(id) {
        live
    } else {
        live.insert(id, entry)
    }
}

/// The segment is reserved or sealed.
pub open spec fn is_live(m: Entries, id: SegmentId) -> bool {
    m.contains_key(id) && m[id].state != SegmentState::Deleted
}

/// What is counted.
#[derive(Clone, Copy, Debug, PartialEq, Eq, Structural)]
pub enum Counted {
    /// Reserved and sealed entries.
    Live,
    /// Entries with frozen data in flight.
    InFlight,
    /// Entries with frozen data in flight whose seal is not queued.
    InFlightUnqueued,
}

impl Counted {
    /// The entry counts.
    pub open spec fn holds(self, e: EntryView) -> bool {
        match self {
            Counted::Live => e.state != SegmentState::Deleted,
            Counted::InFlight => e.in_flight is Some,
            Counted::InFlightUnqueued => e.in_flight is Some && !e.seal_queued,
        }
    }

    fn check(&self, e: &LifecycleEntry) -> (r: bool)
        ensures
            r == self.holds(e@),
    {
        match self {
            Counted::Live => match e.state {
                SegmentState::Deleted => false,
                _ => true,
            },
            Counted::InFlight => e.in_flight.is_some(),
            Counted::InFlightUnqueued => e.in_flight.is_some() && !e.seal_queued,
        }
    }
}

/// The segments whose entries count.
pub open spec fn ids_where(m: Entries, what: Counted) -> Set<SegmentId> {
    Set::new(|id: SegmentId| m.contains_key(id) && what.holds(m[id]))
}

/// The view of a list of entries.
pub open spec fn listing_view(s: Seq<(SegmentId, LifecycleEntry)>) -> Seq<(SegmentId, EntryView)> {
    s.map_values(|p: (SegmentId, LifecycleEntry)| (p.0, p.1@))
}

/// `s` lists the live entries of `m` in order of their identifiers.
pub open spec fn is_live_listing(m: Entries, s: Seq<(SegmentId, EntryView)>) -> bool {
    &&& forall|i: int, j: int|
        0 <= i < j < s.len() ==> (#[trigger] s[i]).0.bits < (#[trigger] s[j]).0.bits
    &&& forall|i: int|
        0 <= i < s.len() ==> is_live(m, (#[trigger] s[i]).0) && m[s[i].0] == s[i].1
    &&& forall|id: SegmentId| #[trigger]
        is_live(m, id) ==> exists|i: int| 0 <= i < s.len() && (#[trigger] s[i]).0 == id
}

/// The view of [`SegmentReadSource`].
pub enum SourceView {
    ActiveSlot,
    InFlight(Seq<u8>),
    Sealed,
    Missing,
}

/// The view of a read source.
pub open spec fn source_view(source: SegmentReadSource) -> SourceView {
    match source {
        SegmentReadSource::ActiveSlot => SourceView::ActiveSlot,
        SegmentReadSource::InFlight(b) => SourceView::InFlight(bytes_contents(b)),
        SegmentReadSource::Sealed => SourceView::Sealed,
        SegmentReadSource::Missing => SourceView::Missing,
    }
}

/// Where the data of a segment with the given entry is read from.
pub open spec fn read_source_of(entry: Option<EntryView>) -> SourceView {
    match entry {
        None => SourceView::Missing,
        Some(e) => if e.state == SegmentState::Deleted {
            SourceView::Missing
        } else if e.in_flight is Some {
            SourceView::InFlight(e.in_flight->0)
        } else if e.state == SegmentState::Sealed {
            SourceView::Sealed
        } else {
            SourceView::ActiveSlot
        },
    }
}

/// The data entry at `pos` of a segment with this entry is garbage: the
/// segment is deleted, or it is sealed and its last recorded entry lies at or
/// after `pos`.
pub open spec fn garbage(entry: EntryView, pos: DataWalPos) -> bool {
    match entry.state {
        SegmentState::Deleted => true,
        SegmentState::Sealed => match entry.data_wal_pos {
            Some(p) => p.at_or_after(pos),
            None => false,
        },
        SegmentState::Reserved => false,
    }
}

/// Whether the data entry at `pos` of a segment is garbage.
///
/// Entries of a reserved segment never are: the log is their only durable
/// copy. A sealed segment without a recorded position has nothing to sweep.
pub fn entry_is_garbage(entry: &LifecycleEntry, pos: &DataWalPos) -> (r: bool)
    ensures
        r == garbage(entry@, *pos),
{
    match entry.state {
        SegmentState::Deleted => true,
        SegmentState::Sealed => match &entry.data_wal_pos {
            Some(p) => p.is_at_or_after(pos),
            None => false,
        },
        SegmentState::Reserved => false,
    }
}

} // verus!
