//! The data-log pass of recovery.
//!
//! After the fold, a segment may be reserved and not sealed. When its data
//! file is complete, the file is adopted. Else its entries in the data log are
//! replayed and the segment is sealed again. A reserved segment with neither
//! is dropped. All other entries of the data log are swept.

use crate::buf::bytes_contents;
use crate::header::{parse_header, SegmentHeader};
use crate::lifecycle::{
    is_live, is_live_listing, listing_view, Entries, EntryView, SegmentLifecycleRegistry,
    SegmentState,
};
use crate::types::{DataWalPos, SegmentId, SizeTier};
use bytes::Bytes;
use std::collections::{BTreeMap, BTreeSet};
use vstd::prelude::*;
use vstd::std_specs::cmp::OrdSpec;
use vstd::std_specs::iter::IteratorSpec;

verus! {

/// Where the data section of a segment file lies; `None` when the file has no
/// header or is cut short before the end of its data.
pub open spec fn data_section(raw: Seq<u8>) -> Option<(int, int)> {
    match parse_header(raw) {
        None => None,
        Some(h) => if h.on_disk_size() + h.size <= raw.len() {
            Some((h.on_disk_size(), h.on_disk_size() + h.size))
        } else {
            None
        },
    }
}

/// Where the data section of a segment file lies, if all of it is there.
pub fn find_data_section(raw: &[u8]) -> (section: Option<(usize, usize)>)
    ensures
        match section {
            Some((from, to)) => data_section(raw@) == Some((from as int, to as int)) && from <= to
                <= raw@.len(),
            None => data_section(raw@) is None,
        },
{
    match SegmentHeader::from_bytes(raw) {
        None => None,
        Some(h) => {
            let from: usize = h.serialized_size();
            let n: usize = raw.len();
            if from as u128 + h.size as u128 <= n as u128 {
                Some((from, from + h.size as usize))
            } else {
                None
            }
        },
    }
}

/// The bytes of a list of chunks.
pub open spec fn chunks_view(chunks: Seq<Bytes>) -> Seq<Seq<u8>> {
    chunks.map_values(|b: Bytes| bytes_contents(b))
}

/// The data of one segment to replay, chunk by chunk in log order.
#[derive(Debug)]
pub struct ReplayGroup {
    /// The segment.
    pub segment_id: SegmentId,
    /// Its tier.
    pub tier: SizeTier,
    /// Its chunks.
    pub chunks: Vec<Bytes>,
}

/// What becomes of a data entry.
#[derive(Clone, Copy, Debug, PartialEq, Eq, Structural)]
pub enum EntryFate {
    /// It is kept for the replay of its segment.
    Replayed,
    /// It is passed over.
    Swept,
}

/// What becomes of the data file of a reserved segment.
#[derive(Clone, Copy, Debug, PartialEq, Eq, Structural)]
pub enum DatFate {
    /// It is complete: the segment is sealed with it.
    Adopt,
    /// It was interrupted: it is removed, and the segment is replayed.
    Remove,
}

/// The running state of the pass.
pub struct DataWalPass {
    reserved: BTreeMap<u128, SizeTier>,
    adopted: BTreeSet<u128>,
    groups: BTreeMap<u128, Vec<Bytes>>,
    last: BTreeMap<u128, DataWalPos>,
    swept: u64,
}

/// The mathematical view of [`DataWalPass`].
#[verifier::ext_equal]
pub struct PassView {
    /// The reserved segments and their tiers.
    pub reserved: Map<u128, SizeTier>,
    /// The reserved segments whose data file is adopted.
    pub adopted: Set<u128>,
    /// The data to replay, by segment.
    pub groups: Map<u128, Seq<Seq<u8>>>,
    /// The last position seen of each reserved segment.
    pub last: Map<u128, DataWalPos>,
    /// Number of swept entries.
    pub swept: nat,
}

/// An entry of the data log.
pub struct DataEntryView {
    pub pos: DataWalPos,
    pub id: SegmentId,
    pub data: Seq<u8>,
}

impl PassView {
    /// Everything that is kept belongs to a reserved segment, and what is
    /// replayed to one that is not adopted and that was seen.
    pub open spec fn wf(self) -> bool {
        &&& forall|id: u128| #[trigger]
            self.adopted.contains(id) ==> self.reserved.contains_key(id)
        &&& forall|id: u128| #[trigger]
            self.groups.contains_key(id) ==> self.last.contains_key(id) && !self.adopted.contains(
                id,
            )
        &&& forall|id: u128| #[trigger]
            self.last.contains_key(id) ==> self.reserved.contains_key(id) && (self.adopted.contains(
                id,
            ) || self.groups.contains_key(id))
    }

    /// What becomes of an entry of the given segment.
    pub open spec fn fate(self, id: SegmentId) -> EntryFate {
        if self.reserved.contains_key(id.bits) && !self.adopted.contains(id.bits) {
            EntryFate::Replayed
        } else {
            EntryFate::Swept
        }
    }

    /// The state after the data file of a segment was judged, and its fate.
    pub open spec fn probed(self, id: SegmentId, raw: Seq<u8>) -> (PassView, DatFate) {
        if data_section(raw) is Some {
            (
                PassView {
                    adopted: if self.reserved.contains_key(id.bits) {
                        self.adopted.insert(id.bits)
                    } else {
                        self.adopted
                    },
                    ..self
                },
                DatFate::Adopt,
            )
        } else {
            (self, DatFate::Remove)
        }
    }

    /// The data kept so far for the replay of a segment.
    pub open spec fn group(self, id: u128) -> Seq<Seq<u8>> {
        if self.groups.contains_key(id) {
            self.groups[id]
        } else {
            Seq::empty()
        }
    }

    /// The state after one entry.
    pub open spec fn step(self, e: DataEntryView) -> PassView {
        let last = if self.reserved.contains_key(e.id.bits) {
            self.last.insert(e.id.bits, e.pos)
        } else {
            self.last
        };
        match self.fate(e.id) {
            EntryFate::Replayed => PassView {
                groups: self.groups.insert(e.id.bits, self.group(e.id.bits).push(e.data)),
                last,
                ..self
            },
            EntryFate::Swept => PassView { last, swept: self.swept + 1, ..self },
        }
    }

    /// The state after a run of entries.
    pub open spec fn steps(self, entries: Seq<DataEntryView>) -> PassView
        decreases entries.len(),
    {
        if entries.len() == 0 {
            self
        } else {
            self.steps(entries.drop_last()).step(entries.last())
        }
    }
}

impl View for DataWalPass {
    type V = PassView;

    closed spec fn view(&self) -> PassView {
        PassView {
            reserved: self.reserved@,
            adopted: self.adopted@,
            groups: Map::new(
                |id: u128| self.groups@.contains_key(id),
                |id: u128| chunks_view(self.groups@[id]@),
            ),
            last: self.last@,
            swept: self.swept as nat,
        }
    }
}

/// The segment is reserved.
pub open spec fn is_reserved(m: Entries, id: SegmentId) -> bool {
    m.contains_key(id) && m[id].state == SegmentState::Reserved
}

/// The reserved segments of a registry and their tiers.
pub open spec fn reserved_tiers(m: Entries) -> Map<u128, SizeTier> {
    Map::new(
        |id: u128| is_reserved(m, SegmentId { bits: id }),
        |id: u128| m[SegmentId { bits: id }].metadata.size_tier,
    )
}

/// The entries after recording the last data positions: a reserved segment
/// takes the one that the pass has seen of it.
pub open spec fn after_positions(m: Entries, last: Map<u128, DataWalPos>) -> Entries {
    Map::new(
        |id: SegmentId| m.contains_key(id),
        |id: SegmentId|
            if is_reserved(m, id) && last.contains_key(id.bits) {
                EntryView { data_wal_pos: Some(last[id.bits]), ..m[id] }
            } else {
                m[id]
            },
    )
}

/// A reserved segment of which the pass has seen no entry, and whose data file
/// is not adopted.
pub open spec fn is_empty_reserve(m: Entries, pass: PassView, id: SegmentId) -> bool {
    is_reserved(m, id) && !pass.last.contains_key(id.bits) && !pass.adopted.contains(id.bits)
}

/// The empty reserves.
pub open spec fn empty_reserves(m: Entries, pass: PassView) -> Set<SegmentId> {
    Set::new(|id: SegmentId| is_empty_reserve(m, pass, id))
}

/// The entries without the empty reserves.
pub open spec fn without_empty_reserves(m: Entries, pass: PassView) -> Entries {
    Map::new(
        |id: SegmentId| m.contains_key(id) && !is_empty_reserve(m, pass, id),
        |id: SegmentId| m[id],
    )
}

impl DataWalPass {
    /// Starts a pass for the reserved segments of a registry.
    pub fn new(registry: &SegmentLifecycleRegistry) -> (pass: Self)
        ensures
            pass@.reserved == reserved_tiers(registry@),
            pass@.adopted == Set::<u128>::empty(),
            pass@.groups == Map::<u128, Seq<Seq<u8>>>::empty(),
            pass@.last == Map::<u128, DataWalPos>::empty(),
            pass@.swept == 0,
            pass@.wf(),
    {
        let live = registry.for_each();
        let ghost s = listing_view(live@);
        let mut reserved: BTreeMap<u128, SizeTier> = BTreeMap::new();
        let n: usize = live.len();
        let mut i: usize = 0;
        while i < n
            invariant
                i <= n == live@.len(),
                s == listing_view(live@),
                is_live_listing(registry@, s),
                forall|id: u128| #[trigger]
                    reserved@.contains_key(id) ==> is_reserved(registry@, SegmentId { bits: id })
                        && reserved@[id] == registry@[SegmentId { bits: id }].metadata.size_tier,
                forall|k: int|
                    0 <= k < i && is_reserved(registry@, (#[trigger] s[k]).0)
                        ==> reserved@.contains_key(s[k].0.bits),
            decreases n - i,
        {
            let (id, entry) = &live[i];
            assert(s[i as int] == (*id, entry@));
            match entry.state {
                SegmentState::Reserved => {
                    reserved.insert(id.bits, entry.metadata.size_tier);
                },
                _ => {},
            }
            i = i + 1;
        }
        proof {
            assert forall|id: u128| is_reserved(
                registry@,
                SegmentId { bits: id },
            ) implies #[trigger] reserved@.contains_key(id) by {
                let sid = SegmentId { bits: id };
                assert(is_live(registry@, sid));
                let k = choose|k: int| 0 <= k < s.len() && (#[trigger] s[k]).0 == sid;
                assert(is_reserved(registry@, s[k].0));
            }
            assert(reserved@ =~= reserved_tiers(registry@));
        }
        let pass = DataWalPass {
            reserved,
            adopted: BTreeSet::new(),
            groups: BTreeMap::new(),
            last: BTreeMap::new(),
            swept: 0,
        };
        assert(pass@.groups =~= Map::<u128, Seq<Seq<u8>>>::empty());
        pass
    }

    /// Judges the data file of a segment. A complete file of a reserved
    /// segment is adopted.
    pub fn probe_dat(&mut self, id: SegmentId, raw: &[u8]) -> (fate: DatFate)
        ensures
            fate == if data_section(raw@) is Some {
                DatFate::Adopt
            } else {
                DatFate::Remove
            },
            final(self)@ == (PassView {
                adopted: if fate == DatFate::Adopt && old(self)@.reserved.contains_key(id.bits) {
                    old(self)@.adopted.insert(id.bits)
                } else {
                    old(self)@.adopted
                },
                ..old(self)@
            }),
            (final(self)@, fate) == old(self)@.probed(id, raw@),
            old(self)@.wf() && !old(self)@.last.contains_key(id.bits) ==> final(self)@.wf(),
    {
        match find_data_section(raw) {
            Some(_) => {
                if self.reserved.contains_key(&id.bits) {
                    self.adopted.insert(id.bits);
                }
                assert(self@.groups =~= old(self)@.groups);
                DatFate::Adopt
            },
            None => DatFate::Remove,
        }
    }

    /// Takes the next entry of the data log.
    pub fn step(&mut self, pos: DataWalPos, id: SegmentId, data: Bytes) -> (fate: EntryFate)
        requires
            old(self)@.swept < u64::MAX,
        ensures
            fate == old(self)@.fate(id),
            final(self)@ == old(self)@.step(
                DataEntryView { pos, id, data: bytes_contents(data) },
            ),
            old(self)@.wf() ==> final(self)@.wf(),
    {
        let ghost before = self@;
        let ghost e = DataEntryView { pos, id, data: bytes_contents(data) };
        if !self.reserved.contains_key(&id.bits) {
            self.swept = self.swept + 1;
            assert(self@ =~= before.step(e));
            return EntryFate::Swept;
        }
        self.last.insert(id.bits, pos);
        if self.adopted.contains(&id.bits) {
            self.swept = self.swept + 1;
            assert(self@ =~= before.step(e));
            return EntryFate::Swept;
        }
        let mut group: Vec<Bytes> = match self.groups.remove(&id.bits) {
            Some(group) => group,
            None => Vec::new(),
        };
        let ghost kept = group@;
        assert(chunks_view(kept) =~= before.group(id.bits));
        group.push(data);
        assert(chunks_view(group@) =~= chunks_view(kept).push(bytes_contents(data)));
        self.groups.insert(id.bits, group);
        assert(self@.groups =~= before.step(e).groups);
        assert(self@ =~= before.step(e));
        EntryFate::Replayed
    }

    /// Number of swept entries so far.
    pub fn swept_entries(&self) -> (n: u64)
        ensures
            n == self@.swept,
    {
        self.swept
    }

    /// Whether the data file of the segment is adopted.
    pub fn is_adopted(&self, id: SegmentId) -> (r: bool)
        ensures
            r == self@.adopted.contains(id.bits),
    {
        self.adopted.contains(&id.bits)
    }

    /// Records the last data positions in the registry, before any segment is
    /// sealed again.
    pub fn record_positions(&self, registry: &mut SegmentLifecycleRegistry)
        ensures
            final(registry)@ == after_positions(old(registry)@, self@.last),
            final(registry).grace() == old(registry).grace(),
    {
        let live = registry.for_each();
        let ghost m = registry@;
        let ghost s = listing_view(live@);
        let n: usize = live.len();
        let mut i: usize = 0;
        while i < n
            invariant
                i <= n == live@.len(),
                m == old(registry)@,
                registry.grace() == old(registry).grace(),
                s == listing_view(live@),
                is_live_listing(m, s),
                forall|id: SegmentId| #[trigger]
                    registry@.contains_key(id) <==> m.contains_key(id),
                forall|id: SegmentId| #[trigger]
                    registry@.contains_key(id) ==> registry@[id] == after_positions(
                        m,
                        self@.last,
                    )[id] || registry@[id] == m[id],
                forall|k: int|
                    0 <= k < i ==> registry@[(#[trigger] s[k]).0] == after_positions(
                        m,
                        self@.last,
                    )[s[k].0],
                forall|k: int| i <= k < n ==> registry@[(#[trigger] s[k]).0] == m[s[k].0],
            decreases n - i,
        {
            let id = live[i].0;
            assert(s[i as int].0 == id);
            assert(is_live(m, s[i as int].0));
            assert forall|k: int| 0 <= k < n && k != i implies (#[trigger] s[k]).0 != id by {
                if k < i {
                    assert(s[k].0.bits < s[i as int].0.bits);
                } else {
                    assert(s[i as int].0.bits < s[k].0.bits);
                }
            }
            if let Some(pos) = self.last.get(&id.bits) {
                registry.record_data_wal_pos(id, *pos);
            }
            i = i + 1;
        }
        proof {
            assert forall|id: SegmentId| m.contains_key(id) implies #[trigger] registry@[id]
                == after_positions(m, self@.last)[id] by {
                assert(registry@.contains_key(id));
                if is_live(m, id) {
                    let k = choose|k: int| 0 <= k < s.len() && (#[trigger] s[k]).0 == id;
                    assert(registry@[s[k].0] == after_positions(m, self@.last)[s[k].0]);
                }
            }
            assert(registry@ =~= after_positions(m, self@.last));
        }
    }

    /// Drops the reserved segments that have neither a data entry nor an
    /// adopted data file, and counts them.
    pub fn drop_empty_reserves(&self, registry: &mut SegmentLifecycleRegistry) -> (dropped: usize)
        ensures
            final(registry)@ == without_empty_reserves(old(registry)@, self@),
            final(registry).grace() == old(registry).grace(),
            dropped == empty_reserves(old(registry)@, self@).len(),
    {
        let live = registry.for_each();
        let ghost m = registry@;
        let ghost s = listing_view(live@);
        let n: usize = live.len();
        let mut i: usize = 0;
        let mut dropped: usize = 0;
        let ghost mut gone: Set<SegmentId> = Set::empty();
        while i < n
            invariant
                i <= n == live@.len(),
                m == old(registry)@,
                registry.grace() == old(registry).grace(),
                s == listing_view(live@),
                is_live_listing(m, s),
                gone.finite(),
                dropped == gone.len(),
                dropped <= i,
                forall|id: SegmentId| #[trigger]
                    gone.contains(id) ==> is_empty_reserve(m, self@, id) && exists|k: int|
                        0 <= k < i && (#[trigger] s[k]).0 == id,
                forall|k: int|
                    0 <= k < i && is_empty_reserve(m, self@, (#[trigger] s[k]).0) ==> gone.contains(
                        s[k].0,
                    ),
                forall|id: SegmentId| #[trigger]
                    registry@.contains_key(id) <==> m.contains_key(id) && !gone.contains(id),
                forall|id: SegmentId| #[trigger]
                    registry@.contains_key(id) ==> registry@[id] == m[id],
            decreases n - i,
        {
            let (id, entry) = &live[i];
            assert(s[i as int] == (*id, entry@));
            assert(is_live(m, s[i as int].0));
            let ghost before = gone;
            assert(!gone.contains(*id)) by {
                if gone.contains(*id) {
                    let k = choose|k: int| 0 <= k < i && (#[trigger] s[k]).0 == *id;
                    assert(s[k].0.bits < s[i as int].0.bits);
                }
            }
            let reserved = match entry.state {
                SegmentState::Reserved => true,
                _ => false,
            };
            if reserved && !self.last.contains_key(&id.bits) && !self.adopted.contains(&id.bits) {
                registry.drop_reserve(*id);
                dropped = dropped + 1;
                proof {
                    gone = gone.insert(*id);
                    assert(s[i as int].0 == *id);
                }
            }
            i = i + 1;
            proof {
                assert forall|x: SegmentId| #[trigger] gone.contains(x) implies exists|k: int|
                    0 <= k < i && (#[trigger] s[k]).0 == x by {
                    if before.contains(x) {
                        let k = choose|k: int| 0 <= k < i - 1 && (#[trigger] s[k]).0 == x;
                        assert(s[k].0 == x);
                    } else {
                        assert(s[i - 1].0 == x);
                    }
                }
            }
        }
        proof {
            assert forall|id: SegmentId| #[trigger] gone.contains(id) <==> empty_reserves(
                m,
                self@,
            ).contains(id) by {
                if is_empty_reserve(m, self@, id) {
                    assert(is_live(m, id));
                    let k = choose|k: int| 0 <= k < s.len() && (#[trigger] s[k]).0 == id;
                    assert(is_empty_reserve(m, self@, s[k].0));
                }
            }
            assert(gone =~= empty_reserves(m, self@));
            assert(registry@ =~= without_empty_reserves(m, self@));
        }
        dropped
    }

    /// The reserved segments, in order of their identifiers.
    fn reserved_ids(&self) -> (ids: Vec<SegmentId>)
        ensures
            forall|i: int, j: int|
                0 <= i < j < ids@.len() ==> (#[trigger] ids@[i]).bits < (#[trigger] ids@[j]).bits,
            forall|i: int|
                0 <= i < ids@.len() ==> self@.reserved.contains_key((#[trigger] ids@[i]).bits),
            forall|id: SegmentId|
                self@.reserved.contains_key(id.bits) ==> #[trigger] ids@.contains(id),
    {
        broadcast use vstd::laws_cmp::group_laws_cmp;

        let mut ids: Vec<SegmentId> = Vec::new();
        let ghost all = vstd::std_specs::btree::spec_btree_map_iter(&self.reserved).remaining();
        let ghost keys = all.map_values(|kv: (&u128, &SizeTier)| *kv.0);
        for kv in it: self.reserved.iter()
            invariant
                ids@.len() == it.index(),
                it.seq() == all,
                keys == all.map_values(|kv: (&u128, &SizeTier)| *kv.0),
                vstd::std_specs::btree::increasing_seq(keys),
                forall|i: int| 0 <= i < ids@.len() ==> (#[trigger] ids@[i]).bits == keys[i],
        {
            ids.push(SegmentId { bits: *kv.0 });
        }
        proof {
            assert forall|i: int, j: int| 0 <= i < j < ids@.len() implies (#[trigger] ids@[i]).bits
                < (#[trigger] ids@[j]).bits by {
                assert(keys[i].cmp_spec(&keys[j]) is Less);
            }
            assert forall|i: int| 0 <= i < ids@.len() implies self@.reserved.contains_key(
                (#[trigger] ids@[i]).bits,
            ) by {
                assert(self.reserved@.contains_key(*all[i].0));
            }
            assert forall|id: SegmentId| self@.reserved.contains_key(
                id.bits,
            ) implies #[trigger] ids@.contains(id) by {
                assert(all.contains((&id.bits, &self.reserved@[id.bits])));
                let i = choose|i: int|
                    0 <= i < all.len() && all[i] == (&id.bits, &self.reserved@[id.bits]);
                assert(ids@[i] == id);
            }
        }
        ids
    }

    /// The reserved segments, for the caller to look for their data files.
    pub fn reserved(&self) -> (ids: Vec<SegmentId>)
        ensures
            forall|id: SegmentId| #[trigger]
                ids@.contains(id) <==> self@.reserved.contains_key(id.bits),
            ids@.no_duplicates(),
    {
        let ids = self.reserved_ids();
        proof {
            assert forall|id: SegmentId| #[trigger] ids@.contains(
                id,
            ) implies self@.reserved.contains_key(id.bits) by {
                let i = choose|i: int| 0 <= i < ids@.len() && ids@[i] == id;
                assert(self@.reserved.contains_key(ids@[i].bits));
            }
            assert forall|i: int, j: int|
                0 <= i < ids@.len() && 0 <= j < ids@.len() && i != j implies ids@[i] != ids@[j] by {
                if i < j {
                    assert(ids@[i].bits < ids@[j].bits);
                } else {
                    assert(ids@[j].bits < ids@[i].bits);
                }
            }
        }
        ids
    }

    /// Takes out the data to replay, in order of the segments' identifiers.
    pub fn take_groups(&mut self) -> (groups: Vec<ReplayGroup>)
        requires
            old(self)@.wf(),
        ensures
            final(self)@ == (PassView { groups: Map::empty(), ..old(self)@ }),
            forall|i: int, j: int|
                0 <= i < j < groups@.len() ==> (#[trigger] groups@[i]).segment_id.bits < (
                #[trigger] groups@[j]).segment_id.bits,
            forall|i: int|
                0 <= i < groups@.len() ==> is_group_of(old(self)@, #[trigger] groups@[i]),
            forall|id: u128| #[trigger]
                old(self)@.groups.contains_key(id) ==> exists|i: int|
                    0 <= i < groups@.len() && (#[trigger] groups@[i]).segment_id.bits == id,
    {
        let ids = self.reserved_ids();
        let ghost before = self@;
        let mut out: Vec<ReplayGroup> = Vec::new();
        let n: usize = ids.len();
        let mut i: usize = 0;
        while i < n
            invariant
                i <= n == ids@.len(),
                before == old(self)@,
                before.wf(),
                self@.reserved == before.reserved,
                self@.adopted == before.adopted,
                self@.last == before.last,
                self@.swept == before.swept,
                forall|a: int, b: int|
                    0 <= a < b < ids@.len() ==> (#[trigger] ids@[a]).bits < (
                    #[trigger] ids@[b]).bits,
                forall|a: int|
                    0 <= a < ids@.len() ==> before.reserved.contains_key((#[trigger] ids@[a]).bits),
                forall|id: u128| #[trigger]
                    self@.groups.contains_key(id) ==> before.groups.contains_key(id)
                        && self@.groups[id] == before.groups[id],
                forall|k: int| 0 <= k < i ==> !self@.groups.contains_key((#[trigger] ids@[k]).bits),
                forall|k: int|
                    i <= k < n && before.groups.contains_key((#[trigger] ids@[k]).bits)
                        ==> self@.groups.contains_key(ids@[k].bits),
                forall|a: int|
                    0 <= a < out@.len() ==> is_group_of(before, #[trigger] out@[a]) && exists|k: int|
                        0 <= k < i && (#[trigger] ids@[k]) == out@[a].segment_id,
                forall|a: int, b: int|
                    0 <= a < b < out@.len() ==> (#[trigger] out@[a]).segment_id.bits < (
                    #[trigger] out@[b]).segment_id.bits,
                forall|k: int|
                    0 <= k < i && before.groups.contains_key((#[trigger] ids@[k]).bits) ==> exists|
                        a: int,
                    |
                        0 <= a < out@.len() && (#[trigger] out@[a]).segment_id == ids@[k],
            decreases n - i,
        {
            let id = ids[i];
            let ghost state = self@;
            let ghost list = out@;
            let tier = match self.reserved.get(&id.bits) {
                Some(tier) => *tier,
                None => SizeTier::Standard,
            };
            let taken = self.groups.remove(&id.bits);
            assert(self@.groups =~= state.groups.remove(id.bits));
            assert forall|k: int| 0 <= k < n && k != i implies (#[trigger] ids@[k]).bits != id.bits by {
                if k < i {
                    assert(ids@[k].bits < ids@[i as int].bits);
                } else {
                    assert(ids@[i as int].bits < ids@[k].bits);
                }
            }
            if let Some(chunks) = taken {
                out.push(ReplayGroup { segment_id: id, tier, chunks });
                proof {
                    assert(out@[list.len() as int].segment_id == ids@[i as int]);
                    assert forall|a: int| 0 <= a < list.len() implies (
                    #[trigger] list[a]).segment_id.bits < id.bits by {
                        assert(is_group_of(before, list[a]));
                        let k = choose|k: int|
                            0 <= k < i && (#[trigger] ids@[k]) == list[a].segment_id;
                        assert(ids@[k].bits < ids@[i as int].bits);
                    }
                    assert forall|a: int| 0 <= a < out@.len() implies is_group_of(
                        before,
                        #[trigger] out@[a],
                    ) && exists|k: int| 0 <= k < i + 1 && (#[trigger] ids@[k])
                        == out@[a].segment_id by {
                        if a < list.len() {
                            assert(out@[a] == list[a]);
                            let k = choose|k: int|
                                0 <= k < i && (#[trigger] ids@[k]) == list[a].segment_id;
                            assert(ids@[k] == out@[a].segment_id);
                        }
                    }
                    assert forall|k: int| 0 <= k < i && before.groups.contains_key(
                        (#[trigger] ids@[k]).bits,
                    ) implies exists|a: int|
                        0 <= a < out@.len() && (#[trigger] out@[a]).segment_id == ids@[k] by {
                        let a = choose|a: int|
                            0 <= a < list.len() && (#[trigger] list[a]).segment_id == ids@[k];
                        assert(out@[a] == list[a]);
                    }
                }
            }
            i = i + 1;
        }
        proof {
            assert forall|id: u128| before.groups.contains_key(id) implies exists|a: int|
                0 <= a < out@.len() && (#[trigger] out@[a]).segment_id.bits == id by {
                let sid = SegmentId { bits: id };
                assert(ids@.contains(sid));
                let k = choose|k: int| 0 <= k < ids@.len() && ids@[k] == sid;
                assert(before.groups.contains_key(ids@[k].bits));
                let a = choose|a: int|
                    0 <= a < out@.len() && (#[trigger] out@[a]).segment_id == ids@[k];
                assert(out@[a].segment_id.bits == id);
            }
            assert forall|id: u128| !(#[trigger] self@.groups.contains_key(id)) by {
                if self@.groups.contains_key(id) {
                    let sid = SegmentId { bits: id };
                    assert(before.last.contains_key(id));
                    assert(ids@.contains(sid));
                    let k = choose|k: int| 0 <= k < ids@.len() && ids@[k] == sid;
                    assert(!self@.groups.contains_key(ids@[k].bits));
                }
            }
            assert(self@.groups =~= Map::<u128, Seq<Seq<u8>>>::empty());
            assert(self@ =~= (PassView { groups: Map::empty(), ..before }));
        }
        out
    }

    /// Number of segments that are replayed: seen in the data log and not
    /// adopted.
    pub fn replayed_count(&self) -> (n: usize)
        requires
            self@.last.dom().subset_of(self@.reserved.dom()),
        ensures
            n == replayed(self@).len(),
    {
        let ids = self.reserved_ids();
        let len: usize = ids.len();
        let mut n: usize = 0;
        let mut i: usize = 0;
        let ghost mut found: Set<u128> = Set::empty();
        while i < len
            invariant
                i <= len == ids@.len(),
                n <= i,
                found.finite(),
                n == found.len(),
                forall|a: int, b: int|
                    0 <= a < b < ids@.len() ==> (#[trigger] ids@[a]).bits < (
                    #[trigger] ids@[b]).bits,
                forall|id: u128| #[trigger]
                    found.contains(id) ==> replayed(self@).contains(id) && exists|k: int|
                        0 <= k < i && (#[trigger] ids@[k]).bits == id,
                forall|k: int|
                    0 <= k < i && replayed(self@).contains((#[trigger] ids@[k]).bits)
                        ==> found.contains(ids@[k].bits),
            decreases len - i,
        {
            let id = ids[i];
            if self.last.contains_key(&id.bits) && !self.adopted.contains(&id.bits) {
                proof {
                    if found.contains(id.bits) {
                        let k = choose|k: int| 0 <= k < i && (#[trigger] ids@[k]).bits == id.bits;
                        assert(ids@[k].bits < ids@[i as int].bits);
                    }
                    let before = found;
                    found = found.insert(id.bits);
                    assert forall|x: u128| #[trigger] found.contains(x) implies exists|k: int|
                        0 <= k < i + 1 && (#[trigger] ids@[k]).bits == x by {
                        if before.contains(x) {
                            let k = choose|k: int| 0 <= k < i && (#[trigger] ids@[k]).bits == x;
                            assert(ids@[k].bits == x);
                        } else {
                            assert(ids@[i as int].bits == x);
                        }
                    }
                }
                n = n + 1;
            }
            i = i + 1;
        }
        proof {
            assert forall|id: u128| #[trigger] replayed(self@).contains(id) implies found.contains(
                id,
            ) by {
                let sid = SegmentId { bits: id };
                assert(self@.last.dom().contains(id));
                assert(ids@.contains(sid));
                let k = choose|k: int| 0 <= k < ids@.len() && ids@[k] == sid;
                assert(replayed(self@).contains(ids@[k].bits));
            }
            assert(found =~= replayed(self@));
        }
        n
    }
}

/// The segments that are replayed.
pub open spec fn replayed(pass: PassView) -> Set<u128> {
    Set::new(|id: u128| pass.last.contains_key(id) && !pass.adopted.contains(id))
}

/// `g` is the data that the pass keeps for the replay of a segment.
pub open spec fn is_group_of(pass: PassView, g: ReplayGroup) -> bool {
    &&& pass.groups.contains_key(g.segment_id.bits)
    &&& chunks_view(g.chunks@) == pass.groups[g.segment_id.bits]
    &&& g.tier == pass.reserved[g.segment_id.bits]
}

/// The entries of one segment, in log order.
pub open spec fn entries_of(entries: Seq<DataEntryView>, id: u128) -> Seq<Seq<u8>>
    decreases entries.len(),
{
    if entries.len() == 0 {
        Seq::empty()
    } else if entries.last().id.bits == id {
        entries_of(entries.drop_last(), id).push(entries.last().data)
    } else {
        entries_of(entries.drop_last(), id)
    }
}

/// Number of entries that are not replayed.
pub open spec fn not_replayed(pass: PassView, entries: Seq<DataEntryView>) -> nat
    decreases entries.len(),
{
    if entries.len() == 0 {
        0
    } else {
        not_replayed(pass, entries.drop_last()) + if pass.fate(entries.last().id)
            == EntryFate::Swept {
            1nat
        } else {
            0
        }
    }
}

/// A pass over a data log keeps, for each segment to replay, exactly its
/// entries in log order, and sweeps exactly the others.
pub proof fn law_pass_keeps_what_is_replayed(
    start: PassView,
    entries: Seq<DataEntryView>,
    id: SegmentId,
)
    requires
        start.groups == Map::<u128, Seq<Seq<u8>>>::empty(),
    ensures
        start.steps(entries).reserved == start.reserved,
        start.steps(entries).adopted == start.adopted,
        start.fate(id) == EntryFate::Replayed ==> start.steps(entries).group(id.bits) == entries_of(
            entries,
            id.bits,
        ),
        start.fate(id) == EntryFate::Swept ==> start.steps(entries).group(id.bits).len() == 0,
        start.steps(entries).swept == start.swept + not_replayed(start, entries),
    decreases entries.len(),
{
    if entries.len() > 0 {
        law_pass_keeps_what_is_replayed(start, entries.drop_last(), id);
    }
}

/// The last position of a reserved segment is that of its last entry.
pub proof fn law_last_position(start: PassView, entries: Seq<DataEntryView>, e: DataEntryView, rest: Seq<DataEntryView>)
    requires
        start.reserved.contains_key(e.id.bits),
        forall|i: int| 0 <= i < rest.len() ==> (#[trigger] rest[i]).id != e.id,
    ensures
        start.steps(entries.push(e) + rest).last.contains_key(e.id.bits),
        start.steps(entries.push(e) + rest).last[e.id.bits] == e.pos,
        start.steps(entries.push(e) + rest).reserved == start.reserved,
    decreases rest.len(),
{
    let all = entries.push(e) + rest;
    if rest.len() == 0 {
        assert(all =~= entries.push(e));
        assert(all.drop_last() =~= entries);
        lemma_steps_reserved(start, entries);
    } else {
        let front = rest.drop_last();
        assert forall|i: int| 0 <= i < front.len() implies (#[trigger] front[i]).id != e.id by {
            assert(front[i] == rest[i]);
        }
        assert(all.drop_last() =~= entries.push(e) + front);
        law_last_position(start, entries, e, front);
        assert(rest[rest.len() - 1].id != e.id);
        assert(rest.last().id.bits != e.id.bits);
    }
}

proof fn lemma_steps_reserved(start: PassView, entries: Seq<DataEntryView>)
    ensures
        start.steps(entries).reserved == start.reserved,
    decreases entries.len(),
{
    if entries.len() > 0 {
        lemma_steps_reserved(start, entries.drop_last());
    }
}

} // verus!
