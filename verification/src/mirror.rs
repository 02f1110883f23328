//! The check of the mirror against the folded registry.
//!
//! The mirror is written after the event, so that a crash leaves it behind the
//! registry: what it lacks is put, what it still holds of a deleted or dropped
//! segment is removed. It is never ahead: where it says sealed and the registry
//! says reserved, or holds a sealed segment that the registry lacks and has not
//! deleted, something is wrong.

use crate::coordinator::{MirrorView, MirrorWrite, SegmentLifecycleCoordinator};
use crate::error::{Error, MirrorFault};
use crate::lifecycle::{
    entry_at, is_live, is_live_listing, listing_view, Entries, EntryView, LifecycleEntry,
    SegmentState,
};
use crate::lifecycle_laws::law_live_listing_unique;
use crate::seal_batch::metas_view;
use crate::types::{MetadataView, SegmentId, SegmentMetadata};
use vstd::prelude::*;

verus! {

/// What the check of the mirror found.
#[derive(Debug)]
pub struct MirrorCheck {
    /// The writes that bring the mirror up to date, in order.
    pub repairs: Vec<MirrorWrite>,
    /// The contradiction that ended the check, if there was one.
    pub fault: Option<Error>,
}

/// The mathematical view of [`MirrorCheck`].
#[verifier::ext_equal]
pub struct CheckView {
    pub repairs: Seq<MirrorView>,
    pub fault: Option<Error>,
}

/// The views of a list of mirror writes.
pub open spec fn repairs_view(repairs: Seq<MirrorWrite>) -> Seq<MirrorView> {
    repairs.map_values(|w: MirrorWrite| w@)
}

impl View for MirrorCheck {
    type V = CheckView;

    open spec fn view(&self) -> CheckView {
        CheckView { repairs: repairs_view(self.repairs@), fault: self.fault }
    }
}

/// The judgement of one segment.
#[derive(Debug)]
pub enum MirrorVerdict {
    /// The mirror agrees.
    Agrees,
    /// The mirror lags; this write repairs it.
    Lags(MirrorWrite),
    /// The mirror contradicts the registry.
    Contradicts(MirrorFault),
}

/// The mathematical view of [`MirrorVerdict`].
pub enum VerdictView {
    Agrees,
    Lags(MirrorView),
    Contradicts(MirrorFault),
}

impl View for MirrorVerdict {
    type V = VerdictView;

    open spec fn view(&self) -> VerdictView {
        match *self {
            MirrorVerdict::Agrees => VerdictView::Agrees,
            MirrorVerdict::Lags(w) => VerdictView::Lags(w@),
            MirrorVerdict::Contradicts(f) => VerdictView::Contradicts(f),
        }
    }
}

/// What the mirror holds of a segment.
pub open spec fn found_in(mirror: Seq<MetadataView>, id: SegmentId) -> Option<MetadataView>
    decreases mirror.len(),
{
    if mirror.len() == 0 {
        None
    } else if mirror[0].segment_id == id {
        Some(mirror[0])
    } else {
        found_in(mirror.drop_first(), id)
    }
}

/// The judgement of a live segment.
pub open spec fn live_verdict(entry: EntryView, held: Option<MetadataView>) -> VerdictView {
    match held {
        None => VerdictView::Lags(MirrorView::Put(entry.metadata)),
        Some(meta) => if meta.sealed_at is Some && entry.state == SegmentState::Reserved {
            VerdictView::Contradicts(MirrorFault::MirrorSealed)
        } else if meta.sealed_at is None && entry.state == SegmentState::Sealed {
            VerdictView::Lags(MirrorView::Put(entry.metadata))
        } else {
            VerdictView::Agrees
        },
    }
}

/// The judgement of a segment that the mirror holds: it is live, or the mirror
/// has missed its deletion, or its reservation was dropped.
pub open spec fn held_verdict(entry: Option<EntryView>, deleted: bool, meta: MetadataView)
    -> VerdictView {
    match entry {
        Some(e) => if e.state == SegmentState::Deleted {
            VerdictView::Lags(MirrorView::Delete(meta.segment_id))
        } else {
            VerdictView::Agrees
        },
        None => if meta.sealed_at is Some && !deleted {
            VerdictView::Contradicts(MirrorFault::SealedEntryMissing)
        } else {
            VerdictView::Lags(MirrorView::Delete(meta.segment_id))
        },
    }
}

impl CheckView {
    /// The check after the judgement of one more segment; a contradiction ends
    /// it.
    pub open spec fn judged(self, id: SegmentId, v: VerdictView) -> CheckView {
        if self.fault is Some {
            self
        } else {
            match v {
                VerdictView::Agrees => self,
                VerdictView::Lags(w) => CheckView { repairs: self.repairs.push(w), ..self },
                VerdictView::Contradicts(fault) => CheckView {
                    fault: Some(Error::MirrorDivergence { segment_id: id, fault }),
                    ..self
                },
            }
        }
    }
}

/// The check of the live segments.
pub open spec fn check_live(live: Seq<(SegmentId, EntryView)>, mirror: Seq<MetadataView>)
    -> CheckView
    decreases live.len(),
{
    if live.len() == 0 {
        CheckView { repairs: Seq::empty(), fault: None }
    } else {
        let (id, entry) = live.last();
        check_live(live.drop_last(), mirror).judged(id, live_verdict(entry, found_in(mirror, id)))
    }
}

/// The check of what the mirror holds.
pub open spec fn check_held(
    start: CheckView,
    m: Entries,
    deleted: Set<u128>,
    held: Seq<MetadataView>,
    now: u64,
) -> CheckView
    decreases held.len(),
{
    if held.len() == 0 {
        start
    } else {
        let meta = held.last();
        check_held(start, m, deleted, held.drop_last(), now).judged(
            meta.segment_id,
            held_verdict(
                entry_at(m, meta.segment_id, now),
                deleted.contains(meta.segment_id.bits),
                meta,
            ),
        )
    }
}

/// The live entries in order of their identifiers.
pub open spec fn live_listing(m: Entries) -> Seq<(SegmentId, EntryView)> {
    choose|s: Seq<(SegmentId, EntryView)>| is_live_listing(m, s)
}

/// The check of the whole mirror: first the live segments, then what the
/// mirror holds.
pub open spec fn mirror_check(m: Entries, deleted: Set<u128>, mirror: Seq<MetadataView>, now: u64)
    -> CheckView {
    check_held(check_live(live_listing(m), mirror), m, deleted, mirror, now)
}

impl MirrorCheck {
    fn judge(&mut self, id: SegmentId, v: MirrorVerdict)
        ensures
            final(self)@ == old(self)@.judged(id, v@),
    {
        if self.fault.is_some() {
            return;
        }
        match v {
            MirrorVerdict::Agrees => {},
            MirrorVerdict::Lags(w) => {
                let ghost was = self.repairs@;
                self.repairs.push(w);
                assert(repairs_view(self.repairs@) =~= repairs_view(was).push(w@));
            },
            MirrorVerdict::Contradicts(fault) => {
                self.fault = Some(Error::MirrorDivergence { segment_id: id, fault });
            },
        }
    }
}

/// Whether the mirror holds a segment, and if so whether as sealed.
fn find_in_mirror(mirror: &Vec<SegmentMetadata>, id: SegmentId) -> (held: Option<bool>)
    ensures
        held == (match found_in(metas_view(mirror@), id) {
            Some(meta) => Some(meta.sealed_at is Some),
            None => None,
        }),
{
    let ghost all = metas_view(mirror@);
    let n: usize = mirror.len();
    let mut i: usize = 0;
    assert(all.skip(0) =~= all);
    while i < n
        invariant
            i <= n == mirror@.len(),
            all == metas_view(mirror@),
            found_in(all, id) == found_in(all.skip(i as int), id),
        decreases n - i,
    {
        let ghost rest = all.skip(i as int);
        assert(rest[0] == mirror@[i as int]@);
        if mirror[i].segment_id == id {
            return Some(mirror[i].sealed_at.is_some());
        }
        assert(rest.drop_first() =~= all.skip(i + 1));
        i = i + 1;
    }
    None
}

fn judge_live(entry: &LifecycleEntry, held: Option<bool>) -> (v: MirrorVerdict)
    requires
        entry.state != SegmentState::Deleted,
    ensures
        forall|meta: Option<MetadataView>|
            held == (match meta {
                Some(meta) => Some(meta.sealed_at is Some),
                None => None,
            }) ==> v@ == #[trigger] live_verdict(entry@, meta),
{
    let sealed = match entry.state {
        SegmentState::Sealed => true,
        _ => false,
    };
    match held {
        None => MirrorVerdict::Lags(MirrorWrite::Put(entry.metadata.clone())),
        Some(true) => if sealed {
            MirrorVerdict::Agrees
        } else {
            MirrorVerdict::Contradicts(MirrorFault::MirrorSealed)
        },
        Some(false) => if sealed {
            MirrorVerdict::Lags(MirrorWrite::Put(entry.metadata.clone()))
        } else {
            MirrorVerdict::Agrees
        },
    }
}

impl SegmentLifecycleCoordinator {
    fn judge_held(&self, meta: &SegmentMetadata, now: u64) -> (v: MirrorVerdict)
        ensures
            v@ == held_verdict(
                entry_at(self.registry@, meta.segment_id, now),
                self.fold.deleted().contains(meta.segment_id.bits),
                meta@,
            ),
    {
        let id = meta.segment_id;
        match self.registry.get(id, now) {
            Some(e) => match e.state {
                SegmentState::Deleted => MirrorVerdict::Lags(MirrorWrite::Delete(id)),
                _ => MirrorVerdict::Agrees,
            },
            None => if meta.sealed_at.is_some() && !self.fold.has_deleted(id) {
                MirrorVerdict::Contradicts(MirrorFault::SealedEntryMissing)
            } else {
                MirrorVerdict::Lags(MirrorWrite::Delete(id))
            },
        }
    }

    /// Checks the mirror, given what it holds, against the folded registry.
    pub fn verify_and_repair_mirror(&self, mirror: &Vec<SegmentMetadata>, now: u64) -> (check:
        MirrorCheck)
        ensures
            check@ == mirror_check(
                self.registry@,
                self.fold.deleted(),
                metas_view(mirror@),
                now,
            ),
    {
        let live = self.registry.for_each();
        let ghost s = listing_view(live@);
        let ghost held = metas_view(mirror@);
        let mut check = MirrorCheck { repairs: Vec::new(), fault: None };
        assert(check@ =~= check_live(s.take(0), held));
        let n: usize = live.len();
        let mut i: usize = 0;
        while i < n
            invariant
                i <= n == live@.len(),
                s == listing_view(live@),
                is_live_listing(self.registry@, s),
                held == metas_view(mirror@),
                check@ == check_live(s.take(i as int), held),
            decreases n - i,
        {
            let ghost next = s.take(i + 1);
            let (id, entry) = &live[i];
            proof {
                assert(next.drop_last() =~= s.take(i as int));
                assert(s[i as int] == (*id, entry@));
                assert(is_live(self.registry@, s[i as int].0));
                assert(next.last() == (*id, entry@));
            }
            let found = find_in_mirror(mirror, *id);
            let v = judge_live(entry, found);
            check.judge(*id, v);
            i = i + 1;
        }
        assert(s.take(n as int) =~= s);
        proof {
            law_live_listing_unique(self.registry@, s, live_listing(self.registry@));
        }
        let ghost start = check@;
        let m: usize = mirror.len();
        let mut j: usize = 0;
        while j < m
            invariant
                j <= m == mirror@.len(),
                held == metas_view(mirror@),
                check@ == check_held(
                    start,
                    self.registry@,
                    self.fold.deleted(),
                    held.take(j as int),
                    now,
                ),
            decreases m - j,
        {
            let ghost next = held.take(j + 1);
            proof {
                assert(next.drop_last() =~= held.take(j as int));
                assert(next.last() == mirror@[j as int]@);
            }
            let v = self.judge_held(&mirror[j], now);
            check.judge(mirror[j].segment_id, v);
            j = j + 1;
        }
        assert(held.take(m as int) =~= held);
        check
    }
}

/// What the mirror holds, by segment.
pub open spec fn mirror_map(mirror: Seq<MetadataView>) -> Map<SegmentId, MetadataView> {
    Map::new(
        |id: SegmentId| found_in(mirror, id) is Some,
        |id: SegmentId| found_in(mirror, id)->0,
    )
}

/// The mirror after a run of writes.
pub open spec fn written(mirror: Map<SegmentId, MetadataView>, writes: Seq<MirrorView>) -> Map<
    SegmentId,
    MetadataView,
>
    decreases writes.len(),
{
    if writes.len() == 0 {
        mirror
    } else {
        let before = written(mirror, writes.drop_last());
        match writes.last() {
            MirrorView::Put(meta) => before.insert(meta.segment_id, meta),
            MirrorView::Delete(id) => before.remove(id),
        }
    }
}

/// The metadata of each entry is that of its segment, and has a seal time just
/// when the segment is sealed.
pub open spec fn metadata_agrees(m: Entries) -> bool {
    forall|id: SegmentId| #[trigger]
        is_live(m, id) ==> m[id].metadata.segment_id == id && (m[id].metadata.sealed_at is Some
            <==> m[id].state == SegmentState::Sealed)
}

/// A mirror that passes the check holds, after the repairs, just the live
/// segments, each as sealed or reserved as the registry has it.
pub proof fn law_repaired_mirror_agrees(
    m: Entries,
    deleted: Set<u128>,
    mirror: Seq<MetadataView>,
    now: u64,
    id: SegmentId,
)
    requires
        metadata_agrees(m),
        exists|s: Seq<(SegmentId, EntryView)>| is_live_listing(m, s),
        mirror_check(m, deleted, mirror, now).fault is None,
    ensures
        ({
            let after = written(mirror_map(mirror), mirror_check(m, deleted, mirror, now).repairs);
            &&& after.contains_key(id) <==> is_live(m, id)
            &&& is_live(m, id) ==> (after[id].sealed_at is Some <==> m[id].state
                == SegmentState::Sealed)
        }),
{
    let live = live_listing(m);
    let start = check_live(live, mirror);
    lemma_held_repaired(start, m, deleted, mirror, mirror, now, id);
    assert(live.take(live.len() as int) =~= live);
    lemma_live_repaired(m, live, mirror, live.len() as int, id);
    if is_live(m, id) {
        let k = choose|k: int| 0 <= k < live.len() && (#[trigger] live[k]).0 == id;
        assert(live[k].0 == id);
    } else {
        assert forall|k: int| 0 <= k < live.len() implies (#[trigger] live[k]).0 != id by {
            assert(is_live(m, live[k].0));
        }
        if found_in(mirror, id) is Some {
            lemma_found(mirror, id);
        }
    }
}

proof fn lemma_found(mirror: Seq<MetadataView>, id: SegmentId)
    ensures
        match found_in(mirror, id) {
            Some(meta) => meta.segment_id == id && exists|k: int|
                0 <= k < mirror.len() && (#[trigger] mirror[k]) == meta,
            None => forall|k: int| 0 <= k < mirror.len() ==> (#[trigger] mirror[k]).segment_id != id,
        },
    decreases mirror.len(),
{
    if mirror.len() > 0 {
        let rest = mirror.drop_first();
        if mirror[0].segment_id == id {
            assert(mirror[0] == found_in(mirror, id)->0);
        } else {
            lemma_found(rest, id);
            if found_in(rest, id) is Some {
                let k = choose|k: int|
                    0 <= k < rest.len() && (#[trigger] rest[k]) == found_in(rest, id)->0;
                assert(mirror[k + 1] == found_in(rest, id)->0);
            } else {
                assert forall|k: int| 0 <= k < mirror.len() implies (
                #[trigger] mirror[k]).segment_id != id by {
                    if k > 0 {
                        assert(rest[k - 1] == mirror[k]);
                    }
                }
            }
        }
    }
}

proof fn lemma_live_repaired(
    m: Entries,
    live: Seq<(SegmentId, EntryView)>,
    mirror: Seq<MetadataView>,
    n: int,
    id: SegmentId,
)
    requires
        metadata_agrees(m),
        is_live_listing(m, live),
        0 <= n <= live.len(),
        check_live(live.take(n), mirror).fault is None,
    ensures
        ({
            let after = written(mirror_map(mirror), check_live(live.take(n), mirror).repairs);
            if exists|k: int| 0 <= k < n && (#[trigger] live[k]).0 == id {
                after.contains_key(id) && (after[id].sealed_at is Some <==> m[id].state
                    == SegmentState::Sealed)
            } else {
                &&& after.contains_key(id) <==> mirror_map(mirror).contains_key(id)
                &&& after.contains_key(id) ==> after[id] == mirror_map(mirror)[id]
            }
        }),
    decreases n,
{
    if n > 0 {
        let before = check_live(live.take(n - 1), mirror);
        let check = check_live(live.take(n), mirror);
        assert(live.take(n).drop_last() =~= live.take(n - 1));
        assert(live.take(n).last() == live[n - 1]);
        lemma_live_repaired(m, live, mirror, n - 1, id);
        let at = live[n - 1].0;
        assert(is_live(m, at));
        if at == id {
            assert forall|k: int| 0 <= k < n - 1 implies (#[trigger] live[k]).0 != id by {
                assert(live[k].0.bits < live[n - 1].0.bits);
            }
        }
        if check.repairs.len() > before.repairs.len() {
            assert(check.repairs.drop_last() =~= before.repairs);
        }
        if exists|k: int| 0 <= k < n && (#[trigger] live[k]).0 == id {
            let k = choose|k: int| 0 <= k < n && (#[trigger] live[k]).0 == id;
            if at != id {
                assert(0 <= k < n - 1 && live[k].0 == id);
            }
        }
    }
}

proof fn lemma_held_repaired(
    start: CheckView,
    m: Entries,
    deleted: Set<u128>,
    mirror: Seq<MetadataView>,
    held: Seq<MetadataView>,
    now: u64,
    id: SegmentId,
)
    requires
        check_held(start, m, deleted, held, now).fault is None,
    ensures
        start.fault is None,
        ({
            let before = written(mirror_map(mirror), start.repairs);
            let after = written(
                mirror_map(mirror),
                check_held(start, m, deleted, held, now).repairs,
            );
            if !is_live(m, id) && exists|k: int|
                0 <= k < held.len() && (#[trigger] held[k]).segment_id == id {
                !after.contains_key(id)
            } else {
                &&& after.contains_key(id) <==> before.contains_key(id)
                &&& after.contains_key(id) ==> after[id] == before[id]
            }
        }),
    decreases held.len(),
{
    if held.len() > 0 {
        let front = held.drop_last();
        let meta = held.last();
        let prev = check_held(start, m, deleted, front, now);
        let check = check_held(start, m, deleted, held, now);
        lemma_held_repaired(start, m, deleted, mirror, front, now, id);
        if check.repairs.len() > prev.repairs.len() {
            assert(check.repairs.drop_last() =~= prev.repairs);
        }
        if !is_live(m, id) && exists|k: int|
            0 <= k < held.len() && (#[trigger] held[k]).segment_id == id {
            let k = choose|k: int| 0 <= k < held.len() && (#[trigger] held[k]).segment_id == id;
            if meta.segment_id != id {
                assert(front[k].segment_id == id);
            }
        } else {
            assert(!(!is_live(m, id) && exists|k: int|
                0 <= k < front.len() && (#[trigger] front[k]).segment_id == id)) by {
                if !is_live(m, id) && exists|k: int|
                    0 <= k < front.len() && (#[trigger] front[k]).segment_id == id {
                    let k = choose|k: int|
                        0 <= k < front.len() && (#[trigger] front[k]).segment_id == id;
                    assert(held[k].segment_id == id);
                }
            }
            assert(held[held.len() - 1] == meta);
        }
    }
}

} // verus!
