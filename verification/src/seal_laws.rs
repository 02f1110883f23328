//! Laws of sealing: batches of seals, the steps of the pipeline, and the move of a
//! sealed segment to another pool.
use crate::coordinator::{changed, missing_root, requested, ChangeView, WriteView};
use crate::data_store::{pool_index, PoolRole, StoragePool};
use crate::error::TransitionView;
use crate::event_record::EventView;
use crate::layout_laws::law_first_pool_is_found;
use crate::lifecycle::{entry_at, Entries, SegmentState};
use crate::relocate::{is_residue, relocation, RelocateView};
use crate::seal_batch::{
    accepted_of, after_append, after_batch_write, after_seals, all_failed, BatchView,
};
use crate::seal_pipeline::{
    after_reservation, first_step, sealed_end, tier_queue, SealQueue, StepView,
};
use crate::types::{HashOutput, MetadataView, SegmentId, SizeTier};
use vstd::prelude::*;

verus! {

/// The segments of a list are all different.
pub open spec fn all_different(metas: Seq<MetadataView>) -> bool {
    forall|i: int, j: int|
        0 <= i < j < metas.len() ==> (#[trigger] metas[i]).segment_id != (
        #[trigger] metas[j]).segment_id
}

/// The accepted segments of a batch are those that are reserved, in the order in
/// which they were given, each with its own place and metadata.
pub proof fn law_batch_accepts_reserved_segments(
    m: Entries,
    metas: Seq<MetadataView>,
    now: u64,
    k: int,
)
    requires
        0 <= k < accepted_of(m, metas, now).len(),
    ensures
        ({
            let accepted = accepted_of(m, metas, now);
            let (i, meta) = accepted[k];
            &&& 0 <= i < metas.len()
            &&& meta == metas[i]
            &&& entry_at(m, meta.segment_id, now) matches Some(e) && e.state
                == SegmentState::Reserved
            &&& k + 1 < accepted.len() ==> i < accepted[k + 1].0
        }),
    decreases metas.len(),
{
    if metas.len() > 0 {
        let rest = metas.drop_last();
        let before = accepted_of(m, rest, now);
        let accepted = accepted_of(m, metas, now);
        if k < before.len() {
            law_batch_accepts_reserved_segments(m, rest, now, k);
            assert(accepted[k] == before[k]);
            if k + 1 < before.len() {
                assert(accepted[k + 1] == before[k + 1]);
            }
        }
    }
}

/// Applying the seals of a batch seals each of its reserved segments with its own
/// metadata, and changes no other.
pub proof fn law_batch_seals_its_segments(
    m: Entries,
    metas: Seq<MetadataView>,
    now: u64,
    i: int,
    other: SegmentId,
)
    requires
        all_different(metas),
        0 <= i < metas.len(),
        entry_at(m, metas[i].segment_id, now) is Some,
        m[metas[i].segment_id].state == SegmentState::Reserved,
        forall|j: int| 0 <= j < metas.len() ==> (#[trigger] metas[j]).segment_id != other,
    ensures
        ({
            let after = after_seals(m, metas, now);
            let id = metas[i].segment_id;
            &&& after.contains_key(id)
            &&& after[id].state == SegmentState::Sealed
            &&& after[id].metadata == metas[i]
            &&& after[id].data_wal_pos == m[id].data_wal_pos
            &&& after[id].repacked_from is None
            &&& after[id].in_flight is None
            &&& entry_at(after, other, now) == entry_at(m, other, now)
        }),
{
    lemma_seals_leave(m, metas, now, other);
    lemma_seals_apply(m, metas, now, i);
}

proof fn lemma_seals_leave(m: Entries, metas: Seq<MetadataView>, now: u64, other: SegmentId)
    requires
        forall|j: int| 0 <= j < metas.len() ==> (#[trigger] metas[j]).segment_id != other,
    ensures
        entry_at(after_seals(m, metas, now), other, now) == entry_at(m, other, now),
    decreases metas.len(),
{
    if metas.len() > 0 {
        let rest = metas.drop_last();
        assert forall|j: int| 0 <= j < rest.len() implies (#[trigger] rest[j]).segment_id
            != other by {
            assert(rest[j] == metas[j]);
        }
        lemma_seals_leave(m, rest, now, other);
        assert(metas[metas.len() - 1].segment_id != other);
    }
}

proof fn lemma_seals_apply(m: Entries, metas: Seq<MetadataView>, now: u64, i: int)
    requires
        all_different(metas),
        0 <= i < metas.len(),
        entry_at(m, metas[i].segment_id, now) is Some,
        m[metas[i].segment_id].state == SegmentState::Reserved,
    ensures
        ({
            let after = after_seals(m, metas, now);
            let id = metas[i].segment_id;
            &&& after.contains_key(id)
            &&& after[id].state == SegmentState::Sealed
            &&& after[id].metadata == metas[i]
            &&& after[id].data_wal_pos == m[id].data_wal_pos
            &&& after[id].repacked_from is None
            &&& after[id].in_flight is None
        }),
    decreases metas.len(),
{
    let rest = metas.drop_last();
    let id = metas[i].segment_id;
    let last = metas.len() - 1;
    assert(all_different(rest)) by {
        assert forall|a: int, b: int| 0 <= a < b < rest.len() implies (
        #[trigger] rest[a]).segment_id != (#[trigger] rest[b]).segment_id by {
            assert(rest[a] == metas[a] && rest[b] == metas[b]);
        }
    }
    if i < last {
        assert(rest[i] == metas[i]);
        lemma_seals_apply(m, rest, now, i);
        assert(metas[i].segment_id != metas[last].segment_id);
    } else {
        assert forall|j: int| 0 <= j < rest.len() implies (#[trigger] rest[j]).segment_id != id by {
            assert(rest[j] == metas[j]);
            assert(metas[j].segment_id != metas[last].segment_id);
        }
        lemma_seals_leave(m, rest, now, id);
    }
}

/// When the one write of a batch fails, every accepted segment fails with its
/// reason, and every other result stays.
pub proof fn law_failed_batch_fails_accepted(
    results: Seq<Result<(), TransitionView>>,
    accepted: Seq<(int, MetadataView)>,
    why: Seq<char>,
    i: int,
)
    requires
        0 <= i < results.len(),
        forall|k: int|
            0 <= k < accepted.len() ==> 0 <= (#[trigger] accepted[k]).0 < results.len(),
    ensures
        ({
            let after = all_failed(results, accepted, why);
            &&& after.len() == results.len()
            &&& (exists|k: int| 0 <= k < accepted.len() && (#[trigger] accepted[k]).0 == i)
                ==> after[i] == Err::<(), TransitionView>(TransitionView::DurableWriteFailed(why))
            &&& (forall|k: int| 0 <= k < accepted.len() ==> (#[trigger] accepted[k]).0 != i)
                ==> after[i] == results[i]
        }),
    decreases accepted.len(),
{
    if accepted.len() > 0 {
        let rest = accepted.drop_last();
        assert forall|k: int| 0 <= k < rest.len() implies 0 <= (#[trigger] rest[k]).0
            < results.len() by {
            assert(rest[k] == accepted[k]);
        }
        law_failed_batch_fails_accepted(results, rest, why, i);
        assert(0 <= accepted[accepted.len() - 1].0 < results.len());
        if exists|k: int| 0 <= k < accepted.len() && (#[trigger] accepted[k]).0 == i {
            let k = choose|k: int| 0 <= k < accepted.len() && (#[trigger] accepted[k]).0 == i;
            if k < rest.len() {
                assert(rest[k].0 == i);
            }
        }
        if forall|k: int| 0 <= k < accepted.len() ==> (#[trigger] accepted[k]).0 != i {
            assert forall|k: int| 0 <= k < rest.len() implies (#[trigger] rest[k]).0 != i by {
                assert(accepted[k].0 != i);
            }
            assert(accepted[accepted.len() - 1].0 != i);
        }
    }
}

/// Behind an event log, a batch goes on with the next segment that has a root. The
/// segments without one, which it passes on the way, fail for want of it; no other
/// result changes, and the mirror is told of none of them.
pub proof fn law_batch_passes_segments_without_root(b: BatchView)
    requires
        b.wf(),
    ensures
        ({
            let after = b.at_next_root();
            &&& b.next <= after.next <= b.accepted.len()
            &&& after.accepted == b.accepted
            &&& after.mirror == b.mirror
            &&& after.results.len() == b.results.len()
            &&& after.next < b.accepted.len() ==> b.accepted[after.next].1.merkle_root is Some
            &&& forall|k: int|
                b.next <= k < after.next ==> (#[trigger] b.accepted[k]).1.merkle_root is None
            &&& forall|k: int|
                b.next <= k < after.next ==> after.results[(#[trigger] b.accepted[k]).0] == Err::<
                    (),
                    TransitionView,
                >(missing_root())
            &&& forall|i: int|
                0 <= i < b.results.len() && (forall|k: int|
                    b.next <= k < after.next ==> (#[trigger] b.accepted[k]).0 != i)
                    ==> #[trigger] after.results[i] == b.results[i]
        }),
    decreases b.accepted.len() - b.next,
{
    if b.next < b.accepted.len() && b.accepted[b.next].1.merkle_root is None {
        let one = b.advanced(Err(missing_root()), Seq::empty());
        assert(0 <= b.accepted[b.next].0 < b.results.len());
        law_batch_passes_segments_without_root(one);
        let after = b.at_next_root();
        assert(one.mirror =~= b.mirror);
        assert forall|k: int| b.next <= k < after.next implies after.results[(
        #[trigger] b.accepted[k]).0] == Err::<(), TransitionView>(missing_root()) by {
            if k == b.next {
                let i = b.accepted[k].0;
                if forall|j: int| one.next <= j < after.next ==> (#[trigger] one.accepted[j]).0 != i {
                    assert(after.results[i] == one.results[i]);
                } else {
                    let j = choose|j: int|
                        one.next <= j < after.next && (#[trigger] one.accepted[j]).0 == i;
                    assert(after.results[one.accepted[j].0] == Err::<(), TransitionView>(
                        missing_root(),
                    ));
                }
            } else {
                assert(one.accepted[k] == b.accepted[k]);
            }
        }
        assert forall|i: int|
            0 <= i < b.results.len() && (forall|k: int|
                b.next <= k < after.next ==> (#[trigger] b.accepted[k]).0
                    != i) implies #[trigger] after.results[i] == b.results[i] by {
            assert(b.accepted[b.next].0 != i);
            assert forall|k: int| one.next <= k < after.next implies (
            #[trigger] one.accepted[k]).0 != i by {
                assert(b.accepted[k].0 != i);
            }
            assert(after.results[i] == one.results[i]);
        }
    }
}

/// The outcome of a segment's event goes to its own place, the batch goes on with
/// the next one, and the mirror is told behind what it was told before.
pub proof fn law_batch_goes_on(
    b: BatchView,
    result: Result<(), TransitionView>,
    mirror: Seq<MetadataView>,
)
    requires
        b.wf(),
        b.next < b.accepted.len(),
    ensures
        ({
            let after = b.advanced(result, mirror);
            &&& after.wf()
            &&& after.next == b.next + 1
            &&& after.accepted == b.accepted
            &&& after.results[b.accepted[b.next].0] == result
            &&& after.mirror == b.mirror + mirror
        }),
{
    assert(0 <= b.accepted[b.next].0 < b.results.len());
}

/// A segment whose seal is drained before its reservation was applied is reserved
/// first, with its own tier and coding. The reservation is then legal, and behind
/// an event log it is written as such.
pub proof fn law_seal_reserves_unknown_segment(
    m: Entries,
    events: bool,
    id: SegmentId,
    tier: SizeTier,
    ec_k: u8,
    ec_m: u8,
    now: u64,
)
    requires
        entry_at(m, id, now) is None,
    ensures
        first_step(m, events, id, tier, ec_k, ec_m, now) matches StepView::Reserve(p) && {
            &&& p.id == id
            &&& p.change matches ChangeView::Reserve(meta) && meta.segment_id == id
                && meta.size_tier == tier && meta.ec_k == ec_k && meta.ec_m == ec_m
                && meta.sealed_at is None
            &&& changed(m, id, p.change, 0, now).contains_key(id)
            &&& changed(m, id, p.change, 0, now)[id].state == SegmentState::Reserved
            &&& events ==> (p.write matches WriteView::Append(EventView::Reserve(e)) && e.segment_id
                == id && e.tier == tier && e.ec_k == ec_k && e.ec_m == ec_m)
            &&& !events ==> p.write is PutSegment
        },
{
}

/// Behind its reservation a segment is persisted; so it is when it was already
/// sealed or deleted. After any other failure it is left to the replay, with the
/// reason.
pub proof fn law_reservation_failure_defers_seal(e: TransitionView)
    ensures
        after_reservation(Ok(())) is Persist,
        after_reservation(Err(e)) is Persist <==> e is AlreadySealed || e is AlreadyDeleted,
        !(e is AlreadySealed || e is AlreadyDeleted) ==> after_reservation(Err(e))
            == StepView::Defer(e),
{
}

/// A segment can be moved just when it is sealed here, on another pool than the
/// target, and the target is a registered data pool. The plan names its pools and
/// carries its root. Else the first thing that is wrong is told.
pub proof fn law_relocation_is_granted(
    m: Entries,
    pools: Seq<StoragePool>,
    id: SegmentId,
    target: u32,
    now: u64,
    i: int,
)
    requires
        0 <= i < pools.len(),
        pools[i].id == target,
        forall|j: int| 0 <= j < i ==> (#[trigger] pools[j]).id != target,
    ensures
        ({
            let r = relocation(m, pools, id, target, now);
            let e = entry_at(m, id, now);
            &&& r is Ok <==> pools[i].role == PoolRole::Data && e is Some && e->0.state
                == SegmentState::Sealed && e->0.metadata.pool_id != target
            &&& r matches Ok(plan) ==> plan.segment_id == id && plan.source_pool_id
                == e->0.metadata.pool_id && plan.target_pool_id == target && plan.merkle_root
                == e->0.metadata.merkle_root
            &&& pools[i].role != PoolRole::Data ==> r->Err_0 == RelocateView::TargetNotDataRole(
                target,
            )
            &&& pools[i].role == PoolRole::Data && e is None ==> r->Err_0
                == RelocateView::NotHeldLocally(id)
            &&& pools[i].role == PoolRole::Data && e is Some && e->0.state != SegmentState::Sealed
                ==> r->Err_0 == RelocateView::NotSealed(id)
            &&& pools[i].role == PoolRole::Data && e is Some && e->0.state == SegmentState::Sealed
                && e->0.metadata.pool_id == target ==> r->Err_0 == RelocateView::SamePool(
                id,
                target,
            )
        }),
{
    law_first_pool_is_found(pools, target);
    let at = pool_index(pools, target)->0;
    if at < i {
        assert(pools[at].id != target);
    } else if i < at {
        assert(pools[i].id != target);
    }
}

/// A pool that is not registered is no target.
pub proof fn law_relocation_needs_registered_pool(
    m: Entries,
    pools: Seq<StoragePool>,
    id: SegmentId,
    target: u32,
    now: u64,
)
    requires
        forall|j: int| 0 <= j < pools.len() ==> (#[trigger] pools[j]).id != target,
    ensures
        relocation(m, pools, id, target, now) is Err,
        relocation(m, pools, id, target, now)->Err_0 == RelocateView::TargetPoolMissing(target),
{
    law_first_pool_is_found(pools, target);
}

/// The change of a relocation is granted, and it changes the pool of the segment
/// alone.
pub proof fn law_relocation_changes_pool_only(
    m: Entries,
    events: bool,
    pools: Seq<StoragePool>,
    id: SegmentId,
    target: u32,
    grace: u64,
    now: u64,
)
    requires
        relocation(m, pools, id, target, now) is Ok,
    ensures
        ({
            let plan = relocation(m, pools, id, target, now)->Ok_0;
            let change = plan.change();
            let after = changed(m, id, change, grace, now);
            &&& requested(m, events, id, change, now) is Ok
            &&& after[id].metadata == MetadataView { pool_id: target, ..m[id].metadata }
            &&& after[id].state == m[id].state
            &&& after[id].data_wal_pos == m[id].data_wal_pos
            &&& after[id].repacked_from == m[id].repacked_from
        }),
{
}

/// Of the files of a sealed segment just the one on its own pool is kept; that of a
/// reserved segment is kept wherever it is found, and one without a live entry
/// nowhere.
pub proof fn law_one_file_is_kept(pool: u32, found: u32)
    ensures
        !is_residue(Some(SegmentState::Sealed), pool, found) <==> pool == found,
        !is_residue(Some(SegmentState::Reserved), pool, found),
        is_residue(Some(SegmentState::Deleted), pool, found),
        is_residue(None, pool, found),
{
}

/// A segment of a batch whose event was appended is sealed with its own metadata, and
/// the mirror is told of it; its result stays. When the append fails, this segment
/// alone fails, with the reason, and no entry changes.
pub proof fn law_batch_event_seals_segment(
    m: Entries,
    b: BatchView,
    why: Seq<char>,
    now: u64,
    other: SegmentId,
)
    requires
        b.wf(),
        b.next < b.accepted.len(),
        entry_at(m, b.accepted[b.next].1.segment_id, now) is Some,
        m[b.accepted[b.next].1.segment_id].state == SegmentState::Reserved,
    ensures
        ({
            let (i, meta) = b.accepted[b.next];
            let (after, done) = after_append(m, b, Ok(()), now);
            let (same, failed) = after_append(m, b, Err(why), now);
            &&& after.contains_key(meta.segment_id)
            &&& after[meta.segment_id].state == SegmentState::Sealed
            &&& after[meta.segment_id].metadata == meta
            &&& after[meta.segment_id].data_wal_pos == m[meta.segment_id].data_wal_pos
            &&& other != meta.segment_id ==> entry_at(after, other, now) == entry_at(m, other, now)
            &&& done.results == b.results
            &&& done.mirror == b.mirror.push(meta)
            &&& done.next == b.next + 1
            &&& same == m
            &&& failed.results[i] == Err::<(), TransitionView>(
                TransitionView::DurableWriteFailed(why),
            )
            &&& failed.mirror == b.mirror
            &&& failed.next == b.next + 1
        }),
{
    let (_, done) = after_append(m, b, Ok(()), now);
    let (_, failed) = after_append(m, b, Err(why), now);
    assert(0 <= b.accepted[b.next].0 < b.results.len());
    assert(done.results =~= b.results);
    assert(done.mirror =~= b.mirror.push(b.accepted[b.next].1));
    assert(failed.mirror =~= b.mirror);
}

/// Without an event log the accepted segments of a batch stand or fall together: after
/// a failed write no entry changes and each of them fails; after a successful one
/// each is sealed with its own metadata. The batch is then done.
pub proof fn law_batch_write_seals_all_or_none(
    m: Entries,
    b: BatchView,
    why: Seq<char>,
    now: u64,
    k: int,
)
    requires
        b.wf(),
        all_different(b.metas()),
        0 <= k < b.accepted.len(),
        entry_at(m, b.accepted[k].1.segment_id, now) is Some,
        m[b.accepted[k].1.segment_id].state == SegmentState::Reserved,
    ensures
        ({
            let (i, meta) = b.accepted[k];
            let (after, done) = after_batch_write(m, b, Ok(()), now);
            let (same, failed) = after_batch_write(m, b, Err(why), now);
            &&& after.contains_key(meta.segment_id)
            &&& after[meta.segment_id].state == SegmentState::Sealed
            &&& after[meta.segment_id].metadata == meta
            &&& done.results == b.results
            &&& done.next == b.accepted.len()
            &&& same == m
            &&& failed.results[i] == Err::<(), TransitionView>(
                TransitionView::DurableWriteFailed(why),
            )
            &&& failed.next == b.accepted.len()
        }),
{
    let metas = b.metas();
    assert(metas[k] == b.accepted[k].1);
    lemma_seals_apply(m, metas, now, k);
    assert(0 <= b.accepted[k].0 < b.results.len());
    law_failed_batch_fails_accepted(b.results, b.accepted, why, b.accepted[k].0);
}

/// Only a segment that was persisted is told of, with its root, and only its buffer is
/// given back, to the pool of its tier.
pub proof fn law_only_persisted_segments_are_told_of(
    tier: SizeTier,
    merkle_root: Option<HashOutput>,
    has_notifier: bool,
)
    ensures
        sealed_end(tier, false, merkle_root, has_notifier) == (
            None::<HashOutput>,
            None::<SealQueue>,
        ),
        sealed_end(tier, true, merkle_root, true).0 == merkle_root,
        sealed_end(tier, true, merkle_root, false).0 is None,
        sealed_end(SizeTier::Small, true, merkle_root, has_notifier).1 == Some(SealQueue::Small),
        tier != SizeTier::Small ==> sealed_end(tier, true, merkle_root, has_notifier).1 == Some(
            SealQueue::Standard,
        ),
        tier_queue(SizeTier::Small) == SealQueue::Small,
        tier_queue(SizeTier::Standard) == SealQueue::Standard,
{
}

} // verus!
