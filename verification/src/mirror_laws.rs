//! Laws of the check of the mirror: what it asks for, and when it ends.
use crate::coordinator::MirrorView;
use crate::error::{Error, MirrorFault};
use crate::lifecycle::{entry_at, is_live, is_live_listing, Entries, EntryView, SegmentState};
use crate::mirror::{
    check_held, check_live, found_in, held_verdict, live_listing, live_verdict, mirror_check,
    CheckView, VerdictView,
};
use crate::types::{MetadataView, SegmentId};
use vstd::prelude::*;

verus! {

/// The mirror says of a live segment that it is sealed, and the registry that it is
/// reserved.
pub open spec fn is_ahead(m: Entries, meta: MetadataView) -> bool {
    is_live(m, meta.segment_id) && m[meta.segment_id].state == SegmentState::Reserved
        && meta.sealed_at is Some
}

/// The mirror holds a sealed segment that the registry neither has nor has
/// deleted.
pub open spec fn is_lost(m: Entries, deleted: Set<u128>, meta: MetadataView, now: u64) -> bool {
    entry_at(m, meta.segment_id, now) is None && meta.sealed_at is Some && !deleted.contains(
        meta.segment_id.bits,
    )
}

/// A repair of the mirror is right: it puts a live segment with the metadata that
/// the registry has of it, or it removes a segment that is not live.
pub open spec fn is_right_repair(m: Entries, w: MirrorView) -> bool {
    match w {
        MirrorView::Put(meta) => exists|id: SegmentId|
            is_live(m, id) && meta == (#[trigger] m[id]).metadata,
        MirrorView::Delete(id) => !is_live(m, id),
    }
}

/// A fault of the check is one of the two contradictions.
pub open spec fn is_right_fault(
    m: Entries,
    deleted: Set<u128>,
    mirror: Seq<MetadataView>,
    now: u64,
    fault: Error,
) -> bool {
    fault matches Error::MirrorDivergence { segment_id, fault } && match fault {
        MirrorFault::MirrorSealed => exists|k: int|
            0 <= k < mirror.len() && (#[trigger] mirror[k]).segment_id == segment_id && is_ahead(
                m,
                mirror[k],
            ),
        MirrorFault::SealedEntryMissing => exists|k: int|
            0 <= k < mirror.len() && (#[trigger] mirror[k]).segment_id == segment_id && is_lost(
                m,
                deleted,
                mirror[k],
                now,
            ),
    }
}

proof fn lemma_found_is_held(mirror: Seq<MetadataView>, id: SegmentId)
    ensures
        match found_in(mirror, id) {
            Some(meta) => meta.segment_id == id && exists|k: int|
                0 <= k < mirror.len() && #[trigger] mirror[k] == meta,
            None => forall|k: int| 0 <= k < mirror.len() ==> (#[trigger] mirror[k]).segment_id != id,
        },
    decreases mirror.len(),
{
    if mirror.len() > 0 && mirror[0].segment_id != id {
        let rest = mirror.drop_first();
        lemma_found_is_held(rest, id);
        if found_in(rest, id) is Some {
            let meta = found_in(rest, id)->0;
            let k = choose|k: int| 0 <= k < rest.len() && #[trigger] rest[k] == meta;
            assert(mirror[k + 1] == meta);
        } else {
            assert forall|k: int| 0 <= k < mirror.len() implies (#[trigger] mirror[k]).segment_id
                != id by {
                if k > 0 {
                    assert(rest[k - 1] == mirror[k]);
                }
            }
        }
    }
}

proof fn lemma_live_check(
    m: Entries,
    deleted: Set<u128>,
    live: Seq<(SegmentId, EntryView)>,
    mirror: Seq<MetadataView>,
    now: u64,
    n: int,
)
    requires
        is_live_listing(m, live),
        0 <= n <= live.len(),
    ensures
        ({
            let check = check_live(live.take(n), mirror);
            &&& forall|i: int|
                0 <= i < check.repairs.len() ==> is_right_repair(m, #[trigger] check.repairs[i])
            &&& check.fault matches Some(fault) ==> is_right_fault(
                m,
                deleted,
                mirror,
                now,
                fault,
            )
            &&& check.fault is None ==> forall|k: int|
                0 <= k < n ==> (found_in(mirror, (#[trigger] live[k]).0) matches Some(meta)
                    ==> !is_ahead(m, meta))
            &&& (forall|k: int|
                0 <= k < n ==> (found_in(mirror, (#[trigger] live[k]).0) matches Some(meta) && (
                meta.sealed_at is Some <==> live[k].1.state == SegmentState::Sealed)))
                ==> check.repairs.len() == 0 && check.fault is None
        }),
    decreases n,
{
    if n > 0 {
        let at = live[n - 1].0;
        let entry = live[n - 1].1;
        lemma_live_check(m, deleted, live, mirror, now, n - 1);
        assert(live.take(n).drop_last() =~= live.take(n - 1));
        assert(live.take(n).last() == live[n - 1]);
        assert(is_live(m, at) && m[at] == entry);
        lemma_found_is_held(mirror, at);
        let before = check_live(live.take(n - 1), mirror);
        let check = check_live(live.take(n), mirror);
        assert forall|i: int| 0 <= i < check.repairs.len() implies is_right_repair(
            m,
            #[trigger] check.repairs[i],
        ) by {
            if i < before.repairs.len() {
                assert(check.repairs[i] == before.repairs[i]);
            } else {
                assert(check.repairs[i] == MirrorView::Put(m[at].metadata));
            }
        }
        if check.fault is Some && before.fault is None {
            let meta = found_in(mirror, at)->0;
            let k = choose|k: int| 0 <= k < mirror.len() && #[trigger] mirror[k] == meta;
            assert(mirror[k].segment_id == at && is_ahead(m, mirror[k]));
        }
    }
}

proof fn lemma_held_check(
    start: CheckView,
    m: Entries,
    deleted: Set<u128>,
    mirror: Seq<MetadataView>,
    now: u64,
    n: int,
)
    requires
        0 <= n <= mirror.len(),
        forall|i: int|
            0 <= i < start.repairs.len() ==> is_right_repair(m, #[trigger] start.repairs[i]),
        start.fault matches Some(fault) ==> is_right_fault(m, deleted, mirror, now, fault),
    ensures
        ({
            let check = check_held(start, m, deleted, mirror.take(n), now);
            &&& forall|i: int|
                0 <= i < check.repairs.len() ==> is_right_repair(m, #[trigger] check.repairs[i])
            &&& check.fault matches Some(fault) ==> is_right_fault(
                m,
                deleted,
                mirror,
                now,
                fault,
            )
            &&& check.fault is None ==> start.fault is None && forall|k: int|
                0 <= k < n ==> !is_lost(m, deleted, #[trigger] mirror[k], now)
            &&& (forall|k: int| 0 <= k < n ==> is_live(m, (#[trigger] mirror[k]).segment_id))
                ==> check == start
        }),
    decreases n,
{
    if n > 0 {
        lemma_held_check(start, m, deleted, mirror, now, n - 1);
        let front = mirror.take(n).drop_last();
        assert(front =~= mirror.take(n - 1));
        let meta = mirror[n - 1];
        assert(mirror.take(n).last() == meta);
        let before = check_held(start, m, deleted, front, now);
        let check = check_held(start, m, deleted, mirror.take(n), now);
        assert forall|i: int| 0 <= i < check.repairs.len() implies is_right_repair(
            m,
            #[trigger] check.repairs[i],
        ) by {
            if i < before.repairs.len() {
                assert(check.repairs[i] == before.repairs[i]);
            } else {
                assert(check.repairs[i] == MirrorView::Delete(meta.segment_id));
            }
        }
        if check.fault is Some && before.fault is None {
            assert(is_lost(m, deleted, mirror[n - 1], now));
        }
    }
}

/// The check of the mirror asks for right repairs only: it puts live segments as
/// the registry has them, and removes segments that are not live. It ends early
/// just when the mirror contradicts the registry: when it says sealed of a reserved
/// segment, or holds a sealed one that the registry neither has nor has deleted.
pub proof fn law_mirror_check_is_right(
    m: Entries,
    deleted: Set<u128>,
    mirror: Seq<MetadataView>,
    now: u64,
    i: int,
    k: int,
)
    requires
        exists|s: Seq<(SegmentId, EntryView)>| is_live_listing(m, s),
        0 <= k < mirror.len(),
        forall|j: int|
            0 <= j < mirror.len() && j != k ==> (#[trigger] mirror[j]).segment_id
                != mirror[k].segment_id,
    ensures
        ({
            let check = mirror_check(m, deleted, mirror, now);
            &&& 0 <= i < check.repairs.len() ==> is_right_repair(m, check.repairs[i])
            &&& check.fault matches Some(fault) ==> is_right_fault(m, deleted, mirror, now, fault)
            &&& is_ahead(m, mirror[k]) || is_lost(m, deleted, mirror[k], now) ==> check.fault is Some
        }),
{
    let live = live_listing(m);
    let start = check_live(live, mirror);
    assert(live.take(live.len() as int) =~= live);
    lemma_live_check(m, deleted, live, mirror, now, live.len() as int);
    assert(mirror.take(mirror.len() as int) =~= mirror);
    lemma_held_check(start, m, deleted, mirror, now, mirror.len() as int);
    if is_ahead(m, mirror[k]) {
        let id = mirror[k].segment_id;
        let a = choose|a: int| 0 <= a < live.len() && (#[trigger] live[a]).0 == id;
        lemma_found_is_held(mirror, id);
        let held = found_in(mirror, id)->0;
        let j = choose|j: int| 0 <= j < mirror.len() && #[trigger] mirror[j] == held;
        assert(j == k);
        assert(live[a].0 == id);
    }
}

/// The repairs of the live segments' check up to one of them hold for good: a
/// segment that the mirror lacks is put, when the check came to it.
proof fn lemma_live_puts(
    m: Entries,
    live: Seq<(SegmentId, EntryView)>,
    mirror: Seq<MetadataView>,
    n: int,
    a: int,
)
    requires
        is_live_listing(m, live),
        0 <= a < n <= live.len(),
        found_in(mirror, live[a].0) is None,
        forall|k: int| 0 <= k < mirror.len() ==> !is_ahead(m, #[trigger] mirror[k]),
    ensures
        check_live(live.take(n), mirror).repairs.contains(MirrorView::Put(live[a].1.metadata)),
    decreases n,
{
    let before = check_live(live.take(n - 1), mirror);
    let check = check_live(live.take(n), mirror);
    assert(live.take(n).drop_last() =~= live.take(n - 1));
    assert(live.take(n).last() == live[n - 1]);
    if a < n - 1 {
        lemma_live_puts(m, live, mirror, n - 1, a);
        let i = choose|i: int|
            0 <= i < before.repairs.len() && before.repairs[i] == MirrorView::Put(
                live[a].1.metadata,
            );
        assert(check.repairs[i] == before.repairs[i]);
    } else {
        lemma_live_goes_on(m, live, mirror, n - 1);
        assert(is_live(m, live[a].0) && m[live[a].0] == live[a].1);
        assert(check.repairs.last() == MirrorView::Put(live[a].1.metadata));
    }
}

proof fn lemma_live_goes_on(
    m: Entries,
    live: Seq<(SegmentId, EntryView)>,
    mirror: Seq<MetadataView>,
    n: int,
)
    requires
        is_live_listing(m, live),
        0 <= n <= live.len(),
        forall|k: int| 0 <= k < mirror.len() ==> !is_ahead(m, #[trigger] mirror[k]),
    ensures
        check_live(live.take(n), mirror).fault is None,
    decreases n,
{
    if n > 0 {
        let id = live[n - 1].0;
        lemma_live_goes_on(m, live, mirror, n - 1);
        assert(live.take(n).drop_last() =~= live.take(n - 1));
        assert(live.take(n).last() == live[n - 1]);
        assert(is_live(m, id) && m[id] == live[n - 1].1);
        lemma_found_is_held(mirror, id);
        if found_in(mirror, id) is Some {
            let meta = found_in(mirror, id)->0;
            let k = choose|k: int| 0 <= k < mirror.len() && #[trigger] mirror[k] == meta;
            assert(!is_ahead(m, mirror[k]));
        }
    }
}

proof fn lemma_held_keeps_repairs(
    start: CheckView,
    m: Entries,
    deleted: Set<u128>,
    held: Seq<MetadataView>,
    now: u64,
    w: MirrorView,
)
    requires
        start.repairs.contains(w),
    ensures
        check_held(start, m, deleted, held, now).repairs.contains(w),
    decreases held.len(),
{
    if held.len() > 0 {
        lemma_held_keeps_repairs(start, m, deleted, held.drop_last(), now, w);
        let before = check_held(start, m, deleted, held.drop_last(), now);
        let check = check_held(start, m, deleted, held, now);
        let i = choose|i: int| 0 <= i < before.repairs.len() && before.repairs[i] == w;
        assert(check.repairs[i] == w);
    }
}

/// A contradiction later on takes back no repair: as long as the mirror runs ahead
/// of no live segment, each live one that it lacks is put, also where it holds
/// a sealed segment that the registry has lost.
pub proof fn law_repairs_stand_before_a_fault(
    m: Entries,
    deleted: Set<u128>,
    mirror: Seq<MetadataView>,
    now: u64,
    id: SegmentId,
)
    requires
        exists|s: Seq<(SegmentId, EntryView)>| is_live_listing(m, s),
        forall|k: int| 0 <= k < mirror.len() ==> !is_ahead(m, #[trigger] mirror[k]),
        is_live(m, id),
        forall|k: int| 0 <= k < mirror.len() ==> (#[trigger] mirror[k]).segment_id != id,
    ensures
        mirror_check(m, deleted, mirror, now).repairs.contains(MirrorView::Put(m[id].metadata)),
{
    let live = live_listing(m);
    let start = check_live(live, mirror);
    let a = choose|a: int| 0 <= a < live.len() && (#[trigger] live[a]).0 == id;
    assert(live.take(live.len() as int) =~= live);
    lemma_found_is_held(mirror, id);
    assert(is_live(m, live[a].0) && m[live[a].0] == live[a].1);
    lemma_live_puts(m, live, mirror, live.len() as int, a);
    lemma_held_keeps_repairs(
        start,
        m,
        deleted,
        mirror,
        now,
        MirrorView::Put(m[id].metadata),
    );
}

/// A mirror that holds just the live segments, sealed and reserved as the registry
/// has them, is left alone.
pub proof fn law_agreeing_mirror_is_left_alone(
    m: Entries,
    deleted: Set<u128>,
    mirror: Seq<MetadataView>,
    now: u64,
)
    requires
        exists|s: Seq<(SegmentId, EntryView)>| is_live_listing(m, s),
        forall|id: SegmentId| #[trigger]
            is_live(m, id) ==> (found_in(mirror, id) matches Some(meta) && (meta.sealed_at is Some
                <==> m[id].state == SegmentState::Sealed)),
        forall|k: int| 0 <= k < mirror.len() ==> is_live(m, (#[trigger] mirror[k]).segment_id),
    ensures
        mirror_check(m, deleted, mirror, now).repairs.len() == 0,
        mirror_check(m, deleted, mirror, now).fault is None,
{
    let live = live_listing(m);
    let start = check_live(live, mirror);
    assert(live.take(live.len() as int) =~= live);
    lemma_live_check(m, deleted, live, mirror, now, live.len() as int);
    assert(mirror.take(mirror.len() as int) =~= mirror);
    assert forall|k: int| 0 <= k < live.len() implies (found_in(
        mirror,
        (#[trigger] live[k]).0,
    ) matches Some(meta) && (meta.sealed_at is Some <==> live[k].1.state
        == SegmentState::Sealed)) by {
        assert(is_live(m, live[k].0));
    }
    lemma_held_check(start, m, deleted, mirror, now, mirror.len() as int);
}

/// How the mirror is judged: a live segment that it lacks, or does not know to be
/// sealed, is put; one that it knows to be sealed before the registry does is a
/// contradiction. A segment that is not live is removed, unless it is sealed and
/// was never deleted.
pub proof fn law_mirror_verdicts(e: EntryView, meta: MetadataView, deleted: bool)
    requires
        e.state != SegmentState::Deleted,
    ensures
        live_verdict(e, None) == VerdictView::Lags(MirrorView::Put(e.metadata)),
        e.state == SegmentState::Sealed && meta.sealed_at is None ==> live_verdict(e, Some(meta))
            == VerdictView::Lags(MirrorView::Put(e.metadata)),
        e.state == SegmentState::Reserved && meta.sealed_at is Some ==> live_verdict(e, Some(meta))
            == VerdictView::Contradicts(MirrorFault::MirrorSealed),
        (e.state == SegmentState::Sealed <==> meta.sealed_at is Some) ==> live_verdict(
            e,
            Some(meta),
        ) is Agrees,
        held_verdict(Some(e), deleted, meta) is Agrees,
        deleted || meta.sealed_at is None ==> held_verdict(None, deleted, meta)
            == VerdictView::Lags(MirrorView::Delete(meta.segment_id)),
        !deleted && meta.sealed_at is Some ==> held_verdict(None, deleted, meta)
            == VerdictView::Contradicts(MirrorFault::SealedEntryMissing),
{
}

} // verus!
