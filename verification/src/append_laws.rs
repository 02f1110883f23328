//! Laws of what the segment pool gives out: where an append goes, what is handed
//! over for sealing, and what a sweep finds.
use crate::buffer::{target_of, ActiveView};
use crate::error::Error;
use crate::pool::{
    clamped, first_from, idle_segments, lemma_first_from, next_accepting, step_of, swept_slots,
    AppendStep, AppendedView, PoolView, SealedView, SlotView, SlotWait, Wanted, WorkView,
};
use crate::pool_laws::{slot_data, slot_id};
use crate::types::{SegmentId, SegmentSizeConfig, SizeTier};
use vstd::prelude::*;

verus! {

/// The slot holds a segment with data whose last append is at least `timeout`
/// milliseconds ago.
pub open spec fn waits_for_sweep(slot: SlotView, timeout: u64, now: u64) -> bool {
    slot matches SlotView::Appending(a) && a.data.len() > 0 && (timeout == 0 || a.last_append_ms
        + timeout <= now)
}

/// What is handed over is the segment that the slot held: its identifier, its
/// data and its tier.
pub open spec fn is_segment_of(sealed: SealedView, slot: SlotView) -> bool {
    slot matches SlotView::Appending(a) && sealed.segment_id == a.id && sealed.data == a.data
        && sealed.tier == a.tier
}

/// `sealed` holds the segments of the slots at the places `at`, which are the
/// slots that wait for a sweep, each once and in order.
pub open spec fn is_harvest(
    slots: Seq<SlotView>,
    timeout: u64,
    now: u64,
    at: Seq<int>,
    sealed: Seq<SealedView>,
) -> bool {
    &&& at.len() == sealed.len()
    &&& forall|j: int, k: int| 0 <= j < k < at.len() ==> #[trigger] at[j] < #[trigger] at[k]
    &&& forall|j: int|
        0 <= j < at.len() ==> {
            &&& 0 <= #[trigger] at[j] < slots.len()
            &&& waits_for_sweep(slots[at[j]], timeout, now)
            &&& is_segment_of(sealed[j], slots[at[j]])
        }
    &&& forall|i: int|
        0 <= i < slots.len() && waits_for_sweep(#[trigger] slots[i], timeout, now) ==> at.contains(
            i,
        )
}

proof fn lemma_harvest(slots: Seq<SlotView>, timeout: u64, now: u64) -> (at: Seq<int>)
    ensures
        is_harvest(slots, timeout, now, at, idle_segments(slots, timeout, now)),
    decreases slots.len(),
{
    let sealed = idle_segments(slots, timeout, now);
    if slots.len() == 0 {
        Seq::empty()
    } else {
        let rest = slots.drop_last();
        let before = lemma_harvest(rest, timeout, now);
        let was = idle_segments(rest, timeout, now);
        let last = slots.len() - 1;
        if waits_for_sweep(slots[last], timeout, now) {
            let at = before.push(last);
            assert forall|j: int| 0 <= j < at.len() implies {
                &&& 0 <= #[trigger] at[j] < slots.len()
                &&& waits_for_sweep(slots[at[j]], timeout, now)
                &&& is_segment_of(sealed[j], slots[at[j]])
            } by {
                if j < before.len() {
                    assert(before[j] == at[j]);
                    assert(rest[before[j]] == slots[before[j]]);
                    assert(sealed[j] == was[j]);
                }
            }
            assert forall|j: int, k: int| 0 <= j < k < at.len() implies #[trigger] at[j]
                < #[trigger] at[k] by {
                assert(at[j] == before[j]);
                if k < before.len() {
                    assert(at[k] == before[k]);
                }
            }
            assert forall|i: int|
                0 <= i < slots.len() && waits_for_sweep(
                    #[trigger] slots[i],
                    timeout,
                    now,
                ) implies at.contains(i) by {
                if i < last {
                    assert(rest[i] == slots[i]);
                    assert(before.contains(i));
                    let j = before.index_of(i);
                    assert(at[j] == i);
                } else {
                    assert(at[before.len() as int] == i);
                }
            }
            at
        } else {
            assert forall|j: int| 0 <= j < before.len() implies {
                &&& 0 <= #[trigger] before[j] < slots.len()
                &&& waits_for_sweep(slots[before[j]], timeout, now)
                &&& is_segment_of(sealed[j], slots[before[j]])
            } by {
                assert(rest[before[j]] == slots[before[j]]);
            }
            assert forall|i: int|
                0 <= i < slots.len() && waits_for_sweep(
                    #[trigger] slots[i],
                    timeout,
                    now,
                ) implies before.contains(i) by {
                assert(rest[i] == slots[i]);
            }
            before
        }
    }
}

/// A sweep gives back every segment that waits for it, once and in the order of
/// the slots, and nothing else.
pub proof fn law_sweep_gives_back_idle_segments(slots: Seq<SlotView>, timeout: u64, now: u64)
    ensures
        exists|at: Seq<int>| #[trigger]
            is_harvest(slots, timeout, now, at, idle_segments(slots, timeout, now)),
{
    let at = lemma_harvest(slots, timeout, now);
    assert(is_harvest(slots, timeout, now, at, idle_segments(slots, timeout, now)));
}

/// The segment of a slot that waits for a sweep is among those that the sweep
/// gives back, with its identifier, its data and its tier.
pub proof fn law_idle_segment_is_given_back(
    slots: Seq<SlotView>,
    timeout: u64,
    now: u64,
    i: int,
    a: ActiveView,
)
    requires
        0 <= i < slots.len(),
        slots[i] == SlotView::Appending(a),
        a.data.len() > 0,
        timeout == 0 || a.last_append_ms + timeout <= now,
    ensures
        idle_segments(slots, timeout, now).contains(
            SealedView { segment_id: a.id, data: a.data, tier: a.tier },
        ),
{
    let at = lemma_harvest(slots, timeout, now);
    let sealed = idle_segments(slots, timeout, now);
    assert(waits_for_sweep(slots[i], timeout, now));
    let j = at.index_of(i);
    assert(is_segment_of(sealed[j], slots[at[j]]));
    assert(sealed[j] =~= (SealedView { segment_id: a.id, data: a.data, tier: a.tier }));
}

/// A sweep freezes just the segments that it gives back: every slot that it
/// changes held one of them and keeps its data frozen, and every other slot is as
/// it was.
pub proof fn law_sweep_freezes_what_it_gives_back(
    slots: Seq<SlotView>,
    timeout: u64,
    now: u64,
    i: int,
)
    requires
        0 <= i < slots.len(),
    ensures
        ({
            let after = swept_slots(slots, timeout, now);
            let sealed = idle_segments(slots, timeout, now);
            &&& after.len() == slots.len()
            &&& waits_for_sweep(slots[i], timeout, now) ==> {
                &&& after[i] == SlotView::Sealing(
                    slots[i]->Appending_0.id,
                    slots[i]->Appending_0.data,
                )
                &&& exists|j: int| 0 <= j < sealed.len() && is_segment_of(#[trigger] sealed[j], slots[i])
            }
            &&& !waits_for_sweep(slots[i], timeout, now) ==> after[i] == slots[i]
        }),
{
    if waits_for_sweep(slots[i], timeout, now) {
        let a = slots[i]->Appending_0;
        law_idle_segment_is_given_back(slots, timeout, now, i, a);
        let sealed = idle_segments(slots, timeout, now);
        let j = sealed.index_of(SealedView { segment_id: a.id, data: a.data, tier: a.tier });
        assert(is_segment_of(sealed[j], slots[i]));
    }
}

/// A second sweep at the same time finds nothing.
pub proof fn law_second_sweep_finds_nothing(slots: Seq<SlotView>, timeout: u64, now: u64)
    ensures
        idle_segments(swept_slots(slots, timeout, now), timeout, now).len() == 0,
{
    let after = swept_slots(slots, timeout, now);
    let at = lemma_harvest(after, timeout, now);
    if at.len() > 0 {
        let i = at[0];
        law_sweep_freezes_what_it_gives_back(slots, timeout, now, i);
        assert(waits_for_sweep(after[i], timeout, now));
        assert(false);
    }
}

/// A sweep of the pool gives back first the segments whose hand-over was put off,
/// in order, and then every segment that waits for it. It empties the list of those
/// that were put off, and keeps all else: what is readable stays so.
pub proof fn law_sweep_returns_deferred_segments(
    p: PoolView,
    work: WorkView,
    timeout: u64,
    now: u64,
    i: int,
)
    ensures
        ({
            let (after, sealed) = p.swept(timeout, now);
            let (_, again) = p.put_off(work).swept(timeout, now);
            let n = p.deferred.len() as int;
            &&& 0 <= i < n ==> sealed[i] == p.deferred[i]
            &&& sealed.len() >= n
            &&& 0 <= i < p.slots.len() && waits_for_sweep(p.slots[i], timeout, now) ==> exists|j: int|
                n <= j < sealed.len() && is_segment_of(#[trigger] sealed[j], p.slots[i])
            &&& n <= i < sealed.len() ==> exists|j: int|
                0 <= j < p.slots.len() && waits_for_sweep(#[trigger] p.slots[j], timeout, now)
                    && is_segment_of(sealed[i], p.slots[j])
            &&& after.deferred.len() == 0
            &&& after.sealing == p.sealing
            &&& after.slots.len() == p.slots.len()
            &&& after.current == p.current && after.tier == p.tier && after.ec == p.ec
            &&& again.len() == sealed.len() + 1
            &&& again[n].segment_id == work.segment_id && again[n].data == work.data
                && again[n].tier == work.tier
            &&& p.put_off(work).slots == p.slots && p.put_off(work).sealing == p.sealing
        }),
{
    let (after, sealed) = p.swept(timeout, now);
    let n = p.deferred.len() as int;
    let idle = idle_segments(p.slots, timeout, now);
    let at = lemma_harvest(p.slots, timeout, now);
    if 0 <= i < p.slots.len() && waits_for_sweep(p.slots[i], timeout, now) {
        let j = at.index_of(i);
        assert(is_segment_of(idle[j], p.slots[at[j]]));
        assert(sealed[n + j] == idle[j]);
    }
    if n <= i < sealed.len() {
        assert(sealed[i] == idle[i - n]);
        let j = at[i - n];
        assert(waits_for_sweep(p.slots[j], timeout, now));
    }
}

/// Once the data of a segment is durable, dropping it from the pool drops nothing
/// else: all other data that was handed over stays readable, as do the slots.
pub proof fn law_release_drops_one_segment(p: PoolView, id: SegmentId, other: SegmentId)
    requires
        other != id,
    ensures
        !p.released(id).sealing.contains_key(id.bits),
        p.released(id).sealing.contains_key(other.bits) <==> p.sealing.contains_key(other.bits),
        p.sealing.contains_key(other.bits) ==> p.released(id).sealing[other.bits]
            == p.sealing[other.bits],
        p.released(id).slots == p.slots,
        p.released(id).deferred == p.deferred,
        p.released(id).current == p.current,
{
}

/// The target size of a segment is that of its tier; the inline tier has none.
pub proof fn law_target_is_that_of_the_tier(config: SegmentSizeConfig)
    ensures
        target_of(SizeTier::Small, config) == Some(config.small_target_size),
        target_of(SizeTier::Standard, config) == Some(config.default_target_size),
        target_of(SizeTier::Multi, config) == Some(config.default_target_size),
        target_of(SizeTier::Inline, config) is None,
{
}

/// A replayed segment needs a slot that is empty: when every slot holds a segment
/// with data, and none holds this one, it is refused and nothing changes.
pub proof fn law_replay_needs_empty_slot(
    p: PoolView,
    id: SegmentId,
    data: Seq<u8>,
    ids: (SegmentId, SegmentId),
    now: u64,
)
    requires
        forall|j: int|
            0 <= j < p.slots.len() ==> (#[trigger] p.slots[j]) is Appending && slot_id(p.slots[j])
                != Some(id) && slot_data(p.slots[j]).len() > 0,
    ensures
        p.append_replayed(id, data, ids, now) == (p, Err::<Option<WorkView>, Error>(Error::NoSlot)),
{
    lemma_first_from(p.slots, Wanted::Holding(id), 0);
    lemma_first_from(p.slots, Wanted::NeedsSegment, 0);
    lemma_first_from(p.slots, Wanted::Empty, 0);
    if first_from(p.slots, Wanted::Holding(id), 0) is Some {
        let j = first_from(p.slots, Wanted::Holding(id), 0)->0;
        assert(slot_id(p.slots[j]) == Some(id));
    }
    if first_from(p.slots, Wanted::Empty, 0) is Some {
        let j = first_from(p.slots, Wanted::Empty, 0)->0;
        assert(slot_data(p.slots[j]).len() > 0);
    }
}

/// A replayed segment that its data has filled takes no more, and one that could hold
/// nothing is not started.
pub proof fn law_full_segment_is_not_replayed(
    p: PoolView,
    id: SegmentId,
    data: Seq<u8>,
    ids: (SegmentId, SegmentId),
    now: u64,
    i: int,
)
    requires
        0 <= i < p.slots.len(),
    ensures
        p.slots[i] is Appending && slot_id(p.slots[i]) == Some(id) && slot_data(p.slots[i]).len()
            >= p.slots[i]->Appending_0.target_size && (forall|j: int|
            0 <= j < i ==> slot_id(#[trigger] p.slots[j]) != Some(id)) ==> p.append_replayed(
            id,
            data,
            ids,
            now,
        ) == (p, Err::<Option<WorkView>, Error>(Error::ReplayedSegmentFull(id))),
        p.slots[i] is Appending && slot_data(p.slots[i]).len() == 0 && p.target() == 0 && (forall|
            j: int,
        |
            0 <= j < p.slots.len() ==> (#[trigger] p.slots[j]) is Appending && slot_id(p.slots[j])
                != Some(id)) ==> p.append_replayed(id, data, ids, now) == (
            p,
            Err::<Option<WorkView>, Error>(Error::SegmentFull { segment_id: id, current_size: 0 }),
        ),
{
    lemma_first_from(p.slots, Wanted::Holding(id), 0);
    lemma_first_from(p.slots, Wanted::NeedsSegment, 0);
    lemma_first_from(p.slots, Wanted::Empty, 0);
    let at = first_from(p.slots, Wanted::Holding(id), 0);
    if at is Some {
        assert(slot_id(p.slots[at->0]) == Some(id));
    }
    if p.slots[i] is Appending && slot_id(p.slots[i]) == Some(id) {
        assert(Wanted::Holding(id).holds(p.slots[i]));
    }
    if p.slots[i] is Appending && slot_data(p.slots[i]).len() == 0 {
        assert(Wanted::Empty.holds(p.slots[i]));
    }
}

/// The slot takes appends: it holds a segment below its target size.
pub open spec fn takes_append(slot: SlotView) -> bool {
    slot matches SlotView::Appending(a) && a.data.len() < a.target_size
}

/// What an append to a segment of this data gives out: where the bytes stand,
/// and, just when they fill the segment, the work to seal all of it.
pub open spec fn is_append_to(p: PoolView, a: ActiveView, data: Seq<u8>, r: AppendedView) -> bool {
    &&& r.segment_id == a.id
    &&& r.offset == a.data.len()
    &&& r.length == (if data.len() <= u32::MAX {
        data.len() as int
    } else {
        u32::MAX as int
    })
    &&& r.work is Some <==> a.data.len() + data.len() >= a.target_size
    &&& r.work matches Some(w) ==> is_work_of(p, w, a.id, a.data + data) && w.tier == a.tier
}

/// The work to seal a segment: its identifier and its data, with the coding of
/// the pool.
pub open spec fn is_work_of(p: PoolView, w: WorkView, id: SegmentId, data: Seq<u8>) -> bool {
    &&& w.segment_id == id
    &&& w.data == data
    &&& match p.ec {
        Some(c) => w.ec.0 == c.data_shards && w.ec.1 == c.parity_shards && w.ec.2
            == c.strip_size_bytes,
        None => w.ec.0 == 0 && w.ec.1 == 0 && w.ec.2 == 0,
    }
}

/// The slot at `i` is the first that takes an append, counted round the slots
/// from the current one on.
pub open spec fn is_next_slot(p: PoolView, k: int, i: int) -> bool {
    &&& 0 <= k < p.slots.len()
    &&& i == (p.current + k) % p.slots.len() as int
    &&& takes_append(p.slots[i])
    &&& forall|j: int|
        0 <= j < k ==> !takes_append(#[trigger] p.slots[(p.current + j) % p.slots.len() as int])
}

proof fn lemma_next_slot(p: PoolView, from: int) -> (k: int)
    requires
        p.slots.len() > 0,
        0 <= from <= p.slots.len(),
        forall|j: int|
            0 <= j < from ==> !takes_append(
                #[trigger] p.slots[(p.current + j) % p.slots.len() as int],
            ),
    ensures
        match next_accepting(p.slots, p.current, from) {
            Some(i) => is_next_slot(p, k, i),
            None => forall|j: int|
                0 <= j < p.slots.len() ==> !takes_append(
                    #[trigger] p.slots[(p.current + j) % p.slots.len() as int],
                ),
        },
    decreases p.slots.len() - from,
{
    if from >= p.slots.len() {
        0
    } else {
        let i = (p.current + from) % p.slots.len() as int;
        if takes_append(p.slots[i]) {
            from
        } else {
            lemma_next_slot(p, from + 1)
        }
    }
}

/// Every slot is met when one goes round the slots.
proof fn lemma_round(p: PoolView, i: int)
    requires
        0 <= i < p.slots.len(),
        0 <= p.current < p.slots.len(),
    ensures
        exists|j: int|
            0 <= j < p.slots.len() && i == #[trigger] ((p.current + j) % p.slots.len() as int),
{
    let n = p.slots.len() as int;
    if i >= p.current {
        let j = i - p.current;
        assert((p.current + j) % n == i) by {
            vstd::arithmetic::div_mod::lemma_small_mod(i as nat, n as nat);
        }
    } else {
        let j = i + n - p.current;
        assert((p.current + j) % n == i) by {
            assert(p.current + j == i + n);
            vstd::arithmetic::div_mod::lemma_mod_add_multiples_vanish(i, n);
            vstd::arithmetic::div_mod::lemma_small_mod(i as nat, n as nat);
        }
    }
}

/// An append goes to the first slot that takes it, round the slots from the
/// current one on, and the next append starts to look one slot further. It
/// succeeds when there is such a slot.
pub proof fn law_append_goes_to_next_slot(
    p: PoolView,
    data: Seq<u8>,
    ids: (SegmentId, SegmentId),
    now: u64,
    i: int,
) -> (k: int)
    requires
        0 <= p.current < p.slots.len(),
        0 <= i < p.slots.len(),
        takes_append(p.slots[i]),
    ensures
        ({
            let (after, r) = p.append(data, ids, now);
            let at = (p.current + k) % p.slots.len() as int;
            &&& is_next_slot(p, k, at)
            &&& r is Ok
            &&& is_append_to(p, p.slots[at]->Appending_0, data, r->Ok_0)
            &&& after.current == (p.current + 1) % p.slots.len() as int
            &&& after.slots.len() == p.slots.len()
            &&& after.deferred == p.deferred
            &&& after.tier == p.tier && after.ec == p.ec && after.size_config == p.size_config
            &&& r->Ok_0.work is None ==> {
                &&& after.sealing == p.sealing
                &&& after.slots[at] is Appending
                &&& after.slots[at]->Appending_0.id == p.slots[at]->Appending_0.id
                &&& after.slots[at]->Appending_0.data == p.slots[at]->Appending_0.data + data
                &&& after.slots[at]->Appending_0.last_append_ms == now
                &&& forall|j: int|
                    0 <= j < p.slots.len() && j != at ==> #[trigger] after.slots[j] == p.slots[j]
            }
            &&& r->Ok_0.work is Some ==> after.sealing == p.sealing.insert(
                p.slots[at]->Appending_0.id.bits,
                p.slots[at]->Appending_0.data + data,
            )
        }),
{
    let k = lemma_next_slot(p, 0);
    lemma_round(p, i);
    let j = choose|j: int|
        0 <= j < p.slots.len() && i == #[trigger] ((p.current + j) % p.slots.len() as int);
    assert(takes_append(p.slots[(p.current + j) % p.slots.len() as int]));
    let at = (p.current + k) % p.slots.len() as int;
    vstd::arithmetic::div_mod::lemma_mod_bound(p.current + k, p.slots.len() as int);
    assert(p.append_slot() == Some(at));
    let a = p.slots[at]->Appending_0;
    let next = p.appended(at, data, now);
    lemma_first_from(next.slots, Wanted::NeedsSegment, 0);
    assert(next.slots[at] == a.appended(data, now).settled());
    k
}

/// When no slot takes an append but one has no segment, that slot gets a new one
/// and takes it: the append stands at the start of the new segment.
pub proof fn law_append_arms_a_slot(
    p: PoolView,
    data: Seq<u8>,
    ids: (SegmentId, SegmentId),
    now: u64,
    i: int,
)
    requires
        0 <= p.current < p.slots.len(),
        0 <= i < p.slots.len(),
        p.slots[i] !is Appending,
        p.target() > 0,
        forall|j: int| 0 <= j < p.slots.len() ==> !takes_append(#[trigger] p.slots[j]),
    ensures
        ({
            let (after, r) = p.append(data, ids, now);
            &&& r is Ok
            &&& r->Ok_0.segment_id == ids.0
            &&& r->Ok_0.offset == 0
            &&& data.len() <= u32::MAX ==> r->Ok_0.length == data.len()
            &&& r->Ok_0.work is Some <==> data.len() >= p.target()
            &&& r->Ok_0.work matches Some(w) ==> is_work_of(p, w, ids.0, data) && w.tier == p.tier
        }),
{
    lemma_first_from(p.slots, Wanted::NeedsSegment, 0);
    let n = p.slots.len() as int;
    let none = lemma_next_slot(p, 0);
    if p.append_slot() is Some {
        let at = p.append_slot()->0;
        assert(0 <= at < n) by {
            vstd::arithmetic::div_mod::lemma_mod_bound(p.current + none, n);
        }
        assert(takes_append(p.slots[at]));
        assert(false);
    }
    let looked = p.looked();
    assert(Wanted::NeedsSegment.holds(p.slots[i]));
    let spot = first_from(p.slots, Wanted::NeedsSegment, 0)->0;
    let armed = looked.activated(ids.0, now);
    assert(armed.slots[spot] == SlotView::Appending(p.fresh(ids.0, now)));
    assert(takes_append(armed.slots[spot]));
    assert(0 <= armed.current < n) by {
        vstd::arithmetic::div_mod::lemma_mod_bound(p.current + 1, n);
    }
    let k = lemma_next_slot(armed, 0);
    lemma_round(armed, spot);
    let j = choose|j: int|
        0 <= j < armed.slots.len() && spot == #[trigger] ((armed.current + j)
            % armed.slots.len() as int);
    assert(takes_append(armed.slots[(armed.current + j) % armed.slots.len() as int]));
    assert(armed.append_slot() is Some);
    let at = armed.append_slot()->0;
    assert(0 <= at < n) by {
        vstd::arithmetic::div_mod::lemma_mod_bound(armed.current + k, n);
    }
    if at != spot {
        assert(armed.slots[at] == p.slots[at]);
        assert(false);
    }
    assert(Seq::<u8>::empty() + data =~= data);
}

/// An append fails when all slots hold a segment that takes none. Nothing is stored
/// then, and the next append starts at the next slot.
pub proof fn law_append_fails_without_slot(
    p: PoolView,
    data: Seq<u8>,
    ids: (SegmentId, SegmentId),
    now: u64,
)
    requires
        0 <= p.current < p.slots.len(),
        forall|j: int|
            0 <= j < p.slots.len() ==> (#[trigger] p.slots[j]) is Appending && !takes_append(
                p.slots[j],
            ),
    ensures
        p.append(data, ids, now).1 == Err::<AppendedView, Error>(Error::NoSlot),
        p.append(data, ids, now).0.slots == p.slots,
        p.append(data, ids, now).0.sealing == p.sealing,
        p.append(data, ids, now).0.deferred == p.deferred,
        p.append(data, ids, now).0.current == (if p.current + 1 == p.slots.len() {
            0
        } else {
            p.current + 1
        }),
        p.append(data, ids, now).0.tier == p.tier,
        p.append(data, ids, now).0.ec == p.ec,
        p.append(data, ids, now).0.size_config == p.size_config,
{
    if p.current + 1 == p.slots.len() {
        vstd::arithmetic::div_mod::lemma_mod_self_0(p.slots.len() as int);
    } else {
        vstd::arithmetic::div_mod::lemma_small_mod((p.current + 1) as nat, p.slots.len());
    }
    lemma_first_from(p.slots, Wanted::NeedsSegment, 0);
    let k = lemma_next_slot(p, 0);
    if p.append_slot() is Some {
        vstd::arithmetic::div_mod::lemma_mod_bound(p.current + k, p.slots.len() as int);
        assert(takes_append(p.slots[p.append_slot()->0]));
    }
}

/// A read gives the bytes of the segment from the offset on, as many as are asked
/// for and as there are; nothing at or past the end.
pub proof fn law_read_is_part_of_segment(data: Seq<u8>, offset: u64, length: u32)
    ensures
        clamped(data, offset, length) is None <==> offset >= data.len(),
        clamped(data, offset, length) matches Some(part) ==> {
            &&& part.len() <= length
            &&& part.len() == length || offset + part.len() == data.len()
            &&& forall|i: int| 0 <= i < part.len() ==> #[trigger] part[i] == data[offset + i]
            &&& length > 0 ==> part.len() > 0
        },
{
}

/// A segment that was handed over is sealed with all of its data and with the
/// coding of the pool, and can be read meanwhile. A slot without a segment, if
/// there is one, gets a new one; no other slot changes.
pub proof fn law_handover_gives_work(
    p: PoolView,
    sealed: SealedView,
    fresh: SegmentId,
    now: u64,
    i: int,
)
    requires
        0 <= i < p.slots.len(),
    ensures
        ({
            let after = p.handed_over(sealed, fresh, now);
            &&& is_work_of(p, p.work(sealed), sealed.segment_id, sealed.data)
            &&& p.work(sealed).tier == sealed.tier
            &&& after.sealing == p.sealing.insert(sealed.segment_id.bits, sealed.data)
            &&& after.deferred == p.deferred
            &&& after.slots.len() == p.slots.len()
            &&& p.slots[i] is Appending ==> after.slots[i] == p.slots[i]
            &&& after.slots[i] != p.slots[i] ==> {
                &&& after.slots[i] is Appending
                &&& after.slots[i]->Appending_0.id == fresh
                &&& after.slots[i]->Appending_0.data.len() == 0
                &&& after.slots[i]->Appending_0.tier == p.tier
                &&& after.slots[i]->Appending_0.last_append_ms == now
                &&& forall|j: int|
                    0 <= j < p.slots.len() && j != i ==> #[trigger] after.slots[j] == p.slots[j]
            }
            &&& p.slots[i] !is Appending ==> exists|j: int|
                0 <= j < p.slots.len() && slot_id(#[trigger] after.slots[j]) == Some(fresh)
                    && slot_data(after.slots[j]).len() == 0
        }),
{
    lemma_first_from(p.slots, Wanted::NeedsSegment, 0);
    let after = p.handed_over(sealed, fresh, now);
    if p.slots[i] !is Appending {
        assert(Wanted::NeedsSegment.holds(p.slots[i]));
        let j = first_from(p.slots, Wanted::NeedsSegment, 0)->0;
        assert(slot_id(after.slots[j]) == Some(fresh));
    }
}

/// A replayed segment that no slot holds yet starts anew under its own
/// identifier: its data stands at the start, in a slot that was empty. It is
/// handed over at once when that fills it.
pub proof fn law_replay_starts_segment(
    p: PoolView,
    id: SegmentId,
    data: Seq<u8>,
    ids: (SegmentId, SegmentId),
    now: u64,
    i: int,
)
    requires
        0 <= i < p.slots.len(),
        p.target() > 0,
        id != ids.0,
        forall|j: int| 0 <= j < p.slots.len() ==> slot_id(#[trigger] p.slots[j]) != Some(id),
        p.slots[i] is Appending ==> p.slots[i]->Appending_0.data.len() == 0,
    ensures
        ({
            let (after, r) = p.append_replayed(id, data, ids, now);
            &&& r is Ok
            &&& r->Ok_0 is Some <==> data.len() >= p.target()
            &&& r->Ok_0 matches Some(w) ==> {
                &&& is_work_of(p, w, id, data)
                &&& w.tier == p.tier
                &&& after.sealing.contains_key(id.bits)
                &&& after.sealing[id.bits] == data
            }
            &&& r->Ok_0 is None ==> exists|j: int|
                0 <= j < after.slots.len() && slot_id(#[trigger] after.slots[j]) == Some(id)
                    && after.slots[j] is Appending && slot_data(after.slots[j]) == data
        }),
{
    lemma_first_from(p.slots, Wanted::Holding(id), 0);
    if first_from(p.slots, Wanted::Holding(id), 0) is Some {
        let j = first_from(p.slots, Wanted::Holding(id), 0)->0;
        assert(slot_id(p.slots[j]) == Some(id));
        assert(false);
    }
    let armed = p.activated(ids.0, now);
    lemma_first_from(p.slots, Wanted::NeedsSegment, 0);
    lemma_first_from(armed.slots, Wanted::Empty, 0);
    if p.slots[i] !is Appending {
        assert(Wanted::NeedsSegment.holds(p.slots[i]));
        let spot = first_from(p.slots, Wanted::NeedsSegment, 0)->0;
        assert(Wanted::Empty.holds(armed.slots[spot]));
    } else {
        assert(armed.slots[i] == p.slots[i]);
        assert(Wanted::Empty.holds(armed.slots[i]));
    }
    let at = first_from(armed.slots, Wanted::Empty, 0)->0;
    assert(Seq::<u8>::empty() + data =~= data);
    let (after, r) = p.append_replayed(id, data, ids, now);
    if data.len() < p.target() {
        assert(slot_id(after.slots[at]) == Some(id));
    }
}

/// A replayed segment that its data did not fill is handed over as it is when
/// its replay ends, and a new segment is armed; nothing happens when no slot holds
/// it.
pub proof fn law_partial_segment_is_handed_over(
    p: PoolView,
    id: SegmentId,
    fresh: SegmentId,
    now: u64,
    i: int,
)
    requires
        0 <= i < p.slots.len(),
        p.slots[i] is Appending,
        slot_id(p.slots[i]) == Some(id),
        forall|j: int|
            0 <= j < p.slots.len() && j != i ==> slot_id(#[trigger] p.slots[j]) != Some(id),
    ensures
        ({
            let (after, work) = p.sealed_partial(id, fresh, now);
            &&& work is Some
            &&& is_work_of(p, work->0, id, slot_data(p.slots[i]))
            &&& work->0.tier == p.slots[i]->Appending_0.tier
            &&& after.sealing == p.sealing.insert(id.bits, slot_data(p.slots[i]))
            &&& after.deferred == p.deferred
            &&& after.current == p.current
            &&& after.slots.len() == p.slots.len()
            &&& exists|j: int|
                0 <= j < p.slots.len() && (#[trigger] after.slots[j]) is Appending && slot_id(
                    after.slots[j],
                ) == Some(fresh) && slot_data(after.slots[j]).len() == 0
            &&& forall|j: int|
                0 <= j < p.slots.len() && j != i && p.slots[j] is Appending
                    ==> #[trigger] after.slots[j] == p.slots[j]
        }),
        forall|other: SegmentId|
            (forall|j: int| 0 <= j < p.slots.len() ==> slot_id(#[trigger] p.slots[j]) != Some(other))
                ==> #[trigger] p.sealed_partial(other, fresh, now) == (p, None::<WorkView>),
{
    lemma_first_from(p.slots, Wanted::Holding(id), 0);
    assert(Wanted::Holding(id).holds(p.slots[i]));
    let at = first_from(p.slots, Wanted::Holding(id), 0)->0;
    if at != i {
        assert(slot_id(p.slots[at]) == Some(id));
    }
    let a = p.slots[i]->Appending_0;
    let frozen = p.with_slot(i, SlotView::Sealing(a.id, a.data));
    lemma_first_from(frozen.slots, Wanted::NeedsSegment, 0);
    assert(Wanted::NeedsSegment.holds(frozen.slots[i]));
    let armed = first_from(frozen.slots, Wanted::NeedsSegment, 0)->0;
    assert(p.sealed_partial(id, fresh, now).0.slots[armed] is Appending);
    assert forall|other: SegmentId|
        (forall|j: int| 0 <= j < p.slots.len() ==> slot_id(#[trigger] p.slots[j]) != Some(
            other,
        )) implies #[trigger] p.sealed_partial(other, fresh, now) == (p, None::<WorkView>) by {
        lemma_first_from(p.slots, Wanted::Holding(other), 0);
        if first_from(p.slots, Wanted::Holding(other), 0) is Some {
            let j = first_from(p.slots, Wanted::Holding(other), 0)->0;
            assert(slot_id(p.slots[j]) == Some(other));
        }
    }
}

/// An append waits for a slot while slots are armed: from the last one on, for ten
/// milliseconds, in slices of at most one. Then the wait is over, and it stays so
/// until a slot is armed.
pub proof fn law_wait_ends_unless_slots_are_armed(w: SlotWait, start: u64, now: u64, later: u64)
    requires
        now <= later,
    ensures
        SlotWait::from(start).left(now) is None <==> now >= start + 10 || now == u64::MAX,
        w.left(now) matches Some(ms) ==> 0 < ms <= 1 && now + ms <= w.deadline,
        w.left(now) is None ==> w.after(false, now).left(later) is None,
        w.after(true, start) == SlotWait::from(start),
        start < u64::MAX ==> w.after(true, start).left(start) is Some,
{
}

/// An append with a deadline looks again when it has armed a slot. Else it waits, no
/// longer than to the deadline, and is rejected once that is reached.
pub proof fn law_append_is_rejected_at_deadline(now: u64, deadline: u64)
    ensures
        step_of(true, now, deadline) is Rescan,
        step_of(false, now, deadline) is Reject <==> now >= deadline,
        step_of(false, now, deadline) matches AppendStep::Wait(ms) ==> ms > 0 && now + ms
            == deadline,
        step_of(false, now, deadline) !is Rescan,
{
}

} // verus!
