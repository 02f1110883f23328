//! Laws of the segment pool: what was appended can be read until it is durable.
use crate::pool::{
    clamped, first_from, lemma_first_from, next_accepting, read_slots, AppendedView, PoolView,
    SealedView, SlotView, Wanted,
};
use crate::types::SegmentId;
use vstd::prelude::*;

verus! {

/// The segment whose data a slot holds.
pub open spec fn slot_id(slot: SlotView) -> Option<SegmentId> {
    match slot {
        SlotView::Appending(a) => Some(a.id),
        SlotView::Sealing(id, _) => Some(id),
        SlotView::Idle => None,
    }
}

/// The data that a slot holds.
pub open spec fn slot_data(slot: SlotView) -> Seq<u8> {
    match slot {
        SlotView::Appending(a) => a.data,
        SlotView::Sealing(_, data) => data,
        SlotView::Idle => Seq::empty(),
    }
}

/// No two slots hold the same segment; what is in the sealing data too is the
/// data that a slot holds frozen.
pub open spec fn sound(p: PoolView) -> bool {
    &&& forall|i: int, j: int|
        0 <= i < j < p.slots.len() ==> slot_id(#[trigger] p.slots[i]) is None || slot_id(
            p.slots[i],
        ) != slot_id(#[trigger] p.slots[j])
    &&& forall|i: int|
        #![trigger p.slots[i]]
        0 <= i < p.slots.len() ==> match p.slots[i] {
            SlotView::Appending(a) => !p.sealing.contains_key(a.id.bits),
            SlotView::Sealing(id, data) => p.sealing.contains_key(id.bits)
                ==> p.sealing[id.bits] == data,
            SlotView::Idle => true,
        }
}

/// Every frozen slot's segment, but for one that is yet to be handed over, is
/// in the sealing data.
pub open spec fn covered(p: PoolView, but: Option<SegmentId>) -> bool {
    forall|i: int|
        #![trigger p.slots[i]]
        0 <= i < p.slots.len() ==> match p.slots[i] {
            SlotView::Sealing(id, _) => Some(id) == but || p.sealing.contains_key(id.bits),
            _ => true,
        }
}

/// The pool knows nothing of the segment.
pub open spec fn unused(p: PoolView, id: SegmentId) -> bool {
    &&& !p.sealing.contains_key(id.bits)
    &&& forall|i: int| 0 <= i < p.slots.len() ==> slot_id(#[trigger] p.slots[i]) != Some(id)
}

proof fn lemma_no_slot(slots: Seq<SlotView>, id: SegmentId, offset: u64, length: u32, from: int)
    requires
        0 <= from,
        forall|i: int| from <= i < slots.len() ==> slot_id(#[trigger] slots[i]) != Some(id),
    ensures
        read_slots(slots, id, offset, length, from) is None,
    decreases slots.len() - from,
{
    if from < slots.len() {
        assert(slot_id(slots[from]) != Some(id));
        lemma_no_slot(slots, id, offset, length, from + 1);
    }
}

proof fn lemma_one_slot(
    slots: Seq<SlotView>,
    id: SegmentId,
    offset: u64,
    length: u32,
    from: int,
    at: int,
)
    requires
        0 <= from <= at < slots.len(),
        slot_id(slots[at]) == Some(id),
        forall|i: int|
            from <= i < slots.len() && i != at ==> slot_id(#[trigger] slots[i]) != Some(id),
    ensures
        read_slots(slots, id, offset, length, from) == clamped(slot_data(slots[at]), offset, length),
    decreases slots.len() - from,
{
    if from < at {
        assert(slot_id(slots[from]) != Some(id));
        lemma_one_slot(slots, id, offset, length, from + 1, at);
    } else {
        lemma_no_slot(slots, id, offset, length, at + 1);
    }
}

/// A segment that a slot holds is read from its slot.
proof fn lemma_read_at(p: PoolView, at: int, id: SegmentId, offset: u64, length: u32)
    requires
        sound(p),
        0 <= at < p.slots.len(),
        slot_id(p.slots[at]) == Some(id),
    ensures
        p.read(id, offset, length) == clamped(slot_data(p.slots[at]), offset, length),
{
    assert forall|i: int| 0 <= i < p.slots.len() && i != at implies slot_id(#[trigger] p.slots[i])
        != Some(id) by {
        if i < at {
            assert(slot_id(p.slots[i]) is None || slot_id(p.slots[i]) != slot_id(p.slots[at]));
        } else {
            assert(slot_id(p.slots[at]) is None || slot_id(p.slots[at]) != slot_id(p.slots[i]));
        }
    }
    lemma_one_slot(p.slots, id, offset, length, 0, at);
}

/// A segment that no slot holds is read from the sealing data.
proof fn lemma_read_sealing(p: PoolView, id: SegmentId, offset: u64, length: u32)
    requires
        forall|i: int| 0 <= i < p.slots.len() ==> slot_id(#[trigger] p.slots[i]) != Some(id),
    ensures
        p.read(id, offset, length) == (if p.sealing.contains_key(id.bits) {
            clamped(p.sealing[id.bits], offset, length)
        } else {
            None
        }),
{
    lemma_no_slot(p.slots, id, offset, length, 0);
}

/// Arming a slot again loses nothing: every read gives what it gave, and the
/// pool stays as it should be.
pub proof fn law_activation_keeps_reads(
    p: PoolView,
    fresh: SegmentId,
    now: u64,
    id: SegmentId,
    offset: u64,
    length: u32,
)
    requires
        sound(p),
        covered(p, None),
        unused(p, fresh),
    ensures
        sound(p.activated(fresh, now)),
        covered(p.activated(fresh, now), None),
        p.activated(fresh, now).read(id, offset, length) == p.read(id, offset, length),
{
    let q = p.activated(fresh, now);
    lemma_first_from(p.slots, Wanted::NeedsSegment, 0);
    if first_from(p.slots, Wanted::NeedsSegment, 0) is Some {
        let at = first_from(p.slots, Wanted::NeedsSegment, 0)->0;
        assert forall|i: int| 0 <= i < q.slots.len() implies #[trigger] q.slots[i] == (if i == at {
            SlotView::Appending(p.fresh(fresh, now))
        } else {
            p.slots[i]
        }) by {}
        if id == fresh {
            lemma_read_at(q, at, id, offset, length);
            lemma_read_sealing(p, id, offset, length);
        } else if exists|i: int| 0 <= i < p.slots.len() && slot_id(#[trigger] p.slots[i]) == Some(id) {
            let i = choose|i: int|
                0 <= i < p.slots.len() && slot_id(#[trigger] p.slots[i]) == Some(id);
            lemma_read_at(p, i, id, offset, length);
            if i == at {
                assert forall|j: int| 0 <= j < q.slots.len() implies slot_id(#[trigger] q.slots[j])
                    != Some(id) by {
                    if j < at {
                        assert(q.slots[j] == p.slots[j]);
                        assert(slot_id(p.slots[j]) is None || slot_id(p.slots[j]) != slot_id(
                            p.slots[at],
                        ));
                    } else if j > at {
                        assert(q.slots[j] == p.slots[j]);
                        assert(slot_id(p.slots[at]) is None || slot_id(p.slots[at]) != slot_id(
                            p.slots[j],
                        ));
                    }
                }
                lemma_read_sealing(q, id, offset, length);
            } else {
                assert(q.slots[i] == p.slots[i]);
                lemma_read_at(q, i, id, offset, length);
            }
        } else {
            lemma_read_sealing(p, id, offset, length);
            assert forall|j: int| 0 <= j < q.slots.len() implies slot_id(#[trigger] q.slots[j])
                != Some(id) by {
                if j != at {
                    assert(q.slots[j] == p.slots[j]);
                }
            }
            lemma_read_sealing(q, id, offset, length);
        }
    }
}

/// The read window has no gap: handing a frozen segment over for sealing leaves
/// every read as it was, that of the segment itself too.
pub proof fn law_handover_keeps_reads(
    p: PoolView,
    at: int,
    sealed: SealedView,
    fresh: SegmentId,
    now: u64,
    id: SegmentId,
    offset: u64,
    length: u32,
)
    requires
        sound(p),
        covered(p, Some(sealed.segment_id)),
        unused(p, fresh),
        0 <= at < p.slots.len(),
        p.slots[at] == SlotView::Sealing(sealed.segment_id, sealed.data),
    ensures
        sound(p.handed_over(sealed, fresh, now)),
        covered(p.handed_over(sealed, fresh, now), None),
        p.handed_over(sealed, fresh, now).read(id, offset, length) == p.read(id, offset, length),
{
    let q = PoolView {
        sealing: p.sealing.insert(sealed.segment_id.bits, sealed.data),
        ..p
    };
    assert(fresh != sealed.segment_id) by {
        assert(slot_id(p.slots[at]) == Some(sealed.segment_id));
    }
    assert(fresh.bits != sealed.segment_id.bits);
    assert forall|i: int| 0 <= i < p.slots.len() && i != at implies slot_id(#[trigger] p.slots[i])
        != Some(sealed.segment_id) by {
        if i < at {
            assert(slot_id(p.slots[i]) is None || slot_id(p.slots[i]) != slot_id(p.slots[at]));
        } else {
            assert(slot_id(p.slots[at]) is None || slot_id(p.slots[at]) != slot_id(p.slots[i]));
        }
    }
    assert(sound(q)) by {
        assert forall|i: int|
            #![trigger q.slots[i]]
            0 <= i < q.slots.len() implies match q.slots[i] {
            SlotView::Appending(a) => !q.sealing.contains_key(a.id.bits),
            SlotView::Sealing(x, data) => q.sealing.contains_key(x.bits) ==> q.sealing[x.bits]
                == data,
            SlotView::Idle => true,
        } by {
            if i != at {
                assert(slot_id(p.slots[i]) != Some(sealed.segment_id));
                match q.slots[i] {
                    SlotView::Appending(a) => {
                        assert(a.id.bits != sealed.segment_id.bits);
                    },
                    SlotView::Sealing(x, _) => {
                        assert(x.bits != sealed.segment_id.bits);
                    },
                    SlotView::Idle => {},
                }
            }
        }
    }
    assert(covered(q, None));
    assert(unused(q, fresh));
    assert(q.read(id, offset, length) == p.read(id, offset, length)) by {
        if id == sealed.segment_id {
            lemma_read_at(p, at, id, offset, length);
            lemma_read_at(q, at, id, offset, length);
        } else {
            assert(id.bits != sealed.segment_id.bits);
        }
    }
    law_activation_keeps_reads(q, fresh, now, id, offset, length);
}

proof fn lemma_append_slot(slots: Seq<SlotView>, start: int, k: int)
    requires
        0 <= start,
        0 <= k,
    ensures
        next_accepting(slots, start, k) matches Some(i) ==> 0 <= i < slots.len()
            && slots[i].accepts(),
    decreases slots.len() - k,
{
    if k < slots.len() {
        lemma_append_slot(slots, start, k + 1);
    }
}

/// The offset of an append and its length, as a reader passes them.
pub open spec fn range_of(a: AppendedView) -> (u64, u32) {
    (a.offset as u64, a.length as u32)
}

proof fn lemma_append_at(
    p: PoolView,
    i: int,
    data: Seq<u8>,
    fresh: SegmentId,
    now: u64,
    id: SegmentId,
    offset: u64,
    length: u32,
)
    requires
        sound(p),
        covered(p, None),
        unused(p, fresh),
        0 <= i < p.slots.len(),
        p.slots[i].accepts(),
    ensures
        ({
            let (after, r) = p.append_at(i, data, fresh, now);
            let a = p.slots[i]->Appending_0;
            &&& r is Ok
            &&& r->Ok_0.segment_id == a.id
            &&& r->Ok_0.offset == a.data.len()
            &&& sound(after)
            &&& covered(after, None)
            &&& after.read(id, offset, length) == (if id == a.id {
                clamped(a.data + data, offset, length)
            } else {
                p.read(id, offset, length)
            })
        }),
{
    let a = p.slots[i]->Appending_0;
    let b = a.appended(data, now);
    let q = p.appended(i, data, now);
    assert forall|j: int| 0 <= j < q.slots.len() implies #[trigger] q.slots[j] == (if j == i {
        b.settled()
    } else {
        p.slots[j]
    }) by {}
    assert(slot_id(q.slots[i]) == Some(a.id));
    assert(slot_data(q.slots[i]) == a.data + data);
    assert(slot_id(p.slots[i]) == Some(a.id));
    assert forall|j: int| 0 <= j < q.slots.len() implies slot_id(#[trigger] q.slots[j]) == slot_id(
        p.slots[j],
    ) by {}
    assert(sound(q)) by {
        assert forall|x: int, y: int| 0 <= x < y < q.slots.len() implies slot_id(
            #[trigger] q.slots[x],
        ) is None || slot_id(q.slots[x]) != slot_id(#[trigger] q.slots[y]) by {
            assert(slot_id(p.slots[x]) is None || slot_id(p.slots[x]) != slot_id(p.slots[y]));
        }
    }
    assert(covered(q, Some(a.id)));
    assert(unused(q, fresh));
    assert(q.read(id, offset, length) == (if id == a.id {
        clamped(a.data + data, offset, length)
    } else {
        p.read(id, offset, length)
    })) by {
        if id == a.id {
            lemma_read_at(q, i, id, offset, length);
        } else if exists|j: int| 0 <= j < p.slots.len() && slot_id(#[trigger] p.slots[j]) == Some(id) {
            let j = choose|j: int|
                0 <= j < p.slots.len() && slot_id(#[trigger] p.slots[j]) == Some(id);
            lemma_read_at(p, j, id, offset, length);
            assert(q.slots[j] == p.slots[j]);
            lemma_read_at(q, j, id, offset, length);
        } else {
            lemma_read_sealing(p, id, offset, length);
            lemma_read_sealing(q, id, offset, length);
        }
    }
    if b.full() {
        law_handover_keeps_reads(q, i, b.frozen(), fresh, now, id, offset, length);
    } else {
        assert(covered(q, None));
    }
}

/// What was appended is read back, and an append changes no read of another
/// segment: whether it fills its segment or not, and whether a slot had to be
/// armed first or not. The pool stays as it should be.
pub proof fn law_append_is_read_back(
    p: PoolView,
    data: Seq<u8>,
    ids: (SegmentId, SegmentId),
    now: u64,
    id: SegmentId,
    offset: u64,
    length: u32,
)
    requires
        sound(p),
        covered(p, None),
        unused(p, ids.0),
        unused(p, ids.1),
        ids.0 != ids.1,
        p.slots.len() > 0,
        p.current >= 0,
        2 * (p.target() + data.len()) <= isize::MAX,
        0 < data.len() <= u32::MAX,
        forall|i: int|
            0 <= i < p.slots.len() ==> ((#[trigger] p.slots[i]) matches SlotView::Appending(a)
                ==> a.data.len() <= p.target()),
    ensures
        ({
            let (after, r) = p.append(data, ids, now);
            &&& r is Ok || r->Err_0 == crate::error::Error::NoSlot
            &&& sound(after)
            &&& covered(after, None)
            &&& r is Err ==> after.read(id, offset, length) == p.read(id, offset, length)
            &&& r is Ok ==> after.read(
                r->Ok_0.segment_id,
                range_of(r->Ok_0).0,
                range_of(r->Ok_0).1,
            ) == Some(data)
            &&& r is Ok && id != r->Ok_0.segment_id ==> after.read(id, offset, length) == p.read(
                id,
                offset,
                length,
            )
        }),
{
    lemma_append_slot(p.slots, p.current, 0);
    match p.append_slot() {
        Some(i) => {
            let a = p.slots[i]->Appending_0;
            lemma_append_at(p, i, data, ids.1, now, id, offset, length);
            lemma_append_at(
                p,
                i,
                data,
                ids.1,
                now,
                a.id,
                a.data.len() as u64,
                data.len() as u32,
            );
            lemma_clamped(a.data, data);
        },
        None => {
            let looked = p.looked();
            assert(sound(looked));
            assert(covered(looked, None));
            assert(unused(looked, ids.0));
            assert(looked.read(id, offset, length) == p.read(id, offset, length));
            if first_from(looked.slots, Wanted::NeedsSegment, 0) is Some {
                let armed = looked.activated(ids.0, now);
                lemma_first_from(looked.slots, Wanted::NeedsSegment, 0);
                let at = first_from(looked.slots, Wanted::NeedsSegment, 0)->0;
                law_activation_keeps_reads(looked, ids.0, now, id, offset, length);
                assert((p.current + 1) % (p.slots.len() as int) >= 0) by (nonlinear_arith)
                    requires
                        p.slots.len() > 0,
                ;
                assert forall|j: int| 0 <= j < armed.slots.len() implies #[trigger] armed.slots[j]
                    == (if j == at {
                    SlotView::Appending(looked.fresh(ids.0, now))
                } else {
                    p.slots[j]
                }) by {}
                assert(unused(armed, ids.1)) by {
                    assert forall|j: int| 0 <= j < armed.slots.len() implies slot_id(
                        #[trigger] armed.slots[j],
                    ) != Some(ids.1) by {
                        if j != at {
                            assert(slot_id(p.slots[j]) != Some(ids.1));
                        }
                    }
                }
                lemma_append_slot(armed.slots, armed.current, 0);
                match armed.append_slot() {
                    Some(i) => {
                        let a = armed.slots[i]->Appending_0;
                        lemma_append_at(armed, i, data, ids.1, now, id, offset, length);
                        lemma_append_at(
                            armed,
                            i,
                            data,
                            ids.1,
                            now,
                            a.id,
                            a.data.len() as u64,
                            data.len() as u32,
                        );
                        lemma_clamped(a.data, data);
                        if i != at {
                            assert(armed.slots[i] == p.slots[i]);
                        }
                    },
                    None => {
                        let last = armed.looked();
                        assert(last.read(id, offset, length) == armed.read(id, offset, length));
                    },
                }
            }
        },
    }
}

proof fn lemma_clamped(before: Seq<u8>, data: Seq<u8>)
    requires
        before.len() + data.len() <= isize::MAX,
        0 < data.len() <= u32::MAX,
    ensures
        clamped(before + data, before.len() as u64, data.len() as u32) == Some(data),
{
    assert((before + data).subrange(before.len() as int, (before.len() + data.len()) as int)
        =~= data);
}

/// Replayed data stands in the segment with the same identifier, behind
/// what was replayed of it before: replaying in log order gives the same
/// offsets.
pub proof fn law_replay_rebuilds_segment(
    p: PoolView,
    id: SegmentId,
    data: Seq<u8>,
    ids: (SegmentId, SegmentId),
    now: u64,
    i: int,
)
    requires
        first_from(p.slots, Wanted::Holding(id), 0) == Some(i),
        p.append_replayed(id, data, ids, now).1 is Ok,
    ensures
        ({
            let a = p.slots[i]->Appending_0;
            let (after, r) = p.append_replayed(id, data, ids, now);
            &&& a.id == id
            &&& !a.appended(data, now).full() ==> after.slots[i] == SlotView::Appending(
                a.appended(data, now),
            ) && r->Ok_0 is None
            &&& a.appended(data, now).full() ==> {
                &&& after.sealing.contains_key(id.bits)
                &&& after.sealing[id.bits] == a.data + data
                &&& r->Ok_0 is Some
                &&& r->Ok_0->0.segment_id == id
                &&& r->Ok_0->0.data == a.data + data
            }
        }),
{
    lemma_first_from(p.slots, Wanted::Holding(id), 0);
}

/// No empty segment is ever swept, and a sweep leaves no segment that was idle
/// appending.
pub proof fn law_sweep_seals_idle_data_only(slot: SlotView, timeout: u64, now: u64)
    ensures
        slot.is_idle(timeout, now) <==> slot.swept(timeout, now) != slot,
        slot.is_idle(timeout, now) ==> slot_data(slot).len() > 0,
        slot_data(slot.swept(timeout, now)) == slot_data(slot),
        slot_id(slot.swept(timeout, now)) == slot_id(slot),
        !slot.swept(timeout, now).is_idle(timeout, now),
{
}

} // verus!
