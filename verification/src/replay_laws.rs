//! What the replay of several segments into a pool rebuilds.

use crate::pool::{clamped, first_from, lemma_first_from, read_slots, PoolView, Wanted};
use crate::types::SegmentId;
use vstd::prelude::*;

verus! {

/// One replay: the segment, its data, the identifiers of what may be created on
/// the way, and the time.
pub struct Replay {
    pub id: SegmentId,
    pub data: Seq<u8>,
    pub ids: (SegmentId, SegmentId),
    pub now: u64,
}

/// The pool after replays, one after the other.
pub open spec fn after_replays(p: PoolView, replays: Seq<Replay>) -> PoolView
    decreases replays.len(),
{
    if replays.len() == 0 {
        p
    } else {
        let r = replays.last();
        after_replays(p, replays.drop_last()).append_replayed(r.id, r.data, r.ids, r.now).0
    }
}

/// Every replay is accepted.
pub open spec fn all_accepted(p: PoolView, replays: Seq<Replay>) -> bool
    decreases replays.len(),
{
    replays.len() == 0 || {
        let r = replays.last();
        &&& all_accepted(p, replays.drop_last())
        &&& after_replays(p, replays.drop_last()).append_replayed(r.id, r.data, r.ids, r.now).1 is Ok
    }
}

/// What was replayed of a segment, in order.
pub open spec fn replayed_data(replays: Seq<Replay>, id: SegmentId) -> Seq<u8>
    decreases replays.len(),
{
    if replays.len() == 0 {
        Seq::empty()
    } else {
        let rest = replayed_data(replays.drop_last(), id);
        if replays.last().id == id {
            rest + replays.last().data
        } else {
            rest
        }
    }
}

/// The segments that were replayed.
pub open spec fn replayed_ids(replays: Seq<Replay>) -> Set<SegmentId>
    decreases replays.len(),
{
    if replays.len() == 0 {
        Set::empty()
    } else {
        replayed_ids(replays.drop_last()).insert(replays.last().id)
    }
}

/// No two slots have the same segment, all of them take appends, and nothing
/// waits to be sealed.
pub open spec fn all_appending(p: PoolView) -> bool {
    &&& forall|i: int|
        0 <= i < p.slots.len() ==> (#[trigger] p.slots[i]) is Appending
            && p.slots[i]->Appending_0.target_size == p.target()
    &&& forall|i: int, j: int|
        0 <= i < j < p.slots.len() ==> (#[trigger] p.slots[i])->Appending_0.id != (
        #[trigger] p.slots[j])->Appending_0.id
    &&& p.sealing == Map::<u128, Seq<u8>>::empty()
}

/// A pool into which nothing was written.
pub open spec fn is_unwritten(p: PoolView) -> bool {
    &&& all_appending(p)
    &&& forall|i: int| 0 <= i < p.slots.len() ==> (#[trigger] p.slots[i])->Appending_0.data.len() == 0
}

/// The slots hold just what was replayed.
spec fn holds_replayed(p: PoolView, replays: Seq<Replay>) -> bool {
    &&& all_appending(p)
    &&& forall|i: int|
        0 <= i < p.slots.len() ==> (#[trigger] p.slots[i])->Appending_0.data == replayed_data(
            replays,
            p.slots[i]->Appending_0.id,
        )
    &&& forall|id: SegmentId|
        (#[trigger] replayed_data(replays, id)).len() > 0 ==> exists|i: int|
            0 <= i < p.slots.len() && (#[trigger] p.slots[i])->Appending_0.id == id
}

proof fn lemma_replayed_ids(replays: Seq<Replay>)
    ensures
        replayed_ids(replays).finite(),
        forall|id: SegmentId|
            (#[trigger] replayed_data(replays, id)).len() > 0 ==> replayed_ids(replays).contains(id),
    decreases replays.len(),
{
    if replays.len() > 0 {
        lemma_replayed_ids(replays.drop_last());
        assert forall|id: SegmentId| (#[trigger] replayed_data(replays, id)).len()
            > 0 implies replayed_ids(replays).contains(id) by {
            let rest = replayed_data(replays.drop_last(), id);
            assert(rest.len() > 0 ==> replayed_ids(replays.drop_last()).contains(id));
        }
    }
}

/// While not more segments than slots are replayed, a segment that no slot has
/// finds an empty slot.
proof fn lemma_room(p: PoolView, replays: Seq<Replay>, id: SegmentId, all: Set<SegmentId>)
    requires
        holds_replayed(p, replays),
        replayed_ids(replays).subset_of(all),
        all.contains(id),
        all.finite(),
        all.len() <= p.slots.len(),
        forall|i: int| 0 <= i < p.slots.len() ==> (#[trigger] p.slots[i])->Appending_0.id != id,
    ensures
        exists|i: int| 0 <= i < p.slots.len() && Wanted::Empty.holds(#[trigger] p.slots[i]),
{
    if forall|i: int| 0 <= i < p.slots.len() ==> !Wanted::Empty.holds(#[trigger] p.slots[i]) {
        let held = Seq::new(p.slots.len(), |i: int| p.slots[i]->Appending_0.id);
        let more = held.push(id);
        lemma_replayed_ids(replays);
        assert forall|i: int, j: int| 0 <= i < j < more.len() implies more[i] != more[j] by {
            assert(p.slots[i]->Appending_0.id != id);
            if j < p.slots.len() {
                assert(p.slots[i]->Appending_0.id != p.slots[j]->Appending_0.id);
            }
        }
        assert(more.no_duplicates());
        more.unique_seq_to_set();
        assert forall|x: SegmentId| more.to_set().contains(x) implies all.contains(x) by {
            let i = choose|i: int| 0 <= i < more.len() && more[i] == x;
            if i < p.slots.len() {
                let a = p.slots[i]->Appending_0;
                assert(!Wanted::Empty.holds(p.slots[i]));
                assert(replayed_data(replays, a.id) == a.data);
                assert(replayed_ids(replays).contains(a.id));
            }
        }
        vstd::set_lib::lemma_len_subset(more.to_set(), all);
        assert(false);
    }
}

/// One replay goes to the slot of its segment, or to an empty one.
proof fn lemma_replay_step(p: PoolView, replays: Seq<Replay>, r: Replay, all: Set<SegmentId>)
    requires
        holds_replayed(p, replays),
        replayed_ids(replays).subset_of(all),
        all.contains(r.id),
        all.finite(),
        all.len() <= p.slots.len(),
        replayed_data(replays, r.id).len() + r.data.len() < p.target(),
    ensures
        p.append_replayed(r.id, r.data, r.ids, r.now).1 is Ok,
        p.append_replayed(r.id, r.data, r.ids, r.now).0.slots.len() == p.slots.len(),
        p.append_replayed(r.id, r.data, r.ids, r.now).0.target() == p.target(),
        holds_replayed(p.append_replayed(r.id, r.data, r.ids, r.now).0, replays.push(r)),
{
    let more = replays.push(r);
    assert(more.drop_last() =~= replays);
    let q = p.append_replayed(r.id, r.data, r.ids, r.now).0;
    lemma_first_from(p.slots, Wanted::NeedsSegment, 0);
    lemma_first_from(p.slots, Wanted::Holding(r.id), 0);
    lemma_first_from(p.slots, Wanted::Empty, 0);
    assert(first_from(p.slots, Wanted::NeedsSegment, 0) is None);
    assert(p.activated(r.ids.0, r.now) == p);
    let at = if first_from(p.slots, Wanted::Holding(r.id), 0) is Some {
        first_from(p.slots, Wanted::Holding(r.id), 0)->0
    } else {
        lemma_room(p, replays, r.id, all);
        first_from(p.slots, Wanted::Empty, 0)->0
    };
    let old_data = if first_from(p.slots, Wanted::Holding(r.id), 0) is Some {
        p.slots[at]->Appending_0.data
    } else {
        Seq::empty()
    };
    assert(0 <= at < p.slots.len());
    assert(old_data == replayed_data(replays, r.id)) by {
        if first_from(p.slots, Wanted::Holding(r.id), 0) is Some {
            assert(p.slots[at]->Appending_0.id == r.id);
        } else {
            assert forall|i: int| 0 <= i < p.slots.len() implies (#[trigger] p.slots[i])->Appending_0.id
                != r.id by {
                assert(!Wanted::Holding(r.id).holds(p.slots[i]));
            }
            assert(replayed_data(replays, r.id).len() == 0);
            assert(replayed_data(replays, r.id) =~= Seq::empty());
        }
    }
    assert(q.slots.len() == p.slots.len());
    assert(q.slots[at] is Appending && q.slots[at]->Appending_0.id == r.id
        && q.slots[at]->Appending_0.data == old_data + r.data
        && q.slots[at]->Appending_0.target_size == p.target());
    assert(q.sealing == p.sealing);
    assert forall|i: int| 0 <= i < p.slots.len() && i != at implies #[trigger] q.slots[i]
        == p.slots[i] by {}
    assert forall|i: int| 0 <= i < p.slots.len() && i != at implies (#[trigger] p.slots[i])->Appending_0.id
        != r.id by {
        if first_from(p.slots, Wanted::Holding(r.id), 0) is Some {
            assert(p.slots[at]->Appending_0.id == r.id);
        } else {
            assert(!Wanted::Holding(r.id).holds(p.slots[i]));
        }
    }
    assert forall|i: int| 0 <= i < q.slots.len() implies (#[trigger] q.slots[i])->Appending_0.data
        == replayed_data(more, q.slots[i]->Appending_0.id) by {
        if i != at {
            assert(q.slots[i] == p.slots[i]);
            assert(p.slots[i]->Appending_0.id != r.id);
        }
    }
    assert forall|id: SegmentId| (#[trigger] replayed_data(more, id)).len() > 0 implies exists|i: int|
        0 <= i < q.slots.len() && (#[trigger] q.slots[i])->Appending_0.id == id by {
        if id == r.id {
            assert(q.slots[at]->Appending_0.id == id);
        } else {
            assert(replayed_data(replays, id).len() > 0);
            let i = choose|i: int|
                0 <= i < p.slots.len() && (#[trigger] p.slots[i])->Appending_0.id == id;
            assert(p.slots[i]->Appending_0.data == replayed_data(replays, id));
            if i == at {
                assert(Wanted::Empty.holds(p.slots[at]));
            }
            assert(q.slots[i] == p.slots[i]);
        }
    }
}

proof fn lemma_replays(p: PoolView, replays: Seq<Replay>, all: Set<SegmentId>)
    requires
        is_unwritten(p),
        replayed_ids(replays).subset_of(all),
        all.finite(),
        all.len() <= p.slots.len(),
        forall|id: SegmentId|
            replayed_ids(replays).contains(id) ==> (#[trigger] replayed_data(replays, id)).len()
                < p.target(),
    ensures
        all_accepted(p, replays),
        after_replays(p, replays).slots.len() == p.slots.len(),
        after_replays(p, replays).target() == p.target(),
        holds_replayed(after_replays(p, replays), replays),
    decreases replays.len(),
{
    if replays.len() == 0 {
        assert forall|i: int| 0 <= i < p.slots.len() implies (#[trigger] p.slots[i])->Appending_0.data
            == replayed_data(replays, p.slots[i]->Appending_0.id) by {
            assert(p.slots[i]->Appending_0.data =~= Seq::empty());
        }
    } else {
        let front = replays.drop_last();
        let r = replays.last();
        assert forall|id: SegmentId| replayed_ids(front).contains(id) implies (
        #[trigger] replayed_data(front, id)).len() < p.target() by {
            assert(replayed_ids(replays).contains(id));
            assert(replayed_data(replays, id).len() >= replayed_data(front, id).len());
        }
        assert(replayed_ids(front).subset_of(all));
        lemma_replays(p, front, all);
        assert(replayed_ids(replays).contains(r.id));
        assert(replayed_data(replays, r.id).len() == replayed_data(front, r.id).len()
            + r.data.len());
        lemma_replay_step(after_replays(p, front), front, r, all);
        assert(front.push(r) =~= replays);
    }
}

/// What the slots give of a segment that one of them has.
proof fn lemma_read_held(
    p: PoolView,
    at: int,
    id: SegmentId,
    offset: u64,
    length: u32,
    from: int,
)
    requires
        all_appending(p),
        0 <= at < p.slots.len(),
        p.slots[at]->Appending_0.id == id,
        0 <= from <= p.slots.len(),
    ensures
        read_slots(p.slots, id, offset, length, from) == (if from <= at {
            clamped(p.slots[at]->Appending_0.data, offset, length)
        } else {
            None
        }),
    decreases p.slots.len() - from,
{
    if from < p.slots.len() {
        lemma_read_held(p, at, id, offset, length, from + 1);
        assert(p.slots[from] is Appending);
        if from < at {
            assert(p.slots[from]->Appending_0.id != p.slots[at]->Appending_0.id);
        } else if from > at {
            assert(p.slots[at]->Appending_0.id != p.slots[from]->Appending_0.id);
        }
    }
}

/// What the slots give of a segment that none of them has.
proof fn lemma_read_unheld(p: PoolView, id: SegmentId, offset: u64, length: u32, from: int)
    requires
        all_appending(p),
        forall|i: int| 0 <= i < p.slots.len() ==> (#[trigger] p.slots[i])->Appending_0.id != id,
        0 <= from <= p.slots.len(),
    ensures
        read_slots(p.slots, id, offset, length, from) is None,
    decreases p.slots.len() - from,
{
    if from < p.slots.len() {
        assert(p.slots[from]->Appending_0.id != id);
        lemma_read_unheld(p, id, offset, length, from + 1);
    }
}

/// Replays rebuild each segment under its own identifier, in their order and
/// without bytes of another, however they are interleaved: into a pool that was
/// not written to, of not more segments than it has slots, each of less than the
/// target size. Every replay is accepted, and what is then read of a segment is
/// what was replayed of it.
pub proof fn law_replays_keep_segments_apart(
    p: PoolView,
    replays: Seq<Replay>,
    id: SegmentId,
    offset: u64,
    length: u32,
)
    requires
        is_unwritten(p),
        replayed_ids(replays).len() <= p.slots.len(),
        forall|x: SegmentId|
            replayed_ids(replays).contains(x) ==> (#[trigger] replayed_data(replays, x)).len()
                < p.target(),
    ensures
        all_accepted(p, replays),
        after_replays(p, replays).read(id, offset, length) == clamped(
            replayed_data(replays, id),
            offset,
            length,
        ),
{
    lemma_replayed_ids(replays);
    lemma_replays(p, replays, replayed_ids(replays));
    let q = after_replays(p, replays);
    if exists|i: int| 0 <= i < q.slots.len() && (#[trigger] q.slots[i])->Appending_0.id == id {
        let at = choose|i: int|
            0 <= i < q.slots.len() && (#[trigger] q.slots[i])->Appending_0.id == id;
        lemma_read_held(q, at, id, offset, length, 0);
    } else {
        assert(replayed_data(replays, id).len() == 0);
        lemma_read_unheld(q, id, offset, length, 0);
    }
}

} // verus!
