//! What a fold makes of the events of one segment.

use crate::error::{Error, TransitionError};
use crate::event_record::EventView;
use crate::lifecycle::{entry_at, EntryView, SegmentState};
use crate::recovery::{
    fold_event, fold_items, law_fold_in_two_parts, sealed_metadata, FoldEnd, FoldState, ItemView,
};
use crate::types::{reserved_metadata, EventWalPos, SegmentId};
use vstd::prelude::*;

verus! {

/// The items that are events of the given segment, in order.
pub open spec fn own_items(items: Seq<ItemView>, id: SegmentId) -> Seq<ItemView>
    decreases items.len(),
{
    if items.len() == 0 {
        Seq::empty()
    } else {
        let rest = own_items(items.drop_last(), id);
        match items.last() {
            ItemView::Event(_, e) => if e.segment_id() == id {
                rest.push(items.last())
            } else {
                rest
            },
            ItemView::Failed(_) => rest,
        }
    }
}

/// Two folds know the same of a segment.
pub open spec fn agree_on(a: FoldState, b: FoldState, id: SegmentId, now: u64) -> bool {
    &&& entry_at(a.entries, id, now) == entry_at(b.entries, id, now)
    &&& a.seen.contains(id.bits) == b.seen.contains(id.bits)
    &&& a.deleted.contains(id.bits) == b.deleted.contains(id.bits)
}

/// The last event is applied to what those before it left.
proof fn lemma_fold_last(st: FoldState, items: Seq<ItemView>, grace: u64, now: u64)
    requires
        items.len() > 0,
        forall|i: int| 0 <= i < items.len() ==> #[trigger] items[i] is Event,
    ensures
        fold_items(st, items, grace, now) == (match fold_items(st, items.drop_last(), grace, now) {
            FoldEnd::Done(mid) => fold_items(mid, seq![items.last()], grace, now),
            FoldEnd::Aborted(mid, e) => FoldEnd::Aborted(mid, e),
        }),
{
    let front = items.drop_last();
    assert forall|i: int| 0 <= i < front.len() implies #[trigger] front[i] is Event by {
        assert(front[i] == items[i]);
    }
    law_fold_in_two_parts(st, front, seq![items.last()], grace, now);
    assert(front + seq![items.last()] =~= items);
}

/// One event folds as its transition.
proof fn lemma_fold_one(st: FoldState, item: ItemView, grace: u64, now: u64)
    requires
        item is Event,
    ensures
        ({
            let end = fold_items(st, seq![item], grace, now);
            match fold_event(st, item->Event_1, grace, now) {
                Ok(next) => end == FoldEnd::Done(next),
                Err(_) => end is Aborted,
            }
        }),
{
    let one = seq![item];
    assert(one[0] == item);
    assert(one.drop_first() =~= Seq::empty());
    reveal_with_fuel(fold_items, 2);
}

/// The entry of a segment depends on its own events alone: where a whole log can
/// be folded, the events of one segment can be folded without the others, from
/// any start that knows the same of it, and they leave the same of it.
pub proof fn law_entry_depends_on_own_events(
    a: FoldState,
    b: FoldState,
    items: Seq<ItemView>,
    id: SegmentId,
    grace: u64,
    now: u64,
)
    requires
        agree_on(a, b, id, now),
        forall|i: int| 0 <= i < items.len() ==> #[trigger] items[i] is Event,
        fold_items(a, items, grace, now) is Done,
    ensures
        fold_items(b, own_items(items, id), grace, now) is Done,
        agree_on(
            fold_items(a, items, grace, now)->Done_0,
            fold_items(b, own_items(items, id), grace, now)->Done_0,
            id,
            now,
        ),
    decreases items.len(),
{
    if items.len() > 0 {
        let front = items.drop_last();
        let last = items.last();
        assert(last == items[items.len() - 1]);
        let e = last->Event_1;
        assert forall|i: int| 0 <= i < front.len() implies #[trigger] front[i] is Event by {
            assert(front[i] == items[i]);
        }
        lemma_fold_last(a, items, grace, now);
        law_entry_depends_on_own_events(a, b, front, id, grace, now);
        let mid_a = fold_items(a, front, grace, now)->Done_0;
        let mid_b = fold_items(b, own_items(front, id), grace, now)->Done_0;
        lemma_fold_one(mid_a, last, grace, now);
        let next_a = fold_event(mid_a, e, grace, now)->Ok_0;
        let own = own_items(items, id);
        if e.segment_id() == id {
            lemma_own_items_are_events(items, id);
            lemma_fold_last(b, own, grace, now);
            assert(own.drop_last() =~= own_items(front, id));
            lemma_fold_one(mid_b, last, grace, now);
            assert(fold_event(mid_b, e, grace, now) is Ok);
            assert(agree_on(next_a, fold_event(mid_b, e, grace, now)->Ok_0, id, now));
        } else {
            assert(e.segment_id().bits != id.bits);
            assert(agree_on(next_a, mid_b, id, now));
        }
    }
}

proof fn lemma_own_items_are_events(items: Seq<ItemView>, id: SegmentId)
    ensures
        forall|i: int|
            0 <= i < own_items(items, id).len() ==> #[trigger] own_items(items, id)[i] is Event,
    decreases items.len(),
{
    if items.len() > 0 {
        let rest = own_items(items.drop_last(), id);
        let own = own_items(items, id);
        lemma_own_items_are_events(items.drop_last(), id);
        assert forall|i: int| 0 <= i < own.len() implies #[trigger] own[i] is Event by {
            if i < rest.len() {
                assert(own[i] == rest[i]);
            }
        }
    }
}

/// A segment's events in the order of a life: it is reserved, perhaps sealed,
/// perhaps deleted, and the log may end anywhere on the way.
pub open spec fn is_life(own: Seq<ItemView>) -> bool {
    &&& own.len() <= 3
    &&& own.len() > 0 ==> own[0]->Event_1 is Reserve
    &&& own.len() > 1 ==> own[1]->Event_1 is Seal || own[1]->Event_1 is Delete
    &&& own.len() > 2 ==> own[1]->Event_1 is Seal && own[2]->Event_1 is Delete
}

/// The entry that a life leaves: none when the segment is unknown or deleted.
pub open spec fn entry_of_life(own: Seq<ItemView>) -> Option<EntryView> {
    if own.len() == 0 {
        None
    } else {
        match own.last()->Event_1 {
            EventView::Reserve(r) => Some(
                EntryView::fresh(
                    SegmentState::Reserved,
                    reserved_metadata(r.segment_id, r.tier, r.ec_k, r.ec_m),
                ),
            ),
            EventView::Seal(s) => Some(
                EntryView {
                    data_wal_pos: Some(s.data_wal_pos),
                    repacked_from: s.repacked_from,
                    ..EntryView::fresh(SegmentState::Sealed, sealed_metadata(s))
                },
            ),
            _ => None,
        }
    }
}

/// The fold of an empty log.
pub open spec fn nothing_folded() -> FoldState {
    FoldState { entries: Map::empty(), seen: Set::empty(), deleted: Set::empty() }
}

/// The state holds just what the lives of the segments leave.
pub open spec fn holds_lives(st: FoldState, items: Seq<ItemView>) -> bool {
    &&& forall|id: SegmentId| #[trigger]
        st.entries.contains_key(id) <==> entry_of_life(own_items(items, id)) is Some
    &&& forall|id: SegmentId| #[trigger]
        st.entries.contains_key(id) ==> Some(st.entries[id]) == entry_of_life(own_items(items, id))
    &&& forall|bits: u128| #[trigger]
        st.seen.contains(bits) <==> own_items(items, SegmentId { bits }).len() > 0
}

proof fn lemma_lives_fold(events: Seq<ItemView>, now: u64)
    requires
        forall|i: int| 0 <= i < events.len() ==> #[trigger] events[i] is Event,
        forall|id: SegmentId| is_life(#[trigger] own_items(events, id)),
    ensures
        fold_items(nothing_folded(), events, 0, now) is Done,
        holds_lives(fold_items(nothing_folded(), events, 0, now)->Done_0, events),
    decreases events.len(),
{
    if events.len() > 0 {
        let front = events.drop_last();
        let last = events.last();
        assert(last == events[events.len() - 1]);
        let e = last->Event_1;
        let id = e.segment_id();
        assert forall|i: int| 0 <= i < front.len() implies #[trigger] front[i] is Event by {
            assert(front[i] == events[i]);
        }
        assert forall|x: SegmentId| is_life(#[trigger] own_items(front, x)) by {
            let own = own_items(events, x);
            let rest = own_items(front, x);
            assert(is_life(own));
            if x == id {
                assert(own == rest.push(last));
                assert forall|i: int| 0 <= i < rest.len() implies own[i] == rest[i] by {}
            }
        }
        lemma_lives_fold(front, now);
        lemma_fold_last(nothing_folded(), events, 0, now);
        let mid = fold_items(nothing_folded(), front, 0, now)->Done_0;
        lemma_fold_one(mid, last, 0, now);
        let rest = own_items(front, id);
        let own = own_items(events, id);
        assert(own == rest.push(last));
        assert(is_life(own));
        lemma_own_items_are_events(front, id);
        if rest.len() > 0 {
            assert(own[rest.len() - 1] == rest.last());
        }
        assert(own[rest.len() as int] == last);
        assert(mid.entries.contains_key(id) <==> entry_of_life(rest) is Some);
        assert(fold_event(mid, e, 0, now) is Ok);
        let next = fold_event(mid, e, 0, now)->Ok_0;
        assert forall|x: SegmentId|
            {
                &&& #[trigger] next.entries.contains_key(x) <==> entry_of_life(
                    own_items(events, x),
                ) is Some
                &&& next.entries.contains_key(x) ==> Some(next.entries[x]) == entry_of_life(
                    own_items(events, x),
                )
            } by {
            assert(mid.entries.contains_key(x) <==> entry_of_life(own_items(front, x)) is Some);
            if x != id {
                assert(own_items(events, x) == own_items(front, x));
                assert(mid.entries.contains_key(x) ==> !mid.entries[x].expired(now));
            }
        }
        assert forall|bits: u128| #[trigger]
            next.seen.contains(bits) <==> own_items(events, SegmentId { bits }).len() > 0 by {
            assert(mid.seen.contains(bits) <==> own_items(front, SegmentId { bits }).len() > 0);
            if bits != id.bits {
                assert(SegmentId { bits } != id);
            }
        }
    }
}

/// A log in which every segment's events are the beginning of a life folds into
/// an empty registry without grace: to its end, a torn record or the first other
/// failure, which is given as it is. Each segment that occurs is counted; one
/// that was last reserved is reserved, one that was last sealed is sealed with
/// what its event says, and no other has an entry. So two folds of one log leave
/// the same entries, whenever they run.
pub proof fn law_lives_fold(events: Seq<ItemView>, tail: Seq<ItemView>, now: u64)
    requires
        forall|i: int| 0 <= i < events.len() ==> #[trigger] events[i] is Event,
        forall|id: SegmentId| is_life(#[trigger] own_items(events, id)),
        tail.len() <= 1,
        tail.len() == 1 ==> tail[0] is Failed,
    ensures
        ({
            let end = fold_items(nothing_folded(), events + tail, 0, now);
            let st = fold_items(nothing_folded(), events, 0, now)->Done_0;
            &&& if tail.len() == 0 || tail[0]->Failed_0 is TornEventRecord {
                end == FoldEnd::Done(st)
            } else {
                end == FoldEnd::Aborted(st, tail[0]->Failed_0)
            }
            &&& holds_lives(st, events)
        }),
{
    lemma_lives_fold(events, now);
    law_fold_in_two_parts(nothing_folded(), events, tail, 0, now);
}

/// A folded reservation leaves a new segment reserved with the tier and the coding
/// of the event. Folded again, it changes nothing.
pub proof fn law_folded_reservation(st: FoldState, e: EventView, grace: u64, now: u64)
    requires
        e is Reserve,
        entry_at(st.entries, e.segment_id(), now) is None,
    ensures
        fold_event(st, e, grace, now) matches Ok(next) && {
            let r = e->Reserve_0;
            &&& entry_at(next.entries, r.segment_id, now) matches Some(f) && {
                &&& f.state == SegmentState::Reserved
                &&& f.metadata.segment_id == r.segment_id
                &&& f.metadata.size_tier == r.tier
                &&& f.metadata.ec_k == r.ec_k
                &&& f.metadata.ec_m == r.ec_m
                &&& f.metadata.merkle_root is None
                &&& f.metadata.sealed_at is None
                &&& f.data_wal_pos is None
            }
            &&& next.seen == st.seen.insert(r.segment_id.bits)
            &&& next.deleted == st.deleted
            &&& fold_event(next, e, grace, now) matches Ok(again) && entry_at(
                again.entries,
                r.segment_id,
                now,
            ) == entry_at(next.entries, r.segment_id, now)
        },
{
}

/// A folded seal leaves the segment sealed with all that the event says: the root,
/// the tier, the coding, the pool, the position of its last data entry, and the
/// segment that it was repacked from.
pub proof fn law_folded_seal(st: FoldState, e: EventView, grace: u64, now: u64)
    requires
        e is Seal,
        entry_at(st.entries, e.segment_id(), now) is Some,
        st.entries[e.segment_id()].state == SegmentState::Reserved,
    ensures
        fold_event(st, e, grace, now) matches Ok(next) && {
            let s = e->Seal_0;
            &&& entry_at(next.entries, s.segment_id, now) matches Some(f) && {
                &&& f.state == SegmentState::Sealed
                &&& f.metadata.segment_id == s.segment_id
                &&& f.metadata.merkle_root == Some(s.merkle_root)
                &&& f.metadata.size_tier == s.tier
                &&& f.metadata.ec_k == s.ec_k
                &&& f.metadata.ec_m == s.ec_m
                &&& f.metadata.pool_id == s.pool_id
                &&& f.metadata.sealed_at is Some
                &&& f.data_wal_pos == Some(s.data_wal_pos)
                &&& f.repacked_from == s.repacked_from
                &&& f.in_flight is None
            }
            &&& next.seen == st.seen.insert(s.segment_id.bits)
            &&& next.deleted == st.deleted
        },
{
}

/// A folded deletion leaves the segment deleted, and without a grace gone. A seal of
/// a sealed segment, and a reservation of a sealed or deleted one that is still
/// seen, are not legal.
pub proof fn law_folded_deletion(st: FoldState, e: EventView, grace: u64, now: u64)
    requires
        e is Delete,
        entry_at(st.entries, e.segment_id(), now) is Some,
        st.entries[e.segment_id()].state != SegmentState::Deleted,
        now + grace <= u64::MAX,
    ensures
        fold_event(st, e, grace, now) matches Ok(next) && {
            &&& entry_at(next.entries, e.segment_id(), now) matches Some(f) ==> f.state
                == SegmentState::Deleted && grace > 0
            &&& grace > 0 ==> entry_at(next.entries, e.segment_id(), now) is Some
            &&& next.is_deleted(e.segment_id(), now)
            &&& next.deleted == st.deleted.insert(e.segment_id().bits)
            &&& next.seen == st.seen.insert(e.segment_id().bits)
        },
{
}

/// A second seal, and a reservation of a segment that is sealed, end the fold.
pub proof fn law_illegal_events_are_rejected(st: FoldState, e: EventView, grace: u64, now: u64)
    requires
        e is Seal || e is Reserve,
        entry_at(st.entries, e.segment_id(), now) is Some,
        st.entries[e.segment_id()].state == SegmentState::Sealed,
    ensures
        fold_event(st, e, grace, now) == Err::<FoldState, TransitionError>(
            TransitionError::AlreadySealed,
        ),
{
}

/// A fold has seen the segments that it started with and those of its events, and
/// has applied each event or stopped: at a torn record it is done, and at any other
/// failure, or at an event that is not legal, it ends with that.
pub proof fn law_fold_sees_its_events(
    st: FoldState,
    items: Seq<ItemView>,
    grace: u64,
    now: u64,
    bits: u128,
)
    requires
        forall|i: int| 0 <= i < items.len() ==> #[trigger] items[i] is Event,
    ensures
        fold_items(st, items, grace, now) matches FoldEnd::Done(end) ==> (end.seen.contains(bits)
            <==> st.seen.contains(bits) || exists|i: int|
            0 <= i < items.len() && (#[trigger] items[i])->Event_1.segment_id().bits == bits),
        fold_items(st, items, grace, now) matches FoldEnd::Aborted(_, error) ==> error
            is EventFoldError,
    decreases items.len(),
{
    if items.len() > 0 {
        let rest = items.drop_first();
        assert forall|i: int| 0 <= i < rest.len() implies #[trigger] rest[i] is Event by {
            assert(items[i + 1] is Event);
        }
        assert(items[0] is Event);
        let e = items[0]->Event_1;
        if let Ok(next) = fold_event(st, e, grace, now) {
            law_fold_sees_its_events(next, rest, grace, now, bits);
            assert(next.seen == st.seen.insert(e.segment_id().bits));
            if exists|i: int|
                0 <= i < rest.len() && (#[trigger] rest[i])->Event_1.segment_id().bits == bits {
                let i = choose|i: int|
                    0 <= i < rest.len() && (#[trigger] rest[i])->Event_1.segment_id().bits == bits;
                assert(items[i + 1]->Event_1.segment_id().bits == bits);
            }
            if exists|i: int|
                0 <= i < items.len() && (#[trigger] items[i])->Event_1.segment_id().bits == bits {
                let i = choose|i: int|
                    0 <= i < items.len() && (#[trigger] items[i])->Event_1.segment_id().bits
                        == bits;
                if i > 0 {
                    assert(rest[i - 1]->Event_1.segment_id().bits == bits);
                }
            }
        }
    }
}

/// The first failure of a reading ends the fold: a torn record ends it well, with
/// what was applied before; any other failure is given as it is.
pub proof fn law_failed_item_ends_fold(
    st: FoldState,
    error: Error,
    rest: Seq<ItemView>,
    grace: u64,
    now: u64,
)
    ensures
        ({
            let items = seq![ItemView::Failed(error)] + rest;
            fold_items(st, items, grace, now) == (if error is TornEventRecord {
                FoldEnd::Done(st)
            } else {
                FoldEnd::Aborted(st, error)
            })
        }),
{
    let items = seq![ItemView::Failed(error)] + rest;
    assert(items[0] == ItemView::Failed(error));
}

/// An event that is not legal ends the fold with its position, its segment and the
/// reason. What was applied before it stays.
pub proof fn law_illegal_event_ends_fold(
    st: FoldState,
    pos: EventWalPos,
    e: EventView,
    rest: Seq<ItemView>,
    grace: u64,
    now: u64,
    id: SegmentId,
)
    requires
        fold_event(st, e, grace, now) is Err,
    ensures
        ({
            let items = seq![ItemView::Event(pos, e)] + rest;
            fold_items(st, items, grace, now) matches FoldEnd::Aborted(left, error) && {
                &&& error == (Error::EventFoldError {
                    pos,
                    segment_id: e.segment_id(),
                    cause: fold_event(st, e, grace, now)->Err_0,
                })
                &&& entry_at(left.entries, id, now) == entry_at(st.entries, id, now)
                &&& left.seen == st.seen
                &&& left.deleted == st.deleted
            }
        }),
{
    let items = seq![ItemView::Event(pos, e)] + rest;
    assert(items[0] == ItemView::Event(pos, e));
}

} // verus!
