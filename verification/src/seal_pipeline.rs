//! The steps of sealing what the pools hand over.
//!
//! The pipeline drains the seal queues of the small and the standard pool. For
//! each segment it makes sure that there is a reservation, has the root of the
//! data built, has the segment persisted, and tells of it.

use crate::coordinator::{
    requested, ChangeView, PendingTransition, PendingView, SegmentLifecycleCoordinator,
};
use crate::error::{TransitionError, TransitionView};
use crate::lifecycle::{entry_at, Entries};
use crate::pool::SealingWork;
use crate::types::{reserved_metadata, HashOutput, SegmentId, SizeTier};
use vstd::prelude::*;

verus! {

/// One of the two seal queues.
#[derive(Clone, Copy, Debug, PartialEq, Eq, Structural)]
pub enum SealQueue {
    /// That of the small pool.
    Small,
    /// That of the standard pool.
    Standard,
}

/// The queue of the pool that a tier's segments come from.
pub open spec fn tier_queue(tier: SizeTier) -> SealQueue {
    if tier == SizeTier::Small {
        SealQueue::Small
    } else {
        SealQueue::Standard
    }
}

/// The queue of the pool that a tier's segments come from, whose permits bound
/// their seals and whose buffers are recycled.
pub fn queue_of(tier: SizeTier) -> (q: SealQueue)
    ensures
        q == if tier == SizeTier::Small {
            SealQueue::Small
        } else {
            SealQueue::Standard
        },
        q == tier_queue(tier),
{
    match tier {
        SizeTier::Small => SealQueue::Small,
        _ => SealQueue::Standard,
    }
}

/// Which seal queues are still open.
#[derive(Clone, Copy, Debug, PartialEq, Eq, Structural)]
pub struct SealDrain {
    /// The small pool's queue is open.
    pub small_open: bool,
    /// The standard pool's queue is open.
    pub standard_open: bool,
}

impl SealDrain {
    /// A drain of the two queues, given whether each could be taken: it runs
    /// only when both could.
    pub fn start(small: bool, standard: bool) -> (drain: Option<Self>)
        ensures
            drain == (if small && standard {
                Some(SealDrain { small_open: true, standard_open: true })
            } else {
                None::<SealDrain>
            }),
    {
        if small && standard {
            Some(SealDrain { small_open: true, standard_open: true })
        } else {
            None
        }
    }

    /// A queue was closed. The drain ends when both are.
    pub fn closed(&mut self, queue: SealQueue) -> (ended: bool)
        ensures
            *final(self) == (match queue {
                SealQueue::Small => SealDrain { small_open: false, ..*old(self) },
                SealQueue::Standard => SealDrain { standard_open: false, ..*old(self) },
            }),
            ended == (!final(self).small_open && !final(self).standard_open),
    {
        match queue {
            SealQueue::Small => {
                self.small_open = false;
            },
            SealQueue::Standard => {
                self.standard_open = false;
            },
        }
        !self.small_open && !self.standard_open
    }
}

/// What is done next for a segment.
#[derive(Debug)]
pub enum SealStep {
    /// Complete this reservation first.
    Reserve(PendingTransition),
    /// Build the root of the data, and persist the segment.
    Persist,
    /// Leave the segment to the replay after a restart; its data stays
    /// readable.
    Defer(TransitionError),
}

/// The mathematical view of [`SealStep`].
#[verifier::ext_equal]
pub enum StepView {
    Reserve(PendingView),
    Persist,
    Defer(TransitionView),
}

impl View for SealStep {
    type V = StepView;

    open spec fn view(&self) -> StepView {
        match *self {
            SealStep::Reserve(p) => StepView::Reserve(p@),
            SealStep::Persist => StepView::Persist,
            SealStep::Defer(e) => StepView::Defer(e@),
        }
    }
}

/// The step behind a reservation that was answered so: a segment that is
/// already sealed or deleted goes on, and is then turned down by the seal.
pub open spec fn after_reservation(r: Result<(), TransitionView>) -> StepView {
    match r {
        Ok(()) => StepView::Persist,
        Err(TransitionView::AlreadySealed) => StepView::Persist,
        Err(TransitionView::AlreadyDeleted) => StepView::Persist,
        Err(e) => StepView::Defer(e),
    }
}

/// The first step for a segment: a segment without an entry is reserved, since
/// its seal may be drained before the writer's reservation was applied.
pub open spec fn first_step(
    m: Entries,
    events: bool,
    id: SegmentId,
    tier: SizeTier,
    ec_k: u8,
    ec_m: u8,
    now: u64,
) -> StepView {
    if entry_at(m, id, now) is Some {
        StepView::Persist
    } else {
        match requested(
            m,
            events,
            id,
            ChangeView::Reserve(reserved_metadata(id, tier, ec_k, ec_m)),
            now,
        ) {
            Ok(pending) => StepView::Reserve(pending),
            Err(e) => after_reservation(Err(e)),
        }
    }
}

/// The first step for a segment.
pub fn begin_seal(coordinator: &SegmentLifecycleCoordinator, work: &SealingWork, now: u64) -> (step:
    SealStep)
    ensures
        step@ == first_step(
            coordinator.registry@,
            coordinator.event_log,
            work.segment_id,
            work.tier,
            work.ec_k,
            work.ec_m,
            now,
        ),
{
    if coordinator.registry.get(work.segment_id, now).is_some() {
        return SealStep::Persist;
    }
    match coordinator.request_reserve(work.segment_id, work.tier, work.ec_k, work.ec_m, now) {
        Ok(pending) => SealStep::Reserve(pending),
        Err(e) => reserved(Err(e)),
    }
}

/// The step behind a reservation.
pub fn reserved(r: Result<(), TransitionError>) -> (step: SealStep)
    ensures
        step@ == after_reservation(crate::error::transition_view(r)),
{
    match r {
        Ok(()) => SealStep::Persist,
        Err(e) => match e {
            TransitionError::AlreadySealed => SealStep::Persist,
            TransitionError::AlreadyDeleted => SealStep::Persist,
            e => SealStep::Defer(e),
        },
    }
}

/// What is done when a segment was persisted, or was not.
#[derive(Clone, Copy, Debug)]
pub struct SealEnd {
    /// Who waits for sealed segments is told of this root.
    pub notify: Option<HashOutput>,
    /// The segment's buffer is given back to the pool of this queue.
    pub recycle: Option<SealQueue>,
}

/// Of which root is told, and to which queue's pool the buffer is given back.
pub open spec fn sealed_end(
    tier: SizeTier,
    persisted: bool,
    merkle_root: Option<HashOutput>,
    has_notifier: bool,
) -> (Option<HashOutput>, Option<SealQueue>) {
    if persisted {
        (
            if has_notifier {
                merkle_root
            } else {
                None
            },
            Some(tier_queue(tier)),
        )
    } else {
        (None, None)
    }
}

/// The end of a seal: only a segment that was persisted is told of, with its
/// root when it has one, and only its buffer is given back.
pub fn end_seal(
    tier: SizeTier,
    persisted: bool,
    merkle_root: Option<HashOutput>,
    has_notifier: bool,
) -> (end: SealEnd)
    ensures
        end.notify == (if persisted && has_notifier {
            merkle_root
        } else {
            None
        }),
        end.recycle == (if !persisted {
            None
        } else if tier == SizeTier::Small {
            Some(SealQueue::Small)
        } else {
            Some(SealQueue::Standard)
        }),
        (end.notify, end.recycle) == sealed_end(tier, persisted, merkle_root, has_notifier),
{
    if !persisted {
        return SealEnd { notify: None, recycle: None };
    }
    SealEnd {
        notify: if has_notifier {
            merkle_root
        } else {
            None
        },
        recycle: Some(queue_of(tier)),
    }
}

/// A segment is persisted only when it has an entry, or had to be reserved, or
/// its reservation was refused because it is already sealed or deleted.
pub proof fn law_seal_needs_entry(
    m: Entries,
    events: bool,
    id: SegmentId,
    tier: SizeTier,
    ec_k: u8,
    ec_m: u8,
    now: u64,
)
    ensures
        first_step(m, events, id, tier, ec_k, ec_m, now) is Persist <==> entry_at(m, id, now) is Some,
        first_step(m, events, id, tier, ec_k, ec_m, now) is Reserve <==> entry_at(m, id, now) is None,
{
}

} // verus!
