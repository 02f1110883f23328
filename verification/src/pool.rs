//! A pool of active segments.
//!
//! While one segment is sealed, the others take writes. Each slot of the pool
//! holds an appending segment, or the frozen data of one that is handed over
//! for sealing until a replacement is installed. The frozen data of handed over
//! segments stays readable until it is durable.
//!
//! A slot's segment and its state are one value: a slot that is appending has
//! its buffer, and an append that fills the segment freezes it in the same
//! step. Identifiers of new segments and the time are passed in.

use crate::buf::{bytes_clone, bytes_contents, bytes_copy, bytes_slice, bytes_len};
use crate::buffer::{target_of, ActiveSegment, ActiveView, SealedSegment};
use crate::error::Error;
use crate::types::{SegmentId, SegmentSizeConfig, SizeTier};
use bytes::Bytes;
use std::collections::BTreeMap;
use vstd::prelude::*;

verus! {

/// Longest silence of the pool, in milliseconds, that an append waits out.
pub const SLOT_ACTIVATION_WAIT_MS: u64 = 10;

/// Longest single wait before the slots are looked at again, in milliseconds.
pub const SLOT_ACTIVATION_WAIT_SLICE_MS: u64 = 1;

/// How long a replayed segment may wait for room in the seal queue, in
/// milliseconds.
pub const REPLAY_SEAL_ENQUEUE_DEADLINE_MS: u64 = 30000;

/// Configuration of a pool.
#[derive(Clone, Copy, Debug, PartialEq, Eq, Structural)]
pub struct PoolConfig {
    /// Number of slots.
    pub active_pool_size: usize,
    /// Whether segments get parity when they are sealed.
    pub ec_streaming_encode: bool,
}

/// Erasure-coding parameters.
#[derive(Clone, Copy, Debug, PartialEq, Eq, Structural)]
pub struct CodecConfig {
    /// Number of data shards.
    pub data_shards: u8,
    /// Number of parity shards.
    pub parity_shards: u8,
    /// Size of a shard in bytes.
    pub strip_size_bytes: usize,
}

/// A filled segment on its way to the seal worker.
#[derive(Debug)]
pub struct SealingWork {
    /// The segment.
    pub segment_id: SegmentId,
    /// Its data.
    pub segment_data: Bytes,
    /// Its tier.
    pub tier: SizeTier,
    /// Number of data shards; 0 without erasure coding.
    pub ec_k: u8,
    /// Number of parity shards; 0 without erasure coding.
    pub ec_m: u8,
    /// Size of a shard in bytes; 0 without erasure coding.
    pub strip_size_bytes: usize,
}

/// The mathematical view of [`SealingWork`].
#[verifier::ext_equal]
pub struct WorkView {
    pub segment_id: SegmentId,
    pub data: Seq<u8>,
    pub tier: SizeTier,
    pub ec: (u8, u8, usize),
}

impl View for SealingWork {
    type V = WorkView;

    open spec fn view(&self) -> WorkView {
        WorkView {
            segment_id: self.segment_id,
            data: bytes_contents(self.segment_data),
            tier: self.tier,
            ec: (self.ec_k, self.ec_m, self.strip_size_bytes),
        }
    }
}

/// The mathematical view of [`SealedSegment`].
#[verifier::ext_equal]
pub struct SealedView {
    pub segment_id: SegmentId,
    pub data: Seq<u8>,
    pub tier: SizeTier,
}

impl View for SealedSegment {
    type V = SealedView;

    open spec fn view(&self) -> SealedView {
        SealedView {
            segment_id: self.segment_id,
            data: bytes_contents(self.data),
            tier: self.tier,
        }
    }
}

/// The view of an optional sealed segment.
pub open spec fn sealed_view(s: Option<SealedSegment>) -> Option<SealedView> {
    match s {
        Some(s) => Some(s@),
        None => None,
    }
}

/// What a slot holds.
pub enum SlotState {
    /// A segment that takes writes.
    Appending(ActiveSegment),
    /// The frozen data of a filled segment, until a replacement is installed.
    Sealing(SegmentId, Bytes),
    /// Nothing.
    Idle,
}

/// The mathematical view of [`SlotState`].
#[verifier::ext_equal]
pub enum SlotView {
    Appending(ActiveView),
    Sealing(SegmentId, Seq<u8>),
    Idle,
}

impl View for SlotState {
    type V = SlotView;

    open spec fn view(&self) -> SlotView {
        match *self {
            SlotState::Appending(segment) => SlotView::Appending(segment@),
            SlotState::Sealing(id, data) => SlotView::Sealing(id, bytes_contents(data)),
            SlotState::Idle => SlotView::Idle,
        }
    }
}

impl ActiveView {
    /// The segment as it stands in its slot: frozen once it is full.
    pub open spec fn settled(self) -> SlotView {
        if self.full() {
            SlotView::Sealing(self.id, self.data)
        } else {
            SlotView::Appending(self)
        }
    }

    /// The segment's frozen form.
    pub open spec fn frozen(self) -> SealedView {
        SealedView { segment_id: self.id, data: self.data, tier: self.tier }
    }

    /// The frozen form of a full segment.
    pub open spec fn frozen_if_full(self) -> Option<SealedView> {
        if self.full() {
            Some(self.frozen())
        } else {
            None
        }
    }

    /// The segment has had no append for `timeout` milliseconds.
    pub open spec fn idle(self, timeout: u64, now: u64) -> bool {
        now - self.last_append_ms >= timeout || timeout == 0
    }
}

impl SlotView {
    /// The slot takes an append.
    pub open spec fn accepts(self) -> bool {
        self matches SlotView::Appending(a) && !a.full()
    }

    /// The slot holds a segment with data that has had no append for
    /// `timeout` milliseconds.
    pub open spec fn is_idle(self, timeout: u64, now: u64) -> bool {
        self matches SlotView::Appending(a) && a.data.len() > 0 && a.idle(timeout, now)
    }

    /// The slot after its idle segment was frozen.
    pub open spec fn swept(self, timeout: u64, now: u64) -> SlotView {
        if self.is_idle(timeout, now) {
            SlotView::Sealing(self->Appending_0.id, self->Appending_0.data)
        } else {
            self
        }
    }
}

/// Where an append went.
#[derive(Debug)]
pub struct AppendOutcome {
    /// The segment.
    pub segment_id: SegmentId,
    /// Offset of the data within the segment.
    pub offset: u64,
    /// Length of the data.
    pub length: u32,
    /// The segment, when the append filled it.
    pub sealed: Option<SealedSegment>,
}

/// The mathematical view of [`AppendOutcome`].
#[verifier::ext_equal]
pub struct OutcomeView {
    pub segment_id: SegmentId,
    pub offset: int,
    pub length: int,
    pub sealed: Option<SealedView>,
}

impl View for AppendOutcome {
    type V = OutcomeView;

    open spec fn view(&self) -> OutcomeView {
        OutcomeView {
            segment_id: self.segment_id,
            offset: self.offset as int,
            length: self.length as int,
            sealed: sealed_view(self.sealed),
        }
    }
}

/// A length as it is reported: at most what a `u32` holds.
pub open spec fn reported_length(n: nat) -> int {
    if n <= u32::MAX {
        n as int
    } else {
        u32::MAX as int
    }
}

/// What an append of `data` to the segment reports.
pub open spec fn append_outcome(a: ActiveView, data: Seq<u8>, now: u64) -> OutcomeView {
    OutcomeView {
        segment_id: a.id,
        offset: a.data.len() as int,
        length: reported_length(data.len()),
        sealed: a.appended(data, now).frozen_if_full(),
    }
}

/// Where an append went, and the work that it gives.
#[derive(Debug)]
pub struct Appended {
    /// The segment.
    pub segment_id: SegmentId,
    /// Offset of the data within the segment.
    pub offset: u64,
    /// Length of the data.
    pub length: u32,
    /// The seal work to queue, when the append filled the segment.
    pub work: Option<SealingWork>,
}

/// The mathematical view of [`Appended`].
#[verifier::ext_equal]
pub struct AppendedView {
    pub segment_id: SegmentId,
    pub offset: int,
    pub length: int,
    pub work: Option<WorkView>,
}

/// The view of optional seal work.
pub open spec fn work_view(w: Option<SealingWork>) -> Option<WorkView> {
    match w {
        Some(w) => Some(w@),
        None => None,
    }
}

impl View for Appended {
    type V = AppendedView;

    open spec fn view(&self) -> AppendedView {
        AppendedView {
            segment_id: self.segment_id,
            offset: self.offset as int,
            length: self.length as int,
            work: work_view(self.work),
        }
    }
}

/// The view of the result of an append.
pub open spec fn append_view(r: Result<Appended, Error>) -> Result<AppendedView, Error> {
    match r {
        Ok(a) => Ok(a@),
        Err(e) => Err(e),
    }
}

/// The view of the result of a replayed append.
pub open spec fn replay_view(r: Result<Option<SealingWork>, Error>) -> Result<
    Option<WorkView>,
    Error,
> {
    match r {
        Ok(w) => Ok(work_view(w)),
        Err(e) => Err(e),
    }
}

/// A slot of the pool.
pub struct PoolSlot {
    state: SlotState,
}

impl View for PoolSlot {
    type V = SlotView;

    closed spec fn view(&self) -> SlotView {
        self.state@
    }
}

impl PoolSlot {
    /// A segment in the slot is consistent, and is full only when it is empty.
    pub closed spec fn wf(&self) -> bool {
        match self.state {
            SlotState::Appending(segment) => segment.wf() && (segment@.data.len() == 0
                || !segment@.full()),
            _ => true,
        }
    }

    /// A slot with an empty segment.
    pub fn new(id: SegmentId, tier: SizeTier, config: &SegmentSizeConfig, now: u64) -> (r: Result<
        Self,
        Error,
    >)
        ensures
            match r {
                Ok(slot) => slot.wf() && target_of(tier, *config) is Some && slot@
                    == SlotView::Appending(fresh_segment(id, tier, *config, now)),
                Err(e) => target_of(tier, *config) is None && e == Error::InlineTier,
            },
    {
        match ActiveSegment::new(id, tier, config, now) {
            Ok(segment) => Ok(PoolSlot { state: SlotState::Appending(segment) }),
            Err(e) => Err(e),
        }
    }

    /// A slot without a segment.
    pub fn new_idle() -> (slot: Self)
        ensures
            slot.wf(),
            slot@ == SlotView::Idle,
    {
        PoolSlot { state: SlotState::Idle }
    }

    /// Whether the slot holds a segment that takes writes.
    pub fn is_appending(&self) -> (r: bool)
        ensures
            r == (self@ is Appending),
    {
        match &self.state {
            SlotState::Appending(_) => true,
            _ => false,
        }
    }

    /// Whether the slot can take a replacement.
    pub fn needs_segment(&self) -> (r: bool)
        ensures
            r == !(self@ is Appending),
    {
        !self.is_appending()
    }

    /// Freezes the slot's segment. The frozen data stays in the slot.
    pub fn take_for_sealing(&mut self) -> (sealed: Option<SealedSegment>)
        requires
            old(self).wf(),
        ensures
            final(self).wf(),
            match old(self)@ {
                SlotView::Appending(a) => {
                    &&& sealed_view(sealed) == Some(a.frozen())
                    &&& final(self)@ == SlotView::Sealing(a.id, a.data)
                },
                _ => sealed is None && final(self)@ == old(self)@,
            },
    {
        let mut current = SlotState::Idle;
        core::mem::swap(&mut self.state, &mut current);
        match current {
            SlotState::Appending(segment) => {
                let sealed = segment.seal();
                self.state = SlotState::Sealing(sealed.segment_id, bytes_clone(&sealed.data));
                Some(sealed)
            },
            other => {
                self.state = other;
                None
            },
        }
    }

    /// Freezes the slot's segment when it has data and has had no append for
    /// `timeout` milliseconds. An empty segment is never sealed.
    pub fn try_seal_idle(&mut self, timeout: u64, now: u64) -> (sealed: Option<SealedSegment>)
        requires
            old(self).wf(),
        ensures
            final(self).wf(),
            final(self)@ == old(self)@.swept(timeout, now),
            sealed_view(sealed) == (if old(self)@.is_idle(timeout, now) {
                Some(old(self)@->Appending_0.frozen())
            } else {
                None
            }),
    {
        let idle = match &self.state {
            SlotState::Appending(segment) => !segment.is_empty() && segment.idle_for(now)
                >= timeout,
            _ => false,
        };
        if idle {
            self.take_for_sealing()
        } else {
            None
        }
    }

    /// Installs a replacement, unless the slot has a segment.
    pub fn install_replacement(&mut self, replacement: ActiveSegment) -> (installed: bool)
        requires
            old(self).wf(),
            replacement.wf(),
            replacement@.data.len() == 0,
        ensures
            final(self).wf(),
            installed == !(old(self)@ is Appending),
            final(self)@ == (if installed {
                SlotView::Appending(replacement@)
            } else {
                old(self)@
            }),
    {
        if self.is_appending() {
            return false;
        }
        self.state = SlotState::Appending(replacement);
        true
    }

    /// Appends to the slot's segment, and freezes it when that fills it.
    /// `None` when the slot takes no appends.
    pub fn try_append(&mut self, data: &[u8], now: u64) -> (outcome: Option<AppendOutcome>)
        requires
            old(self).wf(),
            old(self)@ matches SlotView::Appending(a) ==> 2 * (a.data.len()
                + data@.len()) <= isize::MAX,
        ensures
            final(self).wf(),
            match outcome {
                Some(outcome) => {
                    &&& old(self)@.accepts()
                    &&& outcome@ == append_outcome(old(self)@->Appending_0, data@, now)
                    &&& final(self)@ == old(self)@->Appending_0.appended(data@, now).settled()
                },
                None => !old(self)@.accepts() && final(self)@ == old(self)@,
            },
    {
        let (segment_id, offset, length, full) = match &mut self.state {
            SlotState::Appending(segment) => match segment.append(data, now) {
                Ok((offset, length)) => (segment.id(), offset, length, segment.is_full()),
                Err(_) => {
                    return None;
                },
            },
            _ => {
                return None;
            },
        };
        let length: u32 = if length <= u32::MAX as usize {
            length as u32
        } else {
            u32::MAX
        };
        let sealed = if full {
            let mut current = SlotState::Idle;
            core::mem::swap(&mut self.state, &mut current);
            match current {
                SlotState::Appending(segment) => {
                    let sealed = segment.seal();
                    self.state = SlotState::Sealing(sealed.segment_id, bytes_clone(&sealed.data));
                    Some(sealed)
                },
                other => {
                    self.state = other;
                    None
                },
            }
        } else {
            None
        };
        Some(AppendOutcome { segment_id, offset, length, sealed })
    }
}

/// A new empty segment.
pub open spec fn fresh_segment(id: SegmentId, tier: SizeTier, config: SegmentSizeConfig, now: u64)
    -> ActiveView {
    ActiveView {
        id,
        tier,
        data: Seq::empty(),
        target_size: target_of(tier, config)->0,
        last_append_ms: now,
    }
}

/// What is looked for among the slots.
#[derive(Clone, Copy, Debug, PartialEq, Eq, Structural)]
pub enum Wanted {
    /// A slot that can take a replacement.
    NeedsSegment,
    /// A slot whose appending segment has this identifier.
    Holding(SegmentId),
    /// A slot whose appending segment has no data.
    Empty,
}

impl Wanted {
    /// The slot is one that is looked for.
    pub open spec fn holds(self, slot: SlotView) -> bool {
        match slot {
            SlotView::Appending(a) => match self {
                Wanted::NeedsSegment => false,
                Wanted::Holding(id) => a.id == id,
                Wanted::Empty => a.data.len() == 0,
            },
            _ => self == Wanted::NeedsSegment,
        }
    }

    fn check(&self, slot: &PoolSlot) -> (r: bool)
        requires
            slot.wf(),
        ensures
            r == self.holds(slot@),
    {
        match &slot.state {
            SlotState::Appending(segment) => match self {
                Wanted::NeedsSegment => false,
                Wanted::Holding(id) => segment.id() == *id,
                Wanted::Empty => segment.is_empty(),
            },
            _ => match self {
                Wanted::NeedsSegment => true,
                _ => false,
            },
        }
    }
}

/// The first slot from `from` on that is looked for.
pub open spec fn first_from(slots: Seq<SlotView>, what: Wanted, from: int) -> Option<int>
    decreases slots.len() - from,
{
    if from < 0 || from >= slots.len() {
        None
    } else if what.holds(slots[from]) {
        Some(from)
    } else {
        first_from(slots, what, from + 1)
    }
}

/// What [`first_from`] gives is the first slot that is looked for.
pub proof fn lemma_first_from(slots: Seq<SlotView>, what: Wanted, from: int)
    requires
        0 <= from,
    ensures
        match first_from(slots, what, from) {
            Some(i) => {
                &&& from <= i < slots.len()
                &&& what.holds(slots[i])
                &&& forall|j: int| from <= j < i ==> !what.holds(#[trigger] slots[j])
            },
            None => forall|j: int| from <= j < slots.len() ==> !what.holds(#[trigger] slots[j]),
        },
    decreases slots.len() - from,
{
    if from < slots.len() && !what.holds(slots[from]) {
        lemma_first_from(slots, what, from + 1);
    }
}

/// The first slot that takes an append, round the slots from `start` on, with
/// `k` of them looked at.
pub open spec fn next_accepting(slots: Seq<SlotView>, start: int, k: int) -> Option<int>
    decreases slots.len() - k,
{
    if k < 0 || k >= slots.len() {
        None
    } else if slots[(start + k) % slots.len() as int].accepts() {
        Some((start + k) % slots.len() as int)
    } else {
        next_accepting(slots, start, k + 1)
    }
}

/// The bytes of `data` from `offset` on, at most `length`; none at or past its
/// end.
pub open spec fn clamped(data: Seq<u8>, offset: u64, length: u32) -> Option<Seq<u8>> {
    if offset < data.len() {
        Some(
            data.subrange(
                offset as int,
                if offset + length <= data.len() {
                    offset + length
                } else {
                    data.len() as int
                },
            ),
        )
    } else {
        None
    }
}

/// What a slot gives of a segment.
pub open spec fn read_slot(slot: SlotView, id: SegmentId, offset: u64, length: u32) -> Option<
    Seq<u8>,
> {
    match slot {
        SlotView::Appending(a) => if a.id == id {
            clamped(a.data, offset, length)
        } else {
            None
        },
        SlotView::Sealing(held, data) => if held == id {
            clamped(data, offset, length)
        } else {
            None
        },
        SlotView::Idle => None,
    }
}

/// What the slots from `from` on give of a segment: the first that gives
/// anything counts.
pub open spec fn read_slots(
    slots: Seq<SlotView>,
    id: SegmentId,
    offset: u64,
    length: u32,
    from: int,
) -> Option<Seq<u8>>
    decreases slots.len() - from,
{
    if from < 0 || from >= slots.len() {
        None
    } else {
        match read_slot(slots[from], id, offset, length) {
            Some(data) => Some(data),
            None => read_slots(slots, id, offset, length, from + 1),
        }
    }
}

/// A pool of active segments of one tier.
pub struct SegmentPool {
    slots: Vec<PoolSlot>,
    tier: SizeTier,
    size_config: SegmentSizeConfig,
    ec_config: Option<CodecConfig>,
    current_index: usize,
    sealing_data: BTreeMap<u128, Bytes>,
    deferred: Vec<SealedSegment>,
}

/// The mathematical view of [`SegmentPool`].
#[verifier::ext_equal]
pub struct PoolView {
    pub slots: Seq<SlotView>,
    pub tier: SizeTier,
    pub size_config: SegmentSizeConfig,
    /// The erasure-coding parameters, when segments get parity.
    pub ec: Option<CodecConfig>,
    /// The slot at which the next append starts to look.
    pub current: int,
    /// The frozen data of handed over segments.
    pub sealing: Map<u128, Seq<u8>>,
    /// The idle segments whose hand-over failed.
    pub deferred: Seq<SealedView>,
}

impl View for SegmentPool {
    type V = PoolView;

    closed spec fn view(&self) -> PoolView {
        PoolView {
            slots: Seq::new(self.slots@.len(), |i: int| self.slots@[i]@),
            tier: self.tier,
            size_config: self.size_config,
            ec: self.ec_config,
            current: self.current_index as int,
            sealing: Map::new(
                |id: u128| self.sealing_data@.contains_key(id),
                |id: u128| bytes_contents(self.sealing_data@[id]),
            ),
            deferred: Seq::new(self.deferred@.len(), |i: int| self.deferred@[i]@),
        }
    }
}

impl PoolView {
    /// The parameters that seal work carries: all zero without erasure coding.
    pub open spec fn ec_params(self) -> (u8, u8, usize) {
        match self.ec {
            Some(c) => (c.data_shards, c.parity_shards, c.strip_size_bytes),
            None => (0, 0, 0),
        }
    }

    /// The target size of the pool's segments.
    pub open spec fn target(self) -> u64 {
        target_of(self.tier, self.size_config)->0
    }

    /// A new segment of the pool.
    pub open spec fn fresh(self, id: SegmentId, now: u64) -> ActiveView {
        fresh_segment(id, self.tier, self.size_config, now)
    }

    /// The pool with one slot changed.
    pub open spec fn with_slot(self, i: int, slot: SlotView) -> PoolView {
        PoolView { slots: self.slots.update(i, slot), ..self }
    }

    /// The pool after a replacement was installed in the first slot that can
    /// take one.
    pub open spec fn activated(self, fresh: SegmentId, now: u64) -> PoolView {
        match first_from(self.slots, Wanted::NeedsSegment, 0) {
            Some(i) => self.with_slot(i, SlotView::Appending(self.fresh(fresh, now))),
            None => self,
        }
    }

    /// The pool after a segment was handed over: its data is readable from the
    /// sealing data, and a slot is armed again.
    pub open spec fn handed_over(self, sealed: SealedView, fresh: SegmentId, now: u64) -> PoolView {
        PoolView {
            sealing: self.sealing.insert(sealed.segment_id.bits, sealed.data),
            ..self
        }.activated(fresh, now)
    }

    /// The seal work of a segment.
    pub open spec fn work(self, sealed: SealedView) -> WorkView {
        WorkView {
            segment_id: sealed.segment_id,
            data: sealed.data,
            tier: sealed.tier,
            ec: self.ec_params(),
        }
    }

    /// The slot that the next append goes to.
    pub open spec fn append_slot(self) -> Option<int> {
        next_accepting(self.slots, self.current, 0)
    }

    /// The pool after one look round the slots for an append.
    pub open spec fn looked(self) -> PoolView {
        PoolView { current: (self.current + 1) % self.slots.len() as int, ..self }
    }

    /// The pool after an append to slot `i`.
    pub open spec fn appended(self, i: int, data: Seq<u8>, now: u64) -> PoolView {
        self.looked().with_slot(i, self.slots[i]->Appending_0.appended(data, now).settled())
    }

    /// The pool after a segment that was filled, if one was, is handed over.
    pub open spec fn settled(self, sealed: Option<SealedView>, fresh: SegmentId, now: u64)
        -> PoolView {
        match sealed {
            Some(sealed) => self.handed_over(sealed, fresh, now),
            None => self,
        }
    }

    /// The seal work of a segment that was filled, if one was.
    pub open spec fn settled_work(self, sealed: Option<SealedView>) -> Option<WorkView> {
        match sealed {
            Some(sealed) => Some(self.work(sealed)),
            None => None,
        }
    }

    /// The pool and the result after an append: to a slot that takes it, or,
    /// when none does, to one that is armed again first.
    pub open spec fn append(self, data: Seq<u8>, ids: (SegmentId, SegmentId), now: u64) -> (
        PoolView,
        Result<AppendedView, Error>,
    ) {
        match self.append_slot() {
            Some(i) => self.append_at(i, data, ids.1, now),
            None => {
                let looked = self.looked();
                let armed = looked.activated(ids.0, now);
                if first_from(looked.slots, Wanted::NeedsSegment, 0) is None {
                    (looked, Err(Error::NoSlot))
                } else {
                    match armed.append_slot() {
                        Some(i) => armed.append_at(i, data, ids.1, now),
                        None => (armed.looked(), Err(Error::NoSlot)),
                    }
                }
            },
        }
    }

    /// The pool and the result after an append to slot `i`.
    pub open spec fn append_at(self, i: int, data: Seq<u8>, fresh: SegmentId, now: u64) -> (
        PoolView,
        Result<AppendedView, Error>,
    ) {
        let outcome = append_outcome(self.slots[i]->Appending_0, data, now);
        let after = self.appended(i, data, now);
        (
            after.settled(outcome.sealed, fresh, now),
            Ok(
                AppendedView {
                    segment_id: outcome.segment_id,
                    offset: outcome.offset,
                    length: outcome.length,
                    work: after.settled_work(outcome.sealed),
                },
            ),
        )
    }

    /// The pool and the result after a replayed append: to the slot that holds
    /// the segment, else to the first empty one, which takes the segment's
    /// identifier.
    pub open spec fn append_replayed(
        self,
        id: SegmentId,
        data: Seq<u8>,
        ids: (SegmentId, SegmentId),
        now: u64,
    ) -> (PoolView, Result<Option<WorkView>, Error>) {
        match first_from(self.slots, Wanted::Holding(id), 0) {
            Some(i) => {
                let a = self.slots[i]->Appending_0;
                if a.full() {
                    (self, Err(Error::ReplayedSegmentFull(id)))
                } else {
                    self.replayed_at(i, a.appended(data, now), ids.1, now)
                }
            },
            None => {
                let armed = self.activated(ids.0, now);
                match first_from(armed.slots, Wanted::Empty, 0) {
                    Some(i) => {
                        let a = armed.fresh(id, now);
                        if a.full() {
                            (
                                armed,
                                Err(Error::SegmentFull { segment_id: id, current_size: 0 }),
                            )
                        } else {
                            armed.replayed_at(i, a.appended(data, now), ids.1, now)
                        }
                    },
                    None => (armed, Err(Error::NoSlot)),
                }
            },
        }
    }

    /// The pool and the result after slot `i` took the given segment.
    pub open spec fn replayed_at(self, i: int, a: ActiveView, fresh: SegmentId, now: u64) -> (
        PoolView,
        Result<Option<WorkView>, Error>,
    ) {
        let after = self.with_slot(i, a.settled());
        (
            after.settled(a.frozen_if_full(), fresh, now),
            Ok(after.settled_work(a.frozen_if_full())),
        )
    }

    /// The pool after a replayed segment was frozen as it is, and its work.
    pub open spec fn sealed_partial(self, id: SegmentId, fresh: SegmentId, now: u64) -> (
        PoolView,
        Option<WorkView>,
    ) {
        match first_from(self.slots, Wanted::Holding(id), 0) {
            Some(i) => {
                let a = self.slots[i]->Appending_0;
                let after = self.with_slot(i, SlotView::Sealing(a.id, a.data));
                (after.handed_over(a.frozen(), fresh, now), Some(after.work(a.frozen())))
            },
            None => (self, None),
        }
    }

    /// The pool after the readable data of a segment was dropped.
    pub open spec fn released(self, id: SegmentId) -> PoolView {
        PoolView { sealing: self.sealing.remove(id.bits), ..self }
    }

    /// The pool after the hand-over of a segment was put off to the next sweep.
    pub open spec fn put_off(self, work: WorkView) -> PoolView {
        PoolView {
            deferred: self.deferred.push(
                SealedView { segment_id: work.segment_id, data: work.data, tier: work.tier },
            ),
            ..self
        }
    }

    /// The pool after a sweep, and the segments that it gives back: those that were
    /// put off, and behind them the idle ones.
    pub open spec fn swept(self, timeout: u64, now: u64) -> (PoolView, Seq<SealedView>) {
        (
            PoolView {
                slots: swept_slots(self.slots, timeout, now),
                deferred: Seq::empty(),
                ..self
            },
            self.deferred + idle_segments(self.slots, timeout, now),
        )
    }

    /// What the pool gives of a segment that is not yet durable.
    pub open spec fn read(self, id: SegmentId, offset: u64, length: u32) -> Option<Seq<u8>> {
        match read_slots(self.slots, id, offset, length, 0) {
            Some(data) => Some(data),
            None => if self.sealing.contains_key(id.bits) {
                clamped(self.sealing[id.bits], offset, length)
            } else {
                None
            },
        }
    }
}

impl SegmentPool {
    /// The slots are consistent, all segments have the pool's tier and target
    /// size, and the round robin points to a slot.
    pub closed spec fn wf(&self) -> bool {
        &&& forall|i: int| 0 <= i < self.slots@.len() ==> (#[trigger] self.slots@[i]).wf()
        &&& forall|i: int|
            0 <= i < self.slots@.len() ==> ((#[trigger] self.slots@[i])@ matches SlotView::Appending(
                a,
            ) ==> a.tier == self.tier && a.target_size == self@.target() && (a.data.len() == 0
                || !a.full()))
        &&& self.slots@.len() > 0 ==> self.current_index < self.slots@.len()
        &&& self.slots@.len() > 0 ==> target_of(self.tier, self.size_config) is Some
    }

    /// What `wf` says of the pool's view.
    proof fn lemma_wf(&self)
        requires
            self.wf(),
        ensures
            self@.slots.len() == self.slots@.len(),
            forall|i: int| 0 <= i < self@.slots.len() ==> #[trigger] self@.slots[i] == self.slots@[i]@,
            forall|i: int|
                0 <= i < self@.slots.len() ==> ((#[trigger] self@.slots[i]) matches SlotView::Appending(
                    a,
                ) ==> a.tier == self@.tier && a.target_size == self@.target() && (a.data.len() == 0
                    || !a.full())),
    {
        assert forall|i: int| 0 <= i < self@.slots.len() implies ((
        #[trigger] self@.slots[i]) matches SlotView::Appending(a) ==> a.tier == self@.tier
            && a.target_size == self@.target() && (a.data.len() == 0 || !a.full())) by {
            assert(self.slots@[i].wf());
        }
    }

    /// A pool whose slots all hold empty segments, with the given identifiers.
    /// Segments get parity when that is configured and a codec is given.
    pub fn new(
        config: PoolConfig,
        tier: SizeTier,
        size_config: &SegmentSizeConfig,
        ec_config: Option<CodecConfig>,
        ids: &Vec<SegmentId>,
        now: u64,
    ) -> (r: Result<Self, Error>)
        requires
            ids@.len() == config.active_pool_size,
        ensures
            match r {
                Ok(pool) => {
                    &&& pool.wf()
                    &&& ids@.len() == 0 || target_of(tier, *size_config) is Some
                    &&& pool@ == (PoolView {
                        slots: Seq::new(
                            ids@.len(),
                            |i: int|
                                SlotView::Appending(fresh_segment(ids@[i], tier, *size_config, now)),
                        ),
                        tier,
                        size_config: *size_config,
                        ec: if config.ec_streaming_encode {
                            ec_config
                        } else {
                            None
                        },
                        current: 0,
                        sealing: Map::empty(),
                        deferred: Seq::empty(),
                    })
                },
                Err(e) => {
                    &&& ids@.len() > 0 && target_of(tier, *size_config) is None
                    &&& e == Error::InlineTier
                },
            },
    {
        let ec = if config.ec_streaming_encode {
            ec_config
        } else {
            None
        };
        let mut slots: Vec<PoolSlot> = Vec::new();
        let n: usize = ids.len();
        let mut i: usize = 0;
        while i < n
            invariant
                i <= n == ids@.len(),
                slots@.len() == i,
                i > 0 ==> target_of(tier, *size_config) is Some,
                forall|j: int|
                    0 <= j < i ==> (#[trigger] slots@[j]).wf() && slots@[j]@ == SlotView::Appending(
                        fresh_segment(ids@[j], tier, *size_config, now),
                    ),
            decreases n - i,
        {
            match PoolSlot::new(ids[i], tier, size_config, now) {
                Ok(slot) => {
                    slots.push(slot);
                },
                Err(e) => {
                    return Err(e);
                },
            }
            i = i + 1;
        }
        let pool = SegmentPool {
            slots,
            tier,
            size_config: *size_config,
            ec_config: ec,
            current_index: 0,
            sealing_data: BTreeMap::new(),
            deferred: Vec::new(),
        };
        assert(pool@.slots =~= Seq::new(
            ids@.len(),
            |i: int| SlotView::Appending(fresh_segment(ids@[i], tier, *size_config, now)),
        ));
        assert(pool@.sealing =~= Map::<u128, Seq<u8>>::empty());
        assert(pool@.deferred =~= Seq::<SealedView>::empty());
        Ok(pool)
    }

    /// The first slot that is looked for.
    fn find(&self, what: Wanted) -> (at: Option<usize>)
        requires
            self.wf(),
        ensures
            match at {
                Some(i) => first_from(self@.slots, what, 0) == Some(i as int) && i
                    < self@.slots.len() && what.holds(self@.slots[i as int]),
                None => first_from(self@.slots, what, 0) is None,
            },
    {
        proof {
            self.lemma_wf();
        }
        let n: usize = self.slots.len();
        let mut i: usize = 0;
        while i < n
            invariant
                i <= n == self.slots@.len() == self@.slots.len(),
                self.wf(),
                forall|j: int|
                    0 <= j < self@.slots.len() ==> #[trigger] self@.slots[j] == self.slots@[j]@,
                first_from(self@.slots, what, 0) == first_from(self@.slots, what, i as int),
            decreases n - i,
        {
            assert(self@.slots[i as int] == self.slots@[i as int]@);
            if what.check(&self.slots[i]) {
                return Some(i);
            }
            i = i + 1;
        }
        None
    }

    /// Installs a replacement in the first slot that can take one. `false`
    /// when there is none.
    pub fn try_activate_slot(&mut self, fresh: SegmentId, now: u64) -> (activated: bool)
        requires
            old(self).wf(),
        ensures
            final(self).wf(),
            activated == (first_from(old(self)@.slots, Wanted::NeedsSegment, 0) is Some),
            final(self)@ == old(self)@.activated(fresh, now),
    {
        let ghost before = self@;
        proof {
            self.lemma_wf();
        }
        let at: usize = match self.find(Wanted::NeedsSegment) {
            Some(i) => i,
            None => {
                return false;
            },
        };
        let replacement = match ActiveSegment::new(fresh, self.tier, &self.size_config, now) {
            Ok(segment) => segment,
            Err(_) => {
                return false;
            },
        };
        let ghost segment = replacement@;
        let installed = self.slots[at].install_replacement(replacement);
        assert(self@ =~= before.with_slot(at as int, SlotView::Appending(segment)));
        installed
    }

    /// Looks round the slots once, from the current one on, and appends to the
    /// first that takes it. `None` when none does.
    pub fn try_append_single_pass(&mut self, data: &[u8], now: u64) -> (outcome: Option<
        AppendOutcome,
    >)
        requires
            old(self).wf(),
            old(self)@.slots.len() > 0,
            2 * (old(self)@.target() + data@.len()) <= isize::MAX,
        ensures
            final(self).wf(),
            match old(self)@.append_slot() {
                Some(i) => {
                    &&& 0 <= i < old(self)@.slots.len()
                    &&& old(self)@.slots[i].accepts()
                    &&& outcome is Some
                    &&& outcome->0@ == append_outcome(
                        old(self)@.slots[i]->Appending_0,
                        data@,
                        now,
                    )
                    &&& final(self)@ == old(self)@.appended(i, data@, now)
                },
                None => outcome is None && final(self)@ == old(self)@.looked(),
            },
    {
        let ghost before = self@;
        proof {
            self.lemma_wf();
        }
        let n: usize = self.slots.len();
        let start: usize = self.current_index;
        self.current_index = if start + 1 == n {
            0
        } else {
            start + 1
        };
        assert((start + 1) % n as int == self.current_index) by (nonlinear_arith)
            requires
                start < n,
                self.current_index == (if start + 1 == n {
                    0int
                } else {
                    start + 1
                }),
        ;
        assert(self@ =~= before.looked());
        let ghost looked = self@;
        let mut k: usize = 0;
        while k < n
            invariant
                k <= n == self.slots@.len() == before.slots.len(),
                start < n,
                self.wf(),
                self@ == looked,
                looked == before.looked(),
                2 * (before.target() + data@.len()) <= isize::MAX,
                before.append_slot() == next_accepting(before.slots, start as int, k as int),
                forall|j: int|
                    0 <= j < self@.slots.len() ==> #[trigger] self@.slots[j] == self.slots@[j]@,
                before == old(self)@,
            decreases n - k,
        {
            let room: usize = n - start;
            let at: usize = if k < room {
                start + k
            } else {
                k - room
            };
            assert((start + k) % n as int == at) by (nonlinear_arith)
                requires
                    start < n,
                    k < n,
                    at == (if k < n - start {
                        start + k
                    } else {
                        k - (n - start)
                    }),
            ;
            proof {
                self.lemma_wf();
                assert(self@.slots[at as int] == self.slots@[at as int]@);
                assert(self.slots@[at as int].wf());
            }
            let ghost slot = self.slots@[at as int]@;
            match self.slots[at].try_append(data, now) {
                Some(outcome) => {
                    assert(self@ =~= before.appended(at as int, data@, now));
                    return Some(outcome);
                },
                None => {},
            }
            assert(self@ =~= looked);
            k = k + 1;
        }
        None
    }

    /// Hands a frozen segment over for sealing, and gives the work to queue. Its
    /// data is kept readable first, then a slot is armed again.
    pub fn finish_seal_handoff(&mut self, sealed: SealedSegment, fresh: SegmentId, now: u64) -> (work:
        SealingWork)
        requires
            old(self).wf(),
        ensures
            final(self).wf(),
            final(self)@ == old(self)@.handed_over(sealed@, fresh, now),
            work@ == old(self)@.work(sealed@),
    {
        let ghost before = self@;
        self.sealing_data.insert(sealed.segment_id.bits, bytes_clone(&sealed.data));
        assert(self@ =~= (PoolView {
            sealing: before.sealing.insert(sealed.segment_id.bits, sealed@.data),
            ..before
        }));
        let activated = self.try_activate_slot(fresh, now);
        self.seal_work(sealed)
    }

    /// The seal work of a segment.
    fn seal_work(&self, sealed: SealedSegment) -> (work: SealingWork)
        ensures
            work@ == self@.work(sealed@),
    {
        let (ec_k, ec_m, strip_size_bytes) = self.ec_params();
        SealingWork {
            segment_id: sealed.segment_id,
            segment_data: sealed.data,
            tier: sealed.tier,
            ec_k,
            ec_m,
            strip_size_bytes,
        }
    }

    /// The erasure-coding parameters that seal work carries: data shards,
    /// parity shards, and shard size; all zero without erasure coding.
    pub fn ec_params(&self) -> (ec: (u8, u8, usize))
        ensures
            ec == self@.ec_params(),
    {
        match &self.ec_config {
            Some(c) => (c.data_shards, c.parity_shards, c.strip_size_bytes),
            None => (0, 0, 0),
        }
    }

    /// Drops the readable data of a segment: it is durable, or its hand-over
    /// was rejected.
    pub fn remove_seal_buffer(&mut self, segment_id: SegmentId)
        requires
            old(self).wf(),
        ensures
            final(self).wf(),
            final(self)@ == (PoolView {
                sealing: old(self)@.sealing.remove(segment_id.bits),
                ..old(self)@
            }),
            final(self)@ == old(self)@.released(segment_id),
    {
        let ghost before = self@;
        let gone = self.sealing_data.remove(&segment_id.bits);
        assert(self@ =~= (PoolView {
            sealing: before.sealing.remove(segment_id.bits),
            ..before
        }));
    }

    /// Keeps a frozen segment whose hand-over failed for the next sweep. It
    /// stays readable.
    pub fn defer_seal(&mut self, work: SealingWork)
        requires
            old(self).wf(),
        ensures
            final(self).wf(),
            final(self)@ == (PoolView {
                deferred: old(self)@.deferred.push(
                    SealedView {
                        segment_id: work.segment_id,
                        data: work@.data,
                        tier: work.tier,
                    },
                ),
                ..old(self)@
            }),
            final(self)@ == old(self)@.put_off(work@),
    {
        let ghost before = self@;
        let sealed = SealedSegment {
            segment_id: work.segment_id,
            data: work.segment_data,
            tier: work.tier,
        };
        self.deferred.push(sealed);
        assert(self@.deferred =~= before.deferred.push(sealed@));
        assert(self@ =~= (PoolView { deferred: before.deferred.push(sealed@), ..before }));
    }

    /// Hands a filled segment over, if one was filled.
    fn settle(&mut self, sealed: Option<SealedSegment>, fresh: SegmentId, now: u64) -> (work: Option<
        SealingWork,
    >)
        requires
            old(self).wf(),
        ensures
            final(self).wf(),
            final(self)@ == old(self)@.settled(sealed_view(sealed), fresh, now),
            work_view(work) == old(self)@.settled_work(sealed_view(sealed)),
    {
        match sealed {
            Some(sealed) => Some(self.finish_seal_handoff(sealed, fresh, now)),
            None => None,
        }
    }

    /// Appends data to the next slot that takes it; when none does, a slot is
    /// armed again first. Fails when there is still none. `ids` are the
    /// identifiers of the segments that this may create.
    pub fn append(&mut self, data: &[u8], ids: (SegmentId, SegmentId), now: u64) -> (r: Result<
        Appended,
        Error,
    >)
        requires
            old(self).wf(),
            old(self)@.slots.len() > 0,
            2 * (old(self)@.target() + data@.len()) <= isize::MAX,
        ensures
            final(self).wf(),
            (final(self)@, append_view(r)) == old(self)@.append(data@, ids, now),
    {
        let mut outcome = self.try_append_single_pass(data, now);
        if outcome.is_none() {
            proof {
                lemma_first_from(self@.slots, Wanted::NeedsSegment, 0);
            }
            if !self.try_activate_slot(ids.0, now) {
                return Err(Error::NoSlot);
            }
            outcome = self.try_append_single_pass(data, now);
        }
        match outcome {
            Some(outcome) => {
                let work = self.settle(outcome.sealed, ids.1, now);
                Ok(
                    Appended {
                        segment_id: outcome.segment_id,
                        offset: outcome.offset,
                        length: outcome.length,
                        work,
                    },
                )
            },
            None => Err(Error::NoSlot),
        }
    }

    /// Appends replayed data to the segment with the given identifier: to the
    /// slot that already holds it, else to the first slot whose segment is
    /// empty, which is replaced by one with that identifier. Slots with frozen
    /// data are armed again first, so that a replay of any number of segments
    /// goes on.
    pub fn append_replayed(
        &mut self,
        segment_id: SegmentId,
        data: &[u8],
        ids: (SegmentId, SegmentId),
        now: u64,
    ) -> (r: Result<Option<SealingWork>, Error>)
        requires
            old(self).wf(),
            2 * (old(self)@.target() + data@.len()) <= isize::MAX,
        ensures
            final(self).wf(),
            (final(self)@, replay_view(r)) == old(self)@.append_replayed(
                segment_id,
                data@,
                ids,
                now,
            ),
    {
        let ghost before = self@;
        proof {
            self.lemma_wf();
        }
        match self.find(Wanted::Holding(segment_id)) {
            Some(at) => {
                assert(self@.slots[at as int] == self.slots@[at as int]@);
                assert(self.slots@[at as int].wf());
                match self.slots[at].try_append(data, now) {
                    Some(outcome) => {
                        let ghost a = before.slots[at as int]->Appending_0.appended(data@, now);
                        assert(self@ =~= before.with_slot(at as int, a.settled()));
                        return Ok(self.settle(outcome.sealed, ids.1, now));
                    },
                    None => {
                        assert(self@ =~= before);
                        return Err(Error::ReplayedSegmentFull(segment_id));
                    },
                }
            },
            None => {},
        }
        let activated = self.try_activate_slot(ids.0, now);
        let ghost armed = self@;
        proof {
            self.lemma_wf();
        }
        match self.find(Wanted::Empty) {
            Some(at) => {
                let mut slot = match PoolSlot::new(segment_id, self.tier, &self.size_config, now) {
                    Ok(slot) => slot,
                    Err(e) => {
                        return Err(e);
                    },
                };
                match slot.try_append(data, now) {
                    Some(outcome) => {
                        let ghost view = slot@;
                        self.slots.set(at, slot);
                        assert(self@ =~= armed.with_slot(at as int, view));
                        Ok(self.settle(outcome.sealed, ids.1, now))
                    },
                    None => Err(Error::SegmentFull { segment_id, current_size: 0 }),
                }
            },
            None => Err(Error::NoSlot),
        }
    }

    /// Seals a replayed segment that its data did not fill. Nothing happens
    /// when no slot holds it: it was filled and handed over.
    pub fn seal_replayed_partial(&mut self, segment_id: SegmentId, fresh: SegmentId, now: u64) -> (work:
        Option<SealingWork>)
        requires
            old(self).wf(),
        ensures
            final(self).wf(),
            (final(self)@, work_view(work)) == old(self)@.sealed_partial(segment_id, fresh, now),
    {
        let ghost before = self@;
        proof {
            self.lemma_wf();
        }
        match self.find(Wanted::Holding(segment_id)) {
            Some(at) => {
                assert(self@.slots[at as int] == self.slots@[at as int]@);
                assert(self.slots@[at as int].wf());
                let sealed = self.slots[at].take_for_sealing();
                let ghost a = before.slots[at as int]->Appending_0;
                assert(self@ =~= before.with_slot(at as int, SlotView::Sealing(a.id, a.data)));
                self.settle(sealed, fresh, now)
            },
            None => None,
        }
    }

    /// Freezes every segment that has data and has had no append for
    /// `timeout` milliseconds. Gives them, behind those whose hand-over failed
    /// after an earlier sweep; each is then handed over.
    pub fn sweep_idle_segments(&mut self, timeout: u64, now: u64) -> (sealed: Vec<SealedSegment>)
        requires
            old(self).wf(),
        ensures
            final(self).wf(),
            final(self)@ == (PoolView {
                slots: swept_slots(old(self)@.slots, timeout, now),
                deferred: Seq::empty(),
                ..old(self)@
            }),
            Seq::new(sealed@.len(), |i: int| sealed@[i]@) == old(self)@.deferred + idle_segments(
                old(self)@.slots,
                timeout,
                now,
            ),
            (final(self)@, Seq::new(sealed@.len(), |i: int| sealed@[i]@)) == old(self)@.swept(
                timeout,
                now,
            ),
    {
        let ghost before = self@;
        proof {
            self.lemma_wf();
        }
        let ghost target = self@.target();
        let mut sealed: Vec<SealedSegment> = Vec::new();
        core::mem::swap(&mut self.deferred, &mut sealed);
        let ghost first = before.deferred;
        assert(Seq::new(sealed@.len(), |i: int| sealed@[i]@) =~= first);
        let n: usize = self.slots.len();
        let mut i: usize = 0;
        let ghost start = self@;
        assert(start =~= (PoolView { deferred: Seq::empty(), ..before }));
        assert(idle_segments(before.slots.take(0), timeout, now) =~= Seq::<SealedView>::empty());
        while i < n
            invariant
                i <= n == self.slots@.len() == before.slots.len(),
                self.wf(),
                before == old(self)@,
                start == (PoolView { deferred: Seq::empty(), ..before }),
                first == before.deferred,
                self@ == (PoolView { slots: self@.slots, ..start }),
                self@.slots.len() == n,
                forall|j: int|
                    0 <= j < i ==> #[trigger] self@.slots[j] == before.slots[j].swept(timeout, now),
                forall|j: int| i <= j < n ==> #[trigger] self@.slots[j] == before.slots[j],
                Seq::new(sealed@.len(), |i: int| sealed@[i]@) =~= first + idle_segments(
                    before.slots.take(i as int),
                    timeout,
                    now,
                ),
            decreases n - i,
        {
            let ghost slots = self@.slots;
            let ghost were = sealed@;
            let ghost next = before.slots.take(i + 1);
            proof {
                self.lemma_wf();
                assert(self@.slots[i as int] == self.slots@[i as int]@);
                assert(self.slots@[i as int].wf());
                assert(next.drop_last() =~= before.slots.take(i as int));
                assert(next.last() == before.slots[i as int]);
            }
            let payload = self.slots[i].try_seal_idle(timeout, now);
            assert(self@.slots =~= slots.update(
                i as int,
                before.slots[i as int].swept(timeout, now),
            ));
            assert(self@ =~= (PoolView { slots: self@.slots, ..start }));
            if let Some(payload) = payload {
                sealed.push(payload);
                assert(Seq::new(sealed@.len(), |i: int| sealed@[i]@) =~= Seq::new(
                    were.len(),
                    |i: int| were[i]@,
                ).push(payload@));
                assert(idle_segments(next, timeout, now) =~= idle_segments(
                    before.slots.take(i as int),
                    timeout,
                    now,
                ).push(payload@));
            }
            i = i + 1;
        }
        assert(before.slots.take(n as int) =~= before.slots);
        assert(self@.slots =~= swept_slots(before.slots, timeout, now));
        sealed
    }

    /// Reads from a segment that is not yet durable: from its slot, or from the
    /// sealing data. At most `length` bytes; `None` when the pool does not hold
    /// the segment, or `offset` is at or past its end.
    pub fn try_read(&self, segment_id: SegmentId, offset: u64, length: u32) -> (data: Option<Bytes>)
        requires
            self.wf(),
        ensures
            match data {
                Some(b) => self@.read(segment_id, offset, length) == Some(bytes_contents(b)),
                None => self@.read(segment_id, offset, length) is None,
            },
    {
        proof {
            self.lemma_wf();
        }
        let n: usize = self.slots.len();
        let mut i: usize = 0;
        while i < n
            invariant
                i <= n == self.slots@.len() == self@.slots.len(),
                forall|j: int|
                    0 <= j < self@.slots.len() ==> #[trigger] self@.slots[j] == self.slots@[j]@,
                read_slots(self@.slots, segment_id, offset, length, 0) == read_slots(
                    self@.slots,
                    segment_id,
                    offset,
                    length,
                    i as int,
                ),
            decreases n - i,
        {
            assert(self@.slots[i as int] == self.slots@[i as int]@);
            let found = match &self.slots[i].state {
                SlotState::Appending(segment) => if segment.id() == segment_id {
                    copy_clamped(segment.data(), offset, length)
                } else {
                    None
                },
                SlotState::Sealing(id, data) => if *id == segment_id {
                    slice_clamped(data, offset, length)
                } else {
                    None
                },
                SlotState::Idle => None,
            };
            if found.is_some() {
                return found;
            }
            i = i + 1;
        }
        match self.sealing_data.get(&segment_id.bits) {
            Some(data) => slice_clamped(data, offset, length),
            None => None,
        }
    }

    /// Number of slots that take writes.
    pub fn active_count(&self) -> (n: usize)
        requires
            self.wf(),
        ensures
            n == appending_slots(self@.slots).len(),
    {
        proof {
            self.lemma_wf();
        }
        let len: usize = self.slots.len();
        let mut n: usize = 0;
        let mut i: usize = 0;
        let ghost slots = self@.slots;
        assert(appending_slots(slots.take(0)) =~= Set::<int>::empty());
        while i < len
            invariant
                i <= len == self.slots@.len() == slots.len(),
                n <= i,
                slots == self@.slots,
                forall|j: int| 0 <= j < slots.len() ==> #[trigger] slots[j] == self.slots@[j]@,
                n == appending_slots(slots.take(i as int)).len(),
                appending_slots(slots.take(i as int)).finite(),
            decreases len - i,
        {
            let ghost done = appending_slots(slots.take(i as int));
            let ghost next = appending_slots(slots.take(i + 1));
            assert(slots[i as int] == self.slots@[i as int]@);
            if self.slots[i].is_appending() {
                n = n + 1;
                assert(next =~= done.insert(i as int));
                assert(!done.contains(i as int));
            } else {
                assert(next =~= done);
            }
            i = i + 1;
        }
        assert(slots.take(len as int) =~= slots);
        n
    }

    /// Number of slots.
    pub fn slot_count(&self) -> (n: usize)
        ensures
            n == self@.slots.len(),
    {
        self.slots.len()
    }

    /// The tier of the pool.
    pub fn storage_tier(&self) -> (tier: SizeTier)
        ensures
            tier == self@.tier,
    {
        self.tier
    }
}

/// The slots after a sweep.
pub open spec fn swept_slots(slots: Seq<SlotView>, timeout: u64, now: u64) -> Seq<SlotView> {
    slots.map_values(|s: SlotView| s.swept(timeout, now))
}

/// The idle segments, frozen, in the order of their slots.
pub open spec fn idle_segments(slots: Seq<SlotView>, timeout: u64, now: u64) -> Seq<SealedView>
    decreases slots.len(),
{
    if slots.len() == 0 {
        Seq::empty()
    } else {
        let rest = idle_segments(slots.drop_last(), timeout, now);
        if slots.last().is_idle(timeout, now) {
            rest.push(slots.last()->Appending_0.frozen())
        } else {
            rest
        }
    }
}

/// The end of a clamped read.
fn clamped_end(len: usize, offset: u64, length: u32) -> (range: Option<(usize, usize)>)
    ensures
        match range {
            Some((from, to)) => offset < len && from == offset && from <= to <= len && to == (if offset
                + length <= len {
                offset + length
            } else {
                len as int
            }),
            None => offset >= len,
        },
{
    if offset >= len as u64 {
        return None;
    }
    let from: usize = offset as usize;
    let room: usize = len - from;
    let to: usize = if length as u64 <= room as u64 {
        from + length as usize
    } else {
        len
    };
    Some((from, to))
}

/// A copy of part of a buffer.
fn copy_clamped(data: &[u8], offset: u64, length: u32) -> (part: Option<Bytes>)
    ensures
        match part {
            Some(b) => clamped(data@, offset, length) == Some(bytes_contents(b)),
            None => clamped(data@, offset, length) is None,
        },
{
    match clamped_end(data.len(), offset, length) {
        Some((from, to)) => Some(
            bytes_copy(vstd::slice::slice_subrange(data, from, to)),
        ),
        None => None,
    }
}

/// A part of frozen data.
fn slice_clamped(data: &Bytes, offset: u64, length: u32) -> (part: Option<Bytes>)
    ensures
        match part {
            Some(b) => clamped(bytes_contents(*data), offset, length) == Some(bytes_contents(b)),
            None => clamped(bytes_contents(*data), offset, length) is None,
        },
{
    match clamped_end(bytes_len(data), offset, length) {
        Some((from, to)) => Some(bytes_slice(data, from, to)),
        None => None,
    }
}

/// How long an append waits for a slot: while the pool is silent, in short
/// slices, and anew whenever a slot was armed.
#[derive(Clone, Copy, Debug, PartialEq, Eq, Structural)]
pub struct SlotWait {
    /// When the wait is given up.
    pub deadline: u64,
}

impl SlotWait {
    /// A wait that starts at `now`.
    pub open spec fn from(now: u64) -> SlotWait {
        SlotWait {
            deadline: if now + SLOT_ACTIVATION_WAIT_MS <= u64::MAX {
                (now + SLOT_ACTIVATION_WAIT_MS) as u64
            } else {
                u64::MAX
            },
        }
    }

    /// How long to wait now.
    pub open spec fn left(self, now: u64) -> Option<u64> {
        if now >= self.deadline {
            None
        } else if self.deadline - now <= SLOT_ACTIVATION_WAIT_SLICE_MS {
            Some((self.deadline - now) as u64)
        } else {
            Some(SLOT_ACTIVATION_WAIT_SLICE_MS)
        }
    }

    /// The wait after it was ended, by a slot that was armed or not.
    pub open spec fn after(self, armed: bool, now: u64) -> SlotWait {
        if armed {
            Self::from(now)
        } else {
            self
        }
    }

    /// A wait that starts at `now`.
    pub fn new(now: u64) -> (w: Self)
        ensures
            w.deadline == if now + SLOT_ACTIVATION_WAIT_MS <= u64::MAX {
                now + SLOT_ACTIVATION_WAIT_MS
            } else {
                u64::MAX as int
            },
            w == Self::from(now),
    {
        SlotWait { deadline: now.saturating_add(SLOT_ACTIVATION_WAIT_MS) }
    }

    /// How long to wait now; `None` when the time is used up.
    pub fn slice(&self, now: u64) -> (ms: Option<u64>)
        ensures
            ms == (if now >= self.deadline {
                None::<u64>
            } else if self.deadline - now <= SLOT_ACTIVATION_WAIT_SLICE_MS {
                Some((self.deadline - now) as u64)
            } else {
                Some(SLOT_ACTIVATION_WAIT_SLICE_MS)
            }),
            ms == self.left(now),
    {
        if now >= self.deadline {
            return None;
        }
        let left: u64 = self.deadline - now;
        if left <= SLOT_ACTIVATION_WAIT_SLICE_MS {
            Some(left)
        } else {
            Some(SLOT_ACTIVATION_WAIT_SLICE_MS)
        }
    }

    /// The wait has ended. When a slot was armed, the time starts anew.
    pub fn woken(&mut self, armed: bool, now: u64)
        ensures
            armed ==> final(self).deadline == (if now + SLOT_ACTIVATION_WAIT_MS <= u64::MAX {
                now + SLOT_ACTIVATION_WAIT_MS
            } else {
                u64::MAX as int
            }),
            !armed ==> *final(self) == *old(self),
            *final(self) == old(self).after(armed, now),
    {
        if armed {
            *self = SlotWait::new(now);
        }
    }
}

/// What an append with a deadline does when no slot has taken it.
#[derive(Clone, Copy, Debug, PartialEq, Eq, Structural)]
pub enum AppendStep {
    /// Look at the slots again: this call has armed one.
    Rescan,
    /// Wait up to this many milliseconds for a slot to be armed, and look
    /// again.
    Wait(u64),
    /// Reject the write; nothing was recorded, and it may be repeated.
    Reject,
}

/// The next step of an append with a deadline.
pub open spec fn step_of(armed: bool, now: u64, deadline: u64) -> AppendStep {
    if armed {
        AppendStep::Rescan
    } else if now >= deadline {
        AppendStep::Reject
    } else {
        AppendStep::Wait((deadline - now) as u64)
    }
}

/// The next step of an append with a deadline, after it tried to arm a slot.
pub fn append_step(armed: bool, now: u64, deadline: u64) -> (step: AppendStep)
    ensures
        step == (if armed {
            AppendStep::Rescan
        } else if now >= deadline {
            AppendStep::Reject
        } else {
            AppendStep::Wait((deadline - now) as u64)
        }),
        step == step_of(armed, now, deadline),
{
    if armed {
        AppendStep::Rescan
    } else if now >= deadline {
        AppendStep::Reject
    } else {
        AppendStep::Wait(deadline - now)
    }
}

/// The slots that hold an appending segment.
pub open spec fn appending_slots(slots: Seq<SlotView>) -> Set<int> {
    Set::new(|i: int| 0 <= i < slots.len() && slots[i] is Appending)
}

} // verus!
