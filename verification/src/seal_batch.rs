//! Sealing a batch of segments whose data files are durable.
//!
//! Every segment of the batch is validated first; one that is rejected does
//! not fail the others. Without an event log the accepted ones are written in
//! one batch and then applied. With one, each gets its own event: the event is
//! appended, the seal is applied, and the next follows; the mirror gets one
//! batch at the end.

use crate::coordinator::{missing_root, missing_root_error, seal_event, SegmentLifecycleCoordinator};
use crate::error::{transition_view, TransitionError, TransitionView};
use crate::event_record::{EventView, SegmentEvent};
use crate::lifecycle::{after_seal, entry_at, seal_outcome, Entries};
use crate::types::{MetadataView, SegmentMetadata};
use vstd::prelude::*;

verus! {

/// A batch of seals under way.
#[derive(Debug)]
pub struct SealBatch {
    /// The result of each segment, in the order in which they were given.
    pub results: Vec<Result<(), TransitionError>>,
    /// The segments that were accepted, with their places in `results`.
    pub accepted: Vec<(usize, SegmentMetadata)>,
    /// Which of the accepted segments is next to be written.
    pub next: usize,
    /// What the mirror is told at the end.
    pub mirror: Vec<SegmentMetadata>,
}

/// The mathematical view of [`SealBatch`].
#[verifier::ext_equal]
pub struct BatchView {
    pub results: Seq<Result<(), TransitionView>>,
    pub accepted: Seq<(int, MetadataView)>,
    pub next: int,
    pub mirror: Seq<MetadataView>,
}

/// The views of a list of metadata.
pub open spec fn metas_view(metas: Seq<SegmentMetadata>) -> Seq<MetadataView> {
    metas.map_values(|m: SegmentMetadata| m@)
}

/// The views of a list of accepted segments.
pub open spec fn accepted_view(accepted: Seq<(usize, SegmentMetadata)>) -> Seq<(int, MetadataView)> {
    accepted.map_values(|p: (usize, SegmentMetadata)| (p.0 as int, p.1@))
}

/// The views of a list of results.
pub open spec fn results_view(results: Seq<Result<(), TransitionError>>) -> Seq<
    Result<(), TransitionView>,
> {
    results.map_values(|r: Result<(), TransitionError>| transition_view(r))
}

impl View for SealBatch {
    type V = BatchView;

    open spec fn view(&self) -> BatchView {
        BatchView {
            results: results_view(self.results@),
            accepted: accepted_view(self.accepted@),
            next: self.next as int,
            mirror: metas_view(self.mirror@),
        }
    }
}

impl BatchView {
    /// The places of the accepted segments exist, and `next` is one of them or
    /// past them.
    pub open spec fn wf(self) -> bool {
        &&& 0 <= self.next <= self.accepted.len()
        &&& forall|k: int|
            0 <= k < self.accepted.len() ==> 0 <= (#[trigger] self.accepted[k]).0
                < self.results.len()
    }

    /// The batch after the next segment, with its result and with what the
    /// mirror is told of it.
    pub open spec fn advanced(
        self,
        result: Result<(), TransitionView>,
        mirror: Seq<MetadataView>,
    ) -> BatchView {
        BatchView {
            results: self.results.update(self.accepted[self.next].0, result),
            next: self.next + 1,
            mirror: self.mirror + mirror,
            ..self
        }
    }

    /// The batch at the next segment that has a root; those without one fail.
    pub open spec fn at_next_root(self) -> BatchView
        decreases self.accepted.len() - self.next,
    {
        if 0 <= self.next < self.accepted.len() && self.accepted[self.next].1.merkle_root is None {
            self.advanced(Err(missing_root()), Seq::empty()).at_next_root()
        } else {
            self
        }
    }

    /// The accepted metadata, in order.
    pub open spec fn metas(self) -> Seq<MetadataView> {
        self.accepted.map_values(|p: (int, MetadataView)| p.1)
    }
}

/// The result of the validation of each segment.
pub open spec fn validated(m: Entries, metas: Seq<MetadataView>, now: u64) -> Seq<
    Result<(), TransitionView>,
> {
    metas.map_values(
        |meta: MetadataView| transition_view(seal_outcome(entry_at(m, meta.segment_id, now))),
    )
}

/// The segments that pass the validation, with their places.
pub open spec fn accepted_of(m: Entries, metas: Seq<MetadataView>, now: u64) -> Seq<
    (int, MetadataView),
>
    decreases metas.len(),
{
    if metas.len() == 0 {
        Seq::empty()
    } else {
        let rest = accepted_of(m, metas.drop_last(), now);
        if seal_outcome(entry_at(m, metas.last().segment_id, now)) is Ok {
            rest.push((metas.len() - 1, metas.last()))
        } else {
            rest
        }
    }
}

/// The entries after applying seals in order; one that has become illegal
/// changes nothing.
pub open spec fn after_seals(m: Entries, metas: Seq<MetadataView>, now: u64) -> Entries
    decreases metas.len(),
{
    if metas.len() == 0 {
        m
    } else {
        after_seal(
            after_seals(m, metas.drop_last(), now),
            metas.last().segment_id,
            metas.last(),
            None,
            now,
        )
    }
}

/// The entries and the batch after the append of the next event has returned.
pub open spec fn after_append(
    m: Entries,
    b: BatchView,
    written: Result<(), Seq<char>>,
    now: u64,
) -> (Entries, BatchView) {
    let meta = b.accepted[b.next].1;
    match written {
        Err(why) => (m, b.advanced(Err(TransitionView::DurableWriteFailed(why)), Seq::empty())),
        Ok(()) => (
            after_seal(m, meta.segment_id, meta, None, now),
            b.advanced(
                b.results[b.accepted[b.next].0],
                if seal_outcome(entry_at(m, meta.segment_id, now)) is Ok {
                    seq![meta]
                } else {
                    Seq::empty()
                },
            ),
        ),
    }
}

/// The entries and the batch after the one write of a batch has returned.
pub open spec fn after_batch_write(
    m: Entries,
    b: BatchView,
    written: Result<(), Seq<char>>,
    now: u64,
) -> (Entries, BatchView) {
    match written {
        Ok(()) => (
            after_seals(m, b.metas(), now),
            BatchView { next: b.accepted.len() as int, ..b },
        ),
        Err(why) => (
            m,
            BatchView {
                results: all_failed(b.results, b.accepted, why),
                next: b.accepted.len() as int,
                ..b
            },
        ),
    }
}

/// The results after a batch write that failed: every accepted segment fails.
pub open spec fn all_failed(
    results: Seq<Result<(), TransitionView>>,
    accepted: Seq<(int, MetadataView)>,
    why: Seq<char>,
) -> Seq<Result<(), TransitionView>>
    decreases accepted.len(),
{
    if accepted.len() == 0 {
        results
    } else {
        all_failed(results, accepted.drop_last(), why).update(
            accepted.last().0,
            Err(TransitionView::DurableWriteFailed(why)),
        )
    }
}

impl SegmentLifecycleCoordinator {
    /// Starts a batch: validates every segment of it. There is one result per
    /// segment, in the same order.
    pub fn seal_finalized_batch(&self, metas: Vec<SegmentMetadata>, now: u64) -> (batch: SealBatch)
        ensures
            batch@.results == validated(self.registry@, metas_view(metas@), now),
            batch@.accepted == accepted_of(self.registry@, metas_view(metas@), now),
            batch@.next == 0,
            batch@.mirror == Seq::<MetadataView>::empty(),
            batch@.wf(),
    {
        let ghost all = metas_view(metas@);
        let ghost m = self.registry@;
        let mut results: Vec<Result<(), TransitionError>> = Vec::new();
        let mut accepted: Vec<(usize, SegmentMetadata)> = Vec::new();
        for meta in it: metas
            invariant
                m == self.registry@,
                all == metas_view(it.seq()),
                results@.len() == it.index(),
                results_view(results@) =~= validated(m, all.take(it.index()), now),
                accepted_view(accepted@) =~= accepted_of(m, all.take(it.index()), now),
                forall|k: int|
                    0 <= k < accepted@.len() ==> (#[trigger] accepted@[k]).0 < it.index(),
        {
            let i: usize = results.len();
            let ghost done = all.take(it.index());
            let ghost next = all.take(it.index() + 1);
            proof {
                assert(next.drop_last() =~= done);
                assert(next.last() == meta@);
            }
            let ghost were = accepted@;
            let ghost was = results@;
            match self.registry.validate_seal(meta.segment_id, now) {
                Ok(()) => {
                    results.push(Ok(()));
                    let ghost view = meta@;
                    accepted.push((i, meta));
                    assert(accepted_view(accepted@) =~= accepted_view(were).push((i as int, view)));
                },
                Err(e) => {
                    results.push(Err(e));
                },
            }
            assert(results_view(results@) =~= results_view(was).push(
                transition_view(results@.last()),
            ));
            assert(validated(m, next, now) =~= validated(m, done, now).push(
                transition_view(seal_outcome(entry_at(m, next.last().segment_id, now))),
            ));
        }
        assert(all.take(all.len() as int) =~= all);
        let batch = SealBatch { results, accepted, next: 0, mirror: Vec::new() };
        assert(batch@.mirror =~= Seq::<MetadataView>::empty());
        proof {
            assert forall|k: int| 0 <= k < batch@.accepted.len() implies 0 <= (
            #[trigger] batch@.accepted[k]).0 < batch@.results.len() by {
                assert(accepted@[k].0 < results@.len());
            }
        }
        batch
    }

    /// The event that is to be appended next, where there is an event log.
    /// Segments without a root fail on the way. `None` when the batch is done.
    pub fn next_seal_event(&self, batch: &mut SealBatch) -> (event: Option<SegmentEvent>)
        requires
            old(batch)@.wf(),
        ensures
            final(batch)@ == old(batch)@.at_next_root(),
            final(batch)@.wf(),
            match event {
                Some(e) => {
                    let b = final(batch)@;
                    let meta = b.accepted[b.next].1;
                    &&& b.next < b.accepted.len()
                    &&& meta.merkle_root is Some
                    &&& e@ == EventView::Seal(
                        seal_event(
                            self.registry@,
                            meta.segment_id,
                            meta,
                            meta.merkle_root->0,
                            None,
                        ),
                    )
                },
                None => final(batch)@.next == final(batch)@.accepted.len(),
            },
    {
        let n: usize = batch.accepted.len();
        while batch.next < n
            invariant
                n == batch.accepted@.len(),
                batch@.wf(),
                batch@.at_next_root() == old(batch)@.at_next_root(),
                old(batch)@.wf(),
            decreases n - batch.next,
        {
            let at: usize = batch.next;
            let ghost before = batch@;
            assert(batch@.accepted[at as int] == (
                batch.accepted@[at as int].0 as int,
                batch.accepted@[at as int].1@,
            ));
            match batch.accepted[at].1.merkle_root {
                Some(root) => {
                    let event = self.seal_event(
                        batch.accepted[at].1.segment_id,
                        &batch.accepted[at].1,
                        root,
                        None,
                    );
                    return Some(SegmentEvent::Seal(event));
                },
                None => {
                    let i: usize = batch.accepted[at].0;
                    assert(before.accepted[at as int].0 < before.results.len());
                    batch.results.set(i, Err(missing_root_error()));
                    batch.next = at + 1;
                    assert(batch@ =~= before.advanced(Err(missing_root()), Seq::empty()));
                },
            }
        }
        None
    }

    /// Takes the outcome of the append of the event that
    /// [`Self::next_seal_event`] gave. A failed append fails this segment only.
    /// After a successful one the seal is applied, and the mirror is told of
    /// it; a seal that has become illegal meanwhile changes nothing, and its
    /// event stands.
    pub fn seal_event_appended(
        &mut self,
        batch: &mut SealBatch,
        written: Result<(), String>,
        now: u64,
    )
        requires
            old(batch)@.wf(),
            old(batch)@.next < old(batch)@.accepted.len(),
        ensures
            final(self).only_registry_changed(*old(self)),
            final(batch)@.wf(),
            (final(self).registry@, final(batch)@) == after_append(
                old(self).registry@,
                old(batch)@,
                match written {
                    Ok(()) => Ok(()),
                    Err(why) => Err(why@),
                },
                now,
            ),
            ({
                let m = old(self).registry@;
                let b = old(batch)@;
                let meta = b.accepted[b.next].1;
                match written {
                    Err(why) => {
                        &&& final(self).registry@ == m
                        &&& final(batch)@ == b.advanced(
                            Err(TransitionView::DurableWriteFailed(why@)),
                            Seq::empty(),
                        )
                    },
                    Ok(()) => {
                        &&& final(self).registry@ == after_seal(m, meta.segment_id, meta, None, now)
                        &&& final(batch)@ == b.advanced(
                            b.results[b.accepted[b.next].0],
                            if seal_outcome(entry_at(m, meta.segment_id, now)) is Ok {
                                seq![meta]
                            } else {
                                Seq::empty()
                            },
                        )
                    },
                }
            }),
    {
        let at: usize = batch.next;
        let n: usize = batch.accepted.len();
        let ghost before = batch@;
        assert(at < n);
        assert(batch@.accepted[at as int] == (
            batch.accepted@[at as int].0 as int,
            batch.accepted@[at as int].1@,
        ));
        assert(before.accepted[at as int].0 < before.results.len());
        let i: usize = batch.accepted[at].0;
        batch.next = at + 1;
        match written {
            Err(why) => {
                batch.results.set(i, Err(TransitionError::DurableWriteFailed(why)));
                assert(batch@ =~= before.advanced(
                    Err(TransitionView::DurableWriteFailed(why@)),
                    Seq::empty(),
                ));
            },
            Ok(()) => {
                let meta = batch.accepted[at].1.clone();
                let id = meta.segment_id;
                let copy = meta.clone();
                match self.registry.fold_seal(id, meta, None, now) {
                    Ok(()) => {
                        batch.mirror.push(copy);
                        assert(batch@ =~= before.advanced(
                            before.results[i as int],
                            seq![before.accepted[at as int].1],
                        ));
                    },
                    Err(_) => {
                        assert(batch@ =~= before.advanced(before.results[i as int], Seq::empty()));
                    },
                }
            },
        }
    }

    /// What is written in one batch, where there is no event log: the accepted
    /// metadata.
    pub fn seal_batch_writes(&self, batch: &SealBatch) -> (metas: Vec<SegmentMetadata>)
        ensures
            metas_view(metas@) == batch@.metas(),
    {
        let mut metas: Vec<SegmentMetadata> = Vec::new();
        let n: usize = batch.accepted.len();
        let mut i: usize = 0;
        while i < n
            invariant
                i <= n == batch.accepted@.len(),
                metas_view(metas@) =~= batch@.metas().take(i as int),
            decreases n - i,
        {
            let ghost were = metas@;
            metas.push(batch.accepted[i].1.clone());
            assert(metas_view(metas@) =~= metas_view(were).push(batch@.metas()[i as int]));
            i = i + 1;
        }
        assert(batch@.metas().take(n as int) =~= batch@.metas());
        metas
    }

    /// Takes the outcome of the batch write, where there is no event log. A
    /// failed one fails every accepted segment and changes no entry; after a
    /// successful one the seals are applied in order.
    pub fn seal_batch_written(
        &mut self,
        batch: &mut SealBatch,
        written: Result<(), String>,
        now: u64,
    )
        requires
            old(batch)@.wf(),
        ensures
            final(self).only_registry_changed(*old(self)),
            final(batch)@ == (BatchView {
                results: match written {
                    Ok(()) => old(batch)@.results,
                    Err(why) => all_failed(old(batch)@.results, old(batch)@.accepted, why@),
                },
                next: old(batch)@.accepted.len() as int,
                ..old(batch)@
            }),
            final(self).registry@ == (match written {
                Ok(()) => after_seals(old(self).registry@, old(batch)@.metas(), now),
                Err(_) => old(self).registry@,
            }),
            (final(self).registry@, final(batch)@) == after_batch_write(
                old(self).registry@,
                old(batch)@,
                match written {
                    Ok(()) => Ok(()),
                    Err(why) => Err(why@),
                },
                now,
            ),
    {
        let n: usize = batch.accepted.len();
        let ghost b = batch@;
        let ghost before = *self;
        let mut i: usize = 0;
        match written {
            Err(why) => {
                while i < n
                    invariant
                        i <= n == b.accepted.len(),
                        b.wf(),
                        n == batch.accepted@.len(),
                        batch@ == (BatchView {
                            results: all_failed(b.results, b.accepted.take(i as int), why@),
                            ..b
                        }),
                        batch@.results.len() == b.results.len(),
                    decreases n - i,
                {
                    let at: usize = batch.accepted[i].0;
                    assert(b.accepted[i as int] == batch@.accepted[i as int]);
                    assert(batch@.accepted[i as int].0 == at);
                    assert(b.accepted[i as int].0 < b.results.len());
                    let ghost was = batch@;
                    let ghost next = b.accepted.take(i + 1);
                    assert(next.drop_last() =~= b.accepted.take(i as int));
                    let text: String = why.as_str().to_owned();
                    batch.results.set(at, Err(TransitionError::DurableWriteFailed(text)));
                    assert(batch@.results =~= was.results.update(
                        at as int,
                        Err(TransitionView::DurableWriteFailed(why@)),
                    ));
                    i = i + 1;
                }
                assert(b.accepted.take(n as int) =~= b.accepted);
            },
            Ok(()) => {
                while i < n
                    invariant
                        i <= n == b.accepted.len(),
                        batch@ == b,
                        n == batch.accepted@.len(),
                        self.only_registry_changed(before),
                        self.registry@ == after_seals(
                            before.registry@,
                            b.metas().take(i as int),
                            now,
                        ),
                    decreases n - i,
                {
                    let meta = batch.accepted[i].1.clone();
                    let id = meta.segment_id;
                    let ghost next = b.metas().take(i + 1);
                    proof {
                        assert(next.drop_last() =~= b.metas().take(i as int));
                        assert(b.accepted[i as int] == batch@.accepted[i as int]);
                        assert(next.last() == meta@);
                    }
                    let applied = self.registry.fold_seal(id, meta, None, now);
                    i = i + 1;
                }
                assert(b.metas().take(n as int) =~= b.metas());
            },
        }
        batch.next = n;
        assert(batch@.accepted =~= b.accepted);
    }
}

/// A batch is isolated: the outcome of one segment changes no other result.
pub proof fn law_batch_results_isolated(
    b: BatchView,
    result: Result<(), TransitionView>,
    mirror: Seq<MetadataView>,
    i: int,
)
    requires
        b.wf(),
        b.next < b.accepted.len(),
        0 <= i < b.results.len(),
        i != b.accepted[b.next].0,
    ensures
        b.advanced(result, mirror).results.len() == b.results.len(),
        b.advanced(result, mirror).results[i] == b.results[i],
{
}

/// A segment that is not reserved is rejected with its own reason, whatever
/// else is in the batch, and is not among those that are written.
pub proof fn law_batch_rejects_illegal_seals(
    m: Entries,
    metas: Seq<MetadataView>,
    now: u64,
    i: int,
)
    requires
        0 <= i < metas.len(),
    ensures
        validated(m, metas, now).len() == metas.len(),
        validated(m, metas, now)[i] == transition_view(
            seal_outcome(entry_at(m, metas[i].segment_id, now)),
        ),
        seal_outcome(entry_at(m, metas[i].segment_id, now)) is Ok <==> accepted_of(
            m,
            metas,
            now,
        ).contains((i, metas[i])),
    decreases metas.len(),
{
    let front = metas.drop_last();
    let rest = accepted_of(m, front, now);
    let all = accepted_of(m, metas, now);
    lemma_accepted_places(m, front, now);
    if i < metas.len() - 1 {
        law_batch_rejects_illegal_seals(m, front, now, i);
        assert(front[i] == metas[i]);
        if rest.contains((i, metas[i])) {
            let k = choose|k: int| 0 <= k < rest.len() && rest[k] == (i, metas[i]);
            assert(all[k] == (i, metas[i]));
        }
        if all.contains((i, metas[i])) {
            let k = choose|k: int| 0 <= k < all.len() && all[k] == (i, metas[i]);
            assert(k < rest.len());
            assert(rest[k] == (i, metas[i]));
        }
    } else {
        if seal_outcome(entry_at(m, metas[i].segment_id, now)) is Ok {
            assert(all[rest.len() as int] == (i, metas[i]));
        } else if all.contains((i, metas[i])) {
            let k = choose|k: int| 0 <= k < all.len() && all[k] == (i, metas[i]);
            assert(rest[k].0 < front.len());
        }
    }
}

proof fn lemma_accepted_places(m: Entries, metas: Seq<MetadataView>, now: u64)
    ensures
        forall|k: int|
            0 <= k < accepted_of(m, metas, now).len() ==> 0 <= (#[trigger] accepted_of(
                m,
                metas,
                now,
            )[k]).0 < metas.len(),
    decreases metas.len(),
{
    if metas.len() > 0 {
        let rest = accepted_of(m, metas.drop_last(), now);
        let all = accepted_of(m, metas, now);
        lemma_accepted_places(m, metas.drop_last(), now);
        assert forall|k: int| 0 <= k < all.len() implies 0 <= (#[trigger] all[k]).0
            < metas.len() by {
            if k < rest.len() {
                assert(all[k] == rest[k]);
            }
        }
    }
}

} // verus!
