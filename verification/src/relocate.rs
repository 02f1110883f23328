//! Moving a sealed segment between storage pools of a node.
//!
//! The data is copied to the target pool; then the segment's pool is changed
//! durably; then the source file is unlinked. At every point one of the two
//! files is the authoritative one, the one on the pool that the registry
//! names; the other is residue, and is unlinked at the next start.

use crate::coordinator::{
    changed, requested, ChangeView, PendingTransition, SegmentLifecycleCoordinator,
};
use crate::data_store::{pool_by_id, pool_index, PoolRole, StoragePool};
use crate::dat_name::uuid_text;
use crate::error::TransitionError;
use crate::lifecycle::{entry_at, Entries, SegmentState};
use crate::text::decimal;
use crate::types::{HashOutput, SegmentId};
use vstd::prelude::*;
use vstd::string::*;

verus! {

/// Why a relocation failed. The segment then stays on its source pool, unless
/// the source could not be unlinked: the pool was changed before, the segment is
/// on the target pool, and the source file is residue.
#[derive(Debug, PartialEq, Eq)]
pub enum RelocateError {
    /// No registered pool has the target's identifier.
    TargetPoolMissing(u32),
    /// The target pool does not hold segment data.
    TargetNotDataRole(u32),
    /// The segment is on the target pool already.
    SamePool {
        /// The segment.
        segment_id: SegmentId,
        /// Its pool.
        pool_id: u32,
    },
    /// The segment is not sealed.
    NotSealed(SegmentId),
    /// The segment has no entry on this node.
    NotHeldLocally(SegmentId),
    /// The source file is gone.
    SourceFileMissing(SegmentId),
    /// The durable change of the pool failed.
    Commit {
        /// The segment.
        segment_id: SegmentId,
        /// Why it failed.
        detail: String,
    },
    /// Copying or unlinking failed.
    Store(SegmentId, String),
}

/// The mathematical view of [`RelocateError`].
#[verifier::ext_equal]
pub enum RelocateView {
    TargetPoolMissing(u32),
    TargetNotDataRole(u32),
    SamePool(SegmentId, u32),
    NotSealed(SegmentId),
    NotHeldLocally(SegmentId),
    SourceFileMissing(SegmentId),
    Commit(SegmentId, Seq<char>),
    Store(SegmentId, Seq<char>),
}

impl View for RelocateError {
    type V = RelocateView;

    open spec fn view(&self) -> RelocateView {
        match *self {
            RelocateError::TargetPoolMissing(p) => RelocateView::TargetPoolMissing(p),
            RelocateError::TargetNotDataRole(p) => RelocateView::TargetNotDataRole(p),
            RelocateError::SamePool { segment_id, pool_id } => RelocateView::SamePool(
                segment_id,
                pool_id,
            ),
            RelocateError::NotSealed(id) => RelocateView::NotSealed(id),
            RelocateError::NotHeldLocally(id) => RelocateView::NotHeldLocally(id),
            RelocateError::SourceFileMissing(id) => RelocateView::SourceFileMissing(id),
            RelocateError::Commit { segment_id, detail } => RelocateView::Commit(
                segment_id,
                detail@,
            ),
            RelocateError::Store(id, detail) => RelocateView::Store(id, detail@),
        }
    }
}

impl RelocateView {
    /// What went wrong, in words.
    pub open spec fn text(self) -> Seq<char> {
        match self {
            RelocateView::TargetPoolMissing(p) => "relocation target pool "@ + decimal(p as nat)
                + " is not registered"@,
            RelocateView::TargetNotDataRole(p) => "relocation target pool "@ + decimal(p as nat)
                + " is not a data pool"@,
            RelocateView::SamePool(id, p) => "segment "@ + uuid_text(id) + " already lives on pool "@
                + decimal(p as nat),
            RelocateView::NotSealed(id) => "segment "@ + uuid_text(id) + " is not sealed"@,
            RelocateView::NotHeldLocally(id) => "segment "@ + uuid_text(id)
                + " is not held locally"@,
            RelocateView::SourceFileMissing(id) => "segment "@ + uuid_text(id)
                + " source .dat is missing from its pool root"@,
            RelocateView::Commit(id, detail) => "relocation commit failed for segment "@
                + uuid_text(id) + ": "@ + detail,
            RelocateView::Store(id, detail) => "relocation store operation failed for segment "@
                + uuid_text(id) + ": "@ + detail,
        }
    }
}

impl RelocateError {
    /// What went wrong, in words.
    pub fn message(&self) -> (text: String)
        ensures
            text@ == self@.text(),
    {
        match self {
            RelocateError::TargetPoolMissing(p) => {
                let mut text: String = "relocation target pool ".to_owned();
                crate::text::push_decimal(&mut text, *p as u64);
                text.append(" is not registered");
                text
            },
            RelocateError::TargetNotDataRole(p) => {
                let mut text: String = "relocation target pool ".to_owned();
                crate::text::push_decimal(&mut text, *p as u64);
                text.append(" is not a data pool");
                text
            },
            RelocateError::SamePool { segment_id, pool_id } => {
                let mut text = named_segment("segment ", *segment_id);
                text.append(" already lives on pool ");
                crate::text::push_decimal(&mut text, *pool_id as u64);
                text
            },
            RelocateError::NotSealed(id) => {
                let mut text = named_segment("segment ", *id);
                text.append(" is not sealed");
                text
            },
            RelocateError::NotHeldLocally(id) => {
                let mut text = named_segment("segment ", *id);
                text.append(" is not held locally");
                text
            },
            RelocateError::SourceFileMissing(id) => {
                let mut text = named_segment("segment ", *id);
                text.append(" source .dat is missing from its pool root");
                text
            },
            RelocateError::Commit { segment_id, detail } => {
                let mut text = named_segment("relocation commit failed for segment ", *segment_id);
                text.append(": ");
                text.append(detail.as_str());
                text
            },
            RelocateError::Store(id, detail) => {
                let mut text = named_segment(
                    "relocation store operation failed for segment ",
                    *id,
                );
                text.append(": ");
                text.append(detail.as_str());
                text
            },
        }
    }
}

/// A text with a segment's UUID behind it.
fn named_segment(text: &str, id: SegmentId) -> (out: String)
    ensures
        out@ == text@ + uuid_text(id),
{
    let mut out: String = text.to_owned();
    crate::dat_name::push_uuid(&mut out, id);
    out
}

/// A relocation that was found to be possible.
#[derive(Clone, Copy, Debug)]
pub struct SegmentRelocator {
    /// The segment.
    pub segment_id: SegmentId,
    /// The pool that holds it.
    pub source_pool_id: u32,
    /// The pool that it goes to.
    pub target_pool_id: u32,
    /// Its root, which the relocation keeps.
    pub merkle_root: Option<HashOutput>,
}

/// Whether a segment can be moved to a pool: the pool is registered and holds
/// data, and the segment is sealed on this node and on another pool.
pub open spec fn relocation(
    m: Entries,
    pools: Seq<StoragePool>,
    id: SegmentId,
    target: u32,
    now: u64,
) -> Result<SegmentRelocator, RelocateView> {
    match pool_index(pools, target) {
        None => Err(RelocateView::TargetPoolMissing(target)),
        Some(i) => if pools[i].role != PoolRole::Data {
            Err(RelocateView::TargetNotDataRole(target))
        } else {
            match entry_at(m, id, now) {
                None => Err(RelocateView::NotHeldLocally(id)),
                Some(e) => if e.state != SegmentState::Sealed {
                    Err(RelocateView::NotSealed(id))
                } else if e.metadata.pool_id == target {
                    Err(RelocateView::SamePool(id, target))
                } else {
                    Ok(
                        SegmentRelocator {
                            segment_id: id,
                            source_pool_id: e.metadata.pool_id,
                            target_pool_id: target,
                            merkle_root: e.metadata.merkle_root,
                        },
                    )
                },
            }
        },
    }
}

impl SegmentRelocator {
    /// The change that a relocation commits: the new pool, with the root as it was.
    pub open spec fn change(self) -> ChangeView {
        ChangeView::Refresh(self.merkle_root, None, Some(self.target_pool_id))
    }

    /// Starts the move of a segment. With the segment's write guard held, its
    /// source file is then read.
    pub fn relocate(
        coordinator: &SegmentLifecycleCoordinator,
        pools: &Vec<StoragePool>,
        segment_id: SegmentId,
        target_pool_id: u32,
        now: u64,
    ) -> (r: Result<SegmentRelocator, RelocateError>)
        ensures
            match relocation(coordinator.registry@, pools@, segment_id, target_pool_id, now) {
                Ok(plan) => r is Ok && r->Ok_0 == plan,
                Err(e) => r is Err && r->Err_0@ == e,
            },
    {
        match pool_by_id(pools, target_pool_id) {
            None => {
                return Err(RelocateError::TargetPoolMissing(target_pool_id));
            },
            Some(i) => {
                if pools[i].role != PoolRole::Data {
                    return Err(RelocateError::TargetNotDataRole(target_pool_id));
                }
            },
        }
        let entry = match coordinator.registry.get(segment_id, now) {
            Some(entry) => entry,
            None => {
                return Err(RelocateError::NotHeldLocally(segment_id));
            },
        };
        match entry.state {
            SegmentState::Sealed => {},
            _ => {
                return Err(RelocateError::NotSealed(segment_id));
            },
        }
        let source_pool_id: u32 = entry.metadata.pool_id;
        if source_pool_id == target_pool_id {
            return Err(RelocateError::SamePool { segment_id, pool_id: source_pool_id });
        }
        Ok(
            SegmentRelocator {
                segment_id,
                source_pool_id,
                target_pool_id,
                merkle_root: entry.metadata.merkle_root,
            },
        )
    }

    /// The source was read: its data, or nothing when the file is gone. The
    /// data is then written to the target pool.
    pub fn source_read<T>(&self, read: Result<Option<T>, String>) -> (r: Result<T, RelocateError>)
        ensures
            match read {
                Ok(Some(data)) => r is Ok && r->Ok_0 == data,
                Ok(None) => r is Err && r->Err_0@ == RelocateView::SourceFileMissing(
                    self.segment_id,
                ),
                Err(why) => r is Err && r->Err_0@ == RelocateView::Store(self.segment_id, why@),
            },
    {
        match read {
            Ok(Some(data)) => Ok(data),
            Ok(None) => Err(RelocateError::SourceFileMissing(self.segment_id)),
            Err(why) => Err(RelocateError::Store(self.segment_id, why)),
        }
    }

    /// The copy was written, or the source was unlinked.
    pub fn stored(&self, done: Result<(), String>) -> (r: Result<(), RelocateError>)
        ensures
            match done {
                Ok(()) => r is Ok,
                Err(why) => r is Err && r->Err_0@ == RelocateView::Store(self.segment_id, why@),
            },
    {
        match done {
            Ok(()) => Ok(()),
            Err(why) => Err(RelocateError::Store(self.segment_id, why)),
        }
    }

    /// Requests the durable change of the segment's pool. The root is carried
    /// along, since a refresh replaces it.
    pub fn commit(&self, coordinator: &SegmentLifecycleCoordinator, now: u64) -> (r: Result<
        PendingTransition,
        RelocateError,
    >)
        ensures
            match requested(
                coordinator.registry@,
                coordinator.event_log,
                self.segment_id,
                self.change(),
                now,
            ) {
                Ok(pending) => r is Ok && r->Ok_0@ == pending,
                Err(e) => r is Err && r->Err_0@ == RelocateView::Commit(self.segment_id, e.text()),
            },
            match requested(
                coordinator.registry@,
                coordinator.event_log,
                self.segment_id,
                ChangeView::Refresh(self.merkle_root, None, Some(self.target_pool_id)),
                now,
            ) {
                Ok(pending) => r is Ok && r->Ok_0@ == pending,
                Err(e) => r is Err && r->Err_0@ == RelocateView::Commit(self.segment_id, e.text()),
            },
    {
        match coordinator.request_refresh_metadata(
            self.segment_id,
            self.merkle_root,
            None,
            Some(self.target_pool_id),
            now,
        ) {
            Ok(pending) => Ok(pending),
            Err(e) => Err(
                RelocateError::Commit { segment_id: self.segment_id, detail: e.message() },
            ),
        }
    }

    /// The change of the pool was completed. Readers then drop what they know
    /// of the source, and the source file is unlinked.
    pub fn committed(&self, done: Result<(), TransitionError>) -> (r: Result<(), RelocateError>)
        ensures
            match done {
                Ok(()) => r is Ok,
                Err(e) => r is Err && r->Err_0@ == RelocateView::Commit(
                    self.segment_id,
                    e@.text(),
                ),
            },
    {
        match done {
            Ok(()) => Ok(()),
            Err(e) => Err(
                RelocateError::Commit { segment_id: self.segment_id, detail: e.message() },
            ),
        }
    }
}

/// Whether a file found on a pool at start-up is residue.
pub open spec fn is_residue(
    state: Option<SegmentState>,
    authoritative_pool_id: u32,
    found_pool_id: u32,
) -> bool {
    match state {
        None => true,
        Some(SegmentState::Deleted) => true,
        Some(SegmentState::Sealed) => authoritative_pool_id != found_pool_id,
        Some(SegmentState::Reserved) => false,
    }
}

/// Whether a data file found on a pool's root at start-up is residue, to be
/// unlinked: it has no live entry, its segment is deleted, or its segment is
/// sealed and belongs to another pool. The file of a reserved segment stays:
/// recovery adopts or replaces it.
pub fn is_startup_residue(
    state: Option<SegmentState>,
    authoritative_pool_id: u32,
    found_pool_id: u32,
) -> (residue: bool)
    ensures
        residue == is_residue(state, authoritative_pool_id, found_pool_id),
{
    match state {
        None => true,
        Some(SegmentState::Deleted) => true,
        Some(SegmentState::Sealed) => authoritative_pool_id != found_pool_id,
        Some(SegmentState::Reserved) => false,
    }
}

/// A relocation never leaves the segment without its file: before the commit
/// the source is kept and the copy is residue; after it the copy is kept and
/// the source is residue. The commit keeps the segment sealed and its root as
/// it was.
pub proof fn law_relocation_keeps_one_copy(
    m: Entries,
    pools: Seq<StoragePool>,
    id: SegmentId,
    target: u32,
    grace: u64,
    now: u64,
)
    requires
        relocation(m, pools, id, target, now) is Ok,
    ensures
        ({
            let plan = relocation(m, pools, id, target, now)->Ok_0;
            let change = plan.change();
            let after = changed(m, id, change, grace, now);
            &&& change == ChangeView::Refresh(plan.merkle_root, None, Some(target))
            &&& !is_residue(Some(m[id].state), m[id].metadata.pool_id, plan.source_pool_id)
            &&& is_residue(Some(m[id].state), m[id].metadata.pool_id, target)
            &&& after.contains_key(id)
            &&& after[id].state == SegmentState::Sealed
            &&& after[id].metadata.pool_id == target
            &&& after[id].metadata.merkle_root == m[id].metadata.merkle_root
            &&& after[id].metadata.storage_locations == m[id].metadata.storage_locations
            &&& is_residue(Some(after[id].state), after[id].metadata.pool_id, plan.source_pool_id)
            &&& !is_residue(Some(after[id].state), after[id].metadata.pool_id, target)
        }),
{
}

} // verus!
