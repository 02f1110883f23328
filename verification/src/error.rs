//! Errors of the segment layer.

use crate::types::{EventWalPos, SegmentId, SizeTier};
use vstd::prelude::*;

verus! {

/// What is wrong with a record of the event log.
#[derive(Clone, Copy, Debug, PartialEq, Eq, Structural)]
pub enum BadRecord {
    /// The file ends within the record's header.
    TruncatedHeader,
    /// The record does not start with the record magic.
    BadMagic,
    /// The record has another format version.
    UnsupportedVersion,
    /// The record claims a payload longer than any event has.
    ImplausibleLength,
    /// The file ends within the record's payload or checksum.
    TruncatedPayload,
    /// The stored checksum is not the checksum of the record.
    ChecksumMismatch,
    /// The payload stands for no event.
    InvalidPayload,
}

impl BadRecord {
    /// What is wrong, in words.
    pub open spec fn text(self) -> Seq<char> {
        match self {
            BadRecord::TruncatedHeader => "truncated record header"@,
            BadRecord::BadMagic => "bad record magic"@,
            BadRecord::UnsupportedVersion => "unsupported record version"@,
            BadRecord::ImplausibleLength => "implausible payload length"@,
            BadRecord::TruncatedPayload => "truncated record payload"@,
            BadRecord::ChecksumMismatch => "checksum mismatch"@,
            BadRecord::InvalidPayload => "invalid event payload"@,
        }
    }

    /// What is wrong, in words.
    pub fn message(&self) -> (text: &'static str)
        ensures
            text@ == self.text(),
    {
        match self {
            BadRecord::TruncatedHeader => "truncated record header",
            BadRecord::BadMagic => "bad record magic",
            BadRecord::UnsupportedVersion => "unsupported record version",
            BadRecord::ImplausibleLength => "implausible payload length",
            BadRecord::TruncatedPayload => "truncated record payload",
            BadRecord::ChecksumMismatch => "checksum mismatch",
            BadRecord::InvalidPayload => "invalid event payload",
        }
    }
}

/// A lifecycle transition that could not be applied.
///
/// Whatever the reason, no live entry was changed.
#[derive(Debug, PartialEq, Eq)]
pub enum TransitionError {
    /// The segment is not present in the registry.
    Missing,
    /// The segment is already reserved. A repeated reservation succeeds, so
    /// no transition of the registry gives this error.
    AlreadyReserved,
    /// The segment is already sealed.
    AlreadySealed,
    /// The segment is already deleted.
    AlreadyDeleted,
    /// The segment is not in the reserved state.
    NotReserved,
    /// The durable write that the transition needs failed; it says why.
    DurableWriteFailed(String),
}

/// The mathematical view of [`TransitionError`].
#[verifier::ext_equal]
pub enum TransitionView {
    Missing,
    AlreadyReserved,
    AlreadySealed,
    AlreadyDeleted,
    NotReserved,
    DurableWriteFailed(Seq<char>),
}

impl View for TransitionError {
    type V = TransitionView;

    open spec fn view(&self) -> TransitionView {
        match *self {
            TransitionError::Missing => TransitionView::Missing,
            TransitionError::AlreadyReserved => TransitionView::AlreadyReserved,
            TransitionError::AlreadySealed => TransitionView::AlreadySealed,
            TransitionError::AlreadyDeleted => TransitionView::AlreadyDeleted,
            TransitionError::NotReserved => TransitionView::NotReserved,
            TransitionError::DurableWriteFailed(why) => TransitionView::DurableWriteFailed(why@),
        }
    }
}

impl TransitionView {
    /// What went wrong, in words.
    pub open spec fn text(self) -> Seq<char> {
        match self {
            TransitionView::Missing => "segment not present in the lifecycle registry"@,
            TransitionView::AlreadyReserved => "segment is already reserved"@,
            TransitionView::AlreadySealed => "segment is already sealed"@,
            TransitionView::AlreadyDeleted => "segment is already deleted"@,
            TransitionView::NotReserved => "segment is not in the Reserved state"@,
            TransitionView::DurableWriteFailed(why) => "durable lifecycle write failed: "@ + why,
        }
    }
}

impl TransitionError {
    /// What went wrong, in words.
    pub fn message(&self) -> (text: String)
        ensures
            text@ == self@.text(),
    {
        match self {
            TransitionError::Missing => "segment not present in the lifecycle registry".to_owned(),
            TransitionError::AlreadyReserved => "segment is already reserved".to_owned(),
            TransitionError::AlreadySealed => "segment is already sealed".to_owned(),
            TransitionError::AlreadyDeleted => "segment is already deleted".to_owned(),
            TransitionError::NotReserved => "segment is not in the Reserved state".to_owned(),
            TransitionError::DurableWriteFailed(why) => {
                let mut text: String = "durable lifecycle write failed: ".to_owned();
                text.append(why.as_str());
                text
            },
        }
    }
}

/// The view of the result of a transition.
pub open spec fn transition_view(r: Result<(), TransitionError>) -> Result<(), TransitionView> {
    match r {
        Ok(()) => Ok(()),
        Err(e) => Err(e@),
    }
}

/// How the mirror of the registry contradicts it.
#[derive(Clone, Copy, Debug, PartialEq, Eq, Structural)]
pub enum MirrorFault {
    /// The mirror says sealed where the registry says reserved.
    MirrorSealed,
    /// The mirror holds a sealed segment that the registry lacks.
    SealedEntryMissing,
}

/// Why an operation of the segment layer failed.
#[derive(Debug, PartialEq, Eq)]
pub enum Error {
    /// An active segment of this tier cannot exist.
    InlineTier,
    /// Two index entries have the same offset.
    DuplicateOffset(u64),
    /// The blob at this offset starts within another blob.
    OverlappingBlob(u64),
    /// No slot of the pool can take the data.
    NoSlot,
    /// The segment that is being replayed is full.
    ReplayedSegmentFull(SegmentId),
    /// No slot of the pool accepted the write in time.
    WriteBackpressureTimeout,
    /// The active segment has reached its target size.
    SegmentFull {
        /// The full segment.
        segment_id: SegmentId,
        /// Its size.
        current_size: u64,
    },
    /// The last record of the event log is incomplete or damaged.
    TornEventRecord {
        /// Where the record starts.
        pos: EventWalPos,
        /// What is wrong with it.
        detail: BadRecord,
    },
    /// A record of the event log is damaged and the log goes on after it.
    CorruptEventLog {
        /// Where the record starts.
        pos: EventWalPos,
        /// What is wrong with it.
        detail: BadRecord,
    },
    /// An event of the log is not a legal transition.
    EventFoldError {
        /// Where the event's record starts.
        pos: EventWalPos,
        /// The segment that the event is about.
        segment_id: SegmentId,
        /// Why the transition was rejected.
        cause: TransitionError,
    },
    /// The mirror contradicts the registry.
    MirrorDivergence {
        /// The segment they disagree on.
        segment_id: SegmentId,
        /// How they disagree.
        fault: MirrorFault,
    },
    /// The segment's data is damaged and cannot be repaired from parity.
    SegmentCorrupt(SegmentId),
    /// The codec could not decode a damaged stripe.
    DecodeFailed {
        /// The segment.
        segment_id: SegmentId,
        /// The stripe.
        stripe: usize,
        /// What the codec said.
        why: String,
    },
    /// The codec could not encode the parity of a repaired stripe.
    EncodeFailed {
        /// The segment.
        segment_id: SegmentId,
        /// The stripe.
        stripe: usize,
        /// What the codec said.
        why: String,
    },
    /// The checkpoint at this position was written before storage pools.
    UnsupportedPrePoolDataDir(EventWalPos),
    /// The metadata of a segment could not be serialized.
    MetadataEncoding(SegmentId),
    /// The segment has no entry in the registry.
    NotRegistered(SegmentId),
    /// The segment's data is too large to be read in one piece.
    DataTooLarge {
        /// The segment.
        segment_id: SegmentId,
        /// Size of its data.
        size: u64,
    },
    /// A write guard of one segment was used for another.
    WrongGuard {
        /// The segment that the guard was taken for.
        held: SegmentId,
        /// The segment that was to be written.
        target: SegmentId,
    },
    /// The segment's metadata names a pool that is not registered.
    UnknownPool {
        /// The segment.
        segment_id: SegmentId,
        /// The pool.
        pool_id: u32,
    },
    /// There is no pool of the tier of a segment that is to be replayed.
    NoPoolForTier {
        /// The segment.
        segment_id: SegmentId,
        /// Its tier.
        tier: SizeTier,
    },
    /// Reading or writing failed; it says why.
    Io(String),
}

} // verus!
