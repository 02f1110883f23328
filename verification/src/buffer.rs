//! An active segment: an in-memory buffer that takes appends until it reaches
//! its target size.

use crate::buf::{
    bytes_contents, bytes_mut_as_slice, bytes_mut_consumed, bytes_mut_contents, bytes_mut_extend,
    bytes_mut_freeze, bytes_mut_new,
};
use crate::error::Error;
use crate::types::{SegmentId, SegmentSizeConfig, SizeTier};
use bytes::{Bytes, BytesMut};
use vstd::prelude::*;

verus! {

/// An active segment.
pub struct ActiveSegment {
    id: SegmentId,
    tier: SizeTier,
    buffer: BytesMut,
    cursor: u64,
    target_size: u64,
    last_append_ms: u64,
}

/// The mathematical view of [`ActiveSegment`].
#[verifier::ext_equal]
pub struct ActiveView {
    pub id: SegmentId,
    pub tier: SizeTier,
    pub data: Seq<u8>,
    pub target_size: u64,
    /// When the segment was created or last appended to.
    pub last_append_ms: u64,
}

impl ActiveView {
    /// The segment has reached its target size.
    pub open spec fn full(self) -> bool {
        self.data.len() >= self.target_size
    }

    /// The segment with `data` behind its own.
    pub open spec fn appended(self, data: Seq<u8>, now: u64) -> ActiveView {
        ActiveView { data: self.data + data, last_append_ms: now, ..self }
    }
}

/// The target size of a segment of the given tier; none for the inline tier.
pub open spec fn target_of(tier: SizeTier, config: SegmentSizeConfig) -> Option<u64> {
    match tier {
        SizeTier::Inline => None,
        SizeTier::Small => Some(config.small_target_size),
        SizeTier::Standard => Some(config.default_target_size),
        SizeTier::Multi => Some(config.default_target_size),
    }
}

/// A segment that stopped taking appends, with its frozen data.
#[derive(Debug)]
pub struct SealedSegment {
    /// The segment.
    pub segment_id: SegmentId,
    /// Its data.
    pub data: Bytes,
    /// Its tier.
    pub tier: SizeTier,
}

impl View for ActiveSegment {
    type V = ActiveView;

    closed spec fn view(&self) -> ActiveView {
        ActiveView {
            id: self.id,
            tier: self.tier,
            data: bytes_mut_contents(self.buffer),
            target_size: self.target_size,
            last_append_ms: self.last_append_ms,
        }
    }
}

impl ActiveSegment {
    /// The cursor is at the end of the data.
    pub closed spec fn wf(&self) -> bool {
        &&& self.cursor == bytes_mut_contents(self.buffer).len()
        &&& bytes_mut_consumed(self.buffer) == 0
    }

    /// An empty segment of the given tier. The inline tier has no segments.
    pub fn new(id: SegmentId, tier: SizeTier, config: &SegmentSizeConfig, now: u64) -> (r: Result<
        Self,
        Error,
    >)
        ensures
            match r {
                Ok(s) => s.wf() && target_of(tier, *config) is Some && s@ == (ActiveView {
                    id,
                    tier,
                    data: Seq::empty(),
                    target_size: target_of(tier, *config)->0,
                    last_append_ms: now,
                }),
                Err(e) => target_of(tier, *config) is None && e == Error::InlineTier,
            },
    {
        let target_size: u64 = match tier {
            SizeTier::Inline => {
                return Err(Error::InlineTier);
            },
            SizeTier::Small => config.small_target_size,
            SizeTier::Standard => config.default_target_size,
            SizeTier::Multi => config.default_target_size,
        };
        Ok(
            ActiveSegment {
                id,
                tier,
                buffer: bytes_mut_new(),
                cursor: 0,
                target_size,
                last_append_ms: now,
            },
        )
    }

    /// Appends data; gives the offset at which it stands, and its length.
    /// Fails when the segment is full. The last append may go past the target
    /// size.
    pub fn append(&mut self, data: &[u8], now: u64) -> (r: Result<(u64, usize), Error>)
        requires
            old(self).wf(),
            2 * (old(self)@.data.len() + data@.len()) <= isize::MAX,
        ensures
            final(self).wf(),
            match r {
                Ok((offset, length)) => {
                    &&& !old(self)@.full()
                    &&& offset == old(self)@.data.len()
                    &&& length == data@.len()
                    &&& final(self)@ == old(self)@.appended(data@, now)
                },
                Err(e) => {
                    &&& old(self)@.full()
                    &&& e == (Error::SegmentFull {
                        segment_id: old(self)@.id,
                        current_size: old(self)@.data.len() as u64,
                    })
                    &&& final(self)@ == old(self)@
                },
            },
    {
        if self.is_full() {
            return Err(Error::SegmentFull { segment_id: self.id, current_size: self.cursor });
        }
        let offset: u64 = self.cursor;
        let length: usize = data.len();
        bytes_mut_extend(&mut self.buffer, data);
        self.cursor = self.cursor + length as u64;
        self.last_append_ms = now;
        Ok((offset, length))
    }

    /// Whether the segment has reached its target size.
    pub fn is_full(&self) -> (r: bool)
        requires
            self.wf(),
        ensures
            r == self@.full(),
    {
        self.cursor >= self.target_size
    }

    /// Whether the segment has no data.
    pub fn is_empty(&self) -> (r: bool)
        requires
            self.wf(),
        ensures
            r == (self@.data.len() == 0),
    {
        self.cursor == 0
    }

    /// How long ago the segment was created or last appended to.
    pub fn idle_for(&self, now: u64) -> (ms: u64)
        ensures
            ms == if now >= self@.last_append_ms {
                now - self@.last_append_ms
            } else {
                0
            },
    {
        if now >= self.last_append_ms {
            now - self.last_append_ms
        } else {
            0
        }
    }

    /// The segment's identifier.
    pub fn id(&self) -> (id: SegmentId)
        ensures
            id == self@.id,
    {
        self.id
    }

    /// The segment's tier.
    pub fn tier(&self) -> (tier: SizeTier)
        ensures
            tier == self@.tier,
    {
        self.tier
    }

    /// The segment's size in bytes.
    pub fn size(&self) -> (n: u64)
        requires
            self.wf(),
        ensures
            n == self@.data.len(),
    {
        self.cursor
    }

    /// The segment's target size in bytes.
    pub fn target_size(&self) -> (n: u64)
        ensures
            n == self@.target_size,
    {
        self.target_size
    }

    /// The segment's data.
    pub fn data(&self) -> (data: &[u8])
        ensures
            data@ == self@.data,
    {
        bytes_mut_as_slice(&self.buffer)
    }

    /// The segment's buffer, for reuse.
    pub fn into_buffer(self) -> (buffer: BytesMut)
        ensures
            bytes_mut_contents(buffer) == self@.data,
    {
        self.buffer
    }

    /// Freezes the segment's data.
    pub fn seal(self) -> (sealed: SealedSegment)
        ensures
            sealed.segment_id == self@.id,
            sealed.tier == self@.tier,
            bytes_contents(sealed.data) == self@.data,
    {
        SealedSegment { segment_id: self.id, data: bytes_mut_freeze(self.buffer), tier: self.tier }
    }
}

} // verus!
