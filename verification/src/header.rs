//! The header of a sealed segment file.
//!
//! | Field         | Offset | Size |
//! |---------------|--------|------|
//! | magic         | 0      | 4    |
//! | version       | 4      | 2    |
//! | segment_id    | 6      | 16   |
//! | size          | 22     | 8    |
//! | blob_count    | 30     | 4    |
//! | index_offset  | 34     | 8    |
//! | checksum      | 42     | 32   |
//! | parity_offset | 74     | 8    |
//! | parity_size   | 82     | 8    |
//! | zero          | 90     | 2    |
//!
//! Version 1 headers end behind the checksum and two bytes, at 76 bytes, and
//! have no parity section.

use crate::encoding::{
    le_u16, le_u32, le_u64, lemma_u16_round_trip, lemma_u32_round_trip, lemma_u64_round_trip,
    push_u16_le, push_u32_le, push_u64_le, read_u16_le, read_u32_le, read_u64_le, u16_of_le,
    u32_of_le, u64_of_le,
};
use crate::types::{id_bytes, id_of_bytes, lemma_id_round_trip, HashOutput, SegmentId};
use vstd::prelude::*;

verus! {

/// Current segment format version.
pub const SEGMENT_VERSION: u16 = 2;

/// The segment format version without a parity section.
pub const SEGMENT_VERSION_V1: u16 = 1;

/// On-disk size of a current header.
pub const SEGMENT_HEADER_SIZE: usize = 92;

/// On-disk size of a version 1 header.
pub const SEGMENT_HEADER_SIZE_V1: usize = 76;

/// Bytes at the start of every sealed segment file.
pub open spec fn segment_magic() -> Seq<u8> {
    seq![0x4Fu8, 0x46u8, 0x53u8, 0x47u8]
}

/// The header of a sealed segment file.
#[derive(Clone, Debug, PartialEq, Eq)]
pub struct SegmentHeader {
    /// The magic bytes.
    pub magic: [u8; 4],
    /// Format version.
    pub version: u16,
    /// The segment that the file holds.
    pub segment_id: SegmentId,
    /// Size of the segment data in bytes.
    pub size: u64,
    /// Number of blobs in the segment.
    pub blob_count: u32,
    /// Where the index begins.
    pub index_offset: u64,
    /// BLAKE3 checksum of the data.
    pub checksum: [u8; 32],
    /// Where the parity section begins, or 0 when there is none.
    pub parity_offset: u64,
    /// Size of the parity section, or 0 when there is none.
    pub parity_size: u64,
}

/// The mathematical view of [`SegmentHeader`].
#[verifier::ext_equal]
pub struct HeaderView {
    pub magic: Seq<u8>,
    pub version: u16,
    pub segment_id: SegmentId,
    pub size: u64,
    pub blob_count: u32,
    pub index_offset: u64,
    pub checksum: Seq<u8>,
    pub parity_offset: u64,
    pub parity_size: u64,
}

impl View for SegmentHeader {
    type V = HeaderView;

    open spec fn view(&self) -> HeaderView {
        HeaderView {
            magic: self.magic@,
            version: self.version,
            segment_id: self.segment_id,
            size: self.size,
            blob_count: self.blob_count,
            index_offset: self.index_offset,
            checksum: self.checksum@,
            parity_offset: self.parity_offset,
            parity_size: self.parity_size,
        }
    }
}

impl HeaderView {
    /// On-disk size of a header of this version.
    pub open spec fn on_disk_size(self) -> int {
        header_len(self.version)
    }

    /// Where the data section ends.
    pub open spec fn data_end(self) -> u64 {
        if self.parity_offset > 0 {
            self.parity_offset
        } else {
            self.index_offset
        }
    }
}

/// On-disk size of a header of the given version.
pub open spec fn header_len(version: u16) -> int {
    if version >= SEGMENT_VERSION {
        SEGMENT_HEADER_SIZE as int
    } else {
        SEGMENT_HEADER_SIZE_V1 as int
    }
}

/// The bytes of a header.
pub open spec fn header_bytes(h: HeaderView) -> Seq<u8> {
    h.magic + le_u16(h.version) + id_bytes(h.segment_id) + le_u64(h.size) + le_u32(h.blob_count)
        + le_u64(h.index_offset) + h.checksum + le_u64(h.parity_offset) + le_u64(h.parity_size)
        + seq![0u8, 0u8]
}

/// The header at the start of `b`; `None` when it is too short or does not
/// start with the magic.
pub open spec fn parse_header(b: Seq<u8>) -> Option<HeaderView> {
    if b.len() < SEGMENT_HEADER_SIZE_V1 || b.subrange(0, 4) != segment_magic() {
        None
    } else {
        let version = u16_of_le(b.subrange(4, 6));
        let with_parity = version >= SEGMENT_VERSION && b.len() >= SEGMENT_HEADER_SIZE;
        Some(
            HeaderView {
                magic: segment_magic(),
                version,
                segment_id: id_of_bytes(b.subrange(6, 22)),
                size: u64_of_le(b.subrange(22, 30)),
                blob_count: u32_of_le(b.subrange(30, 34)),
                index_offset: u64_of_le(b.subrange(34, 42)),
                checksum: b.subrange(42, 74),
                parity_offset: if with_parity {
                    u64_of_le(b.subrange(74, 82))
                } else {
                    0
                },
                parity_size: if with_parity {
                    u64_of_le(b.subrange(82, 90))
                } else {
                    0
                },
            },
        )
    }
}

impl SegmentHeader {
    /// A header without a parity section.
    pub fn new(
        segment_id: SegmentId,
        size: u64,
        blob_count: u32,
        index_offset: u64,
        checksum: [u8; 32],
    ) -> (h: Self)
        ensures
            h@ == (HeaderView {
                magic: segment_magic(),
                version: SEGMENT_VERSION,
                segment_id,
                size,
                blob_count,
                index_offset,
                checksum: checksum@,
                parity_offset: 0,
                parity_size: 0,
            }),
    {
        Self::with_parity(segment_id, size, blob_count, index_offset, checksum, 0, 0)
    }

    /// A header with a parity section.
    pub fn with_parity(
        segment_id: SegmentId,
        size: u64,
        blob_count: u32,
        index_offset: u64,
        checksum: [u8; 32],
        parity_offset: u64,
        parity_size: u64,
    ) -> (h: Self)
        ensures
            h@ == (HeaderView {
                magic: segment_magic(),
                version: SEGMENT_VERSION,
                segment_id,
                size,
                blob_count,
                index_offset,
                checksum: checksum@,
                parity_offset,
                parity_size,
            }),
    {
        let h = SegmentHeader {
            magic: [0x4F, 0x46, 0x53, 0x47],
            version: SEGMENT_VERSION,
            segment_id,
            size,
            blob_count,
            index_offset,
            checksum,
            parity_offset,
            parity_size,
        };
        assert(h.magic@ =~= segment_magic());
        h
    }

    /// The bytes of the header.
    pub fn to_bytes(&self) -> (bytes: Vec<u8>)
        ensures
            bytes@ == header_bytes(self@),
            bytes@.len() == SEGMENT_HEADER_SIZE,
    {
        let mut buf: Vec<u8> = Vec::new();
        buf.push(self.magic[0]);
        buf.push(self.magic[1]);
        buf.push(self.magic[2]);
        buf.push(self.magic[3]);
        assert(buf@ =~= self@.magic);
        push_u16_le(&mut buf, self.version);
        self.segment_id.push_to(&mut buf);
        push_u64_le(&mut buf, self.size);
        push_u32_le(&mut buf, self.blob_count);
        push_u64_le(&mut buf, self.index_offset);
        HashOutput::from_bytes(self.checksum).push_to(&mut buf);
        push_u64_le(&mut buf, self.parity_offset);
        push_u64_le(&mut buf, self.parity_size);
        buf.push(0);
        buf.push(0);
        assert(buf@ =~= header_bytes(self@));
        buf
    }

    /// Reads the header at the start of a file; `None` when the file is too
    /// short or does not start with the magic.
    pub fn from_bytes(data: &[u8]) -> (h: Option<Self>)
        ensures
            match h {
                Some(header) => parse_header(data@) == Some(header@),
                None => parse_header(data@) is None,
            },
    {
        if data.len() < SEGMENT_HEADER_SIZE_V1 {
            return None;
        }
        let ghost m = data@.subrange(0, 4);
        if data[0] != 0x4F || data[1] != 0x46 || data[2] != 0x53 || data[3] != 0x47 {
            assert(m[0] == data@[0] && m[1] == data@[1] && m[2] == data@[2] && m[3] == data@[3]);
            return None;
        }
        assert(m =~= segment_magic());
        let version: u16 = read_u16_le(data, 4);
        let with_parity = version >= SEGMENT_VERSION && data.len() >= SEGMENT_HEADER_SIZE;
        let mut parity_offset: u64 = 0;
        let mut parity_size: u64 = 0;
        if with_parity {
            parity_offset = read_u64_le(data, 74);
            parity_size = read_u64_le(data, 82);
        }
        let header = SegmentHeader {
            magic: [0x4F, 0x46, 0x53, 0x47],
            version,
            segment_id: SegmentId::read(data, 6),
            size: read_u64_le(data, 22),
            blob_count: read_u32_le(data, 30),
            index_offset: read_u64_le(data, 34),
            checksum: HashOutput::read(data, 42).bytes,
            parity_offset,
            parity_size,
        };
        assert(header.magic@ =~= segment_magic());
        Some(header)
    }

    /// On-disk header size of the given format version.
    pub fn header_size(version: u16) -> (n: usize)
        ensures
            n == header_len(version),
    {
        if version >= SEGMENT_VERSION {
            SEGMENT_HEADER_SIZE
        } else {
            SEGMENT_HEADER_SIZE_V1
        }
    }

    /// On-disk size of this header.
    pub fn serialized_size(&self) -> (n: usize)
        ensures
            n == self@.on_disk_size(),
    {
        Self::header_size(self.version)
    }

    /// Where the data section ends: at the parity section when there is one,
    /// else at the index.
    pub fn data_end(&self) -> (end: u64)
        ensures
            end == self@.data_end(),
    {
        if self.parity_offset > 0 {
            self.parity_offset
        } else {
            self.index_offset
        }
    }
}

/// A header reads back as it was written, whatever follows it; a version 1
/// header, which has no room for them, without its parity fields.
pub proof fn law_header_round_trip(h: HeaderView, tail: Seq<u8>)
    requires
        h.magic == segment_magic(),
        h.checksum.len() == 32,
    ensures
        parse_header(header_bytes(h) + tail) == Some(
            if h.version >= SEGMENT_VERSION {
                h
            } else {
                HeaderView { parity_offset: 0, parity_size: 0, ..h }
            },
        ),
{
    let b = header_bytes(h) + tail;
    lemma_u16_round_trip(h.version);
    lemma_id_round_trip(h.segment_id);
    lemma_u64_round_trip(h.size);
    lemma_u32_round_trip(h.blob_count);
    lemma_u64_round_trip(h.index_offset);
    lemma_u64_round_trip(h.parity_offset);
    lemma_u64_round_trip(h.parity_size);
    assert(b.subrange(0, 4) =~= segment_magic());
    assert(b.subrange(4, 6) =~= le_u16(h.version));
    assert(b.subrange(6, 22) =~= id_bytes(h.segment_id));
    assert(b.subrange(22, 30) =~= le_u64(h.size));
    assert(b.subrange(30, 34) =~= le_u32(h.blob_count));
    assert(b.subrange(34, 42) =~= le_u64(h.index_offset));
    assert(b.subrange(42, 74) =~= h.checksum);
    assert(b.subrange(74, 82) =~= le_u64(h.parity_offset));
    assert(b.subrange(82, 90) =~= le_u64(h.parity_size));
}

} // verus!
