//! The data files of sealed segments: where they lie, and what is written to
//! them.
//!
//! A segment's pool is the one that its registry entry names. There is no
//! other place to look: a segment without an entry cannot be written. A
//! rewritten file gets a version 1 header, without parity and index.

use crate::checksum::{blake3_digest, blake3_of};
use crate::encoding::{
    le_u16, le_u32, le_u64, lemma_u16_round_trip, lemma_u32_round_trip, lemma_u64_round_trip,
    push_range, push_u16_le, push_u32_le, push_u64_le, push_zeros,
};
use crate::error::Error;
use crate::header::{
    parse_header, segment_magic, HeaderView, SegmentHeader, SEGMENT_HEADER_SIZE_V1,
    SEGMENT_VERSION_V1,
};
use crate::lifecycle::{entry_at, Entries, SegmentLifecycleRegistry};
use crate::types::SegmentId;
use bytes::Bytes;
use vstd::prelude::*;

verus! {

/// Block size of direct writes.
pub const BLOCK_SIZE: usize = 512;

/// What a storage pool is for.
#[derive(Clone, Copy, Debug, PartialEq, Eq, Structural)]
pub enum PoolRole {
    /// Segment data files.
    Data,
    /// The write-ahead logs.
    Wal,
    /// Metadata.
    Metadata,
    /// Hints.
    Hints,
}

/// A registered storage pool.
#[derive(Clone, Copy, Debug, PartialEq, Eq, Structural)]
pub struct StoragePool {
    /// The pool's identifier.
    pub id: u32,
    /// What it is for.
    pub role: PoolRole,
}

/// How a file is made visible once it is durable.
#[derive(Clone, Copy, Debug, PartialEq, Eq, Structural)]
pub enum SegmentWriteMode {
    /// Written without a name, and linked. A link cannot replace a file.
    Tmpfile,
    /// Written under a temporary name, and renamed, replacing a file.
    Rename,
}

/// The place of the first pool with the given identifier.
pub open spec fn pool_index(pools: Seq<StoragePool>, id: u32) -> Option<int>
    decreases pools.len(),
{
    if pools.len() == 0 {
        None
    } else {
        match pool_index(pools.drop_last(), id) {
            Some(i) => Some(i),
            None => if pools.last().id == id {
                Some(pools.len() - 1)
            } else {
                None
            },
        }
    }
}

/// The first pool with the given identifier.
pub fn pool_by_id(pools: &Vec<StoragePool>, id: u32) -> (at: Option<usize>)
    ensures
        match at {
            Some(i) => pool_index(pools@, id) == Some(i as int) && i < pools@.len() && pools@[i as int].id
                == id,
            None => pool_index(pools@, id) is None,
        },
{
    let n: usize = pools.len();
    let mut i: usize = 0;
    while i < n
        invariant
            i <= n == pools@.len(),
            pool_index(pools@.take(i as int), id) is None,
        decreases n - i,
    {
        assert(pools@.take(i + 1).drop_last() =~= pools@.take(i as int));
        if pools[i].id == id {
            proof {
                lemma_pool_index_prefix(pools@, id, i + 1);
            }
            return Some(i);
        }
        i = i + 1;
    }
    assert(pools@.take(n as int) =~= pools@);
    None
}

proof fn lemma_pool_index_prefix(pools: Seq<StoragePool>, id: u32, n: int)
    requires
        0 <= n <= pools.len(),
        pool_index(pools.take(n), id) is Some,
    ensures
        pool_index(pools, id) == pool_index(pools.take(n), id),
    decreases pools.len() - n,
{
    if n < pools.len() {
        assert(pools.take(n + 1).drop_last() =~= pools.take(n));
        lemma_pool_index_prefix(pools, id, n + 1);
    } else {
        assert(pools.take(n) =~= pools);
    }
}

/// The pool that a segment is written to: the one that its entry names.
pub open spec fn pool_of(
    m: Entries,
    pools: Seq<StoragePool>,
    segment_id: SegmentId,
    now: u64,
) -> Result<int, Error> {
    match entry_at(m, segment_id, now) {
        None => Err(Error::NotRegistered(segment_id)),
        Some(e) => match pool_index(pools, e.metadata.pool_id) {
            None => Err(Error::UnknownPool { segment_id, pool_id: e.metadata.pool_id }),
            Some(i) => Ok(i),
        },
    }
}

/// The pool that a segment is read from: the one that its entry names.
pub open spec fn read_pool_of(
    m: Entries,
    pools: Seq<StoragePool>,
    segment_id: SegmentId,
    now: u64,
) -> Option<int> {
    match entry_at(m, segment_id, now) {
        None => None,
        Some(e) => pool_index(pools, e.metadata.pool_id),
    }
}

/// The pool that a segment is written to.
pub fn resolve_pool(
    registry: &SegmentLifecycleRegistry,
    pools: &Vec<StoragePool>,
    segment_id: SegmentId,
    now: u64,
) -> (r: Result<usize, Error>)
    ensures
        match entry_at(registry@, segment_id, now) {
            None => r == Err::<usize, Error>(Error::NotRegistered(segment_id)),
            Some(e) => match pool_index(pools@, e.metadata.pool_id) {
                None => r == Err::<usize, Error>(
                    Error::UnknownPool { segment_id, pool_id: e.metadata.pool_id },
                ),
                Some(i) => r is Ok && r->Ok_0 == i,
            },
        },
        match pool_of(registry@, pools@, segment_id, now) {
            Ok(i) => r is Ok && r->Ok_0 == i,
            Err(e) => r == Err::<usize, Error>(e),
        },
{
    match registry.get(segment_id, now) {
        None => Err(Error::NotRegistered(segment_id)),
        Some(e) => pool_root(pools, e.metadata.pool_id, segment_id),
    }
}

/// The pool with the given identifier, for a segment that is said to be there.
pub fn pool_root(pools: &Vec<StoragePool>, pool_id: u32, segment_id: SegmentId) -> (r: Result<
    usize,
    Error,
>)
    ensures
        match pool_index(pools@, pool_id) {
            None => r == Err::<usize, Error>(Error::UnknownPool { segment_id, pool_id }),
            Some(i) => r is Ok && r->Ok_0 == i,
        },
{
    match pool_by_id(pools, pool_id) {
        Some(i) => Ok(i),
        None => Err(Error::UnknownPool { segment_id, pool_id }),
    }
}

/// The pool that a segment is read from; `None` when the segment is not
/// registered or its pool is gone: the reader then turns to a replica.
pub fn locate_for_read(
    registry: &SegmentLifecycleRegistry,
    pools: &Vec<StoragePool>,
    segment_id: SegmentId,
    now: u64,
) -> (at: Option<usize>)
    ensures
        match entry_at(registry@, segment_id, now) {
            None => at is None,
            Some(e) => match pool_index(pools@, e.metadata.pool_id) {
                None => at is None,
                Some(i) => at is Some && at->0 == i,
            },
        },
        match read_pool_of(registry@, pools@, segment_id, now) {
            Some(i) => at is Some && at->0 == i,
            None => at is None,
        },
{
    match registry.get(segment_id, now) {
        None => None,
        Some(e) => pool_by_id(pools, e.metadata.pool_id),
    }
}

/// A segment's data file.
#[derive(Debug)]
pub struct SegmentFile {
    /// The segment.
    pub segment_id: SegmentId,
    /// Format version of the file.
    pub version: u16,
    /// Size of its header.
    pub header_len: usize,
    /// Where the data ends.
    pub data_end: u64,
    /// The data.
    pub data: Bytes,
}

/// Where the data of a file with this header lies: its offset and length.
pub open spec fn geometry(segment_id: SegmentId, h: HeaderView) -> Result<(u64, u32), Error> {
    if h.size <= u32::MAX {
        Ok((h.on_disk_size() as u64, h.size as u32))
    } else {
        Err(Error::DataTooLarge { segment_id, size: h.size })
    }
}

/// Where the data of a file lies: its offset and length. Fails when it is too
/// large to be read in one piece.
pub fn read_geometry(segment_id: SegmentId, header: &SegmentHeader) -> (r: Result<(u64, u32), Error>)
    ensures
        if header@.size <= u32::MAX {
            r == Ok::<(u64, u32), Error>((header@.on_disk_size() as u64, header@.size as u32))
        } else {
            r == Err::<(u64, u32), Error>(Error::DataTooLarge { segment_id, size: header@.size })
        },
        r == geometry(segment_id, header@),
{
    if header.size > u32::MAX as u64 {
        return Err(Error::DataTooLarge { segment_id, size: header.size });
    }
    Ok((header.serialized_size() as u64, header.size as u32))
}

/// The file of a segment, with the data that was read from it.
pub fn read_segment_data(segment_id: SegmentId, header: &SegmentHeader, data: Bytes) -> (file:
    SegmentFile)
    ensures
        file.segment_id == segment_id,
        file.version == header@.version,
        file.header_len == header@.on_disk_size(),
        file.data_end == header@.data_end(),
        file.data == data,
{
    SegmentFile {
        segment_id,
        version: header.version,
        header_len: header.serialized_size(),
        data_end: header.data_end(),
        data,
    }
}

/// Whether a write guard may be used for a segment.
pub fn check_guard(held: SegmentId, target: SegmentId) -> (r: Result<(), Error>)
    ensures
        if held == target {
            r is Ok
        } else {
            r == Err::<(), Error>(Error::WrongGuard { held, target })
        },
{
    if held == target {
        Ok(())
    } else {
        Err(Error::WrongGuard { held, target })
    }
}

/// The header of a rewritten file. It names no segment, has no blobs, and its
/// index begins where the data ends.
pub open spec fn v1_header(data: Seq<u8>) -> Seq<u8> {
    segment_magic() + le_u16(SEGMENT_VERSION_V1) + Seq::new(16, |i: int| 0u8) + le_u64(
        data.len() as u64,
    ) + le_u32(0) + le_u64((SEGMENT_HEADER_SIZE_V1 + data.len()) as u64) + blake3_digest(data)
        + seq![0u8, 0u8]
}

/// The header of a file with the given data reads back as this.
pub open spec fn v1_header_view(data: Seq<u8>) -> HeaderView {
    HeaderView {
        magic: segment_magic(),
        version: SEGMENT_VERSION_V1,
        segment_id: crate::types::id_of_bytes(Seq::new(16, |i: int| 0u8)),
        size: data.len() as u64,
        blob_count: 0,
        index_offset: (SEGMENT_HEADER_SIZE_V1 + data.len()) as u64,
        checksum: blake3_digest(data),
        parity_offset: 0,
        parity_size: 0,
    }
}

/// The header of a rewritten file. A file that begins with it reads back with
/// the size and the checksum of the data.
pub fn v1_header_bytes(data: &[u8]) -> (header: Vec<u8>)
    requires
        SEGMENT_HEADER_SIZE_V1 + data@.len() <= u64::MAX,
    ensures
        header@ == v1_header(data@),
        header@.len() == SEGMENT_HEADER_SIZE_V1,
        forall|tail: Seq<u8>| #[trigger]
            parse_header(header@ + tail) == Some(v1_header_view(data@)),
{
    let mut header: Vec<u8> = Vec::new();
    header.push(0x4F);
    header.push(0x46);
    header.push(0x53);
    header.push(0x47);
    assert(header@ =~= segment_magic());
    push_u16_le(&mut header, SEGMENT_VERSION_V1);
    push_zeros(&mut header, 16);
    let n: u64 = data.len() as u64;
    push_u64_le(&mut header, n);
    push_u32_le(&mut header, 0);
    push_u64_le(&mut header, SEGMENT_HEADER_SIZE_V1 as u64 + n);
    let hash = blake3_of(data);
    hash.push_to(&mut header);
    push_zeros(&mut header, 2);
    assert(header@ =~= v1_header(data@));
    proof {
        lemma_u16_round_trip(SEGMENT_VERSION_V1);
        lemma_u64_round_trip(n);
        lemma_u32_round_trip(0);
        lemma_u64_round_trip((SEGMENT_HEADER_SIZE_V1 + n) as u64);
        assert(blake3_digest(data@).len() == 32);
        assert forall|tail: Seq<u8>| #[trigger] parse_header(header@ + tail) == Some(
            v1_header_view(data@),
        ) by {
            let b = header@ + tail;
            assert(b.subrange(0, 4) =~= segment_magic());
            assert(b.subrange(4, 6) =~= le_u16(SEGMENT_VERSION_V1));
            assert(b.subrange(6, 22) =~= Seq::new(16, |i: int| 0u8));
            assert(b.subrange(22, 30) =~= le_u64(n));
            assert(b.subrange(30, 34) =~= le_u32(0));
            assert(b.subrange(34, 42) =~= le_u64((SEGMENT_HEADER_SIZE_V1 + n) as u64));
            assert(b.subrange(42, 74) =~= blake3_digest(data@));
        }
    }
    header
}

/// How many bytes a direct write of `total` bytes is padded with.
pub open spec fn direct_padding(total: nat) -> nat {
    ((512 - total % 512) % 512) as nat
}

/// The bytes of a direct write: header and data, and zeros up to a whole
/// number of blocks.
pub fn direct_image(header: &[u8], data: &[u8]) -> (image: Vec<u8>)
    requires
        header@.len() + data@.len() <= usize::MAX,
    ensures
        image@ == header@ + data@ + Seq::new(
            direct_padding(header@.len() + data@.len()),
            |i: int| 0u8,
        ),
        image@.len() % 512 == 0,
{
    let mut image: Vec<u8> = Vec::new();
    push_range(&mut image, header, 0, header.len());
    push_range(&mut image, data, 0, data.len());
    assert(image@ =~= header@ + data@);
    let total: usize = image.len();
    let pad: usize = (BLOCK_SIZE - total % BLOCK_SIZE) % BLOCK_SIZE;
    push_zeros(&mut image, pad);
    image
}

/// How a file is written when it may replace one.
pub open spec fn write_mode(mode: SegmentWriteMode, target_exists: bool) -> SegmentWriteMode {
    if target_exists {
        SegmentWriteMode::Rename
    } else {
        mode
    }
}

/// How a file is written when it may replace one: a link cannot.
pub fn effective_write_mode(mode: SegmentWriteMode, target_exists: bool) -> (effective:
    SegmentWriteMode)
    ensures
        effective == if mode == SegmentWriteMode::Tmpfile && target_exists {
            SegmentWriteMode::Rename
        } else {
            mode
        },
        effective == write_mode(mode, target_exists),
{
    if mode == SegmentWriteMode::Tmpfile && target_exists {
        SegmentWriteMode::Rename
    } else {
        mode
    }
}

} // verus!
