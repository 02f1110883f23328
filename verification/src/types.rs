//! The plain values that the segment layer speaks of: identifiers, tiers,
//! hashes, log positions, and segment metadata.

use crate::encoding::{be_u128, lemma_u128_of_be_round_trip, lemma_u128_round_trip, u128_of_be};
use crate::node_list::NodeList;
use vstd::prelude::*;

verus! {

/// Identifier of a segment: a 128-bit UUID.
///
/// Two identifiers compare as their sixteen bytes do, because the bytes are
/// the big-endian form of `bits`.
#[derive(Clone, Copy, Debug, PartialEq, Eq, PartialOrd, Ord, Hash, Structural)]
pub struct SegmentId {
    /// The UUID as an integer.
    pub bits: u128,
}

/// The sixteen bytes of a segment identifier, as they stand on disk.
pub open spec fn id_bytes(id: SegmentId) -> Seq<u8> {
    be_u128(id.bits)
}

/// The segment identifier whose sixteen bytes are `s`.
pub open spec fn id_of_bytes(s: Seq<u8>) -> SegmentId {
    SegmentId { bits: u128_of_be(s) }
}

impl SegmentId {
    /// The identifier whose UUID is the integer `bits`.
    pub fn from_u128(bits: u128) -> (id: Self)
        ensures
            id.bits == bits,
    {
        SegmentId { bits }
    }

    /// The identifier with the given UUID bytes.
    pub fn from_uuid_bytes(bytes: [u8; 16]) -> (id: Self)
        ensures
            id == id_of_bytes(bytes@),
            id_bytes(id) == bytes@,
    {
        proof {
            lemma_u128_of_be_round_trip(bytes@);
        }
        Self::read(&bytes, 0)
    }

    /// Reads the identifier whose sixteen bytes start at `at`.
    pub fn read(bytes: &[u8], at: usize) -> (id: Self)
        requires
            at + 16 <= bytes@.len(),
        ensures
            id == id_of_bytes(bytes@.subrange(at as int, at + 16)),
    {
        let bits: u128 = ((bytes[at] as u128) << 120) | ((bytes[at + 1] as u128) << 112) | ((
        bytes[at + 2] as u128) << 104) | ((bytes[at + 3] as u128) << 96) | ((bytes[at + 4] as u128)
            << 88) | ((bytes[at + 5] as u128) << 80) | ((bytes[at + 6] as u128) << 72) | ((bytes[at
            + 7] as u128) << 64) | ((bytes[at + 8] as u128) << 56) | ((bytes[at + 9] as u128) << 48)
            | ((bytes[at + 10] as u128) << 40) | ((bytes[at + 11] as u128) << 32) | ((bytes[at
            + 12] as u128) << 24) | ((bytes[at + 13] as u128) << 16) | ((bytes[at + 14] as u128)
            << 8) | (bytes[at + 15] as u128);
        SegmentId { bits }
    }

    /// Appends the identifier's sixteen bytes.
    pub fn push_to(&self, out: &mut Vec<u8>)
        ensures
            final(out)@ == old(out)@ + id_bytes(*self),
    {
        let x: u128 = self.bits;
        out.push(#[verifier::truncate] ((x >> 120) as u8));
        out.push(#[verifier::truncate] ((x >> 112) as u8));
        out.push(#[verifier::truncate] ((x >> 104) as u8));
        out.push(#[verifier::truncate] ((x >> 96) as u8));
        out.push(#[verifier::truncate] ((x >> 88) as u8));
        out.push(#[verifier::truncate] ((x >> 80) as u8));
        out.push(#[verifier::truncate] ((x >> 72) as u8));
        out.push(#[verifier::truncate] ((x >> 64) as u8));
        out.push(#[verifier::truncate] ((x >> 56) as u8));
        out.push(#[verifier::truncate] ((x >> 48) as u8));
        out.push(#[verifier::truncate] ((x >> 40) as u8));
        out.push(#[verifier::truncate] ((x >> 32) as u8));
        out.push(#[verifier::truncate] ((x >> 24) as u8));
        out.push(#[verifier::truncate] ((x >> 16) as u8));
        out.push(#[verifier::truncate] ((x >> 8) as u8));
        out.push(#[verifier::truncate] (x as u8));
        assert(out@ =~= old(out)@ + id_bytes(*self));
    }

    /// The identifier's sixteen bytes.
    pub fn as_bytes(&self) -> (bytes: Vec<u8>)
        ensures
            bytes@ == id_bytes(*self),
    {
        let mut out: Vec<u8> = Vec::new();
        self.push_to(&mut out);
        assert(out@ =~= id_bytes(*self));
        out
    }
}

/// An identifier read from its own bytes is the identifier.
pub proof fn lemma_id_round_trip(id: SegmentId)
    ensures
        id_bytes(id).len() == 16,
        id_of_bytes(id_bytes(id)) == id,
{
    lemma_u128_round_trip(id.bits);
}

/// The size class that a segment stores.
#[derive(Clone, Copy, Debug, PartialEq, Eq, PartialOrd, Ord, Hash, Structural)]
pub enum SizeTier {
    /// Stored with the object's metadata, in no segment.
    Inline,
    /// Small blobs.
    Small,
    /// Blobs that fit one standard segment.
    Standard,
    /// Blobs that span several segments.
    Multi,
}

/// A 256-bit hash.
#[derive(Clone, Copy, Debug, PartialEq, Eq, Hash)]
pub struct HashOutput {
    /// The hash's bytes.
    pub bytes: [u8; 32],
}

impl View for HashOutput {
    type V = Seq<u8>;

    open spec fn view(&self) -> Seq<u8> {
        self.bytes@
    }
}

/// The hash whose bytes are `s`.
pub open spec fn hash_of(s: Seq<u8>) -> HashOutput {
    choose|h: HashOutput| h@ == s
}

/// Two hashes with the same bytes are the same.
pub proof fn lemma_hash_ext(a: HashOutput, b: HashOutput)
    ensures
        a@ == b@ <==> a == b,
        a@.len() == 32,
{
    if a@ == b@ {
        assert(a.bytes =~= b.bytes);
    }
}

/// The hash built from a hash's bytes is that hash.
pub proof fn lemma_hash_of(h: HashOutput)
    ensures
        hash_of(h@) == h,
        h@.len() == 32,
{
    lemma_hash_ext(hash_of(h@), h);
}

impl HashOutput {
    /// The hash with the given bytes.
    pub fn from_bytes(bytes: [u8; 32]) -> (h: Self)
        ensures
            h@ == bytes@,
            h.bytes == bytes,
    {
        HashOutput { bytes }
    }

    /// Reads the hash whose 32 bytes start at `at`.
    pub fn read(bytes: &[u8], at: usize) -> (h: Self)
        requires
            at + 32 <= bytes@.len(),
        ensures
            h@ == bytes@.subrange(at as int, at + 32),
            h == hash_of(bytes@.subrange(at as int, at + 32)),
    {
        let len: usize = bytes.len();
        let mut out: [u8; 32] = [0u8; 32];
        let mut i: usize = 0;
        while i < 32
            invariant
                i <= 32,
                at + 32 <= bytes@.len() <= usize::MAX,
                forall|j: int| 0 <= j < i ==> out@[j] == bytes@[at + j],
            decreases 32 - i,
        {
            out[i] = bytes[at + i];
            i = i + 1;
        }
        let h = HashOutput { bytes: out };
        assert(h@ =~= bytes@.subrange(at as int, at + 32));
        proof {
            lemma_hash_of(h);
        }
        h
    }

    /// Appends the hash's bytes.
    pub fn push_to(&self, out: &mut Vec<u8>)
        ensures
            final(out)@ == old(out)@ + self@,
    {
        let mut i: usize = 0;
        while i < 32
            invariant
                i <= 32,
                out@ =~= old(out)@ + self@.subrange(0, i as int),
            decreases 32 - i,
        {
            out.push(self.bytes[i]);
            i = i + 1;
        }
        assert(self@.subrange(0, 32) =~= self@);
    }
}

/// Position of an entry in the data log: file sequence and in-file offset.
///
/// Carried by a seal event: recovery knows which entries belong to a
/// reserved-unsealed segment, and retention knows when a segment's entries
/// became garbage.
#[derive(Clone, Copy, Debug, PartialEq, Eq, PartialOrd, Ord, Hash, Structural)]
pub struct DataWalPos {
    /// Sequence number of the data log file.
    pub file_seq: u32,
    /// Byte offset of the entry within that file.
    pub offset: u64,
}

impl DataWalPos {
    /// `self` lies at or after `other`: by file sequence, then by offset.
    pub open spec fn at_or_after(self, other: DataWalPos) -> bool {
        self.file_seq > other.file_seq || (self.file_seq == other.file_seq && self.offset
            >= other.offset)
    }

    /// Whether this position lies at or after `other`.
    pub fn is_at_or_after(&self, other: &DataWalPos) -> (r: bool)
        ensures
            r == self.at_or_after(*other),
    {
        self.file_seq > other.file_seq || (self.file_seq == other.file_seq && self.offset
            >= other.offset)
    }
}

/// Position of an event record in the event log: file sequence and in-file
/// offset.
///
/// Positions are monotonic across appends: within a file the offset grows,
/// across a rotation the file sequence grows.
#[derive(Clone, Copy, Debug, PartialEq, Eq, PartialOrd, Ord, Hash, Structural)]
pub struct EventWalPos {
    /// Sequence number of the event log file.
    pub file_seq: u32,
    /// Byte offset of the record within that file.
    pub offset: u64,
}

/// The full metadata of a segment.
#[derive(Debug, PartialEq, Eq)]
pub struct SegmentMetadata {
    /// The segment.
    pub segment_id: SegmentId,
    /// Erasure-coding data shard count.
    pub ec_k: u8,
    /// Erasure-coding parity shard count.
    pub ec_m: u8,
    /// The segment's storage tier.
    pub size_tier: SizeTier,
    /// The seal-time Merkle root; `None` before the seal, or when invalidated.
    pub merkle_root: Option<HashOutput>,
    /// The nodes that hold the segment.
    pub storage_locations: NodeList,
    /// When the segment was sealed, in milliseconds of Unix time.
    pub sealed_at: Option<i64>,
    /// The storage pool that holds the segment's data file.
    pub pool_id: u32,
    /// Number of data bytes in the segment.
    pub total_bytes: u64,
}

/// The mathematical view of [`SegmentMetadata`].
#[verifier::ext_equal]
pub struct MetadataView {
    pub segment_id: SegmentId,
    pub ec_k: u8,
    pub ec_m: u8,
    pub size_tier: SizeTier,
    pub merkle_root: Option<HashOutput>,
    pub storage_locations: Seq<Seq<char>>,
    pub sealed_at: Option<i64>,
    pub pool_id: u32,
    pub total_bytes: u64,
}

impl View for SegmentMetadata {
    type V = MetadataView;

    open spec fn view(&self) -> MetadataView {
        MetadataView {
            segment_id: self.segment_id,
            ec_k: self.ec_k,
            ec_m: self.ec_m,
            size_tier: self.size_tier,
            merkle_root: self.merkle_root,
            storage_locations: self.storage_locations@,
            sealed_at: self.sealed_at,
            pool_id: self.pool_id,
            total_bytes: self.total_bytes,
        }
    }
}

/// The metadata of a segment that was reserved and not yet sealed.
pub open spec fn reserved_metadata(id: SegmentId, tier: SizeTier, ec_k: u8, ec_m: u8) -> MetadataView {
    MetadataView {
        segment_id: id,
        ec_k,
        ec_m,
        size_tier: tier,
        merkle_root: None,
        storage_locations: Seq::empty(),
        sealed_at: None,
        pool_id: 0,
        total_bytes: 0,
    }
}

impl SegmentMetadata {
    /// The metadata that a reservation writes: no root, no holders, not sealed.
    pub fn reserved(id: SegmentId, tier: SizeTier, ec_k: u8, ec_m: u8) -> (m: Self)
        ensures
            m@ == reserved_metadata(id, tier, ec_k, ec_m),
    {
        SegmentMetadata {
            segment_id: id,
            ec_k,
            ec_m,
            size_tier: tier,
            merkle_root: None,
            storage_locations: NodeList::new(),
            sealed_at: None,
            pool_id: 0,
            total_bytes: 0,
        }
    }
}

impl Clone for SegmentMetadata {
    fn clone(&self) -> (m: Self)
        ensures
            m@ == self@,
    {
        SegmentMetadata {
            segment_id: self.segment_id,
            ec_k: self.ec_k,
            ec_m: self.ec_m,
            size_tier: self.size_tier,
            merkle_root: self.merkle_root,
            storage_locations: self.storage_locations.duplicate(),
            sealed_at: self.sealed_at,
            pool_id: self.pool_id,
            total_bytes: self.total_bytes,
        }
    }
}

/// Configuration of the lifecycle registry.
#[derive(Clone, Copy, Debug, PartialEq, Eq, Structural)]
pub struct LifecycleConfig {
    /// Number of independently locked registry shards.
    pub lifecycle_registry_shards: usize,
    /// How long a deleted entry stays visible, in milliseconds.
    pub delete_grace_ms: u64,
}

impl Default for LifecycleConfig {
    fn default() -> (c: Self)
        ensures
            c.lifecycle_registry_shards == 64,
            c.delete_grace_ms == 0,
    {
        LifecycleConfig { lifecycle_registry_shards: 64, delete_grace_ms: 0 }
    }
}

/// Configuration of the event log.
#[derive(Clone, Copy, Debug, PartialEq, Eq, Structural)]
pub struct EventWalConfig {
    /// A record that would cross this size goes to a new file.
    pub event_wal_file_size_bytes: u64,
    /// Longest wait of an append for its sync batch, in milliseconds.
    pub event_wal_fsync_batch_timeout_ms: u64,
    /// Growth of the log, in bytes, that asks for a checkpoint.
    pub event_wal_checkpoint_bytes: u64,
}

/// Target sizes of active segments.
#[derive(Clone, Copy, Debug, PartialEq, Eq, Structural)]
pub struct SegmentSizeConfig {
    /// Target size of a segment of small blobs, in bytes.
    pub small_target_size: u64,
    /// Target size of a standard segment, in bytes.
    pub default_target_size: u64,
}

} // verus!
