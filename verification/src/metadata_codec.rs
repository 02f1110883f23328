//! Segment metadata as bytes, in `bincode` form.

use crate::node_list::{NodeId, NodeList};
use crate::types::{
    id_bytes, id_of_bytes, lemma_id_round_trip, HashOutput, MetadataView, SegmentId,
    SegmentMetadata, SizeTier,
};
use vstd::prelude::*;

verus! {

/// `bincode::ErrorKind`: why a value could not be written or read.
#[verifier::external_type_specification]
#[verifier::external_body]
pub struct ExErrorKind(bincode::ErrorKind);

/// The fields of segment metadata in the order in which they are written: the
/// identifier's bytes, the shard counts, the tier's index, the root, the
/// holders, the seal time, the pool, and the data size.
pub type MetadataFields = (
    Vec<u8>,
    u8,
    u8,
    u32,
    Option<[u8; 32]>,
    Vec<String>,
    Option<i64>,
    u32,
    u64,
);

/// The view of [`MetadataFields`].
pub type FieldsView = (
    Seq<u8>,
    u8,
    u8,
    u32,
    Option<[u8; 32]>,
    Seq<Seq<char>>,
    Option<i64>,
    u32,
    u64,
);

/// The texts of a list of strings.
pub open spec fn texts(list: Seq<String>) -> Seq<Seq<char>> {
    list.map_values(|s: String| s@)
}

/// The view of metadata fields.
pub open spec fn fields_view(f: MetadataFields) -> FieldsView {
    (f.0@, f.1, f.2, f.3, f.4, texts(f.5@), f.6, f.7, f.8)
}

/// The bytes that `bincode::serialize` writes for metadata fields, if it
/// succeeds.
pub uninterp spec fn bincode_encoding(fields: FieldsView) -> Option<Seq<u8>>;

/// The metadata fields that `bincode::deserialize` reads from bytes, if it
/// succeeds.
pub uninterp spec fn bincode_decoding(bytes: Seq<u8>) -> Option<FieldsView>;

/// Wraps `bincode::serialize`: the result depends on the fields alone, and
/// reading the bytes gives the fields back.
#[verifier::external_body]
fn bincode_serialize(fields: &MetadataFields) -> (r: Result<Vec<u8>, Box<bincode::ErrorKind>>)
    ensures
        match r {
            Ok(bytes) => bincode_encoding(fields_view(*fields)) == Some(bytes@) && bincode_decoding(
                bytes@,
            ) == Some(fields_view(*fields)),
            Err(_) => bincode_encoding(fields_view(*fields)) is None,
        },
{
    bincode::serialize(fields)
}

/// Wraps `bincode::deserialize`: the result depends on the bytes alone.
#[verifier::external_body]
fn bincode_deserialize(bytes: &[u8]) -> (r: Result<MetadataFields, Box<bincode::ErrorKind>>)
    ensures
        match r {
            Ok(fields) => bincode_decoding(bytes@) == Some(fields_view(fields)),
            Err(_) => bincode_decoding(bytes@) is None,
        },
{
    bincode::deserialize(bytes)
}

/// The index of a tier.
pub open spec fn tier_index(tier: SizeTier) -> u32 {
    match tier {
        SizeTier::Inline => 0,
        SizeTier::Small => 1,
        SizeTier::Standard => 2,
        SizeTier::Multi => 3,
    }
}

/// The fields of segment metadata.
pub open spec fn fields_of(m: MetadataView) -> FieldsView {
    (
        id_bytes(m.segment_id),
        m.ec_k,
        m.ec_m,
        tier_index(m.size_tier),
        match m.merkle_root {
            Some(root) => Some(root.bytes),
            None => None,
        },
        m.storage_locations,
        m.sealed_at,
        m.pool_id,
        m.total_bytes,
    )
}

/// The segment metadata that fields stand for; `None` when the identifier has
/// not sixteen bytes or the tier's index stands for no tier.
pub open spec fn metadata_of(f: FieldsView) -> Option<MetadataView> {
    if f.0.len() != 16 || f.3 > 3 {
        None
    } else {
        Some(
            MetadataView {
                segment_id: id_of_bytes(f.0),
                ec_k: f.1,
                ec_m: f.2,
                size_tier: if f.3 == 0 {
                    SizeTier::Inline
                } else if f.3 == 1 {
                    SizeTier::Small
                } else if f.3 == 2 {
                    SizeTier::Standard
                } else {
                    SizeTier::Multi
                },
                merkle_root: match f.4 {
                    Some(bytes) => Some(HashOutput { bytes }),
                    None => None,
                },
                storage_locations: f.5,
                sealed_at: f.6,
                pool_id: f.7,
                total_bytes: f.8,
            },
        )
    }
}

/// The bytes of segment metadata, if it can be written.
pub open spec fn metadata_bytes(m: MetadataView) -> Option<Seq<u8>> {
    bincode_encoding(fields_of(m))
}

/// The segment metadata that bytes stand for.
pub open spec fn parse_metadata(bytes: Seq<u8>) -> Option<MetadataView> {
    match bincode_decoding(bytes) {
        Some(f) => metadata_of(f),
        None => None,
    }
}

/// Fields stand for the metadata that they were taken from.
pub proof fn lemma_fields_round_trip(m: MetadataView)
    ensures
        metadata_of(fields_of(m)) == Some(m),
{
    lemma_id_round_trip(m.segment_id);
}

/// Writes segment metadata; `None` when it cannot be written. What was written
/// reads back as the metadata.
pub fn encode_metadata(meta: &SegmentMetadata) -> (bytes: Option<Vec<u8>>)
    ensures
        match bytes {
            Some(b) => metadata_bytes(meta@) == Some(b@) && parse_metadata(b@) == Some(meta@),
            None => metadata_bytes(meta@) is None,
        },
{
    let mut names: Vec<String> = Vec::new();
    let n: usize = meta.storage_locations.len();
    let mut i: usize = 0;
    while i < n
        invariant
            i <= n == meta.storage_locations@.len(),
            texts(names@) =~= meta.storage_locations@.take(i as int),
        decreases n - i,
    {
        let ghost before = names@;
        names.push(meta.storage_locations.get(i).as_str().to_owned());
        assert(texts(names@) =~= texts(before).push(meta.storage_locations@[i as int]));
        i = i + 1;
    }
    assert(meta.storage_locations@.take(n as int) =~= meta.storage_locations@);
    let tier: u32 = match meta.size_tier {
        SizeTier::Inline => 0,
        SizeTier::Small => 1,
        SizeTier::Standard => 2,
        SizeTier::Multi => 3,
    };
    let root = match &meta.merkle_root {
        Some(root) => Some(root.bytes),
        None => None,
    };
    let fields: MetadataFields = (
        meta.segment_id.as_bytes(),
        meta.ec_k,
        meta.ec_m,
        tier,
        root,
        names,
        meta.sealed_at,
        meta.pool_id,
        meta.total_bytes,
    );
    proof {
        assert(fields_view(fields) == fields_of(meta@));
        lemma_fields_round_trip(meta@);
    }
    match bincode_serialize(&fields) {
        Ok(bytes) => Some(bytes),
        Err(_) => None,
    }
}

/// Reads segment metadata.
pub fn decode_metadata(bytes: &[u8]) -> (meta: Option<SegmentMetadata>)
    ensures
        match meta {
            Some(m) => parse_metadata(bytes@) == Some(m@),
            None => parse_metadata(bytes@) is None,
        },
{
    match bincode_deserialize(bytes) {
        Err(_) => None,
        Ok(fields) => metadata_from_fields(fields),
    }
}

/// The metadata that fields stand for.
pub fn metadata_from_fields(fields: MetadataFields) -> (meta: Option<SegmentMetadata>)
    ensures
        match meta {
            Some(m) => metadata_of(fields_view(fields)) == Some(m@),
            None => metadata_of(fields_view(fields)) is None,
        },
{
    let (id, ec_k, ec_m, tier, root, names, sealed_at, pool_id, total_bytes) = fields;
    if id.len() != 16 {
        return None;
    }
    let size_tier = match tier {
        0 => SizeTier::Inline,
        1 => SizeTier::Small,
        2 => SizeTier::Standard,
        3 => SizeTier::Multi,
        _ => {
            return None;
        },
    };
    let mut locations = NodeList::new();
    let n: usize = names.len();
    let mut i: usize = 0;
    while i < n
        invariant
            i <= n == names@.len(),
            locations@ =~= texts(names@).take(i as int),
        decreases n - i,
    {
        locations.push(NodeId::new(names[i].as_str()));
        i = i + 1;
    }
    assert(texts(names@).take(n as int) =~= texts(names@));
    assert(id@.subrange(0, 16) =~= id@);
    Some(
        SegmentMetadata {
            segment_id: SegmentId::read(id.as_slice(), 0),
            ec_k,
            ec_m,
            size_tier,
            merkle_root: match root {
                Some(bytes) => Some(HashOutput::from_bytes(bytes)),
                None => None,
            },
            storage_locations: locations,
            sealed_at,
            pool_id,
            total_bytes,
        },
    )
}

} // verus!
