use bytes::Bytes;
use oceanfs_segment::buffer::ActiveSegment;
use oceanfs_segment::error::Error;
use oceanfs_segment::route_write::{route_write, ChunkRef, Routed};
use oceanfs_segment::types::{SegmentId, SegmentSizeConfig, SizeTier};

const SPLIT: u64 = 1_048_576;

fn segment(tier: SizeTier, target: u64) -> ActiveSegment {
    let config = SegmentSizeConfig { small_target_size: target, default_target_size: target };
    ActiveSegment::new(SegmentId::from_u128(5), tier, &config, 0).unwrap()
}

fn chunks(routed: Routed) -> Vec<ChunkRef> {
    match routed {
        Routed::Nothing | Routed::Inline(_) => Vec::new(),
        Routed::Chunks(refs) => refs,
    }
}

#[test]
fn route_write_inline_stores_in_metadata() {
    let mut active = segment(SizeTier::Small, 16_777_216);
    let data = Bytes::from_static(b"tiny");
    let routed = route_write(&mut active, SizeTier::Inline, SPLIT, data.clone(), 0).unwrap();
    match &routed {
        Routed::Inline(inline) => assert_eq!(&inline[..], &data[..]),
        other => panic!("expected inline data, got {other:?}"),
    }
    assert!(chunks(routed).is_empty(), "inline blobs have no chunk refs");
    assert_eq!(active.size(), 0);
}

#[test]
fn route_write_small_tier_returns_chunk_ref() {
    let mut active = segment(SizeTier::Small, 16_777_216);
    let data = Bytes::from(vec![0xCC; 5000]);
    let refs = chunks(route_write(&mut active, SizeTier::Small, SPLIT, data, 0).unwrap());
    assert_eq!(refs.len(), 1, "small blob should produce one chunk ref");
    assert_eq!(refs[0].offset, 0);
    assert_eq!(refs[0].length, 5000);
}

#[test]
fn route_write_standard_tier_returns_chunk_ref() {
    let mut active = segment(SizeTier::Standard, 67_108_864);
    let data = Bytes::from(vec![0xDD; 1_048_576]);
    let refs = chunks(route_write(&mut active, SizeTier::Standard, SPLIT, data, 0).unwrap());
    assert_eq!(refs.len(), 1, "standard blob should produce one chunk ref");
    assert_eq!(refs[0].offset, 0);
    assert_eq!(refs[0].length, 1_048_576);
}

#[test]
fn route_write_multi_tier_splits_into_chunks() {
    let mut active = segment(SizeTier::Multi, 10_485_760);
    let data = Bytes::from(vec![0xEE; 3_145_728]);
    let refs = chunks(route_write(&mut active, SizeTier::Multi, SPLIT, data, 0).unwrap());
    assert_eq!(refs.len(), 3, "3 MB blob should split into 3 chunks");
    assert_eq!(refs[0].offset, 0);
    assert_eq!(refs[0].length, 1_048_576);
    assert_eq!(refs[1].offset, 1_048_576);
    assert_eq!(refs[1].length, 1_048_576);
    assert_eq!(refs[2].offset, 2_097_152);
    assert_eq!(refs[2].length, 1_048_576);
}

#[test]
fn route_write_empty_blob_returns_empty_refs() {
    let mut active = segment(SizeTier::Standard, 67_108_864);
    let routed = route_write(&mut active, SizeTier::Standard, SPLIT, Bytes::new(), 0).unwrap();
    assert!(chunks(routed).is_empty());
}

#[test]
fn multi_tier_covers_the_blob_with_a_short_last_chunk() {
    let mut active = segment(SizeTier::Multi, 1000);
    let data = Bytes::from((0..10u8).collect::<Vec<u8>>());
    let refs = chunks(route_write(&mut active, SizeTier::Multi, 4, data, 0).unwrap());
    let shape: Vec<(u64, u32)> = refs.iter().map(|r| (r.offset, r.length)).collect();
    assert_eq!(shape, vec![(0, 4), (4, 4), (8, 2)]);
    assert_eq!(active.data(), &[0, 1, 2, 3, 4, 5, 6, 7, 8, 9]);
}

#[test]
fn multi_tier_stops_at_a_full_segment() {
    let mut active = segment(SizeTier::Multi, 5);
    let data = Bytes::from((0..10u8).collect::<Vec<u8>>());
    let result = route_write(&mut active, SizeTier::Multi, 4, data, 0);
    assert_eq!(
        result.unwrap_err(),
        Error::SegmentFull { segment_id: SegmentId::from_u128(5), current_size: 8 }
    );
    assert_eq!(active.data(), &[0, 1, 2, 3, 4, 5, 6, 7]);
}
