use oceanfs_segment::buffer::ActiveSegment;
use oceanfs_segment::error::Error;
use oceanfs_segment::types::{SegmentId, SegmentSizeConfig, SizeTier};

fn config() -> SegmentSizeConfig {
    SegmentSizeConfig { small_target_size: 16_777_216, default_target_size: 67_108_864 }
}

fn segment(tier: SizeTier, config: &SegmentSizeConfig) -> ActiveSegment {
    ActiveSegment::new(SegmentId::from_u128(1), tier, config, 0).unwrap()
}

#[test]
fn new_segment_starts_empty() {
    let seg = segment(SizeTier::Standard, &config());
    assert_eq!(seg.size(), 0);
    assert!(!seg.is_full());
}

#[test]
fn append_increments_cursor() {
    let mut seg = segment(SizeTier::Standard, &config());
    let (off, len) = seg.append(&[0u8; 100], 0).unwrap();
    assert_eq!(off, 0);
    assert_eq!(len, 100);
    assert_eq!(seg.size(), 100);
}

#[test]
fn append_returns_sequential_offsets() {
    let mut seg = segment(SizeTier::Standard, &config());
    let (off1, _) = seg.append(b"aaa", 0).unwrap();
    let (off2, _) = seg.append(b"bbb", 0).unwrap();
    let (off3, _) = seg.append(b"ccc", 0).unwrap();
    assert_eq!(off1, 0);
    assert_eq!(off2, 3);
    assert_eq!(off3, 6);
}

#[test]
fn is_full_when_cursor_exceeds_target() {
    let config = SegmentSizeConfig { default_target_size: 10, ..config() };
    let mut seg = segment(SizeTier::Standard, &config);
    assert!(!seg.is_full());
    seg.append(&[0u8; 10], 0).unwrap();
    assert!(seg.is_full());
}

#[test]
fn is_full_when_cursor_exceeds_target_by_more() {
    let config = SegmentSizeConfig { default_target_size: 10, ..config() };
    let mut seg = segment(SizeTier::Standard, &config);
    seg.append(&[0u8; 15], 0).unwrap();
    assert!(seg.is_full());
}

#[test]
fn append_on_full_segment_returns_error() {
    let config = SegmentSizeConfig { default_target_size: 5, ..config() };
    let mut seg = segment(SizeTier::Standard, &config);
    seg.append(&[0u8; 5], 0).unwrap();
    let result = seg.append(b"x", 0);
    assert!(result.is_err());
    assert!(matches!(result.unwrap_err(), Error::SegmentFull { .. }));
}

#[test]
fn small_tier_uses_small_target() {
    let config = SegmentSizeConfig { small_target_size: 100, default_target_size: 1000 };
    let seg = segment(SizeTier::Small, &config);
    assert_eq!(seg.target_size(), 100);
}

#[test]
fn standard_tier_uses_default_target() {
    let config = SegmentSizeConfig { default_target_size: 2000, ..config() };
    let seg = segment(SizeTier::Standard, &config);
    assert_eq!(seg.target_size(), 2000);
}

#[test]
fn inline_tier_rejected() {
    let result = ActiveSegment::new(SegmentId::from_u128(1), SizeTier::Inline, &config(), 0);
    assert!(result.is_err());
    assert!(matches!(result.err(), Some(Error::InlineTier)));
}

#[test]
fn data_returns_appended_bytes() {
    let mut seg = segment(SizeTier::Standard, &config());
    seg.append(b"hello", 0).unwrap();
    seg.append(b" world", 0).unwrap();
    assert_eq!(seg.data(), b"hello world");
}

#[test]
fn into_buffer_returns_buffer() {
    let mut seg = segment(SizeTier::Standard, &config());
    seg.append(b"data", 0).unwrap();
    let buf = seg.into_buffer();
    assert_eq!(&buf[..], b"data");
}

#[test]
fn id_is_unique_per_segment() {
    let seg1 = ActiveSegment::new(SegmentId::from_u128(1), SizeTier::Standard, &config(), 0).unwrap();
    let seg2 = ActiveSegment::new(SegmentId::from_u128(2), SizeTier::Standard, &config(), 0).unwrap();
    assert_ne!(seg1.id(), seg2.id());
}

#[test]
fn full_segment_error_names_segment_and_size() {
    let config = SegmentSizeConfig { default_target_size: 5, ..config() };
    let mut seg = segment(SizeTier::Standard, &config);
    seg.append(&[1u8; 7], 0).unwrap();
    assert_eq!(
        seg.append(b"x", 0),
        Err(Error::SegmentFull { segment_id: SegmentId::from_u128(1), current_size: 7 })
    );
    assert_eq!(seg.data(), &[1u8; 7]);
}

#[test]
fn seal_keeps_identity_tier_and_data() {
    let mut seg = segment(SizeTier::Small, &config());
    assert!(seg.is_empty());
    seg.append(b"payload", 40).unwrap();
    assert!(!seg.is_empty());
    assert_eq!(seg.idle_for(100), 60);
    let sealed = seg.seal();
    assert_eq!(sealed.segment_id, SegmentId::from_u128(1));
    assert_eq!(sealed.tier, SizeTier::Small);
    assert_eq!(&sealed.data[..], b"payload");
}
