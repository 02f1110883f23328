use oceanfs_segment::header::{
    SegmentHeader, SEGMENT_HEADER_SIZE, SEGMENT_HEADER_SIZE_V1, SEGMENT_VERSION,
    SEGMENT_VERSION_V1,
};
use oceanfs_segment::types::SegmentId;

#[test]
fn header_roundtrip() {
    let hdr = SegmentHeader::new(SegmentId::from_u128(9), 4096, 10, 4096, [0xABu8; 32]);
    let bytes = hdr.to_bytes();
    assert_eq!(bytes.len(), SEGMENT_HEADER_SIZE);
    let restored = SegmentHeader::from_bytes(&bytes).unwrap();
    assert_eq!(hdr.segment_id, restored.segment_id);
    assert_eq!(hdr.size, restored.size);
    assert_eq!(hdr.blob_count, restored.blob_count);
    assert_eq!(hdr.checksum, restored.checksum);
    assert_eq!(restored.version, SEGMENT_VERSION);
    assert_eq!(restored.parity_offset, 0);
}

#[test]
fn header_with_parity_roundtrip() {
    let hdr = SegmentHeader::with_parity(
        SegmentId::from_u128(9),
        4096,
        10,
        4096 + 2048,
        [0xCDu8; 32],
        4096,
        2048,
    );
    let bytes = hdr.to_bytes();
    let restored = SegmentHeader::from_bytes(&bytes).unwrap();
    assert_eq!(restored.parity_offset, 4096);
    assert_eq!(restored.parity_size, 2048);
    assert_eq!(restored.index_offset, 4096 + 2048);
}

#[test]
fn v1_header_deserializes_without_parity() {
    let mut bytes = vec![0u8; SEGMENT_HEADER_SIZE_V1];
    bytes[0..4].copy_from_slice(b"OFSG");
    bytes[4..6].copy_from_slice(&SEGMENT_VERSION_V1.to_le_bytes());
    bytes[6..22].copy_from_slice(&SegmentId::from_u128(3).as_bytes());
    bytes[34..42].copy_from_slice(&4096u64.to_le_bytes());
    let restored = SegmentHeader::from_bytes(&bytes).unwrap();
    assert_eq!(restored.version, SEGMENT_VERSION_V1);
    assert_eq!(restored.parity_offset, 0);
    assert_eq!(restored.parity_size, 0);
    assert_eq!(SegmentHeader::header_size(SEGMENT_VERSION_V1), SEGMENT_HEADER_SIZE_V1);
    assert_eq!(restored.serialized_size(), SEGMENT_HEADER_SIZE_V1);
}

#[test]
fn from_bytes_rejects_wrong_magic() {
    let bytes = vec![0u8; 76];
    assert!(SegmentHeader::from_bytes(&bytes).is_none());
}

#[test]
fn from_bytes_rejects_short_data() {
    assert!(SegmentHeader::from_bytes(&[0u8; 4]).is_none());
}

#[test]
fn header_fields_lie_at_their_offsets() {
    let id = SegmentId::from_u128(0x0102_0304_0506_0708_090A_0B0C_0D0E_0F10);
    let hdr = SegmentHeader::with_parity(id, 0x1122, 7, 0x3344, [0x5Au8; 32], 0x5566, 0x7788);
    let bytes = hdr.to_bytes();
    assert_eq!(&bytes[0..4], b"OFSG");
    assert_eq!(&bytes[4..6], &[2, 0]);
    assert_eq!(&bytes[6..22], &[1, 2, 3, 4, 5, 6, 7, 8, 9, 10, 11, 12, 13, 14, 15, 16]);
    assert_eq!(&bytes[22..30], &0x1122u64.to_le_bytes());
    assert_eq!(&bytes[30..34], &7u32.to_le_bytes());
    assert_eq!(&bytes[34..42], &0x3344u64.to_le_bytes());
    assert_eq!(&bytes[42..74], &[0x5Au8; 32]);
    assert_eq!(&bytes[74..82], &0x5566u64.to_le_bytes());
    assert_eq!(&bytes[82..90], &0x7788u64.to_le_bytes());
    assert_eq!(&bytes[90..92], &[0, 0]);
    assert_eq!(SegmentHeader::from_bytes(&bytes).unwrap(), hdr);
}

#[test]
fn data_ends_at_the_parity_section_or_the_index() {
    let id = SegmentId::from_u128(1);
    assert_eq!(SegmentHeader::new(id, 10, 0, 102, [0u8; 32]).data_end(), 102);
    assert_eq!(SegmentHeader::with_parity(id, 10, 0, 202, [0u8; 32], 102, 100).data_end(), 102);
}
