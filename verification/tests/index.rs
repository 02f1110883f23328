use oceanfs_segment::error::Error;
use oceanfs_segment::index::{SegmentIndex, SegmentIndexEntry};

fn entry(offset: u64, length: u32) -> SegmentIndexEntry {
    SegmentIndexEntry { offset, length, blob_key_hash: [0u8; 32] }
}

#[test]
fn lookup_returns_entry_at_offset() {
    let index = SegmentIndex::new(vec![entry(0, 100), entry(100, 200)]).unwrap();
    assert_eq!(index.lookup(0).unwrap().length, 100);
    assert_eq!(index.lookup(100).unwrap().length, 200);
}

#[test]
fn lookup_returns_none_for_missing_offset() {
    let index = SegmentIndex::new(vec![entry(0, 100)]).unwrap();
    assert!(index.lookup(50).is_none());
}

#[test]
fn duplicate_offset_rejected() {
    let result = SegmentIndex::new(vec![entry(0, 100), entry(0, 200)]);
    assert!(result.is_err());
}

#[test]
fn empty_index_has_len_zero() {
    let index = SegmentIndex::new(vec![]).unwrap();
    assert_eq!(index.len(), 0);
    assert!(index.is_empty());
}

#[test]
fn index_errors_name_the_offset() {
    assert_eq!(
        SegmentIndex::new(vec![entry(4, 1), entry(9, 1), entry(4, 2)]).unwrap_err(),
        Error::DuplicateOffset(4)
    );
    assert_eq!(
        SegmentIndex::new(vec![entry(0, 100), entry(50, 10)]).unwrap_err(),
        Error::OverlappingBlob(50)
    );
}

#[test]
fn entries_come_in_offset_order_and_rebuild_the_index() {
    let index = SegmentIndex::new(vec![entry(200, 300), entry(0, 50), entry(50, 150)]).unwrap();
    let entries = index.entries();
    assert_eq!(entries, vec![entry(0, 50), entry(50, 150), entry(200, 300)]);
    let again = SegmentIndex::new(entries).unwrap();
    assert_eq!(again.len(), 3);
    assert!(again.lookup(50).is_some());
}
