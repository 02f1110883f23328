use std::collections::BTreeMap;

use oceanfs_segment::error::{BadRecord, Error};
use oceanfs_segment::event_reader::{truncate_torn_tail, EventFile};
use oceanfs_segment::event_record::{
    tier_from_u8, tier_to_u8, DeleteEvent, MetadataRefreshEvent, ReserveEvent, SealEvent,
    SegmentEvent, EVENT_RECORD_HEADER_SIZE, EVENT_RECORD_VERSION, KIND_METADATA_REFRESH, KIND_SEAL,
    REFRESH_PAYLOAD_SIZE, REFRESH_POOL_ID_SIZE, REFRESH_ROOT_SIZE, SEAL_PAYLOAD_SIZE,
    SEAL_POOL_ID_SIZE, SEAL_REPACKED_FROM_SIZE,
};
use oceanfs_segment::event_wal::{evl_file_name, evl_file_path, parse_evl_name, EventWal};
use oceanfs_segment::node_list::{NodeId, NodeList};
use oceanfs_segment::types::{
    DataWalPos, EventWalConfig, EventWalPos, HashOutput, SegmentId, SizeTier,
};

const EVENT_RECORD_MAGIC: [u8; 4] = [b'E', b'V', b'L', 1];

const RESERVE_RECORD_SIZE: u64 = 36;
const SEAL_RECORD_SIZE: u64 = 80;
const DELETE_RECORD_SIZE: u64 = 32;

const START: EventWalPos = EventWalPos { file_seq: 0, offset: 0 };

fn id(n: u128) -> SegmentId {
    SegmentId::from_u128(n)
}

fn test_config() -> EventWalConfig {
    EventWalConfig {
        event_wal_file_size_bytes: 1024 * 1024,
        event_wal_fsync_batch_timeout_ms: 10,
        event_wal_checkpoint_bytes: 1024 * 1024,
    }
}

fn tiny_config() -> EventWalConfig {
    EventWalConfig {
        event_wal_file_size_bytes: 64,
        event_wal_fsync_batch_timeout_ms: 10,
        event_wal_checkpoint_bytes: 1024,
    }
}

/// An event log with its files.
struct Log {
    wal: EventWal,
    files: BTreeMap<u32, Vec<u8>>,
}

impl Log {
    fn open(mut files: BTreeMap<u32, Vec<u8>>, config: EventWalConfig) -> Log {
        let listing = files.iter().map(|(seq, data)| (*seq, data.len() as u64)).collect();
        let tail = files.values().next_back().cloned().unwrap_or_default();
        let wal = EventWal::open(listing, &tail, config);
        let end = wal.latest_pos();
        files.entry(end.file_seq).or_default().truncate(end.offset as usize);
        Log { wal, files }
    }

    fn fresh(config: EventWalConfig) -> Log {
        Log::open(BTreeMap::new(), config)
    }

    fn append(&mut self, event: SegmentEvent) -> EventWalPos {
        let (pos, record) = self.wal.append(&event);
        let file = self.files.entry(pos.file_seq).or_default();
        assert_eq!(file.len() as u64, pos.offset);
        file.extend_from_slice(&record);
        pos
    }

    fn event_files(&self) -> Vec<EventFile> {
        self.files.iter().map(|(seq, data)| EventFile { seq: *seq, data: data.clone() }).collect()
    }

    fn read(&self, pos: EventWalPos) -> Vec<Result<(EventWalPos, SegmentEvent), Error>> {
        let mut reader = self.wal.read_from(self.event_files(), pos);
        let mut items = Vec::new();
        while let Some(item) = reader.next() {
            items.push(item);
        }
        items
    }

    fn events(&self, pos: EventWalPos) -> Vec<(EventWalPos, SegmentEvent)> {
        self.read(pos).into_iter().map(|item| item.unwrap()).collect()
    }
}

fn reserve_event(id: SegmentId) -> SegmentEvent {
    SegmentEvent::Reserve(ReserveEvent { segment_id: id, tier: SizeTier::Standard, ec_k: 4, ec_m: 2 })
}

fn seal(id: SegmentId) -> SealEvent {
    SealEvent {
        pool_id: 0,
        segment_id: id,
        tier: SizeTier::Standard,
        ec_k: 4,
        ec_m: 2,
        merkle_root: HashOutput::from_bytes([0xAB; 32]),
        data_wal_pos: DataWalPos { file_seq: 3, offset: 4096 },
        repacked_from: None,
    }
}

fn seal_event(id: SegmentId) -> SegmentEvent {
    SegmentEvent::Seal(seal(id))
}

fn seal_event_with_repacked(id: SegmentId, old: SegmentId) -> SegmentEvent {
    SegmentEvent::Seal(SealEvent { repacked_from: Some(old), ..seal(id) })
}

fn delete_event(id: SegmentId) -> SegmentEvent {
    SegmentEvent::Delete(DeleteEvent { segment_id: id })
}

fn refresh_event(id: SegmentId) -> SegmentEvent {
    SegmentEvent::MetadataRefresh(MetadataRefreshEvent {
        segment_id: id,
        merkle_root: Some(HashOutput::from_bytes([0xCD; 32])),
        storage_locations: None,
        pool_id: None,
    })
}

fn nodes(names: &[&str]) -> NodeList {
    let mut list = NodeList::new();
    for name in names {
        list.push(NodeId::new(name));
    }
    list
}

fn record(kind: u8, id: SegmentId, payload: &[u8]) -> Vec<u8> {
    let mut buf = Vec::new();
    buf.extend_from_slice(&EVENT_RECORD_MAGIC);
    buf.push(EVENT_RECORD_VERSION);
    buf.push(kind);
    buf.extend_from_slice(&[0u8; 2]);
    buf.extend_from_slice(&(payload.len() as u32).to_le_bytes());
    buf.extend_from_slice(&id.as_bytes());
    buf.extend_from_slice(payload);
    let crc = crc32fast::hash(&buf);
    buf.extend_from_slice(&crc.to_le_bytes());
    buf
}

fn fix_crc(bytes: &mut Vec<u8>) {
    let at = bytes.len() - 4;
    let crc = crc32fast::hash(&bytes[..at]).to_le_bytes();
    bytes[at..].copy_from_slice(&crc);
}

#[test]
fn record_roundtrip_is_byte_exact() {
    for evt in [reserve_event(id(1)), seal_event(id(1)), delete_event(id(1)), refresh_event(id(1))] {
        let bytes = evt.to_record_bytes();
        let decoded = SegmentEvent::from_record_bytes(&bytes).expect("record decodes");
        assert_eq!(decoded, evt, "record must round-trip byte-exact");
    }
}

#[test]
fn seal_event_pool_id_roundtrips() {
    let evt = SegmentEvent::Seal(SealEvent { pool_id: 3, ..seal(id(1)) });
    let bytes = evt.to_record_bytes();
    let decoded = SegmentEvent::from_record_bytes(&bytes).expect("record decodes");
    assert_eq!(decoded, evt, "pool_id must round-trip");
}

#[test]
fn seal_event_repacked_with_pool_id_roundtrips() {
    let mut evt = seal_event_with_repacked(id(1), id(2));
    if let SegmentEvent::Seal(seal) = &mut evt {
        seal.pool_id = 7;
    }
    let bytes = evt.to_record_bytes();
    let decoded = SegmentEvent::from_record_bytes(&bytes).expect("record decodes");
    assert_eq!(decoded, evt);
}

#[test]
fn legacy_seal_record_decodes_pool_id_zero() {
    let evt = seal_event(id(1));
    let bytes = evt.to_record_bytes();
    assert_eq!(bytes.len(), EVENT_RECORD_HEADER_SIZE + SEAL_PAYLOAD_SIZE + 4);
    let decoded = SegmentEvent::from_record_bytes(&bytes).expect("legacy record decodes");
    match decoded {
        SegmentEvent::Seal(seal) => {
            assert_eq!(seal.pool_id, 0, "legacy records default to the legacy root");
            assert_eq!(seal.repacked_from, None);
        }
        other => panic!("expected Seal, got {other:?}"),
    }
}

#[test]
fn record_sizes_match_the_framing_doc() {
    assert_eq!(reserve_event(id(1)).to_record_bytes().len() as u64, RESERVE_RECORD_SIZE);
    assert_eq!(seal_event(id(1)).to_record_bytes().len() as u64, SEAL_RECORD_SIZE);
    assert_eq!(delete_event(id(1)).to_record_bytes().len() as u64, DELETE_RECORD_SIZE);
    assert_eq!(
        refresh_event(id(1)).to_record_bytes().len(),
        EVENT_RECORD_HEADER_SIZE + REFRESH_PAYLOAD_SIZE + REFRESH_ROOT_SIZE + 4
    );
}

#[test]
fn metadata_refresh_roundtrip_preserves_the_anchor() {
    let with_root = refresh_event(id(1));
    let decoded =
        SegmentEvent::from_record_bytes(&with_root.to_record_bytes()).expect("record decodes");
    assert_eq!(decoded, with_root);
    let invalidate = SegmentEvent::MetadataRefresh(MetadataRefreshEvent {
        segment_id: id(1),
        merkle_root: None,
        storage_locations: None,
        pool_id: None,
    });
    let decoded =
        SegmentEvent::from_record_bytes(&invalidate.to_record_bytes()).expect("record decodes");
    assert_eq!(decoded, invalidate);
}

#[test]
fn metadata_refresh_with_locations_roundtrips() {
    let evt = SegmentEvent::MetadataRefresh(MetadataRefreshEvent {
        segment_id: id(1),
        merkle_root: Some(HashOutput::from_bytes([0xCD; 32])),
        storage_locations: Some(nodes(&["node-b", "node-c"])),
        pool_id: None,
    });
    let bytes = evt.to_record_bytes();
    let decoded = SegmentEvent::from_record_bytes(&bytes).expect("extended record decodes");
    assert_eq!(decoded, evt, "locations + root must round-trip byte-exact");
}

#[test]
fn metadata_refresh_locations_only_roundtrips() {
    let evt = SegmentEvent::MetadataRefresh(MetadataRefreshEvent {
        segment_id: id(1),
        merkle_root: None,
        storage_locations: Some(nodes(&["node-x"])),
        pool_id: None,
    });
    let decoded = SegmentEvent::from_record_bytes(&evt.to_record_bytes()).expect("record decodes");
    assert_eq!(decoded, evt);
}

#[test]
fn metadata_refresh_pool_switch_roundtrips() {
    for pool_id in [0u32, 1, 9, u32::MAX] {
        for (merkle_root, storage_locations) in [
            (None, None),
            (Some(HashOutput::from_bytes([7; 32])), None),
            (None, Some(nodes(&["a", "b"]))),
            (Some(HashOutput::from_bytes([7; 32])), Some(nodes(&["a"]))),
        ] {
            let evt = SegmentEvent::MetadataRefresh(MetadataRefreshEvent {
                segment_id: id(1),
                merkle_root,
                storage_locations,
                pool_id: Some(pool_id),
            });
            let bytes = evt.to_record_bytes();
            assert_eq!(&bytes[bytes.len() - 4 - REFRESH_POOL_ID_SIZE..bytes.len() - 4], &pool_id.to_le_bytes());
            assert_eq!(SegmentEvent::from_record_bytes(&bytes).expect("record decodes"), evt);
        }
    }
}

#[test]
fn metadata_refresh_rejects_overlong_node_id() {
    let mut payload = vec![0u8; 1 + 32 + 1 + 1];
    payload[0] = 3;
    payload[33] = 1;
    payload[34] = 255;
    let buf = record(KIND_METADATA_REFRESH, id(1), &payload);
    assert!(SegmentEvent::from_record_bytes(&buf).is_none(), "over-long id must be rejected");
}

#[test]
fn metadata_refresh_empty_payload_is_rejected_not_panicked_on() {
    let buf = record(KIND_METADATA_REFRESH, id(1), &[]);
    assert!(SegmentEvent::from_record_bytes(&buf).is_none(), "empty payload must be rejected");
}

#[test]
fn seal_roundtrip_preserves_merkle_root_and_data_wal_pos() {
    let evt = seal_event(id(1));
    let decoded = SegmentEvent::from_record_bytes(&evt.to_record_bytes()).expect("record decodes");
    match decoded {
        SegmentEvent::Seal(seal) => {
            assert_eq!(seal.merkle_root, HashOutput::from_bytes([0xAB; 32]));
            assert_eq!(seal.data_wal_pos, DataWalPos { file_seq: 3, offset: 4096 });
            assert_eq!(seal.tier, SizeTier::Standard);
            assert_eq!(seal.ec_k, 4);
            assert_eq!(seal.ec_m, 2);
            assert_eq!(seal.repacked_from, None);
        }
        other => panic!("expected seal event, got {other:?}"),
    }
}

#[test]
fn seal_roundtrip_preserves_the_compaction_repacked_from_marker() {
    let old = id(2);
    let evt = seal_event_with_repacked(id(1), old);
    let bytes = evt.to_record_bytes();
    assert_eq!(
        bytes.len(),
        EVENT_RECORD_HEADER_SIZE + SEAL_PAYLOAD_SIZE + SEAL_REPACKED_FROM_SIZE + 4,
        "the repacked_from marker must extend the record by 16 bytes"
    );
    let decoded = SegmentEvent::from_record_bytes(&bytes).expect("record decodes");
    assert_eq!(decoded, evt, "the marker must round-trip byte-exact");
    match decoded {
        SegmentEvent::Seal(seal) => assert_eq!(seal.repacked_from, Some(old)),
        other => panic!("expected seal event, got {other:?}"),
    }
}

#[test]
fn unmarked_seal_records_still_decode_with_the_marker_absent() {
    let mut payload = Vec::with_capacity(SEAL_PAYLOAD_SIZE);
    payload.push(tier_to_u8(SizeTier::Standard));
    payload.push(4);
    payload.push(2);
    payload.push(0);
    payload.extend_from_slice(&[0xAB; 32]);
    payload.extend_from_slice(&3u32.to_le_bytes());
    payload.extend_from_slice(&4096u64.to_le_bytes());
    let buf = record(KIND_SEAL, id(1), &payload);
    let decoded = SegmentEvent::from_record_bytes(&buf).expect("legacy record decodes");
    match decoded {
        SegmentEvent::Seal(seal) => assert_eq!(seal.repacked_from, None),
        other => panic!("expected seal event, got {other:?}"),
    }
}

#[test]
fn single_flipped_byte_fails_crc() {
    let mut bytes = seal_event(id(1)).to_record_bytes();
    let idx = EVENT_RECORD_HEADER_SIZE + 10;
    bytes[idx] ^= 0xFF;
    assert!(
        SegmentEvent::from_record_bytes(&bytes).is_none(),
        "CRC must catch a single flipped byte"
    );
}

#[test]
fn single_flipped_byte_in_header_fails_crc() {
    let mut bytes = reserve_event(id(1)).to_record_bytes();
    bytes[12] ^= 0x01;
    assert!(SegmentEvent::from_record_bytes(&bytes).is_none());
}

#[test]
fn wrong_magic_is_rejected() {
    let mut bytes = reserve_event(id(1)).to_record_bytes();
    bytes[0] = b'X';
    assert!(SegmentEvent::from_record_bytes(&bytes).is_none());
}

#[test]
fn unknown_kind_is_rejected() {
    let mut bytes = reserve_event(id(1)).to_record_bytes();
    bytes[5] = 0x7F;
    fix_crc(&mut bytes);
    assert!(SegmentEvent::from_record_bytes(&bytes).is_none());
}

#[test]
fn truncated_record_is_rejected() {
    let bytes = seal_event(id(1)).to_record_bytes();
    for cut in [bytes.len() - 1, EVENT_RECORD_HEADER_SIZE + 4, EVENT_RECORD_HEADER_SIZE - 1] {
        assert!(
            SegmentEvent::from_record_bytes(&bytes[..cut]).is_none(),
            "truncation at {cut} must be rejected"
        );
    }
}

#[test]
fn unknown_tier_byte_is_rejected() {
    let mut bytes = reserve_event(id(1)).to_record_bytes();
    bytes[EVENT_RECORD_HEADER_SIZE] = 0x42;
    fix_crc(&mut bytes);
    assert!(SegmentEvent::from_record_bytes(&bytes).is_none());
}

#[test]
fn tiers_and_their_bytes_convert_both_ways() {
    for tier in [SizeTier::Inline, SizeTier::Small, SizeTier::Standard, SizeTier::Multi] {
        assert_eq!(tier_from_u8(tier_to_u8(tier)), Some(tier));
    }
    assert_eq!(tier_from_u8(4), None);
}

#[test]
fn record_bytes_lie_at_their_offsets() {
    let segment = id(0x0102_0304_0506_0708_090A_0B0C_0D0E_0F10);
    let evt = SegmentEvent::Seal(SealEvent {
        pool_id: 0x0A0B0C0D,
        repacked_from: Some(id(5)),
        ..seal(segment)
    });
    let bytes = evt.to_record_bytes();
    assert_eq!(&bytes[..4], &EVENT_RECORD_MAGIC);
    assert_eq!(bytes[4], EVENT_RECORD_VERSION);
    assert_eq!(bytes[5], KIND_SEAL);
    assert_eq!(&bytes[6..8], &[0, 0]);
    let payload_len = SEAL_PAYLOAD_SIZE + SEAL_REPACKED_FROM_SIZE + SEAL_POOL_ID_SIZE;
    assert_eq!(&bytes[8..12], &(payload_len as u32).to_le_bytes());
    assert_eq!(&bytes[12..28], &segment.as_bytes()[..]);
    assert_eq!(&bytes[28..32], &[tier_to_u8(SizeTier::Standard), 4, 2, 3]);
    assert_eq!(&bytes[32..64], &[0xAB; 32]);
    assert_eq!(&bytes[64..68], &3u32.to_le_bytes());
    assert_eq!(&bytes[68..76], &4096u64.to_le_bytes());
    let crc = crc32fast::hash(&bytes[..bytes.len() - 4]);
    assert_eq!(&bytes[bytes.len() - 4..], &crc.to_le_bytes());
    assert_eq!(evt.segment_id(), segment);
}

#[test]
fn append_read_round_trip_returns_three_events_in_order() {
    let mut log = Log::fresh(test_config());
    let p1 = log.append(reserve_event(id(1)));
    let p2 = log.append(seal_event(id(1)));
    let p3 = log.append(delete_event(id(1)));
    assert!(p1 < p2 && p2 < p3, "positions must be monotonic: {p1:?} < {p2:?} < {p3:?}");

    let events = log.events(START);
    assert_eq!(events.len(), 3);
    assert_eq!(events[0].0, p1);
    assert_eq!(events[1].0, p2);
    assert_eq!(events[2].0, p3);
    assert_eq!(events[0].1, reserve_event(id(1)));
    assert_eq!(events[1].1, seal_event(id(1)));
    assert_eq!(events[2].1, delete_event(id(1)));
}

#[test]
fn read_from_mid_log_position_yields_remaining_records() {
    let mut log = Log::fresh(test_config());
    log.append(reserve_event(id(1)));
    let p2 = log.append(seal_event(id(1)));
    let events = log.events(p2);
    assert_eq!(events.len(), 1);
    assert_eq!(events[0].1, seal_event(id(1)));
}

#[test]
fn latest_pos_tracks_append_tail() {
    let mut log = Log::fresh(test_config());
    assert_eq!(log.wal.latest_pos(), EventWalPos { file_seq: 0, offset: 0 });
    let pos = log.append(reserve_event(id(1)));
    let latest = log.wal.latest_pos();
    assert!(latest >= pos, "latest_pos must be at/past the last append's end");
    assert_eq!(latest.file_seq, pos.file_seq);
}

#[test]
fn latest_pos_never_regresses_across_rotation() {
    let mut log = Log::fresh(tiny_config());
    let mut last = log.wal.latest_pos();
    for _ in 0..20 {
        log.append(seal_event(id(1)));
        let pos = log.wal.latest_pos();
        assert!(pos > last);
        last = pos;
    }
    assert!(log.wal.latest_pos().file_seq >= 20, "rotations must have happened");
}

#[test]
fn append_is_durable_on_return() {
    let mut log = Log::fresh(test_config());
    log.append(reserve_event(id(1)));
    let reopened = Log::open(log.files, test_config());
    assert_eq!(reopened.events(START).len(), 1);
}

#[test]
fn rotation_opens_new_file_at_threshold() {
    let mut log = Log::fresh(tiny_config());
    let p1 = log.append(reserve_event(id(1)));
    assert_eq!(p1.file_seq, 0, "first record lands in file 0");
    assert_eq!(p1.offset, 0);
    let p2 = log.append(seal_event(id(1)));
    assert_eq!(p2.file_seq, 1, "seal rotates to file 1");
    assert_eq!(p2.offset, 0, "rotated file starts at offset 0");
    let p3 = log.append(seal_event(id(1)));
    assert_eq!(p3.file_seq, 2, "third record rotates to file 2");

    let events = log.events(START);
    assert_eq!(events.len(), 3);
    assert_eq!(events[0].0, p1);
    assert_eq!(events[1].0, p2);
    assert_eq!(events[2].0, p3);
}

#[test]
fn reopen_after_rotation_resumes_at_latest_file() {
    let mut log = Log::fresh(tiny_config());
    log.append(reserve_event(id(1)));
    log.append(seal_event(id(1)));
    let mut reopened = Log::open(log.files, tiny_config());
    assert_eq!(reopened.wal.latest_pos().file_seq, 1, "reopen resumes at the newest file");
    let p = reopened.append(delete_event(id(1)));
    assert_eq!(p.file_seq, 2);
    assert_eq!(p.offset, 0);
    assert_eq!(
        reopened.events(START).len(),
        3,
        "all three records readable across rotation + reopen"
    );
}

#[test]
fn rotation_keeps_old_files() {
    let mut log = Log::fresh(tiny_config());
    log.append(reserve_event(id(1)));
    log.append(seal_event(id(1)));
    assert_eq!(
        log.files.len(),
        2,
        "rotation must keep the previous file (retention is the checkpoint's job)"
    );
    assert_eq!(log.wal.file_count(), 2);
}

#[test]
fn torn_tail_partial_header_surfaces_torn_record() {
    let mut log = Log::fresh(test_config());
    log.append(reserve_event(id(1)));
    log.append(seal_event(id(1)));
    log.files.get_mut(&0).unwrap().truncate(36 + 10);

    let mut reader = log.wal.read_from(log.event_files(), START);
    let first = reader.next().expect("first record intact").unwrap();
    assert_eq!(first.1, reserve_event(id(1)));
    let torn = reader.next().expect("second record is torn").expect_err("torn tail must error");
    match torn {
        Error::TornEventRecord { pos, detail } => {
            assert_eq!(pos.offset, 36, "torn position is the second record's start");
            assert!(detail.message().contains("header"));
        }
        other => panic!("expected TornEventRecord, got {other:?}"),
    }
    assert!(reader.next().is_none(), "iterator must stop after the torn record");
}

#[test]
fn torn_tail_partial_payload_surfaces_torn_record() {
    let mut log = Log::fresh(test_config());
    log.append(reserve_event(id(1)));
    log.append(seal_event(id(1)));
    log.files.get_mut(&0).unwrap().truncate(36 + 28 + 10);

    let mut reader = log.wal.read_from(log.event_files(), START);
    assert!(reader.next().unwrap().is_ok());
    let torn = reader.next().expect("torn tail must error").expect_err("torn tail must error");
    match torn {
        Error::TornEventRecord { detail, .. } => assert!(detail.message().contains("payload")),
        other => panic!("expected TornEventRecord, got {other:?}"),
    }
}

#[test]
fn torn_tail_corrupt_byte_surfaces_torn_record() {
    let mut log = Log::fresh(test_config());
    log.append(reserve_event(id(1)));
    log.append(seal_event(id(1)));
    log.files.get_mut(&0).unwrap()[36 + 30] = 0xFF;

    let mut reader = log.wal.read_from(log.event_files(), START);
    assert!(reader.next().unwrap().is_ok());
    match reader.next().unwrap().expect_err("corrupt record must error") {
        Error::TornEventRecord { detail, .. } => assert!(detail.message().contains("checksum")),
        other => panic!("expected TornEventRecord, got {other:?}"),
    }
    assert!(reader.next().is_none());
}

#[test]
fn clean_file_boundary_advances_without_torn_error() {
    let mut log = Log::fresh(test_config());
    log.append(reserve_event(id(1)));
    assert_eq!(log.events(START).len(), 1, "a clean tail must not be reported torn");
}

#[test]
fn bytes_since_counts_appended_bytes() {
    let mut log = Log::fresh(test_config());
    assert_eq!(log.wal.bytes_since(START), 0);

    log.append(reserve_event(id(1)));
    let after1 = log.wal.bytes_since(START);
    assert_eq!(after1, RESERVE_RECORD_SIZE, "bytes since start = the reserve record size");

    log.append(seal_event(id(1)));
    let after2 = log.wal.bytes_since(START);
    assert_eq!(after2, RESERVE_RECORD_SIZE + SEAL_RECORD_SIZE);

    let after_reserve = EventWalPos { file_seq: 0, offset: RESERVE_RECORD_SIZE };
    assert_eq!(log.wal.bytes_since(after_reserve), SEAL_RECORD_SIZE);
    assert_eq!(log.wal.bytes_total(), RESERVE_RECORD_SIZE + SEAL_RECORD_SIZE);
}

#[test]
fn bytes_since_spans_rotation() {
    let mut log = Log::fresh(tiny_config());
    log.append(reserve_event(id(1)));
    let p2 = log.append(seal_event(id(1)));
    log.append(delete_event(id(1)));
    assert_eq!(
        log.wal.bytes_since(START),
        RESERVE_RECORD_SIZE + SEAL_RECORD_SIZE + DELETE_RECORD_SIZE
    );
    assert_eq!(log.wal.bytes_since(p2), SEAL_RECORD_SIZE + DELETE_RECORD_SIZE);
}

#[test]
fn open_truncates_torn_tail_and_resumes_cleanly() {
    let mut log = Log::fresh(test_config());
    log.append(reserve_event(id(1)));
    log.append(seal_event(id(1)));
    log.files.get_mut(&0).unwrap().truncate(36 + 10);

    let mut reopened = Log::open(log.files, test_config());
    assert_eq!(
        reopened.wal.latest_pos().offset,
        36,
        "open must truncate the torn tail back to the last good boundary"
    );
    let events = reopened.events(START);
    assert_eq!(events.len(), 1);
    assert_eq!(events[0].1, reserve_event(id(1)));

    let p = reopened.append(delete_event(id(1)));
    assert_eq!(p.offset, 36);
    assert_eq!(reopened.events(START).len(), 2);
}

#[test]
fn open_keeps_mid_log_corruption_untouched() {
    let mut log = Log::fresh(test_config());
    log.append(reserve_event(id(1)));
    log.append(seal_event(id(1)));
    log.append(delete_event(id(1)));
    log.files.get_mut(&0).unwrap()[36 + 30] = 0xFF;

    let size_before = log.files[&0].len();
    let reopened = Log::open(log.files, test_config());
    let size_after = reopened.files[&0].len();
    assert_eq!(size_before, size_after, "open must not truncate past mid-log corruption");

    let mut reader = reopened.wal.read_from(reopened.event_files(), START);
    assert!(reader.next().unwrap().is_ok());
    match reader.next().unwrap().expect_err("corrupt record must error") {
        Error::CorruptEventLog { pos, detail } => {
            assert_eq!(pos.offset, 36);
            assert!(detail.message().contains("checksum"));
        }
        other => panic!("expected CorruptEventLog, got {other:?}"),
    }
    assert!(reader.next().is_none(), "iterator must stop after the corrupt record");
}

#[test]
fn reader_classifies_tail_crc_failure_as_torn_not_corrupt() {
    let mut log = Log::fresh(test_config());
    log.append(reserve_event(id(1)));
    log.append(seal_event(id(1)));
    log.files.get_mut(&0).unwrap()[36 + 30] = 0xFF;

    let mut reader = log.wal.read_from(log.event_files(), START);
    assert!(reader.next().unwrap().is_ok());
    match reader.next().unwrap().expect_err("bad tail record must error") {
        Error::TornEventRecord { pos, .. } => assert_eq!(pos.offset, 36),
        other => panic!("expected TornEventRecord for a tail record, got {other:?}"),
    }
}

#[test]
fn every_kind_of_bad_record_is_named() {
    let good = reserve_event(id(1)).to_record_bytes();
    let shortest = delete_event(id(1)).to_record_bytes();
    let mut bad_magic = shortest.clone();
    bad_magic[0] = b'X';
    let mut bad_version = shortest.clone();
    bad_version[4] = 9;
    let mut bad_length = shortest.clone();
    bad_length[8..12].copy_from_slice(&u32::MAX.to_le_bytes());
    let mut bad_payload = good.clone();
    bad_payload[28] = 0x42;
    fix_crc(&mut bad_payload);
    let mut bad_crc = good.clone();
    bad_crc[35] ^= 1;
    for (bytes, kind) in [
        (good[..20].to_vec(), BadRecord::TruncatedHeader),
        (bad_magic, BadRecord::BadMagic),
        (bad_version, BadRecord::UnsupportedVersion),
        (bad_length, BadRecord::ImplausibleLength),
        (good[..33].to_vec(), BadRecord::TruncatedPayload),
        (bad_crc, BadRecord::ChecksumMismatch),
        (bad_payload, BadRecord::InvalidPayload),
    ] {
        assert_eq!(truncate_torn_tail(&bytes), 0);
        let mut log = Log::fresh(test_config());
        log.files.insert(0, bytes);
        let items = log.read(START);
        assert_eq!(items.len(), 1);
        match items[0].as_ref().unwrap_err() {
            Error::TornEventRecord { pos, detail } => {
                assert_eq!(*pos, START);
                assert_eq!(*detail, kind);
            }
            other => panic!("expected a torn record, got {other:?}"),
        }
    }
}

#[test]
fn torn_record_before_another_file_is_corruption() {
    let mut log = Log::fresh(tiny_config());
    log.append(reserve_event(id(1)));
    log.append(seal_event(id(1)));
    log.files.get_mut(&0).unwrap().truncate(30);
    let items = log.read(START);
    assert!(matches!(
        items[0].as_ref().unwrap_err(),
        Error::CorruptEventLog { pos: START, detail: BadRecord::TruncatedPayload }
    ));
}

#[test]
fn evl_names_and_sequence_numbers_convert_both_ways() {
    assert_eq!(evl_file_name(7), "evl_00000007.log");
    assert_eq!(evl_file_path("/data/wal", 7), "/data/wal/evl_00000007.log");
    for seq in [0u32, 7, 12_345_678, u32::MAX] {
        assert_eq!(parse_evl_name(&evl_file_name(seq)), Some(seq));
    }
    assert_eq!(parse_evl_name("evl_x.log"), None);
    assert_eq!(parse_evl_name("wal_00000007.log"), None);
    assert_eq!(parse_evl_name("evl_00000007"), None);
}

#[test]
fn positions_pack_and_unpack() {
    let pos = EventWalPos { file_seq: 3, offset: 0x1_0000_0001 };
    assert_eq!(pos.packed(), (3u64 << 48) | 0x1_0000_0001);
    assert_eq!(EventWalPos::from_packed(pos.packed()), pos);
    assert!(pos.is_before(&EventWalPos { file_seq: 4, offset: 0 }));
    assert!(!pos.is_before(&pos));
}

#[test]
fn rotation_is_needed_exactly_past_the_file_size() {
    let mut log = Log::fresh(tiny_config());
    log.append(reserve_event(id(1)));
    assert!(!log.wal.needs_rotation(64 - 36));
    assert!(log.wal.needs_rotation(64 - 36 + 1));
}

#[test]
fn files_are_counted_as_they_are_on_disk() {
    let mut log = Log::fresh(tiny_config());
    assert_eq!(log.wal.file_count(), 1);
    for n in 0..3 {
        log.append(seal_event(id(n)));
    }
    assert_eq!(log.wal.file_count(), log.files.len() as u64);
    let listing = log.files.iter().map(|(seq, data)| (*seq, data.len() as u64)).collect();
    let end = log.wal.latest_pos();
    for seq in log.wal.truncate_before(&listing, end).files {
        log.files.remove(&seq);
    }
    assert_eq!(log.wal.file_count(), 1);
    let mut log = Log::open(log.files, tiny_config());
    assert_eq!(log.wal.file_count(), 1, "the removed files do not count after a restart");
    log.append(seal_event(id(9)));
    assert_eq!(log.wal.file_count(), 2);
}

#[test]
fn no_other_bytes_read_back_as_a_record() {
    let record = seal_event(id(1)).to_record_bytes();
    for at in 0..record.len() {
        for flip in [0x01u8, 0x80, 0xFF] {
            let mut other = record.clone();
            other[at] ^= flip;
            assert!(SegmentEvent::from_record_bytes(&other).is_none());
        }
        assert!(SegmentEvent::from_record_bytes(&record[..at]).is_none());
    }
    let mut longer = record.clone();
    longer.push(0);
    assert!(SegmentEvent::from_record_bytes(&longer).is_none());
}

#[test]
fn packed_positions_are_ordered_up_to_the_last_file() {
    let last = EventWalPos { file_seq: 65_535, offset: 0 };
    let before = EventWalPos { file_seq: 65_534, offset: (1 << 48) - 1 };
    assert!(before.is_before(&last));
    assert!(before.packed() < last.packed());
    assert_eq!(EventWalPos::from_packed(last.packed()), last);
}

#[test]
fn a_log_of_several_files_reads_back_from_every_record_boundary() {
    let mut log = Log::fresh(tiny_config());
    let mut written = Vec::new();
    for n in 1..=6 {
        written.push((log.append(reserve_event(id(n))), id(n)));
    }
    assert!(log.files.len() > 1, "the tiny file size rotates");
    for i in 0..written.len() {
        let read: Vec<(EventWalPos, SegmentId)> = log
            .events(written[i].0)
            .iter()
            .map(|(pos, event)| (*pos, event.segment_id()))
            .collect();
        assert_eq!(read, written[i..].to_vec());
    }
    assert!(log.events(log.wal.latest_pos()).is_empty());
}

#[test]
fn a_healed_tail_of_the_last_file_reads_clean_from_the_files_before_it() {
    let files: Vec<Vec<u8>> =
        (1..=3).map(|n| reserve_event(id(n)).to_record_bytes()).collect();
    let mut torn = files.clone();
    torn[2].extend_from_slice(&files[0][..9]);
    let healed = Log::open((0..).zip(torn).collect(), test_config());
    assert_eq!(healed.files[&2], files[2]);
    let ids: Vec<SegmentId> = healed.events(START).iter().map(|(_, e)| e.segment_id()).collect();
    assert_eq!(ids, vec![id(1), id(2), id(3)]);
    let second = EventWalPos { file_seq: 1, offset: 0 };
    assert_eq!(healed.events(second).len(), 2);
}
