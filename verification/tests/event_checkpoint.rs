use std::collections::BTreeMap;

use oceanfs_segment::error::Error;
use oceanfs_segment::event_checkpoint::{
    checkpoint_file_name, checkpoint_file_path, decode_snapshot, encode_snapshot, is_orphan_tmp,
    is_pre_pool_checkpoint, judge_checkpoint, parse_checkpoint_name, CheckpointFile,
    EventCheckpoint, Verdict, CHECKPOINT_HEADER_SIZE,
};
use oceanfs_segment::event_reader::EventFile;
use oceanfs_segment::event_record::{DeleteEvent, ReserveEvent, SealEvent, SegmentEvent};
use oceanfs_segment::event_wal::EventWal;
use oceanfs_segment::lifecycle::{SegmentLifecycleRegistry, SegmentState};
use oceanfs_segment::metadata_codec::{decode_metadata, encode_metadata};
use oceanfs_segment::node_list::{NodeId, NodeList};
use oceanfs_segment::types::{
    DataWalPos, EventWalConfig, EventWalPos, HashOutput, LifecycleConfig, SegmentId,
    SegmentMetadata, SizeTier,
};

const CHECKPOINT_MAGIC: [u8; 4] = [b'C', b'H', b'K', 1];

fn config(checkpoint_bytes: u64) -> EventWalConfig {
    EventWalConfig {
        event_wal_file_size_bytes: 1024 * 1024,
        event_wal_fsync_batch_timeout_ms: 10,
        event_wal_checkpoint_bytes: checkpoint_bytes,
    }
}

fn reserved(id: SegmentId) -> SegmentMetadata {
    SegmentMetadata {
        pool_id: 0,
        segment_id: id,
        ec_k: 4,
        ec_m: 2,
        size_tier: SizeTier::Standard,
        merkle_root: None,
        storage_locations: NodeList::new(),
        sealed_at: None,
        total_bytes: 0,
    }
}

fn sealed(id: SegmentId) -> SegmentMetadata {
    SegmentMetadata {
        merkle_root: Some(HashOutput::from_bytes([0xAB; 32])),
        sealed_at: Some(1_700_000_000_000),
        ..reserved(id)
    }
}

fn test_registry_with(entries: usize) -> SegmentLifecycleRegistry {
    let mut registry = SegmentLifecycleRegistry::new(&LifecycleConfig::default());
    for i in 0..entries {
        let id = SegmentId::from_u128(1000 + i as u128);
        registry.reserve(id, reserved(id), 0).unwrap();
        if i % 2 == 1 {
            registry.record_data_wal_pos(id, DataWalPos { file_seq: 1, offset: 100 + i as u64 });
            registry.seal(id, sealed(id), 0).unwrap();
        }
    }
    registry
}

fn reserve_event(id: SegmentId) -> SegmentEvent {
    SegmentEvent::Reserve(ReserveEvent { segment_id: id, tier: SizeTier::Standard, ec_k: 4, ec_m: 2 })
}

fn seal_event(id: SegmentId, root: u8) -> SegmentEvent {
    SegmentEvent::Seal(SealEvent {
        pool_id: 0,
        segment_id: id,
        tier: SizeTier::Standard,
        ec_k: 4,
        ec_m: 2,
        merkle_root: HashOutput::from_bytes([root; 32]),
        data_wal_pos: DataWalPos { file_seq: 0, offset: 0 },
        repacked_from: None,
    })
}

fn delete_event(id: SegmentId) -> SegmentEvent {
    SegmentEvent::Delete(DeleteEvent { segment_id: id })
}

/// An event log with its files.
struct Log {
    wal: EventWal,
    files: BTreeMap<u32, Vec<u8>>,
}

impl Log {
    fn new(file_size: u64) -> Log {
        let config = EventWalConfig { event_wal_file_size_bytes: file_size, ..config(1024) };
        Log { wal: EventWal::open(vec![], &[], config), files: BTreeMap::new() }
    }

    fn append(&mut self, event: SegmentEvent) -> EventWalPos {
        let (pos, record) = self.wal.append(&event);
        self.files.entry(pos.file_seq).or_default().extend_from_slice(&record);
        pos
    }

    fn truncate_before(&mut self, pos: EventWalPos) -> u64 {
        let listing = self.files.iter().map(|(seq, data)| (*seq, data.len() as u64)).collect();
        let removed = self.wal.truncate_before(&listing, pos);
        for seq in &removed.files {
            self.files.remove(seq);
        }
        removed.bytes
    }

    fn events(&self, pos: EventWalPos) -> Vec<(EventWalPos, SegmentEvent)> {
        let files =
            self.files.iter().map(|(seq, data)| EventFile { seq: *seq, data: data.clone() }).collect();
        let mut reader = self.wal.read_from(files, pos);
        let mut events = Vec::new();
        while let Some(item) = reader.next() {
            events.push(item.unwrap());
        }
        events
    }
}

/// Loads from named files.
fn load(
    files: &BTreeMap<String, Vec<u8>>,
) -> Result<Option<(SegmentLifecycleRegistry, EventWalPos)>, Error> {
    let mut list: Vec<CheckpointFile> = Vec::new();
    for (name, raw) in files {
        if let Some(pos) = parse_checkpoint_name(name) {
            list.push(CheckpointFile { pos, raw: Some(raw.clone()) });
        }
    }
    EventCheckpoint::load_checkpoint(list)
}

#[test]
fn v2_checkpoint_is_refused_not_decoded() {
    let covered = EventWalPos { file_seq: 3, offset: 4096 };
    let mut buf = Vec::new();
    buf.extend_from_slice(&CHECKPOINT_MAGIC);
    buf.push(2);
    buf.extend_from_slice(&covered.file_seq.to_le_bytes());
    buf.extend_from_slice(&covered.offset.to_le_bytes());
    buf.extend_from_slice(&0u32.to_le_bytes());
    let crc = crc32fast::hash(&buf);
    buf.extend_from_slice(&crc.to_le_bytes());

    assert!(decode_snapshot(&buf).is_none(), "v2 snapshots must not decode");
    assert!(is_pre_pool_checkpoint(&buf));
    assert!(matches!(judge_checkpoint(covered, &buf), Verdict::PrePool));

    let mut files = BTreeMap::new();
    files.insert("checkpoint-00000003-4096".to_string(), buf);
    let err = match load(&files) {
        Ok(_) => panic!("v2 checkpoint must refuse load_checkpoint"),
        Err(err) => err,
    };
    assert_eq!(err, Error::UnsupportedPrePoolDataDir(covered));
}

#[test]
fn snapshot_round_trip_preserves_registry_and_covered_pos() {
    let registry = test_registry_with(10);
    let covered = EventWalPos { file_seq: 3, offset: 4096 };
    let bytes = encode_snapshot(&registry, covered).unwrap();
    let (loaded_covered, loaded) = decode_snapshot(&bytes).expect("snapshot decodes");

    assert_eq!(loaded_covered, covered);
    assert_eq!(loaded.len(), registry.len());
    for (id, entry) in registry.for_each() {
        let other = loaded.get(id, 0).expect("entry present after round trip");
        assert_eq!(other.state, entry.state);
        assert_eq!(other.metadata.segment_id, entry.metadata.segment_id);
        assert_eq!(other.metadata.merkle_root, entry.metadata.merkle_root);
        assert_eq!(other.metadata.sealed_at, entry.metadata.sealed_at);
        assert_eq!(other.data_wal_pos, entry.data_wal_pos);
    }
}

#[test]
fn snapshot_round_trip_preserves_the_compaction_repacked_from_marker() {
    let mut registry = SegmentLifecycleRegistry::new(&LifecycleConfig::default());
    let id = SegmentId::from_u128(1);
    let old = SegmentId::from_u128(2);
    registry.reserve(id, reserved(id), 0).unwrap();
    registry.record_data_wal_pos(id, DataWalPos { file_seq: 1, offset: 100 });
    registry.seal_with(id, sealed(id), Some(old), 0).unwrap();

    let bytes = encode_snapshot(&registry, EventWalPos { file_seq: 3, offset: 4096 }).unwrap();
    let (_, loaded) = decode_snapshot(&bytes).expect("snapshot decodes");
    let entry = loaded.get(id, 0).expect("entry present after round trip");
    assert_eq!(entry.state, SegmentState::Sealed);
    assert_eq!(entry.data_wal_pos, Some(DataWalPos { file_seq: 1, offset: 100 }));
    assert_eq!(entry.repacked_from, Some(old), "the compaction marker must survive checkpointing");
}

#[test]
fn snapshot_deleted_entries_are_absent() {
    let mut registry = SegmentLifecycleRegistry::new(&LifecycleConfig {
        lifecycle_registry_shards: 8,
        delete_grace_ms: 0,
    });
    let id = SegmentId::from_u128(1);
    registry.reserve(id, reserved(id), 0).unwrap();
    registry.delete(id, 0).unwrap();
    let bytes = encode_snapshot(&registry, EventWalPos { file_seq: 0, offset: 0 }).unwrap();
    let (_, loaded) = decode_snapshot(&bytes).expect("snapshot decodes");
    assert!(loaded.get(id, 0).is_none(), "deleted segments must not appear in the snapshot");
    assert_eq!(loaded.len(), 0);
}

#[test]
fn snapshot_rejects_checksum_and_version_mutations() {
    let registry = test_registry_with(4);
    let bytes = encode_snapshot(&registry, EventWalPos { file_seq: 1, offset: 200 }).unwrap();

    let mut bad_crc = bytes.clone();
    let last = bad_crc.len() - 1;
    bad_crc[last] ^= 0xFF;
    assert!(decode_snapshot(&bad_crc).is_none(), "CRC mutation must be rejected");

    let mut bad_version = bytes.clone();
    bad_version[4] = 99;
    let crc = crc32fast::hash(&bad_version[..bad_version.len() - 4]);
    let crc_at = bad_version.len() - 4;
    bad_version[crc_at..].copy_from_slice(&crc.to_le_bytes());
    assert!(decode_snapshot(&bad_version).is_none(), "unknown version must be rejected");

    let mut bad_magic = bytes.clone();
    bad_magic[0] = b'X';
    assert!(decode_snapshot(&bad_magic).is_none(), "bad magic must be rejected");

    assert!(decode_snapshot(&bytes[..bytes.len() - 10]).is_none());
}

#[test]
fn snapshot_size_stays_linear_in_live_entries() {
    let registry = test_registry_with(100_000);
    let bytes = encode_snapshot(&registry, EventWalPos { file_seq: 0, offset: 0 }).unwrap();
    assert!(
        bytes.len() < 25 * 1024 * 1024,
        "100K entries must stay far under the TB-scale budget, got {} bytes",
        bytes.len()
    );
    assert!(bytes.len() > 5 * 1024 * 1024, "sanity: the snapshot carries real entries");
}

#[test]
fn write_load_truncate_cycle() {
    let mut log = Log::new(1024 * 1024);
    let mut checkpoint = EventCheckpoint::open(&vec![]).0;
    assert!(checkpoint.last_checkpoint_pos().is_none());

    let registry = test_registry_with(5);
    let up_to = EventWalPos { file_seq: 2, offset: 1234 };
    let write = checkpoint.write_checkpoint(&registry, up_to).unwrap();
    assert_eq!(write.info.covered_pos, up_to);
    assert_eq!(write.info.entries, registry.len());
    assert_eq!(write.info.bytes, write.bytes.len() as u64);
    assert_eq!(write.name, "checkpoint-00000002-1234");
    checkpoint.checkpoint_written(&write.info);
    assert_eq!(checkpoint.last_checkpoint_pos(), Some(up_to));

    let mut files = BTreeMap::new();
    files.insert(write.name, write.bytes);
    let (loaded, covered) = load(&files).unwrap().expect("checkpoint loads");
    assert_eq!(covered, up_to);
    assert_eq!(loaded.len(), registry.len());

    log.truncate_before(up_to);
    assert_eq!(checkpoint.last_checkpoint_pos(), Some(up_to));
}

#[test]
fn needs_checkpoint_trigger_arithmetic() {
    let mut log = Log::new(1024 * 1024);
    let config = config(128);
    let mut checkpoint = EventCheckpoint::open(&vec![]).0;

    assert!(!checkpoint.needs_checkpoint(&log.wal, &config));
    assert!(!checkpoint.needs_checkpoint(&log.wal, &config), "idle time must never trigger");

    for n in 0..4 {
        log.append(reserve_event(SegmentId::from_u128(n)));
    }
    assert!(
        checkpoint.needs_checkpoint(&log.wal, &config),
        "bytes past the threshold must trigger"
    );

    let registry = test_registry_with(1);
    let up_to = log.wal.latest_pos();
    let write = checkpoint.write_checkpoint(&registry, up_to).unwrap();
    checkpoint.checkpoint_written(&write.info);
    assert!(
        !checkpoint.needs_checkpoint(&log.wal, &config),
        "post-checkpoint trigger must reset"
    );
}

#[test]
fn load_cleans_orphan_tmp_and_falls_back_to_older_checkpoint() {
    let mut checkpoint = EventCheckpoint::open(&vec![]).0;
    let mut files: BTreeMap<String, Vec<u8>> = BTreeMap::new();
    files.insert("checkpoint-00000000-100.tmp".to_string(), b"partial".to_vec());

    let registry = test_registry_with(3);
    for pos in [
        EventWalPos { file_seq: 1, offset: 100 },
        EventWalPos { file_seq: 2, offset: 200 },
    ] {
        let write = checkpoint.write_checkpoint(&registry, pos).unwrap();
        checkpoint.checkpoint_written(&write.info);
        files.insert(write.name, write.bytes);
    }
    let raw = files.get_mut("checkpoint-00000002-200").unwrap();
    let last = raw.len() - 1;
    raw[last] ^= 0xFF;

    files.retain(|name, _| !is_orphan_tmp(name));
    let (loaded, covered) = load(&files).unwrap().expect("the older checkpoint loads");
    assert_eq!(
        covered,
        EventWalPos { file_seq: 1, offset: 100 },
        "falls back to the older snapshot"
    );
    assert_eq!(loaded.len(), registry.len());
    assert!(
        !files.contains_key("checkpoint-00000000-100.tmp"),
        "orphan .tmp must be cleaned at load"
    );
}

#[test]
fn truncate_before_deletes_covered_files_and_trims_exactly() {
    let mut log = Log::new(64);
    let id = SegmentId::from_u128(1);
    log.append(reserve_event(id));
    log.append(seal_event(id, 0xAB));
    let boundary = log.wal.latest_pos();
    assert_eq!(boundary, EventWalPos { file_seq: 1, offset: 80 });
    log.append(seal_event(id, 0xCD));

    let removed = log.truncate_before(boundary);
    assert!(removed > 0);
    assert_eq!(removed, 36 + 80);
    assert!(!log.files.contains_key(&0), "covered file deleted");
    assert!(!log.files.contains_key(&1), "fully-covered straddling file deleted");
    assert!(log.files.contains_key(&2), "uncovered file survives");

    let events = log.events(boundary);
    assert_eq!(events.len(), 1, "exactly the post-boundary record survives");
    assert_eq!(events[0].0, EventWalPos { file_seq: 2, offset: 0 });

    let p = log.append(delete_event(id));
    assert_eq!(p, EventWalPos { file_seq: 3, offset: 0 });
    assert_eq!(log.wal.bytes_since(boundary), 32, "only the post-boundary delete counts");
}

#[test]
fn truncate_before_never_cuts_events_at_or_after_pos() {
    let mut log = Log::new(64);
    let id = SegmentId::from_u128(1);
    log.append(reserve_event(id));
    log.append(seal_event(id, 0xAB));
    let boundary = log.wal.latest_pos();
    log.append(delete_event(id));
    log.append(seal_event(id, 0xEF));

    log.truncate_before(boundary);
    assert!(!log.files.contains_key(&0));
    assert!(!log.files.contains_key(&1), "the seal is fully covered");
    assert!(log.files.contains_key(&2), "file with uncovered events is kept");
    let events = log.events(boundary);
    assert_eq!(events.len(), 2, "the in-flight delete + the later seal survive");
    assert_eq!(events[0].0, EventWalPos { file_seq: 2, offset: 0 });

    log.truncate_before(EventWalPos { file_seq: 3, offset: 0 });
    assert!(!log.files.contains_key(&2), "a position past the delete removes its file");
    let events = log.events(boundary);
    assert_eq!(events.len(), 1, "the delete is lost");
    assert_eq!(events[0].0, EventWalPos { file_seq: 3, offset: 0 });
}

#[test]
fn checkpoint_names_and_positions_convert_both_ways() {
    let pos = EventWalPos { file_seq: 12, offset: 34_567 };
    assert_eq!(checkpoint_file_name(pos), "checkpoint-00000012-34567");
    assert_eq!(checkpoint_file_path("/d", pos), "/d/checkpoint-00000012-34567");
    assert_eq!(parse_checkpoint_name("checkpoint-00000012-34567"), Some(pos));
    assert_eq!(parse_checkpoint_name("checkpoint-00000012-34567.tmp"), None);
    assert_eq!(parse_checkpoint_name("checkpoint-"), None);
    assert!(is_orphan_tmp("checkpoint-00000012-34567.tmp"));
    assert!(!is_orphan_tmp("checkpoint-00000012-34567"));
}

#[test]
fn open_resumes_at_the_newest_checkpoint() {
    let names = vec![
        "checkpoint-00000001-900".to_string(),
        "checkpoint-00000002-100".to_string(),
        "evl_00000009.log".to_string(),
    ];
    assert_eq!(
        EventCheckpoint::open(&names).0.last_checkpoint_pos(),
        Some(EventWalPos { file_seq: 2, offset: 100 })
    );
}

#[test]
fn no_checkpoint_loads_nothing() {
    assert!(matches!(load(&BTreeMap::new()), Ok(None)));
    let unreadable =
        vec![CheckpointFile { pos: EventWalPos { file_seq: 0, offset: 1 }, raw: None }];
    assert!(matches!(EventCheckpoint::load_checkpoint(unreadable), Ok(None)));
}

#[test]
fn snapshot_under_another_name_is_skipped() {
    let registry = test_registry_with(2);
    let bytes = encode_snapshot(&registry, EventWalPos { file_seq: 1, offset: 2 }).unwrap();
    assert!(matches!(
        judge_checkpoint(EventWalPos { file_seq: 1, offset: 3 }, &bytes),
        Verdict::Skip
    ));
    assert!(matches!(
        judge_checkpoint(EventWalPos { file_seq: 1, offset: 2 }, &bytes),
        Verdict::Use(_)
    ));
}

#[test]
fn empty_snapshot_is_the_frame_alone() {
    let registry = test_registry_with(0);
    let bytes = encode_snapshot(&registry, EventWalPos { file_seq: 5, offset: 6 }).unwrap();
    assert_eq!(bytes.len(), CHECKPOINT_HEADER_SIZE + 4);
    assert_eq!(&bytes[..4], &CHECKPOINT_MAGIC);
    assert_eq!(bytes[4], 3);
    assert_eq!(&bytes[5..9], &5u32.to_le_bytes());
    assert_eq!(&bytes[9..17], &6u64.to_le_bytes());
    assert_eq!(&bytes[17..21], &0u32.to_le_bytes());
    assert_eq!(&bytes[21..], &crc32fast::hash(&bytes[..21]).to_le_bytes());
}

#[test]
fn metadata_survives_its_encoding() {
    let mut nodes = NodeList::new();
    nodes.push(NodeId::new("node-a"));
    nodes.push(NodeId::new("näh-b"));
    let meta = SegmentMetadata {
        pool_id: 9,
        storage_locations: nodes,
        total_bytes: 77,
        size_tier: SizeTier::Small,
        ..sealed(SegmentId::from_u128(0xABCD))
    };
    let bytes = encode_metadata(&meta).unwrap();
    assert_eq!(decode_metadata(&bytes), Some(meta));
    assert_eq!(decode_metadata(&bytes[..bytes.len() - 1]), None);
    assert_eq!(decode_metadata(&[]), None);
}

#[test]
fn metadata_encoding_is_the_bincode_form_of_its_fields() {
    let id = SegmentId::from_u128(0xABCD);
    let bytes = encode_metadata(&sealed(id)).unwrap();
    let fields = (
        id.as_bytes(),
        4u8,
        2u8,
        2u32,
        Some([0xABu8; 32]),
        Vec::<String>::new(),
        Some(1_700_000_000_000i64),
        0u32,
        0u64,
    );
    assert_eq!(bytes, bincode::serialize(&fields).unwrap());
}

#[test]
fn open_names_the_orphans_that_are_to_be_removed() {
    let names = vec![
        "evl_00000000.log".to_string(),
        "checkpoint-00000000-100.tmp".to_string(),
        "other.tmp".to_string(),
    ];
    let (checkpoint, orphans) = EventCheckpoint::open(&names);
    assert_eq!(checkpoint.last_checkpoint_pos(), None);
    assert_eq!(orphans, vec![1]);
}
