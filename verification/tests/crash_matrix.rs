use std::collections::BTreeMap;

use bytes::Bytes;
use oceanfs_segment::coordinator::{DurableWrite, PendingTransition, SegmentLifecycleCoordinator};
use oceanfs_segment::data_pass::{find_data_section, DatFate, DataWalPass, EntryFate};
use oceanfs_segment::error::{Error, TransitionError};
use oceanfs_segment::event_checkpoint::{
    is_orphan_tmp, parse_checkpoint_name, CheckpointFile, EventCheckpoint,
};
use oceanfs_segment::event_reader::EventFile;
use oceanfs_segment::event_record::{DeleteEvent, SealEvent, SegmentEvent};
use oceanfs_segment::event_wal::EventWal;
use oceanfs_segment::header::{SegmentHeader, SEGMENT_HEADER_SIZE};
use oceanfs_segment::lifecycle::{
    entry_is_garbage, LifecycleEntry, SegmentLifecycleRegistry, SegmentState,
};
use oceanfs_segment::node_list::NodeList;
use oceanfs_segment::pool::{PoolConfig, SealingWork, SegmentPool};
use oceanfs_segment::recovery::RebuildOutcome;
use oceanfs_segment::types::{
    DataWalPos, EventWalConfig, EventWalPos, HashOutput, LifecycleConfig, SegmentId,
    SegmentMetadata, SegmentSizeConfig, SizeTier,
};

const START: EventWalPos = EventWalPos { file_seq: 0, offset: 0 };

fn id(n: u128) -> SegmentId {
    SegmentId::from_u128(n)
}

fn root_fn(data: &[u8]) -> Option<HashOutput> {
    Some(HashOutput::from_bytes(*blake3::hash(data).as_bytes()))
}

/// What survives a crash.
#[derive(Clone, Default)]
struct Disk {
    events: BTreeMap<u32, Vec<u8>>,
    checkpoints: BTreeMap<String, Vec<u8>>,
    data_wal: Vec<(DataWalPos, SegmentId, Vec<u8>)>,
    dats: BTreeMap<SegmentId, Vec<u8>>,
    dat_writes: usize,
}

/// A node over its disk.
struct Harness {
    disk: Disk,
    wal: EventWal,
    checkpoint: Option<EventCheckpoint>,
    lifecycle: SegmentLifecycleCoordinator,
    pools: Vec<SegmentPool>,
    next_id: u128,
}

impl Harness {
    fn boot(disk: Disk) -> Harness {
        Harness::boot_with(disk, None)
    }

    fn boot_ckpt(disk: Disk, threshold: u64) -> Harness {
        Harness::boot_with(disk, Some(threshold))
    }

    fn boot_with(mut disk: Disk, threshold: Option<u64>) -> Harness {
        let config = EventWalConfig {
            event_wal_file_size_bytes: 1024 * 1024,
            event_wal_fsync_batch_timeout_ms: 10,
            event_wal_checkpoint_bytes: threshold.unwrap_or(1024 * 1024),
        };
        let listing = disk.events.iter().map(|(seq, data)| (*seq, data.len() as u64)).collect();
        let tail = disk.events.values().next_back().cloned().unwrap_or_default();
        let wal = EventWal::open(listing, &tail, config);
        let end = wal.latest_pos();
        disk.events.entry(end.file_seq).or_default().truncate(end.offset as usize);

        let names = disk.checkpoints.keys().cloned().collect();
        let checkpoint = threshold.map(|_| EventCheckpoint::open(&names).0);
        let sizes =
            SegmentSizeConfig { small_target_size: 65_536, default_target_size: 4 * 1024 * 1024 };
        let pool_config = PoolConfig { active_pool_size: 4, ec_streaming_encode: false };
        let mut next_id = 1_000_000u128;
        let mut pools = Vec::new();
        for tier in [SizeTier::Small, SizeTier::Standard] {
            let ids = (0..4).map(|n| id(next_id + n)).collect();
            next_id += 4;
            pools.push(SegmentPool::new(pool_config, tier, &sizes, None, &ids, 0).unwrap());
        }
        let mut lifecycle = SegmentLifecycleCoordinator::new(&LifecycleConfig::default())
            .with_event_wal()
            .with_idle_seal(vec![SizeTier::Small, SizeTier::Standard], 1_000);
        if threshold.is_some() {
            lifecycle = lifecycle.with_checkpoint(config);
        }
        Harness { disk, wal, checkpoint, lifecycle, pools, next_id }
    }

    fn crash(self) -> Disk {
        self.disk
    }

    fn fresh(&mut self) -> SegmentId {
        self.next_id += 1;
        id(self.next_id)
    }

    fn append_event(&mut self, event: &SegmentEvent) {
        let (pos, record) = self.wal.append(event);
        self.disk.events.entry(pos.file_seq).or_default().extend_from_slice(&record);
        let Some(checkpoint) = self.checkpoint.as_mut() else { return };
        if let Some(up_to) = self.lifecycle.maybe_checkpoint(checkpoint, &self.wal, Some(pos)) {
            self.write_checkpoint(up_to);
            self.truncate_before(up_to);
            self.lifecycle.checkpoint_finished();
        }
    }

    fn write_checkpoint(&mut self, up_to: EventWalPos) {
        let checkpoint = self.checkpoint.as_mut().unwrap();
        let write = checkpoint.write_checkpoint(self.lifecycle.registry(), up_to).unwrap();
        checkpoint.checkpoint_written(&write.info);
        self.disk.checkpoints.insert(write.name, write.bytes);
    }

    fn truncate_before(&mut self, up_to: EventWalPos) {
        let listing = self.disk.events.iter().map(|(seq, d)| (*seq, d.len() as u64)).collect();
        for seq in self.wal.truncate_before(&listing, up_to).files {
            self.disk.events.remove(&seq);
        }
    }

    fn load_checkpoint(&mut self) -> Option<(SegmentLifecycleRegistry, EventWalPos)> {
        self.disk.checkpoints.retain(|name, _| !is_orphan_tmp(name));
        let mut files = Vec::new();
        for (name, raw) in &self.disk.checkpoints {
            if let Some(pos) = parse_checkpoint_name(name) {
                files.push(CheckpointFile { pos, raw: Some(raw.clone()) });
            }
        }
        EventCheckpoint::load_checkpoint(files).unwrap()
    }

    fn run(
        &mut self,
        pending: Result<PendingTransition, TransitionError>,
    ) -> Result<(), TransitionError> {
        let pending = pending?;
        match &pending.write {
            DurableWrite::Append(event) => self.append_event(event),
            other => panic!("an event is appended, not {other:?}"),
        }
        self.lifecycle.complete(pending, Ok(()), 0).0
    }

    fn reserve(&mut self, id: SegmentId) {
        let pending = self.lifecycle.request_reserve(id, SizeTier::Small, 4, 2, 0);
        self.run(pending).unwrap();
    }

    fn append(&mut self, id: SegmentId, data: &[u8]) -> DataWalPos {
        let offset = self.disk.data_wal.iter().map(|(_, _, d)| 88 + d.len() as u64).sum();
        let pos = DataWalPos { file_seq: 0, offset };
        self.disk.data_wal.push((pos, id, data.to_vec()));
        self.lifecycle.record_data_wal_pos(id, pos);
        pos
    }

    fn seal(&mut self, id: SegmentId, data: &[u8]) {
        let meta = SegmentMetadata {
            pool_id: 0,
            total_bytes: 0,
            segment_id: id,
            ec_k: 4,
            ec_m: 2,
            size_tier: SizeTier::Small,
            merkle_root: root_fn(data),
            storage_locations: NodeList::new(),
            sealed_at: Some(1_700_000_000_000),
        };
        let pending = self.lifecycle.request_seal(id, meta, None, 0);
        self.run(pending).unwrap();
    }

    fn delete(&mut self, id: SegmentId) {
        let pending = self.lifecycle.request_delete(id, 0);
        self.run(pending).unwrap();
    }

    fn entry(&self, id: SegmentId) -> LifecycleEntry {
        self.lifecycle.registry().get(id, 0).expect("registry entry present")
    }

    fn read_events(&self, start: EventWalPos) -> Vec<Result<(EventWalPos, SegmentEvent), Error>> {
        let files = self
            .disk
            .events
            .iter()
            .map(|(seq, data)| EventFile { seq: *seq, data: data.clone() })
            .collect();
        let mut reader = self.wal.read_from(files, start);
        let mut items = Vec::new();
        while let Some(item) = reader.next() {
            items.push(item);
        }
        items
    }

    /// The seal worker: the file first, then the seal.
    fn seal_work(&mut self, work: SealingWork) {
        self.disk.dats.insert(work.segment_id, dat_file(work.segment_id, &work.segment_data));
        self.disk.dat_writes += 1;
        self.seal(work.segment_id, &work.segment_data);
    }

    fn recover(&mut self) -> RebuildOutcome {
        self.recover_from(START).unwrap()
    }

    fn recover_from(&mut self, start: EventWalPos) -> Result<RebuildOutcome, Error> {
        let items = self.read_events(start);
        let folded = self.lifecycle.rebuild_from_events(items, 0)?;
        let mut pass = DataWalPass::new(self.lifecycle.registry());
        for id in pass.reserved() {
            if let Some(raw) = self.disk.dats.get(&id) {
                if pass.probe_dat(id, raw) == DatFate::Remove {
                    self.disk.dats.remove(&id);
                }
            }
        }
        for (pos, id, data) in &self.disk.data_wal {
            pass.step(*pos, *id, Bytes::from(data.clone()));
        }
        pass.record_positions(&mut self.lifecycle.registry);
        let mut adopted = 0;
        for id in pass.reserved() {
            if !pass.is_adopted(id) {
                continue;
            }
            let raw = self.disk.dats[&id].clone();
            let (from, to) = find_data_section(&raw).unwrap();
            let root = root_fn(&raw[from..to]);
            if let Some(meta) = self.lifecycle.adopt_metadata(id, root, 1_700_000_000_000, 0) {
                let pending = self.lifecycle.request_seal(id, meta, None, 0);
                self.run(pending).unwrap();
                adopted += 1;
            }
        }
        let outcome = self.lifecycle.finish_recovery(&pass, folded, adopted);
        for group in pass.take_groups() {
            let at = self.lifecycle.drain_replay_group(&group)?;
            let mut works = Vec::new();
            for chunk in &group.chunks {
                let ids = (self.fresh(), self.fresh());
                works.extend(self.pools[at].append_replayed(group.segment_id, chunk, ids, 0)?);
            }
            let fresh = self.fresh();
            works.extend(self.pools[at].seal_replayed_partial(group.segment_id, fresh, 0));
            for work in works {
                self.seal_work(work);
            }
        }
        self.disk.data_wal.clear();
        Ok(outcome)
    }
}

fn dat_file(id: SegmentId, data: &[u8]) -> Vec<u8> {
    let header = SegmentHeader::new(
        id,
        data.len() as u64,
        0,
        SEGMENT_HEADER_SIZE as u64 + data.len() as u64,
        *blake3::hash(data).as_bytes(),
    );
    let mut raw = header.to_bytes();
    raw.extend_from_slice(data);
    raw
}

#[test]
fn row1_kill_before_first_data_entry_drops_empty_reserve() {
    let mut h = Harness::boot(Disk::default());
    h.reserve(id(1));
    let mut h = Harness::boot(h.crash());
    let outcome = h.recover();
    assert_eq!(outcome.folded_segments, 1);
    assert_eq!(outcome.dropped_empty_reserves, 1);
    assert_eq!(outcome.re_sealed_segments, 0);
    assert_eq!(outcome.adopted_segments, 0);
    assert_eq!(outcome.swept_entries, 0);
    assert!(
        h.lifecycle.registry().get(id(1), 0).is_none(),
        "an empty reserve must be dropped (idle-seal never seals empty)"
    );
    assert!(!h.disk.dats.contains_key(&id(1)), "no .dat for an empty reserve");
}

#[test]
fn row2_kill_before_dat_fsync_replays_entries_and_reseals() {
    let mut h = Harness::boot(Disk::default());
    h.reserve(id(1));
    h.append(id(1), b"aaaa");
    let last_pos = h.append(id(1), b"bbbb");
    let data = b"aaaabbbb".to_vec();
    let mut h = Harness::boot(h.crash());
    let outcome = h.recover();
    assert_eq!(outcome.folded_segments, 1);
    assert_eq!(outcome.re_sealed_segments, 1);
    assert_eq!(outcome.adopted_segments, 0);
    assert_eq!(outcome.dropped_empty_reserves, 0);

    let entry = h.entry(id(1));
    assert_eq!(entry.state, SegmentState::Sealed, "re-sealed after replay");
    assert_eq!(
        entry.data_wal_pos,
        Some(last_pos),
        "the SealEvent must carry the LAST data entry's position"
    );
    assert_eq!(entry.metadata.merkle_root, root_fn(&data), "re-seal root matches the worker's");
    assert_eq!(
        h.disk.dats.get(&id(1)),
        Some(&dat_file(id(1), &data)),
        "the replayed segment's .dat must be durable"
    );
}

#[test]
fn row3_kill_after_dat_fsync_before_seal_event_adopts() {
    let data = b"interrupted-seal-data".to_vec();
    let mut h = Harness::boot(Disk::default());
    h.reserve(id(1));
    let last_pos = h.append(id(1), &data);
    h.disk.dats.insert(id(1), dat_file(id(1), &data));
    let mut h = Harness::boot(h.crash());
    let outcome = h.recover();
    assert_eq!(outcome.folded_segments, 1);
    assert_eq!(outcome.adopted_segments, 1);
    assert_eq!(outcome.re_sealed_segments, 0, "adopt must not re-seal");
    assert_eq!(
        outcome.swept_entries, 1,
        "the adopted segment's WAL entry is garbage after adoption"
    );
    let entry = h.entry(id(1));
    assert_eq!(entry.state, SegmentState::Sealed);
    assert_eq!(entry.metadata.merkle_root, root_fn(&data));
    assert_eq!(
        entry.data_wal_pos,
        Some(last_pos),
        "the adopted SealEvent carries the last data entry's position"
    );
    assert_eq!(h.disk.dat_writes, 0, "adopt must not rewrite the .dat");
}

#[test]
fn row4_kill_after_seal_event_leaves_sealed_and_sweeps_entries() {
    let mut h = Harness::boot(Disk::default());
    h.reserve(id(1));
    h.append(id(1), b"sealed-data");
    h.seal(id(1), b"sealed-data");
    let mut h = Harness::boot(h.crash());
    let outcome = h.recover();
    assert_eq!(outcome.folded_segments, 1);
    assert_eq!(outcome.re_sealed_segments, 0);
    assert_eq!(outcome.adopted_segments, 0);
    assert_eq!(outcome.swept_entries, 1, "the sealed segment's entry is swept, not replayed");
    assert_eq!(h.entry(id(1)).state, SegmentState::Sealed);

    let entry = h.entry(id(1));
    let pos = entry.data_wal_pos.expect("sealed entry records its last data position");
    assert!(entry_is_garbage(&entry, &pos), "entry at data_wal_pos is garbage after seal");
    assert!(
        !entry_is_garbage(&entry, &DataWalPos { file_seq: pos.file_seq, offset: pos.offset + 1 }),
        "an entry BEYOND data_wal_pos is live"
    );
}

#[test]
fn row5_kill_after_delete_event_before_unlink_folds_deleted() {
    let mut h = Harness::boot(Disk::default());
    h.reserve(id(1));
    h.append(id(1), b"to-be-deleted");
    h.seal(id(1), b"to-be-deleted");
    h.disk.dats.insert(id(1), dat_file(id(1), b"to-be-deleted"));
    h.delete(id(1));
    let mut h = Harness::boot(h.crash());
    let outcome = h.recover();
    assert_eq!(outcome.folded_segments, 1);
    assert_eq!(outcome.swept_entries, 1, "the deleted segment's entry is garbage");
    assert!(
        h.lifecycle.registry().get(id(1), 0).is_none(),
        "delete with grace 0 evicts the entry (Deleted state folded)"
    );
    assert!(
        h.disk.dats.contains_key(&id(1)),
        "the .dat orphan survives for the reaper (unlink happens AFTER the delete)"
    );
}

#[test]
fn row6_unlink_before_delete_is_unrepresentable() {
    let mut h = Harness::boot(Disk::default());
    h.reserve(id(1));
    h.append(id(1), b"row6");
    h.seal(id(1), b"row6");
    let mut h = Harness::boot(h.crash());
    h.disk.dats.remove(&id(1));
    let outcome = h.recover();
    assert_eq!(outcome.folded_segments, 1);
    assert_eq!(h.entry(id(1)).state, SegmentState::Sealed, "the fold cannot know about files");
    let err =
        h.lifecycle.request_delete(id(9), 0).expect_err("delete of an unknown id must fail");
    assert!(matches!(err, TransitionError::Missing));
}

#[test]
fn data_entry_without_reserve_is_swept_never_replayed() {
    let mut h = Harness::boot(Disk::default());
    h.append(id(1), b"orphan");
    let mut h = Harness::boot(h.crash());
    let outcome = h.recover();
    assert_eq!(outcome.folded_segments, 0, "no ReserveEvent → nothing folded");
    assert_eq!(outcome.swept_entries, 1, "the orphan entry is swept, never replayed");
    assert!(h.lifecycle.registry().get(id(1), 0).is_none());
    assert!(!h.disk.dats.contains_key(&id(1)), "no .dat for an orphan");
}

#[test]
fn checkpoint_idle_log_produces_zero_checkpoints_and_burst_exactly_one() {
    let mut h = Harness::boot_ckpt(Disk::default(), 1024);
    h.reserve(id(1));
    h.append(id(1), b"idle");
    h.seal(id(1), b"idle");
    assert_eq!(h.disk.checkpoints.len(), 0, "idle log must produce zero checkpoints");
    assert!(
        h.checkpoint.as_ref().unwrap().last_checkpoint_pos().is_none(),
        "no checkpoint may exist"
    );

    let mut h = Harness::boot_ckpt(Disk::default(), 64);
    h.reserve(id(1));
    h.append(id(1), b"burst");
    h.seal(id(1), b"burst");
    assert_eq!(h.disk.checkpoints.len(), 1, "a burst must produce exactly one checkpoint");
}

#[test]
fn checkpoint_running_blocks_another() {
    let mut h = Harness::boot_ckpt(Disk::default(), 64);
    let checkpoint = h.checkpoint.take().unwrap();
    for n in 1..=3 {
        h.reserve(id(n));
    }
    let tail = h.wal.latest_pos();
    assert_eq!(h.lifecycle.maybe_checkpoint(&checkpoint, &h.wal, None), Some(tail));
    assert_eq!(h.lifecycle.maybe_checkpoint(&checkpoint, &h.wal, None), None);
    h.lifecycle.checkpoint_finished();
    assert_eq!(h.lifecycle.maybe_checkpoint(&checkpoint, &h.wal, Some(START)), Some(START));
}

#[test]
fn checkpoint_full_cycle_threshold_trigger_and_restart() {
    let sealed_id = id(1);
    let reserved_id = id(2);
    let mut h = Harness::boot_ckpt(Disk::default(), 128);
    h.reserve(sealed_id);
    let last_pos = h.append(sealed_id, b"checkpoint-sealed");
    h.seal(sealed_id, b"checkpoint-sealed");
    h.reserve(reserved_id);
    assert!(h.checkpoint.as_ref().unwrap().last_checkpoint_pos().is_some());
    assert_eq!(h.disk.checkpoints.len(), 1);
    let sealed_root = root_fn(b"checkpoint-sealed");

    let mut h = Harness::boot_ckpt(h.crash(), 128);
    let (snapshot, covered) = h.load_checkpoint().expect("checkpoint loads");
    h.lifecycle.seed_from_checkpoint(&snapshot, 0);
    let outcome = h.recover_from(covered).unwrap();

    let entry = h.entry(sealed_id);
    assert_eq!(entry.state, SegmentState::Sealed);
    assert_eq!(entry.metadata.merkle_root, sealed_root);
    assert_eq!(entry.data_wal_pos, Some(last_pos), "data_wal_pos survives checkpointing");
    assert!(h.lifecycle.registry().get(reserved_id, 0).is_none(), "empty reserve dropped");
    assert_eq!(
        outcome.folded_segments, 1,
        "the post-covered reserve re-folds idempotently (the checkpoint covers folded events only)"
    );
    assert_eq!(outcome.swept_entries, 1, "the sealed segment's entry is swept post-checkpoint");
    assert!(h.wal.bytes_since(covered) <= 128, "replay bound holds after restart");
}

#[test]
fn checkpoint_replay_bound_is_independent_of_total_volume() {
    let mut h = Harness::boot_ckpt(Disk::default(), 1024);
    let mut ids = Vec::new();
    for i in 0..10u64 {
        let segment = id(1 + i as u128);
        h.reserve(segment);
        h.append(segment, format!("volume-{i}").as_bytes());
        h.seal(segment, format!("volume-{i}").as_bytes());
        ids.push(segment);
    }
    assert!(!h.disk.checkpoints.is_empty());
    let covered = h.wal.latest_pos();
    h.write_checkpoint(covered);
    h.truncate_before(covered);

    let mut h = Harness::boot_ckpt(h.crash(), 1024);
    let (snapshot, loaded_covered) = h.load_checkpoint().expect("checkpoint loads");
    assert_eq!(loaded_covered, covered);
    h.lifecycle.seed_from_checkpoint(&snapshot, 0);
    let outcome = h.recover_from(loaded_covered).unwrap();
    assert!(
        h.wal.bytes_since(loaded_covered) <= 1024,
        "startup fold is bounded by the threshold, not by lifetime volume"
    );
    for segment in &ids {
        assert_eq!(h.entry(*segment).state, SegmentState::Sealed);
    }
    assert_eq!(outcome.folded_segments, 0);
}

#[test]
fn checkpoint_atomicity_crash_during_temp_write_recovers_from_old_checkpoint() {
    let mut h = Harness::boot_ckpt(Disk::default(), 1024);
    h.reserve(id(1));
    h.append(id(1), b"atomic-1");
    h.seal(id(1), b"atomic-1");
    let covered = h.wal.latest_pos();
    h.write_checkpoint(covered);
    h.truncate_before(covered);
    let mut disk = h.crash();
    disk.checkpoints.insert("checkpoint-00000000-999.tmp".to_string(), b"partial".to_vec());

    let mut h = Harness::boot_ckpt(disk, 1024);
    let (snapshot, covered) = h.load_checkpoint().expect("old checkpoint loads");
    h.lifecycle.seed_from_checkpoint(&snapshot, 0);
    h.recover_from(covered).unwrap();
    assert!(
        !h.disk.checkpoints.contains_key("checkpoint-00000000-999.tmp"),
        "orphan .tmp cleaned at load"
    );
    let entry = h.entry(id(1));
    assert_eq!(entry.state, SegmentState::Sealed);
    assert_eq!(entry.metadata.merkle_root, root_fn(b"atomic-1"));
}

#[test]
fn checkpoint_atomicity_crash_after_rename_before_truncate_folds_from_covered() {
    let mut h = Harness::boot_ckpt(Disk::default(), 1024);
    h.reserve(id(1));
    h.append(id(1), b"atomic-2");
    h.seal(id(1), b"atomic-2");
    let covered = h.wal.latest_pos();
    h.write_checkpoint(covered);

    let mut h = Harness::boot_ckpt(h.crash(), 1024);
    let (snapshot, loaded_covered) = h.load_checkpoint().expect("new checkpoint loads");
    assert_eq!(loaded_covered, covered);
    h.lifecycle.seed_from_checkpoint(&snapshot, 0);
    let outcome = h.recover_from(loaded_covered).unwrap();
    assert_eq!(outcome.folded_segments, 0);
    let entry = h.entry(id(1));
    assert_eq!(entry.state, SegmentState::Sealed);
    assert_eq!(entry.metadata.merkle_root, root_fn(b"atomic-2"));
}

#[test]
fn truncated_dat_falls_back_to_wal_replay() {
    let data = b"truncated-dat-fallback".to_vec();
    let mut h = Harness::boot(Disk::default());
    h.reserve(id(1));
    h.append(id(1), &data);
    let mut raw = dat_file(id(1), &data);
    raw.truncate(SEGMENT_HEADER_SIZE + 5);
    h.disk.dats.insert(id(1), raw);
    let mut h = Harness::boot(h.crash());
    let outcome = h.recover();
    assert_eq!(outcome.adopted_segments, 0, "a truncated .dat must not be adopted");
    assert_eq!(outcome.re_sealed_segments, 1, "the segment is rebuilt from the WAL instead");
    let entry = h.entry(id(1));
    assert_eq!(entry.state, SegmentState::Sealed);
    assert_eq!(entry.metadata.merkle_root, root_fn(&data));
}

#[test]
fn torn_tail_truncates_the_fold_at_the_last_good_record() {
    let mut h = Harness::boot(Disk::default());
    h.reserve(id(1));
    let mut h = Harness::boot(h.crash());
    h.append_event(&SegmentEvent::Delete(DeleteEvent { segment_id: id(1) }));
    h.disk.events.get_mut(&0).unwrap().truncate(36 + 10);
    let outcome = h.recover();
    assert_eq!(outcome.folded_segments, 1);
    assert_eq!(outcome.dropped_empty_reserves, 1, "the folded reserve is dropped (empty)");
    assert!(h.lifecycle.registry().get(id(1), 0).is_none());
}

#[test]
fn fold_is_deterministic_and_reproduces_the_mirror() {
    let mut h = Harness::boot(Disk::default());
    h.reserve(id(1));
    h.append(id(1), b"det");
    h.seal(id(1), b"det");
    let mut h = Harness::boot(h.crash());
    h.recover();
    let a = h.entry(id(1));
    let mut h2 = Harness::boot(h.crash());
    h2.recover();
    let b = h2.entry(id(1));
    assert_eq!(a.state, b.state);
    assert_eq!(a.metadata.segment_id, b.metadata.segment_id);
    assert_eq!(a.metadata.merkle_root, b.metadata.merkle_root);
    assert_eq!(a.data_wal_pos, b.data_wal_pos);
    let check = h2.lifecycle.verify_and_repair_mirror(&vec![b.metadata], 0);
    assert!(check.fault.is_none() && check.repairs.is_empty());
}

#[test]
fn mid_log_corruption_aborts_the_fold_with_the_position() {
    let mut h = Harness::boot(Disk::default());
    h.reserve(id(1));
    h.append_event(&seal_event(id(1), SizeTier::Small, 0xAB));
    h.append_event(&SegmentEvent::Delete(DeleteEvent { segment_id: id(1) }));
    let mut disk = h.crash();
    disk.events.get_mut(&0).unwrap()[36 + 30] = 0xFF;
    let mut h = Harness::boot(disk);
    match h.recover_from(START).expect_err("mid-log corruption must abort") {
        Error::CorruptEventLog { pos, .. } => {
            assert_eq!(pos.offset, 36, "abort must carry the corrupt record's position")
        }
        other => panic!("expected CorruptEventLog, got {other:?}"),
    }
}

fn seal_event(id: SegmentId, tier: SizeTier, root: u8) -> SegmentEvent {
    SegmentEvent::Seal(SealEvent {
        pool_id: 0,
        segment_id: id,
        tier,
        ec_k: 4,
        ec_m: 2,
        merkle_root: HashOutput::from_bytes([root; 32]),
        data_wal_pos: DataWalPos { file_seq: 0, offset: 0 },
        repacked_from: None,
    })
}

fn reserved_meta(id: SegmentId) -> SegmentMetadata {
    SegmentMetadata::reserved(id, SizeTier::Small, 4, 2)
}

fn sealed_meta(id: SegmentId) -> SegmentMetadata {
    SegmentMetadata {
        merkle_root: Some(HashOutput::from_bytes([0xAB; 32])),
        sealed_at: Some(1_700_000_000_000),
        ..reserved_meta(id)
    }
}

#[test]
fn entry_is_garbage_position_boundary() {
    let mut registry = SegmentLifecycleRegistry::new(&LifecycleConfig::default());
    registry.reserve(id(1), reserved_meta(id(1)), 0).unwrap();
    let entry = registry.get(id(1), 0).unwrap();
    let pos = DataWalPos { file_seq: 1, offset: 100 };
    assert!(!entry_is_garbage(&entry, &pos), "Reserved is always live");
}

#[test]
fn entry_is_garbage_sealed_position_rule_and_mutation_checks() {
    let mut registry = SegmentLifecycleRegistry::new(&LifecycleConfig::default());
    registry
        .seal(id(1), sealed_meta(id(1)), 0)
        .expect_err("seal of an absent id is rejected — the fold's corruption path");
    registry.reserve(id(1), reserved_meta(id(1)), 0).unwrap();
    registry.record_data_wal_pos(id(1), DataWalPos { file_seq: 2, offset: 500 });
    registry.seal(id(1), sealed_meta(id(1)), 0).unwrap();
    let entry = registry.get(id(1), 0).unwrap();

    assert!(
        entry_is_garbage(&entry, &DataWalPos { file_seq: 2, offset: 500 }),
        "p == data_wal_pos"
    );
    assert!(entry_is_garbage(&entry, &DataWalPos { file_seq: 2, offset: 100 }), "p < data_wal_pos");
    assert!(
        !entry_is_garbage(&entry, &DataWalPos { file_seq: 2, offset: 501 }),
        "p > data_wal_pos"
    );

    let mut too_small = registry.get(id(1), 0).unwrap();
    too_small.data_wal_pos = Some(DataWalPos { file_seq: 2, offset: 499 });
    assert!(
        !entry_is_garbage(&too_small, &DataWalPos { file_seq: 2, offset: 500 }),
        "off-by-one-too-small protects a swept entry (the leak direction)"
    );
    let mut too_large = registry.get(id(1), 0).unwrap();
    too_large.data_wal_pos = Some(DataWalPos { file_seq: 2, offset: 501 });
    assert!(
        entry_is_garbage(&too_large, &DataWalPos { file_seq: 2, offset: 501 }),
        "off-by-one-too-large sweeps an entry that must stay live"
    );
}

#[test]
fn entry_is_garbage_deleted_is_always_garbage() {
    let mut registry = SegmentLifecycleRegistry::new(&LifecycleConfig::default());
    registry.reserve(id(1), reserved_meta(id(1)), 0).unwrap();
    registry.delete(id(1), 0).unwrap();
    let mut grace = SegmentLifecycleRegistry::new(&LifecycleConfig {
        lifecycle_registry_shards: 8,
        delete_grace_ms: 1000,
    });
    grace.reserve(id(1), reserved_meta(id(1)), 0).unwrap();
    grace.delete(id(1), 0).unwrap();
    let entry = grace.get(id(1), 0).unwrap();
    assert_eq!(entry.state, SegmentState::Deleted);
    assert!(
        entry_is_garbage(&entry, &DataWalPos { file_seq: 0, offset: 0 }),
        "Deleted entries are always garbage"
    );
}

#[test]
fn rebuild_is_deterministic_across_copied_data_dirs() {
    let mut h = Harness::boot(Disk::default());
    h.reserve(id(1));
    h.append(id(1), b"deterministic");
    h.seal(id(1), b"deterministic");
    h.reserve(id(2));
    h.append(id(2), b"residue");
    let disk = h.crash();

    let mut h1 = Harness::boot(disk.clone());
    let mut h2 = Harness::boot(disk);
    let o1 = h1.recover();
    let o2 = h2.recover();
    assert_eq!(o1.folded_segments, o2.folded_segments, "folded must match");
    assert_eq!(o1.dropped_empty_reserves, o2.dropped_empty_reserves);
    assert_eq!(o1.re_sealed_segments, o2.re_sealed_segments);
    assert_eq!(o1.adopted_segments, o2.adopted_segments);
    assert_eq!(o1.swept_entries, o2.swept_entries);
    for (sid, label) in [(id(1), "sealed"), (id(2), "residue")] {
        let e1 = h1.entry(sid);
        let e2 = h2.entry(sid);
        assert_eq!(e1.state, e2.state, "{label} state must match");
        assert_eq!(e1.data_wal_pos, e2.data_wal_pos, "{label} position must match");
        assert_eq!(e1.metadata.merkle_root, e2.metadata.merkle_root, "{label} root must match");
    }
}

#[test]
fn duplicate_delete_event_folds_as_noop() {
    let mut h = Harness::boot(Disk::default());
    h.reserve(id(1));
    h.append(id(1), b"double-delete");
    h.seal(id(1), b"double-delete");
    h.delete(id(1));
    h.append_event(&SegmentEvent::Delete(DeleteEvent { segment_id: id(1) }));
    let mut h = Harness::boot(h.crash());
    let outcome = h.recover();
    assert_eq!(outcome.folded_segments, 1, "the reserve+seal+2 deletes fold");
    assert!(
        h.lifecycle.registry().get(id(1), 0).is_none(),
        "the segment stays deleted + evicted"
    );
}

#[test]
fn seal_after_delete_folds_as_noop() {
    let mut h = Harness::boot(Disk::default());
    h.reserve(id(1));
    h.delete(id(1));
    h.append_event(&seal_event(id(1), SizeTier::Standard, 0xAA));
    let mut h = Harness::boot(h.crash());
    let outcome = h.recover();
    assert_eq!(outcome.folded_segments, 1, "the reserve+delete+seal folds");
    assert!(
        h.lifecycle.registry().get(id(1), 0).is_none(),
        "the segment stays deleted + evicted"
    );
}

#[test]
fn illegal_event_aborts_with_its_position() {
    let mut h = Harness::boot(Disk::default());
    h.reserve(id(1));
    h.append_event(&seal_event(id(2), SizeTier::Small, 1));
    let mut h = Harness::boot(h.crash());
    assert_eq!(
        h.recover_from(START).unwrap_err(),
        Error::EventFoldError {
            pos: EventWalPos { file_seq: 0, offset: 36 },
            segment_id: id(2),
            cause: TransitionError::Missing,
        }
    );
}

#[test]
fn replay_without_a_pool_of_the_tier_fails() {
    let mut h = Harness::boot(Disk::default());
    let pending = h.lifecycle.request_reserve(id(1), SizeTier::Multi, 4, 2, 0);
    h.run(pending).unwrap();
    h.append(id(1), b"data");
    let mut h = Harness::boot(h.crash());
    assert_eq!(
        h.recover_from(START).unwrap_err(),
        Error::NoPoolForTier { segment_id: id(1), tier: SizeTier::Multi }
    );
}

#[test]
fn entries_are_replayed_or_swept() {
    let mut registry = SegmentLifecycleRegistry::new(&LifecycleConfig::default());
    registry.reserve(id(1), reserved_meta(id(1)), 0).unwrap();
    let mut pass = DataWalPass::new(&registry);
    let at = |offset| DataWalPos { file_seq: 0, offset };
    assert_eq!(pass.step(at(0), id(1), Bytes::from_static(b"a")), EntryFate::Replayed);
    assert_eq!(pass.step(at(1), id(2), Bytes::from_static(b"b")), EntryFate::Swept);
    assert_eq!(pass.step(at(2), id(1), Bytes::from_static(b"c")), EntryFate::Replayed);
    assert_eq!(pass.swept_entries(), 1);
    assert_eq!(pass.replayed_count(), 1);
    pass.record_positions(&mut registry);
    assert_eq!(registry.last_data_wal_pos(id(1)), Some(at(2)));
    let groups = pass.take_groups();
    assert_eq!(groups.len(), 1);
    assert_eq!(groups[0].tier, SizeTier::Small);
    assert_eq!(groups[0].chunks.concat(), b"ac");
}

#[test]
fn a_late_event_of_a_segment_that_a_checkpoint_forgot_aborts_the_fold() {
    let mut h = Harness::boot_ckpt(Disk::default(), 1024);
    h.reserve(id(1));
    h.append(id(1), b"gone");
    h.seal(id(1), b"gone");
    h.delete(id(1));
    h.reserve(id(2));
    h.append(id(2), b"kept");
    h.seal(id(2), b"kept");
    let covered = h.wal.latest_pos();
    h.write_checkpoint(covered);
    h.truncate_before(covered);
    h.append_event(&SegmentEvent::Delete(DeleteEvent { segment_id: id(1) }));

    let mut h = Harness::boot_ckpt(h.crash(), 1024);
    let (snapshot, covered) = h.load_checkpoint().expect("checkpoint loads");
    h.lifecycle.seed_from_checkpoint(&snapshot, 0);
    match h.recover_from(covered).expect_err("the snapshot does not know the segment") {
        Error::EventFoldError { pos, segment_id, cause } => {
            assert_eq!((pos, segment_id), (covered, id(1)));
            assert_eq!(cause, TransitionError::Missing);
        }
        other => panic!("expected EventFoldError, got {other:?}"),
    }
    assert_eq!(h.entry(id(2)).state, SegmentState::Sealed);
}

#[test]
fn without_a_checkpoint_an_unknown_segment_aborts_the_fold() {
    let mut h = Harness::boot(Disk::default());
    h.append_event(&SegmentEvent::Delete(DeleteEvent { segment_id: id(1) }));
    let mut h = Harness::boot(h.crash());
    assert!(matches!(h.recover_from(START), Err(Error::EventFoldError { .. })));
}
