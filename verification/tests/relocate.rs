use std::collections::BTreeMap;

use oceanfs_segment::coordinator::{DurableWrite, PendingTransition, SegmentLifecycleCoordinator};
use oceanfs_segment::data_store::{locate_for_read, PoolRole, StoragePool};
use oceanfs_segment::error::TransitionError;
use oceanfs_segment::event_reader::EventFile;
use oceanfs_segment::event_wal::EventWal;
use oceanfs_segment::lifecycle::SegmentState;
use oceanfs_segment::node_list::{NodeId, NodeList};
use oceanfs_segment::relocate::{is_startup_residue, RelocateError, SegmentRelocator};
use oceanfs_segment::types::{
    EventWalConfig, EventWalPos, HashOutput, LifecycleConfig, SegmentId, SegmentMetadata, SizeTier,
};

fn id(n: u128) -> SegmentId {
    SegmentId::from_u128(n)
}

/// A node with two data pools, over what is on its disks.
struct Env {
    lifecycle: SegmentLifecycleCoordinator,
    wal: EventWal,
    log: Vec<u8>,
    pools: Vec<StoragePool>,
    /// The data files, by pool and segment.
    dats: BTreeMap<(u32, SegmentId), Vec<u8>>,
    purged: Vec<SegmentId>,
}

impl Env {
    fn new() -> Env {
        Env::over(Vec::new(), BTreeMap::new())
    }

    fn over(log: Vec<u8>, dats: BTreeMap<(u32, SegmentId), Vec<u8>>) -> Env {
        let config = EventWalConfig {
            event_wal_file_size_bytes: 1024 * 1024,
            event_wal_fsync_batch_timeout_ms: 10,
            event_wal_checkpoint_bytes: 1024 * 1024,
        };
        let files = if log.is_empty() { vec![] } else { vec![(0, log.len() as u64)] };
        Env {
            lifecycle: SegmentLifecycleCoordinator::new(&LifecycleConfig::default())
                .with_event_wal(),
            wal: EventWal::open(files, &log, config),
            log,
            pools: vec![
                StoragePool { id: 0, role: PoolRole::Data },
                StoragePool { id: 1, role: PoolRole::Data },
                StoragePool { id: 2, role: PoolRole::Wal },
                StoragePool { id: 3, role: PoolRole::Metadata },
                StoragePool { id: 4, role: PoolRole::Hints },
            ],
            dats,
            purged: Vec::new(),
        }
    }

    fn cold_restart(self) -> Env {
        let mut env = Env::over(self.log, self.dats);
        let files = vec![EventFile { seq: 0, data: env.log.clone() }];
        let mut reader = env.wal.read_from(files, EventWalPos { file_seq: 0, offset: 0 });
        let mut items = Vec::new();
        while let Some(item) = reader.next() {
            items.push(item);
        }
        env.lifecycle.rebuild_from_events(items, 0).expect("boot fold replays every event");
        env
    }

    fn boot_sweep(&mut self) {
        let files: Vec<(u32, SegmentId)> = self.dats.keys().copied().collect();
        for (pool_id, segment) in files {
            let entry = self.lifecycle.registry().get(segment, 0);
            let residue = is_startup_residue(
                entry.as_ref().map(|e| e.state),
                entry.as_ref().map(|e| e.metadata.pool_id).unwrap_or(0),
                pool_id,
            );
            if residue {
                self.dats.remove(&(pool_id, segment));
            }
        }
    }

    fn run(
        &mut self,
        pending: Result<PendingTransition, TransitionError>,
    ) -> Result<(), TransitionError> {
        let pending = pending?;
        match &pending.write {
            DurableWrite::Append(event) => {
                let (_, record) = self.wal.append(event);
                self.log.extend_from_slice(&record);
            }
            other => panic!("an event is appended, not {other:?}"),
        }
        self.lifecycle.complete(pending, Ok(()), 0).0
    }

    fn reserve(&mut self, segment: SegmentId) {
        let pending = self.lifecycle.request_reserve(segment, SizeTier::Standard, 4, 2, 0);
        self.run(pending).unwrap();
    }

    fn seal_on(&mut self, segment: SegmentId, pool_id: u32, data: &[u8]) {
        self.reserve(segment);
        let meta = SegmentMetadata {
            pool_id,
            total_bytes: data.len() as u64,
            segment_id: segment,
            ec_k: 4,
            ec_m: 2,
            size_tier: SizeTier::Standard,
            merkle_root: Some(HashOutput::from_bytes(*blake3::hash(data).as_bytes())),
            storage_locations: NodeList::new(),
            sealed_at: Some(1_700_000_000_000),
        };
        let pending = self.lifecycle.request_seal(segment, meta, None, 0);
        self.run(pending).unwrap();
    }

    fn seed_on(&mut self, segment: SegmentId, pool_id: u32, data: &[u8]) {
        self.seal_on(segment, pool_id, data);
        self.dats.insert((pool_id, segment), data.to_vec());
    }

    fn relocate(&mut self, segment: SegmentId, target: u32) -> Result<(), RelocateError> {
        let relocator =
            SegmentRelocator::relocate(&self.lifecycle, &self.pools, segment, target, 0)?;
        let source = self.dats.get(&(relocator.source_pool_id, segment)).cloned();
        let data = relocator.source_read(Ok(source))?;
        self.dats.insert((target, segment), data);
        relocator.stored(Ok(()))?;
        let pending = relocator.commit(&self.lifecycle, 0)?;
        let done = self.run(Ok(pending));
        relocator.committed(done)?;
        self.purged.push(segment);
        self.dats.remove(&(relocator.source_pool_id, segment));
        Ok(())
    }

    fn read(&self, segment: SegmentId) -> Option<&Vec<u8>> {
        let at = locate_for_read(self.lifecycle.registry(), &self.pools, segment, 0)?;
        self.dats.get(&(self.pools[at].id, segment))
    }

    fn pool_of(&self, segment: SegmentId) -> u32 {
        self.lifecycle.registry().get(segment, 0).expect("entry").metadata.pool_id
    }
}

#[test]
fn relocate_moves_file_flips_pool_id_and_purges_reader() {
    let mut env = Env::new();
    let data: Vec<u8> = (0..8192u32).map(|i| (i % 251) as u8).collect();
    env.seed_on(id(1), 0, &data);
    env.relocate(id(1), 1).expect("relocate pool 0 → pool 1");

    assert!(!env.dats.contains_key(&(0, id(1))), "source copy unlinked");
    assert!(env.dats.contains_key(&(1, id(1))), "target copy present");
    let entry = env.lifecycle.registry().get(id(1), 0).expect("entry");
    assert_eq!(entry.metadata.pool_id, 1);
    assert!(entry.metadata.merkle_root.is_some());
    assert_eq!(env.read(id(1)), Some(&data), "byte-identical content after the switch");
    assert!(env.purged.contains(&id(1)), "relocate must purge the reader's per-segment cache");
}

#[test]
fn relocate_rejects_invalid_targets() {
    let mut env = Env::new();
    env.seed_on(id(1), 0, &[9u8; 128]);
    assert_eq!(env.relocate(id(1), 99), Err(RelocateError::TargetPoolMissing(99)));
    assert_eq!(env.relocate(id(1), 2), Err(RelocateError::TargetNotDataRole(2)));
    assert_eq!(
        env.relocate(id(1), 0),
        Err(RelocateError::SamePool { segment_id: id(1), pool_id: 0 })
    );
    assert_eq!(env.relocate(id(5), 1), Err(RelocateError::NotHeldLocally(id(5))));
}

#[test]
fn relocate_rejects_not_sealed_and_source_missing() {
    let mut env = Env::new();
    let reserved = id(1);
    env.reserve(reserved);
    assert_eq!(env.relocate(reserved, 1), Err(RelocateError::NotSealed(reserved)));

    let ghost = id(2);
    env.seal_on(ghost, 0, b"");
    assert_eq!(env.relocate(ghost, 1), Err(RelocateError::SourceFileMissing(ghost)));
}

#[test]
fn storage_locations_stamp_survives_cold_restart() {
    let mut env = Env::new();
    env.seed_on(id(1), 0, &[21u8; 256]);
    let mut locations = NodeList::new();
    locations.push(NodeId::new("node-b"));
    locations.push(NodeId::new("node-c"));
    let pending = env.lifecycle.persist_storage_locations(id(1), locations.duplicate(), 0);
    env.run(pending).unwrap();

    let env = env.cold_restart();
    let entry = env.lifecycle.registry().get(id(1), 0).expect("entry restored");
    assert_eq!(
        entry.metadata.storage_locations, locations,
        "the durable holder stamp is folded back after a cold restart"
    );
    assert!(
        entry.metadata.merkle_root.is_some(),
        "a location-only refresh must never clear the seal-time merkle anchor"
    );
}

#[test]
fn precommit_crash_restart_fold_keeps_source_and_boot_sweep_reaps_target() {
    let data = vec![11u8; 512];
    let mut env = Env::new();
    env.seed_on(id(1), 0, &data);
    env.dats.insert((1, id(1)), data.clone());

    let mut env = env.cold_restart();
    assert_eq!(env.pool_of(id(1)), 0);
    assert!(env.dats.contains_key(&(1, id(1))), "residue present after restart");
    env.boot_sweep();
    assert!(!env.dats.contains_key(&(1, id(1))), "target residue reaped");
    assert!(env.dats.contains_key(&(0, id(1))), "source authoritative");
    assert_eq!(env.read(id(1)), Some(&data), "byte-identical after restart + sweep");
}

#[test]
fn postcommit_crash_restart_fold_keeps_target_and_boot_sweep_reaps_source() {
    let data = vec![12u8; 512];
    let mut env = Env::new();
    env.seed_on(id(1), 0, &data);
    env.dats.insert((1, id(1)), data.clone());
    let pending = env.lifecycle.request_refresh_metadata(id(1), None, None, Some(1), 0);
    env.run(pending).expect("durable commit");
    assert!(env.dats.contains_key(&(0, id(1))), "source copy not unlinked");

    let mut env = env.cold_restart();
    assert_eq!(env.pool_of(id(1)), 1);
    assert!(env.dats.contains_key(&(0, id(1))), "source residue present");
    env.boot_sweep();
    assert!(!env.dats.contains_key(&(0, id(1))), "source residue reaped");
    assert!(env.dats.contains_key(&(1, id(1))), "target authoritative");
    assert_eq!(env.read(id(1)), Some(&data), "byte-identical after restart + sweep");
}

#[test]
fn relocation_failures_are_named() {
    let mut env = Env::new();
    env.seed_on(id(1), 0, b"x");
    let relocator = SegmentRelocator::relocate(&env.lifecycle, &env.pools, id(1), 1, 0).unwrap();
    assert_eq!(
        relocator.source_read(Err::<Option<Vec<u8>>, String>("eio".to_string())),
        Err(RelocateError::Store(id(1), "eio".to_string()))
    );
    assert_eq!(
        relocator.stored(Err("full".to_string())),
        Err(RelocateError::Store(id(1), "full".to_string()))
    );
    assert_eq!(
        relocator.committed(Err(TransitionError::Missing)),
        Err(RelocateError::Commit {
            segment_id: id(1),
            detail: "segment not present in the lifecycle registry".to_string(),
        })
    );
    let pending = env.lifecycle.request_delete(id(1), 0);
    env.run(pending).unwrap();
    assert!(matches!(
        relocator.commit(&env.lifecycle, 0),
        Err(RelocateError::Commit { segment_id, .. }) if segment_id == id(1)
    ));
}

#[test]
fn residue_is_what_no_live_entry_claims() {
    assert!(is_startup_residue(None, 0, 1));
    assert!(is_startup_residue(Some(SegmentState::Deleted), 0, 0));
    assert!(is_startup_residue(Some(SegmentState::Sealed), 1, 0));
    assert!(!is_startup_residue(Some(SegmentState::Sealed), 1, 1));
    assert!(!is_startup_residue(Some(SegmentState::Reserved), 0, 1));
}
