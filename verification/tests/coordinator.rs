use std::collections::BTreeMap;

use bytes::Bytes;
use oceanfs_segment::coordinator::{
    DurableWrite, MirrorWrite, PendingTransition, SegmentLifecycleCoordinator,
};
use oceanfs_segment::error::{Error, MirrorFault, TransitionError};
use oceanfs_segment::event_reader::EventFile;
use oceanfs_segment::event_record::SegmentEvent;
use oceanfs_segment::event_wal::EventWal;
use oceanfs_segment::lifecycle::{SegmentLifecycleRegistry, SegmentReadSource, SegmentState};
use oceanfs_segment::node_list::{NodeId, NodeList};
use oceanfs_segment::types::{
    DataWalPos, EventWalConfig, EventWalPos, HashOutput, LifecycleConfig, SegmentId,
    SegmentMetadata, SizeTier,
};

fn id(n: u128) -> SegmentId {
    SegmentId::from_u128(n)
}

fn grace_config(grace_ms: u64) -> LifecycleConfig {
    LifecycleConfig { lifecycle_registry_shards: 8, delete_grace_ms: grace_ms }
}

fn test_metadata(segment_id: SegmentId, sealed: bool) -> SegmentMetadata {
    SegmentMetadata {
        segment_id,
        ec_k: 4,
        ec_m: 2,
        size_tier: SizeTier::Standard,
        merkle_root: None,
        storage_locations: NodeList::new(),
        sealed_at: if sealed { Some(1_700_000_000_000) } else { None },
        pool_id: 0,
        total_bytes: 0,
    }
}

fn sealed_with_root(segment_id: SegmentId) -> SegmentMetadata {
    SegmentMetadata {
        merkle_root: Some(HashOutput::from_bytes([0xAB; 32])),
        ..test_metadata(segment_id, true)
    }
}

/// A coordinator with a metadata store and an event log.
struct Node {
    coordinator: SegmentLifecycleCoordinator,
    store: BTreeMap<SegmentId, SegmentMetadata>,
    deleted: Vec<SegmentId>,
    wal: EventWal,
    log: Vec<u8>,
    failing: bool,
}

impl Node {
    fn over(coordinator: SegmentLifecycleCoordinator) -> Node {
        let config = EventWalConfig {
            event_wal_file_size_bytes: 1024 * 1024,
            event_wal_fsync_batch_timeout_ms: 10,
            event_wal_checkpoint_bytes: 1024 * 1024,
        };
        Node {
            coordinator,
            store: BTreeMap::new(),
            deleted: Vec::new(),
            wal: EventWal::open(vec![], &[], config),
            log: Vec::new(),
            failing: false,
        }
    }

    fn new() -> Node {
        Node::over(SegmentLifecycleCoordinator::new(&LifecycleConfig::default()))
    }

    fn append(&mut self, event: &SegmentEvent) {
        let (_, record) = self.wal.append(event);
        self.log.extend_from_slice(&record);
    }

    fn remove(&mut self, id: SegmentId) {
        if let Some(meta) = self.store.remove(&id) {
            if meta.sealed_at.is_some() {
                self.deleted.push(id);
            }
        }
    }

    fn run(
        &mut self,
        pending: Result<PendingTransition, TransitionError>,
    ) -> Result<(), TransitionError> {
        let pending = pending?;
        let written = if self.failing {
            Err("test seam: put_segment failed".to_string())
        } else {
            match &pending.write {
                DurableWrite::Append(event) => self.append(event),
                DurableWrite::PutSegment(meta) => {
                    self.store.insert(meta.segment_id, meta.clone());
                }
                DurableWrite::DeleteSegment(id) => self.remove(*id),
            }
            Ok(())
        };
        let (result, mirror) = self.coordinator.complete(pending, written, 0);
        match mirror {
            Some(MirrorWrite::Put(meta)) => {
                self.store.insert(meta.segment_id, meta);
            }
            Some(MirrorWrite::Delete(id)) => self.remove(id),
            None => {}
        }
        result
    }

    fn reserve(&mut self, id: SegmentId, tier: SizeTier, k: u8, m: u8) -> Result<(), TransitionError> {
        let pending = self.coordinator.request_reserve(id, tier, k, m, 0);
        self.run(pending)
    }

    fn seal(&mut self, id: SegmentId, meta: SegmentMetadata) -> Result<(), TransitionError> {
        let pending = self.coordinator.request_seal(id, meta, None, 0);
        self.run(pending)
    }

    fn delete(&mut self, id: SegmentId) -> Result<(), TransitionError> {
        let pending = self.coordinator.request_delete(id, 0);
        self.run(pending)
    }

    fn seal_batch(&mut self, metas: Vec<SegmentMetadata>) -> Vec<Result<(), TransitionError>> {
        let mut batch = self.coordinator.seal_finalized_batch(metas, 0);
        if self.coordinator.event_log {
            while let Some(event) = self.coordinator.next_seal_event(&mut batch) {
                self.append(&event);
                self.coordinator.seal_event_appended(&mut batch, Ok(()), 0);
            }
            for meta in &batch.mirror {
                self.store.insert(meta.segment_id, meta.clone());
            }
        } else {
            for meta in self.coordinator.seal_batch_writes(&batch) {
                self.store.insert(meta.segment_id, meta);
            }
            self.coordinator.seal_batch_written(&mut batch, Ok(()), 0);
        }
        batch.results
    }

    fn state(&self, id: SegmentId) -> Option<SegmentState> {
        self.coordinator.registry().get(id, 0).map(|entry| entry.state)
    }

    fn events(&self) -> Vec<Result<(EventWalPos, SegmentEvent), Error>> {
        let files = vec![EventFile { seq: 0, data: self.log.clone() }];
        let mut reader = self.wal.read_from(files, EventWalPos { file_seq: 0, offset: 0 });
        let mut events = Vec::new();
        while let Some(item) = reader.next() {
            events.push(item);
        }
        events
    }
}

#[test]
fn seed_from_metadata_store_populates_registry_without_cf_writes() {
    let mut node = Node::new();
    let sealed_id = id(1);
    let phantom_id = id(2);
    node.store.insert(sealed_id, test_metadata(sealed_id, true));
    node.store.insert(phantom_id, test_metadata(phantom_id, false));

    assert!(node.coordinator.registry().is_empty(), "registry starts empty");
    let items = node.store.values().map(|meta| Ok(meta.clone())).collect();
    node.coordinator.seed_from_metadata_store(items, 0).unwrap();

    assert_eq!(node.coordinator.registry().len(), 2);
    assert_eq!(
        node.state(sealed_id),
        Some(SegmentState::Sealed),
        "sealed CF entry seeds as Sealed"
    );
    assert_eq!(
        node.state(phantom_id),
        Some(SegmentState::Reserved),
        "phantom CF entry seeds as Reserved"
    );
    node.delete(sealed_id).unwrap();
    assert!(!node.store.contains_key(&sealed_id), "coordinator deletes seeded entry");
    assert!(
        node.deleted.contains(&sealed_id),
        "deleted-marker written for seeded sealed segment"
    );
}

#[test]
fn seed_stops_at_an_unreadable_segment() {
    let mut node = Node::new();
    let items = vec![
        Ok(test_metadata(id(1), false)),
        Err("bad row".to_string()),
        Ok(test_metadata(id(3), false)),
    ];
    assert!(node.coordinator.seed_from_metadata_store(items, 0).is_err());
    assert_eq!(node.state(id(1)), Some(SegmentState::Reserved));
    assert_eq!(node.state(id(3)), None);
}

#[test]
fn request_reserve_writes_cf_then_folds() {
    let mut node = Node::new();
    node.reserve(id(1), SizeTier::Small, 2, 1).unwrap();
    let cf = node.store.get(&id(1)).expect("CF phantom written");
    assert!(cf.sealed_at.is_none());
    assert_eq!(cf.size_tier, SizeTier::Small);
    assert_eq!(node.state(id(1)), Some(SegmentState::Reserved));
    assert_eq!(node.coordinator.registry().len(), 1);
}

#[test]
fn request_reserve_is_idempotent_at_coordinator_level() {
    let mut node = Node::new();
    node.reserve(id(1), SizeTier::Standard, 4, 2).unwrap();
    node.reserve(id(1), SizeTier::Standard, 4, 2).unwrap();
    assert_eq!(node.state(id(1)), Some(SegmentState::Reserved));
}

#[test]
fn request_reserve_on_sealed_is_rejected_without_downgrade() {
    let mut node = Node::new();
    node.reserve(id(1), SizeTier::Standard, 4, 2).unwrap();
    node.seal(id(1), test_metadata(id(1), true)).unwrap();
    let err = node.reserve(id(1), SizeTier::Standard, 4, 2).unwrap_err();
    assert_eq!(err, TransitionError::AlreadySealed);
    let cf = node.store.get(&id(1)).expect("CF entry still present");
    assert!(cf.sealed_at.is_some(), "CF must not be downgraded to unsealed");
    assert_eq!(node.state(id(1)), Some(SegmentState::Sealed), "registry must not be downgraded");
}

#[test]
fn coordinator_seal_clears_in_flight_via_the_fold() {
    let mut node = Node::new();
    node.reserve(id(1), SizeTier::Standard, 4, 2).unwrap();
    assert!(node.coordinator.registry.attach_in_flight(
        id(1),
        SizeTier::Standard,
        4,
        2,
        Bytes::from_static(b"frozen-payload"),
    ));
    assert_eq!(node.coordinator.registry().in_flight_count(), 1);

    node.seal(id(1), test_metadata(id(1), true)).unwrap();
    assert_eq!(
        node.coordinator.registry().in_flight_count(),
        0,
        "request_seal must clear the in-flight window"
    );
    assert!(matches!(
        node.coordinator.registry().read_source(id(1), 0),
        SegmentReadSource::Sealed
    ));

    node.reserve(id(2), SizeTier::Standard, 4, 2).unwrap();
    assert!(node.coordinator.registry.attach_in_flight(
        id(2),
        SizeTier::Standard,
        4,
        2,
        Bytes::from_static(b"frozen-payload-2"),
    ));
    let results = node.seal_batch(vec![test_metadata(id(2), true)]);
    assert!(results[0].is_ok());
    assert_eq!(
        node.coordinator.registry().in_flight_count(),
        0,
        "batch seal must clear the window"
    );
    assert!(matches!(
        node.coordinator.registry().read_source(id(2), 0),
        SegmentReadSource::Sealed
    ));
}

#[test]
fn request_seal_writes_cf_then_folds() {
    let mut node = Node::new();
    node.reserve(id(1), SizeTier::Standard, 4, 2).unwrap();
    node.seal(id(1), test_metadata(id(1), true)).unwrap();
    let cf = node.store.get(&id(1)).expect("CF sealed entry");
    assert!(cf.sealed_at.is_some());
    assert_eq!(node.state(id(1)), Some(SegmentState::Sealed));
}

#[test]
fn request_seal_on_missing_returns_missing_without_cf_write() {
    let mut node = Node::new();
    let err = node.seal(id(1), test_metadata(id(1), true)).unwrap_err();
    assert_eq!(err, TransitionError::Missing);
    assert!(!node.store.contains_key(&id(1)), "no CF write for an illegal seal");
    assert!(node.coordinator.registry().is_empty());
}

#[test]
fn request_delete_writes_marker_then_folds() {
    let mut node = Node::new();
    node.reserve(id(1), SizeTier::Standard, 4, 2).unwrap();
    node.seal(id(1), test_metadata(id(1), true)).unwrap();
    node.delete(id(1)).unwrap();
    assert!(!node.store.contains_key(&id(1)));
    assert!(node.deleted.contains(&id(1)), "deleted-marker written for a sealed segment");
    assert!(node.coordinator.registry().get(id(1), 0).is_none());
    assert_eq!(node.coordinator.registry().len(), 0);
}

#[test]
fn request_delete_on_missing_returns_missing() {
    let mut node = Node::new();
    assert_eq!(node.delete(id(1)).unwrap_err(), TransitionError::Missing);
}

#[test]
fn request_reserve_durable_failure_skips_the_fold() {
    let mut node = Node::new();
    node.failing = true;
    let err = node.reserve(id(1), SizeTier::Standard, 4, 2).unwrap_err();
    assert!(matches!(err, TransitionError::DurableWriteFailed(_)));
    assert!(node.coordinator.registry().is_empty(), "fold must be skipped on durable failure");
}

#[test]
fn seal_finalized_batch_folds_all_and_writes_cf() {
    let mut node = Node::new();
    let ids: Vec<SegmentId> = (0..16).map(id).collect();
    for id in &ids {
        node.reserve(*id, SizeTier::Standard, 4, 2).unwrap();
    }
    let metas: Vec<SegmentMetadata> = ids.iter().map(|id| test_metadata(*id, true)).collect();
    let results = node.seal_batch(metas);
    assert!(results.iter().all(|r| r.is_ok()), "all 16 must seal: {results:?}");
    assert_eq!(node.coordinator.registry().len(), 16);
    for id in &ids {
        let cf = node.store.get(id).expect("sealed in CF");
        assert!(cf.sealed_at.is_some());
        assert_eq!(node.state(*id), Some(SegmentState::Sealed));
    }
}

#[test]
fn seal_finalized_batch_rejects_invalid_entries_isolated() {
    let mut node = Node::new();
    let reserved_id = id(1);
    let missing_id = id(2);
    let sealed_id = id(3);
    node.reserve(reserved_id, SizeTier::Standard, 4, 2).unwrap();
    node.reserve(sealed_id, SizeTier::Standard, 4, 2).unwrap();
    node.seal(sealed_id, test_metadata(sealed_id, true)).unwrap();

    let results = node.seal_batch(vec![
        test_metadata(reserved_id, true),
        test_metadata(missing_id, true),
        test_metadata(sealed_id, true),
    ]);
    assert_eq!(results[0], Ok(()));
    assert_eq!(results[1], Err(TransitionError::Missing));
    assert_eq!(results[2], Err(TransitionError::AlreadySealed));
    assert_eq!(node.state(reserved_id), Some(SegmentState::Sealed));
    assert_eq!(node.state(sealed_id), Some(SegmentState::Sealed));
    assert!(!node.store.contains_key(&missing_id), "no CF write for invalid entry");
}

#[test]
fn batch_through_the_event_log_isolates_failures() {
    let mut node = Node::over(
        SegmentLifecycleCoordinator::new(&LifecycleConfig::default()).with_event_wal(),
    );
    for n in 1..=3 {
        node.reserve(id(n), SizeTier::Standard, 4, 2).unwrap();
    }
    let mut batch = node.coordinator.seal_finalized_batch(
        vec![sealed_with_root(id(1)), test_metadata(id(2), true), sealed_with_root(id(3))],
        0,
    );
    let first = node.coordinator.next_seal_event(&mut batch).unwrap();
    assert_eq!(first.segment_id(), id(1));
    node.coordinator.seal_event_appended(&mut batch, Err("stalled".to_string()), 0);
    let second = node.coordinator.next_seal_event(&mut batch).unwrap();
    assert_eq!(second.segment_id(), id(3), "the segment without a root has no event");
    node.coordinator.seal_event_appended(&mut batch, Ok(()), 0);
    assert!(node.coordinator.next_seal_event(&mut batch).is_none());
    assert!(matches!(batch.results[0], Err(TransitionError::DurableWriteFailed(_))));
    assert!(matches!(batch.results[1], Err(TransitionError::DurableWriteFailed(_))));
    assert_eq!(batch.results[2], Ok(()));
    assert_eq!(node.state(id(1)), Some(SegmentState::Reserved));
    assert_eq!(node.state(id(2)), Some(SegmentState::Reserved));
    assert_eq!(node.state(id(3)), Some(SegmentState::Sealed));
    assert_eq!(batch.mirror, vec![sealed_with_root(id(3))]);
}

#[test]
fn failed_batch_write_fails_every_accepted_segment() {
    let mut node = Node::new();
    node.reserve(id(1), SizeTier::Standard, 4, 2).unwrap();
    let mut batch = node
        .coordinator
        .seal_finalized_batch(vec![test_metadata(id(1), true), test_metadata(id(9), true)], 0);
    assert_eq!(node.coordinator.seal_batch_writes(&batch), vec![test_metadata(id(1), true)]);
    node.coordinator.seal_batch_written(&mut batch, Err("disk".to_string()), 0);
    assert!(matches!(batch.results[0], Err(TransitionError::DurableWriteFailed(_))));
    assert_eq!(batch.results[1], Err(TransitionError::Missing));
    assert_eq!(node.state(id(1)), Some(SegmentState::Reserved));
}

#[test]
fn event_wal_phase2_full_sequence_folds_and_mirrors() {
    let lifecycle_config = grace_config(1_000);
    let mut node = Node::over(
        SegmentLifecycleCoordinator::with_registry(SegmentLifecycleRegistry::new(
            &lifecycle_config,
        ))
        .with_event_wal(),
    );
    node.reserve(id(1), SizeTier::Standard, 4, 2).unwrap();
    let mut last_pos = DataWalPos { file_seq: 0, offset: 0 };
    for i in 0..3u64 {
        last_pos = DataWalPos { file_seq: 0, offset: i * 91 };
        node.coordinator.record_data_wal_pos(id(1), last_pos);
    }
    node.seal(id(1), sealed_with_root(id(1))).unwrap();
    assert!(node.store.get(&id(1)).unwrap().sealed_at.is_some());
    node.delete(id(1)).unwrap();

    let events: Vec<(EventWalPos, SegmentEvent)> =
        node.events().into_iter().map(|item| item.unwrap()).collect();
    assert_eq!(events.len(), 3, "the sequence must produce exactly three events");
    match &events[0].1 {
        SegmentEvent::Reserve(evt) => {
            assert_eq!(evt.segment_id, id(1));
            assert_eq!(evt.tier, SizeTier::Standard);
            assert_eq!(evt.ec_k, 4);
            assert_eq!(evt.ec_m, 2);
        }
        other => panic!("first event must be Reserve, got {other:?}"),
    }
    match &events[1].1 {
        SegmentEvent::Seal(evt) => {
            assert_eq!(evt.segment_id, id(1));
            assert_eq!(evt.tier, SizeTier::Standard);
            assert_eq!(evt.ec_k, 4);
            assert_eq!(evt.ec_m, 2);
            assert_eq!(evt.merkle_root, HashOutput::from_bytes([0xAB; 32]));
            assert_eq!(
                evt.data_wal_pos, last_pos,
                "SealEvent.data_wal_pos must equal the LAST data entry's position"
            );
        }
        other => panic!("second event must be Seal, got {other:?}"),
    }
    match &events[2].1 {
        SegmentEvent::Delete(evt) => assert_eq!(evt.segment_id, id(1)),
        other => panic!("third event must be Delete, got {other:?}"),
    }

    let mut folded = SegmentLifecycleRegistry::new(&lifecycle_config);
    for (_, evt) in &events {
        match evt {
            SegmentEvent::Reserve(evt) => {
                folded.reserve(evt.segment_id, test_metadata(evt.segment_id, false), 0).unwrap();
            }
            SegmentEvent::Seal(evt) => {
                let meta = SegmentMetadata {
                    merkle_root: Some(evt.merkle_root),
                    ..test_metadata(evt.segment_id, true)
                };
                folded.seal(evt.segment_id, meta, 0).unwrap();
            }
            SegmentEvent::Delete(evt) => folded.delete(evt.segment_id, 0).unwrap(),
            SegmentEvent::MetadataRefresh(_) => unreachable!(),
        }
    }
    assert_eq!(node.state(id(1)), Some(SegmentState::Deleted));
    assert_eq!(folded.get(id(1), 0).unwrap().state, SegmentState::Deleted);
    assert_eq!(
        folded.len(),
        node.coordinator.registry().len(),
        "fold reproduces the live registry"
    );
    assert!(
        !node.store.contains_key(&id(1)),
        "CF mirror must reflect the delete (event log authoritative)"
    );
}

#[test]
fn replayed_events_rebuild_the_same_registry() {
    let mut node = Node::over(
        SegmentLifecycleCoordinator::new(&LifecycleConfig::default()).with_event_wal(),
    );
    node.reserve(id(1), SizeTier::Small, 2, 1).unwrap();
    node.reserve(id(2), SizeTier::Standard, 4, 2).unwrap();
    node.reserve(id(3), SizeTier::Standard, 4, 2).unwrap();
    node.coordinator.record_data_wal_pos(id(2), DataWalPos { file_seq: 1, offset: 5 });
    node.seal(id(2), sealed_with_root(id(2))).unwrap();
    node.seal(id(3), sealed_with_root(id(3))).unwrap();
    node.delete(id(3)).unwrap();
    let mut nodes = NodeList::new();
    nodes.push(NodeId::new("node-b"));
    let pending = node.coordinator.request_refresh_metadata(
        id(2),
        Some(HashOutput::from_bytes([9; 32])),
        Some(nodes),
        Some(6),
        0,
    );
    node.run(pending).unwrap();

    let mut restarted = SegmentLifecycleCoordinator::new(&LifecycleConfig::default());
    let outcome = restarted.rebuild_from_events(node.events(), 0).unwrap();
    assert_eq!(outcome.folded_segments, 3);
    assert_eq!(restarted.registry().len(), 2);
    assert_eq!(restarted.registry().get(id(1), 0).unwrap().state, SegmentState::Reserved);
    let live = node.coordinator.registry().get(id(2), 0).unwrap();
    let folded = restarted.registry().get(id(2), 0).unwrap();
    assert_eq!(folded.state, SegmentState::Sealed);
    assert_eq!(folded.metadata.merkle_root, live.metadata.merkle_root);
    assert_eq!(folded.metadata.pool_id, 6);
    assert_eq!(folded.metadata.storage_locations, live.metadata.storage_locations);
    assert_eq!(folded.data_wal_pos, Some(DataWalPos { file_seq: 1, offset: 5 }));
    assert!(restarted.registry().get(id(3), 0).is_none());
}

#[test]
fn sealing_without_a_root_is_refused_by_the_event_log() {
    let mut node = Node::over(
        SegmentLifecycleCoordinator::new(&LifecycleConfig::default()).with_event_wal(),
    );
    node.reserve(id(1), SizeTier::Standard, 4, 2).unwrap();
    assert!(matches!(
        node.seal(id(1), test_metadata(id(1), true)),
        Err(TransitionError::DurableWriteFailed(_))
    ));
    assert_eq!(node.state(id(1)), Some(SegmentState::Reserved));
}

#[test]
fn stamped_holders_keep_the_root() {
    let mut node = Node::over(
        SegmentLifecycleCoordinator::new(&LifecycleConfig::default()).with_event_wal(),
    );
    node.reserve(id(1), SizeTier::Standard, 4, 2).unwrap();
    node.seal(id(1), sealed_with_root(id(1))).unwrap();
    let mut nodes = NodeList::new();
    nodes.push(NodeId::new("node-b"));
    let pending = node.coordinator.persist_storage_locations(id(1), nodes, 0);
    node.run(pending).unwrap();
    let entry = node.coordinator.registry().get(id(1), 0).unwrap();
    assert_eq!(entry.metadata.merkle_root, Some(HashOutput::from_bytes([0xAB; 32])));
    assert_eq!(entry.metadata.storage_locations.get(0).as_str(), "node-b");
    assert_eq!(node.store.get(&id(1)).unwrap().storage_locations.len(), 1);
}

#[test]
fn lagging_mirror_is_repaired() {
    let mut node = Node::over(
        SegmentLifecycleCoordinator::new(&LifecycleConfig::default()).with_event_wal(),
    );
    node.reserve(id(1), SizeTier::Standard, 4, 2).unwrap();
    node.reserve(id(2), SizeTier::Standard, 4, 2).unwrap();
    node.seal(id(2), sealed_with_root(id(2))).unwrap();
    let check = node.coordinator.verify_and_repair_mirror(&vec![test_metadata(id(2), false)], 0);
    assert!(check.fault.is_none());
    let mut put: Vec<SegmentId> = check
        .repairs
        .iter()
        .map(|write| match write {
            MirrorWrite::Put(meta) => meta.segment_id,
            MirrorWrite::Delete(_) => panic!("nothing is deleted"),
        })
        .collect();
    put.sort();
    assert_eq!(put, vec![id(1), id(2)]);
    let mirror: Vec<SegmentMetadata> = node.store.values().cloned().collect();
    let check = node.coordinator.verify_and_repair_mirror(&mirror, 0);
    assert!(check.fault.is_none() && check.repairs.is_empty());
}

#[test]
fn mirror_ahead_of_the_log_is_a_fault() {
    let mut node = Node::over(
        SegmentLifecycleCoordinator::new(&LifecycleConfig::default()).with_event_wal(),
    );
    node.reserve(id(1), SizeTier::Standard, 4, 2).unwrap();
    let check = node.coordinator.verify_and_repair_mirror(&vec![sealed_with_root(id(1))], 0);
    assert_eq!(
        check.fault,
        Some(Error::MirrorDivergence { segment_id: id(1), fault: MirrorFault::MirrorSealed })
    );
    let check = node.coordinator.verify_and_repair_mirror(
        &vec![test_metadata(id(1), false), sealed_with_root(id(2))],
        0,
    );
    assert_eq!(
        check.fault,
        Some(Error::MirrorDivergence { segment_id: id(2), fault: MirrorFault::SealedEntryMissing })
    );
}

#[test]
fn gauges_count_live_entries() {
    let mut node = Node::new();
    node.reserve(id(1), SizeTier::Standard, 4, 2).unwrap();
    node.reserve(id(2), SizeTier::Standard, 4, 2).unwrap();
    node.delete(id(1)).unwrap();
    assert_eq!(node.coordinator.update_gauges(), (1, 300));
}

#[test]
fn deferred_seals_are_listed_for_retry() {
    let mut node = Node::new();
    node.reserve(id(1), SizeTier::Standard, 4, 2).unwrap();
    node.reserve(id(2), SizeTier::Small, 4, 2).unwrap();
    for n in 1..=2 {
        assert!(node.coordinator.registry.attach_in_flight(
            id(n),
            SizeTier::Standard,
            4,
            2,
            Bytes::from(vec![n as u8; 3]),
        ));
    }
    node.coordinator.registry.mark_seal_unqueued(id(2));
    let pending = node.coordinator.retry_deferred_seals();
    assert_eq!(pending.len(), 1);
    assert_eq!(pending[0].0, id(2));
    assert_eq!(pending[0].1, SizeTier::Small);
    assert_eq!(&pending[0].2[..], &[2, 2, 2]);
}
