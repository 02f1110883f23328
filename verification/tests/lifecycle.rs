use bytes::Bytes;
use oceanfs_segment::error::TransitionError;
use oceanfs_segment::lifecycle::{
    shard_count, SegmentLifecycleRegistry, SegmentReadSource, SegmentState,
};
use oceanfs_segment::node_list::{NodeId, NodeList};
use oceanfs_segment::types::{
    DataWalPos, HashOutput, LifecycleConfig, SegmentId, SegmentMetadata, SizeTier,
};

fn grace_config(grace_ms: u64) -> LifecycleConfig {
    LifecycleConfig { lifecycle_registry_shards: 8, delete_grace_ms: grace_ms }
}

fn id(n: u128) -> SegmentId {
    SegmentId::from_u128(n)
}

fn test_metadata(segment_id: SegmentId, sealed: bool) -> SegmentMetadata {
    SegmentMetadata {
        segment_id,
        ec_k: 4,
        ec_m: 2,
        size_tier: SizeTier::Standard,
        merkle_root: None,
        storage_locations: NodeList::new(),
        sealed_at: if sealed { Some(1_700_000_000_000) } else { None },
        pool_id: 0,
        total_bytes: 0,
    }
}

fn registry() -> SegmentLifecycleRegistry {
    SegmentLifecycleRegistry::new(&LifecycleConfig::default())
}

#[test]
fn reserve_absent_creates_reserved_entry() {
    let mut registry = registry();
    registry.reserve(id(1), test_metadata(id(1), false), 0).unwrap();
    let entry = registry.get(id(1), 0).expect("entry present");
    assert_eq!(entry.state, SegmentState::Reserved);
    assert_eq!(entry.metadata.segment_id, id(1));
    assert_eq!(registry.len(), 1);
}

#[test]
fn reserve_idempotent_on_reserved_keeps_existing_entry() {
    let mut registry = registry();
    let first = test_metadata(id(1), false);
    let mut second = test_metadata(id(1), false);
    second.ec_k = 8;
    registry.reserve(id(1), first, 0).unwrap();
    registry.reserve(id(1), second, 0).unwrap();
    let entry = registry.get(id(1), 0).unwrap();
    assert_eq!(entry.state, SegmentState::Reserved);
    assert_eq!(entry.metadata.ec_k, 4, "existing entry kept on idempotent re-reserve");
}

#[test]
fn reserve_on_sealed_returns_already_sealed_and_does_not_mutate() {
    let mut registry = registry();
    registry.reserve(id(1), test_metadata(id(1), false), 0).unwrap();
    registry.seal(id(1), test_metadata(id(1), true), 0).unwrap();
    let err = registry.reserve(id(1), test_metadata(id(1), false), 0).unwrap_err();
    assert_eq!(err, TransitionError::AlreadySealed);
    let entry = registry.get(id(1), 0).unwrap();
    assert_eq!(entry.state, SegmentState::Sealed, "downgrade must not mutate");
    assert!(entry.metadata.sealed_at.is_some());
    assert_eq!(registry.len(), 1);
}

#[test]
fn reserve_on_deleted_returns_already_deleted() {
    let mut registry = SegmentLifecycleRegistry::new(&grace_config(10_000));
    registry.reserve(id(1), test_metadata(id(1), false), 0).unwrap();
    registry.delete(id(1), 0).unwrap();
    let err = registry.reserve(id(1), test_metadata(id(1), false), 0).unwrap_err();
    assert_eq!(err, TransitionError::AlreadyDeleted);
    let entry = registry.get(id(1), 0).unwrap();
    assert_eq!(entry.state, SegmentState::Deleted, "reserve over Deleted must not mutate");
}

#[test]
fn seal_on_reserved_marks_sealed_with_full_metadata() {
    let mut registry = registry();
    registry.reserve(id(1), test_metadata(id(1), false), 0).unwrap();
    registry.seal(id(1), test_metadata(id(1), true), 0).unwrap();
    let entry = registry.get(id(1), 0).unwrap();
    assert_eq!(entry.state, SegmentState::Sealed);
    assert!(entry.metadata.sealed_at.is_some());
}

#[test]
fn seal_on_sealed_returns_already_sealed_and_does_not_mutate() {
    let mut registry = registry();
    registry.reserve(id(1), test_metadata(id(1), false), 0).unwrap();
    registry.seal(id(1), test_metadata(id(1), true), 0).unwrap();
    let mut re_seal = test_metadata(id(1), true);
    re_seal.ec_k = 9;
    let err = registry.seal(id(1), re_seal, 0).unwrap_err();
    assert_eq!(err, TransitionError::AlreadySealed);
    assert_eq!(registry.get(id(1), 0).unwrap().metadata.ec_k, 4, "re-seal must not mutate");
}

#[test]
fn seal_on_deleted_returns_not_reserved() {
    let mut registry = SegmentLifecycleRegistry::new(&grace_config(10_000));
    registry.reserve(id(1), test_metadata(id(1), false), 0).unwrap();
    registry.delete(id(1), 0).unwrap();
    let err = registry.seal(id(1), test_metadata(id(1), true), 0).unwrap_err();
    assert_eq!(err, TransitionError::NotReserved);
    assert_eq!(registry.get(id(1), 0).unwrap().state, SegmentState::Deleted, "no mutation");
}

#[test]
fn seal_on_missing_returns_missing() {
    let mut registry = registry();
    let err = registry.seal(id(1), test_metadata(id(1), true), 0).unwrap_err();
    assert_eq!(err, TransitionError::Missing);
    assert!(registry.is_empty());
}

#[test]
fn delete_on_reserved_marks_deleted() {
    let mut registry = SegmentLifecycleRegistry::new(&grace_config(10_000));
    registry.reserve(id(1), test_metadata(id(1), false), 0).unwrap();
    registry.delete(id(1), 0).unwrap();
    let entry = registry.get(id(1), 0).unwrap();
    assert_eq!(entry.state, SegmentState::Deleted);
}

#[test]
fn delete_on_sealed_marks_deleted() {
    let mut registry = SegmentLifecycleRegistry::new(&grace_config(10_000));
    registry.reserve(id(1), test_metadata(id(1), false), 0).unwrap();
    registry.seal(id(1), test_metadata(id(1), true), 0).unwrap();
    registry.delete(id(1), 0).unwrap();
    assert_eq!(registry.get(id(1), 0).unwrap().state, SegmentState::Deleted);
}

#[test]
fn delete_on_deleted_returns_already_deleted() {
    let mut registry = SegmentLifecycleRegistry::new(&grace_config(10_000));
    registry.reserve(id(1), test_metadata(id(1), false), 0).unwrap();
    registry.delete(id(1), 0).unwrap();
    let err = registry.delete(id(1), 0).unwrap_err();
    assert_eq!(err, TransitionError::AlreadyDeleted);
}

#[test]
fn delete_on_missing_returns_missing() {
    let mut registry = registry();
    let err = registry.delete(id(1), 0).unwrap_err();
    assert_eq!(err, TransitionError::Missing);
}

#[test]
fn delete_with_default_grace_evicts_immediately() {
    let mut registry = registry();
    registry.reserve(id(1), test_metadata(id(1), false), 0).unwrap();
    registry.delete(id(1), 0).unwrap();
    assert!(registry.get(id(1), 0).is_none(), "immediate eviction");
    assert!(registry.is_empty(), "registry stays O(live segments)");
}

#[test]
fn expired_deleted_entries_are_treated_as_absent() {
    let mut registry = SegmentLifecycleRegistry::new(&grace_config(1));
    registry.reserve(id(1), test_metadata(id(1), false), 0).unwrap();
    registry.delete(id(1), 0).unwrap();
    let now = 5;
    assert!(registry.get(id(1), now).is_none(), "expired deleted entry is absent");
    assert_eq!(registry.len(), 0, "expired deleted entry not counted");
    assert!(registry.validate_reserve(id(1), now).is_ok(), "expired deleted entry is reservable");
}

#[test]
fn get_returns_none_for_unknown_segment() {
    assert!(registry().get(id(1), 0).is_none());
}

#[test]
fn for_each_enumerates_all_live_entries() {
    let mut registry = SegmentLifecycleRegistry::new(&grace_config(10_000));
    let ids: Vec<SegmentId> = (0..10).map(|n| id(100 - n)).collect();
    for id in &ids {
        registry.reserve(*id, test_metadata(*id, false), 0).unwrap();
    }
    let mut seen: Vec<SegmentId> = Vec::new();
    for (id, entry) in registry.for_each() {
        assert_eq!(entry.state, SegmentState::Reserved);
        seen.push(id);
    }
    seen.sort();
    let mut expected = ids.clone();
    expected.sort();
    assert_eq!(seen, expected);
}

#[test]
fn len_counts_live_entries_across_shards() {
    let mut registry = SegmentLifecycleRegistry::new(&grace_config(10_000));
    assert_eq!(registry.len(), 0);
    assert!(registry.is_empty());
    let ids: Vec<SegmentId> = (0..100).map(id).collect();
    for id in &ids {
        registry.reserve(*id, test_metadata(*id, false), 0).unwrap();
    }
    assert_eq!(registry.len(), 100);
    registry.delete(ids[0], 0).unwrap();
    assert_eq!(registry.len(), 99, "deleted entries are not live");
}

#[test]
fn mem_estimate_is_bounded_by_350_bytes_per_entry() {
    let mut registry = registry();
    for n in 0..50 {
        registry.reserve(id(n), test_metadata(id(n), false), 0).unwrap();
    }
    let len = registry.len() as u64;
    assert!(registry.mem_estimate_bytes() <= 350 * len, "per-entry bound");
    assert!(registry.mem_estimate_bytes() > 0);
    assert_eq!(registry.mem_estimate_bytes(), 300 * 50);
}

#[test]
fn shard_count_returns_configured_count_clamped_to_one() {
    let config = LifecycleConfig { lifecycle_registry_shards: 128, ..Default::default() };
    assert_eq!(shard_count(&config), 128);
    let zero = LifecycleConfig { lifecycle_registry_shards: 0, ..Default::default() };
    assert_eq!(shard_count(&zero), 1, "zero shards must not produce an unusable registry");
}

#[test]
fn churn_10k_reserve_seal_delete_ends_empty() {
    let mut registry = registry();
    for n in 0..10_000 {
        registry.reserve(id(n), test_metadata(id(n), false), 0).unwrap();
        registry.seal(id(n), test_metadata(id(n), true), 0).unwrap();
        registry.delete(id(n), 0).unwrap();
    }
    assert_eq!(registry.len(), 0, "churn must not accumulate entries");
}

#[test]
fn interleaved_transitions_never_downgrade_and_never_panic() {
    let mut registry = SegmentLifecycleRegistry::new(&grace_config(10_000));
    let ids: Vec<SegmentId> = (0..32).map(id).collect();
    for round in 0..200usize {
        for worker in 0..8usize {
            let id = ids[(worker * 40 + round) % ids.len()];
            match round % 3 {
                0 => {
                    let _ = registry.reserve(id, test_metadata(id, false), 0);
                }
                1 => {
                    let _ = registry.seal(id, test_metadata(id, true), 0);
                }
                _ => {
                    let _ = registry.delete(id, 0);
                }
            }
        }
    }
    for (id, entry) in registry.for_each() {
        if entry.state == SegmentState::Sealed {
            let err = registry.reserve(id, test_metadata(id, false), 0).unwrap_err();
            assert!(matches!(err, TransitionError::AlreadySealed), "no downgrade allowed");
            let after = registry.get(id, 0).unwrap();
            assert_eq!(after.state, SegmentState::Sealed);
        }
    }
}

#[test]
fn read_source_missing_for_absent_and_deleted_entries() {
    let mut registry = SegmentLifecycleRegistry::new(&grace_config(10_000));
    assert!(matches!(registry.read_source(id(1), 0), SegmentReadSource::Missing));
    registry.reserve(id(1), test_metadata(id(1), false), 0).unwrap();
    registry.delete(id(1), 0).unwrap();
    assert!(matches!(registry.read_source(id(1), 0), SegmentReadSource::Missing));
}

#[test]
fn read_source_active_slot_for_reserved_without_in_flight() {
    let mut registry = registry();
    registry.reserve(id(1), test_metadata(id(1), false), 0).unwrap();
    assert!(matches!(registry.read_source(id(1), 0), SegmentReadSource::ActiveSlot));
}

#[test]
fn read_source_in_flight_after_attach_and_sealed_after_seal() {
    let mut registry = registry();
    registry.reserve(id(1), test_metadata(id(1), false), 0).unwrap();
    assert!(registry.attach_in_flight(
        id(1),
        SizeTier::Standard,
        4,
        2,
        Bytes::from_static(b"frozen")
    ));
    match registry.read_source(id(1), 0) {
        SegmentReadSource::InFlight(data) => assert_eq!(&data[..], b"frozen"),
        other => panic!("expected InFlight, got {other:?}"),
    }
    assert_eq!(registry.in_flight_count(), 1);
    registry.seal(id(1), test_metadata(id(1), true), 0).unwrap();
    assert!(matches!(registry.read_source(id(1), 0), SegmentReadSource::Sealed));
    assert_eq!(registry.in_flight_count(), 0, "seal must clear the in-flight window");
}

#[test]
fn attach_on_missing_entry_inserts_registry_only_reserve() {
    let mut registry = registry();
    assert!(
        registry.attach_in_flight(id(1), SizeTier::Small, 2, 1, Bytes::from_static(b"data")),
        "attach must self-heal the missing entry"
    );
    let entry = registry.get(id(1), 0).unwrap();
    assert_eq!(entry.state, SegmentState::Reserved);
    assert!(matches!(registry.read_source(id(1), 0), SegmentReadSource::InFlight(_)));
    assert!(registry.reserve(id(1), test_metadata(id(1), false), 0).is_ok());
    assert!(registry.get(id(1), 0).unwrap().metadata.sealed_at.is_none());
}

#[test]
fn attach_on_sealed_entry_is_rejected() {
    let mut registry = registry();
    registry.reserve(id(1), test_metadata(id(1), false), 0).unwrap();
    registry.seal(id(1), test_metadata(id(1), true), 0).unwrap();
    assert!(
        !registry.attach_in_flight(id(1), SizeTier::Standard, 4, 2, Bytes::from_static(b"x")),
        "a sealed entry must never accept an in-flight attach"
    );
}

#[test]
fn seal_queued_flag_roundtrip() {
    let mut registry = registry();
    registry.reserve(id(1), test_metadata(id(1), false), 0).unwrap();
    assert!(registry.attach_in_flight(id(1), SizeTier::Standard, 4, 2, Bytes::from_static(b"d")));
    assert_eq!(registry.in_flight_unqueued_count(), 0, "attach marks the seal queued");
    registry.mark_seal_unqueued(id(1));
    assert_eq!(registry.in_flight_unqueued_count(), 1, "failed enqueue → retry set");
    registry.mark_seal_queued(id(1));
    assert_eq!(registry.in_flight_unqueued_count(), 0);
    registry.seal(id(1), test_metadata(id(1), true), 0).unwrap();
    assert_eq!(registry.in_flight_count(), 0);
    assert_eq!(registry.in_flight_unqueued_count(), 0);
}

#[test]
fn grace_ends_exactly_after_its_time() {
    let mut registry = SegmentLifecycleRegistry::new(&grace_config(100));
    registry.reserve(id(1), test_metadata(id(1), false), 7).unwrap();
    registry.delete(id(1), 50).unwrap();
    assert!(registry.get(id(1), 149).is_some());
    assert!(registry.get(id(1), 150).is_none());
    assert_eq!(registry.validate_reserve(id(1), 149), Err(TransitionError::AlreadyDeleted));
    assert_eq!(registry.validate_seal(id(1), 150), Err(TransitionError::Missing));
    assert_eq!(registry.validate_delete(id(1), 150), Err(TransitionError::Missing));
}

#[test]
fn data_positions_are_kept_for_reserved_segments_only() {
    let mut registry = registry();
    let first = DataWalPos { file_seq: 1, offset: 10 };
    let second = DataWalPos { file_seq: 1, offset: 30 };
    registry.record_data_wal_pos(id(1), first);
    assert_eq!(registry.last_data_wal_pos(id(1)), None);
    registry.reserve(id(1), test_metadata(id(1), false), 0).unwrap();
    registry.record_data_wal_pos(id(1), first);
    registry.record_data_wal_pos(id(1), second);
    assert_eq!(registry.last_data_wal_pos(id(1)), Some(second));
    registry.seal(id(1), test_metadata(id(1), true), 0).unwrap();
    registry.record_data_wal_pos(id(1), first);
    assert_eq!(registry.last_data_wal_pos(id(1)), Some(second));
}

#[test]
fn refresh_keeps_what_it_does_not_name() {
    let mut registry = registry();
    assert_eq!(
        registry.refresh_metadata(id(1), None, None, None, 0),
        Err(TransitionError::Missing)
    );
    registry.reserve(id(1), test_metadata(id(1), false), 0).unwrap();
    let mut sealed = test_metadata(id(1), true);
    sealed.merkle_root = Some(HashOutput::from_bytes([1; 32]));
    sealed.pool_id = 3;
    registry.seal(id(1), sealed, 0).unwrap();
    let mut nodes = NodeList::new();
    nodes.push(NodeId::new("n1"));
    let root = HashOutput::from_bytes([2; 32]);
    registry.refresh_metadata(id(1), Some(root), Some(nodes), None, 0).unwrap();
    let entry = registry.get(id(1), 0).unwrap();
    assert_eq!(entry.state, SegmentState::Sealed);
    assert_eq!(entry.metadata.merkle_root, Some(root));
    assert_eq!(entry.metadata.pool_id, 3);
    assert_eq!(entry.metadata.storage_locations.len(), 1);
    assert_eq!(entry.metadata.storage_locations.get(0).as_str(), "n1");
    registry.refresh_metadata(id(1), Some(root), None, Some(8), 0).unwrap();
    let entry = registry.get(id(1), 0).unwrap();
    assert_eq!(entry.metadata.pool_id, 8);
    assert_eq!(entry.metadata.storage_locations.len(), 1);
}

#[test]
fn node_lists_keep_their_order_past_the_inline_size() {
    let mut nodes = NodeList::new();
    for n in 0..20 {
        nodes.push(NodeId::new(&format!("node-{n}")));
    }
    let copy = nodes.duplicate();
    assert_eq!(copy.len(), 20);
    for n in 0..20 {
        assert_eq!(copy.get(n).as_str(), format!("node-{n}"));
    }
    assert_eq!(copy, nodes);
}

#[test]
fn transition_errors_read_as_sentences() {
    assert_eq!(
        TransitionError::Missing.message(),
        "segment not present in the lifecycle registry"
    );
    assert_eq!(TransitionError::AlreadyReserved.message(), "segment is already reserved");
    assert_eq!(TransitionError::AlreadySealed.message(), "segment is already sealed");
    assert_eq!(TransitionError::AlreadyDeleted.message(), "segment is already deleted");
    assert_eq!(TransitionError::NotReserved.message(), "segment is not in the Reserved state");
    assert_eq!(
        TransitionError::DurableWriteFailed("disk full".to_string()).message(),
        "durable lifecycle write failed: disk full"
    );
}
