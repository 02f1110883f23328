use oceanfs_segment::buffer::ActiveSegment;
use oceanfs_segment::coordinator::SegmentLifecycleCoordinator;
use oceanfs_segment::error::Error;
use oceanfs_segment::lifecycle::SegmentReadSource;
use oceanfs_segment::pool::{
    append_step, AppendStep, CodecConfig, PoolConfig, PoolSlot, SegmentPool, SlotWait,
};
use oceanfs_segment::types::{LifecycleConfig, SegmentId, SegmentSizeConfig, SizeTier};

fn id(n: u128) -> SegmentId {
    SegmentId::from_u128(n)
}

fn size_config() -> SegmentSizeConfig {
    SegmentSizeConfig { small_target_size: 65_536, default_target_size: 4 * 1024 * 1024 }
}

/// A pool and a source of identifiers.
struct Pool {
    pool: SegmentPool,
    next: u128,
}

impl Pool {
    fn with(slots: usize, tier: SizeTier, size_config: &SegmentSizeConfig) -> Pool {
        let ids: Vec<SegmentId> = (1..=slots as u128).map(id).collect();
        let config = PoolConfig { active_pool_size: slots, ec_streaming_encode: false };
        let pool = SegmentPool::new(config, tier, size_config, None, &ids, 0).unwrap();
        Pool { pool, next: 1000 }
    }

    fn standard() -> Pool {
        Pool::with(4, SizeTier::Standard, &size_config())
    }

    fn tiny(slots: usize, target: u64) -> Pool {
        let config = SegmentSizeConfig { small_target_size: target, default_target_size: target };
        Pool::with(slots, SizeTier::Standard, &config)
    }

    fn fresh(&mut self) -> SegmentId {
        self.next += 1;
        id(self.next)
    }

    fn append(&mut self, data: &[u8]) -> (SegmentId, u64, u32) {
        let ids = (self.fresh(), self.fresh());
        let appended = self.pool.append(data, ids, 0).unwrap();
        (appended.segment_id, appended.offset, appended.length)
    }

    fn replay(&mut self, segment_id: SegmentId, data: &[u8]) -> Result<bool, Error> {
        let ids = (self.fresh(), self.fresh());
        self.pool.append_replayed(segment_id, data, ids, 0).map(|work| work.is_some())
    }

    /// Freezes every segment, without arming a slot again.
    fn park(&mut self, slots: usize) {
        for _ in 0..slots {
            let outcome = self.pool.try_append_single_pass(b"x", 0).unwrap();
            let frozen = self.pool.sweep_idle_segments(0, 0);
            assert_eq!(frozen.len(), 1);
            assert_eq!(frozen[0].segment_id, outcome.segment_id);
        }
    }
}

#[test]
fn pool_creation_has_correct_slot_count() {
    let pool = Pool::standard().pool;
    assert_eq!(pool.slot_count(), 4);
    assert_eq!(pool.active_count(), 4, "all slots start in Appending state");
    assert_eq!(pool.storage_tier(), SizeTier::Standard);
}

#[test]
fn pool_append_returns_valid_offset_and_length() {
    let mut pool = Pool::standard();
    let (seg_id, offset, length) = pool.append(b"hello world");
    assert_eq!(offset, 0);
    assert_eq!(length, 11);
    assert_ne!(seg_id, id(0));
}

#[test]
fn append_replayed_rebuilds_segment_under_original_id() {
    let mut pool = Pool::standard();
    let original_id = id(77);
    pool.replay(original_id, b"alpha").unwrap();
    pool.replay(original_id, b"beta").unwrap();

    let read = pool.pool.try_read(original_id, 0, 5).expect("original id must resolve");
    assert_eq!(&read[..], b"alpha");
    let read2 = pool.pool.try_read(original_id, 5, 4).expect("second entry readable");
    assert_eq!(&read2[..], b"beta");
}

#[test]
fn append_replayed_keeps_distinct_segments_distinct() {
    let mut pool = Pool::standard();
    let id_a = id(77);
    let id_b = id(78);
    pool.replay(id_a, b"aaaa").unwrap();
    pool.replay(id_b, b"bbbb").unwrap();

    assert_eq!(&pool.pool.try_read(id_a, 0, 4).expect("id_a")[..], b"aaaa");
    assert_eq!(&pool.pool.try_read(id_b, 0, 4).expect("id_b")[..], b"bbbb");
    assert!(pool.pool.try_read(id_a, 4, 4).is_none(), "id_a must not contain id_b's data");
}

#[test]
fn append_replayed_errors_when_all_slots_occupied() {
    let mut pool = Pool::standard();
    for i in 0..pool.pool.slot_count() {
        pool.replay(id(70 + i as u128), format!("segment-{i}").as_bytes()).unwrap();
    }
    let err = pool.replay(id(99), b"overflow").expect_err("must fail");
    assert_eq!(err, Error::NoSlot);
}

#[test]
fn append_replayed_filled_segment_hands_to_seal_queue() {
    let size_config = size_config();
    let mut pool = Pool::with(4, SizeTier::Small, &size_config);
    let original_id = id(77);
    let target = size_config.small_target_size;
    let payload = vec![0xabu8; target as usize];
    let ids = (pool.fresh(), pool.fresh());
    let work = pool
        .pool
        .append_replayed(original_id, &payload, ids, 0)
        .unwrap()
        .expect("filled rebuilt segment must be enqueued for sealing");
    assert_eq!(work.segment_id, original_id, "seal work must carry the original id");
    let read_len = u32::try_from(target).unwrap();
    assert_eq!(pool.pool.try_read(original_id, 0, read_len).unwrap()[0], 0xab);
}

#[test]
fn custom_pool_size_config() {
    let pool = Pool::with(8, SizeTier::Small, &size_config()).pool;
    assert_eq!(pool.slot_count(), 8);
}

#[test]
fn pool_append_returns_different_segment_ids() {
    let mut pool = Pool::with(2, SizeTier::Standard, &size_config());
    let (id1, _, _) = pool.append(b"a");
    let (id2, _, _) = pool.append(b"b");
    assert_ne!(id1, id(0));
    assert_ne!(id2, id(0));
}

#[test]
fn pool_rotation_fills_segment_and_activates_new_slot() {
    let mut pool = Pool::tiny(4, 10);
    assert_eq!(pool.pool.active_count(), 4, "all 4 slots start appending");

    let data = b"hello world, this is longer than 10 bytes";
    let ids = (pool.fresh(), pool.fresh());
    let appended = pool.pool.append(data, ids, 0).unwrap();
    assert_eq!(appended.offset, 0);
    assert_eq!(appended.length, data.len() as u32);
    assert_ne!(appended.segment_id, id(0));
    assert_eq!(pool.pool.active_count(), 4, "pool should re-activate after fill");
    assert!(appended.work.is_some(), "seal queue should have entries after fill");

    let (seg_id2, offset2, _len2) = pool.append(b"more data");
    assert_eq!(offset2, 0);
    assert_ne!(seg_id2, id(0));
}

#[test]
fn pool_rotation_multiple_fills_all_slots() {
    let mut pool = Pool::tiny(2, 15);
    assert_eq!(pool.pool.active_count(), 2);
    for i in 0..10 {
        let data = format!("fill-iteration-{i:02}-padding");
        let ids = (pool.fresh(), pool.fresh());
        let result = pool.pool.append(data.as_bytes(), ids, 0);
        assert!(result.is_ok(), "append {} must succeed after rotation", i);
    }
    assert!(pool.pool.active_count() > 0, "pool must have active slots after fill cycles");
}

#[test]
fn pool_handles_segment_full_with_seal_queue_not_draining() {
    let mut pool = Pool::tiny(4, 20);
    let mut queued = Vec::new();
    for i in 0..5 {
        let data = format!("fill-data-{i:02}-enough-bytes-to-overflow");
        let ids = (pool.fresh(), pool.fresh());
        let result = pool.pool.append(data.as_bytes(), ids, 0);
        assert!(result.is_ok(), "append {i} must succeed");
        queued.push(result.unwrap().work.unwrap());
    }
    for (i, work) in queued.iter().enumerate() {
        let data = format!("fill-data-{i:02}-enough-bytes-to-overflow");
        assert_eq!(&work.segment_data[..], data.as_bytes());
        let read = pool.pool.try_read(work.segment_id, 0, 100).unwrap();
        assert_eq!(&read[..], data.as_bytes());
    }
}

#[test]
fn pool_slot_state_transitions_after_fill() {
    let mut pool = Pool::tiny(4, 10);
    assert_eq!(pool.pool.active_count(), 4);
    pool.append(b"this is more than 10 bytes, should fill");
    assert!(pool.pool.active_count() >= 3, "at least 3 slots should still be appending");
    for _ in 0..10 {
        let ids = (pool.fresh(), pool.fresh());
        let result = pool.pool.append(b"small", ids, 0);
        assert!(result.is_ok(), "append after rotation must succeed");
    }
    assert!(pool.pool.active_count() > 0, "pool must still have active slots");
}

#[test]
fn take_for_sealing_freezes_segment_in_slot_and_returns_payload() {
    let mut slot = PoolSlot::new(id(1), SizeTier::Standard, &size_config(), 0).unwrap();
    let outcome = slot.try_append(b"payload-data", 0).unwrap();
    let sealed = slot.take_for_sealing().expect("appending slot seals");
    assert_eq!(sealed.segment_id, outcome.segment_id);
    assert_eq!(sealed.tier, SizeTier::Standard);
    assert_eq!(&sealed.data[..], b"payload-data");
    assert!(!slot.is_appending());
    assert!(slot.needs_segment());

    let mut pool = Pool::standard();
    let (seg_id, _, _) = pool.append(b"payload-data");
    let frozen = pool.pool.sweep_idle_segments(0, 0);
    assert_eq!(frozen[0].segment_id, seg_id);
    let read = pool.pool.try_read(seg_id, 0, 12).expect("sealing slot serves reads");
    assert_eq!(&read[..], b"payload-data");
    assert_eq!(pool.pool.active_count(), 3, "one slot moved out of Appending");
}

#[test]
fn take_for_sealing_on_parked_or_idle_slot_returns_none() {
    let mut slot = PoolSlot::new(id(1), SizeTier::Standard, &size_config(), 0).unwrap();
    assert!(slot.take_for_sealing().is_some(), "first seal succeeds");
    assert!(slot.take_for_sealing().is_none(), "second seal is a no-op");
    let mut idle = PoolSlot::new_idle();
    assert!(idle.take_for_sealing().is_none(), "idle slot has nothing to seal");
}

#[test]
fn install_replacement_swaps_sealing_slot_exactly_once() {
    let mut slot = PoolSlot::new(id(1), SizeTier::Standard, &size_config(), 0).unwrap();
    slot.take_for_sealing().expect("park the slot");
    let first = ActiveSegment::new(id(2), SizeTier::Standard, &size_config(), 0).unwrap();
    assert!(slot.install_replacement(first), "sealing slot accepts a replacement");
    assert!(slot.is_appending());
    let second = ActiveSegment::new(id(3), SizeTier::Standard, &size_config(), 0).unwrap();
    assert!(!slot.install_replacement(second), "already-appending slot refuses installs");
    assert!(slot.is_appending());
    assert_eq!(slot.try_append(b"x", 0).unwrap().segment_id, id(2));
}

#[test]
fn install_replacement_accepts_idle_slots() {
    let mut idle = PoolSlot::new_idle();
    let replacement = ActiveSegment::new(id(2), SizeTier::Standard, &size_config(), 0).unwrap();
    assert!(idle.install_replacement(replacement));
    assert!(idle.is_appending());
}

#[test]
fn append_skips_non_appending_slot_without_consuming_hook() {
    let mut pool = Pool::with(2, SizeTier::Standard, &size_config());
    pool.park(1);
    let mut calls = 0;
    let ids = (pool.fresh(), pool.fresh());
    let appended = pool.pool.append(b"data", ids, 0).unwrap();
    calls += 1;
    assert_eq!(calls, 1, "hook fires exactly once");
    assert_eq!(appended.length, 4);
    assert_ne!(appended.segment_id, id(0));
    assert_eq!(appended.offset, 0);
}

#[test]
fn fill_append_invokes_hook_before_seal_enqueue() {
    let mut pool = Pool::tiny(2, 10);
    let ids = (pool.fresh(), pool.fresh());
    let appended = pool.pool.append(b"this fills the segment", ids, 0).unwrap();
    assert_eq!(appended.length, 22);
    let recorded = (appended.segment_id, appended.offset, appended.length);
    let work = appended.work.expect("filled segment enqueued");
    assert_eq!(work.segment_id, recorded.0, "hook ran before enqueue");
    assert_eq!(work.tier, SizeTier::Standard);
    assert_eq!(&work.segment_data[..], b"this fills the segment");

    assert!(pool.pool.active_count() >= 1, "slot re-armed after fill");
    let read =
        pool.pool.try_read(recorded.0, 0, recorded.2).expect("readable during seal window");
    assert_eq!(&read[..], b"this fills the segment");
}

#[test]
fn append_self_heals_when_all_slots_are_parked() {
    let mut pool = Pool::with(2, SizeTier::Standard, &size_config());
    pool.park(2);
    assert_eq!(pool.pool.active_count(), 0);
    let ids = (pool.fresh(), pool.fresh());
    let result = pool.pool.append(b"hello", ids, 0);
    assert!(result.is_ok(), "append must self-heal a parked pool: {result:?}");
    assert_eq!(pool.pool.active_count(), 1, "the appender activated one slot");
}

#[test]
fn append_async_waits_for_reactivation_then_succeeds() {
    let mut pool = Pool::standard();
    pool.park(4);
    assert_eq!(pool.pool.active_count(), 0, "all slots parked");
    let deadline = 5_000;
    assert!(pool.pool.try_append_single_pass(b"hello", 0).is_none());
    assert_eq!(append_step(false, 20, deadline), AppendStep::Wait(4_980));
    let fresh = pool.fresh();
    assert!(pool.pool.try_activate_slot(fresh, 20));
    let outcome = pool.pool.try_append_single_pass(b"hello", 20).unwrap();
    assert_eq!(outcome.segment_id, fresh);
}

#[test]
fn append_async_returns_backpressure_timeout_when_activation_keeps_failing() {
    let mut pool = Pool::with(2, SizeTier::Standard, &size_config());
    pool.park(2);
    assert!(pool.pool.try_append_single_pass(b"hello", 0).is_none());
    assert_eq!(append_step(false, 10, 50), AppendStep::Wait(40));
    assert_eq!(append_step(false, 50, 50), AppendStep::Reject);
}

#[test]
fn append_async_self_heals_when_all_slots_are_parked() {
    let mut pool = Pool::with(2, SizeTier::Standard, &size_config());
    pool.park(2);
    assert!(pool.pool.try_append_single_pass(b"hello", 0).is_none());
    let fresh = pool.fresh();
    let armed = pool.pool.try_activate_slot(fresh, 0);
    assert!(armed);
    assert_eq!(append_step(armed, 0, 5_000), AppendStep::Rescan);
    assert!(pool.pool.try_append_single_pass(b"hello", 0).is_some());
    assert_eq!(pool.pool.active_count(), 1, "the appender activated one slot");
}

#[test]
fn try_read_returns_data_after_append() {
    let mut pool = Pool::standard();
    let data = b"hello world, this is a test segment read";
    let (seg_id, offset, length) = pool.append(data);
    let chunk = pool.pool.try_read(seg_id, offset, length).expect("try_read should find segment");
    assert_eq!(chunk.len(), length as usize);
    assert_eq!(&chunk[..], &data[..length as usize]);
}

#[test]
fn try_read_returns_none_for_unknown_segment() {
    let pool = Pool::standard().pool;
    let result = pool.try_read(id(555), 0, 10);
    assert!(result.is_none(), "try_read must return None for unknown segment");
}

#[test]
fn try_read_respects_offset_and_length() {
    let mut pool = Pool::standard();
    let (seg_id, offset, length) = pool.append(b"abcdefghijklmnopqrstuvwxyz");
    assert_eq!(offset, 0);
    assert_eq!(length, 26);
    let chunk = pool.pool.try_read(seg_id, 5, 5).expect("sub-range read");
    assert_eq!(&chunk[..], b"fghij");
    let chunk = pool.pool.try_read(seg_id, 20, 10).expect("tail read");
    assert_eq!(&chunk[..], b"uvwxyz");
}

#[test]
fn try_read_clamped_at_buffer_end() {
    let mut pool = Pool::standard();
    let (seg_id, offset, _length) = pool.append(b"short");
    assert_eq!(offset, 0);
    let chunk = pool.pool.try_read(seg_id, 0, 100).expect("clamped read");
    assert_eq!(chunk.len(), 5);
    assert_eq!(&chunk[..], b"short");
}

#[test]
fn idle_seal_sweep_seals_partially_filled_segment() {
    let mut pool = Pool::standard();
    let (seg_id, offset, length) = pool.append(b"partial");
    assert_eq!(offset, 0);
    assert_eq!(length, 7);
    for sealed in pool.pool.sweep_idle_segments(0, 10) {
        let fresh = pool.fresh();
        let work = pool.pool.finish_seal_handoff(sealed, fresh, 10);
        assert_eq!(work.segment_id, seg_id);
    }
    assert_eq!(
        &pool.pool.try_read(seg_id, 0, 7).expect("read during seal window")[..],
        b"partial"
    );
    let (new_seg_id, new_offset, _) = pool.append(b"more");
    assert_eq!(new_offset, 0, "fresh segment starts at offset 0");
    assert_ne!(new_seg_id, seg_id, "old segment must be sealed, new append uses a new one");
}

#[test]
fn seal_idle_segments_seals_partially_filled_segment() {
    let mut pool = Pool::with(2, SizeTier::Standard, &size_config());
    let (seg_id, offset, length) = pool.append(b"partial");
    assert_eq!((offset, length), (0, 7));
    for sealed in pool.pool.sweep_idle_segments(0, 0) {
        let fresh = pool.fresh();
        pool.pool.finish_seal_handoff(sealed, fresh, 0);
    }
    let (new_seg_id, new_offset, _) = pool.append(b"more");
    assert_eq!(new_offset, 0);
    assert_ne!(new_seg_id, seg_id, "idle segment must have been sealed");
}

#[test]
fn seal_idle_segments_does_not_seal_empty_segment() {
    let mut pool = Pool::with(2, SizeTier::Standard, &size_config());
    assert!(pool.pool.sweep_idle_segments(0, 0).is_empty());
    assert_eq!(pool.pool.active_count(), 2);
    let (_, offset, _) = pool.append(b"first");
    assert_eq!(offset, 0, "empty segment was not sealed; append lands in it");
}

#[test]
fn idle_driver_retries_deferred_seals_under_queue_backpressure() {
    let mut pool = Pool::tiny(2, 1024);
    let mut coordinator = SegmentLifecycleCoordinator::new(&LifecycleConfig::default())
        .with_idle_seal(vec![SizeTier::Standard], 0);
    // A queue with room for one item.
    let mut queue = Vec::new();
    let mut fill = |pool: &mut Pool, coordinator: &mut SegmentLifecycleCoordinator, data: &[u8]| {
        let ids = (pool.fresh(), pool.fresh());
        let work = pool.pool.append(data, ids, 0).unwrap().work.expect("the segment is filled");
        let id = work.segment_id;
        let registry = &mut coordinator.registry;
        let frozen = work.segment_data.clone();
        assert!(registry.attach_in_flight(id, work.tier, work.ec_k, work.ec_m, frozen));
        if queue.is_empty() {
            queue.push(work);
        } else {
            registry.mark_seal_unqueued(id);
            pool.pool.defer_seal(work);
        }
        id
    };
    let seg_id = fill(&mut pool, &mut coordinator, &[0xEEu8; 2048]);
    let data2 = vec![0xFFu8; 2048];
    let seg2_id = fill(&mut pool, &mut coordinator, &data2);
    assert_ne!(seg_id, seg2_id);
    let registry = &coordinator.registry;
    assert_eq!(registry.in_flight_count(), 2, "both fills' entries are in flight");
    assert!(matches!(registry.read_source(seg2_id, 0), SegmentReadSource::InFlight(_)));
    assert_eq!(registry.in_flight_unqueued_count(), 1, "enqueue failed: retry set");
    let chunk = pool.pool.try_read(seg2_id, 0, 2048).expect("readable during the stall");
    assert_eq!(&chunk[..], &data2[..]);

    assert_eq!(queue.pop().expect("first seal queued").segment_id, seg_id);
    let pending = coordinator.retry_deferred_seals();
    assert_eq!(pending.len(), 1);
    for (id, tier, data) in pending {
        assert_eq!((id, tier), (seg2_id, SizeTier::Standard));
        assert_eq!(&data[..], &data2[..]);
        coordinator.registry.mark_seal_queued(id);
    }
    assert_eq!(
        coordinator.registry.in_flight_unqueued_count(),
        0,
        "the idle driver must retry the deferred seal"
    );
}

#[test]
fn a_sweep_retries_the_idle_seals_that_could_not_be_queued() {
    let mut pool = Pool::with(2, SizeTier::Standard, &size_config());
    let (seg_id, _, _) = pool.append(b"deferred");
    let frozen = pool.pool.sweep_idle_segments(0, 0);
    let mut works = Vec::new();
    for sealed in frozen {
        let fresh = pool.fresh();
        works.push(pool.pool.finish_seal_handoff(sealed, fresh, 0));
    }
    for work in works {
        pool.pool.defer_seal(work);
    }
    let chunk = pool.pool.try_read(seg_id, 0, 100).expect("readable during the stall");
    assert_eq!(&chunk[..], b"deferred");
    let retried = pool.pool.sweep_idle_segments(1_000, 0);
    assert_eq!(retried.len(), 1, "the next sweep must retry the deferred seal");
    assert_eq!(retried[0].segment_id, seg_id);
    assert_eq!(&retried[0].data[..], b"deferred");
    assert!(pool.pool.sweep_idle_segments(1_000, 0).is_empty());
}

#[test]
fn sweep_waits_for_the_idle_time() {
    let mut pool = Pool::standard();
    let ids = (pool.fresh(), pool.fresh());
    pool.pool.append(b"x", ids, 100).unwrap();
    assert!(pool.pool.sweep_idle_segments(50, 149).is_empty());
    assert_eq!(pool.pool.sweep_idle_segments(50, 150).len(), 1);
}

#[test]
fn replay_goes_on_past_filled_segments() {
    let mut pool = Pool::tiny(2, 8);
    for n in 0..6 {
        assert!(pool.replay(id(50 + n), b"12345678").unwrap(), "a filled segment is handed over");
    }
    assert_eq!(&pool.pool.try_read(id(50), 0, 8).unwrap()[..], b"12345678");
    pool.pool.remove_seal_buffer(id(50));
    assert!(pool.pool.try_read(id(50), 0, 8).is_none());
}

#[test]
fn replayed_partial_segment_is_sealed_at_the_end() {
    let mut pool = Pool::standard();
    pool.replay(id(77), b"part").unwrap();
    let fresh = pool.fresh();
    let work = pool.pool.seal_replayed_partial(id(77), fresh, 0).unwrap();
    assert_eq!(work.segment_id, id(77));
    assert_eq!(&work.segment_data[..], b"part");
    let fresh = pool.fresh();
    assert!(pool.pool.seal_replayed_partial(id(77), fresh, 0).is_none());
}

#[test]
fn seal_work_carries_the_codec_parameters() {
    let codec = CodecConfig { data_shards: 4, parity_shards: 2, strip_size_bytes: 64 };
    let sizes = SegmentSizeConfig { small_target_size: 4, default_target_size: 4 };
    for (streaming, expected) in [(true, (4, 2, 64)), (false, (0, 0, 0))] {
        let config = PoolConfig { active_pool_size: 1, ec_streaming_encode: streaming };
        let mut pool =
            SegmentPool::new(config, SizeTier::Small, &sizes, Some(codec), &vec![id(1)], 0)
                .unwrap();
        assert_eq!(pool.ec_params(), expected);
        let work = pool.append(b"12345", (id(2), id(3)), 0).unwrap().work.unwrap();
        assert_eq!((work.ec_k, work.ec_m, work.strip_size_bytes), expected);
    }
}

#[test]
fn inline_tier_has_no_pool() {
    let config = PoolConfig { active_pool_size: 1, ec_streaming_encode: false };
    let result =
        SegmentPool::new(config, SizeTier::Inline, &size_config(), None, &vec![id(1)], 0);
    assert!(matches!(result.err(), Some(Error::InlineTier)));
}

#[test]
fn slot_wait_ends_unless_a_slot_is_armed() {
    let mut wait = SlotWait::new(100);
    assert_eq!(wait.slice(100), Some(1));
    assert_eq!(wait.slice(110), None);
    wait.woken(false, 105);
    assert_eq!(wait.slice(110), None);
    wait.woken(true, 105);
    assert_eq!(wait.slice(110), Some(1));
    assert_eq!(wait.slice(115), None);
}

#[test]
fn interleaved_replays_read_back_apart() {
    for b_at in 0..3 {
        let mut pool = Pool::standard();
        let mut calls = vec![(id(77), b"xx"), (id(77), b"zz")];
        calls.insert(b_at, (id(78), b"yy"));
        for (segment, data) in calls {
            pool.replay(segment, data).unwrap();
        }
        assert_eq!(&pool.pool.try_read(id(77), 0, u32::MAX).unwrap()[..], b"xxzz");
        assert_eq!(&pool.pool.try_read(id(78), 0, u32::MAX).unwrap()[..], b"yy");
    }
}
