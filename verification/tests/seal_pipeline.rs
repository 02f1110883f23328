use bytes::Bytes;
use oceanfs_segment::coordinator::SegmentLifecycleCoordinator;
use oceanfs_segment::error::TransitionError;
use oceanfs_segment::pool::SealingWork;
use oceanfs_segment::seal_pipeline::{
    begin_seal, end_seal, queue_of, reserved, SealDrain, SealQueue, SealStep,
};
use oceanfs_segment::types::{HashOutput, LifecycleConfig, SegmentId, SizeTier};

fn work(n: u128, tier: SizeTier) -> SealingWork {
    SealingWork {
        segment_id: SegmentId::from_u128(n),
        segment_data: Bytes::from_static(b"data"),
        tier,
        ec_k: 4,
        ec_m: 2,
        strip_size_bytes: 64,
    }
}

#[test]
fn drain_runs_until_both_queues_are_closed() {
    assert!(SealDrain::start(true, false).is_none());
    assert!(SealDrain::start(false, true).is_none());
    let mut drain = SealDrain::start(true, true).unwrap();
    assert!(!drain.closed(SealQueue::Small));
    assert!(!drain.closed(SealQueue::Small));
    assert!(drain.closed(SealQueue::Standard));
}

#[test]
fn a_segment_without_an_entry_is_reserved_first() {
    let mut coordinator =
        SegmentLifecycleCoordinator::new(&LifecycleConfig::default()).with_event_wal();
    match begin_seal(&coordinator, &work(1, SizeTier::Small), 0) {
        SealStep::Reserve(pending) => {
            assert_eq!(pending.id, SegmentId::from_u128(1));
            let (done, _) = coordinator.complete(pending, Ok(()), 0);
            assert!(matches!(reserved(done), SealStep::Persist));
        }
        other => panic!("expected a reservation, got {other:?}"),
    }
    assert!(matches!(begin_seal(&coordinator, &work(1, SizeTier::Small), 0), SealStep::Persist));
}

#[test]
fn a_failed_reservation_defers_the_seal() {
    assert!(matches!(
        reserved(Err(TransitionError::DurableWriteFailed("full".to_string()))),
        SealStep::Defer(TransitionError::DurableWriteFailed(_))
    ));
    assert!(matches!(reserved(Err(TransitionError::AlreadySealed)), SealStep::Persist));
    assert!(matches!(reserved(Err(TransitionError::AlreadyDeleted)), SealStep::Persist));
}

#[test]
fn only_persisted_segments_are_told_of_and_recycled() {
    let root = HashOutput::from_bytes([3; 32]);
    let end = end_seal(SizeTier::Small, true, Some(root), true);
    assert_eq!(end.notify, Some(root));
    assert_eq!(end.recycle, Some(SealQueue::Small));
    let end = end_seal(SizeTier::Multi, true, None, true);
    assert_eq!(end.notify, None);
    assert_eq!(end.recycle, Some(SealQueue::Standard));
    let end = end_seal(SizeTier::Standard, true, Some(root), false);
    assert_eq!(end.notify, None);
    let end = end_seal(SizeTier::Standard, false, Some(root), true);
    assert_eq!(end.notify, None);
    assert_eq!(end.recycle, None);
    assert_eq!(queue_of(SizeTier::Standard), SealQueue::Standard);
}
