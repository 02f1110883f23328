use oceanfs_segment::handle::SegmentHandle;
use oceanfs_segment::node_list::NodeId;
use oceanfs_segment::types::SegmentId;

#[test]
fn handle_stores_id() {
    let id = SegmentId::from_u128(77);
    let handle = SegmentHandle::new(id, vec![]);
    assert_eq!(handle.id(), id);
}

#[test]
fn handle_stores_node_ids() {
    let nodes = vec![NodeId::new("a"), NodeId::new("b")];
    let handle = SegmentHandle::new(SegmentId::from_u128(1), nodes.clone());
    assert_eq!(handle.node_ids(), nodes.as_slice());
}

#[test]
fn empty_node_ids_is_valid() {
    let handle = SegmentHandle::new(SegmentId::from_u128(1), vec![]);
    assert!(handle.node_ids().is_empty());
}
