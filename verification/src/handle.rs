//! A reference to a segment, for those who wrote to it.

use crate::node_list::NodeId;
use crate::types::SegmentId;
use vstd::prelude::*;

verus! {

/// A segment's identity, with the nodes that store its shards.
#[derive(Clone, Debug)]
pub struct SegmentHandle {
    id: SegmentId,
    node_ids: Vec<NodeId>,
}

impl SegmentHandle {
    /// The segment.
    pub closed spec fn segment(&self) -> SegmentId {
        self.id
    }

    /// The nodes that store its shards.
    pub closed spec fn nodes(&self) -> Seq<NodeId> {
        self.node_ids@
    }

    /// A handle to a segment on the given nodes.
    pub fn new(id: SegmentId, node_ids: Vec<NodeId>) -> (h: Self)
        ensures
            h.segment() == id,
            h.nodes() == node_ids@,
    {
        SegmentHandle { id, node_ids }
    }

    /// The segment's identifier.
    pub fn id(&self) -> (id: SegmentId)
        ensures
            id == self.segment(),
    {
        self.id
    }

    /// The nodes that store the segment's shards.
    pub fn node_ids(&self) -> (nodes: &[NodeId])
        ensures
            nodes@ == self.nodes(),
    {
        self.node_ids.as_slice()
    }
}

} // verus!
