//! Node names, and the inline list of them that segment metadata carries.

use vstd::prelude::*;

verus! {

/// Name of a storage node.
#[derive(Clone, Debug, PartialEq, Eq, Hash)]
pub struct NodeId {
    name: String,
}

impl View for NodeId {
    type V = Seq<char>;

    closed spec fn view(&self) -> Seq<char> {
        self.name@
    }
}

impl NodeId {
    /// The node named `name`.
    pub fn new(name: &str) -> (id: Self)
        ensures
            id@ == name@,
    {
        NodeId { name: name.to_owned() }
    }

    /// The node whose name is `name`.
    pub fn from_name(name: String) -> (id: Self)
        ensures
            id@ == name@,
    {
        NodeId { name }
    }

    /// The node's name.
    pub fn as_str(&self) -> (name: &str)
        ensures
            name@ == self@,
    {
        self.name.as_str()
    }
}

/// A list of node names with room for sixteen of them in place.
#[verifier::external_body]
#[derive(Debug, PartialEq, Eq)]
pub struct NodeList {
    nodes: smallvec::SmallVec<[NodeId; 16]>,
}

/// The names in a [`NodeList`], in order.
pub uninterp spec fn node_names(list: NodeList) -> Seq<Seq<char>>;

impl View for NodeList {
    type V = Seq<Seq<char>>;

    open spec fn view(&self) -> Seq<Seq<char>> {
        node_names(*self)
    }
}

/// The names in an optional list.
pub open spec fn optional_names(list: Option<NodeList>) -> Option<Seq<Seq<char>>> {
    match list {
        Some(l) => Some(l@),
        None => None,
    }
}

/// Wraps `smallvec::SmallVec::new`: the new list is empty.
#[verifier::external_body]
fn smallvec_new() -> (list: NodeList)
    ensures
        node_names(list) == Seq::<Seq<char>>::empty(),
{
    NodeList { nodes: smallvec::SmallVec::new() }
}

/// Wraps `smallvec::SmallVec::push`: the item goes to the end of the list.
#[verifier::external_body]
fn smallvec_push(list: &mut NodeList, id: NodeId)
    ensures
        node_names(*final(list)) == node_names(*old(list)).push(id@),
{
    list.nodes.push(id);
}

/// Wraps `smallvec::SmallVec::len`: the number of items in the list.
#[verifier::external_body]
fn smallvec_len(list: &NodeList) -> (n: usize)
    ensures
        n == node_names(*list).len(),
{
    list.nodes.len()
}

/// Wraps the index operator of `smallvec::SmallVec`: the item at `index`.
#[verifier::external_body]
fn smallvec_index(list: &NodeList, index: usize) -> (id: &NodeId)
    requires
        index < node_names(*list).len(),
    ensures
        id@ == node_names(*list)[index as int],
{
    &list.nodes[index]
}

impl NodeList {
    /// The list of no nodes.
    pub fn new() -> (list: Self)
        ensures
            list@ == Seq::<Seq<char>>::empty(),
    {
        smallvec_new()
    }

    /// Appends a node.
    pub fn push(&mut self, id: NodeId)
        ensures
            final(self)@ == old(self)@.push(id@),
    {
        smallvec_push(self, id);
    }

    /// Number of nodes in the list.
    pub fn len(&self) -> (n: usize)
        ensures
            n == self@.len(),
    {
        smallvec_len(self)
    }

    /// The node at `index`.
    pub fn get(&self, index: usize) -> (id: &NodeId)
        requires
            index < self@.len(),
        ensures
            id@ == self@[index as int],
    {
        smallvec_index(self, index)
    }

    /// A list of the same nodes.
    pub fn duplicate(&self) -> (list: Self)
        ensures
            list@ == self@,
    {
        let mut list = NodeList::new();
        let mut i: usize = 0;
        let n: usize = self.len();
        while i < n
            invariant
                i <= n == self@.len(),
                list@ =~= self@.subrange(0, i as int),
            decreases n - i,
        {
            list.push(NodeId::new(self.get(i).as_str()));
            i = i + 1;
        }
        assert(self@.subrange(0, n as int) =~= self@);
        list
    }
}

} // verus!
