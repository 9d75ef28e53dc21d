//! The arena: tree nodes in one growable store, linked by their indices.

use crate::lazy_cell::LazyCell;
use crate::node_type::NodeType;
use crate::range::Range;
use vstd::prelude::*;

verus! {

/// The index of a node in its arena, assigned in the order of creation.
#[derive(Clone, Copy, Debug, PartialEq, Eq, Structural)]
pub struct NodeId(pub usize);

/// The index of the root of every tree.
pub open spec fn zero_node_id() -> NodeId {
    NodeId(0)
}

/// What a leaf and an inner node store beyond their links.
pub enum RawNodeData {
    /// A token and the span that it covers.
    Leaf { range: Range },
    /// An inner node: its first child, and its span once somebody asked for
    /// it.
    Composite { first_child: Option<NodeId>, cached_range: LazyCell<Range> },
}

/// A node of the arena.
pub struct RawNode {
    pub ty: NodeType,
    pub parent: Option<NodeId>,
    pub next_sibling: Option<NodeId>,
    pub data: RawNodeData,
}

impl RawNode {
    /// The first child of an inner node that has children.
    pub open spec fn first_child_spec(&self) -> Option<NodeId> {
        match self.data {
            RawNodeData::Leaf { .. } => None,
            RawNodeData::Composite { first_child, .. } => first_child,
        }
    }

    /// This node with `id` as its first child.
    pub open spec fn with_first_child(self, id: NodeId) -> RawNode {
        match self.data {
            RawNodeData::Leaf { .. } => self,
            RawNodeData::Composite { cached_range, .. } => RawNode {
                data: RawNodeData::Composite { first_child: Some(id), cached_range },
                ..self
            },
        }
    }

    /// This node with `id` as its next sibling.
    pub open spec fn with_next_sibling(self, id: NodeId) -> RawNode {
        RawNode { next_sibling: Some(id), ..self }
    }

    /// This node with `cell` as the cache of its span.
    pub open spec fn with_cache(self, cell: LazyCell<Range>) -> RawNode {
        match self.data {
            RawNodeData::Leaf { .. } => self,
            RawNodeData::Composite { first_child, .. } => RawNode {
                data: RawNodeData::Composite { first_child, cached_range: cell },
                ..self
            },
        }
    }

    /// The first child of an inner node that has children.
    #[verifier::when_used_as_spec(first_child_spec)]
    pub fn first_child(&self) -> (child: Option<NodeId>)
        ensures
            child == self.first_child_spec(),
    {
        match &self.data {
            RawNodeData::Leaf { .. } => None,
            RawNodeData::Composite { first_child, .. } => *first_child,
        }
    }

    /// Makes `id` the first child of this inner node.
    pub fn set_first_child(&mut self, id: NodeId)
        requires
            old(self).data is Composite,
        ensures
            *final(self) == old(self).with_first_child(id),
    {
        match &mut self.data {
            RawNodeData::Leaf { .. } => {},
            RawNodeData::Composite { first_child, .. } => {
                *first_child = Some(id);
            },
        }
    }
}

/// The store of the nodes of one tree.
pub struct RawNodes {
    data: Vec<RawNode>,
}

impl View for RawNodes {
    type V = Seq<RawNode>;

    closed spec fn view(&self) -> Seq<RawNode> {
        self.data@
    }
}

impl RawNodes {
    /// A store without nodes.
    pub fn new() -> (nodes: RawNodes)
        ensures
            nodes@ == Seq::<RawNode>::empty(),
    {
        RawNodes { data: Vec::new() }
    }

    /// Appends `node` and returns its index.
    pub fn push(&mut self, node: RawNode) -> (id: NodeId)
        ensures
            final(self)@ == old(self)@.push(node),
            id.0 == old(self)@.len(),
    {
        let result = NodeId(self.data.len());
        self.data.push(node);
        result
    }

    /// The number of nodes.
    pub fn len(&self) -> (len: usize)
        ensures
            len == self@.len(),
    {
        self.data.len()
    }

    /// The node with index `id`.
    pub fn get(&self, id: NodeId) -> (node: &RawNode)
        requires
            id.0 < self@.len(),
        ensures
            *node == self@[id.0 as int],
    {
        &self.data[id.0]
    }

    /// Makes `next` the next sibling of node `id`.
    pub fn set_next_sibling(&mut self, id: NodeId, next: NodeId)
        requires
            id.0 < old(self)@.len(),
        ensures
            final(self)@ == old(self)@.update(
                id.0 as int,
                old(self)@[id.0 as int].with_next_sibling(next),
            ),
    {
        self.data[id.0].next_sibling = Some(next);
        assert(self@ =~= old(self)@.update(
            id.0 as int,
            old(self)@[id.0 as int].with_next_sibling(next),
        ));
    }

    /// Makes `child` the first child of node `id`.
    pub fn set_first_child(&mut self, id: NodeId, child: NodeId)
        requires
            id.0 < old(self)@.len(),
            old(self)@[id.0 as int].data is Composite,
        ensures
            final(self)@ == old(self)@.update(
                id.0 as int,
                old(self)@[id.0 as int].with_first_child(child),
            ),
    {
        self.data[id.0].set_first_child(child);
        assert(self@ =~= old(self)@.update(
            id.0 as int,
            old(self)@[id.0 as int].with_first_child(child),
        ));
    }

    /// Gives the inner node `id` the cache `cell` for its span.
    pub fn set_cache(&mut self, id: NodeId, cell: LazyCell<Range>)
        requires
            id.0 < old(self)@.len(),
            old(self)@[id.0 as int].data is Composite,
        ensures
            final(self)@ == old(self)@.update(id.0 as int, old(self)@[id.0 as int].with_cache(cell)),
    {
        match &mut self.data[id.0].data {
            RawNodeData::Leaf { .. } => {},
            RawNodeData::Composite { cached_range, .. } => {
                *cached_range = cell;
            },
        }
        assert(self@ =~= old(self)@.update(id.0 as int, old(self)@[id.0 as int].with_cache(cell)));
    }
}

} // verus!
