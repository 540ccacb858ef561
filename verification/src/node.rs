//! Node records: handles, the block of relative links, and the stored node.

use vstd::prelude::*;

use crate::slab::SlabIndex;
use crate::tree::Tree;

verus! {

/// Handle to a logical node: the slot it occupies plus the generation the
/// slot was stamped with when the node was inserted. Two handles are equal
/// iff slot and generation match.
#[derive(Debug, Clone, Copy, PartialEq, Eq, Hash, Structural)]
pub struct NodeId {
    pub index: SlabIndex,
}

impl NodeId {
    pub fn new(index: SlabIndex) -> (r: Self)
        ensures
            r.index == index,
    {
        NodeId { index }
    }

    /// The slot key of this handle, as a mathematical integer.
    pub open spec fn key(self) -> int {
        self.index.key as int
    }
}

/// Names one of the five relative links of a node.
#[derive(Debug, Clone, Copy, PartialEq, Eq, Hash)]
pub enum RelativeType {
    Parent,
    FirstChild,
    LastChild,
    PrevSibling,
    NextSibling,
}

impl RelativeType {
    /// Which handle this relative selects out of a `Relatives` block.
    pub open spec fn spec_get_id(self, relatives: Relatives) -> Option<NodeId> {
        match self {
            RelativeType::Parent => relatives.parent,
            RelativeType::FirstChild => relatives.first_child,
            RelativeType::LastChild => relatives.last_child,
            RelativeType::PrevSibling => relatives.prev_sibling,
            RelativeType::NextSibling => relatives.next_sibling,
        }
    }

    pub fn get_id(&self, relatives: &Relatives) -> (r: Option<NodeId>)
        ensures
            r == self.spec_get_id(*relatives),
    {
        match self {
            RelativeType::Parent => relatives.parent,
            RelativeType::FirstChild => relatives.first_child,
            RelativeType::LastChild => relatives.last_child,
            RelativeType::PrevSibling => relatives.prev_sibling,
            RelativeType::NextSibling => relatives.next_sibling,
        }
    }
}

/// The five optional relative links of a node.
#[derive(Debug, Clone, Copy, PartialEq, Eq)]
pub struct Relatives {
    pub parent: Option<NodeId>,
    pub first_child: Option<NodeId>,
    pub last_child: Option<NodeId>,
    pub prev_sibling: Option<NodeId>,
    pub next_sibling: Option<NodeId>,
}

impl Relatives {
    /// A block with every link absent.
    pub open spec fn spec_empty() -> Relatives {
        Relatives {
            parent: None,
            first_child: None,
            last_child: None,
            prev_sibling: None,
            next_sibling: None,
        }
    }

    pub fn empty() -> (r: Relatives)
        ensures
            r == Relatives::spec_empty(),
    {
        Relatives {
            parent: None,
            first_child: None,
            last_child: None,
            prev_sibling: None,
            next_sibling: None,
        }
    }
}

impl Default for Relatives {
    fn default() -> (r: Relatives)
        ensures
            r == Relatives::spec_empty(),
    {
        Relatives::empty()
    }
}

/// A stored node: payload, relative links, and the generation stamped when
/// the node was inserted into its slot.
#[derive(Debug)]
pub struct Node<T> {
    pub relatives: Relatives,
    pub data: T,
    pub generation: usize,
}

impl<T> Node<T> {
    pub fn new(data: T, generation: usize) -> (r: Self)
        ensures
            r.data == data,
            r.generation == generation,
            r.relatives == Relatives::spec_empty(),
    {
        Node { relatives: Relatives::empty(), data, generation }
    }
}

/// A read-only cursor: a borrowed tree and a current node.
pub struct NodePtr<'a, T> {
    pub tree: &'a Tree<T>,
    pub node_id: NodeId,
}

impl<'a, T> NodePtr<'a, T> {
    pub open spec fn wf(self) -> bool {
        self.tree.inv() && self.tree.resolves(self.node_id)
    }

    pub(crate) fn new(tree: &'a Tree<T>, node_id: NodeId) -> (r: NodePtr<'a, T>)
        requires
            tree.inv(),
            tree.resolves(node_id),
        ensures
            r.wf(),
            r.tree == tree,
            r.node_id == node_id,
    {
        NodePtr { tree, node_id }
    }

    /// Moves the cursor to a live node.
    pub fn walk(&mut self, node_id: NodeId)
        requires
            old(self).wf(),
            old(self).tree.resolves(node_id),
        ensures
            final(self).wf(),
            final(self).tree == old(self).tree,
            final(self).node_id == node_id,
    {
        self.node_id = node_id;
    }

    /// Moves the cursor along one of the current node's links, if that link
    /// is present and live.
    pub fn try_walk_to(&mut self, relative: RelativeType) -> (r: Option<NodeId>)
        requires
            old(self).wf(),
        ensures
            final(self).wf(),
            final(self).tree == old(self).tree,
            match r {
                Some(id) => relative.spec_get_id(
                    old(self).tree.rel(old(self).node_id.index.key as int),
                ) == Some(id) && final(self).node_id == id && old(self).tree.resolves(id),
                None => final(self).node_id == old(self).node_id && match relative.spec_get_id(
                    old(self).tree.rel(old(self).node_id.index.key as int),
                ) {
                    Some(id) => !old(self).tree.resolves(id),
                    None => true,
                },
            },
    {
        let target = relative.get_id(self.tree.relatives_of(self.node_id));
        match target {
            Some(id) => {
                if self.tree.node_exists(id) {
                    self.node_id = id;
                    Some(id)
                } else {
                    None
                }
            },
            None => None,
        }
    }

    /// Like `try_walk_to`, but the link must be present and live.
    pub fn walk_to(&mut self, relative: RelativeType) -> (r: NodeId)
        requires
            old(self).wf(),
            match relative.spec_get_id(old(self).tree.rel(old(self).node_id.index.key as int)) {
                Some(id) => old(self).tree.resolves(id),
                None => false,
            },
        ensures
            final(self).wf(),
            final(self).tree == old(self).tree,
            Some(r) == relative.spec_get_id(
                old(self).tree.rel(old(self).node_id.index.key as int),
            ),
            final(self).node_id == r,
    {
        match self.try_walk_to(relative) {
            Some(id) => id,
            None => vstd::pervasive::unreached(),
        }
    }

    /// The handle under the cursor.
    pub fn node_id(&self) -> (r: NodeId)
        ensures
            r == self.node_id,
    {
        self.node_id
    }

    /// The links of the node under the cursor.
    pub fn relatives(&self) -> (r: &Relatives)
        requires
            self.wf(),
        ensures
            *r == self.tree.rel(self.node_id.index.key as int),
    {
        self.tree.relatives_of(self.node_id)
    }

    /// The payload under the cursor.
    pub fn data(&self) -> (r: &T)
        requires
            self.wf(),
        ensures
            *r == self.tree.data_at(self.node_id.index.key as int),
    {
        self.tree.data(self.node_id)
    }
}

} // verus!
