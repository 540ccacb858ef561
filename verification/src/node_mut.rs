//! A builder-style cursor: it owns the tree, remembers a current node, and
//! chains appends and walks. `done` hands the tree back.

use vstd::prelude::*;

use crate::node::{NodeId, RelativeType};
use crate::slab::SlabIndex;
use crate::tree::Tree;

verus! {

pub struct NodeMut<T> {
    pub tree: Tree<T>,
    pub node_id: NodeId,
}

impl<T> NodeMut<T> {
    pub open spec fn wf(self) -> bool {
        self.tree.wf() && self.tree.resolves(self.node_id)
    }

    /// Starts a cursor at a live node.
    pub fn new(tree: Tree<T>, node_id: NodeId) -> (r: NodeMut<T>)
        requires
            tree.wf(),
            tree.resolves(node_id),
        ensures
            r.wf(),
            r.tree == tree,
            r.node_id == node_id,
    {
        NodeMut { tree, node_id }
    }

    /// Appends a child under the current node and stays put.
    #[verifier::rlimit(100)]
    #[verifier::spinoff_prover]
    pub fn append(&mut self, data: T) -> (r: NodeId)
        requires
            old(self).wf(),
        ensures
            final(self).wf(),
            final(self).node_id == old(self).node_id,
            final(self).tree.resolves(r),
            final(self).tree.kids_of(old(self).node_id.index.key as int) == old(self).tree.kids_of(old(self).node_id.index.key as int).push(r.index.key as int),
            final(self).tree.data_at(r.index.key as int) == data,
    {
        self.tree.append_child(self.node_id, data)
    }

    /// Appends a child under the current node and walks to it.
    #[verifier::rlimit(100)]
    #[verifier::spinoff_prover]
    pub fn append_and_walk(&mut self, data: T) -> (r: NodeId)
        requires
            old(self).wf(),
        ensures
            final(self).wf(),
            final(self).node_id == r,
            final(self).tree.resolves(r),
            final(self).tree.kids_of(old(self).node_id.index.key as int) == old(self).tree.kids_of(old(self).node_id.index.key as int).push(r.index.key as int),
            final(self).tree.data_at(r.index.key as int) == data,
    {
        let child = self.tree.append_child(self.node_id, data);
        self.node_id = child;
        child
    }

    /// Moves the cursor to a live node.
    pub fn walk(&mut self, node_id: NodeId)
        requires
            old(self).wf(),
            old(self).tree.resolves(node_id),
        ensures
            final(self).wf(),
            final(self).tree == old(self).tree,
            final(self).node_id == node_id,
    {
        self.node_id = node_id;
    }

    /// Moves the cursor if the handle is live; a stale handle leaves it.
    pub fn try_walk(&mut self, node_id: NodeId) -> (r: Option<NodeId>)
        requires
            old(self).wf(),
        ensures
            final(self).wf(),
            final(self).tree == old(self).tree,
            match r {
                Some(id) => old(self).tree.resolves(node_id) && id == node_id && final(self).node_id == node_id,
                None => !old(self).tree.resolves(node_id) && final(self).node_id == old(self).node_id,
            },
    {
        if !self.tree.node_exists(node_id) {
            return None;
        }
        self.node_id = node_id;
        Some(node_id)
    }

    /// Moves the cursor along one of the current node's links, if that link
    /// is present and live.
    pub fn try_walk_relative(&mut self, relative: RelativeType) -> (r: Option<NodeId>)
        requires
            old(self).wf(),
        ensures
            final(self).tree == old(self).tree,
            final(self).wf(),
            match r {
                Some(id) => relative.spec_get_id(
                    old(self).tree.rel(old(self).node_id.index.key as int),
                ) == Some(id) && final(self).node_id == id && old(self).tree.resolves(id),
                None => final(self).node_id == old(self).node_id && match relative.spec_get_id(
                    old(self).tree.rel(old(self).node_id.index.key as int),
                ) {
                    Some(id) => !old(self).tree.resolves(id),
                    None => true,
                },
            },
    {
        let target = relative.get_id(self.tree.relatives_of(self.node_id));
        match target {
            Some(id) => {
                if self.tree.node_exists(id) {
                    self.node_id = id;
                    Some(id)
                } else {
                    None
                }
            },
            None => None,
        }
    }

    /// Like `try_walk_relative`, but the link must be present and live.
    pub fn walk_relative(&mut self, relative: RelativeType) -> (r: NodeId)
        requires
            old(self).wf(),
            match relative.spec_get_id(old(self).tree.rel(old(self).node_id.index.key as int)) {
                Some(id) => old(self).tree.resolves(id),
                None => false,
            },
        ensures
            final(self).wf(),
            final(self).tree == old(self).tree,
            Some(r) == relative.spec_get_id(
                old(self).tree.rel(old(self).node_id.index.key as int),
            ),
            final(self).node_id == r,
    {
        match self.try_walk_relative(relative) {
            Some(id) => id,
            None => vstd::pervasive::unreached(),
        }
    }

    /// The payload under the cursor.
    pub fn data(&mut self) -> (r: &mut T)
        requires
            old(self).wf(),
        ensures
            *r == old(self).tree.data_at(old(self).node_id.index.key as int),
            final(self).wf(),
            final(self).node_id == old(self).node_id,
            old(self).tree.same_links(final(self).tree),
            old(self).tree.slab.payload_update(
                final(self).tree.slab,
                old(self).node_id.index.key as int,
            ),
            final(self).tree.data_at(old(self).node_id.index.key as int) == *final(r),
    {
        self.tree.data_mut(self.node_id)
    }

    /// Finishes building and hands the tree back.
    pub fn done(self) -> (r: Tree<T>)
        ensures
            r == self.tree,
    {
        self.tree
    }
}

} // verus!
