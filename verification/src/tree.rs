//! The tree container and its topology engine: append / prepend, detach,
//! recursive removal and structural clone, all maintaining the sibling and
//! parent link invariants.
//!
//! The links stored in node records are mirrored by two ghost maps: `kids`
//! gives every occupied slot the ordered sequence of its children's slots,
//! and `anc` gives it the path of its ancestors' slots, root first. The
//! invariant ties each stored link to those maps, which is what makes the
//! doubly-linked sibling chains and parent back-references provable.

use vstd::prelude::*;

use crate::node::{Node, NodeId, Relatives};
use crate::slab::{Slab, SlabIndex};

verus! {

pub struct Tree<T> {
    pub slab: Slab<T>,
    pub root_id: Option<NodeId>,
    /// For each occupied slot, the ordered child slots.
    pub kids: Ghost<Map<int, Seq<int>>>,
    /// For each occupied slot, its ancestor slots, outermost first.
    pub anc: Ghost<Map<int, Seq<int>>>,
}

impl<T> Tree<T> {
    /// Whether slot `k` is occupied.
    pub open spec fn occ(self, k: int) -> bool {
        self.slab.occ(k)
    }

    /// The node stored at slot `k`.
    pub open spec fn node_at(self, k: int) -> Node<T> {
        self.slab.node_at(k)
    }

    /// The relative links of the node at slot `k`.
    pub open spec fn rel(self, k: int) -> Relatives {
        self.slab.node_at(k).relatives
    }

    /// The payload of the node at slot `k`.
    pub open spec fn data_at(self, k: int) -> T {
        self.slab.node_at(k).data
    }

    /// The one handle that currently resolves to slot `k`.
    pub open spec fn id_of(self, k: int) -> NodeId {
        NodeId {
            index: SlabIndex {
                key: k as usize,
                generation: self.slab.node_at(k).generation,
            },
        }
    }

    /// Whether a handle resolves in this tree.
    pub open spec fn resolves(self, id: NodeId) -> bool {
        self.slab.resolves(id.index)
    }

    /// The ordered child slots of slot `k`.
    pub open spec fn kids_of(self, k: int) -> Seq<int> {
        self.kids@[k]
    }

    /// The ancestor slots of slot `k`, outermost first.
    pub open spec fn anc_of(self, k: int) -> Seq<int> {
        self.anc@[k]
    }

    /// The ordered child handles of slot `k`.
    pub open spec fn children_of(self, k: int) -> Seq<NodeId> {
        self.kids@[k].map(|i: int, c: int| self.id_of(c))
    }

    /// Whether slot `k` lies in the subtree rooted at slot `r` (including
    /// `r` itself).
    pub open spec fn descends(self, k: int, r: int) -> bool {
        self.occ(k) && (k == r || self.anc@[k].contains(r))
    }

    /// The set of slots of the subtree rooted at slot `r`.
    pub open spec fn desc_set(self, r: int) -> Set<int> {
        Set::new(|k: int| self.descends(k, r))
    }

    /// The links of the `i`-th child of slot `p` agree with the ghost maps.
    pub open spec fn child_at_ok(self, p: int, i: int) -> bool {
        let c = self.kids@[p];
        let k = c[i];
        &&& self.occ(k)
        &&& self.anc@[k] == self.anc@[p].push(p)
        &&& self.rel(k).parent == Some(self.id_of(p))
        &&& self.rel(k).prev_sibling == if i == 0 {
            None::<NodeId>
        } else {
            Some(self.id_of(c[i - 1]))
        }
        &&& self.rel(k).next_sibling == if i == c.len() - 1 {
            None::<NodeId>
        } else {
            Some(self.id_of(c[i + 1]))
        }
    }

    /// Slot `p`'s child chain: the ghost child sequence matches the stored
    /// first/last links and every child's stored links.
    pub open spec fn parent_ok(self, p: int) -> bool {
        let c = self.kids@[p];
        &&& forall|i: int| 0 <= i < c.len() ==> #[trigger] self.child_at_ok(p, i)
        &&& c.no_duplicates()
        &&& self.rel(p).first_child == (if c.len() == 0 {
            None::<NodeId>
        } else {
            Some(self.id_of(c[0]))
        })
        &&& self.rel(p).last_child == (if c.len() == 0 {
            None::<NodeId>
        } else {
            Some(self.id_of(c[c.len() - 1]))
        })
    }

    /// Slot `k`'s ancestor path: coherent prefixes, and the stored parent
    /// link agrees with the path's last element.
    pub open spec fn anc_ok(self, k: int) -> bool {
        let a = self.anc@[k];
        &&& forall|i: int|
            0 <= i < a.len() ==> self.occ(#[trigger] a[i]) && self.anc@[a[i]] == a.take(i)
        &&& match self.rel(k).parent {
            Some(pid) => {
                &&& a.len() > 0
                &&& pid == self.id_of(a.last())
                &&& self.kids@[a.last()].contains(k)
            },
            None => a.len() == 0,
        }
    }

    /// A parentless node sits in no sibling chain: its sibling links are
    /// absent too.
    pub open spec fn lone_ok(self, k: int) -> bool {
        self.rel(k).parent is None ==> self.rel(k).prev_sibling is None && self.rel(
            k,
        ).next_sibling is None
    }

    /// The ghost maps' domain is exactly the occupied slots.
    pub open spec fn maps_ok(self) -> bool {
        &&& forall|k: int|
            #[trigger] self.occ(k) ==> self.kids@.contains_key(k) && self.anc@.contains_key(k)
        &&& forall|k: int| #[trigger] self.kids@.contains_key(k) ==> self.occ(k)
        &&& forall|k: int| #[trigger] self.anc@.contains_key(k) ==> self.occ(k)
    }

    /// The structural invariant, allowing several parentless components (as
    /// arise while a subtree is held by a guard): arena well-formed, ghost
    /// maps mirroring every stored link, and a resolving, parentless root.
    pub open spec fn inv(self) -> bool {
        &&& self.slab.wf()
        &&& self.maps_ok()
        &&& forall|k: int|
            #![trigger self.parent_ok(k)]
            #![trigger self.anc_ok(k)]
            self.occ(k) ==> self.parent_ok(k) && self.anc_ok(k)
        &&& forall|k: int| self.occ(k) ==> #[trigger] self.lone_ok(k)
        &&& match self.root_id {
            Some(r) => self.resolves(r) && self.rel(r.index.key as int).parent is None,
            None => true,
        }
    }

    /// Every parentless node is the root: the container holds exactly one
    /// tree, so a rootless container is empty.
    pub open spec fn rooted(self) -> bool {
        forall|k: int|
            #[trigger] self.occ(k) && self.rel(k).parent is None ==> self.root_id == Some(
                self.id_of(k),
            )
    }

    /// Like `rooted`, but also tolerating the single parentless slot `d`:
    /// the state a guard holds after detaching `d`.
    pub open spec fn rooted_except(self, d: int) -> bool {
        forall|k: int|
            #[trigger] self.occ(k) && self.rel(k).parent is None && k != d ==> self.root_id
                == Some(self.id_of(k))
    }

    /// Full well-formedness of a container between public operations.
    pub open spec fn wf(self) -> bool {
        self.inv() && self.rooted()
    }

    /// `other` differs from `self` at most in payloads: same occupancy,
    /// links, generations, ghost maps and root.
    pub open spec fn same_links(self, other: Tree<T>) -> bool {
        &&& other.kids@ == self.kids@
        &&& other.anc@ == self.anc@
        &&& other.root_id == self.root_id
        &&& other.slab.n() == self.slab.n()
        &&& forall|k: int| 0 <= k < self.slab.n() ==> (#[trigger] other.occ(k) <==> self.occ(k))
        &&& forall|k: int|
            #[trigger] self.occ(k) ==> other.node_at(k).relatives == self.node_at(k).relatives
                && other.node_at(k).generation == self.node_at(k).generation
    }

    pub fn new() -> (r: Self)
        ensures
            r.wf(),
            r.root_id is None,
            r.slab.n() == 0,
            r.slab.count == 0,
            r.slab.generation == 0,
    {
        Tree::with_capacity(0)
    }

    pub fn with_capacity(capacity: usize) -> (r: Self)
        ensures
            r.wf(),
            r.root_id is None,
            r.slab.n() == 0,
            r.slab.count == 0,
            r.slab.generation == 0,
            r.slab.cap == capacity,
    {
        Tree {
            slab: Slab::with_capacity(capacity),
            root_id: None,
            kids: Ghost(Map::empty()),
            anc: Ghost(Map::empty()),
        }
    }

    /// Whether the handle resolves to a live node of this tree.
    pub fn node_exists(&self, node_id: NodeId) -> (r: bool)
        ensures
            r == self.resolves(node_id),
    {
        self.slab.contains(node_id.index)
    }

    pub(crate) fn try_get(&self, node_id: NodeId) -> (r: Option<&Node<T>>)
        ensures
            match r {
                Some(node) => self.resolves(node_id) && *node == self.node_at(
                    node_id.index.key as int,
                ),
                None => !self.resolves(node_id),
            },
    {
        self.slab.try_get(node_id.index)
    }

    pub(crate) fn get(&self, node_id: NodeId) -> (r: &Node<T>)
        requires
            self.resolves(node_id),
        ensures
            *r == self.node_at(node_id.index.key as int),
    {
        match self.slab.try_get(node_id.index) {
            Some(node) => node,
            None => vstd::pervasive::unreached(),
        }
    }

    /// The payload of a live node.
    pub fn data(&self, node_id: NodeId) -> (r: &T)
        requires
            self.resolves(node_id),
        ensures
            *r == self.data_at(node_id.index.key as int),
    {
        &self.get(node_id).data
    }

    /// Mutable access to the payload of a live node. Only the payload can
    /// change through the returned reference; the topology is untouched.
    #[verifier::rlimit(100)]
    #[verifier::spinoff_prover]
    pub fn data_mut(&mut self, node_id: NodeId) -> (r: &mut T)
        requires
            old(self).inv(),
            old(self).resolves(node_id),
        ensures
            *r == old(self).data_at(node_id.index.key as int),
            old(self).same_links(*final(self)),
            old(self).same_links(*final(self)) && final(self).slab.wf() ==> final(self).inv() && (
            old(self).wf() ==> final(self).wf()),
            old(self).slab.payload_update(final(self).slab, node_id.index.key as int)
                ==> final(self).slab.wf(),
            old(self).slab.payload_update(final(self).slab, node_id.index.key as int),
            final(self).root_id == old(self).root_id,
            final(self).kids@ == old(self).kids@,
            final(self).anc@ == old(self).anc@,
            final(self).slab.count == old(self).slab.count,
            final(self).slab.n() == old(self).slab.n(),
            final(self).slab.generation == old(self).slab.generation,
            final(self).data_at(node_id.index.key as int) == *final(r),
            forall|k: int|
                0 <= k < old(self).slab.n() ==> (#[trigger] final(self).occ(k) <==> old(self).occ(k)),
            forall|k: int|
                old(self).occ(k) && k != node_id.index.key as int ==> #[trigger] final(self).node_at(k) == old(self).node_at(k),
            forall|k: int|
                old(self).occ(k) ==> #[trigger] final(self).node_at(k).relatives == old(self).node_at(k).relatives && final(self).node_at(k).generation == old(self).node_at(k).generation,
    {
        proof {
            assert forall|other: Tree<T>|
                #[trigger] old(self).same_links(other) && other.slab.wf() implies other.inv() && (
            old(self).rooted() ==> other.rooted()) by {
                lemma_same_links_same_inv(*old(self), other);
            }
        }
        self.slab.data_mut(node_id.index)
    }

    /// The relative links of a live node, or `None` for a stale handle.
    pub fn try_relatives_of(&self, node_id: NodeId) -> (r: Option<&Relatives>)
        ensures
            match r {
                Some(relatives) => self.resolves(node_id) && *relatives == self.rel(
                    node_id.index.key as int,
                ),
                None => !self.resolves(node_id),
            },
    {
        match self.slab.try_get(node_id.index) {
            Some(node) => Some(&node.relatives),
            None => None,
        }
    }

    /// The relative links of a live node.
    pub fn relatives_of(&self, node_id: NodeId) -> (r: &Relatives)
        requires
            self.resolves(node_id),
        ensures
            *r == self.rel(node_id.index.key as int),
    {
        &self.get(node_id).relatives
    }

    /// The root handle, or `None` for a rootless container.
    pub fn try_root_id(&self) -> (r: Option<NodeId>)
        ensures
            r == self.root_id,
    {
        self.root_id
    }

    /// The root handle of a rooted container.
    pub fn root_id(&self) -> (r: NodeId)
        requires
            self.root_id is Some,
        ensures
            Some(r) == self.root_id,
    {
        match self.root_id {
            Some(r) => r,
            None => vstd::pervasive::unreached(),
        }
    }

    /// Roots a tree that has no root yet. The new node has no relatives.
    #[verifier::rlimit(100)]
    #[verifier::spinoff_prover]
    pub fn set_root(&mut self, data: T) -> (r: NodeId)
        requires
            old(self).wf(),
            old(self).root_id is None,
        ensures
            final(self).wf(),
            final(self).root_id == Some(r),
            final(self).resolves(r),
            !old(self).occ(r.index.key as int),
            final(self).data_at(r.index.key as int) == data,
            final(self).kids_of(r.index.key as int) == Seq::<int>::empty(),
            final(self).anc_of(r.index.key as int) == Seq::<int>::empty(),
            final(self).rel(r.index.key as int) == Relatives::spec_empty(),
            final(self).slab.count == old(self).slab.count + 1,
            final(self).slab.generation == old(self).slab.generation,
            forall|k: int|
                old(self).occ(k) ==> #[trigger] final(self).occ(k) && final(self).node_at(
                    k,
                ) == old(self).node_at(k) && final(self).kids@[k] == old(self).kids@[k]
                    && final(self).anc@[k] == old(self).anc@[k],
            forall|id: NodeId| #[trigger] old(self).resolves(id) ==> final(self).resolves(id),
            forall|h: SlabIndex| #[trigger] old(self).slab.stale(h) ==> final(self).slab.stale(h),
    {
        let generation = self.slab.generation();
        let index = self.slab.insert(Node::new(data, generation));
        let root_id = NodeId::new(index);
        self.root_id = Some(root_id);
        proof {
            let c = index.key as int;
            self.kids@ = self.kids@.insert(c, Seq::empty());
            self.anc@ = self.anc@.insert(c, Seq::empty());
            lemma_grow_isolated(*old(self), *self, c);
            assert forall|id: NodeId| #[trigger] old(self).resolves(id) implies self.resolves(
                id,
            ) by {
                assert(old(self).occ(id.index.key as int));
                assert(self.node_at(id.index.key as int) == old(self).node_at(
                    id.index.key as int,
                ));
            }
        }
        root_id
    }

    /// A read-only cursor positioned at a live node.
    pub fn create_nodeptr<'a>(&'a self, node_id: NodeId) -> (r: crate::node::NodePtr<'a, T>)
        requires
            self.inv(),
            self.resolves(node_id),
        ensures
            r.wf(),
            r.tree == self,
            r.node_id == node_id,
    {
        crate::node::NodePtr::new(self, node_id)
    }

    /// Unlinks a live node from its parent and siblings, closing the gap in
    /// the child chain. The node keeps its children and becomes the root of
    /// its own component; a node with no parent is left untouched.
    pub(crate) fn unlink(&mut self, node_id: NodeId)
        requires
            old(self).wf(),
            old(self).resolves(node_id),
        ensures
            final(self).inv(),
            final(self).rooted_except(node_id.index.key as int),
            final(self).root_id == old(self).root_id,
            final(self).resolves(node_id),
            final(self).rel(node_id.index.key as int).parent is None,
            final(self).kids@[node_id.index.key as int] == old(self).kids@[node_id.index.key as int],
            final(self).anc_of(node_id.index.key as int) == Seq::<int>::empty(),
            final(self).slab.n() == old(self).slab.n(),
            final(self).slab.count == old(self).slab.count,
            final(self).slab.generation == old(self).slab.generation,
            forall|j: int|
                old(self).occ(j) ==> #[trigger] final(self).occ(j) && final(self).id_of(j)
                    == old(self).id_of(j) && final(self).data_at(j) == old(self).data_at(j),
            forall|j: int|
                0 <= j < old(self).slab.n() ==> (#[trigger] final(self).occ(j) <==> old(self).occ(j)),
            forall|j: int|
                #[trigger] final(self).descends(j, node_id.index.key as int) <==> old(self).descends(j, node_id.index.key as int),
            match old(self).rel(node_id.index.key as int).parent {
                Some(pid) => {
                    let pk = pid.index.key as int;
                    &&& old(self).resolves(pid)
                    &&& old(self).kids@[pk].contains(node_id.index.key as int)
                    &&& forall|j: int|
                        old(self).occ(j) && j != pk ==> #[trigger] final(self).kids@[j] == old(self).kids@[j]
                    &&& exists|i: int|
                        0 <= i < old(self).kids@[pk].len() && old(self).kids@[pk][i]
                            == node_id.index.key as int && #[trigger] final(self).kids@[pk]
                            == old(self).kids@[pk].remove(i) && unlink_shape(
                            *old(self),
                            *final(self),
                            node_id.index.key as int,
                            pk,
                            i,
                        )
                },
                None => *final(self) == *old(self),
            },
            forall|h: SlabIndex| #[trigger] old(self).slab.stale(h) ==> final(self).slab.stale(h),
            forall|j: int|
                old(self).occ(j) && !old(self).descends(j, node_id.index.key as int)
                    ==> #[trigger] final(self).anc@[j] == old(self).anc@[j],
    {
        let ghost t0 = *self;
        let ghost dk = node_id.index.key as int;
        let d_rel = *self.relatives_of(node_id);
        let parent_id = match d_rel.parent {
            Some(pid) => pid,
            None => {
                proof {
                    assert(t0.anc_ok(dk));
                    assert(t0.anc@[dk].len() == 0);
                    assert(t0.anc@[dk] =~= Seq::<int>::empty());
                    assert forall|j: int| true implies (#[trigger] self.descends(j, dk) <==> t0.descends(j, dk)) by {
                    }
                }
                return ;
            },
        };
        proof {
            assert(t0.anc_ok(dk));
        }
        let ghost pk = parent_id.index.key as int;
        let ghost ks = t0.kids@[pk];
        proof {
            assert(t0.occ(t0.anc@[dk].last()));
            assert(parent_id == t0.id_of(t0.anc@[dk].last()));
            assert(pk == t0.anc@[dk].last());
            assert(t0.resolves(parent_id));
            assert(ks.contains(dk));
        }
        let ghost i = choose|i: int| 0 <= i < ks.len() && ks[i] == dk;
        proof {
            assert(t0.parent_ok(pk));
            assert(t0.child_at_ok(pk, i));
            assert(dk != pk) by {
                if dk == pk {
                    assert(t0.anc@[dk] == t0.anc@[pk].push(pk));
                }
            }
            if i > 0 {
                assert(t0.child_at_ok(pk, i - 1));
                assert(t0.occ(ks[i - 1]));
                assert(ks[i - 1] != pk) by {
                    if ks[i - 1] == pk {
                        assert(t0.anc@[pk] == t0.anc@[pk].push(pk));
                    }
                }
                assert(ks[i - 1] != dk);
            }
            if i < ks.len() - 1 {
                assert(t0.child_at_ok(pk, i + 1));
                assert(t0.occ(ks[i + 1]));
                assert(ks[i + 1] != pk) by {
                    if ks[i + 1] == pk {
                        assert(t0.anc@[pk] == t0.anc@[pk].push(pk));
                    }
                }
                assert(ks[i + 1] != dk);
                if i > 0 {
                    assert(ks[i + 1] != ks[i - 1]);
                }
            }
        }
        let mut parent_rel = *self.relatives_of(parent_id);
        match d_rel.prev_sibling {
            Some(pv) => {
                proof {
                    assert(pv == t0.id_of(ks[i - 1]));
                    assert(t0.resolves(pv));
                }
                let mut pv_rel = *self.relatives_of(pv);
                pv_rel.next_sibling = d_rel.next_sibling;
                self.slab.set_relatives(pv.index, pv_rel);
            },
            None => {
                parent_rel.first_child = d_rel.next_sibling;
            },
        }
        match d_rel.next_sibling {
            Some(nx) => {
                proof {
                    assert(nx == t0.id_of(ks[i + 1]));
                    assert(t0.resolves(nx));
                    assert(self.slab.resolves(nx.index));
                }
                let mut nx_rel = *self.relatives_of(nx);
                nx_rel.prev_sibling = d_rel.prev_sibling;
                self.slab.set_relatives(nx.index, nx_rel);
            },
            None => {
                parent_rel.last_child = d_rel.prev_sibling;
            },
        }
        proof {
            assert(self.slab.resolves(parent_id.index));
        }
        self.slab.set_relatives(parent_id.index, parent_rel);
        let mut new_d_rel = d_rel;
        new_d_rel.parent = None;
        new_d_rel.prev_sibling = None;
        new_d_rel.next_sibling = None;
        proof {
            assert(self.slab.resolves(node_id.index));
        }
        self.slab.set_relatives(node_id.index, new_d_rel);
        proof {
            let la = t0.anc@[dk].len() as int;
            self.kids@ = self.kids@.insert(pk, ks.remove(i));
            self.anc@ = Map::new(
                |j: int| t0.anc@.dom().contains(j),
                |j: int|
                    if t0.descends(j, dk) {
                        t0.anc@[j].skip(la)
                    } else {
                        t0.anc@[j]
                    },
            );
            assert(unlink_shape(t0, *self, dk, pk, i)) by {
                reveal(unlink_shape);
                assert(self.rel(dk) == (Relatives {
                    parent: None,
                    prev_sibling: None,
                    next_sibling: None,
                    ..t0.rel(dk)
                }));
                assert(self.rel(pk) == (Relatives {
                    first_child: if i == 0 {
                        t0.rel(dk).next_sibling
                    } else {
                        t0.rel(pk).first_child
                    },
                    last_child: if i == ks.len() - 1 {
                        t0.rel(dk).prev_sibling
                    } else {
                        t0.rel(pk).last_child
                    },
                    ..t0.rel(pk)
                }));
                if i > 0 {
                    assert(self.rel(ks[i - 1]) == (Relatives {
                        next_sibling: t0.rel(dk).next_sibling,
                        ..t0.rel(ks[i - 1])
                    }));
                }
                if i < ks.len() - 1 {
                    assert(self.rel(ks[i + 1]) == (Relatives {
                        prev_sibling: t0.rel(dk).prev_sibling,
                        ..t0.rel(ks[i + 1])
                    }));
                }
                assert(self.anc@.dom() =~= t0.anc@.dom());
                assert forall|j: int| #[trigger] t0.occ(j) implies self.anc@[j] == (
                if t0.descends(j, dk) {
                    t0.anc@[j].skip(la)
                } else {
                    t0.anc@[j]
                }) by {
                    assert(t0.anc@.dom().contains(j));
                }
                assert forall|k: int|
                    t0.occ(k) && k != dk && k != pk && (i == 0 || k != ks[i - 1]) && (i
                    == ks.len() - 1 || k != ks[i + 1]) implies #[trigger] self.node_at(k)
                    == t0.node_at(k) by {
                }
            }
            lemma_unlink_wf(t0, *self, dk, pk, i);
            lemma_unlink_basics(t0, *self, dk, pk, i);
            assert(0 <= i < t0.kids@[pk].len() && t0.kids@[pk][i] == dk && self.kids@[pk]
                == t0.kids@[pk].remove(i) && unlink_shape(t0, *self, dk, pk, i));
            assert(self.anc@[dk] =~= Seq::<int>::empty()) by {
                assert(t0.descends(dk, dk));
                assert(t0.anc@[dk].skip(la) =~= Seq::<int>::empty());
            }
            assert(self.resolves(node_id)) by {
                assert(self.occ(dk));
                assert(self.node_at(dk).generation == t0.node_at(dk).generation);
            }
        }
    }

    /// Whether a live node has no children.
    pub fn is_leaf(&self, node_id: NodeId) -> (r: bool)
        requires
            self.inv(),
            self.resolves(node_id),
        ensures
            r == (self.kids_of(node_id.index.key as int).len() == 0),
    {
        let leaf = self.relatives_of(node_id).first_child.is_none();
        proof {
            assert(self.parent_ok(node_id.index.key as int));
        }
        leaf
    }

    /// The number of children of a live node.
    pub fn children_len(&self, node_id: NodeId) -> (r: usize)
        requires
            self.inv(),
            self.resolves(node_id),
        ensures
            r == self.kids_of(node_id.index.key as int).len(),
    {
        self.children(node_id).len()
    }

    /// Deletes a live node and its entire subtree, children before parents,
    /// and returns the node's own payload. A stale handle removes nothing.
    /// If the node was the root, the tree becomes rootless.
    #[verifier::rlimit(100)]
    #[verifier::spinoff_prover]
    pub fn try_remove(&mut self, node_id: NodeId) -> (r: Option<T>)
        requires
            old(self).wf(),
            old(self).slab.generation + old(self).slab.count <= usize::MAX,
        ensures
            final(self).wf(),
            match r {
                Some(data) => {
                    let dk = node_id.index.key as int;
                    &&& old(self).resolves(node_id)
                    &&& data == old(self).data_at(dk)
                    &&& forall|j: int| #[trigger] old(self).descends(j, dk) ==> !final(self).occ(j)
                    &&& !final(self).resolves(node_id)
                    &&& final(self).slab.count == old(self).slab.count - old(self).desc_set(
                        dk,
                    ).len()
                    &&& final(self).slab.generation == old(self).slab.generation + old(self).desc_set(dk).len()
                    &&& final(self).slab.n() == old(self).slab.n()
                    &&& final(self).root_id == (if old(self).root_id == Some(node_id) {
                        None
                    } else {
                        old(self).root_id
                    })
                    &&& forall|j: int|
                        old(self).occ(j) && !old(self).descends(j, dk) ==> #[trigger] final(self).occ(j) && final(self).id_of(j) == old(self).id_of(j) && final(self).data_at(j) == old(self).data_at(j) && final(self).anc@[j] == old(self).anc@[j]
                    &&& match old(self).rel(dk).parent {
                        Some(pid) => {
                            let pk = pid.index.key as int;
                            &&& old(self).kids@[pk].contains(dk)
                            &&& !old(self).descends(pk, dk)
                            &&& forall|j: int|
                                old(self).occ(j) && !old(self).descends(j, dk) && j != pk
                                    ==> #[trigger] final(self).kids@[j] == old(self).kids@[j]
                            &&& exists|i: int|
                                0 <= i < old(self).kids@[pk].len() && old(self).kids@[pk][i] == dk
                                    && #[trigger] final(self).kids@[pk] == old(self).kids@[pk].remove(i)
                        },
                        None => forall|j: int|
                            old(self).occ(j) && !old(self).descends(j, dk)
                                ==> #[trigger] final(self).kids@[j] == old(self).kids@[j],
                    }
                },
                None => !old(self).resolves(node_id) && *final(self) == *old(self),
            },
            forall|h: SlabIndex| #[trigger] old(self).slab.stale(h) ==> final(self).slab.stale(h),
    {
        if !self.node_exists(node_id) {
            return None;
        }
        let ghost t_start = *self;
        let ghost dk = node_id.index.key as int;
        self.unlink(node_id);
        let ghost t_unl = *self;
        match self.root_id {
            Some(rid) => {
                if rid == node_id {
                    self.root_id = None;
                }
            },
            None => {},
        }
        let ghost tu = *self;
        proof {
            assert(tu.inv()) by {
                lemma_reroot_inv(t_unl, tu);
            }
            assert(tu.rooted_except(dk)) by {
                assert forall|k: int|
                    #[trigger] tu.occ(k) && tu.rel(k).parent is None && k != dk implies tu.root_id
                    == Some(tu.id_of(k)) by {
                    assert(t_unl.occ(k));
                    assert(t_unl.root_id == Some(t_unl.id_of(k)));
                    if tu.root_id != t_unl.root_id {
                        assert(t_unl.root_id == Some(node_id));
                        assert(node_id.index.key == k as usize);
                        assert(0 <= k < tu.slab.n() <= usize::MAX);
                        assert(k == dk);
                    }
                }
            }
            crate::slab::lemma_count_is_card(tu.slab);
            assert(tu.desc_set(dk).subset_of(Set::new(|k: int| tu.slab.occ(k))));
        }
        let order = self.traversal_depth_first_post_order(Some(node_id));
        proof {
            assert(forall|k: int|
                #[trigger] self.descends(k, node_id.index.key as int) ==> crate::iter::has_key(
                    order@,
                    order@.len() as int,
                    k,
                ));
            assert forall|k: int| #[trigger] tu.descends(k, dk) implies crate::iter::has_key(
                order@,
                order@.len() as int,
                k,
            ) by {
                assert(self.descends(k, node_id.index.key as int));
            }
        }
        let mut idx: usize = 0;
        let mut out: Option<T> = None;
        proof {
            assert(order@.len() == tu.desc_set(dk).len());
            assert(order@.len() <= tu.slab.count) by {
                vstd::set_lib::lemma_len_subset(
                    tu.desc_set(dk),
                    Set::new(|k: int| tu.slab.occ(k)),
                );
            }
        }
        while idx < order.len()
            invariant
                self.root_id == tu.root_id,
                self.kids@ == tu.kids@,
                self.anc@ == tu.anc@,
                self.slab.wf(),
                self.slab.n() == tu.slab.n(),
                tu.inv(),
                tu.occ(dk),
                tu.rel(dk).parent is None,
                0 <= idx <= order@.len(),
                order@.len() <= tu.slab.count,
                tu.slab.generation + tu.slab.count <= usize::MAX,
                order@.len() >= 1,
                order@[order@.len() - 1] == node_id,
                node_id == tu.id_of(dk),
                forall|x: int|
                    0 <= x < order@.len() ==> tu.resolves(#[trigger] order@[x]) && order@[x]
                        == tu.id_of(crate::iter::key_of(order@[x])) && tu.descends(
                        crate::iter::key_of(order@[x]),
                        dk,
                    ),
                forall|x: int, y: int|
                    0 <= x < y < order@.len() ==> crate::iter::key_of(#[trigger] order@[x])
                        != crate::iter::key_of(#[trigger] order@[y]),
                forall|k: int|
                    0 <= k < tu.slab.n() ==> (#[trigger] self.slab.occ(k) <==> (tu.slab.occ(k)
                        && !crate::iter::has_key(order@, idx as int, k))),
                forall|k: int|
                    #[trigger] self.slab.occ(k) ==> self.slab.node_at(k) == tu.slab.node_at(k),
                self.slab.generation == tu.slab.generation + idx,
                self.slab.count == tu.slab.count - idx,
                out == (if idx == order@.len() {
                    Some(tu.data_at(dk))
                } else {
                    None::<T>
                }),
                forall|h: SlabIndex|
                    #[trigger] tu.slab.stale(h) ==> self.slab.stale(h),
            decreases order@.len() - idx,
        {
            let id = order[idx];
            proof {
                let k = crate::iter::key_of(id);
                assert(tu.resolves(order@[idx as int]));
                assert(tu.slab.occ(k));
                assert(!crate::iter::has_key(order@, idx as int, k)) by {
                    if crate::iter::has_key(order@, idx as int, k) {
                        let x = choose|x: int|
                            0 <= x < idx && crate::iter::key_of(#[trigger] order@[x]) == k;
                        assert(crate::iter::key_of(order@[x]) != crate::iter::key_of(
                            order@[idx as int],
                        ));
                    }
                }
                assert(self.slab.occ(k));
                assert(self.slab.resolves(id.index)) by {
                    assert(self.slab.node_at(k) == tu.slab.node_at(k));
                }
            }
            let removed = self.slab.try_remove(id.index);
            let node = match removed {
                Some(node) => node,
                None => vstd::pervasive::unreached(),
            };
            if idx + 1 == order.len() {
                out = Some(node.data);
                proof {
                    assert(order@[idx as int] == node_id);
                    assert(crate::iter::key_of(order@[idx as int]) == dk);
                }
            }
            idx = idx + 1;
            proof {
                let k = crate::iter::key_of(id);
                assert forall|k2: int|
                    0 <= k2 < tu.slab.n() implies (#[trigger] self.slab.occ(k2) <==> (
                tu.slab.occ(k2) && !crate::iter::has_key(order@, idx as int, k2))) by {
                    if k2 == k {
                        assert(crate::iter::has_key(order@, idx as int, k2)) by {
                            assert(crate::iter::key_of(order@[idx - 1]) == k2);
                        }
                    } else {
                        if crate::iter::has_key(order@, idx as int, k2) {
                            let x = choose|x: int|
                                0 <= x < idx && crate::iter::key_of(#[trigger] order@[x]) == k2;
                            assert(x != idx - 1);
                            assert(crate::iter::has_key(order@, idx - 1, k2)) by {
                                assert(crate::iter::key_of(order@[x]) == k2);
                            }
                        }
                        if crate::iter::has_key(order@, idx - 1, k2) {
                            let x = choose|x: int|
                                0 <= x < idx - 1 && crate::iter::key_of(#[trigger] order@[x])
                                    == k2;
                            assert(crate::iter::has_key(order@, idx as int, k2)) by {
                                assert(crate::iter::key_of(order@[x]) == k2);
                            }
                        }
                    }
                }
            }
        }
        proof {
            // every slot of the subtree is now vacant, every survivor intact
            assert forall|k: int|
                0 <= k < tu.slab.n() implies (#[trigger] self.slab.occ(k) <==> (tu.slab.occ(k)
                && !tu.descends(k, dk))) by {
                if tu.descends(k, dk) {
                    assert(crate::iter::has_key(order@, order@.len() as int, k));
                }
                if crate::iter::has_key(order@, order@.len() as int, k) {
                    let x = choose|x: int|
                        0 <= x < order@.len() && crate::iter::key_of(#[trigger] order@[x]) == k;
                    assert(tu.descends(crate::iter::key_of(order@[x]), dk));
                }
            }
            self.kids@ = Map::new(
                |j: int| tu.kids@.dom().contains(j) && !tu.descends(j, dk),
                |j: int| tu.kids@[j],
            );
            self.anc@ = Map::new(
                |j: int| tu.anc@.dom().contains(j) && !tu.descends(j, dk),
                |j: int| tu.anc@[j],
            );
            assert(tu.root_id != Some(tu.id_of(dk)) ==> self.root_id == tu.root_id);
            assert(self.root_id == (if tu.root_id == Some(tu.id_of(dk)) {
                None
            } else {
                tu.root_id
            })) by {
                match tu.root_id {
                    Some(rid) => {
                        if rid == tu.id_of(dk) {
                            assert(tu.rel(rid.index.key as int).parent is None);
                        }
                    },
                    None => {},
                }
            }
            assert forall|k: int|
                #[trigger] tu.occ(k) && !tu.descends(k, dk) && tu.rel(k).parent is None
                implies self.root_id == Some(tu.id_of(k)) by {
                assert(tu.root_id == Some(tu.id_of(k)));
                assert(tu.id_of(k).index.key == k as usize);
                assert(tu.id_of(dk).index.key == dk as usize);
            }
            match self.root_id {
                Some(r) => {
                    assert(tu.root_id == Some(r));
                    assert(tu.resolves(r));
                    let rk = r.index.key as int;
                    assert(!tu.descends(rk, dk)) by {
                        if rk == dk {
                            assert(tu.id_of(dk) == r) by {
                                assert(tu.node_at(dk).generation == r.index.generation);
                            }
                        }
                        if tu.anc@[rk].contains(dk) {
                            assert(tu.anc_ok(rk));
                            assert(tu.anc@[rk].len() > 0);
                            assert(tu.rel(rk).parent is Some);
                        }
                    }
                },
                None => {},
            }
            lemma_component_removed(tu, *self, dk);
            // relate the subtree of the start state to the unlinked state
            assert forall|j: int| true implies (#[trigger] tu.descends(j, dk) <==> t_start.descends(
                j,
                dk,
            )) by {
                assert(t_unl.descends(j, dk) <==> t_start.descends(j, dk));
                assert(tu.slab == t_unl.slab && tu.anc@ == t_unl.anc@);
            }
            assert(t_start.desc_set(dk) =~= tu.desc_set(dk));
            assert forall|j: int|
                t_start.occ(j) && !t_start.descends(j, dk) implies #[trigger] self.occ(j) by {
                assert(t_unl.occ(j));
                assert(tu.occ(j));
                assert(!tu.descends(j, dk));
            }
            // the former parent's chain keeps its shortened shape, all other
            // survivors keep theirs
            match t_start.rel(dk).parent {
                Some(pid) => {
                    let pk = pid.index.key as int;
                    let i = choose|i: int|
                        0 <= i < t_start.kids@[pk].len() && t_start.kids@[pk][i] == dk
                            && #[trigger] t_unl.kids@[pk] == t_start.kids@[pk].remove(i)
                            && unlink_shape(t_start, t_unl, dk, pk, i);
                    lemma_unlink_basics(t_start, t_unl, dk, pk, i);
                    assert(!t_start.descends(pk, dk));
                    assert(t_start.kids@[pk].contains(dk)) by {
                        assert(t_start.kids@[pk][i] == dk);
                    }
                    assert(!t_unl.descends(pk, dk)) by {
                        lemma_unlink_desc_same(t_start, t_unl, dk, pk, i);
                    }
                    assert(!tu.descends(pk, dk));
                    assert(t_unl.occ(pk));
                    assert(tu.occ(pk));
                    assert(self.kids@[pk] == tu.kids@[pk]);
                    assert(self.kids@[pk] == t_start.kids@[pk].remove(i));
                    assert forall|j: int|
                        t_start.occ(j) && !t_start.descends(j, dk) && j != pk
                        implies #[trigger] self.kids@[j] == t_start.kids@[j] by {
                        assert(t_unl.occ(j));
                        assert(!t_unl.descends(j, dk));
                        assert(tu.occ(j) && !tu.descends(j, dk));
                        assert(self.kids@[j] == tu.kids@[j]);
                        assert(tu.kids@[j] == t_unl.kids@[j]);
                        assert(t_unl.kids@[j] == t_start.kids@[j]);
                    }
                },
                None => {
                    assert(t_unl == t_start);
                    assert forall|j: int|
                        t_start.occ(j) && !t_start.descends(j, dk)
                        implies #[trigger] self.kids@[j] == t_start.kids@[j] by {
                        assert(tu.occ(j) && !tu.descends(j, dk));
                        assert(self.kids@[j] == tu.kids@[j]);
                        assert(tu.kids@[j] == t_unl.kids@[j]);
                    }
                },
            }
        }
        out
    }

    /// Like `try_remove`, but the handle must be live.
    pub fn remove(&mut self, node_id: NodeId) -> (r: T)
        requires
            old(self).wf(),
            old(self).resolves(node_id),
            old(self).slab.generation + old(self).slab.count <= usize::MAX,
        ensures
            final(self).wf(),
            r == old(self).data_at(node_id.index.key as int),
            forall|j: int|
                #[trigger] old(self).descends(j, node_id.index.key as int) ==> !final(self).occ(j),
            !final(self).resolves(node_id),
            final(self).slab.count == old(self).slab.count - old(self).desc_set(
                node_id.index.key as int,
            ).len(),
            final(self).root_id == (if old(self).root_id == Some(node_id) {
                None
            } else {
                old(self).root_id
            }),
            final(self).slab.generation == old(self).slab.generation + old(self).desc_set(
                node_id.index.key as int,
            ).len(),
            final(self).slab.n() == old(self).slab.n(),
            forall|j: int|
                old(self).occ(j) && !old(self).descends(j, node_id.index.key as int)
                    ==> #[trigger] final(self).occ(j) && final(self).id_of(j) == old(self).id_of(
                    j,
                ) && final(self).data_at(j) == old(self).data_at(j) && final(self).anc@[j] == old(self).anc@[j],
            match old(self).rel(node_id.index.key as int).parent {
                Some(pid) => {
                    let pk = pid.index.key as int;
                    let dk = node_id.index.key as int;
                    &&& old(self).kids@[pk].contains(dk)
                    &&& !old(self).descends(pk, dk)
                    &&& forall|j: int|
                        old(self).occ(j) && !old(self).descends(j, dk) && j != pk
                            ==> #[trigger] final(self).kids@[j] == old(self).kids@[j]
                    &&& exists|i: int|
                        0 <= i < old(self).kids@[pk].len() && old(self).kids@[pk][i] == dk
                            && #[trigger] final(self).kids@[pk] == old(self).kids@[pk].remove(i)
                },
                None => forall|j: int|
                    old(self).occ(j) && !old(self).descends(j, node_id.index.key as int)
                        ==> #[trigger] final(self).kids@[j] == old(self).kids@[j],
            },
            forall|h: SlabIndex| #[trigger] old(self).slab.stale(h) ==> final(self).slab.stale(h),
    {
        match self.try_remove(node_id) {
            Some(data) => data,
            None => vstd::pervasive::unreached(),
        }
    }

    /// Frees an entire parentless component, children before parents. The
    /// caller has already pointed the root away from the component.
    #[verifier::rlimit(100)]
    #[verifier::spinoff_prover]
    pub(crate) fn remove_component(&mut self, node_id: NodeId)
        requires
            old(self).inv(),
            old(self).resolves(node_id),
            old(self).rel(node_id.index.key as int).parent is None,
            old(self).slab.generation + old(self).slab.count <= usize::MAX,
            forall|k: int|
                #[trigger] old(self).occ(k) && !old(self).descends(k, node_id.index.key as int)
                    && old(self).rel(k).parent is None ==> old(self).root_id == Some(
                    old(self).id_of(k),
                ),
            match old(self).root_id {
                Some(r) => old(self).resolves(r) && !old(self).descends(
                    r.index.key as int,
                    node_id.index.key as int,
                ) && old(self).rel(r.index.key as int).parent is None,
                None => true,
            },
        ensures
            final(self).wf(),
            final(self).root_id == old(self).root_id,
            forall|j: int|
                #[trigger] old(self).descends(j, node_id.index.key as int) ==> !final(self).occ(
                    j,
                ),
            forall|j: int|
                old(self).occ(j) && !old(self).descends(j, node_id.index.key as int)
                    ==> #[trigger] final(self).occ(j) && final(self).id_of(j) == old(self).id_of(j) && final(self).data_at(j) == old(self).data_at(j),
            forall|j: int|
                old(self).occ(j) && !old(self).descends(j, node_id.index.key as int)
                    ==> #[trigger] final(self).kids@[j] == old(self).kids@[j] && final(self).anc@[j]
                    == old(self).anc@[j],
            final(self).slab.count == old(self).slab.count - old(self).desc_set(
                node_id.index.key as int,
            ).len(),
            final(self).slab.generation == old(self).slab.generation + old(self).desc_set(
                node_id.index.key as int,
            ).len(),
            final(self).slab.n() == old(self).slab.n(),
            forall|h: SlabIndex| #[trigger] old(self).slab.stale(h) ==> final(self).slab.stale(h),
    {
        let ghost tu = *self;
        let ghost dk = node_id.index.key as int;
        proof {
            crate::slab::lemma_count_is_card(tu.slab);
            assert(tu.desc_set(dk).subset_of(Set::new(|k: int| tu.slab.occ(k))));
        }
        let order = self.traversal_depth_first_post_order(Some(node_id));
        proof {
            assert(forall|k: int|
                #[trigger] self.descends(k, node_id.index.key as int) ==> crate::iter::has_key(
                    order@,
                    order@.len() as int,
                    k,
                ));
            assert forall|k: int| #[trigger] tu.descends(k, dk) implies crate::iter::has_key(
                order@,
                order@.len() as int,
                k,
            ) by {
                assert(self.descends(k, node_id.index.key as int));
            }
            assert(order@.len() == tu.desc_set(dk).len());
            assert(order@.len() <= tu.slab.count) by {
                vstd::set_lib::lemma_len_subset(
                    tu.desc_set(dk),
                    Set::new(|k: int| tu.slab.occ(k)),
                );
            }
        }
        let mut idx: usize = 0;
        while idx < order.len()
            invariant
                self.root_id == tu.root_id,
                self.kids@ == tu.kids@,
                self.anc@ == tu.anc@,
                self.slab.wf(),
                self.slab.n() == tu.slab.n(),
                tu.inv(),
                tu.occ(dk),
                0 <= idx <= order@.len(),
                order@.len() <= tu.slab.count,
                tu.slab.generation + tu.slab.count <= usize::MAX,
                forall|x: int|
                    0 <= x < order@.len() ==> tu.resolves(#[trigger] order@[x]) && order@[x]
                        == tu.id_of(crate::iter::key_of(order@[x])) && tu.descends(
                        crate::iter::key_of(order@[x]),
                        dk,
                    ),
                forall|x: int, y: int|
                    0 <= x < y < order@.len() ==> crate::iter::key_of(#[trigger] order@[x])
                        != crate::iter::key_of(#[trigger] order@[y]),
                forall|k: int|
                    0 <= k < tu.slab.n() ==> (#[trigger] self.slab.occ(k) <==> (tu.slab.occ(k)
                        && !crate::iter::has_key(order@, idx as int, k))),
                forall|k: int|
                    #[trigger] self.slab.occ(k) ==> self.slab.node_at(k) == tu.slab.node_at(k),
                self.slab.generation == tu.slab.generation + idx,
                self.slab.count == tu.slab.count - idx,
                forall|h: SlabIndex| #[trigger] tu.slab.stale(h) ==> self.slab.stale(h),
            decreases order@.len() - idx,
        {
            let id = order[idx];
            proof {
                let k = crate::iter::key_of(id);
                assert(tu.resolves(order@[idx as int]));
                assert(tu.slab.occ(k));
                assert(!crate::iter::has_key(order@, idx as int, k)) by {
                    if crate::iter::has_key(order@, idx as int, k) {
                        let x = choose|x: int|
                            0 <= x < idx && crate::iter::key_of(#[trigger] order@[x]) == k;
                        assert(crate::iter::key_of(order@[x]) != crate::iter::key_of(
                            order@[idx as int],
                        ));
                    }
                }
                assert(self.slab.occ(k));
                assert(self.slab.resolves(id.index)) by {
                    assert(self.slab.node_at(k) == tu.slab.node_at(k));
                }
            }
            let removed = self.slab.try_remove(id.index);
            idx = idx + 1;
            proof {
                let k = crate::iter::key_of(id);
                assert forall|k2: int|
                    0 <= k2 < tu.slab.n() implies (#[trigger] self.slab.occ(k2) <==> (
                tu.slab.occ(k2) && !crate::iter::has_key(order@, idx as int, k2))) by {
                    if k2 == k {
                        assert(crate::iter::has_key(order@, idx as int, k2)) by {
                            assert(crate::iter::key_of(order@[idx - 1]) == k2);
                        }
                    } else {
                        if crate::iter::has_key(order@, idx as int, k2) {
                            let x = choose|x: int|
                                0 <= x < idx && crate::iter::key_of(#[trigger] order@[x]) == k2;
                            assert(x != idx - 1);
                            assert(crate::iter::has_key(order@, idx - 1, k2)) by {
                                assert(crate::iter::key_of(order@[x]) == k2);
                            }
                        }
                        if crate::iter::has_key(order@, idx - 1, k2) {
                            let x = choose|x: int|
                                0 <= x < idx - 1 && crate::iter::key_of(#[trigger] order@[x])
                                    == k2;
                            assert(crate::iter::has_key(order@, idx as int, k2)) by {
                                assert(crate::iter::key_of(order@[x]) == k2);
                            }
                        }
                    }
                }
            }
        }
        proof {
            assert forall|k: int|
                0 <= k < tu.slab.n() implies (#[trigger] self.slab.occ(k) <==> (tu.slab.occ(k)
                && !tu.descends(k, dk))) by {
                if tu.descends(k, dk) {
                    assert(crate::iter::has_key(order@, order@.len() as int, k));
                }
                if crate::iter::has_key(order@, order@.len() as int, k) {
                    let x = choose|x: int|
                        0 <= x < order@.len() && crate::iter::key_of(#[trigger] order@[x]) == k;
                    assert(tu.descends(crate::iter::key_of(order@[x]), dk));
                }
            }
            self.kids@ = Map::new(
                |j: int| tu.kids@.dom().contains(j) && !tu.descends(j, dk),
                |j: int| tu.kids@[j],
            );
            self.anc@ = Map::new(
                |j: int| tu.anc@.dom().contains(j) && !tu.descends(j, dk),
                |j: int| tu.anc@[j],
            );
            lemma_component_removed(tu, *self, dk);
        }
    }

    /// Links a parentless component root back into `parent_id`'s child
    /// chain between the given neighbours, undoing one unlink.
    pub(crate) fn attach_at(
        &mut self,
        node_id: NodeId,
        parent_id: NodeId,
        prev: Option<NodeId>,
        next: Option<NodeId>,
        Ghost(i): Ghost<int>,
    )
        requires
            old(self).inv(),
            old(self).resolves(node_id),
            old(self).rel(node_id.index.key as int).parent is None,
            old(self).resolves(parent_id),
            !old(self).descends(parent_id.index.key as int, node_id.index.key as int),
            match old(self).root_id {
                Some(r) => r.index.key as int != node_id.index.key as int,
                None => true,
            },
            0 <= i <= old(self).kids@[parent_id.index.key as int].len(),
            prev == (if i == 0 {
                None::<NodeId>
            } else {
                Some(old(self).id_of(old(self).kids@[parent_id.index.key as int][i - 1]))
            }),
            next == (if i == old(self).kids@[parent_id.index.key as int].len() {
                None::<NodeId>
            } else {
                Some(old(self).id_of(old(self).kids@[parent_id.index.key as int][i]))
            }),
        ensures
            attach_shape(
                *old(self),
                *final(self),
                node_id.index.key as int,
                parent_id.index.key as int,
                i,
            ),
            final(self).inv(),
            forall|k: int|
                #[trigger] final(self).occ(k) && final(self).rel(k).parent is None ==> old(
                    self,
                ).occ(k) && old(self).rel(k).parent is None && k != node_id.index.key as int,
            forall|j: int|
                #[trigger] final(self).descends(j, node_id.index.key as int) <==> old(
                    self,
                ).descends(j, node_id.index.key as int) || j == node_id.index.key as int,
    {
        let ghost t0 = *self;
        let ghost dk = node_id.index.key as int;
        let ghost pk = parent_id.index.key as int;
        let ghost ks = t0.kids@[pk];
        proof {
            assert(t0.parent_ok(pk));
            assert(t0.lone_ok(dk));
            assert(dk != pk);
            if i > 0 {
                assert(t0.child_at_ok(pk, i - 1));
                assert(t0.occ(ks[i - 1]));
                assert(ks[i - 1] != pk) by {
                    if ks[i - 1] == pk {
                        assert(t0.anc@[pk] == t0.anc@[pk].push(pk));
                    }
                }
                assert(ks[i - 1] != dk) by {
                    if ks[i - 1] == dk {
                        assert(t0.rel(dk).parent == Some(t0.id_of(pk)));
                    }
                }
            }
            if i < ks.len() {
                assert(t0.child_at_ok(pk, i));
                assert(t0.occ(ks[i]));
                assert(ks[i] != pk) by {
                    if ks[i] == pk {
                        assert(t0.anc@[pk] == t0.anc@[pk].push(pk));
                    }
                }
                assert(ks[i] != dk) by {
                    if ks[i] == dk {
                        assert(t0.rel(dk).parent == Some(t0.id_of(pk)));
                    }
                }
                if i > 0 {
                    assert(ks[i] != ks[i - 1]);
                }
            }
        }
        let mut d_rel = *self.relatives_of(node_id);
        d_rel.parent = Some(parent_id);
        d_rel.prev_sibling = prev;
        d_rel.next_sibling = next;
        self.slab.set_relatives(node_id.index, d_rel);
        let mut parent_rel = *self.relatives_of(parent_id);
        match prev {
            Some(pv) => {
                proof {
                    assert(pv == t0.id_of(ks[i - 1]));
                    assert(t0.resolves(pv));
                    assert(self.slab.resolves(pv.index));
                }
                let mut pv_rel = *self.relatives_of(pv);
                pv_rel.next_sibling = Some(node_id);
                self.slab.set_relatives(pv.index, pv_rel);
            },
            None => {
                parent_rel.first_child = Some(node_id);
            },
        }
        match next {
            Some(nx) => {
                proof {
                    assert(nx == t0.id_of(ks[i]));
                    assert(t0.resolves(nx));
                    assert(self.slab.resolves(nx.index));
                }
                let mut nx_rel = *self.relatives_of(nx);
                nx_rel.prev_sibling = Some(node_id);
                self.slab.set_relatives(nx.index, nx_rel);
            },
            None => {
                parent_rel.last_child = Some(node_id);
            },
        }
        proof {
            assert(self.slab.resolves(parent_id.index));
        }
        self.slab.set_relatives(parent_id.index, parent_rel);
        proof {
            let pfx = t0.anc@[pk].push(pk);
            self.kids@ = self.kids@.insert(pk, ks.insert(i, dk));
            self.anc@ = Map::new(
                |j: int| t0.anc@.dom().contains(j),
                |j: int|
                    if t0.descends(j, dk) {
                        pfx + t0.anc@[j]
                    } else {
                        t0.anc@[j]
                    },
            );
            assert(attach_shape(t0, *self, dk, pk, i)) by {
                reveal(attach_shape);
                assert(self.rel(dk) == (Relatives {
                    parent: Some(t0.id_of(pk)),
                    prev_sibling: if i == 0 {
                        None
                    } else {
                        Some(t0.id_of(ks[i - 1]))
                    },
                    next_sibling: if i == ks.len() {
                        None
                    } else {
                        Some(t0.id_of(ks[i]))
                    },
                    ..t0.rel(dk)
                })) by {
                    assert(parent_id == t0.id_of(pk));
                }
                assert(self.rel(pk) == (Relatives {
                    first_child: if i == 0 {
                        Some(self.id_of(dk))
                    } else {
                        t0.rel(pk).first_child
                    },
                    last_child: if i == ks.len() {
                        Some(self.id_of(dk))
                    } else {
                        t0.rel(pk).last_child
                    },
                    ..t0.rel(pk)
                })) by {
                    assert(node_id == t0.id_of(dk));
                    assert(self.node_at(dk).generation == t0.node_at(dk).generation);
                }
                if i > 0 {
                    assert(self.rel(ks[i - 1]) == (Relatives {
                        next_sibling: Some(self.id_of(dk)),
                        ..t0.rel(ks[i - 1])
                    })) by {
                        assert(node_id == t0.id_of(dk));
                        assert(self.node_at(dk).generation == t0.node_at(dk).generation);
                    }
                }
                if i < ks.len() {
                    assert(self.rel(ks[i]) == (Relatives {
                        prev_sibling: Some(self.id_of(dk)),
                        ..t0.rel(ks[i])
                    })) by {
                        assert(node_id == t0.id_of(dk));
                        assert(self.node_at(dk).generation == t0.node_at(dk).generation);
                    }
                }
                assert(self.anc@.dom() =~= t0.anc@.dom());
                assert forall|j: int| #[trigger] t0.occ(j) implies self.anc@[j] == (
                if t0.descends(j, dk) {
                    pfx + t0.anc@[j]
                } else {
                    t0.anc@[j]
                }) by {
                    assert(t0.anc@.dom().contains(j));
                }
                assert forall|k: int|
                    t0.occ(k) && k != dk && k != pk && (i == 0 || k != ks[i - 1]) && (i == ks.len()
                    || k != ks[i]) implies #[trigger] self.node_at(k) == t0.node_at(k) by {
                }
            }
            lemma_attach_wf(t0, *self, dk, pk, i);
            lemma_attach_links(t0, *self, dk, pk, i);
        }
    }

    /// Detaches a live node: unlinks it from its parent and siblings and
    /// hands the whole container to a guard that exposes the node as the
    /// temporary root. Releasing the guard discards the detached subtree.
    pub fn detach(self, node_id: NodeId) -> (r: crate::detached::DetachedTree<T>)
        requires
            self.wf(),
            self.resolves(node_id),
            self.slab.generation + self.slab.count <= usize::MAX,
        ensures
            r.wf(),
            r.tree.root_id == Some(node_id),
            r.saved_root == self.root_id,
            r.tree.resolves(node_id),
            r.tree.slab.generation == self.slab.generation,
            r.tree.slab.count == self.slab.count,
            r.tree.slab.n() == self.slab.n(),
            forall|j: int|
                0 <= j < self.slab.n() ==> (#[trigger] r.tree.occ(j) <==> self.occ(j)),
            forall|j: int|
                self.occ(j) ==> #[trigger] r.tree.occ(j) && r.tree.id_of(j) == self.id_of(j)
                    && r.tree.data_at(j) == self.data_at(j),
            forall|j: int|
                #[trigger] r.tree.descends(j, node_id.index.key as int) <==> self.descends(
                    j,
                    node_id.index.key as int,
                ),
            r.tree.kids@[node_id.index.key as int] == self.kids@[node_id.index.key as int],
            match self.rel(node_id.index.key as int).parent {
                Some(pid) => {
                    let pk = pid.index.key as int;
                    &&& self.kids@[pk].contains(node_id.index.key as int)
                    &&& forall|j: int|
                        self.occ(j) && j != pk ==> #[trigger] r.tree.kids@[j] == self.kids@[j]
                    &&& exists|i: int|
                        0 <= i < self.kids@[pk].len() && self.kids@[pk][i]
                            == node_id.index.key as int && #[trigger] r.tree.kids@[pk]
                            == self.kids@[pk].remove(i)
                },
                None => r.tree.kids@ == self.kids@,
            },
            forall|h: SlabIndex| #[trigger] self.slab.stale(h) ==> r.tree.slab.stale(h),
    {
        let mut tree = self;
        tree.unlink(node_id);
        let ghost t_unl = tree;
        let saved = tree.try_root_id();
        tree.root_id = Some(node_id);
        proof {
            lemma_reroot_inv(t_unl, tree);
            assert forall|k: int|
                #[trigger] tree.occ(k) && tree.rel(k).parent is None && k
                    != node_id.index.key as int implies crate::detached::guard_root_ok(
                tree,
                saved,
                k,
            ) by {
                assert(t_unl.occ(k));
                assert(t_unl.root_id == Some(t_unl.id_of(k)));
            }
            let dk = node_id.index.key as int;
            assert(tree.slab == t_unl.slab);
            assert forall|j: int|
                self.occ(j) implies #[trigger] tree.occ(j) && tree.id_of(j) == self.id_of(j)
                && tree.data_at(j) == self.data_at(j) by {
                assert(t_unl.occ(j));
            }
            assert forall|j: int| true implies (#[trigger] tree.descends(j, dk) <==> self.descends(
                j,
                dk,
            )) by {
                assert(t_unl.descends(j, dk) <==> self.descends(j, dk));
            }
        }
        crate::detached::DetachedTree { tree, saved_root: saved }
    }

    /// Like `detach`, but a stale handle hands the container back unchanged.
    pub fn try_detach(self, node_id: NodeId) -> (r: Result<
        crate::detached::DetachedTree<T>,
        Tree<T>,
    >)
        requires
            self.wf(),
            self.slab.generation + self.slab.count <= usize::MAX,
        ensures
            match r {
                Ok(guard) => {
                    &&& self.resolves(node_id)
                    &&& guard.wf()
                    &&& guard.tree.root_id == Some(node_id)
                    &&& guard.saved_root == self.root_id
                    &&& guard.tree.resolves(node_id)
                    &&& guard.tree.slab.generation == self.slab.generation
                    &&& guard.tree.slab.count == self.slab.count
                    &&& guard.tree.slab.n() == self.slab.n()
                    &&& forall|j: int|
                        0 <= j < self.slab.n() ==> (#[trigger] guard.tree.occ(j) <==> self.occ(j))
                    &&& forall|j: int|
                        self.occ(j) ==> #[trigger] guard.tree.occ(j) && guard.tree.id_of(j)
                            == self.id_of(j) && guard.tree.data_at(j) == self.data_at(j)
                    &&& forall|j: int|
                        #[trigger] guard.tree.descends(j, node_id.index.key as int)
                            <==> self.descends(j, node_id.index.key as int)
                    &&& guard.tree.kids@[node_id.index.key as int] == self.kids@[node_id.index.key as int]
                    &&& match self.rel(node_id.index.key as int).parent {
                        Some(pid) => {
                            let pk = pid.index.key as int;
                            &&& self.kids@[pk].contains(node_id.index.key as int)
                            &&& forall|j: int|
                                self.occ(j) && j != pk ==> #[trigger] guard.tree.kids@[j]
                                    == self.kids@[j]
                            &&& exists|i: int|
                                0 <= i < self.kids@[pk].len() && self.kids@[pk][i]
                                    == node_id.index.key as int && #[trigger] guard.tree.kids@[pk]
                                    == self.kids@[pk].remove(i)
                        },
                        None => guard.tree.kids@ == self.kids@,
                    }
                    &&& forall|h: SlabIndex|
                        #[trigger] self.slab.stale(h) ==> guard.tree.slab.stale(h)
                },
                Err(tree) => !self.resolves(node_id) && tree == self,
            },
    {
        if self.node_exists(node_id) {
            Ok(self.detach(node_id))
        } else {
            Err(self)
        }
    }

    /// Appends a new node carrying `data` at the tail of `parent_id`'s
    /// child chain and returns its handle.
    pub fn append_child(&mut self, parent_id: NodeId, data: T) -> (r: NodeId)
        requires
            old(self).wf(),
            old(self).resolves(parent_id),
        ensures
            final(self).wf(),
            final(self).resolves(r),
            !old(self).occ(r.index.key as int),
            r.index.generation == old(self).slab.generation,
            final(self).slab.generation == old(self).slab.generation,
            final(self).slab.count == old(self).slab.count + 1,
            final(self).root_id == old(self).root_id,
            final(self).data_at(r.index.key as int) == data,
            final(self).kids_of(parent_id.index.key as int) == old(self).kids_of(
                parent_id.index.key as int,
            ).push(r.index.key as int),
            final(self).kids_of(r.index.key as int) == Seq::<int>::empty(),
            final(self).anc_of(r.index.key as int) == old(self).anc_of(
                parent_id.index.key as int,
            ).push(parent_id.index.key as int),
            forall|k: int|
                old(self).occ(k) ==> #[trigger] final(self).occ(k) && final(self).data_at(k)
                    == old(self).data_at(k) && final(self).id_of(k) == old(self).id_of(k)
                    && final(self).anc@[k] == old(self).anc@[k],
            forall|k: int|
                old(self).occ(k) && k != parent_id.index.key as int ==> #[trigger] final(self).kids@[k] == old(self).kids@[k],
            forall|id: NodeId| #[trigger] old(self).resolves(id) ==> final(self).resolves(id),
            forall|h: SlabIndex| #[trigger] old(self).slab.stale(h) ==> final(self).slab.stale(h),
    {
        let ghost t0 = *self;
        let ghost p = parent_id.index.key as int;
        let child_index = self.slab.next_index();
        let child_id = NodeId::new(child_index);
        let generation = self.slab.generation();
        let mut child_rel = Relatives::empty();
        child_rel.parent = Some(parent_id);
        let mut parent_rel = *self.relatives_of(parent_id);
        match parent_rel.last_child {
            Some(last_id) => {
                proof {
                    assert(t0.parent_ok(p));
                    let ks0 = t0.kids@[p];
                    assert(t0.child_at_ok(p, ks0.len() - 1));
                    assert(last_id == t0.id_of(ks0.last()));
                    assert(t0.occ(ks0.last()));
                    assert(t0.resolves(last_id));
                    if ks0.last() == p {
                        assert(t0.anc@[ks0.last()] == t0.anc@[p].push(p));
                        assert(false);
                    }
                }
                let mut last_rel = *self.relatives_of(last_id);
                last_rel.next_sibling = Some(child_id);
                self.slab.set_relatives(last_id.index, last_rel);
                child_rel.prev_sibling = Some(last_id);
            },
            None => {
                parent_rel.first_child = Some(child_id);
            },
        }
        parent_rel.last_child = Some(child_id);
        let mut child = Node::new(data, generation);
        child.relatives = child_rel;
        let inserted = self.slab.insert(child);
        proof {
            assert(inserted == child_index);
        }
        self.slab.set_relatives(parent_id.index, parent_rel);
        proof {
            let c = child_index.key as int;
            let ks0 = t0.kids@[p];
            self.kids@ = self.kids@.insert(p, ks0.push(c)).insert(c, Seq::empty());
            self.anc@ = self.anc@.insert(c, t0.anc@[p].push(p));
            assert(t0.occ(p));
            assert(!t0.occ(c));
            assert(self.occ(c));
            assert(self.slab.wf());
            assert(self.root_id == t0.root_id);
            assert(parent_id == t0.id_of(p));
            assert(child_id == self.id_of(c));
            assert(self.rel(c) == child_rel);
            if ks0.len() > 0 {
                assert(t0.parent_ok(p));
                assert(t0.child_at_ok(p, ks0.len() - 1));
                assert(t0.occ(ks0.last()));
                assert(self.rel(ks0.last()) == (Relatives {
                    next_sibling: Some(self.id_of(c)),
                    ..t0.rel(ks0.last())
                }));
            }
            assert(self.rel(p) == (Relatives {
                first_child: if ks0.len() == 0 {
                    Some(self.id_of(c))
                } else {
                    t0.rel(p).first_child
                },
                last_child: Some(self.id_of(c)),
                ..t0.rel(p)
            }));
            assert forall|k: int|
                t0.occ(k) && k != p && (ks0.len() == 0 || k != ks0.last())
                implies #[trigger] self.node_at(k) == t0.node_at(k) by {
            }
            assert(append_shape(t0, *self, p, c));
            lemma_append_wf(t0, *self, p, c);
            lemma_append_basics(t0, *self, p, c);
            assert forall|id: NodeId| #[trigger] t0.resolves(id) implies self.resolves(id) by {
                assert(t0.occ(id.index.key as int));
                assert(self.id_of(id.index.key as int) == t0.id_of(id.index.key as int));
            }
        }
        child_id
    }

/// Prepends a new node carrying `data` at the head of `parent_id`'s
    /// child chain and returns its handle.
    pub fn prepend_child(&mut self, parent_id: NodeId, data: T) -> (r: NodeId)
        requires
            old(self).wf(),
            old(self).resolves(parent_id),
        ensures
            final(self).wf(),
            final(self).resolves(r),
            !old(self).occ(r.index.key as int),
            r.index.generation == old(self).slab.generation,
            final(self).slab.generation == old(self).slab.generation,
            final(self).slab.count == old(self).slab.count + 1,
            final(self).root_id == old(self).root_id,
            final(self).data_at(r.index.key as int) == data,
            final(self).kids_of(parent_id.index.key as int) == seq![r.index.key as int]
                + old(self).kids_of(parent_id.index.key as int),
            final(self).kids_of(r.index.key as int) == Seq::<int>::empty(),
            final(self).anc_of(r.index.key as int) == old(self).anc_of(
                parent_id.index.key as int,
            ).push(parent_id.index.key as int),
            forall|k: int|
                old(self).occ(k) ==> #[trigger] final(self).occ(k) && final(self).data_at(k)
                    == old(self).data_at(k) && final(self).id_of(k) == old(self).id_of(k)
                    && final(self).anc@[k] == old(self).anc@[k],
            forall|k: int|
                old(self).occ(k) && k != parent_id.index.key as int ==> #[trigger] final(self).kids@[k] == old(self).kids@[k],
            forall|id: NodeId| #[trigger] old(self).resolves(id) ==> final(self).resolves(id),
            forall|h: SlabIndex| #[trigger] old(self).slab.stale(h) ==> final(self).slab.stale(h),
    {
        let ghost t0 = *self;
        let ghost p = parent_id.index.key as int;
        let child_index = self.slab.next_index();
        let child_id = NodeId::new(child_index);
        let generation = self.slab.generation();
        let mut child_rel = Relatives::empty();
        child_rel.parent = Some(parent_id);
        let mut parent_rel = *self.relatives_of(parent_id);
        match parent_rel.first_child {
            Some(first_id) => {
                proof {
                    assert(t0.parent_ok(p));
                    let ks0 = t0.kids@[p];
                    assert(t0.child_at_ok(p, 0));
                    assert(first_id == t0.id_of(ks0[0]));
                    assert(t0.occ(ks0[0]));
                    assert(t0.resolves(first_id));
                    if ks0[0] == p {
                        assert(t0.anc@[ks0[0]] == t0.anc@[p].push(p));
                    }
                }
                let mut first_rel = *self.relatives_of(first_id);
                first_rel.prev_sibling = Some(child_id);
                self.slab.set_relatives(first_id.index, first_rel);
                child_rel.next_sibling = Some(first_id);
            },
            None => {
                parent_rel.last_child = Some(child_id);
            },
        }
        parent_rel.first_child = Some(child_id);
        let mut child = Node::new(data, generation);
        child.relatives = child_rel;
        let inserted = self.slab.insert(child);
        proof {
            assert(inserted == child_index);
        }
        self.slab.set_relatives(parent_id.index, parent_rel);
        proof {
            let c = child_index.key as int;
            let ks0 = t0.kids@[p];
            self.kids@ = self.kids@.insert(p, seq![c] + ks0).insert(c, Seq::empty());
            self.anc@ = self.anc@.insert(c, t0.anc@[p].push(p));
            assert(t0.occ(p));
            assert(!t0.occ(c));
            assert(self.occ(c));
            assert(self.slab.wf());
            assert(self.root_id == t0.root_id);
            assert(parent_id == t0.id_of(p));
            assert(child_id == self.id_of(c));
            assert(self.rel(c) == child_rel);
            if ks0.len() > 0 {
                assert(t0.parent_ok(p));
                assert(t0.child_at_ok(p, 0));
                assert(t0.occ(ks0[0]));
                assert(self.rel(ks0[0]) == (Relatives {
                    prev_sibling: Some(self.id_of(c)),
                    ..t0.rel(ks0[0])
                }));
            }
            assert(self.rel(p) == (Relatives {
                first_child: Some(self.id_of(c)),
                last_child: if ks0.len() == 0 {
                    Some(self.id_of(c))
                } else {
                    t0.rel(p).last_child
                },
                ..t0.rel(p)
            }));
            assert forall|k: int|
                t0.occ(k) && k != p && (ks0.len() == 0 || k != ks0[0])
                implies #[trigger] self.node_at(k) == t0.node_at(k) by {
            }
            assert(prepend_shape(t0, *self, p, c));
            lemma_prepend_wf(t0, *self, p, c);
            lemma_prepend_basics(t0, *self, p, c);
            assert forall|id: NodeId| #[trigger] t0.resolves(id) implies self.resolves(id) by {
                assert(t0.occ(id.index.key as int));
                assert(self.id_of(id.index.key as int) == t0.id_of(id.index.key as int));
            }
        }
        child_id
    }
}

/// The relational picture of one unlink: node `d` (a child of `p` at
/// position `i`) leaves `p`'s chain; the gap closes; `d` keeps its children
/// but loses parent and sibling links; the ancestor paths of `d`'s subtree
/// lose the prefix above `d`.
#[verifier::opaque]
pub open spec fn unlink_shape<T>(t0: Tree<T>, t1: Tree<T>, d: int, p: int, i: int) -> bool {
    let ks = t0.kids@[p];
    let la = t0.anc@[d].len() as int;
    &&& t0.occ(d)
    &&& t0.occ(p)
    &&& 0 <= i < ks.len()
    &&& ks[i] == d
    &&& t1.slab.wf()
    &&& t1.slab.n() == t0.slab.n()
    &&& t1.root_id == t0.root_id
    &&& forall|k: int| 0 <= k < t1.slab.n() ==> (#[trigger] t1.occ(k) <==> t0.occ(k))
    &&& t1.kids@ == t0.kids@.insert(p, ks.remove(i))
    &&& t1.anc@.dom() == t0.anc@.dom()
    &&& forall|j: int|
        #[trigger] t0.occ(j) ==> t1.anc@[j] == if t0.descends(j, d) {
            t0.anc@[j].skip(la)
        } else {
            t0.anc@[j]
        }
    &&& t1.node_at(d).data == t0.node_at(d).data
    &&& t1.node_at(d).generation == t0.node_at(d).generation
    &&& t1.rel(d) == (Relatives {
        parent: None,
        prev_sibling: None,
        next_sibling: None,
        ..t0.rel(d)
    })
    &&& t1.node_at(p).data == t0.node_at(p).data
    &&& t1.node_at(p).generation == t0.node_at(p).generation
    &&& t1.rel(p) == (Relatives {
        first_child: if i == 0 {
            t0.rel(d).next_sibling
        } else {
            t0.rel(p).first_child
        },
        last_child: if i == ks.len() - 1 {
            t0.rel(d).prev_sibling
        } else {
            t0.rel(p).last_child
        },
        ..t0.rel(p)
    })
    &&& i > 0 ==> {
        let pv = ks[i - 1];
        &&& t1.node_at(pv).data == t0.node_at(pv).data
        &&& t1.node_at(pv).generation == t0.node_at(pv).generation
        &&& t1.rel(pv) == (Relatives { next_sibling: t0.rel(d).next_sibling, ..t0.rel(pv) })
    }
    &&& i < ks.len() - 1 ==> {
        let nx = ks[i + 1];
        &&& t1.node_at(nx).data == t0.node_at(nx).data
        &&& t1.node_at(nx).generation == t0.node_at(nx).generation
        &&& t1.rel(nx) == (Relatives { prev_sibling: t0.rel(d).prev_sibling, ..t0.rel(nx) })
    }
    &&& forall|k: int|
        t0.occ(k) && k != d && k != p && (i == 0 || k != ks[i - 1]) && (i == ks.len() - 1 || k
            != ks[i + 1]) ==> #[trigger] t1.node_at(k) == t0.node_at(k)
}

/// Basic consequences of one unlink.
#[verifier::rlimit(100)]
#[verifier::spinoff_prover]
pub(crate) proof fn lemma_unlink_basics<T>(t0: Tree<T>, t1: Tree<T>, d: int, p: int, i: int)
    requires
        t0.inv(),
        unlink_shape(t0, t1, d, p, i),
    ensures
        forall|j: int|
            #[trigger] t0.occ(j) ==> t1.occ(j) && t1.id_of(j) == t0.id_of(j) && t1.node_at(
                j,
            ).generation == t0.node_at(j).generation,
        forall|j: int| #[trigger] t0.occ(j) && j != p ==> t1.kids@[j] == t0.kids@[j],
        t1.kids@[p] == t0.kids@[p].remove(i),
        forall|j: int| #[trigger] t0.occ(j) && !t0.descends(j, d) ==> t1.anc@[j] == t0.anc@[j],
        forall|j: int| #[trigger] t0.descends(j, d) ==> t1.anc@[j] == t0.anc@[j].skip(
            t0.anc@[d].len() as int,
        ),
        // the parent chain above d does not descend from d
        !t0.descends(p, d),
        i > 0 ==> !t0.descends(t0.kids@[p][i - 1], d) && t0.kids@[p][i - 1] != d,
        i < t0.kids@[p].len() - 1 ==> !t0.descends(t0.kids@[p][i + 1], d) && t0.kids@[p][i + 1]
            != d,
        // d's position in a descendant's path is exactly |anc(d)|
        forall|j: int|
            #[trigger] t0.descends(j, d) && j != d ==> t0.anc@[j].len() > t0.anc@[d].len()
                && t0.anc@[j][t0.anc@[d].len() as int] == d && t0.anc@[j].take(
                t0.anc@[d].len() as int,
            ) == t0.anc@[d],
        forall|j: int, x: int|
            t0.occ(j) && #[trigger] t0.kids@[j].contains(x) && x != d ==> t1.kids@[j].contains(
                x,
            ),
{
    reveal(unlink_shape);
    let ks = t0.kids@[p];
    let la = t0.anc@[d].len() as int;
    assert(t0.parent_ok(p));
    assert(t0.anc_ok(d));
    assert(t0.anc_ok(p));
    assert forall|j: int| #[trigger] t0.occ(j) implies t1.occ(j) && t1.id_of(j) == t0.id_of(
        j,
    ) && t1.node_at(j).generation == t0.node_at(j).generation by {
        if j != d && j != p && (i == 0 || j != ks[i - 1]) && (i == ks.len() - 1 || j != ks[i
            + 1]) {
            assert(t1.node_at(j) == t0.node_at(j));
        }
    }
    assert forall|j: int|
        #[trigger] t0.descends(j, d) && j != d implies t0.anc@[j].len() > t0.anc@[d].len()
        && t0.anc@[j][la] == d && t0.anc@[j].take(la) == t0.anc@[d] by {
        assert(t0.anc@[j].contains(d));
        let x = choose|x: int| 0 <= x < t0.anc@[j].len() && t0.anc@[j][x] == d;
        assert(t0.anc_ok(j));
        assert(t0.occ(t0.anc@[j][x]) && t0.anc@[t0.anc@[j][x]] == t0.anc@[j].take(x));
        assert(t0.anc@[j].take(x).len() == x);
        assert(x == la);
    }
    assert(!t0.descends(p, d)) by {
        assert(t0.child_at_ok(p, i));
        assert(t0.anc@[d] == t0.anc@[p].push(p));
        if p == d {
            assert(t0.anc@[d].len() == t0.anc@[p].len() + 1);
        }
        if t0.anc@[p].contains(d) {
            let x = choose|x: int| 0 <= x < t0.anc@[p].len() && t0.anc@[p][x] == d;
            assert(t0.occ(t0.anc@[p][x]) && t0.anc@[t0.anc@[p][x]] == t0.anc@[p].take(x));
            assert(t0.anc@[d].len() == x);
            assert(t0.anc@[d].len() == t0.anc@[p].len() + 1);
        }
    }
    if i > 0 {
        assert(t0.child_at_ok(p, i - 1));
        let pv = ks[i - 1];
        assert(t0.anc@[pv] == t0.anc@[p].push(p));
        assert(!t0.descends(pv, d)) by {
            if pv == d {
                assert(t0.anc@[d] == t0.anc@[p].push(p));
                assert(t0.child_at_ok(p, i));
                assert(ks.no_duplicates());
            }
            if t0.anc@[pv].contains(d) {
                let x = choose|x: int| 0 <= x < t0.anc@[pv].len() && t0.anc@[pv][x] == d;
                assert(t0.occ(t0.anc@[pv][x]) && t0.anc@[t0.anc@[pv][x]] == t0.anc@[pv].take(x));
                assert(t0.anc@[d].len() == x);
                assert(t0.child_at_ok(p, i));
                assert(t0.anc@[d] == t0.anc@[p].push(p));
                assert(t0.anc@[pv].take(x).len() == x);
            }
        }
    }
    if i < ks.len() - 1 {
        assert(t0.child_at_ok(p, i + 1));
        let nx = ks[i + 1];
        assert(t0.anc@[nx] == t0.anc@[p].push(p));
        assert(!t0.descends(nx, d)) by {
            if nx == d {
                assert(t0.child_at_ok(p, i));
                assert(ks.no_duplicates());
            }
            if t0.anc@[nx].contains(d) {
                let x = choose|x: int| 0 <= x < t0.anc@[nx].len() && t0.anc@[nx][x] == d;
                assert(t0.occ(t0.anc@[nx][x]) && t0.anc@[t0.anc@[nx][x]] == t0.anc@[nx].take(x));
                assert(t0.anc@[d].len() == x);
                assert(t0.child_at_ok(p, i));
                assert(t0.anc@[d] == t0.anc@[p].push(p));
            }
        }
    }
    assert forall|j: int, x: int|
        t0.occ(j) && #[trigger] t0.kids@[j].contains(x) && x != d implies t1.kids@[j].contains(
        x,
    ) by {
        if j == p {
            let y = choose|y: int| 0 <= y < ks.len() && ks[y] == x;
            if y < i {
                assert(ks.remove(i)[y] == x);
            } else {
                assert(y != i);
                assert(ks.remove(i)[y - 1] == x);
            }
        } else {
            assert(t1.kids@[j] == t0.kids@[j]);
        }
    }
}

/// After one unlink, `p`'s shortened chain, `d`, and `d`'s children satisfy
/// the per-node invariants.
#[verifier::rlimit(100)]
#[verifier::spinoff_prover]
proof fn lemma_unlink_chain<T>(t0: Tree<T>, t1: Tree<T>, d: int, p: int, i: int)
    requires
        t0.inv(),
        unlink_shape(t0, t1, d, p, i),
    ensures
        t1.parent_ok(p),
{
    reveal(unlink_shape);
    let ks = t0.kids@[p];
    let ks1 = ks.remove(i);
    let la = t0.anc@[d].len() as int;
    lemma_unlink_basics(t0, t1, d, p, i);
    assert(t0.parent_ok(p));
    assert(t0.child_at_ok(p, i));
    assert forall|x: int| 0 <= x < ks1.len() implies #[trigger] t1.child_at_ok(p, x) by {
        assert(t1.kids@[p] == ks1);
        assert(t1.anc@[p] == t0.anc@[p]);
        let j = if x < i {
            x
        } else {
            x + 1
        };
        assert(ks1[x] == ks[j]);
        assert(t0.child_at_ok(p, j));
        assert(t0.occ(ks[j]));
        assert(!t0.descends(ks[j], d)) by {
            if ks[j] == d {
                assert(ks.no_duplicates());
            }
            if t0.anc@[ks[j]].contains(d) {
                let z = choose|z: int|
                    0 <= z < t0.anc@[ks[j]].len() && t0.anc@[ks[j]][z] == d;
                assert(t0.anc_ok(ks[j]));
                assert(t0.occ(t0.anc@[ks[j]][z]) && t0.anc@[t0.anc@[ks[j]][z]]
                    == t0.anc@[ks[j]].take(z));
                assert(t0.anc@[d].len() == z);
                assert(t0.anc@[ks[j]] == t0.anc@[p].push(p));
                assert(t0.anc@[d] == t0.anc@[p].push(p));
            }
        }
        assert(t1.anc@[ks1[x]] == t0.anc@[ks[j]]);
        // neighbours in the shortened chain
        if x > 0 {
            let j2 = if x - 1 < i {
                x - 1
            } else {
                x
            };
            assert(ks1[x - 1] == ks[j2]);
            assert(t0.child_at_ok(p, j2));
            assert(t0.occ(ks[j2]));
        }
        if x < ks1.len() - 1 {
            let j3 = if x + 1 < i {
                x + 1
            } else {
                x + 2
            };
            assert(ks1[x + 1] == ks[j3]);
            assert(t0.child_at_ok(p, j3));
            assert(t0.occ(ks[j3]));
        }
        if j < i - 1 || j > i + 1 {
            assert(t1.node_at(ks[j]) == t0.node_at(ks[j]));
        }
        if i > 0 {
            assert(t0.child_at_ok(p, i - 1));
            assert(t0.occ(ks[i - 1]));
        }
        if i < ks.len() - 1 {
            assert(t0.child_at_ok(p, i + 1));
            assert(t0.occ(ks[i + 1]));
        }
    }
    assert(t1.parent_ok(p)) by {
        assert(ks1.no_duplicates());
        if ks1.len() > 0 {
            assert(t1.child_at_ok(p, 0));
            assert(t1.child_at_ok(p, ks1.len() - 1));
            if i > 0 {
                assert(t0.child_at_ok(p, i - 1));
                assert(t0.occ(ks[i - 1]));
            }
            if i < ks.len() - 1 {
                assert(t0.child_at_ok(p, i + 1));
                assert(t0.occ(ks[i + 1]));
            }
            assert(t0.child_at_ok(p, 0));
            assert(t0.occ(ks[0]));
            assert(t0.child_at_ok(p, ks.len() - 1));
            assert(t0.occ(ks[ks.len() - 1]));
        }
    }
}

/// After one unlink, `p`'s own ancestor path is untouched.
#[verifier::rlimit(100)]
#[verifier::spinoff_prover]
proof fn lemma_unlink_chain_p_anc<T>(t0: Tree<T>, t1: Tree<T>, d: int, p: int, i: int)
    requires
        t0.inv(),
        unlink_shape(t0, t1, d, p, i),
    ensures
        t1.anc_ok(p),
{
    reveal(unlink_shape);
    let ks = t0.kids@[p];
    let la = t0.anc@[d].len() as int;
    lemma_unlink_basics(t0, t1, d, p, i);
    assert(t0.parent_ok(p));
    assert(t0.child_at_ok(p, i));
    assert(t1.anc_ok(p)) by {
        assert(t0.anc_ok(p));
        let a = t0.anc@[p];
        assert forall|x: int| 0 <= x < a.len() implies t1.occ(#[trigger] a[x]) && t1.anc@[a[x]]
            == a.take(x) by {
            assert(t0.occ(a[x]));
            assert(!t0.descends(a[x], d)) by {
                if a[x] == d {
                    assert(t0.anc@[d] == a.take(x));
                    assert(t0.anc@[d] == t0.anc@[p].push(p));
                }
                if t0.anc@[a[x]].contains(d) {
                    let z = choose|z: int|
                        0 <= z < t0.anc@[a[x]].len() && t0.anc@[a[x]][z] == d;
                    assert(t0.anc_ok(a[x]));
                    assert(t0.occ(t0.anc@[a[x]][z]) && t0.anc@[t0.anc@[a[x]][z]]
                        == t0.anc@[a[x]].take(z));
                    assert(t0.anc@[d].len() == z);
                    assert(t0.anc@[a[x]] == a.take(x));
                    assert(t0.anc@[d] == t0.anc@[p].push(p));
                    assert(t0.anc@[a[x]].take(z).len() == z);
                }
            }
        }
        match t0.rel(p).parent {
            Some(pid) => {
                assert(t0.occ(a.last()));
                assert(!t0.descends(a.last(), d));
                assert(t0.kids@[a.last()].contains(p));
                assert(t1.kids@[a.last()].contains(p)) by {
                    if a.last() == p {
                        assert(t0.anc@[p] == a.take(a.len() - 1));
                    } else {
                        assert(p != d);
                    }
                }
            },
            None => {},
        }
    }
}

/// After one unlink, `d` is a parentless component root whose own chain
/// is intact.
#[verifier::rlimit(100)]
#[verifier::spinoff_prover]
proof fn lemma_unlink_chain_d<T>(t0: Tree<T>, t1: Tree<T>, d: int, p: int, i: int)
    requires
        t0.inv(),
        unlink_shape(t0, t1, d, p, i),
    ensures
        t1.parent_ok(d),
        t1.anc_ok(d),
{
    reveal(unlink_shape);
    let ks = t0.kids@[p];
    let la = t0.anc@[d].len() as int;
    lemma_unlink_basics(t0, t1, d, p, i);
    assert(t0.parent_ok(p));
    assert(t0.child_at_ok(p, i));
    // d itself: children kept, no parent or siblings
    assert(t1.parent_ok(d)) by {
        assert(t0.parent_ok(d));
        assert(t1.kids@[d] == t0.kids@[d]) by {
            assert(d != p) by {
                if d == p {
                    assert(t0.anc@[d] == t0.anc@[p].push(p));
                }
            }
        }
        let kd = t0.kids@[d];
        assert forall|x: int| 0 <= x < kd.len() implies #[trigger] t1.child_at_ok(d, x) by {
            assert(t0.child_at_ok(d, x));
            assert(t0.occ(kd[x]));
            assert(t0.descends(kd[x], d)) by {
                assert(t0.anc@[kd[x]] == t0.anc@[d].push(d));
                assert(t0.anc@[kd[x]][la] == d);
            }
            assert(kd[x] != d) by {
                if kd[x] == d {
                    assert(t0.anc@[d] == t0.anc@[d].push(d));
                }
            }
            assert(kd[x] != p);
            if i > 0 {
                assert(kd[x] != ks[i - 1]) by {
                    if kd[x] == ks[i - 1] {
                        assert(t0.child_at_ok(p, i - 1));
                        assert(t0.anc@[kd[x]] == t0.anc@[p].push(p));
                        assert(t0.anc@[kd[x]] == t0.anc@[d].push(d));
                        assert(t0.anc@[d] == t0.anc@[p].push(p));
                    }
                }
            }
            if i < ks.len() - 1 {
                assert(kd[x] != ks[i + 1]) by {
                    if kd[x] == ks[i + 1] {
                        assert(t0.child_at_ok(p, i + 1));
                        assert(t0.anc@[kd[x]] == t0.anc@[p].push(p));
                        assert(t0.anc@[kd[x]] == t0.anc@[d].push(d));
                        assert(t0.anc@[d] == t0.anc@[p].push(p));
                    }
                }
            }
            assert(t1.node_at(kd[x]) == t0.node_at(kd[x]));
            assert(t1.anc@[kd[x]] == t0.anc@[kd[x]].skip(la));
            assert(t1.anc@[d] == t0.anc@[d].skip(la));
            assert(t0.anc@[d].skip(la) =~= Seq::<int>::empty());
            assert(t1.anc@[kd[x]] =~= t1.anc@[d].push(d)) by {
                assert(t0.anc@[kd[x]] == t0.anc@[d].push(d));
            }
            if x > 0 {
                assert(t0.child_at_ok(d, x - 1));
                assert(t0.occ(kd[x - 1]));
            }
            if x < kd.len() - 1 {
                assert(t0.child_at_ok(d, x + 1));
                assert(t0.occ(kd[x + 1]));
            }
            assert(t1.id_of(d) == t0.id_of(d));
        }
        if kd.len() > 0 {
            assert(t0.child_at_ok(d, 0));
            assert(t0.occ(kd[0]));
            assert(t0.child_at_ok(d, kd.len() - 1));
            assert(t0.occ(kd[kd.len() - 1]));
        }
    }
    assert(t1.anc_ok(d)) by {
        assert(t1.anc@[d] == t0.anc@[d].skip(la));
        assert(t0.anc@[d].skip(la) =~= Seq::<int>::empty());
        assert(t1.rel(d).parent is None);
    }
}
/// A structure-preserving correspondence between the subtree of `src` at
/// slot `s` and the whole of `dst`: a map from source subtree slots to copy
/// slots, hitting distinct copy slots, sending the subtree root to the
/// copy's root, preserving the children order, and pairing each payload
/// with a clone of the original.
pub open spec fn clone_iso<T: Clone>(src: Tree<T>, dst: Tree<T>, s: int, m: Map<int, int>) -> bool {
    &&& m.dom() == src.desc_set(s)
    &&& m.dom().contains(s)
    &&& dst.root_id == Some(dst.id_of(m[s]))
    &&& forall|k: int|
        #[trigger] m.dom().contains(k) ==> dst.occ(m[k]) && vstd::pervasive::cloned(
            src.data_at(k),
            dst.data_at(m[k]),
        ) && dst.kids@[m[k]] == src.kids@[k].map(|ci: int, c: int| m[c])
    &&& forall|k1: int, k2: int|
        #[trigger] m.dom().contains(k1) && #[trigger] m.dom().contains(k2) && k1 != k2 ==> m[k1]
            != m[k2]
}

/// The handles recorded in the copy's translation table agree with the
/// ghost correspondence.
pub open spec fn map_tracks<T: Clone>(
    dst: Tree<T>,
    m: Map<int, int>,
    table: Seq<Option<NodeId>>,
) -> bool {
    forall|k: int|
        #[trigger] m.dom().contains(k) ==> 0 <= k < table.len() && table[k] == Some(
            dst.id_of(m[k]),
        )
}

/// The running state of the copy, with the children of the first `x`
/// visited nodes already in place.
#[verifier::opaque]
pub open spec fn clone_loop_inv<T: Clone>(
    src: Tree<T>,
    dst: Tree<T>,
    s: int,
    m: Map<int, int>,
    order: Seq<NodeId>,
    x: int,
) -> bool {
    &&& m.dom().finite()
    &&& m.dom().contains(s)
    &&& dst.wf()
    &&& dst.slab.count as int == m.dom().len() as int
    &&& dst.root_id == Some(dst.id_of(m[s]))
    &&& forall|k: int| #[trigger] m.dom().contains(k) ==> src.descends(k, s)
    &&& forall|k: int|
        #[trigger] m.dom().contains(k) && k != s ==> exists|y: int|
            0 <= y < x && src.kids@[crate::iter::key_of(#[trigger] order[y])].contains(k)
    &&& forall|y: int, ci: int|
        0 <= y < x && 0 <= ci < src.kids@[crate::iter::key_of(#[trigger] order[y])].len()
            ==> m.dom().contains(#[trigger] src.kids@[crate::iter::key_of(order[y])][ci])
    &&& forall|k: int|
        #[trigger] m.dom().contains(k) ==> dst.occ(m[k]) && vstd::pervasive::cloned(
            src.data_at(k),
            dst.data_at(m[k]),
        )
    &&& forall|k1: int, k2: int|
        #[trigger] m.dom().contains(k1) && #[trigger] m.dom().contains(k2) && k1 != k2 ==> m[k1]
            != m[k2]
    &&& forall|y: int|
        0 <= y < x ==> dst.kids@[m[crate::iter::key_of(#[trigger] order[y])]]
            == src.kids@[crate::iter::key_of(order[y])].map(|ci: int, c: int| m[c])
    &&& forall|k: int|
        #[trigger] m.dom().contains(k) && !crate::iter::has_key(order, x, k) ==> dst.kids@[m[k]]
            == Seq::<int>::empty()
}

/// The running state while the children of the node at position `x` are
/// being copied: the first `ci` of them are in place.
#[verifier::opaque]
pub open spec fn clone_child_inv<T: Clone>(
    src: Tree<T>,
    dst: Tree<T>,
    s: int,
    m: Map<int, int>,
    order: Seq<NodeId>,
    x: int,
    m_snap: Map<int, int>,
    dst_snap: Tree<T>,
    pk: int,
    ci: int,
) -> bool {
    &&& m.dom().finite()
    &&& m.dom().contains(s)
    &&& m.dom().contains(pk)
    &&& dst.wf()
    &&& dst.slab.count as int == m.dom().len() as int
    &&& dst.root_id == Some(dst.id_of(m[s]))
    &&& 0 <= ci <= src.kids@[pk].len()
    &&& m[pk] == m_snap[pk]
    &&& m[s] == m_snap[s]
    &&& m_snap.dom().contains(s)
    &&& m.dom() == m_snap.dom() + src.kids@[pk].take(ci).to_set()
    &&& forall|k: int| #[trigger] m_snap.dom().contains(k) ==> m[k] == m_snap[k]
    &&& forall|k: int|
        #[trigger] m_snap.dom().contains(k) && k != s ==> exists|y: int|
            0 <= y < x && src.kids@[crate::iter::key_of(#[trigger] order[y])].contains(k)
    &&& forall|k: int| #[trigger] m.dom().contains(k) ==> src.descends(k, s)
    &&& forall|k: int|
        #[trigger] m.dom().contains(k) && !m_snap.dom().contains(k) ==> src.kids@[pk].take(
            ci,
        ).contains(k)
    &&& forall|k: int|
        #[trigger] m.dom().contains(k) ==> dst.occ(m[k]) && vstd::pervasive::cloned(
            src.data_at(k),
            dst.data_at(m[k]),
        )
    &&& forall|k1: int, k2: int|
        #[trigger] m.dom().contains(k1) && #[trigger] m.dom().contains(k2) && k1 != k2 ==> m[k1]
            != m[k2]
    &&& dst.kids@[m[pk]] == src.kids@[pk].take(ci).map(|cj: int, c: int| m[c])
    &&& forall|k: int|
        #[trigger] m_snap.dom().contains(k) && k != pk ==> dst.kids@[m[k]]
            == dst_snap.kids@[m_snap[k]]
    &&& forall|k: int|
        #[trigger] m.dom().contains(k) && !m_snap.dom().contains(k) ==> dst.kids@[m[k]]
            == Seq::<int>::empty()
}

/// The facts that define the order vector a copy walks: each handle is
/// live and normalized, keys are distinct, every non-initial node's parent
/// appears earlier, and the vector covers the whole subtree.
pub open spec fn clone_order_ok<T>(src: Tree<T>, order: Seq<NodeId>, s: int) -> bool {
    &&& order.len() >= 1
    &&& order[0] == src.id_of(s)
    &&& forall|y: int|
        0 <= y < order.len() ==> src.resolves(#[trigger] order[y]) && order[y] == src.id_of(
            crate::iter::key_of(order[y]),
        ) && src.descends(crate::iter::key_of(order[y]), s)
    &&& forall|y: int, z: int|
        0 <= y < z < order.len() ==> crate::iter::key_of(#[trigger] order[y])
            != crate::iter::key_of(#[trigger] order[z])
    &&& forall|y: int|
        1 <= y < order.len() ==> #[trigger] crate::iter::parent_seen(
            src,
            order,
            order.len() as int,
            y,
        )
    &&& forall|k: int|
        #[trigger] src.descends(k, s) ==> crate::iter::has_key(order, order.len() as int, k)
}

/// The copy of the subtree root alone satisfies the copy-loop state.
proof fn lemma_clone_init<T: Clone>(
    src: Tree<T>,
    dst: Tree<T>,
    s: int,
    rk: int,
    m: Map<int, int>,
    order: Seq<NodeId>,
)
    requires
        src.wf(),
        src.occ(s),
        m == Map::<int, int>::empty().insert(s, rk),
        dst.wf(),
        dst.slab.count == 1,
        dst.occ(rk),
        dst.root_id == Some(dst.id_of(rk)),
        vstd::pervasive::cloned(src.data_at(s), dst.data_at(rk)),
        dst.kids@[rk] == Seq::<int>::empty(),
    ensures
        clone_loop_inv(src, dst, s, m, order, 0),
{
    reveal(clone_loop_inv);
    assert(m.dom() =~= Set::<int>::empty().insert(s));
    assert(m.dom().len() == 1) by {
        assert(Set::<int>::empty().insert(s).len() == 1);
    }
    assert(src.descends(s, s));
    assert(m[s] == rk);
}

/// The node at position `y` of the order already has a copy, and its key
/// has not occurred earlier.
proof fn lemma_clone_pk_copied<T: Clone>(
    src: Tree<T>,
    dst: Tree<T>,
    s: int,
    m: Map<int, int>,
    order: Seq<NodeId>,
    y: int,
    xb: int,
)
    requires
        src.wf(),
        src.occ(s),
        clone_loop_inv(src, dst, s, m, order, xb),
        clone_order_ok(src, order, s),
        0 <= y < order.len(),
        y <= xb,
    ensures
        m.dom().contains(crate::iter::key_of(order[y])),
        !crate::iter::has_key(order, y, crate::iter::key_of(order[y])),
{
    reveal(clone_loop_inv);
    let pk = crate::iter::key_of(order[y]);
    assert(src.resolves(order[y]));
    assert(src.occ(pk));
    if y == 0 {
        assert(order[0] == src.id_of(s));
        assert(0 <= s < src.slab.n() <= usize::MAX);
        assert(pk == s);
    } else {
        assert(crate::iter::parent_seen(src, order, order.len() as int, y));
        let w = choose|w: int|
            0 <= w < order.len() && w < y && crate::iter::key_of(#[trigger] order[w])
                == src.anc@[crate::iter::key_of(order[y])].last();
        assert(src.anc_ok(pk));
        if src.rel(pk).parent is None {
            // pk would be the root s, contradicting key distinctness
            assert(src.anc@[pk].len() == 0);
            assert(src.descends(pk, s));
            assert(pk == s) by {
                if pk != s {
                    assert(src.anc@[pk].contains(s));
                }
            }
            assert(crate::iter::key_of(order[0]) == s);
            assert(crate::iter::key_of(order[y]) != crate::iter::key_of(order[0]));
        }
        let pl = src.anc@[pk].last();
        assert(src.kids@[pl].contains(pk));
        let ci = choose|ci: int| 0 <= ci < src.kids@[pl].len() && src.kids@[pl][ci] == pk;
        assert(src.occ(pl)) by {
            assert(src.anc@[pk].len() > 0);
        }
        assert(m.dom().contains(src.kids@[crate::iter::key_of(order[w])][ci]));
    }
    assert(!crate::iter::has_key(order, y, pk)) by {
        if crate::iter::has_key(order, y, pk) {
            let w = choose|w: int|
                0 <= w < y && crate::iter::key_of(#[trigger] order[w]) == pk;
            assert(crate::iter::key_of(order[w]) == crate::iter::key_of(order[y]));
        }
    }
}

/// Entering a node's children: the per-child state starts from the loop
/// state with nothing copied yet.
proof fn lemma_clone_enter<T: Clone>(
    src: Tree<T>,
    dst: Tree<T>,
    s: int,
    m: Map<int, int>,
    order: Seq<NodeId>,
    x: int,
    pk: int,
)
    requires
        src.wf(),
        clone_loop_inv(src, dst, s, m, order, x),
        0 <= x < order.len(),
        pk == crate::iter::key_of(order[x]),
        src.occ(pk),
        m.dom().contains(pk),
        !crate::iter::has_key(order, x, pk),
    ensures
        clone_child_inv(src, dst, s, m, order, x, m, dst, pk, 0),
{
    reveal(clone_loop_inv);
    reveal(clone_child_inv);
    assert(m.dom() =~= m.dom() + src.kids@[pk].take(0).to_set()) by {
        assert(src.kids@[pk].take(0).to_set() =~= Set::<int>::empty());
    }
    assert(dst.kids@[m[pk]] == Seq::<int>::empty());
    assert(dst.kids@[m[pk]] =~= src.kids@[pk].take(0).map(|cj: int, c: int| m[c]));
}

/// The next child to copy: it is live, lies in the subtree, and has no copy
/// yet; the copy of its parent is live in the copy.
proof fn lemma_clone_child_facts<T: Clone>(
    src: Tree<T>,
    dst: Tree<T>,
    s: int,
    m: Map<int, int>,
    order: Seq<NodeId>,
    x: int,
    m_snap: Map<int, int>,
    dst_snap: Tree<T>,
    pk: int,
    ci: int,
)
    requires
        src.wf(),
        src.occ(s),
        clone_child_inv(src, dst, s, m, order, x, m_snap, dst_snap, pk, ci),
        clone_order_ok(src, order, s),
        0 <= x < order.len(),
        pk == crate::iter::key_of(order[x]),
        src.occ(pk),
        0 <= ci < src.kids@[pk].len(),
    ensures
        dst.wf(),
        dst.occ(m[pk]),
        dst.resolves(dst.id_of(m[pk])),
        src.occ(src.kids@[pk][ci]),
        src.descends(src.kids@[pk][ci], s),
        !m.dom().contains(src.kids@[pk][ci]),
        src.kids@[pk][ci] != pk,
        0 <= src.kids@[pk][ci] < src.slab.n(),
{
    reveal(clone_child_inv);
    let ck = src.kids@[pk][ci];
    assert(src.parent_ok(pk));
    assert(src.child_at_ok(pk, ci));
    assert(src.occ(ck));
    assert(src.descends(pk, s)) by {
        assert(src.resolves(order[x]));
    }
    assert(src.descends(ck, s)) by {
        assert(src.anc@[ck] == src.anc@[pk].push(pk));
        if pk == s {
            assert(src.anc@[ck][src.anc@[pk].len() as int] == pk);
            assert(src.anc@[ck].contains(s));
        } else {
            assert(src.anc@[pk].contains(s));
            let z = choose|z: int| 0 <= z < src.anc@[pk].len() && src.anc@[pk][z] == s;
            assert(src.anc@[ck][z] == s);
            assert(src.anc@[ck].contains(s));
        }
    }
    assert(ck != pk) by {
        if ck == pk {
            assert(src.anc@[pk] == src.anc@[pk].push(pk));
        }
    }
    assert(!m.dom().contains(ck)) by {
        if m.dom().contains(ck) {
            if m_snap.dom().contains(ck) {
                if ck == s {
                    // the subtree root cannot be a child of its descendant
                    lemma_anc_no_self(src, s);
                    assert(src.anc@[ck] == src.anc@[pk].push(pk));
                    if pk == s {
                        assert(src.anc@[s].contains(s)) by {
                            assert(src.anc@[s][src.anc@[pk].len() as int] == pk);
                        }
                    } else {
                        assert(src.anc@[pk].contains(s));
                        let z = choose|z: int|
                            0 <= z < src.anc@[pk].len() && src.anc@[pk][z] == s;
                        assert(src.anc@[s][z] == s);
                        assert(src.anc@[s].contains(s));
                    }
                } else {
                    let y = choose|y: int|
                        0 <= y < x && src.kids@[crate::iter::key_of(
                            #[trigger] order[y],
                        )].contains(ck);
                    let yk = crate::iter::key_of(order[y]);
                    assert(src.occ(yk)) by {
                        assert(src.resolves(order[y]));
                    }
                    let cj = choose|cj: int|
                        0 <= cj < src.kids@[yk].len() && src.kids@[yk][cj] == ck;
                    assert(src.parent_ok(yk));
                    assert(src.child_at_ok(yk, cj));
                    assert(src.rel(ck).parent == Some(src.id_of(yk)));
                    assert(src.rel(ck).parent == Some(src.id_of(pk)));
                    assert(src.id_of(yk).index.key == src.id_of(pk).index.key);
                    assert(0 <= yk < src.slab.n() <= usize::MAX);
                    assert(0 <= pk < src.slab.n() <= usize::MAX);
                    assert(yk == pk);
                    assert(crate::iter::key_of(order[y]) == crate::iter::key_of(order[x]));
                }
            } else {
                assert(src.kids@[pk].take(ci).contains(ck));
                let z = choose|z: int|
                    0 <= z < ci && #[trigger] src.kids@[pk].take(ci)[z] == ck;
                assert(src.kids@[pk][z] == ck);
                assert(src.kids@[pk].no_duplicates());
            }
        }
    }
    assert(dst.occ(m[pk]));
}

/// One copied child: after the append, the per-child state advances by one
/// and the translation table tracks the new entry.
#[verifier::rlimit(100)]
#[verifier::spinoff_prover]
proof fn lemma_clone_push<T: Clone>(
    src: Tree<T>,
    pre: Tree<T>,
    post: Tree<T>,
    s: int,
    m_old: Map<int, int>,
    m: Map<int, int>,
    order: Seq<NodeId>,
    x: int,
    m_snap: Map<int, int>,
    dst_snap: Tree<T>,
    pk: int,
    ci: int,
    ck: int,
    dk: int,
    table_pre: Seq<Option<NodeId>>,
    table_post: Seq<Option<NodeId>>,
)
    requires
        src.wf(),
        src.occ(pk),
        clone_child_inv(src, pre, s, m_old, order, x, m_snap, dst_snap, pk, ci),
        0 <= ci < src.kids@[pk].len(),
        ck == src.kids@[pk][ci],
        src.occ(ck),
        src.descends(ck, s),
        !m_old.dom().contains(ck),
        m == m_old.insert(ck, dk),
        // what the append did
        !pre.occ(dk),
        post.wf(),
        post.occ(dk),
        post.slab.count == pre.slab.count + 1,
        vstd::pervasive::cloned(src.data_at(ck), post.data_at(dk)),
        post.kids@[dk] == Seq::<int>::empty(),
        post.kids@[m_old[pk]] == pre.kids@[m_old[pk]].push(dk),
        post.root_id == pre.root_id,
        forall|j: int|
            pre.occ(j) ==> #[trigger] post.occ(j) && post.id_of(j) == pre.id_of(j)
                && post.data_at(j) == pre.data_at(j),
        forall|j: int| pre.occ(j) && j != m_old[pk] ==> #[trigger] post.kids@[j] == pre.kids@[j],
        // the translation table
        map_tracks(pre, m_old, table_pre),
        0 <= ck < table_pre.len(),
        table_post == table_pre.update(ck, Some(post.id_of(dk))),
    ensures
        clone_child_inv(src, post, s, m, order, x, m_snap, dst_snap, pk, ci + 1),
        map_tracks(post, m, table_post),
        post.id_of(m[pk]) == pre.id_of(m_old[pk]),
{
    reveal(clone_child_inv);
    let ks = src.kids@[pk];
    assert(src.parent_ok(pk));
    assert(ks.no_duplicates());
    assert(pk != ck) by {
        if pk == ck {
            assert(src.anc@[pk] == src.anc@[pk].push(pk));
        }
    }
    assert(m[pk] == m_old[pk]);
    assert(m[s] == m_old[s]) by {
        assert(s != ck) by {
            assert(m_old.dom().contains(s));
        }
    }
    assert(m.dom() =~= m_snap.dom() + ks.take(ci + 1).to_set()) by {
        assert forall|c: int|
            #![trigger m.dom().contains(c)]
            true implies (m.dom().contains(c) <==> (m_snap.dom() + ks.take(ci + 1).to_set()).contains(
            c,
        )) by {
            if m.dom().contains(c) {
                if c != ck && !m_snap.dom().contains(c) {
                    assert(ks.take(ci).contains(c));
                    let z = choose|z: int| 0 <= z < ci && #[trigger] ks.take(ci)[z] == c;
                    assert(ks.take(ci + 1)[z] == c);
                    assert(ks.take(ci + 1).contains(c));
                }
                if c == ck {
                    assert(ks.take(ci + 1)[ci] == ck);
                    assert(ks.take(ci + 1).contains(ck));
                }
            }
            if (m_snap.dom() + ks.take(ci + 1).to_set()).contains(c) && !m_snap.dom().contains(c)
                && c != ck {
                let z = choose|z: int| 0 <= z < ci + 1 && #[trigger] ks.take(ci + 1)[z] == c;
                if z < ci {
                    assert(ks.take(ci)[z] == c);
                    assert(ks.take(ci).contains(c));
                } else {
                    assert(c == ck);
                }
            }
        }
    }
    assert(m.dom().len() == m_old.dom().len() + 1);
    assert forall|k: int|
        #[trigger] m.dom().contains(k) && !m_snap.dom().contains(k) implies ks.take(
        ci + 1,
    ).contains(k) by {
        if k != ck {
            assert(ks.take(ci).contains(k));
            let z = choose|z: int| 0 <= z < ci && #[trigger] ks.take(ci)[z] == k;
            assert(ks.take(ci + 1)[z] == k);
        } else {
            assert(ks.take(ci + 1)[ci] == ck);
        }
    }
    assert(post.kids@[m[pk]] =~= ks.take(ci + 1).map(|cj: int, c: int| m[c])) by {
        assert forall|cj: int|
            0 <= cj < ci + 1 implies ks.take(ci + 1).map(|cj2: int, c: int| m[c])[cj]
            == post.kids@[m_old[pk]][cj] by {
            if cj < ci {
                let c = ks[cj];
                assert(ks.take(ci)[cj] == c);
                assert(ks.take(ci + 1)[cj] == c);
                assert(post.kids@[m_old[pk]][cj] == pre.kids@[m_old[pk]][cj]);
                assert(pre.kids@[m_old[pk]][cj] == ks.take(ci).map(
                    |cj2: int, c2: int| m_old[c2],
                )[cj]);
                assert(c != ck);
                assert(m[c] == m_old[c]);
            } else {
                assert(ks.take(ci + 1)[cj] == ck);
                assert(m[ck] == dk);
                assert(pre.kids@[m_old[pk]].len() == ci) by {
                    assert(pre.kids@[m_old[pk]] == ks.take(ci).map(|cj2: int, c2: int| m_old[c2]));
                }
                assert(post.kids@[m_old[pk]][ci] == dk);
            }
        }
    }
    assert forall|k: int|
        #[trigger] m.dom().contains(k) implies post.occ(m[k]) && vstd::pervasive::cloned(
        src.data_at(k),
        post.data_at(m[k]),
    ) by {
        if k != ck {
            assert(m_old.dom().contains(k));
            assert(m[k] == m_old[k]);
            assert(pre.occ(m[k]));
            assert(post.occ(m[k]));
            assert(post.data_at(m[k]) == pre.data_at(m[k]));
            assert(vstd::pervasive::cloned(src.data_at(k), pre.data_at(m_old[k])));
        }
    }
    assert forall|k1: int, k2: int|
        #[trigger] m.dom().contains(k1) && #[trigger] m.dom().contains(k2) && k1 != k2 implies m[k1]
        != m[k2] by {
        if k1 == ck {
            assert(m_old.dom().contains(k2));
            assert(m[k2] == m_old[k2]);
            assert(pre.occ(m[k2]));
        } else if k2 == ck {
            assert(m_old.dom().contains(k1));
            assert(m[k1] == m_old[k1]);
            assert(pre.occ(m[k1]));
        }
    }
    assert forall|k: int|
        #[trigger] m_snap.dom().contains(k) && k != pk implies post.kids@[m[k]]
        == dst_snap.kids@[m_snap[k]] by {
        assert(k != ck);
        assert(m_old.dom().contains(k));
        assert(m[k] == m_old[k]);
        assert(m[k] != m_old[pk]);
        assert(pre.occ(m[k]));
        assert(post.kids@[m[k]] == pre.kids@[m[k]]);
        assert(pre.kids@[m_old[k]] == dst_snap.kids@[m_snap[k]]);
    }
    assert forall|k: int|
        #[trigger] m.dom().contains(k) && !m_snap.dom().contains(k) implies post.kids@[m[k]]
        == Seq::<int>::empty() by {
        if k == ck {
            assert(m[k] == dk);
        } else {
            assert(m_old.dom().contains(k));
            assert(m[k] == m_old[k]);
            assert(m[k] != m_old[pk]);
            assert(pre.occ(m[k]));
            assert(post.kids@[m[k]] == pre.kids@[m[k]]);
            assert(pre.kids@[m_old[k]] == Seq::<int>::empty());
        }
    }
    assert(post.root_id == Some(post.id_of(m[s]))) by {
        assert(pre.occ(m_old[s]));
        assert(post.occ(m_old[s]));
        assert(post.id_of(m[s]) == pre.id_of(m_old[s]));
    }
    assert(post.id_of(m[pk]) == pre.id_of(m_old[pk])) by {
        assert(pre.occ(m_old[pk]));
        assert(post.occ(m_old[pk]));
    }
    assert forall|k: int|
        #[trigger] m.dom().contains(k) implies 0 <= k < table_post.len() && table_post[k] == Some(
        post.id_of(m[k]),
    ) by {
        if k == ck {
        } else {
            assert(m_old.dom().contains(k));
            assert(m[k] == m_old[k]);
            assert(k != ck);
            assert(table_post[k] == table_pre[k]);
            assert(pre.occ(m_old[k]));
            assert(post.id_of(m[k]) == pre.id_of(m_old[k]));
        }
    }
}

/// Leaving a node's children: all of them are in place, so the loop state
/// advances past the node.
#[verifier::rlimit(100)]
#[verifier::spinoff_prover]
proof fn lemma_clone_exit<T: Clone>(
    src: Tree<T>,
    dst: Tree<T>,
    s: int,
    m: Map<int, int>,
    order: Seq<NodeId>,
    x: int,
    m_snap: Map<int, int>,
    dst_snap: Tree<T>,
    pk: int,
)
    requires
        src.wf(),
        src.occ(s),
        clone_order_ok(src, order, s),
        0 <= x < order.len(),
        pk == crate::iter::key_of(order[x]),
        src.occ(pk),
        clone_loop_inv(src, dst_snap, s, m_snap, order, x),
        clone_child_inv(
            src,
            dst,
            s,
            m,
            order,
            x,
            m_snap,
            dst_snap,
            pk,
            src.kids@[pk].len() as int,
        ),
    ensures
        clone_loop_inv(src, dst, s, m, order, x + 1),
{
    reveal(clone_loop_inv);
    reveal(clone_child_inv);
    let ks = src.kids@[pk];
    assert(ks.take(ks.len() as int) =~= ks);
    assert(src.parent_ok(pk));
    assert forall|k: int|
        #[trigger] m.dom().contains(k) && k != s implies exists|y: int|
        0 <= y < x + 1 && src.kids@[crate::iter::key_of(#[trigger] order[y])].contains(k) by {
        if m_snap.dom().contains(k) {
            let y = choose|y: int|
                0 <= y < x && src.kids@[crate::iter::key_of(#[trigger] order[y])].contains(k);
            assert(0 <= y < x + 1 && src.kids@[crate::iter::key_of(order[y])].contains(k));
        } else {
            assert(ks.take(ks.len() as int).contains(k));
            assert(ks.contains(k)) by {
                let z = choose|z: int|
                    0 <= z < ks.len() && #[trigger] ks.take(ks.len() as int)[z] == k;
                assert(ks[z] == k);
            }
            assert(src.kids@[crate::iter::key_of(order[x])].contains(k));
        }
    }
    assert forall|y: int, ci: int|
        0 <= y < x + 1 && 0 <= ci < src.kids@[crate::iter::key_of(#[trigger] order[y])].len()
        implies m.dom().contains(#[trigger] src.kids@[crate::iter::key_of(order[y])][ci]) by {
        if y < x {
            assert(m_snap.dom().contains(src.kids@[crate::iter::key_of(order[y])][ci]));
        } else {
            assert(ks.take(ks.len() as int)[ci] == ks[ci]);
            assert(ks.take(ks.len() as int).contains(ks[ci]));
        }
    }
    assert forall|y: int|
        0 <= y < x + 1 implies dst.kids@[m[crate::iter::key_of(#[trigger] order[y])]]
        == src.kids@[crate::iter::key_of(order[y])].map(|ci: int, c: int| m[c]) by {
        let yk = crate::iter::key_of(order[y]);
        if y < x {
            assert(yk != pk) by {
                assert(crate::iter::key_of(order[y]) != crate::iter::key_of(order[x]));
            }
            assert(m_snap.dom().contains(yk)) by {
                lemma_clone_pk_copied(src, dst_snap, s, m_snap, order, y, x);
            }
            assert(m.dom().contains(yk));
            assert(m[yk] == m_snap[yk]);
            assert(dst.kids@[m[yk]] == dst_snap.kids@[m_snap[yk]]);
            assert(dst_snap.kids@[m_snap[yk]] == src.kids@[yk].map(|ci: int, c: int| m_snap[c]));
            assert(src.kids@[yk].map(|ci: int, c: int| m_snap[c]) =~= src.kids@[yk].map(
                |ci: int, c: int| m[c],
            )) by {
                assert forall|ci: int|
                    #![trigger src.kids@[yk][ci]]
                    0 <= ci < src.kids@[yk].len() implies src.kids@[yk].map(
                    |ci2: int, c: int| m_snap[c],
                )[ci] == src.kids@[yk].map(|ci2: int, c: int| m[c])[ci] by {
                    let c = src.kids@[yk][ci];
                    assert(m_snap.dom().contains(c));
                    assert(m[c] == m_snap[c]);
                }
            }
        } else {
            assert(yk == pk);
            assert(dst.kids@[m[pk]] == ks.take(ks.len() as int).map(|cj: int, c: int| m[c]));
            assert(ks.take(ks.len() as int).map(|cj: int, c: int| m[c]) =~= ks.map(
                |cj: int, c: int| m[c],
            ));
        }
    }
    assert forall|k: int|
        #[trigger] m.dom().contains(k) && !crate::iter::has_key(order, x + 1, k)
        implies dst.kids@[m[k]] == Seq::<int>::empty() by {
        if m_snap.dom().contains(k) {
            assert(!crate::iter::has_key(order, x, k)) by {
                if crate::iter::has_key(order, x, k) {
                    let y = choose|y: int|
                        0 <= y < x && crate::iter::key_of(#[trigger] order[y]) == k;
                    assert(crate::iter::key_of(order[y]) == k);
                    assert(crate::iter::has_key(order, x + 1, k));
                }
            }
            assert(k != pk) by {
                if k == pk {
                    assert(crate::iter::key_of(order[x]) == k);
                    assert(crate::iter::has_key(order, x + 1, k));
                }
            }
            assert(dst.kids@[m[k]] == dst_snap.kids@[m_snap[k]]);
            assert(m[k] == m_snap[k]);
        }
    }
}

/// When every visited node's children are in place, the accumulated
/// correspondence is the isomorphism the contract promises.
#[verifier::rlimit(100)]
#[verifier::spinoff_prover]
proof fn lemma_clone_finish<T: Clone>(
    src: Tree<T>,
    dst: Tree<T>,
    s: int,
    m: Map<int, int>,
    order: Seq<NodeId>,
)
    requires
        src.wf(),
        src.occ(s),
        clone_order_ok(src, order, s),
        clone_loop_inv(src, dst, s, m, order, order.len() as int),
    ensures
        clone_iso(src, dst, s, m),
        dst.wf(),
        dst.slab.count as int == src.desc_set(s).len() as int,
        dst.root_id is Some,
        vstd::pervasive::cloned(src.data_at(s), dst.data_at(dst.root_id->0.index.key as int)),
{
    reveal(clone_loop_inv);
    assert forall|y: int|
        0 <= y < order.len() implies m.dom().contains(crate::iter::key_of(
        #[trigger] order[y],
    )) by {
        lemma_clone_pk_copied(src, dst, s, m, order, y, order.len() as int);
    }
    assert(m.dom() =~= src.desc_set(s)) by {
        assert forall|k: int| src.desc_set(s).contains(k) implies m.dom().contains(k) by {
            assert(src.descends(k, s));
            assert(crate::iter::has_key(order, order.len() as int, k));
            let y = choose|y: int|
                0 <= y < order.len() && crate::iter::key_of(#[trigger] order[y]) == k;
            assert(m.dom().contains(crate::iter::key_of(order[y])));
        }
    }
    assert forall|k: int| #[trigger] m.dom().contains(k) implies dst.kids@[m[k]]
        == src.kids@[k].map(|ci: int, c: int| m[c]) by {
        assert(src.descends(k, s));
        assert(crate::iter::has_key(order, order.len() as int, k));
        let y = choose|y: int|
            0 <= y < order.len() && crate::iter::key_of(#[trigger] order[y]) == k;
        assert(dst.kids@[m[crate::iter::key_of(order[y])]] == src.kids@[crate::iter::key_of(
            order[y],
        )].map(|ci: int, c: int| m[c]));
    }
    assert(dst.slab.count as int == src.desc_set(s).len() as int);
    assert(m.dom().contains(s));
    assert(dst.root_id == Some(dst.id_of(m[s])));
    assert(dst.occ(m[s]));
    assert(dst.id_of(m[s]).index.key as int == m[s]) by {
        assert(0 <= m[s] < dst.slab.n() <= usize::MAX);
    }
    assert(clone_iso(src, dst, s, m));
}

impl<T: Clone> Tree<T> {
    /// A structurally independent deep copy of the subtree rooted at the
    /// given node (or at the root). The copy is built in level order, each
    /// level's children appended under their already-copied parent, so it is
    /// isomorphic to the source subtree: same shape, same sibling order,
    /// payloads produced by `clone`.
    #[verifier::rlimit(100)]
    #[verifier::spinoff_prover]
    pub fn clone_from_node(&self, from_node_id: Option<NodeId>) -> (r: Tree<T>)
        requires
            self.wf(),
            match from_node_id {
                Some(id) => self.resolves(id),
                None => true,
            },
        ensures
            r.wf(),
            match (if from_node_id is Some {
                from_node_id
            } else {
                self.root_id
            }) {
                Some(start) => r.root_id is Some,
                None => r.root_id is None && r.slab.count == 0,
            },
            match (if from_node_id is Some {
                from_node_id
            } else {
                self.root_id
            }) {
                Some(start) => r.slab.count == self.desc_set(start.index.key as int).len(),
                None => true,
            },
            match (if from_node_id is Some {
                from_node_id
            } else {
                self.root_id
            }) {
                Some(start) => vstd::pervasive::cloned(
                    self.data_at(start.index.key as int),
                    r.data_at(r.root_id->0.index.key as int),
                ),
                None => true,
            },
            from_node_id matches Some(fid) ==> exists|m: Map<int, int>|
                #[trigger] clone_iso(*self, r, fid.index.key as int, m),
            from_node_id is None ==> (self.root_id matches Some(rt) ==> exists|m: Map<int, int>|
                #[trigger] clone_iso(*self, r, rt.index.key as int, m)),
    {
        let start = if from_node_id.is_some() {
            from_node_id
        } else {
            self.try_root_id()
        };
        let st = match start {
            Some(st) => st,
            None => {
                return Tree::new();
            },
        };
        let ghost s = st.index.key as int;
        let order = self.traversal_level_order(Some(st));
        let mut new_tree: Tree<T> = Tree::new();
        let table_size = self.slab.entries.len();
        let mut map: Vec<Option<NodeId>> = Vec::new();
        let mut i: usize = 0;
        while i < table_size
            invariant
                map@.len() == i,
                i <= table_size,
            decreases table_size - i,
        {
            map.push(None);
            i = i + 1;
        }
        let root_data = self.data(st).clone();
        let dst_root = new_tree.set_root(root_data);
        let ghost m: Map<int, int> = Map::empty().insert(s, dst_root.index.key as int);
        proof {
            assert(self.occ(s));
        }
        map[st.index.key] = Some(dst_root);
        proof {
            lemma_clone_init(*self, new_tree, s, dst_root.index.key as int, m, order@);
            assert(map_tracks(new_tree, m, map@)) by {
                assert forall|k: int| #[trigger] m.dom().contains(k) implies 0 <= k < map@.len()
                    && map@[k] == Some(new_tree.id_of(m[k])) by {
                    assert(k == s);
                    assert(new_tree.resolves(dst_root));
                }
            }
        }
        let mut x: usize = 0;
        while x < order.len()
            invariant
                self.wf(),
                self.occ(s),
                st == self.id_of(s),
                map@.len() == self.slab.n(),
                0 <= x <= order@.len(),
                clone_order_ok(*self, order@, s),
                clone_loop_inv(*self, new_tree, s, m, order@, x as int),
                map_tracks(new_tree, m, map@),
            decreases order@.len() - x,
        {
            let src_id = order[x];
            let ghost pk = crate::iter::key_of(src_id);
            proof {
                lemma_clone_pk_copied(*self, new_tree, s, m, order@, x as int, x as int);
                assert(self.resolves(order@[x as int]));
                assert(self.occ(pk));
                assert(0 <= src_id.index.key < map@.len());
            }
            let dst_parent = match map[src_id.index.key] {
                Some(did) => did,
                None => vstd::pervasive::unreached(),
            };
            proof {
                assert(dst_parent == new_tree.id_of(m[pk]));
            }
            let ch = self.children(src_id);
            let ghost m_snap = m;
            let ghost dst_snap = new_tree;
            proof {
                lemma_clone_enter(*self, new_tree, s, m, order@, x as int, pk);
            }
            let mut ci: usize = 0;
            while ci < ch.len()
                invariant
                    self.wf(),
                    self.occ(s),
                    self.occ(pk),
                    src_id == self.id_of(pk),
                    0 <= x < order@.len(),
                    pk == crate::iter::key_of(order@[x as int]),
                    clone_order_ok(*self, order@, s),
                    ci <= ch@.len(),
                    ch@ == self.children_of(pk),
                    ch@.len() == self.kids@[pk].len(),
                    map@.len() == self.slab.n(),
                    clone_child_inv(
                        *self,
                        new_tree,
                        s,
                        m,
                        order@,
                        x as int,
                        m_snap,
                        dst_snap,
                        pk,
                        ci as int,
                    ),
                    map_tracks(new_tree, m, map@),
                    dst_parent == new_tree.id_of(m[pk]),
                decreases ch@.len() - ci,
            {
                let child_id = ch[ci];
                let ghost ck = self.kids@[pk][ci as int];
                proof {
                    lemma_clone_child_facts(
                        *self,
                        new_tree,
                        s,
                        m,
                        order@,
                        x as int,
                        m_snap,
                        dst_snap,
                        pk,
                        ci as int,
                    );
                    assert(child_id == self.id_of(ck)) by {
                        assert(self.parent_ok(pk));
                        assert(self.child_at_ok(pk, ci as int));
                    }
                    assert(self.resolves(child_id));
                    assert(new_tree.resolves(dst_parent));
                }
                let data = self.data(child_id).clone();
                let ghost pre = new_tree;
                let ghost m_old = m;
                let ghost table_pre = map@;
                let did = new_tree.append_child(dst_parent, data);
                map[child_id.index.key] = Some(did);
                proof {
                    let dk = did.index.key as int;
                    m = m.insert(ck, dk);
                    assert(child_id.index.key as int == ck);
                    assert(did == new_tree.id_of(dk));
                    assert(map@ == table_pre.update(ck, Some(new_tree.id_of(dk))));
                    assert(post_kids_push(pre, new_tree, m_old[pk], dk)) by {
                        assert(dst_parent.index.key as int == m_old[pk]) by {
                            assert(pre.occ(m_old[pk]));
                        }
                    }
                    lemma_clone_push(
                        *self,
                        pre,
                        new_tree,
                        s,
                        m_old,
                        m,
                        order@,
                        x as int,
                        m_snap,
                        dst_snap,
                        pk,
                        ci as int,
                        ck,
                        dk,
                        table_pre,
                        map@,
                    );
                }
                ci = ci + 1;
            }
            proof {
                lemma_clone_exit(*self, new_tree, s, m, order@, x as int, m_snap, dst_snap, pk);
            }
            x = x + 1;
        }
        proof {
            lemma_clone_finish(*self, new_tree, s, m, order@);
            assert(new_tree.wf());
            assert(new_tree.root_id is Some);
            assert(new_tree.slab.count == self.desc_set(st.index.key as int).len());
            assert(vstd::pervasive::cloned(
                self.data_at(st.index.key as int),
                new_tree.data_at(new_tree.root_id->0.index.key as int),
            ));
            assert(clone_iso(*self, new_tree, st.index.key as int, m));
            match from_node_id {
                Some(fid) => {
                    assert(fid == st);
                    assert(clone_iso(*self, new_tree, fid.index.key as int, m));
                },
                None => {
                    match self.root_id {
                        Some(rt) => {
                            assert(rt == st);
                            assert(clone_iso(*self, new_tree, rt.index.key as int, m));
                        },
                        None => {},
                    }
                },
            }
        }
        new_tree
    }
}

/// The copy's parent chain grew by exactly the new slot.
pub open spec fn post_kids_push<T>(pre: Tree<T>, post: Tree<T>, mpk: int, dk: int) -> bool {
    post.kids@[mpk] == pre.kids@[mpk].push(dk)
}

/// Ancestor paths never contain their own node.
proof fn lemma_anc_no_self<T>(t: Tree<T>, k: int)
    requires
        t.inv(),
        t.occ(k),
    ensures
        !t.anc@[k].contains(k),
{
    assert(t.anc_ok(k));
    if t.anc@[k].contains(k) {
        let x = choose|x: int| 0 <= x < t.anc@[k].len() && t.anc@[k][x] == k;
        assert(t.occ(t.anc@[k][x]) && t.anc@[t.anc@[k][x]] == t.anc@[k].take(x));
        assert(t.anc@[k].len() == x);
    }
}

/// After one unlink, every node other than `d` and `p` keeps its per-node
/// invariants (with truncated ancestor paths inside the detached subtree).
#[verifier::rlimit(100)]
#[verifier::spinoff_prover]
proof fn lemma_unlink_others<T>(t0: Tree<T>, t1: Tree<T>, d: int, p: int, i: int, k: int)
    requires
        t0.inv(),
        unlink_shape(t0, t1, d, p, i),
        t0.occ(k),
        k != d,
        k != p,
    ensures
        t1.parent_ok(k),
        t1.anc_ok(k),
{
    reveal(unlink_shape);
    let ks = t0.kids@[p];
    let la = t0.anc@[d].len() as int;
    lemma_unlink_basics(t0, t1, d, p, i);
    assert(t0.parent_ok(k));
    assert(t0.anc_ok(k));
    assert(t0.parent_ok(p));
    assert(t0.child_at_ok(p, i));
    assert(t0.anc_ok(d));
    // the fields child_at_ok reads from k's children are unchanged
    assert forall|x: int|
        0 <= x < t0.kids@[k].len() implies {
            let j = #[trigger] t0.kids@[k][x];
            &&& t1.occ(j)
            &&& t1.node_at(j).generation == t0.node_at(j).generation
            &&& t1.rel(j).parent == t0.rel(j).parent
            &&& t1.rel(j).prev_sibling == t0.rel(j).prev_sibling
            &&& t1.rel(j).next_sibling == t0.rel(j).next_sibling
        } by {
        let j = t0.kids@[k][x];
        assert(t0.child_at_ok(k, x));
        assert(t0.occ(j));
        assert(j != d) by {
            if j == d {
                assert(t0.rel(d).parent == Some(t0.id_of(k)));
                assert(t0.rel(d).parent == Some(t0.id_of(p)));
                assert(t0.id_of(k).index.key == t0.id_of(p).index.key);
            }
        }
        if i > 0 && j == ks[i - 1] {
            assert(t0.child_at_ok(p, i - 1));
            assert(t0.rel(j).parent == Some(t0.id_of(p)));
            assert(t0.rel(j).parent == Some(t0.id_of(k)));
            assert(t0.id_of(k).index.key == t0.id_of(p).index.key);
            assert(k == p);
        }
        if i < ks.len() - 1 && j == ks[i + 1] {
            assert(t0.child_at_ok(p, i + 1));
            assert(t0.rel(j).parent == Some(t0.id_of(p)));
            assert(t0.rel(j).parent == Some(t0.id_of(k)));
            assert(t0.id_of(k).index.key == t0.id_of(p).index.key);
            assert(k == p);
        }
        if j != p {
            assert(t1.node_at(j) == t0.node_at(j));
        }
    }
    // children of k inherit k's side of the subtree boundary
    assert forall|x: int|
        0 <= x < t0.kids@[k].len() implies (t0.descends(k, d) ==> t0.descends(
            #[trigger] t0.kids@[k][x],
            d,
        )) && (!t0.descends(k, d) ==> !t0.descends(t0.kids@[k][x], d)) by {
        let j = t0.kids@[k][x];
        assert(t0.child_at_ok(k, x));
        assert(t0.occ(j));
        assert(t0.anc@[j] == t0.anc@[k].push(k));
        if t0.descends(k, d) {
            if k == d {
                assert(t0.anc@[j][t0.anc@[k].len() as int] == k);
                assert(t0.anc@[j].contains(d));
            } else {
                let z = choose|z: int| 0 <= z < t0.anc@[k].len() && t0.anc@[k][z] == d;
                assert(t0.anc@[j][z] == d);
                assert(t0.anc@[j].contains(d));
            }
        } else {
            assert(j != d) by {
                if j == d {
                    assert(t0.rel(d).parent == Some(t0.id_of(k)));
                    assert(t0.rel(d).parent == Some(t0.id_of(p)));
                    assert(t0.id_of(k).index.key == t0.id_of(p).index.key);
                }
            }
            if t0.anc@[j].contains(d) {
                let z = choose|z: int| 0 <= z < t0.anc@[j].len() && t0.anc@[j][z] == d;
                if z < t0.anc@[k].len() {
                    assert(t0.anc@[k][z] == d);
                    assert(t0.anc@[k].contains(d));
                } else {
                    assert(t0.anc@[j][z] == k);
                }
            }
        }
    }
    if !t0.descends(k, d) {
        assert(t1.anc@[k] == t0.anc@[k]);
        assert(t1.parent_ok(k)) by {
            assert forall|x: int|
                0 <= x < t0.kids@[k].len() implies {
                    let j = #[trigger] t0.kids@[k][x];
                    &&& t1.occ(j)
                    &&& t1.node_at(j).generation == t0.node_at(j).generation
                    &&& t1.rel(j).parent == t0.rel(j).parent
                    &&& t1.rel(j).prev_sibling == t0.rel(j).prev_sibling
                    &&& t1.rel(j).next_sibling == t0.rel(j).next_sibling
                    &&& t1.anc@[j] == t0.anc@[j]
                } by {
                let j = t0.kids@[k][x];
                assert(t0.child_at_ok(k, x));
                assert(t0.occ(j));
                assert(!t0.descends(j, d));
            }
            lemma_parent_ok_preserved(t0, t1, k);
        }
        assert(t1.anc_ok(k)) by {
            let a = t0.anc@[k];
            assert forall|x: int| 0 <= x < a.len() implies t1.occ(#[trigger] a[x])
                && t1.anc@[a[x]] == a.take(x) by {
                assert(t0.occ(a[x]));
                assert(!t0.descends(a[x], d)) by {
                    if a[x] == d {
                        assert(t0.anc@[d] == a.take(x));
                        assert(t0.anc@[k].contains(d)) by {
                            assert(a[x] == d);
                        }
                    }
                    if t0.anc@[a[x]].contains(d) {
                        let z = choose|z: int|
                            0 <= z < t0.anc@[a[x]].len() && t0.anc@[a[x]][z] == d;
                        assert(t0.anc@[a[x]] == a.take(x));
                        assert(a[z] == d);
                        assert(t0.anc@[k].contains(d));
                    }
                }
            }
            match t0.rel(k).parent {
                Some(pid) => {
                    let l = a.last();
                    assert(t0.occ(l));
                    assert(t0.kids@[l].contains(k));
                    assert(t1.kids@[l].contains(k));
                },
                None => {},
            }
        }
    } else {
        assert(k != d);
        assert(t0.anc@[k][la] == d);
        assert(t0.anc@[k].take(la) == t0.anc@[d]);
        assert(t1.anc@[k] == t0.anc@[k].skip(la));
        assert(t1.parent_ok(k)) by {
            let kk = t0.kids@[k];
            assert forall|x: int| 0 <= x < kk.len() implies #[trigger] t1.child_at_ok(k, x) by {
                assert(t0.child_at_ok(k, x));
                let j = kk[x];
                assert(t0.occ(j));
                assert(t0.descends(j, d));
                assert(t1.anc@[j] == t0.anc@[j].skip(la));
                assert(t1.anc@[j] =~= t1.anc@[k].push(k)) by {
                    assert(t0.anc@[j] == t0.anc@[k].push(k));
                    assert(la <= t0.anc@[k].len());
                }
                if x > 0 {
                    assert(t0.child_at_ok(k, x - 1));
                    assert(t0.occ(kk[x - 1]));
                }
                if x < kk.len() - 1 {
                    assert(t0.child_at_ok(k, x + 1));
                    assert(t0.occ(kk[x + 1]));
                }
                assert(t1.node_at(k).generation == t0.node_at(k).generation);
            }
            if kk.len() > 0 {
                assert(t0.child_at_ok(k, 0));
                assert(t0.occ(kk[0]));
                assert(t0.child_at_ok(k, kk.len() - 1));
                assert(t0.occ(kk[kk.len() - 1]));
            }
            assert(t1.rel(k) == t0.rel(k));
        }
        assert(t1.anc_ok(k)) by {
            let a0 = t0.anc@[k];
            let a1 = t1.anc@[k];
            assert(a1 == a0.skip(la));
            assert(a1.len() == a0.len() - la);
            assert forall|x: int| 0 <= x < a1.len() implies t1.occ(#[trigger] a1[x])
                && t1.anc@[a1[x]] == a1.take(x) by {
                assert(a1[x] == a0[la + x]);
                assert(t0.occ(a0[la + x]) && t0.anc@[a0[la + x]] == a0.take(la + x));
                assert(t0.occ(a1[x]));
                if x == 0 {
                    assert(a1[0] == d);
                    assert(t1.anc@[d] == t0.anc@[d].skip(la));
                    assert(t0.anc@[d].skip(la) =~= Seq::<int>::empty());
                    assert(a1.take(0) =~= Seq::<int>::empty());
                } else {
                    assert(t0.descends(a1[x], d)) by {
                        assert(t0.anc@[a1[x]] == a0.take(la + x));
                        assert(a0.take(la + x)[la] == d);
                        assert(t0.anc@[a1[x]].contains(d));
                    }
                    assert(a1[x] != d) by {
                        if a1[x] == d {
                            assert(t0.anc@[d] == a0.take(la + x));
                        }
                    }
                    assert(t1.anc@[a1[x]] == t0.anc@[a1[x]].skip(la));
                    assert(t0.anc@[a1[x]].skip(la) =~= a1.take(x)) by {
                        assert(t0.anc@[a1[x]] == a0.take(la + x));
                    }
                }
            }
            match t0.rel(k).parent {
                Some(pid) => {
                    let l = a0.last();
                    assert(t0.occ(l));
                    assert(a1.last() == l) by {
                        assert(a0.len() > la);
                    }
                    assert(t1.id_of(l) == t0.id_of(l));
                    assert(t0.kids@[l].contains(k));
                    assert(t1.kids@[l].contains(k));
                    assert(t1.rel(k).parent == t0.rel(k).parent);
                },
                None => {
                    assert(a0.len() == 0);
                    assert(t0.anc@[k].contains(d));
                },
            }
        }
    }
}

/// One unlink keeps the structural invariant and leaves at most the one new
/// parentless slot `d`.
#[verifier::rlimit(100)]
#[verifier::spinoff_prover]
proof fn lemma_unlink_wf<T>(t0: Tree<T>, t1: Tree<T>, d: int, p: int, i: int)
    requires
        t0.wf(),
        unlink_shape(t0, t1, d, p, i),
    ensures
        t1.inv(),
        t1.rooted_except(d),
        forall|j: int| #[trigger] t1.descends(j, d) <==> t0.descends(j, d),
{
    reveal(unlink_shape);
    let ks = t0.kids@[p];
    let la = t0.anc@[d].len() as int;
    lemma_unlink_basics(t0, t1, d, p, i);
    lemma_unlink_chain(t0, t1, d, p, i);
    lemma_unlink_chain_p_anc(t0, t1, d, p, i);
    lemma_unlink_chain_d(t0, t1, d, p, i);
    assert forall|k: int|
        #![trigger t1.parent_ok(k)]
        #![trigger t1.anc_ok(k)]
        t1.occ(k) implies t1.parent_ok(k) && t1.anc_ok(k) by {
        if k != d && k != p {
            assert(t0.occ(k));
            lemma_unlink_others(t0, t1, d, p, i, k);
        }
    }
    assert(t1.maps_ok()) by {
        assert forall|k: int| #[trigger] t1.occ(k) implies t1.kids@.contains_key(k)
            && t1.anc@.contains_key(k) by {
            assert(t0.occ(k));
            assert(t0.anc@.contains_key(k));
            assert(t1.anc@.dom() == t0.anc@.dom());
        }
        assert forall|k: int| #[trigger] t1.kids@.contains_key(k) implies t1.occ(k) by {
            if k != p {
                assert(t0.kids@.contains_key(k));
            }
            assert(t0.occ(k));
        }
        assert forall|k: int| #[trigger] t1.anc@.contains_key(k) implies t1.occ(k) by {
            assert(t0.anc@.contains_key(k));
            assert(t0.occ(k));
        }
    }
    assert(t1.rooted_except(d)) by {
        assert forall|k: int|
            #[trigger] t1.occ(k) && t1.rel(k).parent is None && k != d implies t1.root_id
            == Some(t1.id_of(k)) by {
            assert(t0.occ(k));
            assert(t0.rel(k).parent == t1.rel(k).parent) by {
                if k != p && (i == 0 || k != ks[i - 1]) && (i == ks.len() - 1 || k != ks[i + 1]) {
                    assert(t1.node_at(k) == t0.node_at(k));
                }
            }
        }
    }
    assert forall|k: int| t1.occ(k) implies #[trigger] t1.lone_ok(k) by {
        assert(t0.occ(k));
        assert(t0.parent_ok(p));
        assert(t0.lone_ok(k));
        if k == d {
        } else if k == p {
            assert(t1.rel(p).prev_sibling == t0.rel(p).prev_sibling);
            assert(t1.rel(p).next_sibling == t0.rel(p).next_sibling);
            assert(t1.rel(p).parent == t0.rel(p).parent);
        } else if i > 0 && k == ks[i - 1] {
            assert(t0.child_at_ok(p, i - 1));
            assert(t0.rel(k).parent is Some);
            assert(t1.rel(k).parent == t0.rel(k).parent);
        } else if i < ks.len() - 1 && k == ks[i + 1] {
            assert(t0.child_at_ok(p, i + 1));
            assert(t0.rel(k).parent is Some);
            assert(t1.rel(k).parent == t0.rel(k).parent);
        } else {
            assert(t1.node_at(k) == t0.node_at(k));
        }
    }
    match t1.root_id {
        Some(r) => {
            assert(t0.resolves(r));
            assert(t0.occ(r.index.key as int));
            assert(r.index.key as int != d) by {
                assert(t0.parent_ok(p));
                assert(t0.child_at_ok(p, i));
                assert(t0.rel(d).parent is Some);
                assert(t0.rel(r.index.key as int).parent is None);
            }
            assert(t1.rel(r.index.key as int).parent is None) by {
                let rk = r.index.key as int;
                if rk != p && (i == 0 || rk != ks[i - 1]) && (i == ks.len() - 1 || rk != ks[i
                    + 1]) {
                    assert(t1.node_at(rk) == t0.node_at(rk));
                }
            }
        },
        None => {},
    }
    assert(t1.inv());
    lemma_unlink_desc_same(t0, t1, d, p, i);
}

/// Unlinking does not change which slots make up `d`'s subtree.
pub(crate) proof fn lemma_unlink_desc_same<T>(t0: Tree<T>, t1: Tree<T>, d: int, p: int, i: int)
    requires
        t0.inv(),
        unlink_shape(t0, t1, d, p, i),
    ensures
        forall|j: int| #[trigger] t1.descends(j, d) <==> t0.descends(j, d),
{
    reveal(unlink_shape);
    let la = t0.anc@[d].len() as int;
    lemma_unlink_basics(t0, t1, d, p, i);
    assert forall|j: int| true implies (#[trigger] t1.descends(j, d) <==> t0.descends(
        j,
        d,
    )) by {
        if t0.descends(j, d) {
            assert(t0.occ(j));
            assert(t1.anc@[j] == t0.anc@[j].skip(la));
            if j != d {
                assert(t0.anc@[j][la] == d);
                assert(t1.anc@[j][0] == d);
                assert(t1.anc@[j].contains(d));
            }
        }
        if t1.descends(j, d) && !t0.descends(j, d) {
            assert(t0.occ(j));
            assert(t1.anc@[j] == t0.anc@[j]);
            assert(j == d || t0.anc@[j].contains(d));
        }
    }
}

/// Changing only the root designation keeps the structural invariant, as
/// long as the new root (if any) is a live parentless node.
pub(crate) proof fn lemma_reroot_inv<T>(t0: Tree<T>, t1: Tree<T>)
    requires
        t0.inv(),
        t1.slab == t0.slab,
        t1.kids@ == t0.kids@,
        t1.anc@ == t0.anc@,
        match t1.root_id {
            Some(r) => t1.resolves(r) && t1.rel(r.index.key as int).parent is None,
            None => true,
        },
    ensures
        t1.inv(),
{
    assert forall|k: int|
        #![trigger t1.parent_ok(k)]
        #![trigger t1.anc_ok(k)]
        t1.occ(k) implies t1.parent_ok(k) && t1.anc_ok(k) by {
        assert(t0.occ(k));
        assert(t0.parent_ok(k));
        assert(t0.anc_ok(k));
        let c = t0.kids@[k];
        assert forall|i: int| 0 <= i < c.len() implies #[trigger] t1.child_at_ok(k, i) by {
            assert(t0.child_at_ok(k, i));
        }
    }
    assert(t1.maps_ok()) by {
        assert forall|k: int| #[trigger] t1.occ(k) implies t1.kids@.contains_key(k)
            && t1.anc@.contains_key(k) by {
            assert(t0.occ(k));
        }
        assert forall|k: int| #[trigger] t1.kids@.contains_key(k) implies t1.occ(k) by {
            assert(t0.kids@.contains_key(k));
            assert(t0.occ(k));
        }
        assert forall|k: int| #[trigger] t1.anc@.contains_key(k) implies t1.occ(k) by {
            assert(t0.anc@.contains_key(k));
            assert(t0.occ(k));
        }
    }
    assert forall|k: int| t1.occ(k) implies #[trigger] t1.lone_ok(k) by {
        assert(t0.occ(k));
        assert(t0.lone_ok(k));
    }
    assert(t1.inv());
}

/// Deleting every slot of a parentless component restores full
/// well-formedness for the survivors.
#[verifier::rlimit(100)]
#[verifier::spinoff_prover]
proof fn lemma_component_removed<T>(tu: Tree<T>, t1: Tree<T>, d: int)
    requires
        tu.inv(),
        tu.occ(d),
        tu.rel(d).parent is None,
        t1.slab.wf(),
        t1.slab.n() == tu.slab.n(),
        forall|k: int|
            0 <= k < t1.slab.n() ==> (#[trigger] t1.occ(k) <==> (tu.occ(k) && !tu.descends(
                k,
                d,
            ))),
        forall|k: int| #[trigger] t1.occ(k) ==> t1.node_at(k) == tu.node_at(k),
        t1.kids@ == Map::<int, Seq<int>>::new(
            |j: int| tu.kids@.dom().contains(j) && !tu.descends(j, d),
            |j: int| tu.kids@[j],
        ),
        t1.anc@ == Map::<int, Seq<int>>::new(
            |j: int| tu.anc@.dom().contains(j) && !tu.descends(j, d),
            |j: int| tu.anc@[j],
        ),
        forall|k: int|
            #[trigger] tu.occ(k) && !tu.descends(k, d) && tu.rel(k).parent is None
                ==> t1.root_id == Some(tu.id_of(k)),
        match t1.root_id {
            Some(r) => tu.resolves(r) && !tu.descends(r.index.key as int, d) && tu.rel(
                r.index.key as int,
            ).parent is None,
            None => true,
        },
    ensures
        t1.wf(),
{
    // children and ancestors of survivors are survivors
    assert forall|k: int| #[trigger] t1.occ(k) implies t1.parent_ok(k) && t1.anc_ok(k) by {
        assert(tu.occ(k) && !tu.descends(k, d));
        assert(tu.parent_ok(k));
        assert(tu.anc_ok(k));
        assert(t1.parent_ok(k)) by {
            let ks = tu.kids@[k];
            assert(t1.kids@[k] == ks);
            assert forall|x: int| 0 <= x < ks.len() implies #[trigger] t1.child_at_ok(k, x) by {
                assert(tu.child_at_ok(k, x));
                let j = ks[x];
                assert(tu.occ(j));
                assert(!tu.descends(j, d)) by {
                    assert(tu.anc@[j] == tu.anc@[k].push(k));
                    if j == d {
                        assert(tu.rel(d).parent == Some(tu.id_of(k)));
                    }
                    if tu.anc@[j].contains(d) {
                        let z = choose|z: int| 0 <= z < tu.anc@[j].len() && tu.anc@[j][z] == d;
                        if z < tu.anc@[k].len() {
                            assert(tu.anc@[k][z] == d);
                        } else {
                            assert(tu.anc@[j][z] == k);
                        }
                    }
                }
                assert(t1.occ(j));
                assert(t1.node_at(j) == tu.node_at(j));
                assert(t1.anc@[j] == tu.anc@[j]);
                assert(t1.anc@[k] == tu.anc@[k]);
                if x > 0 {
                    assert(tu.child_at_ok(k, x - 1));
                    let j2 = ks[x - 1];
                    assert(tu.occ(j2));
                    assert(!tu.descends(j2, d)) by {
                        assert(tu.anc@[j2] == tu.anc@[k].push(k));
                        if j2 == d {
                            assert(tu.rel(d).parent == Some(tu.id_of(k)));
                        }
                        if tu.anc@[j2].contains(d) {
                            let z = choose|z: int|
                                0 <= z < tu.anc@[j2].len() && tu.anc@[j2][z] == d;
                            if z < tu.anc@[k].len() {
                                assert(tu.anc@[k][z] == d);
                            } else {
                                assert(tu.anc@[j2][z] == k);
                            }
                        }
                    }
                    assert(t1.occ(j2));
                    assert(t1.node_at(j2) == tu.node_at(j2));
                }
                if x < ks.len() - 1 {
                    assert(tu.child_at_ok(k, x + 1));
                    let j3 = ks[x + 1];
                    assert(tu.occ(j3));
                    assert(!tu.descends(j3, d)) by {
                        assert(tu.anc@[j3] == tu.anc@[k].push(k));
                        if j3 == d {
                            assert(tu.rel(d).parent == Some(tu.id_of(k)));
                        }
                        if tu.anc@[j3].contains(d) {
                            let z = choose|z: int|
                                0 <= z < tu.anc@[j3].len() && tu.anc@[j3][z] == d;
                            if z < tu.anc@[k].len() {
                                assert(tu.anc@[k][z] == d);
                            } else {
                                assert(tu.anc@[j3][z] == k);
                            }
                        }
                    }
                    assert(t1.occ(j3));
                    assert(t1.node_at(j3) == tu.node_at(j3));
                }
            }
            if ks.len() > 0 {
                assert(t1.child_at_ok(k, 0));
                assert(t1.occ(ks[0]));
                assert(t1.child_at_ok(k, ks.len() - 1));
                assert(t1.occ(ks[ks.len() - 1]));
            }
        }
        assert(t1.anc_ok(k)) by {
            let a = tu.anc@[k];
            assert(t1.anc@[k] == a);
            assert forall|x: int| 0 <= x < a.len() implies t1.occ(#[trigger] a[x])
                && t1.anc@[a[x]] == a.take(x) by {
                assert(tu.occ(a[x]) && tu.anc@[a[x]] == a.take(x));
                assert(!tu.descends(a[x], d)) by {
                    if a[x] == d {
                        assert(tu.anc@[k].contains(d)) by {
                            assert(a[x] == d);
                        }
                    }
                    if tu.anc@[a[x]].contains(d) {
                        let z = choose|z: int|
                            0 <= z < tu.anc@[a[x]].len() && tu.anc@[a[x]][z] == d;
                        assert(a.take(x)[z] == d);
                        assert(a[z] == d);
                        assert(tu.anc@[k].contains(d));
                    }
                }
            }
            match tu.rel(k).parent {
                Some(pid) => {
                    let l = a.last();
                    assert(tu.occ(l));
                    assert(tu.kids@[l].contains(k));
                    assert(t1.kids@[l] == tu.kids@[l]);
                },
                None => {},
            }
        }
    }
    assert(t1.maps_ok()) by {
        assert forall|k: int| #[trigger] t1.occ(k) implies t1.kids@.contains_key(k)
            && t1.anc@.contains_key(k) by {
            assert(tu.occ(k));
        }
        assert forall|k: int| #[trigger] t1.kids@.contains_key(k) implies t1.occ(k) by {
            assert(tu.kids@.dom().contains(k));
            assert(tu.occ(k));
        }
        assert forall|k: int| #[trigger] t1.anc@.contains_key(k) implies t1.occ(k) by {
            assert(tu.anc@.dom().contains(k));
            assert(tu.occ(k));
        }
    }
    assert(t1.rooted()) by {
        assert forall|k: int|
            #[trigger] t1.occ(k) && t1.rel(k).parent is None implies t1.root_id == Some(
            t1.id_of(k),
        ) by {
            assert(tu.occ(k) && !tu.descends(k, d));
            assert(k != d);
            assert(tu.rel(k).parent is None);
            assert(t1.root_id == Some(tu.id_of(k)));
            assert(t1.id_of(k) == tu.id_of(k));
        }
    }
    match t1.root_id {
        Some(r) => {
            assert(tu.resolves(r));
            let rk = r.index.key as int;
            assert(tu.occ(rk));
            assert(!tu.descends(rk, d));
            assert(t1.occ(rk));
            assert(t1.node_at(rk) == tu.node_at(rk));
        },
        None => {},
    }
    assert forall|k: int| t1.occ(k) implies #[trigger] t1.lone_ok(k) by {
        assert(tu.occ(k));
        assert(tu.lone_ok(k));
        assert(t1.node_at(k) == tu.node_at(k));
    }
    assert(t1.inv());
}

/// The relational picture of one attach: the parentless component root `d`
/// enters `p`'s child chain at position `i`; the neighbours' sibling links
/// and `p`'s end links take it in, and the ancestor paths of `d`'s subtree
/// gain the prefix through `p`. This is the exact inverse of one unlink.
#[verifier::opaque]
pub open spec fn attach_shape<T>(t0: Tree<T>, t1: Tree<T>, d: int, p: int, i: int) -> bool {
    let ks = t0.kids@[p];
    let pfx = t0.anc@[p].push(p);
    &&& t0.occ(d)
    &&& t0.occ(p)
    &&& t0.rel(d).parent is None
    &&& !t0.descends(p, d)
    &&& 0 <= i <= ks.len()
    &&& t1.slab.wf()
    &&& t1.slab.n() == t0.slab.n()
    &&& t1.root_id == t0.root_id
    &&& match t0.root_id {
        Some(r) => r.index.key as int != d,
        None => true,
    }
    &&& forall|k: int| 0 <= k < t1.slab.n() ==> (#[trigger] t1.occ(k) <==> t0.occ(k))
    &&& t1.kids@ == t0.kids@.insert(p, ks.insert(i, d))
    &&& t1.anc@.dom() == t0.anc@.dom()
    &&& forall|j: int|
        #[trigger] t0.occ(j) ==> t1.anc@[j] == if t0.descends(j, d) {
            pfx + t0.anc@[j]
        } else {
            t0.anc@[j]
        }
    &&& t1.node_at(d).data == t0.node_at(d).data
    &&& t1.node_at(d).generation == t0.node_at(d).generation
    &&& t1.rel(d) == (Relatives {
        parent: Some(t0.id_of(p)),
        prev_sibling: if i == 0 {
            None
        } else {
            Some(t0.id_of(ks[i - 1]))
        },
        next_sibling: if i == ks.len() {
            None
        } else {
            Some(t0.id_of(ks[i]))
        },
        ..t0.rel(d)
    })
    &&& t1.node_at(p).data == t0.node_at(p).data
    &&& t1.node_at(p).generation == t0.node_at(p).generation
    &&& t1.rel(p) == (Relatives {
        first_child: if i == 0 {
            Some(t1.id_of(d))
        } else {
            t0.rel(p).first_child
        },
        last_child: if i == ks.len() {
            Some(t1.id_of(d))
        } else {
            t0.rel(p).last_child
        },
        ..t0.rel(p)
    })
    &&& i > 0 ==> {
        let pv = ks[i - 1];
        &&& t1.node_at(pv).data == t0.node_at(pv).data
        &&& t1.node_at(pv).generation == t0.node_at(pv).generation
        &&& t1.rel(pv) == (Relatives { next_sibling: Some(t1.id_of(d)), ..t0.rel(pv) })
    }
    &&& i < ks.len() ==> {
        let nx = ks[i];
        &&& t1.node_at(nx).data == t0.node_at(nx).data
        &&& t1.node_at(nx).generation == t0.node_at(nx).generation
        &&& t1.rel(nx) == (Relatives { prev_sibling: Some(t1.id_of(d)), ..t0.rel(nx) })
    }
    &&& forall|k: int|
        t0.occ(k) && k != d && k != p && (i == 0 || k != ks[i - 1]) && (i == ks.len() || k
            != ks[i]) ==> #[trigger] t1.node_at(k) == t0.node_at(k)
}

/// Basic consequences of one attach.
#[verifier::rlimit(100)]
#[verifier::spinoff_prover]
proof fn lemma_attach_basics<T>(t0: Tree<T>, t1: Tree<T>, d: int, p: int, i: int)
    requires
        t0.inv(),
        attach_shape(t0, t1, d, p, i),
    ensures
        forall|j: int|
            #[trigger] t0.occ(j) ==> t1.occ(j) && t1.id_of(j) == t0.id_of(j) && t1.node_at(
                j,
            ).generation == t0.node_at(j).generation,
        forall|j: int| #[trigger] t0.occ(j) && j != p ==> t1.kids@[j] == t0.kids@[j],
        t1.kids@[p] == t0.kids@[p].insert(i, d),
        forall|j: int| #[trigger] t0.occ(j) && !t0.descends(j, d) ==> t1.anc@[j] == t0.anc@[j],
        forall|j: int|
            #[trigger] t0.descends(j, d) ==> t1.anc@[j] == t0.anc@[p].push(p) + t0.anc@[j],
        t0.anc@[d].len() == 0,
        forall|j: int|
            #[trigger] t0.descends(j, d) && j != d ==> t0.anc@[j].len() > 0 && t0.anc@[j][0] == d,
        !t0.kids@[p].contains(d),
        t0.kids@[p].insert(i, d).no_duplicates(),
        forall|x: int|
            0 <= x < t0.kids@[p].len() ==> #[trigger] t0.kids@[p][x] != p && t0.kids@[p][x] != d
                && t0.occ(t0.kids@[p][x]) && !t0.descends(t0.kids@[p][x], d),
        forall|j: int, x: int|
            t0.occ(j) && #[trigger] t0.kids@[j].contains(x) ==> t1.kids@[j].contains(x),
{
    reveal(attach_shape);
    let ks = t0.kids@[p];
    assert(t0.parent_ok(p));
    assert(t0.anc_ok(d));
    assert(t0.anc@[d].len() == 0);
    assert forall|j: int| #[trigger] t0.occ(j) implies t1.occ(j) && t1.id_of(j) == t0.id_of(
        j,
    ) && t1.node_at(j).generation == t0.node_at(j).generation by {
        if j != d && j != p && (i == 0 || j != ks[i - 1]) && (i == ks.len() || j != ks[i]) {
            assert(t1.node_at(j) == t0.node_at(j));
        }
    }
    assert forall|j: int| #[trigger] t0.descends(j, d) && j != d implies t0.anc@[j].len() > 0
        && t0.anc@[j][0] == d by {
        assert(t0.anc@[j].contains(d));
        let x = choose|x: int| 0 <= x < t0.anc@[j].len() && t0.anc@[j][x] == d;
        assert(t0.anc_ok(j));
        assert(t0.occ(t0.anc@[j][x]) && t0.anc@[t0.anc@[j][x]] == t0.anc@[j].take(x));
        assert(t0.anc@[j].take(x).len() == x);
    }
    assert forall|x: int|
        0 <= x < ks.len() implies #[trigger] ks[x] != p && ks[x] != d && t0.occ(ks[x])
        && !t0.descends(ks[x], d) by {
        assert(t0.child_at_ok(p, x));
        assert(t0.occ(ks[x]));
        if ks[x] == p {
            assert(t0.anc@[p] == t0.anc@[p].push(p));
        }
        if ks[x] == d {
            assert(t0.rel(d).parent == Some(t0.id_of(p)));
        }
        if t0.descends(ks[x], d) {
            assert(t0.anc@[ks[x]][0] == d);
            assert(t0.anc@[ks[x]] == t0.anc@[p].push(p));
            if t0.anc@[p].len() == 0 {
                assert(d == p);
                assert(t0.descends(p, d));
            } else {
                assert(t0.anc@[p][0] == d);
                assert(t0.anc@[p].contains(d));
                assert(t0.descends(p, d));
            }
        }
    }
    assert(!ks.contains(d));
    assert(ks.insert(i, d).no_duplicates()) by {
        ks.insert_ensures(i, d);
        let ks1 = ks.insert(i, d);
        assert forall|x: int, y: int| 0 <= x < y < ks1.len() implies ks1[x] != ks1[y] by {
            if x < i {
                assert(ks1[x] == ks[x]);
            } else if x == i {
                assert(ks1[x] == d);
            } else {
                assert(ks1[x] == ks[x - 1]);
            }
            if y < i {
                assert(ks1[y] == ks[y]);
            } else if y == i {
                assert(ks1[y] == d);
            } else {
                assert(ks1[y] == ks[y - 1]);
            }
        }
    }
    assert forall|j: int, x: int|
        t0.occ(j) && #[trigger] t0.kids@[j].contains(x) implies t1.kids@[j].contains(x) by {
        if j == p {
            ks.insert_ensures(i, d);
            let y = choose|y: int| 0 <= y < ks.len() && ks[y] == x;
            if y < i {
                assert(ks.insert(i, d)[y] == x);
            } else {
                assert(ks.insert(i, d)[y + 1] == x);
            }
        } else {
            assert(t1.kids@[j] == t0.kids@[j]);
        }
    }
}
/// After one attach, the extended chain of `p` and the newly attached `d`
/// satisfy the per-node invariants.
#[verifier::rlimit(100)]
#[verifier::spinoff_prover]
proof fn lemma_attach_chain<T>(t0: Tree<T>, t1: Tree<T>, d: int, p: int, i: int)
    requires
        t0.inv(),
        attach_shape(t0, t1, d, p, i),
    ensures
        t1.parent_ok(p),
        t1.anc_ok(p),
        t1.parent_ok(d),
        t1.anc_ok(d),
{
    reveal(attach_shape);
    let ks = t0.kids@[p];
    let ks1 = ks.insert(i, d);
    let pfx = t0.anc@[p].push(p);
    lemma_attach_basics(t0, t1, d, p, i);
    ks.insert_ensures(i, d);
    assert(t0.parent_ok(p));
    assert(t0.anc_ok(p));
    assert(t0.parent_ok(d));
    assert(t0.anc_ok(d));
    assert forall|x: int| 0 <= x < ks1.len() implies #[trigger] t1.child_at_ok(p, x) by {
        assert(t1.kids@[p] == ks1);
        assert(t1.anc@[p] == t0.anc@[p]);
        if x < i {
            assert(ks1[x] == ks[x]);
            assert(t0.child_at_ok(p, x));
            assert(t0.occ(ks[x]));
            if x > 0 {
                assert(t0.child_at_ok(p, x - 1));
                assert(t0.occ(ks[x - 1]));
                assert(ks1[x - 1] == ks[x - 1]);
            }
            if x < i - 1 {
                assert(t0.child_at_ok(p, x + 1));
                assert(t0.occ(ks[x + 1]));
                assert(ks1[x + 1] == ks[x + 1]);
                assert(t1.node_at(ks[x]) == t0.node_at(ks[x]));
            } else {
                // the new left neighbour of d keeps all links but next
                assert(x == i - 1);
                assert(ks1[x + 1] == d);
                assert(t1.rel(ks[x]) == (Relatives {
                    next_sibling: Some(t1.id_of(d)),
                    ..t0.rel(ks[x])
                }));
            }
            assert(t1.anc@[ks1[x]] == t0.anc@[ks[x]]);
        } else if x == i {
            assert(ks1[x] == d);
            assert(t1.anc@[d] == pfx + t0.anc@[d]);
            assert(t1.anc@[d] =~= t0.anc@[p].push(p));
            if i > 0 {
                assert(t0.child_at_ok(p, i - 1));
                assert(t0.occ(ks[i - 1]));
                assert(ks1[x - 1] == ks[i - 1]);
            }
            if i < ks.len() {
                assert(t0.child_at_ok(p, i));
                assert(t0.occ(ks[i]));
                assert(ks1[x + 1] == ks[i]);
            }
        } else {
            assert(ks1[x] == ks[x - 1]);
            assert(t0.child_at_ok(p, x - 1));
            assert(t0.occ(ks[x - 1]));
            if x > i + 1 {
                assert(t0.child_at_ok(p, x - 2));
                assert(t0.occ(ks[x - 2]));
                assert(ks1[x - 1] == ks[x - 2]);
                assert(t1.node_at(ks[x - 1]) == t0.node_at(ks[x - 1]));
            } else {
                // the new right neighbour of d keeps all links but prev
                assert(x == i + 1);
                assert(ks1[x - 1] == d);
                assert(t1.rel(ks[x - 1]) == (Relatives {
                    prev_sibling: Some(t1.id_of(d)),
                    ..t0.rel(ks[x - 1])
                }));
            }
            if x < ks1.len() - 1 {
                assert(t0.child_at_ok(p, x));
                assert(t0.occ(ks[x]));
                assert(ks1[x + 1] == ks[x]);
            }
            assert(t1.anc@[ks1[x]] == t0.anc@[ks[x - 1]]);
        }
    }
    assert(t1.parent_ok(p)) by {
        assert(t1.rel(p).first_child == (if ks1.len() == 0 {
            None::<NodeId>
        } else {
            Some(t1.id_of(ks1[0]))
        })) by {
            if i > 0 {
                assert(t0.child_at_ok(p, 0));
                assert(t0.occ(ks[0]));
                assert(ks1[0] == ks[0]);
            } else {
                assert(ks1[0] == d);
            }
        }
        assert(t1.rel(p).last_child == Some(t1.id_of(ks1[ks1.len() - 1]))) by {
            if i < ks.len() {
                assert(t0.child_at_ok(p, ks.len() - 1));
                assert(t0.occ(ks[ks.len() - 1]));
                assert(ks1[ks1.len() - 1] == ks[ks.len() - 1]);
            } else {
                assert(ks1[ks1.len() - 1] == d);
            }
        }
    }
    assert(t1.anc_ok(p)) by {
        let a = t0.anc@[p];
        assert(t1.anc@[p] == a);
        assert forall|x: int| 0 <= x < a.len() implies t1.occ(#[trigger] a[x]) && t1.anc@[a[x]]
            == a.take(x) by {
            assert(t0.occ(a[x]) && t0.anc@[a[x]] == a.take(x));
            assert(!t0.descends(a[x], d)) by {
                if a[x] == d {
                    assert(t0.anc@[d] == a.take(x));
                    assert(a.take(x).len() == x);
                    assert(t0.anc@[a[x]].len() == 0);
                    assert(x == 0);
                    assert(a[0] == d);
                    assert(t0.anc@[p].contains(d));
                    assert(t0.descends(p, d));
                }
                if t0.anc@[a[x]].contains(d) {
                    let z = choose|z: int|
                        0 <= z < t0.anc@[a[x]].len() && t0.anc@[a[x]][z] == d;
                    assert(a.take(x)[z] == d);
                    assert(a[z] == d);
                    assert(t0.anc@[p].contains(d));
                    assert(t0.descends(p, d));
                }
            }
        }
        match t0.rel(p).parent {
            Some(pid) => {
                let l = a.last();
                assert(t0.occ(l));
                assert(t0.kids@[l].contains(p));
                assert(t1.kids@[l].contains(p));
                assert(t1.rel(p).parent == t0.rel(p).parent);
            },
            None => {},
        }
    }
    assert(t1.parent_ok(d)) by {
        assert(d != p);
        assert(t1.kids@[d] == t0.kids@[d]);
        let kd = t0.kids@[d];
        assert forall|x: int| 0 <= x < kd.len() implies #[trigger] t1.child_at_ok(d, x) by {
            assert(t0.child_at_ok(d, x));
            let c = kd[x];
            assert(t0.occ(c));
            assert(t0.descends(c, d)) by {
                assert(t0.anc@[c] == t0.anc@[d].push(d));
                assert(t0.anc@[c][0] == d);
                assert(t0.anc@[c].contains(d));
            }
            assert(c != d) by {
                if c == d {
                    assert(t0.anc@[d] == t0.anc@[d].push(d));
                }
            }
            assert(c != p);
            if i > 0 {
                assert(c != ks[i - 1]);
            }
            if i < ks.len() {
                assert(c != ks[i]);
            }
            assert(t1.node_at(c) == t0.node_at(c));
            assert(t1.anc@[c] == pfx + t0.anc@[c]);
            assert(t1.anc@[c] =~= t1.anc@[d].push(d)) by {
                assert(t0.anc@[c] == t0.anc@[d].push(d));
                assert(t1.anc@[d] == pfx + t0.anc@[d]);
            }
            if x > 0 {
                assert(t0.child_at_ok(d, x - 1));
                assert(t0.occ(kd[x - 1]));
            }
            if x < kd.len() - 1 {
                assert(t0.child_at_ok(d, x + 1));
                assert(t0.occ(kd[x + 1]));
            }
            assert(t1.id_of(d) == t0.id_of(d));
        }
        if kd.len() > 0 {
            assert(t0.child_at_ok(d, 0));
            assert(t0.occ(kd[0]));
            assert(t0.child_at_ok(d, kd.len() - 1));
            assert(t0.occ(kd[kd.len() - 1]));
        }
        assert(t1.rel(d).first_child == t0.rel(d).first_child);
        assert(t1.rel(d).last_child == t0.rel(d).last_child);
    }
    assert(t1.anc_ok(d)) by {
        assert(t1.anc@[d] =~= pfx);
        assert forall|x: int| 0 <= x < pfx.len() implies t1.occ(#[trigger] pfx[x])
            && t1.anc@[pfx[x]] == pfx.take(x) by {
            if x < pfx.len() - 1 {
                assert(pfx[x] == t0.anc@[p][x]);
                assert(t0.occ(t0.anc@[p][x]) && t0.anc@[t0.anc@[p][x]] == t0.anc@[p].take(x));
                assert(!t0.descends(pfx[x], d)) by {
                    if pfx[x] == d {
                        assert(t0.anc@[d] == t0.anc@[p].take(x));
                        assert(x == 0);
                        assert(t0.anc@[p][0] == d);
                        assert(t0.anc@[p].contains(d));
                    }
                    if t0.anc@[pfx[x]].contains(d) {
                        let z = choose|z: int|
                            0 <= z < t0.anc@[pfx[x]].len() && t0.anc@[pfx[x]][z] == d;
                        assert(t0.anc@[p].take(x)[z] == d);
                        assert(t0.anc@[p].contains(d)) by {
                            assert(t0.anc@[p][z] == d);
                        }
                    }
                }
                assert(t1.anc@[pfx[x]] == t0.anc@[pfx[x]]);
                assert(t0.anc@[p].take(x) =~= pfx.take(x));
            } else {
                assert(pfx[x] == p);
                assert(t1.anc@[p] == t0.anc@[p]);
                assert(t0.anc@[p] =~= pfx.take(x));
            }
        }
        assert(t1.rel(d).parent == Some(t0.id_of(p)));
        assert(t0.id_of(p) == t1.id_of(p));
        assert(pfx.last() == p);
        assert(t1.kids@[p].contains(d)) by {
            ks.insert_ensures(i, d);
            assert(t1.kids@[p][i] == d);
        }
    }
}

/// After one attach, every node other than `d` and `p` keeps its per-node
/// invariants (with extended ancestor paths inside the attached subtree).
#[verifier::rlimit(100)]
#[verifier::spinoff_prover]
proof fn lemma_attach_others<T>(t0: Tree<T>, t1: Tree<T>, d: int, p: int, i: int, k: int)
    requires
        t0.inv(),
        attach_shape(t0, t1, d, p, i),
        t0.occ(k),
        k != d,
        k != p,
    ensures
        t1.parent_ok(k),
        t1.anc_ok(k),
{
    reveal(attach_shape);
    let ks = t0.kids@[p];
    let pfx = t0.anc@[p].push(p);
    lemma_attach_basics(t0, t1, d, p, i);
    assert(t0.parent_ok(k));
    assert(t0.anc_ok(k));
    assert(t0.parent_ok(p));
    // the fields child_at_ok reads from k's children are unchanged, and the
    // children inherit k's side of the subtree boundary
    assert forall|x: int|
        0 <= x < t0.kids@[k].len() implies {
            let j = #[trigger] t0.kids@[k][x];
            &&& t1.occ(j)
            &&& t1.node_at(j).generation == t0.node_at(j).generation
            &&& t1.rel(j).parent == t0.rel(j).parent
            &&& t1.rel(j).prev_sibling == t0.rel(j).prev_sibling
            &&& t1.rel(j).next_sibling == t0.rel(j).next_sibling
            &&& (t0.descends(k, d) ==> t0.descends(j, d))
            &&& (!t0.descends(k, d) ==> !t0.descends(j, d))
        } by {
        let j = t0.kids@[k][x];
        assert(t0.child_at_ok(k, x));
        assert(t0.occ(j));
        assert(t0.anc@[j] == t0.anc@[k].push(k));
        assert(j != d) by {
            if j == d {
                assert(t0.rel(d).parent == Some(t0.id_of(k)));
            }
        }
        if i > 0 && j == ks[i - 1] {
            assert(t0.child_at_ok(p, i - 1));
            assert(t0.rel(j).parent == Some(t0.id_of(p)));
            assert(t0.rel(j).parent == Some(t0.id_of(k)));
            assert(t0.id_of(p).index.key == t0.id_of(k).index.key);
            assert(p == k);
        }
        if i < ks.len() && j == ks[i] {
            assert(t0.child_at_ok(p, i));
            assert(t0.rel(j).parent == Some(t0.id_of(p)));
            assert(t0.rel(j).parent == Some(t0.id_of(k)));
            assert(t0.id_of(p).index.key == t0.id_of(k).index.key);
            assert(p == k);
        }
        if j != p {
            assert(t1.node_at(j) == t0.node_at(j));
        }
        if t0.descends(k, d) {
            assert(t0.descends(j, d)) by {
                if k == d {
                    assert(t0.anc@[j][t0.anc@[k].len() as int] == k);
                    assert(t0.anc@[j].contains(d));
                } else {
                    assert(t0.anc@[k][0] == d);
                    assert(t0.anc@[j][0] == d);
                    assert(t0.anc@[j].contains(d));
                }
            }
        } else {
            assert(!t0.descends(j, d)) by {
                if t0.anc@[j].contains(d) {
                    let z = choose|z: int| 0 <= z < t0.anc@[j].len() && t0.anc@[j][z] == d;
                    if z < t0.anc@[k].len() {
                        assert(t0.anc@[k][z] == d);
                        assert(t0.anc@[k].contains(d));
                    } else {
                        assert(t0.anc@[j][z] == k);
                    }
                }
            }
        }
    }
    if !t0.descends(k, d) {
        assert(t1.anc@[k] == t0.anc@[k]);
        assert(t1.parent_ok(k)) by {
            assert forall|x: int|
                0 <= x < t0.kids@[k].len() implies {
                    let j = #[trigger] t0.kids@[k][x];
                    &&& t1.occ(j)
                    &&& t1.node_at(j).generation == t0.node_at(j).generation
                    &&& t1.rel(j).parent == t0.rel(j).parent
                    &&& t1.rel(j).prev_sibling == t0.rel(j).prev_sibling
                    &&& t1.rel(j).next_sibling == t0.rel(j).next_sibling
                    &&& t1.anc@[j] == t0.anc@[j]
                } by {
                let j = t0.kids@[k][x];
                assert(t0.child_at_ok(k, x));
                assert(t0.occ(j));
                assert(!t0.descends(j, d));
            }
            lemma_parent_ok_preserved(t0, t1, k);
        }
        assert(t1.anc_ok(k)) by {
            let a = t0.anc@[k];
            assert forall|x: int| 0 <= x < a.len() implies t1.occ(#[trigger] a[x])
                && t1.anc@[a[x]] == a.take(x) by {
                assert(t0.occ(a[x]) && t0.anc@[a[x]] == a.take(x));
                assert(!t0.descends(a[x], d)) by {
                    if a[x] == d {
                        assert(a.take(x).len() == x);
                        assert(x == 0);
                        assert(a[0] == d);
                        assert(t0.anc@[k].contains(d));
                        assert(t0.descends(k, d));
                    }
                    if t0.anc@[a[x]].contains(d) {
                        let z = choose|z: int|
                            0 <= z < t0.anc@[a[x]].len() && t0.anc@[a[x]][z] == d;
                        assert(a.take(x)[z] == d);
                        assert(a[z] == d);
                        assert(t0.anc@[k].contains(d));
                        assert(t0.descends(k, d));
                    }
                }
            }
            match t0.rel(k).parent {
                Some(pid) => {
                    let l = a.last();
                    assert(t0.occ(l));
                    assert(t0.kids@[l].contains(k));
                    assert(t1.kids@[l].contains(k));
                },
                None => {},
            }
        }
    } else {
        // inside the attached subtree: paths gain the prefix through p
        assert(k != d);
        assert(t0.anc@[k][0] == d);
        assert(t1.anc@[k] == pfx + t0.anc@[k]);
        assert(t1.parent_ok(k)) by {
            let kk = t0.kids@[k];
            assert forall|x: int| 0 <= x < kk.len() implies #[trigger] t1.child_at_ok(k, x) by {
                assert(t0.child_at_ok(k, x));
                let j = kk[x];
                assert(t0.occ(j));
                assert(t0.descends(j, d));
                assert(t1.anc@[j] == pfx + t0.anc@[j]);
                assert(t1.anc@[j] =~= t1.anc@[k].push(k)) by {
                    assert(t0.anc@[j] == t0.anc@[k].push(k));
                }
                if x > 0 {
                    assert(t0.child_at_ok(k, x - 1));
                    assert(t0.occ(kk[x - 1]));
                }
                if x < kk.len() - 1 {
                    assert(t0.child_at_ok(k, x + 1));
                    assert(t0.occ(kk[x + 1]));
                }
                assert(t1.node_at(k).generation == t0.node_at(k).generation);
            }
            if kk.len() > 0 {
                assert(t0.child_at_ok(k, 0));
                assert(t0.occ(kk[0]));
                assert(t0.child_at_ok(k, kk.len() - 1));
                assert(t0.occ(kk[kk.len() - 1]));
            }
            assert(t1.rel(k) == t0.rel(k));
        }
        assert(t1.anc_ok(k)) by {
            let a0 = t0.anc@[k];
            let a1 = t1.anc@[k];
            assert(a1 == pfx + a0);
            assert forall|x: int| 0 <= x < a1.len() implies t1.occ(#[trigger] a1[x])
                && t1.anc@[a1[x]] == a1.take(x) by {
                if x < pfx.len() {
                    // the prefix is p's own coherent path
                    if x < pfx.len() - 1 {
                        assert(a1[x] == t0.anc@[p][x]);
                        assert(t0.occ(t0.anc@[p][x]));
                        assert(t0.anc@[t0.anc@[p][x]] == t0.anc@[p].take(x));
                        assert(!t0.descends(a1[x], d)) by {
                            if a1[x] == d {
                                assert(t0.anc@[d] == t0.anc@[p].take(x));
                                assert(x == 0);
                                assert(t0.anc@[p][0] == d);
                                assert(t0.anc@[p].contains(d));
                            }
                            if t0.anc@[a1[x]].contains(d) {
                                let z = choose|z: int|
                                    0 <= z < t0.anc@[a1[x]].len() && t0.anc@[a1[x]][z] == d;
                                assert(t0.anc@[p].take(x)[z] == d);
                                assert(t0.anc@[p].contains(d)) by {
                                    assert(t0.anc@[p][z] == d);
                                }
                            }
                        }
                        assert(t1.anc@[a1[x]] == t0.anc@[a1[x]]);
                        assert(t0.anc@[p].take(x) =~= a1.take(x));
                    } else {
                        assert(a1[x] == p);
                        assert(t1.anc@[p] == t0.anc@[p]);
                        assert(t0.anc@[p] =~= a1.take(x));
                    }
                } else {
                    let e = a0[x - pfx.len()];
                    assert(a1[x] == e);
                    assert(t0.occ(e) && t0.anc@[e] == a0.take(x - pfx.len()));
                    assert(t0.descends(e, d)) by {
                        if x - pfx.len() == 0 {
                            assert(e == d);
                        } else {
                            assert(t0.anc@[e][0] == a0[0]);
                            assert(a0[0] == d);
                            assert(t0.anc@[e].contains(d)) by {
                                assert(t0.anc@[e][0] == d);
                            }
                        }
                    }
                    assert(t1.anc@[e] == pfx + t0.anc@[e]);
                    assert(pfx + a0.take(x - pfx.len()) =~= a1.take(x));
                }
            }
            match t0.rel(k).parent {
                Some(pid) => {
                    let l = a0.last();
                    assert(t0.occ(l));
                    assert(a1.last() == l) by {
                        assert(a0.len() > 0);
                    }
                    assert(t1.id_of(l) == t0.id_of(l));
                    assert(t0.kids@[l].contains(k));
                    assert(t1.kids@[l].contains(k));
                    assert(t1.rel(k).parent == t0.rel(k).parent);
                },
                None => {
                    assert(a0.len() == 0);
                    assert(t0.anc@[k].contains(d)) by {
                        assert(t0.anc@[k][0] == d);
                    }
                },
            }
        }
    }
}

/// After one attach, only `d` stopped being parentless, and parentless
/// nodes still carry no sibling links.
#[verifier::rlimit(100)]
#[verifier::spinoff_prover]
proof fn lemma_attach_links<T>(t0: Tree<T>, t1: Tree<T>, d: int, p: int, i: int)
    requires
        t0.inv(),
        attach_shape(t0, t1, d, p, i),
    ensures
        forall|k: int|
            #[trigger] t1.occ(k) && t1.rel(k).parent is None ==> t0.occ(k) && t0.rel(
                k,
            ).parent is None && k != d,
        forall|k: int| t1.occ(k) ==> #[trigger] t1.lone_ok(k),
        match t1.root_id {
            Some(r) => t1.resolves(r) && t1.rel(r.index.key as int).parent is None,
            None => true,
        },
{
    reveal(attach_shape);
    let ks = t0.kids@[p];
    lemma_attach_basics(t0, t1, d, p, i);
    assert(t0.parent_ok(p));
    assert(t0.parent_ok(p));
    assert forall|k: int|
        #[trigger] t1.occ(k) && t1.rel(k).parent is None implies t0.occ(k) && t0.rel(
        k,
    ).parent is None && k != d by {
        assert(t0.occ(k));
        if k != d && k != p && (i == 0 || k != ks[i - 1]) && (i == ks.len() || k != ks[i]) {
            assert(t1.node_at(k) == t0.node_at(k));
        } else if k == p {
            assert(t1.rel(p).parent == t0.rel(p).parent);
        } else if i > 0 && k == ks[i - 1] {
            assert(t0.child_at_ok(p, i - 1));
            assert(t1.rel(k).parent == t0.rel(k).parent);
        } else if i < ks.len() && k == ks[i] {
            assert(t0.child_at_ok(p, i));
            assert(t1.rel(k).parent == t0.rel(k).parent);
        }
    }
    assert forall|k: int| t1.occ(k) implies #[trigger] t1.lone_ok(k) by {
        assert(t0.occ(k));
        assert(t0.lone_ok(k));
        if k == d {
        } else if k == p {
            assert(t1.rel(p).prev_sibling == t0.rel(p).prev_sibling);
            assert(t1.rel(p).next_sibling == t0.rel(p).next_sibling);
            assert(t1.rel(p).parent == t0.rel(p).parent);
        } else if i > 0 && k == ks[i - 1] {
            assert(t0.child_at_ok(p, i - 1));
            assert(t0.rel(k).parent is Some);
            assert(t1.rel(k).parent == t0.rel(k).parent);
        } else if i < ks.len() && k == ks[i] {
            assert(t0.child_at_ok(p, i));
            assert(t0.rel(k).parent is Some);
            assert(t1.rel(k).parent == t0.rel(k).parent);
        } else {
            assert(t1.node_at(k) == t0.node_at(k));
        }
    }
    match t1.root_id {
        Some(r) => {
            assert(t0.resolves(r));
            assert(t0.occ(r.index.key as int));
            let rk = r.index.key as int;
            assert(t1.resolves(r));
            assert(t1.rel(rk).parent is None) by {
                assert(rk != d || t0.rel(d).parent is None);
                if rk == d {
                    assert(t0.descends(d, d));
                }
                if rk != d && rk != p && (i == 0 || rk != ks[i - 1]) && (i == ks.len() || rk
                    != ks[i]) {
                    assert(t1.node_at(rk) == t0.node_at(rk));
                } else if rk == p {
                    assert(t1.rel(p).parent == t0.rel(p).parent);
                } else if i > 0 && rk == ks[i - 1] {
                    assert(t0.child_at_ok(p, i - 1));
                    assert(t1.rel(rk).parent == t0.rel(rk).parent);
                } else if i < ks.len() && rk == ks[i] {
                    assert(t0.child_at_ok(p, i));
                    assert(t1.rel(rk).parent == t0.rel(rk).parent);
                }
            }
        },
        None => {},
    }
}

/// One attach keeps the structural invariant; afterwards the attached node
/// is the only slot that stopped being parentless.
#[verifier::rlimit(100)]
#[verifier::spinoff_prover]
proof fn lemma_attach_wf<T>(t0: Tree<T>, t1: Tree<T>, d: int, p: int, i: int)
    requires
        t0.inv(),
        attach_shape(t0, t1, d, p, i),
    ensures
        t1.inv(),
        forall|k: int|
            #[trigger] t1.occ(k) && t1.rel(k).parent is None ==> t0.occ(k) && t0.rel(
                k,
            ).parent is None && k != d,
        forall|j: int|
            #[trigger] t1.descends(j, d) <==> t0.descends(j, d) || j == d,
{
    reveal(attach_shape);
    let ks = t0.kids@[p];
    let pfx = t0.anc@[p].push(p);
    lemma_attach_basics(t0, t1, d, p, i);
    lemma_attach_chain(t0, t1, d, p, i);
    assert forall|k: int|
        #![trigger t1.parent_ok(k)]
        #![trigger t1.anc_ok(k)]
        t1.occ(k) implies t1.parent_ok(k) && t1.anc_ok(k) by {
        if k != d && k != p {
            assert(t0.occ(k));
            lemma_attach_others(t0, t1, d, p, i, k);
        }
    }
    assert(t1.maps_ok()) by {
        assert forall|k: int| #[trigger] t1.occ(k) implies t1.kids@.contains_key(k)
            && t1.anc@.contains_key(k) by {
            assert(t0.occ(k));
            assert(t0.anc@.contains_key(k));
            assert(t1.anc@.dom() == t0.anc@.dom());
        }
        assert forall|k: int| #[trigger] t1.kids@.contains_key(k) implies t1.occ(k) by {
            if k != p {
                assert(t0.kids@.contains_key(k));
            }
            assert(t0.occ(k));
        }
        assert forall|k: int| #[trigger] t1.anc@.contains_key(k) implies t1.occ(k) by {
            assert(t0.anc@.contains_key(k));
            assert(t0.occ(k));
        }
    }
    lemma_attach_links(t0, t1, d, p, i);
    assert(t1.inv());
    lemma_attach_desc(t0, t1, d, p, i);
}

/// Attaching extends `d`'s subtree by nothing: afterwards it is the old
/// subtree plus `d` itself.
proof fn lemma_attach_desc<T>(t0: Tree<T>, t1: Tree<T>, d: int, p: int, i: int)
    requires
        t0.inv(),
        attach_shape(t0, t1, d, p, i),
    ensures
        forall|j: int| #[trigger] t1.descends(j, d) <==> t0.descends(j, d) || j == d,
{
    reveal(attach_shape);
    let pfx = t0.anc@[p].push(p);
    lemma_attach_basics(t0, t1, d, p, i);
    assert forall|j: int| true implies (#[trigger] t1.descends(j, d) <==> t0.descends(j, d) || j
        == d) by {
        if t0.descends(j, d) {
            assert(t0.occ(j));
            if j != d {
                assert(t1.anc@[j] == pfx + t0.anc@[j]);
                assert(t0.anc@[j].contains(d));
                let z = choose|z: int| 0 <= z < t0.anc@[j].len() && t0.anc@[j][z] == d;
                assert(t1.anc@[j][pfx.len() + z] == d);
                assert(t1.anc@[j].contains(d));
            }
        }
        if t1.descends(j, d) && j != d && !t0.descends(j, d) {
            assert(t0.occ(j));
            assert(t1.anc@[j] == t0.anc@[j]);
            assert(t0.anc@[j].contains(d));
        }
    }
}

/// Re-attaching a node exactly where an unlink took it out restores the
/// original container: occupancy, every node record, both ghost maps.
#[verifier::rlimit(100)]
#[verifier::spinoff_prover]
pub(crate) proof fn lemma_unlink_attach_roundtrip<T>(
    orig: Tree<T>,
    mid: Tree<T>,
    tr: Tree<T>,
    t1: Tree<T>,
    d: int,
    p: int,
    i: int,
)
    requires
        orig.wf(),
        unlink_shape(orig, mid, d, p, i),
        tr.slab == mid.slab,
        tr.kids@ == mid.kids@,
        tr.anc@ == mid.anc@,
        tr.root_id == orig.root_id,
        attach_shape(tr, t1, d, p, i),
    ensures
        forall|j: int| 0 <= j < orig.slab.n() ==> (#[trigger] t1.occ(j) <==> orig.occ(j)),
        forall|j: int| #[trigger] orig.occ(j) ==> t1.node_at(j) == orig.node_at(j),
        t1.kids@ == orig.kids@,
        t1.anc@ == orig.anc@,
        t1.root_id == orig.root_id,
        t1.slab.n() == orig.slab.n(),
{
    reveal(unlink_shape);
    reveal(attach_shape);
    let ks = orig.kids@[p];
    let la = orig.anc@[d].len() as int;
    lemma_unlink_basics(orig, mid, d, p, i);
    assert(orig.parent_ok(p));
    assert(orig.child_at_ok(p, i));
    assert(orig.anc_ok(d));
    // the shortened chain re-extended at the same place is the old chain
    assert(ks.remove(i).insert(i, d) =~= ks) by {
        ks.remove(i).insert_ensures(i, d);
    }
    assert(t1.kids@ =~= orig.kids@) by {
        assert(t1.kids@ == mid.kids@.insert(p, ks.remove(i).insert(i, d)));
        assert(mid.kids@ == orig.kids@.insert(p, ks.remove(i)));
    }
    lemma_roundtrip_anc(orig, mid, tr, t1, d, p, i);
    lemma_roundtrip_nodes(orig, mid, tr, t1, d, p, i);
}

/// The ancestor map after the re-attach equals the original one.
#[verifier::rlimit(100)]
#[verifier::spinoff_prover]
proof fn lemma_roundtrip_anc<T>(
    orig: Tree<T>,
    mid: Tree<T>,
    tr: Tree<T>,
    t1: Tree<T>,
    d: int,
    p: int,
    i: int,
)
    requires
        orig.wf(),
        unlink_shape(orig, mid, d, p, i),
        tr.slab == mid.slab,
        tr.kids@ == mid.kids@,
        tr.anc@ == mid.anc@,
        tr.root_id == orig.root_id,
        attach_shape(tr, t1, d, p, i),
    ensures
        t1.anc@ == orig.anc@,
{
    reveal(unlink_shape);
    reveal(attach_shape);
    let la = orig.anc@[d].len() as int;
    lemma_unlink_basics(orig, mid, d, p, i);
    assert(orig.parent_ok(p));
    assert(orig.child_at_ok(p, i));
    assert(orig.anc_ok(d));
    assert(mid.anc@[p].push(p) =~= orig.anc@[d]) by {
        assert(!orig.descends(p, d));
        assert(mid.anc@[p] == orig.anc@[p]);
        assert(orig.anc@[d] == orig.anc@[p].push(p));
    }
    assert(t1.anc@ =~= orig.anc@) by {
        assert(t1.anc@.dom() =~= orig.anc@.dom());
        assert forall|j: int| orig.anc@.dom().contains(j) implies #[trigger] t1.anc@[j]
            == orig.anc@[j] by {
            assert(orig.occ(j));
            assert(mid.occ(j));
            if orig.descends(j, d) {
                assert(mid.descends(j, d)) by {
                    lemma_unlink_desc_same(orig, mid, d, p, i);
                }
                assert(tr.descends(j, d));
                assert(mid.anc@[j] == orig.anc@[j].skip(la));
                assert(t1.anc@[j] == tr.anc@[p].push(p) + mid.anc@[j]);
                if j == d {
                    assert(orig.anc@[j].skip(la) =~= Seq::<int>::empty());
                    assert(orig.anc@[d] + orig.anc@[j].skip(la) =~= orig.anc@[j]);
                } else {
                    assert(orig.anc@[j].take(la) == orig.anc@[d]);
                    assert(orig.anc@[d] + orig.anc@[j].skip(la) =~= orig.anc@[j]);
                }
                assert(t1.anc@[j] =~= orig.anc@[j]);
            } else {
                assert(mid.anc@[j] == orig.anc@[j]);
                assert(!mid.descends(j, d)) by {
                    lemma_unlink_desc_same(orig, mid, d, p, i);
                }
                assert(!tr.descends(j, d));
                assert(t1.anc@[j] == mid.anc@[j]);
            }
        }
    }
}

/// The node records after the re-attach equal the original ones.
#[verifier::rlimit(100)]
#[verifier::spinoff_prover]
proof fn lemma_roundtrip_nodes<T>(
    orig: Tree<T>,
    mid: Tree<T>,
    tr: Tree<T>,
    t1: Tree<T>,
    d: int,
    p: int,
    i: int,
)
    requires
        orig.wf(),
        unlink_shape(orig, mid, d, p, i),
        tr.slab == mid.slab,
        tr.kids@ == mid.kids@,
        tr.anc@ == mid.anc@,
        tr.root_id == orig.root_id,
        attach_shape(tr, t1, d, p, i),
    ensures
        forall|j: int| #[trigger] orig.occ(j) ==> t1.node_at(j) == orig.node_at(j),
{
    reveal(unlink_shape);
    reveal(attach_shape);
    let ks = orig.kids@[p];
    lemma_unlink_basics(orig, mid, d, p, i);
    assert(orig.parent_ok(p));
    assert(orig.child_at_ok(p, i));
    assert(orig.anc_ok(d));
    assert(ks.remove(i).insert(i, d) =~= ks) by {
        ks.remove(i).insert_ensures(i, d);
    }
    // every node record comes back exactly
    // every node record comes back exactly
    assert forall|j: int| #[trigger] orig.occ(j) implies t1.node_at(j) == orig.node_at(j) by {
        assert(mid.occ(j));
        assert(tr.occ(j));
        if j == d {
            assert(mid.rel(d) == (Relatives {
                parent: None,
                prev_sibling: None,
                next_sibling: None,
                ..orig.rel(d)
            }));
            assert(t1.rel(d) == (Relatives {
                parent: Some(tr.id_of(p)),
                prev_sibling: if i == 0 {
                    None
                } else {
                    Some(tr.id_of(ks.remove(i)[i - 1]))
                },
                next_sibling: if i == ks.remove(i).len() {
                    None
                } else {
                    Some(tr.id_of(ks.remove(i)[i]))
                },
                ..mid.rel(d)
            }));
            assert(tr.id_of(p) == orig.id_of(p)) by {
                assert(mid.node_at(p).generation == orig.node_at(p).generation);
            }
            assert(orig.rel(d).parent == Some(orig.id_of(p))) by {
                assert(orig.anc@[d].last() == p);
            }
            if i > 0 {
                assert(ks.remove(i)[i - 1] == ks[i - 1]);
                assert(orig.child_at_ok(p, i - 1));
                assert(orig.occ(ks[i - 1]));
                assert(tr.id_of(ks[i - 1]) == orig.id_of(ks[i - 1]));
                assert(orig.rel(d).prev_sibling == Some(orig.id_of(ks[i - 1])));
            } else {
                assert(orig.rel(d).prev_sibling is None);
            }
            if i < ks.remove(i).len() {
                assert(ks.remove(i)[i] == ks[i + 1]);
                assert(orig.child_at_ok(p, i + 1));
                assert(orig.occ(ks[i + 1]));
                assert(tr.id_of(ks[i + 1]) == orig.id_of(ks[i + 1]));
                assert(orig.rel(d).next_sibling == Some(orig.id_of(ks[i + 1])));
            } else {
                assert(orig.rel(d).next_sibling is None);
            }
            assert(t1.node_at(d).data == orig.node_at(d).data);
            assert(t1.node_at(d).generation == orig.node_at(d).generation);
        } else if j == p {
            assert(t1.node_at(d).generation == orig.node_at(d).generation) by {
                assert(mid.node_at(d).generation == orig.node_at(d).generation);
            }
            assert(t1.id_of(d) == orig.id_of(d));
            assert(mid.rel(p) == (Relatives {
                first_child: if i == 0 {
                    orig.rel(d).next_sibling
                } else {
                    orig.rel(p).first_child
                },
                last_child: if i == ks.len() - 1 {
                    orig.rel(d).prev_sibling
                } else {
                    orig.rel(p).last_child
                },
                ..orig.rel(p)
            }));
            assert(t1.rel(p) == (Relatives {
                first_child: if i == 0 {
                    Some(t1.id_of(d))
                } else {
                    mid.rel(p).first_child
                },
                last_child: if i == ks.remove(i).len() {
                    Some(t1.id_of(d))
                } else {
                    mid.rel(p).last_child
                },
                ..mid.rel(p)
            }));
            if i == 0 {
                assert(orig.rel(p).first_child == Some(orig.id_of(ks[0])));
                assert(ks[0] == d);
            }
            if i == ks.len() - 1 {
                assert(orig.rel(p).last_child == Some(orig.id_of(ks[ks.len() - 1])));
                assert(ks[ks.len() - 1] == d);
            }
            assert(t1.rel(p) == orig.rel(p));
            assert(t1.node_at(p).data == orig.node_at(p).data);
            assert(t1.node_at(p).generation == orig.node_at(p).generation);
        } else if i > 0 && j == ks[i - 1] {
            assert(orig.child_at_ok(p, i - 1));
            assert(orig.occ(j));
            assert(mid.rel(j) == (Relatives { next_sibling: orig.rel(d).next_sibling, ..orig.rel(
                j,
            ) }));
            assert(ks.remove(i)[i - 1] == j);
            assert(t1.rel(j) == (Relatives { next_sibling: Some(t1.id_of(d)), ..mid.rel(j) }));
            assert(t1.id_of(d) == orig.id_of(d)) by {
                assert(mid.node_at(d).generation == orig.node_at(d).generation);
            }
            assert(orig.rel(j).next_sibling == Some(orig.id_of(ks[i])));
            assert(ks[i] == d);
            assert(t1.rel(j) == orig.rel(j));
            assert(t1.node_at(j).data == orig.node_at(j).data);
            assert(t1.node_at(j).generation == orig.node_at(j).generation);
        } else if i < ks.len() - 1 && j == ks[i + 1] {
            assert(orig.child_at_ok(p, i + 1));
            assert(orig.occ(j));
            assert(mid.rel(j) == (Relatives { prev_sibling: orig.rel(d).prev_sibling, ..orig.rel(
                j,
            ) }));
            assert(ks.remove(i)[i] == j);
            assert(t1.rel(j) == (Relatives { prev_sibling: Some(t1.id_of(d)), ..mid.rel(j) }));
            assert(t1.id_of(d) == orig.id_of(d)) by {
                assert(mid.node_at(d).generation == orig.node_at(d).generation);
            }
            assert(orig.rel(j).prev_sibling == Some(orig.id_of(ks[i])));
            assert(ks[i] == d);
            assert(t1.rel(j) == orig.rel(j));
            assert(t1.node_at(j).data == orig.node_at(j).data);
            assert(t1.node_at(j).generation == orig.node_at(j).generation);
        } else {
            assert(mid.node_at(j) == orig.node_at(j));
            assert(t1.node_at(j) == mid.node_at(j)) by {
                assert(j != d && j != p);
                if i > 0 {
                    assert(j != ks.remove(i)[i - 1]) by {
                        assert(ks.remove(i)[i - 1] == ks[i - 1]);
                    }
                }
                if i < ks.remove(i).len() {
                    assert(j != ks.remove(i)[i]) by {
                        assert(ks.remove(i)[i] == ks[i + 1]);
                    }
                }
            }
        }
    }
}

/// The relational picture of one append: `t1` extends `t0` by a fresh node
/// `c` at the tail of `p`'s child chain, with the stored links of `p`, of
/// `p`'s former last child and of `c` rewired accordingly.
pub open spec fn append_shape<T>(t0: Tree<T>, t1: Tree<T>, p: int, c: int) -> bool {
    let ks0 = t0.kids@[p];
    &&& t0.occ(p)
    &&& !t0.occ(c)
    &&& t1.occ(c)
    &&& t1.slab.wf()
    &&& t1.slab.n() >= t0.slab.n()
    &&& t1.root_id == t0.root_id
    &&& t1.kids@ == t0.kids@.insert(p, ks0.push(c)).insert(c, Seq::<int>::empty())
    &&& t1.anc@ == t0.anc@.insert(c, t0.anc@[p].push(p))
    &&& t1.rel(c) == (Relatives {
        parent: Some(t0.id_of(p)),
        first_child: None,
        last_child: None,
        prev_sibling: if ks0.len() == 0 {
            None
        } else {
            Some(t0.id_of(ks0.last()))
        },
        next_sibling: None,
    })
    &&& t1.node_at(p).data == t0.node_at(p).data
    &&& t1.node_at(p).generation == t0.node_at(p).generation
    &&& t1.rel(p) == (Relatives {
        first_child: if ks0.len() == 0 {
            Some(t1.id_of(c))
        } else {
            t0.rel(p).first_child
        },
        last_child: Some(t1.id_of(c)),
        ..t0.rel(p)
    })
    &&& ks0.len() > 0 ==> {
        let l = ks0.last();
        &&& t1.node_at(l).data == t0.node_at(l).data
        &&& t1.node_at(l).generation == t0.node_at(l).generation
        &&& t1.rel(l) == (Relatives { next_sibling: Some(t1.id_of(c)), ..t0.rel(l) })
    }
    &&& forall|k: int| 0 <= k < t1.slab.n() && k != c ==> (#[trigger] t1.occ(k) <==> t0.occ(k))
    &&& forall|k: int|
        t0.occ(k) && k != p && (ks0.len() == 0 || k != ks0.last()) ==> #[trigger] t1.node_at(k)
            == t0.node_at(k)
}

/// Basic consequences of one append: handles of existing nodes are stable,
/// no child of `p` is `p` or `c`, and the extended chain has no duplicates.
#[verifier::rlimit(100)]
#[verifier::spinoff_prover]
proof fn lemma_append_basics<T>(t0: Tree<T>, t1: Tree<T>, p: int, c: int)
    requires
        t0.wf(),
        0 <= c <= usize::MAX,
        append_shape(t0, t1, p, c),
    ensures
        forall|j: int|
            #[trigger] t0.occ(j) ==> t1.occ(j) && t1.id_of(j) == t0.id_of(j) && t1.node_at(
                j,
            ).generation == t0.node_at(j).generation,
        forall|i: int|
            0 <= i < t0.kids@[p].len() ==> #[trigger] t0.kids@[p][i] != p && t0.kids@[p][i] != c
                && t0.occ(t0.kids@[p][i]),
        !t0.kids@[p].contains(c),
        t0.kids@[p].push(c).no_duplicates(),
        forall|j: int| #[trigger] t0.occ(j) ==> t1.anc@[j] == t0.anc@[j],
        forall|j: int| #[trigger] t0.occ(j) && j != p ==> t1.kids@[j] == t0.kids@[j],
        t1.kids@[p] == t0.kids@[p].push(c),
        t1.kids@[c] == Seq::<int>::empty(),
        t1.anc@[c] == t0.anc@[p].push(p),
        forall|j: int, x: int|
            t0.occ(j) && #[trigger] t0.kids@[j].contains(x) ==> t1.kids@[j].contains(x),
{
    let ks0 = t0.kids@[p];
    assert(t0.parent_ok(p));
    assert forall|j: int| #[trigger] t0.occ(j) implies t1.occ(j) && t1.id_of(j) == t0.id_of(
        j,
    ) && t1.node_at(j).generation == t0.node_at(j).generation by {
        assert(0 <= j < t0.slab.n() <= t1.slab.n());
        if j != p && (ks0.len() == 0 || j != ks0.last()) {
            assert(t1.node_at(j) == t0.node_at(j));
        }
    }
    assert forall|i: int| 0 <= i < ks0.len() implies #[trigger] ks0[i] != p && ks0[i] != c
        && t0.occ(ks0[i]) by {
        assert(t0.child_at_ok(p, i));
        if ks0[i] == p {
            assert(t0.anc@[p] == t0.anc@[p].push(p));
        }
    }
    assert(!ks0.contains(c));
    assert(ks0.push(c).no_duplicates());
    assert forall|j: int, x: int|
        t0.occ(j) && #[trigger] t0.kids@[j].contains(x) implies t1.kids@[j].contains(x) by {
        if j == p {
            let i = choose|i: int| 0 <= i < ks0.len() && ks0[i] == x;
            assert(ks0.push(c)[i] == x);
        } else {
            assert(t1.kids@[j] == t0.kids@[j]);
        }
    }
}

/// After one append, the chain of `p` and the fresh leaf `c` satisfy the
/// per-node invariants.
#[verifier::rlimit(100)]
#[verifier::spinoff_prover]
proof fn lemma_append_chain<T>(t0: Tree<T>, t1: Tree<T>, p: int, c: int)
    requires
        t0.wf(),
        0 <= c <= usize::MAX,
        append_shape(t0, t1, p, c),
    ensures
        t1.parent_ok(p),
        t1.parent_ok(c),
        t1.anc_ok(c),
        t1.anc_ok(p),
{
    let ks0 = t0.kids@[p];
    let ks1 = ks0.push(c);
    lemma_append_basics(t0, t1, p, c);
    assert(t0.parent_ok(p));
    assert(t0.anc_ok(p));
    assert forall|i: int| 0 <= i < ks1.len() implies #[trigger] t1.child_at_ok(p, i) by {
        assert(t1.kids@[p] == ks1);
        assert(t1.anc@[p] == t0.anc@[p]);
        if i < ks0.len() {
            assert(t0.child_at_ok(p, i));
            assert(t0.occ(ks0[i]));
            if i > 0 {
                assert(t0.child_at_ok(p, i - 1));
                assert(t0.occ(ks0[i - 1]));
            }
            if i < ks0.len() - 1 {
                assert(t0.child_at_ok(p, i + 1));
                assert(t0.occ(ks0[i + 1]));
                assert(t1.node_at(ks0[i]) == t0.node_at(ks0[i]));
            } else {
                assert(t1.rel(ks1[i]) == (Relatives {
                    next_sibling: Some(t1.id_of(c)),
                    ..t0.rel(ks0[i])
                }));
            }
            assert(t1.anc@[ks1[i]] == t0.anc@[ks0[i]]);
        } else {
            assert(ks1[i] == c);
            assert(t1.anc@[c] == t0.anc@[p].push(p));
            if ks0.len() > 0 {
                assert(t0.child_at_ok(p, ks0.len() - 1));
                assert(t0.occ(ks0.last()));
            }
        }
    }
    assert(t1.parent_ok(p)) by {
        assert(t1.rel(p).first_child == (if ks1.len() == 0 {
            None::<NodeId>
        } else {
            Some(t1.id_of(ks1[0]))
        })) by {
            if ks0.len() > 0 {
                assert(t0.child_at_ok(p, 0));
                assert(t0.occ(ks0[0]));
            }
        }
        assert(t1.rel(p).last_child == Some(t1.id_of(ks1[ks1.len() - 1])));
    }
    assert(t1.parent_ok(c)) by {
        assert(t1.kids@[c] =~= Seq::<int>::empty());
    }
    assert(t1.anc_ok(c)) by {
        let a = t1.anc@[c];
        assert(a == t0.anc@[p].push(p));
        assert(t0.anc_ok(p));
        assert forall|i: int| 0 <= i < a.len() implies t1.occ(#[trigger] a[i]) && t1.anc@[a[i]]
            == a.take(i) by {
            if i < a.len() - 1 {
                assert(t0.occ(t0.anc@[p][i]));
                assert(t0.anc@[a[i]] == t0.anc@[p].take(i));
                assert(a[i] != c);
                assert(t1.anc@[a[i]] == t0.anc@[a[i]]);
                assert(t0.anc@[p].take(i) =~= a.take(i));
            } else {
                assert(a[i] == p);
                assert(t1.anc@[p] == t0.anc@[p]);
                assert(t0.anc@[p] =~= a.take(i));
            }
        }
        assert(t1.rel(c).parent == Some(t0.id_of(p)));
        assert(t0.id_of(p) == t1.id_of(p));
        assert(a.last() == p);
        assert(t1.kids@[p].contains(c)) by {
            assert(t1.kids@[p][ks0.len() as int] == c);
        }
    }
    assert(t1.anc_ok(p)) by {
        lemma_untouched_anc_ok_one(t0, t1, p);
    }
}

/// After one append, every node other than `p` and `c` keeps its per-node
/// invariants.
proof fn lemma_append_others<T>(t0: Tree<T>, t1: Tree<T>, p: int, c: int, k: int)
    requires
        t0.wf(),
        0 <= c <= usize::MAX,
        append_shape(t0, t1, p, c),
        t0.occ(k),
        k != p,
        k != c,
    ensures
        t1.parent_ok(k),
        t1.anc_ok(k),
{
    let ks0 = t0.kids@[p];
    lemma_append_basics(t0, t1, p, c);
    assert(t1.anc_ok(k)) by {
        lemma_untouched_anc_ok_one(t0, t1, k);
    }
    assert(t0.parent_ok(k));
    assert(t0.parent_ok(p));
    assert forall|i: int|
        0 <= i < t0.kids@[k].len() implies {
            let j = #[trigger] t0.kids@[k][i];
            &&& t1.occ(j)
            &&& t1.node_at(j).generation == t0.node_at(j).generation
            &&& t1.rel(j).parent == t0.rel(j).parent
            &&& t1.rel(j).prev_sibling == t0.rel(j).prev_sibling
            &&& t1.rel(j).next_sibling == t0.rel(j).next_sibling
            &&& t1.anc@[j] == t0.anc@[j]
        } by {
        let j = t0.kids@[k][i];
        assert(t0.child_at_ok(k, i));
        assert(t0.occ(j));
        if ks0.len() > 0 && j == ks0.last() {
            assert(t0.child_at_ok(p, ks0.len() - 1));
            assert(t0.rel(j).parent == Some(t0.id_of(p)));
            assert(t0.rel(j).parent == Some(t0.id_of(k)));
            assert(t0.id_of(p).index.key == t0.id_of(k).index.key);
            assert(p == k);
            assert(false);
        }
        if j != p {
            assert(t1.node_at(j) == t0.node_at(j));
        }
    }
    assert(t1.parent_ok(k)) by {
        lemma_parent_ok_preserved(t0, t1, k);
    }
}

/// One append keeps the tree well formed.
proof fn lemma_append_wf<T>(t0: Tree<T>, t1: Tree<T>, p: int, c: int)
    requires
        t0.wf(),
        0 <= c <= usize::MAX,
        append_shape(t0, t1, p, c),
    ensures
        t1.wf(),
{
    let ks0 = t0.kids@[p];
    lemma_append_basics(t0, t1, p, c);
    lemma_append_chain(t0, t1, p, c);
    assert forall|k: int|
        #![trigger t1.parent_ok(k)]
        #![trigger t1.anc_ok(k)]
        t1.occ(k) implies t1.parent_ok(k) && t1.anc_ok(k) by {
        if k != c && k != p {
            assert(t0.occ(k));
            lemma_append_others(t0, t1, p, c, k);
        }
    }
    assert(t1.maps_ok()) by {
        assert forall|k: int| #[trigger] t1.occ(k) implies t1.kids@.contains_key(k)
            && t1.anc@.contains_key(k) by {
            if k != c {
                assert(t0.occ(k));
            }
        }
        assert forall|k: int| #[trigger] t1.kids@.contains_key(k) implies t1.occ(k) by {
            if k != c && k != p {
                assert(t0.kids@.contains_key(k));
                assert(t0.occ(k));
            }
        }
        assert forall|k: int| #[trigger] t1.anc@.contains_key(k) implies t1.occ(k) by {
            if k != c {
                assert(t0.anc@.contains_key(k));
                assert(t0.occ(k));
            }
        }
    }
    assert(t1.rooted()) by {
        assert forall|k: int|
            #[trigger] t1.occ(k) && t1.rel(k).parent is None implies t1.root_id == Some(
            t1.id_of(k),
        ) by {
            if k != c && k != p && (ks0.len() == 0 || k != ks0.last()) {
                assert(t0.occ(k));
                assert(t0.node_at(k) == t1.node_at(k));
            } else if k == p {
                assert(t0.rel(p).parent == t1.rel(p).parent);
            } else if ks0.len() > 0 && k == ks0.last() {
                assert(t0.occ(k));
                assert(t0.rel(k).parent == t1.rel(k).parent);
            }
        }
    }
    assert forall|k: int| t1.occ(k) implies #[trigger] t1.lone_ok(k) by {
        assert(t0.parent_ok(p));
        if k == c {
        } else if k == p {
            assert(t0.occ(p));
            assert(t0.lone_ok(p));
            assert(t1.rel(p).prev_sibling == t0.rel(p).prev_sibling);
            assert(t1.rel(p).next_sibling == t0.rel(p).next_sibling);
            assert(t1.rel(p).parent == t0.rel(p).parent);
        } else if ks0.len() > 0 && k == ks0.last() {
            assert(t0.child_at_ok(p, ks0.len() - 1));
            assert(t0.rel(k).parent is Some);
            assert(t1.rel(k).parent == t0.rel(k).parent);
        } else {
            assert(t0.occ(k));
            assert(t0.lone_ok(k));
            assert(t1.node_at(k) == t0.node_at(k));
        }
    }
    match t1.root_id {
        Some(r) => {
            assert(t0.resolves(r));
            assert(t0.occ(r.index.key as int));
        },
        None => {},
    }
    assert(t1.inv());
}

/// The relational picture of one prepend: `t1` extends `t0` by a fresh node
/// `c` at the head of `p`'s child chain, with the stored links of `p`, of
/// `p`'s former first child and of `c` rewired accordingly.
pub open spec fn prepend_shape<T>(t0: Tree<T>, t1: Tree<T>, p: int, c: int) -> bool {
    let ks0 = t0.kids@[p];
    &&& t0.occ(p)
    &&& !t0.occ(c)
    &&& t1.occ(c)
    &&& t1.slab.wf()
    &&& t1.slab.n() >= t0.slab.n()
    &&& t1.root_id == t0.root_id
    &&& t1.kids@ == t0.kids@.insert(p, seq![c] + ks0).insert(c, Seq::<int>::empty())
    &&& t1.anc@ == t0.anc@.insert(c, t0.anc@[p].push(p))
    &&& t1.rel(c) == (Relatives {
        parent: Some(t0.id_of(p)),
        first_child: None,
        last_child: None,
        prev_sibling: None,
        next_sibling: if ks0.len() == 0 {
            None
        } else {
            Some(t0.id_of(ks0[0]))
        },
    })
    &&& t1.node_at(p).data == t0.node_at(p).data
    &&& t1.node_at(p).generation == t0.node_at(p).generation
    &&& t1.rel(p) == (Relatives {
        first_child: Some(t1.id_of(c)),
        last_child: if ks0.len() == 0 {
            Some(t1.id_of(c))
        } else {
            t0.rel(p).last_child
        },
        ..t0.rel(p)
    })
    &&& ks0.len() > 0 ==> {
        let f = ks0[0];
        &&& t1.node_at(f).data == t0.node_at(f).data
        &&& t1.node_at(f).generation == t0.node_at(f).generation
        &&& t1.rel(f) == (Relatives { prev_sibling: Some(t1.id_of(c)), ..t0.rel(f) })
    }
    &&& forall|k: int| 0 <= k < t1.slab.n() && k != c ==> (#[trigger] t1.occ(k) <==> t0.occ(k))
    &&& forall|k: int|
        t0.occ(k) && k != p && (ks0.len() == 0 || k != ks0[0]) ==> #[trigger] t1.node_at(k)
            == t0.node_at(k)
}

/// Basic consequences of one prepend, mirroring `lemma_append_basics`.
#[verifier::rlimit(100)]
#[verifier::spinoff_prover]
proof fn lemma_prepend_basics<T>(t0: Tree<T>, t1: Tree<T>, p: int, c: int)
    requires
        t0.wf(),
        0 <= c <= usize::MAX,
        prepend_shape(t0, t1, p, c),
    ensures
        forall|j: int|
            #[trigger] t0.occ(j) ==> t1.occ(j) && t1.id_of(j) == t0.id_of(j) && t1.node_at(
                j,
            ).generation == t0.node_at(j).generation,
        forall|i: int|
            0 <= i < t0.kids@[p].len() ==> #[trigger] t0.kids@[p][i] != p && t0.kids@[p][i] != c
                && t0.occ(t0.kids@[p][i]),
        !t0.kids@[p].contains(c),
        (seq![c] + t0.kids@[p]).no_duplicates(),
        forall|j: int| #[trigger] t0.occ(j) ==> t1.anc@[j] == t0.anc@[j],
        forall|j: int| #[trigger] t0.occ(j) && j != p ==> t1.kids@[j] == t0.kids@[j],
        t1.kids@[p] == seq![c] + t0.kids@[p],
        t1.kids@[c] == Seq::<int>::empty(),
        t1.anc@[c] == t0.anc@[p].push(p),
        forall|j: int, x: int|
            t0.occ(j) && #[trigger] t0.kids@[j].contains(x) ==> t1.kids@[j].contains(x),
{
    let ks0 = t0.kids@[p];
    let ks1 = seq![c] + ks0;
    assert(t0.parent_ok(p));
    assert forall|j: int| #[trigger] t0.occ(j) implies t1.occ(j) && t1.id_of(j) == t0.id_of(
        j,
    ) && t1.node_at(j).generation == t0.node_at(j).generation by {
        assert(0 <= j < t0.slab.n() <= t1.slab.n());
        if j != p && (ks0.len() == 0 || j != ks0[0]) {
            assert(t1.node_at(j) == t0.node_at(j));
        }
    }
    assert forall|i: int| 0 <= i < ks0.len() implies #[trigger] ks0[i] != p && ks0[i] != c
        && t0.occ(ks0[i]) by {
        assert(t0.child_at_ok(p, i));
        if ks0[i] == p {
            assert(t0.anc@[p] == t0.anc@[p].push(p));
        }
    }
    assert(!ks0.contains(c));
    assert(ks1.no_duplicates()) by {
        assert forall|i: int, j: int| 0 <= i < j < ks1.len() implies ks1[i] != ks1[j] by {
            if i == 0 {
                assert(ks1[j] == ks0[j - 1]);
                assert(ks0[j - 1] != c);
            } else {
                assert(ks1[i] == ks0[i - 1]);
                assert(ks1[j] == ks0[j - 1]);
            }
        }
    }
    assert forall|j: int, x: int|
        t0.occ(j) && #[trigger] t0.kids@[j].contains(x) implies t1.kids@[j].contains(x) by {
        if j == p {
            let i = choose|i: int| 0 <= i < ks0.len() && ks0[i] == x;
            assert(ks1[i + 1] == x);
        } else {
            assert(t1.kids@[j] == t0.kids@[j]);
        }
    }
}

/// After one prepend, the chain of `p` and the fresh leaf `c` satisfy the
/// per-node invariants.
#[verifier::rlimit(100)]
#[verifier::spinoff_prover]
proof fn lemma_prepend_chain<T>(t0: Tree<T>, t1: Tree<T>, p: int, c: int)
    requires
        t0.wf(),
        0 <= c <= usize::MAX,
        prepend_shape(t0, t1, p, c),
    ensures
        t1.parent_ok(p),
        t1.parent_ok(c),
        t1.anc_ok(c),
        t1.anc_ok(p),
{
    let ks0 = t0.kids@[p];
    let ks1 = seq![c] + ks0;
    lemma_prepend_basics(t0, t1, p, c);
    assert(t0.parent_ok(p));
    assert(t0.anc_ok(p));
    assert forall|i: int| 0 <= i < ks1.len() implies #[trigger] t1.child_at_ok(p, i) by {
        assert(t1.kids@[p] == ks1);
        assert(t1.anc@[p] == t0.anc@[p]);
        if i >= 1 {
            assert(ks1[i] == ks0[i - 1]);
            assert(t0.child_at_ok(p, i - 1));
            assert(t0.occ(ks0[i - 1]));
            if i > 1 {
                assert(t0.child_at_ok(p, i - 2));
                assert(t0.occ(ks0[i - 2]));
            }
            if i < ks1.len() - 1 {
                assert(t0.child_at_ok(p, i));
                assert(t0.occ(ks0[i]));
            }
            if i > 1 {
                assert(t1.node_at(ks0[i - 1]) == t0.node_at(ks0[i - 1]));
            } else {
                assert(t1.rel(ks1[1]) == (Relatives {
                    prev_sibling: Some(t1.id_of(c)),
                    ..t0.rel(ks0[0])
                }));
            }
            assert(t1.anc@[ks1[i]] == t0.anc@[ks0[i - 1]]);
        } else {
            assert(ks1[0] == c);
            assert(t1.anc@[c] == t0.anc@[p].push(p));
            if ks0.len() > 0 {
                assert(t0.child_at_ok(p, 0));
                assert(t0.occ(ks0[0]));
            }
        }
    }
    assert(t1.parent_ok(p)) by {
        assert(t1.rel(p).first_child == Some(t1.id_of(ks1[0])));
        assert(t1.rel(p).last_child == (if ks1.len() == 0 {
            None::<NodeId>
        } else {
            Some(t1.id_of(ks1[ks1.len() - 1]))
        })) by {
            if ks0.len() > 0 {
                assert(t0.child_at_ok(p, ks0.len() - 1));
                assert(t0.occ(ks0[ks0.len() - 1]));
                assert(ks1[ks1.len() - 1] == ks0[ks0.len() - 1]);
            }
        }
    }
    assert(t1.parent_ok(c)) by {
        assert(t1.kids@[c] =~= Seq::<int>::empty());
    }
    assert(t1.anc_ok(c)) by {
        let a = t1.anc@[c];
        assert(a == t0.anc@[p].push(p));
        assert(t0.anc_ok(p));
        assert forall|i: int| 0 <= i < a.len() implies t1.occ(#[trigger] a[i]) && t1.anc@[a[i]]
            == a.take(i) by {
            if i < a.len() - 1 {
                assert(t0.occ(t0.anc@[p][i]));
                assert(t0.anc@[a[i]] == t0.anc@[p].take(i));
                assert(a[i] != c);
                assert(t1.anc@[a[i]] == t0.anc@[a[i]]);
                assert(t0.anc@[p].take(i) =~= a.take(i));
            } else {
                assert(a[i] == p);
                assert(t1.anc@[p] == t0.anc@[p]);
                assert(t0.anc@[p] =~= a.take(i));
            }
        }
        assert(t1.rel(c).parent == Some(t0.id_of(p)));
        assert(t0.id_of(p) == t1.id_of(p));
        assert(a.last() == p);
        assert(t1.kids@[p].contains(c)) by {
            assert(t1.kids@[p][0] == c);
        }
    }
    assert(t1.anc_ok(p)) by {
        lemma_untouched_anc_ok_one(t0, t1, p);
    }
}

/// After one prepend, every node other than `p` and `c` keeps its per-node
/// invariants.
proof fn lemma_prepend_others<T>(t0: Tree<T>, t1: Tree<T>, p: int, c: int, k: int)
    requires
        t0.wf(),
        0 <= c <= usize::MAX,
        prepend_shape(t0, t1, p, c),
        t0.occ(k),
        k != p,
        k != c,
    ensures
        t1.parent_ok(k),
        t1.anc_ok(k),
{
    let ks0 = t0.kids@[p];
    lemma_prepend_basics(t0, t1, p, c);
    assert(t1.anc_ok(k)) by {
        lemma_untouched_anc_ok_one(t0, t1, k);
    }
    assert(t0.parent_ok(k));
    assert(t0.parent_ok(p));
    assert forall|i: int|
        0 <= i < t0.kids@[k].len() implies {
            let j = #[trigger] t0.kids@[k][i];
            &&& t1.occ(j)
            &&& t1.node_at(j).generation == t0.node_at(j).generation
            &&& t1.rel(j).parent == t0.rel(j).parent
            &&& t1.rel(j).prev_sibling == t0.rel(j).prev_sibling
            &&& t1.rel(j).next_sibling == t0.rel(j).next_sibling
            &&& t1.anc@[j] == t0.anc@[j]
        } by {
        let j = t0.kids@[k][i];
        assert(t0.child_at_ok(k, i));
        assert(t0.occ(j));
        if ks0.len() > 0 && j == ks0[0] {
            assert(t0.child_at_ok(p, 0));
            assert(t0.rel(j).parent == Some(t0.id_of(p)));
            assert(t0.rel(j).parent == Some(t0.id_of(k)));
            assert(t0.id_of(p).index.key == t0.id_of(k).index.key);
            assert(p == k);
            assert(false);
        }
        if j != p {
            assert(t1.node_at(j) == t0.node_at(j));
        }
    }
    assert(t1.parent_ok(k)) by {
        lemma_parent_ok_preserved(t0, t1, k);
    }
}

/// One prepend keeps the tree well formed.
proof fn lemma_prepend_wf<T>(t0: Tree<T>, t1: Tree<T>, p: int, c: int)
    requires
        t0.wf(),
        0 <= c <= usize::MAX,
        prepend_shape(t0, t1, p, c),
    ensures
        t1.wf(),
{
    let ks0 = t0.kids@[p];
    lemma_prepend_basics(t0, t1, p, c);
    lemma_prepend_chain(t0, t1, p, c);
    assert forall|k: int|
        #![trigger t1.parent_ok(k)]
        #![trigger t1.anc_ok(k)]
        t1.occ(k) implies t1.parent_ok(k) && t1.anc_ok(k) by {
        if k != c && k != p {
            assert(t0.occ(k));
            lemma_prepend_others(t0, t1, p, c, k);
        }
    }
    assert(t1.maps_ok()) by {
        assert forall|k: int| #[trigger] t1.occ(k) implies t1.kids@.contains_key(k)
            && t1.anc@.contains_key(k) by {
            if k != c {
                assert(t0.occ(k));
            }
        }
        assert forall|k: int| #[trigger] t1.kids@.contains_key(k) implies t1.occ(k) by {
            if k != c && k != p {
                assert(t0.kids@.contains_key(k));
                assert(t0.occ(k));
            }
        }
        assert forall|k: int| #[trigger] t1.anc@.contains_key(k) implies t1.occ(k) by {
            if k != c {
                assert(t0.anc@.contains_key(k));
                assert(t0.occ(k));
            }
        }
    }
    assert(t1.rooted()) by {
        assert forall|k: int|
            #[trigger] t1.occ(k) && t1.rel(k).parent is None implies t1.root_id == Some(
            t1.id_of(k),
        ) by {
            if k != c && k != p && (ks0.len() == 0 || k != ks0[0]) {
                assert(t0.occ(k));
                assert(t0.node_at(k) == t1.node_at(k));
            } else if k == p {
                assert(t0.rel(p).parent == t1.rel(p).parent);
            } else if ks0.len() > 0 && k == ks0[0] {
                assert(t0.occ(k));
                assert(t0.rel(k).parent == t1.rel(k).parent);
            }
        }
    }
    assert forall|k: int| t1.occ(k) implies #[trigger] t1.lone_ok(k) by {
        assert(t0.parent_ok(p));
        if k == c {
        } else if k == p {
            assert(t0.occ(p));
            assert(t0.lone_ok(p));
            assert(t1.rel(p).prev_sibling == t0.rel(p).prev_sibling);
            assert(t1.rel(p).next_sibling == t0.rel(p).next_sibling);
            assert(t1.rel(p).parent == t0.rel(p).parent);
        } else if ks0.len() > 0 && k == ks0[0] {
            assert(t0.child_at_ok(p, 0));
            assert(t0.rel(k).parent is Some);
            assert(t1.rel(k).parent == t0.rel(k).parent);
        } else {
            assert(t0.occ(k));
            assert(t0.lone_ok(k));
            assert(t1.node_at(k) == t0.node_at(k));
        }
    }
    match t1.root_id {
        Some(r) => {
            assert(t0.resolves(r));
            assert(t0.occ(r.index.key as int));
        },
        None => {},
    }
    assert(t1.inv());
}

/// `parent_ok` survives at `k` when `k`'s child list, its child links, and
/// the fields `child_at_ok` reads from each child are unchanged.
proof fn lemma_parent_ok_preserved<T>(t0: Tree<T>, t1: Tree<T>, k: int)
    requires
        t0.inv(),
        t0.occ(k),
        t1.occ(k),
        t1.kids@[k] == t0.kids@[k],
        t1.anc@[k] == t0.anc@[k],
        t1.node_at(k).generation == t0.node_at(k).generation,
        t1.rel(k).first_child == t0.rel(k).first_child,
        t1.rel(k).last_child == t0.rel(k).last_child,
        forall|i: int|
            0 <= i < t0.kids@[k].len() ==> {
                let j = #[trigger] t0.kids@[k][i];
                &&& t1.occ(j)
                &&& t1.node_at(j).generation == t0.node_at(j).generation
                &&& t1.rel(j).parent == t0.rel(j).parent
                &&& t1.rel(j).prev_sibling == t0.rel(j).prev_sibling
                &&& t1.rel(j).next_sibling == t0.rel(j).next_sibling
                &&& t1.anc@[j] == t0.anc@[j]
            },
    ensures
        t1.parent_ok(k),
{
    assert(t0.parent_ok(k));
    let ks = t0.kids@[k];
    assert forall|i: int| 0 <= i < ks.len() implies #[trigger] t1.child_at_ok(k, i) by {
        assert(t0.child_at_ok(k, i));
        assert(t0.occ(ks[i]));
        if i > 0 {
            assert(t0.child_at_ok(k, i - 1));
            assert(t0.occ(ks[i - 1]));
        }
        if i < ks.len() - 1 {
            assert(t0.child_at_ok(k, i + 1));
            assert(t0.occ(ks[i + 1]));
        }
    }
    if ks.len() > 0 {
        assert(t0.child_at_ok(k, 0));
        assert(t0.occ(ks[0]));
        assert(t0.child_at_ok(k, ks.len() - 1));
        assert(t0.occ(ks[ks.len() - 1]));
    }
}

/// `anc_ok` survives at `k` when `k`'s ancestor path, parent link and every
/// ancestor's ghost entries are unchanged.
proof fn lemma_untouched_anc_ok_one<T>(t0: Tree<T>, t1: Tree<T>, k: int)
    requires
        t0.inv(),
        t0.occ(k),
        t1.occ(k),
        t1.anc@[k] == t0.anc@[k],
        t1.rel(k).parent == t0.rel(k).parent,
        forall|j: int| #[trigger] t0.occ(j) ==> t1.occ(j),
        forall|j: int|
            #[trigger] t0.occ(j) ==> t1.node_at(j).generation == t0.node_at(j).generation,
        forall|j: int| #[trigger] t0.occ(j) ==> t1.anc@[j] == t0.anc@[j],
        forall|j: int, x: int|
            t0.occ(j) && #[trigger] t0.kids@[j].contains(x) ==> t1.kids@[j].contains(x),
    ensures
        t1.anc_ok(k),
{
    assert(t0.anc_ok(k));
    let a = t0.anc@[k];
    assert forall|i: int| 0 <= i < a.len() implies t1.occ(#[trigger] a[i]) && t1.anc@[a[i]]
        == a.take(i) by {
        assert(t0.occ(a[i]));
    }
    match t0.rel(k).parent {
        Some(pid) => {
            let l = a.last();
            assert(t0.occ(l));
            assert(t1.id_of(l) == t0.id_of(l));
            assert(t0.kids@[l].contains(k));
            assert(t1.kids@[l].contains(k));
        },
        None => {},
    }
}

/// Adding a fresh node with no relatives, empty ghost entries and the root
/// pointed at it turns a rootless well-formed tree into a rooted one.
#[verifier::rlimit(100)]
#[verifier::spinoff_prover]
proof fn lemma_grow_isolated<T>(t0: Tree<T>, t1: Tree<T>, c: int)
    requires
        t0.wf(),
        t0.root_id is None,
        0 <= c <= usize::MAX,
        !t0.occ(c),
        t1.occ(c),
        t1.slab.n() >= t0.slab.n(),
        t1.slab.wf(),
        t1.rel(c) == Relatives::spec_empty(),
        t1.kids@ == t0.kids@.insert(c, Seq::<int>::empty()),
        t1.anc@ == t0.anc@.insert(c, Seq::<int>::empty()),
        t1.root_id == Some(t1.id_of(c)),
        forall|k: int| 0 <= k < t1.slab.n() && k != c ==> (#[trigger] t1.occ(k) <==> t0.occ(k)),
        forall|k: int| #[trigger] t0.occ(k) ==> t1.node_at(k) == t0.node_at(k),
    ensures
        t1.wf(),
{
    assert forall|j: int| #[trigger] t0.occ(j) implies t1.occ(j) by {
        assert(0 <= j < t0.slab.n() <= t1.slab.n());
    }
    assert(forall|j: int| #[trigger] t0.occ(j) ==> t1.anc@[j] == t0.anc@[j]);
    assert(forall|j: int| #[trigger] t0.occ(j) ==> t1.kids@[j] == t0.kids@[j]);
    assert(t1.maps_ok());
    assert forall|k: int|
        #![trigger t1.parent_ok(k)]
        #![trigger t1.anc_ok(k)]
        t1.occ(k) implies t1.parent_ok(k) && t1.anc_ok(k) by {
        if k != c {
            assert(t0.occ(k));
            assert(t0.parent_ok(k));
            assert(t0.anc_ok(k));
            lemma_untouched_parent_ok(t0, t1, k);
            lemma_untouched_anc_ok(t0, t1, k);
        } else {
            assert(t1.kids@[c] =~= Seq::<int>::empty());
            assert(t1.anc@[c] =~= Seq::<int>::empty());
        }
    }
    assert forall|k: int|
        #[trigger] t1.occ(k) && t1.rel(k).parent is None implies t1.root_id == Some(
        t1.id_of(k),
    ) by {
        if k != c {
            assert(t0.occ(k));
        }
    }
    assert(t1.inv());
    assert(t1.rooted());
    assert(t1.wf());
}

/// When every occupied slot keeps its node and the ghost entries of two
/// states agree (with equal tables), `parent_ok` carries over for `k`.
proof fn lemma_untouched_parent_ok<T>(t0: Tree<T>, t1: Tree<T>, k: int)
    requires
        t0.parent_ok(k),
        t0.occ(k),
        t1.occ(k),
        t1.kids@[k] == t0.kids@[k],
        forall|j: int| #[trigger] t0.occ(j) ==> t1.occ(j) && t1.node_at(j) == t0.node_at(j),
        forall|j: int| #[trigger] t0.occ(j) ==> t1.anc@[j] == t0.anc@[j],
    ensures
        t1.parent_ok(k),
{
    let c = t0.kids@[k];
    assert forall|i: int| 0 <= i < c.len() implies #[trigger] t1.child_at_ok(k, i) by {
        assert(t0.child_at_ok(k, i));
        assert(t0.occ(c[i]));
        if i > 0 {
            assert(t0.child_at_ok(k, i - 1));
            assert(t0.occ(c[i - 1]));
        }
        if i < c.len() - 1 {
            assert(t0.child_at_ok(k, i + 1));
            assert(t0.occ(c[i + 1]));
        }
    }
    if c.len() > 0 {
        assert(t0.child_at_ok(k, 0));
        assert(t0.occ(c[0]));
        assert(t0.child_at_ok(k, c.len() - 1));
        assert(t0.occ(c[c.len() - 1]));
    }
}

/// Counterpart of `lemma_untouched_parent_ok` for `anc_ok`.
proof fn lemma_untouched_anc_ok<T>(t0: Tree<T>, t1: Tree<T>, k: int)
    requires
        t0.anc_ok(k),
        t0.occ(k),
        t1.occ(k),
        t1.anc@[k] == t0.anc@[k],
        t1.node_at(k) == t0.node_at(k),
        forall|j: int| #[trigger] t0.occ(j) ==> t1.occ(j) && t1.node_at(j) == t0.node_at(j),
        forall|j: int| #[trigger] t0.occ(j) ==> t1.anc@[j] == t0.anc@[j],
        forall|j: int| #[trigger] t0.occ(j) ==> t1.kids@[j] == t0.kids@[j],
    ensures
        t1.anc_ok(k),
{
    let a = t0.anc@[k];
    assert forall|i: int| 0 <= i < a.len() implies t1.occ(#[trigger] a[i]) && t1.anc@[a[i]]
        == a.take(i) by {
        assert(t0.occ(a[i]));
    }
    match t0.rel(k).parent {
        Some(pid) => {
            assert(t0.occ(a.last()));
        },
        None => {},
    }
}

/// Two states with the same occupancy, links, generations, ghost maps and
/// root have the same structural invariant (payloads may differ).
proof fn lemma_same_links_same_inv<T>(t0: Tree<T>, t1: Tree<T>)
    requires
        t0.inv(),
        t1.slab.wf(),
        t0.same_links(t1),
    ensures
        t1.inv(),
        t0.rooted() ==> t1.rooted(),
{
    assert forall|k: int|
        #![trigger t1.parent_ok(k)]
        #![trigger t1.anc_ok(k)]
        t1.occ(k) implies t1.parent_ok(k) && t1.anc_ok(k) by {
        assert(t0.occ(k));
        assert(t0.parent_ok(k));
        assert(t0.anc_ok(k));
        let c = t0.kids@[k];
        assert forall|i: int| 0 <= i < c.len() implies #[trigger] t1.child_at_ok(k, i) by {
            assert(t0.child_at_ok(k, i));
            assert(t0.occ(c[i]));
            assert(t1.id_of(c[i]) == t0.id_of(c[i]));
            if i > 0 {
                assert(t0.child_at_ok(k, i - 1));
                assert(t0.occ(c[i - 1]));
            }
            if i < c.len() - 1 {
                assert(t0.child_at_ok(k, i + 1));
                assert(t0.occ(c[i + 1]));
            }
        }
        assert(t1.rel(k) == t0.rel(k));
        if c.len() > 0 {
            assert(t0.child_at_ok(k, 0));
            assert(t0.child_at_ok(k, c.len() - 1));
            assert(t0.occ(c[0]));
            assert(t0.occ(c[c.len() - 1]));
        }
        let a = t0.anc@[k];
        assert forall|i: int| 0 <= i < a.len() implies t1.occ(#[trigger] a[i]) && t1.anc@[a[i]]
            == a.take(i) by {
            assert(t0.occ(a[i]));
        }
        match t0.rel(k).parent {
            Some(pid) => {
                assert(t0.occ(a.last()));
            },
            None => {},
        }
    }
    match t0.root_id {
        Some(r) => {
            assert(t0.occ(r.index.key as int));
        },
        None => {},
    }
    assert(t1.maps_ok());
    assert forall|k: int| t1.occ(k) implies #[trigger] t1.lone_ok(k) by {
        assert(t0.occ(k));
        assert(t0.lone_ok(k));
        assert(t1.rel(k) == t0.rel(k));
    }
    assert(t1.inv());
    if t0.rooted() {
        assert forall|k: int|
            #[trigger] t1.occ(k) && t1.rel(k).parent is None implies t1.root_id == Some(
            t1.id_of(k),
        ) by {
            assert(t0.occ(k));
        }
    }
}

/// Children arrive in call order: appending `a` and then `b` under `p`
/// leaves `p`'s child chain as the old chain followed by `a`, then `b`; on
/// a childless parent that chain is exactly `[a, b]`. `append_child`
/// guarantees each single step, and `children` returns this chain.
pub proof fn lemma_children_order_appends<T>(
    t0: Tree<T>,
    t1: Tree<T>,
    t2: Tree<T>,
    p: int,
    a: int,
    b: int,
)
    requires
        t1.kids_of(p) == t0.kids_of(p).push(a),
        t2.kids_of(p) == t1.kids_of(p).push(b),
    ensures
        t2.kids_of(p) == t0.kids_of(p).push(a).push(b),
        t0.kids_of(p).len() == 0 ==> t2.kids_of(p) =~= seq![a, b],
{
}

/// Prepending `c` after those appends puts it at the head: on a parent that
/// started childless the chain becomes exactly `[c, a, b]`.
pub proof fn lemma_children_order_prepend<T>(
    t2: Tree<T>,
    t3: Tree<T>,
    p: int,
    a: int,
    b: int,
    c: int,
)
    requires
        t2.kids_of(p) =~= seq![a, b],
        t3.kids_of(p) == seq![c] + t2.kids_of(p),
    ensures
        t3.kids_of(p) =~= seq![c, a, b],
{
}

/// Round trip: right after one append under a childless parent, the chain
/// has exactly one child, so `children_len` answers one and `is_leaf`
/// answers false (their contracts answer `kids_of(p).len()` and
/// `kids_of(p).len() == 0`).
pub proof fn lemma_append_round_trip<T>(t0: Tree<T>, t1: Tree<T>, p: int, c: int)
    requires
        t1.kids_of(p) == t0.kids_of(p).push(c),
    ensures
        t1.kids_of(p).len() == t0.kids_of(p).len() + 1,
        t0.kids_of(p).len() == 0 ==> t1.kids_of(p).len() == 1,
        t1.kids_of(p).len() != 0,
{
}

} // verus!