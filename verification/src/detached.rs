//! A guard over a detached subtree: while it lives, the container's logical
//! root is the detached node, and all reads through the guard see that
//! subtree as a whole tree. Releasing the guard removes the detached
//! subtree from the arena and restores the original root. Exclusive access
//! is enforced by ownership: the guard holds the container by value, so
//! nothing else can observe or mutate it while the guard is alive.

use vstd::prelude::*;

use crate::node::NodeId;
use crate::slab::SlabIndex;
use crate::tree::Tree;

verus! {

pub struct DetachedTree<T> {
    pub tree: Tree<T>,
    pub saved_root: Option<NodeId>,
}

/// A parentless slot other than the detached root must be the saved root.
pub open spec fn guard_root_ok<T>(tree: Tree<T>, saved: Option<NodeId>, k: int) -> bool {
    saved == Some(tree.id_of(k))
}

impl<T> DetachedTree<T> {
    /// The guard's invariant: the container is structurally sound, its
    /// logical root is the detached, parentless node, the only other
    /// parentless node is the saved original root, and enough generation
    /// headroom remains to free the subtree.
    pub open spec fn wf(self) -> bool {
        &&& self.tree.inv()
        &&& self.tree.root_id is Some
        &&& self.tree.resolves(self.tree.root_id->0)
        &&& self.tree.rel(self.tree.root_id->0.index.key as int).parent is None
        &&& forall|k: int|
            #[trigger] self.tree.occ(k) && self.tree.rel(k).parent is None && k
                != self.tree.root_id->0.index.key as int ==> guard_root_ok(
                self.tree,
                self.saved_root,
                k,
            )
        &&& match self.saved_root {
            Some(r) => self.tree.resolves(r) && self.tree.rel(
                r.index.key as int,
            ).parent is None,
            None => true,
        }
        &&& self.tree.slab.generation + self.tree.slab.count <= usize::MAX
    }

    /// The detached view, for traversal and payload reads.
    pub fn as_tree(&self) -> (r: &Tree<T>)
        ensures
            *r == self.tree,
    {
        &self.tree
    }

    /// The root of the detached view: the detached node itself.
    pub fn root_id(&self) -> (r: NodeId)
        requires
            self.wf(),
        ensures
            Some(r) == self.tree.root_id,
    {
        self.tree.root_id()
    }

    /// Removes the detached subtree from the arena, restores the original
    /// root, and returns the container. Handles into the detached subtree
    /// are stale afterwards.
    #[verifier::rlimit(100)]
    #[verifier::spinoff_prover]
    pub fn release(self) -> (r: Tree<T>)
        requires
            self.wf(),
        ensures
            r.wf(),
            forall|j: int|
                #[trigger] self.tree.descends(j, self.tree.root_id->0.index.key as int)
                    ==> !r.occ(j),
            r.root_id == (if self.saved_root == self.tree.root_id {
                None
            } else {
                self.saved_root
            }),
            r.slab.generation == self.tree.slab.generation + self.tree.desc_set(
                self.tree.root_id->0.index.key as int,
            ).len(),
            r.slab.count == self.tree.slab.count - self.tree.desc_set(
                self.tree.root_id->0.index.key as int,
            ).len(),
            r.slab.n() == self.tree.slab.n(),
            forall|j: int|
                self.tree.occ(j) && !self.tree.descends(
                    j,
                    self.tree.root_id->0.index.key as int,
                ) ==> #[trigger] r.occ(j) && r.id_of(j) == self.tree.id_of(j) && r.data_at(j)
                    == self.tree.data_at(j),
            forall|j: int|
                self.tree.occ(j) && !self.tree.descends(
                    j,
                    self.tree.root_id->0.index.key as int,
                ) ==> #[trigger] r.kids@[j] == self.tree.kids@[j] && r.anc@[j]
                    == self.tree.anc@[j],
            forall|h: SlabIndex| #[trigger] self.tree.slab.stale(h) ==> r.slab.stale(h),
    {
        let ghost s0 = self;
        let DetachedTree { mut tree, saved_root } = self;
        let detached_id = tree.root_id();
        let ghost t_g = tree;
        let ghost dk = detached_id.index.key as int;
        // point the root back before freeing, so the survivors are rooted
        let new_root = match saved_root {
            Some(r) => {
                if r == detached_id {
                    None
                } else {
                    Some(r)
                }
            },
            None => None,
        };
        tree.root_id = new_root;
        let ghost t_r = tree;
        proof {
            lemma_reroot_guard(t_g, tree, saved_root, dk);
            match t_r.root_id {
                Some(rr) => {
                    assert(saved_root == Some(rr));
                    assert(t_r.resolves(rr));
                    let rk = rr.index.key as int;
                    assert(t_r.rel(rk).parent is None);
                    assert(!t_r.descends(rk, dk)) by {
                        assert(t_g.occ(rk));
                        assert(t_g.anc_ok(rk));
                        assert(t_g.anc@[rk].len() == 0);
                        if rk == dk {
                            assert(t_g.node_at(dk).generation == rr.index.generation);
                            assert(t_g.node_at(dk).generation == detached_id.index.generation);
                            assert(rr == detached_id);
                        }
                    }
                },
                None => {},
            }
        }
        tree.remove_component(detached_id);
        proof {
            assert(t_r.slab == t_g.slab && t_r.anc@ == t_g.anc@);
            assert(t_r.desc_set(dk) =~= t_g.desc_set(dk)) by {
                assert(forall|j: int| #[trigger] t_r.descends(j, dk) <==> t_g.descends(j, dk));
            }
            assert forall|j: int| #[trigger] t_g.descends(j, dk) implies !tree.occ(j) by {
                assert(t_r.descends(j, dk));
            }
            assert forall|j: int|
                t_g.occ(j) && !t_g.descends(j, dk) implies #[trigger] tree.occ(j) && tree.id_of(
                j,
            ) == t_g.id_of(j) && tree.data_at(j) == t_g.data_at(j) by {
                assert(t_r.occ(j));
                assert(!t_r.descends(j, dk));
            }
            assert forall|j: int|
                t_g.occ(j) && !t_g.descends(j, dk) implies #[trigger] tree.kids@[j]
                == t_g.kids@[j] && tree.anc@[j] == t_g.anc@[j] by {
                assert(t_r.occ(j));
                assert(!t_r.descends(j, dk));
                assert(tree.kids@[j] == t_r.kids@[j] && tree.anc@[j] == t_r.anc@[j]);
            }
            assert forall|j: int|
                s0.tree.occ(j) && !s0.tree.descends(j, s0.tree.root_id->0.index.key as int)
                implies #[trigger] tree.occ(j) && tree.id_of(j) == s0.tree.id_of(j)
                && tree.data_at(j) == s0.tree.data_at(j) by {
                assert(t_g.occ(j));
                assert(!t_g.descends(j, dk));
            }
        }
        tree
    }
}

/// Rerooting the guard's container at the saved root (or at nothing, when
/// the detached node was the root) keeps the invariant.
proof fn lemma_reroot_guard<T>(t0: Tree<T>, t1: Tree<T>, saved: Option<NodeId>, dk: int)
    requires
        t0.inv(),
        t0.root_id is Some,
        t0.root_id->0.index.key as int == dk,
        t0.resolves(t0.root_id->0),
        t0.rel(dk).parent is None,
        forall|k: int|
            #[trigger] t0.occ(k) && t0.rel(k).parent is None && k != dk ==> guard_root_ok(
                t0,
                saved,
                k,
            ),
        match saved {
            Some(r) => t0.resolves(r) && t0.rel(r.index.key as int).parent is None,
            None => true,
        },
        t1.slab == t0.slab,
        t1.kids@ == t0.kids@,
        t1.anc@ == t0.anc@,
        t1.root_id == (if saved == t0.root_id {
            None
        } else {
            saved
        }),
    ensures
        t1.inv(),
        t1.rooted_except(dk),
        forall|k: int|
            #[trigger] t1.occ(k) && !t1.descends(k, dk) && t1.rel(k).parent is None
                ==> t1.root_id == Some(t1.id_of(k)),
{
    assert(t1.inv()) by {
        crate::tree::lemma_reroot_inv(t0, t1);
    }
    assert forall|k: int|
        #[trigger] t1.occ(k) && t1.rel(k).parent is None && k != dk implies t1.root_id == Some(
        t1.id_of(k),
    ) by {
        assert(t0.occ(k));
        assert(guard_root_ok(t0, saved, k));
        assert(saved == Some(t0.id_of(k)));
        if saved == t0.root_id {
            assert(t0.id_of(k).index.key == k as usize);
            assert(t0.root_id->0.index.key as int == dk);
            assert(0 <= k < t0.slab.n() <= usize::MAX);
        }
    }
    assert forall|k: int|
        #[trigger] t1.occ(k) && !t1.descends(k, dk) && t1.rel(k).parent is None implies t1.root_id
        == Some(t1.id_of(k)) by {
        assert(t1.descends(dk, dk)) by {
            assert(t0.occ(dk));
        }
    }
}

} // verus!
