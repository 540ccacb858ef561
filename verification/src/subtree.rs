//! A guard over a borrowed subtree: on construction the subtree root is
//! unlinked from its parent and siblings and becomes the container's
//! logical root, so the arena-level view genuinely looks like a whole tree
//! rooted there. Releasing the guard links the node back into its former
//! place — same parent, same position among the siblings — and restores the
//! original root: nothing is freed and no payload changes. Exclusive access
//! is enforced by ownership: the guard holds the container by value.

use vstd::prelude::*;

use crate::detached::guard_root_ok;
use crate::node::NodeId;
use crate::tree::{lemma_reroot_inv, lemma_unlink_attach_roundtrip, lemma_unlink_basics,
    lemma_unlink_desc_same, unlink_shape, Tree};

verus! {

pub struct SubTree<T> {
    pub tree: Tree<T>,
    pub saved_root: Option<NodeId>,
    pub saved_parent: Option<NodeId>,
    pub saved_prev: Option<NodeId>,
    pub saved_next: Option<NodeId>,
    /// The position the subtree root held among its former siblings.
    pub pos: Ghost<int>,
    /// The container exactly as it was borrowed.
    pub orig: Ghost<Tree<T>>,
    /// The container right after the unlink, before the root was rebound.
    pub mid: Ghost<Tree<T>>,
}

impl<T> SubTree<T> {
    /// The guard's invariant: the view is a structurally sound container
    /// rooted at the suspended node, and the remembered links suffice to
    /// put the node back exactly where it was.
    pub open spec fn wf(self) -> bool {
        let d = self.tree.root_id->0;
        let dk = d.index.key as int;
        &&& self.orig@.wf()
        &&& self.tree.inv()
        &&& self.tree.root_id is Some
        &&& self.tree.resolves(d)
        &&& self.tree.rel(dk).parent is None
        &&& self.orig@.resolves(d)
        &&& self.saved_root == self.orig@.root_id
        &&& self.saved_parent == self.orig@.rel(dk).parent
        &&& self.saved_prev == self.orig@.rel(dk).prev_sibling
        &&& self.saved_next == self.orig@.rel(dk).next_sibling
        &&& self.tree.slab == self.mid@.slab
        &&& self.tree.kids@ == self.mid@.kids@
        &&& self.tree.anc@ == self.mid@.anc@
        &&& self.mid@.root_id == self.orig@.root_id
        &&& match self.saved_parent {
            Some(pid) => unlink_shape(self.orig@, self.mid@, dk, pid.index.key as int, self.pos@),
            None => self.mid@ == self.orig@,
        }
        &&& forall|k: int|
            #[trigger] self.tree.occ(k) && self.tree.rel(k).parent is None && k != dk
                ==> guard_root_ok(self.tree, self.saved_root, k)
    }

    /// Borrows a live node as the temporary root of the whole container.
    pub fn new(tree: Tree<T>, subtree_root_id: NodeId) -> (r: SubTree<T>)
        requires
            tree.wf(),
            tree.resolves(subtree_root_id),
        ensures
            r.wf(),
            r.orig@ == tree,
            r.tree.root_id == Some(subtree_root_id),
            r.tree.rel(subtree_root_id.index.key as int).parent is None,
            r.saved_root == tree.root_id,
            r.saved_parent == tree.rel(subtree_root_id.index.key as int).parent,
            r.tree.slab.generation == tree.slab.generation,
            r.tree.slab.count == tree.slab.count,
            r.tree.slab.n() == tree.slab.n(),
            forall|j: int| 0 <= j < tree.slab.n() ==> (#[trigger] r.tree.occ(j) <==> tree.occ(j)),
            forall|j: int|
                tree.occ(j) ==> #[trigger] r.tree.occ(j) && r.tree.id_of(j) == tree.id_of(j)
                    && r.tree.data_at(j) == tree.data_at(j),
            forall|j: int|
                #[trigger] r.tree.descends(j, subtree_root_id.index.key as int) <==> tree.descends(
                    j,
                    subtree_root_id.index.key as int,
                ),
    {
        let ghost orig = tree;
        let mut t = tree;
        let ghost dk = subtree_root_id.index.key as int;
        let d_rel = *t.relatives_of(subtree_root_id);
        t.unlink(subtree_root_id);
        let ghost mid = t;
        let ghost pos = (match d_rel.parent {
            Some(pid) => {
                choose|i: int|
                    0 <= i < orig.kids@[pid.index.key as int].len()
                        && orig.kids@[pid.index.key as int][i] == dk && mid.kids@[pid.index.key as int]
                        == orig.kids@[pid.index.key as int].remove(i) && unlink_shape(
                        orig,
                        mid,
                        dk,
                        pid.index.key as int,
                        i,
                    )
            },
            None => 0int,
        });
        let saved_root = t.try_root_id();
        t.root_id = Some(subtree_root_id);
        proof {
            lemma_reroot_inv(mid, t);
            assert forall|k: int|
                #[trigger] t.occ(k) && t.rel(k).parent is None && k != dk implies guard_root_ok(
                t,
                saved_root,
                k,
            ) by {
                assert(mid.occ(k));
                assert(mid.root_id == Some(mid.id_of(k)));
            }
            if d_rel.parent is None {
                assert(mid == orig);
            }
            assert(orig.lone_ok(dk));
            assert(t.slab == mid.slab);
            assert forall|j: int|
                orig.occ(j) implies #[trigger] t.occ(j) && t.id_of(j) == orig.id_of(j)
                && t.data_at(j) == orig.data_at(j) by {
                assert(mid.occ(j));
            }
            assert forall|j: int| 0 <= j < orig.slab.n() implies (#[trigger] t.occ(j)
                <==> orig.occ(j)) by {
            }
            assert forall|j: int| true implies (#[trigger] t.descends(j, dk) <==> orig.descends(
                j,
                dk,
            )) by {
                assert(mid.descends(j, dk) <==> orig.descends(j, dk));
                assert(t.anc@ == mid.anc@ && t.slab == mid.slab);
            }
        }
        SubTree {
            tree: t,
            saved_root,
            saved_parent: d_rel.parent,
            saved_prev: d_rel.prev_sibling,
            saved_next: d_rel.next_sibling,
            pos: Ghost(pos),
            orig: Ghost(orig),
            mid: Ghost(mid),
        }
    }

    /// The root of the view: the borrowed node.
    pub fn root_id(&self) -> (r: NodeId)
        requires
            self.wf(),
        ensures
            Some(r) == self.tree.root_id,
    {
        self.tree.root_id()
    }

    /// The view, for traversal and payload reads.
    pub fn as_tree(&self) -> (r: &Tree<T>)
        ensures
            *r == self.tree,
    {
        &self.tree
    }

    /// Ends the view: the node returns to its former parent at its former
    /// position, the original root comes back, and the container is exactly
    /// as it was borrowed.
    #[verifier::rlimit(100)]
    #[verifier::spinoff_prover]
    pub fn release(self) -> (r: Tree<T>)
        requires
            self.wf(),
        ensures
            r.wf(),
            r.root_id == self.orig@.root_id,
            r.kids@ == self.orig@.kids@,
            r.anc@ == self.orig@.anc@,
            r.slab.n() == self.orig@.slab.n(),
            forall|j: int|
                0 <= j < self.orig@.slab.n() ==> (#[trigger] r.occ(j) <==> self.orig@.occ(j)),
            forall|j: int| #[trigger] self.orig@.occ(j) ==> r.node_at(j) == self.orig@.node_at(j),
    {
        let ghost s0 = self;
        let SubTree { mut tree, saved_root, saved_parent, saved_prev, saved_next, pos, orig, mid } =
            self;
        let view_root = tree.root_id();
        let ghost dk = view_root.index.key as int;
        tree.root_id = saved_root;
        let ghost tr = tree;
        proof {
            assert(tree.slab == mid@.slab);
            assert(tree.root_id == mid@.root_id);
            assert(tree == mid@);
        }
        match saved_parent {
            Some(pid) => {
                proof {
                    lemma_release_prereqs(orig@, mid@, s0.tree, tree, dk, pid, pos@);
                    assert(saved_prev == orig@.rel(dk).prev_sibling);
                    assert(saved_next == orig@.rel(dk).next_sibling);
                }
                let ghost pk = pid.index.key as int;
                tree.attach_at(view_root, pid, saved_prev, saved_next, Ghost(pos@));
                proof {
                    lemma_unlink_attach_roundtrip(orig@, mid@, tr, tree, dk, pk, pos@);
                    // the container is rooted again: the attached node has a
                    // parent, every other parentless node was the old root
                    assert forall|k: int|
                        #[trigger] tree.occ(k) && tree.rel(k).parent is None implies tree.root_id
                        == Some(tree.id_of(k)) by {
                        assert(tr.occ(k) && tr.rel(k).parent is None && k != dk);
                        assert(s0.tree.occ(k) && s0.tree.rel(k).parent is None);
                        assert(guard_root_ok(s0.tree, saved_root, k));
                        assert(tree.node_at(k) == orig@.node_at(k)) by {
                            assert(orig@.occ(k));
                        }
                        assert(tree.id_of(k) == s0.tree.id_of(k)) by {
                            assert(mid@.node_at(k).generation == orig@.node_at(k).generation);
                        }
                    }
                    assert(tree.wf());
                }
            },
            None => {
                proof {
                    assert(tree == orig@);
                }
            },
        }
        tree
    }
}

/// After rebinding the root back to the original one, the container meets
/// every precondition of the re-attachment.
#[verifier::rlimit(100)]
#[verifier::spinoff_prover]
proof fn lemma_release_prereqs<T>(
    orig: Tree<T>,
    mid: Tree<T>,
    view: Tree<T>,
    tr: Tree<T>,
    dk: int,
    pid: NodeId,
    pos: int,
)
    requires
        orig.wf(),
        unlink_shape(orig, mid, dk, pid.index.key as int, pos),
        orig.rel(dk).parent == Some(pid),
        tr.slab == mid.slab,
        tr.kids@ == mid.kids@,
        tr.anc@ == mid.anc@,
        tr.root_id == orig.root_id,
        view.inv(),
        view.slab == mid.slab,
        view.kids@ == mid.kids@,
        view.anc@ == mid.anc@,
        match orig.root_id {
            Some(rr) => orig.resolves(rr),
            None => true,
        },
    ensures
        tr.inv(),
        tr.occ(dk),
        tr.resolves(tr.id_of(dk)),
        tr.node_at(dk).generation == orig.node_at(dk).generation,
        tr.rel(dk).parent is None,
        tr.resolves(pid),
        !tr.descends(pid.index.key as int, dk),
        match tr.root_id {
            Some(r) => r.index.key as int != dk,
            None => true,
        },
        0 <= pos <= tr.kids@[pid.index.key as int].len(),
        orig.rel(dk).prev_sibling == (if pos == 0 {
            None::<NodeId>
        } else {
            Some(tr.id_of(tr.kids@[pid.index.key as int][pos - 1]))
        }),
        orig.rel(dk).next_sibling == (if pos == tr.kids@[pid.index.key as int].len() {
            None::<NodeId>
        } else {
            Some(tr.id_of(tr.kids@[pid.index.key as int][pos]))
        }),
{
    reveal(unlink_shape);
    let pk = pid.index.key as int;
    let ks = orig.kids@[pk];
    lemma_unlink_basics(orig, mid, dk, pk, pos);
    assert(orig.parent_ok(pk));
    assert(orig.child_at_ok(pk, pos));
    assert(tr.inv()) by {
        match tr.root_id {
            Some(rr) => {
                assert(orig.resolves(rr));
                let rk = rr.index.key as int;
                assert(orig.occ(rk));
                assert(mid.occ(rk));
                assert(mid.node_at(rk).generation == orig.node_at(rk).generation);
                assert(mid.rel(rk).parent == orig.rel(rk).parent) by {
                    assert(orig.rel(rk).parent is None);
                    if rk != dk && rk != pk && (pos == 0 || rk != ks[pos - 1]) && (pos == ks.len()
                        - 1 || rk != ks[pos + 1]) {
                        assert(mid.node_at(rk) == orig.node_at(rk));
                    } else if rk == dk {
                    } else if rk == pk {
                        assert(mid.rel(pk).parent == orig.rel(pk).parent);
                    } else if pos > 0 && rk == ks[pos - 1] {
                        assert(orig.child_at_ok(pk, pos - 1));
                        assert(orig.rel(rk).parent is Some);
                    } else {
                        assert(orig.child_at_ok(pk, pos + 1));
                        assert(orig.rel(rk).parent is Some);
                    }
                }
            },
            None => {},
        }
        lemma_reroot_inv(view, tr);
    }
    assert(tr.occ(dk));
    assert(tr.node_at(dk).generation == orig.node_at(dk).generation) by {
        assert(mid.node_at(dk).generation == orig.node_at(dk).generation);
    }
    assert(tr.resolves(pid)) by {
        assert(orig.resolves(pid)) by {
            assert(orig.anc_ok(dk));
            assert(orig.occ(orig.anc@[dk].last()));
            assert(pid == orig.id_of(orig.anc@[dk].last()));
            assert(orig.anc@[dk].last() == pk);
        }
        assert(mid.occ(pk));
        assert(mid.node_at(pk).generation == orig.node_at(pk).generation);
    }
    assert(!tr.descends(pk, dk)) by {
        assert(!orig.descends(pk, dk));
        lemma_unlink_desc_same(orig, mid, dk, pk, pos);
    }
    match tr.root_id {
        Some(rr) => {
            assert(rr.index.key as int != dk) by {
                if rr.index.key as int == dk {
                    assert(orig.resolves(rr));
                    assert(orig.node_at(dk).generation == rr.index.generation);
                    assert(orig.rel(dk).parent is None);
                }
            }
        },
        None => {},
    }
    assert(mid.kids@[pk] == ks.remove(pos));
    if pos > 0 {
        assert(orig.child_at_ok(pk, pos - 1));
        assert(orig.occ(ks[pos - 1]));
        assert(ks.remove(pos)[pos - 1] == ks[pos - 1]);
        assert(orig.rel(dk).prev_sibling == Some(orig.id_of(ks[pos - 1])));
        assert(mid.node_at(ks[pos - 1]).generation == orig.node_at(ks[pos - 1]).generation);
    } else {
        assert(orig.rel(dk).prev_sibling is None);
    }
    if pos < ks.remove(pos).len() {
        assert(orig.child_at_ok(pk, pos + 1));
        assert(orig.occ(ks[pos + 1]));
        assert(ks.remove(pos)[pos] == ks[pos + 1]);
        assert(orig.rel(dk).next_sibling == Some(orig.id_of(ks[pos + 1])));
        assert(mid.node_at(ks[pos + 1]).generation == orig.node_at(ks[pos + 1]).generation);
    } else {
        assert(pos == ks.len() - 1);
        assert(orig.rel(dk).next_sibling is None);
    }
}

} // verus!