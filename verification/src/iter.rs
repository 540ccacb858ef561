//! Traversals: child chains, leftmost and rightmost root-to-leaf paths,
//! level order and depth-first post-order, each returning the visited
//! handles as a vector.

use vstd::prelude::*;

use crate::node::NodeId;
use crate::tree::Tree;

verus! {

impl<T> Tree<T> {
    /// The handles of `from_node_id`'s children, first to last.
    #[verifier::rlimit(100)]
    pub fn children(&self, from_node_id: NodeId) -> (r: Vec<NodeId>)
        requires
            self.inv(),
            self.resolves(from_node_id),
        ensures
            r@ == self.children_of(from_node_id.index.key as int),
            r@.len() == self.kids_of(from_node_id.index.key as int).len(),
            forall|i: int|
                0 <= i < r@.len() ==> #[trigger] r@[i] == self.id_of(
                    self.kids_of(from_node_id.index.key as int)[i],
                ) && self.resolves(r@[i]),
    {
        let ghost p = from_node_id.index.key as int;
        let ghost ks = self.kids@[p];
        proof {
            assert(self.parent_ok(p));
        }
        let mut out: Vec<NodeId> = Vec::new();
        let mut cur: Option<NodeId> = self.relatives_of(from_node_id).first_child;
        proof {
            if ks.len() > 0 {
                assert(self.child_at_ok(p, 0));
            }
        }
        while cur.is_some()
            invariant
                self.inv(),
                self.resolves(from_node_id),
                self.parent_ok(p),
                ks == self.kids@[p],
                0 <= out@.len() <= ks.len(),
                forall|i: int| 0 <= i < out@.len() ==> #[trigger] out@[i] == self.id_of(ks[i]),
                cur == if out@.len() == ks.len() {
                    None::<NodeId>
                } else {
                    Some(self.id_of(ks[out@.len() as int]))
                },
            decreases ks.len() - out@.len(),
        {
            let id = match cur {
                Some(id) => id,
                None => vstd::pervasive::unreached(),
            };
            proof {
                assert(self.parent_ok(p));
                assert(self.child_at_ok(p, out@.len() as int));
                assert(self.occ(ks[out@.len() as int]));
                if out@.len() + 1 < ks.len() {
                    assert(self.child_at_ok(p, out@.len() + 1 as int));
                    assert(self.occ(ks[out@.len() + 1 as int]));
                }
            }
            out.push(id);
            cur = self.relatives_of(id).next_sibling;
        }
        proof {
            assert(out@ =~= self.children_of(p));
            assert forall|i: int| 0 <= i < out@.len() implies #[trigger] out@[i] == self.id_of(
                ks[i],
            ) && self.resolves(out@[i]) by {
                assert(self.parent_ok(p));
                assert(self.child_at_ok(p, i));
                assert(self.occ(ks[i]));
            }
        }
        out
    }

    /// The path from `from_node_id` (or the root) to a leaf, always taking
    /// the first child.
    #[verifier::rlimit(100)]
    #[verifier::spinoff_prover]
    pub fn leftmost_path_to_leaf(&self, from_node_id: Option<NodeId>) -> (r: Vec<NodeId>)
        requires
            self.inv(),
            match from_node_id {
                Some(id) => self.resolves(id),
                None => true,
            },
        ensures
            match (if from_node_id is Some {
                from_node_id
            } else {
                self.root_id
            }) {
                Some(start) => {
                    &&& r@.len() >= 1
                    &&& r@[0] == start
                    &&& forall|i: int| 0 <= i < r@.len() ==> self.resolves(#[trigger] r@[i])
                    &&& forall|i: int|
                        0 <= i < r@.len() - 1 ==> self.rel(
                            (#[trigger] r@[i]).index.key as int,
                        ).first_child == Some(r@[i + 1])
                    &&& self.rel(r@[r@.len() - 1].index.key as int).first_child is None
                },
                None => r@.len() == 0,
            },
    {
        let start = if from_node_id.is_some() {
            from_node_id
        } else {
            self.try_root_id()
        };
        let mut out: Vec<NodeId> = Vec::new();
        let mut cur: Option<NodeId> = start;
        loop
            invariant
                self.inv(),
                match cur {
                    Some(id) => {
                        &&& self.resolves(id)
                        &&& (out@.len() == 0 ==> Some(id) == start)
                        &&& (out@.len() > 0 ==> self.rel(
                            out@[out@.len() - 1].index.key as int,
                        ).first_child == Some(id))
                    },
                    None => {
                        if start is None {
                            out@.len() == 0
                        } else {
                            out@.len() > 0 && self.rel(
                                out@[out@.len() - 1].index.key as int,
                            ).first_child is None
                        }
                    },
                },
                out@.len() == 0 ==> cur == start,
                forall|i: int| 0 <= i < out@.len() ==> self.resolves(#[trigger] out@[i]),
                forall|i: int|
                    0 <= i < out@.len() - 1 ==> self.rel(
                        (#[trigger] out@[i]).index.key as int,
                    ).first_child == Some(out@[i + 1]),
                out@.len() > 0 ==> Some(out@[0]) == start,
            ensures
                cur is None,
                start is None ==> out@.len() == 0,
                start is Some ==> out@.len() > 0 && self.rel(
                    out@[out@.len() - 1].index.key as int,
                ).first_child is None && Some(out@[0]) == start,
                forall|i: int| 0 <= i < out@.len() ==> self.resolves(#[trigger] out@[i]),
                forall|i: int|
                    0 <= i < out@.len() - 1 ==> self.rel(
                        (#[trigger] out@[i]).index.key as int,
                    ).first_child == Some(out@[i + 1]),
            decreases (match cur {
                Some(id) => 1 + total_below(*self, id.index.key as int),
                None => 0int,
            }),
        {
            match cur {
                Some(id) => {
                    proof {
                        lemma_first_child_measure(*self, id.index.key as int);
                    }
                    out.push(id);
                    cur = self.relatives_of(id).first_child;
                },
                None => {
                    break ;
                },
            }
        }
        out
    }

    /// The path from `from_node_id` (or the root) to a leaf, always taking
    /// the last child.
    #[verifier::rlimit(100)]
    #[verifier::spinoff_prover]
    pub fn rightmost_path_to_leaf(&self, from_node_id: Option<NodeId>) -> (r: Vec<NodeId>)
        requires
            self.inv(),
            match from_node_id {
                Some(id) => self.resolves(id),
                None => true,
            },
        ensures
            match (if from_node_id is Some {
                from_node_id
            } else {
                self.root_id
            }) {
                Some(start) => {
                    &&& r@.len() >= 1
                    &&& r@[0] == start
                    &&& forall|i: int| 0 <= i < r@.len() ==> self.resolves(#[trigger] r@[i])
                    &&& forall|i: int|
                        0 <= i < r@.len() - 1 ==> self.rel(
                            (#[trigger] r@[i]).index.key as int,
                        ).last_child == Some(r@[i + 1])
                    &&& self.rel(r@[r@.len() - 1].index.key as int).last_child is None
                },
                None => r@.len() == 0,
            },
    {
        let start = if from_node_id.is_some() {
            from_node_id
        } else {
            self.try_root_id()
        };
        let mut out: Vec<NodeId> = Vec::new();
        let mut cur: Option<NodeId> = start;
        loop
            invariant
                self.inv(),
                match cur {
                    Some(id) => {
                        &&& self.resolves(id)
                        &&& (out@.len() == 0 ==> Some(id) == start)
                        &&& (out@.len() > 0 ==> self.rel(
                            out@[out@.len() - 1].index.key as int,
                        ).last_child == Some(id))
                    },
                    None => {
                        if start is None {
                            out@.len() == 0
                        } else {
                            out@.len() > 0 && self.rel(
                                out@[out@.len() - 1].index.key as int,
                            ).last_child is None
                        }
                    },
                },
                out@.len() == 0 ==> cur == start,
                forall|i: int| 0 <= i < out@.len() ==> self.resolves(#[trigger] out@[i]),
                forall|i: int|
                    0 <= i < out@.len() - 1 ==> self.rel(
                        (#[trigger] out@[i]).index.key as int,
                    ).last_child == Some(out@[i + 1]),
                out@.len() > 0 ==> Some(out@[0]) == start,
            ensures
                cur is None,
                start is None ==> out@.len() == 0,
                start is Some ==> out@.len() > 0 && self.rel(
                    out@[out@.len() - 1].index.key as int,
                ).last_child is None && Some(out@[0]) == start,
                forall|i: int| 0 <= i < out@.len() ==> self.resolves(#[trigger] out@[i]),
                forall|i: int|
                    0 <= i < out@.len() - 1 ==> self.rel(
                        (#[trigger] out@[i]).index.key as int,
                    ).last_child == Some(out@[i + 1]),
            decreases (match cur {
                Some(id) => 1 + total_below(*self, id.index.key as int),
                None => 0int,
            }),
        {
            match cur {
                Some(id) => {
                    proof {
                        lemma_last_child_measure(*self, id.index.key as int);
                    }
                    out.push(id);
                    cur = self.relatives_of(id).last_child;
                },
                None => {
                    break ;
                },
            }
        }
        out
    }
}

/// A measure that strictly decreases when stepping to any child: the number
/// of strict descendants of `k`.
pub open spec fn total_below<T>(t: Tree<T>, k: int) -> int {
    t.desc_set(k).len() as int
}

proof fn lemma_first_child_measure<T>(t: Tree<T>, k: int)
    requires
        t.inv(),
        t.occ(k),
    ensures
        t.rel(k).first_child matches Some(c) ==> t.resolves(c) && total_below(
            t,
            c.index.key as int,
        ) < total_below(t, k),
{
    assert(t.parent_ok(k));
    match t.rel(k).first_child {
        Some(c) => {
            assert(t.child_at_ok(k, 0));
            let ck = t.kids@[k][0];
            assert(t.occ(ck));
            assert(t.kids@[k].contains(ck));
            lemma_child_desc_strict(t, k, ck);
        },
        None => {},
    }
}

proof fn lemma_last_child_measure<T>(t: Tree<T>, k: int)
    requires
        t.inv(),
        t.occ(k),
    ensures
        t.rel(k).last_child matches Some(c) ==> t.resolves(c) && total_below(
            t,
            c.index.key as int,
        ) < total_below(t, k),
{
    assert(t.parent_ok(k));
    match t.rel(k).last_child {
        Some(c) => {
            let ks = t.kids@[k];
            assert(t.child_at_ok(k, ks.len() - 1));
            let ck = ks[ks.len() - 1];
            assert(t.occ(ck));
            assert(ks.contains(ck));
            lemma_child_desc_strict(t, k, ck);
        },
        None => {},
    }
}

/// A child's subtree is strictly inside its parent's subtree.
proof fn lemma_child_desc_strict<T>(t: Tree<T>, k: int, ck: int)
    requires
        t.inv(),
        t.occ(k),
        t.occ(ck),
        t.kids@[k].contains(ck),
        t.anc@[ck] == t.anc@[k].push(k),
    ensures
        t.desc_set(ck).len() < t.desc_set(k).len(),
        t.desc_set(ck).finite(),
        t.desc_set(k).finite(),
{
    lemma_desc_finite(t, k);
    lemma_desc_finite(t, ck);
    assert(t.desc_set(ck).subset_of(t.desc_set(k))) by {
        assert forall|j: int| t.desc_set(ck).contains(j) implies t.desc_set(k).contains(j) by {
            lemma_desc_trans(t, j, ck, k);
        }
    }
    assert(t.desc_set(k).contains(k));
    assert(!t.desc_set(ck).contains(k)) by {
        assert(t.anc_ok(k));
        if k == ck {
            assert(t.anc@[k] == t.anc@[k].push(k));
        }
        if t.anc@[k].contains(ck) {
            let i = choose|i: int| 0 <= i < t.anc@[k].len() && t.anc@[k][i] == ck;
            assert(t.anc@[t.anc@[k][i]] == t.anc@[k].take(i));
            assert(t.anc@[ck].len() == i);
            assert(t.anc@[ck].len() == t.anc@[k].len() + 1);
        }
    }
    vstd::set_lib::lemma_len_subset(t.desc_set(ck), t.desc_set(k));
    assert(t.desc_set(ck).insert(k).subset_of(t.desc_set(k)));
    vstd::set_lib::lemma_len_subset(t.desc_set(ck).insert(k), t.desc_set(k));
}

/// Descendance is transitive along the ancestor paths: if `j` descends from
/// `m` and `m` is a child of `k`, then `j` descends from `k`.
proof fn lemma_desc_trans<T>(t: Tree<T>, j: int, m: int, k: int)
    requires
        t.inv(),
        t.occ(k),
        t.occ(m),
        t.anc@[m] == t.anc@[k].push(k),
        t.descends(j, m),
    ensures
        t.descends(j, k),
{
    if j == m {
        assert(t.anc@[m].contains(k)) by {
            assert(t.anc@[m][t.anc@[k].len() as int] == k);
        }
    } else {
        assert(t.anc@[j].contains(m));
        let a = t.anc@[j];
        let i = choose|i: int| 0 <= i < a.len() && a[i] == m;
        assert(t.occ(j));
        assert(t.anc_ok(j));
        assert(t.occ(a[i]) && t.anc@[a[i]] == a.take(i));
        assert(t.anc@[m] == a.take(i));
        assert(a.take(i) == t.anc@[k].push(k));
        assert(a.take(i).len() == i);
        assert(i == t.anc@[k].len() + 1);
        assert(a.take(i)[i - 1] == k);
        assert(a[i - 1] == k);
        assert(a.contains(k));
    }
}

/// The slots of a subtree form a finite set: they all lie inside the table.
proof fn lemma_desc_finite<T>(t: Tree<T>, k: int)
    requires
        t.inv(),
    ensures
        t.desc_set(k).finite(),
        t.desc_set(k).len() <= t.slab.n(),
{
    let range = vstd::set_lib::set_int_range(0, t.slab.n());
    vstd::set_lib::lemma_int_range(0, t.slab.n());
    assert(t.desc_set(k).subset_of(range));
    vstd::set_lib::lemma_len_subset(t.desc_set(k), range);
}

impl<T> Tree<T> {
    /// Level-order (breadth-first) traversal from `from_node_id`, or from
    /// the root: every node of that subtree exactly once, each node before
    /// its children, starting at the subtree root.
    #[verifier::rlimit(100)]
    #[verifier::spinoff_prover]
    pub fn traversal_level_order(&self, from_node_id: Option<NodeId>) -> (r: Vec<NodeId>)
        requires
            self.inv(),
            match from_node_id {
                Some(id) => self.resolves(id),
                None => true,
            },
        ensures
            match (if from_node_id is Some {
                from_node_id
            } else {
                self.root_id
            }) {
                Some(start) => {
                    let s = start.index.key as int;
                    &&& r@.len() >= 1
                    &&& r@[0] == start
                    &&& r@.len() == self.desc_set(s).len()
                    &&& forall|x: int|
                        0 <= x < r@.len() ==> self.resolves(#[trigger] r@[x]) && r@[x]
                            == self.id_of(key_of(r@[x])) && self.descends(key_of(r@[x]), s)
                    &&& forall|x: int, y: int|
                        0 <= x < y < r@.len() ==> key_of(#[trigger] r@[x]) != key_of(
                            #[trigger] r@[y])
                    &&& forall|k: int| #[trigger] self.descends(k, s) ==> has_key(
                        r@,
                        r@.len() as int,
                        k,
                    )
                    &&& forall|x: int|
                        1 <= x < r@.len() ==> #[trigger] parent_seen(
                            *self,
                            r@,
                            r@.len() as int,
                            x,
                        )
                },
                None => r@.len() == 0,
            },
            from_node_id matches Some(st) ==> forall|k: int|
                #[trigger] self.descends(k, st.index.key as int) ==> has_key(
                    r@,
                    r@.len() as int,
                    k,
                ),
            depths_sorted(*self, r@),
            sibling_blocks(*self, r@, r@.len() as int),
    {
        let start = if from_node_id.is_some() {
            from_node_id
        } else {
            self.try_root_id()
        };
        let st = match start {
            Some(st) => st,
            None => {
                return Vec::new();
            },
        };
        let ghost s = st.index.key as int;
        proof {
            assert(self.occ(s));
            assert(st == self.id_of(s));
        }
        let mut visit: Vec<NodeId> = Vec::new();
        visit.push(st);
        let mut i: usize = 0;
        proof {
            lemma_nodup_keys_bound(*self, s, visit@);
        }
        while i < visit.len()
            invariant
                self.inv(),
                self.occ(s),
                st == self.id_of(s),
                visit@.len() >= 1,
                visit@[0] == st,
                i <= visit@.len(),
                visit@.len() <= self.desc_set(s).len(),
                forall|x: int|
                    0 <= x < visit@.len() ==> self.resolves(#[trigger] visit@[x]) && visit@[x]
                        == self.id_of(key_of(visit@[x])) && self.descends(key_of(visit@[x]), s),
                forall|x: int, y: int|
                    0 <= x < y < visit@.len() ==> key_of(#[trigger] visit@[x]) != key_of(
                        #[trigger] visit@[y]),
                forall|x: int|
                    1 <= x < visit@.len() ==> #[trigger] parent_seen(*self, visit@, i as int, x),
                closed_upto(*self, visit@, i as int),
                depths_sorted(*self, visit@),
                i < visit@.len() ==> depth_of(*self, visit@[visit@.len() - 1]) <= depth_of(
                    *self,
                    visit@[i as int],
                ) + 1,
                sibling_blocks(*self, visit@, i as int),
            decreases self.desc_set(s).len() - i,
        {
            let vi = visit[i];
            let ghost vik = key_of(vi);
            let ch = self.children(vi);
            let ghost snap = visit@;
            proof {
                assert(self.occ(vik));
                assert(self.parent_ok(vik));
            }
            let mut ci: usize = 0;
            proof {
                assert(visit@ =~= snap + ch@.take(0));
            }
            while ci < ch.len()
                invariant
                    self.inv(),
                    self.occ(s),
                    self.occ(vik),
                    st == self.id_of(s),
                    i < snap.len(),
                    vi == snap[i as int],
                    vik == key_of(vi),
                    ci <= ch@.len(),
                    ch@ == self.children_of(vik),
                    ch@.len() == self.kids@[vik].len(),
                    visit@ == snap + ch@.take(ci as int),
                    snap[0] == st,
                    forall|x: int|
                        0 <= x < snap.len() ==> self.resolves(#[trigger] snap[x]) && snap[x]
                            == self.id_of(key_of(snap[x])) && self.descends(key_of(snap[x]), s),
                    forall|x: int, y: int|
                        0 <= x < y < visit@.len() ==> key_of(#[trigger] visit@[x]) != key_of(
                            #[trigger] visit@[y]),
                    forall|x: int|
                        1 <= x < snap.len() ==> #[trigger] parent_seen(*self, snap, i as int, x),
                    closed_upto(*self, snap, i as int),
                    depths_sorted(*self, snap),
                    depth_of(*self, snap[snap.len() - 1]) <= depth_of(*self, snap[i as int]) + 1,
                    sibling_blocks(*self, snap, i as int),
                decreases ch@.len() - ci,
            {
                let c = ch[ci];
                proof {
                    let ck = self.kids@[vik][ci as int];
                    assert(self.parent_ok(vik));
                    assert(self.child_at_ok(vik, ci as int));
                    assert(self.occ(ck));
                    assert(c == self.id_of(ck));
                    assert(self.anc@[ck] == self.anc@[vik].push(vik));
                    // the child descends from s
                    assert(self.descends(ck, s)) by {
                        assert(self.anc@[ck].contains(vik)) by {
                            assert(self.anc@[ck][self.anc@[vik].len() as int] == vik);
                        }
                        if vik != s {
                            assert(self.anc@[vik].contains(s));
                            let z = choose|z: int|
                                0 <= z < self.anc@[vik].len() && self.anc@[vik][z] == s;
                            assert(self.anc@[ck][z] == s);
                        }
                    }
                    // the child's key is not yet present
                    assert forall|x: int| 0 <= x < visit@.len() implies key_of(
                        #[trigger] visit@[x],
                    ) != ck by {
                        if key_of(visit@[x]) == ck {
                            lemma_no_self_anc(*self, ck);
                            lemma_no_self_anc(*self, s);
                            if x == 0 {
                                // ck would be s, but s cannot have a parent inside
                                // its own subtree
                                assert(ck == s);
                                assert(self.anc@[s].contains(vik)) by {
                                    assert(self.anc@[ck][self.anc@[vik].len() as int] == vik);
                                }
                                if vik == s {
                                } else {
                                    assert(self.descends(vik, s));
                                    assert(self.anc@[vik].contains(s));
                                    let z = choose|z: int|
                                        0 <= z < self.anc@[vik].len() && self.anc@[vik][z] == s;
                                    assert(self.anc@[s][z] == s);
                                }
                            } else if x < snap.len() {
                                assert(parent_seen(*self, snap, i as int, x));
                                let y = choose|y: int|
                                    0 <= y < i && y < x && key_of(#[trigger] snap[y])
                                        == self.anc@[key_of(snap[x])].last();
                                assert(self.anc@[ck].last() == vik);
                                assert(visit@[x] == snap[x]);
                                assert(key_of(snap[y]) == vik);
                                assert(visit@[y] == snap[y]);
                                assert(visit@[i as int] == snap[i as int]);
                                assert(key_of(visit@[y]) == key_of(visit@[i as int]));
                            } else {
                                let cj = x - snap.len();
                                assert(visit@[x] == ch@[cj]);
                                assert(ch@[cj] == self.id_of(self.kids@[vik][cj]));
                                assert(self.child_at_ok(vik, cj));
                                assert(self.occ(self.kids@[vik][cj]));
                                assert(key_of(ch@[cj]) == self.kids@[vik][cj]);
                                assert(self.kids@[vik].no_duplicates());
                            }
                        }
                    }
                }
                visit.push(c);
                proof {
                    assert(visit@ =~= snap + ch@.take(ci + 1 as int));
                }
                ci = ci + 1;
            }
            proof {
                assert(visit@ =~= snap + ch@);
            }
            i = i + 1;
            proof {
                lemma_bfs_step(*self, s, snap, ch@, visit@, (i - 1) as int);
                lemma_nodup_keys_bound(*self, s, visit@);
            }
        }
        proof {
            assert forall|k: int| #[trigger] self.descends(k, s) implies has_key(
                visit@,
                visit@.len() as int,
                k,
            ) by {
                lemma_desc_reached(*self, s, visit@, k);
            }
            lemma_visit_exact_keys(*self, s, visit@);
        }
        visit
    }
}

/// One round of the level-order walk: after appending the children of the
/// node at position `iold`, the visit list keeps its per-element facts, every
/// non-start element still has an earlier, processed parent, and the list is
/// closed under children up to `iold + 1`.
#[verifier::rlimit(100)]
#[verifier::spinoff_prover]
proof fn lemma_bfs_step<T>(
    t: Tree<T>,
    s: int,
    snap: Seq<NodeId>,
    ch: Seq<NodeId>,
    visit: Seq<NodeId>,
    iold: int,
)
    requires
        t.inv(),
        t.occ(s),
        0 <= iold < snap.len(),
        visit == snap + ch,
        snap.len() >= 1,
        snap[0] == t.id_of(s),
        t.occ(key_of(snap[iold])),
        ch == t.children_of(key_of(snap[iold])),
        forall|x: int|
            0 <= x < snap.len() ==> t.resolves(#[trigger] snap[x]) && snap[x] == t.id_of(
                key_of(snap[x]),
            ) && t.descends(key_of(snap[x]), s),
        forall|x: int| 1 <= x < snap.len() ==> #[trigger] parent_seen(t, snap, iold, x),
        closed_upto(t, snap, iold),
        depths_sorted(t, snap),
        depth_of(t, snap[snap.len() - 1]) <= depth_of(t, snap[iold]) + 1,
        sibling_blocks(t, snap, iold),
    ensures
        forall|x: int|
            0 <= x < visit.len() ==> t.resolves(#[trigger] visit[x]) && visit[x] == t.id_of(
                key_of(visit[x]),
            ) && t.descends(key_of(visit[x]), s),
        forall|x: int| 1 <= x < visit.len() ==> #[trigger] parent_seen(t, visit, iold + 1, x),
        closed_upto(t, visit, iold + 1),
        depths_sorted(t, visit),
        iold + 1 < visit.len() ==> depth_of(t, visit[visit.len() - 1]) <= depth_of(
            t,
            visit[iold + 1],
        ) + 1,
        sibling_blocks(t, visit, iold + 1),
{
    let vik = key_of(snap[iold]);
    assert(t.parent_ok(vik));
    assert forall|x: int|
        0 <= x < visit.len() implies t.resolves(#[trigger] visit[x]) && visit[x] == t.id_of(
        key_of(visit[x]),
    ) && t.descends(key_of(visit[x]), s) by {
        if x >= snap.len() {
            let cj = x - snap.len();
            assert(visit[x] == ch[cj]);
            assert(t.child_at_ok(vik, cj));
            assert(t.occ(t.kids@[vik][cj]));
            assert(t.descends(t.kids@[vik][cj], s)) by {
                assert(t.anc@[t.kids@[vik][cj]].contains(vik)) by {
                    assert(t.anc@[t.kids@[vik][cj]][t.anc@[vik].len() as int] == vik);
                }
                if vik != s {
                    assert(t.anc@[vik].contains(s));
                    let z = choose|z: int| 0 <= z < t.anc@[vik].len() && t.anc@[vik][z] == s;
                    assert(t.anc@[t.kids@[vik][cj]][z] == s);
                }
            }
        }
    }
    assert forall|x: int| 1 <= x < visit.len() implies #[trigger] parent_seen(
        t,
        visit,
        iold + 1,
        x,
    ) by {
        if x < snap.len() {
            assert(visit[x] == snap[x]);
            assert(parent_seen(t, snap, iold, x));
            let y = choose|y: int|
                0 <= y < iold && y < x && key_of(#[trigger] snap[y]) == t.anc@[key_of(
                    snap[x],
                )].last();
            assert(visit[y] == snap[y]);
            assert(key_of(visit[y]) == t.anc@[key_of(visit[x])].last());
        } else {
            let cj = x - snap.len();
            assert(visit[x] == ch[cj]);
            assert(t.child_at_ok(vik, cj));
            assert(t.anc@[t.kids@[vik][cj]] == t.anc@[vik].push(vik));
            assert(key_of(visit[iold]) == t.anc@[key_of(visit[x])].last());
        }
    }
    assert(closed_upto(t, visit, iold + 1)) by {
        assert forall|pk: int, cx: int|
            has_key(visit, iold + 1, pk) && t.occ(pk) && 0 <= cx < t.kids@[pk].len() implies
            has_key(visit, visit.len() as int, #[trigger] t.kids@[pk][cx]) by {
            let w = choose|w: int| 0 <= w < iold + 1 && key_of(visit[w]) == pk;
            if w < iold {
                assert(has_key(snap, iold, pk)) by {
                    assert(key_of(snap[w]) == pk);
                }
                assert(has_key(snap, snap.len() as int, t.kids@[pk][cx]));
                let u = choose|u: int| 0 <= u < snap.len() && key_of(snap[u]) == t.kids@[pk][cx];
                assert(key_of(visit[u]) == t.kids@[pk][cx]);
            } else {
                assert(key_of(visit[w]) == vik);
                assert(pk == vik);
                assert(visit[snap.len() + cx] == ch[cx]);
                assert(t.child_at_ok(vik, cx));
                assert(t.occ(t.kids@[vik][cx]));
                assert(key_of(visit[snap.len() + cx]) == t.kids@[vik][cx]);
            }
        }
    }
    // the appended children sit one level below the processed node, so the
    // output stays sorted by depth and forms one sibling block
    assert forall|y: int|
        snap.len() <= y < visit.len() implies depth_of(t, #[trigger] visit[y]) == depth_of(
        t,
        snap[iold],
    ) + 1 by {
        let cj = y - snap.len();
        assert(visit[y] == ch[cj]);
        assert(t.child_at_ok(vik, cj));
        assert(t.occ(t.kids@[vik][cj]));
        assert(t.anc@[t.kids@[vik][cj]] == t.anc@[vik].push(vik));
        assert(key_of(visit[y]) == t.kids@[vik][cj]);
    }
    assert(depths_sorted(t, visit)) by {
        assert forall|x: int, y: int|
            0 <= x < y < visit.len() implies depth_of(t, #[trigger] visit[x]) <= depth_of(
            t,
            #[trigger] visit[y],
        ) by {
            if y < snap.len() {
                assert(visit[x] == snap[x] && visit[y] == snap[y]);
            } else if x < snap.len() {
                assert(visit[x] == snap[x]);
                assert(depth_of(t, snap[x]) <= depth_of(t, snap[snap.len() - 1]));
                assert(depth_of(t, visit[y]) == depth_of(t, snap[iold]) + 1);
            }
        }
    }
    if iold + 1 < visit.len() {
        assert(depth_of(t, visit[visit.len() - 1]) <= depth_of(t, visit[iold + 1]) + 1) by {
            if visit.len() == snap.len() {
                assert(visit[visit.len() - 1] == snap[snap.len() - 1]);
                assert(visit[iold + 1] == snap[iold + 1]);
                assert(depth_of(t, snap[iold]) <= depth_of(t, snap[iold + 1]));
            } else {
                assert(depth_of(t, visit[visit.len() - 1]) == depth_of(t, snap[iold]) + 1);
                if iold + 1 < snap.len() {
                    assert(visit[iold + 1] == snap[iold + 1]);
                    assert(depth_of(t, snap[iold]) <= depth_of(t, snap[iold + 1]));
                } else {
                    assert(depth_of(t, visit[iold + 1]) == depth_of(t, snap[iold]) + 1);
                }
            }
        }
    }
    assert(sibling_blocks(t, visit, iold + 1)) by {
        assert forall|x: int| #![trigger visit[x]] 0 <= x < iold + 1 implies has_block(
            t,
            visit,
            key_of(visit[x]),
            x,
        ) by {
            if x < iold {
                assert(visit[x] == snap[x]);
                assert(has_block(t, snap, key_of(snap[x]), x));
                let base = choose|base: int|
                    x < base && #[trigger] children_block(t, snap, key_of(snap[x]), base);
                assert(children_block(t, visit, key_of(visit[x]), base)) by {
                    assert forall|ci: int|
                        0 <= ci < t.kids@[key_of(visit[x])].len() implies visit[base + ci]
                        == t.id_of(#[trigger] t.kids@[key_of(visit[x])][ci]) by {
                        assert(snap[base + ci] == t.id_of(t.kids@[key_of(snap[x])][ci]));
                        assert(visit[base + ci] == snap[base + ci]);
                    }
                }
            } else {
                assert(visit[x] == snap[iold]);
                assert(children_block(t, visit, vik, snap.len() as int)) by {
                    assert forall|ci: int|
                        0 <= ci < t.kids@[vik].len() implies visit[snap.len() + ci] == t.id_of(
                        #[trigger] t.kids@[vik][ci],
                    ) by {
                        assert(visit[snap.len() + ci] == ch[ci]);
                    }
                }
                assert(key_of(visit[x]) == vik);
                assert(children_block(t, visit, key_of(visit[x]), snap.len() as int));
                assert(x < snap.len() as int);
            }
        }
    }
}

/// The slots covered by the subtrees of the first `ci` children of `k`.
pub open spec fn desc_union<T>(t: Tree<T>, k: int, ci: int) -> Set<int> {
    Set::new(
        |j: int| exists|cj: int| 0 <= cj < ci && t.descends(j, #[trigger] t.kids@[k][cj]),
    )
}

/// What one post-order walk of `k`'s subtree appends to `base`: the whole
/// subtree, each node once and after all of its descendants, `k` last.
#[verifier::opaque]
pub open spec fn post_extension<T>(t: Tree<T>, k: int, base: Seq<NodeId>, res: Seq<NodeId>) -> bool {
    &&& res.len() == base.len() + t.desc_set(k).len()
    &&& res.len() > base.len()
    &&& res.take(base.len() as int) == base
    &&& res[res.len() - 1] == t.id_of(k)
    &&& forall|x: int|
        base.len() <= x < res.len() ==> t.resolves(#[trigger] res[x]) && res[x] == t.id_of(
            key_of(res[x]),
        ) && t.descends(key_of(res[x]), k)
    &&& forall|x: int, y: int|
        base.len() <= x < y < res.len() ==> key_of(#[trigger] res[x]) != key_of(#[trigger] res[y])
    &&& forall|j: int| #[trigger] t.descends(j, k) ==> has_key_from(res, base.len() as int, j)
    &&& forall|x: int, y: int|
        base.len() <= x < y < res.len() ==> !t.descends(
            key_of(#[trigger] res[y]),
            key_of(#[trigger] res[x]),
        )
}

/// Reads the walk token back as its clauses.
proof fn lemma_post_extension_unpack<T>(t: Tree<T>, k: int, base: Seq<NodeId>, res: Seq<NodeId>)
    requires
        post_extension(t, k, base, res),
    ensures
        res.len() == base.len() + t.desc_set(k).len(),
        res.len() > base.len(),
        res.take(base.len() as int) == base,
        res[res.len() - 1] == t.id_of(k),
        forall|x: int|
            base.len() <= x < res.len() ==> t.resolves(#[trigger] res[x]) && res[x] == t.id_of(
                key_of(res[x]),
            ) && t.descends(key_of(res[x]), k),
        forall|x: int, y: int|
            base.len() <= x < y < res.len() ==> key_of(#[trigger] res[x]) != key_of(
                #[trigger] res[y]),
        forall|j: int| #[trigger] t.descends(j, k) ==> has_key_from(res, base.len() as int, j),
        forall|x: int, y: int|
            base.len() <= x < y < res.len() ==> !t.descends(
                key_of(#[trigger] res[y]),
                key_of(#[trigger] res[x]),
            ),
{
    reveal(post_extension);
}

/// The running state of a post-order walk of `nk`'s subtree: on top of the
/// untouched prefix `b0`, the output holds exactly the subtrees of the
/// first `ci` children, each node once, every node after its descendants.
#[verifier::opaque]
pub open spec fn post_state<T>(t: Tree<T>, nk: int, b0: Seq<NodeId>, cur: Seq<NodeId>, ci: int) -> bool {
    &&& cur.len() >= b0.len()
    &&& cur.take(b0.len() as int) == b0
    &&& desc_union(t, nk, ci).finite()
    &&& cur.len() == b0.len() + desc_union(t, nk, ci).len()
    &&& forall|x: int|
        b0.len() <= x < cur.len() ==> t.resolves(#[trigger] cur[x]) && cur[x] == t.id_of(
            key_of(cur[x]),
        ) && t.descends(key_of(cur[x]), nk) && (exists|cj: int|
            0 <= cj < ci && t.descends(key_of(cur[x]), #[trigger] t.kids@[nk][cj]))
    &&& forall|x: int, y: int|
        b0.len() <= x < y < cur.len() ==> key_of(#[trigger] cur[x]) != key_of(#[trigger] cur[y])
    &&& forall|cj: int, j: int|
        0 <= cj < ci && #[trigger] t.descends(j, t.kids@[nk][cj]) ==> has_key_from(
            cur,
            b0.len() as int,
            j,
        )
    &&& forall|x: int, y: int|
        b0.len() <= x < y < cur.len() ==> !t.descends(
            key_of(#[trigger] cur[y]),
            key_of(#[trigger] cur[x]),
        )
}

impl<T> Tree<T> {
    /// Depth-first post-order traversal from `from_node_id` (or the root):
    /// every node of that subtree exactly once, each after all of its
    /// descendants, the subtree root last. This is the order in which
    /// removal frees slots.
    pub fn traversal_depth_first_post_order(&self, from_node_id: Option<NodeId>) -> (r: Vec<
        NodeId,
    >)
        requires
            self.inv(),
            match from_node_id {
                Some(id) => self.resolves(id),
                None => true,
            },
        ensures
            match (if from_node_id is Some {
                from_node_id
            } else {
                self.root_id
            }) {
                Some(start) => {
                    let s = start.index.key as int;
                    &&& r@.len() == self.desc_set(s).len()
                    &&& r@.len() >= 1
                    &&& r@[r@.len() - 1] == start
                    &&& forall|x: int|
                        0 <= x < r@.len() ==> self.resolves(#[trigger] r@[x]) && r@[x]
                            == self.id_of(key_of(r@[x])) && self.descends(key_of(r@[x]), s)
                    &&& forall|x: int, y: int|
                        0 <= x < y < r@.len() ==> key_of(#[trigger] r@[x]) != key_of(
                            #[trigger] r@[y])
                    &&& forall|k: int| #[trigger] self.descends(k, s) ==> has_key(
                        r@,
                        r@.len() as int,
                        k,
                    )
                    &&& forall|x: int, y: int|
                        0 <= x < y < r@.len() ==> !self.descends(
                            key_of(#[trigger] r@[y]),
                            key_of(#[trigger] r@[x]),
                        )
                },
                None => r@.len() == 0,
            },
            from_node_id matches Some(fid) ==> forall|k: int|
                #[trigger] self.descends(k, fid.index.key as int) ==> has_key(
                    r@,
                    r@.len() as int,
                    k,
                ),
    {
        let start = if from_node_id.is_some() {
            from_node_id
        } else {
            self.try_root_id()
        };
        let st = match start {
            Some(st) => st,
            None => {
                return Vec::new();
            },
        };
        let mut out: Vec<NodeId> = Vec::new();
        self.post_order_into(st, &mut out);
        proof {
            lemma_post_extension_unpack(*self, st.index.key as int, Seq::empty(), out@);
            assert forall|k: int|
                #[trigger] self.descends(k, st.index.key as int) implies has_key(
                out@,
                out@.len() as int,
                k,
            ) by {
                assert(has_key_from(out@, 0, k));
                let x = choose|x: int|
                    0 <= x < out@.len() && key_of(#[trigger] out@[x]) == k;
                assert(key_of(out@[x]) == k);
            }
        }
        out
    }

    /// Appends the post-order walk of `node_id`'s subtree to `out`: children
    /// first, in sibling order, the node itself last.
    #[verifier::rlimit(100)]
    #[verifier::spinoff_prover]
    fn post_order_into(&self, node_id: NodeId, out: &mut Vec<NodeId>)
        requires
            self.inv(),
            self.resolves(node_id),
        ensures
            post_extension(*self, node_id.index.key as int, old(out)@, final(out)@),
        decreases self.desc_set(node_id.index.key as int).len(),
    {
        let ghost nk = node_id.index.key as int;
        let ch = self.children(node_id);
        let ghost b0 = out@;
        let mut ci: usize = 0;
        proof {
            lemma_post_order_start(*self, nk, b0, out@);
        }
        while ci < ch.len()
            invariant
                self.inv(),
                self.resolves(node_id),
                self.occ(nk),
                nk == node_id.index.key as int,
                ci <= ch@.len(),
                ch@ == self.children_of(nk),
                ch@.len() == self.kids@[nk].len(),
                post_state(*self, nk, b0, out@, ci as int),
            decreases ch@.len() - ci,
        {
            let child_id = ch[ci];
            let ghost ck = self.kids@[nk][ci as int];
            proof {
                assert(self.parent_ok(nk));
                assert(self.child_at_ok(nk, ci as int));
                assert(self.occ(ck));
                assert(child_id == self.id_of(ck));
                assert(key_of(child_id) == ck);
                assert(self.resolves(child_id));
                assert(self.kids@[nk].contains(ck));
                lemma_child_desc_strict(*self, nk, ck);
            }
            let ghost before = out@;
            self.post_order_into(child_id, out);
            proof {
                assert(post_extension(*self, ck, before, out@)) by {
                    assert(child_id.index.key as int == ck);
                }
                lemma_post_order_step(*self, nk, ci as int, b0, before, out@);
            }
            ci = ci + 1;
        }
        let ghost fin = out@;
        out.push(node_id);
        proof {
            assert(out@.take(out@.len() - 1) =~= fin);
            assert(out@[out@.len() - 1] == node_id);
            lemma_post_order_finish(
                *self,
                node_id.index.key as int,
                node_id,
                b0,
                out@,
                ch@.len() as int,
            );
            assert(b0 == old(out)@);
            assert(post_extension(*self, node_id.index.key as int, old(out)@, out@));
        }
    }
}

/// Before any child is copied, the walk state holds trivially.
proof fn lemma_post_order_start<T>(t: Tree<T>, nk: int, b0: Seq<NodeId>, cur: Seq<NodeId>)
    requires
        t.inv(),
        t.occ(nk),
        cur == b0,
    ensures
        post_state(t, nk, b0, cur, 0),
{
    reveal(post_state);
    assert(desc_union(t, nk, 0) =~= Set::<int>::empty());
    assert(cur.take(b0.len() as int) =~= b0);
}

/// The bookkeeping half of one walk step: the prefix survives and the
/// output length matches the enlarged union of sibling subtrees.
#[verifier::rlimit(100)]
#[verifier::spinoff_prover]
proof fn lemma_post_order_step_len<T>(
    t: Tree<T>,
    nk: int,
    ci: int,
    b0: Seq<NodeId>,
    before: Seq<NodeId>,
    after: Seq<NodeId>,
)
    requires
        t.inv(),
        t.occ(nk),
        0 <= ci < t.kids@[nk].len(),
        before.len() >= b0.len(),
        before.take(b0.len() as int) == b0,
        desc_union(t, nk, ci).finite(),
        before.len() == b0.len() + desc_union(t, nk, ci).len(),
        after.len() == before.len() + t.desc_set(t.kids@[nk][ci]).len(),
        after.len() > before.len(),
        after.take(before.len() as int) == before,
    ensures
        after.len() >= b0.len(),
        after.take(b0.len() as int) == b0,
        desc_union(t, nk, ci + 1).finite(),
        after.len() == b0.len() + desc_union(t, nk, ci + 1).len(),
{
    let ck = t.kids@[nk][ci];
    assert(t.parent_ok(nk));
    assert(t.child_at_ok(nk, ci));
    assert(t.occ(ck));
    assert(t.descends(ck, nk)) by {
        assert(t.anc@[ck] == t.anc@[nk].push(nk));
        assert(t.anc@[ck][t.anc@[nk].len() as int] == nk);
        assert(t.anc@[ck].contains(nk));
    }
    assert(after.take(b0.len() as int) =~= b0) by {
        assert forall|x: int| 0 <= x < b0.len() implies after[x] == b0[x] by {
            assert(after.take(before.len() as int)[x] == before[x]);
            assert(before.take(b0.len() as int)[x] == b0[x]);
        }
    }
    // the union grows by exactly this child's disjoint subtree
    assert(desc_union(t, nk, ci + 1) =~= desc_union(t, nk, ci) + t.desc_set(ck)) by {
        assert forall|j: int| desc_union(t, nk, ci + 1).contains(j) implies (desc_union(t, nk, ci)
            + t.desc_set(ck)).contains(j) by {
            let cj = choose|cj: int|
                0 <= cj < ci + 1 && t.descends(j, #[trigger] t.kids@[nk][cj]);
            if cj < ci {
                assert(desc_union(t, nk, ci).contains(j));
            } else {
                assert(t.descends(j, ck));
            }
        }
        assert forall|j: int| (desc_union(t, nk, ci) + t.desc_set(ck)).contains(j)
            implies desc_union(t, nk, ci + 1).contains(j) by {
            if desc_union(t, nk, ci).contains(j) {
                let cj = choose|cj: int|
                    0 <= cj < ci && t.descends(j, #[trigger] t.kids@[nk][cj]);
                assert(t.descends(j, t.kids@[nk][cj]));
            } else {
                assert(t.descends(j, t.kids@[nk][ci]));
            }
        }
    }
    assert forall|j: int| desc_union(t, nk, ci).contains(j) implies !(
    #[trigger] t.desc_set(ck).contains(j)) by {
        let cj = choose|cj: int| 0 <= cj < ci && t.descends(j, #[trigger] t.kids@[nk][cj]);
        lemma_sibling_desc_disjoint(t, nk, cj, ci, j);
    }
    lemma_desc_finite(t, ck);
    crate::slab::lemma_disjoint_union_len(desc_union(t, nk, ci), t.desc_set(ck));
}

/// The ordering half of one walk step: the new elements are the child's
/// subtree, keys stay distinct, the covered subtrees stay complete, and no
/// element precedes one of its ancestors.
#[verifier::rlimit(100)]
#[verifier::spinoff_prover]
proof fn lemma_post_order_step_order<T>(
    t: Tree<T>,
    nk: int,
    ci: int,
    b0: Seq<NodeId>,
    before: Seq<NodeId>,
    after: Seq<NodeId>,
)
    requires
        t.inv(),
        t.occ(nk),
        0 <= ci < t.kids@[nk].len(),
        before.len() >= b0.len(),
        before.take(b0.len() as int) == b0,
        forall|x: int|
            b0.len() <= x < before.len() ==> t.resolves(#[trigger] before[x]) && before[x]
                == t.id_of(key_of(before[x])) && t.descends(key_of(before[x]), nk) && (
            exists|cj: int|
                0 <= cj < ci && t.descends(key_of(before[x]), #[trigger] t.kids@[nk][cj])),
        forall|x: int, y: int|
            b0.len() <= x < y < before.len() ==> key_of(#[trigger] before[x]) != key_of(
                #[trigger] before[y]),
        forall|cj: int, j: int|
            0 <= cj < ci && #[trigger] t.descends(j, t.kids@[nk][cj]) ==> has_key_from(
                before,
                b0.len() as int,
                j,
            ),
        forall|x: int, y: int|
            b0.len() <= x < y < before.len() ==> !t.descends(
                key_of(#[trigger] before[y]),
                key_of(#[trigger] before[x]),
            ),
        after.len() > before.len(),
        after.take(before.len() as int) == before,
        forall|x: int|
            before.len() <= x < after.len() ==> t.resolves(#[trigger] after[x]) && after[x]
                == t.id_of(key_of(after[x])) && t.descends(key_of(after[x]), t.kids@[nk][ci]),
        forall|x: int, y: int|
            before.len() <= x < y < after.len() ==> key_of(#[trigger] after[x]) != key_of(
                #[trigger] after[y]),
        forall|j: int|
            #[trigger] t.descends(j, t.kids@[nk][ci]) ==> has_key_from(
                after,
                before.len() as int,
                j,
            ),
        forall|x: int, y: int|
            before.len() <= x < y < after.len() ==> !t.descends(
                key_of(#[trigger] after[y]),
                key_of(#[trigger] after[x]),
            ),
    ensures
        forall|x: int|
            b0.len() <= x < after.len() ==> t.resolves(#[trigger] after[x]) && after[x] == t.id_of(
                key_of(after[x]),
            ) && t.descends(key_of(after[x]), nk) && (exists|cj: int|
                0 <= cj < ci + 1 && t.descends(key_of(after[x]), #[trigger] t.kids@[nk][cj])),
        forall|x: int, y: int|
            b0.len() <= x < y < after.len() ==> key_of(#[trigger] after[x]) != key_of(
                #[trigger] after[y]),
        forall|cj: int, j: int|
            0 <= cj < ci + 1 && #[trigger] t.descends(j, t.kids@[nk][cj]) ==> has_key_from(
                after,
                b0.len() as int,
                j,
            ),
        forall|x: int, y: int|
            b0.len() <= x < y < after.len() ==> !t.descends(
                key_of(#[trigger] after[y]),
                key_of(#[trigger] after[x]),
            ),
{
    let ck = t.kids@[nk][ci];
    assert(t.parent_ok(nk));
    assert(t.child_at_ok(nk, ci));
    assert(t.occ(ck));
    assert(t.descends(ck, nk)) by {
        assert(t.anc@[ck] == t.anc@[nk].push(nk));
        assert(t.anc@[ck][t.anc@[nk].len() as int] == nk);
        assert(t.anc@[ck].contains(nk));
    }
    // element facts and distinctness across the boundary
    assert forall|x: int|
        b0.len() <= x < after.len() implies t.resolves(#[trigger] after[x]) && after[x] == t.id_of(
        key_of(after[x]),
    ) && t.descends(key_of(after[x]), nk) && (exists|cj: int|
        0 <= cj < ci + 1 && t.descends(key_of(after[x]), #[trigger] t.kids@[nk][cj])) by {
        if x < before.len() {
            assert(after[x] == before[x]) by {
                assert(after.take(before.len() as int)[x] == before[x]);
            }
            let cj = choose|cj: int|
                0 <= cj < ci && t.descends(key_of(before[x]), #[trigger] t.kids@[nk][cj]);
            assert(t.descends(key_of(after[x]), t.kids@[nk][cj]));
        } else {
            assert(t.descends(key_of(after[x]), t.kids@[nk][ci]));
            lemma_desc_transitive(t, key_of(after[x]), ck, nk);
        }
    }
    assert forall|x: int, y: int|
        b0.len() <= x < y < after.len() implies key_of(#[trigger] after[x]) != key_of(
        #[trigger] after[y]) by {
        if y < before.len() {
            assert(after[x] == before[x] && after[y] == before[y]) by {
                assert(after.take(before.len() as int)[x] == before[x]);
                assert(after.take(before.len() as int)[y] == before[y]);
            }
        } else if x < before.len() {
            assert(after[x] == before[x]) by {
                assert(after.take(before.len() as int)[x] == before[x]);
            }
            let cj = choose|cj: int|
                0 <= cj < ci && t.descends(key_of(before[x]), #[trigger] t.kids@[nk][cj]);
            if key_of(after[x]) == key_of(after[y]) {
                assert(t.descends(key_of(after[y]), t.kids@[nk][cj]));
                lemma_sibling_desc_disjoint(t, nk, cj, ci, key_of(after[y]));
            }
        }
    }
    assert forall|cj: int, j: int|
        0 <= cj < ci + 1 && #[trigger] t.descends(j, t.kids@[nk][cj]) implies has_key_from(
        after,
        b0.len() as int,
        j,
    ) by {
        if cj < ci {
            assert(has_key_from(before, b0.len() as int, j));
            let x = choose|x: int|
                b0.len() <= x < before.len() && key_of(#[trigger] before[x]) == j;
            assert(after[x] == before[x]) by {
                assert(after.take(before.len() as int)[x] == before[x]);
            }
            assert(key_of(after[x]) == j);
        } else {
            assert(has_key_from(after, before.len() as int, j));
            let x = choose|x: int|
                before.len() <= x < after.len() && key_of(#[trigger] after[x]) == j;
            assert(key_of(after[x]) == j);
        }
    }
    assert forall|x: int, y: int|
        b0.len() <= x < y < after.len() implies !t.descends(
        key_of(#[trigger] after[y]),
        key_of(#[trigger] after[x]),
    ) by {
        if y < before.len() {
            assert(after[x] == before[x] && after[y] == before[y]) by {
                assert(after.take(before.len() as int)[x] == before[x]);
                assert(after.take(before.len() as int)[y] == before[y]);
            }
        } else if x < before.len() {
            assert(after[x] == before[x]) by {
                assert(after.take(before.len() as int)[x] == before[x]);
            }
            let cj = choose|cj: int|
                0 <= cj < ci && t.descends(key_of(before[x]), #[trigger] t.kids@[nk][cj]);
            if t.descends(key_of(after[y]), key_of(after[x])) {
                lemma_desc_transitive(t, key_of(after[y]), key_of(after[x]), t.kids@[nk][cj]);
                assert(t.descends(key_of(after[y]), t.kids@[nk][cj]));
                lemma_sibling_desc_disjoint(t, nk, cj, ci, key_of(after[y]));
                assert(t.descends(key_of(after[y]), t.kids@[nk][ci]));
            }
        }
    }
}

/// One child's subtree appended: the walk state advances by one child.
proof fn lemma_post_order_step<T>(
    t: Tree<T>,
    nk: int,
    ci: int,
    b0: Seq<NodeId>,
    before: Seq<NodeId>,
    after: Seq<NodeId>,
)
    requires
        t.inv(),
        t.occ(nk),
        0 <= ci < t.kids@[nk].len(),
        post_state(t, nk, b0, before, ci),
        post_extension(t, t.kids@[nk][ci], before, after),
    ensures
        post_state(t, nk, b0, after, ci + 1),
{
    reveal(post_state);
    reveal(post_extension);
    lemma_post_order_step_len(t, nk, ci, b0, before, after);
    lemma_post_order_step_order(t, nk, ci, b0, before, after);
}

/// The node itself closes its subtree's walk.
#[verifier::rlimit(100)]
#[verifier::spinoff_prover]
proof fn lemma_post_order_finish<T>(
    t: Tree<T>,
    nk: int,
    node_id: NodeId,
    b0: Seq<NodeId>,
    after: Seq<NodeId>,
    n: int,
)
    requires
        t.inv(),
        t.occ(nk),
        node_id == t.id_of(nk),
        n == t.kids@[nk].len(),
        after.len() >= 1,
        after[after.len() - 1] == node_id,
        post_state(t, nk, b0, after.take(after.len() - 1), n),
    ensures
        post_extension(t, nk, b0, after),
{
    reveal(post_state);
    reveal(post_extension);
    let pre = after.take(after.len() - 1);
    assert(t.parent_ok(nk));
    assert(key_of(node_id) == nk) by {
        assert(0 <= nk < t.slab.n() <= usize::MAX);
    }
    // the node is outside every child's subtree
    assert forall|cj: int| 0 <= cj < n implies !t.descends(nk, #[trigger] t.kids@[nk][cj]) by {
        let c = t.kids@[nk][cj];
        assert(t.child_at_ok(nk, cj));
        assert(t.anc@[c] == t.anc@[nk].push(nk));
        if nk == c {
            assert(t.anc@[nk].len() == t.anc@[nk].len() + 1);
        }
        if t.anc@[nk].contains(c) {
            let z = choose|z: int| 0 <= z < t.anc@[nk].len() && t.anc@[nk][z] == c;
            assert(t.anc_ok(nk));
            assert(t.occ(t.anc@[nk][z]) && t.anc@[t.anc@[nk][z]] == t.anc@[nk].take(z));
            assert(t.anc@[c].len() == z);
        }
    }
    assert(!desc_union(t, nk, n).contains(nk));
    assert(t.desc_set(nk) =~= desc_union(t, nk, n).insert(nk)) by {
        assert forall|j: int| t.desc_set(nk).contains(j) implies desc_union(t, nk, n).insert(
            nk,
        ).contains(j) by {
            if j != nk {
                lemma_desc_children_cover(t, nk, j);
                let cj = choose|cj: int|
                    0 <= cj < t.kids@[nk].len() && #[trigger] t.descends(j, t.kids@[nk][cj]);
                assert(desc_union(t, nk, n).contains(j));
            }
        }
        assert forall|j: int| desc_union(t, nk, n).insert(nk).contains(j) implies t.desc_set(
            nk,
        ).contains(j) by {
            if j != nk {
                let cj = choose|cj: int|
                    0 <= cj < n && t.descends(j, #[trigger] t.kids@[nk][cj]);
                assert(t.child_at_ok(nk, cj));
                assert(t.descends(t.kids@[nk][cj], nk)) by {
                    assert(t.anc@[t.kids@[nk][cj]] == t.anc@[nk].push(nk));
                    assert(t.anc@[t.kids@[nk][cj]][t.anc@[nk].len() as int] == nk);
                    assert(t.anc@[t.kids@[nk][cj]].contains(nk));
                }
                lemma_desc_transitive(t, j, t.kids@[nk][cj], nk);
            } else {
                assert(t.descends(nk, nk));
            }
        }
    }
    assert(t.desc_set(nk).len() == desc_union(t, nk, n).len() + 1);
    assert(after.take(b0.len() as int) =~= b0) by {
        assert forall|x: int| 0 <= x < b0.len() implies after[x] == b0[x] by {
            assert(pre.take(b0.len() as int)[x] == b0[x]);
            assert(pre[x] == after[x]);
        }
    }
    assert forall|x: int|
        b0.len() <= x < after.len() implies t.resolves(#[trigger] after[x]) && after[x] == t.id_of(
        key_of(after[x]),
    ) && t.descends(key_of(after[x]), nk) by {
        if x == after.len() - 1 {
            assert(t.descends(nk, nk));
        } else {
            assert(after[x] == pre[x]);
            assert(t.resolves(pre[x]));
        }
    }
    assert forall|x: int, y: int|
        b0.len() <= x < y < after.len() implies key_of(#[trigger] after[x]) != key_of(
        #[trigger] after[y]) by {
        if y == after.len() - 1 {
            assert(after[x] == pre[x]);
            if key_of(after[x]) == nk {
                let cj = choose|cj: int|
                    0 <= cj < n && t.descends(key_of(pre[x]), #[trigger] t.kids@[nk][cj]);
                assert(desc_union(t, nk, n).contains(nk));
            }
        } else {
            assert(after[x] == pre[x]);
            assert(after[y] == pre[y]);
        }
    }
    assert forall|j: int| #[trigger] t.descends(j, nk) implies has_key_from(
        after,
        b0.len() as int,
        j,
    ) by {
        if j == nk {
            assert(key_of(after[after.len() - 1]) == nk);
        } else {
            lemma_desc_children_cover(t, nk, j);
            let cj = choose|cj: int|
                0 <= cj < t.kids@[nk].len() && #[trigger] t.descends(j, t.kids@[nk][cj]);
            assert(has_key_from(pre, b0.len() as int, j));
            let x = choose|x: int| b0.len() <= x < pre.len() && key_of(#[trigger] pre[x]) == j;
            assert(after[x] == pre[x]);
            assert(key_of(after[x]) == j);
        }
    }
    assert forall|x: int, y: int|
        b0.len() <= x < y < after.len() implies !t.descends(
        key_of(#[trigger] after[y]),
        key_of(#[trigger] after[x]),
    ) by {
        if y == after.len() - 1 {
            assert(after[x] == pre[x]);
            if t.descends(nk, key_of(after[x])) {
                let cj = choose|cj: int|
                    0 <= cj < n && t.descends(key_of(pre[x]), #[trigger] t.kids@[nk][cj]);
                lemma_desc_transitive(t, nk, key_of(after[x]), t.kids@[nk][cj]);
                assert(desc_union(t, nk, n).contains(nk));
            }
        } else {
            assert(after[x] == pre[x]);
            assert(after[y] == pre[y]);
        }
    }
}

/// Subtree membership is transitive.
proof fn lemma_desc_transitive<T>(t: Tree<T>, a: int, b: int, c: int)
    requires
        t.inv(),
        t.descends(a, b),
        t.descends(b, c),
    ensures
        t.descends(a, c),
{
    if a == b || b == c {
    } else {
        assert(t.anc@[a].contains(b));
        assert(t.anc@[b].contains(c));
        let x = choose|x: int| 0 <= x < t.anc@[a].len() && t.anc@[a][x] == b;
        assert(t.occ(a));
        assert(t.anc_ok(a));
        assert(t.occ(t.anc@[a][x]) && t.anc@[t.anc@[a][x]] == t.anc@[a].take(x));
        assert(t.anc@[b] == t.anc@[a].take(x));
        let y = choose|y: int| 0 <= y < t.anc@[b].len() && t.anc@[b][y] == c;
        assert(t.anc@[a].take(x)[y] == c);
        assert(t.anc@[a][y] == c);
        assert(t.anc@[a].contains(c));
    }
}

/// Distinct children of one node have disjoint subtrees.
proof fn lemma_sibling_desc_disjoint<T>(t: Tree<T>, p: int, i: int, j: int, w: int)
    requires
        t.inv(),
        t.occ(p),
        0 <= i < t.kids@[p].len(),
        0 <= j < t.kids@[p].len(),
        i != j,
        t.descends(w, t.kids@[p][i]),
    ensures
        !t.descends(w, t.kids@[p][j]),
{
    assert(t.parent_ok(p));
    assert(t.child_at_ok(p, i));
    assert(t.child_at_ok(p, j));
    let ci = t.kids@[p][i];
    let cj = t.kids@[p][j];
    assert(t.kids@[p].no_duplicates());
    assert(ci != cj);
    assert(t.anc@[ci] == t.anc@[p].push(p));
    assert(t.anc@[cj] == t.anc@[p].push(p));
    if t.descends(w, cj) {
        assert(t.occ(w));
        assert(t.anc_ok(w));
        if w == ci {
            // cj would lie on ci's path, but their paths have equal length
            assert(t.anc@[ci].contains(cj));
            let z = choose|z: int| 0 <= z < t.anc@[ci].len() && t.anc@[ci][z] == cj;
            assert(t.occ(t.anc@[ci][z]) && t.anc@[t.anc@[ci][z]] == t.anc@[ci].take(z));
            assert(t.anc@[cj].len() == z);
        } else if w == cj {
            assert(t.anc@[cj].contains(ci));
            let z = choose|z: int| 0 <= z < t.anc@[cj].len() && t.anc@[cj][z] == ci;
            assert(t.occ(t.anc@[cj][z]) && t.anc@[t.anc@[cj][z]] == t.anc@[cj].take(z));
            assert(t.anc@[ci].len() == z);
        } else {
            // both siblings would sit on w's path at the same position
            assert(t.anc@[w].contains(ci));
            assert(t.anc@[w].contains(cj));
            let zi = choose|zi: int| 0 <= zi < t.anc@[w].len() && t.anc@[w][zi] == ci;
            let zj = choose|zj: int| 0 <= zj < t.anc@[w].len() && t.anc@[w][zj] == cj;
            assert(t.occ(t.anc@[w][zi]) && t.anc@[t.anc@[w][zi]] == t.anc@[w].take(zi));
            assert(t.occ(t.anc@[w][zj]) && t.anc@[t.anc@[w][zj]] == t.anc@[w].take(zj));
            assert(t.anc@[ci].len() == zi);
            assert(t.anc@[cj].len() == zj);
            assert(zi == zj);
        }
    }
}

/// Every strict member of a subtree lies in the subtree of one of the
/// root's children.
proof fn lemma_desc_children_cover<T>(t: Tree<T>, k: int, j: int)
    requires
        t.inv(),
        t.occ(k),
        t.descends(j, k),
        j != k,
    ensures
        exists|ci: int|
            0 <= ci < t.kids@[k].len() && #[trigger] t.descends(j, t.kids@[k][ci]),
{
    assert(t.occ(j));
    assert(t.anc_ok(j));
    assert(t.anc@[j].contains(k));
    let la = choose|la: int| 0 <= la < t.anc@[j].len() && t.anc@[j][la] == k;
    assert(t.occ(t.anc@[j][la]) && t.anc@[t.anc@[j][la]] == t.anc@[j].take(la));
    assert(t.anc@[k] == t.anc@[j].take(la));
    assert(la == t.anc@[k].len());
    if la + 1 < t.anc@[j].len() {
        let c = t.anc@[j][la + 1];
        assert(t.occ(c) && t.anc@[c] == t.anc@[j].take(la + 1));
        assert(t.anc@[c] =~= t.anc@[k].push(k)) by {
            assert forall|z: int|
                0 <= z < la + 1 implies t.anc@[j].take(la + 1)[z]
                == t.anc@[k].push(k)[z] by {
                if z < la {
                    assert(t.anc@[j].take(la)[z] == t.anc@[j][z]);
                }
            }
        }
        assert(t.anc_ok(c));
        assert(t.rel(c).parent is Some) by {
            assert(t.anc@[c].len() > 0);
        }
        assert(t.anc@[c].last() == k);
        assert(t.kids@[k].contains(c));
        let ci = choose|ci: int| 0 <= ci < t.kids@[k].len() && t.kids@[k][ci] == c;
        assert(t.descends(j, c)) by {
            assert(t.anc@[j][la + 1] == c);
            assert(t.anc@[j].contains(c));
        }
        assert(t.descends(j, t.kids@[k][ci]));
    } else {
        // j itself is a child of k
        assert(t.anc@[j].len() == la + 1);
        assert(t.anc@[j].last() == k);
        assert(t.rel(j).parent is Some) by {
            assert(t.anc@[j].len() > 0);
        }
        assert(t.kids@[k].contains(j));
        let ci = choose|ci: int| 0 <= ci < t.kids@[k].len() && t.kids@[k][ci] == j;
        assert(t.descends(j, t.kids@[k][ci]));
    }
}

/// No occupied slot lies on its own ancestor path.
proof fn lemma_no_self_anc<T>(t: Tree<T>, k: int)
    requires
        t.inv(),
        t.occ(k),
    ensures
        !t.anc@[k].contains(k),
{
    assert(t.anc_ok(k));
    if t.anc@[k].contains(k) {
        let i = choose|i: int| 0 <= i < t.anc@[k].len() && t.anc@[k][i] == k;
        assert(t.occ(t.anc@[k][i]) && t.anc@[t.anc@[k][i]] == t.anc@[k].take(i));
        assert(t.anc@[k].len() == i);
    }
}

/// The parent of a strict descendant of `s` is itself a descendant of `s`.
proof fn lemma_parent_still_desc<T>(t: Tree<T>, s: int, k: int)
    requires
        t.inv(),
        t.occ(s),
        t.descends(k, s),
        k != s,
    ensures
        t.anc@[k].len() > 0,
        t.occ(t.anc@[k].last()),
        t.descends(t.anc@[k].last(), s),
        t.kids@[t.anc@[k].last()].contains(k),
        t.rel(k).parent == Some(t.id_of(t.anc@[k].last())),
        t.anc@[t.anc@[k].last()].len() == t.anc@[k].len() - 1,
{
    assert(t.anc_ok(k));
    let a = t.anc@[k];
    assert(a.contains(s));
    let ls = choose|i: int| 0 <= i < a.len() && a[i] == s;
    assert(t.occ(a[ls]) && t.anc@[a[ls]] == a.take(ls));
    match t.rel(k).parent {
        Some(pid) => {
            let pk = a.last();
            assert(t.occ(a[a.len() - 1]) && t.anc@[a[a.len() - 1]] == a.take(a.len() - 1));
            if ls == a.len() - 1 {
                assert(pk == s);
            } else {
                assert(a.take(a.len() - 1)[ls] == s);
                assert(t.anc@[pk].contains(s));
            }
        },
        None => {
            assert(a.len() == 0);
        },
    }
}

/// The slot key a handle points at.
pub open spec fn key_of(id: NodeId) -> int {
    id.index.key as int
}

/// Whether one of the first `upto` handles points at slot `pk`.
pub open spec fn has_key(ids: Seq<NodeId>, upto: int, pk: int) -> bool {
    exists|x: int| 0 <= x < upto && key_of(#[trigger] ids[x]) == pk
}

/// Whether one of the handles from position `lo` on points at slot `k`.
pub open spec fn has_key_from(ids: Seq<NodeId>, lo: int, k: int) -> bool {
    exists|x: int| lo <= x < ids.len() && key_of(#[trigger] ids[x]) == k
}

/// The depth of the node a handle points at: the length of its ancestor
/// path.
pub open spec fn depth_of<T>(t: Tree<T>, id: NodeId) -> int {
    t.anc@[key_of(id)].len() as int
}

/// Whether the handles come shallowest first: no node precedes one of a
/// smaller depth.
pub open spec fn depths_sorted<T>(t: Tree<T>, ids: Seq<NodeId>) -> bool {
    forall|x: int, y: int|
        0 <= x < y < ids.len() ==> depth_of(t, #[trigger] ids[x]) <= depth_of(
            t,
            #[trigger] ids[y],
        )
}

/// Whether the children of slot `pk` appear at positions `base ..` of `ids`,
/// in sibling-chain order.
pub open spec fn children_block<T>(t: Tree<T>, ids: Seq<NodeId>, pk: int, base: int) -> bool {
    &&& 0 <= base
    &&& base + t.kids@[pk].len() <= ids.len()
    &&& forall|ci: int|
        0 <= ci < t.kids@[pk].len() ==> ids[base + ci] == t.id_of(#[trigger] t.kids@[pk][ci])
}

/// Whether the children of slot `pk` appear somewhere after position `x`
/// as one contiguous block in sibling-chain order.
pub open spec fn has_block<T>(t: Tree<T>, ids: Seq<NodeId>, pk: int, x: int) -> bool {
    exists|base: int| x < base && #[trigger] children_block(t, ids, pk, base)
}

/// Whether, for each of the first `upto` handles, the children of its node
/// appear later as one contiguous block in sibling-chain order.
pub open spec fn sibling_blocks<T>(t: Tree<T>, ids: Seq<NodeId>, upto: int) -> bool {
    forall|x: int|
        #![trigger ids[x]]
        0 <= x < upto ==> has_block(t, ids, key_of(ids[x]), x)
}

/// Whether, before position `x` and below `bound`, some handle points at
/// the parent slot of the handle at `x`.
pub open spec fn parent_seen<T>(t: Tree<T>, ids: Seq<NodeId>, bound: int, x: int) -> bool {
    exists|y: int|
        0 <= y < bound && y < x && key_of(#[trigger] ids[y]) == t.anc@[key_of(ids[x])].last()
}

/// Whether every child of each of the first `upto` slots appears somewhere
/// in `ids`.
pub open spec fn closed_upto<T>(t: Tree<T>, ids: Seq<NodeId>, upto: int) -> bool {
    forall|pk: int, ci: int|
        #![trigger t.kids@[pk][ci]]
        has_key(ids, upto, pk) && t.occ(pk) && 0 <= ci < t.kids@[pk].len() ==> has_key(
            ids,
            ids.len() as int,
            t.kids@[pk][ci],
        )
}

/// Every descendant of `s` appears among handles that start at `s` and are
/// closed under children.
proof fn lemma_desc_reached<T>(t: Tree<T>, s: int, ids: Seq<NodeId>, k: int)
    requires
        t.inv(),
        t.occ(s),
        ids.len() >= 1,
        key_of(ids[0]) == s,
        closed_upto(t, ids, ids.len() as int),
        t.descends(k, s),
    ensures
        has_key(ids, ids.len() as int, k),
    decreases t.anc@[k].len(),
{
    if k == s {
        assert(key_of(ids[0]) == k);
        assert(has_key(ids, ids.len() as int, k));
    } else {
        lemma_parent_still_desc(t, s, k);
        let pk = t.anc@[k].last();
        lemma_desc_reached(t, s, ids, pk);
        assert(t.kids@[pk].contains(k));
        let ci = choose|ci: int| 0 <= ci < t.kids@[pk].len() && t.kids@[pk][ci] == k;
        assert(t.kids@[pk][ci] == k);
        assert(has_key(ids, ids.len() as int, t.kids@[pk][ci]));
    }
}

/// Distinct keys, each a descendant of `s`, cannot outnumber the subtree.
proof fn lemma_nodup_keys_bound<T>(t: Tree<T>, s: int, ids: Seq<NodeId>)
    requires
        t.inv(),
        forall|x: int| 0 <= x < ids.len() ==> t.descends(key_of(#[trigger] ids[x]), s),
        forall|x: int, y: int|
            0 <= x < y < ids.len() ==> key_of(#[trigger] ids[x]) != key_of(#[trigger] ids[y]),
    ensures
        ids.len() <= t.desc_set(s).len(),
        t.desc_set(s).finite(),
{
    lemma_desc_finite(t, s);
    let keys = ids.map(|x: int, id: NodeId| key_of(id));
    assert(keys.no_duplicates());
    keys.unique_seq_to_set();
    assert(keys.to_set().subset_of(t.desc_set(s))) by {
        assert forall|k: int| keys.to_set().contains(k) implies t.desc_set(s).contains(k) by {
            let x = choose|x: int| 0 <= x < keys.len() && keys[x] == k;
            assert(t.descends(key_of(ids[x]), s));
        }
    }
    vstd::set_lib::lemma_len_subset(keys.to_set(), t.desc_set(s));
}

/// With every descendant present, distinct keys fill the subtree exactly.
proof fn lemma_visit_exact_keys<T>(t: Tree<T>, s: int, ids: Seq<NodeId>)
    requires
        t.inv(),
        forall|x: int| 0 <= x < ids.len() ==> t.descends(key_of(#[trigger] ids[x]), s),
        forall|x: int, y: int|
            0 <= x < y < ids.len() ==> key_of(#[trigger] ids[x]) != key_of(#[trigger] ids[y]),
        forall|k: int| #[trigger] t.descends(k, s) ==> has_key(ids, ids.len() as int, k),
    ensures
        ids.len() == t.desc_set(s).len(),
{
    lemma_nodup_keys_bound(t, s, ids);
    let keys = ids.map(|x: int, id: NodeId| key_of(id));
    assert(keys.no_duplicates());
    keys.unique_seq_to_set();
    assert(keys.to_set() =~= t.desc_set(s)) by {
        assert forall|k: int| keys.to_set().contains(k) implies t.desc_set(s).contains(k) by {
            let x = choose|x: int| 0 <= x < keys.len() && keys[x] == k;
            assert(t.descends(key_of(ids[x]), s));
        }
        assert forall|k: int| t.desc_set(s).contains(k) implies keys.to_set().contains(k) by {
            assert(t.descends(k, s));
            let x = choose|x: int| 0 <= x < ids.len() && key_of(ids[x]) == k;
            assert(keys[x] == k);
        }
    }
}

} // verus!
