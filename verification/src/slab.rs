//! The arena: a growable slot table with a free list and a generation
//! counter. A freed slot is only reused after the generation counter has
//! been incremented, so a handle created before the free can never again
//! resolve to the reused slot.

use vstd::prelude::*;
use vstd::set_lib::{lemma_int_range, lemma_len_subset, set_int_range};

use crate::node::{Node, Relatives};

verus! {

/// Identifies a slot together with the generation it was stamped with.
#[derive(Debug, Clone, Copy, PartialEq, Eq, Hash, Structural)]
pub struct SlabIndex {
    pub key: usize,
    pub generation: usize,
}

impl SlabIndex {
    pub fn new(key: usize, generation: usize) -> (r: Self)
        ensures
            r.key == key,
            r.generation == generation,
    {
        SlabIndex { key, generation }
    }
}

/// One slot of the table: vacant (holding the next free slot) or occupied.
pub enum SlabEntry<T> {
    Vacant { next: usize },
    Occupied { node: Node<T> },
}

/// The slot table. Vacant slots form a singly-linked free stack headed at
/// `next_free`; `free` is the ghost image of that stack, in order.
pub struct Slab<T> {
    pub entries: Vec<SlabEntry<T>>,
    pub next_free: usize,
    pub count: usize,
    pub generation: usize,
    pub cap: usize,
    pub free: Ghost<Seq<int>>,
}

impl<T> Slab<T> {
    /// Number of slots in the table.
    pub open spec fn n(self) -> int {
        self.entries@.len() as int
    }

    /// Whether slot `k` is occupied.
    pub open spec fn occ(self, k: int) -> bool {
        0 <= k < self.n() && self.entries@[k] is Occupied
    }

    /// The node stored at slot `k` (meaningful when `occ(k)`).
    pub open spec fn node_at(self, k: int) -> Node<T> {
        self.entries@[k]->node
    }

    /// Whether a handle resolves: its slot is occupied and the stored
    /// generation equals the handle's generation.
    pub open spec fn resolves(self, index: SlabIndex) -> bool {
        self.occ(index.key as int) && self.node_at(index.key as int).generation
            == index.generation
    }

    /// A handle is stale when its generation is below the current counter
    /// and it does not resolve. Once a handle is stale it stays stale: no
    /// later insert can reoccupy its slot with a matching generation.
    pub open spec fn stale(self, index: SlabIndex) -> bool {
        (index.generation as int) < self.generation && !self.resolves(index)
    }

    /// `other` differs from `self` at most in the payload stored at slot
    /// `key`: same table shape, links, generations and counters.
    pub open spec fn payload_update(self, other: Slab<T>, key: int) -> bool {
        &&& other.next_free == self.next_free
        &&& other.count == self.count
        &&& other.generation == self.generation
        &&& other.cap == self.cap
        &&& other.free@ == self.free@
        &&& other.entries@ == self.entries@.update(
            key,
            SlabEntry::Occupied {
                node: Node {
                    relatives: self.node_at(key).relatives,
                    data: other.entries@[key]->node.data,
                    generation: self.node_at(key).generation,
                },
            },
        )
    }

    /// The slot a subsequent insert would use.
    pub open spec fn next_key(self) -> int {
        if self.free@.len() == 0 {
            self.n()
        } else {
            self.free@[0]
        }
    }

    /// The free stack is a duplicate-free list of exactly the vacant slots,
    /// chained through their `next` fields and headed at `next_free`.
    pub open spec fn free_wf(self) -> bool {
        let fr = self.free@;
        let n = self.n();
        &&& forall|j: int| 0 <= j < fr.len() ==> 0 <= #[trigger] fr[j] < n
        &&& forall|j: int|
            0 <= j < fr.len() ==> self.entries@[#[trigger] fr[j]] is Vacant
        &&& forall|j: int|
            0 <= j < fr.len() ==> (self.entries@[#[trigger] fr[j]])->next as int == (
            if j + 1 < fr.len() {
                fr[j + 1]
            } else {
                n
            })
        &&& forall|k: int|
            0 <= k < n && (#[trigger] self.entries@[k]) is Vacant ==> fr.contains(k)
        &&& fr.no_duplicates()
        &&& self.next_free as int == if fr.len() == 0 {
            n
        } else {
            fr[0]
        }
    }

    /// Full well-formedness: free stack valid, `count` counts the occupied
    /// slots, and no stored generation exceeds the current counter.
    pub open spec fn wf(self) -> bool {
        &&& self.free_wf()
        &&& self.n() <= usize::MAX
        &&& self.count as int == self.n() - self.free@.len()
        &&& forall|k: int| #[trigger] self.occ(k) ==> self.node_at(k).generation
            <= self.generation
    }

    pub fn new() -> (r: Self)
        ensures
            r.wf(),
            r.n() == 0,
            r.count == 0,
            r.generation == 0,
            r.cap == 0,
            r.free@ == Seq::<int>::empty(),
    {
        Slab {
            entries: Vec::new(),
            next_free: 0,
            count: 0,
            generation: 0,
            cap: 0,
            free: Ghost(Seq::empty()),
        }
    }

    pub fn with_capacity(capacity: usize) -> (r: Self)
        ensures
            r.wf(),
            r.n() == 0,
            r.count == 0,
            r.generation == 0,
            r.cap == capacity,
            r.free@ == Seq::<int>::empty(),
    {
        Slab {
            entries: Vec::with_capacity(capacity),
            next_free: 0,
            count: 0,
            generation: 0,
            cap: capacity,
            free: Ghost(Seq::empty()),
        }
    }

    /// The current generation counter.
    pub fn generation(&self) -> (r: usize)
        ensures
            r == self.generation,
    {
        self.generation
    }

    /// The number of slots the table is sized for.
    pub fn capacity(&self) -> (r: usize)
        ensures
            r == self.cap,
    {
        self.cap
    }

    /// The number of occupied slots.
    pub fn len(&self) -> (r: usize)
        ensures
            r == self.count,
    {
        self.count
    }

    /// The index a subsequent `insert` will return.
    pub fn next_index(&self) -> (r: SlabIndex)
        requires
            self.wf(),
        ensures
            r.key as int == self.next_key(),
            r.generation == self.generation,
    {
        SlabIndex::new(self.next_free, self.generation)
    }

    /// Places `node` in a vacant slot (reusing the most recently freed slot
    /// if any, else growing the table) and returns its handle.
    pub fn insert(&mut self, node: Node<T>) -> (r: SlabIndex)
        requires
            old(self).wf(),
            node.generation == old(self).generation,
        ensures
            final(self).wf(),
            r.key as int == old(self).next_key(),
            r.generation == old(self).generation,
            final(self).generation == old(self).generation,
            final(self).count == old(self).count + 1,
            final(self).n() == if old(self).free@.len() == 0 {
                old(self).n() + 1
            } else {
                old(self).n()
            },
            !old(self).occ(r.key as int),
            final(self).resolves(r),
            final(self).node_at(r.key as int) == node,
            forall|k: int|
                0 <= k < final(self).n() && k != r.key as int ==> (#[trigger] final(self).occ(k)
                    <==> old(self).occ(k)),
            forall|k: int|
                old(self).occ(k) && k != r.key as int
                    ==> #[trigger] final(self).node_at(k) == old(self).node_at(k),
            forall|h: SlabIndex| #[trigger] old(self).stale(h) ==> final(self).stale(h),
    {
        let key: usize = self.next_free;
        if key == self.entries.len() {
            // free stack is empty: grow the table
            proof {
                if self.free@.len() > 0 {
                    assert(self.free@[0] < self.n());
                }
            }
            self.entries.push(SlabEntry::Occupied { node });
            self.next_free = self.entries.len();
            self.count = self.count + 1;
            if self.cap < self.entries.len() {
                self.cap = self.entries.len();
            }
            proof {
                assert forall|k: int| #[trigger] self.occ(k) implies self.node_at(k).generation
                    <= self.generation by {
                    if k != key as int {
                        assert(old(self).occ(k));
                    }
                }
                assert forall|h: SlabIndex| #[trigger] old(self).stale(h) implies self.stale(
                    h,
                ) by {
                    if h.key == key {
                        assert(self.node_at(key as int).generation == old(self).generation);
                    } else {
                        if self.occ(h.key as int) {
                            assert(old(self).occ(h.key as int));
                            assert(self.node_at(h.key as int) == old(self).node_at(h.key as int));
                        }
                    }
                }
            }
            SlabIndex::new(key, self.generation)
        } else {
            // reuse the head of the free stack
            proof {
                assert(self.free@.len() > 0);
                assert(self.free@[0] == key as int);
            }
            let next = match &self.entries[key] {
                SlabEntry::Vacant { next } => *next,
                SlabEntry::Occupied { .. } => vstd::pervasive::unreached(),
            };
            self.entries[key] = SlabEntry::Occupied { node };
            self.next_free = next;
            self.count = self.count + 1;
            proof {
                let fr0 = self.free@;
                self.free@ = self.free@.drop_first();
                let fr = self.free@;
                assert forall|k: int|
                    0 <= k < self.n() && (#[trigger] self.entries@[k]) is Vacant
                    implies fr.contains(k) by {
                    assert(fr0.contains(k));
                    let j = choose|j: int| 0 <= j < fr0.len() && fr0[j] == k;
                    assert(j != 0);
                    assert(fr[j - 1] == k);
                }
            }
            proof {
                assert forall|k: int| #[trigger] self.occ(k) implies self.node_at(k).generation
                    <= self.generation by {
                    if k != key as int {
                        assert(old(self).occ(k));
                    }
                }
                assert forall|h: SlabIndex| #[trigger] old(self).stale(h) implies self.stale(
                    h,
                ) by {
                    if h.key == key {
                        assert(self.node_at(key as int).generation == old(self).generation);
                    } else {
                        if self.occ(h.key as int) {
                            assert(old(self).occ(h.key as int));
                            assert(self.node_at(h.key as int) == old(self).node_at(h.key as int));
                        }
                    }
                }
            }
            SlabIndex::new(key, self.generation)
        }
    }

    /// Resolves a handle to its node, or `None` if the slot is vacant or the
    /// generation does not match (a stale handle).
    pub fn try_get(&self, index: SlabIndex) -> (r: Option<&Node<T>>)
        ensures
            match r {
                Some(node) => self.resolves(index) && *node == self.node_at(
                    index.key as int,
                ),
                None => !self.resolves(index),
            },
    {
        if index.key >= self.entries.len() {
            return None;
        }
        match &self.entries[index.key] {
            SlabEntry::Occupied { node } => {
                if node.generation == index.generation {
                    Some(node)
                } else {
                    None
                }
            },
            SlabEntry::Vacant { .. } => None,
        }
    }

    /// Like `try_get`, but grants mutable access to the node. The caller may
    /// change any field, so well-formedness is only kept when the stored
    /// generation is left alone; verified callers go through narrower
    /// operations instead.
    pub fn try_get_mut(&mut self, index: SlabIndex) -> (r: Option<&mut Node<T>>)
        ensures
            match r {
                Some(node) => {
                    &&& old(self).resolves(index)
                    &&& *node == old(self).node_at(index.key as int)
                    &&& final(self).entries@ == old(self).entries@.update(
                        index.key as int,
                        SlabEntry::Occupied { node: *final(node) },
                    )
                    &&& final(self).next_free == old(self).next_free
                    &&& final(self).count == old(self).count
                    &&& final(self).generation == old(self).generation
                    &&& final(self).cap == old(self).cap
                    &&& final(self).free@ == old(self).free@
                },
                None => !old(self).resolves(index) && *final(self) == *old(self),
            },
    {
        if index.key >= self.entries.len() {
            return None;
        }
        let matches_generation = match &self.entries[index.key] {
            SlabEntry::Occupied { node } => node.generation == index.generation,
            SlabEntry::Vacant { .. } => false,
        };
        if !matches_generation {
            return None;
        }
        match &mut self.entries[index.key] {
            SlabEntry::Occupied { node } => Some(node),
            SlabEntry::Vacant { .. } => vstd::pervasive::unreached(),
        }
    }

    /// Mutable access to the payload of a resolving handle. Links and the
    /// stored generation cannot change through the returned reference.
    #[verifier::rlimit(100)]
    pub fn data_mut(&mut self, index: SlabIndex) -> (r: &mut T)
        requires
            old(self).wf(),
            old(self).resolves(index),
        ensures
            *r == old(self).node_at(index.key as int).data,
            old(self).payload_update(*final(self), index.key as int),
            old(self).payload_update(*final(self), index.key as int) ==> final(self).wf() && (
            forall|h: SlabIndex| #[trigger] old(self).stale(h) ==> final(self).stale(h)),
            final(self).n() == old(self).n(),
            final(self).count == old(self).count,
            final(self).generation == old(self).generation,
            final(self).cap == old(self).cap,
            final(self).next_free == old(self).next_free,
            final(self).free@ == old(self).free@,
            final(self).resolves(index),
            final(self).node_at(index.key as int).data == *final(r),
            final(self).node_at(index.key as int).relatives == old(self).node_at(
                index.key as int,
            ).relatives,
            final(self).node_at(index.key as int).generation == old(self).node_at(
                index.key as int,
            ).generation,
            forall|k: int|
                0 <= k < old(self).n() ==> (#[trigger] final(self).occ(k) <==> old(self).occ(k)),
            forall|k: int|
                old(self).occ(k) && k != index.key as int ==> #[trigger] final(self).node_at(k)
                    == old(self).node_at(k),
    {
        proof {
            assert forall|other: Slab<T>|
                #[trigger] old(self).payload_update(other, index.key as int) implies other.wf()
                && (forall|h: SlabIndex| #[trigger] old(self).stale(h) ==> other.stale(h)) by {
                lemma_payload_update_wf(*old(self), other, index.key as int);
            }
        }
        match &mut self.entries[index.key] {
            SlabEntry::Occupied { node } => &mut node.data,
            SlabEntry::Vacant { .. } => vstd::pervasive::unreached(),
        }
    }

    /// Overwrites the relative links of a resolving handle.
    pub fn set_relatives(&mut self, index: SlabIndex, relatives: Relatives)
        requires
            old(self).wf(),
            old(self).resolves(index),
        ensures
            final(self).wf(),
            final(self).n() == old(self).n(),
            final(self).count == old(self).count,
            final(self).generation == old(self).generation,
            final(self).cap == old(self).cap,
            final(self).next_free == old(self).next_free,
            final(self).free@ == old(self).free@,
            final(self).resolves(index),
            final(self).node_at(index.key as int).data == old(self).node_at(
                index.key as int,
            ).data,
            final(self).node_at(index.key as int).relatives == relatives,
            final(self).node_at(index.key as int).generation == old(self).node_at(
                index.key as int,
            ).generation,
            forall|k: int|
                0 <= k < old(self).n() ==> (#[trigger] final(self).occ(k) <==> old(self).occ(k)),
            forall|k: int|
                old(self).occ(k) && k != index.key as int ==> #[trigger] final(self).node_at(k)
                    == old(self).node_at(k),
            forall|h: SlabIndex| #[trigger] old(self).stale(h) ==> final(self).stale(h),
    {
        match &mut self.entries[index.key] {
            SlabEntry::Occupied { node } => {
                node.relatives = relatives;
            },
            SlabEntry::Vacant { .. } => {
                vstd::pervasive::unreached::<()>();
            },
        }
        proof {
            let key = index.key as int;
            assert(self.entries@[key] is Occupied);
            assert(forall|k: int|
                0 <= k < self.n() && k != key ==> self.entries@[k] == old(self).entries@[k]);
            assert forall|j: int|
                0 <= j < self.free@.len() implies self.entries@[#[trigger] self.free@[j]]
                == old(self).entries@[self.free@[j]] by {
                assert(old(self).entries@[self.free@[j]] is Vacant);
            }
            assert forall|k: int| #[trigger] self.occ(k) implies self.node_at(k).generation
                <= self.generation by {
                assert(old(self).occ(k));
                if k != key {
                    assert(self.node_at(k) == old(self).node_at(k));
                }
            }
            assert forall|h: SlabIndex| #[trigger] old(self).stale(h) implies self.stale(h) by {
                if h.key as int == key {
                    assert(self.node_at(key).generation == old(self).node_at(key).generation);
                } else {
                    if self.occ(h.key as int) {
                        assert(old(self).occ(h.key as int));
                        assert(self.node_at(h.key as int) == old(self).node_at(h.key as int));
                    }
                }
            }
        }
    }

    /// Whether a handle resolves.
    pub fn contains(&self, index: SlabIndex) -> (r: bool)
        ensures
            r == self.resolves(index),
    {
        self.try_get(index).is_some()
    }

    /// If the handle resolves: vacates its slot, increments the generation
    /// counter, and returns the removed node. Otherwise leaves the table
    /// unchanged and returns `None`.
    #[verifier::rlimit(60)]
    pub fn try_remove(&mut self, index: SlabIndex) -> (r: Option<Node<T>>)
        requires
            old(self).wf(),
            old(self).generation < usize::MAX,
        ensures
            final(self).wf(),
            match r {
                Some(node) => {
                    &&& old(self).resolves(index)
                    &&& node == old(self).node_at(index.key as int)
                    &&& final(self).generation == old(self).generation + 1
                    &&& final(self).count == old(self).count - 1
                    &&& final(self).n() == old(self).n()
                    &&& !final(self).occ(index.key as int)
                    &&& index.generation < final(self).generation
                    &&& final(self).stale(index)
                    &&& forall|k: int|
                        0 <= k < old(self).n() && k != index.key as int ==> (
                        #[trigger] final(self).occ(k) <==> old(self).occ(k))
                    &&& forall|k: int|
                        old(self).occ(k) && k != index.key as int
                            ==> #[trigger] final(self).node_at(k) == old(self).node_at(k)
                },
                None => !old(self).resolves(index) && *final(self) == *old(self),
            },
            forall|h: SlabIndex| #[trigger] old(self).stale(h) ==> final(self).stale(h),
    {
        if index.key >= self.entries.len() {
            return None;
        }
        let matches_generation = match &self.entries[index.key] {
            SlabEntry::Occupied { node } => node.generation == index.generation,
            SlabEntry::Vacant { .. } => false,
        };
        if !matches_generation {
            return None;
        }
        proof {
            lemma_occupied_bounds_free(*self, index.key as int);
        }
        let mut entry: SlabEntry<T> = SlabEntry::Vacant { next: self.next_free };
        core::mem::swap(&mut self.entries[index.key], &mut entry);
        self.next_free = index.key;
        self.generation = self.generation + 1;
        self.count = self.count - 1;
        proof {
            let fr0 = self.free@;
            let key = index.key as int;
            assert(!fr0.contains(key)) by {
                if fr0.contains(key) {
                    let j = choose|j: int| 0 <= j < fr0.len() && fr0[j] == key;
                    assert(old(self).entries@[fr0[j]] is Vacant);
                }
            }
            self.free@ = seq![key] + fr0;
            let fr = self.free@;
            assert(fr[0] == key);
            assert(forall|j: int| 1 <= j < fr.len() ==> fr[j] == fr0[j - 1]);
            assert(self.entries@ == old(self).entries@.update(
                key,
                SlabEntry::Vacant { next: old(self).next_free },
            ));
            assert(fr.no_duplicates());
            assert forall|k: int|
                0 <= k < self.n() && (#[trigger] self.entries@[k]) is Vacant
                implies fr.contains(k) by {
                if k == key {
                    assert(fr[0] == k);
                } else {
                    assert(old(self).entries@[k] is Vacant);
                    assert(fr0.contains(k));
                    let j = choose|j: int| 0 <= j < fr0.len() && fr0[j] == k;
                    assert(fr[j + 1] == k);
                }
            }
            assert forall|j: int|
                0 <= j < fr.len() implies (self.entries@[#[trigger] fr[j]])->next as int == (
                if j + 1 < fr.len() {
                    fr[j + 1]
                } else {
                    self.n()
                }) by {
                if j == 0 {
                    assert(self.entries@[key]->next == old(self).next_free);
                } else {
                    assert(fr[j] == fr0[j - 1]);
                    assert(fr0[j - 1] != key);
                }
            }
            assert forall|k: int| #[trigger] self.occ(k) implies self.node_at(k).generation
                <= self.generation by {
                assert(old(self).occ(k));
            }
            assert forall|h: SlabIndex| #[trigger] old(self).stale(h) implies self.stale(h) by {
                if h.key as int != key && self.occ(h.key as int) {
                    assert(old(self).occ(h.key as int));
                    assert(self.node_at(h.key as int) == old(self).node_at(h.key as int));
                }
            }
        }
        let removed = match entry {
            SlabEntry::Occupied { node } => node,
            SlabEntry::Vacant { .. } => vstd::pervasive::unreached(),
        };
        proof {
            assert(removed == old(self).node_at(index.key as int));
            assert(old(self).resolves(index));
            assert(self.generation == old(self).generation + 1);
            assert(self.count == old(self).count - 1);
            assert(!self.occ(index.key as int));
        }
        Some(removed)
    }
}

/// A payload-only update at an occupied slot keeps the table well formed
/// and every stale handle stale.
proof fn lemma_payload_update_wf<T>(s0: Slab<T>, s1: Slab<T>, key: int)
    requires
        s0.wf(),
        s0.occ(key),
        s0.payload_update(s1, key),
    ensures
        s1.wf(),
        forall|h: SlabIndex| #[trigger] s0.stale(h) ==> s1.stale(h),
{
    assert(s1.n() == s0.n());
    assert(s1.entries@[key] is Occupied);
    assert(forall|k: int| 0 <= k < s1.n() && k != key ==> s1.entries@[k] == s0.entries@[k]);
    assert forall|j: int|
        0 <= j < s1.free@.len() implies s1.entries@[#[trigger] s1.free@[j]] == s0.entries@[s1.free@[j]] by {
        assert(s0.entries@[s0.free@[j]] is Vacant);
    }
    assert forall|k: int| #[trigger] s1.occ(k) implies s1.node_at(k).generation
        <= s1.generation by {
        assert(s0.occ(k));
        if k != key {
            assert(s1.node_at(k) == s0.node_at(k));
        }
    }
    assert forall|h: SlabIndex| #[trigger] s0.stale(h) implies s1.stale(h) by {
        if h.key as int == key {
            assert(s1.node_at(key).generation == s0.node_at(key).generation);
        } else {
            if s1.occ(h.key as int) {
                assert(s0.occ(h.key as int));
                assert(s1.node_at(h.key as int) == s0.node_at(h.key as int));
            }
        }
    }
}

/// Two finite sets with no common element have additive cardinality.
pub(crate) proof fn lemma_disjoint_union_len<A>(s1: Set<A>, s2: Set<A>)
    requires
        s1.finite(),
        s2.finite(),
        forall|a: A| !(#[trigger] s1.contains(a) && s2.contains(a)),
    ensures
        s1.union(s2).len() == s1.len() + s2.len(),
    decreases s1.len(),
{
    if s1.is_empty() {
        assert(s1.union(s2) =~= s2);
    } else {
        let a = s1.choose();
        assert(s1.contains(a));
        assert(!s2.contains(a));
        assert(s1.union(s2).remove(a) =~= s1.remove(a).union(s2));
        lemma_disjoint_union_len(s1.remove(a), s2);
        assert(s1.union(s2).contains(a));
    }
}

/// `count` is exactly the number of occupied slots.
pub proof fn lemma_count_is_card<T>(s: Slab<T>)
    requires
        s.wf(),
    ensures
        Set::new(|k: int| s.occ(k)).finite(),
        s.count as int == Set::new(|k: int| s.occ(k)).len(),
{
    let occ_set = Set::new(|k: int| s.occ(k));
    let vac_set = Set::new(|k: int| 0 <= k < s.n() && s.entries@[k] is Vacant);
    let range = set_int_range(0, s.n());
    lemma_int_range(0, s.n());
    assert(occ_set.subset_of(range));
    assert(vac_set.subset_of(range));
    lemma_len_subset(occ_set, range);
    lemma_len_subset(vac_set, range);
    s.free@.unique_seq_to_set();
    assert(vac_set =~= s.free@.to_set()) by {
        assert forall|k: int| vac_set.contains(k) implies s.free@.to_set().contains(k) by {
            assert(s.free@.contains(k));
        }
        assert forall|k: int| s.free@.to_set().contains(k) implies vac_set.contains(k) by {
            let j = choose|j: int| 0 <= j < s.free@.len() && s.free@[j] == k;
            assert(s.entries@[s.free@[j]] is Vacant);
        }
    }
    assert(range =~= occ_set.union(vac_set)) by {
        assert forall|k: int| range.contains(k) implies occ_set.union(vac_set).contains(k) by {
            if s.entries@[k] is Occupied {
                assert(occ_set.contains(k));
            } else {
                assert(vac_set.contains(k));
            }
        }
    }
    lemma_disjoint_union_len(occ_set, vac_set);
}

/// When some slot is occupied, the free stack is strictly shorter than the
/// table, so the occupied count is at least one.
proof fn lemma_occupied_bounds_free<T>(s: Slab<T>, k: int)
    requires
        s.free_wf(),
        s.occ(k),
    ensures
        s.free@.len() < s.n(),
{
    let fr = s.free@;
    fr.unique_seq_to_set();
    let range = set_int_range(0, s.n());
    lemma_int_range(0, s.n());
    let without = range.remove(k);
    assert(fr.to_set().subset_of(without)) by {
        assert forall|x: int| fr.to_set().contains(x) implies without.contains(x) by {
            let j = choose|j: int| 0 <= j < fr.len() && fr[j] == x;
            assert(s.entries@[x] is Vacant);
        }
    }
    lemma_len_subset(fr.to_set(), without);
    assert(without.len() == s.n() - 1) by {
        assert(range.contains(k));
    }
}

/// Stale-handle rejection: a handle the table has marked stale never
/// resolves, whatever now occupies its slot. Every mutating operation
/// promises in its contract that stale handles stay stale, and `try_remove`
/// promises that a removed handle comes out stale, so a removed handle can
/// never again be confused with a later occupant of the same slot.
pub proof fn lemma_stale_handle_rejection<T>(s: Slab<T>, index: SlabIndex)
    requires
        s.stale(index),
    ensures
        !s.resolves(index),
        s.occ(index.key as int) ==> s.node_at(index.key as int).generation != index.generation,
{
}

} // verus!