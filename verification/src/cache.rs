//! The cache itself: arena, hash index and recency links.

use std::collections::HashMap;
use vstd::prelude::*;
use vstd::std_specs::hash::obeys_key_model;
use crate::model::{after_get, after_put, distinct_keys, has_key, lookup, move_to_front, position};

verus! {

broadcast use vstd::std_specs::hash::group_hash_axioms;

/// The slot number that stands for "no neighbour".
const NIL: usize = usize::MAX;

/// What a key type has to provide: hashing and equality that agree with
/// each other, and a `clone` that returns an equal key.
pub open spec fn key_model<K: Clone>() -> bool {
    &&& obeys_key_model::<K>()
    &&& forall|a: K, b: K| #[trigger] cloned::<K>(a, b) ==> a == b
}

/// A second copy of `key`.
fn clone_key<K: Clone>(key: &K) -> (copy: K)
    requires
        key_model::<K>(),
    ensures
        copy == *key,
{
    let copy = key.clone();
    assert(cloned::<K>(*key, copy));
    copy
}

/// An entry of the cache, which is a node of the recency order as well.
struct CacheValue<K, V> {
    key: K,
    value: V,
    prev: usize,
    next: usize,
}

impl<K, V> CacheValue<K, V> {
    /// An entry that is linked to nothing yet.
    fn new(key: K, value: V) -> (node: CacheValue<K, V>)
        ensures
            node.key == key,
            node.value == value,
            node.prev == NIL,
            node.next == NIL,
    {
        CacheValue { key, value, prev: NIL, next: NIL }
    }
}

/// Moving one element of a sequence without repetitions to the front
/// neither adds nor loses an element.
proof fn lemma_rotate(s: Seq<usize>, i: int)
    requires
        0 <= i < s.len(),
        s.no_duplicates(),
    ensures
        !s.remove(i).contains(s[i]),
        s.index_of(s[i]) == i,
        forall|x: usize| (seq![s[i]] + s.remove(i)).contains(x) == s.contains(x),
{
    let r = s.remove(i);
    let t = seq![s[i]] + r;
    assert forall|j: int| 0 <= j < r.len() implies r[j] != s[i] by {
        let j0 = if j < i { j } else { j + 1 };
        assert(r[j] == s[j0]);
    }
    assert forall|x: usize| t.contains(x) == s.contains(x) by {
        if s.contains(x) {
            let p = s.index_of(x);
            assert(s[p] == x);
            let q = if p == i { 0 } else if p < i { p + 1 } else { p };
            assert(t[q] == x);
        }
        if t.contains(x) {
            let q = t.index_of(x);
            assert(t[q] == x);
            let p = if q == 0 { i } else if q - 1 < i { q - 1 } else { q };
            assert(s[p] == x);
        }
    }
}

/// The index and the recency order, which change together.
struct LRUCacheData<K, V> {
    /// Key to slot, for every live entry.
    map: HashMap<K, usize>,
    /// The arena. A slot is live (in `order`), vacant (in `free`) or, inside
    /// an operation, detached.
    nodes: Vec<CacheValue<K, V>>,
    /// Vacant slots: a slot that an eviction has emptied waits here for the
    /// insertion that follows it.
    free: Vec<usize>,
    /// Slot of the most recently used entry, or `NIL`.
    head: usize,
    /// Slot of the least recently used entry, or `NIL`.
    tail: usize,
    /// The live slots, most recently used first.
    order: Ghost<Seq<usize>>,
}

impl<K, V> LRUCacheData<K, V> {
    /// The links of the live nodes spell out `order`.
    spec fn links_wf(&self) -> bool {
        let order = self.order@;
        let n = order.len();
        &&& order.no_duplicates()
        &&& forall|i: int| 0 <= i < n ==> (#[trigger] order[i]) < self.nodes.len()
        &&& forall|i: int|
            0 <= i < n ==> (#[trigger] self.nodes[order[i] as int]).prev == (if i == 0 {
                NIL
            } else {
                order[i - 1]
            })
        &&& forall|i: int|
            0 <= i < n ==> (#[trigger] self.nodes[order[i] as int]).next == (if i == n - 1 {
                NIL
            } else {
                order[i + 1]
            })
        &&& self.head == (if n == 0 {
            NIL
        } else {
            order[0]
        })
        &&& self.tail == (if n == 0 {
            NIL
        } else {
            order[n - 1]
        })
    }

    /// The index holds exactly the keys of the live nodes, each with its slot.
    spec fn index_wf(&self) -> bool {
        let order = self.order@;
        &&& self.map@.len() == order.len()
        &&& forall|k: K| #[trigger]
            self.map@.contains_key(k) ==> order.contains(self.map@[k])
                && self.nodes[self.map@[k] as int].key == k
        &&& forall|i: int|
            0 <= i < order.len() ==> self.map@.contains_key(
                self.nodes[(#[trigger] order[i]) as int].key,
            ) && self.map@[self.nodes[order[i] as int].key] == order[i]
    }

    /// The vacant slots are slots of the arena, and none of them is live.
    spec fn free_wf(&self) -> bool {
        &&& self.free@.no_duplicates()
        &&& forall|j: int|
            0 <= j < self.free.len() ==> (#[trigger] self.free[j]) < self.nodes.len()
                && !self.order@.contains(self.free[j])
    }

    /// The entries in recency order, most recently used first.
    spec fn entries(&self) -> Seq<(K, V)> {
        Seq::new(
            self.order@.len(),
            |i: int| (self.nodes[self.order@[i] as int].key, self.nodes[self.order@[i] as int].value),
        )
    }

    /// `other` has the same index, the same vacant slots and the same key and
    /// value in every slot.
    spec fn same_payload(&self, other: &Self) -> bool {
        &&& self.map == other.map
        &&& self.free == other.free
        &&& self.nodes.len() == other.nodes.len()
        &&& forall|j: int|
            0 <= j < self.nodes.len() ==> (#[trigger] self.nodes[j]).key == other.nodes[j].key
                && self.nodes[j].value == other.nodes[j].value
    }

    /// Takes the node in `slot` out of the recency order.
    fn unlink(&mut self, slot: usize)
        requires
            old(self).links_wf(),
            old(self).order@.contains(slot),
        ensures
            final(self).links_wf(),
            final(self).order@ == old(self).order@.remove(old(self).order@.index_of(slot)),
            final(self).same_payload(old(self)),
    {
        let ghost order = self.order@;
        let ghost i = order.index_of(slot);
        let prev = self.nodes[slot].prev;
        let next = self.nodes[slot].next;
        assert(order[i] == slot);
        if prev == NIL {
            self.head = next;
        } else {
            assert(order[i - 1] == prev);
            self.nodes[prev].next = next;
        }
        if next == NIL {
            self.tail = prev;
        } else {
            assert(order[i + 1] == next);
            self.nodes[next].prev = prev;
        }
        self.order = Ghost(order.remove(i));
        proof {
            let after = self.order@;
            assert forall|a: int, b: int|
                0 <= a < after.len() && 0 <= b < after.len() && a != b implies after[a]
                != after[b] by {
                let a0 = if a < i { a } else { a + 1 };
                let b0 = if b < i { b } else { b + 1 };
                assert(after[a] == order[a0] && after[b] == order[b0]);
            }
            assert forall|j: int| 0 <= j < after.len() implies {
                &&& after[j] < self.nodes.len()
                &&& (#[trigger] self.nodes[after[j] as int]).prev == (if j == 0 {
                    NIL
                } else {
                    after[j - 1]
                })
                &&& self.nodes[after[j] as int].next == (if j == after.len() - 1 {
                    NIL
                } else {
                    after[j + 1]
                })
            } by {
                let j0 = if j < i { j } else { j + 1 };
                assert(after[j] == order[j0]);
                if j > 0 {
                    let p0 = if j - 1 < i { j - 1 } else { j };
                    assert(after[j - 1] == order[p0]);
                }
                if j < after.len() - 1 {
                    let n0 = if j + 1 < i { j + 1 } else { j + 2 };
                    assert(after[j + 1] == order[n0]);
                }
            }
        }
    }

    /// Puts the detached node in `slot` at the front of the recency order.
    fn link_front(&mut self, slot: usize)
        requires
            old(self).links_wf(),
            slot < old(self).nodes.len(),
            !old(self).order@.contains(slot),
        ensures
            final(self).links_wf(),
            final(self).order@ == seq![slot] + old(self).order@,
            final(self).same_payload(old(self)),
    {
        let ghost order = self.order@;
        let head = self.head;
        self.nodes[slot].prev = NIL;
        self.nodes[slot].next = head;
        if head == NIL {
            self.tail = slot;
        } else {
            assert(order[0] == head);
            self.nodes[head].prev = slot;
        }
        self.head = slot;
        self.order = Ghost(seq![slot] + order);
        proof {
            let after = self.order@;
            assert forall|j: int| 0 < j < after.len() implies after[j] == order[j - 1] by {}
            assert(after[0] == slot);
            assert forall|a: int, b: int|
                0 <= a < after.len() && 0 <= b < after.len() && a != b implies after[a]
                != after[b] by {
                if a > 0 {
                    assert(after[a] == order[a - 1]);
                }
                if b > 0 {
                    assert(after[b] == order[b - 1]);
                }
            }
            assert forall|j: int| 0 <= j < after.len() implies {
                &&& after[j] < self.nodes.len()
                &&& (#[trigger] self.nodes[after[j] as int]).prev == (if j == 0 {
                    NIL
                } else {
                    after[j - 1]
                })
                &&& self.nodes[after[j] as int].next == (if j == after.len() - 1 {
                    NIL
                } else {
                    after[j + 1]
                })
            } by {
                if j > 0 {
                    assert(after[j] == order[j - 1]);
                    if j > 1 {
                        assert(after[j - 1] == order[j - 2]);
                    }
                    if j < after.len() - 1 {
                        assert(after[j + 1] == order[j]);
                    }
                } else if after.len() > 1 {
                    assert(after[1] == order[0]);
                }
            }
        }
    }

    /// The whole invariant of the index and the order together.
    spec fn wf(&self) -> bool {
        &&& self.links_wf()
        &&& self.index_wf()
        &&& self.free_wf()
        &&& self.order@.len() + self.free.len() == self.nodes.len()
    }

    /// A key is among the entries exactly if the index has it, and then the
    /// index leads to its place in the recency order.
    proof fn lemma_key_position(&self, k: K)
        requires
            self.links_wf(),
            self.index_wf(),
        ensures
            has_key(self.entries(), k) == self.map@.contains_key(k),
            self.map@.contains_key(k) ==> {
                let p = self.order@.index_of(self.map@[k]);
                &&& 0 <= p < self.order@.len()
                &&& self.order@[p] == self.map@[k]
                &&& position(self.entries(), k) == p
            },
    {
        let entries = self.entries();
        let order = self.order@;
        if has_key(entries, k) {
            let i = position(entries, k);
            assert(entries[i].0 == k);
            assert(self.nodes[order[i] as int].key == k);
        }
        if self.map@.contains_key(k) {
            let p = order.index_of(self.map@[k]);
            assert(order.contains(self.map@[k]));
            assert(entries[p].0 == k);
            let q = position(entries, k);
            assert(entries[q].0 == k);
            assert(self.map@[self.nodes[order[q] as int].key] == order[q]);
            assert(order[q] == order[p]);
        }
    }

    /// Moving a live slot to the front keeps the index and the vacant slots
    /// in order, and moves the entry as it moves the slot.
    proof fn lemma_rotated(&self, after: &Self, i: int)
        requires
            self.links_wf(),
            self.index_wf(),
            self.free_wf(),
            0 <= i < self.order@.len(),
            after.order@ == seq![self.order@[i]] + self.order@.remove(i),
            after.same_payload(self),
        ensures
            after.index_wf(),
            after.free_wf(),
            after.entries() == move_to_front(self.entries(), i),
    {
        let old_order = self.order@;
        let new_order = after.order@;
        lemma_rotate(old_order, i);
        assert forall|k: K| #[trigger] after.map@.contains_key(k) implies new_order.contains(
            after.map@[k],
        ) && after.nodes[after.map@[k] as int].key == k by {
            assert(old_order.contains(self.map@[k]));
        }
        assert forall|j: int| 0 <= j < new_order.len() implies after.map@.contains_key(
            after.nodes[(#[trigger] new_order[j]) as int].key,
        ) && after.map@[after.nodes[new_order[j] as int].key] == new_order[j] by {
            let j0 = if j == 0 { i } else if j - 1 < i { j - 1 } else { j };
            assert(new_order[j] == old_order[j0]);
        }
        assert forall|j: int| 0 <= j < after.free.len() implies (#[trigger] after.free[j])
            < after.nodes.len() && !new_order.contains(after.free[j]) by {
            assert(after.free[j] == self.free[j]);
        }
        assert(after.entries() =~= move_to_front(self.entries(), i));
    }

    /// A new entry, stored in a slot that was not live and put at the front,
    /// keeps the index and the vacant slots in order.
    proof fn lemma_inserted(&self, after: &Self, slot: usize, key: K, value: V)
        requires
            self.links_wf(),
            self.index_wf(),
            self.free_wf(),
            !self.map@.contains_key(key),
            !self.order@.contains(slot),
            slot < after.nodes.len(),
            self.nodes.len() <= after.nodes.len(),
            after.order@ == seq![slot] + self.order@,
            after.map@ == self.map@.insert(key, slot),
            after.nodes[slot as int].key == key,
            after.nodes[slot as int].value == value,
            forall|j: int|
                0 <= j < self.order@.len() ==> after.nodes[(#[trigger] self.order@[j]) as int].key
                    == self.nodes[self.order@[j] as int].key && after.nodes[self.order@[j] as int].value
                    == self.nodes[self.order@[j] as int].value,
            if self.free.len() == 0 {
                after.free.len() == 0
            } else {
                after.free@ == self.free@.drop_last() && slot == self.free@.last()
            },
        ensures
            after.index_wf(),
            after.free_wf(),
            after.entries() == seq![(key, value)] + self.entries(),
    {
        let before = self.order@;
        let order = after.order@;
        assert(order[0] == slot);
        assert forall|j: int| 0 < j < order.len() implies order[j] == before[j - 1] by {}
        assert forall|k: K| #[trigger] after.map@.contains_key(k) implies order.contains(
            after.map@[k],
        ) && after.nodes[after.map@[k] as int].key == k by {
            if k != key {
                let p = before.index_of(self.map@[k]);
                assert(before[p] == self.map@[k]);
                assert(order[p + 1] == self.map@[k]);
            }
        }
        assert forall|j: int| 0 <= j < order.len() implies after.map@.contains_key(
            after.nodes[(#[trigger] order[j]) as int].key,
        ) && after.map@[after.nodes[order[j] as int].key] == order[j] by {
            if j > 0 {
                assert(order[j] == before[j - 1]);
                assert(self.map@.contains_key(self.nodes[before[j - 1] as int].key));
            }
        }
        assert forall|j: int| 0 <= j < after.free.len() implies (#[trigger] after.free[j])
            < after.nodes.len() && !order.contains(after.free[j]) by {
            assert(after.free[j] == self.free[j]);
            if order.contains(after.free[j]) {
                let p = order.index_of(after.free[j]);
                if p > 0 {
                    assert(before[p - 1] == self.free[j]);
                }
            }
        }
        assert(after.entries() =~= seq![(key, value)] + self.entries());
    }

    /// No key has two entries.
    proof fn lemma_distinct(&self)
        requires
            self.links_wf(),
            self.index_wf(),
        ensures
            distinct_keys(self.entries()),
    {
        let entries = self.entries();
        let order = self.order@;
        assert forall|i: int, j: int| 0 <= i < j < entries.len() implies (#[trigger] entries[i]).0
            != (#[trigger] entries[j]).0 by {
            assert(self.map@[self.nodes[order[i] as int].key] == order[i]);
            assert(self.map@[self.nodes[order[j] as int].key] == order[j]);
        }
    }
}

impl<K: Eq + std::hash::Hash + Clone, V> LRUCacheData<K, V> {
    /// Moves the live node in `slot` to the front of the recency order.
    fn move_to_front(&mut self, slot: usize)
        requires
            old(self).wf(),
            old(self).order@.contains(slot),
        ensures
            final(self).wf(),
            final(self).order@ == seq![slot] + old(self).order@.remove(
                old(self).order@.index_of(slot),
            ),
            final(self).entries() == move_to_front(
                old(self).entries(),
                old(self).order@.index_of(slot),
            ),
            final(self).same_payload(old(self)),
    {
        let ghost i = self.order@.index_of(slot);
        proof {
            lemma_rotate(self.order@, i);
        }
        self.unlink(slot);
        self.link_front(slot);
        proof {
            old(self).lemma_rotated(self, i);
        }
    }

    /// Removes the least recently used entry from the order and the index.
    fn pop_back(&mut self)
        requires
            old(self).wf(),
            key_model::<K>(),
            old(self).order@.len() > 0,
        ensures
            final(self).wf(),
            final(self).order@ == old(self).order@.drop_last(),
            final(self).entries() == old(self).entries().drop_last(),
            final(self).map@.dom() <= old(self).map@.dom(),
            final(self).free.len() == old(self).free.len() + 1,
    {
        let ghost before = self.order@;
        let ghost n = before.len() - 1;
        let slot = self.tail;
        proof {
            assert(before[n] == slot);
            assert(before.index_of(slot) == n);
            assert(before.remove(n) =~= before.drop_last());
        }
        self.unlink(slot);
        let gone = self.map.remove(&self.nodes[slot].key);
        self.free.push(slot);
        proof {
            let after = self.order@;
            let key = self.nodes[slot as int].key;
            assert(old(self).map@.contains_key(old(self).nodes[before[n] as int].key));
            assert(self.map@ == old(self).map@.remove(key));
            assert forall|k: K| #[trigger] self.map@.contains_key(k) implies after.contains(
                self.map@[k],
            ) && self.nodes[self.map@[k] as int].key == k by {
                assert(old(self).map@.contains_key(k));
                let p = before.index_of(self.map@[k]);
                assert(before[p] == self.map@[k]);
                assert(p != n);
                assert(after[p] == self.map@[k]);
            }
            assert forall|j: int| 0 <= j < after.len() implies self.map@.contains_key(
                self.nodes[(#[trigger] after[j]) as int].key,
            ) && self.map@[self.nodes[after[j] as int].key] == after[j] by {
                assert(after[j] == before[j]);
                assert(old(self).map@[old(self).nodes[before[j] as int].key] == before[j]);
            }
            assert forall|j: int| 0 <= j < self.free.len() implies (#[trigger] self.free[j])
                < self.nodes.len() && !after.contains(self.free[j]) by {
                if j < old(self).free.len() {
                    assert(self.free[j] == old(self).free[j]);
                    if after.contains(self.free[j]) {
                        let p = after.index_of(self.free[j]);
                        assert(before[p] == self.free[j]);
                    }
                } else {
                    if after.contains(slot) {
                        let p = after.index_of(slot);
                        assert(before[p] == slot);
                    }
                }
            }
            assert(self.entries() =~= old(self).entries().drop_last());
        }
    }

    /// Replaces the value of the most recently used entry, which is in
    /// `slot`, and returns the value that it had.
    fn swap_value(&mut self, slot: usize, value: V) -> (previous: V)
        requires
            old(self).wf(),
            old(self).order@.len() > 0,
            old(self).order@[0] == slot,
        ensures
            final(self).wf(),
            final(self).order@ == old(self).order@,
            final(self).map == old(self).map,
            final(self).free == old(self).free,
            final(self).entries() == old(self).entries().update(
                0,
                (old(self).entries()[0].0, value),
            ),
            previous == old(self).entries()[0].1,
    {
        let mut previous = value;
        std::mem::swap(&mut self.nodes[slot].value, &mut previous);
        proof {
            let order = self.order@;
            assert forall|j: int| 0 < j < order.len() implies self.nodes[(#[trigger] order[j]) as int]
                == old(self).nodes[order[j] as int] by {}
            assert(self.entries() =~= old(self).entries().update(
                0,
                (old(self).entries()[0].0, value),
            ));
        }
        previous
    }

    /// Stores `node` in a vacant slot, or in a new one where none is
    /// vacant, and returns the slot. The node is not linked yet.
    fn store(&mut self, node: CacheValue<K, V>) -> (slot: usize)
        requires
            old(self).links_wf(),
            old(self).free_wf(),
        ensures
            final(self).links_wf(),
            final(self).order@ == old(self).order@,
            final(self).map == old(self).map,
            slot < final(self).nodes.len(),
            !final(self).order@.contains(slot),
            final(self).nodes[slot as int] == node,
            forall|j: int|
                0 <= j < old(self).nodes.len() && j != slot ==> #[trigger] final(self).nodes[j]
                    == old(self).nodes[j],
            if old(self).free.len() == 0 {
                &&& final(self).free.len() == 0
                &&& final(self).nodes.len() == old(self).nodes.len() + 1
            } else {
                &&& final(self).free@ == old(self).free@.drop_last()
                &&& slot == old(self).free@.last()
                &&& final(self).nodes.len() == old(self).nodes.len()
            },
    {
        let ghost order = self.order@;
        let slot = match self.free.pop() {
            Some(vacant) => {
                self.nodes[vacant] = node;
                vacant
            },
            None => {
                self.nodes.push(node);
                self.nodes.len() - 1
            },
        };
        proof {
            assert forall|j: int| 0 <= j < order.len() implies (#[trigger] order[j]) != slot
                && self.nodes[order[j] as int] == old(self).nodes[order[j] as int] by {
                if order[j] == slot {
                    assert(order.contains(slot));
                }
            }
        }
        slot
    }

    /// Stores a new entry and puts it at the front of the recency order.
    fn push_front(&mut self, key: K, value: V)
        requires
            old(self).wf(),
            key_model::<K>(),
            !old(self).map@.contains_key(key),
        ensures
            final(self).wf(),
            final(self).order@.len() == old(self).order@.len() + 1,
            final(self).entries() == seq![(key, value)] + old(self).entries(),
            final(self).free.len() == if old(self).free.len() == 0 {
                0
            } else {
                old(self).free.len() - 1
            },
    {
        let node = CacheValue::new(clone_key(&key), value);
        let slot = self.store(node);
        self.link_front(slot);
        self.map.insert(key, slot);
        proof {
            let before = old(self).order@;
            assert forall|j: int| 0 <= j < before.len() implies ({
                let kept = self.nodes[(#[trigger] before[j]) as int];
                let was = old(self).nodes[before[j] as int];
                kept.key == was.key && kept.value == was.value
            }) by {
                if before[j] == slot {
                    assert(before.contains(slot));
                }
            }
            old(self).lemma_inserted(self, slot, key, value);
        }
    }
}

/// An in-memory cache of fixed capacity that evicts the least recently used
/// entry.
///
/// Its view is the sequence of its entries, most recently used first.
pub struct LRUCache<K: Eq + std::hash::Hash + Clone, V: Clone> {
    data: LRUCacheData<K, V>,
    capacity: usize,
}

impl<K: Eq + std::hash::Hash + Clone, V: Clone> View for LRUCache<K, V> {
    type V = Seq<(K, V)>;

    closed spec fn view(&self) -> Seq<(K, V)> {
        self.data.entries()
    }
}

impl<K: Eq + std::hash::Hash + Clone, V: Clone> LRUCache<K, V> {
    /// The largest number of entries that the cache holds.
    pub closed spec fn capacity(&self) -> nat {
        self.capacity as nat
    }

    /// The number of keys in the index.
    pub closed spec fn index_len(&self) -> nat {
        self.data.map@.len()
    }

    /// The index has the key `k`.
    pub closed spec fn index_contains(&self, k: K) -> bool {
        self.data.map@.contains_key(k)
    }

    /// The index, the arena and the recency links agree with each other.
    pub closed spec fn inv(&self) -> bool {
        &&& key_model::<K>()
        &&& self.data.wf()
        &&& self.data.order@.len() <= self.capacity
        &&& self.data.free.len() == 0
    }

    /// The state inside a store, after room has been made: the parts agree,
    /// one more entry fits, and at most one slot is vacant.
    spec fn has_room(&self) -> bool {
        &&& key_model::<K>()
        &&& self.data.wf()
        &&& self.data.order@.len() < self.capacity
        &&& self.data.free.len() <= 1
    }

    /// The cache is in a valid state: its parts agree, the index holds
    /// exactly the keys of the entries, one for each entry, no key has two
    /// entries, and there are no more entries than the capacity allows.
    pub open spec fn wf(&self) -> bool {
        &&& self.inv()
        &&& self.index_len() == self@.len()
        &&& forall|k: K| #[trigger] self.index_contains(k) == has_key(self@, k)
        &&& distinct_keys(self@)
        &&& self@.len() <= self.capacity()
    }

    /// What the parts' agreement means for the entries.
    proof fn lemma_valid(&self)
        requires
            self.inv(),
        ensures
            self.wf(),
    {
        self.data.lemma_distinct();
        assert forall|k: K| #[trigger] self.index_contains(k) == has_key(self@, k) by {
            self.data.lemma_key_position(k);
        }
    }

    /// Create a cache with space for `capacity` entries.
    pub fn new(capacity: usize) -> (cache: LRUCache<K, V>)
        requires
            key_model::<K>(),
        ensures
            cache.wf(),
            cache.capacity() == capacity,
            cache@ == Seq::<(K, V)>::empty(),
    {
        let cache = LRUCache {
            data: LRUCacheData {
                map: HashMap::new(),
                nodes: Vec::new(),
                free: Vec::new(),
                head: NIL,
                tail: NIL,
                order: Ghost(Seq::empty()),
            },
            capacity,
        };
        proof {
            assert(cache@ =~= Seq::<(K, V)>::empty());
            cache.lemma_valid();
        }
        cache
    }

    /// The number of entries in the cache.
    pub fn len(&self) -> (n: usize)
        requires
            self.wf(),
        ensures
            n == self@.len(),
    {
        self.data.map.len()
    }

    /// Get a copy of the value for `key`, if the cache holds one, and mark
    /// the entry as the most recently used. A miss changes nothing.
    pub fn get(&mut self, key: &K) -> (found: Option<V>)
        requires
            old(self).wf(),
        ensures
            final(self).wf(),
            final(self).capacity() == old(self).capacity(),
            final(self)@ == after_get(old(self)@, *key),
            match found {
                Some(v) => has_key(old(self)@, *key) && cloned(
                    old(self)@[position(old(self)@, *key)].1,
                    v,
                ),
                None => !has_key(old(self)@, *key),
            },
    {
        proof {
            self.data.lemma_key_position(*key);
        }
        let slot = match self.data.map.get(key) {
            Some(slot) => *slot,
            None => {
                return None;
            },
        };
        self.touch(slot);
        Some(self.data.nodes[slot].value.clone())
    }

    /// Put `value` into the cache for `key`, as the most recently used
    /// entry, and return the value that `key` had before, if any. Where the
    /// key is new and the cache is full, the least recently used entry
    /// leaves first. A cache of capacity zero keeps nothing.
    pub fn put(&mut self, key: K, value: V) -> (previous: Option<V>)
        requires
            old(self).wf(),
        ensures
            final(self).wf(),
            final(self).capacity() == old(self).capacity(),
            final(self)@ == after_put(old(self)@, old(self).capacity(), key, value),
            previous == lookup(old(self)@, key),
    {
        proof {
            self.data.lemma_key_position(key);
        }
        let known = match self.data.map.get(&key) {
            Some(slot) => Some(*slot),
            None => None,
        };
        match known {
            Some(slot) => {
                let ghost i = self.data.order@.index_of(slot);
                self.touch(slot);
                let previous = self.data.swap_value(slot, value);
                proof {
                    assert(self@ =~= seq![(key, value)] + old(self)@.remove(i));
                    self.lemma_valid();
                }
                Some(previous)
            },
            None => {
                if self.capacity == 0 {
                    return None;
                }
                self.make_room();
                self.data.push_front(key, value);
                proof {
                    self.lemma_valid();
                }
                None
            },
        }
    }

    /// Update access tracking: the entry in `slot` has been used, so it
    /// moves to the front of the recency order.
    fn touch(&mut self, slot: usize)
        requires
            old(self).wf(),
            old(self).data.order@.contains(slot),
        ensures
            final(self).wf(),
            final(self).capacity() == old(self).capacity(),
            final(self)@ == move_to_front(old(self)@, old(self).data.order@.index_of(slot)),
            final(self).data.order@ == seq![slot] + old(self).data.order@.remove(
                old(self).data.order@.index_of(slot),
            ),
            final(self).data.same_payload(&old(self).data),
    {
        self.data.move_to_front(slot);
        proof {
            self.lemma_valid();
        }
    }

    /// Make room for a new entry: if the cache is full, evict.
    fn make_room(&mut self)
        requires
            old(self).wf(),
            old(self).capacity() > 0,
        ensures
            final(self).has_room(),
            final(self).capacity() == old(self).capacity(),
            final(self).data.map@.dom() <= old(self).data.map@.dom(),
            final(self)@ == if old(self)@.len() >= old(self).capacity() {
                old(self)@.drop_last()
            } else {
                old(self)@
            },
    {
        if self.data.map.len() == self.capacity {
            self.evict_lru();
        }
    }

    /// Evict the least recently used entry.
    fn evict_lru(&mut self)
        requires
            old(self).wf(),
            old(self)@.len() > 0,
        ensures
            final(self).has_room(),
            final(self).capacity() == old(self).capacity(),
            final(self).data.map@.dom() <= old(self).data.map@.dom(),
            final(self)@ == old(self)@.drop_last(),
    {
        self.data.pop_back();
    }
}

} // verus!
