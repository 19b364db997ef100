//! The mathematical model of the cache: a sequence of key-value pairs, most
//! recently used first, and the effect of each operation on it.

use vstd::prelude::*;

verus! {

/// Some entry of `s` has the key `k`.
pub open spec fn has_key<K, V>(s: Seq<(K, V)>, k: K) -> bool {
    exists|i: int| 0 <= i < s.len() && (#[trigger] s[i]).0 == k
}

/// The place of an entry with key `k` in `s`, where there is one.
pub open spec fn position<K, V>(s: Seq<(K, V)>, k: K) -> int {
    choose|i: int| 0 <= i < s.len() && (#[trigger] s[i]).0 == k
}

/// No key occurs twice in `s`.
pub open spec fn distinct_keys<K, V>(s: Seq<(K, V)>) -> bool {
    forall|i: int, j: int| 0 <= i < j < s.len() ==> (#[trigger] s[i]).0 != (#[trigger] s[j]).0
}

/// The value stored under `k`, if any.
pub open spec fn lookup<K, V>(s: Seq<(K, V)>, k: K) -> Option<V> {
    if has_key(s, k) {
        Some(s[position(s, k)].1)
    } else {
        None
    }
}

/// `s` with its entry at `i` moved to the front; the others keep their order.
pub open spec fn move_to_front<K, V>(s: Seq<(K, V)>, i: int) -> Seq<(K, V)> {
    seq![s[i]] + s.remove(i)
}

/// The recency order after a lookup of `k`: a hit moves the entry to the
/// front, a miss changes nothing.
pub open spec fn after_get<K, V>(s: Seq<(K, V)>, k: K) -> Seq<(K, V)> {
    if has_key(s, k) {
        move_to_front(s, position(s, k))
    } else {
        s
    }
}

/// A store of a key that is absent fills the cache beyond its capacity, so
/// that the least recently used entry has to leave.
pub open spec fn overflows<K, V>(s: Seq<(K, V)>, capacity: nat, k: K) -> bool {
    !has_key(s, k) && 0 < capacity <= s.len()
}

/// The recency order after `v` is stored under `k` in a cache of the given
/// capacity.
pub open spec fn after_put<K, V>(s: Seq<(K, V)>, capacity: nat, k: K, v: V) -> Seq<(K, V)> {
    if has_key(s, k) {
        seq![(k, v)] + s.remove(position(s, k))
    } else if capacity == 0 {
        s
    } else if s.len() >= capacity {
        seq![(k, v)] + s.drop_last()
    } else {
        seq![(k, v)] + s
    }
}

/// One call on a cache.
pub enum Op<K, V> {
    /// A lookup of a key.
    Get(K),
    /// A store of a value under a key.
    Put(K, V),
}

/// The key that a call names.
pub open spec fn key_of<K, V>(op: Op<K, V>) -> K {
    match op {
        Op::Get(k) => k,
        Op::Put(k, _) => k,
    }
}

/// The recency order after one call.
pub open spec fn step<K, V>(s: Seq<(K, V)>, capacity: nat, op: Op<K, V>) -> Seq<(K, V)> {
    match op {
        Op::Get(k) => after_get(s, k),
        Op::Put(k, v) => after_put(s, capacity, k, v),
    }
}

/// The recency order of a cache that started empty and has seen the calls
/// `ops`, the earliest first.
pub open spec fn run<K, V>(capacity: nat, ops: Seq<Op<K, V>>) -> Seq<(K, V)>
    decreases ops.len(),
{
    if ops.len() == 0 {
        Seq::empty()
    } else {
        step(run(capacity, ops.drop_last()), capacity, ops.last())
    }
}

/// The call stores a key that the cache `s` does not hold.
pub open spec fn inserts<K, V>(s: Seq<(K, V)>, op: Op<K, V>) -> bool {
    op is Put && !has_key(s, key_of(op))
}

/// How many of the calls `ops` stored a key that the cache did not hold at
/// that moment.
pub open spec fn inserted<K, V>(capacity: nat, ops: Seq<Op<K, V>>) -> nat
    decreases ops.len(),
{
    if ops.len() == 0 {
        0
    } else {
        let before = run(capacity, ops.drop_last());
        inserted(capacity, ops.drop_last()) + if inserts(before, ops.last()) {
            1nat
        } else {
            0nat
        }
    }
}

/// How many of the calls `ops` made an entry leave: the least recently used
/// one of a full cache or, at capacity zero, the entry that the call brought.
pub open spec fn evicted<K, V>(capacity: nat, ops: Seq<Op<K, V>>) -> nat
    decreases ops.len(),
{
    if ops.len() == 0 {
        0
    } else {
        let before = run(capacity, ops.drop_last());
        evicted(capacity, ops.drop_last()) + if inserts(before, ops.last()) && before.len()
            >= capacity {
            1nat
        } else {
            0nat
        }
    }
}

/// The number of the last call among `ops` that names the key `k`, counted
/// from zero, or -1 where no call names it.
pub open spec fn last_touch<K, V>(ops: Seq<Op<K, V>>, k: K) -> int
    decreases ops.len(),
{
    if ops.len() == 0 {
        -1
    } else if key_of(ops.last()) == k {
        ops.len() - 1
    } else {
        last_touch(ops.drop_last(), k)
    }
}

/// Every entry of `s` has been touched by one of the calls `ops`, and an
/// entry stands before another exactly if it was touched later.
pub open spec fn recency_sorted<K, V>(ops: Seq<Op<K, V>>, s: Seq<(K, V)>) -> bool {
    &&& forall|i: int| 0 <= i < s.len() ==> 0 <= last_touch(ops, (#[trigger] s[i]).0)
    &&& forall|i: int, j: int|
        0 <= i < j < s.len() ==> last_touch(ops, (#[trigger] s[i]).0) > last_touch(
            ops,
            (#[trigger] s[j]).0,
        )
}

} // verus!
