//! What holds of the cache over any sequence of calls, proved over the model
//! that the contracts of `get` and `put` are stated in.

use vstd::prelude::*;
use crate::model::{
    after_get, after_put, distinct_keys, evicted, has_key, inserted, key_of, last_touch, lookup,
    move_to_front, overflows, position, recency_sorted, run, step, Op,
};

verus! {

/// Moving an entry to the front keeps the keys, their values and their
/// distinctness.
pub proof fn lemma_move_to_front<K, V>(s: Seq<(K, V)>, i: int)
    requires
        distinct_keys(s),
        0 <= i < s.len(),
    ensures
        distinct_keys(move_to_front(s, i)),
        move_to_front(s, i).len() == s.len(),
        move_to_front(s, i)[0] == s[i],
        forall|k: K| has_key(move_to_front(s, i), k) == has_key(s, k),
        forall|k: K| lookup(move_to_front(s, i), k) == lookup(s, k),
{
    let t = move_to_front(s, i);
    assert forall|a: int| 0 <= a < t.len() implies #[trigger] t[a] == s[origin(i, a)] by {}
    assert forall|a: int, b: int| 0 <= a < b < t.len() implies (#[trigger] t[a]).0 != (
    #[trigger] t[b]).0 by {
        let a0 = origin(i, a);
        let b0 = origin(i, b);
        assert(t[a] == s[a0] && t[b] == s[b0]);
        if a0 < b0 {
            assert(s[a0].0 != s[b0].0);
        } else {
            assert(s[b0].0 != s[a0].0);
        }
    }
    assert forall|k: K| has_key(t, k) == has_key(s, k) && lookup(t, k) == lookup(s, k) by {
        if has_key(t, k) {
            let a = position(t, k);
            assert(s[origin(i, a)].0 == k);
        }
        if has_key(s, k) {
            let p = position(s, k);
            let a = if p == i { 0 } else if p < i { p + 1 } else { p };
            assert(t[a] == s[p]);
            assert(t[a].0 == k);
            let q = position(t, k);
            assert(t[q].0 == k);
            if q < a {
                assert(t[q].0 != t[a].0);
            } else if a < q {
                assert(t[a].0 != t[q].0);
            }
        }
    }
}

/// Where the entry at place `a` stood before the entry at `i` moved to the
/// front.
spec fn origin(i: int, a: int) -> int {
    if a == 0 {
        i
    } else if a - 1 < i {
        a - 1
    } else {
        a
    }
}

/// With distinct keys, the entry that holds a key is found at its place.
pub proof fn lemma_position<K, V>(s: Seq<(K, V)>, i: int)
    requires
        distinct_keys(s),
        0 <= i < s.len(),
    ensures
        has_key(s, s[i].0),
        position(s, s[i].0) == i,
        lookup(s, s[i].0) == Some(s[i].1),
{
    let k = s[i].0;
    let p = position(s, k);
    assert(s[p].0 == k);
    if p < i {
        assert(s[p].0 != s[i].0);
    } else if i < p {
        assert(s[i].0 != s[p].0);
    }
}

/// Taking the entry at `p` out removes its key and nothing else.
pub proof fn lemma_remove<K, V>(s: Seq<(K, V)>, p: int)
    requires
        distinct_keys(s),
        0 <= p < s.len(),
    ensures
        distinct_keys(s.remove(p)),
        !has_key(s.remove(p), s[p].0),
        forall|k: K| k != s[p].0 ==> has_key(s.remove(p), k) == has_key(s, k),
        forall|k: K| k != s[p].0 ==> lookup(s.remove(p), k) == lookup(s, k),
{
    let r = s.remove(p);
    assert forall|a: int| 0 <= a < r.len() implies #[trigger] r[a] == s[skip(p, a)] by {}
    assert forall|a: int, b: int| 0 <= a < b < r.len() implies (#[trigger] r[a]).0 != (
    #[trigger] r[b]).0 by {
        assert(r[a] == s[skip(p, a)] && r[b] == s[skip(p, b)]);
        assert(s[skip(p, a)].0 != s[skip(p, b)].0);
    }
    if has_key(r, s[p].0) {
        let a = position(r, s[p].0);
        assert(r[a] == s[skip(p, a)]);
        if skip(p, a) < p {
            assert(s[skip(p, a)].0 != s[p].0);
        } else {
            assert(s[p].0 != s[skip(p, a)].0);
        }
    }
    assert forall|k: K| k != s[p].0 implies has_key(r, k) == has_key(s, k) && lookup(r, k)
        == lookup(s, k) by {
        if has_key(r, k) {
            let a = position(r, k);
            assert(s[skip(p, a)].0 == k);
            lemma_position(s, skip(p, a));
        }
        if has_key(s, k) {
            let q = position(s, k);
            let a = if q < p { q } else { q - 1 };
            assert(r[a] == s[q]);
            assert(r[a].0 == k);
            lemma_position(r, a);
        }
    }
}

/// Where the entry at place `a` stood before the entry at `p` was taken out.
spec fn skip(p: int, a: int) -> int {
    if a < p {
        a
    } else {
        a + 1
    }
}

/// Putting an entry with a new key in front adds that key and nothing else.
pub proof fn lemma_push_front<K, V>(s: Seq<(K, V)>, k: K, v: V)
    requires
        distinct_keys(s),
        !has_key(s, k),
    ensures
        distinct_keys(seq![(k, v)] + s),
        has_key(seq![(k, v)] + s, k),
        position(seq![(k, v)] + s, k) == 0,
        lookup(seq![(k, v)] + s, k) == Some(v),
        forall|x: K| x != k ==> has_key(seq![(k, v)] + s, x) == has_key(s, x),
        forall|x: K| x != k ==> lookup(seq![(k, v)] + s, x) == lookup(s, x),
{
    let t = seq![(k, v)] + s;
    assert(t[0] == (k, v));
    assert forall|a: int| 0 < a < t.len() implies #[trigger] t[a] == s[a - 1] by {}
    assert forall|a: int, b: int| 0 <= a < b < t.len() implies (#[trigger] t[a]).0 != (
    #[trigger] t[b]).0 by {
        assert(t[b] == s[b - 1]);
        if a == 0 {
            assert(s[b - 1].0 != k);
        } else {
            assert(t[a] == s[a - 1]);
            assert(s[a - 1].0 != s[b - 1].0);
        }
    }
    lemma_position(t, 0);
    assert forall|x: K| x != k implies has_key(t, x) == has_key(s, x) && lookup(t, x) == lookup(
        s,
        x,
    ) by {
        if has_key(t, x) {
            let a = position(t, x);
            assert(t[a].0 == x);
            assert(t[a] == s[a - 1]);
            assert(s[a - 1].0 == x);
            lemma_position(s, a - 1);
        }
        if has_key(s, x) {
            let q = position(s, x);
            assert(t[q + 1] == s[q]);
            assert(t[q + 1].0 == x);
            lemma_position(t, q + 1);
        }
    }
}

/// A lookup never loses an entry or changes a value, and the entry that it
/// finds becomes the most recently used one.
pub proof fn lemma_get<K, V>(s: Seq<(K, V)>, k: K)
    requires
        distinct_keys(s),
    ensures
        distinct_keys(after_get(s, k)),
        after_get(s, k).len() == s.len(),
        forall|x: K| has_key(after_get(s, k), x) == has_key(s, x),
        forall|x: K| lookup(after_get(s, k), x) == lookup(s, x),
        has_key(s, k) ==> after_get(s, k)[0].0 == k && position(after_get(s, k), k) == 0,
{
    if has_key(s, k) {
        let p = position(s, k);
        assert(s[p].0 == k);
        lemma_move_to_front(s, p);
        lemma_position(after_get(s, k), 0);
    }
}

/// A store keeps the keys distinct and the size within the capacity; the
/// size grows by one for a new key, unless the cache is full.
pub proof fn lemma_put<K, V>(s: Seq<(K, V)>, capacity: nat, k: K, v: V)
    requires
        distinct_keys(s),
        s.len() <= capacity,
    ensures
        distinct_keys(after_put(s, capacity, k, v)),
        after_put(s, capacity, k, v).len() <= capacity,
        after_put(s, capacity, k, v).len() == if has_key(s, k) || s.len() == capacity {
            s.len()
        } else {
            s.len() + 1
        },
{
    if has_key(s, k) {
        let p = position(s, k);
        assert(s[p].0 == k);
        lemma_remove(s, p);
        lemma_push_front(s.remove(p), k, v);
    } else if capacity == 0 {
    } else if s.len() >= capacity {
        lemma_drop_last(s);
        lemma_push_front(s.drop_last(), k, v);
    } else {
        lemma_push_front(s, k, v);
    }
}

/// Dropping the last entry removes its key and nothing else.
pub proof fn lemma_drop_last<K, V>(s: Seq<(K, V)>)
    requires
        distinct_keys(s),
        s.len() > 0,
    ensures
        distinct_keys(s.drop_last()),
        !has_key(s.drop_last(), s.last().0),
        forall|k: K| k != s.last().0 ==> has_key(s.drop_last(), k) == has_key(s, k),
        forall|k: K| k != s.last().0 ==> lookup(s.drop_last(), k) == lookup(s, k),
{
    assert(s.drop_last() =~= s.remove(s.len() - 1));
    lemma_remove(s, s.len() - 1);
}

/// In a cache that can hold anything, a lookup right after a store finds
/// the value that was stored, as the most recently used entry.
pub proof fn lemma_get_after_put<K, V>(s: Seq<(K, V)>, capacity: nat, k: K, v: V)
    requires
        distinct_keys(s),
        s.len() <= capacity,
        capacity > 0,
    ensures
        has_key(after_put(s, capacity, k, v), k),
        position(after_put(s, capacity, k, v), k) == 0,
        after_put(s, capacity, k, v)[0] == (k, v),
        lookup(after_put(s, capacity, k, v), k) == Some(v),
        after_get(after_put(s, capacity, k, v), k) == after_put(s, capacity, k, v),
{
    let t = after_put(s, capacity, k, v);
    lemma_put(s, capacity, k, v);
    assert(t[0] == (k, v));
    lemma_position(t, 0);
    assert(move_to_front(t, 0) =~= t);
}

/// A store of a new key into a full cache evicts the entry at the back of
/// the recency order and no other; the entries that stay keep their values
/// and their order behind the new one.
pub proof fn lemma_overflow_evicts_last<K, V>(s: Seq<(K, V)>, capacity: nat, k: K, v: V)
    requires
        distinct_keys(s),
        s.len() <= capacity,
        overflows(s, capacity, k),
    ensures
        after_put(s, capacity, k, v) == seq![(k, v)] + s.drop_last(),
        !has_key(after_put(s, capacity, k, v), s.last().0),
        forall|j: int|
            0 <= j < s.len() - 1 ==> #[trigger] after_put(s, capacity, k, v)[j + 1] == s[j],
        forall|x: K|
            has_key(after_put(s, capacity, k, v), x) == (x == k || (has_key(s, x) && x
                != s.last().0)),
        forall|x: K|
            x != k && x != s.last().0 ==> lookup(after_put(s, capacity, k, v), x) == lookup(s, x),
{
    let r = s.drop_last();
    lemma_drop_last(s);
    lemma_push_front(r, k, v);
    assert(s.last().0 != k) by {
        assert(s[s.len() - 1].0 == s.last().0);
    }
}

/// Nothing but a store of a new key into a full cache evicts: after any
/// other store every key that was in the cache is still there, and every
/// key but the one stored has the value that it had.
pub proof fn lemma_no_eviction_without_overflow<K, V>(s: Seq<(K, V)>, capacity: nat, k: K, v: V)
    requires
        distinct_keys(s),
        s.len() <= capacity,
        !overflows(s, capacity, k),
    ensures
        forall|x: K| has_key(s, x) ==> has_key(after_put(s, capacity, k, v), x),
        forall|x: K| x != k ==> lookup(after_put(s, capacity, k, v), x) == lookup(s, x),
{
    if has_key(s, k) {
        let p = position(s, k);
        assert(s[p].0 == k);
        lemma_remove(s, p);
        lemma_push_front(s.remove(p), k, v);
    } else if capacity == 0 {
    } else {
        lemma_push_front(s, k, v);
    }
}

/// An entry that a lookup has just found is not the one that the next
/// store evicts, unless it is the only entry.
pub proof fn lemma_found_entry_survives<K, V>(s: Seq<(K, V)>, capacity: nat, k: K, k2: K, v: V)
    requires
        distinct_keys(s),
        s.len() <= capacity,
        has_key(s, k),
        s.len() >= 2,
    ensures
        has_key(after_put(after_get(s, k), capacity, k2, v), k),
        k != k2 ==> lookup(after_put(after_get(s, k), capacity, k2, v), k) == lookup(s, k),
{
    let t = after_get(s, k);
    lemma_get(s, k);
    assert(t[0].0 == k);
    assert(t.last() == t[t.len() - 1]);
    assert(t.last().0 != k) by {
        assert(t[0].0 != t[t.len() - 1].0);
    }
    if overflows(t, capacity, k2) {
        lemma_overflow_evicts_last(t, capacity, k2, v);
    } else {
        lemma_no_eviction_without_overflow(t, capacity, k2, v);
    }
}

/// A store under a key that the cache holds leaves the size unchanged,
/// hands back the value that the key had, and makes the entry, with its new
/// value, the most recently used one.
pub proof fn lemma_put_existing<K, V>(s: Seq<(K, V)>, capacity: nat, k: K, v: V)
    requires
        distinct_keys(s),
        s.len() <= capacity,
        has_key(s, k),
    ensures
        after_put(s, capacity, k, v).len() == s.len(),
        lookup(s, k) == Some(s[position(s, k)].1),
        after_put(s, capacity, k, v)[0] == (k, v),
        position(after_put(s, capacity, k, v), k) == 0,
        lookup(after_put(s, capacity, k, v), k) == Some(v),
        forall|x: K| has_key(after_put(s, capacity, k, v), x) == has_key(s, x),
        forall|x: K| x != k ==> lookup(after_put(s, capacity, k, v), x) == lookup(s, x),
{
    let p = position(s, k);
    assert(s[p].0 == k);
    lemma_remove(s, p);
    lemma_push_front(s.remove(p), k, v);
}

/// After any sequence of calls the keys are distinct and the size is within
/// the capacity.
pub proof fn lemma_run_valid<K, V>(capacity: nat, ops: Seq<Op<K, V>>)
    ensures
        distinct_keys(run(capacity, ops)),
        run(capacity, ops).len() <= capacity,
    decreases ops.len(),
{
    if ops.len() > 0 {
        let before = run(capacity, ops.drop_last());
        lemma_run_valid(capacity, ops.drop_last());
        match ops.last() {
            Op::Get(k) => {
                lemma_get(before, k);
            },
            Op::Put(k, v) => {
                lemma_put(before, capacity, k, v);
            },
        }
    }
}

/// A cache of capacity zero keeps nothing, whatever is stored in it, so
/// that every lookup misses.
pub proof fn lemma_capacity_zero<K, V>(ops: Seq<Op<K, V>>, k: K)
    ensures
        run(0, ops) == Seq::<(K, V)>::empty(),
        !has_key(run(0, ops), k),
        lookup(run(0, ops), k) == None::<V>,
{
    lemma_run_valid(0, ops);
    assert(run(0, ops) =~= Seq::<(K, V)>::empty());
}

/// After any sequence of calls the size of the cache is the number of keys
/// that were inserted less the number of entries that were evicted, and so
/// the smaller of that number and the capacity.
pub proof fn lemma_size_accounting<K, V>(capacity: nat, ops: Seq<Op<K, V>>)
    ensures
        evicted(capacity, ops) <= inserted(capacity, ops),
        run(capacity, ops).len() == inserted(capacity, ops) - evicted(capacity, ops),
        run(capacity, ops).len() <= capacity,
        run(capacity, ops).len() == vstd::math::min(
            capacity as int,
            inserted(capacity, ops) - evicted(capacity, ops),
        ),
    decreases ops.len(),
{
    lemma_run_valid(capacity, ops);
    if ops.len() > 0 {
        let before = run(capacity, ops.drop_last());
        lemma_run_valid(capacity, ops.drop_last());
        lemma_size_accounting(capacity, ops.drop_last());
        match ops.last() {
            Op::Get(k) => {
                lemma_get(before, k);
            },
            Op::Put(k, v) => {
                lemma_put(before, capacity, k, v);
            },
        }
    }
}

/// A call that names a key is one of the calls.
pub proof fn lemma_last_touch_bound<K, V>(ops: Seq<Op<K, V>>, k: K)
    ensures
        -1 <= last_touch(ops, k) < ops.len(),
    decreases ops.len(),
{
    if ops.len() > 0 && key_of(ops.last()) != k {
        lemma_last_touch_bound(ops.drop_last(), k);
    }
}

/// One more call keeps the recency order sorted by the time of the last
/// touch.
proof fn lemma_step_sorted<K, V>(ops: Seq<Op<K, V>>, s: Seq<(K, V)>, capacity: nat)
    requires
        ops.len() > 0,
        recency_sorted(ops.drop_last(), s),
        s.len() <= capacity,
    ensures
        recency_sorted(ops, step(s, capacity, ops.last())),
{
    let earlier = ops.drop_last();
    let k = key_of(ops.last());
    let t = step(s, capacity, ops.last());
    let now = ops.len() - 1;
    assert forall|x: K| last_touch(ops, x) == (if x == k {
        now
    } else {
        last_touch(earlier, x)
    }) && last_touch(earlier, x) < now by {
        lemma_last_touch_bound(earlier, x);
    }
    assert(distinct_keys(s)) by {
        assert forall|i: int, j: int| 0 <= i < j < s.len() implies (#[trigger] s[i]).0 != (
        #[trigger] s[j]).0 by {
            assert(last_touch(earlier, s[i].0) > last_touch(earlier, s[j].0));
        }
    }
    if has_key(s, k) {
        // The entry moves to the front, with or without a new value.
        let p = position(s, k);
        assert(s[p].0 == k);
        assert(t.len() == s.len());
        assert(t[0].0 == k);
        assert forall|a: int| 0 < a < t.len() implies #[trigger] t[a] == s[origin(p, a)] by {}
        assert forall|a: int| 0 < a < t.len() implies (#[trigger] t[a]).0 != k by {
            assert(t[a] == s[origin(p, a)]);
            if origin(p, a) < p {
                assert(s[origin(p, a)].0 != s[p].0);
            } else {
                assert(s[p].0 != s[origin(p, a)].0);
            }
        }
        assert forall|a: int| 0 <= a < t.len() implies 0 <= last_touch(ops, (#[trigger] t[a]).0) by {
            if a > 0 {
                assert(t[a] == s[origin(p, a)]);
                assert(0 <= last_touch(earlier, s[origin(p, a)].0));
            }
        }
        assert forall|a: int, b: int| 0 <= a < b < t.len() implies last_touch(
            ops,
            (#[trigger] t[a]).0,
        ) > last_touch(ops, (#[trigger] t[b]).0) by {
            assert(t[b] == s[origin(p, b)]);
            if a > 0 {
                assert(t[a] == s[origin(p, a)]);
                assert(last_touch(earlier, s[origin(p, a)].0) > last_touch(
                    earlier,
                    s[origin(p, b)].0,
                ));
            }
        }
    } else if ops.last() is Put && capacity > 0 {
        // A new entry comes to the front; the last one leaves if the cache is full.
        let r = if s.len() >= capacity { s.drop_last() } else { s };
        assert(t.len() == r.len() + 1);
        assert(t[0].0 == k);
        assert forall|a: int| 0 < a < t.len() implies #[trigger] t[a] == s[a - 1] by {
            assert(t[a] == r[a - 1]);
        }
        assert forall|a: int| 0 <= a < t.len() implies 0 <= last_touch(ops, (#[trigger] t[a]).0) by {
            if a > 0 {
                assert(t[a] == s[a - 1]);
                assert(0 <= last_touch(earlier, s[a - 1].0));
            }
        }
        assert forall|a: int, b: int| 0 <= a < b < t.len() implies last_touch(
            ops,
            (#[trigger] t[a]).0,
        ) > last_touch(ops, (#[trigger] t[b]).0) by {
            assert(t[b] == s[b - 1]);
            assert(s[b - 1].0 != k);
            if a > 0 {
                assert(t[a] == s[a - 1]);
                assert(last_touch(earlier, s[a - 1].0) > last_touch(earlier, s[b - 1].0));
            }
        }
    } else {
        // A miss, or a store into a cache that keeps nothing: no change.
        assert(t == s);
        assert forall|a: int| 0 <= a < s.len() implies (#[trigger] s[a]).0 != k by {}
        assert forall|a: int| 0 <= a < t.len() implies 0 <= last_touch(ops, (#[trigger] t[a]).0) by {
            assert(0 <= last_touch(earlier, s[a].0));
        }
        assert forall|a: int, b: int| 0 <= a < b < t.len() implies last_touch(
            ops,
            (#[trigger] t[a]).0,
        ) > last_touch(ops, (#[trigger] t[b]).0) by {
            assert(last_touch(earlier, s[a].0) > last_touch(earlier, s[b].0));
        }
    }
}

/// After any sequence of calls, every entry has been touched by a `get` or
/// a `put` on its key, and the entries stand in the order of their last
/// touch: the most recently touched first, the least recently touched last.
pub proof fn lemma_run_sorted<K, V>(capacity: nat, ops: Seq<Op<K, V>>)
    ensures
        recency_sorted(ops, run(capacity, ops)),
    decreases ops.len(),
{
    if ops.len() > 0 {
        lemma_run_sorted(capacity, ops.drop_last());
        lemma_run_valid(capacity, ops.drop_last());
        lemma_step_sorted(ops, run(capacity, ops.drop_last()), capacity);
    }
}

/// Whenever a store overflows the cache, the entry that leaves is the one
/// whose last touch lies furthest back: every other entry was touched more
/// recently, and every other entry stays.
pub proof fn lemma_evicted_is_least_recently_touched<K, V>(
    capacity: nat,
    ops: Seq<Op<K, V>>,
    k: K,
    v: V,
)
    requires
        overflows(run(capacity, ops), capacity, k),
    ensures
        ({
            let s = run(capacity, ops);
            let t = run(capacity, ops.push(Op::Put(k, v)));
            &&& t == seq![(k, v)] + s.drop_last()
            &&& !has_key(t, s.last().0)
            &&& forall|j: int|
                0 <= j < s.len() - 1 ==> has_key(t, (#[trigger] s[j]).0) && last_touch(
                    ops,
                    s[j].0,
                ) > last_touch(ops, s.last().0)
        }),
{
    let s = run(capacity, ops);
    let next = ops.push(Op::Put(k, v));
    assert(next.drop_last() =~= ops);
    assert(next.last() == Op::Put(k, v));
    lemma_run_valid(capacity, ops);
    lemma_run_sorted(capacity, ops);
    lemma_overflow_evicts_last(s, capacity, k, v);
    let t = run(capacity, next);
    assert forall|j: int| 0 <= j < s.len() - 1 implies has_key(t, (#[trigger] s[j]).0)
        && last_touch(ops, s[j].0) > last_touch(ops, s.last().0) by {
        assert(t[j + 1] == s[j]);
        assert(last_touch(ops, s[j].0) > last_touch(ops, s[s.len() - 1].0));
    }
}

} // verus!
