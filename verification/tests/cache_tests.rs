use cache::cache::LRUCache;

#[test]
fn hit() {
    let k1 = "key";
    let mut cache: LRUCache<&str, u64> = LRUCache::new(1);
    cache.put(k1, 2);
    assert_eq!(cache.get(&k1), Some(2));
}

#[test]
fn miss() {
    let k1 = "no key";
    let mut cache: LRUCache<&str, u64> = LRUCache::new(10);
    assert_eq!(cache.get(&k1), None);
}

#[test]
fn evict() {
    let k1 = "key1";
    let k2 = "key2";
    let v1: u64 = 1;
    let v2: u64 = 2;

    let mut cache: LRUCache<&str, u64> = LRUCache::new(1);
    assert_eq!(cache.len(), 0);

    cache.put(k1, v1);
    assert_eq!(cache.len(), 1);

    cache.put(k2, v2);
    assert_eq!(cache.len(), 1);

    assert_eq!(cache.get(&k1), None);
}

#[test]
fn replace() {
    let k1 = "key1";
    let _k2 = "key2";
    let v1: u64 = 1;
    let v2: u64 = 2;

    let mut cache: LRUCache<&str, u64> = LRUCache::new(1);
    assert_eq!(cache.len(), 0);

    cache.put(k1, v1);
    cache.put(k1, v2);
    assert_eq!(cache.len(), 1);
}

#[test]
fn capacity_one_keeps_only_the_latest_key() {
    let mut cache: LRUCache<&str, u64> = LRUCache::new(1);
    assert_eq!(cache.put("a", 1), None);
    assert_eq!(cache.put("b", 2), None);
    assert_eq!(cache.get(&"a"), None);
    assert_eq!(cache.get(&"b"), Some(2));
}

#[test]
fn a_lookup_protects_its_entry_from_the_next_eviction() {
    let mut cache: LRUCache<u64, u64> = LRUCache::new(2);
    assert_eq!(cache.put(1, 1), None);
    assert_eq!(cache.put(2, 2), None);
    assert_eq!(cache.get(&1), Some(1));
    assert_eq!(cache.put(3, 3), None);
    assert_eq!(cache.len(), 2);
    assert_eq!(cache.get(&2), None);
    assert_eq!(cache.get(&1), Some(1));
    assert_eq!(cache.get(&3), Some(3));
}

#[test]
fn capacity_zero_keeps_nothing() {
    let mut cache: LRUCache<u64, u64> = LRUCache::new(0);
    assert_eq!(cache.len(), 0);
    assert_eq!(cache.put(7, 70), None);
    assert_eq!(cache.len(), 0);
    assert_eq!(cache.get(&7), None);
    assert_eq!(cache.put(7, 71), None);
    assert_eq!(cache.get(&7), None);
    assert_eq!(cache.len(), 0);
}

#[test]
fn get_after_put_returns_the_value() {
    let mut cache: LRUCache<u64, String> = LRUCache::new(3);
    for k in 0..10u64 {
        assert_eq!(cache.put(k, format!("value {}", k)), None);
        assert_eq!(cache.get(&k), Some(format!("value {}", k)));
    }
}

#[test]
fn put_on_a_present_key_returns_the_previous_value() {
    let mut cache: LRUCache<&str, u64> = LRUCache::new(2);
    assert_eq!(cache.put("k", 1), None);
    assert_eq!(cache.put("other", 5), None);
    assert_eq!(cache.put("k", 2), Some(1));
    assert_eq!(cache.len(), 2);
    assert_eq!(cache.get(&"k"), Some(2));
    assert_eq!(cache.put("k", 3), Some(2));
    assert_eq!(cache.get(&"other"), Some(5));
}

#[test]
fn put_on_a_present_key_makes_it_most_recent() {
    let mut cache: LRUCache<u64, u64> = LRUCache::new(2);
    cache.put(1, 10);
    cache.put(2, 20);
    assert_eq!(cache.put(1, 11), Some(10));
    assert_eq!(cache.put(3, 30), None);
    assert_eq!(cache.get(&2), None);
    assert_eq!(cache.get(&1), Some(11));
    assert_eq!(cache.get(&3), Some(30));
}

#[test]
fn overflow_evicts_in_order_of_insertion_when_nothing_is_touched() {
    let mut cache: LRUCache<u64, u64> = LRUCache::new(3);
    for k in 0..3u64 {
        cache.put(k, k * 10);
    }
    cache.put(3, 30);
    assert_eq!(cache.get(&0), None);
    cache.put(4, 40);
    assert_eq!(cache.get(&1), None);
    assert_eq!(cache.get(&2), Some(20));
    assert_eq!(cache.get(&3), Some(30));
    assert_eq!(cache.get(&4), Some(40));
    assert_eq!(cache.len(), 3);
}

#[test]
fn a_miss_leaves_the_order_unchanged() {
    let mut cache: LRUCache<u64, u64> = LRUCache::new(2);
    cache.put(1, 1);
    cache.put(2, 2);
    assert_eq!(cache.get(&9), None);
    cache.put(3, 3);
    assert_eq!(cache.get(&1), None);
    assert_eq!(cache.get(&2), Some(2));
    assert_eq!(cache.get(&3), Some(3));
}

#[test]
fn size_is_the_smaller_of_capacity_and_distinct_keys() {
    let capacity: usize = 5;
    let mut cache: LRUCache<u64, u64> = LRUCache::new(capacity);
    let mut inserted: usize = 0;
    let mut evicted: usize = 0;
    for k in 0..12u64 {
        let full = cache.len() == capacity;
        assert_eq!(cache.put(k, k), None);
        inserted += 1;
        if full {
            evicted += 1;
        }
        assert_eq!(cache.len(), inserted - evicted);
        assert_eq!(cache.len(), capacity.min(inserted));
        assert!(cache.len() <= capacity);
    }
    assert_eq!(inserted, 12);
    assert_eq!(evicted, 7);
}

#[test]
fn an_evicted_key_can_come_back() {
    let mut cache: LRUCache<u64, u64> = LRUCache::new(2);
    cache.put(1, 1);
    cache.put(2, 2);
    cache.put(3, 3);
    assert_eq!(cache.get(&1), None);
    assert_eq!(cache.put(1, 100), None);
    assert_eq!(cache.get(&2), None);
    assert_eq!(cache.get(&3), Some(3));
    assert_eq!(cache.get(&1), Some(100));
    assert_eq!(cache.len(), 2);
}

/// A plain list in recency order, most recent first, to compare against.
fn list_get(list: &mut Vec<(u64, u64)>, key: u64) -> Option<u64> {
    let at = list.iter().position(|e| e.0 == key)?;
    let entry = list.remove(at);
    list.insert(0, entry);
    Some(entry.1)
}

fn list_put(list: &mut Vec<(u64, u64)>, capacity: usize, key: u64, value: u64) -> Option<u64> {
    if let Some(at) = list.iter().position(|e| e.0 == key) {
        let entry = list.remove(at);
        list.insert(0, (key, value));
        return Some(entry.1);
    }
    if capacity == 0 {
        return None;
    }
    if list.len() == capacity {
        list.pop();
    }
    list.insert(0, (key, value));
    None
}

fn agrees_with_list(capacity: usize, seed: u64) {
    let mut cache: LRUCache<u64, u64> = LRUCache::new(capacity);
    let mut list: Vec<(u64, u64)> = Vec::new();
    let mut state = seed;
    for round in 0..2000u64 {
        state = state.wrapping_mul(6364136223846793005).wrapping_add(1442695040888963407);
        let key = (state >> 33) % 9;
        if (state >> 20) % 3 == 0 {
            assert_eq!(cache.get(&key), list_get(&mut list, key));
        } else {
            assert_eq!(cache.put(key, round), list_put(&mut list, capacity, key, round));
        }
        assert_eq!(cache.len(), list.len());
        assert!(cache.len() <= capacity);
    }
    // Read the entries back from the least recent to the most recent: each
    // lookup hits, and the order of eviction that follows is the list's.
    let expected = list.clone();
    for entry in expected.iter().rev() {
        assert_eq!(cache.get(&entry.0), Some(entry.1));
    }
}

#[test]
fn long_runs_agree_with_a_plain_list() {
    agrees_with_list(0, 1);
    agrees_with_list(1, 2);
    agrees_with_list(2, 3);
    agrees_with_list(4, 4);
    agrees_with_list(8, 5);
    agrees_with_list(9, 6);
    agrees_with_list(20, 7);
}
