use db::cache::{LRUBLockCache, List};

#[test]
fn test_list() {
    let mut list = List::new();
    list.push_back(1, 1);
    list.push_back(2, 2);
    list.push_back(3, 3);

    let mut m = list.pop_front().unwrap();
    assert_eq!(1, *m);
    m = list.pop_front().unwrap();
    assert_eq!(2, *m);
    m = list.pop_front().unwrap();
    assert_eq!(3, *m);

    // just 1
    list.push_back(1, 1);
    m = list.pop_front().unwrap();
    assert_eq!(1, *m);

    // pop none
    let m = list.pop_front();
    assert!(m.is_none());

    list.push_back(1, 1);
    list.push_back(2, 2);
    list.push_back(3, 3);
}

#[test]
fn test_cache_get_put() {
    let mut cache = LRUBLockCache::new(2);
    let a_k = 1;
    let a_v = 1;
    let b_k = 2;
    let b_v = 2;
    let c_k = 3;
    let c_v = 3;
    cache.put(a_k, a_v);
    cache.put(b_k, b_v);
    assert_eq!(a_v, *cache.get(a_k).unwrap());
    assert_eq!(b_v, *cache.get(b_k).unwrap());
    cache.put(c_k, c_v);
    assert_eq!(c_v, *cache.get(c_k).unwrap());
    assert!(cache.get(a_k).is_none());
}

#[test]
fn cache_get_after_put_gives_value() {
    let mut cache = LRUBLockCache::new(3);
    cache.put(7, "seven");
    let got = cache.get(7).unwrap();
    assert_eq!(got.key(), 7);
    assert_eq!(*got, "seven");
}

#[test]
fn cache_evicts_least_recently_used() {
    let mut cache = LRUBLockCache::new(2);
    cache.put(1, 10);
    cache.put(2, 20);
    // reading 1 makes 2 the least recently used entry
    assert_eq!(*cache.get(1).unwrap(), 10);
    cache.put(3, 30);
    assert!(cache.get(2).is_none());
    assert_eq!(*cache.get(1).unwrap(), 10);
    assert_eq!(*cache.get(3).unwrap(), 30);
}

#[test]
fn cache_put_replaces_value() {
    let mut cache = LRUBLockCache::new(2);
    cache.put(1, 10);
    cache.put(1, 11);
    assert_eq!(*cache.get(1).unwrap(), 11);
    cache.put(2, 20);
    assert_eq!(*cache.get(1).unwrap(), 11);
    assert_eq!(*cache.get(2).unwrap(), 20);
}

#[test]
fn cache_with_zero_capacity_keeps_entries() {
    let mut cache = LRUBLockCache::new(0);
    cache.put(1, 10);
    cache.put(2, 20);
    cache.put(3, 30);
    assert_eq!(*cache.get(1).unwrap(), 10);
    assert_eq!(*cache.get(3).unwrap(), 30);
}

#[test]
fn cache_get_missing_is_none() {
    let mut cache: LRUBLockCache<i32> = LRUBLockCache::new(4);
    assert!(cache.get(9).is_none());
}

#[test]
fn list_reuses_emptied_slots() {
    let mut list = List::new();
    for round in 0..3u64 {
        list.push_back(round, round * 10);
        list.push_back(round + 100, round * 10 + 1);
        assert_eq!(*list.pop_front().unwrap(), round * 10);
        assert_eq!(*list.pop_front().unwrap(), round * 10 + 1);
    }
    assert!(list.pop_front().is_none());
}

#[test]
fn cache_put_again_leaves_old_entry_queued() {
    let mut cache = LRUBLockCache::new(2);
    cache.put(1, 10);
    cache.put(1, 11);
    cache.put(2, 20);
    assert_eq!(*cache.get(1).unwrap(), 11);
    // the old entry of 1 is taken off first, and takes key 1 with it
    cache.put(3, 30);
    assert!(cache.get(1).is_none());
    assert_eq!(*cache.get(2).unwrap(), 20);
    assert_eq!(*cache.get(3).unwrap(), 30);
}

#[test]
fn cache_can_hold_more_keys_than_capacity_after_put_again() {
    let mut cache = LRUBLockCache::new(2);
    cache.put(1, 10);
    cache.put(1, 11);
    cache.put(2, 20);
    cache.put(3, 30);
    // the stale entry of 1 goes first; key 1 is forgotten
    assert!(cache.get(1).is_none());
    cache.put(4, 40);
    // its front entry held no key, so three keys are now held
    assert_eq!(*cache.get(2).unwrap(), 20);
    assert_eq!(*cache.get(3).unwrap(), 30);
    assert_eq!(*cache.get(4).unwrap(), 40);
}
