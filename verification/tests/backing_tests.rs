//! Tests of the backing stores: the unbounded map, the bounded
//! least-recently-used store, and the time-to-live store with its expiry
//! index, driven directly and through the engine with an explicit clock.

use cache_loader_async::backing::BackingError;
use cache_loader_async::backing::CacheBacking;
use cache_loader_async::backing::HashMapBacking;
use cache_loader_async::backing_lru::LruCacheBacking;
use cache_loader_async::backing_ttl::TtlCacheBacking;
use cache_loader_async::backing_ttl::TtlMeta;
use cache_loader_async::cache_api::CacheEntry;
use cache_loader_async::cache_api::CacheResult;
use cache_loader_async::cache_api::PendingWork;
use cache_loader_async::internal_cache::InternalCacheStore;

fn unwrap<T>(r: Result<T, BackingError>) -> T {
    match r {
        Ok(v) => v,
        Err(_) => panic!("the verified backings never report a failure"),
    }
}

#[test]
fn hash_map_backing_basics() {
    let mut b: HashMapBacking<String, u64> = HashMapBacking::new();
    assert_eq!(unwrap(b.get(&"a".to_string(), 0)), None);
    assert_eq!(unwrap(b.set("a".to_string(), 1, None, 0)), None);
    assert_eq!(unwrap(b.set("a".to_string(), 2, None, 0)), Some(1));
    assert_eq!(unwrap(b.get(&"a".to_string(), 0)), Some(2));
    assert!(unwrap(b.contains_key(&"a".to_string(), 0)));
    assert!(!unwrap(b.contains_key(&"b".to_string(), 0)));
    assert_eq!(unwrap(b.swap_value(&"a".to_string(), 5, 0)), Some(2));
    assert_eq!(unwrap(b.get(&"a".to_string(), 0)), Some(5));
    assert_eq!(unwrap(b.swap_value(&"missing".to_string(), 9, 0)), None);
    assert_eq!(unwrap(b.remove(&"a".to_string(), 0)), Some(5));
    assert_eq!(unwrap(b.remove(&"a".to_string(), 0)), None);
}

#[test]
fn hash_map_backing_construct_last_wins() {
    let b: HashMapBacking<String, u64> = HashMapBacking::construct(vec![
        ("x".to_string(), 1),
        ("y".to_string(), 2),
        ("x".to_string(), 3),
    ]);
    let mut b = b;
    assert_eq!(unwrap(b.get(&"x".to_string(), 0)), Some(3));
    assert_eq!(unwrap(b.get(&"y".to_string(), 0)), Some(2));
}

#[test]
fn hash_map_backing_remove_if_and_clear() {
    let mut b: HashMapBacking<u64, u64> = HashMapBacking::new();
    for k in 1u64..=6 {
        unwrap(b.set(k, k * 10, None, 0));
    }
    let removed = unwrap(b.remove_if(|k: u64, _v: u64| k % 2 == 0, 0));
    assert_eq!(removed.len(), 3);
    for (k, v) in removed.iter() {
        assert!(k % 2 == 0);
        assert_eq!(*v, k * 10);
    }
    assert_eq!(unwrap(b.get(&1, 0)), Some(10));
    assert_eq!(unwrap(b.get(&2, 0)), None);
    unwrap(b.clear(0));
    assert_eq!(unwrap(b.get(&1, 0)), None);
}

#[test]
fn lru_backing_capacity_and_eviction() {
    // capacity two: the least recently touched key falls out
    let mut b: LruCacheBacking<String, u64> = LruCacheBacking::new(2);
    assert_eq!(b.store("a".to_string(), 1), None);
    assert_eq!(b.store("b".to_string(), 2), None);
    // touch "a": "b" becomes least recently used
    assert_eq!(b.lookup(&"a".to_string()), Some(1));
    // a third key evicts "b", the least recently touched
    assert_eq!(b.store("c".to_string(), 3), None);
    assert_eq!(b.lookup(&"b".to_string()), None);
    assert_eq!(b.lookup(&"a".to_string()), Some(1));
    assert_eq!(b.lookup(&"c".to_string()), Some(3));
}

#[test]
fn lru_eviction_through_engine() {
    // set("a",1); set("b",2); get("a"); set("c",3): "b" is evicted
    let mut cache: InternalCacheStore<String, u64, LruCacheBacking<String, CacheEntry<u64>>> =
        InternalCacheStore::new(LruCacheBacking::new(2));
    cache.set("a".to_string(), 1, false, None, 0);
    cache.set("b".to_string(), 2, false, None, 1);
    assert!(matches!(
        cache.get_if_present("a".to_string(), 2),
        CacheResult::Found(1)
    ));
    cache.set("c".to_string(), 3, false, None, 3);
    assert!(matches!(
        cache.get_if_present("b".to_string(), 4),
        CacheResult::Absent
    ));
    assert!(matches!(
        cache.get_if_present("a".to_string(), 5),
        CacheResult::Found(1)
    ));
    assert!(matches!(
        cache.get_if_present("c".to_string(), 6),
        CacheResult::Found(3)
    ));
}

#[test]
fn test_lru_backing() {
    let mut cache: InternalCacheStore<String, String, LruCacheBacking<String, CacheEntry<String>>> =
        InternalCacheStore::new(LruCacheBacking::new(2));

    cache.set("key1".to_string(), "value1".to_lowercase(), false, None, 0);
    cache.set("key2".to_string(), "value2".to_lowercase(), false, None, 1);
    // the cache is full

    match cache.get("key1".to_string(), 2) {
        CacheResult::Found(v) => assert_eq!(v, "value1".to_lowercase()),
        _ => panic!("key1 is resident"),
    }

    // key1 was reused, so key1 is more recent than key2
    cache.set("key3".to_string(), "value3".to_lowercase(), false, None, 3);

    match cache.get("key1".to_string(), 4) {
        CacheResult::Found(v) => assert_eq!(v, "value1".to_lowercase()),
        _ => panic!("key1 survived the eviction"),
    }
    match cache.get("key3".to_string(), 5) {
        CacheResult::Found(v) => assert_eq!(v, "value3".to_lowercase()),
        _ => panic!("key3 was just set"),
    }
    // key2 was evicted: the next lookup must load it afresh
    match cache.get("key2".to_string(), 6) {
        CacheResult::Loading(PendingWork::Load(_)) => {
            cache.set("key2".to_string(), "key2".to_lowercase(), true, None, 6);
        }
        _ => panic!("key2 must have been evicted"),
    }
    match cache.get("key2".to_string(), 7) {
        CacheResult::Found(v) => assert_eq!(v, "key2".to_lowercase()),
        _ => panic!("key2 was reloaded"),
    }

    cache.set("remove_test".to_string(), "delete_me".to_lowercase(), false, None, 8);
    cache.remove("remove_test".to_string(), 9);
    match cache.get("remove_test".to_string(), 10) {
        CacheResult::Loading(PendingWork::Load(_)) => {
            cache.set(
                "remove_test".to_string(),
                "remove_test".to_lowercase(),
                true,
                None,
                10,
            );
        }
        _ => panic!("a removed key must be loaded again"),
    }
    match cache.get("remove_test".to_string(), 11) {
        CacheResult::Found(v) => assert_eq!(v, "remove_test".to_lowercase()),
        _ => panic!("the reloaded value stands"),
    }
}

#[test]
fn ttl_backing_expiry_with_explicit_clock() {
    // default time to live: three seconds
    let mut b: TtlCacheBacking<String, String, _> = TtlCacheBacking::new(3000);
    unwrap(b.set_entry("k1".to_string(), "v1".to_string(), None, 0));
    unwrap(b.set_entry("k2".to_string(), "v2".to_string(), None, 2000));
    // two seconds in: both alive
    assert_eq!(unwrap(b.get(&"k1".to_string(), 2000)), Some("v1".to_string()));
    assert_eq!(unwrap(b.get(&"k2".to_string(), 2000)), Some("v2".to_string()));
    // four seconds in: k1 expired, k2 alive
    assert!(!b.contains_live(&"k1".to_string(), 4000));
    assert!(b.contains_live(&"k2".to_string(), 4000));
    assert_eq!(unwrap(b.get(&"k1".to_string(), 4000)), None);
    assert_eq!(unwrap(b.get(&"k2".to_string(), 4000)), Some("v2".to_string()));
}

#[test]
fn test_ttl_backing() {
    let mut cache: InternalCacheStore<
        String,
        String,
        TtlCacheBacking<String, CacheEntry<String>, _>,
    > = InternalCacheStore::new(TtlCacheBacking::new(3000));

    cache.set("key1".to_string(), "value1".to_lowercase(), false, None, 0);
    cache.set("key2".to_string(), "value2".to_lowercase(), false, None, 2000);

    match cache.get("key1".to_string(), 2000) {
        CacheResult::Found(v) => assert_eq!(v, "value1".to_lowercase()),
        _ => panic!("key1 is still alive"),
    }
    match cache.get("key2".to_string(), 2000) {
        CacheResult::Found(v) => assert_eq!(v, "value2".to_lowercase()),
        _ => panic!("key2 is still alive"),
    }

    // two more seconds: key1's three seconds have passed
    assert!(matches!(
        cache.get_if_present("key1".to_string(), 4000),
        CacheResult::Absent
    ));
}

#[test]
fn test_ttl_load_meta() {
    // per-key time to live carried by the loader's meta: five seconds for
    // short keys, the one-second default otherwise
    let mut cache: InternalCacheStore<
        String,
        String,
        TtlCacheBacking<String, CacheEntry<String>, _>,
    > = InternalCacheStore::new(TtlCacheBacking::new(1000));

    for key in ["a", "bbbbb"] {
        match cache.get(key.to_string(), 0) {
            CacheResult::Loading(PendingWork::Load(_)) => {
                let meta = if key.len() < 5 {
                    Some(TtlMeta { ttl: 5000 })
                } else {
                    None
                };
                cache.set(key.to_string(), key.to_lowercase(), true, meta, 0);
            }
            _ => panic!("expected a fresh load"),
        }
        match cache.get(key.to_string(), 0) {
            CacheResult::Found(v) => assert_eq!(v, key.to_lowercase()),
            _ => panic!("the loaded value is resident"),
        }
    }

    // two seconds in: the short key lives on, the long one expired
    assert!(matches!(
        cache.get_if_present("a".to_string(), 2000),
        CacheResult::Found(_)
    ));
    assert!(matches!(
        cache.get_if_present("bbbbb".to_string(), 2000),
        CacheResult::Absent
    ));
}

#[test]
fn ttl_shared_deadline_records() {
    // several keys bound at the same instant share a deadline; excising
    // one must find its own record among the equal-deadline block
    let mut b: TtlCacheBacking<String, u64, _> = TtlCacheBacking::new(1000);
    unwrap(b.set_entry("a".to_string(), 1, None, 0));
    unwrap(b.set_entry("b".to_string(), 2, None, 0));
    unwrap(b.set_entry("c".to_string(), 3, None, 0));
    assert_eq!(unwrap(b.remove_entry(&"b".to_string(), 10)), Some(2));
    assert_eq!(unwrap(b.get(&"a".to_string(), 10)), Some(1));
    assert_eq!(unwrap(b.get(&"b".to_string(), 10)), None);
    assert_eq!(unwrap(b.get(&"c".to_string(), 10)), Some(3));
    // rebinding refreshes the deadline
    unwrap(b.set_entry("a".to_string(), 7, None, 900));
    assert!(b.contains_live(&"a".to_string(), 1500));
    assert!(!b.contains_live(&"c".to_string(), 1500));
}

#[test]
fn ttl_remove_if_cleans_index() {
    let mut b: TtlCacheBacking<u64, u64, _> = TtlCacheBacking::new(10_000);
    for k in 1u64..=4 {
        unwrap(b.set_entry(k, k * 2, None, k));
    }
    let removed = unwrap(b.remove_if(|k: u64, _v: u64| k <= 2, 5));
    assert_eq!(removed.len(), 2);
    assert_eq!(unwrap(b.get(&1, 6)), None);
    assert_eq!(unwrap(b.get(&2, 6)), None);
    assert_eq!(unwrap(b.get(&3, 6)), Some(6));
    assert_eq!(unwrap(b.get(&4, 6)), Some(8));
    unwrap(b.clear(7));
    assert_eq!(unwrap(b.get(&3, 8)), None);
}

#[test]
fn lru_in_place_mutation_promotes() {
    let mut b: LruCacheBacking<String, u64> = LruCacheBacking::new(2);
    b.store("a".to_string(), 1);
    b.store("b".to_string(), 2);
    // mutate "a" in place: it becomes the most recently touched
    match b.lookup_mut(&"a".to_string()) {
        Some(v) => *v = 11,
        None => panic!("a is resident"),
    }
    b.store("c".to_string(), 3);
    // "b" was least recently touched and fell out; the new value stands
    assert_eq!(b.lookup(&"b".to_string()), None);
    assert_eq!(b.lookup(&"a".to_string()), Some(11));
}

#[test]
fn ttl_remove_if_sweeps_expired_first() {
    // an expired entry is swept by the removal pass, not tested by the
    // predicate and not returned
    let mut b: TtlCacheBacking<String, u64, _> = TtlCacheBacking::new(1000);
    unwrap(b.set_entry("old".to_string(), 1, None, 0));
    unwrap(b.set_entry("young".to_string(), 2, None, 5000));
    // at 6000 "old" has long expired; the predicate would select both
    let removed = unwrap(b.remove_if(|_k: String, _v: u64| true, 5500));
    assert_eq!(removed.len(), 1);
    assert_eq!(removed[0].0, "young".to_string());
    assert_eq!(removed[0].1, 2);
    assert_eq!(unwrap(b.get(&"old".to_string(), 5500)), None);
    assert_eq!(unwrap(b.get(&"young".to_string(), 5500)), None);
}

#[test]
fn ttl_in_place_update_keeps_deadline() {
    // swapping the value of a live entry keeps its deadline: the entry
    // still expires at its original time
    let mut b: TtlCacheBacking<String, u64, _> = TtlCacheBacking::new(1000);
    unwrap(b.set_entry("k".to_string(), 1, None, 0));
    assert_eq!(unwrap(b.swap_entry(&"k".to_string(), 9, 500)), Some(1));
    assert!(b.contains_live(&"k".to_string(), 800));
    assert_eq!(unwrap(b.get_entry(&"k".to_string(), 800)), Some(9));
    // had the swap refreshed the deadline, the entry would live to 1500
    assert!(!b.contains_live(&"k".to_string(), 1100));
    assert_eq!(unwrap(b.get_entry(&"k".to_string(), 1100)), None);
}

#[test]
fn lru_swap_and_contains() {
    let mut b: LruCacheBacking<String, u64> = LruCacheBacking::new(2);
    b.store("a".to_string(), 1);
    b.store("b".to_string(), 2);
    assert!(b.contains(&"a".to_string()));
    assert!(!b.contains(&"c".to_string()));
    // swapping "a" promotes it, so "b" is evicted next
    assert_eq!(b.swap(&"a".to_string(), 11), Some(1));
    assert_eq!(b.swap(&"missing".to_string(), 5), None);
    b.store("c".to_string(), 3);
    assert!(!b.contains(&"b".to_string()));
    assert_eq!(b.lookup(&"a".to_string()), Some(11));
}

#[test]
fn lru_remove_where_is_exact() {
    let mut b: LruCacheBacking<u64, u64> = LruCacheBacking::new(10);
    for k in 1u64..=6 {
        b.store(k, k * 10);
    }
    let removed = b.remove_where(|k: u64, _v: u64| k % 2 == 0);
    assert_eq!(removed.len(), 3);
    for (k, v) in removed.iter() {
        assert!(k % 2 == 0);
        assert_eq!(*v, k * 10);
    }
    assert_eq!(b.lookup(&1), Some(10));
    assert_eq!(b.lookup(&2), None);
    assert_eq!(b.lookup(&3), Some(30));
}
