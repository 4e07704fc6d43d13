//! Scenario tests driving the cache engine one message at a time, with
//! the test acting as the runtime: it runs loaders, commits their
//! outcomes, and re-submits retries, exactly as the engine's answers ask.

use cache_loader_async::backing::BackingError;
use cache_loader_async::backing::HashMapBacking;
use cache_loader_async::backing::TtlError;
use cache_loader_async::cache_api::interpret_response;
use cache_loader_async::cache_api::interpret_update_retry;
use cache_loader_async::cache_api::plan_loader_commit;
use cache_loader_async::cache_api::CacheEntry;
use cache_loader_async::cache_api::CacheLoadingError;
use cache_loader_async::cache_api::CacheResult;
use cache_loader_async::cache_api::LoaderCommit;
use cache_loader_async::cache_api::PendingWork;
use cache_loader_async::internal_cache::InternalCacheStore;
use cache_loader_async::ThingOne;
use cache_loader_async::ThingTwo;

type StringEngine =
    InternalCacheStore<String, String, HashMapBacking<String, CacheEntry<String>>>;

fn string_engine() -> StringEngine {
    InternalCacheStore::new(HashMapBacking::new())
}

/// Runs the lowercase loader for a key the engine asked to load, and
/// commits the outcome, as the loader task would.
fn run_lowercase_loader(engine: &mut StringEngine, key: &str, now: u64) {
    let value = key.to_lowercase();
    let (commit, outcome) = plan_loader_commit::<String, u8>(Ok(value.clone()));
    match commit {
        LoaderCommit::Install(v) => {
            engine.set(key.to_string(), v, true, None, now);
        }
        LoaderCommit::Discard => panic!("a successful load must commit"),
    }
    assert_eq!(outcome.unwrap(), value);
}

#[test]
fn test_load() {
    let mut one: InternalCacheStore<String, ThingOne, HashMapBacking<String, CacheEntry<ThingOne>>> =
        InternalCacheStore::new(HashMapBacking::new());
    let mut two: InternalCacheStore<String, ThingTwo, HashMapBacking<String, CacheEntry<ThingTwo>>> =
        InternalCacheStore::new(HashMapBacking::new());

    // the static databases the loaders read from
    let db_one = vec![("foo".to_string(), 32u8), ("bar".to_string(), 64u8)];
    let db_two = vec![
        ("fizz".to_string(), "buzz".to_string()),
        ("coca".to_string(), "cola".to_string()),
    ];

    // a miss asks for a load; the loader resolves from the database
    match one.get("foo".to_string(), 0) {
        CacheResult::Loading(PendingWork::Load(_)) => {
            let v = db_one.iter().find(|p| p.0 == "foo").map(|p| p.1).unwrap();
            one.set("foo".to_string(), ThingOne(v), true, None, 0);
        }
        _ => panic!("expected a fresh load"),
    }
    match two.get("fizz".to_string(), 0) {
        CacheResult::Loading(PendingWork::Load(_)) => {
            let v = db_two.iter().find(|p| p.0 == "fizz").map(|p| p.1.clone()).unwrap();
            two.set("fizz".to_string(), ThingTwo(v), true, None, 0);
        }
        _ => panic!("expected a fresh load"),
    }

    let result_one = match one.get("foo".to_string(), 1) {
        CacheResult::Found(v) => v.0,
        _ => panic!("expected the loaded value"),
    };
    let result_two = match two.get("fizz".to_string(), 1) {
        CacheResult::Found(v) => v.0,
        _ => panic!("expected the loaded value"),
    };
    println!("test_load one: {}", result_one);
    println!("test_load two: {}", result_two);
    assert_eq!(result_one, 32);
    assert_eq!(result_two, "buzz".to_string());
}

#[test]
fn test_write() {
    let mut cache = string_engine();
    match cache.get("LOL".to_string(), 0) {
        CacheResult::Loading(PendingWork::Load(_)) => run_lowercase_loader(&mut cache, "LOL", 0),
        _ => panic!("expected a fresh load"),
    }
    match cache.get("LOL".to_string(), 1) {
        CacheResult::Found(v) => assert_eq!(v, "lol".to_string()),
        _ => panic!("expected the loaded value"),
    }
    cache.set("test".to_string(), "BIG".to_string(), false, None, 2);
    match cache.get("test".to_string(), 3) {
        CacheResult::Found(v) => assert_eq!(v, "BIG".to_string()),
        _ => panic!("a user set bypasses the loader"),
    }
}

#[test]
fn get_if_present() {
    let mut cache = string_engine();
    assert!(matches!(
        cache.get_if_present("test".to_string(), 0),
        CacheResult::Absent
    ));
    cache.set("test".to_string(), "ok".to_string(), false, None, 1);
    match cache.get_if_present("test".to_string(), 2) {
        CacheResult::Found(v) => assert_eq!(v, "ok".to_string()),
        _ => panic!("the value was just set"),
    }
}

#[test]
fn exists_reports_presence() {
    let mut cache = string_engine();
    assert!(matches!(
        cache.get_if_present("test".to_string(), 0),
        CacheResult::Absent
    ));
    cache.set("test".to_string(), "ok".to_string(), false, None, 1);
    assert!(matches!(
        cache.get_if_present("test".to_string(), 2),
        CacheResult::Found(_)
    ));
}

#[test]
fn single_flight_joins_inflight_load() {
    let mut cache = string_engine();
    let first = match cache.get("key".to_string(), 0) {
        CacheResult::Loading(PendingWork::Load(a)) => a,
        _ => panic!("expected a fresh load"),
    };
    // a second lookup while the load is in flight joins the announcer
    match cache.get("key".to_string(), 1) {
        CacheResult::Loading(PendingWork::Subscribe(a)) => assert_eq!(a, first),
        _ => panic!("a second loader must not start"),
    }
    match cache.get("key".to_string(), 2) {
        CacheResult::Loading(PendingWork::Subscribe(a)) => assert_eq!(a, first),
        _ => panic!("a second loader must not start"),
    }
}

#[test]
fn test_update() {
    let mut cache = string_engine();

    // updating an existing key
    cache.set("woob".to_string(), "Woob".to_string(), false, None, 0);
    let (r, _) = cache.update(
        "woob".to_string(),
        |value: String| {
            let mut value = value.clone();
            value.push_str("Woob");
            value
        },
        true,
        None,
        1,
    );
    let result = match r {
        CacheResult::Found(v) => v,
        _ => panic!("expected the updated value"),
    };
    println!(
        "Result of updating existing key woob -> Woob with append Woob: {}",
        result
    );
    assert_eq!(result, "WoobWoob".to_string());

    // updating a key that must be loaded first
    let append_magic = |value: String| {
        let mut value = value.clone();
        value.push_str("_magic");
        value
    };
    let (r, f) = cache.update("TEST".to_string(), append_magic, true, None, 2);
    match r {
        CacheResult::Retry(PendingWork::Load(_)) => run_lowercase_loader(&mut cache, "TEST", 2),
        _ => panic!("an absent key must be loaded first"),
    }
    let (r, _) = cache.update("TEST".to_string(), f.unwrap(), true, None, 3);
    let result = interpret_update_retry::<String, u8>(r, false).unwrap();
    println!(
        "Result of updating loaded key test -> test with append _magic: {}",
        result
    );
    assert_eq!(result, "test_magic".to_string());

    // a user set during the load wins over the loader (the race rule)
    let append_condition = |value: String| {
        let mut value = value.clone();
        value.push_str("_condition");
        value
    };
    let (r, f) = cache.update("monka".to_string(), append_condition, true, None, 4);
    assert!(matches!(r, CacheResult::Retry(PendingWork::Load(_))));
    // the user's set arrives while the loader still runs
    cache.set("monka".to_string(), "race".to_string(), false, None, 5);
    // the loader finishes and tries to commit; the commit is rejected
    assert!(matches!(
        cache.set("monka".to_string(), "monka".to_string(), true, None, 6),
        CacheResult::Absent
    ));
    // the update retries on the user's value
    let (r, _) = cache.update("monka".to_string(), f.unwrap(), true, None, 7);
    let result = interpret_update_retry::<String, u8>(r, false).unwrap();
    println!(
        "Result of updating loaded key while setting key manually with append _condition: {}",
        result
    );
    assert_eq!(result, "race_condition".to_string());
}

#[test]
fn test_update_mut() {
    let mut cache = string_engine();

    cache.set("woob".to_string(), "Woob".to_string(), false, None, 0);
    let (r, _) = cache.update_mut(
        "woob".to_string(),
        |value: String| {
            let mut value = value;
            value.push_str("Woob");
            value
        },
        true,
        1,
    );
    let result = match r {
        CacheResult::Found(v) => v,
        _ => panic!("expected the updated value"),
    };
    println!(
        "Result of updating existing key woob -> Woob with append Woob: {}",
        result
    );
    assert_eq!(result, "WoobWoob".to_string());

    let append_magic = |value: String| {
        let mut value = value;
        value.push_str("_magic");
        value
    };
    let (r, f) = cache.update_mut("TEST".to_string(), append_magic, true, 2);
    match r {
        CacheResult::Retry(PendingWork::Load(_)) => run_lowercase_loader(&mut cache, "TEST", 2),
        _ => panic!("an absent key must be loaded first"),
    }
    let (r, _) = cache.update_mut("TEST".to_string(), f.unwrap(), true, 3);
    let result = interpret_update_retry::<String, u8>(r, true).unwrap();
    println!(
        "Result of updating loaded key test -> test with append _magic: {}",
        result
    );
    assert_eq!(result, "test_magic".to_string());

    let append_condition = |value: String| {
        let mut value = value;
        value.push_str("_condition");
        value
    };
    let (r, f) = cache.update_mut("monka".to_string(), append_condition, true, 4);
    assert!(matches!(r, CacheResult::Retry(PendingWork::Load(_))));
    cache.set("monka".to_string(), "race".to_string(), false, None, 5);
    assert!(matches!(
        cache.set("monka".to_string(), "monka".to_string(), true, None, 6),
        CacheResult::Absent
    ));
    let (r, _) = cache.update_mut("monka".to_string(), f.unwrap(), true, 7);
    let result = interpret_update_retry::<String, u8>(r, true).unwrap();
    println!(
        "Result of updating loaded key while setting key manually with append _condition: {}",
        result
    );
    assert_eq!(result, "race_condition".to_string());
}

#[test]
fn update_if_exists() {
    let mut cache = string_engine();
    cache.set("test".to_string(), "test".to_string(), false, None, 0);

    let (r, _) = cache.update(
        "test2".to_string(),
        |val: String| {
            let mut clone = val.clone();
            clone.push_str("test");
            clone
        },
        false,
        None,
        1,
    );
    assert!(matches!(r, CacheResult::Absent));

    let (r, _) = cache.update(
        "test".to_string(),
        |val: String| {
            let mut clone = val.clone();
            clone.push_str("test");
            clone
        },
        false,
        None,
        2,
    );
    match r {
        CacheResult::Found(v) => assert_eq!(v, "testtest"),
        _ => panic!("the key exists, so it is updated"),
    }
}

#[test]
fn update_mut_if_exists() {
    let mut cache = string_engine();
    cache.set("test".to_string(), "test".to_string(), false, None, 0);

    let (r, _) = cache.update_mut(
        "test2".to_string(),
        |val: String| {
            let mut val = val;
            val.push_str("test");
            val
        },
        false,
        1,
    );
    assert!(matches!(r, CacheResult::Absent));

    let (r, _) = cache.update_mut(
        "test".to_string(),
        |val: String| {
            let mut val = val;
            val.push_str("test");
            val
        },
        false,
        2,
    );
    match r {
        CacheResult::Found(v) => assert_eq!(v, "testtest"),
        _ => panic!("the key exists, so it is updated"),
    }
}

#[test]
fn remove() {
    let mut cache = string_engine();
    cache.set("test".to_string(), "lol".to_string(), false, None, 0);
    match cache.get("test".to_string(), 1) {
        CacheResult::Found(v) => assert_eq!(v, "lol".to_string()),
        _ => panic!("the value was just set"),
    }
    match cache.remove("test".to_string(), 2) {
        CacheResult::Found(v) => assert_eq!(v, "lol".to_string()),
        _ => panic!("the removed value is answered"),
    }
    // the next lookup loads afresh
    match cache.get("test".to_string(), 3) {
        CacheResult::Loading(PendingWork::Load(_)) => run_lowercase_loader(&mut cache, "test", 3),
        _ => panic!("a removed key must be loaded again"),
    }
    match cache.get("test".to_string(), 4) {
        CacheResult::Found(v) => assert_eq!(v, "test".to_string()),
        _ => panic!("expected the freshly loaded value"),
    }
}

#[test]
fn remove_between_load_and_commit() {
    let mut cache = string_engine();
    // a load starts
    assert!(matches!(
        cache.get("k".to_string(), 0),
        CacheResult::Loading(PendingWork::Load(_))
    ));
    // the client removes the key while the loader still runs
    cache.remove("k".to_string(), 1);
    // the loader finishes and tries to commit "x"; the commit is rejected
    assert!(matches!(
        cache.set("k".to_string(), "x".to_string(), true, None, 2),
        CacheResult::Absent
    ));
    assert!(matches!(
        cache.get_if_present("k".to_string(), 3),
        CacheResult::Absent
    ));
}

#[test]
fn remove_if() {
    let mut cache: InternalCacheStore<u64, u64, HashMapBacking<u64, CacheEntry<u64>>> =
        InternalCacheStore::new(HashMapBacking::new());
    cache.set(1, 2, false, None, 0);
    cache.set(2, 4, false, None, 0);
    cache.set(3, 6, false, None, 0);
    cache.set(4, 8, false, None, 0);
    cache.set(5, 10, false, None, 0);

    for k in 1u64..=5 {
        assert!(matches!(cache.get_if_present(k, 1), CacheResult::Found(_)));
    }

    let r = cache.remove_if(|k: u64, _v: Option<u64>| k > 3, 2);
    assert!(matches!(r, CacheResult::Absent));

    assert!(matches!(cache.get_if_present(1, 3), CacheResult::Found(_)));
    assert!(matches!(cache.get_if_present(2, 3), CacheResult::Found(_)));
    assert!(matches!(cache.get_if_present(3, 3), CacheResult::Found(_)));
    // the next two were removed
    assert!(matches!(cache.get_if_present(4, 3), CacheResult::Absent));
    assert!(matches!(cache.get_if_present(5, 3), CacheResult::Absent));
}

#[test]
fn clear_empties_everything() {
    let mut cache = string_engine();
    cache.set("a".to_string(), "1".to_string(), false, None, 0);
    cache.set("b".to_string(), "2".to_string(), false, None, 0);
    cache.clear(1);
    assert!(matches!(
        cache.get_if_present("a".to_string(), 2),
        CacheResult::Absent
    ));
    assert!(matches!(
        cache.get_if_present("b".to_string(), 2),
        CacheResult::Absent
    ));
}

#[test]
fn load_error() {
    let mut cache = string_engine();
    // the loader always fails with 5
    assert!(matches!(
        cache.get("test".to_string(), 0),
        CacheResult::Loading(PendingWork::Load(_))
    ));
    let (commit, outcome) = plan_loader_commit::<String, u8>(Err(5));
    assert!(matches!(commit, LoaderCommit::Discard));
    cache.unblock("test".to_string(), 1);
    match outcome {
        Err(CacheLoadingError::LoadingError(val)) => assert_eq!(val, 5),
        _ => panic!("Unexpected error type"),
    }
    // the failure is not cached
    assert!(matches!(
        cache.get_if_present("test".to_string(), 2),
        CacheResult::Absent
    ));
}

#[test]
fn meta() {
    let mut cache = string_engine();
    // first lookup: loaded, not cached
    let r = cache.get("key".to_string(), 0);
    assert!(matches!(r, CacheResult::Loading(PendingWork::Load(_))));
    run_lowercase_loader(&mut cache, "key", 0);
    let out = interpret_response::<String, u8>(r, Some(Ok("key".to_string())));
    let meta = out.unwrap().unwrap();
    assert!(!meta.cached);
    // second lookup: answered from resident state
    let r = cache.get("key".to_string(), 1);
    assert!(matches!(r, CacheResult::Found(_)));
    let out = interpret_response::<String, u8>(r, None);
    let meta = out.unwrap().unwrap();
    assert!(meta.cached);
    assert_eq!(meta.result, "key".to_string());
}

#[test]
fn interpret_absent_and_errors() {
    // absence maps to Ok(None)
    let out = interpret_response::<String, u8>(CacheResult::Absent, None);
    assert!(matches!(out, Ok(None)));
    // an awaited loader failure is surfaced verbatim
    let out = interpret_response::<String, u8>(
        CacheResult::Loading(PendingWork::Subscribe(7)),
        Some(Err(CacheLoadingError::LoadingError(9))),
    );
    match out {
        Err(CacheLoadingError::LoadingError(e)) => assert_eq!(e, 9),
        _ => panic!("the loader error must pass through"),
    }
    // a retried update that still finds a load in flight is a lookup loop
    let out = interpret_update_retry::<String, u8>(
        CacheResult::Loading(PendingWork::Subscribe(7)),
        false,
    );
    assert!(matches!(out, Err(CacheLoadingError::LookupLoop)));
    // a retried in-place update that finds its key gone reports no data
    let out = interpret_update_retry::<String, u8>(CacheResult::Absent, true);
    assert!(matches!(out, Err(CacheLoadingError::NoData)));
}

#[test]
fn remove_is_idempotent() {
    let mut cache = string_engine();
    cache.set("k".to_string(), "v".to_string(), false, None, 0);
    match cache.remove("k".to_string(), 1) {
        CacheResult::Found(v) => assert_eq!(v, "v".to_string()),
        _ => panic!("the first removal answers the value"),
    }
    // removing again changes nothing and answers absence
    assert!(matches!(
        cache.remove("k".to_string(), 2),
        CacheResult::Absent
    ));
    assert!(matches!(
        cache.get_if_present("k".to_string(), 3),
        CacheResult::Absent
    ));
}

#[test]
fn backing_error_is_surfaced() {
    // a structural failure in the outcome is wrapped for the caller
    let be = BackingError::TtlError(TtlError::ExpiryNotFound);
    let out = interpret_response::<String, u8>(CacheResult::Error(be), None);
    match out {
        Err(CacheLoadingError::BackingError(BackingError::TtlError(TtlError::ExpiryNotFound))) => {}
        _ => panic!("the backing failure must be wrapped"),
    }
    let be = BackingError::TtlError(TtlError::ExpiryKeyNotFound);
    let out = interpret_update_retry::<String, u8>(CacheResult::Error(be), false);
    match out {
        Err(CacheLoadingError::BackingError(BackingError::TtlError(
            TtlError::ExpiryKeyNotFound,
        ))) => {}
        _ => panic!("the backing failure must be wrapped"),
    }
}
