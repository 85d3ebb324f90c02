use ttl_cache::{Cache, SweeperState};

#[test]
fn test_cache_init() {
    Cache::<i32>::new().with_max_size(15).with_ttl(1000);
}

#[test]
fn test_cache_max_keys() {
    let mut cache = Cache::<i32>::new().with_max_size(2);
    cache.put("hello1".into(), 5, 0);
    cache.put("hello2".into(), 6, 0);
    cache.put("hello3".into(), 7, 0);

    assert_eq!(cache.keys(0).len(), 2);
    assert!(!cache.contains_key(&"hello1".into(), 0));
}

#[test]
fn test_cache_put_and_get() {
    let mut cache: Cache<i32> = Cache::new();
    cache.put("hello1".into(), 5, 0);
    cache.put("hello2".into(), 6, 0);
    cache.put("hello3".into(), 7, 0);

    let expected: i32 = 5;
    assert_eq!(cache.get(&"hello1".to_string(), 0).unwrap(), expected);
    assert_eq!(cache.get(&"hello2".to_string(), 0).unwrap(), expected + 1);
    assert_eq!(cache.get(&"hello3".to_string(), 0).unwrap(), expected + 2);
}

#[test]
fn test_cache_remove() {
    let mut cache: Cache<i32> = Cache::new();
    cache.put("hello1".into(), 5, 0);
    cache.put("hello2".into(), 5, 0);
    cache.remove(&"hello1".into());

    let expected: i32 = 5;
    assert!(cache.get(&"hello1".to_string(), 0).is_none());
    assert_eq!(cache.get(&"hello2".to_string(), 0).unwrap(), expected);
}

#[test]
fn test_cache_ttl() {
    let mut cache: Cache<i32> = Cache::new().with_max_size(15).with_ttl(10);
    cache.put("hello1".into(), 5, 0);
    cache.put("hello2".into(), 6, 0);
    cache.put("hello3".into(), 7, 0);
    assert!(cache.keys(10).is_empty());
}

#[test]
fn test_cache_ttl_some_expired() {
    let mut cache: Cache<i32> = Cache::new().with_max_size(15).with_ttl(200);
    cache.put("hello1".into(), 5, 0);
    cache.put("hello2".into(), 6, 200);
    cache.put("hello3".into(), 7, 200);
    cache.put("hello4".into(), 5, 200);
    assert!(cache.keys(200).len() == 3);
}

#[test]
fn capacity_bound_is_kept_across_puts() {
    let mut cache: Cache<i32> = Cache::new().with_max_size(3);
    for round in 0..5i32 {
        for n in 0..4i32 {
            cache.put(format!("key{}", n), round * 10 + n, 0);
            assert!(cache.keys(0).len() <= 3);
        }
    }
}

#[test]
fn fifo_evicts_oldest_inserted_key_first() {
    let mut cache: Cache<i32> = Cache::new().with_max_size(3);
    cache.put("k1".into(), 1, 0);
    cache.put("k2".into(), 2, 0);
    cache.put("k3".into(), 3, 0);
    cache.put("k4".into(), 4, 0);
    assert!(!cache.contains_key(&"k1".into(), 0));
    assert!(cache.contains_key(&"k2".into(), 0));
    assert!(cache.contains_key(&"k3".into(), 0));
    assert!(cache.contains_key(&"k4".into(), 0));
}

#[test]
fn overwrite_renews_eviction_priority() {
    // The ledger holds a key once: overwriting moves it to the back, so the
    // next eviction takes the oldest key that was not written again.
    let mut cache: Cache<i32> = Cache::new().with_max_size(2);
    cache.put("a".into(), 1, 0);
    cache.put("b".into(), 2, 0);
    cache.put("a".into(), 3, 0);
    cache.put("c".into(), 4, 0);
    assert!(!cache.contains_key(&"b".into(), 0));
    assert_eq!(cache.get(&"a".to_string(), 0), Some(3));
    assert_eq!(cache.get(&"c".to_string(), 0), Some(4));
}

#[test]
fn zero_capacity_keeps_only_the_latest_put() {
    let mut cache: Cache<i32> = Cache::new().with_max_size(0);
    cache.put("a".into(), 1, 0);
    assert_eq!(cache.get(&"a".to_string(), 0), Some(1));
    cache.put("b".into(), 2, 0);
    assert!(cache.get(&"a".to_string(), 0).is_none());
    assert_eq!(cache.get(&"b".to_string(), 0), Some(2));
    assert_eq!(cache.keys(0).len(), 1);
}

#[test]
fn ttl_boundary_is_strict() {
    let mut cache: Cache<i32> = Cache::new().with_ttl(50);
    cache.put("x".into(), 1, 100);
    let key = "x".to_string();
    assert_eq!(cache.get(&key, 100), Some(1));
    assert_eq!(cache.get(&key, 149), Some(1));
    assert!(cache.contains_key(&key, 149));
    assert_eq!(cache.keys(149), vec!["x".to_string()]);
    assert_eq!(cache.values(149), vec![1]);
    assert!(cache.get(&key, 150).is_none());
    assert!(!cache.contains_key(&key, 150));
    assert!(cache.keys(150).is_empty());
    assert!(cache.values(150).is_empty());
}

#[test]
fn reads_hide_expired_entries_without_a_sweep() {
    // No sweep runs here at all: the reads alone must hide the expired entry.
    let mut cache: Cache<i32> = Cache::new().with_ttl(10);
    cache.put("old".into(), 1, 0);
    cache.put("new".into(), 2, 15);
    assert!(cache.get(&"old".to_string(), 20).is_none());
    assert_eq!(cache.get(&"new".to_string(), 20), Some(2));
    assert_eq!(cache.keys(20), vec!["new".to_string()]);
    assert_eq!(cache.values(20), vec![2]);
}

#[test]
fn sweep_changes_nothing_reads_observe() {
    let mut cache: Cache<i32> = Cache::new().with_ttl(10);
    cache.put("old".into(), 1, 0);
    cache.put("new".into(), 2, 15);
    let keys_before = cache.keys(20);
    let values_before = cache.values(20);
    cache.sweep(20);
    assert_eq!(cache.keys(20), keys_before);
    assert_eq!(cache.values(20), values_before);
    assert!(cache.get(&"old".to_string(), 20).is_none());
    assert_eq!(cache.get(&"new".to_string(), 20), Some(2));
}

#[test]
fn sweep_physically_deletes_expired_entries() {
    let mut cache: Cache<i32> = Cache::new().with_ttl(10);
    cache.put("old".into(), 1, 0);
    cache.sweep(20);
    // after the sweep even an explicit remove finds nothing
    assert!(cache.remove(&"old".into()).is_none());
}

#[test]
fn remove_bypasses_ttl() {
    let mut cache: Cache<i32> = Cache::new().with_ttl(50);
    cache.put("x".into(), 1, 0);
    // logically expired, physically present: no sweep has run
    assert!(cache.get(&"x".to_string(), 100).is_none());
    assert_eq!(cache.remove(&"x".into()), Some(1));
    assert!(cache.remove(&"x".into()).is_none());
}

#[test]
fn remove_on_absent_key_returns_none() {
    let mut cache: Cache<i32> = Cache::new();
    assert!(cache.remove(&"missing".into()).is_none());
}

#[test]
fn put_returns_previous_value() {
    let mut cache: Cache<i32> = Cache::new();
    assert_eq!(cache.put("k".into(), 1, 0), None);
    assert_eq!(cache.put("k".into(), 2, 5), Some(1));
    assert_eq!(cache.get(&"k".to_string(), 5), Some(2));
}

#[test]
fn put_resets_ttl_on_overwrite() {
    let mut cache: Cache<i32> = Cache::new().with_ttl(50);
    cache.put("k".into(), 1, 0);
    cache.put("k".into(), 2, 40);
    // the overwrite at 40 restarts the clock: live until 90
    assert_eq!(cache.get(&"k".to_string(), 60), Some(2));
    assert!(cache.get(&"k".to_string(), 90).is_none());
}

#[test]
fn sweeper_lifecycle_runs_to_stopped() {
    let mut cache: Cache<i32> = Cache::new();
    assert_eq!(cache.sweeper_state(), SweeperState::NotStarted);
    cache = cache.with_ttl(50);
    assert_eq!(cache.sweeper_state(), SweeperState::Running);
    cache.request_stop();
    assert_eq!(cache.sweeper_state(), SweeperState::StopRequested);
    cache.confirm_stopped();
    assert_eq!(cache.sweeper_state(), SweeperState::Stopped);
}

#[test]
fn scenario_capacity_two() {
    let mut cache: Cache<i32> = Cache::new().with_max_size(2);
    cache.put("a".into(), 1, 0);
    cache.put("b".into(), 2, 0);
    cache.put("c".into(), 3, 0);
    let keys = cache.keys(0);
    assert_eq!(keys.len(), 2);
    assert!(keys.contains(&"b".to_string()));
    assert!(keys.contains(&"c".to_string()));
    assert!(!cache.contains_key(&"a".into(), 0));
}

#[test]
fn scenario_ttl_fifty() {
    let mut cache: Cache<i32> = Cache::new().with_ttl(50);
    cache.put("x".into(), 1, 0);
    assert!(cache.get(&"x".to_string(), 60).is_none());
    cache.put("y".into(), 2, 60);
    assert_eq!(cache.get(&"y".to_string(), 60), Some(2));
}

#[test]
fn default_is_a_fresh_cache() {
    let cache: Cache<i32> = Cache::default();
    assert!(cache.keys(0).is_empty());
    assert!(cache.values(0).is_empty());
    assert_eq!(cache.sweeper_state(), SweeperState::NotStarted);
}
