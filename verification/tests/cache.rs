use sluice::cache::Cache;

const SECOND: u128 = 1_000_000_000;
const MILLISECOND: u128 = 1_000_000;

#[test]
fn hit_and_miss() {
    let mut c = Cache::new(60 * SECOND, 10);
    let k = Cache::key("/v1/chat", b"body-a");
    assert!(c.get(k, 0).is_none());
    c.put(
        k,
        200,
        Some("application/json".to_string()),
        b"resp".to_vec(),
        0,
    );
    let hit = c.get(k, 0).unwrap();
    assert_eq!(hit.status, 200);
    assert_eq!(hit.body, b"resp".to_vec());
    assert_eq!(hit.content_type.as_deref(), Some("application/json"));
    // A different body is a different key.
    assert!(c.get(Cache::key("/v1/chat", b"body-b"), 0).is_none());
}

#[test]
fn disabled_when_zero_ttl() {
    let mut c = Cache::new(0, 10);
    assert!(!c.enabled());
    let k = Cache::key("/p", b"b");
    c.put(k, 200, None, b"x".to_vec(), 5);
    assert!(c.get(k, 5).is_none(), "disabled cache must not store");
}

#[test]
fn expires_after_ttl() {
    let mut c = Cache::new(MILLISECOND, 10);
    let k = Cache::key("/p", b"b");
    c.put(k, 200, None, b"x".to_vec(), 0);
    assert!(c.get(k, MILLISECOND - 1).is_some(), "not expired yet");
    assert!(
        c.get(k, 6 * MILLISECOND).is_none(),
        "entry should have expired"
    );
    assert_eq!(c.len(), 0, "an expired entry is dropped when it is met");
}

#[test]
fn bounded_capacity() {
    let mut c = Cache::new(60 * SECOND, 2);
    for i in 0..5u8 {
        c.put(Cache::key("/p", &[i]), 200, None, b"x".to_vec(), 0);
    }
    assert!(c.len() <= 2, "cache exceeded its bound");
}

#[test]
fn a_second_put_replaces_the_first() {
    let mut c = Cache::new(60 * SECOND, 2);
    let k = Cache::key("/p", b"same");
    c.put(k, 200, None, b"old".to_vec(), 0);
    c.put(k, 503, None, b"new".to_vec(), 1);
    let hit = c.get(k, 2).unwrap();
    assert_eq!((hit.status, hit.body), (503, b"new".to_vec()));
    assert_eq!(c.len(), 1);
}

#[test]
fn the_path_is_part_of_the_cache_key() {
    assert_ne!(Cache::key("/a", b"body"), Cache::key("/b", b"body"));
    assert_eq!(Cache::key("/a", b"body"), Cache::key("/a", b"body"));
}

#[test]
fn the_oldest_entry_makes_way() {
    let mut c = Cache::new(60 * SECOND, 2);
    let first = Cache::key("/p", b"first");
    let second = Cache::key("/p", b"second");
    let third = Cache::key("/p", b"third");
    c.put(first, 200, None, b"1".to_vec(), 20);
    c.put(second, 200, None, b"2".to_vec(), 10);
    c.put(third, 200, None, b"3".to_vec(), 30);
    assert!(c.get(second, 30).is_none());
    assert_eq!(c.get(first, 30).unwrap().body, b"1".to_vec());
    assert_eq!(c.get(third, 30).unwrap().body, b"3".to_vec());
}

#[test]
fn a_bound_of_zero_stores_nothing() {
    let mut c = Cache::new(60 * SECOND, 0);
    let k = Cache::key("/p", b"b");
    c.put(k, 200, None, b"x".to_vec(), 0);
    assert_eq!(c.len(), 0);
    assert!(c.get(k, 0).is_none());
}
