use segcache::cache::{MemcacheStorageError, SegCache};
use segcache::protocol::MemcacheEntry;

fn new_cache() -> SegCache {
    SegCache::new(8, 1 << 20, 64)
}

fn entry(key: &str, value: &str, ttl: Option<u32>) -> MemcacheEntry {
    MemcacheEntry {
        key: key.as_bytes().to_vec(),
        value: value.as_bytes().to_vec(),
        ttl,
        flags: 0,
        cas: None,
    }
}

fn get_one(cache: &SegCache, key: &str, now: u32) -> Option<(Vec<u8>, u32, u64)> {
    let keys = vec![key.as_bytes().to_vec()];
    let hits = cache.get(&keys, now);
    if hits.len() == 0 {
        None
    } else {
        assert_eq!(hits.len(), 1);
        Some((hits[0].value.clone(), hits[0].flags, hits[0].cas))
    }
}

#[test]
fn set_then_get_returns_last_value() {
    let mut cache = new_cache();
    assert!(cache.set(&entry("k", "v1", None), 0).is_ok());
    assert_eq!(get_one(&cache, "k", 0), Some((b"v1".to_vec(), 0, 1)));
    assert!(cache.set(&entry("k", "v2", None), 0).is_ok());
    assert_eq!(get_one(&cache, "k", 0), Some((b"v2".to_vec(), 0, 2)));
    assert!(cache.delete(b"k", 0).is_ok());
    assert_eq!(get_one(&cache, "k", 0), None);
    assert!(cache.set(&entry("k", "v3", None), 0).is_ok());
    assert_eq!(get_one(&cache, "k", 0).unwrap().0, b"v3".to_vec());
}

#[test]
fn add_succeeds_only_when_absent() {
    let mut cache = new_cache();
    assert!(cache.add(&entry("a", "1", None), 0).is_ok());
    assert_eq!(
        cache.add(&entry("a", "2", None), 0),
        Err(MemcacheStorageError::NotStored)
    );
    assert!(cache.delete(b"a", 0).is_ok());
    assert!(cache.add(&entry("a", "3", None), 0).is_ok());
    assert_eq!(get_one(&cache, "a", 0).unwrap().0, b"3".to_vec());
}

#[test]
fn replace_succeeds_only_when_present() {
    let mut cache = new_cache();
    assert_eq!(
        cache.replace(&entry("r", "1", None), 0),
        Err(MemcacheStorageError::NotStored)
    );
    assert!(cache.set(&entry("r", "1", None), 0).is_ok());
    assert!(cache.replace(&entry("r", "2", None), 0).is_ok());
    assert_eq!(get_one(&cache, "r", 0).unwrap().0, b"2".to_vec());
}

#[test]
fn cas_counter_strictly_increases() {
    let mut cache = new_cache();
    assert!(cache.set(&entry("c", "x", None), 0).is_ok());
    let c1 = get_one(&cache, "c", 0).unwrap().2;
    assert!(cache.set(&entry("c", "y", None), 0).is_ok());
    let c2 = get_one(&cache, "c", 0).unwrap().2;
    assert!(c2 > c1);
    let mut e = entry("c", "z", None);
    e.cas = Some(c2);
    assert!(cache.cas(&e, 0).is_ok());
    let c3 = get_one(&cache, "c", 0).unwrap().2;
    assert!(c3 > c2);
}

#[test]
fn cas_errors() {
    let mut cache = new_cache();
    let mut e = entry("c", "x", None);
    e.cas = Some(1);
    assert_eq!(cache.cas(&e, 0), Err(MemcacheStorageError::NotFound));
    assert!(cache.set(&entry("c", "x", None), 0).is_ok());
    let mut wrong = entry("c", "y", None);
    wrong.cas = Some(999);
    assert_eq!(cache.cas(&wrong, 0), Err(MemcacheStorageError::Exists));
}

#[test]
fn delete_twice_reports_not_found() {
    let mut cache = new_cache();
    assert!(cache.set(&entry("d", "x", None), 0).is_ok());
    assert!(cache.delete(b"d", 0).is_ok());
    assert_eq!(cache.delete(b"d", 0), Err(MemcacheStorageError::NotFound));
}

#[test]
fn expired_key_is_not_returned() {
    let mut cache = new_cache();
    // written at tick 100 with a 5-second TTL
    assert!(cache.set(&entry("e", "x", Some(5)), 100).is_ok());
    assert_eq!(get_one(&cache, "e", 100).unwrap().0, b"x".to_vec());
    // clock advanced by more than the TTL
    assert_eq!(get_one(&cache, "e", 106), None);
    // the sweep reclaims the segment and frees it
    let reclaimed = cache.expire(200);
    assert_eq!(reclaimed, 1);
    assert_eq!(get_one(&cache, "e", 200), None);
}

#[test]
fn expire_keeps_unexpired_keys() {
    let mut cache = new_cache();
    assert!(cache.set(&entry("short", "s", Some(5)), 100).is_ok());
    assert!(cache.set(&entry("long", "l", None), 100).is_ok());
    let _ = cache.expire(200);
    assert_eq!(get_one(&cache, "long", 200).unwrap().0, b"l".to_vec());
    assert_eq!(get_one(&cache, "short", 200), None);
}

#[test]
fn clear_empties_the_cache() {
    let mut cache = new_cache();
    assert!(cache.set(&entry("a", "1", None), 0).is_ok());
    assert!(cache.set(&entry("b", "2", None), 0).is_ok());
    let _ = cache.clear();
    assert_eq!(get_one(&cache, "a", 0), None);
    assert_eq!(get_one(&cache, "b", 0), None);
    assert!(cache.set(&entry("a", "3", None), 0).is_ok());
    assert_eq!(get_one(&cache, "a", 0).unwrap().0, b"3".to_vec());
}

#[test]
fn get_omits_misses_and_keeps_key_order() {
    let mut cache = new_cache();
    assert!(cache.set(&entry("one", "1", None), 0).is_ok());
    assert!(cache.set(&entry("three", "3", None), 0).is_ok());
    let keys = vec![
        b"one".to_vec(),
        b"two".to_vec(),
        b"three".to_vec(),
    ];
    let hits = cache.get(&keys, 0);
    assert_eq!(hits.len(), 2);
    assert_eq!(hits[0].key, b"one".to_vec());
    assert_eq!(hits[1].key, b"three".to_vec());
}

#[test]
fn set_zero_byte_value_and_max_flags() {
    let mut cache = new_cache();
    let mut e = entry("z", "", None);
    e.flags = 0xFFFFFFFF;
    assert!(cache.set(&e, 0).is_ok());
    let (v, flags, _) = get_one(&cache, "z", 0).unwrap();
    assert_eq!(v.len(), 0);
    assert_eq!(flags, 0xFFFFFFFF);
}

#[test]
fn set_fails_when_no_segment_fits() {
    // one tiny segment pool: an item larger than a segment is never stored
    let mut cache = SegCache::new(1, 64, 8);
    let big = entry("k", "0123456789012345678901234567890123456789012345678901234567890123", None);
    assert_eq!(cache.set(&big, 0), Err(MemcacheStorageError::NotStored));
}

#[test]
fn pressure_sweep_reclaims_expired_segments() {
    // two segments; fill both with expiring items, then a write under
    // pressure sweeps and succeeds
    let mut cache = SegCache::new(2, 128, 8);
    // each item takes 24 bytes header + key + value
    assert!(cache.set(&entry("aaaa", "0123456789012345678901234567890123456789", Some(5)), 100).is_ok());
    assert!(cache.set(&entry("bbbb", "0123456789012345678901234567890123456789", Some(5)), 100).is_ok());
    // both segments are now occupied; much later, the pressure sweep frees them
    let r = cache.set_with_pressure_sweep(&entry("cccc", "0123456789012345678901234567890123456789", Some(5)), 300);
    assert!(r.is_ok());
    assert_eq!(get_one(&cache, "cccc", 300).unwrap().0.len(), 40);
}
