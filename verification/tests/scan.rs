use lru_cache::CacheError;
use lru_cache::ScanCache;

#[test]
fn scan_overwrite_returns_new_value() {
    let mut cache = ScanCache::initialize(3);
    cache.set(1, "a");
    cache.set(1, "x");
    assert_eq!(cache.get(1), Some("x"));
    assert_eq!(cache.len(), 1);
}

#[test]
fn scan_least_recent_goes_after_hits() {
    let mut cache = ScanCache::initialize(3);
    cache.set(1, "a");
    cache.set(2, "b");
    cache.set(3, "c");
    assert_eq!(cache.get(1), Some("a"));
    assert_eq!(cache.get(2), Some("b"));
    cache.set(4, "d");
    assert_eq!(cache.get(3), None);
    assert_eq!(cache.get(1), Some("a"));
    assert_eq!(cache.get(2), Some("b"));
    assert_eq!(cache.len(), 3);
}

#[test]
fn scan_new_cache_is_empty() {
    let cache: ScanCache<u64, u8> = ScanCache::initialize(5);
    assert_eq!(cache.len(), 0);
    assert_eq!(cache.max(), 5);
    assert_eq!(cache.generation(), 0);
}

#[test]
fn scan_zero_capacity_is_rejected() {
    let made = ScanCache::<u32, u32>::try_initialize(0);
    assert!(matches!(made, Err(CacheError::InvalidCapacity)));
}

#[test]
fn scan_positive_capacity_is_accepted() {
    let made = ScanCache::<u32, u32>::try_initialize(2);
    assert!(made.is_ok());
    assert_eq!(made.unwrap().max(), 2);
}

#[test]
fn scan_miss_changes_nothing() {
    let mut cache = ScanCache::initialize(2);
    cache.set(1u8, 'a');
    assert_eq!(cache.get(9), None);
    assert_eq!(cache.generation(), 0);
    assert_eq!(cache.len(), 1);
}

#[test]
fn scan_hit_advances_generation_by_one() {
    let mut cache = ScanCache::initialize(2);
    cache.set(1u8, 'a');
    assert_eq!(cache.get(1), Some('a'));
    assert_eq!(cache.generation(), 1);
    assert_eq!(cache.get(1), Some('a'));
    assert_eq!(cache.generation(), 2);
}

#[test]
fn scan_overwrite_does_not_evict() {
    let mut cache = ScanCache::initialize(2);
    cache.set(1, 'a');
    cache.set(2, 'b');
    cache.set(1, 'x');
    assert_eq!(cache.len(), 2);
    assert_eq!(cache.get(2), Some('b'));
    assert_eq!(cache.get(1), Some('x'));
}

#[test]
fn scan_overwrite_takes_the_current_stamp() {
    let mut cache = ScanCache::initialize(2);
    cache.set(1, 'a');
    cache.set(2, 'b');
    assert_eq!(cache.get(2), Some('b'));
    // key 1 bears stamp 0, key 2 stamp 1; overwriting 1 lifts it to 1 but
    // does not advance the counter
    assert_eq!(cache.get(2), Some('b'));
    cache.set(1, 'y');
    assert_eq!(cache.generation(), 2);
    // key 1 bears stamp 2 now, the same as key 2: a third key sends one of
    // them away and keeps the other
    cache.set(3, 'c');
    assert_eq!(cache.len(), 2);
    assert_eq!(cache.get(3), Some('c'));
}

#[test]
fn scan_strictly_oldest_goes() {
    let mut cache = ScanCache::initialize(3);
    cache.set(1, 'a');
    cache.set(2, 'b');
    cache.set(3, 'c');
    assert_eq!(cache.get(3), Some('c'));
    assert_eq!(cache.get(1), Some('a'));
    // stamps: key 2 at 0, key 3 at 1, key 1 at 2
    cache.set(4, 'd');
    assert_eq!(cache.get(2), None);
    cache.set(5, 'e');
    assert_eq!(cache.get(3), None);
    assert_eq!(cache.get(1), Some('a'));
    assert_eq!(cache.len(), 3);
}

#[test]
fn scan_tie_discards_exactly_one() {
    let mut cache = ScanCache::initialize(3);
    cache.set(1, 'a');
    cache.set(2, 'b');
    cache.set(3, 'c');
    cache.set(4, 'd');
    assert_eq!(cache.len(), 3);
    let mut left = 0;
    for k in 1..=3 {
        if cache.get(k).is_some() {
            left += 1;
        }
    }
    assert_eq!(left, 2);
    assert_eq!(cache.get(4), Some('d'));
}

#[test]
fn scan_capacity_one_keeps_the_newest() {
    let mut cache = ScanCache::initialize(1);
    cache.set("a".to_string(), 1);
    cache.set("b".to_string(), 2);
    assert_eq!(cache.len(), 1);
    assert_eq!(cache.get("a".to_string()), None);
    assert_eq!(cache.get("b".to_string()), Some(2));
}

#[test]
fn scan_size_never_passes_capacity() {
    let mut cache = ScanCache::initialize(4);
    for i in 0..100u32 {
        cache.set(i % 7, i);
        let _ = cache.get((i * 3) % 7);
        assert!(cache.len() <= 4);
    }
    assert_eq!(cache.len(), 4);
}

#[test]
fn scan_refreshed_key_outlives_untouched_keys() {
    let mut cache = ScanCache::initialize(3);
    cache.set(1, 'a');
    cache.set(2, 'b');
    cache.set(3, 'c');
    assert_eq!(cache.get(1), Some('a'));
    cache.set(4, 'd');
    cache.set(5, 'e');
    assert_eq!(cache.get(1), Some('a'));
    assert_eq!(cache.get(2), None);
    assert_eq!(cache.get(3), None);
}

#[test]
fn scan_round_trip() {
    let mut cache = ScanCache::initialize(2);
    cache.set(5u64, 55u64);
    assert_eq!(cache.get(5), Some(55));
    cache.set(5u64, 56u64);
    assert_eq!(cache.get(5), Some(56));
}

#[test]
fn scan_many_keys_hashed_apart() {
    let mut cache = ScanCache::initialize(1000);
    for i in 0..1000u32 {
        cache.set(i, i + 1);
    }
    assert_eq!(cache.len(), 1000);
    for i in 0..1000u32 {
        assert_eq!(cache.get(i), Some(i + 1));
    }
}
