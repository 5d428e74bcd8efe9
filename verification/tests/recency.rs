use lru_cache::Cache;
use lru_cache::CacheError;

#[test]
fn it_works() {
    let mut cache = Cache::initialize(3);
    cache.set(1, "a");
    cache.set(2, "b");
    cache.set(3, "c");
    assert_eq!(cache.get(1).unwrap(), "a");
    assert_eq!(cache.get(2).unwrap(), "b");
}

#[test]
fn expires_lru() {
    let mut cache = Cache::initialize(3);
    cache.set(1, "a");
    let _ = cache.get(1);
    cache.set(2, "b");
    let _ = cache.get(2);
    cache.set(3, "c");
    let _ = cache.get(1);
    let _ = cache.get(2);
    cache.set(4, "d");
    assert_eq!(cache.len(), cache.max() as usize);
    assert!(cache.get(3).is_none());
}

#[test]
fn new_cache_is_empty() {
    let cache: Cache<u64, u8> = Cache::initialize(5);
    assert_eq!(cache.len(), 0);
    assert_eq!(cache.max(), 5);
    assert_eq!(cache.generation(), 0);
}

#[test]
fn zero_capacity_is_rejected() {
    let made = Cache::<u32, u32>::try_initialize(0);
    assert!(matches!(made, Err(CacheError::InvalidCapacity)));
}

#[test]
fn positive_capacity_is_accepted() {
    let made = Cache::<u32, u32>::try_initialize(1);
    assert!(made.is_ok());
    let mut cache = made.unwrap();
    assert_eq!(cache.max(), 1);
    cache.set(7, 70);
    assert_eq!(cache.get(7), Some(70));
}

#[test]
fn miss_changes_nothing() {
    let mut cache = Cache::initialize(2);
    cache.set(1u8, 'a');
    assert_eq!(cache.get(9), None);
    assert_eq!(cache.generation(), 0);
    assert_eq!(cache.len(), 1);
}

#[test]
fn hit_advances_generation_by_one() {
    let mut cache = Cache::initialize(2);
    cache.set(1u8, 'a');
    assert_eq!(cache.generation(), 0);
    assert_eq!(cache.get(1), Some('a'));
    assert_eq!(cache.generation(), 1);
    assert_eq!(cache.get(1), Some('a'));
    assert_eq!(cache.generation(), 2);
}

#[test]
fn set_does_not_advance_generation() {
    let mut cache = Cache::initialize(2);
    cache.set(1u8, 'a');
    cache.set(2u8, 'b');
    cache.set(3u8, 'c');
    assert_eq!(cache.generation(), 0);
}

#[test]
fn least_recent_goes_after_hits() {
    let mut cache = Cache::initialize(3);
    cache.set(1, "a");
    cache.set(2, "b");
    cache.set(3, "c");
    assert_eq!(cache.get(1), Some("a"));
    assert_eq!(cache.get(2), Some("b"));
    cache.set(4, "d");
    assert_eq!(cache.get(3), None);
    assert_eq!(cache.get(1), Some("a"));
    assert_eq!(cache.get(2), Some("b"));
    assert_eq!(cache.get(4), Some("d"));
    assert_eq!(cache.len(), 3);
}

#[test]
fn set_on_present_key_keeps_value_and_recency() {
    let mut cache = Cache::initialize(2);
    cache.set(1, "a");
    cache.set(2, "b");
    cache.set(1, "x");
    assert_eq!(cache.len(), 2);
    // key 1 kept its place at the front of the order, so it goes first
    cache.set(3, "c");
    assert_eq!(cache.get(1), None);
    assert_eq!(cache.get(2), Some("b"));
    assert_eq!(cache.get(3), Some("c"));
}

#[test]
fn set_on_present_key_returns_old_value() {
    let mut cache = Cache::initialize(3);
    cache.set(1, "a");
    cache.set(1, "x");
    assert_eq!(cache.get(1), Some("a"));
}

#[test]
fn equal_stamps_go_first_in_first_out() {
    let mut cache = Cache::initialize(3);
    cache.set(10, 'a');
    cache.set(20, 'b');
    cache.set(30, 'c');
    cache.set(40, 'd');
    assert_eq!(cache.get(10), None);
    cache.set(50, 'e');
    assert_eq!(cache.get(20), None);
    assert_eq!(cache.get(30), Some('c'));
    assert_eq!(cache.get(40), Some('d'));
    assert_eq!(cache.get(50), Some('e'));
}

#[test]
fn hit_among_equal_stamps_moves_the_right_key() {
    // three keys share stamp 0; a hit on the middle one must move that key,
    // not one of its neighbours
    let mut cache = Cache::initialize(3);
    cache.set(1, 'a');
    cache.set(2, 'b');
    cache.set(3, 'c');
    assert_eq!(cache.get(2), Some('b'));
    cache.set(4, 'd');
    assert_eq!(cache.get(1), None);
    cache.set(5, 'e');
    assert_eq!(cache.get(3), None);
    assert_eq!(cache.get(2), Some('b'));
    assert_eq!(cache.get(4), Some('d'));
    assert_eq!(cache.get(5), Some('e'));
    assert_eq!(cache.len(), 3);
}

#[test]
fn hit_on_last_of_equal_stamps() {
    let mut cache = Cache::initialize(4);
    cache.set(1, 'a');
    assert_eq!(cache.get(1), Some('a'));
    cache.set(2, 'b');
    cache.set(3, 'c');
    cache.set(4, 'd');
    // keys 1 to 4 all bear stamp 1 now; refresh the last of them
    assert_eq!(cache.get(4), Some('d'));
    cache.set(5, 'e');
    assert_eq!(cache.get(1), None);
    cache.set(6, 'f');
    assert_eq!(cache.get(2), None);
    cache.set(7, 'g');
    assert_eq!(cache.get(3), None);
    assert_eq!(cache.get(4), Some('d'));
}

#[test]
fn capacity_one_keeps_the_newest() {
    let mut cache = Cache::initialize(1);
    cache.set("a".to_string(), 1);
    cache.set("b".to_string(), 2);
    assert_eq!(cache.len(), 1);
    assert_eq!(cache.get("a".to_string()), None);
    assert_eq!(cache.get("b".to_string()), Some(2));
}

#[test]
fn size_never_passes_capacity() {
    let mut cache = Cache::initialize(4);
    for i in 0..100u32 {
        cache.set(i % 7, i);
        let _ = cache.get((i * 3) % 7);
        assert!(cache.len() <= 4);
    }
    assert_eq!(cache.len(), 4);
}

#[test]
fn refreshed_key_outlives_untouched_keys() {
    let mut cache = Cache::initialize(3);
    cache.set(1, 'a');
    cache.set(2, 'b');
    cache.set(3, 'c');
    assert_eq!(cache.get(1), Some('a'));
    cache.set(4, 'd');
    cache.set(5, 'e');
    // 2 and 3 were untouched and went first; 1 is still there
    assert_eq!(cache.get(1), Some('a'));
    assert_eq!(cache.get(2), None);
    assert_eq!(cache.get(3), None);
}

#[test]
fn round_trip_of_a_new_key() {
    let mut cache = Cache::initialize(2);
    cache.set(5u64, 55u64);
    assert_eq!(cache.get(5), Some(55));
}

#[test]
fn many_keys_hashed_apart() {
    let mut cache = Cache::initialize(1000);
    for i in 0..1000u32 {
        cache.set(i, i + 1);
    }
    assert_eq!(cache.len(), 1000);
    for i in 0..1000u32 {
        assert_eq!(cache.get(i), Some(i + 1));
    }
    assert_eq!(cache.generation(), 1000);
}
