use scour::cache::{
    cache_clear, cache_get, cache_key, cache_key_ext, cache_set, file_cache_get, file_cache_set,
    is_fresh, recall, PageCache, TTL_SECS,
};

#[test]
fn lru_eviction_order_is_true_lru() {
    let mut lru = PageCache::with_capacity(200);
    // Fill to capacity
    for i in 0..200u32 {
        lru.put(format!("k{i}"), format!("{i}"), 0);
    }
    assert_eq!(lru.len(), 200);
    // Access k0 and k1 to make them most-recent
    let _ = lru.get("k0", 0);
    let _ = lru.get("k1", 0);
    // Insert two new keys, should evict LRU = k2 and k3 (least recently used)
    lru.put("k200".to_string(), "200".to_string(), 0);
    lru.put("k201".to_string(), "201".to_string(), 0);
    assert_eq!(lru.len(), 200);
    assert!(lru.get("k0", 0).is_some(), "k0 was accessed, should remain");
    assert!(lru.get("k1", 0).is_some(), "k1 was accessed, should remain");
    assert!(lru.peek("k2").is_none(), "k2 should be evicted as LRU");
    assert!(lru.peek("k3").is_none(), "k3 should be evicted as LRU");
    assert!(lru.get("k200", 0).is_some());
    assert!(lru.get("k201", 0).is_some());
    // The next LRU after those should be k4
    assert!(lru.peek("k4").is_some(), "k4 should still be present");
}

#[test]
fn cache_memory_lru_evicts_oldest() {
    let mut lru = PageCache::with_capacity(3);
    lru.put("a".to_string(), "1".to_string(), 0);
    lru.put("b".to_string(), "2".to_string(), 0);
    lru.put("c".to_string(), "3".to_string(), 0);
    // Access a
    let _ = lru.get("a", 0);
    // Insert d, should evict b (LRU)
    lru.put("d".to_string(), "4".to_string(), 0);
    assert!(lru.peek("b").is_none());
    assert!(lru.peek("a").is_some());
    assert!(lru.peek("c").is_some());
    assert!(lru.peek("d").is_some());
}

#[test]
fn keys_hold_every_option() {
    assert_eq!(cache_key("https://a/", None, 40_000), "https://a/||40000");
    assert_eq!(cache_key("https://a/", Some("q"), 0), "https://a/|q|0");
    assert_eq!(
        cache_key_ext("u", Some("q"), 5, Some(7), true, Some("1-3"), 2),
        "u|q|5|7|true|1-3|2"
    );
    assert_eq!(cache_key_ext("u", None, 5, None, false, None, 0), "u||5|0|false||0");
    assert_ne!(
        cache_key_ext("u", None, 5, Some(1), false, None, 0),
        cache_key_ext("u", None, 5, Some(10), false, None, 0)
    );
}

#[test]
fn entries_live_for_an_hour() {
    assert!(is_fresh(0, TTL_SECS - 1));
    assert!(!is_fresh(0, TTL_SECS));
    assert!(is_fresh(100, 5), "an entry from the future counts as new");

    let mut mem = PageCache::new();
    mem.put("k".to_string(), "v".to_string(), 10);
    assert!(mem.holds("k", 10 + TTL_SECS - 1));
    assert_eq!(mem.get("k", 10 + TTL_SECS - 1).as_deref(), Some("v"));
    assert!(!mem.holds("k", 10 + TTL_SECS));
    assert_eq!(mem.peek("k").as_deref(), Some("v"));
    assert!(mem.get("k", 10 + TTL_SECS).is_none());
    // The expired entry is gone.
    assert!(mem.peek("k").is_none());
    assert_eq!(mem.len(), 0);
}

#[test]
fn storing_again_replaces() {
    let mut mem = PageCache::with_capacity(2);
    mem.put("k".to_string(), "one".to_string(), 0);
    mem.put("k".to_string(), "two".to_string(), 1);
    assert_eq!(mem.len(), 1);
    assert_eq!(mem.get("k", 1).as_deref(), Some("two"));
}

#[test]
fn the_file_backs_the_memory() {
    let mut mem = PageCache::new();
    let file = cache_set(&mut mem, &[], "k".to_string(), "v".to_string(), 1000);
    assert_eq!(file, vec![("k".to_string(), (1000u64, "v".to_string()))]);
    // Another process finds it in the file and copies it into memory.
    let mut other = PageCache::new();
    assert_eq!(cache_get(&mut other, &file, "k", 1001).as_deref(), Some("v"));
    assert_eq!(other.peek("k").as_deref(), Some("v"));
    assert_eq!(cache_get(&mut other, &[], "k", 1002).as_deref(), Some("v"));
    // Neither has it once it has expired.
    assert!(cache_get(&mut other, &file, "k", 1000 + TTL_SECS).is_none());
    cache_clear(&mut mem);
    assert_eq!(mem.len(), 0);
}

#[test]
fn a_copy_is_as_old_as_what_was_copied() {
    let mut mem = PageCache::new();
    let file = cache_set(&mut mem, &[], "k".to_string(), "v".to_string(), 0);
    let mut other = PageCache::new();
    assert_eq!(cache_get(&mut other, &file, "k", 3599).as_deref(), Some("v"));
    // Reading it late does not make it live longer, neither from memory nor from the file.
    assert!(cache_get(&mut other, &file, "k", 3600).is_none());
    assert!(cache_get(&mut other, &[], "k", 3600).is_none());
}

#[test]
fn the_file_is_kept_small() {
    let mut file: Vec<(String, (u64, String))> = Vec::new();
    for i in 0..250u64 {
        file = file_cache_set(&file, format!("k{i}"), "v".to_string(), 10_000 + i);
    }
    assert_eq!(file.len(), 200);
    assert!(file_cache_get(&file, "k49", 10_300).is_none());
    assert!(file_cache_get(&file, "k50", 10_300).is_some());
    // The latest comes last.
    assert_eq!(file[199].0, "k249");
    // Expired entries are dropped on the next write.
    let later = file_cache_set(&file, "new".to_string(), "v".to_string(), 10_100 + TTL_SECS);
    assert_eq!(later.len(), 150);
    assert!(file_cache_get(&later, "k100", 10_100).is_none());
}

#[test]
fn the_first_key_with_an_answer_counts() {
    let mut mem = PageCache::new();
    mem.put("b".to_string(), "old".to_string(), 0);
    let keys = vec!["a".to_string(), "b".to_string()];
    assert_eq!(recall(&mut mem, &[], &keys, 1).as_deref(), Some("old"));
    mem.put("a".to_string(), "new".to_string(), 1);
    assert_eq!(recall(&mut mem, &[], &keys, 2).as_deref(), Some("new"));
    assert!(recall(&mut mem, &[], &["c".to_string()], 2).is_none());
}
