use playa::cache::{CacheStatsSnapshot, CacheStrategy, GlobalFrameCache};

/// Size in bytes of a 64x64 8-bit RGBA frame.
const FRAME_64: usize = 64 * 64 * 4;

#[test]
fn test_cache_basic_operations() {
    let mut cache = GlobalFrameCache::new(100, CacheStrategy::All);
    let comp_uuid = "test-comp";
    cache.insert(comp_uuid, 0, FRAME_64);
    assert!(cache.contains(comp_uuid, 0));
    let retrieved = cache.get(comp_uuid, 0);
    assert!(retrieved.is_some());
}

#[test]
fn test_cache_last_only_strategy() {
    let mut cache = GlobalFrameCache::new(100, CacheStrategy::LastOnly);
    let comp_uuid = "test-comp";
    cache.insert(comp_uuid, 0, FRAME_64);
    assert!(cache.contains(comp_uuid, 0));
    cache.insert(comp_uuid, 1, FRAME_64);
    assert!(cache.contains(comp_uuid, 1));
    assert!(!cache.contains(comp_uuid, 0));
}

#[test]
fn test_cache_clear_comp() {
    let mut cache = GlobalFrameCache::new(100, CacheStrategy::All);
    cache.insert("comp1", 0, FRAME_64);
    cache.insert("comp1", 1, FRAME_64);
    cache.insert("comp2", 0, FRAME_64);
    cache.clear_comp("comp1");
    assert!(!cache.contains("comp1", 0));
    assert!(!cache.contains("comp1", 1));
    assert!(cache.contains("comp2", 0));
}

#[test]
fn cache_evicts_least_recently_used() {
    let mut cache = GlobalFrameCache::new(2, CacheStrategy::All);
    assert!(cache.insert("c", 0, 10).is_empty());
    assert!(cache.insert("c", 1, 11).is_empty());
    assert_eq!(cache.get("c", 0), Some(10));
    let out = cache.insert("c", 2, 12);
    assert_eq!(out, vec![(("c".to_string(), 1), 11)]);
    assert!(cache.contains("c", 0) && cache.contains("c", 2));
    assert_eq!(cache.len(), 2);
    assert_eq!(cache.evict_lru(), Some((("c".to_string(), 0), 10)));
    assert_eq!(cache.len(), 1);
}

#[test]
fn cache_reinsert_replaces_size() {
    let mut cache = GlobalFrameCache::new(4, CacheStrategy::All);
    cache.insert("c", 0, 10);
    let out = cache.insert("c", 0, 99);
    assert_eq!(out, vec![(("c".to_string(), 0), 10)]);
    assert_eq!(cache.get("c", 0), Some(99));
    assert_eq!(cache.len(), 1);
}

#[test]
fn cache_clear_keeps_order_and_reports() {
    let mut cache = GlobalFrameCache::new(0, CacheStrategy::All);
    cache.insert("a", 0, 1);
    cache.insert("b", 0, 2);
    cache.insert("a", 1, 3);
    cache.insert("b", 1, 4);
    let removed = cache.clear_comp("a");
    assert_eq!(removed, vec![(("a".to_string(), 0), 1), (("a".to_string(), 1), 3)]);
    assert_eq!(cache.evict_lru(), Some((("b".to_string(), 0), 2)));
    let rest = cache.clear_all();
    assert_eq!(rest, vec![(("b".to_string(), 1), 4)]);
    assert_eq!(cache.len(), 0);
    assert_eq!(cache.evict_lru(), None);
}

#[test]
fn cache_strategy_switch_keeps_latest_per_comp() {
    let mut cache = GlobalFrameCache::new(10, CacheStrategy::All);
    cache.insert("a", 0, 1);
    cache.insert("b", 0, 2);
    cache.insert("a", 1, 3);
    cache.insert("b", 5, 4);
    cache.insert("a", 2, 5);
    cache.insert("c", 9, 6);
    assert!(cache.set_strategy(CacheStrategy::All).is_empty());
    let dropped = cache.set_strategy(CacheStrategy::LastOnly);
    assert_eq!(
        dropped,
        vec![(("a".to_string(), 0), 1), (("b".to_string(), 0), 2), (("a".to_string(), 1), 3)]
    );
    assert_eq!(cache.stats().entry_count, 3);
    assert_eq!(cache.stats().strategy, CacheStrategy::LastOnly);
    assert_eq!(cache.strategy(), CacheStrategy::LastOnly);
    assert!(cache.contains("a", 2) && cache.contains("b", 5) && cache.contains("c", 9));
    assert!(!cache.contains("a", 0) && !cache.contains("a", 1) && !cache.contains("b", 0));
    assert_eq!(cache.evict_lru(), Some((("b".to_string(), 5), 4)));
    assert!(cache.set_strategy(CacheStrategy::LastOnly).is_empty());
    let s = CacheStatsSnapshot::default();
    assert_eq!((s.hits, s.misses, s.size), (0, 0, 0));
    assert_eq!(CacheStrategy::default(), CacheStrategy::All);
}

#[test]
fn budget_eviction_frees_until_within_limit() {
    let mut cache = GlobalFrameCache::new(10, CacheStrategy::All);
    cache.insert("a", 0, 40);
    cache.insert("a", 1, 30);
    cache.insert("b", 0, 20);
    let (gone, used) = cache.evict_to_budget(90, 30);
    assert_eq!(gone, vec![(("a".to_string(), 0), 40), (("a".to_string(), 1), 30)]);
    assert_eq!(used, 20);
    assert_eq!(cache.len(), 1);
    let (gone, used) = cache.evict_to_budget(20, 30);
    assert!(gone.is_empty());
    assert_eq!(used, 20);
    let (gone, used) = cache.evict_to_budget(500, 0);
    assert_eq!(gone, vec![(("b".to_string(), 0), 20)]);
    assert_eq!(used, 480);
    assert_eq!(cache.len(), 0);
}

#[test]
fn insert_within_budget_clears_evicts_and_counts() {
    let mut cache = GlobalFrameCache::new(3, CacheStrategy::LastOnly);
    cache.insert("a", 0, 10);
    cache.insert("b", 0, 10);
    let (gone, used) = cache.insert_within_budget("a", 1, 10, 25, 100);
    assert_eq!(gone, vec![(("a".to_string(), 0), 10)]);
    assert_eq!(used, 25);
    assert!(cache.contains("a", 1) && cache.contains("b", 0));
    let (gone, used) = cache.insert_within_budget("c", 0, 10, 120, 100);
    assert_eq!(gone, vec![(("b".to_string(), 0), 10), (("a".to_string(), 1), 10)]);
    assert_eq!(used, 110);
    assert!(cache.contains("c", 0) && cache.len() == 1);
    let mut full = GlobalFrameCache::new(1, CacheStrategy::All);
    full.insert("x", 0, 5);
    let (gone, used) = full.insert_within_budget("y", 0, 7, 5, 100);
    assert_eq!(gone, vec![(("x".to_string(), 0), 5)]);
    assert_eq!(used, 12);
    let (_, used) = full.insert_within_budget("z", 0, 1, usize::MAX, usize::MAX);
    assert_eq!(used, usize::MAX);
}
