use deeptracking::cache::{CacheConfig, EmbeddingCache};

fn cfg(max_size: usize, ttl: u64) -> CacheConfig {
    CacheConfig { max_size, ttl, cleanup_interval: 1000 }
}

fn s(x: &str) -> String {
    x.to_string()
}

#[test]
fn hit_returns_value_and_miss_returns_none() {
    let mut c: EmbeddingCache<Vec<f32>> = EmbeddingCache::new(cfg(4, 100));
    c.insert(s("a"), vec![1.0, 2.0], 0);
    assert_eq!(c.get(&s("a"), 10), Some(vec![1.0, 2.0]));
    assert_eq!(c.get(&s("b"), 10), None);
    assert_eq!(c.len(), 1);
}

#[test]
fn eviction_removes_lowest_access_count() {
    let mut c: EmbeddingCache<u32> = EmbeddingCache::new(cfg(3, 1000));
    c.insert(s("a"), 1, 0);
    c.insert(s("b"), 2, 0);
    c.insert(s("c"), 3, 0);
    c.get(&s("a"), 1);
    c.get(&s("a"), 2);
    c.get(&s("c"), 3);
    c.insert(s("d"), 4, 4);
    assert_eq!(c.len(), 3);
    assert_eq!(c.get(&s("b"), 5), None);
    assert_eq!(c.get(&s("a"), 5), Some(1));
    assert_eq!(c.get(&s("c"), 5), Some(3));
    assert_eq!(c.get(&s("d"), 5), Some(4));
}

#[test]
fn eviction_tie_takes_earliest() {
    let mut c: EmbeddingCache<u32> = EmbeddingCache::new(cfg(2, 1000));
    c.insert(s("a"), 1, 0);
    c.insert(s("b"), 2, 0);
    c.insert(s("c"), 3, 0);
    assert_eq!(c.get(&s("a"), 1), None);
    assert_eq!(c.get(&s("b"), 1), Some(2));
}

#[test]
fn expired_entry_is_absent_on_get() {
    let mut c: EmbeddingCache<u32> = EmbeddingCache::new(cfg(10, 100));
    c.insert(s("a"), 1, 0);
    assert_eq!(c.get(&s("a"), 99), Some(1));
    assert_eq!(c.get(&s("a"), 199), None);
    assert_eq!(c.len(), 0);
}

#[test]
fn sweep_removes_expired_entries() {
    let mut c: EmbeddingCache<u32> = EmbeddingCache::new(cfg(10, 100));
    c.insert(s("old"), 1, 0);
    c.insert(s("new"), 2, 150);
    c.cleanup_expired_entries(160);
    assert_eq!(c.len(), 1);
    assert_eq!(c.get(&s("new"), 170), Some(2));
    assert_eq!(c.get(&s("old"), 170), None);
}

#[test]
fn eviction_on_empty_cache_does_nothing() {
    let mut c: EmbeddingCache<u32> = EmbeddingCache::new(cfg(0, 100));
    c.evict_least_used();
    assert_eq!(c.len(), 0);
    c.insert(s("a"), 1, 0);
    assert_eq!(c.len(), 1);
    assert_eq!(c.config().max_size, 0);
}
