use adaptive_balancer::cache::SimpleCache;

#[test]
fn cache_hit_within_ttl() {
    let mut c = SimpleCache::new(4);
    c.set(b"/a.png".to_vec(), b"IMG".to_vec(), 3_600_000, 1000);
    assert_eq!(c.get(&b"/a.png".to_vec(), 2000), Some(b"IMG".to_vec()));
    assert_eq!(c.get(&b"/a.png".to_vec(), 1000 + 3_599_999), Some(b"IMG".to_vec()));
}

#[test]
fn cache_miss_after_ttl() {
    let mut c = SimpleCache::new(4);
    c.set(b"/a.png".to_vec(), b"IMG".to_vec(), 3_600_000, 1000);
    assert_eq!(c.get(&b"/a.png".to_vec(), 1000 + 3_600_000), None);
    // the expired entry was removed by the lookup
    assert_eq!(c.get(&b"/a.png".to_vec(), 1000), None);
}

#[test]
fn cache_unknown_key_misses() {
    let mut c = SimpleCache::new(4);
    c.set(b"/a.png".to_vec(), b"IMG".to_vec(), 60_000, 0);
    assert_eq!(c.get(&b"/b.png".to_vec(), 1), None);
}

#[test]
fn cache_capacity_evicts_oldest() {
    let mut c = SimpleCache::new(2);
    c.set(b"k1".to_vec(), b"v1".to_vec(), 60_000, 0);
    c.set(b"k2".to_vec(), b"v2".to_vec(), 60_000, 0);
    c.set(b"k3".to_vec(), b"v3".to_vec(), 60_000, 0);
    // k1 was the oldest and is gone; k2 and k3 remain
    assert_eq!(c.get(&b"k1".to_vec(), 1), None);
    assert_eq!(c.get(&b"k2".to_vec(), 1), Some(b"v2".to_vec()));
    assert_eq!(c.get(&b"k3".to_vec(), 1), Some(b"v3".to_vec()));
}

#[test]
fn cache_gc_sweeps_expired() {
    let mut c = SimpleCache::new(4);
    c.set(b"k1".to_vec(), b"v1".to_vec(), 100, 0);
    c.set(b"k2".to_vec(), b"v2".to_vec(), 60_000, 0);
    c.gc(200);
    assert_eq!(c.get(&b"k1".to_vec(), 150), None);
    assert_eq!(c.get(&b"k2".to_vec(), 150), Some(b"v2".to_vec()));
}

#[test]
fn cache_first_entry_wins_for_duplicate_keys() {
    let mut c = SimpleCache::new(4);
    c.set(b"k".to_vec(), b"old".to_vec(), 60_000, 0);
    c.set(b"k".to_vec(), b"new".to_vec(), 60_000, 0);
    // lookups find the first (older) entry while it is unexpired
    assert_eq!(c.get(&b"k".to_vec(), 1), Some(b"old".to_vec()));
}
