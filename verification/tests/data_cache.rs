use hwgc_soft::simulate::data_cache::{FullyAssociativeCache, SetAssociativeCache};

#[test]
fn cache_test_fully_associative_cache() {
    let mut cache = FullyAssociativeCache::new(64); // 64 B cache
    assert!(cache.read(0x1000) > FullyAssociativeCache::HIT_LATENCY);
    assert_eq!(cache.write(0x1000), FullyAssociativeCache::HIT_LATENCY);
    assert_eq!(cache.read(0x1000), FullyAssociativeCache::HIT_LATENCY);
    assert!(cache.read(0x2000) > FullyAssociativeCache::HIT_LATENCY);
    assert_eq!(cache.write(0x2000), FullyAssociativeCache::HIT_LATENCY);
    assert!(cache.read(0x1000) > FullyAssociativeCache::HIT_LATENCY);
    assert_eq!(cache.stats.read_hits, 1);
    assert_eq!(cache.stats.read_misses, 3);
    assert_eq!(cache.stats.write_hits, 2);
    assert_eq!(cache.stats.write_misses, 0);
}

#[test]
fn cache_test_set_associative_cache() {
    let mut cache = SetAssociativeCache::new(2, 1); // 2 sets, 1 way each
    assert!(cache.read(0) > SetAssociativeCache::HIT_LATENCY);
    assert_eq!(cache.read(0), SetAssociativeCache::HIT_LATENCY);
    assert!(cache.read(64) > SetAssociativeCache::HIT_LATENCY);
    assert_eq!(cache.read(64), SetAssociativeCache::HIT_LATENCY);
    assert!(cache.read(128) > SetAssociativeCache::HIT_LATENCY);
    assert_eq!(cache.read(128), SetAssociativeCache::HIT_LATENCY);
    assert!(cache.read(0) > SetAssociativeCache::HIT_LATENCY);
    assert_eq!(cache.read(64), SetAssociativeCache::HIT_LATENCY);
    assert_eq!(cache.stats.read_hits, 4);
    assert_eq!(cache.stats.read_misses, 4);
    assert_eq!(cache.stats.write_hits, 0);
    assert_eq!(cache.stats.write_misses, 0);
}

#[test]
fn latency_queries_change_nothing() {
    let mut cache = SetAssociativeCache::new(4, 2);
    let cold = cache.read_latency(0x4000);
    assert_eq!(cold, 70);
    assert_eq!(cache.read_latency(0x4000), 70);
    assert_eq!(cache.stats.read_misses, 0);
    assert_eq!(cache.read(0x4000), 70);
    assert_eq!(cache.read_latency(0x4000), 4);
    assert_eq!(cache.write_latency(0x4000), 4);
    // Another line in the same open row: a DRAM row hit.
    assert_eq!(cache.write_latency(0x4040), 26);
    let mut fa = FullyAssociativeCache::new(128);
    assert_eq!(fa.write_latency(0x80), 70);
    assert_eq!(fa.write(0x80), 70);
    assert_eq!(fa.read_latency(0x80), 4);
}
