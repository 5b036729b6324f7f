use country_distance::cache::DistanceCache;

#[test]
fn empty_cache_misses() {
    let cache = DistanceCache::new();
    assert_eq!(cache.len(), 0);
    assert_eq!(cache.lookup("France", "Monaco"), None);
}

#[test]
fn lookup_in_either_order() {
    let mut cache = DistanceCache::new();
    cache.insert("France", "Monaco", 820_000);
    assert_eq!(cache.lookup("France", "Monaco"), Some(820_000));
    assert_eq!(cache.lookup("Monaco", "France"), Some(820_000));
    assert_eq!(cache.len(), 1);
}

#[test]
fn inserting_in_reverse_order_is_the_same_pair() {
    let mut cache = DistanceCache::new();
    cache.insert("Monaco", "France", 820_000);
    assert_eq!(cache.lookup("France", "Monaco"), Some(820_000));
    assert_eq!(cache.len(), 1);
}

#[test]
fn distinct_pairs_are_distinct_entries() {
    let mut cache = DistanceCache::new();
    cache.insert("France", "Monaco", 820_000);
    cache.insert("France", "Spain", 1_000);
    assert_eq!(cache.len(), 2);
    assert_eq!(cache.lookup("Spain", "France"), Some(1_000));
    assert_eq!(cache.lookup("Monaco", "Spain"), None);
}

#[test]
fn lookup_ignores_ascii_case() {
    let mut cache = DistanceCache::new();
    cache.insert("France", "Monaco", 820_000);
    assert_eq!(cache.lookup("FRANCE", "monaco"), Some(820_000));
    assert_eq!(cache.lookup("mOnAcO", "fRaNcE"), Some(820_000));
    assert_eq!(cache.len(), 1);
}

#[test]
fn case_variants_share_one_entry() {
    let mut cache = DistanceCache::new();
    cache.insert("BORDURIA", "aland", 123);
    assert_eq!(cache.lookup("Aland", "Borduria"), Some(123));
    assert_eq!(cache.len(), 1);
}
