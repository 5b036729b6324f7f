use country_distance::cache::DistanceCache;
use country_distance::geometry::min_distance_m;
use country_distance::geometry::BoundaryPoint;
use country_distance::search::find_candidates;
use country_distance::search::find_mystery_countries;
use country_distance::search::is_special_case;
use country_distance::search::MAX_MARGIN_M;
use country_distance::store::BoundaryStore;

fn pt(lat_udeg: i32, lon_udeg: i32) -> BoundaryPoint {
    BoundaryPoint { lat_udeg, lon_udeg }
}

#[test]
fn special_pairs_in_any_order_and_case() {
    assert!(is_special_case("France", "Monaco"));
    assert!(is_special_case("Monaco", "France"));
    assert!(is_special_case("fRaNcE", "MONACO"));
    assert!(is_special_case("china", "macau"));
    assert!(!is_special_case("France", "Spain"));
    assert!(!is_special_case("France", "France"));
}

#[test]
fn store_refuses_duplicate_names() {
    let mut store = BoundaryStore::new();
    assert!(store.add_country("France".to_string(), vec![pt(46_000_000, 2_000_000)]));
    assert!(!store.add_country("fRaNce".to_string(), vec![]));
    assert_eq!(store.len(), 1);
}

#[test]
fn find_country_ignores_case() {
    let mut store = BoundaryStore::new();
    store.add_country("France".to_string(), vec![pt(46_000_000, 2_000_000)]);
    store.add_country("Monaco".to_string(), vec![pt(43_700_000, 7_400_000)]);
    assert_eq!(store.find_country("monaco"), Some(1));
    assert_eq!(store.find_country("FRANCE"), Some(0));
    assert_eq!(store.find_country("Narnia"), None);
}

/// A special pair matches even when the measured distance is far outside
/// the band: guessing France with a target of zero still names Monaco.
#[test]
fn special_pair_overrides_geometry() {
    let mut store = BoundaryStore::new();
    store.add_country("France".to_string(), vec![pt(46_000_000, 2_000_000)]);
    store.add_country("Monaco".to_string(), vec![pt(43_700_000, 7_400_000)]);
    let mut cache = DistanceCache::new();
    let (names, margin) = find_candidates(&store, 0, 0, 0, &mut cache);
    assert_eq!(names, vec!["Monaco".to_string()]);
    assert_eq!(margin, 0);
}

/// Two single-point countries: an exact target matches at once, and a
/// target 50 km short is reached by widening the margin to 50 km.
#[test]
fn margin_expansion_reaches_a_match() {
    let a = vec![pt(0, 0)];
    let b = vec![pt(900_000, 0)]; // roughly 100 km due north
    let d = min_distance_m(&a, &b).unwrap();
    assert!(d > 95_000 && d < 105_000);

    let mut store = BoundaryStore::new();
    store.add_country("Aland".to_string(), a);
    store.add_country("Borduria".to_string(), b);

    let mut cache = DistanceCache::new();
    let (names, margin) = find_candidates(&store, 0, d, 0, &mut cache);
    assert_eq!(names, vec!["Borduria".to_string()]);
    assert_eq!(margin, 0);

    let mut cache = DistanceCache::new();
    let (names, margin) = find_candidates(&store, 0, d - 50_000, 0, &mut cache);
    assert_eq!(names, vec!["Borduria".to_string()]);
    assert_eq!(margin, 50_000);
}

/// A target nothing can match runs the expansion to its ceiling and
/// comes back empty.
#[test]
fn no_match_at_ceiling_is_empty() {
    let mut store = BoundaryStore::new();
    store.add_country("Aland".to_string(), vec![pt(0, 0)]);
    store.add_country("Borduria".to_string(), vec![pt(900_000, 0)]);
    let mut cache = DistanceCache::new();
    let (names, margin) = find_candidates(&store, 0, 10_000_000, 0, &mut cache);
    assert!(names.is_empty());
    assert_eq!(margin, MAX_MARGIN_M);
}

/// A country without boundary points is never a candidate and never
/// breaks the search for the others.
#[test]
fn empty_boundary_never_matches() {
    let mut store = BoundaryStore::new();
    store.add_country("France".to_string(), vec![pt(46_000_000, 2_000_000)]);
    store.add_country("Atlantis".to_string(), vec![]);
    store.add_country("Monaco".to_string(), vec![pt(43_700_000, 7_400_000)]);
    let d = min_distance_m(
        &vec![pt(46_000_000, 2_000_000)],
        &vec![pt(43_700_000, 7_400_000)],
    )
    .unwrap();
    let mut cache = DistanceCache::new();
    let (names, _) = find_candidates(&store, 0, d, 0, &mut cache);
    assert_eq!(names, vec!["Monaco".to_string()]);

    // guessing the empty country finds nothing, without failing
    let mut cache = DistanceCache::new();
    let (names, margin) = find_candidates(&store, 1, 100_000, 0, &mut cache);
    assert!(names.is_empty());
    assert_eq!(margin, MAX_MARGIN_M);
}

/// The cache is filled by the first pass and a second pass adds nothing:
/// each unordered pair is computed at most once.
#[test]
fn cache_fills_once_and_is_reused() {
    let mut store = BoundaryStore::new();
    store.add_country("Aland".to_string(), vec![pt(0, 0)]);
    store.add_country("Borduria".to_string(), vec![pt(900_000, 0)]);
    store.add_country("Syldavia".to_string(), vec![pt(5_000_000, 5_000_000)]);
    let mut cache = DistanceCache::new();

    let first = find_mystery_countries(&store, 0, 100_000, 10_000, &mut cache);
    assert_eq!(cache.len(), 2);
    let d_ab = cache.lookup("Aland", "Borduria").unwrap();
    assert_eq!(cache.lookup("Borduria", "Aland"), Some(d_ab));

    let second = find_mystery_countries(&store, 0, 100_000, 10_000, &mut cache);
    assert_eq!(cache.len(), 2);
    assert_eq!(cache.lookup("Aland", "Borduria"), Some(d_ab));
    assert_eq!(first, second);
}

/// A distance cached under one ASCII casing of the names is found again
/// under another: the search adds no second entry for the same pair.
#[test]
fn cache_hit_across_name_casing() {
    let a = vec![pt(0, 0)];
    let b = vec![pt(900_000, 0)];
    let d = min_distance_m(&a, &b).unwrap();

    let mut store = BoundaryStore::new();
    store.add_country("Aland".to_string(), a);
    store.add_country("Borduria".to_string(), b);

    let mut cache = DistanceCache::new();
    cache.insert("BORDURIA", "ALAND", d);
    let names = find_mystery_countries(&store, 0, d, 0, &mut cache);
    assert_eq!(names, vec!["Borduria".to_string()]);
    assert_eq!(cache.len(), 1);
}
