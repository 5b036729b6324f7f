use country_distance::geometry::min_distance_m;
use country_distance::geometry::points_from_multi_polygon;
use country_distance::geometry::points_from_polygon;
use country_distance::geometry::BoundaryPoint;

fn pt(lat_udeg: i32, lon_udeg: i32) -> BoundaryPoint {
    BoundaryPoint { lat_udeg, lon_udeg }
}

/// The great-circle distance as the outside crate itself computes it,
/// from the same microdegree inputs the engine is given.
fn geo_dist_m(a: BoundaryPoint, b: BoundaryPoint) -> u64 {
    let m = 1_000_000.0f64;
    let pa = geo::Point::new(a.lon_udeg as f64 / m, a.lat_udeg as f64 / m);
    let pb = geo::Point::new(b.lon_udeg as f64 / m, b.lat_udeg as f64 / m);
    geo::Distance::distance(&geo::Haversine, pa, pb) as u64
}

#[test]
fn empty_boundary_has_no_distance() {
    let a = vec![pt(46_000_000, 2_000_000)];
    let empty: Vec<BoundaryPoint> = Vec::new();
    assert_eq!(min_distance_m(&a, &empty), None);
    assert_eq!(min_distance_m(&empty, &a), None);
    assert_eq!(min_distance_m(&empty, &empty), None);
}

#[test]
fn single_points_match_the_outside_crate() {
    let p1 = pt(46_000_000, 2_000_000);
    let p2 = pt(43_700_000, 7_400_000);
    let d = min_distance_m(&vec![p1], &vec![p2]).unwrap();
    assert_eq!(d, geo_dist_m(p1, p2));
    // those two points are roughly 500 km apart
    assert!(d > 400_000 && d < 600_000);
}

#[test]
fn minimum_over_all_vertex_pairs() {
    let near = pt(44_000_000, 7_000_000);
    let far = pt(10_000_000, -60_000_000);
    let q = pt(43_700_000, 7_400_000);
    let d = min_distance_m(&vec![far, near], &vec![q]).unwrap();
    let expect = geo_dist_m(near, q).min(geo_dist_m(far, q));
    assert_eq!(d, expect);
    assert_eq!(d, geo_dist_m(near, q));
}

#[test]
fn min_distance_is_symmetric() {
    let a = vec![pt(46_000_000, 2_000_000), pt(48_800_000, 2_300_000)];
    let b = vec![pt(43_700_000, 7_400_000), pt(41_900_000, 12_500_000)];
    assert_eq!(min_distance_m(&a, &b), min_distance_m(&b, &a));
}

#[test]
fn polygon_points_swap_and_flatten() {
    let rings = vec![
        vec![(10, 20), (30, 40)],
        vec![(50, 60)],
    ];
    let pts = points_from_polygon(&rings);
    assert_eq!(pts, vec![pt(20, 10), pt(40, 30), pt(60, 50)]);
}

#[test]
fn multi_polygon_points_keep_order() {
    let polys = vec![
        vec![vec![(1, 2)], vec![(3, 4)]],
        vec![vec![(5, 6)]],
    ];
    let pts = points_from_multi_polygon(&polys);
    assert_eq!(pts, vec![pt(2, 1), pt(4, 3), pt(6, 5)]);
}

#[test]
fn distance_never_exceeds_half_the_circumference() {
    let a = pt(0, 0);
    let b = pt(0, 180_000_000); // antipodal along the equator
    let d = min_distance_m(&vec![a], &vec![b]).unwrap();
    assert!(d <= 20_016_000);
    assert!(d > 20_000_000);
}
