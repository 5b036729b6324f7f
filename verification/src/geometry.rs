//! Boundary points and the minimum-distance engine.
//!
//! A coordinate is held in microdegrees (one millionth of a degree), so a
//! boundary point is a pair of plain integers; distances are whole meters.
//! The great-circle distance between two points comes from an outside
//! geometry crate through one trusted wrapper; everything built on top of
//! it (the minimum over two boundaries, symmetry, uniqueness) is verified.

use vstd::prelude::*;

verus! {

/// One vertex of a country's boundary, in microdegrees.
#[derive(Clone, Copy, PartialEq, Eq, Structural, Debug)]
pub struct BoundaryPoint {
    pub lat_udeg: i32,
    pub lon_udeg: i32,
}

/// The great-circle distance in meters between two coordinates given in
/// microdegrees, as the outside geometry crate computes it. The value is a
/// fixed function of the four coordinates alone; its definition (haversine
/// over a fixed Earth radius) is not restated here.
pub uninterp spec fn hav_m(lat_a: int, lon_a: int, lat_b: int, lon_b: int) -> u64;

/// No two points of the sphere are farther apart than half the Earth's
/// circumference on the fixed radius the distance uses, in meters.
pub const MAX_SURFACE_DISTANCE_M: u64 = 20016000;

/// A total order on boundary points, used only to pick a canonical
/// orientation of a point pair.
pub open spec fn point_le(p: BoundaryPoint, q: BoundaryPoint) -> bool {
    p.lat_udeg < q.lat_udeg || (p.lat_udeg == q.lat_udeg && p.lon_udeg <= q.lon_udeg)
}

/// The distance in meters between two boundary points, stated over the
/// canonically ordered pair so that it is symmetric by construction.
pub open spec fn pair_dist_m(p: BoundaryPoint, q: BoundaryPoint) -> u64 {
    if point_le(p, q) {
        hav_m(p.lat_udeg as int, p.lon_udeg as int, q.lat_udeg as int, q.lon_udeg as int)
    } else {
        hav_m(q.lat_udeg as int, q.lon_udeg as int, p.lat_udeg as int, p.lon_udeg as int)
    }
}

/// The point-pair distance does not depend on the order of the pair.
pub proof fn lemma_pair_dist_m_sym(p: BoundaryPoint, q: BoundaryPoint)
    ensures
        pair_dist_m(p, q) == pair_dist_m(q, p),
{
}

/// Relies on `geo::Haversine.distance` (the haversine great-circle
/// distance in meters between two lon/lat degree points, over the GRS80
/// mean Earth radius) and on `serde_json::Number::as_f64` (exact for the
/// integer inputs used here), which turns the microdegree integers into
/// the degree coordinates the call takes. The haversine formula is
/// symmetric in its two points, so the result is stated over the
/// canonically ordered pair. The result is truncated to whole meters; it
/// never exceeds half the Earth's circumference on that radius, since
/// the central angle is at most pi and an undefined angular value
/// saturates to zero in the cast.
#[verifier::external_body]
fn haversine_m(p: &BoundaryPoint, q: &BoundaryPoint) -> (r: u64)
    ensures
        r == hav_m(p.lat_udeg as int, p.lon_udeg as int, q.lat_udeg as int, q.lon_udeg as int),
        r == pair_dist_m(*p, *q),
        r <= MAX_SURFACE_DISTANCE_M,
{
    let m = serde_json::Number::from(1000000u32).as_f64().unwrap();
    let x1 = serde_json::Number::from(p.lon_udeg).as_f64().unwrap() / m;
    let y1 = serde_json::Number::from(p.lat_udeg).as_f64().unwrap() / m;
    let x2 = serde_json::Number::from(q.lon_udeg).as_f64().unwrap() / m;
    let y2 = serde_json::Number::from(q.lat_udeg).as_f64().unwrap() / m;
    geo::Distance::distance(&geo::Haversine, geo::Point::new(x1, y1), geo::Point::new(x2, y2))
        as u64
}

/// `d` is the minimum distance between the two boundaries: it is attained
/// by some pair of vertices and no pair of vertices is closer.
pub open spec fn is_min_dist(a: Seq<BoundaryPoint>, b: Seq<BoundaryPoint>, d: u64) -> bool {
    &&& exists|x: int, y: int|
        0 <= x < a.len() && 0 <= y < b.len() && d == pair_dist_m(a[x], b[y])
    &&& forall|x: int, y: int|
        0 <= x < a.len() && 0 <= y < b.len() ==> d <= pair_dist_m(a[x], b[y])
}

/// The minimum distance between two non-empty boundaries, as a value.
pub open spec fn min_dist_of(a: Seq<BoundaryPoint>, b: Seq<BoundaryPoint>) -> u64 {
    choose|d: u64| is_min_dist(a, b, d)
}

/// At most one value is the minimum distance of a pair of boundaries.
pub proof fn lemma_min_dist_unique(a: Seq<BoundaryPoint>, b: Seq<BoundaryPoint>, d1: u64, d2: u64)
    requires
        is_min_dist(a, b, d1),
        is_min_dist(a, b, d2),
    ensures
        d1 == d2,
{
}

/// Minimality is symmetric in the two boundaries.
pub proof fn lemma_is_min_dist_sym(a: Seq<BoundaryPoint>, b: Seq<BoundaryPoint>, d: u64)
    requires
        is_min_dist(a, b, d),
    ensures
        is_min_dist(b, a, d),
{
    let (x, y) = choose|x: int, y: int|
        0 <= x < a.len() && 0 <= y < b.len() && d == pair_dist_m(a[x], b[y]);
    lemma_pair_dist_m_sym(a[x], b[y]);
    assert(d == pair_dist_m(b[y], a[x]));
    assert forall|x2: int, y2: int|
        0 <= x2 < b.len() && 0 <= y2 < a.len() implies d <= pair_dist_m(b[x2], a[y2]) by {
        lemma_pair_dist_m_sym(b[x2], a[y2]);
    }
}

/// A value known to be minimal is the minimum.
pub proof fn lemma_min_dist_of_eq(a: Seq<BoundaryPoint>, b: Seq<BoundaryPoint>, d: u64)
    requires
        is_min_dist(a, b, d),
    ensures
        min_dist_of(a, b) == d,
{
    lemma_min_dist_unique(a, b, min_dist_of(a, b), d);
}

/// The minimum distance between two boundaries does not depend on their
/// order: a value minimal for `(a, b)` and a value minimal for `(b, a)`
/// are the same value.
pub proof fn lemma_min_distance_symmetric(
    a: Seq<BoundaryPoint>,
    b: Seq<BoundaryPoint>,
    d1: u64,
    d2: u64,
)
    requires
        is_min_dist(a, b, d1),
        is_min_dist(b, a, d2),
    ensures
        d1 == d2,
{
    lemma_is_min_dist_sym(a, b, d1);
    lemma_min_dist_unique(b, a, d1, d2);
}

/// For single-vertex boundaries, the minimum distance is the distance of
/// that one pair of vertices.
pub proof fn lemma_min_dist_single(p: BoundaryPoint, q: BoundaryPoint)
    ensures
        is_min_dist(seq![p], seq![q], pair_dist_m(p, q)),
{
    assert(seq![p][0] == p);
    assert(seq![q][0] == q);
}

/// The boundary points of one ring: each (longitude, latitude) pair in
/// microdegrees becomes a point, in ring order.
pub open spec fn ring_points(ring: Seq<(i32, i32)>) -> Seq<BoundaryPoint> {
    ring.map_values(|c: (i32, i32)| BoundaryPoint { lat_udeg: c.1, lon_udeg: c.0 })
}

/// The boundary points of a polygon: its rings' points, ring after ring.
pub open spec fn polygon_points(rings: Seq<Seq<(i32, i32)>>) -> Seq<BoundaryPoint>
    decreases rings.len(),
{
    if rings.len() == 0 {
        Seq::empty()
    } else {
        polygon_points(rings.drop_last()) + ring_points(rings.last())
    }
}

/// The boundary points of a multi-polygon: its polygons' points, polygon
/// after polygon.
pub open spec fn multi_polygon_points(polys: Seq<Seq<Seq<(i32, i32)>>>) -> Seq<BoundaryPoint>
    decreases polys.len(),
{
    if polys.len() == 0 {
        Seq::empty()
    } else {
        multi_polygon_points(polys.drop_last()) + polygon_points(polys.last())
    }
}

fn append_ring(dst: &mut Vec<BoundaryPoint>, ring: &Vec<(i32, i32)>)
    ensures
        final(dst)@ == old(dst)@ + ring_points(ring@),
{
    let mut j: usize = 0;
    while j < ring.len()
        invariant
            j <= ring@.len(),
            dst@ == old(dst)@ + ring_points(ring@.take(j as int)),
        decreases ring@.len() - j,
    {
        let (lon, lat) = ring[j];
        dst.push(BoundaryPoint { lat_udeg: lat, lon_udeg: lon });
        proof {
            assert(ring_points(ring@.take(j + 1)) =~= ring_points(ring@.take(j as int)).push(
                BoundaryPoint { lat_udeg: ring@[j as int].1, lon_udeg: ring@[j as int].0 },
            ));
            assert(dst@ =~= old(dst)@ + ring_points(ring@.take(j + 1)));
        }
        j = j + 1;
    }
    proof {
        assert(ring@.take(ring@.len() as int) =~= ring@);
    }
}

fn append_polygon(dst: &mut Vec<BoundaryPoint>, rings: &Vec<Vec<(i32, i32)>>)
    ensures
        final(dst)@ == old(dst)@ + polygon_points(
            rings@.map_values(|v: Vec<(i32, i32)>| v@),
        ),
{
    let ghost m = rings@.map_values(|v: Vec<(i32, i32)>| v@);
    let mut i: usize = 0;
    while i < rings.len()
        invariant
            i <= rings@.len(),
            m == rings@.map_values(|v: Vec<(i32, i32)>| v@),
            dst@ == old(dst)@ + polygon_points(m.take(i as int)),
        decreases rings@.len() - i,
    {
        append_ring(dst, &rings[i]);
        proof {
            assert(m.take(i + 1).drop_last() =~= m.take(i as int));
            assert(m.take(i + 1).last() == m[i as int]);
            assert(dst@ =~= old(dst)@ + polygon_points(m.take(i + 1)));
        }
        i = i + 1;
    }
    proof {
        assert(m.take(m.len() as int) =~= m);
    }
}

/// The boundary points extracted from a polygon's rings, each vertex a
/// (longitude, latitude) pair in microdegrees, in ring order.
pub fn points_from_polygon(rings: &Vec<Vec<(i32, i32)>>) -> (r: Vec<BoundaryPoint>)
    ensures
        r@ == polygon_points(rings@.map_values(|v: Vec<(i32, i32)>| v@)),
{
    let mut r: Vec<BoundaryPoint> = Vec::new();
    append_polygon(&mut r, rings);
    r
}

/// The boundary points extracted from a multi-polygon, polygon after
/// polygon, ring after ring.
pub fn points_from_multi_polygon(polys: &Vec<Vec<Vec<(i32, i32)>>>) -> (r: Vec<BoundaryPoint>)
    ensures
        r@ == multi_polygon_points(
            polys@.map_values(|p: Vec<Vec<(i32, i32)>>| p@.map_values(|v: Vec<(i32, i32)>| v@)),
        ),
{
    let ghost m = polys@.map_values(
        |p: Vec<Vec<(i32, i32)>>| p@.map_values(|v: Vec<(i32, i32)>| v@),
    );
    let mut r: Vec<BoundaryPoint> = Vec::new();
    let mut i: usize = 0;
    while i < polys.len()
        invariant
            i <= polys@.len(),
            m == polys@.map_values(
                |p: Vec<Vec<(i32, i32)>>| p@.map_values(|v: Vec<(i32, i32)>| v@),
            ),
            r@ == multi_polygon_points(m.take(i as int)),
        decreases polys@.len() - i,
    {
        append_polygon(&mut r, &polys[i]);
        proof {
            assert(m.take(i + 1).drop_last() =~= m.take(i as int));
            assert(m.take(i + 1).last() == m[i as int]);
            assert(r@ =~= multi_polygon_points(m.take(i + 1)));
        }
        i = i + 1;
    }
    proof {
        assert(m.take(m.len() as int) =~= m);
    }
    r
}

/// The minimum-distance engine: the smallest great-circle distance in
/// meters between any vertex of `a` and any vertex of `b`, or `None` when
/// either boundary has no vertices at all. The distance never exceeds
/// half the Earth's circumference.
pub fn min_distance_m(a: &Vec<BoundaryPoint>, b: &Vec<BoundaryPoint>) -> (r: Option<u64>)
    ensures
        r is Some <==> (a@.len() > 0 && b@.len() > 0),
        r matches Some(d) ==> is_min_dist(a@, b@, d) && d == min_dist_of(a@, b@) && d
            <= MAX_SURFACE_DISTANCE_M,
{
    if a.len() == 0 || b.len() == 0 {
        return None;
    }
    let mut best: u64 = haversine_m(&a[0], &b[0]);
    let mut i: usize = 0;
    while i < a.len()
        invariant
            a@.len() > 0,
            b@.len() > 0,
            i <= a@.len(),
            best <= MAX_SURFACE_DISTANCE_M,
            exists|x: int, y: int|
                0 <= x < a@.len() && 0 <= y < b@.len() && best == pair_dist_m(a@[x], b@[y]),
            forall|x: int, y: int|
                0 <= x < i && 0 <= y < b@.len() ==> best <= pair_dist_m(a@[x], b@[y]),
        decreases a@.len() - i,
    {
        let mut j: usize = 0;
        while j < b.len()
            invariant
                a@.len() > 0,
                b@.len() > 0,
                i < a@.len(),
                j <= b@.len(),
                best <= MAX_SURFACE_DISTANCE_M,
                exists|x: int, y: int|
                    0 <= x < a@.len() && 0 <= y < b@.len() && best == pair_dist_m(a@[x], b@[y]),
                forall|x: int, y: int|
                    0 <= x < i && 0 <= y < b@.len() ==> best <= pair_dist_m(a@[x], b@[y]),
                forall|y: int| 0 <= y < j ==> best <= pair_dist_m(a@[i as int], b@[y]),
            decreases b@.len() - j,
        {
            let d = haversine_m(&a[i], &b[j]);
            if d < best {
                best = d;
                proof {
                    assert(best == pair_dist_m(a@[i as int], b@[j as int]));
                }
            }
            j = j + 1;
        }
        i = i + 1;
    }
    proof {
        lemma_min_dist_of_eq(a@, b@, best);
    }
    Some(best)
}

} // verus!
