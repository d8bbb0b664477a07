use sdf_tiles::fixed::FP_ONE;
use sdf_tiles::geometry::{Point, Segment, Polyline, Polygon};
use sdf_tiles::segtree::{SegmentIndex, min_segment_distance2, INF_D2};
use sdf_tiles::collection::Collection;

fn deg(d: f64) -> i64 {
    (d * (FP_ONE as f64)).round() as i64
}

fn brute_force_min(segs: &[Segment], q: &Point, max_d2: u64) -> u64 {
    let mut best = max_d2;
    for s in segs {
        let d = min_segment_distance2(s, q);
        if d < best {
            best = d;
        }
    }
    best
}

fn ring_segments(coords: &[(f64, f64)]) -> Vec<Segment> {
    let mut out = Vec::new();
    for w in coords.windows(2) {
        let a = Point::new(deg(w[0].0), deg(w[0].1));
        let b = Point::new(deg(w[1].0), deg(w[1].1));
        out.push(Segment::new(a, b));
    }
    out
}

#[test]
fn index_matches_brute_force() {
    let coords: Vec<(f64, f64)> = vec![
        (0.0, 0.0), (0.0, 10.0), (3.0, 12.0), (10.0, 10.0), (12.0, 4.0),
        (10.0, 0.0), (6.0, -2.0), (2.0, -1.0), (0.0, 0.0),
    ];
    let segs = ring_segments(&coords);
    let index = SegmentIndex::build(segs.clone());
    let queries = [
        (5.0, 5.0), (15.0, 5.0), (-4.0, 2.0), (6.0, -8.0), (0.0, 0.0), (30.0, 30.0),
    ];
    for (qx, qy) in queries {
        let q = Point::new(deg(qx), deg(qy));
        let got = index.min_distance2(&q, INF_D2);
        let want = brute_force_min(&segs, &q, INF_D2);
        assert_eq!(got, want, "query at ({}, {})", qx, qy);
    }
}

#[test]
fn index_clamps_at_max_distance() {
    let segs = ring_segments(&[(0.0, 0.0), (0.0, 1.0), (1.0, 1.0)]);
    let index = SegmentIndex::build(segs);
    let q = Point::new(deg(50.0), deg(0.0));
    let tiny: u64 = 1000;
    assert_eq!(index.min_distance2(&q, tiny), tiny);
}

#[test]
fn empty_index_returns_max() {
    let index = SegmentIndex::build(Vec::new());
    let q = Point::new(deg(1.0), deg(1.0));
    assert_eq!(index.min_distance2(&q, 12345), 12345);
}

#[test]
fn clustered_query_visits_few_nodes() {
    // Two tight clusters of segments far apart; a query beside one cluster
    // must not walk the whole tree.
    let mut segs = Vec::new();
    for i in 0..32 {
        let y = i as f64 * 0.01;
        segs.append(&mut ring_segments(&[(-60.0, y), (-60.0, y + 0.005)]));
        segs.append(&mut ring_segments(&[(60.0, y), (60.0, y + 0.005)]));
    }
    let total = segs.len();
    assert_eq!(total, 64);
    let index = SegmentIndex::build(segs.clone());
    let q = Point::new(deg(-60.1), deg(0.1));
    let (d2, visited) = index.min_distance2_visited(&q, INF_D2);
    assert_eq!(d2, brute_force_min(&segs, &q, INF_D2));
    assert!(
        (visited as usize) < total / 2,
        "visited {} of {} segments' worth of nodes",
        visited,
        total
    );
}

#[test]
fn collection_distance_returns_exact_max_when_clamped() {
    let pts = vec![
        Point::new(deg(0.0), deg(0.0)),
        Point::new(deg(0.0), deg(1.0)),
        Point::new(deg(1.0), deg(1.0)),
        Point::new(deg(1.0), deg(0.0)),
        Point::new(deg(0.0), deg(0.0)),
    ];
    let ring = Polyline::from_points(pts);
    let poly = Polygon::from_rings(vec![ring]);
    let mut c = Collection::new();
    c.add_polygon(poly);
    c.extract_segments();
    // The square is thousands of kilometres away; a one-metre clamp comes
    // back unchanged.
    let q = Point::new(deg(120.0), deg(0.0));
    assert_eq!(c.get_min_distance(&q, 1000), 1000);
    assert_eq!(c.get_min_distance(&q, 123_456), 123_456);
}

#[test]
fn closing_edge_of_a_ring_is_indexed() {
    // The square's last edge runs from (10, 0) back to (0, 0).  A point
    // below it must be measured against that edge, three degrees away.
    let pts = vec![
        Point::new(deg(0.0), deg(0.0)),
        Point::new(deg(0.0), deg(10.0)),
        Point::new(deg(10.0), deg(10.0)),
        Point::new(deg(10.0), deg(0.0)),
        Point::new(deg(0.0), deg(0.0)),
    ];
    let ring = Polyline::from_points(pts);
    let poly = Polygon::from_rings(vec![ring]);
    let mut c = Collection::new();
    c.add_polygon(poly);
    c.extract_segments();
    let q = Point::new(deg(5.0), deg(-3.0));
    let mm = c.get_min_distance(&q, 10_000_000_000);
    let expect_m = 3.0 * 111_319.49079;
    let got_m = mm as f64 / 1000.0;
    let rel = (got_m - expect_m).abs() / expect_m;
    assert!(rel < 0.002, "got {} m, expected {} m", got_m, expect_m);
}

#[test]
fn collection_distance_is_scaled_edge_distance() {
    // A single square: the distance from (15, 5) to the right edge is five
    // degrees, scaled to ground units by the latitude factor.
    let pts = vec![
        Point::new(deg(0.0), deg(0.0)),
        Point::new(deg(0.0), deg(10.0)),
        Point::new(deg(10.0), deg(10.0)),
        Point::new(deg(10.0), deg(0.0)),
        Point::new(deg(0.0), deg(0.0)),
    ];
    let ring = Polyline::from_points(pts);
    let poly = Polygon::from_rings(vec![ring]);
    let mut c = Collection::new();
    c.add_polygon(poly);
    c.extract_segments();
    let q = Point::new(deg(15.0), deg(5.0));
    let mm = c.get_min_distance(&q, 10_000_000_000);
    let expect_m = 5.0 * 111_319.49079 * 5f64.to_radians().cos();
    let got_m = mm as f64 / 1000.0;
    let rel = (got_m - expect_m).abs() / expect_m;
    assert!(rel < 0.002, "got {} m, expected {} m", got_m, expect_m);
    // The point sits outside the square.
    assert!(!c.contains_point(&q));
    let inner = Point::new(deg(5.0), deg(5.0));
    assert!(c.contains_point(&inner));
}
