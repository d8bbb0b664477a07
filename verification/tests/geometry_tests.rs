use sdf_tiles::fixed::FP_ONE;
use sdf_tiles::geometry::{Point, Bbox, Polyline, Polygon, Geometry, CutSide};

fn deg(d: f64) -> i64 {
    (d * (FP_ONE as f64)).round() as i64
}

fn square_polygon() -> Polygon {
    let pts = vec![
        Point::new(deg(0.0), deg(0.0)),
        Point::new(deg(0.0), deg(10.0)),
        Point::new(deg(10.0), deg(10.0)),
        Point::new(deg(10.0), deg(0.0)),
        Point::new(deg(0.0), deg(0.0)),
    ];
    let ring = Polyline::from_points(pts);
    Polygon::from_rings(vec![ring])
}

fn square_geometry() -> Geometry {
    let mut g = Geometry::new();
    g.add_polygon(square_polygon());
    g
}

#[test]
fn square_contains_inner_point() {
    let g = square_geometry();
    let p = Point::new(deg(5.0), deg(5.0));
    assert!(g.contains_point(&p));
}

#[test]
fn square_excludes_outer_point() {
    let g = square_geometry();
    let p = Point::new(deg(15.0), deg(5.0));
    assert!(!g.contains_point(&p));
}

#[test]
fn square_excludes_point_below() {
    let g = square_geometry();
    let p = Point::new(deg(5.0), deg(-3.0));
    assert!(!g.contains_point(&p));
}

#[test]
fn polygon_with_hole_excludes_hole() {
    let outer = Polyline::from_points(vec![
        Point::new(deg(0.0), deg(0.0)),
        Point::new(deg(0.0), deg(10.0)),
        Point::new(deg(10.0), deg(10.0)),
        Point::new(deg(10.0), deg(0.0)),
        Point::new(deg(0.0), deg(0.0)),
    ]);
    let hole = Polyline::from_points(vec![
        Point::new(deg(4.0), deg(4.0)),
        Point::new(deg(4.0), deg(6.0)),
        Point::new(deg(6.0), deg(6.0)),
        Point::new(deg(6.0), deg(4.0)),
        Point::new(deg(4.0), deg(4.0)),
    ]);
    let poly = Polygon::from_rings(vec![outer, hole]);
    let inside_ring = Point::new(deg(2.0), deg(2.0));
    let inside_hole = Point::new(deg(5.0), deg(5.0));
    assert!(poly.contains_point(&inside_ring));
    assert!(!poly.contains_point(&inside_hole));
}

#[test]
fn point_counts_add_up() {
    let g = square_geometry();
    assert_eq!(g.point_count(), 5);
    let p = square_polygon();
    assert_eq!(p.point_count(), 5);
}

#[test]
fn cut_that_misses_keeps_all_points() {
    let g = square_geometry();
    let c = g.clone_cut_rig(deg(20.0));
    assert_eq!(c.point_count(), 5);
    let p = Point::new(deg(5.0), deg(5.0));
    assert!(c.contains_point(&p));
}

#[test]
fn cut_that_swallows_everything_drops_polygon() {
    let g = square_geometry();
    let c = g.clone_cut_rig(deg(-20.0));
    assert_eq!(c.point_count(), 0);
    assert_eq!(c.polygons.len(), 0);
}

#[test]
fn cut_drops_isolated_far_vertices() {
    // A ring with three consecutive vertices beyond the cut line: the
    // middle one has both neighbours outside and is dropped.
    let ring = Polyline::from_points(vec![
        Point::new(deg(0.0), deg(0.0)),
        Point::new(deg(0.0), deg(10.0)),
        Point::new(deg(20.0), deg(10.0)),
        Point::new(deg(21.0), deg(5.0)),
        Point::new(deg(20.0), deg(0.0)),
        Point::new(deg(0.0), deg(0.0)),
    ]);
    let cut = ring.clone_cut(CutSide::Right(deg(15.0)));
    // Vertices at x=20, x=21, x=20 are all outside; only the middle one
    // has both neighbours outside.
    assert_eq!(cut.points.len(), 5);
}

#[test]
fn bbox_tracks_points() {
    let mut b = Bbox::new();
    b.add_point(&Point::new(deg(1.0), deg(2.0)));
    b.add_point(&Point::new(deg(-3.0), deg(7.0)));
    assert_eq!(b.x_min, deg(-3.0));
    assert_eq!(b.x_max, deg(1.0));
    assert_eq!(b.y_min, deg(2.0));
    assert_eq!(b.y_max, deg(7.0));
    let c = b.center();
    assert_eq!(c.x, deg(-1.0));
    let d = Bbox::from_coordinates(deg(-3.0), deg(2.0), deg(1.0), deg(7.0));
    assert!(b == d);
}

#[test]
fn point_scale_factor_matches_cosine() {
    let p = Point::new(deg(0.0), deg(45.0));
    let want = (45f64.to_radians().cos().powi(2) * (FP_ONE as f64)) as i64;
    let got = p.scale_x2;
    assert!((got - want).abs() < 200, "scale {} want {}", got, want);
}
