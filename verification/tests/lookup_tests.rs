use sdf_tiles::fixed::FP_ONE;
use sdf_tiles::geometry::{Point, Polyline, Polygon};
use sdf_tiles::lookup::{ContainmentGrid, LookupCell};
use sdf_tiles::collection::Collection;

fn deg(d: f64) -> i64 {
    (d * (FP_ONE as f64)).round() as i64
}

fn ring(coords: &[(f64, f64)]) -> Polyline {
    let mut pts = Vec::new();
    for (x, y) in coords {
        pts.push(Point::new(deg(*x), deg(*y)));
    }
    Polyline::from_points(pts)
}

fn test_collection() -> Collection {
    let square = Polygon::from_rings(vec![ring(&[
        (1.0, 1.0), (1.0, 9.0), (9.0, 9.0), (9.0, 1.0), (1.0, 1.0),
    ])]);
    let triangle = Polygon::from_rings(vec![ring(&[
        (-8.0, -8.0), (-2.0, -8.0), (-5.0, -2.0), (-8.0, -8.0),
    ])]);
    let mut c = Collection::new();
    c.add_polygon(square);
    c.add_polygon(triangle);
    c.extract_segments();
    c
}

#[test]
fn grid_agrees_with_exact_test_everywhere() {
    let mut c = test_collection();
    let lo = Point::new(deg(-10.0), deg(-10.0));
    let hi = Point::new(deg(10.0), deg(10.0));
    c.init_lookup(&lo, &hi, 16);
    let mut checked = 0;
    let mut inside = 0;
    for iy in 0..200 {
        for ix in 0..200 {
            let x = deg(-10.0) + (deg(10.0) - deg(-10.0)) / 200 * ix + 77;
            let y = deg(-10.0) + (deg(10.0) - deg(-10.0)) / 200 * iy + 77;
            let p = Point::new(x, y);
            let fast = c.contains(&p);
            let slow = c.contains_point(&p);
            assert_eq!(fast, slow, "disagreement at ({}, {})", x, y);
            checked += 1;
            if slow {
                inside += 1;
            }
        }
    }
    assert_eq!(checked, 40000);
    assert!(inside > 1000, "the sample should hit the square");
}

#[test]
fn grid_marks_interior_cells_covered() {
    let mut c = test_collection();
    let lo = Point::new(deg(0.0), deg(0.0));
    let hi = Point::new(deg(10.0), deg(10.0));
    c.init_lookup(&lo, &hi, 16);
    let grid = c.lookup.as_ref().expect("grid was built");
    let mut covered = 0;
    let mut empty = 0;
    for cell in grid.cells.iter() {
        match cell {
            LookupCell::Covered => covered += 1,
            LookupCell::Empty => empty += 1,
            LookupCell::Candidates(_) => {}
        }
    }
    // The square spans 1..9 of a 0..10 region: well inside cells must be
    // covered, and cells outside the square's bounding box must be empty.
    assert!(covered > 0, "no cell was marked covered");
    assert!(empty > 0, "no cell was left empty");
}

#[test]
fn direct_grid_query_matches_brute_force() {
    let c = test_collection();
    let lo = Point::new(deg(-10.0), deg(-10.0));
    let hi = Point::new(deg(10.0), deg(10.0));
    let grid = ContainmentGrid::new(&c.geometry, &lo, &hi, 8);
    for (x, y, want) in [
        (5.0, 5.0, true),
        (-5.0, -7.0, true),
        (-5.0, 5.0, false),
        (9.5, 9.5, false),
    ] {
        let p = Point::new(deg(x), deg(y));
        assert_eq!(grid.contains(&c.geometry, &p), want, "at ({}, {})", x, y);
        assert_eq!(c.geometry.contains_point(&p), want);
    }
}
