use sdf_tiles::fixed::FP_ONE;
use sdf_tiles::geometry::{Point, Polyline, Polygon};
use sdf_tiles::geoimage::GeoImage;
use sdf_tiles::raster_fill::LatTable;
use sdf_tiles::collection::Collection;

fn deg(d: f64) -> i64 {
    (d * (FP_ONE as f64)).round() as i64
}

/// The inverse-Mercator latitude, in degrees, of normalized vertical
/// position `yn` in [0, 1].
fn demercator_y_deg(yn: f64) -> f64 {
    ((((1.0 - yn * 2.0) * std::f64::consts::PI).exp().atan() * 4.0 / std::f64::consts::PI) - 1.0)
        * 90.0
}

/// The latitude table of a tile: one entry per eighth-pixel row.
fn lat_table(size: u32, zoom: u32, y_offset: u32) -> LatTable {
    let scale = (1u64 << zoom) as f64;
    let mut lats = Vec::new();
    for j in 0..(8 * size + 1) {
        let yn = ((j as f64) / (8.0 * size as f64) + y_offset as f64) / scale;
        lats.push(deg(demercator_y_deg(yn)));
    }
    LatTable::new(lats)
}

fn rect_collection(half_width_deg: f64, half_height_deg: f64) -> Collection {
    let w = half_width_deg;
    let h = half_height_deg;
    let pts = vec![
        Point::new(deg(-w), deg(-h)),
        Point::new(deg(-w), deg(h)),
        Point::new(deg(w), deg(h)),
        Point::new(deg(w), deg(-h)),
        Point::new(deg(-w), deg(-h)),
    ];
    let ring = Polyline::from_points(pts);
    let poly = Polygon::from_rings(vec![ring]);
    let mut c = Collection::new();
    c.add_polygon(poly);
    c.extract_segments();
    c
}

#[test]
fn occupancy_fill_saturates_inside_a_huge_square() {
    // A rectangle past the Mercator latitude range and almost the whole
    // longitude span: every sample of the whole world tile lies inside.
    let c = rect_collection(179.9, 89.0);
    let mut img = GeoImage::new(4, 0, 0, 0);
    let lats = lat_table(4, 0, 0);
    img.draw_geometry(1, &c, &lats);
    for y in 0..4u32 {
        for x in 0..4u32 {
            let v = img.channels[1].data[(y * 4 + x) as usize];
            assert_eq!(v, 16 * 0x10000, "pixel ({}, {})", x, y);
        }
    }
}

#[test]
fn occupancy_fill_is_zero_with_no_polygons() {
    let c = Collection::new();
    let mut img = GeoImage::new(4, 0, 0, 0);
    let lats = lat_table(4, 0, 0);
    img.draw_geometry(1, &c, &lats);
    for i in 0..16usize {
        assert_eq!(img.channels[1].data[i], 0);
    }
}

#[test]
fn distance_fill_with_no_segments_normalizes_to_one() {
    let c = Collection::new();
    let mut img = GeoImage::new(4, 0, 0, 0);
    let lats = lat_table(4, 0, 0);
    let min_mm: i64 = 0;
    let max_mm: i64 = 1_000_000_000;
    img.draw_distances(0, &c, min_mm, max_mm, &lats);
    for i in 0..16usize {
        let v = img.channels[0].data[i];
        // With nothing nearer, the distance is the clamp itself, so the
        // normalized value is exactly one.
        assert_eq!(v, FP_ONE, "pixel {}", i);
    }
    // The untouched channel keeps its default.
    assert_eq!(img.channels[1].data[0], 0);
}

#[test]
fn distance_fill_is_negative_inside_the_square() {
    let c = rect_collection(60.0, 60.0);
    let mut img = GeoImage::new(8, 0, 0, 0);
    let lats = lat_table(8, 0, 0);
    let min_mm: i64 = -1_000_000_000;
    let max_mm: i64 = 1_000_000_000;
    img.draw_distances(0, &c, min_mm, max_mm, &lats);
    // The tile centre is deep inside the square: its normalized value
    // sits below one half (negative distance).  The world corner is far
    // outside: its value sits above one half.
    let centre = img.channels[0].data[(4 * 8 + 4) as usize];
    let corner = img.channels[0].data[0];
    let centre_frac = centre as f64 / FP_ONE as f64;
    let corner_frac = corner as f64 / FP_ONE as f64;
    assert!(centre_frac < 0.45, "centre fraction {}", centre_frac);
    assert!(corner_frac > 0.55, "corner fraction {}", corner_frac);
}

#[test]
fn corner_points_bracket_the_tile() {
    let img = GeoImage::new(4, 0, 0, 0);
    let lats = lat_table(4, 0, 0);
    let lo = img.get_point_min(&lats);
    let hi = img.get_point_max(&lats);
    assert_eq!(lo.x, deg(-180.0));
    assert_eq!(hi.x, deg(180.0));
    assert!(lo.y < hi.y);
    assert!(lo.y < deg(-84.0) && hi.y > deg(84.0));
}
