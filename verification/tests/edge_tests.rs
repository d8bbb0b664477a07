use sdf_tiles::fixed::{FP_ONE, isqrt64, mm_of_units, scale_x2_of_lat};
use sdf_tiles::geometry::{Point, Segment};
use sdf_tiles::segtree::{SegmentIndex, min_segment_distance2, INF_D2};
use sdf_tiles::geoimage::GeoImage;
use sdf_tiles::codec::CodecError;

fn deg(d: f64) -> i64 {
    (d * (FP_ONE as f64)).round() as i64
}

#[test]
fn degenerate_segment_measures_point_distance() {
    // Both endpoints equal: the distance falls back to the endpoint.
    let p = Point::new(deg(3.0), deg(0.0));
    let s = Segment::new(p, p);
    let q = Point::new(deg(0.0), deg(0.0));
    let d2 = min_segment_distance2(&s, &q);
    // Three degrees east at the equator, squared, in coordinate units.
    let three = deg(3.0) as u64;
    let want = three * three * (q.scale_x2 as u64) / (FP_ONE as u64);
    let rel = (d2 as f64 - want as f64).abs() / want as f64;
    assert!(rel < 1e-3, "got {}, want about {}", d2, want);
}

#[test]
fn point_on_segment_has_zero_distance() {
    let a = Point::new(deg(0.0), deg(0.0));
    let b = Point::new(deg(10.0), deg(0.0));
    let s = Segment::new(a, b);
    let q = Point::new(deg(5.0), deg(0.0));
    assert_eq!(min_segment_distance2(&s, &q), 0);
}

#[test]
fn segment_midpoint_rounds_toward_zero() {
    let a = Point::new(deg(-1.0), deg(0.0));
    let b = Point::new(0, deg(1.0));
    let s = Segment::new(a, b);
    assert_eq!(s.cx, deg(-1.0) / 2);
    assert_eq!(s.cy, deg(1.0) / 2);
}

#[test]
fn index_handles_single_segment() {
    let a = Point::new(deg(0.0), deg(1.0));
    let b = Point::new(deg(0.0), deg(2.0));
    let index = SegmentIndex::build(vec![Segment::new(a, b)]);
    let q = Point::new(deg(0.0), deg(0.0));
    let d2 = index.min_distance2(&q, INF_D2);
    let one = deg(1.0) as u64;
    assert_eq!(d2, one * one);
}

#[test]
fn extract_whole_raster_is_identity() {
    let mut img = GeoImage::new(4, 2, 1, 3);
    img.channels[0].set_pixel_value(2, 1, 99);
    let copy = img.extract_subtile(0, 0, 4);
    assert_eq!(copy.size, 4);
    assert_eq!(copy.zoom, 2);
    assert_eq!(copy.x_offset, 1);
    assert_eq!(copy.y_offset, 3);
    assert_eq!(copy.channels[0].data, img.channels[0].data);
}

#[test]
fn one_pixel_tile_round_trips() {
    let mut img = GeoImage::new(1, 0, 0, 0);
    img.channels[0].set_pixel_value(0, 0, -42);
    img.channels[1].set_pixel_value(0, 0, 7);
    let bytes = img.encode();
    assert_eq!(bytes.len(), 64 + 2 * 8);
    let back = GeoImage::decode(&bytes).expect("valid record");
    assert_eq!(back.channels[0].data, vec![-42]);
    assert_eq!(back.channels[1].data, vec![7]);
}

#[test]
fn empty_buffer_is_truncated() {
    let bytes: Vec<u8> = Vec::new();
    assert_eq!(GeoImage::decode(&bytes).unwrap_err(), CodecError::Truncated);
}

#[test]
fn integer_square_root_brackets_its_argument() {
    for v in [0u64, 1, 2, 3, 4, 5, 24, 25, 26, 1 << 40, (1 << 40) + 12345] {
        let r = isqrt64(v);
        assert!(r * r <= v);
        assert!(v < (r + 1) * (r + 1));
    }
}

#[test]
fn metre_conversion_matches_the_arc_constant() {
    // One degree of arc, in coordinate units, is about 111.32 km.
    let mm = mm_of_units(FP_ONE as u64);
    assert_eq!(mm, 111_319_491);
}

#[test]
fn scale_factor_tracks_the_squared_cosine() {
    for d in [0.0f64, 10.0, 30.0, 45.0, 60.0, 80.0, 89.0, 90.0] {
        let got = scale_x2_of_lat(deg(d)) as f64 / FP_ONE as f64;
        let want = d.to_radians().cos().powi(2);
        assert!((got - want).abs() < 3e-4, "at {} deg: {} vs {}", d, got, want);
        let neg = scale_x2_of_lat(deg(-d));
        assert_eq!(neg, scale_x2_of_lat(deg(d)));
    }
}
