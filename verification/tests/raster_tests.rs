use sdf_tiles::geoimage::{GeoImage, TileError, layout, DIST_CHANNEL_DEFAULT};

fn pixel(img: &GeoImage, c: usize, x: u32, y: u32) -> i64 {
    img.channels[c].data[(y * img.size + x) as usize]
}

fn numbered_image(size: u32, zoom: u32, xo: u32, yo: u32) -> GeoImage {
    let mut img = GeoImage::new(size, zoom, xo, yo);
    for c in 0..2u32 {
        for y in 0..size {
            for x in 0..size {
                let v = (c as i64) * 1000 + (y as i64) * 100 + (x as i64);
                img.channels[c as usize].set_pixel_value(x, y, v * 4);
            }
        }
    }
    img
}

#[test]
fn layout_table_reads_in_quadrant_order() {
    let arr = layout();
    assert_eq!(arr[0].x, 0);
    assert_eq!(arr[0].y, 0);
    assert_eq!(arr[1].x, 1);
    assert_eq!(arr[1].y, 0);
    assert_eq!(arr[2].x, 0);
    assert_eq!(arr[2].y, 1);
    assert_eq!(arr[3].x, 1);
    assert_eq!(arr[3].y, 1);
    for i in 0..4 {
        assert_eq!(arr[i].index, i);
    }
}

#[test]
fn box_filter_keeps_uniform_input() {
    let img = GeoImage::new(8, 2, 1, 2);
    let small = img.scaled_down_clone(4);
    assert_eq!(small.size, 4);
    assert_eq!(small.zoom, 2);
    assert_eq!(small.x_offset, 1);
    assert_eq!(small.y_offset, 2);
    for y in 0..4 {
        for x in 0..4 {
            assert_eq!(pixel(&small, 0, x, y), DIST_CHANNEL_DEFAULT);
            assert_eq!(pixel(&small, 1, x, y), 0);
        }
    }
}

#[test]
fn box_filter_averages_two_by_two_blocks() {
    let mut img = GeoImage::new(2, 0, 0, 0);
    img.channels[0].set_pixel_value(0, 0, 8);
    img.channels[0].set_pixel_value(1, 0, 16);
    img.channels[0].set_pixel_value(0, 1, 24);
    img.channels[0].set_pixel_value(1, 1, 32);
    let small = img.scaled_down_clone(1);
    assert_eq!(pixel(&small, 0, 0, 0), (8 + 16 + 24 + 32) / 4);
}

#[test]
fn box_filter_truncates_toward_zero() {
    let mut img = GeoImage::new(2, 0, 0, 0);
    img.channels[0].set_pixel_value(0, 0, -1);
    img.channels[0].set_pixel_value(1, 0, -1);
    img.channels[0].set_pixel_value(0, 1, -1);
    img.channels[0].set_pixel_value(1, 1, 0);
    let small = img.scaled_down_clone(1);
    assert_eq!(pixel(&small, 0, 0, 0), 0);
}

#[test]
fn extract_subtile_copies_window() {
    let img = numbered_image(4, 1, 0, 1);
    let tile = img.extract_subtile(1, 0, 2);
    assert_eq!(tile.size, 2);
    assert_eq!(tile.zoom, 2);
    assert_eq!(tile.x_offset, 0 * 2 + 1);
    assert_eq!(tile.y_offset, 1 * 2 + 0);
    for y in 0..2 {
        for x in 0..2 {
            assert_eq!(pixel(&tile, 0, x, y), pixel(&img, 0, x + 2, y));
            assert_eq!(pixel(&tile, 1, x, y), pixel(&img, 1, x + 2, y));
        }
    }
}

#[test]
fn merge_restores_extracted_parent() {
    let parent = numbered_image(4, 1, 1, 0);
    let t0 = parent.extract_subtile(0, 0, 2);
    let t1 = parent.extract_subtile(1, 0, 2);
    let t2 = parent.extract_subtile(0, 1, 2);
    let t3 = parent.extract_subtile(1, 1, 2);
    let merged = GeoImage::merge([Some(t0), Some(t1), Some(t2), Some(t3)], 4, 1, 1, 0)
        .expect("children fit their quadrants");
    assert_eq!(merged.size, 4);
    assert_eq!(merged.zoom, 1);
    for c in 0..2 {
        for y in 0..4 {
            for x in 0..4 {
                assert_eq!(pixel(&merged, c, x, y), pixel(&parent, c, x, y));
            }
        }
    }
}

#[test]
fn merge_leaves_missing_quadrants_at_default() {
    let parent = numbered_image(4, 1, 1, 0);
    let t0 = parent.extract_subtile(0, 0, 2);
    let t3 = parent.extract_subtile(1, 1, 2);
    let merged = GeoImage::merge([Some(t0), None, None, Some(t3)], 4, 1, 1, 0)
        .expect("present children fit");
    for y in 0..2 {
        for x in 0..2 {
            // Top-left quadrant came from the child.
            assert_eq!(pixel(&merged, 0, x, y), pixel(&parent, 0, x, y));
            // Top-right and bottom-left stayed at the channel defaults.
            assert_eq!(pixel(&merged, 0, x + 2, y), DIST_CHANNEL_DEFAULT);
            assert_eq!(pixel(&merged, 1, x + 2, y), 0);
            assert_eq!(pixel(&merged, 0, x, y + 2), DIST_CHANNEL_DEFAULT);
            assert_eq!(pixel(&merged, 1, x, y + 2), 0);
            // Bottom-right came from the other child.
            assert_eq!(pixel(&merged, 0, x + 2, y + 2), pixel(&parent, 0, x + 2, y + 2));
        }
    }
}

#[test]
fn merge_rejects_wrong_size() {
    let parent = numbered_image(4, 1, 1, 0);
    let t0 = parent.extract_subtile(0, 0, 2);
    let bad = GeoImage::new(4, 2, 2, 0);
    let r = GeoImage::merge([Some(t0), Some(bad), None, None], 4, 1, 1, 0);
    assert_eq!(r.unwrap_err(), TileError::WrongSize);
}

#[test]
fn merge_rejects_wrong_zoom() {
    let bad = GeoImage::new(2, 3, 2, 0);
    let r = GeoImage::merge([Some(bad), None, None, None], 4, 1, 1, 0);
    assert_eq!(r.unwrap_err(), TileError::WrongZoom);
}

#[test]
fn merge_rejects_wrong_x_offset() {
    let bad = GeoImage::new(2, 2, 1, 0);
    let r = GeoImage::merge([Some(bad), None, None, None], 4, 1, 1, 0);
    assert_eq!(r.unwrap_err(), TileError::WrongXOffset);
}

#[test]
fn merge_rejects_wrong_y_offset() {
    let bad = GeoImage::new(2, 2, 2, 1);
    let r = GeoImage::merge([Some(bad), None, None, None], 4, 1, 1, 0);
    assert_eq!(r.unwrap_err(), TileError::WrongYOffset);
}

#[test]
fn rgb_bytes_clamp_and_round() {
    let mut img = GeoImage::new(2, 0, 0, 0);
    img.channels[0].set_pixel_value(0, 0, -5);
    img.channels[1].set_pixel_value(0, 0, 0x100000);
    img.channels[0].set_pixel_value(1, 0, 0x80000);
    // One sixteenth scales to 15.9375, which rounds up to 16.
    img.channels[1].set_pixel_value(1, 0, 0x10000);
    let rgb = img.rgb_bytes();
    assert_eq!(rgb.len(), 12);
    assert_eq!(rgb[0], 0);
    assert_eq!(rgb[1], 255);
    assert_eq!(rgb[2], 0);
    assert_eq!(rgb[3], 128);
    assert_eq!(rgb[4], 16);
}

#[test]
fn packed_distance_bytes_offset_and_clamp() {
    let mut img = GeoImage::new(2, 0, 0, 0);
    // Zero maps to the midpoint 0x8000.
    img.channels[0].set_pixel_value(0, 0, 0);
    // Sixteen fixed-point steps are one 16-bit step above the midpoint.
    img.channels[0].set_pixel_value(1, 0, 16);
    // A step below the midpoint.
    img.channels[0].set_pixel_value(0, 1, -16);
    // Far beyond the range: clamped to the top.
    img.channels[0].set_pixel_value(1, 1, 0x4000000000000000);
    let packed = img.packed_distance_bytes(0);
    assert_eq!(packed.len(), 8);
    assert_eq!((packed[0], packed[1]), (0x00, 0x80));
    assert_eq!((packed[2], packed[3]), (0x01, 0x80));
    assert_eq!((packed[4], packed[5]), (0xFF, 0x7F));
    assert_eq!((packed[6], packed[7]), (0xFF, 0xFF));
}
