use sdf_tiles::geoimage::GeoImage;
use sdf_tiles::codec::CodecError;

fn sample_image() -> GeoImage {
    let mut img = GeoImage::new(4, 3, 5, 2);
    for y in 0..4 {
        for x in 0..4 {
            img.channels[0].set_pixel_value(x, y, (x as i64) * 7 - (y as i64) * 13);
            img.channels[1].set_pixel_value(x, y, (x as i64) + (y as i64) * 1_000_000);
        }
    }
    img
}

#[test]
fn binary_round_trip_is_bit_exact() {
    let img = sample_image();
    let bytes = img.encode();
    let back = GeoImage::decode(&bytes).expect("own encoding decodes");
    assert_eq!(back.size, img.size);
    assert_eq!(back.zoom, img.zoom);
    assert_eq!(back.x_offset, img.x_offset);
    assert_eq!(back.y_offset, img.y_offset);
    assert_eq!(back.channels.len(), 2);
    for c in 0..2 {
        assert_eq!(back.channels[c].data, img.channels[c].data);
    }
    // A second round trip gives the same bytes.
    assert_eq!(back.encode(), bytes);
}

#[test]
fn truncated_record_is_rejected() {
    let img = sample_image();
    let mut bytes = img.encode();
    bytes.truncate(40);
    assert_eq!(GeoImage::decode(&bytes).unwrap_err(), CodecError::Truncated);
    let mut bytes2 = img.encode();
    bytes2.truncate(100);
    assert_eq!(GeoImage::decode(&bytes2).unwrap_err(), CodecError::Truncated);
}

#[test]
fn corrupt_header_is_rejected() {
    let img = sample_image();
    let mut bytes = img.encode();
    // Damage the zoom field.
    bytes[8] = 0xFF;
    assert_eq!(GeoImage::decode(&bytes).unwrap_err(), CodecError::BadHeader);
}

#[test]
fn trailing_bytes_are_rejected() {
    let img = sample_image();
    let mut bytes = img.encode();
    bytes.push(0);
    assert_eq!(GeoImage::decode(&bytes).unwrap_err(), CodecError::BadHeader);
}

#[test]
fn out_of_range_value_is_rejected() {
    let img = sample_image();
    let mut bytes = img.encode();
    // Overwrite the first stored pixel word with a value beyond the
    // admissible range.
    for k in 0..8 {
        bytes[64 + k] = 0xFF;
    }
    assert_eq!(GeoImage::decode(&bytes).unwrap_err(), CodecError::BadValue);
}
