//! Signed-distance-field tile engine over polygon geometry.
//!
//! The crate turns a collection of polygons (longitude/latitude rings) into
//! raster tiles holding signed distances to the polygon boundary and
//! occupancy fractions.  All geometry runs in fixed-point arithmetic:
//! a coordinate is a number of 2^-20 degree steps, a channel value a number
//! of 2^-20 steps, so every algorithm here is exact integer computation and
//! carries a proved contract.
//!
//! The float-facing edges (reading GeoJSON, the inverse-Mercator latitude of
//! a pixel row, PNG encoding, files) live outside this library; they hand in
//! and take out plain integers.

pub mod fixed;
pub mod geometry;
pub mod segtree;
pub mod geoimage;
pub mod codec;
pub mod lookup;
pub mod collection;
pub mod raster_fill;
