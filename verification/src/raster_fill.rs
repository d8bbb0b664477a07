//! The adaptive recursive raster fill: signed-distance and occupancy
//! rendering of a polygon collection into a tile's channels.
//!
//! The recursion descends by pixel quadrants; at coarse levels it clips
//! the working polygon set along the quadrant midlines so that deeper
//! calls scan fewer vertices.  The latitude of each pixel row comes from a
//! precomputed table (the inverse-Mercator transform is supplied by the
//! caller); longitudes are exact fixed-point arithmetic here.

use vstd::prelude::*;
use vstd::arithmetic::power2::{pow2, lemma_pow2_unfold, lemma_pow2_pos};
use crate::fixed::{X_LIMIT, Y_LIMIT, spec_scale_x2, spec_tdiv};
use crate::geometry::{Point, Geometry, CutSide, spec_geometry_cut, spec_geometry_contains, spec_geometry_segments, Segment};
use crate::geoimage::{GeoImage, Channel, CHANNEL_VALUE_LIMIT};
use crate::collection::{Collection, spec_collection_min_mm};

verus! {

/// The longitude, in coordinate units, of horizontal position `xi8`
/// counted in eighth-pixels across a tile of side `size` at `zoom` with
/// tile offset `x_offset`.
pub open spec fn spec_lon(size: int, zoom: int, x_offset: int, xi8: int) -> int {
    (360 * 0x100000 * (xi8 + 8 * x_offset * size)) / (8 * size * pow2(zoom as nat)) - 0xB400000
}

/// Computes the longitude of an eighth-pixel column boundary.
pub fn lon_at(size: u32, zoom: u32, x_offset: u32, xi8: u32) -> (lon: i64)
    requires
        1 <= size <= 0x8000,
        zoom <= 31,
        (x_offset as nat) < pow2(zoom as nat),
        xi8 <= 8 * size,
    ensures
        lon == spec_lon(size as int, zoom as int, x_offset as int, xi8 as int),
        -X_LIMIT <= lon <= X_LIMIT,
{
    let pz: u64 = crate::fixed::pow2_u64(zoom);
    proof {
        vstd::arithmetic::power2::lemma2_to64();
        vstd::arithmetic::power2::lemma2_to64_rest();
        if (zoom as nat) < 31 {
            vstd::arithmetic::power2::lemma_pow2_strictly_increases(zoom as nat, 31);
        }
        assert(pz <= 0x80000000);
    }
    let xo128: u128 = x_offset as u128;
    let s128: u128 = size as u128;
    assert(0 <= 8 * xo128 * s128 <= 8 * 0x80000000 * 0x8000) by (nonlinear_arith)
        requires 0 <= xo128 <= 0x80000000, 0 <= s128 <= 0x8000;
    let num_a: u128 = (xi8 as u128) + 8 * xo128 * s128;
    assert(num_a <= 0x100000000000000);
    assert(360 * 0x100000 * num_a <= 360 * 0x100000 * 0x100000000000000) by (nonlinear_arith)
        requires 0 <= num_a <= 0x100000000000000;
    let num: u128 = 360 * 0x100000 * num_a;
    assert(0 < 8 * s128 * (pz as u128) <= 8 * 0x8000 * 0x80000000) by (nonlinear_arith)
        requires 1 <= s128 <= 0x8000, 1 <= pz <= 0x80000000;
    let den: u128 = 8 * s128 * (pz as u128);
    proof {
        // The normalized position stays within one world span.
        assert(num_a <= (xo128 as int + 1) * (8 * (s128 as int))) by (nonlinear_arith)
            requires
                num_a == xi8 + 8 * (xo128 as int) * (s128 as int),
                xi8 <= 8 * s128,
                0 <= xo128;
        assert((xo128 as int + 1) * (8 * (s128 as int)) <= (pz as int) * (8 * (s128 as int)))
            by (nonlinear_arith)
            requires xo128 < pz, 1 <= s128;
        assert(num == 360 * 0x100000 * num_a);
        assert(num <= 360 * 0x100000 * ((pz as int) * (8 * (s128 as int)))) by (nonlinear_arith)
            requires 0 <= num_a <= (pz as int) * (8 * (s128 as int)), num == 360 * 0x100000 * num_a;
    }
    let q: u128 = num / den;
    proof {
        vstd::arithmetic::div_mod::lemma_div_is_ordered(
            num as int,
            360 * 0x100000 * ((pz as int) * (8 * (s128 as int))),
            den as int,
        );
        assert((360 * 0x100000 * ((pz as int) * (8 * (s128 as int)))) / (den as int) == 360 * 0x100000)
            by {
            vstd::arithmetic::div_mod::lemma_div_by_multiple((360 * 0x100000) as int, den as int);
            assert(360 * 0x100000 * ((pz as int) * (8 * (s128 as int)))
                == 360 * 0x100000 * (den as int)) by (nonlinear_arith)
                requires den == 8 * (s128 as int) * (pz as int);
        }
        assert(q <= 360 * 0x100000);
        vstd::arithmetic::div_mod::lemma_div_pos_is_pos(num as int, den as int);
        assert(den == 8 * (size as int) * (pz as int));
        assert(pz == pow2(zoom as nat));
    }
    (q as i64) - 0xB400000
}

/// The latitude table: the latitude, in coordinate units, of every
/// eighth-pixel row boundary of a tile, from its top row down.
#[derive(Debug)]
pub struct LatTable {
    pub lats: Vec<i64>,
}

impl LatTable {
    /// A full table for a tile of the given side, all values in range.
    pub open spec fn wf_for(self, size: int) -> bool {
        &&& self.lats@.len() == 8 * size + 1
        &&& forall|j: int| 0 <= j < self.lats@.len() ==> -Y_LIMIT <= #[trigger] self.lats@[j] <= Y_LIMIT
    }

    /// Wraps a prepared table.
    pub fn new(lats: Vec<i64>) -> (t: LatTable)
        ensures
            t.lats@ == lats@,
    {
        LatTable { lats }
    }
}

/// The grid point at eighth-pixel column `xi8` and table row `lat_j`.
pub open spec fn spec_grid_point(size: int, zoom: int, x_offset: int, lats: Seq<i64>, xi8: int, lat_j: int) -> Point {
    Point {
        x: spec_lon(size, zoom, x_offset, xi8) as i64,
        y: lats[lat_j],
        scale_x2: spec_scale_x2(lats[lat_j] as int) as i64,
    }
}

/// The normalized signed-distance value of one pixel: the clamped metre
/// distance, negated inside the polygon set, shifted and scaled into
/// fixed-point steps of the `[min_mm, max_mm]` span.
pub open spec fn spec_sdf_pixel(segs: Seq<Segment>, g: Seq<Seq<Seq<Point>>>, q: Point, min_mm: int, max_mm: int) -> int {
    let d = spec_collection_min_mm(segs, q, max_mm);
    let sd = if spec_geometry_contains(g, q) { -d } else { d };
    spec_tdiv((sd - min_mm) * 0x100000, max_mm - min_mm)
}

/// The working polygon set handed to the quadrant of `(x, y)`: clipped
/// along the midlines at coarse levels, unchanged below the threshold.
pub open spec fn spec_quadrant_geometry(g: Seq<Seq<Seq<Point>>>, xc: i64, yc: i64, right: bool, bottom: bool, size: int, threshold: int) -> Seq<Seq<Seq<Point>>> {
    if size < threshold {
        g
    } else {
        let gv = if bottom {
            spec_geometry_cut(g, CutSide::Top(yc))
        } else {
            spec_geometry_cut(g, CutSide::Bottom(yc))
        };
        if right {
            spec_geometry_cut(gv, CutSide::Left(xc))
        } else {
            spec_geometry_cut(gv, CutSide::Right(xc))
        }
    }
}

/// The signed-distance value the adaptive fill writes at pixel `(x, y)`
/// of the square region of side `size` at `(xi, yi)`, descending with the
/// working polygon set `g`.
pub open spec fn spec_fill_sdf(
    segs: Seq<Segment>, g: Seq<Seq<Seq<Point>>>,
    size0: int, zoom: int, x_offset: int, lats: Seq<i64>,
    min_mm: int, max_mm: int,
    xi: int, yi: int, size: int, x: int, y: int,
) -> int
    decreases size,
{
    if size <= 1 {
        spec_sdf_pixel(
            segs, g,
            spec_grid_point(size0, zoom, x_offset, lats, 8 * xi + 4, 8 * yi + 4),
            min_mm, max_mm,
        )
    } else {
        let half = size / 2;
        let xc = spec_lon(size0, zoom, x_offset, 8 * (xi + half)) as i64;
        let yc = lats[8 * (yi + half)];
        let right = x >= xi + half;
        let bottom = y >= yi + half;
        let g2 = spec_quadrant_geometry(g, xc, yc, right, bottom, size, 128);
        let nxi = if right { xi + half } else { xi };
        let nyi = if bottom { yi + half } else { yi };
        spec_fill_sdf(segs, g2, size0, zoom, x_offset, lats, min_mm, max_mm, nxi, nyi, half, x, y)
    }
}

} // verus!

verus! {

/// Fills the square region of side `size` at `(xi, yi)` with normalized
/// signed distances, recursing by quadrants and clipping the working
/// polygon set at coarse levels.
#[verifier::loop_isolation(false)]
fn fill_sdf_rec(
    channel: &mut Channel,
    collection: &Collection,
    g: &Geometry,
    lats: &LatTable,
    size0: u32, zoom: u32, x_offset: u32,
    min_mm: i64, max_mm: i64,
    xi: u32, yi: u32, size: u32,
    Ghost(e): Ghost<nat>,
)
    requires
        old(channel).wf(),
        old(channel).width == size0,
        old(channel).height == size0,
        collection.wf(),
        collection.index_synced(),
        g.wf(),
        lats.wf_for(size0 as int),
        1 <= size0 <= 0x8000,
        zoom <= 31,
        (x_offset as nat) < pow2(zoom as nat),
        xi + size <= size0,
        yi + size <= size0,
        size == pow2(e),
        1 <= size,
        -0x10000000000 <= min_mm,
        0 <= max_mm <= 0x10000000000,
        min_mm < max_mm,
    ensures
        final(channel).wf(),
        final(channel).width == size0,
        final(channel).height == size0,
        forall|x: int, y: int| xi <= x < xi + size && yi <= y < yi + size
            ==> #[trigger] final(channel)@[y * size0 + x] == spec_fill_sdf(
                spec_geometry_segments(collection.geometry@), g@,
                size0 as int, zoom as int, x_offset as int, lats.lats@,
                min_mm as int, max_mm as int,
                xi as int, yi as int, size as int, x, y,
            ),
        forall|x: int, y: int| 0 <= x < size0 && 0 <= y < size0
            && !(xi <= x < xi + size && yi <= y < yi + size)
            ==> #[trigger] final(channel)@[y * size0 + x] == old(channel)@[y * size0 + x],
    decreases size,
{
    proof {
        lemma_pow2_pos(e);
    }
    if size == 1 {
        let lon = lon_at(size0, zoom, x_offset, 8 * xi + 4);
        let lat = lats.lats[(8 * yi + 4) as usize];
        let q = Point::new(lon, lat);
        let d = collection.get_min_distance(&q, max_mm as u64);
        let inside = g.contains_point(&q);
        let sd: i64 = if inside { -(d as i64) } else { d as i64 };
        let num: i64 = (sd - min_mm) * 0x100000;
        let den: i64 = max_mm - min_mm;
        let v: i64 = if num >= 0 { num / den } else { -((-num) / den) };
        proof {
            vstd::arithmetic::div_mod::lemma_div_is_ordered(
                if num >= 0 { num as int } else { -(num as int) },
                0x4000000000000000,
                den as int,
            );
            vstd::arithmetic::div_mod::lemma_div_pos_is_pos(
                if num >= 0 { num as int } else { -(num as int) },
                den as int,
            );
            vstd::arithmetic::div_mod::lemma_div_is_ordered_by_denominator(
                if num >= 0 { num as int } else { -(num as int) },
                1,
                den as int,
            );
            assert(-CHANNEL_VALUE_LIMIT <= v <= CHANNEL_VALUE_LIMIT);
        }
        channel.set_pixel_value(xi, yi, v);
        proof {
            let qq = spec_grid_point(
                size0 as int, zoom as int, x_offset as int, lats.lats@,
                8 * (xi as int) + 4, 8 * (yi as int) + 4,
            );
            assert(q == qq);
            assert(v == spec_sdf_pixel(
                spec_geometry_segments(collection.geometry@), g@, qq,
                min_mm as int, max_mm as int,
            ));
            assert(channel@ == old(channel)@.update(xi as int + (yi as int) * (size0 as int), v));
            assert(channel@.len() == size0 * size0);
            assert(0 <= yi * size0 + xi < size0 * size0) by (nonlinear_arith)
                requires 0 <= xi < size0, 0 <= yi < size0, 1 <= size0;
            assert forall|x: int, y: int| 0 <= x < size0 && 0 <= y < size0
                && !(xi <= x < xi + 1 && yi <= y < yi + 1)
                implies #[trigger] channel@[y * size0 + x] == old(channel)@[y * size0 + x] by {
                assert(0 <= y * size0 + x < size0 * size0) by (nonlinear_arith)
                    requires 0 <= x < size0, 0 <= y < size0, 1 <= size0;
                if y == yi {
                    assert(x != xi);
                    assert(y * size0 + x != yi * size0 + xi);
                } else {
                    assert(y * size0 + x != yi * size0 + xi) by (nonlinear_arith)
                        requires
                            0 <= x < size0,
                            0 <= xi < size0,
                            y != yi,
                            0 <= y,
                            0 <= yi,
                            1 <= size0;
                }
            }
        }
    } else {
        let half = size / 2;
        proof {
            assert(e >= 1) by {
                if e == 0 {
                    assert(pow2(0) == 1) by { vstd::arithmetic::power2::lemma2_to64(); }
                }
            }
            lemma_pow2_unfold(e);
            assert(half == pow2((e - 1) as nat));
            lemma_pow2_pos((e - 1) as nat);
        }
        let ghost e2 = (e - 1) as nat;
        let ghost segs = spec_geometry_segments(collection.geometry@);
        let xc = lon_at(size0, zoom, x_offset, 8 * (xi + half));
        let yc = lats.lats[(8 * (yi + half)) as usize];
        let ghost vtl: Seq<Seq<Seq<Point>>>;
        let ghost vtr: Seq<Seq<Seq<Point>>>;
        let ghost vbl: Seq<Seq<Seq<Point>>>;
        let ghost vbr: Seq<Seq<Seq<Point>>>;
        let ghost c1: Seq<i64>;
        let ghost c2: Seq<i64>;
        let ghost c3: Seq<i64>;
        if size < 128 {
            proof {
                vtl = g@;
                vtr = g@;
                vbl = g@;
                vbr = g@;
            }
            fill_sdf_rec(channel, collection, g, lats, size0, zoom, x_offset, min_mm, max_mm, xi, yi, half, Ghost(e2));
            proof { c1 = channel@; }
            fill_sdf_rec(channel, collection, g, lats, size0, zoom, x_offset, min_mm, max_mm, xi + half, yi, half, Ghost(e2));
            proof { c2 = channel@; }
            fill_sdf_rec(channel, collection, g, lats, size0, zoom, x_offset, min_mm, max_mm, xi, yi + half, half, Ghost(e2));
            proof { c3 = channel@; }
            fill_sdf_rec(channel, collection, g, lats, size0, zoom, x_offset, min_mm, max_mm, xi + half, yi + half, half, Ghost(e2));
        } else {
            let g_top = g.clone_cut_bot(yc);
            let g_tl = g_top.clone_cut_rig(xc);
            proof { vtl = g_tl@; }
            fill_sdf_rec(channel, collection, &g_tl, lats, size0, zoom, x_offset, min_mm, max_mm, xi, yi, half, Ghost(e2));
            proof { c1 = channel@; }
            let g_tr = g_top.clone_cut_lef(xc);
            proof { vtr = g_tr@; }
            fill_sdf_rec(channel, collection, &g_tr, lats, size0, zoom, x_offset, min_mm, max_mm, xi + half, yi, half, Ghost(e2));
            proof { c2 = channel@; }
            let g_bot = g.clone_cut_top(yc);
            let g_bl = g_bot.clone_cut_rig(xc);
            proof { vbl = g_bl@; }
            fill_sdf_rec(channel, collection, &g_bl, lats, size0, zoom, x_offset, min_mm, max_mm, xi, yi + half, half, Ghost(e2));
            proof { c3 = channel@; }
            let g_br = g_bot.clone_cut_lef(xc);
            proof { vbr = g_br@; }
            fill_sdf_rec(channel, collection, &g_br, lats, size0, zoom, x_offset, min_mm, max_mm, xi + half, yi + half, half, Ghost(e2));
        }
        proof {
            assert(xc as int == spec_lon(size0 as int, zoom as int, x_offset as int, 8 * (xi as int + half)));
            assert forall|x: int, y: int| xi <= x < xi + size && yi <= y < yi + size
                implies #[trigger] channel@[y * size0 + x] == spec_fill_sdf(
                    segs, g@,
                    size0 as int, zoom as int, x_offset as int, lats.lats@,
                    min_mm as int, max_mm as int,
                    xi as int, yi as int, size as int, x, y,
                ) by {
                let h = half as int;
                let right = x >= xi + h;
                let bottom = y >= yi + h;
                assert(channel@.len() == size0 * size0);
                assert(0 <= y * size0 + x < size0 * size0) by (nonlinear_arith)
                    requires 0 <= x < size0, 0 <= y < size0, 1 <= size0;
                let gq = spec_quadrant_geometry(g@, xc, yc, right, bottom, size as int, 128);
                if !right && !bottom {
                    assert(gq == vtl);
                    assert(c1[y * size0 + x] == spec_fill_sdf(
                        segs, vtl, size0 as int, zoom as int, x_offset as int, lats.lats@,
                        min_mm as int, max_mm as int, xi as int, yi as int, h, x, y));
                    assert(c2[y * size0 + x] == c1[y * size0 + x]);
                    assert(c3[y * size0 + x] == c2[y * size0 + x]);
                    assert(channel@[y * size0 + x] == c3[y * size0 + x]);
                } else if right && !bottom {
                    assert(gq == vtr);
                    assert(c2[y * size0 + x] == spec_fill_sdf(
                        segs, vtr, size0 as int, zoom as int, x_offset as int, lats.lats@,
                        min_mm as int, max_mm as int, xi as int + h, yi as int, h, x, y));
                    assert(c3[y * size0 + x] == c2[y * size0 + x]);
                    assert(channel@[y * size0 + x] == c3[y * size0 + x]);
                } else if !right && bottom {
                    assert(gq == vbl);
                    assert(c3[y * size0 + x] == spec_fill_sdf(
                        segs, vbl, size0 as int, zoom as int, x_offset as int, lats.lats@,
                        min_mm as int, max_mm as int, xi as int, yi as int + h, h, x, y));
                    assert(channel@[y * size0 + x] == c3[y * size0 + x]);
                } else {
                    assert(gq == vbr);
                    assert(channel@[y * size0 + x] == spec_fill_sdf(
                        segs, vbr, size0 as int, zoom as int, x_offset as int, lats.lats@,
                        min_mm as int, max_mm as int, xi as int + h, yi as int + h, h, x, y));
                }
            }
        }
    }
}

impl GeoImage {
    /// Fills one channel with normalized signed distances to the
    /// collection's boundary, negative inside the polygon set.  The set is
    /// first clipped to the tile's bounds, then the adaptive quadrant
    /// recursion descends from the full tile.
    pub fn draw_distances(&mut self, channel_index: usize, collection: &Collection, min_distance: i64, max_distance: i64, lats: &LatTable)
        requires
            old(self).wf(),
            channel_index < 2,
            collection.wf(),
            collection.index_synced(),
            lats.wf_for(old(self).size as int),
            exists|e: nat| e <= 15 && old(self).size == pow2(e),
            -0x10000000000 <= min_distance,
            0 <= max_distance <= 0x10000000000,
            min_distance < max_distance,
        ensures
            final(self).wf(),
            final(self).size == old(self).size,
            final(self).zoom == old(self).zoom,
            final(self).x_offset == old(self).x_offset,
            final(self).y_offset == old(self).y_offset,
            forall|c: int| 0 <= c < 2 && c != channel_index
                ==> final(self).channels@[c] == old(self).channels@[c],
            ({
                let size = old(self).size as int;
                let g0 = old(self).spec_clipped_geometry(collection.geometry@, lats.lats@);
                forall|x: int, y: int| 0 <= x < size && 0 <= y < size
                    ==> #[trigger] final(self).channels@[channel_index as int]@[y * size + x]
                        == spec_fill_sdf(
                            spec_geometry_segments(collection.geometry@), g0,
                            size, old(self).zoom as int, old(self).x_offset as int, lats.lats@,
                            min_distance as int, max_distance as int,
                            0, 0, size, x, y,
                        )
            }),
    {
        let size = self.size;
        let ghost e = choose|e: nat| e <= 15 && size == pow2(e);
        let y_top = lats.lats[0];
        let y_bot = lats.lats[(8 * size) as usize];
        let x_lef = lon_at(size, self.zoom, self.x_offset, 0);
        let x_rig = lon_at(size, self.zoom, self.x_offset, 8 * size);
        let g1 = collection.geometry.clone_cut_top(y_top);
        let g2 = g1.clone_cut_bot(y_bot);
        let g3 = g2.clone_cut_lef(x_lef);
        let g4 = g3.clone_cut_rig(x_rig);
        let zoom = self.zoom;
        let x_offset = self.x_offset;
        let channel: &mut Channel = &mut self.channels[channel_index];
        fill_sdf_rec(channel, collection, &g4, lats, size, zoom, x_offset,
            min_distance, max_distance, 0, 0, size, Ghost(e));
    }

    /// The polygon set clipped to this tile's bounds, as the distance fill
    /// sees it before recursing.
    pub open spec fn spec_clipped_geometry(self, g: Seq<Seq<Seq<Point>>>, lats: Seq<i64>) -> Seq<Seq<Seq<Point>>> {
        let size = self.size as int;
        let y_top = lats[0];
        let y_bot = lats[8 * size];
        let x_lef = spec_lon(size, self.zoom as int, self.x_offset as int, 0) as i64;
        let x_rig = spec_lon(size, self.zoom as int, self.x_offset as int, 8 * size) as i64;
        spec_geometry_cut(
            spec_geometry_cut(
                spec_geometry_cut(
                    spec_geometry_cut(g, CutSide::Top(y_top)),
                    CutSide::Bottom(y_bot),
                ),
                CutSide::Left(x_lef),
            ),
            CutSide::Right(x_rig),
        )
    }
}

} // verus!

verus! {

/// Number of inside samples among the first `i` of the 4-by-4 sub-pixel
/// grid of pixel `(xi, yi)`.
pub open spec fn spec_occ_count(
    g: Seq<Seq<Seq<Point>>>, size0: int, zoom: int, x_offset: int, lats: Seq<i64>,
    xi: int, yi: int, i: int,
) -> int
    decreases i,
{
    if i <= 0 {
        0
    } else {
        let xa = (i - 1) / 4;
        let ya = (i - 1) % 4;
        let q = spec_grid_point(size0, zoom, x_offset, lats, 8 * xi + 2 * xa + 1, 8 * yi + 2 * ya + 1);
        spec_occ_count(g, size0, zoom, x_offset, lats, xi, yi, i - 1)
            + if spec_geometry_contains(g, q) { 1int } else { 0int }
    }
}

/// The occupancy value the adaptive fill writes at pixel `(x, y)`: the
/// inside fraction of a 4-by-4 sub-pixel sample, in fixed-point steps.
pub open spec fn spec_fill_occ(
    g: Seq<Seq<Seq<Point>>>,
    size0: int, zoom: int, x_offset: int, lats: Seq<i64>,
    xi: int, yi: int, size: int, x: int, y: int,
) -> int
    decreases size,
{
    if size <= 1 {
        spec_occ_count(g, size0, zoom, x_offset, lats, xi, yi, 16) * 0x10000
    } else {
        let half = size / 2;
        let xc = spec_lon(size0, zoom, x_offset, 8 * (xi + half)) as i64;
        let yc = lats[8 * (yi + half)];
        let right = x >= xi + half;
        let bottom = y >= yi + half;
        let g2 = spec_quadrant_geometry(g, xc, yc, right, bottom, size, 16);
        let nxi = if right { xi + half } else { xi };
        let nyi = if bottom { yi + half } else { yi };
        spec_fill_occ(g2, size0, zoom, x_offset, lats, nxi, nyi, half, x, y)
    }
}

/// Fills the square region of side `size` at `(xi, yi)` with occupancy
/// fractions, recursing by quadrants.
#[verifier::loop_isolation(false)]
fn fill_occ_rec(
    channel: &mut Channel,
    g: &Geometry,
    lats: &LatTable,
    size0: u32, zoom: u32, x_offset: u32,
    xi: u32, yi: u32, size: u32,
    Ghost(e): Ghost<nat>,
)
    requires
        old(channel).wf(),
        old(channel).width == size0,
        old(channel).height == size0,
        g.wf(),
        lats.wf_for(size0 as int),
        1 <= size0 <= 0x8000,
        zoom <= 31,
        (x_offset as nat) < pow2(zoom as nat),
        xi + size <= size0,
        yi + size <= size0,
        size == pow2(e),
        1 <= size,
    ensures
        final(channel).wf(),
        final(channel).width == size0,
        final(channel).height == size0,
        forall|x: int, y: int| xi <= x < xi + size && yi <= y < yi + size
            ==> #[trigger] final(channel)@[y * size0 + x] == spec_fill_occ(
                g@, size0 as int, zoom as int, x_offset as int, lats.lats@,
                xi as int, yi as int, size as int, x, y,
            ),
        forall|x: int, y: int| 0 <= x < size0 && 0 <= y < size0
            && !(xi <= x < xi + size && yi <= y < yi + size)
            ==> #[trigger] final(channel)@[y * size0 + x] == old(channel)@[y * size0 + x],
    decreases size,
{
    proof {
        lemma_pow2_pos(e);
    }
    if size == 1 {
        let mut sum: i64 = 0;
        let mut xa: u32 = 0;
        while xa < 4
            invariant
                xa <= 4,
                0 <= sum <= 4 * xa,
                sum == spec_occ_count(
                    g@, size0 as int, zoom as int, x_offset as int, lats.lats@,
                    xi as int, yi as int, 4 * xa,
                ),
            decreases 4 - xa,
        {
            let mut ya: u32 = 0;
            while ya < 4
                invariant
                    xa < 4,
                    ya <= 4,
                    0 <= sum <= 4 * xa + ya,
                    sum == spec_occ_count(
                        g@, size0 as int, zoom as int, x_offset as int, lats.lats@,
                        xi as int, yi as int, 4 * xa + ya,
                    ),
                decreases 4 - ya,
            {
                let lon = lon_at(size0, zoom, x_offset, 8 * xi + 2 * xa + 1);
                let lat = lats.lats[(8 * yi + 2 * ya + 1) as usize];
                let q = Point::new(lon, lat);
                let inside = g.contains_point(&q);
                proof {
                    let i = 4 * (xa as int) + (ya as int) + 1;
                    assert((i - 1) / 4 == xa && (i - 1) % 4 == ya) by (nonlinear_arith)
                        requires
                            i == 4 * (xa as int) + (ya as int) + 1,
                            0 <= xa < 4,
                            0 <= ya < 4;
                    assert(q == spec_grid_point(
                        size0 as int, zoom as int, x_offset as int, lats.lats@,
                        8 * (xi as int) + 2 * (xa as int) + 1, 8 * (yi as int) + 2 * (ya as int) + 1,
                    ));
                }
                if inside {
                    sum = sum + 1;
                }
                ya = ya + 1;
            }
            xa = xa + 1;
        }
        let v: i64 = sum * 0x10000;
        channel.set_pixel_value(xi, yi, v);
        proof {
            assert(channel@ == old(channel)@.update(xi as int + (yi as int) * (size0 as int), v));
            assert(channel@.len() == size0 * size0);
            assert(0 <= yi * size0 + xi < size0 * size0) by (nonlinear_arith)
                requires 0 <= xi < size0, 0 <= yi < size0, 1 <= size0;
            assert forall|x: int, y: int| 0 <= x < size0 && 0 <= y < size0
                && !(xi <= x < xi + 1 && yi <= y < yi + 1)
                implies #[trigger] channel@[y * size0 + x] == old(channel)@[y * size0 + x] by {
                assert(0 <= y * size0 + x < size0 * size0) by (nonlinear_arith)
                    requires 0 <= x < size0, 0 <= y < size0, 1 <= size0;
                if y == yi {
                    assert(x != xi);
                    assert(y * size0 + x != yi * size0 + xi);
                } else {
                    assert(y * size0 + x != yi * size0 + xi) by (nonlinear_arith)
                        requires
                            0 <= x < size0,
                            0 <= xi < size0,
                            y != yi,
                            0 <= y,
                            0 <= yi,
                            1 <= size0;
                }
            }
        }
    } else {
        let half = size / 2;
        proof {
            assert(e >= 1) by {
                if e == 0 {
                    assert(pow2(0) == 1) by { vstd::arithmetic::power2::lemma2_to64(); }
                }
            }
            lemma_pow2_unfold(e);
            assert(half == pow2((e - 1) as nat));
            lemma_pow2_pos((e - 1) as nat);
        }
        let ghost e2 = (e - 1) as nat;
        let xc = lon_at(size0, zoom, x_offset, 8 * (xi + half));
        let yc = lats.lats[(8 * (yi + half)) as usize];
        let ghost vtl: Seq<Seq<Seq<Point>>>;
        let ghost vtr: Seq<Seq<Seq<Point>>>;
        let ghost vbl: Seq<Seq<Seq<Point>>>;
        let ghost vbr: Seq<Seq<Seq<Point>>>;
        let ghost c1: Seq<i64>;
        let ghost c2: Seq<i64>;
        let ghost c3: Seq<i64>;
        if size < 16 {
            proof {
                vtl = g@;
                vtr = g@;
                vbl = g@;
                vbr = g@;
            }
            fill_occ_rec(channel, g, lats, size0, zoom, x_offset, xi, yi, half, Ghost(e2));
            proof { c1 = channel@; }
            fill_occ_rec(channel, g, lats, size0, zoom, x_offset, xi + half, yi, half, Ghost(e2));
            proof { c2 = channel@; }
            fill_occ_rec(channel, g, lats, size0, zoom, x_offset, xi, yi + half, half, Ghost(e2));
            proof { c3 = channel@; }
            fill_occ_rec(channel, g, lats, size0, zoom, x_offset, xi + half, yi + half, half, Ghost(e2));
        } else {
            let g_top = g.clone_cut_bot(yc);
            let g_tl = g_top.clone_cut_rig(xc);
            proof { vtl = g_tl@; }
            fill_occ_rec(channel, &g_tl, lats, size0, zoom, x_offset, xi, yi, half, Ghost(e2));
            proof { c1 = channel@; }
            let g_tr = g_top.clone_cut_lef(xc);
            proof { vtr = g_tr@; }
            fill_occ_rec(channel, &g_tr, lats, size0, zoom, x_offset, xi + half, yi, half, Ghost(e2));
            proof { c2 = channel@; }
            let g_bot = g.clone_cut_top(yc);
            let g_bl = g_bot.clone_cut_rig(xc);
            proof { vbl = g_bl@; }
            fill_occ_rec(channel, &g_bl, lats, size0, zoom, x_offset, xi, yi + half, half, Ghost(e2));
            proof { c3 = channel@; }
            let g_br = g_bot.clone_cut_lef(xc);
            proof { vbr = g_br@; }
            fill_occ_rec(channel, &g_br, lats, size0, zoom, x_offset, xi + half, yi + half, half, Ghost(e2));
        }
        proof {
            assert(xc as int == spec_lon(size0 as int, zoom as int, x_offset as int, 8 * (xi as int + half)));
            assert forall|x: int, y: int| xi <= x < xi + size && yi <= y < yi + size
                implies #[trigger] channel@[y * size0 + x] == spec_fill_occ(
                    g@, size0 as int, zoom as int, x_offset as int, lats.lats@,
                    xi as int, yi as int, size as int, x, y,
                ) by {
                let h = half as int;
                let right = x >= xi + h;
                let bottom = y >= yi + h;
                assert(channel@.len() == size0 * size0);
                assert(0 <= y * size0 + x < size0 * size0) by (nonlinear_arith)
                    requires 0 <= x < size0, 0 <= y < size0, 1 <= size0;
                let gq = spec_quadrant_geometry(g@, xc, yc, right, bottom, size as int, 16);
                if !right && !bottom {
                    assert(gq == vtl);
                    assert(c1[y * size0 + x] == spec_fill_occ(
                        vtl, size0 as int, zoom as int, x_offset as int, lats.lats@,
                        xi as int, yi as int, h, x, y));
                    assert(c2[y * size0 + x] == c1[y * size0 + x]);
                    assert(c3[y * size0 + x] == c2[y * size0 + x]);
                    assert(channel@[y * size0 + x] == c3[y * size0 + x]);
                } else if right && !bottom {
                    assert(gq == vtr);
                    assert(c2[y * size0 + x] == spec_fill_occ(
                        vtr, size0 as int, zoom as int, x_offset as int, lats.lats@,
                        xi as int + h, yi as int, h, x, y));
                    assert(c3[y * size0 + x] == c2[y * size0 + x]);
                    assert(channel@[y * size0 + x] == c3[y * size0 + x]);
                } else if !right && bottom {
                    assert(gq == vbl);
                    assert(c3[y * size0 + x] == spec_fill_occ(
                        vbl, size0 as int, zoom as int, x_offset as int, lats.lats@,
                        xi as int, yi as int + h, h, x, y));
                    assert(channel@[y * size0 + x] == c3[y * size0 + x]);
                } else {
                    assert(gq == vbr);
                    assert(channel@[y * size0 + x] == spec_fill_occ(
                        vbr, size0 as int, zoom as int, x_offset as int, lats.lats@,
                        xi as int + h, yi as int + h, h, x, y));
                }
            }
        }
    }
}

impl GeoImage {
    /// Fills one channel with the polygon set's occupancy fraction,
    /// sampled on a 4-by-4 sub-pixel grid per pixel.
    pub fn draw_geometry(&mut self, channel_index: usize, collection: &Collection, lats: &LatTable)
        requires
            old(self).wf(),
            channel_index < 2,
            collection.wf(),
            lats.wf_for(old(self).size as int),
            exists|e: nat| e <= 15 && old(self).size == pow2(e),
        ensures
            final(self).wf(),
            final(self).size == old(self).size,
            final(self).zoom == old(self).zoom,
            final(self).x_offset == old(self).x_offset,
            final(self).y_offset == old(self).y_offset,
            forall|c: int| 0 <= c < 2 && c != channel_index
                ==> final(self).channels@[c] == old(self).channels@[c],
            ({
                let size = old(self).size as int;
                forall|x: int, y: int| 0 <= x < size && 0 <= y < size
                    ==> #[trigger] final(self).channels@[channel_index as int]@[y * size + x]
                        == spec_fill_occ(
                            collection.geometry@,
                            size, old(self).zoom as int, old(self).x_offset as int, lats.lats@,
                            0, 0, size, x, y,
                        )
            }),
    {
        let size = self.size;
        let ghost e = choose|e: nat| e <= 15 && size == pow2(e);
        let zoom = self.zoom;
        let x_offset = self.x_offset;
        let channel: &mut Channel = &mut self.channels[channel_index];
        fill_occ_rec(channel, &collection.geometry, lats, size, zoom, x_offset, 0, 0, size, Ghost(e));
    }
}

} // verus!

verus! {

impl GeoImage {
    /// The geographic point of a pixel corner: exact longitude, latitude
    /// from the row table.
    pub fn get_pixel_as_point(&self, x: u32, y: u32, lats: &LatTable) -> (p: Point)
        requires
            self.wf(),
            lats.wf_for(self.size as int),
            x <= self.size,
            y <= self.size,
        ensures
            p == spec_grid_point(
                self.size as int, self.zoom as int, self.x_offset as int, lats.lats@,
                8 * x as int, 8 * y as int,
            ),
            p.wf(),
    {
        let lon = lon_at(self.size, self.zoom, self.x_offset, 8 * x);
        let lat = lats.lats[(8 * y) as usize];
        Point::new(lon, lat)
    }

    /// The south-west corner of the tile.
    pub fn get_point_min(&self, lats: &LatTable) -> (p: Point)
        requires
            self.wf(),
            lats.wf_for(self.size as int),
        ensures
            p == spec_grid_point(
                self.size as int, self.zoom as int, self.x_offset as int, lats.lats@,
                0, 8 * self.size as int,
            ),
            p.wf(),
    {
        self.get_pixel_as_point(0, self.size, lats)
    }

    /// The north-east corner of the tile.
    pub fn get_point_max(&self, lats: &LatTable) -> (p: Point)
        requires
            self.wf(),
            lats.wf_for(self.size as int),
        ensures
            p == spec_grid_point(
                self.size as int, self.zoom as int, self.x_offset as int, lats.lats@,
                8 * self.size as int, 0,
            ),
            p.wf(),
    {
        self.get_pixel_as_point(self.size, 0, lats)
    }
}

} // verus!
