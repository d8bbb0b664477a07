//! Geo-referenced raster tiles: pixel channels in fixed-point steps of
//! 2^-20, box-filter mip reduction, sub-tile extraction and four-way tile
//! merging.

use vstd::prelude::*;
use vstd::arithmetic::div_mod::{lemma_div_is_ordered, lemma_div_by_multiple};
use crate::fixed::spec_tdiv;

verus! {

/// The largest magnitude a channel value may carry (fixed-point steps).
pub const CHANNEL_VALUE_LIMIT: i64 = 0x4000000000000000;

/// Default fill of the distance channel: one million, in fixed-point steps.
pub const DIST_CHANNEL_DEFAULT: i64 = 0xF424000000;

/// The largest tile side accepted.
pub const MAX_TILE_SIZE: u32 = 0x8000;

/// One pixel plane of a raster: a flat row-major value buffer.
#[derive(Debug)]
pub struct Channel {
    pub width: u32,
    pub height: u32,
    pub data: Vec<i64>,
}

impl View for Channel {
    type V = Seq<i64>;

    open spec fn view(&self) -> Seq<i64> {
        self.data@
    }
}

impl Channel {
    /// The buffer matches the dimensions and every value is in range.
    pub open spec fn wf(self) -> bool {
        &&& self.data@.len() == self.width * self.height
        &&& forall|i: int| 0 <= i < self.data@.len()
            ==> -CHANNEL_VALUE_LIMIT <= #[trigger] self.data@[i] <= CHANNEL_VALUE_LIMIT
    }

    /// Builds a channel filled with one value.
    pub fn new(width: u32, height: u32, value: i64) -> (c: Channel)
        requires
            width * height <= usize::MAX,
            -CHANNEL_VALUE_LIMIT <= value <= CHANNEL_VALUE_LIMIT,
        ensures
            c.wf(),
            c.width == width,
            c.height == height,
            c@.len() == width * height,
            forall|i: int| 0 <= i < c@.len() ==> #[trigger] c@[i] == value,
    {
        let length: usize = (width as usize) * (height as usize);
        let mut data: Vec<i64> = Vec::new();
        let mut i: usize = 0;
        while i < length
            invariant
                i <= length,
                data@.len() == i,
                forall|j: int| 0 <= j < i ==> #[trigger] data@[j] == value,
            decreases length - i,
        {
            data.push(value);
            i = i + 1;
        }
        Channel { width, height, data }
    }

    /// Writes one pixel.
    pub fn set_pixel_value(&mut self, x: u32, y: u32, distance: i64)
        requires
            old(self).wf(),
            x < old(self).width,
            y < old(self).height,
            -CHANNEL_VALUE_LIMIT <= distance <= CHANNEL_VALUE_LIMIT,
        ensures
            final(self).wf(),
            final(self).width == old(self).width,
            final(self).height == old(self).height,
            final(self)@ == old(self)@.update(x + y * old(self).width, distance),
    {
        let l = self.data.len();
        proof {
            assert(x + y * self.width < self.width * self.height) by (nonlinear_arith)
                requires
                    x < self.width,
                    y < self.height,
                    0 <= self.width,
                    0 <= self.height;
            assert(l == self.width * self.height);
        }
        let index: usize = (x as usize) + (y as usize) * (self.width as usize);
        self.data[index] = distance;
    }
}

/// Sum of `n` consecutive values starting at `base`.
pub open spec fn spec_row_sum(data: Seq<i64>, base: int, n: int) -> int
    decreases n,
{
    if n <= 0 {
        0
    } else {
        spec_row_sum(data, base, n - 1) + data[base + n - 1]
    }
}

/// Sum of the first `rows` rows of the `f1` by `f1` source block whose
/// top-left corner is source pixel `(x0 * f1, y0 * f1)` of a square raster
/// of side `src`.
pub open spec fn spec_block_sum(data: Seq<i64>, src: int, x0: int, y0: int, f1: int, rows: int) -> int
    decreases rows,
{
    if rows <= 0 {
        0
    } else {
        spec_block_sum(data, src, x0, y0, f1, rows - 1)
            + spec_row_sum(data, (y0 * f1 + rows - 1) * src + x0 * f1, f1)
    }
}

/// The box-filtered value of destination pixel `(x0, y0)`: the block sum
/// divided by the block area, rounded toward zero.
pub open spec fn spec_block_avg(data: Seq<i64>, src: int, x0: int, y0: int, f1: int) -> int {
    spec_tdiv(spec_block_sum(data, src, x0, y0, f1, f1), f1 * f1)
}

/// Box filtering a uniform block gives back the uniform value: the first
/// half of the box-filter law; the exact block-average contract of
/// `scaled_down_clone` is the second.
pub proof fn lemma_box_filter_uniform(data: Seq<i64>, src: int, x0: int, y0: int, f1: int, c: i64)
    requires
        forall|i: int| 0 <= i < data.len() ==> #[trigger] data[i] == c,
        0 < f1,
        0 <= x0,
        0 <= y0,
        (y0 * f1 + f1) * src <= data.len(),
        x0 * f1 + f1 <= src,
        0 < src,
    ensures
        spec_block_avg(data, src, x0, y0, f1) == c,
{
    lemma_block_sum_uniform(data, src, x0, y0, f1, f1, c);
    let s = spec_block_sum(data, src, x0, y0, f1, f1);
    assert(s == (f1 * f1) * c);
    let area = f1 * f1;
    assert(area > 0) by (nonlinear_arith)
        requires f1 > 0, area == f1 * f1;
    if c >= 0 {
        assert(s >= 0) by (nonlinear_arith)
            requires s == area * c, area > 0, c >= 0;
        assert(area * c == c * area) by (nonlinear_arith);
        lemma_div_by_multiple(c as int, area);
    } else {
        assert(s < 0) by (nonlinear_arith)
            requires s == area * c, area > 0, c < 0;
        assert(-s == (-c) * area) by (nonlinear_arith)
            requires s == area * c;
        lemma_div_by_multiple(-c as int, area);
    }
}

/// A block sum over a uniform buffer is the area times the value.
proof fn lemma_block_sum_uniform(data: Seq<i64>, src: int, x0: int, y0: int, f1: int, rows: int, c: i64)
    requires
        forall|i: int| 0 <= i < data.len() ==> #[trigger] data[i] == c,
        0 < f1,
        0 <= rows <= f1,
        0 <= x0,
        0 <= y0,
        (y0 * f1 + rows) * src <= data.len(),
        x0 * f1 + f1 <= src,
        0 < src,
    ensures
        spec_block_sum(data, src, x0, y0, f1, rows) == (rows * f1) * c,
    decreases rows,
{
    if rows > 0 {
        assert((y0 * f1 + rows - 1) * src <= (y0 * f1 + rows) * src) by (nonlinear_arith)
            requires 0 < src;
        lemma_block_sum_uniform(data, src, x0, y0, f1, rows - 1, c);
        let base = (y0 * f1 + rows - 1) * src + x0 * f1;
        assert(0 <= base && base + f1 <= data.len()) by (nonlinear_arith)
            requires
                0 <= x0,
                0 <= y0,
                0 < f1,
                0 < rows,
                0 < src,
                x0 * f1 + f1 <= src,
                (y0 * f1 + rows) * src <= data.len(),
                base == (y0 * f1 + rows - 1) * src + x0 * f1;
        lemma_row_sum_uniform(data, base, f1, c);
        assert(((rows - 1) * f1) * c + f1 * c == (rows * f1) * c) by (nonlinear_arith);
    } else {
        assert((rows * f1) * c == 0) by (nonlinear_arith)
            requires rows == 0;
    }
}

/// A row sum over a uniform buffer is the length times the value.
proof fn lemma_row_sum_uniform(data: Seq<i64>, base: int, n: int, c: i64)
    requires
        forall|i: int| 0 <= i < data.len() ==> #[trigger] data[i] == c,
        0 <= base,
        0 <= n,
        base + n <= data.len(),
    ensures
        spec_row_sum(data, base, n) == n * c,
    decreases n,
{
    if n <= 0 {
        assert(n * c == 0) by (nonlinear_arith)
            requires n == 0;
    } else {
        lemma_row_sum_uniform(data, base, n - 1, c);
        assert((n - 1) * c + c == n * c) by (nonlinear_arith);
    }
}

} // verus!

verus! {

/// The magnitude of a truncating quotient is bounded by the bound of the
/// dividend over the divisor.
proof fn lemma_tdiv_bound(a: int, d: int, limit: int)
    requires
        d > 0,
        0 <= limit,
        -(d * limit) <= a <= d * limit,
    ensures
        -limit <= spec_tdiv(a, d) <= limit,
{
    if a >= 0 {
        lemma_div_is_ordered(a, d * limit, d);
        assert(d * limit == limit * d) by (nonlinear_arith);
        lemma_div_by_multiple(limit, d);
        assert(a / d >= 0) by (nonlinear_arith)
            requires a >= 0, d > 0;
    } else {
        lemma_div_is_ordered(-a, d * limit, d);
        assert(d * limit == limit * d) by (nonlinear_arith);
        lemma_div_by_multiple(limit, d);
        assert((-a) / d >= 0) by (nonlinear_arith)
            requires -a >= 0, d > 0;
    }
}

/// A geo-referenced square raster tile: a side length in pixels, a zoom
/// level, integer tile offsets in tile-grid units at that zoom, and two
/// pixel channels (signed distance and occupancy).
#[derive(Debug)]
pub struct GeoImage {
    pub size: u32,
    pub zoom: u32,
    pub x_offset: u32,
    pub y_offset: u32,
    pub channels: Vec<Channel>,
}

/// The default fill of each channel: a large sentinel distance for the
/// distance channel, zero occupancy for the occupancy channel.
pub open spec fn spec_channel_default(c: int) -> i64 {
    if c == 0 { DIST_CHANNEL_DEFAULT } else { 0 }
}

impl GeoImage {
    /// Side and zoom in range, offsets within the zoom's tile grid, and
    /// exactly two square channels of the tile's side.
    pub open spec fn wf(self) -> bool {
        &&& 1 <= self.size <= MAX_TILE_SIZE
        &&& self.zoom <= 31
        &&& (self.x_offset as nat) < vstd::arithmetic::power2::pow2(self.zoom as nat)
        &&& (self.y_offset as nat) < vstd::arithmetic::power2::pow2(self.zoom as nat)
        &&& self.channels@.len() == 2
        &&& forall|c: int| 0 <= c < 2 ==> (#[trigger] self.channels@[c]).wf()
            && self.channels@[c].width == self.size
            && self.channels@[c].height == self.size
    }

    /// Builds a tile at the given zoom and offsets, with the distance
    /// channel at the sentinel default and the occupancy channel at zero.
    pub fn new(size: u32, zoom: u32, x_offset: u32, y_offset: u32) -> (img: GeoImage)
        requires
            1 <= size <= MAX_TILE_SIZE,
            zoom <= 31,
            (x_offset as nat) < vstd::arithmetic::power2::pow2(zoom as nat),
            (y_offset as nat) < vstd::arithmetic::power2::pow2(zoom as nat),
        ensures
            img.wf(),
            img.size == size,
            img.zoom == zoom,
            img.x_offset == x_offset,
            img.y_offset == y_offset,
            forall|c: int, i: int| 0 <= c < 2 && 0 <= i < size * size
                ==> #[trigger] img.channels@[c]@[i] == spec_channel_default(c),
    {
        proof {
            assert(size * size <= 0x40000000) by (nonlinear_arith)
                requires 1 <= size <= 0x8000;
        }
        let c0 = Channel::new(size, size, DIST_CHANNEL_DEFAULT);
        let c1 = Channel::new(size, size, 0);
        let mut channels: Vec<Channel> = Vec::new();
        channels.push(c0);
        channels.push(c1);
        GeoImage { size, zoom, x_offset, y_offset, channels }
    }

    /// Box-filter mip reduction: a new tile of a smaller side at the same
    /// zoom and offsets, in which every pixel is the average of the
    /// corresponding source block.  The source side must be an exact
    /// multiple of the target side.
    pub fn scaled_down_clone(&self, new_size: u32) -> (r: GeoImage)
        requires
            self.wf(),
            1 <= new_size < self.size,
            self.size % new_size == 0,
        ensures
            r.wf(),
            r.size == new_size,
            r.zoom == self.zoom,
            r.x_offset == self.x_offset,
            r.y_offset == self.y_offset,
            forall|c: int, y: int, x: int|
                0 <= c < 2 && 0 <= y < new_size && 0 <= x < new_size
                    ==> #[trigger] r.channels@[c]@[y * new_size + x] == spec_block_avg(
                        self.channels@[c]@,
                        self.size as int,
                        x,
                        y,
                        (self.size / new_size) as int,
                    ),
    {
        let size = self.size;
        let f1: u32 = size / new_size;
        proof {
            assert(1 <= f1 && f1 * new_size <= size && new_size * f1 <= size && f1 <= size)
                by (nonlinear_arith)
                requires
                    1 <= new_size < size,
                    f1 == size / new_size;
            assert(size * size <= 0x40000000) by (nonlinear_arith)
                requires 1 <= size <= 0x8000;
            assert((f1 as i128) * (f1 as i128) <= 0x40000000) by (nonlinear_arith)
                requires 0 <= f1 <= 0x8000;
        }
        let f2: i128 = (f1 as i128) * (f1 as i128);
        let mut channels: Vec<Channel> = Vec::new();
        let mut ci: usize = 0;
        while ci < 2
            invariant
                ci <= 2,
                self.wf(),
                size == self.size,
                1 <= new_size < size,
                f1 == size / new_size,
                f1 >= 1,
                f1 * new_size <= size,
                new_size * f1 <= size,
                f2 == f1 * f1,
                channels@.len() == ci,
                forall|c: int| 0 <= c < ci ==> (#[trigger] channels@[c]).wf()
                    && channels@[c].width == new_size
                    && channels@[c].height == new_size,
                forall|c: int, y: int, x: int|
                    0 <= c < ci && 0 <= y < new_size && 0 <= x < new_size
                        ==> #[trigger] channels@[c]@[y * new_size + x] == spec_block_avg(
                            self.channels@[c]@,
                            size as int,
                            x,
                            y,
                            f1 as int,
                        ),
            decreases 2 - ci,
        {
            let src: &Channel = &self.channels[ci];
            let ghost sview = src@;
            let mut data: Vec<i64> = Vec::new();
            let mut y0: u32 = 0;
            while y0 < new_size
                invariant
                    y0 <= new_size,
                    self.wf(),
                    size == self.size,
                    1 <= new_size < size,
                    f1 == size / new_size,
                    f1 >= 1,
                    f1 * new_size <= size,
                    new_size * f1 <= size,
                    f2 == f1 * f1,
                    ci < 2,
                    src == &self.channels@[ci as int],
                    sview == src@,
                    data@.len() == y0 * new_size,
                    forall|y: int, x: int| 0 <= y < y0 && 0 <= x < new_size
                        ==> #[trigger] data@[y * new_size + x]
                            == spec_block_avg(sview, size as int, x, y, f1 as int),
                    forall|i: int| 0 <= i < data@.len()
                        ==> -CHANNEL_VALUE_LIMIT <= #[trigger] data@[i] <= CHANNEL_VALUE_LIMIT,
                decreases new_size - y0,
            {
                let mut x0: u32 = 0;
                while x0 < new_size
                    invariant
                        x0 <= new_size,
                        y0 < new_size,
                        self.wf(),
                        size == self.size,
                        1 <= new_size < size,
                        f1 == size / new_size,
                        f1 >= 1,
                        f1 * new_size <= size,
                        new_size * f1 <= size,
                        f2 == f1 * f1,
                        ci < 2,
                        src == &self.channels@[ci as int],
                        sview == src@,
                        data@.len() == y0 * new_size + x0,
                        forall|y: int, x: int| 0 <= y < y0 && 0 <= x < new_size
                            ==> #[trigger] data@[y * new_size + x]
                                == spec_block_avg(sview, size as int, x, y, f1 as int),
                        forall|x: int| 0 <= x < x0
                            ==> #[trigger] data@[y0 * new_size + x]
                                == spec_block_avg(sview, size as int, x, y0 as int, f1 as int),
                        forall|i: int| 0 <= i < data@.len()
                            ==> -CHANNEL_VALUE_LIMIT <= #[trigger] data@[i] <= CHANNEL_VALUE_LIMIT,
                    decreases new_size - x0,
                {
                    proof {
                        assert(sview.len() == size * size);
                        assert((y0 * f1 + f1) * size <= size * size && x0 * f1 + f1 <= size)
                            by (nonlinear_arith)
                            requires
                                y0 < new_size,
                                x0 < new_size,
                                f1 >= 1,
                                new_size * f1 <= size,
                                0 < size;
                        assert(size * size <= 0x40000000) by (nonlinear_arith)
                            requires 1 <= size <= 0x8000;
                    }
                    let mut sum: i128 = 0;
                    let mut yd: u32 = 0;
                    while yd < f1
                        invariant
                            yd <= f1,
                            y0 < new_size,
                            x0 < new_size,
                            self.wf(),
                            size == self.size,
                            1 <= new_size < size,
                            f1 >= 1,
                            f1 * new_size <= size,
                            new_size * f1 <= size,
                            ci < 2,
                            src == &self.channels@[ci as int],
                            sview == src@,
                            sview.len() == size * size,
                            (y0 * f1 + f1) * size <= size * size,
                            x0 * f1 + f1 <= size,
                            size * size <= 0x40000000,
                            f1 <= size,
                            size <= 0x8000,
                            sum == spec_block_sum(sview, size as int, x0 as int, y0 as int, f1 as int, yd as int),
                            -((yd * f1) * CHANNEL_VALUE_LIMIT) <= sum <= (yd * f1) * CHANNEL_VALUE_LIMIT,
                        decreases f1 - yd,
                    {
                        proof {
                            assert((y0 * f1 + yd) * size + x0 * f1 + f1 <= size * size
                                && y0 * f1 + yd <= size
                                && x0 * f1 <= size)
                                by (nonlinear_arith)
                                requires
                                    yd < f1,
                                    (y0 * f1 + f1) * size <= size * size,
                                    x0 * f1 + f1 <= size,
                                    0 < size,
                                    f1 >= 1,
                                    0 <= y0,
                                    0 <= x0;
                        }
                        let base: usize = ((y0 * f1 + yd) as usize) * (size as usize) + ((x0 * f1) as usize);
                        let mut rowsum: i128 = 0;
                        let mut xd: u32 = 0;
                        while xd < f1
                            invariant
                                xd <= f1,
                                self.wf(),
                                ci < 2,
                                src == &self.channels@[ci as int],
                                sview == src@,
                                sview.len() == size * size,
                                base == (y0 * f1 + yd) * size + x0 * f1,
                                base + f1 <= sview.len(),
                                f1 <= size,
                                size <= 0x8000,
                                size * size <= 0x40000000,
                                rowsum == spec_row_sum(sview, base as int, xd as int),
                                -(xd * CHANNEL_VALUE_LIMIT) <= rowsum <= xd * CHANNEL_VALUE_LIMIT,
                            decreases f1 - xd,
                        {
                            let v = src.data[base + (xd as usize)];
                            proof {
                                assert(-CHANNEL_VALUE_LIMIT <= v <= CHANNEL_VALUE_LIMIT);
                                assert(xd * CHANNEL_VALUE_LIMIT + CHANNEL_VALUE_LIMIT
                                    == (xd + 1) * CHANNEL_VALUE_LIMIT) by (nonlinear_arith);
                                assert(xd * CHANNEL_VALUE_LIMIT <= 0x8000 * CHANNEL_VALUE_LIMIT)
                                    by (nonlinear_arith)
                                    requires 0 <= xd <= f1 <= 0x8000;
                            }
                            rowsum = rowsum + (v as i128);
                            xd = xd + 1;
                        }
                        proof {
                            assert((yd * f1) * CHANNEL_VALUE_LIMIT + f1 * CHANNEL_VALUE_LIMIT
                                == ((yd + 1) * f1) * CHANNEL_VALUE_LIMIT) by (nonlinear_arith);
                            assert((yd * f1) * CHANNEL_VALUE_LIMIT
                                <= 0x40000000 * CHANNEL_VALUE_LIMIT) by (nonlinear_arith)
                                requires 0 <= yd <= f1 <= 0x8000;
                            assert(f1 * CHANNEL_VALUE_LIMIT <= 0x8000 * CHANNEL_VALUE_LIMIT)
                                by (nonlinear_arith)
                                requires 0 <= f1 <= 0x8000;
                        }
                        sum = sum + rowsum;
                        yd = yd + 1;
                    }
                    proof {
                        assert(f2 > 0) by (nonlinear_arith)
                            requires f2 == f1 * f1, f1 >= 1;
                        assert(f2 <= 0x40000000) by (nonlinear_arith)
                            requires f2 == f1 * f1, 0 <= f1 <= 0x8000;
                        assert((f1 * f1) * CHANNEL_VALUE_LIMIT == f2 * CHANNEL_VALUE_LIMIT);
                        assert(f2 * CHANNEL_VALUE_LIMIT <= 0x40000000 * CHANNEL_VALUE_LIMIT)
                            by (nonlinear_arith)
                            requires 0 <= f2 <= 0x40000000;
                        assert(-(f2 * CHANNEL_VALUE_LIMIT) <= sum <= f2 * CHANNEL_VALUE_LIMIT);
                    }
                    let q: i128 = if sum >= 0 {
                        sum / f2
                    } else {
                        -((-sum) / f2)
                    };
                    proof {
                        lemma_tdiv_bound(sum as int, f2 as int, CHANNEL_VALUE_LIMIT as int);
                        assert(q == spec_tdiv(sum as int, f2 as int));
                        assert(-CHANNEL_VALUE_LIMIT <= q <= CHANNEL_VALUE_LIMIT);
                    }
                    let avg: i64 = q as i64;
                    proof {
                        assert(avg == spec_block_avg(sview, size as int, x0 as int, y0 as int, f1 as int));
                    }
                    data.push(avg);
                    proof {
                        assert(data@.len() == y0 * new_size + x0 + 1);
                        assert(data@[y0 * new_size + x0 as int] == avg);
                        assert forall|y: int, x: int| 0 <= y < y0 && 0 <= x < new_size
                            implies #[trigger] data@[y * new_size + x]
                                == spec_block_avg(sview, size as int, x, y, f1 as int) by {
                            assert(0 <= y * new_size + x < y0 * new_size) by (nonlinear_arith)
                                requires 0 <= y < y0, 0 <= x < new_size, 0 < new_size;
                        }
                        assert forall|x: int| 0 <= x < x0 + 1
                            implies #[trigger] data@[y0 * new_size + x]
                                == spec_block_avg(sview, size as int, x, y0 as int, f1 as int) by {
                        }
                    }
                    x0 = x0 + 1;
                }
                proof {
                    assert(y0 * new_size + new_size == (y0 + 1) * new_size) by (nonlinear_arith);
                    assert forall|y: int, x: int| 0 <= y < y0 + 1 && 0 <= x < new_size
                        implies #[trigger] data@[y * new_size + x]
                            == spec_block_avg(sview, size as int, x, y, f1 as int) by {
                        if y < y0 {
                            assert(data@[y * new_size + x]
                                == spec_block_avg(sview, size as int, x, y, f1 as int));
                        } else {
                            assert(data@[y0 * new_size + x]
                                == spec_block_avg(sview, size as int, x, y0 as int, f1 as int));
                        }
                    }
                }
                y0 = y0 + 1;
            }
            proof {
                assert(new_size * new_size == data@.len()) by (nonlinear_arith)
                    requires data@.len() == new_size * new_size;
            }
            let ch = Channel { width: new_size, height: new_size, data };
            channels.push(ch);
            ci = ci + 1;
        }
        GeoImage {
            size: new_size,
            zoom: self.zoom,
            x_offset: self.x_offset,
            y_offset: self.y_offset,
            channels,
        }
    }
}

} // verus!

verus! {

/// The pixel-copy relation of sub-tile extraction: every pixel of the
/// child is the parent pixel of the window at tile offset `(dx, dy)`.
pub open spec fn spec_extracted(child: GeoImage, parent: GeoImage, dx: int, dy: int) -> bool {
    forall|c: int, y: int, x: int|
        0 <= c < 2 && 0 <= y < child.size && 0 <= x < child.size
            ==> #[trigger] child.channels@[c]@[y * child.size + x]
                == parent.channels@[c]@[(dy * child.size + y) * parent.size + (dx * child.size + x)]
}

impl GeoImage {
    /// Copies one `tile_size` square window out of the raster into a new
    /// tile whose zoom rises by the subdivision depth and whose offsets are
    /// rebased into the finer tile grid.  The raster side must be the tile
    /// side times a power of two.
    pub fn extract_subtile(&self, dx: u32, dy: u32, tile_size: u32) -> (r: GeoImage)
        requires
            self.wf(),
            1 <= tile_size <= self.size,
            exists|dz: nat| dz <= 15 && self.size == tile_size * vstd::arithmetic::power2::pow2(dz)
                && self.zoom + dz <= 31,
            dx < self.size / tile_size,
            dy < self.size / tile_size,
        ensures
            r.wf(),
            r.size == tile_size,
            self.zoom <= r.zoom <= 31,
            vstd::arithmetic::power2::pow2((r.zoom - self.zoom) as nat) * tile_size == self.size,
            r.x_offset == self.x_offset * (self.size / tile_size) + dx,
            r.y_offset == self.y_offset * (self.size / tile_size) + dy,
            spec_extracted(r, *self, dx as int, dy as int),
    {
        let ghost dz0: nat = choose|dz: nat| dz <= 15
            && self.size == tile_size * vstd::arithmetic::power2::pow2(dz)
            && self.zoom + dz <= 31;
        let n: u32 = self.size / tile_size;
        proof {
            vstd::arithmetic::power2::lemma_pow2_pos(dz0);
            assert(((tile_size as int) * (vstd::arithmetic::power2::pow2(dz0) as int)) / (tile_size as int)
                == vstd::arithmetic::power2::pow2(dz0) as int) by {
                lemma_div_by_multiple(
                    vstd::arithmetic::power2::pow2(dz0) as int,
                    tile_size as int,
                );
                assert((tile_size as int) * (vstd::arithmetic::power2::pow2(dz0) as int)
                    == (vstd::arithmetic::power2::pow2(dz0) as int) * (tile_size as int)) by (nonlinear_arith);
            }
            assert(n == vstd::arithmetic::power2::pow2(dz0));
        }
        let mut p: u32 = 1;
        let mut dzv: u32 = 0;
        proof {
            vstd::arithmetic::power2::lemma2_to64();
        }
        while p < n
            invariant
                p == vstd::arithmetic::power2::pow2(dzv as nat),
                dzv <= dz0,
                dz0 <= 15,
                p >= 1,
                p <= n,
                n == vstd::arithmetic::power2::pow2(dz0),
            decreases n - p,
        {
            proof {
                if (dzv as nat) > dz0 {
                    vstd::arithmetic::power2::lemma_pow2_strictly_increases(dz0, dzv as nat);
                }
                if (dzv as nat) == dz0 {
                }
                assert((dzv as nat) < dz0);
                if ((dzv + 1) as nat) < dz0 {
                    vstd::arithmetic::power2::lemma_pow2_strictly_increases((dzv + 1) as nat, dz0);
                }
                vstd::arithmetic::power2::lemma_pow2_unfold((dzv + 1) as nat);
            }
            p = p * 2;
            dzv = dzv + 1;
        }
        proof {
            if (dzv as nat) < dz0 {
                vstd::arithmetic::power2::lemma_pow2_strictly_increases(dzv as nat, dz0);
            }
            assert(dzv as nat == dz0);
            assert(n * tile_size == self.size) by (nonlinear_arith)
                requires
                    self.size == tile_size * n;
            vstd::arithmetic::power2::lemma_pow2_adds(self.zoom as nat, dz0);
            assert(self.x_offset * n + dx < vstd::arithmetic::power2::pow2((self.zoom + dzv) as nat)
                && self.x_offset * n + dx < 0x80000000) by (nonlinear_arith)
                requires
                    (self.x_offset as nat) < vstd::arithmetic::power2::pow2(self.zoom as nat),
                    dx < n,
                    n == vstd::arithmetic::power2::pow2(dz0),
                    vstd::arithmetic::power2::pow2((self.zoom + dzv) as nat)
                        == vstd::arithmetic::power2::pow2(self.zoom as nat)
                            * vstd::arithmetic::power2::pow2(dz0),
                    vstd::arithmetic::power2::pow2((self.zoom + dzv) as nat) <= 0x80000000,
                    dzv as nat == dz0;
            assert(self.y_offset * n + dy < vstd::arithmetic::power2::pow2((self.zoom + dzv) as nat)
                && self.y_offset * n + dy < 0x80000000) by (nonlinear_arith)
                requires
                    (self.y_offset as nat) < vstd::arithmetic::power2::pow2(self.zoom as nat),
                    dy < n,
                    n == vstd::arithmetic::power2::pow2(dz0),
                    vstd::arithmetic::power2::pow2((self.zoom + dzv) as nat)
                        == vstd::arithmetic::power2::pow2(self.zoom as nat)
                            * vstd::arithmetic::power2::pow2(dz0),
                    vstd::arithmetic::power2::pow2((self.zoom + dzv) as nat) <= 0x80000000,
                    dzv as nat == dz0;
        }
        let size = self.size;
        let mut channels: Vec<Channel> = Vec::new();
        let mut ci: usize = 0;
        while ci < 2
            invariant
                ci <= 2,
                self.wf(),
                size == self.size,
                1 <= tile_size <= size,
                n == size / tile_size,
                dx < n,
                dy < n,
                n * tile_size == size,
                channels@.len() == ci,
                forall|c: int| 0 <= c < ci ==> (#[trigger] channels@[c]).wf()
                    && channels@[c].width == tile_size
                    && channels@[c].height == tile_size,
                forall|c: int, y: int, x: int|
                    0 <= c < ci && 0 <= y < tile_size && 0 <= x < tile_size
                        ==> #[trigger] channels@[c]@[y * tile_size + x]
                            == self.channels@[c]@[(dy * tile_size + y) * size + (dx * tile_size + x)],
            decreases 2 - ci,
        {
            let src: &Channel = &self.channels[ci];
            let mut data: Vec<i64> = Vec::new();
            let mut y: u32 = 0;
            while y < tile_size
                invariant
                    y <= tile_size,
                    self.wf(),
                    size == self.size,
                    1 <= tile_size <= size,
                    dx < n,
                    dy < n,
                    n * tile_size == size,
                    ci < 2,
                    src == &self.channels@[ci as int],
                    data@.len() == y * tile_size,
                    forall|yy: int, x: int| 0 <= yy < y && 0 <= x < tile_size
                        ==> #[trigger] data@[yy * tile_size + x]
                            == self.channels@[ci as int]@[(dy * tile_size + yy) * size + (dx * tile_size + x)],
                    forall|i: int| 0 <= i < data@.len()
                        ==> -CHANNEL_VALUE_LIMIT <= #[trigger] data@[i] <= CHANNEL_VALUE_LIMIT,
                decreases tile_size - y,
            {
                let mut x: u32 = 0;
                while x < tile_size
                    invariant
                        x <= tile_size,
                        y < tile_size,
                        self.wf(),
                        size == self.size,
                        1 <= tile_size <= size,
                        dx < n,
                        dy < n,
                        n * tile_size == size,
                        ci < 2,
                        src == &self.channels@[ci as int],
                        data@.len() == y * tile_size + x,
                        forall|yy: int, xx: int| 0 <= yy < y && 0 <= xx < tile_size
                            ==> #[trigger] data@[yy * tile_size + xx]
                                == self.channels@[ci as int]@[(dy * tile_size + yy) * size + (dx * tile_size + xx)],
                        forall|xx: int| 0 <= xx < x
                            ==> #[trigger] data@[y * tile_size + xx]
                                == self.channels@[ci as int]@[(dy * tile_size + y) * size + (dx * tile_size + xx)],
                        forall|i: int| 0 <= i < data@.len()
                            ==> -CHANNEL_VALUE_LIMIT <= #[trigger] data@[i] <= CHANNEL_VALUE_LIMIT,
                    decreases tile_size - x,
                {
                    proof {
                        assert((dy * tile_size + y) * size + (dx * tile_size + x) < size * size
                            && dy * tile_size + y < size
                            && dx * tile_size + x < size)
                            by (nonlinear_arith)
                            requires
                                y < tile_size,
                                x < tile_size,
                                dy < n,
                                dx < n,
                                n * tile_size == size,
                                1 <= tile_size,
                                0 < size;
                        assert(size * size <= 0x40000000) by (nonlinear_arith)
                            requires 1 <= size <= 0x8000;
                        assert(src@.len() == size * size);
                    }
                    let srow: usize = ((dy * tile_size + y) as usize) * (size as usize)
                        + ((dx * tile_size + x) as usize);
                    let v = src.data[srow];
                    data.push(v);
                    proof {
                        assert forall|yy: int, xx: int| 0 <= yy < y && 0 <= xx < tile_size
                            implies #[trigger] data@[yy * tile_size + xx]
                                == self.channels@[ci as int]@[(dy * tile_size + yy) * size + (dx * tile_size + xx)] by {
                            assert(0 <= yy * tile_size + xx < y * tile_size) by (nonlinear_arith)
                                requires 0 <= yy < y, 0 <= xx < tile_size, 0 < tile_size;
                        }
                    }
                    x = x + 1;
                }
                proof {
                    assert(y * tile_size + tile_size == (y + 1) * tile_size) by (nonlinear_arith);
                    assert forall|yy: int, xx: int| 0 <= yy < y + 1 && 0 <= xx < tile_size
                        implies #[trigger] data@[yy * tile_size + xx]
                            == self.channels@[ci as int]@[(dy * tile_size + yy) * size + (dx * tile_size + xx)] by {
                        if yy < y {
                            assert(data@[yy * tile_size + xx]
                                == self.channels@[ci as int]@[(dy * tile_size + yy) * size + (dx * tile_size + xx)]);
                        } else {
                            assert(data@[y * tile_size + xx]
                                == self.channels@[ci as int]@[(dy * tile_size + y) * size + (dx * tile_size + xx)]);
                        }
                    }
                }
                y = y + 1;
            }
            proof {
                assert(tile_size * tile_size == data@.len()) by (nonlinear_arith)
                    requires data@.len() == tile_size * tile_size;
            }
            let ch = Channel { width: tile_size, height: tile_size, data };
            channels.push(ch);
            ci = ci + 1;
        }
        let r = GeoImage {
            size: tile_size,
            zoom: self.zoom + dzv,
            x_offset: self.x_offset * n + dx,
            y_offset: self.y_offset * n + dy,
            channels,
        };
        r
    }
}

} // verus!

verus! {

/// Why a four-tile merge was refused: the first mismatch found, checking
/// the children in layout order and each child's size, zoom, then offsets.
#[derive(Clone, Copy, Debug, PartialEq, Eq, Structural)]
pub enum TileError {
    WrongSize,
    WrongZoom,
    WrongXOffset,
    WrongYOffset,
}

/// One quadrant of the fixed merge layout: child `index` lands at quadrant
/// column `x` and row `y`.
#[derive(Clone, Copy, Debug)]
pub struct LayoutItem {
    pub index: usize,
    pub x: u32,
    pub y: u32,
}

/// Quadrant column of child `i`: children 1 and 3 sit on the right.
pub open spec fn spec_lay_x(i: int) -> int {
    if i == 1 || i == 3 { 1 } else { 0 }
}

/// Quadrant row of child `i`: children 2 and 3 sit at the bottom.
pub open spec fn spec_lay_y(i: int) -> int {
    if i == 2 || i == 3 { 1 } else { 0 }
}

/// The merge layout table: four quadrants in reading order.
pub fn layout() -> (arr: [LayoutItem; 4])
    ensures
        forall|i: int| 0 <= i < 4 ==> (#[trigger] arr[i]).index == i
            && arr[i].x == spec_lay_x(i) && arr[i].y == spec_lay_y(i),
{
    let arr = [
        LayoutItem { index: 0, x: 0, y: 0 },
        LayoutItem { index: 1, x: 1, y: 0 },
        LayoutItem { index: 2, x: 0, y: 1 },
        LayoutItem { index: 3, x: 1, y: 1 },
    ];
    arr
}

/// The validation verdict for child `i` of a merge: the first mismatched
/// field, or nothing when the child fits its quadrant.
pub open spec fn spec_child_err(t: GeoImage, i: int, half: int, zoom: int, x_offset: int, y_offset: int) -> Option<TileError> {
    if t.size != half {
        Option::Some(TileError::WrongSize)
    } else if t.zoom != zoom + 1 {
        Option::Some(TileError::WrongZoom)
    } else if t.x_offset != x_offset * 2 + spec_lay_x(i) {
        Option::Some(TileError::WrongXOffset)
    } else if t.y_offset != y_offset * 2 + spec_lay_y(i) {
        Option::Some(TileError::WrongYOffset)
    } else {
        Option::None
    }
}

/// The merge verdict from child `i` on: the first child error in layout
/// order, or nothing.
pub open spec fn spec_merge_err_from(tiles: Seq<Option<GeoImage>>, i: int, half: int, zoom: int, x_offset: int, y_offset: int) -> Option<TileError>
    decreases 4 - i,
{
    if i >= 4 {
        Option::None
    } else {
        match tiles[i] {
            Option::Some(t) => match spec_child_err(t, i, half, zoom, x_offset, y_offset) {
                Option::Some(e) => Option::Some(e),
                Option::None => spec_merge_err_from(tiles, i + 1, half, zoom, x_offset, y_offset),
            },
            Option::None => spec_merge_err_from(tiles, i + 1, half, zoom, x_offset, y_offset),
        }
    }
}

/// The pixel a merged tile holds at `(x, y)`: the matching pixel of the
/// child owning that quadrant, or the channel default where the child is
/// absent.
pub open spec fn spec_gather(tiles: Seq<Option<GeoImage>>, c: int, x: int, y: int, half: int) -> i64 {
    let qx = if x < half { 0int } else { 1int };
    let qy = if y < half { 0int } else { 1int };
    let i = qy * 2 + qx;
    match tiles[i] {
        Option::Some(t) => t.channels@[c]@[(y - qy * half) * half + (x - qx * half)],
        Option::None => spec_channel_default(c),
    }
}

impl GeoImage {
    /// Merges up to four half-size children into one tile twice their
    /// side.  Each present child's size, zoom and offsets are validated
    /// against its quadrant; the first mismatch is reported.  Quadrants of
    /// absent children keep the channel defaults.
    pub fn merge(tiles: [Option<GeoImage>; 4], size: u32, zoom: u32, x_offset: u32, y_offset: u32) -> (r: Result<GeoImage, TileError>)
        requires
            2 <= size <= MAX_TILE_SIZE,
            size % 2 == 0,
            zoom <= 30,
            (x_offset as nat) < vstd::arithmetic::power2::pow2(zoom as nat),
            (y_offset as nat) < vstd::arithmetic::power2::pow2(zoom as nat),
            forall|i: int| 0 <= i < 4 ==> match #[trigger] tiles@[i] {
                Option::Some(t) => t.wf(),
                Option::None => true,
            },
        ensures
            ({
                let verdict = spec_merge_err_from(tiles@, 0, (size / 2) as int, zoom as int, x_offset as int, y_offset as int);
                match r {
                    Result::Ok(img) => {
                        &&& verdict == Option::<TileError>::None
                        &&& img.wf()
                        &&& img.size == size
                        &&& img.zoom == zoom
                        &&& img.x_offset == x_offset
                        &&& img.y_offset == y_offset
                        &&& forall|c: int, y: int, x: int|
                            0 <= c < 2 && 0 <= y < size && 0 <= x < size
                                ==> #[trigger] img.channels@[c]@[y * size + x]
                                    == spec_gather(tiles@, c, x, y, (size / 2) as int)
                    },
                    Result::Err(e) => verdict == Option::Some(e),
                }
            }),
    {
        let half = size / 2;
        proof {
            vstd::arithmetic::power2::lemma2_to64();
            if (zoom as nat) < 30 {
                vstd::arithmetic::power2::lemma_pow2_strictly_increases(zoom as nat, 30);
            }
            assert(x_offset < 0x40000000);
            assert(y_offset < 0x40000000);
        }
        let mut i: usize = 0;
        while i < 4
            invariant
                i <= 4,
                size % 2 == 0,
                2 <= size,
                half == size / 2,
                zoom <= 30,
                x_offset < 0x40000000,
                y_offset < 0x40000000,
                forall|j: int| 0 <= j < 4 ==> match #[trigger] tiles@[j] {
                    Option::Some(t) => t.wf(),
                    Option::None => true,
                },
                spec_merge_err_from(tiles@, 0, half as int, zoom as int, x_offset as int, y_offset as int)
                    == spec_merge_err_from(tiles@, i as int, half as int, zoom as int, x_offset as int, y_offset as int),
                forall|j: int| 0 <= j < i ==> match #[trigger] tiles@[j] {
                    Option::Some(t) => spec_child_err(t, j, half as int, zoom as int, x_offset as int, y_offset as int)
                        == Option::<TileError>::None,
                    Option::None => true,
                },
            decreases 4 - i,
        {
            let lx: u32 = if i == 1 || i == 3 { 1 } else { 0 };
            let ly: u32 = if i == 2 || i == 3 { 1 } else { 0 };
            match &tiles[i] {
                Option::Some(t) => {
                    if t.size != half {
                        return Result::Err(TileError::WrongSize);
                    }
                    if t.zoom != zoom + 1 {
                        return Result::Err(TileError::WrongZoom);
                    }
                    if t.x_offset != x_offset * 2 + lx {
                        return Result::Err(TileError::WrongXOffset);
                    }
                    if t.y_offset != y_offset * 2 + ly {
                        return Result::Err(TileError::WrongYOffset);
                    }
                }
                Option::None => {}
            }
            i = i + 1;
        }
        proof {
            assert(spec_merge_err_from(tiles@, 0, half as int, zoom as int, x_offset as int, y_offset as int)
                == Option::<TileError>::None);
            assert(half * 2 == size);
            assert(size * size <= 0x40000000) by (nonlinear_arith)
                requires 1 <= size <= 0x8000;
        }
        let mut channels: Vec<Channel> = Vec::new();
        let mut ci: usize = 0;
        while ci < 2
            invariant
                ci <= 2,
                2 <= size <= MAX_TILE_SIZE,
                half == size / 2,
                half * 2 == size,
                size * size <= 0x40000000,
                forall|j: int| 0 <= j < 4 ==> match #[trigger] tiles@[j] {
                    Option::Some(t) => t.wf() && t.size == half,
                    Option::None => true,
                },
                channels@.len() == ci,
                forall|c: int| 0 <= c < ci ==> (#[trigger] channels@[c]).wf()
                    && channels@[c].width == size
                    && channels@[c].height == size,
                forall|c: int, y: int, x: int|
                    0 <= c < ci && 0 <= y < size && 0 <= x < size
                        ==> #[trigger] channels@[c]@[y * size + x]
                            == spec_gather(tiles@, c, x, y, half as int),
            decreases 2 - ci,
        {
            let default: i64 = if ci == 0 { DIST_CHANNEL_DEFAULT } else { 0 };
            let mut data: Vec<i64> = Vec::new();
            let mut y: u32 = 0;
            while y < size
                invariant
                    y <= size,
                    ci < 2,
                    2 <= size <= MAX_TILE_SIZE,
                    half == size / 2,
                    half * 2 == size,
                    size * size <= 0x40000000,
                    default == spec_channel_default(ci as int),
                    forall|j: int| 0 <= j < 4 ==> match #[trigger] tiles@[j] {
                        Option::Some(t) => t.wf() && t.size == half,
                        Option::None => true,
                    },
                    data@.len() == y * size,
                    forall|yy: int, x: int| 0 <= yy < y && 0 <= x < size
                        ==> #[trigger] data@[yy * size + x]
                            == spec_gather(tiles@, ci as int, x, yy, half as int),
                    forall|k: int| 0 <= k < data@.len()
                        ==> -CHANNEL_VALUE_LIMIT <= #[trigger] data@[k] <= CHANNEL_VALUE_LIMIT,
                decreases size - y,
            {
                let mut x: u32 = 0;
                while x < size
                    invariant
                        x <= size,
                        y < size,
                        ci < 2,
                        2 <= size <= MAX_TILE_SIZE,
                        half == size / 2,
                        half * 2 == size,
                        size * size <= 0x40000000,
                        default == spec_channel_default(ci as int),
                        forall|j: int| 0 <= j < 4 ==> match #[trigger] tiles@[j] {
                            Option::Some(t) => t.wf() && t.size == half,
                            Option::None => true,
                        },
                        data@.len() == y * size + x,
                        forall|yy: int, xx: int| 0 <= yy < y && 0 <= xx < size
                            ==> #[trigger] data@[yy * size + xx]
                                == spec_gather(tiles@, ci as int, xx, yy, half as int),
                        forall|xx: int| 0 <= xx < x
                            ==> #[trigger] data@[y * size + xx]
                                == spec_gather(tiles@, ci as int, xx, y as int, half as int),
                        forall|k: int| 0 <= k < data@.len()
                            ==> -CHANNEL_VALUE_LIMIT <= #[trigger] data@[k] <= CHANNEL_VALUE_LIMIT,
                    decreases size - x,
                {
                    let qx: u32 = if x < half { 0 } else { 1 };
                    let qy: u32 = if y < half { 0 } else { 1 };
                    let ti: usize = (qy * 2 + qx) as usize;
                    let sx: u32 = x - qx * half;
                    let sy: u32 = y - qy * half;
                    proof {
                        assert(sx < half && sy < half);
                        assert(sy * half + sx < half * half) by (nonlinear_arith)
                            requires sy < half, sx < half, 0 < half;
                        assert(half * half <= size * size) by (nonlinear_arith)
                            requires 0 < half, half * 2 == size;
                    }
                    let v: i64 = match &tiles[ti] {
                        Option::Some(t) => {
                            proof {
                                assert(t.wf() && t.size == half);
                                assert(t.channels@[ci as int].wf());
                                assert(t.channels@[ci as int]@.len() == half * half);
                            }
                            t.channels[ci].data[((sy * half) as usize) + (sx as usize)]
                        }
                        Option::None => default,
                    };
                    data.push(v);
                    proof {
                        assert(data@[y * size + x as int] == v);
                        assert(v == spec_gather(tiles@, ci as int, x as int, y as int, half as int));
                        assert forall|yy: int, xx: int| 0 <= yy < y && 0 <= xx < size
                            implies #[trigger] data@[yy * size + xx]
                                == spec_gather(tiles@, ci as int, xx, yy, half as int) by {
                            assert(0 <= yy * size + xx < y * size) by (nonlinear_arith)
                                requires 0 <= yy < y, 0 <= xx < size, 0 < size;
                        }
                    }
                    x = x + 1;
                }
                proof {
                    assert(y * size + size == (y + 1) * size) by (nonlinear_arith);
                    assert forall|yy: int, xx: int| 0 <= yy < y + 1 && 0 <= xx < size
                        implies #[trigger] data@[yy * size + xx]
                            == spec_gather(tiles@, ci as int, xx, yy, half as int) by {
                        if yy < y {
                            assert(data@[yy * size + xx]
                                == spec_gather(tiles@, ci as int, xx, yy, half as int));
                        } else {
                            assert(data@[y * size + xx]
                                == spec_gather(tiles@, ci as int, xx, y as int, half as int));
                        }
                    }
                }
                y = y + 1;
            }
            proof {
                assert(size * size == data@.len()) by (nonlinear_arith)
                    requires data@.len() == size * size;
            }
            let ch = Channel { width: size, height: size, data };
            channels.push(ch);
            ci = ci + 1;
        }
        Result::Ok(GeoImage { size, zoom, x_offset, y_offset, channels })
    }
}

/// Merging the four aligned children extracted from a tile gives back the
/// tile: at every pixel the merged raster repeats the parent's value.
pub proof fn lemma_merge_extract_inverse(parent: GeoImage, tiles: Seq<Option<GeoImage>>, merged: GeoImage)
    requires
        parent.wf(),
        parent.size % 2 == 0,
        tiles.len() == 4,
        forall|i: int| 0 <= i < 4 ==> match #[trigger] tiles[i] {
            Option::Some(t) => t.size == parent.size / 2
                && spec_extracted(t, parent, spec_lay_x(i), spec_lay_y(i)),
            Option::None => false,
        },
        merged.size == parent.size,
        forall|c: int, y: int, x: int|
            0 <= c < 2 && 0 <= y < merged.size && 0 <= x < merged.size
                ==> #[trigger] merged.channels@[c]@[y * merged.size + x]
                    == spec_gather(tiles, c, x, y, (parent.size / 2) as int),
    ensures
        forall|c: int, y: int, x: int|
            0 <= c < 2 && 0 <= y < parent.size && 0 <= x < parent.size
                ==> #[trigger] merged.channels@[c]@[y * parent.size + x]
                    == parent.channels@[c]@[y * parent.size + x],
{
    let size = parent.size as int;
    let half = (parent.size / 2) as int;
    assert(half * 2 == size);
    assert forall|c: int, y: int, x: int|
        0 <= c < 2 && 0 <= y < parent.size && 0 <= x < parent.size
            implies #[trigger] merged.channels@[c]@[y * parent.size + x]
                == parent.channels@[c]@[y * parent.size + x] by {
        let qx = if x < half { 0int } else { 1int };
        let qy = if y < half { 0int } else { 1int };
        let i = qy * 2 + qx;
        assert(qx == spec_lay_x(i) && qy == spec_lay_y(i));
        let sx = x - qx * half;
        let sy = y - qy * half;
        assert(0 <= sx < half && 0 <= sy < half);
        match tiles[i] {
            Option::Some(t) => {
                assert(t.size == half);
                assert(merged.channels@[c]@[y * merged.size + x]
                    == t.channels@[c]@[sy * half + sx]);
                assert(t.channels@[c]@[sy * half + sx]
                    == parent.channels@[c]@[(qy * half + sy) * size + (qx * half + sx)]);
                assert((qy * half + sy) * size + (qx * half + sx) == y * size + x);
            }
            Option::None => {
                assert(false);
            }
        }
    }
}

} // verus!

verus! {

/// The 8-bit image component of a channel value: the value clamped to
/// [0, 1] in fixed-point steps, scaled to 0..255 and rounded to the
/// nearest component.
pub open spec fn spec_byte_of_value(v: i64) -> int {
    let c = if v < 0 { 0 } else if v > 0x100000 { 0x100000 } else { v as int };
    (c * 255 + 0x80000) / 0x100000
}

impl GeoImage {
    /// The tile's pixels as packed red-green-blue bytes, row-major: the
    /// first channel in red, the second in green, blue zero.
    pub fn rgb_bytes(&self) -> (out: Vec<u8>)
        requires
            self.wf(),
        ensures
            out@.len() == 3 * (self.size * self.size),
            forall|i: int| 0 <= i < self.size * self.size ==> {
                &&& #[trigger] out@[3 * i] == spec_byte_of_value(self.channels@[0]@[i])
                &&& out@[3 * i + 1] == spec_byte_of_value(self.channels@[1]@[i])
                &&& out@[3 * i + 2] == 0
            },
    {
        proof {
            assert(self.size * self.size <= 0x40000000) by (nonlinear_arith)
                requires 1 <= self.size <= 0x8000;
        }
        let n: usize = (self.size as usize) * (self.size as usize);
        let mut out: Vec<u8> = Vec::new();
        let mut i: usize = 0;
        while i < n
            invariant
                i <= n,
                self.wf(),
                n == self.size * self.size,
                out@.len() == 3 * i,
                forall|j: int| 0 <= j < i ==> {
                    &&& #[trigger] out@[3 * j] == spec_byte_of_value(self.channels@[0]@[j])
                    &&& out@[3 * j + 1] == spec_byte_of_value(self.channels@[1]@[j])
                    &&& out@[3 * j + 2] == 0
                },
            decreases n - i,
        {
            let ghost o0 = out@;
            let v0 = self.channels[0].data[i];
            let v1 = self.channels[1].data[i];
            let c0: i64 = if v0 < 0 { 0 } else if v0 > 0x100000 { 0x100000 } else { v0 };
            let c1: i64 = if v1 < 0 { 0 } else if v1 > 0x100000 { 0x100000 } else { v1 };
            let b0: u8 = ((c0 * 255 + 0x80000) / 0x100000) as u8;
            let b1: u8 = ((c1 * 255 + 0x80000) / 0x100000) as u8;
            out.push(b0);
            out.push(b1);
            out.push(0u8);
            proof {
                assert(out@[3 * i] == b0);
                assert(out@[3 * i + 1] == b1);
                assert(out@[3 * i + 2] == 0);
                assert(b0 as int == spec_byte_of_value(self.channels@[0]@[i as int]));
                assert(b1 as int == spec_byte_of_value(self.channels@[1]@[i as int]));
                assert forall|j: int| 0 <= j < i + 1 implies {
                    &&& #[trigger] out@[3 * j] == spec_byte_of_value(self.channels@[0]@[j])
                    &&& out@[3 * j + 1] == spec_byte_of_value(self.channels@[1]@[j])
                    &&& out@[3 * j + 2] == 0
                } by {
                    if j < i {
                        assert(3 * j + 2 < 3 * i);
                        assert(out@[3 * j] == o0[3 * j]);
                        assert(out@[3 * j + 1] == o0[3 * j + 1]);
                        assert(out@[3 * j + 2] == o0[3 * j + 2]);
                    }
                }
            }
            i = i + 1;
        }
        out
    }
}

} // verus!

verus! {

/// The 16-bit packed form of a channel value: scaled from 2^-20 to 2^-16
/// steps, offset so that zero maps to the middle of the range, and clamped
/// into 16 bits.  This keeps sub-unit precision within about plus or minus
/// thirty-two thousand steps.
pub open spec fn spec_packed16_of_value(v: i64) -> int {
    let w = spec_tdiv(v as int, 16) + 0x8000;
    if w < 0 { 0 } else if w > 0xFFFF { 0xFFFF } else { w }
}

impl GeoImage {
    /// One channel's pixels as packed 16-bit words, row-major, low byte
    /// first: the single-channel signed-distance export form.
    pub fn packed_distance_bytes(&self, channel_index: usize) -> (out: Vec<u8>)
        requires
            self.wf(),
            channel_index < 2,
        ensures
            out@.len() == 2 * (self.size * self.size),
            forall|i: int| 0 <= i < self.size * self.size ==> {
                &&& #[trigger] out@[2 * i]
                    == spec_packed16_of_value(self.channels@[channel_index as int]@[i]) % 256
                &&& out@[2 * i + 1]
                    == spec_packed16_of_value(self.channels@[channel_index as int]@[i]) / 256
            },
    {
        proof {
            assert(self.size * self.size <= 0x40000000) by (nonlinear_arith)
                requires 1 <= self.size <= 0x8000;
        }
        let n: usize = (self.size as usize) * (self.size as usize);
        let data: &Vec<i64> = &self.channels[channel_index].data;
        let mut out: Vec<u8> = Vec::new();
        let mut i: usize = 0;
        while i < n
            invariant
                i <= n,
                self.wf(),
                channel_index < 2,
                n == self.size * self.size,
                data == &self.channels@[channel_index as int].data,
                out@.len() == 2 * i,
                forall|j: int| 0 <= j < i ==> {
                    &&& #[trigger] out@[2 * j]
                        == spec_packed16_of_value(self.channels@[channel_index as int]@[j]) % 256
                    &&& out@[2 * j + 1]
                        == spec_packed16_of_value(self.channels@[channel_index as int]@[j]) / 256
                },
            decreases n - i,
        {
            let ghost o0 = out@;
            let v = data[i];
            let q: i64 = if v >= 0 { v / 16 } else { -((-v) / 16) };
            let w0: i64 = q + 0x8000;
            let w: i64 = if w0 < 0 { 0 } else if w0 > 0xFFFF { 0xFFFF } else { w0 };
            let low: u8 = (w % 256) as u8;
            let high: u8 = (w / 256) as u8;
            out.push(low);
            out.push(high);
            proof {
                assert(w == spec_packed16_of_value(self.channels@[channel_index as int]@[i as int]));
                assert(out@[2 * i] == low);
                assert(out@[2 * i + 1] == high);
                assert forall|j: int| 0 <= j < i + 1 implies {
                    &&& #[trigger] out@[2 * j]
                        == spec_packed16_of_value(self.channels@[channel_index as int]@[j]) % 256
                    &&& out@[2 * j + 1]
                        == spec_packed16_of_value(self.channels@[channel_index as int]@[j]) / 256
                } by {
                    if j < i {
                        assert(2 * j + 1 < 2 * i);
                        assert(out@[2 * j] == o0[2 * j]);
                        assert(out@[2 * j + 1] == o0[2 * j + 1]);
                    }
                }
            }
            i = i + 1;
        }
        out
    }
}

} // verus!
