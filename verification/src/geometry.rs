//! Planar geometry over fixed-point degree coordinates: points, bounding
//! boxes, rings, polygons and polygon collections, with even-odd point
//! containment and axis-aligned half-plane clipping.
//!
//! The even-odd rule is stated exactly, with the ray-crossing comparison
//! cross-multiplied so that no division appears; the executable code decides
//! it with the same integer products.

use vstd::prelude::*;
use crate::fixed::{FP_ONE, X_LIMIT, Y_LIMIT, spec_scale_x2, scale_x2_of_lat, lemma_scale_x2_bounds};

verus! {

/// Truncating halving, the integer image of dividing by two toward zero.
pub open spec fn spec_half(v: int) -> int {
    if v >= 0 { v / 2 } else { -((-v) / 2) }
}

/// Halves a value, rounding toward zero.
pub fn half_of(v: i64) -> (r: i64)
    requires
        -0x7FFFFFFFFFFFFFFF <= v,
    ensures
        r == spec_half(v as int),
{
    if v >= 0 { v / 2 } else { -((-v) / 2) }
}

/// A geographic position in coordinate units (2^-20 degree steps), with the
/// cached squared-cosine latitude scale factor.
#[derive(Clone, Copy, Debug, PartialEq, Eq, Structural)]
pub struct Point {
    pub x: i64,
    pub y: i64,
    pub scale_x2: i64,
}

impl Point {
    /// Coordinates loosely in range: enough for exact containment tests,
    /// which never read the scale factor.
    pub open spec fn coords_ok(self) -> bool {
        &&& -2 * X_LIMIT <= self.x <= 2 * X_LIMIT
        &&& -2 * Y_LIMIT <= self.y <= 2 * Y_LIMIT
    }

    /// Coordinates in range and the cached scale factor consistent with the
    /// latitude.
    pub open spec fn wf(self) -> bool {
        &&& -X_LIMIT <= self.x <= X_LIMIT
        &&& -Y_LIMIT <= self.y <= Y_LIMIT
        &&& self.scale_x2 == spec_scale_x2(self.y as int)
    }

    /// Builds a point and computes its latitude scale factor.
    pub fn new(x: i64, y: i64) -> (p: Point)
        requires
            -X_LIMIT <= x <= X_LIMIT,
            -Y_LIMIT <= y <= Y_LIMIT,
        ensures
            p.wf(),
            p.x == x,
            p.y == y,
    {
        Point { x, y, scale_x2: scale_x2_of_lat(y) }
    }

    /// An explicit copy of the point.
    pub fn clone(&self) -> (p: Point)
        ensures
            p == *self,
    {
        Point { x: self.x, y: self.y, scale_x2: self.scale_x2 }
    }
}

/// An axis-aligned bounding box in coordinate units.  A freshly created box
/// is inverted (min above max) so that adding any point tightens it.
#[derive(Clone, Copy, Debug, PartialEq, Eq, Structural)]
pub struct Bbox {
    pub x_min: i64,
    pub y_min: i64,
    pub x_max: i64,
    pub y_max: i64,
}

impl Bbox {
    /// All four bounds within the admissible coordinate range.
    pub open spec fn wf(self) -> bool {
        &&& -X_LIMIT <= self.x_min <= X_LIMIT
        &&& -X_LIMIT <= self.x_max <= X_LIMIT
        &&& -Y_LIMIT <= self.y_min <= Y_LIMIT
        &&& -Y_LIMIT <= self.y_max <= Y_LIMIT
    }

    /// The point lies inside the box, boundary included.
    pub open spec fn spec_contains(self, p: Point) -> bool {
        &&& self.x_min <= p.x <= self.x_max
        &&& self.y_min <= p.y <= self.y_max
    }

    /// The two boxes share at least one position.
    pub open spec fn spec_overlaps(self, other: Bbox) -> bool {
        &&& other.x_min <= self.x_max
        &&& self.x_min <= other.x_max
        &&& other.y_min <= self.y_max
        &&& self.y_min <= other.y_max
    }

    /// The other box lies entirely within this one.
    pub open spec fn spec_covers(self, other: Bbox) -> bool {
        &&& self.x_min <= other.x_min
        &&& other.x_max <= self.x_max
        &&& self.y_min <= other.y_min
        &&& other.y_max <= self.y_max
    }

    /// The box after being widened to take in a point.
    pub open spec fn spec_add_point(self, p: Point) -> Bbox {
        Bbox {
            x_min: if self.x_min > p.x { p.x } else { self.x_min },
            y_min: if self.y_min > p.y { p.y } else { self.y_min },
            x_max: if self.x_max < p.x { p.x } else { self.x_max },
            y_max: if self.y_max < p.y { p.y } else { self.y_max },
        }
    }

    /// The box after being widened to take in another box.
    pub open spec fn spec_add_bbox(self, o: Bbox) -> Bbox {
        Bbox {
            x_min: if self.x_min > o.x_min { o.x_min } else { self.x_min },
            y_min: if self.y_min > o.y_min { o.y_min } else { self.y_min },
            x_max: if self.x_max < o.x_max { o.x_max } else { self.x_max },
            y_max: if self.y_max < o.y_max { o.y_max } else { self.y_max },
        }
    }

    /// The inverted empty box: adding points tightens it to their bound.
    pub fn new() -> (b: Bbox)
        ensures
            b.x_min == X_LIMIT && b.y_min == Y_LIMIT && b.x_max == -X_LIMIT && b.y_max == -Y_LIMIT,
            b.wf(),
    {
        Bbox { x_min: X_LIMIT, y_min: Y_LIMIT, x_max: -X_LIMIT, y_max: -Y_LIMIT }
    }

    /// Builds a box from its four bounds.
    pub fn from_coordinates(x_min: i64, y_min: i64, x_max: i64, y_max: i64) -> (b: Bbox)
        requires
            -X_LIMIT <= x_min <= X_LIMIT,
            -X_LIMIT <= x_max <= X_LIMIT,
            -Y_LIMIT <= y_min <= Y_LIMIT,
            -Y_LIMIT <= y_max <= Y_LIMIT,
        ensures
            b == (Bbox { x_min, y_min, x_max, y_max }),
            b.wf(),
    {
        Bbox { x_min, y_min, x_max, y_max }
    }

    /// Widens the box to take in a point.
    pub fn add_point(&mut self, point: &Point)
        requires
            old(self).wf(),
            point.wf(),
        ensures
            *final(self) == old(self).spec_add_point(*point),
            final(self).wf(),
            final(self).spec_contains(*point),
            forall|q: Point| old(self).spec_contains(q) ==> final(self).spec_contains(q),
    {
        if self.x_min > point.x {
            self.x_min = point.x;
        }
        if self.y_min > point.y {
            self.y_min = point.y;
        }
        if self.x_max < point.x {
            self.x_max = point.x;
        }
        if self.y_max < point.y {
            self.y_max = point.y;
        }
    }

    /// Widens the box to take in another box.
    pub fn add_bbox(&mut self, bbox: &Bbox)
        requires
            old(self).wf(),
            bbox.wf(),
        ensures
            *final(self) == old(self).spec_add_bbox(*bbox),
            final(self).wf(),
            final(self).spec_covers(*bbox),
            forall|q: Point| old(self).spec_contains(q) ==> final(self).spec_contains(q),
            forall|q: Point| bbox.spec_contains(q) ==> final(self).spec_contains(q),
    {
        if self.x_min > bbox.x_min {
            self.x_min = bbox.x_min;
        }
        if self.y_min > bbox.y_min {
            self.y_min = bbox.y_min;
        }
        if self.x_max < bbox.x_max {
            self.x_max = bbox.x_max;
        }
        if self.y_max < bbox.y_max {
            self.y_max = bbox.y_max;
        }
    }

    /// The midpoint of the box, with a freshly computed scale factor.
    pub fn center(&self) -> (p: Point)
        requires
            self.wf(),
        ensures
            p.wf(),
            p.x == spec_half(self.x_min + self.x_max),
            p.y == spec_half(self.y_min + self.y_max),
    {
        let cx = half_of(self.x_min + self.x_max);
        let cy = half_of(self.y_min + self.y_max);
        Point::new(cx, cy)
    }

    /// Horizontal extent; negative for an inverted box.
    pub fn width(&self) -> (w: i64)
        requires
            self.wf(),
        ensures
            w == self.x_max - self.x_min,
    {
        self.x_max - self.x_min
    }

    /// Vertical extent; negative for an inverted box.
    pub fn height(&self) -> (h: i64)
        requires
            self.wf(),
        ensures
            h == self.y_max - self.y_min,
    {
        self.y_max - self.y_min
    }

    /// Decides containment, boundary included.
    pub fn contains_point(&self, point: &Point) -> (r: bool)
        ensures
            r == self.spec_contains(*point),
    {
        if point.x < self.x_min || point.y < self.y_min {
            return false;
        }
        if point.x > self.x_max || point.y > self.y_max {
            return false;
        }
        true
    }

    /// Decides whether the boxes share a position.
    pub fn overlaps_bbox(&self, bbox: &Bbox) -> (r: bool)
        ensures
            r == self.spec_overlaps(*bbox),
    {
        if bbox.x_min > self.x_max || bbox.x_max < self.x_min {
            return false;
        }
        if bbox.y_min > self.y_max || bbox.y_max < self.y_min {
            return false;
        }
        true
    }

    /// Decides whether this box fully covers the other.
    pub fn covers_bbox(&self, bbox: &Bbox) -> (r: bool)
        ensures
            r == self.spec_covers(*bbox),
    {
        if bbox.x_min < self.x_min || bbox.x_max > self.x_max {
            return false;
        }
        if bbox.y_min < self.y_min || bbox.y_max > self.y_max {
            return false;
        }
        true
    }
}

/// Squared distance between two offsets, in coordinate units, with the
/// east-west component shrunk by the squared-cosine latitude factor.
pub open spec fn spec_dist2(dx: int, dy: int, sx2: int) -> int {
    (dx * dx * sx2) / 0x100000 + dy * dy
}

/// The anisotropic squared distance is monotone in the absolute offsets.
pub proof fn lemma_dist2_monotone(dx1: int, dy1: int, dx2: int, dy2: int, sx2: int)
    requires
        0 <= dx1 <= dx2,
        0 <= dy1 <= dy2,
        0 <= sx2,
    ensures
        spec_dist2(dx1, dy1, sx2) <= spec_dist2(dx2, dy2, sx2),
{
    assert(dx1 * dx1 * sx2 <= dx2 * dx2 * sx2) by (nonlinear_arith)
        requires 0 <= dx1 <= dx2, 0 <= sx2;
    assert(dy1 * dy1 <= dy2 * dy2) by (nonlinear_arith)
        requires 0 <= dy1 <= dy2;
    assert((dx1 * dx1 * sx2) / 0x100000 <= (dx2 * dx2 * sx2) / 0x100000) by (nonlinear_arith)
        requires dx1 * dx1 * sx2 <= dx2 * dx2 * sx2, 0 <= dx1 * dx1 * sx2;
}

/// Squared distance is nonnegative and bounded for in-range offsets.
pub proof fn lemma_dist2_bounds(dx: int, dy: int, sx2: int)
    requires
        -0x20000000 <= dx <= 0x20000000,
        -0x20000000 <= dy <= 0x20000000,
        0 <= sx2 <= FP_ONE,
    ensures
        0 <= spec_dist2(dx, dy, sx2) <= 0x800000000000000,
{
    assert(0 <= dx * dx <= 0x20000000 * 0x20000000) by (nonlinear_arith)
        requires -0x20000000 <= dx <= 0x20000000;
    assert(0 <= dy * dy <= 0x20000000 * 0x20000000) by (nonlinear_arith)
        requires -0x20000000 <= dy <= 0x20000000;
    assert(0 <= dx * dx * sx2 <= 0x400000000000000 * 0x100000) by (nonlinear_arith)
        requires 0 <= dx * dx <= 0x400000000000000, 0 <= sx2 <= 0x100000;
}

/// Computes the anisotropic squared distance for offsets within twice the
/// coordinate limits.
pub fn dist2_of(dx: i64, dy: i64, sx2: i64) -> (d2: u64)
    requires
        -0x20000000 <= dx <= 0x20000000,
        -0x20000000 <= dy <= 0x20000000,
        0 <= sx2 <= FP_ONE,
    ensures
        d2 == spec_dist2(dx as int, dy as int, sx2 as int),
        d2 <= 0x800000000000000,
{
    proof {
        lemma_dist2_bounds(dx as int, dy as int, sx2 as int);
    }
    let dxw: i128 = dx as i128;
    let dyw: i128 = dy as i128;
    let sxw: i128 = sx2 as i128;
    assert(0 <= dxw * dxw <= 0x400000000000000) by (nonlinear_arith)
        requires -0x20000000 <= dxw <= 0x20000000;
    let dx2v: i128 = dxw * dxw;
    assert(0 <= dx2v * sxw <= 0x400000000000000 * 0x100000) by (nonlinear_arith)
        requires 0 <= dx2v <= 0x400000000000000, 0 <= sxw <= 0x100000;
    let xs: i128 = dx2v * sxw;
    let xpart: i128 = xs / 0x100000;
    assert(0 <= dyw * dyw <= 0x400000000000000) by (nonlinear_arith)
        requires -0x20000000 <= dyw <= 0x20000000;
    let ys: i128 = dyw * dyw;
    (xpart + ys) as u64
}

} // verus!

verus! {

/// The vertex lies strictly above the query latitude.
pub open spec fn vertex_above(p: Point, q: Point) -> bool {
    p.y > q.y
}

/// The edge from `a` to `b` straddles the query latitude.
pub open spec fn edge_straddles(a: Point, b: Point, q: Point) -> bool {
    vertex_above(b, q) != vertex_above(a, q)
}

/// The horizontal ray from `q` toward +x passes the edge from `a` to `b`:
/// the longitude where the edge meets the query latitude exceeds `q.x`.
/// This is the exact cross-multiplied form of
/// `q.x < (a.x - b.x) * (q.y - b.y) / (a.y - b.y) + b.x`.
pub open spec fn edge_ray_right(a: Point, b: Point, q: Point) -> bool {
    let d = a.y - b.y;
    if d > 0 {
        (q.x - b.x) * d < (a.x - b.x) * (q.y - b.y)
    } else {
        (q.x - b.x) * d > (a.x - b.x) * (q.y - b.y)
    }
}

/// The rightward ray from `q` crosses the edge from `a` to `b`.
pub open spec fn edge_crossing(a: Point, b: Point, q: Point) -> bool {
    edge_straddles(a, b, q) && edge_ray_right(a, b, q)
}

/// Number of ray crossings among the first `n` edges of the ring.
pub open spec fn crossings_upto(pts: Seq<Point>, q: Point, n: int) -> int
    decreases n,
{
    if n <= 0 {
        0
    } else {
        crossings_upto(pts, q, n - 1) + if edge_crossing(pts[n - 1], pts[n], q) { 1int } else { 0int }
    }
}

/// Number of straddling edges among the first `n` edges of the ring.
pub open spec fn straddles_upto(pts: Seq<Point>, q: Point, n: int) -> int
    decreases n,
{
    if n <= 0 {
        0
    } else {
        straddles_upto(pts, q, n - 1) + if edge_straddles(pts[n - 1], pts[n], q) { 1int } else { 0int }
    }
}

/// Even-odd rule: the query point is inside the closed ring exactly when the
/// rightward ray from it crosses an odd number of edges.
pub open spec fn spec_ring_contains(pts: Seq<Point>, q: Point) -> bool {
    crossings_upto(pts, q, pts.len() - 1) % 2 == 1
}

/// The number of straddling edges of a walk has the parity of the change of
/// side between its first and its last vertex.
proof fn lemma_straddle_parity(pts: Seq<Point>, q: Point, n: int)
    requires
        0 <= n < pts.len(),
    ensures
        straddles_upto(pts, q, n) % 2 == (if vertex_above(pts[0], q) != vertex_above(pts[n], q) { 1int } else { 0int }),
    decreases n,
{
    if n > 0 {
        lemma_straddle_parity(pts, q, n - 1);
    }
}

/// An edge wholly to the left of the query point never meets the ray.
proof fn lemma_edge_left_no_cross(a: Point, b: Point, q: Point)
    requires
        edge_straddles(a, b, q),
        a.x < q.x,
        b.x < q.x,
    ensures
        !edge_ray_right(a, b, q),
{
    let d = a.y - b.y;
    if d > 0 {
        assert(a.y > q.y >= b.y);
        assert((q.x - b.x) * d >= (a.x - b.x) * (q.y - b.y)) by (nonlinear_arith)
            requires
                a.y > q.y >= b.y,
                d == a.y - b.y,
                a.x < q.x,
                b.x < q.x;
    } else {
        assert(b.y > q.y >= a.y);
        assert(d < 0);
        assert((q.x - b.x) * d <= (a.x - b.x) * (q.y - b.y)) by (nonlinear_arith)
            requires
                b.y > q.y >= a.y,
                d == a.y - b.y,
                d < 0,
                a.x < q.x,
                b.x < q.x;
    }
}

/// An edge wholly to the right of the query point always meets the ray when
/// it straddles the query latitude.
proof fn lemma_edge_right_cross(a: Point, b: Point, q: Point)
    requires
        edge_straddles(a, b, q),
        q.x < a.x,
        q.x < b.x,
    ensures
        edge_ray_right(a, b, q),
{
    let d = a.y - b.y;
    if d > 0 {
        assert(a.y > q.y >= b.y);
        assert((q.x - b.x) * d < (a.x - b.x) * (q.y - b.y)) by (nonlinear_arith)
            requires
                a.y > q.y >= b.y,
                d == a.y - b.y,
                d > 0,
                q.x < a.x,
                q.x < b.x;
    } else {
        assert(b.y > q.y >= a.y);
        assert(d < 0);
        assert((q.x - b.x) * d > (a.x - b.x) * (q.y - b.y)) by (nonlinear_arith)
            requires
                b.y > q.y >= a.y,
                d == a.y - b.y,
                d < 0,
                q.x < a.x,
                q.x < b.x;
    }
}

/// Right of the box no edge is crossed.
proof fn lemma_crossings_right_of_box(pts: Seq<Point>, q: Point, bbox: Bbox, n: int)
    requires
        0 <= n < pts.len(),
        forall|i: int| 0 <= i < pts.len() ==> bbox.spec_contains(#[trigger] pts[i]),
        q.x > bbox.x_max,
    ensures
        crossings_upto(pts, q, n) == 0,
    decreases n,
{
    if n > 0 {
        lemma_crossings_right_of_box(pts, q, bbox, n - 1);
        if edge_straddles(pts[n - 1], pts[n], q) {
            lemma_edge_left_no_cross(pts[n - 1], pts[n], q);
        }
    }
}

/// Left of the box every straddling edge is crossed.
proof fn lemma_crossings_left_of_box(pts: Seq<Point>, q: Point, bbox: Bbox, n: int)
    requires
        0 <= n < pts.len(),
        forall|i: int| 0 <= i < pts.len() ==> bbox.spec_contains(#[trigger] pts[i]),
        q.x < bbox.x_min,
    ensures
        crossings_upto(pts, q, n) == straddles_upto(pts, q, n),
    decreases n,
{
    if n > 0 {
        lemma_crossings_left_of_box(pts, q, bbox, n - 1);
        if edge_straddles(pts[n - 1], pts[n], q) {
            lemma_edge_right_cross(pts[n - 1], pts[n], q);
        }
    }
}

/// Above or below the box no edge straddles the query latitude, so none is
/// crossed.
proof fn lemma_crossings_outside_band(pts: Seq<Point>, q: Point, bbox: Bbox, n: int)
    requires
        0 <= n < pts.len(),
        forall|i: int| 0 <= i < pts.len() ==> bbox.spec_contains(#[trigger] pts[i]),
        q.y > bbox.y_max || q.y < bbox.y_min,
    ensures
        crossings_upto(pts, q, n) == 0,
    decreases n,
{
    if n > 0 {
        lemma_crossings_outside_band(pts, q, bbox, n - 1);
        assert(bbox.spec_contains(pts[n - 1]));
        assert(bbox.spec_contains(pts[n]));
    }
}

/// Bounding-box pruning for the even-odd rule: a query point outside a box
/// that holds every vertex of a closed ring is outside the ring.
pub proof fn lemma_bbox_prune(pts: Seq<Point>, q: Point, bbox: Bbox)
    requires
        pts.len() >= 1,
        pts[0] == pts[pts.len() - 1],
        forall|i: int| 0 <= i < pts.len() ==> bbox.spec_contains(#[trigger] pts[i]),
        !bbox.spec_contains(q),
    ensures
        !spec_ring_contains(pts, q),
{
    let n = pts.len() - 1;
    if q.y > bbox.y_max || q.y < bbox.y_min {
        lemma_crossings_outside_band(pts, q, bbox, n);
    } else if q.x > bbox.x_max {
        lemma_crossings_right_of_box(pts, q, bbox, n);
    } else {
        assert(q.x < bbox.x_min);
        lemma_crossings_left_of_box(pts, q, bbox, n);
        lemma_straddle_parity(pts, q, n);
    }
}

/// Decides whether the rightward ray from `q` crosses the edge from `a` to
/// `b`, with exact integer products.
pub fn edge_crossing_exec(a: &Point, b: &Point, q: &Point) -> (r: bool)
    requires
        a.wf(),
        b.wf(),
        q.coords_ok(),
    ensures
        r == edge_crossing(*a, *b, *q),
{
    let straddles = (b.y > q.y) != (a.y > q.y);
    if !straddles {
        return false;
    }
    let d: i128 = (a.y as i128) - (b.y as i128);
    let lhs_a: i128 = (q.x as i128) - (b.x as i128);
    let rhs_a: i128 = (a.x as i128) - (b.x as i128);
    let rhs_b: i128 = (q.y as i128) - (b.y as i128);
    assert(-0x40000000 <= lhs_a <= 0x40000000);
    assert(-0x40000000 <= d <= 0x40000000);
    assert(-0x40000000 <= rhs_a <= 0x40000000);
    assert(-0x40000000 <= rhs_b <= 0x40000000);
    assert(-0x1000000000000000 <= lhs_a * d <= 0x1000000000000000) by (nonlinear_arith)
        requires -0x40000000 <= lhs_a <= 0x40000000, -0x40000000 <= d <= 0x40000000;
    assert(-0x1000000000000000 <= rhs_a * rhs_b <= 0x1000000000000000) by (nonlinear_arith)
        requires -0x40000000 <= rhs_a <= 0x40000000, -0x40000000 <= rhs_b <= 0x40000000;
    if d > 0 {
        lhs_a * d < rhs_a * rhs_b
    } else {
        lhs_a * d > rhs_a * rhs_b
    }
}

} // verus!

verus! {

/// One side of an axis-aligned cut line: the variants name which points are
/// on the far side and get dropped by clipping.
#[derive(Clone, Copy, Debug, PartialEq, Eq, Structural)]
pub enum CutSide {
    Top(i64),
    Bottom(i64),
    Left(i64),
    Right(i64),
}

/// The point lies on the far side of the cut line.
pub open spec fn spec_outside(p: Point, side: CutSide) -> bool {
    match side {
        CutSide::Top(y) => p.y > y,
        CutSide::Bottom(y) => p.y < y,
        CutSide::Left(x) => p.x < x,
        CutSide::Right(x) => p.x > x,
    }
}

/// Decides on which side of the cut line the point lies.
pub fn is_outside(p: &Point, side: CutSide) -> (r: bool)
    ensures
        r == spec_outside(*p, side),
{
    match side {
        CutSide::Top(y) => p.y > y,
        CutSide::Bottom(y) => p.y < y,
        CutSide::Left(x) => p.x < x,
        CutSide::Right(x) => p.x > x,
    }
}

/// Vertex `i` of the ring is dropped by the cut: it and both of its cyclic
/// neighbours lie on the far side.  The closing duplicate vertex does not
/// count as a neighbour of its own.
pub open spec fn spec_cut_drop(pts: Seq<Point>, side: CutSide, i: int) -> bool {
    let n = pts.len() - 1;
    &&& spec_outside(pts[i], side)
    &&& spec_outside(pts[(i + 1) % n], side)
    &&& spec_outside(pts[(i + n - 1) % n], side)
}

/// The vertices among the first `n` that survive the cut, in order.
pub open spec fn spec_cut_kept(pts: Seq<Point>, side: CutSide, n: int) -> Seq<Point>
    decreases n,
{
    if n <= 0 {
        Seq::empty()
    } else {
        spec_cut_kept(pts, side, n - 1)
            + if spec_cut_drop(pts, side, n - 1) { Seq::empty() } else { seq![pts[n - 1]] }
    }
}

/// The ring after clipping: the surviving vertices, re-closed by repeating
/// the first one, or empty when nothing survives.
pub open spec fn spec_ring_cut(pts: Seq<Point>, side: CutSide) -> Seq<Point> {
    let kept = spec_cut_kept(pts, side, pts.len() - 1);
    if kept.len() > 0 {
        kept.push(kept[0])
    } else {
        kept
    }
}

/// A closed ring of vertices (first equals last) with its cached bounding
/// box.
#[derive(Debug)]
pub struct Polyline {
    pub points: Vec<Point>,
    pub bbox: Bbox,
}

impl View for Polyline {
    type V = Seq<Point>;

    open spec fn view(&self) -> Seq<Point> {
        self.points@
    }
}

impl Polyline {
    /// A closed ring of in-range vertices whose bounding box holds them all.
    pub open spec fn wf(self) -> bool {
        &&& 2 <= self.points.len() <= 0xFFFFFFFF
        &&& self.points@[0] == self.points@[self.points.len() - 1]
        &&& forall|i: int| 0 <= i < self.points.len() ==> (#[trigger] self.points@[i]).wf()
        &&& self.bbox.wf()
        &&& forall|i: int| 0 <= i < self.points.len() ==> self.bbox.spec_contains(#[trigger] self.points@[i])
    }

    /// Builds a ring from its vertices and computes the bounding box.
    pub fn from_points(points: Vec<Point>) -> (r: Polyline)
        requires
            2 <= points.len() <= 0xFFFFFFFF,
            points@[0] == points@[points.len() - 1],
            forall|i: int| 0 <= i < points.len() ==> (#[trigger] points@[i]).wf(),
        ensures
            r.wf(),
            r@ == points@,
    {
        let mut bbox = Bbox::new();
        let n = points.len();
        let mut i: usize = 0;
        while i < n
            invariant
                n == points.len() <= 0xFFFFFFFF,
                0 <= i <= n,
                forall|j: int| 0 <= j < n ==> (#[trigger] points@[j]).wf(),
                bbox.wf(),
                forall|j: int| 0 <= j < i ==> bbox.spec_contains(#[trigger] points@[j]),
            decreases n - i,
        {
            bbox.add_point(&points[i]);
            i = i + 1;
        }
        Polyline { points, bbox }
    }

    /// Number of vertices, the closing duplicate included.
    pub fn point_count(&self) -> (c: u32)
        requires
            self.wf(),
        ensures
            c == self.points.len(),
    {
        self.points.len() as u32
    }

    /// Even-odd containment test with a bounding-box shortcut.
    pub fn contains_point(&self, point: &Point) -> (r: bool)
        requires
            self.wf(),
            point.coords_ok(),
        ensures
            r == spec_ring_contains(self@, *point),
    {
        if !self.bbox.contains_point(point) {
            proof {
                lemma_bbox_prune(self@, *point, self.bbox);
            }
            return false;
        }
        let mut odd = false;
        let n = self.points.len() - 1;
        let mut i: usize = 0;
        while i < n
            invariant
                n == self.points.len() - 1,
                self.wf(),
                point.coords_ok(),
                0 <= i <= n,
                odd == (crossings_upto(self@, *point, i as int) % 2 == 1),
            decreases n - i,
        {
            if edge_crossing_exec(&self.points[i], &self.points[i + 1], point) {
                odd = !odd;
            }
            i = i + 1;
        }
        odd
    }

    /// Clips the ring against one side of an axis-aligned cut line.  The
    /// result is the approximate clipped ring: surviving vertices re-closed,
    /// possibly empty.
    pub fn clone_cut(&self, side: CutSide) -> (r: Polyline)
        requires
            self.wf(),
        ensures
            r@ == spec_ring_cut(self@, side),
            r@.len() > 0 ==> r.wf(),
            r@.len() <= self@.len(),
    {
        let n = self.points.len() - 1;
        let mut outside: Vec<bool> = Vec::new();
        let mut i: usize = 0;
        while i < n
            invariant
                n == self.points.len() - 1,
                self.wf(),
                0 <= i <= n,
                outside@.len() == i,
                forall|j: int| 0 <= j < i ==> outside@[j] == spec_outside(self@[j], side),
            decreases n - i,
        {
            outside.push(is_outside(&self.points[i], side));
            i = i + 1;
        }
        let mut points: Vec<Point> = Vec::new();
        let mut i: usize = 0;
        while i < n
            invariant
                n == self.points.len() - 1,
                self.wf(),
                0 <= i <= n,
                outside@.len() == n,
                forall|j: int| 0 <= j < n ==> outside@[j] == spec_outside(self@[j], side),
                points@ == spec_cut_kept(self@, side, i as int),
                points@.len() <= i,
                forall|j: int| 0 <= j < points@.len() ==> (#[trigger] points@[j]).wf(),
            decreases n - i,
        {
            let next = if i + 1 == n { 0 } else { i + 1 };
            let prev = if i == 0 { n - 1 } else { i - 1 };
            proof {
                vstd::arithmetic::div_mod::lemma_small_mod((next) as nat, n as nat);
                if i + 1 == n {
                    vstd::arithmetic::div_mod::lemma_mod_self_0(n as int);
                }
                assert(next as int == (i as int + 1) % (n as int));
                vstd::arithmetic::div_mod::lemma_small_mod((prev) as nat, n as nat);
                vstd::arithmetic::div_mod::lemma_mod_add_multiples_vanish(prev as int, n as int);
                assert(prev as int == (i as int + n as int - 1) % (n as int));
            }
            let drop = outside[i] && outside[next] && outside[prev];
            if !drop {
                points.push(self.points[i]);
            }
            i = i + 1;
        }
        if points.len() > 0 {
            let p0 = points[0];
            points.push(p0);
            assert(points@ == spec_ring_cut(self@, side));
            Polyline::from_points(points)
        } else {
            Polyline { points, bbox: Bbox::new() }
        }
    }
}

/// A boundary segment between two consecutive ring vertices, with its
/// cached midpoint.
#[derive(Clone, Copy, Debug, PartialEq, Eq, Structural)]
pub struct Segment {
    pub p0: Point,
    pub p1: Point,
    pub cx: i64,
    pub cy: i64,
}

/// The segment between two vertices, midpoint halved toward zero.
pub open spec fn spec_segment(a: Point, b: Point) -> Segment {
    Segment { p0: a, p1: b, cx: spec_half(a.x + b.x) as i64, cy: spec_half(a.y + b.y) as i64 }
}

impl Segment {
    /// Endpoints in range and the midpoint consistent with them.
    pub open spec fn wf(self) -> bool {
        &&& self.p0.wf()
        &&& self.p1.wf()
        &&& self.cx == spec_half(self.p0.x + self.p1.x)
        &&& self.cy == spec_half(self.p0.y + self.p1.y)
    }

    /// Builds a segment and computes its midpoint.
    pub fn new(p0: Point, p1: Point) -> (s: Segment)
        requires
            p0.wf(),
            p1.wf(),
        ensures
            s == spec_segment(p0, p1),
            s.wf(),
    {
        let cx = half_of(p0.x + p1.x);
        let cy = half_of(p0.y + p1.y);
        Segment { p0, p1, cx, cy }
    }
}

/// The segments a ring contributes to the index: one for each consecutive
/// vertex pair, so every edge of the closed ring.
pub open spec fn spec_ring_segments(pts: Seq<Point>) -> Seq<Segment> {
    Seq::new((pts.len() - 1) as nat, |i: int| spec_segment(pts[i], pts[i + 1]))
}

impl Polyline {
    /// Appends this ring's boundary segments to a list.
    pub fn extract_segments_to(&self, segments: &mut Vec<Segment>)
        requires
            self.wf(),
            forall|k: int| 0 <= k < old(segments)@.len() ==> (#[trigger] old(segments)@[k]).wf(),
        ensures
            final(segments)@ == old(segments)@ + spec_ring_segments(self@),
            forall|k: int| 0 <= k < final(segments)@.len() ==> (#[trigger] final(segments)@[k]).wf(),
    {
        let n = self.points.len() - 1;
        let mut i: usize = 0;
        while i < n
            invariant
                n == self.points.len() - 1,
                self.wf(),
                0 <= i <= n,
                segments@ == old(segments)@ + spec_ring_segments(self@).take(i as int),
                forall|k: int| 0 <= k < segments@.len() ==> (#[trigger] segments@[k]).wf(),
            decreases n - i,
        {
            let s = Segment::new(self.points[i], self.points[i + 1]);
            segments.push(s);
            proof {
                assert(spec_ring_segments(self@).take(i + 1int)
                    == spec_ring_segments(self@).take(i as int).push(spec_segment(self@[i as int], self@[i + 1])));
            }
            i = i + 1;
        }
        proof {
            assert(spec_ring_segments(self@).take(n as int) == spec_ring_segments(self@));
        }
    }
}

} // verus!

verus! {

/// A polygon: outer ring first, hole rings after, with the cached union
/// bounding box.
#[derive(Debug)]
pub struct Polygon {
    pub rings: Vec<Polyline>,
    pub bbox: Bbox,
}

impl View for Polygon {
    type V = Seq<Seq<Point>>;

    open spec fn view(&self) -> Seq<Seq<Point>> {
        Seq::new(self.rings@.len(), |i: int| self.rings@[i]@)
    }
}

/// Sum of the vertex counts of the rings from position `i` on.
pub open spec fn ring_sum_from(rs: Seq<Polyline>, i: int) -> nat
    decreases rs.len() - i,
{
    if i < 0 || i >= rs.len() {
        0
    } else {
        rs[i].points@.len() + ring_sum_from(rs, i + 1)
    }
}

/// The point is inside the polygon by the even-odd rule: inside the outer
/// ring and inside no hole ring.
pub open spec fn spec_polygon_contains(rings: Seq<Seq<Point>>, q: Point) -> bool {
    &&& rings.len() > 0
    &&& spec_ring_contains(rings[0], q)
    &&& forall|i: int| 1 <= i < rings.len() ==> !spec_ring_contains(#[trigger] rings[i], q)
}

impl Polygon {
    /// At least one ring, every ring well formed, and the bounding box
    /// covering every ring's box.
    pub open spec fn wf(self) -> bool {
        &&& 1 <= self.rings.len()
        &&& forall|i: int| 0 <= i < self.rings.len() ==> (#[trigger] self.rings@[i]).wf()
        &&& self.bbox.wf()
        &&& forall|i: int| 0 <= i < self.rings.len() ==> self.bbox.spec_covers((#[trigger] self.rings@[i]).bbox)
    }

    /// Builds a polygon from its rings and computes the union bounding box.
    pub fn from_rings(rings: Vec<Polyline>) -> (r: Polygon)
        requires
            1 <= rings.len(),
            forall|i: int| 0 <= i < rings.len() ==> (#[trigger] rings@[i]).wf(),
        ensures
            r.wf(),
            r.rings@ == rings@,
    {
        let mut bbox = Bbox::new();
        let n = rings.len();
        let mut i: usize = 0;
        while i < n
            invariant
                n == rings.len(),
                0 <= i <= n,
                forall|j: int| 0 <= j < n ==> (#[trigger] rings@[j]).wf(),
                bbox.wf(),
                forall|j: int| 0 <= j < i ==> bbox.spec_covers((#[trigger] rings@[j]).bbox),
            decreases n - i,
        {
            bbox.add_bbox(&rings[i].bbox);
            i = i + 1;
        }
        Polygon { rings, bbox }
    }

    /// Total number of stored vertices over all rings.
    pub fn point_count(&self) -> (c: u32)
        requires
            self.wf(),
            ring_sum_from(self.rings@, 0) <= 0xFFFFFFFF,
        ensures
            c == ring_sum_from(self.rings@, 0),
    {
        let mut sum: u32 = 0;
        let n = self.rings.len();
        let mut i: usize = 0;
        while i < n
            invariant
                n == self.rings.len(),
                self.wf(),
                ring_sum_from(self.rings@, 0) <= 0xFFFFFFFF,
                0 <= i <= n,
                sum + ring_sum_from(self.rings@, i as int) == ring_sum_from(self.rings@, 0),
            decreases n - i,
        {
            sum = sum + self.rings[i].point_count();
            i = i + 1;
        }
        sum
    }

    /// Even-odd containment with a bounding-box shortcut: inside the outer
    /// ring and in no hole.
    pub fn contains_point(&self, point: &Point) -> (r: bool)
        requires
            self.wf(),
            point.coords_ok(),
        ensures
            r == spec_polygon_contains(self@, *point),
    {
        if !self.bbox.contains_point(point) {
            proof {
                let ring0 = self.rings@[0];
                assert(forall|i: int| 0 <= i < ring0@.len()
                    ==> self.bbox.spec_contains(#[trigger] ring0@[i]));
                lemma_bbox_prune(ring0@, *point, self.bbox);
                assert(self@[0] == ring0@);
                assert(!spec_ring_contains(self@[0], *point));
            }
            return false;
        }
        if !self.rings[0].contains_point(point) {
            return false;
        }
        let n = self.rings.len();
        let mut i: usize = 1;
        while i < n
            invariant
                n == self.rings.len(),
                self.wf(),
                point.coords_ok(),
                1 <= i <= n,
                spec_ring_contains(self@[0], *point),
                forall|j: int| 1 <= j < i ==> !spec_ring_contains(#[trigger] self@[j], *point),
            decreases n - i,
        {
            if self.rings[i].contains_point(point) {
                proof {
                    assert(self@[i as int] == self.rings@[i as int]@);
                }
                return false;
            }
            i = i + 1;
        }
        true
    }
}

/// The rings of a polygon after clipping, empty results dropped, from
/// position `i` on.
pub open spec fn spec_rings_cut_from(rs: Seq<Seq<Point>>, side: CutSide, i: int) -> Seq<Seq<Point>>
    decreases rs.len() - i,
{
    if i < 0 || i >= rs.len() {
        Seq::empty()
    } else {
        let c = spec_ring_cut(rs[i], side);
        (if c.len() > 0 { seq![c] } else { Seq::empty() }) + spec_rings_cut_from(rs, side, i + 1)
    }
}

/// A polygon's rings after clipping against one cut side.
pub open spec fn spec_polygon_cut(rs: Seq<Seq<Point>>, side: CutSide) -> Seq<Seq<Point>> {
    spec_rings_cut_from(rs, side, 0)
}

impl Polygon {
    /// Clips every ring, dropping rings that vanish; the result may be left
    /// with no rings at all.
    pub fn clone_cut(&self, side: CutSide) -> (r: Polygon)
        requires
            self.wf(),
        ensures
            r@ == spec_polygon_cut(self@, side),
            r.rings@.len() > 0 ==> r.wf(),
    {
        let n = self.rings.len();
        let mut rings: Vec<Polyline> = Vec::new();
        let mut i: usize = 0;
        while i < n
            invariant
                n == self.rings.len(),
                self.wf(),
                0 <= i <= n,
                forall|j: int| 0 <= j < rings@.len() ==> (#[trigger] rings@[j]).wf(),
                Seq::new(rings@.len(), |j: int| rings@[j]@) + spec_rings_cut_from(self@, side, i as int)
                    =~= spec_polygon_cut(self@, side),
            decreases n - i,
        {
            let ring_clone = self.rings[i].clone_cut(side);
            if ring_clone.points.len() > 0 {
                rings.push(ring_clone);
            }
            proof {
                assert(Seq::new(rings@.len(), |j: int| rings@[j]@) + spec_rings_cut_from(self@, side, i + 1int)
                    =~= spec_polygon_cut(self@, side));
            }
            i = i + 1;
        }
        if rings.len() > 0 {
            let r = Polygon::from_rings(rings);
            assert(r@ =~= spec_polygon_cut(self@, side));
            r
        } else {
            let r = Polygon { rings, bbox: Bbox::new() };
            assert(r@ =~= spec_polygon_cut(self@, side));
            r
        }
    }
}

} // verus!

verus! {

/// A set of polygons (a multi-polygon).
#[derive(Debug)]
pub struct Geometry {
    pub polygons: Vec<Polygon>,
}

impl View for Geometry {
    type V = Seq<Seq<Seq<Point>>>;

    open spec fn view(&self) -> Seq<Seq<Seq<Point>>> {
        Seq::new(self.polygons@.len(), |i: int| self.polygons@[i]@)
    }
}

/// Sum of the vertex counts of the polygons from position `i` on.
pub open spec fn poly_sum_from(ps: Seq<Polygon>, i: int) -> nat
    decreases ps.len() - i,
{
    if i < 0 || i >= ps.len() {
        0
    } else {
        ring_sum_from(ps[i].rings@, 0) + poly_sum_from(ps, i + 1)
    }
}

/// The point is contained in at least one polygon of the set.
pub open spec fn spec_geometry_contains(polys: Seq<Seq<Seq<Point>>>, q: Point) -> bool {
    exists|i: int| 0 <= i < polys.len() && spec_polygon_contains(#[trigger] polys[i], q)
}

/// The polygons of a set after clipping, polygons left without rings
/// dropped, from position `i` on.
pub open spec fn spec_polys_cut_from(ps: Seq<Seq<Seq<Point>>>, side: CutSide, i: int) -> Seq<Seq<Seq<Point>>>
    decreases ps.len() - i,
{
    if i < 0 || i >= ps.len() {
        Seq::empty()
    } else {
        let c = spec_polygon_cut(ps[i], side);
        (if c.len() > 0 { seq![c] } else { Seq::empty() }) + spec_polys_cut_from(ps, side, i + 1)
    }
}

/// A polygon set after clipping against one cut side.
pub open spec fn spec_geometry_cut(ps: Seq<Seq<Seq<Point>>>, side: CutSide) -> Seq<Seq<Seq<Point>>> {
    spec_polys_cut_from(ps, side, 0)
}

impl Geometry {
    /// Every polygon well formed.
    pub open spec fn wf(self) -> bool {
        forall|i: int| 0 <= i < self.polygons.len() ==> (#[trigger] self.polygons@[i]).wf()
    }

    /// The empty polygon set.
    pub fn new() -> (g: Geometry)
        ensures
            g.wf(),
            g@ =~= Seq::<Seq<Seq<Point>>>::empty(),
            g.polygons@.len() == 0,
    {
        Geometry { polygons: Vec::new() }
    }

    /// Adds one polygon to the set.
    pub fn add_polygon(&mut self, polygon: Polygon)
        requires
            old(self).wf(),
            polygon.wf(),
        ensures
            final(self).wf(),
            final(self).polygons@ == old(self).polygons@.push(polygon),
            final(self)@ =~= old(self)@.push(polygon@),
    {
        self.polygons.push(polygon);
    }

    /// Total number of stored vertices over all polygons.
    pub fn point_count(&self) -> (c: u32)
        requires
            self.wf(),
            poly_sum_from(self.polygons@, 0) <= 0xFFFFFFFF,
        ensures
            c == poly_sum_from(self.polygons@, 0),
    {
        let mut sum: u32 = 0;
        let n = self.polygons.len();
        let mut i: usize = 0;
        while i < n
            invariant
                n == self.polygons.len(),
                self.wf(),
                poly_sum_from(self.polygons@, 0) <= 0xFFFFFFFF,
                0 <= i <= n,
                sum + poly_sum_from(self.polygons@, i as int) == poly_sum_from(self.polygons@, 0),
            decreases n - i,
        {
            sum = sum + self.polygons[i].point_count();
            i = i + 1;
        }
        sum
    }

    /// True when some polygon of the set contains the point.
    pub fn contains_point(&self, point: &Point) -> (r: bool)
        requires
            self.wf(),
            point.coords_ok(),
        ensures
            r == spec_geometry_contains(self@, *point),
    {
        let n = self.polygons.len();
        let mut i: usize = 0;
        while i < n
            invariant
                n == self.polygons.len(),
                self.wf(),
                point.coords_ok(),
                0 <= i <= n,
                forall|j: int| 0 <= j < i ==> !spec_polygon_contains(#[trigger] self@[j], *point),
            decreases n - i,
        {
            if self.polygons[i].contains_point(point) {
                proof {
                    assert(self@[i as int] == self.polygons@[i as int]@);
                }
                return true;
            }
            i = i + 1;
        }
        false
    }

    /// Clips every polygon, dropping polygons left without rings.
    pub fn clone_cut(&self, side: CutSide) -> (r: Geometry)
        requires
            self.wf(),
        ensures
            r.wf(),
            r@ == spec_geometry_cut(self@, side),
    {
        let n = self.polygons.len();
        let mut polygons: Vec<Polygon> = Vec::new();
        let mut i: usize = 0;
        while i < n
            invariant
                n == self.polygons.len(),
                self.wf(),
                0 <= i <= n,
                forall|j: int| 0 <= j < polygons@.len() ==> (#[trigger] polygons@[j]).wf(),
                Seq::new(polygons@.len(), |j: int| polygons@[j]@) + spec_polys_cut_from(self@, side, i as int)
                    =~= spec_geometry_cut(self@, side),
            decreases n - i,
        {
            proof {
                assert(self@[i as int] == self.polygons@[i as int]@);
            }
            let clone = self.polygons[i].clone_cut(side);
            if clone.rings.len() > 0 {
                polygons.push(clone);
            }
            proof {
                assert(Seq::new(polygons@.len(), |j: int| polygons@[j]@) + spec_polys_cut_from(self@, side, i + 1int)
                    =~= spec_geometry_cut(self@, side));
            }
            i = i + 1;
        }
        let r = Geometry { polygons };
        assert(r@ =~= spec_geometry_cut(self@, side));
        r
    }

    /// Clips away the part of the set above the given latitude.
    pub fn clone_cut_top(&self, y: i64) -> (r: Geometry)
        requires
            self.wf(),
        ensures
            r.wf(),
            r@ == spec_geometry_cut(self@, CutSide::Top(y)),
    {
        self.clone_cut(CutSide::Top(y))
    }

    /// Clips away the part of the set below the given latitude.
    pub fn clone_cut_bot(&self, y: i64) -> (r: Geometry)
        requires
            self.wf(),
        ensures
            r.wf(),
            r@ == spec_geometry_cut(self@, CutSide::Bottom(y)),
    {
        self.clone_cut(CutSide::Bottom(y))
    }

    /// Clips away the part of the set left of the given longitude.
    pub fn clone_cut_lef(&self, x: i64) -> (r: Geometry)
        requires
            self.wf(),
        ensures
            r.wf(),
            r@ == spec_geometry_cut(self@, CutSide::Left(x)),
    {
        self.clone_cut(CutSide::Left(x))
    }

    /// Clips away the part of the set right of the given longitude.
    pub fn clone_cut_rig(&self, x: i64) -> (r: Geometry)
        requires
            self.wf(),
        ensures
            r.wf(),
            r@ == spec_geometry_cut(self@, CutSide::Right(x)),
    {
        self.clone_cut(CutSide::Right(x))
    }
}

/// The segments of a whole polygon set, ring by ring, polygon by polygon,
/// from polygon `i` and ring `j` on.
pub open spec fn spec_polygon_segments_from(rings: Seq<Seq<Point>>, j: int) -> Seq<Segment>
    decreases rings.len() - j,
{
    if j < 0 || j >= rings.len() {
        Seq::empty()
    } else {
        spec_ring_segments(rings[j]) + spec_polygon_segments_from(rings, j + 1)
    }
}

/// The segments of every polygon of the set from position `i` on.
pub open spec fn spec_geometry_segments_from(polys: Seq<Seq<Seq<Point>>>, i: int) -> Seq<Segment>
    decreases polys.len() - i,
{
    if i < 0 || i >= polys.len() {
        Seq::empty()
    } else {
        spec_polygon_segments_from(polys[i], 0) + spec_geometry_segments_from(polys, i + 1)
    }
}

/// All boundary segments of the polygon set, in storage order.
pub open spec fn spec_geometry_segments(polys: Seq<Seq<Seq<Point>>>) -> Seq<Segment> {
    spec_geometry_segments_from(polys, 0)
}

impl Polygon {
    /// Appends the boundary segments of every ring to a list.
    pub fn extract_segments_to(&self, segments: &mut Vec<Segment>)
        requires
            self.wf(),
            forall|k: int| 0 <= k < old(segments)@.len() ==> (#[trigger] old(segments)@[k]).wf(),
        ensures
            final(segments)@ == old(segments)@ + spec_polygon_segments_from(self@, 0),
            forall|k: int| 0 <= k < final(segments)@.len() ==> (#[trigger] final(segments)@[k]).wf(),
    {
        let n = self.rings.len();
        let mut j: usize = 0;
        while j < n
            invariant
                n == self.rings.len(),
                self.wf(),
                0 <= j <= n,
                segments@ + spec_polygon_segments_from(self@, j as int)
                    =~= old(segments)@ + spec_polygon_segments_from(self@, 0),
                forall|k: int| 0 <= k < segments@.len() ==> (#[trigger] segments@[k]).wf(),
            decreases n - j,
        {
            proof {
                assert(self@[j as int] == self.rings@[j as int]@);
            }
            self.rings[j].extract_segments_to(segments);
            j = j + 1;
        }
        assert(segments@ =~= old(segments)@ + spec_polygon_segments_from(self@, 0));
    }
}

impl Geometry {
    /// Appends the boundary segments of every polygon to a list.
    pub fn extract_segments_to(&self, segments: &mut Vec<Segment>)
        requires
            self.wf(),
            forall|k: int| 0 <= k < old(segments)@.len() ==> (#[trigger] old(segments)@[k]).wf(),
        ensures
            final(segments)@ == old(segments)@ + spec_geometry_segments(self@),
            forall|k: int| 0 <= k < final(segments)@.len() ==> (#[trigger] final(segments)@[k]).wf(),
    {
        let n = self.polygons.len();
        let mut i: usize = 0;
        while i < n
            invariant
                n == self.polygons.len(),
                self.wf(),
                0 <= i <= n,
                segments@ + spec_geometry_segments_from(self@, i as int)
                    =~= old(segments)@ + spec_geometry_segments(self@),
                forall|k: int| 0 <= k < segments@.len() ==> (#[trigger] segments@[k]).wf(),
            decreases n - i,
        {
            proof {
                assert(self@[i as int] == self.polygons@[i as int]@);
            }
            self.polygons[i].extract_segments_to(segments);
            i = i + 1;
        }
        assert(segments@ =~= old(segments)@ + spec_geometry_segments(self@));
    }
}

} // verus!
