//! Nearest-segment distance: exact anisotropic point-to-segment squared
//! distances, minima over segment ranges, and (further down) the balanced
//! spatial index with its branch-and-bound query.

use vstd::prelude::*;
use vstd::arithmetic::div_mod::{lemma_div_is_ordered, lemma_div_by_multiple, lemma_div_pos_is_pos};
use crate::fixed::{FP_ONE, X_LIMIT, Y_LIMIT, spec_tdiv};
use crate::geometry::{
    Point, Bbox, Segment, spec_dist2, dist2_of, lemma_dist2_bounds, lemma_dist2_monotone,
};

verus! {

/// A squared distance strictly larger than any the geometry can produce;
/// the seed of every minimum.
pub const INF_D2: u64 = 0x7FFFFFFFFFFFFFFF;

/// The smaller of two values.
pub open spec fn spec_min(a: int, b: int) -> int {
    if a <= b { a } else { b }
}

/// The squared distance from the query point to the segment, in coordinate
/// units: the point is projected onto the segment with the projection
/// parameter clamped to [0, 1] and quantized to 65536ths, and the distance
/// taken to the resulting segment point.  A degenerate segment falls back to
/// the distance to its first endpoint.
pub open spec fn spec_seg_dist2(s: Segment, q: Point) -> int {
    let dxwv = s.p1.x - s.p0.x;
    let dywv = s.p1.y - s.p0.y;
    let dxpv = q.x - s.p0.x;
    let dypv = q.y - s.p0.y;
    let l2 = dxwv * dxwv + dywv * dywv;
    if l2 == 0 {
        spec_dist2(dxpv, dypv, q.scale_x2 as int)
    } else {
        let dot = dxpv * dxwv + dypv * dywv;
        let tq = if dot <= 0 { 0 } else if dot >= l2 { 65536int } else { (dot * 65536) / l2 };
        let cx = s.p0.x + spec_tdiv(tq * dxwv, 65536);
        let cy = s.p0.y + spec_tdiv(tq * dywv, 65536);
        spec_dist2(q.x - cx, q.y - cy, q.scale_x2 as int)
    }
}

/// The quantized projection foot of the query point on the segment: the
/// point whose distance `spec_seg_dist2` measures.  For a degenerate
/// segment it is the first endpoint.
pub open spec fn spec_seg_foot(s: Segment, q: Point) -> (int, int) {
    let dxwv = s.p1.x - s.p0.x;
    let dywv = s.p1.y - s.p0.y;
    let dxpv = q.x - s.p0.x;
    let dypv = q.y - s.p0.y;
    let l2 = dxwv * dxwv + dywv * dywv;
    if l2 == 0 {
        (s.p0.x as int, s.p0.y as int)
    } else {
        let dot = dxpv * dxwv + dypv * dywv;
        let tq = if dot <= 0 { 0 } else if dot >= l2 { 65536int } else { (dot * 65536) / l2 };
        (s.p0.x + spec_tdiv(tq * dxwv, 65536), s.p0.y + spec_tdiv(tq * dywv, 65536))
    }
}

/// The clamped quantized projection parameter lies in [0, 65536].
proof fn lemma_tq_range(dot: int, l2: int)
    requires
        l2 > 0,
    ensures
        0 <= (if dot <= 0 { 0int } else if dot >= l2 { 65536int } else { (dot * 65536) / l2 }) <= 65536,
{
    if 0 < dot < l2 {
        assert(dot * 65536 >= 0) by (nonlinear_arith)
            requires dot > 0;
        lemma_div_pos_is_pos(dot * 65536, l2);
        assert(dot * 65536 <= l2 * 65536) by (nonlinear_arith)
            requires dot <= l2, 65536 > 0;
        lemma_div_is_ordered(dot * 65536, l2 * 65536, l2);
        assert((l2 * 65536) / l2 == 65536) by {
            lemma_div_by_multiple(65536, l2);
            assert(l2 * 65536 == 65536 * l2) by (nonlinear_arith);
        }
    }
}

/// A fraction of the span stays within the span: the scaled offset
/// `spec_tdiv(tq * d, 65536)` with `tq` in [0, 65536] lies between 0 and
/// `d`.
proof fn lemma_foot_offset_range(tq: int, d: int)
    requires
        0 <= tq <= 65536,
    ensures
        d >= 0 ==> 0 <= spec_tdiv(tq * d, 65536) <= d,
        d < 0 ==> d <= spec_tdiv(tq * d, 65536) <= 0,
{
    if d >= 0 {
        assert(0 <= tq * d <= 65536 * d) by (nonlinear_arith)
            requires 0 <= tq <= 65536, d >= 0;
        lemma_div_pos_is_pos(tq * d, 65536);
        lemma_div_is_ordered(tq * d, 65536 * d, 65536);
        lemma_div_by_multiple(d, 65536);
        assert(65536 * d == d * 65536) by (nonlinear_arith);
    } else {
        assert(0 <= tq * (-d) <= 65536 * (-d)) by (nonlinear_arith)
            requires 0 <= tq <= 65536, d < 0;
        assert(tq * (-d) == -(tq * d)) by (nonlinear_arith);
        lemma_div_pos_is_pos(-(tq * d), 65536);
        lemma_div_is_ordered(-(tq * d), 65536 * (-d), 65536);
        lemma_div_by_multiple(-d, 65536);
        assert(65536 * (-d) == (-d) * 65536) by (nonlinear_arith);
    }
}

/// The projection foot lies within the segment's coordinate span.
pub proof fn lemma_foot_in_span(s: Segment, q: Point)
    requires
        s.wf(),
        q.wf(),
    ensures
        ({
            let (cx, cy) = spec_seg_foot(s, q);
            &&& (s.p0.x <= cx <= s.p1.x || s.p1.x <= cx <= s.p0.x)
            &&& (s.p0.y <= cy <= s.p1.y || s.p1.y <= cy <= s.p0.y)
        }),
{
    let dxwv = s.p1.x - s.p0.x;
    let dywv = s.p1.y - s.p0.y;
    let dxpv = q.x - s.p0.x;
    let dypv = q.y - s.p0.y;
    let l2 = dxwv * dxwv + dywv * dywv;
    if l2 == 0 {
    } else {
        let dot = dxpv * dxwv + dypv * dywv;
        let tq = if dot <= 0 { 0int } else if dot >= l2 { 65536int } else { (dot * 65536) / l2 };
        assert(l2 > 0) by (nonlinear_arith)
            requires l2 == dxwv * dxwv + dywv * dywv, l2 != 0;
        lemma_tq_range(dot, l2);
        lemma_foot_offset_range(tq, dxwv as int);
        lemma_foot_offset_range(tq, dywv as int);
    }
}

/// The squared segment distance equals the squared distance to the foot,
/// whose offsets stay in range; so it is bounded like any point distance.
pub proof fn lemma_seg_dist2_bounds(s: Segment, q: Point)
    requires
        s.wf(),
        q.wf(),
    ensures
        0 <= spec_seg_dist2(s, q) <= 0x800000000000000,
{
    reveal(spec_seg_dist2);
    lemma_foot_in_span(s, q);
    let (cx, cy) = spec_seg_foot(s, q);
    crate::fixed::lemma_scale_x2_bounds(q.y as int);
    lemma_dist2_bounds(q.x - cx, q.y - cy, q.scale_x2 as int);
}

/// Squared distance is even in each offset.
proof fn lemma_dist2_even(dx: int, dy: int, sx2: int)
    ensures
        spec_dist2(dx, dy, sx2) == spec_dist2(-dx, dy, sx2),
        spec_dist2(dx, dy, sx2) == spec_dist2(dx, -dy, sx2),
{
    assert(dx * dx == (-dx) * (-dx)) by (nonlinear_arith);
    assert(dy * dy == (-dy) * (-dy)) by (nonlinear_arith);
}

/// The distance from a point to a bounding box, squared, in coordinate
/// units: zero inside the box.
pub open spec fn spec_bbox_dist2(b: Bbox, q: Point) -> int {
    let dx0 = if b.x_min - q.x >= q.x - b.x_max { b.x_min - q.x } else { q.x - b.x_max };
    let dx = if dx0 >= 0 { dx0 } else { 0 };
    let dy0 = if b.y_min - q.y >= q.y - b.y_max { b.y_min - q.y } else { q.y - b.y_max };
    let dy = if dy0 >= 0 { dy0 } else { 0 };
    spec_dist2(dx, dy, q.scale_x2 as int)
}

/// Computes the squared distance from a point to a bounding box.
pub fn bbox_dist2(b: &Bbox, q: &Point) -> (d2: u64)
    requires
        b.wf(),
        q.wf(),
    ensures
        d2 == spec_bbox_dist2(*b, *q),
        d2 <= 0x800000000000000,
{
    let dx0: i64 = if b.x_min - q.x >= q.x - b.x_max { b.x_min - q.x } else { q.x - b.x_max };
    let dx: i64 = if dx0 >= 0 { dx0 } else { 0 };
    let dy0: i64 = if b.y_min - q.y >= q.y - b.y_max { b.y_min - q.y } else { q.y - b.y_max };
    let dy: i64 = if dy0 >= 0 { dy0 } else { 0 };
    proof {
        crate::fixed::lemma_scale_x2_bounds(q.y as int);
    }
    dist2_of(dx, dy, q.scale_x2)
}

/// The box distance never overestimates the distance to anything between
/// two points held by the box: the key soundness fact of the index.
pub proof fn lemma_bbox_dist2_le_seg(b: Bbox, s: Segment, q: Point)
    requires
        b.wf(),
        s.wf(),
        q.wf(),
        b.spec_contains(s.p0),
        b.spec_contains(s.p1),
    ensures
        spec_bbox_dist2(b, q) <= spec_seg_dist2(s, q),
{
    reveal(spec_seg_dist2);
    lemma_foot_in_span(s, q);
    let (cx, cy) = spec_seg_foot(s, q);
    assert(b.x_min <= cx <= b.x_max);
    assert(b.y_min <= cy <= b.y_max);
    let dx0 = if b.x_min - q.x >= q.x - b.x_max { b.x_min - q.x } else { q.x - b.x_max };
    let dx = if dx0 >= 0 { dx0 } else { 0int };
    let dy0 = if b.y_min - q.y >= q.y - b.y_max { b.y_min - q.y } else { q.y - b.y_max };
    let dy = if dy0 >= 0 { dy0 } else { 0int };
    let ax = if q.x - cx >= 0 { q.x - cx } else { cx - q.x };
    let ay = if q.y - cy >= 0 { q.y - cy } else { cy - q.y };
    assert(dx <= ax);
    assert(dy <= ay);
    crate::fixed::lemma_scale_x2_bounds(q.y as int);
    lemma_dist2_monotone(dx, dy, ax, ay, q.scale_x2 as int);
    lemma_dist2_even(q.x - cx, q.y - cy, q.scale_x2 as int);
    lemma_dist2_even(ax, q.y - cy, q.scale_x2 as int);
    assert(spec_dist2(ax, ay, q.scale_x2 as int) == spec_dist2(q.x - cx, q.y - cy, q.scale_x2 as int));
}

/// Computes the squared distance from a point to one segment.
pub fn min_segment_distance2(segment: &Segment, point: &Point) -> (d2: u64)
    requires
        segment.wf(),
        point.wf(),
    ensures
        d2 == spec_seg_dist2(*segment, *point),
        d2 <= 0x800000000000000,
{
    proof {
        reveal(spec_seg_dist2);
        lemma_seg_dist2_bounds(*segment, *point);
        crate::fixed::lemma_scale_x2_bounds(point.y as int);
    }
    let dxwv: i64 = segment.p1.x - segment.p0.x;
    let dywv: i64 = segment.p1.y - segment.p0.y;
    let dxpv: i64 = point.x - segment.p0.x;
    let dypv: i64 = point.y - segment.p0.y;
    assert(0 <= (dxwv as i128) * (dxwv as i128) <= 0x400000000000000) by (nonlinear_arith)
        requires -0x20000000 <= dxwv as i128 <= 0x20000000;
    assert(0 <= (dywv as i128) * (dywv as i128) <= 0x400000000000000) by (nonlinear_arith)
        requires -0x20000000 <= dywv as i128 <= 0x20000000;
    let l2: i128 = (dxwv as i128) * (dxwv as i128) + (dywv as i128) * (dywv as i128);
    if l2 == 0 {
        return dist2_of(dxpv, dypv, point.scale_x2);
    }
    assert(-0x400000000000000 <= (dxpv as i128) * (dxwv as i128) <= 0x400000000000000) by (nonlinear_arith)
        requires -0x20000000 <= dxpv as i128 <= 0x20000000, -0x20000000 <= dxwv as i128 <= 0x20000000;
    assert(-0x400000000000000 <= (dypv as i128) * (dywv as i128) <= 0x400000000000000) by (nonlinear_arith)
        requires -0x20000000 <= dypv as i128 <= 0x20000000, -0x20000000 <= dywv as i128 <= 0x20000000;
    let dot: i128 = (dxpv as i128) * (dxwv as i128) + (dypv as i128) * (dywv as i128);
    let tq: i128 = if dot <= 0 {
        0
    } else if dot >= l2 {
        65536
    } else {
        assert(0 <= dot * 65536 <= 0x800000000000000 * 65536) by (nonlinear_arith)
            requires 0 <= dot <= 0x800000000000000;
        (dot * 65536) / l2
    };
    proof {
        lemma_tq_range(dot as int, l2 as int);
    }
    assert(0 <= tq <= 65536);
    assert(-0x20000000 * 65536 <= tq * (dxwv as i128) <= 0x20000000 * 65536) by (nonlinear_arith)
        requires 0 <= tq <= 65536, -0x20000000 <= dxwv as i128 <= 0x20000000;
    assert(-0x20000000 * 65536 <= tq * (dywv as i128) <= 0x20000000 * 65536) by (nonlinear_arith)
        requires 0 <= tq <= 65536, -0x20000000 <= dywv as i128 <= 0x20000000;
    let tx: i128 = tq * (dxwv as i128);
    let ty: i128 = tq * (dywv as i128);
    let ox: i128 = if tx >= 0 { tx / 65536 } else { -((-tx) / 65536) };
    let oy: i128 = if ty >= 0 { ty / 65536 } else { -((-ty) / 65536) };
    proof {
        lemma_foot_offset_range(tq as int, dxwv as int);
        lemma_foot_offset_range(tq as int, dywv as int);
    }
    let cx: i64 = segment.p0.x + (ox as i64);
    let cy: i64 = segment.p0.y + (oy as i64);
    dist2_of(point.x - cx, point.y - cy, point.scale_x2)
}

/// The least squared segment distance over the index positions `[i, hi)`,
/// seeded with `INF_D2` for the empty range.
pub open spec fn spec_min_from(segs: Seq<Segment>, q: Point, i: int, hi: int) -> int
    decreases hi - i,
{
    if i >= hi {
        INF_D2 as int
    } else {
        spec_min(spec_seg_dist2(segs[i], q), spec_min_from(segs, q, i + 1, hi))
    }
}

/// The range minimum never exceeds any member.
pub proof fn lemma_min_from_le(segs: Seq<Segment>, q: Point, i: int, hi: int, j: int)
    requires
        i <= j < hi,
    ensures
        spec_min_from(segs, q, i, hi) <= spec_seg_dist2(segs[j], q),
    decreases j - i,
{
    if i < j {
        lemma_min_from_le(segs, q, i + 1, hi, j);
    }
}

/// The range minimum of a nonempty range is attained by a member, and never
/// exceeds the seed.
pub proof fn lemma_min_from_attained(segs: Seq<Segment>, q: Point, i: int, hi: int)
    requires
        0 <= i < hi <= segs.len(),
        forall|k: int| i <= k < hi ==> (#[trigger] segs[k]).wf(),
        q.wf(),
    ensures
        exists|j: int| i <= j < hi && spec_min_from(segs, q, i, hi) == spec_seg_dist2(#[trigger] segs[j], q),
        spec_min_from(segs, q, i, hi) < INF_D2 as int,
    decreases hi - i,
{
    lemma_seg_dist2_bounds(segs[i], q);
    if i + 1 < hi {
        lemma_min_from_attained(segs, q, i + 1, hi);
        if spec_seg_dist2(segs[i], q) <= spec_min_from(segs, q, i + 1, hi) {
            assert(spec_min_from(segs, q, i, hi) == spec_seg_dist2(segs[i], q));
        }
    } else {
        assert(spec_min_from(segs, q, i + 1, hi) == INF_D2 as int);
        assert(spec_min_from(segs, q, i, hi) == spec_seg_dist2(segs[i], q));
        assert(i <= i < hi && spec_min_from(segs, q, i, hi) == spec_seg_dist2(segs[i], q));
    }
}

/// Every range minimum stays at or below the seed.
pub proof fn lemma_min_from_le_inf(segs: Seq<Segment>, q: Point, i: int, hi: int)
    ensures
        spec_min_from(segs, q, i, hi) <= INF_D2 as int,
    decreases hi - i,
{
    if i < hi {
        lemma_min_from_le_inf(segs, q, i + 1, hi);
    }
}

/// Splitting a range splits its minimum.
pub proof fn lemma_min_from_split(segs: Seq<Segment>, q: Point, lo: int, mid: int, hi: int)
    requires
        lo <= mid <= hi,
    ensures
        spec_min_from(segs, q, lo, hi) == spec_min(
            spec_min_from(segs, q, lo, mid),
            spec_min_from(segs, q, mid, hi),
        ),
    decreases mid - lo,
{
    if lo < mid {
        lemma_min_from_split(segs, q, lo + 1, mid, hi);
        assert(spec_min_from(segs, q, lo, hi)
            == spec_min(spec_seg_dist2(segs[lo], q), spec_min_from(segs, q, lo + 1, hi)));
        assert(spec_min_from(segs, q, lo, mid)
            == spec_min(spec_seg_dist2(segs[lo], q), spec_min_from(segs, q, lo + 1, mid)));
    } else {
        assert(spec_min_from(segs, q, lo, mid) == INF_D2 as int);
        lemma_min_from_le_inf(segs, q, mid, hi);
    }
}

/// Extending a range at its end takes the minimum with the new member.
pub proof fn lemma_min_from_snoc(segs: Seq<Segment>, q: Point, lo: int, j: int)
    requires
        lo <= j,
    ensures
        spec_min_from(segs, q, lo, j + 1) == spec_min(
            spec_min_from(segs, q, lo, j),
            spec_seg_dist2(segs[j], q),
        ),
    decreases j - lo,
{
    if lo < j {
        lemma_min_from_snoc(segs, q, lo + 1, j);
        assert(spec_min_from(segs, q, lo, j + 1)
            == spec_min(spec_seg_dist2(segs[lo], q), spec_min_from(segs, q, lo + 1, j + 1)));
        assert(spec_min_from(segs, q, lo, j)
            == spec_min(spec_seg_dist2(segs[lo], q), spec_min_from(segs, q, lo + 1, j)));
    } else {
        assert(spec_min_from(segs, q, j + 1, j + 1) == INF_D2 as int);
        assert(spec_min_from(segs, q, lo, j + 1)
            == spec_min(spec_seg_dist2(segs[j], q), INF_D2 as int));
    }
}

/// Computes the least squared segment distance over the range `[lo, hi)`.
pub fn min_segments_distance2(segments: &Vec<Segment>, lo: usize, hi: usize, point: &Point) -> (d2: u64)
    requires
        lo <= hi <= segments@.len(),
        forall|k: int| lo <= k < hi ==> (#[trigger] segments@[k]).wf(),
        point.wf(),
    ensures
        d2 == spec_min_from(segments@, *point, lo as int, hi as int),
        d2 <= INF_D2,
{
    let mut best: u64 = INF_D2;
    let mut j: usize = lo;
    while j < hi
        invariant
            lo <= j <= hi <= segments@.len(),
            forall|k: int| lo <= k < hi ==> (#[trigger] segments@[k]).wf(),
            point.wf(),
            best == spec_min_from(segments@, *point, lo as int, j as int),
            best <= INF_D2,
        decreases hi - j,
    {
        let d = min_segment_distance2(&segments[j], point);
        proof {
            lemma_min_from_snoc(segments@, *point, lo as int, j as int);
        }
        if d < best {
            best = d;
        }
        j = j + 1;
    }
    best
}

} // verus!

verus! {

/// One node of the index arena: every node knows the segment range it
/// covers; an internal node also names its two children, which sit earlier
/// in the arena.
#[derive(Clone, Copy, Debug)]
pub struct IndexNode {
    pub bbox: Bbox,
    pub lo: usize,
    pub hi: usize,
    pub left: usize,
    pub right: usize,
    pub is_leaf: bool,
}

/// Every segment of the sequence is well formed.
pub open spec fn seg_all_wf(segs: Seq<Segment>) -> bool {
    forall|k: int| 0 <= k < segs.len() ==> (#[trigger] segs[k]).wf()
}

/// Every bound of the box is attained by an endpoint of the segment
/// range: together with `spec_contains` of every endpoint this makes the
/// box the tight bound of the range.
pub open spec fn spec_bbox_attained(b: Bbox, segs: Seq<Segment>, lo: int, hi: int) -> bool {
    &&& exists|i: int| lo <= i < hi
        && ((#[trigger] segs[i]).p0.x == b.x_min || segs[i].p1.x == b.x_min)
    &&& exists|i: int| lo <= i < hi
        && ((#[trigger] segs[i]).p0.x == b.x_max || segs[i].p1.x == b.x_max)
    &&& exists|i: int| lo <= i < hi
        && ((#[trigger] segs[i]).p0.y == b.y_min || segs[i].p1.y == b.y_min)
    &&& exists|i: int| lo <= i < hi
        && ((#[trigger] segs[i]).p0.y == b.y_max || segs[i].p1.y == b.y_max)
}

/// Well-formedness of one arena node: a nonempty segment range, a box that
/// is the tight bound of the range's endpoints (it holds every one and
/// attains each of its four bounds), and, for an internal node, two
/// earlier children whose ranges partition its own.
pub open spec fn node_wf(nodes: Seq<IndexNode>, segs: Seq<Segment>, k: int) -> bool {
    let n = nodes[k];
    &&& 0 <= n.lo < n.hi <= segs.len()
    &&& n.bbox.wf()
    &&& forall|i: int| n.lo <= i < n.hi
        ==> n.bbox.spec_contains((#[trigger] segs[i]).p0) && n.bbox.spec_contains(segs[i].p1)
    &&& spec_bbox_attained(n.bbox, segs, n.lo as int, n.hi as int)
    &&& !n.is_leaf ==> {
        &&& n.left < k
        &&& n.right < k
        &&& nodes[n.left as int].lo == n.lo
        &&& nodes[n.left as int].hi == nodes[n.right as int].lo
        &&& nodes[n.right as int].hi == n.hi
    }
}

/// The partition discriminator: the segment midpoint lies left of (or
/// below) the split line.
pub open spec fn spec_part_pred(s: Segment, by_x: bool, c: i64) -> bool {
    if by_x { s.cx < c } else { s.cy < c }
}

/// A box that holds every endpoint of a segment sequence keeps doing so
/// through any permutation of the sequence.
proof fn lemma_bbox_range_preserved(b: Bbox, s_old: Seq<Segment>, s_new: Seq<Segment>)
    requires
        s_old.to_multiset() == s_new.to_multiset(),
        forall|i: int| 0 <= i < s_old.len()
            ==> b.spec_contains((#[trigger] s_old[i]).p0) && b.spec_contains(s_old[i].p1),
    ensures
        forall|i: int| 0 <= i < s_new.len()
            ==> b.spec_contains((#[trigger] s_new[i]).p0) && b.spec_contains(s_new[i].p1),
{
    assert forall|i: int| 0 <= i < s_new.len()
        implies b.spec_contains((#[trigger] s_new[i]).p0) && b.spec_contains(s_new[i].p1) by {
        s_new.to_multiset_ensures();
        s_old.to_multiset_ensures();
        assert(s_new.contains(s_new[i]));
        assert(s_old.to_multiset().count(s_new[i]) > 0);
        assert(s_old.contains(s_new[i]));
        let t = choose|t: int| 0 <= t < s_old.len() && s_old[t] == s_new[i];
        assert(b.spec_contains(s_old[t].p0));
    }
}

/// Attainment of the bounds over a range is the same as over the
/// extracted subrange.
proof fn lemma_attained_shift(b: Bbox, segs: Seq<Segment>, lo: int, hi: int)
    requires
        0 <= lo <= hi <= segs.len(),
    ensures
        spec_bbox_attained(b, segs, lo, hi)
            == spec_bbox_attained(b, segs.subrange(lo, hi), 0, hi - lo),
{
    let sub = segs.subrange(lo, hi);
    if spec_bbox_attained(b, segs, lo, hi) {
        let i1 = choose|i: int| lo <= i < hi
            && ((#[trigger] segs[i]).p0.x == b.x_min || segs[i].p1.x == b.x_min);
        assert(sub[i1 - lo] == segs[i1]);
        let i2 = choose|i: int| lo <= i < hi
            && ((#[trigger] segs[i]).p0.x == b.x_max || segs[i].p1.x == b.x_max);
        assert(sub[i2 - lo] == segs[i2]);
        let i3 = choose|i: int| lo <= i < hi
            && ((#[trigger] segs[i]).p0.y == b.y_min || segs[i].p1.y == b.y_min);
        assert(sub[i3 - lo] == segs[i3]);
        let i4 = choose|i: int| lo <= i < hi
            && ((#[trigger] segs[i]).p0.y == b.y_max || segs[i].p1.y == b.y_max);
        assert(sub[i4 - lo] == segs[i4]);
        assert(spec_bbox_attained(b, sub, 0, hi - lo));
    }
    if spec_bbox_attained(b, sub, 0, hi - lo) {
        let i1 = choose|i: int| 0 <= i < hi - lo
            && ((#[trigger] sub[i]).p0.x == b.x_min || sub[i].p1.x == b.x_min);
        assert(segs[i1 + lo] == sub[i1]);
        let i2 = choose|i: int| 0 <= i < hi - lo
            && ((#[trigger] sub[i]).p0.x == b.x_max || sub[i].p1.x == b.x_max);
        assert(segs[i2 + lo] == sub[i2]);
        let i3 = choose|i: int| 0 <= i < hi - lo
            && ((#[trigger] sub[i]).p0.y == b.y_min || sub[i].p1.y == b.y_min);
        assert(segs[i3 + lo] == sub[i3]);
        let i4 = choose|i: int| 0 <= i < hi - lo
            && ((#[trigger] sub[i]).p0.y == b.y_max || sub[i].p1.y == b.y_max);
        assert(segs[i4 + lo] == sub[i4]);
        assert(spec_bbox_attained(b, segs, lo, hi));
    }
}

/// Attainment of the bounds survives any permutation of the segments.
proof fn lemma_attained_preserved(b: Bbox, s_old: Seq<Segment>, s_new: Seq<Segment>)
    requires
        s_old.to_multiset() == s_new.to_multiset(),
        spec_bbox_attained(b, s_old, 0, s_old.len() as int),
    ensures
        spec_bbox_attained(b, s_new, 0, s_new.len() as int),
{
    s_new.to_multiset_ensures();
    s_old.to_multiset_ensures();
    let i1 = choose|i: int| 0 <= i < s_old.len()
        && ((#[trigger] s_old[i]).p0.x == b.x_min || s_old[i].p1.x == b.x_min);
    assert(s_old.contains(s_old[i1]));
    assert(s_new.to_multiset().count(s_old[i1]) > 0);
    assert(s_new.contains(s_old[i1]));
    let t1 = choose|t: int| 0 <= t < s_new.len() && s_new[t] == s_old[i1];
    assert(s_new[t1].p0.x == b.x_min || s_new[t1].p1.x == b.x_min);
    let i2 = choose|i: int| 0 <= i < s_old.len()
        && ((#[trigger] s_old[i]).p0.x == b.x_max || s_old[i].p1.x == b.x_max);
    assert(s_old.contains(s_old[i2]));
    assert(s_new.to_multiset().count(s_old[i2]) > 0);
    assert(s_new.contains(s_old[i2]));
    let t2 = choose|t: int| 0 <= t < s_new.len() && s_new[t] == s_old[i2];
    assert(s_new[t2].p0.x == b.x_max || s_new[t2].p1.x == b.x_max);
    let i3 = choose|i: int| 0 <= i < s_old.len()
        && ((#[trigger] s_old[i]).p0.y == b.y_min || s_old[i].p1.y == b.y_min);
    assert(s_old.contains(s_old[i3]));
    assert(s_new.to_multiset().count(s_old[i3]) > 0);
    assert(s_new.contains(s_old[i3]));
    let t3 = choose|t: int| 0 <= t < s_new.len() && s_new[t] == s_old[i3];
    assert(s_new[t3].p0.y == b.y_min || s_new[t3].p1.y == b.y_min);
    let i4 = choose|i: int| 0 <= i < s_old.len()
        && ((#[trigger] s_old[i]).p0.y == b.y_max || s_old[i].p1.y == b.y_max);
    assert(s_old.contains(s_old[i4]));
    assert(s_new.to_multiset().count(s_old[i4]) > 0);
    assert(s_new.contains(s_old[i4]));
    let t4 = choose|t: int| 0 <= t < s_new.len() && s_new[t] == s_old[i4];
    assert(s_new[t4].p0.y == b.y_max || s_new[t4].p1.y == b.y_max);
}

/// Taking one more segment into the box keeps every bound attained.
proof fn lemma_attained_step(b0: Bbox, b: Bbox, segs: Seq<Segment>, lo: int, i: int)
    requires
        0 <= lo <= i < segs.len(),
        segs[i].wf(),
        b == b0.spec_add_point(segs[i].p0).spec_add_point(segs[i].p1),
        i > lo ==> spec_bbox_attained(b0, segs, lo, i),
        i == lo ==> b0.x_min == X_LIMIT && b0.y_min == Y_LIMIT
            && b0.x_max == -X_LIMIT && b0.y_max == -Y_LIMIT,
    ensures
        spec_bbox_attained(b, segs, lo, i + 1),
{
    let p0 = segs[i].p0;
    let p1 = segs[i].p1;
    if b.x_min == p0.x || b.x_min == p1.x {
        assert(lo <= i < i + 1 && (segs[i].p0.x == b.x_min || segs[i].p1.x == b.x_min));
    } else {
        let j = choose|j: int| lo <= j < i
            && ((#[trigger] segs[j]).p0.x == b0.x_min || segs[j].p1.x == b0.x_min);
        assert(segs[j].p0.x == b.x_min || segs[j].p1.x == b.x_min);
    }
    if b.x_max == p0.x || b.x_max == p1.x {
        assert(lo <= i < i + 1 && (segs[i].p0.x == b.x_max || segs[i].p1.x == b.x_max));
    } else {
        let j = choose|j: int| lo <= j < i
            && ((#[trigger] segs[j]).p0.x == b0.x_max || segs[j].p1.x == b0.x_max);
        assert(segs[j].p0.x == b.x_max || segs[j].p1.x == b.x_max);
    }
    if b.y_min == p0.y || b.y_min == p1.y {
        assert(lo <= i < i + 1 && (segs[i].p0.y == b.y_min || segs[i].p1.y == b.y_min));
    } else {
        let j = choose|j: int| lo <= j < i
            && ((#[trigger] segs[j]).p0.y == b0.y_min || segs[j].p1.y == b0.y_min);
        assert(segs[j].p0.y == b.y_min || segs[j].p1.y == b.y_min);
    }
    if b.y_max == p0.y || b.y_max == p1.y {
        assert(lo <= i < i + 1 && (segs[i].p0.y == b.y_max || segs[i].p1.y == b.y_max));
    } else {
        let j = choose|j: int| lo <= j < i
            && ((#[trigger] segs[j]).p0.y == b0.y_max || segs[j].p1.y == b0.y_max);
        assert(segs[j].p0.y == b.y_max || segs[j].p1.y == b.y_max);
    }
}

/// Node well-formedness only reads the arena up to the node and the
/// segments of the node's own range, so it survives growth elsewhere.
proof fn lemma_node_wf_frame(
    nodes1: Seq<IndexNode>,
    segs1: Seq<Segment>,
    nodes2: Seq<IndexNode>,
    segs2: Seq<Segment>,
    k: int,
)
    requires
        0 <= k < nodes1.len(),
        node_wf(nodes1, segs1, k),
        nodes1.len() <= nodes2.len(),
        forall|j: int| 0 <= j <= k ==> nodes2[j] == nodes1[j],
        segs1.len() == segs2.len(),
        forall|i: int| nodes1[k].lo <= i < nodes1[k].hi ==> segs2[i] == segs1[i],
    ensures
        node_wf(nodes2, segs2, k),
{
    let n = nodes1[k];
    assert forall|i: int| n.lo <= i < n.hi
        implies n.bbox.spec_contains((#[trigger] segs2[i]).p0) && n.bbox.spec_contains(segs2[i].p1) by {
        assert(segs2[i] == segs1[i]);
    }
    let b = n.bbox;
    let i1 = choose|i: int| n.lo <= i < n.hi
        && ((#[trigger] segs1[i]).p0.x == b.x_min || segs1[i].p1.x == b.x_min);
    assert(segs2[i1] == segs1[i1]);
    assert(segs2[i1].p0.x == b.x_min || segs2[i1].p1.x == b.x_min);
    let i2 = choose|i: int| n.lo <= i < n.hi
        && ((#[trigger] segs1[i]).p0.x == b.x_max || segs1[i].p1.x == b.x_max);
    assert(segs2[i2] == segs1[i2]);
    assert(segs2[i2].p0.x == b.x_max || segs2[i2].p1.x == b.x_max);
    let i3 = choose|i: int| n.lo <= i < n.hi
        && ((#[trigger] segs1[i]).p0.y == b.y_min || segs1[i].p1.y == b.y_min);
    assert(segs2[i3] == segs1[i3]);
    assert(segs2[i3].p0.y == b.y_min || segs2[i3].p1.y == b.y_min);
    let i4 = choose|i: int| n.lo <= i < n.hi
        && ((#[trigger] segs1[i]).p0.y == b.y_max || segs1[i].p1.y == b.y_max);
    assert(segs2[i4] == segs1[i4]);
    assert(segs2[i4].p0.y == b.y_max || segs2[i4].p1.y == b.y_max);
}

/// The bounding box of a range of segments.
fn bbox_of_range(segments: &Vec<Segment>, lo: usize, hi: usize) -> (b: Bbox)
    requires
        lo <= hi <= segments@.len(),
        forall|k: int| lo <= k < hi ==> (#[trigger] segments@[k]).wf(),
    ensures
        b.wf(),
        forall|i: int| lo <= i < hi
            ==> b.spec_contains((#[trigger] segments@[i]).p0) && b.spec_contains(segments@[i].p1),
        lo < hi ==> spec_bbox_attained(b, segments@, lo as int, hi as int),
{
    let mut b = Bbox::new();
    let mut i: usize = lo;
    while i < hi
        invariant
            lo <= i <= hi <= segments@.len(),
            forall|k: int| lo <= k < hi ==> (#[trigger] segments@[k]).wf(),
            b.wf(),
            forall|j: int| lo <= j < i
                ==> b.spec_contains((#[trigger] segments@[j]).p0) && b.spec_contains(segments@[j].p1),
            i == lo ==> b.x_min == X_LIMIT && b.y_min == Y_LIMIT
                && b.x_max == -X_LIMIT && b.y_max == -Y_LIMIT,
            lo < i ==> spec_bbox_attained(b, segments@, lo as int, i as int),
        decreases hi - i,
    {
        let ghost b0 = b;
        b.add_point(&segments[i].p0);
        b.add_point(&segments[i].p1);
        proof {
            lemma_attained_step(b0, b, segments@, lo as int, i as int);
        }
        i = i + 1;
    }
    b
}

/// Reorders the range `[lo, hi)` so that segments satisfying the partition
/// predicate come first; returns the split position.
fn partition_range(segments: &mut Vec<Segment>, lo: usize, hi: usize, by_x: bool, c: i64) -> (mid: usize)
    requires
        lo <= hi <= old(segments)@.len(),
        seg_all_wf(old(segments)@),
    ensures
        final(segments)@.len() == old(segments)@.len(),
        seg_all_wf(final(segments)@),
        lo <= mid <= hi,
        forall|j: int| 0 <= j < lo ==> final(segments)@[j] == old(segments)@[j],
        forall|j: int| hi <= j < old(segments)@.len() ==> final(segments)@[j] == old(segments)@[j],
        final(segments)@.subrange(lo as int, hi as int).to_multiset()
            == old(segments)@.subrange(lo as int, hi as int).to_multiset(),
        forall|j: int| lo <= j < mid ==> spec_part_pred(#[trigger] final(segments)@[j], by_x, c),
        forall|j: int| mid <= j < hi ==> !spec_part_pred(#[trigger] final(segments)@[j], by_x, c),
{
    let ghost orig = segments@;
    let mut left: Vec<Segment> = Vec::new();
    let mut right: Vec<Segment> = Vec::new();
    proof {
        left@.to_multiset_ensures();
        right@.to_multiset_ensures();
        orig.subrange(lo as int, lo as int).to_multiset_ensures();
        assert(orig.subrange(lo as int, lo as int) =~= Seq::<Segment>::empty());
        assert(left@.to_multiset().add(right@.to_multiset())
            =~= orig.subrange(lo as int, lo as int).to_multiset());
    }
    let mut j: usize = lo;
    while j < hi
        invariant
            lo <= j <= hi <= segments@.len(),
            segments@ == orig,
            seg_all_wf(orig),
            left@.to_multiset().add(right@.to_multiset())
                == orig.subrange(lo as int, j as int).to_multiset(),
            left@.len() + right@.len() == j - lo,
            forall|t: int| 0 <= t < left@.len() ==> spec_part_pred(#[trigger] left@[t], by_x, c),
            forall|t: int| 0 <= t < right@.len() ==> !spec_part_pred(#[trigger] right@[t], by_x, c),
            forall|t: int| 0 <= t < left@.len() ==> (#[trigger] left@[t]).wf(),
            forall|t: int| 0 <= t < right@.len() ==> (#[trigger] right@[t]).wf(),
        decreases hi - j,
    {
        let s = segments[j];
        let take = if by_x { s.cx < c } else { s.cy < c };
        proof {
            left@.to_multiset_ensures();
            right@.to_multiset_ensures();
            assert(orig.subrange(lo as int, j + 1int)
                == orig.subrange(lo as int, j as int).push(orig[j as int]));
            orig.subrange(lo as int, j as int).to_multiset_ensures();
        }
        if take {
            left.push(s);
        } else {
            right.push(s);
        }
        j = j + 1;
    }
    let nl = left.len();
    let nr = right.len();
    let mut k: usize = 0;
    while k < nl
        invariant
            k <= nl,
            nl == left@.len(),
            nr == right@.len(),
            nl + nr == hi - lo,
            lo <= hi <= segments@.len(),
            segments@.len() == orig.len(),
            forall|t: int| 0 <= t < lo ==> segments@[t] == orig[t],
            forall|t: int| hi <= t < orig.len() ==> segments@[t] == orig[t],
            forall|t: int| 0 <= t < k ==> segments@[lo + t] == left@[t],
            forall|t: int| 0 <= t < left@.len() ==> (#[trigger] left@[t]).wf(),
            forall|t: int| 0 <= t < right@.len() ==> (#[trigger] right@[t]).wf(),
            forall|t: int| lo + k <= t < hi ==> (#[trigger] segments@[t]).wf(),
        decreases nl - k,
    {
        segments[lo + k] = left[k];
        k = k + 1;
    }
    let mut k: usize = 0;
    while k < nr
        invariant
            k <= nr,
            nl == left@.len(),
            nr == right@.len(),
            nl + nr == hi - lo,
            lo <= hi <= segments@.len(),
            segments@.len() == orig.len(),
            forall|t: int| 0 <= t < lo ==> segments@[t] == orig[t],
            forall|t: int| hi <= t < orig.len() ==> segments@[t] == orig[t],
            forall|t: int| 0 <= t < nl ==> segments@[lo + t] == left@[t],
            forall|t: int| 0 <= t < k ==> segments@[lo + nl + t] == right@[t],
            forall|t: int| 0 <= t < left@.len() ==> (#[trigger] left@[t]).wf(),
            forall|t: int| 0 <= t < right@.len() ==> (#[trigger] right@[t]).wf(),
            forall|t: int| lo + nl + k <= t < hi ==> (#[trigger] segments@[t]).wf(),
        decreases nr - k,
    {
        segments[lo + nl + k] = right[k];
        k = k + 1;
    }
    proof {
        assert(segments@.subrange(lo as int, hi as int) =~= left@ + right@);
        vstd::seq_lib::lemma_multiset_commutative(left@, right@);
        assert(orig.subrange(lo as int, hi as int).to_multiset()
            == left@.to_multiset().add(right@.to_multiset()));
        assert forall|t: int| 0 <= t < segments@.len() implies (#[trigger] segments@[t]).wf() by {
            if lo <= t < lo + nl {
                assert(segments@[t] == left@[t - lo]);
                assert(left@[t - lo].wf());
            } else if lo + nl <= t < hi {
                assert(segments@[t] == right@[t - lo - nl]);
                assert(right@[t - lo - nl].wf());
            } else {
                assert(segments@[t] == orig[t]);
                assert(orig[t].wf());
            }
        }
        assert forall|j: int| lo <= j < lo + nl implies spec_part_pred(#[trigger] segments@[j], by_x, c) by {
            assert(segments@[j] == left@[j - lo]);
        }
        assert forall|j: int| lo + nl <= j < hi implies !spec_part_pred(#[trigger] segments@[j], by_x, c) by {
            assert(segments@[j] == right@[j - lo - nl]);
        }
    }
    lo + nl
}

} // verus!

verus! {

/// Builds the subtree over the segment range `[lo, hi)`, appending its
/// nodes to the arena; the subtree's root is the last node appended.
/// Splits around the box centre along the longer box dimension; a split
/// that leaves one side empty makes the node a leaf over the whole range.
fn build_node(segments: &mut Vec<Segment>, nodes: &mut Vec<IndexNode>, lo: usize, hi: usize) -> (idx: usize)
    requires
        lo < hi <= old(segments)@.len(),
        seg_all_wf(old(segments)@),
        forall|k: int| 0 <= k < old(nodes)@.len()
            ==> node_wf(old(nodes)@, old(segments)@, k) && (#[trigger] old(nodes)@[k]).hi <= lo,
    ensures
        final(segments)@.len() == old(segments)@.len(),
        seg_all_wf(final(segments)@),
        forall|j: int| 0 <= j < lo ==> final(segments)@[j] == old(segments)@[j],
        forall|j: int| hi <= j < old(segments)@.len() ==> final(segments)@[j] == old(segments)@[j],
        final(segments)@.subrange(lo as int, hi as int).to_multiset()
            == old(segments)@.subrange(lo as int, hi as int).to_multiset(),
        final(nodes)@.len() > old(nodes)@.len(),
        forall|k: int| 0 <= k < old(nodes)@.len() ==> final(nodes)@[k] == old(nodes)@[k],
        idx == final(nodes)@.len() - 1,
        final(nodes)@[idx as int].lo == lo && final(nodes)@[idx as int].hi == hi,
        forall|k: int| old(nodes)@.len() <= k < final(nodes)@.len()
            ==> lo <= (#[trigger] final(nodes)@[k]).lo && final(nodes)@[k].hi <= hi,
        forall|k: int| 0 <= k < final(nodes)@.len() ==> node_wf(final(nodes)@, final(segments)@, k),
    decreases hi - lo,
{
    let ghost segs0 = segments@;
    let ghost nodes0 = nodes@;
    let bbox = bbox_of_range(segments, lo, hi);
    let center = bbox.center();
    let by_x = bbox.width() > bbox.height();
    let c = if by_x { center.x } else { center.y };
    let mid = partition_range(segments, lo, hi, by_x, c);
    let ghost segs1 = segments@;
    proof {
        assert(segs0.subrange(lo as int, hi as int).to_multiset()
            == segs1.subrange(lo as int, hi as int).to_multiset());
        lemma_bbox_range_preserved(
            bbox,
            segs0.subrange(lo as int, hi as int),
            segs1.subrange(lo as int, hi as int),
        );
        lemma_attained_shift(bbox, segs0, lo as int, hi as int);
        lemma_attained_preserved(
            bbox,
            segs0.subrange(lo as int, hi as int),
            segs1.subrange(lo as int, hi as int),
        );
        lemma_attained_shift(bbox, segs1, lo as int, hi as int);
        assert(spec_bbox_attained(bbox, segs1, lo as int, hi as int));
        assert forall|k: int| 0 <= k < nodes@.len()
            implies node_wf(nodes@, segs1, k) && (#[trigger] nodes@[k]).hi <= lo by {
            lemma_node_wf_frame(nodes0, segs0, nodes@, segs1, k);
        }
    }
    if mid == lo || mid == hi {
        let node = IndexNode { bbox, lo, hi, left: 0, right: 0, is_leaf: true };
        let ghost nodes1 = nodes@;
        nodes.push(node);
        let idx = nodes.len() - 1;
        proof {
            assert forall|k: int| 0 <= k < nodes@.len()
                implies node_wf(nodes@, segments@, k) by {
                if k < nodes1.len() {
                    lemma_node_wf_frame(nodes1, segs1, nodes@, segments@, k);
                } else {
                    assert(nodes@[k] == node);
                    assert forall|i: int| lo <= i < hi
                        implies bbox.spec_contains((#[trigger] segments@[i]).p0)
                            && bbox.spec_contains(segments@[i].p1) by {
                        assert(segments@[i] == segs1.subrange(lo as int, hi as int)[i - lo]);
                    }
                }
            }
        }
        idx
    } else {
        let il = build_node(segments, nodes, lo, mid);
        let ghost segs2 = segments@;
        let ghost nodes2 = nodes@;
        let ir = build_node(segments, nodes, mid, hi);
        let ghost segs3 = segments@;
        let ghost nodes3 = nodes@;
        proof {
            // The left child's root is untouched by the right build.
            assert(nodes3[il as int] == nodes2[il as int]);
            // Multiset of the whole range is preserved across both builds.
            assert(segs1.subrange(lo as int, hi as int)
                =~= segs1.subrange(lo as int, mid as int) + segs1.subrange(mid as int, hi as int));
            assert(segs2.subrange(lo as int, hi as int)
                =~= segs2.subrange(lo as int, mid as int) + segs2.subrange(mid as int, hi as int));
            assert(segs3.subrange(lo as int, hi as int)
                =~= segs3.subrange(lo as int, mid as int) + segs3.subrange(mid as int, hi as int));
            vstd::seq_lib::lemma_multiset_commutative(
                segs1.subrange(lo as int, mid as int),
                segs1.subrange(mid as int, hi as int),
            );
            vstd::seq_lib::lemma_multiset_commutative(
                segs2.subrange(lo as int, mid as int),
                segs2.subrange(mid as int, hi as int),
            );
            vstd::seq_lib::lemma_multiset_commutative(
                segs3.subrange(lo as int, mid as int),
                segs3.subrange(mid as int, hi as int),
            );
            assert(segs2.subrange(mid as int, hi as int) =~= segs1.subrange(mid as int, hi as int));
            assert(segs3.subrange(lo as int, mid as int) =~= segs2.subrange(lo as int, mid as int));
            assert(segs3.subrange(lo as int, hi as int).to_multiset()
                == segs1.subrange(lo as int, hi as int).to_multiset());
            lemma_bbox_range_preserved(
                bbox,
                segs1.subrange(lo as int, hi as int),
                segs3.subrange(lo as int, hi as int),
            );
            lemma_attained_shift(bbox, segs1, lo as int, hi as int);
            lemma_attained_preserved(
                bbox,
                segs1.subrange(lo as int, hi as int),
                segs3.subrange(lo as int, hi as int),
            );
            lemma_attained_shift(bbox, segs3, lo as int, hi as int);
            assert(spec_bbox_attained(bbox, segs3, lo as int, hi as int));
        }
        let node = IndexNode { bbox, lo, hi, left: il, right: ir, is_leaf: false };
        let ghost nodes_before = nodes@;
        nodes.push(node);
        let idx = nodes.len() - 1;
        proof {
            assert forall|k: int| 0 <= k < nodes@.len()
                implies node_wf(nodes@, segments@, k) by {
                if k < nodes_before.len() {
                    lemma_node_wf_frame(nodes_before, segs3, nodes@, segments@, k);
                } else {
                    assert(nodes@[k] == node);
                    assert forall|i: int| lo <= i < hi
                        implies bbox.spec_contains((#[trigger] segments@[i]).p0)
                            && bbox.spec_contains(segments@[i].p1) by {
                        assert(segments@[i] == segs3.subrange(lo as int, hi as int)[i - lo]);
                    }
                    assert(nodes@[il as int].lo == lo);
                    assert(nodes@[il as int].hi == mid);
                    assert(nodes@[ir as int].lo == mid);
                    assert(nodes@[ir as int].hi == hi);
                }
            }
        }
        idx
    }
}

/// The balanced spatial index over boundary segments: the segments in index
/// order and the node arena, whose last node is the root.
#[derive(Debug)]
pub struct SegmentIndex {
    pub segments: Vec<Segment>,
    pub nodes: Vec<IndexNode>,
}

impl SegmentIndex {
    /// A built index: every node well formed, and the root covering all
    /// segments.  An index over no segments has no nodes.
    pub open spec fn wf(self) -> bool {
        &&& seg_all_wf(self.segments@)
        &&& self.segments@.len() <= 0x1000000000000000
        &&& (self.nodes@.len() == 0 <==> self.segments@.len() == 0)
        &&& forall|k: int| 0 <= k < self.nodes@.len() ==> node_wf(self.nodes@, self.segments@, k)
        &&& self.nodes@.len() > 0 ==> {
            &&& self.nodes@[self.nodes@.len() - 1].lo == 0
            &&& self.nodes@[self.nodes@.len() - 1].hi == self.segments@.len()
        }
    }

    /// Builds the index over a list of segments, which it keeps in
    /// partition order: the stored segments are a permutation of the given
    /// ones.
    pub fn build(segments: Vec<Segment>) -> (index: SegmentIndex)
        requires
            seg_all_wf(segments@),
            segments@.len() <= 0x1000000000000000,
        ensures
            index.wf(),
            index.segments@.to_multiset() == segments@.to_multiset(),
            index.segments@.len() == segments@.len(),
    {
        let ghost orig = segments@;
        let mut segments = segments;
        let mut nodes: Vec<IndexNode> = Vec::new();
        if segments.len() == 0 {
            let index = SegmentIndex { segments, nodes };
            return index;
        }
        let n = segments.len();
        build_node(&mut segments, &mut nodes, 0, n);
        proof {
            assert(segments@.subrange(0, n as int) =~= segments@);
            assert(orig.subrange(0, n as int) =~= orig);
        }
        SegmentIndex { segments, nodes }
    }
}

} // verus!

verus! {

/// The priority key a node carries in the search queue: exact for a leaf,
/// the box lower bound for an internal node.
pub open spec fn spec_node_key(nodes: Seq<IndexNode>, segs: Seq<Segment>, q: Point, k: int) -> int {
    if nodes[k].is_leaf {
        spec_min_from(segs, q, nodes[k].lo as int, nodes[k].hi as int)
    } else {
        spec_bbox_dist2(nodes[k].bbox, q)
    }
}

/// A sound queue entry: a real node whose key never overestimates the
/// least distance within the node's range.
pub open spec fn spec_entry_ok(nodes: Seq<IndexNode>, segs: Seq<Segment>, q: Point, e: (u64, usize)) -> bool {
    &&& (e.1 as int) < nodes.len()
    &&& e.0 == spec_node_key(nodes, segs, q, e.1 as int)
    &&& e.0 as int <= spec_min_from(segs, q, nodes[e.1 as int].lo as int, nodes[e.1 as int].hi as int)
    &&& e.0 <= INF_D2
}

/// Segment position `j` lies in the range of some queued node.
pub open spec fn spec_queue_covers(queue: Seq<(u64, usize)>, nodes: Seq<IndexNode>, j: int) -> bool {
    exists|k: int| 0 <= k < queue.len()
        && nodes[(#[trigger] queue[k]).1 as int].lo <= j < nodes[queue[k].1 as int].hi
}

/// Number of nodes in the subtree rooted at `k`, counted defensively: a
/// malformed node counts as one.
pub open spec fn spec_subtree_count(nodes: Seq<IndexNode>, k: int) -> nat
    decreases k,
{
    if 0 <= k < nodes.len() && !nodes[k].is_leaf && nodes[k].left < k && nodes[k].right < k {
        1 + spec_subtree_count(nodes, nodes[k].left as int) + spec_subtree_count(nodes, nodes[k].right as int)
    } else {
        1
    }
}

/// Total subtree weight of a queue.
pub open spec fn spec_queue_weight(nodes: Seq<IndexNode>, queue: Seq<(u64, usize)>) -> nat
    decreases queue.len(),
{
    if queue.len() == 0 {
        0
    } else {
        spec_subtree_count(nodes, queue[0].1 as int) + spec_queue_weight(nodes, queue.drop_first())
    }
}

/// A subtree over a well-formed arena has fewer than twice as many nodes
/// as segments in its range.
proof fn lemma_subtree_count_bound(nodes: Seq<IndexNode>, segs: Seq<Segment>, k: int)
    requires
        0 <= k < nodes.len(),
        forall|t: int| 0 <= t < nodes.len() ==> node_wf(nodes, segs, t),
    ensures
        spec_subtree_count(nodes, k) <= 2 * (nodes[k].hi - nodes[k].lo) - 1,
    decreases k,
{
    assert(node_wf(nodes, segs, k));
    if !nodes[k].is_leaf {
        assert(nodes[k].left < k && nodes[k].right < k);
        lemma_subtree_count_bound(nodes, segs, nodes[k].left as int);
        lemma_subtree_count_bound(nodes, segs, nodes[k].right as int);
        assert(node_wf(nodes, segs, nodes[k].left as int));
        assert(node_wf(nodes, segs, nodes[k].right as int));
    }
}

/// Pushing an entry adds its weight.
proof fn lemma_weight_push(nodes: Seq<IndexNode>, queue: Seq<(u64, usize)>, e: (u64, usize))
    ensures
        spec_queue_weight(nodes, queue.push(e))
            == spec_queue_weight(nodes, queue) + spec_subtree_count(nodes, e.1 as int),
    decreases queue.len(),
{
    if queue.len() == 0 {
        assert(queue.push(e)[0] == e);
        assert(queue.push(e).drop_first() =~= Seq::<(u64, usize)>::empty());
        assert(spec_queue_weight(nodes, Seq::<(u64, usize)>::empty()) == 0);
    } else {
        assert(queue.push(e)[0] == queue[0]);
        assert(queue.push(e).drop_first() =~= queue.drop_first().push(e));
        lemma_weight_push(nodes, queue.drop_first(), e);
    }
}

/// Removing an entry takes away its weight.
proof fn lemma_weight_remove(nodes: Seq<IndexNode>, queue: Seq<(u64, usize)>, i: int)
    requires
        0 <= i < queue.len(),
    ensures
        spec_queue_weight(nodes, queue)
            == spec_queue_weight(nodes, queue.remove(i)) + spec_subtree_count(nodes, queue[i].1 as int),
    decreases i,
{
    if i == 0 {
        assert(queue.remove(0) =~= queue.drop_first());
    } else {
        assert(queue.remove(i).drop_first() =~= queue.drop_first().remove(i - 1));
        lemma_weight_remove(nodes, queue.drop_first(), i - 1);
    }
}

/// The least distance over a sub-range is at least the global least
/// distance.
proof fn lemma_min_from_sub(segs: Seq<Segment>, q: Point, lo: int, hi: int)
    requires
        0 <= lo <= hi <= segs.len(),
    ensures
        spec_min_from(segs, q, 0, segs.len() as int) <= spec_min_from(segs, q, lo, hi),
{
    lemma_min_from_split(segs, q, 0, lo, segs.len() as int);
    lemma_min_from_split(segs, q, lo, hi, segs.len() as int);
}

impl SegmentIndex {
    /// Computes the queue key of one node.
    fn node_key(&self, k: usize, point: &Point) -> (key: u64)
        requires
            self.wf(),
            k < self.nodes@.len(),
            point.wf(),
        ensures
            spec_entry_ok(self.nodes@, self.segments@, *point, (key, k)),
    {
        let node = self.nodes[k];
        assert(node_wf(self.nodes@, self.segments@, k as int));
        if node.is_leaf {
            let d = min_segments_distance2(&self.segments, node.lo, node.hi, point);
            proof {
                lemma_min_from_le_inf(self.segments@, *point, node.lo as int, node.hi as int);
            }
            d
        } else {
            let d = bbox_dist2(&node.bbox, point);
            proof {
                lemma_min_from_attained(self.segments@, *point, node.lo as int, node.hi as int);
                let j = choose|j: int| node.lo <= j < node.hi
                    && spec_min_from(self.segments@, *point, node.lo as int, node.hi as int)
                        == spec_seg_dist2(#[trigger] self.segments@[j], *point);
                lemma_bbox_dist2_le_seg(node.bbox, self.segments@[j], *point);
            }
            d
        }
    }

    /// Branch-and-bound nearest-segment search: returns the least squared
    /// segment distance, clamped from above by `max_d2`, together with the
    /// number of nodes taken off the queue.  The search orders the queue by
    /// a lower bound on each subtree's distance and stops as soon as the
    /// smallest queued bound exceeds the best distance found.
    #[verifier::rlimit(100)]
    pub fn min_distance2_visited(&self, point: &Point, max_d2: u64) -> (r: (u64, u64))
        requires
            self.wf(),
            point.wf(),
            max_d2 <= INF_D2,
        ensures
            r.0 as int == spec_min(
                max_d2 as int,
                spec_min_from(self.segments@, *point, 0, self.segments@.len() as int),
            ),
            self.nodes@.len() > 0
                ==> r.1 <= spec_subtree_count(self.nodes@, self.nodes@.len() - 1),
    {
        let ghost segs = self.segments@;
        let ghost nodes = self.nodes@;
        let ghost q = *point;
        let ghost global = spec_min_from(segs, q, 0, segs.len() as int);
        if self.nodes.len() == 0 {
            assert(segs.len() == 0);
            assert(global == INF_D2 as int);
            return (max_d2, 0);
        }
        let root = self.nodes.len() - 1;
        let ghost rootcount = spec_subtree_count(nodes, root as int);
        proof {
            lemma_subtree_count_bound(nodes, segs, root as int);
        }
        let rootkey = self.node_key(root, point);
        let mut queue: Vec<(u64, usize)> = Vec::new();
        queue.push((rootkey, root));
        proof {
            lemma_weight_push(nodes, Seq::empty(), (rootkey, root));
        }
        let mut best: u64 = max_d2;
        let mut pops: u64 = 0;
        while queue.len() > 0
            invariant_except_break
                self.wf(),
                point.wf(),
                segs == self.segments@,
                nodes == self.nodes@,
                q == *point,
                global == spec_min_from(segs, q, 0, segs.len() as int),
                root as int == nodes.len() - 1,
                rootcount == spec_subtree_count(nodes, root as int),
                rootcount <= 0x2000000000000000,
                max_d2 <= INF_D2,
                best <= max_d2,
                spec_min(max_d2 as int, global) <= best as int,
                forall|k: int| 0 <= k < queue@.len()
                    ==> spec_entry_ok(nodes, segs, q, #[trigger] queue@[k]),
                forall|j: int| 0 <= j < segs.len()
                    ==> spec_queue_covers(queue@, nodes, j)
                        || best as int <= spec_seg_dist2(#[trigger] segs[j], q),
                pops + spec_queue_weight(nodes, queue@) <= rootcount,
            ensures
                best <= max_d2,
                spec_min(max_d2 as int, global) <= best as int,
                forall|j: int| 0 <= j < segs.len()
                    ==> best as int <= spec_seg_dist2(#[trigger] segs[j], q),
                pops <= rootcount,
            decreases spec_queue_weight(nodes, queue@),
        {
            let mut mi: usize = 0;
            let mut mk: u64 = queue[0].0;
            let mut t: usize = 1;
            while t < queue.len()
                invariant
                    queue@.len() > 0,
                    mi < queue@.len(),
                    mk == queue@[mi as int].0,
                    t <= queue@.len(),
                    forall|l: int| 0 <= l < t ==> mk <= (#[trigger] queue@[l]).0,
                decreases queue@.len() - t,
            {
                if queue[t].0 < mk {
                    mi = t;
                    mk = queue[t].0;
                }
                t = t + 1;
            }
            let ghost queue_before = queue@;
            let e = queue.remove(mi);
            proof {
                lemma_weight_remove(nodes, queue_before, mi as int);
                assert(spec_subtree_count(nodes, e.1 as int) >= 1);
            }
            pops = pops + 1;
            if e.0 > best {
                proof {
                    assert forall|j: int| 0 <= j < segs.len()
                        implies best as int <= spec_seg_dist2(#[trigger] segs[j], q) by {
                        if spec_queue_covers(queue_before, nodes, j) {
                            let k = choose|k: int| 0 <= k < queue_before.len()
                                && nodes[(#[trigger] queue_before[k]).1 as int].lo <= j
                                    < nodes[queue_before[k].1 as int].hi;
                            let e2 = queue_before[k];
                            assert(spec_entry_ok(nodes, segs, q, e2));
                            assert(mk <= e2.0);
                            lemma_min_from_le(
                                segs, q,
                                nodes[e2.1 as int].lo as int,
                                nodes[e2.1 as int].hi as int,
                                j,
                            );
                        }
                    }
                }
                break;
            }
            let node = self.nodes[e.1];
            assert(node_wf(nodes, segs, e.1 as int));
            if node.is_leaf {
                best = e.0;
                proof {
                    lemma_min_from_sub(segs, q, node.lo as int, node.hi as int);
                    assert forall|j: int| 0 <= j < segs.len()
                        implies spec_queue_covers(queue@, nodes, j)
                            || best as int <= spec_seg_dist2(#[trigger] segs[j], q) by {
                        if node.lo <= j < node.hi {
                            lemma_min_from_le(segs, q, node.lo as int, node.hi as int, j);
                        } else if spec_queue_covers(queue_before, nodes, j) {
                            let k = choose|k: int| 0 <= k < queue_before.len()
                                && nodes[(#[trigger] queue_before[k]).1 as int].lo <= j
                                    < nodes[queue_before[k].1 as int].hi;
                            if k != mi as int {
                                let knew = if k < mi as int { k } else { k - 1 };
                                assert(queue@[knew] == queue_before[k]);
                                assert(spec_queue_covers(queue@, nodes, j));
                            }
                        }
                    }
                }
            } else {
                let kl = self.node_key(node.left, point);
                let kr = self.node_key(node.right, point);
                let ghost queue_mid = queue@;
                queue.push((kl, node.left));
                queue.push((kr, node.right));
                proof {
                    lemma_weight_push(nodes, queue_mid, (kl, node.left));
                    lemma_weight_push(nodes, queue_mid.push((kl, node.left)), (kr, node.right));
                    assert(spec_subtree_count(nodes, e.1 as int)
                        == 1 + spec_subtree_count(nodes, node.left as int)
                            + spec_subtree_count(nodes, node.right as int));
                    assert forall|j: int| 0 <= j < segs.len()
                        implies spec_queue_covers(queue@, nodes, j)
                            || best as int <= spec_seg_dist2(#[trigger] segs[j], q) by {
                        if node.lo <= j < node.hi {
                            let li = queue@.len() - 2;
                            let ri = queue@.len() - 1;
                            assert(queue@[li] == (kl, node.left));
                            assert(queue@[ri] == (kr, node.right));
                            if j < nodes[node.left as int].hi {
                                assert(nodes[(queue@[li]).1 as int].lo <= j
                                    < nodes[(queue@[li]).1 as int].hi);
                            } else {
                                assert(nodes[(queue@[ri]).1 as int].lo <= j
                                    < nodes[(queue@[ri]).1 as int].hi);
                            }
                        } else if spec_queue_covers(queue_before, nodes, j) {
                            let k = choose|k: int| 0 <= k < queue_before.len()
                                && nodes[(#[trigger] queue_before[k]).1 as int].lo <= j
                                    < nodes[queue_before[k].1 as int].hi;
                            if k != mi as int {
                                let knew = if k < mi as int { k } else { k - 1 };
                                assert(queue@[knew] == queue_before[k]);
                                assert(spec_queue_covers(queue@, nodes, j));
                            }
                        }
                    }
                }
            }
        }
        proof {
            if segs.len() > 0 {
                lemma_min_from_attained(segs, q, 0, segs.len() as int);
                let j = choose|j: int| 0 <= j < segs.len()
                    && global == spec_seg_dist2(#[trigger] segs[j], q);
                assert(best as int <= spec_seg_dist2(segs[j], q));
            }
        }
        (best, pops)
    }

    /// The least squared segment distance from the point, clamped from
    /// above by `max_d2`.
    pub fn min_distance2(&self, point: &Point, max_d2: u64) -> (d2: u64)
        requires
            self.wf(),
            point.wf(),
            max_d2 <= INF_D2,
        ensures
            d2 as int == spec_min(
                max_d2 as int,
                spec_min_from(self.segments@, *point, 0, self.segments@.len() as int),
            ),
    {
        let r = self.min_distance2_visited(point, max_d2);
        r.0
    }
}

} // verus!
