//! The uniform point-in-polygon lookup grid: each cell of an r-by-r grid
//! over a query region either touches no polygon, is fully covered by one,
//! or lists the polygons that must be tested exactly.
//!
//! For cells not marked covered the grid answer is proved equal to the
//! exact geometry answer.  The covered mark itself is a geometric
//! heuristic (corner containment plus absence of boundary crossings) whose
//! soundness is not proved here; a covered cell simply answers `true`.

use vstd::prelude::*;
use crate::fixed::{X_LIMIT, Y_LIMIT};
use crate::geometry::{
    Point, Bbox, Polygon, Geometry, spec_polygon_contains, spec_geometry_contains,
    lemma_bbox_prune,
};

verus! {

/// One grid cell: untouched, fully covered by some polygon, or carrying
/// the list of polygons to test exactly.
#[derive(Debug)]
pub enum LookupCell {
    Empty,
    Covered,
    Candidates(Vec<usize>),
}

/// The cell is marked covered.
pub open spec fn spec_cell_covered(cell: LookupCell) -> bool {
    match cell {
        LookupCell::Covered => true,
        _ => false,
    }
}

/// The cell's candidate list holds polygon `k`.
pub open spec fn spec_cell_has(cell: LookupCell, k: int) -> bool {
    match cell {
        LookupCell::Candidates(v) => exists|t: int| 0 <= t < v@.len() && v@[t] == k,
        _ => false,
    }
}

/// The uniform containment-acceleration grid over a rectangular region.
#[derive(Debug)]
pub struct ContainmentGrid {
    pub x0: i64,
    pub y0: i64,
    pub cw: i64,
    pub ch: i64,
    pub res: u32,
    pub cells: Vec<LookupCell>,
}

impl ContainmentGrid {
    /// Structural soundness: a full cell array and cell geometry within
    /// the loose coordinate range.
    pub open spec fn wf(self) -> bool {
        &&& 1 <= self.res <= 0x8000
        &&& self.cells@.len() == self.res * self.res
        &&& 1 <= self.cw
        &&& 1 <= self.ch
        &&& -X_LIMIT <= self.x0
        &&& self.x0 + self.res * self.cw <= 2 * X_LIMIT
        &&& -Y_LIMIT <= self.y0
        &&& self.y0 + self.res * self.ch <= 2 * Y_LIMIT
    }

    /// The rectangle of the cell at grid position `(ix, iy)`.
    pub open spec fn spec_cell_bbox(self, ix: int, iy: int) -> Bbox {
        Bbox {
            x_min: (self.x0 + ix * self.cw) as i64,
            y_min: (self.y0 + iy * self.ch) as i64,
            x_max: (self.x0 + (ix + 1) * self.cw) as i64,
            y_max: (self.y0 + (iy + 1) * self.ch) as i64,
        }
    }

    /// The polygon bounding box touches the cell at grid position
    /// `(ix, iy)`.
    pub open spec fn spec_cell_overlap(self, ix: int, iy: int, pb: Bbox) -> bool {
        &&& pb.x_min <= self.x0 + (ix + 1) * self.cw
        &&& self.x0 + ix * self.cw <= pb.x_max
        &&& pb.y_min <= self.y0 + (iy + 1) * self.ch
        &&& self.y0 + iy * self.ch <= pb.y_max
    }

    /// The grid faithfully indexes the polygon list: wherever a cell is
    /// not covered, it lists every polygon whose bounding box touches it,
    /// and a covered mark always names a polygon that passed the coverage
    /// test for that cell.
    pub open spec fn consistent(self, polys: Seq<Polygon>) -> bool {
        &&& forall|ci: int| 0 <= ci < self.cells@.len() ==> match #[trigger] self.cells@[ci] {
            LookupCell::Candidates(v) => forall|t: int| 0 <= t < v@.len()
                ==> (#[trigger] v@[t]) < polys.len(),
            _ => true,
        }
        &&& forall|ix: int, iy: int, k: int|
            #![trigger self.spec_cell_overlap(ix, iy, polys[k].bbox)]
            0 <= ix < self.res && 0 <= iy < self.res && 0 <= k < polys.len()
                && !spec_cell_covered(self.cells@[iy * self.res + ix])
                && self.spec_cell_overlap(ix, iy, polys[k].bbox)
                ==> spec_cell_has(self.cells@[iy * self.res + ix], k)
        &&& forall|ix: int, iy: int|
            #![trigger spec_cell_covered(self.cells@[iy * self.res + ix])]
            0 <= ix < self.res && 0 <= iy < self.res
                && spec_cell_covered(self.cells@[iy * self.res + ix])
                ==> exists|k: int| 0 <= k < polys.len()
                    && spec_polygon_covers_cell(#[trigger] polys[k], self.spec_cell_bbox(ix, iy))
    }
}

} // verus!

verus! {

/// Twice the signed area of the triangle `a`, `b`, `c`.
pub open spec fn spec_orient(ax: int, ay: int, bx: int, by: int, cx: int, cy: int) -> int {
    (bx - ax) * (cy - ay) - (by - ay) * (cx - ax)
}

/// Computes the orientation value for loosely in-range coordinates.
fn orient(ax: i64, ay: i64, bx: i64, by: i64, cx: i64, cy: i64) -> (r: i128)
    requires
        -2 * X_LIMIT <= ax <= 2 * X_LIMIT,
        -2 * Y_LIMIT <= ay <= 2 * Y_LIMIT,
        -2 * X_LIMIT <= bx <= 2 * X_LIMIT,
        -2 * Y_LIMIT <= by <= 2 * Y_LIMIT,
        -2 * X_LIMIT <= cx <= 2 * X_LIMIT,
        -2 * Y_LIMIT <= cy <= 2 * Y_LIMIT,
    ensures
        r == spec_orient(ax as int, ay as int, bx as int, by as int, cx as int, cy as int),
{
    let v1: i128 = (bx as i128) - (ax as i128);
    let v2: i128 = (cy as i128) - (ay as i128);
    let v3: i128 = (by as i128) - (ay as i128);
    let v4: i128 = (cx as i128) - (ax as i128);
    assert(-0x1000000000000000 <= v1 * v2 <= 0x1000000000000000) by (nonlinear_arith)
        requires -0x40000000 <= v1 <= 0x40000000, -0x40000000 <= v2 <= 0x40000000;
    assert(-0x1000000000000000 <= v3 * v4 <= 0x1000000000000000) by (nonlinear_arith)
        requires -0x40000000 <= v3 <= 0x40000000, -0x40000000 <= v4 <= 0x40000000;
    v1 * v2 - v3 * v4
}

/// A collinear point lies within the axis-aligned span of a segment.
pub open spec fn spec_on_span(ax: int, ay: int, bx: int, by: int, cx: int, cy: int) -> bool {
    &&& (if ax <= bx { ax <= cx <= bx } else { bx <= cx <= ax })
    &&& (if ay <= by { ay <= cy <= by } else { by <= cy <= ay })
}

/// The two closed segments `a1 b1` and `a2 b2` share a point: opposite
/// orientations on both sides, or a collinear endpoint within the other
/// segment's span.
pub open spec fn spec_segs_intersect(
    a1x: int, a1y: int, b1x: int, b1y: int,
    a2x: int, a2y: int, b2x: int, b2y: int,
) -> bool {
    let o1 = spec_orient(a1x, a1y, b1x, b1y, a2x, a2y);
    let o2 = spec_orient(a1x, a1y, b1x, b1y, b2x, b2y);
    let o3 = spec_orient(a2x, a2y, b2x, b2y, a1x, a1y);
    let o4 = spec_orient(a2x, a2y, b2x, b2y, b1x, b1y);
    ||| ((o1 > 0 && o2 < 0) || (o1 < 0 && o2 > 0)) && ((o3 > 0 && o4 < 0) || (o3 < 0 && o4 > 0))
    ||| o1 == 0 && spec_on_span(a1x, a1y, b1x, b1y, a2x, a2y)
    ||| o2 == 0 && spec_on_span(a1x, a1y, b1x, b1y, b2x, b2y)
    ||| o3 == 0 && spec_on_span(a2x, a2y, b2x, b2y, a1x, a1y)
    ||| o4 == 0 && spec_on_span(a2x, a2y, b2x, b2y, b1x, b1y)
}

/// Decides segment intersection for loosely in-range coordinates.
fn segs_intersect(
    a1x: i64, a1y: i64, b1x: i64, b1y: i64,
    a2x: i64, a2y: i64, b2x: i64, b2y: i64,
) -> (r: bool)
    requires
        -2 * X_LIMIT <= a1x <= 2 * X_LIMIT,
        -2 * Y_LIMIT <= a1y <= 2 * Y_LIMIT,
        -2 * X_LIMIT <= b1x <= 2 * X_LIMIT,
        -2 * Y_LIMIT <= b1y <= 2 * Y_LIMIT,
        -2 * X_LIMIT <= a2x <= 2 * X_LIMIT,
        -2 * Y_LIMIT <= a2y <= 2 * Y_LIMIT,
        -2 * X_LIMIT <= b2x <= 2 * X_LIMIT,
        -2 * Y_LIMIT <= b2y <= 2 * Y_LIMIT,
    ensures
        r == spec_segs_intersect(
            a1x as int, a1y as int, b1x as int, b1y as int,
            a2x as int, a2y as int, b2x as int, b2y as int,
        ),
{
    let o1 = orient(a1x, a1y, b1x, b1y, a2x, a2y);
    let o2 = orient(a1x, a1y, b1x, b1y, b2x, b2y);
    let o3 = orient(a2x, a2y, b2x, b2y, a1x, a1y);
    let o4 = orient(a2x, a2y, b2x, b2y, b1x, b1y);
    let on2 = |ax: i64, bx: i64, cx: i64| -> (rr: bool)
        ensures rr == (if ax as int <= bx as int { ax as int <= cx as int <= bx as int } else { bx as int <= cx as int <= ax as int })
        { if ax <= bx { ax <= cx && cx <= bx } else { bx <= cx && cx <= ax } };
    if ((o1 > 0 && o2 < 0) || (o1 < 0 && o2 > 0)) && ((o3 > 0 && o4 < 0) || (o3 < 0 && o4 > 0)) {
        return true;
    }
    if o1 == 0 && on2(a1x, b1x, a2x) && on2(a1y, b1y, a2y) {
        return true;
    }
    if o2 == 0 && on2(a1x, b1x, b2x) && on2(a1y, b1y, b2y) {
        return true;
    }
    if o3 == 0 && on2(a2x, b2x, a1x) && on2(a2y, b2y, a1y) {
        return true;
    }
    if o4 == 0 && on2(a2x, b2x, b1x) && on2(a2y, b2y, b1y) {
        return true;
    }
    false
}

/// One edge of the ring touches the cell rectangle's boundary.
pub open spec fn spec_edge_hits_cell(a: Point, b: Point, cell: Bbox) -> bool {
    ||| spec_segs_intersect(a.x as int, a.y as int, b.x as int, b.y as int,
            cell.x_min as int, cell.y_min as int, cell.x_max as int, cell.y_min as int)
    ||| spec_segs_intersect(a.x as int, a.y as int, b.x as int, b.y as int,
            cell.x_max as int, cell.y_min as int, cell.x_max as int, cell.y_max as int)
    ||| spec_segs_intersect(a.x as int, a.y as int, b.x as int, b.y as int,
            cell.x_max as int, cell.y_max as int, cell.x_min as int, cell.y_max as int)
    ||| spec_segs_intersect(a.x as int, a.y as int, b.x as int, b.y as int,
            cell.x_min as int, cell.y_max as int, cell.x_min as int, cell.y_min as int)
}

/// Some edge of some ring of the polygon touches the cell boundary.
pub open spec fn spec_boundary_hits_cell(rings: Seq<Seq<Point>>, cell: Bbox) -> bool {
    exists|j: int, e: int|
        #![trigger spec_edge_hits_cell(rings[j][e], rings[j][e + 1], cell)]
        0 <= j < rings.len() && 0 <= e < rings[j].len() - 1
            && spec_edge_hits_cell(rings[j][e], rings[j][e + 1], cell)
}

/// The polygon fully covers the cell: it contains the cell's corner and no
/// ring edge touches the cell boundary.
pub open spec fn spec_polygon_covers_cell(p: Polygon, cell: Bbox) -> bool {
    &&& spec_polygon_contains(p@, Point { x: cell.x_min, y: cell.y_min, scale_x2: 0 })
    &&& !spec_boundary_hits_cell(p@, cell)
}

/// Decides full coverage of a cell by a polygon.
fn polygon_covers_cell(p: &Polygon, cell: &Bbox) -> (r: bool)
    requires
        p.wf(),
        -2 * X_LIMIT <= cell.x_min <= 2 * X_LIMIT,
        -2 * X_LIMIT <= cell.x_max <= 2 * X_LIMIT,
        -2 * Y_LIMIT <= cell.y_min <= 2 * Y_LIMIT,
        -2 * Y_LIMIT <= cell.y_max <= 2 * Y_LIMIT,
    ensures
        r == spec_polygon_covers_cell(*p, *cell),
{
    let corner = Point { x: cell.x_min, y: cell.y_min, scale_x2: 0 };
    if !p.contains_point(&corner) {
        return false;
    }
    let nr = p.rings.len();
    let mut j: usize = 0;
    while j < nr
        invariant
            j <= nr,
            nr == p.rings.len(),
            p.wf(),
            -2 * X_LIMIT <= cell.x_min <= 2 * X_LIMIT,
            -2 * X_LIMIT <= cell.x_max <= 2 * X_LIMIT,
            -2 * Y_LIMIT <= cell.y_min <= 2 * Y_LIMIT,
            -2 * Y_LIMIT <= cell.y_max <= 2 * Y_LIMIT,
            forall|jj: int, e: int|
                #![trigger spec_edge_hits_cell(p@[jj][e], p@[jj][e + 1], *cell)]
                0 <= jj < j && 0 <= e < p@[jj].len() - 1
                    ==> !spec_edge_hits_cell(p@[jj][e], p@[jj][e + 1], *cell),
        decreases nr - j,
    {
        let ring: &crate::geometry::Polyline = &p.rings[j];
        let ne = ring.points.len() - 1;
        let mut e: usize = 0;
        while e < ne
            invariant
                e <= ne,
                ne == ring.points.len() - 1,
                ring == &p.rings@[j as int],
                j < nr,
                nr == p.rings.len(),
                p.wf(),
                -2 * X_LIMIT <= cell.x_min <= 2 * X_LIMIT,
                -2 * X_LIMIT <= cell.x_max <= 2 * X_LIMIT,
                -2 * Y_LIMIT <= cell.y_min <= 2 * Y_LIMIT,
                -2 * Y_LIMIT <= cell.y_max <= 2 * Y_LIMIT,
                forall|ee: int|
                    #![trigger spec_edge_hits_cell(p@[j as int][ee], p@[j as int][ee + 1], *cell)]
                    0 <= ee < e
                        ==> !spec_edge_hits_cell(p@[j as int][ee], p@[j as int][ee + 1], *cell),
            decreases ne - e,
        {
            let a = ring.points[e];
            let b = ring.points[e + 1];
            proof {
                assert(a == p@[j as int][e as int]);
                assert(b == p@[j as int][e as int + 1]);
                assert(a.wf() && b.wf());
            }
            let h1 = segs_intersect(a.x, a.y, b.x, b.y, cell.x_min, cell.y_min, cell.x_max, cell.y_min);
            let h2 = segs_intersect(a.x, a.y, b.x, b.y, cell.x_max, cell.y_min, cell.x_max, cell.y_max);
            let h3 = segs_intersect(a.x, a.y, b.x, b.y, cell.x_max, cell.y_max, cell.x_min, cell.y_max);
            let h4 = segs_intersect(a.x, a.y, b.x, b.y, cell.x_min, cell.y_max, cell.x_min, cell.y_min);
            if h1 || h2 || h3 || h4 {
                proof {
                    assert(spec_edge_hits_cell(p@[j as int][e as int], p@[j as int][e as int + 1], *cell));
                }
                return false;
            }
            e = e + 1;
        }
        j = j + 1;
    }
    proof {
        assert(!spec_boundary_hits_cell(p@, *cell));
    }
    true
}

} // verus!

verus! {

/// A point outside a polygon's bounding box is outside the polygon.
proof fn lemma_outside_bbox_not_contained(poly: Polygon, q: Point)
    requires
        poly.wf(),
        !poly.bbox.spec_contains(q),
    ensures
        !spec_polygon_contains(poly@, q),
{
    let ring0 = poly.rings@[0];
    assert(forall|i: int| 0 <= i < ring0@.len() ==> poly.bbox.spec_contains(#[trigger] ring0@[i]));
    lemma_bbox_prune(ring0@, q, poly.bbox);
    assert(poly@[0] == ring0@);
}

impl ContainmentGrid {
    /// Answers point containment for a point inside the grid region.  For
    /// a covered cell the answer is `true`; for any other cell the answer
    /// is proved equal to the exact geometry test.
    pub fn contains(&self, geometry: &Geometry, point: &Point) -> (r: bool)
        requires
            self.wf(),
            geometry.wf(),
            self.consistent(geometry.polygons@),
            point.coords_ok(),
            self.x0 <= point.x,
            point.x < self.x0 + self.res * self.cw,
            self.y0 <= point.y,
            point.y < self.y0 + self.res * self.ch,
        ensures
            ({
                let ix = (point.x - self.x0) as int / (self.cw as int);
                let iy = (point.y - self.y0) as int / (self.ch as int);
                let cell = self.cells@[iy * self.res + ix];
                &&& (spec_cell_covered(cell) ==> r && exists|k: int|
                    0 <= k < geometry.polygons@.len()
                        && spec_polygon_covers_cell(
                            #[trigger] geometry.polygons@[k],
                            self.spec_cell_bbox(ix, iy),
                        ))
                &&& (!spec_cell_covered(cell) ==> r == spec_geometry_contains(geometry@, *point))
            }),
    {
        let dx: i64 = point.x - self.x0;
        let dy: i64 = point.y - self.y0;
        let ix: i64 = dx / self.cw;
        let iy: i64 = dy / self.ch;
        proof {
            vstd::arithmetic::div_mod::lemma_fundamental_div_mod(dx as int, self.cw as int);
            vstd::arithmetic::div_mod::lemma_mod_pos_bound(dx as int, self.cw as int);
            vstd::arithmetic::div_mod::lemma_fundamental_div_mod(dy as int, self.ch as int);
            vstd::arithmetic::div_mod::lemma_mod_pos_bound(dy as int, self.ch as int);
            vstd::arithmetic::div_mod::lemma_div_pos_is_pos(dx as int, self.cw as int);
            vstd::arithmetic::div_mod::lemma_div_pos_is_pos(dy as int, self.ch as int);
            assert(ix < self.res && iy < self.res) by (nonlinear_arith)
                requires
                    dx == (self.cw as int) * (ix as int) + (dx as int) % (self.cw as int),
                    dy == (self.ch as int) * (iy as int) + (dy as int) % (self.ch as int),
                    0 <= (dx as int) % (self.cw as int),
                    0 <= (dy as int) % (self.ch as int),
                    dx < self.res * self.cw,
                    dy < self.res * self.ch,
                    self.cw >= 1,
                    self.ch >= 1,
                    0 <= ix,
                    0 <= iy;
            assert(ix * self.cw <= dx && dx < (ix + 1) * self.cw) by (nonlinear_arith)
                requires
                    dx == (self.cw as int) * (ix as int) + (dx as int) % (self.cw as int),
                    0 <= (dx as int) % (self.cw as int) < self.cw,
                    self.cw >= 1;
            assert(iy * self.ch <= dy && dy < (iy + 1) * self.ch) by (nonlinear_arith)
                requires
                    dy == (self.ch as int) * (iy as int) + (dy as int) % (self.ch as int),
                    0 <= (dy as int) % (self.ch as int) < self.ch,
                    self.ch >= 1;
            assert(iy * self.res + ix < self.res * self.res) by (nonlinear_arith)
                requires
                    0 <= ix < self.res,
                    0 <= iy < self.res,
                    1 <= self.res;
            assert(self.res * self.res <= 0x40000000) by (nonlinear_arith)
                requires 1 <= self.res <= 0x8000;
        }
        let ci: usize = (iy as usize) * (self.res as usize) + (ix as usize);
        let ghost gix = ix as int;
        let ghost giy = iy as int;
        match &self.cells[ci] {
            LookupCell::Covered => {
                proof {
                    assert(spec_cell_covered(self.cells@[giy * self.res + gix]));
                    assert(exists|k: int| 0 <= k < geometry.polygons@.len()
                        && spec_polygon_covers_cell(
                            #[trigger] geometry.polygons@[k],
                            self.spec_cell_bbox(gix, giy),
                        ));
                }
                true
            },
            LookupCell::Empty => {
                proof {
                    assert forall|k: int| 0 <= k < geometry@.len()
                        implies !spec_polygon_contains(#[trigger] geometry@[k], *point) by {
                        let poly = geometry.polygons@[k];
                        assert(geometry@[k] == poly@);
                        assert(!spec_cell_covered(self.cells@[giy * self.res + gix]));
                        assert(!spec_cell_has(self.cells@[giy * self.res + gix], k));
                        assert(!self.spec_cell_overlap(gix, giy, poly.bbox));
                        assert(!poly.bbox.spec_contains(*point));
                        lemma_outside_bbox_not_contained(poly, *point);
                    }
                }
                false
            },
            LookupCell::Candidates(cands) => {
                let nc = cands.len();
                let mut t: usize = 0;
                while t < nc
                    invariant
                        t <= nc,
                        nc == cands@.len(),
                        self.wf(),
                        geometry.wf(),
                        self.consistent(geometry.polygons@),
                        point.coords_ok(),
                        cands == self.cells@[giy * self.res + gix]->Candidates_0,
                        0 <= giy * self.res + gix < self.cells@.len(),
                        self.cells@[giy * self.res + gix] is Candidates,
                        gix == (point.x - self.x0) as int / (self.cw as int),
                        giy == (point.y - self.y0) as int / (self.ch as int),
                        forall|u: int| 0 <= u < cands@.len() ==> (#[trigger] cands@[u]) < geometry.polygons@.len(),
                        forall|u: int| 0 <= u < t
                            ==> !spec_polygon_contains(geometry@[#[trigger] cands@[u] as int], *point),
                    decreases nc - t,
                {
                    let k = cands[t];
                    if self.polygon_at(geometry, k, point) {
                        proof {
                            assert(geometry@[k as int] == geometry.polygons@[k as int]@);
                            assert(self.cells@[giy * self.res + gix] is Candidates);
                            assert(!spec_cell_covered(self.cells@[giy * self.res + gix]));
                        }
                        return true;
                    }
                    t = t + 1;
                }
                proof {
                    assert forall|k: int| 0 <= k < geometry@.len()
                        implies !spec_polygon_contains(#[trigger] geometry@[k], *point) by {
                        let poly = geometry.polygons@[k];
                        assert(geometry@[k] == poly@);
                        if spec_cell_has(self.cells@[giy * self.res + gix], k) {
                            let u = choose|u: int| 0 <= u < cands@.len() && cands@[u] == k;
                            assert(!spec_polygon_contains(geometry@[cands@[u] as int], *point));
                        } else {
                            assert(!self.spec_cell_overlap(gix, giy, poly.bbox));
                            assert(!poly.bbox.spec_contains(*point));
                            lemma_outside_bbox_not_contained(poly, *point);
                        }
                    }
                }
                false
            },
        }
    }

    /// Exact containment test against one polygon of the set.
    fn polygon_at(&self, geometry: &Geometry, k: usize, point: &Point) -> (r: bool)
        requires
            geometry.wf(),
            k < geometry.polygons@.len(),
            point.coords_ok(),
        ensures
            r == spec_polygon_contains(geometry.polygons@[k as int]@, *point),
    {
        geometry.polygons[k].contains_point(point)
    }
}

} // verus!

verus! {

/// The invariant the builder maintains: the grid faithfully indexes the
/// first `k` polygons.
pub open spec fn consistent_upto(g: ContainmentGrid, polys: Seq<Polygon>, k: int) -> bool {
    &&& forall|ci: int| 0 <= ci < g.cells@.len() ==> match #[trigger] g.cells@[ci] {
        LookupCell::Candidates(v) => forall|t: int| 0 <= t < v@.len()
            ==> (#[trigger] v@[t]) < polys.len(),
        _ => true,
    }
    &&& forall|ix: int, iy: int, kk: int|
        #![trigger g.spec_cell_overlap(ix, iy, polys[kk].bbox)]
        0 <= ix < g.res && 0 <= iy < g.res && 0 <= kk < k
            && !spec_cell_covered(g.cells@[iy * g.res + ix])
            && g.spec_cell_overlap(ix, iy, polys[kk].bbox)
            ==> spec_cell_has(g.cells@[iy * g.res + ix], kk)
    &&& forall|ix: int, iy: int|
        #![trigger spec_cell_covered(g.cells@[iy * g.res + ix])]
        0 <= ix < g.res && 0 <= iy < g.res
            && spec_cell_covered(g.cells@[iy * g.res + ix])
            ==> exists|kk: int| 0 <= kk < polys.len()
                && spec_polygon_covers_cell(#[trigger] polys[kk], g.spec_cell_bbox(ix, iy))
}

impl ContainmentGrid {
    /// Builds the lookup grid over the region between the two corner
    /// points, precomputing for every polygon which cells it can touch.
    #[verifier::loop_isolation(false)]
    #[verifier::rlimit(100)]
    pub fn new(geometry: &Geometry, point_min: &Point, point_max: &Point, resolution: u32) -> (g: ContainmentGrid)
        requires
            geometry.wf(),
            point_min.wf(),
            point_max.wf(),
            point_min.x < point_max.x,
            point_min.y < point_max.y,
            1 <= resolution <= 0x8000,
        ensures
            g.wf(),
            g.consistent(geometry.polygons@),
            g.x0 == point_min.x,
            g.y0 == point_min.y,
            g.res == resolution,
            point_max.x <= g.x0 + g.res * g.cw,
            point_max.y <= g.y0 + g.res * g.ch,
    {
        let x0 = point_min.x;
        let y0 = point_min.y;
        let res = resolution;
        let resw: i64 = res as i64;
        let dx: i64 = point_max.x - x0;
        let dy: i64 = point_max.y - y0;
        let cw: i64 = (dx + resw - 1) / resw;
        let ch: i64 = (dy + resw - 1) / resw;
        proof {
            vstd::arithmetic::div_mod::lemma_fundamental_div_mod(dx + resw - 1, resw as int);
            vstd::arithmetic::div_mod::lemma_mod_pos_bound(dx + resw - 1, resw as int);
            vstd::arithmetic::div_mod::lemma_fundamental_div_mod(dy + resw - 1, resw as int);
            vstd::arithmetic::div_mod::lemma_mod_pos_bound(dy + resw - 1, resw as int);
            assert(1 <= cw && dx <= resw * cw && resw * cw <= dx + resw - 1) by (nonlinear_arith)
                requires
                    dx + resw - 1 == (resw as int) * (cw as int) + (dx + resw - 1) % (resw as int),
                    0 <= (dx + resw - 1) % (resw as int) < resw,
                    1 <= resw,
                    1 <= dx;
            assert(1 <= ch && dy <= resw * ch && resw * ch <= dy + resw - 1) by (nonlinear_arith)
                requires
                    dy + resw - 1 == (resw as int) * (ch as int) + (dy + resw - 1) % (resw as int),
                    0 <= (dy + resw - 1) % (resw as int) < resw,
                    1 <= resw,
                    1 <= dy;
            assert(res * res <= 0x40000000) by (nonlinear_arith)
                requires 1 <= res <= 0x8000;
        }
        let ncells: usize = (res as usize) * (res as usize);
        let mut cells: Vec<LookupCell> = Vec::new();
        let mut i: usize = 0;
        while i < ncells
            invariant
                i <= ncells,
                cells@.len() == i,
                forall|ci: int| 0 <= ci < i ==> !spec_cell_covered(#[trigger] cells@[ci])
                    && match cells@[ci] { LookupCell::Empty => true, _ => false },
            decreases ncells - i,
        {
            cells.push(LookupCell::Empty);
            i = i + 1;
        }
        let ghost cells0 = cells@;
        let mut grid = ContainmentGrid { x0, y0, cw, ch, res, cells };
        proof {
            assert(grid.cells@ == cells0);
            assert forall|ci: int| 0 <= ci < grid.cells@.len()
                implies !spec_cell_covered(#[trigger] grid.cells@[ci]) by {
                assert(!spec_cell_covered(cells0[ci]));
            }
            assert forall|ix: int, iy: int|
                #![trigger spec_cell_covered(grid.cells@[iy * grid.res + ix])]
                0 <= ix < grid.res && 0 <= iy < grid.res
                    && spec_cell_covered(grid.cells@[iy * grid.res + ix])
                    implies exists|kk: int| 0 <= kk < geometry.polygons@.len()
                        && spec_polygon_covers_cell(
                            #[trigger] geometry.polygons@[kk],
                            grid.spec_cell_bbox(ix, iy),
                        ) by {
                assert(0 <= iy * grid.res + ix < grid.cells@.len()) by (nonlinear_arith)
                    requires
                        0 <= ix < grid.res,
                        0 <= iy < grid.res,
                        grid.cells@.len() == grid.res * grid.res,
                        1 <= grid.res;
                assert(!spec_cell_covered(grid.cells@[iy * grid.res + ix]));
            }
        }
        let np = geometry.polygons.len();
        let mut k: usize = 0;
        while k < np
            invariant
                k <= np,
                np == geometry.polygons@.len(),
                grid.x0 == x0,
                grid.y0 == y0,
                grid.cw == cw,
                grid.ch == ch,
                grid.res == res,
                grid.wf(),
                consistent_upto(grid, geometry.polygons@, k as int),
            decreases np - k,
        {
            let pb: Bbox = geometry.polygons[k].bbox;
            proof {
                assert(geometry.polygons@[k as int].wf());
                assert(pb.wf());
            }
            if pb.x_max < x0 || pb.y_max < y0 {
                proof {
                    assert forall|ix: int, iy: int|
                        0 <= ix < res && 0 <= iy < res
                            implies !grid.spec_cell_overlap(ix, iy, pb) by {
                        assert(x0 + ix * cw >= x0) by (nonlinear_arith)
                            requires 0 <= ix, 1 <= cw;
                        assert(y0 + iy * ch >= y0) by (nonlinear_arith)
                            requires 0 <= iy, 1 <= ch;
                    }
                }
                k = k + 1;
                continue;
            }
            let fx: i64 = if pb.x_min <= x0 { 0 } else { (pb.x_min - x0) / cw };
            let ix_lo: i64 = if fx > 0 { fx - 1 } else { 0 };
            let gx: i64 = (pb.x_max - x0) / cw;
            let ix_hi: i64 = if gx < resw - 1 { gx } else { resw - 1 };
            let fy: i64 = if pb.y_min <= y0 { 0 } else { (pb.y_min - y0) / ch };
            let iy_lo: i64 = if fy > 0 { fy - 1 } else { 0 };
            let gy: i64 = (pb.y_max - y0) / ch;
            let iy_hi: i64 = if gy < resw - 1 { gy } else { resw - 1 };
            proof {
                if pb.x_min > x0 {
                    vstd::arithmetic::div_mod::lemma_fundamental_div_mod(pb.x_min - x0, cw as int);
                    vstd::arithmetic::div_mod::lemma_mod_pos_bound(pb.x_min - x0, cw as int);
                    vstd::arithmetic::div_mod::lemma_div_pos_is_pos(pb.x_min - x0, cw as int);
                }
                vstd::arithmetic::div_mod::lemma_fundamental_div_mod(pb.x_max - x0, cw as int);
                vstd::arithmetic::div_mod::lemma_mod_pos_bound(pb.x_max - x0, cw as int);
                vstd::arithmetic::div_mod::lemma_div_pos_is_pos(pb.x_max - x0, cw as int);
                if pb.y_min > y0 {
                    vstd::arithmetic::div_mod::lemma_fundamental_div_mod(pb.y_min - y0, ch as int);
                    vstd::arithmetic::div_mod::lemma_mod_pos_bound(pb.y_min - y0, ch as int);
                    vstd::arithmetic::div_mod::lemma_div_pos_is_pos(pb.y_min - y0, ch as int);
                }
                vstd::arithmetic::div_mod::lemma_fundamental_div_mod(pb.y_max - y0, ch as int);
                vstd::arithmetic::div_mod::lemma_mod_pos_bound(pb.y_max - y0, ch as int);
                vstd::arithmetic::div_mod::lemma_div_pos_is_pos(pb.y_max - y0, ch as int);
            }
            let mut iy: i64 = iy_lo;
            while iy <= iy_hi && iy < resw
                invariant
                    iy_lo <= iy,
                    grid.x0 == x0,
                    grid.y0 == y0,
                    grid.cw == cw,
                    grid.ch == ch,
                    grid.res == res,
                    grid.wf(),
                    consistent_upto(grid, geometry.polygons@, k as int),
                    forall|ix2: int, iy2: int|
                        #![trigger grid.spec_cell_overlap(ix2, iy2, pb)]
                        0 <= ix2 < res && 0 <= iy2 < res
                            && ix_lo <= ix2 <= ix_hi && iy_lo <= iy2 < iy
                            && grid.spec_cell_overlap(ix2, iy2, pb)
                            ==> spec_cell_covered(grid.cells@[iy2 * res + ix2])
                                || spec_cell_has(grid.cells@[iy2 * res + ix2], k as int),
                decreases iy_hi - iy + 1,
            {
                let mut ix: i64 = ix_lo;
                while ix <= ix_hi && ix < resw
                    invariant
                        ix_lo <= ix,
                        0 <= iy < resw,
                        grid.x0 == x0,
                        grid.y0 == y0,
                        grid.cw == cw,
                        grid.ch == ch,
                        grid.res == res,
                        grid.wf(),
                        consistent_upto(grid, geometry.polygons@, k as int),
                        forall|ix2: int, iy2: int|
                            #![trigger grid.spec_cell_overlap(ix2, iy2, pb)]
                            0 <= ix2 < res && 0 <= iy2 < res
                                && ix_lo <= ix2 <= ix_hi && iy_lo <= iy2 < iy
                                && grid.spec_cell_overlap(ix2, iy2, pb)
                                ==> spec_cell_covered(grid.cells@[iy2 * res + ix2])
                                    || spec_cell_has(grid.cells@[iy2 * res + ix2], k as int),
                        forall|ix2: int|
                            #![trigger grid.spec_cell_overlap(ix2, iy as int, pb)]
                            0 <= ix2 < res && ix_lo <= ix2 < ix
                                && grid.spec_cell_overlap(ix2, iy as int, pb)
                                ==> spec_cell_covered(grid.cells@[(iy as int) * res + ix2])
                                    || spec_cell_has(grid.cells@[(iy as int) * res + ix2], k as int),
                    decreases ix_hi - ix + 1,
                {
                    proof {
                        assert(0 <= ix * cw && ix * cw <= res * cw && (ix + 1) * cw <= res * cw)
                            by (nonlinear_arith)
                            requires 0 <= ix < resw, 1 <= cw, resw == res;
                        assert(0 <= iy * ch && iy * ch <= res * ch && (iy + 1) * ch <= res * ch)
                            by (nonlinear_arith)
                            requires 0 <= iy < resw, 1 <= ch, resw == res;
                        assert(iy * res + ix < res * res) by (nonlinear_arith)
                            requires 0 <= ix < res, 0 <= iy < res, 1 <= res;
                    }
                    let cx_min: i64 = x0 + ix * cw;
                    let cx_max: i64 = x0 + (ix + 1) * cw;
                    let cy_min: i64 = y0 + iy * ch;
                    let cy_max: i64 = y0 + (iy + 1) * ch;
                    let overlap = pb.x_min <= cx_max && cx_min <= pb.x_max
                        && pb.y_min <= cy_max && cy_min <= pb.y_max;
                    if overlap {
                        let cell_b = Bbox { x_min: cx_min, y_min: cy_min, x_max: cx_max, y_max: cy_max };
                        let ci: usize = (iy as usize) * (res as usize) + (ix as usize);
                        let ghost oldgrid = grid;
                        let ghost oldcells = grid.cells@;
                        let covered_now = match &grid.cells[ci] {
                            LookupCell::Covered => true,
                            _ => false,
                        };
                        if !covered_now && polygon_covers_cell(&geometry.polygons[k], &cell_b) {
                            grid.cells[ci] = LookupCell::Covered;
                            proof {
                                assert(spec_cell_covered(grid.cells@[ci as int]));
                                assert(cell_b == grid.spec_cell_bbox(ix as int, iy as int));
                                assert(spec_polygon_covers_cell(
                                    geometry.polygons@[k as int],
                                    grid.spec_cell_bbox(ix as int, iy as int),
                                ));
                            }
                        } else if !covered_now {
                            let make_new = match &grid.cells[ci] {
                                LookupCell::Empty => true,
                                _ => false,
                            };
                            if make_new {
                                let mut v: Vec<usize> = Vec::new();
                                v.push(k);
                                proof {
                                    assert(v@[0] == k);
                                }
                                grid.cells[ci] = LookupCell::Candidates(v);
                                proof {
                                    match grid.cells@[ci as int] {
                                        LookupCell::Candidates(v2) => {
                                            assert(v2@[0] == k);
                                            assert(spec_cell_has(grid.cells@[ci as int], k as int));
                                        },
                                        _ => {
                                            assert(false);
                                        },
                                    }
                                }
                            } else {
                                match &mut grid.cells[ci] {
                                    LookupCell::Candidates(v) => {
                                        v.push(k);
                                        proof {
                                            assert(v@[v@.len() - 1] == k);
                                        }
                                    },
                                    _ => {},
                                }
                                proof {
                                    match grid.cells@[ci as int] {
                                        LookupCell::Candidates(v2) => {
                                            assert(v2@[v2@.len() - 1] == k);
                                            assert(spec_cell_has(grid.cells@[ci as int], k as int));
                                        },
                                        _ => {},
                                    }
                                }
                            }
                        } else {
                            proof {
                                assert(grid.cells@ == oldcells);
                                assert(spec_cell_covered(grid.cells@[ci as int]));
                            }
                        }
                        proof {
                            assert(grid.cells@.len() == oldcells.len());
                            assert forall|ci2: int| 0 <= ci2 < grid.cells@.len() && ci2 != ci
                                implies grid.cells@[ci2] == oldcells[ci2] by {}
                            assert(spec_cell_covered(grid.cells@[ci as int])
                                || spec_cell_has(grid.cells@[ci as int], k as int));
                            assert(!spec_cell_covered(oldcells[ci as int])
                                ==> spec_cell_covered(grid.cells@[ci as int])
                                    || match (oldcells[ci as int], grid.cells@[ci as int]) {
                                        (LookupCell::Candidates(v), LookupCell::Candidates(v2)) =>
                                            v2@ == v@.push(k),
                                        (LookupCell::Empty, LookupCell::Candidates(v2)) => true,
                                        _ => false,
                                    });
                            assert forall|ix2: int, iy2: int|
                                #![trigger spec_cell_covered(grid.cells@[iy2 * res + ix2])]
                                0 <= ix2 < res && 0 <= iy2 < res
                                    && spec_cell_covered(grid.cells@[iy2 * res + ix2])
                                    implies exists|kk: int| 0 <= kk < geometry.polygons@.len()
                                        && spec_polygon_covers_cell(
                                            #[trigger] geometry.polygons@[kk],
                                            grid.spec_cell_bbox(ix2, iy2),
                                        ) by {
                                let ci2 = iy2 * res + ix2;
                                assert(grid.cells@.len() == res * res);
                                assert(0 <= ci2 < res * res) by (nonlinear_arith)
                                    requires
                                        0 <= ix2 < res,
                                        0 <= iy2 < res,
                                        ci2 == iy2 * res + ix2,
                                        1 <= res;
                                assert(oldgrid.spec_cell_bbox(ix2, iy2) == grid.spec_cell_bbox(ix2, iy2));
                                if ci2 == ci {
                                    if spec_cell_covered(oldcells[ci2]) {
                                        assert(grid.cells@[ci2] == oldcells[ci2]);
                                        let kk = choose|kk: int| 0 <= kk < geometry.polygons@.len()
                                            && spec_polygon_covers_cell(
                                                #[trigger] geometry.polygons@[kk],
                                                oldgrid.spec_cell_bbox(ix2, iy2),
                                            );
                                        assert(spec_polygon_covers_cell(
                                            geometry.polygons@[kk],
                                            grid.spec_cell_bbox(ix2, iy2),
                                        ));
                                    } else {
                                        assert(ix2 == ix && iy2 == iy) by (nonlinear_arith)
                                            requires
                                                ci2 == iy2 * res + ix2,
                                                ci == (iy as int) * res + (ix as int),
                                                ci2 == ci,
                                                0 <= ix2 < res,
                                                0 <= ix < res,
                                                0 <= iy2,
                                                0 <= iy,
                                                1 <= res;
                                        assert(spec_polygon_covers_cell(
                                            geometry.polygons@[k as int],
                                            grid.spec_cell_bbox(ix2, iy2),
                                        ));
                                    }
                                } else {
                                    assert(grid.cells@[ci2] == oldcells[ci2]);
                                    let kk = choose|kk: int| 0 <= kk < geometry.polygons@.len()
                                        && spec_polygon_covers_cell(
                                            #[trigger] geometry.polygons@[kk],
                                            oldgrid.spec_cell_bbox(ix2, iy2),
                                        );
                                    assert(spec_polygon_covers_cell(
                                        geometry.polygons@[kk],
                                        grid.spec_cell_bbox(ix2, iy2),
                                    ));
                                }
                            }
                            assert(consistent_upto(grid, geometry.polygons@, k as int)) by {
                                assert forall|ix2: int, iy2: int, kk: int|
                                    #![trigger grid.spec_cell_overlap(ix2, iy2, geometry.polygons@[kk].bbox)]
                                    0 <= ix2 < res && 0 <= iy2 < res && 0 <= kk < k
                                        && !spec_cell_covered(grid.cells@[iy2 * res + ix2])
                                        && grid.spec_cell_overlap(ix2, iy2, geometry.polygons@[kk].bbox)
                                        implies spec_cell_has(grid.cells@[iy2 * res + ix2], kk) by {
                                    let ci2 = iy2 * res + ix2;
                                    assert(grid.cells@.len() == res * res);
                                    assert(0 <= ci2 < res * res) by (nonlinear_arith)
                                        requires
                                            0 <= ix2 < res,
                                            0 <= iy2 < res,
                                            ci2 == iy2 * res + ix2,
                                            1 <= res;
                                    assert(oldgrid.spec_cell_overlap(ix2, iy2, geometry.polygons@[kk].bbox));
                                    if ci2 == ci {
                                        assert(!spec_cell_covered(oldcells[ci2]));
                                        assert(spec_cell_has(oldcells[ci2], kk));
                                        match oldcells[ci2] {
                                            LookupCell::Candidates(v) => {
                                                let t = choose|t: int| 0 <= t < v@.len() && v@[t] == kk;
                                                match grid.cells@[ci2] {
                                                    LookupCell::Candidates(v2) => {
                                                        assert(v2@[t] == kk);
                                                    },
                                                    _ => {},
                                                }
                                            },
                                            _ => {},
                                        }
                                    } else {
                                        assert(grid.cells@[ci2] == oldcells[ci2]);
                                        assert(spec_cell_has(oldcells[ci2], kk));
                                    }
                                }
                            }
                            assert forall|ix2: int|
                                #![trigger grid.spec_cell_overlap(ix2, iy as int, pb)]
                                0 <= ix2 < res && ix_lo <= ix2 < ix
                                    && grid.spec_cell_overlap(ix2, iy as int, pb)
                                    implies spec_cell_covered(grid.cells@[(iy as int) * res + ix2])
                                        || spec_cell_has(grid.cells@[(iy as int) * res + ix2], k as int) by {
                                let ci2 = (iy as int) * res + ix2;
                                assert(grid.cells@.len() == res * res);
                                assert(0 <= ci2 < res * res) by (nonlinear_arith)
                                    requires
                                        ci2 == (iy as int) * res + ix2,
                                        0 <= ix2 < res,
                                        0 <= iy < resw,
                                        resw == res,
                                        1 <= res;
                                assert(ci2 != ci);
                                assert(grid.cells@[ci2] == oldcells[ci2]);
                                assert(oldgrid.spec_cell_overlap(ix2, iy as int, pb));
                            }
                            assert forall|ix2: int, iy2: int|
                                #![trigger grid.spec_cell_overlap(ix2, iy2, pb)]
                                0 <= ix2 < res && 0 <= iy2 < res
                                    && ix_lo <= ix2 <= ix_hi && iy_lo <= iy2 < iy
                                    && grid.spec_cell_overlap(ix2, iy2, pb)
                                    implies spec_cell_covered(grid.cells@[iy2 * res + ix2])
                                        || spec_cell_has(grid.cells@[iy2 * res + ix2], k as int) by {
                                let ci2 = iy2 * res + ix2;
                                assert(grid.cells@.len() == res * res);
                                assert(0 <= ci2 < res * res && ci2 != ci) by (nonlinear_arith)
                                    requires
                                        ci2 == iy2 * res + ix2,
                                        ci == (iy as int) * res + (ix as int),
                                        0 <= ix2 < res,
                                        0 <= ix < res,
                                        iy2 < iy,
                                        iy < resw,
                                        resw == res,
                                        0 <= iy2,
                                        1 <= res;
                                assert(grid.cells@[ci2] == oldcells[ci2]);
                                assert(oldgrid.spec_cell_overlap(ix2, iy2, pb));
                            }
                        }
                    }
                    ix = ix + 1;
                }
                iy = iy + 1;
            }
            proof {
                assert forall|ix2: int, iy2: int|
                    0 <= ix2 < res && 0 <= iy2 < res
                        && grid.spec_cell_overlap(ix2, iy2, pb)
                        && !spec_cell_covered(grid.cells@[iy2 * res + ix2])
                        implies spec_cell_has(#[trigger] grid.cells@[iy2 * res + ix2], k as int) by {
                    if ix2 < ix_lo {
                        assert(fx * cw <= pb.x_min - x0) by (nonlinear_arith)
                            requires
                                fx > 1,
                                pb.x_min - x0 == (cw as int) * (fx as int) + (pb.x_min - x0) % (cw as int),
                                0 <= (pb.x_min - x0) % (cw as int),
                                1 <= cw,
                                pb.x_min > x0;
                        assert((ix2 + 1) * cw <= (fx - 1) * cw && (fx - 1) * cw <= fx * cw - 1)
                            by (nonlinear_arith)
                            requires 0 <= ix2, ix2 + 1 <= fx - 1, 1 <= cw;
                        assert(!grid.spec_cell_overlap(ix2, iy2, pb));
                    } else if ix2 > ix_hi {
                        assert(pb.x_max - x0 < (gx + 1) * cw) by (nonlinear_arith)
                            requires
                                pb.x_max - x0 == (cw as int) * (gx as int) + (pb.x_max - x0) % (cw as int),
                                (pb.x_max - x0) % (cw as int) < cw,
                                1 <= cw;
                        assert((gx + 1) * cw <= ix2 * cw) by (nonlinear_arith)
                            requires gx + 1 <= ix2, 1 <= cw;
                        assert(!grid.spec_cell_overlap(ix2, iy2, pb));
                    } else if iy2 < iy_lo {
                        assert(fy * ch <= pb.y_min - y0) by (nonlinear_arith)
                            requires
                                fy > 1,
                                pb.y_min - y0 == (ch as int) * (fy as int) + (pb.y_min - y0) % (ch as int),
                                0 <= (pb.y_min - y0) % (ch as int),
                                1 <= ch,
                                pb.y_min > y0;
                        assert((iy2 + 1) * ch <= (fy - 1) * ch && (fy - 1) * ch <= fy * ch - 1)
                            by (nonlinear_arith)
                            requires 0 <= iy2, iy2 + 1 <= fy - 1, 1 <= ch;
                        assert(!grid.spec_cell_overlap(ix2, iy2, pb));
                    } else if iy2 > iy_hi {
                        assert(pb.y_max - y0 < (gy + 1) * ch) by (nonlinear_arith)
                            requires
                                pb.y_max - y0 == (ch as int) * (gy as int) + (pb.y_max - y0) % (ch as int),
                                (pb.y_max - y0) % (ch as int) < ch,
                                1 <= ch;
                        assert((gy + 1) * ch <= iy2 * ch) by (nonlinear_arith)
                            requires gy + 1 <= iy2, 1 <= ch;
                        assert(!grid.spec_cell_overlap(ix2, iy2, pb));
                    }
                }
            }
            k = k + 1;
        }
        grid
    }
}

} // verus!
