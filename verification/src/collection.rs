//! The collection: a polygon set together with its derived segment index
//! and optional containment lookup grid, and the metre-scale
//! nearest-boundary distance query.

use vstd::prelude::*;
use crate::fixed::{spec_units_of_mm, spec_mm_of_units, spec_isqrt};
use crate::geometry::{Point, Geometry, Segment, spec_geometry_segments, spec_geometry_contains};
use crate::segtree::{
    SegmentIndex, seg_all_wf, spec_min, spec_min_from,
    lemma_min_from_le, lemma_min_from_attained,
};
use crate::lookup::{ContainmentGrid, spec_cell_covered};

verus! {

/// Two segment sequences holding the same segments have the same least
/// distance.
proof fn lemma_min_from_permutation(s1: Seq<Segment>, s2: Seq<Segment>, q: Point)
    requires
        s1.to_multiset() == s2.to_multiset(),
        seg_all_wf(s1),
        q.wf(),
    ensures
        spec_min_from(s1, q, 0, s1.len() as int)
            == spec_min_from(s2, q, 0, s2.len() as int),
{
    s1.to_multiset_ensures();
    s2.to_multiset_ensures();
    assert(s1.len() == s2.len());
    assert forall|k: int| 0 <= k < s2.len() implies (#[trigger] s2[k]).wf() by {
        assert(s2.contains(s2[k]));
        assert(s1.to_multiset().count(s2[k]) > 0);
        assert(s1.contains(s2[k]));
        let t = choose|t: int| 0 <= t < s1.len() && s1[t] == s2[k];
        assert(s1[t].wf());
    }
    if s1.len() > 0 {
        let m1 = spec_min_from(s1, q, 0, s1.len() as int);
        let m2 = spec_min_from(s2, q, 0, s2.len() as int);
        lemma_min_from_attained(s1, q, 0, s1.len() as int);
        lemma_min_from_attained(s2, q, 0, s2.len() as int);
        let j1 = choose|j: int| 0 <= j < s1.len()
            && m1 == crate::segtree::spec_seg_dist2(#[trigger] s1[j], q);
        let j2 = choose|j: int| 0 <= j < s2.len()
            && m2 == crate::segtree::spec_seg_dist2(#[trigger] s2[j], q);
        assert(s1.contains(s1[j1]));
        assert(s2.to_multiset().count(s1[j1]) > 0);
        assert(s2.contains(s1[j1]));
        let t2 = choose|t: int| 0 <= t < s2.len() && s2[t] == s1[j1];
        lemma_min_from_le(s2, q, 0, s2.len() as int, t2);
        assert(s2.contains(s2[j2]));
        assert(s1.to_multiset().count(s2[j2]) > 0);
        assert(s1.contains(s2[j2]));
        let t1 = choose|t: int| 0 <= t < s1.len() && s1[t] == s2[j2];
        lemma_min_from_le(s1, q, 0, s1.len() as int, t1);
    }
}

/// The distance query value: the least squared segment distance turned
/// back into millimetres, or `max_mm` itself when no segment lies nearer
/// than the (capped) query radius.
pub open spec fn spec_collection_min_mm(segs: Seq<Segment>, q: Point, max_mm: int) -> int {
    let cap = spec_min(spec_units_of_mm(max_mm), 0x40000000);
    let m = spec_min_from(segs, q, 0, segs.len() as int);
    if m >= cap * cap {
        max_mm
    } else {
        spec_mm_of_units(spec_isqrt(m))
    }
}

/// A polygon set with its segment index and optional lookup grid.
#[derive(Debug)]
pub struct Collection {
    pub geometry: Geometry,
    pub index: SegmentIndex,
    pub lookup: Option<ContainmentGrid>,
}

impl Collection {
    /// Every part well formed, and a present lookup grid consistent with
    /// the polygon set.
    pub open spec fn wf(self) -> bool {
        &&& self.geometry.wf()
        &&& self.index.wf()
        &&& match self.lookup {
            Option::Some(g) => g.wf() && g.consistent(self.geometry.polygons@),
            Option::None => true,
        }
    }

    /// The index holds exactly the boundary segments of the polygon set.
    pub open spec fn index_synced(self) -> bool {
        self.index.segments@.to_multiset() == spec_geometry_segments(self.geometry@).to_multiset()
    }

    /// An empty collection: no polygons, an empty index, no grid.
    pub fn new() -> (c: Collection)
        ensures
            c.wf(),
            c.index_synced(),
            c.geometry.polygons@.len() == 0,
            c.geometry@ =~= Seq::<Seq<Seq<Point>>>::empty(),
    {
        let geometry = Geometry::new();
        let segments: Vec<Segment> = Vec::new();
        let index = SegmentIndex::build(segments);
        let c = Collection { geometry, index, lookup: Option::None };
        proof {
            assert(spec_geometry_segments(c.geometry@) =~= Seq::<Segment>::empty());
            assert(c.index.segments@ =~= Seq::<Segment>::empty());
        }
        c
    }

    /// Adds one polygon; the index must be rebuilt afterwards.
    pub fn add_polygon(&mut self, polygon: crate::geometry::Polygon)
        requires
            old(self).wf(),
            polygon.wf(),
        ensures
            final(self).wf(),
            final(self).geometry.polygons@ == old(self).geometry.polygons@.push(polygon),
            final(self).index == old(self).index,
            final(self).lookup is None,
    {
        self.lookup = Option::None;
        self.geometry.add_polygon(polygon);
    }

    /// Extracts every boundary segment of the polygon set and rebuilds the
    /// spatial index over them.
    pub fn extract_segments(&mut self)
        requires
            old(self).wf(),
            spec_geometry_segments(old(self).geometry@).len() <= 0x1000000000000000,
        ensures
            final(self).wf(),
            final(self).index_synced(),
            final(self).geometry == old(self).geometry,
            final(self).lookup == old(self).lookup,
    {
        let mut segments: Vec<Segment> = Vec::new();
        self.geometry.extract_segments_to(&mut segments);
        let index = SegmentIndex::build(segments);
        self.index = index;
    }

    /// Builds the containment lookup grid over the region between the two
    /// corner points.
    pub fn init_lookup(&mut self, point_min: &Point, point_max: &Point, resolution: u32)
        requires
            old(self).wf(),
            point_min.wf(),
            point_max.wf(),
            point_min.x < point_max.x,
            point_min.y < point_max.y,
            1 <= resolution <= 0x8000,
        ensures
            final(self).wf(),
            final(self).geometry == old(self).geometry,
            final(self).index == old(self).index,
            final(self).lookup is Some,
            final(self).index_synced() == old(self).index_synced(),
    {
        let grid = ContainmentGrid::new(&self.geometry, point_min, point_max, resolution);
        self.lookup = Option::Some(grid);
    }

    /// Exact point containment against the polygon set.
    pub fn contains_point(&self, point: &Point) -> (r: bool)
        requires
            self.wf(),
            point.coords_ok(),
        ensures
            r == spec_geometry_contains(self.geometry@, *point),
    {
        self.geometry.contains_point(point)
    }

    /// Accelerated containment through the lookup grid.  A covered cell
    /// answers `true` and names a polygon that passed the coverage test
    /// for it; for all other cells the answer equals the exact test.
    pub fn contains(&self, point: &Point) -> (r: bool)
        requires
            self.wf(),
            point.coords_ok(),
            self.lookup is Some,
            ({
                let g = self.lookup->Some_0;
                &&& g.x0 <= point.x
                &&& point.x < g.x0 + g.res * g.cw
                &&& g.y0 <= point.y
                &&& point.y < g.y0 + g.res * g.ch
            }),
        ensures
            ({
                let g = self.lookup->Some_0;
                let ix = (point.x - g.x0) as int / (g.cw as int);
                let iy = (point.y - g.y0) as int / (g.ch as int);
                let cell = g.cells@[iy * g.res + ix];
                &&& (spec_cell_covered(cell) ==> r && exists|k: int|
                    0 <= k < self.geometry.polygons@.len()
                        && crate::lookup::spec_polygon_covers_cell(
                            #[trigger] self.geometry.polygons@[k],
                            g.spec_cell_bbox(ix, iy),
                        ))
                &&& (!spec_cell_covered(cell) ==> r == spec_geometry_contains(self.geometry@, *point))
            }),
    {
        match &self.lookup {
            Option::Some(g) => g.contains(&self.geometry, point),
            Option::None => false,
        }
    }

    /// Distance from the point to the nearest boundary segment, in
    /// millimetres.  When no segment lies nearer than `max_distance` (also
    /// in millimetres), the result is `max_distance` itself, unchanged.
    pub fn get_min_distance(&self, point: &Point, max_distance: u64) -> (d: u64)
        requires
            self.wf(),
            self.index_synced(),
            point.wf(),
            max_distance <= 0x10000000000,
        ensures
            d == spec_collection_min_mm(
                spec_geometry_segments(self.geometry@),
                *point,
                max_distance as int,
            ),
            d <= max_distance,
    {
        let cap0 = crate::fixed::units_of_mm(max_distance);
        let cap: u64 = if cap0 < 0x40000000 { cap0 } else { 0x40000000 };
        assert(cap * cap <= 0x1000000000000000) by (nonlinear_arith)
            requires 0 <= cap <= 0x40000000;
        let max_d2: u64 = cap * cap;
        let d2 = self.index.min_distance2(point, max_d2);
        proof {
            lemma_min_from_permutation(
                self.index.segments@,
                spec_geometry_segments(self.geometry@),
                *point,
            );
        }
        if d2 >= max_d2 {
            return max_distance;
        }
        let r = crate::fixed::isqrt64(d2);
        proof {
            crate::fixed::lemma_isqrt_unique(d2 as int, r as int);
        }
        let mm = crate::fixed::mm_of_units(r);
        proof {
            assert(r * crate::fixed::MM_PER_DEG <= 0x80000000 * crate::fixed::MM_PER_DEG)
                by (nonlinear_arith)
                requires 0 <= r <= 0x80000000;
            // Below the cap, the metre value stays below the clamp:
            // r < cap, cap scales to at most max_distance.
            assert(r < cap) by (nonlinear_arith)
                requires
                    (r as int) * (r as int) <= d2 as int,
                    (d2 as int) < (cap as int) * (cap as int),
                    0 <= r,
                    0 <= cap;
            assert(r * crate::fixed::MM_PER_DEG <= cap * crate::fixed::MM_PER_DEG)
                by (nonlinear_arith)
                requires r <= cap;
            vstd::arithmetic::div_mod::lemma_fundamental_div_mod(
                (max_distance as int) * 0x100000,
                crate::fixed::MM_PER_DEG as int,
            );
            assert(cap * crate::fixed::MM_PER_DEG <= (max_distance as int) * 0x100000)
                by (nonlinear_arith)
                requires
                    cap <= spec_units_of_mm(max_distance as int),
                    spec_units_of_mm(max_distance as int) * (crate::fixed::MM_PER_DEG as int)
                        <= (max_distance as int) * 0x100000,
                    0 <= cap,
                    0 < crate::fixed::MM_PER_DEG;
            vstd::arithmetic::div_mod::lemma_div_is_ordered(
                (r as int) * (crate::fixed::MM_PER_DEG as int),
                (max_distance as int) * 0x100000,
                0x100000,
            );
            vstd::arithmetic::div_mod::lemma_div_by_multiple(max_distance as int, 0x100000);
            assert((max_distance as int) * 0x100000 == 0x100000 * (max_distance as int))
                by (nonlinear_arith);
        }
        mm
    }
}

} // verus!
