//! Axis-aligned bounding boxes over binary32 bit patterns.
//!
//! All comparisons are the verified bit-level IEEE comparisons of the
//! `scalar` module, so growing and merging boxes and testing containment
//! are fully verified here. What needs binary32 *arithmetic* — expanding a
//! circle's center by its radius, or measuring a corner distance — cannot
//! be computed in this crate and is taken as an argument instead: see
//! [`CircleProbe`] and the `requires` that tie such arguments down.

use vstd::prelude::*;

use crate::scalar::eq_bits;
use crate::scalar::is_nan_bits;
use crate::scalar::le_bits;
use crate::scalar::lt_bits;
use crate::scalar::key_of;
use crate::scalar::le;
use crate::scalar::lt;
use crate::vertex::Shape;
use crate::vertex::Vertex;

verus! {

/// A bounding box, stored by its outer edges.
#[derive(Clone, Copy, PartialEq, Eq, Structural, Debug)]
pub struct AABB {
    pub min_x: u32,
    pub max_x: u32,
    pub min_y: u32,
    pub max_y: u32,
}

/// No field is NaN and each axis is ordered.
pub open spec fn wf_box(b: AABB) -> bool {
    &&& !is_nan_bits(b.min_x)
    &&& !is_nan_bits(b.max_x)
    &&& !is_nan_bits(b.min_y)
    &&& !is_nan_bits(b.max_y)
    &&& key_of(b.min_x) <= key_of(b.max_x)
    &&& key_of(b.min_y) <= key_of(b.max_y)
}

/// Equality of boxes as IEEE values: fields compare equal even where a
/// positive and a negative zero differ as bit patterns.
pub open spec fn eq_box(a: AABB, b: AABB) -> bool {
    &&& eq_bits(a.min_x, b.min_x)
    &&& eq_bits(a.max_x, b.max_x)
    &&& eq_bits(a.min_y, b.min_y)
    &&& eq_bits(a.max_y, b.max_y)
}

/// One axis of [`spec_absorb`]: widen `(min, max)` to take in `c`.
pub open spec fn absorb_axis(min: u32, max: u32, c: u32) -> (u32, u32) {
    if lt_bits(max, c) {
        (min, c)
    } else if lt_bits(c, min) {
        (c, max)
    } else {
        (min, max)
    }
}

/// The box after absorbing the point `(x, y)`.
pub open spec fn spec_absorb(b: AABB, x: u32, y: u32) -> AABB {
    let (min_x, max_x) = absorb_axis(b.min_x, b.max_x, x);
    let (min_y, max_y) = absorb_axis(b.min_y, b.max_y, y);
    AABB { min_x, max_x, min_y, max_y }
}

/// The merge of two boxes: each edge takes the other box's edge where that
/// one lies further out.
pub open spec fn spec_merge(a: AABB, b: AABB) -> AABB {
    AABB {
        min_x: if lt_bits(b.min_x, a.min_x) { b.min_x } else { a.min_x },
        max_x: if lt_bits(a.max_x, b.max_x) { b.max_x } else { a.max_x },
        min_y: if lt_bits(b.min_y, a.min_y) { b.min_y } else { a.min_y },
        max_y: if lt_bits(a.max_y, b.max_y) { b.max_y } else { a.max_y },
    }
}

/// The point `(x, y)` lies inside `b` (edges included).
pub open spec fn spec_contains_point(b: AABB, x: u32, y: u32) -> bool {
    &&& le_bits(b.min_x, x)
    &&& le_bits(x, b.max_x)
    &&& le_bits(b.min_y, y)
    &&& le_bits(y, b.max_y)
}

/// Where a coordinate stands relative to an axis interval.
#[derive(Clone, Copy, PartialEq, Eq, Structural, Debug)]
pub enum AxisSide {
    Below,
    Within,
    Above,
}

/// Classification of `c` against `[min, max]`: below it, within it, or
/// above it; a NaN coordinate classifies as above, as the underlying IEEE
/// comparisons dictate.
pub open spec fn spec_axis_side(min: u32, max: u32, c: u32) -> AxisSide {
    if lt_bits(c, min) {
        AxisSide::Below
    } else if le_bits(c, max) {
        AxisSide::Within
    } else {
        AxisSide::Above
    }
}

/// The binary32 arithmetic a circle containment test needs, computed by the
/// caller: `x_lo`/`x_hi` stand for the center's x minus and plus the radius
/// (likewise `y_lo`/`y_hi`), and each `corner_*` field stands for "the
/// squared distance from that corner of the box to the center is at most
/// the squared radius".
#[derive(Clone, Copy, PartialEq, Eq, Structural, Debug)]
pub struct CircleProbe {
    pub x_lo: u32,
    pub x_hi: u32,
    pub y_lo: u32,
    pub y_hi: u32,
    pub corner_min_min: bool,
    pub corner_min_max: bool,
    pub corner_max_min: bool,
    pub corner_max_max: bool,
}

/// Shape-aware containment of a circle centered at `(x, y)`, deciding from
/// the box's edges and the supplied probe: a circle overlapping an edge or
/// corner of the box counts as contained.
pub open spec fn spec_contains_circle(b: AABB, x: u32, y: u32, probe: CircleProbe) -> bool {
    let sx = spec_axis_side(b.min_x, b.max_x, x);
    let sy = spec_axis_side(b.min_y, b.max_y, y);
    match (sx, sy) {
        (AxisSide::Below, AxisSide::Below) => probe.corner_min_min,
        (AxisSide::Below, AxisSide::Within) => le_bits(b.min_x, probe.x_hi),
        (AxisSide::Below, AxisSide::Above) => probe.corner_min_max,
        (AxisSide::Within, AxisSide::Below) => le_bits(b.min_y, probe.y_hi),
        (AxisSide::Within, AxisSide::Within) => true,
        (AxisSide::Within, AxisSide::Above) => le_bits(probe.y_lo, b.max_y),
        (AxisSide::Above, AxisSide::Below) => probe.corner_max_min,
        (AxisSide::Above, AxisSide::Within) => le_bits(probe.x_lo, b.max_x),
        (AxisSide::Above, AxisSide::Above) => probe.corner_max_max,
    }
}

/// The box grown over a non-empty run of points, front first.
pub open spec fn spec_scan_points(pts: Seq<(u32, u32)>) -> AABB
    recommends
        pts.len() > 0,
    decreases pts.len(),
{
    if pts.len() <= 1 {
        AABB::spec_from_point(pts[0].0, pts[0].1)
    } else {
        spec_absorb(spec_scan_points(pts.drop_last()), pts.last().0, pts.last().1)
    }
}

/// The merge of a non-empty run of boxes, front first.
pub open spec fn spec_scan_boxes(boxes: Seq<AABB>) -> AABB
    recommends
        boxes.len() > 0,
    decreases boxes.len(),
{
    if boxes.len() <= 1 {
        boxes[0]
    } else {
        spec_merge(spec_scan_boxes(boxes.drop_last()), boxes.last())
    }
}

impl AABB {
    /// The degenerate box holding exactly one point.
    pub open spec fn spec_from_point(x: u32, y: u32) -> AABB {
        AABB { min_x: x, max_x: x, min_y: y, max_y: y }
    }

    /// Builds the degenerate box of one point.
    pub fn from_point(x: u32, y: u32) -> (r: AABB)
        ensures
            r == Self::spec_from_point(x, y),
    {
        AABB { min_x: x, max_x: x, min_y: y, max_y: y }
    }

    /// Widens the box to take in one point; a NaN coordinate leaves its
    /// axis untouched.
    pub fn absorb(&mut self, x: u32, y: u32)
        ensures
            *final(self) == spec_absorb(*old(self), x, y),
    {
        if lt(self.max_x, x) {
            self.max_x = x;
        } else if lt(x, self.min_x) {
            self.min_x = x;
        }
        if lt(self.max_y, y) {
            self.max_y = y;
        } else if lt(y, self.min_y) {
            self.min_y = y;
        }
    }

    /// Merges another box into this one, absorbing its extremes.
    pub fn merge(self, rhs: AABB) -> (r: AABB)
        ensures
            r == spec_merge(self, rhs),
    {
        AABB {
            min_x: if lt(rhs.min_x, self.min_x) { rhs.min_x } else { self.min_x },
            max_x: if lt(self.max_x, rhs.max_x) { rhs.max_x } else { self.max_x },
            min_y: if lt(rhs.min_y, self.min_y) { rhs.min_y } else { self.min_y },
            max_y: if lt(self.max_y, rhs.max_y) { rhs.max_y } else { self.max_y },
        }
    }

    /// The box of a run of points: none for an empty run.
    pub fn foreach(points: &Vec<(u32, u32)>) -> (r: Option<AABB>)
        ensures
            points@.len() == 0 <==> r is None,
            points@.len() > 0 ==> r == Some(spec_scan_points(points@)),
    {
        if points.len() == 0 {
            return None;
        }
        let mut aabb = AABB::from_point(points[0].0, points[0].1);
        let mut i: usize = 1;
        while i < points.len()
            invariant
                1 <= i <= points@.len(),
                aabb == spec_scan_points(points@.take(i as int)),
            decreases points@.len() - i,
        {
            proof {
                assert(points@.take(i + 1).drop_last() =~= points@.take(i as int));
            }
            aabb.absorb(points[i].0, points[i].1);
            i += 1;
        }
        proof {
            assert(points@.take(points@.len() as int) =~= points@);
        }
        Some(aabb)
    }

    /// The merge of a run of per-sample boxes: none for an empty run.
    pub fn foreach_boxes(boxes: &Vec<AABB>) -> (r: Option<AABB>)
        ensures
            boxes@.len() == 0 <==> r is None,
            boxes@.len() > 0 ==> r == Some(spec_scan_boxes(boxes@)),
    {
        if boxes.len() == 0 {
            return None;
        }
        let mut aabb = boxes[0];
        let mut i: usize = 1;
        while i < boxes.len()
            invariant
                1 <= i <= boxes@.len(),
                aabb == spec_scan_boxes(boxes@.take(i as int)),
            decreases boxes@.len() - i,
        {
            proof {
                assert(boxes@.take(i + 1).drop_last() =~= boxes@.take(i as int));
            }
            aabb = aabb.merge(boxes[i]);
            i += 1;
        }
        proof {
            assert(boxes@.take(boxes@.len() as int) =~= boxes@);
        }
        Some(aabb)
    }

    /// Containment of an `Arrow` vertex: a plain bounds check on its
    /// position.
    pub fn contains(&self, v: &Vertex) -> (r: bool)
        requires
            v.shape == Shape::Arrow,
        ensures
            r == spec_contains_point(*self, v.x, v.y),
    {
        le(self.min_x, v.x) && le(v.x, self.max_x) && le(self.min_y, v.y) && le(v.y, self.max_y)
    }

    /// Containment of a `Circle` vertex centered at `(v.x, v.y)`. The
    /// binary32 arithmetic of the test — the center expanded by the radius,
    /// and the corner distance tests against this very box — is supplied by
    /// the caller in `probe`; the decision over those values is verified.
    pub fn contains_circle(&self, v: &Vertex, probe: CircleProbe) -> (r: bool)
        requires
            v.shape == Shape::Circle,
        ensures
            r == spec_contains_circle(*self, v.x, v.y, probe),
    {
        let sx = self.axis_side_x(v.x);
        let sy = self.axis_side_y(v.y);
        match (sx, sy) {
            (AxisSide::Below, AxisSide::Below) => probe.corner_min_min,
            (AxisSide::Below, AxisSide::Within) => le(self.min_x, probe.x_hi),
            (AxisSide::Below, AxisSide::Above) => probe.corner_min_max,
            (AxisSide::Within, AxisSide::Below) => le(self.min_y, probe.y_hi),
            (AxisSide::Within, AxisSide::Within) => true,
            (AxisSide::Within, AxisSide::Above) => le(probe.y_lo, self.max_y),
            (AxisSide::Above, AxisSide::Below) => probe.corner_max_min,
            (AxisSide::Above, AxisSide::Within) => le(probe.x_lo, self.max_x),
            (AxisSide::Above, AxisSide::Above) => probe.corner_max_max,
        }
    }

    /// Where `c` stands against this box's x extent.
    pub fn axis_side_x(&self, c: u32) -> (r: AxisSide)
        ensures
            r == spec_axis_side(self.min_x, self.max_x, c),
    {
        if lt(c, self.min_x) {
            AxisSide::Below
        } else if le(c, self.max_x) {
            AxisSide::Within
        } else {
            AxisSide::Above
        }
    }

    /// Where `c` stands against this box's y extent.
    pub fn axis_side_y(&self, c: u32) -> (r: AxisSide)
        ensures
            r == spec_axis_side(self.min_y, self.max_y, c),
    {
        if lt(c, self.min_y) {
            AxisSide::Below
        } else if le(c, self.max_y) {
            AxisSide::Within
        } else {
            AxisSide::Above
        }
    }

    /// The two boxes overlap.
    pub fn intersect(&self, other: AABB) -> (r: bool)
        ensures
            r == (le_bits(self.min_x, other.max_x) && le_bits(other.min_x, self.max_x)
                && le_bits(self.min_y, other.max_y) && le_bits(other.min_y, self.max_y)),
    {
        le(self.min_x, other.max_x) && le(other.min_x, self.max_x) && le(self.min_y, other.max_y)
            && le(other.min_y, self.max_y)
    }

    /// Boxes compare as IEEE values, field by field.
    pub fn same_box(&self, other: &AABB) -> (r: bool)
        ensures
            r == eq_box(*self, *other),
    {
        crate::scalar::feq(self.min_x, other.min_x) && crate::scalar::feq(self.max_x, other.max_x)
            && crate::scalar::feq(self.min_y, other.min_y)
            && crate::scalar::feq(self.max_y, other.max_y)
    }
}


/// A box keeps containing a point while it grows.
proof fn lemma_absorb_monotone(b: AABB, q: (u32, u32), px: u32, py: u32)
    requires
        wf_box(b),
        !is_nan_bits(q.0),
        !is_nan_bits(q.1),
        spec_contains_point(b, px, py),
    ensures
        spec_contains_point(spec_absorb(b, q.0, q.1), px, py),
        wf_box(spec_absorb(b, q.0, q.1)),
{
}

/// A grown box contains the point it just absorbed.
proof fn lemma_absorb_self(b: AABB, q: (u32, u32))
    requires
        wf_box(b),
        !is_nan_bits(q.0),
        !is_nan_bits(q.1),
    ensures
        spec_contains_point(spec_absorb(b, q.0, q.1), q.0, q.1),
{
}

/// The box built over a run of points contains every point of the run,
/// provided no coordinate is NaN (a NaN never compares inside any box).
pub proof fn lemma_scan_points_contains(pts: Seq<(u32, u32)>)
    requires
        pts.len() > 0,
        forall|i: int|
            0 <= i < pts.len() ==> !is_nan_bits(#[trigger] pts[i].0) && !is_nan_bits(pts[i].1),
    ensures
        wf_box(spec_scan_points(pts)),
        forall|i: int|
            0 <= i < pts.len() ==> spec_contains_point(
                spec_scan_points(pts),
                #[trigger] pts[i].0,
                pts[i].1,
            ),
    decreases pts.len(),
{
    if pts.len() == 1 {
    } else {
        let prefix = pts.drop_last();
        assert(forall|i: int| 0 <= i < prefix.len() ==> prefix[i] == pts[i]);
        lemma_scan_points_contains(prefix);
        let b = spec_scan_points(prefix);
        let q = pts.last();
        assert(!is_nan_bits(pts[pts.len() - 1].0) && !is_nan_bits(pts[pts.len() - 1].1));
        lemma_absorb_self(b, q);
        assert forall|i: int| 0 <= i < pts.len() implies spec_contains_point(
            spec_scan_points(pts),
            #[trigger] pts[i].0,
            pts[i].1,
        ) by {
            if i < pts.len() - 1 {
                assert(prefix[i] == pts[i]);
                assert(spec_contains_point(b, pts[i].0, pts[i].1));
                lemma_absorb_monotone(b, q, pts[i].0, pts[i].1);
            } else {
                assert(spec_contains_point(spec_absorb(b, q.0, q.1), q.0, q.1));
            }
        }
    }
}

/// A circle of radius zero centered exactly on a box edge is contained:
/// when both coordinates classify as within the box (which a point on an
/// edge does), containment holds outright.
pub proof fn lemma_circle_on_edge_contained(b: AABB, x: u32, y: u32, probe: CircleProbe)
    requires
        spec_axis_side(b.min_x, b.max_x, x) == AxisSide::Within,
        spec_axis_side(b.min_y, b.max_y, y) == AxisSide::Within,
    ensures
        spec_contains_circle(b, x, y, probe),
{
}

/// A circle wholly outside the box on some axis is not contained: on that
/// axis the center and the supplied center-plus-radius (or minus-radius)
/// both fall past the box's near edge, and the two corner tests on that
/// side report no overlap.
pub proof fn lemma_circle_fully_outside(b: AABB, x: u32, y: u32, probe: CircleProbe)
    requires
        wf_box(b),
        ({
            ||| lt_bits(x, b.min_x) && lt_bits(probe.x_hi, b.min_x) && !probe.corner_min_min
                && !probe.corner_min_max
            ||| lt_bits(b.max_x, x) && lt_bits(b.max_x, probe.x_lo) && !probe.corner_max_min
                && !probe.corner_max_max
            ||| lt_bits(y, b.min_y) && lt_bits(probe.y_hi, b.min_y) && !probe.corner_min_min
                && !probe.corner_max_min
            ||| lt_bits(b.max_y, y) && lt_bits(b.max_y, probe.y_lo) && !probe.corner_min_max
                && !probe.corner_max_max
        }),
    ensures
        !spec_contains_circle(b, x, y, probe),
{
}

/// Merging boxes is commutative: both orders give the same box as IEEE
/// values, whichever way ties between a positive and a negative zero fall.
pub proof fn lemma_merge_commutative(a: AABB, b: AABB)
    requires
        wf_box(a),
        wf_box(b),
    ensures
        eq_box(spec_merge(a, b), spec_merge(b, a)),
{
}

/// Merging boxes is associative.
pub proof fn lemma_merge_associative(a: AABB, b: AABB, c: AABB)
    requires
        wf_box(a),
        wf_box(b),
        wf_box(c),
    ensures
        spec_merge(spec_merge(a, b), c) == spec_merge(a, spec_merge(b, c)),
{
}

} // verus!
