use vstd::prelude::*;
use crate::geom::{Coord, Line, MAX_COORD, coord_ok, line_ok, cross2, dot2, lemma_mul_bnd, cross_z, dot_z};
use crate::rat::{RPoint, RLine, RP_NUM_MAX, RP_DEN_MAX, rp_wf, rp3, rp_of_coord_spec};

verus! {

/// What two segments have in common: a single point, or a collinear overlap.
#[derive(Clone, Copy, PartialEq, Eq, Structural, Debug)]
pub enum Intersection {
    /// Normal one point intersection.
    Intersection(RPoint),
    /// Collinear overlapping.
    OverLap(RLine),
}

/// The single representative point of an intersection: an overlap is
/// collapsed to its start.
pub open spec fn single_spec(i: Intersection) -> RPoint {
    match i {
        Intersection::OverLap(a) => a.start,
        Intersection::Intersection(a) => a,
    }
}

impl Intersection {
    /// Returns a single, simple intersection point.
    pub fn single(&self) -> (r: RPoint)
        ensures
            r == single_spec(*self),
    {
        match self {
            Intersection::OverLap(a) => a.start,
            Intersection::Intersection(a) => *a,
        }
    }
}

/// The axis-aligned bounding boxes of the two segments are strictly disjoint
/// in some axis. Boxes that merely touch are not rejected.
pub open spec fn aabb_reject_spec(one: Line, other: Line) -> bool {
    ||| (one.end.x > other.end.x && one.end.x > other.start.x && one.start.x > other.end.x
        && one.start.x > other.start.x)
    ||| (one.end.x < other.end.x && one.end.x < other.start.x && one.start.x < other.end.x
        && one.start.x < other.start.x)
    ||| (one.end.y > other.end.y && one.end.y > other.start.y && one.start.y > other.end.y
        && one.start.y > other.start.y)
    ||| (one.end.y < other.end.y && one.end.y < other.start.y && one.start.y < other.end.y
        && one.start.y < other.start.y)
}

/// The grid point `c` lies on the closed segment `l`: it is collinear with
/// the segment and its projection parameter lies within the segment. For a
/// degenerate segment only the segment's own point qualifies.
pub open spec fn coord_on_line(l: Line, c: Coord) -> bool {
    if l.start == l.end {
        c == l.start
    } else {
        let ex = l.end.x - l.start.x;
        let ey = l.end.y - l.start.y;
        let cx = c.x - l.start.x;
        let cy = c.y - l.start.y;
        &&& cross2(ex, ey, cx, cy) == 0
        &&& 0 <= dot2(cx, cy, ex, ey) <= dot2(ex, ey, ex, ey)
    }
}

/// Intersection of a segment and a grid point: the point itself when it lies
/// on the segment, nothing otherwise.
pub open spec fn seg_point_spec(l: Line, c: Coord) -> Option<Intersection> {
    if coord_on_line(l, c) {
        Some(Intersection::Intersection(rp_of_coord_spec(c)))
    } else {
        None
    }
}

/// The intersection the analytic primitive reports for two segments,
/// following the case analysis on `r = one.end - one.start`,
/// `s = other.end - other.start` and `q - p = other.start - one.start`:
/// bounding-box rejection, then the parallel branch (degenerate segments,
/// collinear overlap, disjoint parallels), then the general branch, whose
/// point is a candidate that callers clip to both segments.
pub open spec fn isect_spec(one: Line, other: Line) -> Option<Intersection> {
    if aabb_reject_spec(one, other) {
        None
    } else {
        let rx = one.end.x - one.start.x;
        let ry = one.end.y - one.start.y;
        let sx = other.end.x - other.start.x;
        let sy = other.end.y - other.start.y;
        let qpx = other.start.x - one.start.x;
        let qpy = other.start.y - one.start.y;
        let rxs = cross2(rx, ry, sx, sy);
        if rxs == 0 {
            let one_pt = one.start == one.end;
            let other_pt = other.start == other.end;
            if one_pt || other_pt {
                if one_pt && other_pt && one.start == other.start {
                    Some(Intersection::Intersection(rp_of_coord_spec(one.start)))
                } else if one_pt {
                    seg_point_spec(other, one.start)
                } else {
                    seg_point_spec(one, other.start)
                }
            } else if cross2(qpx, qpy, rx, ry) == 0 {
                let rr = dot2(rx, ry, rx, ry);
                let d0 = dot2(qpx, qpy, rx, ry);
                let d1 = d0 + dot2(sx, sy, rx, ry);
                Some(Intersection::OverLap(RLine {
                    start: rp3(one.start.x * rr + d0 * rx, one.start.y * rr + d0 * ry, rr),
                    end: rp3(one.start.x * rr + d1 * rx, one.start.y * rr + d1 * ry, rr),
                }))
            } else {
                None
            }
        } else {
            let cn = cross2(qpx, qpy, sx, sy);
            let tn = if rxs < 0 { -cn } else { cn };
            let td = if rxs < 0 { -rxs } else { rxs };
            Some(Intersection::Intersection(rp3(
                one.start.x * td + tn * rx,
                one.start.y * td + tn * ry,
                td,
            )))
        }
    }
}

/// A well-formed result of the primitive: every carried point is a
/// well-formed rational point.
pub open spec fn isect_wf(r: Option<Intersection>) -> bool {
    match r {
        None => true,
        Some(Intersection::Intersection(p)) => rp_wf(p),
        Some(Intersection::OverLap(l)) => rp_wf(l.start) && rp_wf(l.end) && l.start.den == l.end.den,
    }
}

/// Get any intersection point between line segment and point.
pub fn intersect_line_point(line: &Line, point: &Coord) -> (r: Option<Intersection>)
    requires
        line_ok(*line),
        coord_ok(*point),
    ensures
        r == seg_point_spec(*line, *point),
        isect_wf(r),
{
    // take care of end point equality
    if line.start == *point {
        proof {
            if line.start != line.end {
                let ex = line.end.x - line.start.x;
                let ey = line.end.y - line.start.y;
                assert(cross2(ex as int, ey as int, 0, 0) == 0) by (nonlinear_arith);
                assert(dot2(0, 0, ex as int, ey as int) == 0) by (nonlinear_arith);
                assert(dot2(ex as int, ey as int, ex as int, ey as int) >= 0) by (nonlinear_arith);
            }
        }
        return Some(Intersection::Intersection(RPoint::from_coord(point)));
    }
    if line.end == *point {
        proof {
            let ex = line.end.x - line.start.x;
            let ey = line.end.y - line.start.y;
            assert(cross2(ex as int, ey as int, ex as int, ey as int) == 0) by (nonlinear_arith);
            assert(0 <= dot2(ex as int, ey as int, ex as int, ey as int)) by (nonlinear_arith);
        }
        return Some(Intersection::Intersection(RPoint::from_coord(point)));
    }
    if line.start == line.end {
        return None;
    }
    let ex: i64 = line.end.x - line.start.x;
    let ey: i64 = line.end.y - line.start.y;
    let cx: i64 = point.x - line.start.x;
    let cy: i64 = point.y - line.start.y;
    let cr: i128 = cross_z(ex, ey, cx, cy);
    let dt: i128 = dot_z(cx, cy, ex, ey);
    let ll: i128 = dot_z(ex, ey, ex, ey);
    if cr == 0 && 0 <= dt && dt <= ll {
        Some(Intersection::Intersection(RPoint::from_coord(point)))
    } else {
        None
    }
}

/// Get any intersection point between lines.
/// Note that this function always detects endpoint-to-endpoint intersections.
pub fn intersect(one: &Line, other: &Line) -> (r: Option<Intersection>)
    requires
        line_ok(*one),
        line_ok(*other),
    ensures
        r == isect_spec(*one, *other),
        isect_wf(r),
{
    // AABB tests
    if one.end.x > other.end.x
        && one.end.x > other.start.x
        && one.start.x > other.end.x
        && one.start.x > other.start.x
    {
        return None;
    }
    if one.end.x < other.end.x
        && one.end.x < other.start.x
        && one.start.x < other.end.x
        && one.start.x < other.start.x
    {
        return None;
    }
    if one.end.y > other.end.y
        && one.end.y > other.start.y
        && one.start.y > other.end.y
        && one.start.y > other.start.y
    {
        return None;
    }
    if one.end.y < other.end.y
        && one.end.y < other.start.y
        && one.start.y < other.end.y
        && one.start.y < other.start.y
    {
        return None;
    }
    let rx: i64 = one.end.x - one.start.x;
    let ry: i64 = one.end.y - one.start.y;
    let sx: i64 = other.end.x - other.start.x;
    let sy: i64 = other.end.y - other.start.y;
    let qpx: i64 = other.start.x - one.start.x;
    let qpy: i64 = other.start.y - one.start.y;

    let r_cross_s: i128 = cross_z(rx, ry, sx, sy);

    // If r x s = 0 then the two lines are parallel
    if r_cross_s == 0 {
        // one (or both) of the lines may be a point
        let one_is_a_point: bool = one.start == one.end;
        let other_is_a_point: bool = other.start == other.end;
        if one_is_a_point || other_is_a_point {
            if one_is_a_point && other_is_a_point && one.start == other.start {
                return Some(Intersection::Intersection(RPoint::from_coord(&one.start)));
            }
            if one_is_a_point {
                intersect_line_point(other, &one.start)
            } else {
                intersect_line_point(one, &other.start)
            }
        } else {
            let q_minus_p_cross_r: i128 = cross_z(qpx, qpy, rx, ry);
            // If r x s = 0 and (q - p) x r = 0, then the two lines are collinear.
            if q_minus_p_cross_r == 0 {
                let rr: i128 = dot_z(rx, ry, rx, ry);
                assert(rr >= 1) by (nonlinear_arith)
                    requires
                        rr == dot2(rx as int, ry as int, rx as int, ry as int),
                        !(rx == 0 && ry == 0),
                ;
                let d0: i128 = dot_z(qpx, qpy, rx, ry);
                let sr: i128 = dot_z(sx, sy, rx, ry);
                let d1: i128 = d0 + sr;
                proof {
                    lemma_mul_bnd(one.start.x as int, rr as int, MAX_COORD as int, RP_DEN_MAX as int);
                    lemma_mul_bnd(one.start.y as int, rr as int, MAX_COORD as int, RP_DEN_MAX as int);
                    lemma_mul_bnd(d0 as int, rx as int, 0x800000000, 131072);
                    lemma_mul_bnd(d0 as int, ry as int, 0x800000000, 131072);
                    lemma_mul_bnd(d1 as int, rx as int, 0x1000000000, 131072);
                    lemma_mul_bnd(d1 as int, ry as int, 0x1000000000, 131072);
                }
                Some(Intersection::OverLap(RLine {
                    start: RPoint {
                        xn: (one.start.x as i128) * rr + d0 * (rx as i128),
                        yn: (one.start.y as i128) * rr + d0 * (ry as i128),
                        den: rr,
                    },
                    end: RPoint {
                        xn: (one.start.x as i128) * rr + d1 * (rx as i128),
                        yn: (one.start.y as i128) * rr + d1 * (ry as i128),
                        den: rr,
                    },
                }))
            } else {
                // If r x s = 0 and (q - p) x r != 0,
                // then the two lines are parallel and non-intersecting.
                None
            }
        }
    } else {
        // the lines are not parallel
        let cn: i128 = cross_z(qpx, qpy, sx, sy);
        let tn: i128 = if r_cross_s < 0 { -cn } else { cn };
        let td: i128 = if r_cross_s < 0 { -r_cross_s } else { r_cross_s };
        proof {
            lemma_mul_bnd(one.start.x as int, td as int, MAX_COORD as int, RP_DEN_MAX as int);
            lemma_mul_bnd(one.start.y as int, td as int, MAX_COORD as int, RP_DEN_MAX as int);
            lemma_mul_bnd(tn as int, rx as int, 0x800000000, 131072);
            lemma_mul_bnd(tn as int, ry as int, 0x800000000, 131072);
        }
        Some(Intersection::Intersection(RPoint {
            xn: (one.start.x as i128) * td + tn * (rx as i128),
            yn: (one.start.y as i128) * td + tn * (ry as i128),
            den: td,
        }))
    }
}

/// Moves `point` by `scale` (the rational `num / den`) times `vector`,
/// exactly.
pub fn scale_to_coordinate(point: &Coord, vector: &Coord, num: i128, den: i128) -> (r: RPoint)
    requires
        coord_ok(*point),
        coord_ok(*vector),
        1 <= den <= RP_DEN_MAX,
        -0x1000000000 <= num <= 0x1000000000,
    ensures
        r == rp3(
            point.x * den + num * vector.x,
            point.y * den + num * vector.y,
            den as int,
        ),
        rp_wf(r),
{
    proof {
        lemma_mul_bnd(point.x as int, den as int, MAX_COORD as int, RP_DEN_MAX as int);
        lemma_mul_bnd(point.y as int, den as int, MAX_COORD as int, RP_DEN_MAX as int);
        lemma_mul_bnd(num as int, vector.x as int, 0x1000000000, MAX_COORD as int);
        lemma_mul_bnd(num as int, vector.y as int, 0x1000000000, MAX_COORD as int);
    }
    RPoint {
        xn: point.x as i128 * den + num * (vector.x as i128),
        yn: point.y as i128 * den + num * (vector.y as i128),
        den,
    }
}

} // verus!
