use vstd::prelude::*;

pub mod geom;
pub mod rat;
pub mod isect;
pub mod brute;
pub mod util;
pub mod algorithm;

use crate::geom::{Coord, Line, line_ok, coord_ok, line_valid};
use crate::rat::{RPoint, rp_wf};
use crate::brute::{all_lines_ok, brute_recs, some_pair_hits, pair_hit, recs_view, brute_force,
    brute_any, lemma_brute_wf, lemma_brute_small, lemma_any_iff_some_record};
use crate::algorithm::{AlgorithmData, erecs_wf, recs_sound, recs_distinct, recs_complete,
    pair_covered, some_point_pair_hits};
use crate::isect::{Intersection, isect_spec};
use crate::util::{sorted_distinct, all_lt};

verus! {

/// Errors surfaced at the library's boundary.
#[derive(Debug)]
pub enum IntersectError {
    /// An engine invariant was violated; should not occur on well-formed input.
    InternalError(String),
    /// A coordinate lies outside the admitted grid.
    InvalidData(String),
    /// Inclusive endpoint handling was requested for a polyline.
    InvalidSearchParameter(String),
    /// The results were already taken from the engine.
    ResultsAlreadyTaken(String),
}

/// Below this segment count the quadratic driver runs; at or above it, the
/// sweep.
pub const SWEEP_THRESHOLD: usize = 25;

/// Every segment of the collection lies on the admitted grid, executable
/// form.
pub fn validate_lines(segs: &Vec<Line>) -> (r: bool)
    ensures
        r == all_lines_ok(segs@),
{
    let mut i: usize = 0;
    while i < segs.len()
        invariant
            i <= segs@.len(),
            forall |w: int| 0 <= w < i ==> line_ok(#[trigger] segs@[w]),
        decreases segs@.len() - i,
    {
        if !line_valid(&segs[i]) {
            proof {
                assert(!line_ok(segs@[i as int]));
            }
            return false;
        }
        i = i + 1;
    }
    true
}

/// An owned copy of the segment collection.
fn copy_lines(segs: &Vec<Line>) -> (r: Vec<Line>)
    ensures
        r@ == segs@,
{
    let mut out: Vec<Line> = Vec::new();
    let mut i: usize = 0;
    while i < segs.len()
        invariant
            i <= segs@.len(),
            out@ =~= segs@.take(i as int),
        decreases segs@.len() - i,
    {
        out.push(segs[i]);
        i = i + 1;
    }
    proof {
        assert(out@ =~= segs@);
    }
    out
}

/// The intersection records of a segment collection: exact pairwise
/// enumeration below the sweep threshold, the sweep engine at or above it.
/// Input is validated first; a collection of fewer than two segments yields
/// no record; every record lists at least two distinct contributing indices,
/// sorted ascending.
pub fn self_intersection_records(segs: &Vec<Line>, exclusive: bool) -> (r: Result<
    Vec<(RPoint, Vec<usize>)>,
    IntersectError,
>)
    ensures
        !all_lines_ok(segs@) ==> (r matches Err(e) && e is InvalidData),
        all_lines_ok(segs@) ==> match r {
            Ok(v) => {
                &&& erecs_wf(v@, segs@.len() as int)
                &&& (segs@.len() < SWEEP_THRESHOLD ==> recs_view(v@) == brute_recs(
                    segs@,
                    exclusive,
                ))
                &&& (segs@.len() >= SWEEP_THRESHOLD ==> recs_sound(v@, segs@) && recs_distinct(v@)
                    && recs_complete(v@, segs@, exclusive))
                &&& (segs@.len() <= 1 ==> v@.len() == 0)
            },
            Err(e) => e is InternalError && segs@.len() >= SWEEP_THRESHOLD,
        },
{
    if !validate_lines(segs) {
        return Err(
            IntersectError::InvalidData("a coordinate lies outside the admitted grid".to_string()),
        );
    }
    if segs.len() < SWEEP_THRESHOLD {
        let v = brute_force(segs, exclusive);
        proof {
            lemma_brute_wf(segs@, exclusive);
            assert(recs_view(v@).len() == v@.len());
            assert forall |k: int| 0 <= k < v@.len() implies rp_wf((#[trigger] v@[k]).0) && (
            v@[k].1@.len() >= 2 && sorted_distinct(v@[k].1@) && all_lt(
                v@[k].1@,
                segs@.len() as int,
            )) by {
                assert(recs_view(v@)[k] == (v@[k].0, v@[k].1@));
                assert(crate::util::rec_wf(brute_recs(segs@, exclusive)[k], segs@.len() as int));
            }
            if segs@.len() <= 1 {
                lemma_brute_small(segs@, exclusive);
            }
        }
        Ok(v)
    } else {
        let owned = copy_lines(segs);
        let a = AlgorithmData::default();
        let a = match a.with_ignore_end_point_intersections(exclusive) {
            Ok(x) => x,
            Err(e) => {
                proof {
                    assert(false);
                }
                return Err(e);
            },
        };
        let a = match a.with_stop_at_first_intersection(false) {
            Ok(x) => x,
            Err(e) => {
                proof {
                    assert(false);
                }
                return Err(e);
            },
        };
        let mut a = match a.with_lines(owned) {
            Ok(x) => x,
            Err(e) => {
                proof {
                    assert(false);
                }
                return Err(e);
            },
        };
        match a.compute() {
            Ok(v) => Ok(v),
            Err(e) => Err(e),
        }
    }
}

/// Whether any two segments of the collection intersect: exact pairwise
/// scan below the sweep threshold, the sweep engine (stopping at the first
/// record) at or above it.
pub fn self_intersection_any(segs: &Vec<Line>, exclusive: bool) -> (r: Result<
    bool,
    IntersectError,
>)
    ensures
        !all_lines_ok(segs@) ==> (r matches Err(e) && e is InvalidData),
        all_lines_ok(segs@) ==> match r {
            Ok(b) => {
                &&& (segs@.len() < SWEEP_THRESHOLD ==> b == some_pair_hits(segs@, exclusive))
                &&& (segs@.len() >= SWEEP_THRESHOLD ==> (some_point_pair_hits(segs@, exclusive)
                    ==> b))
                &&& (segs@.len() <= 1 ==> !b)
            },
            Err(e) => e is InternalError && segs@.len() >= SWEEP_THRESHOLD,
        },
{
    if !validate_lines(segs) {
        return Err(
            IntersectError::InvalidData("a coordinate lies outside the admitted grid".to_string()),
        );
    }
    if segs.len() < SWEEP_THRESHOLD {
        let b = brute_any(segs, exclusive);
        Ok(b)
    } else {
        let owned = copy_lines(segs);
        let a = AlgorithmData::default();
        let a = match a.with_ignore_end_point_intersections(exclusive) {
            Ok(x) => x,
            Err(e) => {
                proof {
                    assert(false);
                }
                return Err(e);
            },
        };
        let a = match a.with_stop_at_first_intersection(true) {
            Ok(x) => x,
            Err(e) => {
                proof {
                    assert(false);
                }
                return Err(e);
            },
        };
        let mut a = match a.with_lines(owned) {
            Ok(x) => x,
            Err(e) => {
                proof {
                    assert(false);
                }
                return Err(e);
            },
        };
        match a.compute() {
            Ok(v) => {
                let b = v.len() > 0;
                proof {
                    if some_point_pair_hits(segs@, exclusive) && !b {
                        let (i, j) = choose |i: int, j: int|
                            0 <= i < j < segs@.len() && pair_hit(
                                #[trigger] segs@[i],
                                #[trigger] segs@[j],
                                exclusive,
                            ) is Some && (isect_spec(segs@[i], segs@[j]) matches Some(
                                Intersection::Intersection(_),
                            ));
                        assert(pair_covered(v@, segs@, exclusive, i, j));
                        assert(false);
                    }
                }
                Ok(b)
            },
            Err(e) => Err(e),
        }
    }
}

/// A sequence of vertices defining consecutive segments between adjacent
/// points; adjacent segments share a vertex by construction.
#[derive(Clone, Debug)]
pub struct LineString(pub Vec<Coord>);

/// Every vertex of the polyline lies on the admitted grid.
pub open spec fn all_coords_ok(pts: Seq<Coord>) -> bool {
    forall |k: int| 0 <= k < pts.len() ==> coord_ok(#[trigger] pts[k])
}

/// The consecutive segments of a polyline.
pub open spec fn polyline_lines(pts: Seq<Coord>) -> Seq<Line> {
    if pts.len() < 2 {
        Seq::empty()
    } else {
        Seq::new((pts.len() - 1) as nat, |k: int| Line { start: pts[k], end: pts[k + 1] })
    }
}

impl LineString {
    /// The polyline's consecutive segments.
    pub fn lines(&self) -> (r: Vec<Line>)
        ensures
            r@ == polyline_lines(self.0@),
    {
        let mut out: Vec<Line> = Vec::new();
        if self.0.len() < 2 {
            proof {
                assert(out@ =~= polyline_lines(self.0@));
            }
            return out;
        }
        let mut i: usize = 0;
        while i < self.0.len() - 1
            invariant
                self.0@.len() >= 2,
                i <= self.0@.len() - 1,
                out@ =~= polyline_lines(self.0@).take(i as int),
            decreases self.0@.len() - i,
        {
            out.push(Line { start: self.0[i], end: self.0[i + 1] });
            proof {
                assert(out@ =~= polyline_lines(self.0@).take(i + 1));
            }
            i = i + 1;
        }
        proof {
            assert(out@ =~= polyline_lines(self.0@));
        }
        out
    }

    /// Every vertex lies on the admitted grid, executable form.
    pub fn validate(&self) -> (r: bool)
        ensures
            r == all_coords_ok(self.0@),
    {
        let mut i: usize = 0;
        while i < self.0.len()
            invariant
                i <= self.0@.len(),
                forall |w: int| 0 <= w < i ==> coord_ok(#[trigger] self.0@[w]),
            decreases self.0@.len() - i,
        {
            if !crate::geom::coord_valid(&self.0[i]) {
                proof {
                    assert(!coord_ok(self.0@[i as int]));
                }
                return false;
            }
            i = i + 1;
        }
        true
    }
}

/// Vertices on the grid give segments on the grid.
proof fn lemma_polyline_lines_ok(pts: Seq<Coord>)
    requires
        all_coords_ok(pts),
    ensures
        all_lines_ok(polyline_lines(pts)),
{
    let ls = polyline_lines(pts);
    assert forall |k: int| 0 <= k < ls.len() implies line_ok(#[trigger] ls[k]) by {
        assert(coord_ok(pts[k]) && coord_ok(pts[k + 1]));
    }
}

/// The intersection records of a polyline, endpoints excluded — adjacent
/// segments share a vertex by construction, so only the exclusive policy is
/// meaningful. Validates the vertices; chooses the driver by vertex count.
pub fn polyline_self_intersections(pts: &LineString) -> (r: Result<
    Vec<(RPoint, Vec<usize>)>,
    IntersectError,
>)
    ensures
        !all_coords_ok(pts.0@) ==> (r matches Err(e) && e is InvalidData),
        all_coords_ok(pts.0@) ==> match r {
            Ok(v) => {
                &&& erecs_wf(v@, polyline_lines(pts.0@).len() as int)
                &&& (pts.0@.len() < SWEEP_THRESHOLD ==> recs_view(v@) == brute_recs(
                    polyline_lines(pts.0@),
                    true,
                ))
                &&& (pts.0@.len() >= SWEEP_THRESHOLD ==> recs_sound(v@, polyline_lines(pts.0@))
                    && recs_distinct(v@) && recs_complete(v@, polyline_lines(pts.0@), true))
                &&& (pts.0@.len() <= 2 ==> v@.len() == 0)
            },
            Err(e) => e is InternalError && pts.0@.len() >= SWEEP_THRESHOLD,
        },
{
    if !pts.validate() {
        return Err(
            IntersectError::InvalidData("a coordinate lies outside the admitted grid".to_string()),
        );
    }
    proof {
        lemma_polyline_lines_ok(pts.0@);
    }
    let segs = pts.lines();
    if pts.0.len() < SWEEP_THRESHOLD {
        let v = brute_force(&segs, true);
        proof {
            lemma_brute_wf(segs@, true);
            assert(recs_view(v@).len() == v@.len());
            assert forall |k: int| 0 <= k < v@.len() implies rp_wf((#[trigger] v@[k]).0) && (
            v@[k].1@.len() >= 2 && sorted_distinct(v@[k].1@) && all_lt(
                v@[k].1@,
                segs@.len() as int,
            )) by {
                assert(recs_view(v@)[k] == (v@[k].0, v@[k].1@));
                assert(crate::util::rec_wf(brute_recs(segs@, true)[k], segs@.len() as int));
            }
            if pts.0@.len() <= 2 {
                lemma_brute_small(segs@, true);
            }
        }
        Ok(v)
    } else {
        let a = AlgorithmData::default();
        let a = match a.with_ignore_end_point_intersections(true) {
            Ok(x) => x,
            Err(e) => {
                proof {
                    assert(false);
                }
                return Err(e);
            },
        };
        let mut a = match a.with_lines(segs) {
            Ok(x) => x,
            Err(e) => {
                proof {
                    assert(false);
                }
                return Err(e);
            },
        };
        match a.compute() {
            Ok(v) => Ok(v),
            Err(e) => Err(e),
        }
    }
}

/// Whether a polyline intersects itself, endpoints excluded.
pub fn polyline_is_self_intersecting(pts: &LineString) -> (r: Result<bool, IntersectError>)
    ensures
        !all_coords_ok(pts.0@) ==> (r matches Err(e) && e is InvalidData),
        all_coords_ok(pts.0@) ==> match r {
            Ok(b) => {
                &&& (pts.0@.len() < SWEEP_THRESHOLD ==> b == some_pair_hits(
                    polyline_lines(pts.0@),
                    true,
                ))
                &&& (pts.0@.len() >= SWEEP_THRESHOLD ==> (some_point_pair_hits(
                    polyline_lines(pts.0@),
                    true,
                ) ==> b))
                &&& (pts.0@.len() <= 2 ==> !b)
            },
            Err(e) => e is InternalError && pts.0@.len() >= SWEEP_THRESHOLD,
        },
{
    if !pts.validate() {
        return Err(
            IntersectError::InvalidData("a coordinate lies outside the admitted grid".to_string()),
        );
    }
    proof {
        lemma_polyline_lines_ok(pts.0@);
    }
    let segs = pts.lines();
    if pts.0.len() < SWEEP_THRESHOLD {
        let b = brute_any(&segs, true);
        Ok(b)
    } else {
        let a = AlgorithmData::default();
        let a = match a.with_ignore_end_point_intersections(true) {
            Ok(x) => x,
            Err(e) => {
                proof {
                    assert(false);
                }
                return Err(e);
            },
        };
        let a = match a.with_stop_at_first_intersection(true) {
            Ok(x) => x,
            Err(e) => {
                proof {
                    assert(false);
                }
                return Err(e);
            },
        };
        let mut a = match a.with_lines(segs) {
            Ok(x) => x,
            Err(e) => {
                proof {
                    assert(false);
                }
                return Err(e);
            },
        };
        match a.compute() {
            Ok(v) => {
                let b = v.len() > 0;
                proof {
                    let ls = polyline_lines(pts.0@);
                    if some_point_pair_hits(ls, true) && !b {
                        let (i, j) = choose |i: int, j: int|
                            0 <= i < j < ls.len() && pair_hit(
                                #[trigger] ls[i],
                                #[trigger] ls[j],
                                true,
                            ) is Some && (isect_spec(ls[i], ls[j]) matches Some(
                                Intersection::Intersection(_),
                            ));
                        assert(pair_covered(v@, ls, true, i, j));
                        assert(false);
                    }
                }
                Ok(b)
            },
            Err(e) => Err(e),
        }
    }
}

/// Self intersection tests where shared endpoints are not reported.
pub trait SelfIntersectingExclusive {
    /// Returns true if any line intersects any other line in the collection.
    fn is_self_intersecting(&self) -> Result<bool, IntersectError>;

    /// Returns a list of intersection points and the involved lines, if any
    /// intersections are found.
    fn self_intersections(&self) -> Result<Vec<(RPoint, Vec<usize>)>, IntersectError>;
}

/// Self intersection tests where shared endpoints are reported too.
pub trait SelfIntersectingInclusive {
    /// Returns true if any line intersects any other line in the collection.
    /// If the end points are identical they will be reported too.
    fn is_self_intersecting_inclusive(&self) -> Result<bool, IntersectError>;

    /// Returns a list of intersection points and the involved lines, if any
    /// intersections are found. If the end points are identical they will be
    /// reported too.
    fn self_intersections_inclusive(&self) -> Result<Vec<(RPoint, Vec<usize>)>, IntersectError>;
}

impl SelfIntersectingExclusive for Vec<Line> {
    fn is_self_intersecting(&self) -> Result<bool, IntersectError> {
        self_intersection_any(self, true)
    }

    fn self_intersections(&self) -> Result<Vec<(RPoint, Vec<usize>)>, IntersectError> {
        self_intersection_records(self, true)
    }
}

impl SelfIntersectingInclusive for Vec<Line> {
    fn is_self_intersecting_inclusive(&self) -> Result<bool, IntersectError> {
        self_intersection_any(self, false)
    }

    fn self_intersections_inclusive(&self) -> Result<Vec<(RPoint, Vec<usize>)>, IntersectError> {
        self_intersection_records(self, false)
    }
}

impl SelfIntersectingExclusive for LineString {
    fn is_self_intersecting(&self) -> Result<bool, IntersectError> {
        polyline_is_self_intersecting(self)
    }

    fn self_intersections(&self) -> Result<Vec<(RPoint, Vec<usize>)>, IntersectError> {
        polyline_self_intersections(self)
    }
}

impl SelfIntersectingInclusive for LineString {
    /// Adjacent polyline segments share a vertex by construction, so an
    /// inclusive run would report every joint; it is refused.
    fn is_self_intersecting_inclusive(&self) -> Result<bool, IntersectError> {
        Err(
            IntersectError::InvalidSearchParameter(
                "polylines admit only endpoint-excluding searches".to_string(),
            ),
        )
    }

    /// Adjacent polyline segments share a vertex by construction, so an
    /// inclusive run would report every joint; it is refused.
    fn self_intersections_inclusive(&self) -> Result<Vec<(RPoint, Vec<usize>)>, IntersectError> {
        Err(
            IntersectError::InvalidSearchParameter(
                "polylines admit only endpoint-excluding searches".to_string(),
            ),
        )
    }
}

/// Utility function converting a list of coordinate quadruples
/// `(x1, y1, x2, y2)` into a vec of Line.
pub fn to_lines(points: &Vec<(i64, i64, i64, i64)>) -> (r: Vec<Line>)
    ensures
        r@.len() == points@.len(),
        forall |k: int|
            0 <= k < points@.len() ==> #[trigger] r@[k] == (Line {
                start: Coord { x: points@[k].0, y: points@[k].1 },
                end: Coord { x: points@[k].2, y: points@[k].3 },
            }),
{
    let mut rv: Vec<Line> = Vec::new();
    let mut i: usize = 0;
    while i < points.len()
        invariant
            i <= points@.len(),
            rv@.len() == i,
            forall |k: int|
                0 <= k < i ==> #[trigger] rv@[k] == (Line {
                    start: Coord { x: points@[k].0, y: points@[k].1 },
                    end: Coord { x: points@[k].2, y: points@[k].3 },
                }),
        decreases points@.len() - i,
    {
        let p = points[i];
        rv.push(Line { start: Coord { x: p.0, y: p.1 }, end: Coord { x: p.2, y: p.3 } });
        i = i + 1;
    }
    rv
}

/// Returns true if the two coordinates are identical. On the exact integer
/// grid, coordinate equality is exact.
pub fn ulps_eq_c(a: &Coord, b: &Coord) -> (r: bool)
    ensures
        r == (*a == *b),
{
    a.x == b.x && a.y == b.y
}

/// Returns true if the two scalars are identical. On the exact integer
/// grid, scalar equality is exact.
pub fn ulps_eq(a: &i64, b: &i64) -> (r: bool)
    ensures
        r == (*a == *b),
{
    *a == *b
}

/// Under either endpoint policy the boolean check and the record list of the
/// pairwise driver agree: some pair is reported exactly when the record list
/// is non-empty.
pub proof fn lemma_is_self_intersecting_iff_records(segs: Seq<Line>, exclusive: bool)
    ensures
        some_pair_hits(segs, exclusive) <==> brute_recs(segs, exclusive).len() > 0,
{
    lemma_any_iff_some_record(segs, exclusive);
}

} // verus!
