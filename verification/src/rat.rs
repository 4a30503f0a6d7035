use vstd::prelude::*;
use crate::geom::{Coord, MAX_COORD, lemma_mul_bnd};

verus! {

/// Largest numerator magnitude a well-formed rational point may carry.
pub const RP_NUM_MAX: i128 = 0x40000000000000;

/// Largest denominator a well-formed rational point may carry.
pub const RP_DEN_MAX: i128 = 0x800000000;

/// A point of the plane with exact rational coordinates
/// `(xn / den, yn / den)`, sharing one positive denominator.
///
/// Intersection points of segments with grid endpoints are rational; this
/// type carries them exactly.
#[derive(Clone, Copy, PartialEq, Eq, Structural, Debug)]
pub struct RPoint {
    pub xn: i128,
    pub yn: i128,
    pub den: i128,
}

/// A segment with rational endpoints: the shape of a collinear overlap.
#[derive(Clone, Copy, PartialEq, Eq, Structural, Debug)]
pub struct RLine {
    pub start: RPoint,
    pub end: RPoint,
}

/// Well-formed rational point: positive denominator, bounded components.
pub open spec fn rp_wf(p: RPoint) -> bool {
    &&& 1 <= p.den <= RP_DEN_MAX
    &&& -RP_NUM_MAX <= p.xn <= RP_NUM_MAX
    &&& -RP_NUM_MAX <= p.yn <= RP_NUM_MAX
}

/// The two rational points denote the same point of the plane.
pub open spec fn rp_eq(a: RPoint, b: RPoint) -> bool {
    &&& a.xn * b.den == b.xn * a.den
    &&& a.yn * b.den == b.yn * a.den
}

/// Strict sweep order on the plane: increasing y, ties broken by increasing x.
pub open spec fn rp_sweep_lt(a: RPoint, b: RPoint) -> bool {
    ||| a.yn * b.den < b.yn * a.den
    ||| (a.yn * b.den == b.yn * a.den && a.xn * b.den < b.xn * a.den)
}

/// Builds the rational point with the given integer components; the spec-side
/// constructor used by the contracts of this module's clients.
pub open spec fn rp3(xn: int, yn: int, den: int) -> RPoint {
    RPoint { xn: xn as i128, yn: yn as i128, den: den as i128 }
}

/// The grid point `c` as a rational point.
pub open spec fn rp_of_coord_spec(c: Coord) -> RPoint {
    RPoint { xn: c.x as i128, yn: c.y as i128, den: 1 }
}

impl RPoint {
    /// The grid point `c` as a rational point with denominator one.
    pub fn from_coord(c: &Coord) -> (r: RPoint)
        ensures
            r == rp_of_coord_spec(*c),
    {
        RPoint { xn: c.x as i128, yn: c.y as i128, den: 1 }
    }

    /// Exact equality of the denoted points of the plane.
    pub fn eq_rp(&self, o: &RPoint) -> (r: bool)
        requires
            rp_wf(*self),
            rp_wf(*o),
        ensures
            r == rp_eq(*self, *o),
    {
        proof {
            lemma_mul_bnd(self.xn as int, o.den as int, RP_NUM_MAX as int, RP_DEN_MAX as int);
            lemma_mul_bnd(o.xn as int, self.den as int, RP_NUM_MAX as int, RP_DEN_MAX as int);
            lemma_mul_bnd(self.yn as int, o.den as int, RP_NUM_MAX as int, RP_DEN_MAX as int);
            lemma_mul_bnd(o.yn as int, self.den as int, RP_NUM_MAX as int, RP_DEN_MAX as int);
        }
        self.xn * o.den == o.xn * self.den && self.yn * o.den == o.yn * self.den
    }

    /// Strict sweep order: `self` is visited before `o` by a sweep that moves
    /// along increasing y, ties broken by increasing x.
    pub fn lt_sweep(&self, o: &RPoint) -> (r: bool)
        requires
            rp_wf(*self),
            rp_wf(*o),
        ensures
            r == rp_sweep_lt(*self, *o),
    {
        proof {
            lemma_mul_bnd(self.xn as int, o.den as int, RP_NUM_MAX as int, RP_DEN_MAX as int);
            lemma_mul_bnd(o.xn as int, self.den as int, RP_NUM_MAX as int, RP_DEN_MAX as int);
            lemma_mul_bnd(self.yn as int, o.den as int, RP_NUM_MAX as int, RP_DEN_MAX as int);
            lemma_mul_bnd(o.yn as int, self.den as int, RP_NUM_MAX as int, RP_DEN_MAX as int);
        }
        let ay = self.yn * o.den;
        let by = o.yn * self.den;
        ay < by || (ay == by && self.xn * o.den < o.xn * self.den)
    }

    /// The point equals the grid point `c`.
    pub fn eq_coord(&self, c: &Coord) -> (r: bool)
        requires
            rp_wf(*self),
            -MAX_COORD <= c.x <= MAX_COORD,
            -MAX_COORD <= c.y <= MAX_COORD,
        ensures
            r == rp_eq(*self, rp_of_coord_spec(*c)),
    {
        proof {
            lemma_mul_bnd(c.x as int, self.den as int, MAX_COORD as int, RP_DEN_MAX as int);
            lemma_mul_bnd(c.y as int, self.den as int, MAX_COORD as int, RP_DEN_MAX as int);
        }
        self.xn == (c.x as i128) * self.den && self.yn == (c.y as i128) * self.den
    }
}

} // verus!
