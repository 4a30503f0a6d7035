use vstd::prelude::*;

verus! {

/// Largest coordinate magnitude the library admits.
///
/// Keeping input coordinates within this bound lets every derived quantity
/// (cross products, intersection-point numerators, comparator products) be
/// computed exactly in `i128` without overflow.
pub const MAX_COORD: i64 = 65536;

/// A point of the integer input grid.
#[derive(Clone, Copy, PartialEq, Eq, Structural, Debug)]
pub struct Coord {
    pub x: i64,
    pub y: i64,
}

/// A line segment between two grid points. A degenerate segment
/// (`start == end`) is admitted and behaves as a point.
#[derive(Clone, Copy, PartialEq, Eq, Structural, Debug)]
pub struct Line {
    pub start: Coord,
    pub end: Coord,
}

impl Coord {
    pub fn new(x: i64, y: i64) -> (r: Coord)
        ensures
            r.x == x,
            r.y == y,
    {
        Coord { x, y }
    }
}

impl Line {
    pub fn new(start: Coord, end: Coord) -> (r: Line)
        ensures
            r.start == start,
            r.end == end,
    {
        Line { start, end }
    }
}

/// The coordinate lies on the admitted grid.
pub open spec fn coord_ok(c: Coord) -> bool {
    &&& -MAX_COORD <= c.x <= MAX_COORD
    &&& -MAX_COORD <= c.y <= MAX_COORD
}

/// Both endpoints lie on the admitted grid.
pub open spec fn line_ok(l: Line) -> bool {
    coord_ok(l.start) && coord_ok(l.end)
}

/// z component of the cross product of the vectors (ax, ay) and (bx, by).
pub open spec fn cross2(ax: int, ay: int, bx: int, by: int) -> int {
    ax * by - ay * bx
}

/// Dot product of the vectors (ax, ay) and (bx, by).
pub open spec fn dot2(ax: int, ay: int, bx: int, by: int) -> int {
    ax * bx + ay * by
}

/// A product of values bounded in magnitude is bounded by the product of the
/// bounds.
pub proof fn lemma_mul_bnd(a: int, b: int, aa: int, bb: int)
    by (nonlinear_arith)
    requires
        -aa <= a <= aa,
        -bb <= b <= bb,
    ensures
        -(aa * bb) <= a * b <= aa * bb,
{
}

/// The coordinate lies on the admitted grid, executable form.
pub fn coord_valid(c: &Coord) -> (r: bool)
    ensures
        r == coord_ok(*c),
{
    c.x >= -MAX_COORD && c.x <= MAX_COORD && c.y >= -MAX_COORD && c.y <= MAX_COORD
}

/// Both endpoints lie on the admitted grid, executable form.
pub fn line_valid(l: &Line) -> (r: bool)
    ensures
        r == line_ok(*l),
{
    coord_valid(&l.start) && coord_valid(&l.end)
}

/// z component of the cross product of the difference vectors `b - a` and
/// `d - c`, computed exactly.
pub(crate) fn cross_z(ax: i64, ay: i64, bx: i64, by: i64) -> (r: i128)
    requires
        -2 * MAX_COORD <= ax <= 2 * MAX_COORD,
        -2 * MAX_COORD <= ay <= 2 * MAX_COORD,
        -2 * MAX_COORD <= bx <= 2 * MAX_COORD,
        -2 * MAX_COORD <= by <= 2 * MAX_COORD,
    ensures
        r == cross2(ax as int, ay as int, bx as int, by as int),
        -0x800000000 <= r <= 0x800000000,
{
    proof {
        lemma_mul_bnd(ax as int, by as int, 131072, 131072);
        lemma_mul_bnd(ay as int, bx as int, 131072, 131072);
    }
    (ax as i128) * (by as i128) - (ay as i128) * (bx as i128)
}

/// Dot product of two difference vectors, computed exactly.
pub(crate) fn dot_z(ax: i64, ay: i64, bx: i64, by: i64) -> (r: i128)
    requires
        -2 * MAX_COORD <= ax <= 2 * MAX_COORD,
        -2 * MAX_COORD <= ay <= 2 * MAX_COORD,
        -2 * MAX_COORD <= bx <= 2 * MAX_COORD,
        -2 * MAX_COORD <= by <= 2 * MAX_COORD,
    ensures
        r == dot2(ax as int, ay as int, bx as int, by as int),
        -0x800000000 <= r <= 0x800000000,
{
    proof {
        lemma_mul_bnd(ax as int, bx as int, 131072, 131072);
        lemma_mul_bnd(ay as int, by as int, 131072, 131072);
    }
    (ax as i128) * (bx as i128) + (ay as i128) * (by as i128)
}

} // verus!
