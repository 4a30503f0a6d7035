use vstd::prelude::*;
use crate::geom::{Coord, Line, MAX_COORD, line_ok, coord_ok, cross2, dot2, lemma_mul_bnd, cross_z, dot_z};
use crate::rat::{RPoint, RP_DEN_MAX, rp_wf, rp_eq, rp_of_coord_spec, rp3};
use crate::isect::{Intersection, isect_spec, intersect, aabb_reject_spec, coord_on_line};
use crate::util::{rec_wf, recs_wf};

verus! {

/// The two segments have a common endpoint.
pub open spec fn ends_share(a: Line, b: Line) -> bool {
    ||| a.start == b.start
    ||| a.start == b.end
    ||| a.end == b.start
    ||| a.end == b.end
}

/// The rational point `p` lies on the closed segment `l`: collinear with it,
/// with a projection parameter inside the segment. For a degenerate segment
/// only the segment's own point qualifies. `p.den > 0` is assumed.
pub open spec fn rp_on_line(l: Line, p: RPoint) -> bool {
    if l.start == l.end {
        rp_eq(p, rp_of_coord_spec(l.start))
    } else {
        let ex = l.end.x - l.start.x;
        let ey = l.end.y - l.start.y;
        let vx = p.xn - l.start.x * p.den;
        let vy = p.yn - l.start.y * p.den;
        &&& vx * ey - vy * ex == 0
        &&& 0 <= vx * ex + vy * ey <= p.den * dot2(ex, ey, ex, ey)
    }
}

proof fn lemma_cancel_pos_eq(x: int, y: int, d: int)
    by (nonlinear_arith)
    requires
        x * d == y * d,
        d >= 1,
    ensures
        x == y,
{
}

proof fn lemma_cancel_pos_le(x: int, y: int, d: int)
    by (nonlinear_arith)
    requires
        x * d <= y * d,
        d >= 1,
    ensures
        x <= y,
{
}

proof fn lemma_mul_transfer(aq: int, ap: int, e: int, pd: int, qd: int)
    by (nonlinear_arith)
    requires
        aq * pd == ap * qd,
    ensures
        (aq * e) * pd == (ap * e) * qd,
{
}

proof fn lemma_sub_mul(a: int, b: int, c: int)
    by (nonlinear_arith)
    ensures
        (a - b) * c == a * c - b * c,
{
}

proof fn lemma_add_mul(a: int, b: int, c: int)
    by (nonlinear_arith)
    ensures
        (a + b) * c == a * c + b * c,
{
}

proof fn lemma_mul_comm(a: int, b: int)
    by (nonlinear_arith)
    ensures
        a * b == b * a,
{
}

proof fn lemma_mul3_assoc(a: int, b: int, c: int)
    by (nonlinear_arith)
    ensures
        (a * b) * c == a * (b * c),
{
}

proof fn lemma_mul3_swap(a: int, b: int, c: int)
    by (nonlinear_arith)
    ensures
        (a * b) * c == (a * c) * b,
{
}

proof fn lemma_mul_sub_left(a: int, b: int, c: int)
    by (nonlinear_arith)
    ensures
        a * (b - c) == a * b - a * c,
{
}

proof fn lemma_mul_nonneg(a: int, b: int)
    by (nonlinear_arith)
    requires
        0 <= a,
        0 <= b,
    ensures
        0 <= a * b,
{
}

proof fn lemma_mul_le_right(a: int, b: int, c: int)
    by (nonlinear_arith)
    requires
        a <= b,
        0 <= c,
    ensures
        a * c <= b * c,
{
}

proof fn lemma_sign_cases(srr: int, t: int, d0: int, d1: int)
    by (nonlinear_arith)
    requires
        srr == d1 - d0,
        d0 <= d1 ==> (d0 <= t && t <= d1),
        d1 < d0 ==> (d1 <= t && t <= d0),
    ensures
        (t - d0) * srr >= 0,
        (t - d1) * srr <= 0,
{
}

proof fn lemma_mul4(a: int, b: int, c: int, d: int)
    by (nonlinear_arith)
    ensures
        (a * b) * (c * d) == (a * c) * (b * d),
{
}

proof fn lemma_mul_add_left(a: int, b: int, c: int)
    by (nonlinear_arith)
    ensures
        a * (b + c) == a * b + a * c,
{
}

proof fn lemma_zero_mul(c: int)
    by (nonlinear_arith)
    ensures
        0 * c == 0,
{
}

/// A vector parallel to `r` stays parallel to anything else parallel to
/// `r`: `(q - p) x s` vanishes when `(q - p) x r` and `r x s` do.
proof fn lemma_qp_cross_s_zero(qpx: int, qpy: int, rx: int, ry: int, sx: int, sy: int, rr: int)
    requires
        rr == rx * rx + ry * ry,
        rr >= 1,
        qpx * ry - qpy * rx == 0,
        rx * sy - ry * sx == 0,
    ensures
        qpx * sy - qpy * sx == 0,
{
    let a = qpx * sy - qpy * sx;
    let b = qpx * ry - qpy * rx;
    let c = sx * rx + sy * ry;
    let d = qpx * rx + qpy * ry;
    let e = rx * sy - ry * sx;
    lemma_mul_add_left(a, rx * rx, ry * ry);
    lemma_sub_mul(qpx * sy, qpy * sx, rx * rx);
    lemma_sub_mul(qpx * sy, qpy * sx, ry * ry);
    lemma_sub_mul(qpx * ry, qpy * rx, c);
    lemma_mul_add_left(qpx * ry, sx * rx, sy * ry);
    lemma_mul_add_left(qpy * rx, sx * rx, sy * ry);
    lemma_add_mul(qpx * rx, qpy * ry, e);
    lemma_mul_sub_left(qpx * rx, rx * sy, ry * sx);
    lemma_mul_sub_left(qpy * ry, rx * sy, ry * sx);
    lemma_mul_comm(rx, sy);
    lemma_mul_comm(ry, sx);
    lemma_mul_comm(sx, rx);
    lemma_mul_comm(sy, ry);
    lemma_mul4(qpx, ry, sy, ry);
    lemma_mul4(qpy, rx, sx, rx);
    lemma_mul4(qpx, rx, sy, rx);
    lemma_mul4(qpy, ry, sx, ry);
    lemma_mul4(qpx, ry, rx, sx);
    lemma_mul4(qpy, rx, ry, sy);
    assert(a * rr == b * c + d * e);
    lemma_zero_mul(c);
    lemma_zero_mul(e);
    assert(b * c == 0) by {
        assert(b * c == 0 * c);
    }
    assert(d * e == 0) by {
        lemma_mul_comm(d, e);
        assert(e * d == 0 * d);
        lemma_zero_mul(d);
    }
    lemma_cancel_pos_eq(a, 0, rr);
}

/// The dot product transfers along a common direction:
/// `((q-p) . s) (r . r) == ((q-p) . r)(s . r) - ((q-p) x r)(r x s)`.
proof fn lemma_qp_dot_s(qpx: int, qpy: int, rx: int, ry: int, sx: int, sy: int, rr: int)
    requires
        rr == rx * rx + ry * ry,
    ensures
        (qpx * sx + qpy * sy) * rr == (qpx * rx + qpy * ry) * (sx * rx + sy * ry) - (qpx * ry - qpy
            * rx) * (rx * sy - ry * sx),
{
    let c = sx * rx + sy * ry;
    let e = rx * sy - ry * sx;
    lemma_add_mul(qpx * sx, qpy * sy, rr);
    lemma_mul_add_left(qpx * sx, rx * rx, ry * ry);
    lemma_mul_add_left(qpy * sy, rx * rx, ry * ry);
    lemma_add_mul(qpx * rx, qpy * ry, c);
    lemma_mul_add_left(qpx * rx, sx * rx, sy * ry);
    lemma_mul_add_left(qpy * ry, sx * rx, sy * ry);
    lemma_sub_mul(qpx * ry, qpy * rx, e);
    lemma_mul_sub_left(qpx * ry, rx * sy, ry * sx);
    lemma_mul_sub_left(qpy * rx, rx * sy, ry * sx);
    lemma_mul_comm(sx, rx);
    lemma_mul_comm(sy, ry);
    lemma_mul_comm(rx, sy);
    lemma_mul_comm(ry, sx);
    lemma_mul4(qpx, rx, sx, rx);
    lemma_mul4(qpy, ry, sy, ry);
    lemma_mul4(qpx, ry, sx, ry);
    lemma_mul4(qpy, rx, sy, rx);
    lemma_mul4(qpx, rx, ry, sy);
    lemma_mul4(qpy, ry, rx, sx);
}

/// The Lagrange identity specialised to the plane:
/// `(s . s)(r . r) == (s . r)^2 + (r x s)^2`.
proof fn lemma_lagrange_plane(rx: int, ry: int, sx: int, sy: int, rr: int)
    requires
        rr == rx * rx + ry * ry,
    ensures
        (sx * sx + sy * sy) * rr == (sx * rx + sy * ry) * (sx * rx + sy * ry) + (rx * sy - ry * sx)
            * (rx * sy - ry * sx),
{
    let c = sx * rx + sy * ry;
    let e = rx * sy - ry * sx;
    lemma_add_mul(sx * sx, sy * sy, rr);
    lemma_mul_add_left(sx * sx, rx * rx, ry * ry);
    lemma_mul_add_left(sy * sy, rx * rx, ry * ry);
    lemma_add_mul(sx * rx, sy * ry, c);
    lemma_mul_add_left(sx * rx, sx * rx, sy * ry);
    lemma_mul_add_left(sy * ry, sx * rx, sy * ry);
    lemma_sub_mul(rx * sy, ry * sx, e);
    lemma_mul_sub_left(rx * sy, rx * sy, ry * sx);
    lemma_mul_sub_left(ry * sx, rx * sy, ry * sx);
    lemma_mul4(sx, rx, sx, rx);
    lemma_mul4(sy, ry, sy, ry);
    lemma_mul4(rx, sy, rx, sy);
    lemma_mul4(ry, sx, ry, sx);
    lemma_mul_comm(rx * rx, sy * sy);
    lemma_mul_comm(ry * ry, sx * sx);
    lemma_mul4(sx, rx, sy, ry);
    lemma_mul4(rx, sy, ry, sx);
    lemma_mul4(sy, ry, sx, rx);
    lemma_mul4(ry, sx, rx, sy);
    lemma_mul_comm(sx * sy, rx * ry);
    lemma_mul_comm(sy * sx, rx * ry);
    lemma_mul_comm(sx, sy);
    lemma_mul_comm(rx, ry);
}

/// Lying on a segment is a property of the denoted point of the plane: it
/// carries over to any other representation of the same rational point.
pub proof fn lemma_rp_on_line_transfer(l: Line, p: RPoint, q: RPoint)
    requires
        p.den >= 1,
        q.den >= 1,
        rp_eq(p, q),
        rp_on_line(l, p),
    ensures
        rp_on_line(l, q),
{
    let ax = l.start.x as int;
    let ay = l.start.y as int;
    let pd = p.den as int;
    let qd = q.den as int;
    if l.start == l.end {
        let cx = l.start.x as int;
        let cy = l.start.y as int;
        assert((q.xn as int) * pd == (cx * qd) * pd) by (nonlinear_arith)
            requires
                (p.xn as int) * qd == (q.xn as int) * pd,
                (p.xn as int) * 1 == cx * pd,
        ;
        lemma_cancel_pos_eq(q.xn as int, cx * qd, pd);
        assert((q.yn as int) * pd == (cy * qd) * pd) by (nonlinear_arith)
            requires
                (p.yn as int) * qd == (q.yn as int) * pd,
                (p.yn as int) * 1 == cy * pd,
        ;
        lemma_cancel_pos_eq(q.yn as int, cy * qd, pd);
    } else {
        let ex = (l.end.x - l.start.x) as int;
        let ey = (l.end.y - l.start.y) as int;
        let vxp = (p.xn as int) - ax * pd;
        let vyp = (p.yn as int) - ay * pd;
        let vxq = (q.xn as int) - ax * qd;
        let vyq = (q.yn as int) - ay * qd;
        assert(vxq * pd == vxp * qd && vyq * pd == vyp * qd) by (nonlinear_arith)
            requires
                vxq == (q.xn as int) - ax * qd,
                vxp == (p.xn as int) - ax * pd,
                vyq == (q.yn as int) - ay * qd,
                vyp == (p.yn as int) - ay * pd,
                (p.xn as int) * qd == (q.xn as int) * pd,
                (p.yn as int) * qd == (q.yn as int) * pd,
        ;
        lemma_mul_transfer(vxq, vxp, ey, pd, qd);
        lemma_mul_transfer(vyq, vyp, ex, pd, qd);
        lemma_mul_transfer(vxq, vxp, ex, pd, qd);
        lemma_mul_transfer(vyq, vyp, ey, pd, qd);
        let crq = vxq * ey - vyq * ex;
        let crp = vxp * ey - vyp * ex;
        lemma_sub_mul(vxq * ey, vyq * ex, pd);
        lemma_sub_mul(vxp * ey, vyp * ex, qd);
        assert(crq * pd == crp * qd);
        assert(crp == 0);
        lemma_cancel_pos_eq(crq, 0, pd);
        let dtq = vxq * ex + vyq * ey;
        let dtp = vxp * ex + vyp * ey;
        lemma_add_mul(vxq * ex, vyq * ey, pd);
        lemma_add_mul(vxp * ex, vyp * ey, qd);
        assert(dtq * pd == dtp * qd);
        let ll = dot2(ex, ey, ex, ey);
        assert(0 * pd <= dtq * pd) by (nonlinear_arith)
            requires
                dtq * pd == dtp * qd,
                dtp >= 0,
                qd >= 1,
        ;
        lemma_cancel_pos_le(0, dtq, pd);
        assert(dtq * pd <= (qd * ll) * pd) by (nonlinear_arith)
            requires
                dtq * pd == dtp * qd,
                dtp <= pd * ll,
                qd >= 1,
                pd >= 1,
        ;
        lemma_cancel_pos_le(dtq, qd * ll, pd);
    }
}

/// The rational point `p` lies on the closed segment `l`.
pub fn rp_on_seg(l: &Line, p: &RPoint) -> (r: bool)
    requires
        line_ok(*l),
        rp_wf(*p),
    ensures
        r == rp_on_line(*l, *p),
{
    if l.start == l.end {
        return p.eq_coord(&l.start);
    }
    let ex: i64 = l.end.x - l.start.x;
    let ey: i64 = l.end.y - l.start.y;
    proof {
        lemma_mul_bnd(l.start.x as int, p.den as int, MAX_COORD as int, RP_DEN_MAX as int);
        lemma_mul_bnd(l.start.y as int, p.den as int, MAX_COORD as int, RP_DEN_MAX as int);
    }
    let vx: i128 = p.xn - (l.start.x as i128) * p.den;
    let vy: i128 = p.yn - (l.start.y as i128) * p.den;
    let ll: i128 = dot_z(ex, ey, ex, ey);
    proof {
        lemma_mul_bnd(vx as int, ey as int, 0x80000000000000, 131072);
        lemma_mul_bnd(vy as int, ex as int, 0x80000000000000, 131072);
        lemma_mul_bnd(vx as int, ex as int, 0x80000000000000, 131072);
        lemma_mul_bnd(vy as int, ey as int, 0x80000000000000, 131072);
        lemma_mul_bnd(p.den as int, ll as int, RP_DEN_MAX as int, 0x800000000);
    }
    vx * (ey as i128) - vy * (ex as i128) == 0
        && 0 <= vx * (ex as i128) + vy * (ey as i128)
        && vx * (ex as i128) + vy * (ey as i128) <= p.den * ll
}

/// A collinear overlap of the two segments really meets both: the overlap's
/// parameter range along `one` meets `[0, 1]`.
pub open spec fn overlap_ok(one: Line, other: Line) -> bool {
    let rx = one.end.x - one.start.x;
    let ry = one.end.y - one.start.y;
    let sx = other.end.x - other.start.x;
    let sy = other.end.y - other.start.y;
    let qpx = other.start.x - one.start.x;
    let qpy = other.start.y - one.start.y;
    let rr = dot2(rx, ry, rx, ry);
    let d0 = dot2(qpx, qpy, rx, ry);
    let d1 = d0 + dot2(sx, sy, rx, ry);
    let lo = if d0 <= d1 { d0 } else { d1 };
    let hi = if d0 <= d1 { d1 } else { d0 };
    lo <= rr && hi >= 0
}

/// What the pairwise driver reports for the ordered pair `(a, b)`: nothing
/// when the exclusive policy skips segments sharing an endpoint; otherwise
/// the representative point of their actual intersection — the candidate
/// point clipped to both segments, or a valid overlap's start.
pub open spec fn pair_hit(a: Line, b: Line, exclusive: bool) -> Option<RPoint> {
    if exclusive && ends_share(a, b) {
        None
    } else {
        match isect_spec(a, b) {
            None => None,
            Some(Intersection::Intersection(p)) => {
                if rp_on_line(a, p) && rp_on_line(b, p) {
                    Some(p)
                } else {
                    None
                }
            },
            Some(Intersection::OverLap(l)) => {
                if overlap_ok(a, b) {
                    Some(l.start)
                } else {
                    None
                }
            },
        }
    }
}

/// What the pairwise driver reports for `(a, b)`, executable form.
pub fn pair_hit_exec(a: &Line, b: &Line, exclusive: bool) -> (r: Option<RPoint>)
    requires
        line_ok(*a),
        line_ok(*b),
    ensures
        r == pair_hit(*a, *b, exclusive),
        r matches Some(p) ==> rp_wf(p),
{
    if exclusive
        && (a.start == b.start || a.start == b.end || a.end == b.start || a.end == b.end)
    {
        return None;
    }
    match intersect(a, b) {
        None => None,
        Some(Intersection::Intersection(p)) => {
            if rp_on_seg(a, &p) && rp_on_seg(b, &p) {
                Some(p)
            } else {
                None
            }
        },
        Some(Intersection::OverLap(l)) => {
            let rx: i64 = a.end.x - a.start.x;
            let ry: i64 = a.end.y - a.start.y;
            let sx: i64 = b.end.x - b.start.x;
            let sy: i64 = b.end.y - b.start.y;
            let qpx: i64 = b.start.x - a.start.x;
            let qpy: i64 = b.start.y - a.start.y;
            let rr: i128 = dot_z(rx, ry, rx, ry);
            let d0: i128 = dot_z(qpx, qpy, rx, ry);
            let d1: i128 = d0 + dot_z(sx, sy, rx, ry);
            let lo: i128 = if d0 <= d1 { d0 } else { d1 };
            let hi: i128 = if d0 <= d1 { d1 } else { d0 };
            if lo <= rr && hi >= 0 {
                Some(l.start)
            } else {
                None
            }
        },
    }
}

/// One record of the pairwise driver for the pair `(i, j)`, as a sequence of
/// zero or one entries.
pub open spec fn pair_entry(segs: Seq<Line>, exclusive: bool, i: int, j: int) -> Seq<(
    RPoint,
    Seq<usize>,
)> {
    match pair_hit(segs[i], segs[j], exclusive) {
        Some(p) => seq![(p, seq![i as usize, j as usize])],
        None => seq![],
    }
}

/// The driver's records for the pairs `(i, j), (i, j + 1), ...` of one row.
pub open spec fn brute_row(segs: Seq<Line>, exclusive: bool, i: int, j: int) -> Seq<(
    RPoint,
    Seq<usize>,
)>
    decreases segs.len() - j,
{
    if j < segs.len() {
        pair_entry(segs, exclusive, i, j) + brute_row(segs, exclusive, i, j + 1)
    } else {
        seq![]
    }
}

/// The driver's records for all rows from `i` on.
pub open spec fn brute_from(segs: Seq<Line>, exclusive: bool, i: int) -> Seq<(RPoint, Seq<usize>)>
    decreases segs.len() - i,
{
    if i < segs.len() {
        brute_row(segs, exclusive, i, i + 1) + brute_from(segs, exclusive, i + 1)
    } else {
        seq![]
    }
}

/// Every record of the pairwise driver over unordered pairs `(i, j)` with
/// `i < j`, in row-major enumeration order.
pub open spec fn brute_recs(segs: Seq<Line>, exclusive: bool) -> Seq<(RPoint, Seq<usize>)> {
    brute_from(segs, exclusive, 0)
}

/// Some unordered pair of segments is reported by the pairwise driver.
pub open spec fn some_pair_hits(segs: Seq<Line>, exclusive: bool) -> bool {
    exists |i: int, j: int|
        0 <= i < j < segs.len() && pair_hit(segs[i], segs[j], exclusive) is Some
}

/// The view of the records a driver returns.
pub open spec fn recs_view(s: Seq<(RPoint, Vec<usize>)>) -> Seq<(RPoint, Seq<usize>)> {
    s.map_values(|t: (RPoint, Vec<usize>)| (t.0, t.1@))
}

/// Every segment of the collection lies on the admitted grid.
pub open spec fn all_lines_ok(segs: Seq<Line>) -> bool {
    forall |k: int| 0 <= k < segs.len() ==> line_ok(#[trigger] segs[k])
}

/// Enumerates unordered pairs `(i, j)` with `i < j` and reports every actual
/// intersection, in `(i` ascending, then `j` ascending`)` order.
pub fn brute_force(segs: &Vec<Line>, exclusive: bool) -> (r: Vec<(RPoint, Vec<usize>)>)
    requires
        all_lines_ok(segs@),
    ensures
        recs_view(r@) == brute_recs(segs@, exclusive),
        forall |k: int| 0 <= k < r@.len() ==> rp_wf(#[trigger] r@[k].0),
{
    let n: usize = segs.len();
    let mut rv: Vec<(RPoint, Vec<usize>)> = Vec::new();
    assert(recs_view(rv@) =~= seq![]);
    let mut i: usize = 0;
    while i < n
        invariant
            n == segs.len(),
            all_lines_ok(segs@),
            i <= n,
            forall |k: int| 0 <= k < rv@.len() ==> rp_wf(#[trigger] rv@[k].0),
            recs_view(rv@) + brute_from(segs@, exclusive, i as int) =~= brute_recs(
                segs@,
                exclusive,
            ),
        decreases n - i,
    {
        let mut j: usize = i + 1;
        while j < n
            invariant
                n == segs.len(),
                all_lines_ok(segs@),
                i < n,
                i < j <= n,
                forall |k: int| 0 <= k < rv@.len() ==> rp_wf(#[trigger] rv@[k].0),
                recs_view(rv@) + brute_row(segs@, exclusive, i as int, j as int) + brute_from(
                    segs@,
                    exclusive,
                    i as int + 1,
                ) =~= brute_recs(segs@, exclusive),
            decreases n - j,
        {
            let ghost rv0 = rv@;
            match pair_hit_exec(&segs[i], &segs[j], exclusive) {
                Some(p) => {
                    let mut idx: Vec<usize> = Vec::new();
                    idx.push(i);
                    idx.push(j);
                    assert(idx@ =~= seq![i, j]);
                    rv.push((p, idx));
                    proof {
                        assert(recs_view(rv@) =~= recs_view(rv0).push((p, seq![i, j])));
                    }
                },
                None => {
                },
            }
            proof {
                assert(recs_view(rv@) =~= recs_view(rv0) + pair_entry(
                    segs@,
                    exclusive,
                    i as int,
                    j as int,
                ));
                assert(recs_view(rv@) + brute_row(segs@, exclusive, i as int, j as int + 1)
                    + brute_from(segs@, exclusive, i as int + 1) =~= recs_view(rv0) + brute_row(
                    segs@,
                    exclusive,
                    i as int,
                    j as int,
                ) + brute_from(segs@, exclusive, i as int + 1));
            }
            j = j + 1;
        }
        proof {
            assert(brute_row(segs@, exclusive, i as int, n as int) =~= seq![]);
            assert(recs_view(rv@) + brute_from(segs@, exclusive, i as int + 1) =~= recs_view(rv@)
                + brute_row(segs@, exclusive, i as int, n as int) + brute_from(
                segs@,
                exclusive,
                i as int + 1,
            ));
        }
        i = i + 1;
    }
    proof {
        assert(brute_from(segs@, exclusive, n as int) =~= seq![]);
        assert(recs_view(rv@) =~= recs_view(rv@) + brute_from(segs@, exclusive, n as int));
    }
    rv
}

/// Whether some pair of segments is reported by the pairwise driver; stops at
/// the first reported pair.
pub fn brute_any(segs: &Vec<Line>, exclusive: bool) -> (r: bool)
    requires
        all_lines_ok(segs@),
    ensures
        r == some_pair_hits(segs@, exclusive),
{
    let n: usize = segs.len();
    let mut i: usize = 0;
    while i < n
        invariant
            n == segs.len(),
            all_lines_ok(segs@),
            i <= n,
            forall |a: int, b: int|
                0 <= a < b < segs@.len() && a < i ==> pair_hit(segs@[a], segs@[b], exclusive) is None,
        decreases n - i,
    {
        let mut j: usize = i + 1;
        while j < n
            invariant
                n == segs.len(),
                all_lines_ok(segs@),
                i < n,
                i < j <= n,
                forall |a: int, b: int|
                    0 <= a < b < segs@.len() && a < i ==> pair_hit(segs@[a], segs@[b], exclusive)
                        is None,
                forall |b: int|
                    i < b < j ==> pair_hit(segs@[i as int], segs@[b], exclusive) is None,
            decreases n - j,
        {
            if pair_hit_exec(&segs[i], &segs[j], exclusive).is_some() {
                assert(some_pair_hits(segs@, exclusive)) by {
                    assert(pair_hit(segs@[i as int], segs@[j as int], exclusive) is Some);
                }
                return true;
            }
            j = j + 1;
        }
        i = i + 1;
    }
    false
}

/// Every record of one driver row lists the two indices of its pair, in
/// ascending order and in range.
proof fn lemma_brute_row_wf(segs: Seq<Line>, exclusive: bool, i: int, j: int)
    requires
        segs.len() <= usize::MAX,
        0 <= i < segs.len(),
        i < j,
    ensures
        recs_wf(brute_row(segs, exclusive, i, j), segs.len() as int),
    decreases segs.len() - j,
{
    let n = segs.len() as int;
    if j < n {
        lemma_brute_row_wf(segs, exclusive, i, j + 1);
        let row = brute_row(segs, exclusive, i, j);
        let e = pair_entry(segs, exclusive, i, j);
        let rest = brute_row(segs, exclusive, i, j + 1);
        assert forall |k: int| 0 <= k < row.len() implies rec_wf(#[trigger] row[k], n) by {
            if k < e.len() {
                assert(row[k] == e[0]);
                assert(e[0].1 == seq![i as usize, j as usize]);
                assert(e[0].1.len() == 2);
                assert(e[0].1[0] == i as usize && e[0].1[1] == j as usize);
            } else {
                assert(row[k] == rest[k - e.len()]);
                assert(rec_wf(rest[k - e.len()], n));
            }
        }
    }
}

/// Every record of the pairwise driver lists two distinct indices, sorted
/// ascending and in range.
pub proof fn lemma_brute_wf(segs: Seq<Line>, exclusive: bool)
    requires
        segs.len() <= usize::MAX,
    ensures
        recs_wf(brute_recs(segs, exclusive), segs.len() as int),
{
    lemma_brute_from_wf(segs, exclusive, 0);
}

proof fn lemma_brute_from_wf(segs: Seq<Line>, exclusive: bool, i: int)
    requires
        segs.len() <= usize::MAX,
        0 <= i,
    ensures
        recs_wf(brute_from(segs, exclusive, i), segs.len() as int),
    decreases segs.len() - i,
{
    let n = segs.len() as int;
    if i < n {
        lemma_brute_row_wf(segs, exclusive, i, i + 1);
        lemma_brute_from_wf(segs, exclusive, i + 1);
        let all = brute_from(segs, exclusive, i);
        let row = brute_row(segs, exclusive, i, i + 1);
        let rest = brute_from(segs, exclusive, i + 1);
        assert forall |k: int| 0 <= k < all.len() implies rec_wf(#[trigger] all[k], n) by {
            if k < row.len() {
                assert(all[k] == row[k]);
            } else {
                assert(all[k] == rest[k - row.len()]);
            }
        }
    }
}

/// A collection of fewer than two segments yields no record.
pub proof fn lemma_brute_small(segs: Seq<Line>, exclusive: bool)
    requires
        segs.len() <= 1,
    ensures
        brute_recs(segs, exclusive) =~= seq![],
{
    if segs.len() == 1 {
        assert(brute_row(segs, exclusive, 0, 1) =~= seq![]);
        assert(brute_from(segs, exclusive, 1) =~= seq![]);
    }
}

proof fn lemma_row_any(segs: Seq<Line>, exclusive: bool, i: int, j: int)
    requires
        0 <= i < segs.len(),
        i < j,
    ensures
        brute_row(segs, exclusive, i, j).len() > 0 <==> exists |b: int|
            j <= b < segs.len() && pair_hit(segs[i], #[trigger] segs[b], exclusive) is Some,
    decreases segs.len() - j,
{
    let n = segs.len() as int;
    if j < n {
        lemma_row_any(segs, exclusive, i, j + 1);
        if pair_hit(segs[i], segs[j], exclusive) is Some {
            assert(brute_row(segs, exclusive, i, j).len() > 0);
        }
    }
}

proof fn lemma_from_any(segs: Seq<Line>, exclusive: bool, i: int)
    requires
        0 <= i,
    ensures
        brute_from(segs, exclusive, i).len() > 0 <==> exists |a: int, b: int|
            i <= a < b < segs.len() && pair_hit(#[trigger] segs[a], #[trigger] segs[b], exclusive)
                is Some,
    decreases segs.len() - i,
{
    let n = segs.len() as int;
    if i < n {
        lemma_row_any(segs, exclusive, i, i + 1);
        lemma_from_any(segs, exclusive, i + 1);
    }
}

/// The grid point moved by the vector `(dx, dy)`.
pub open spec fn translate_coord(c: Coord, dx: int, dy: int) -> Coord {
    Coord { x: (c.x + dx) as i64, y: (c.y + dy) as i64 }
}

/// The segment moved by the vector `(dx, dy)`.
pub open spec fn translate_line(l: Line, dx: int, dy: int) -> Line {
    Line { start: translate_coord(l.start, dx, dy), end: translate_coord(l.end, dx, dy) }
}

/// Every segment of the collection moved by the vector `(dx, dy)`.
pub open spec fn translate_segs(segs: Seq<Line>, dx: int, dy: int) -> Seq<Line> {
    segs.map_values(|l: Line| translate_line(l, dx, dy))
}

/// The segment's endpoints stay on the admitted grid after moving by
/// `(dx, dy)`.
pub open spec fn line_translate_ok(l: Line, dx: int, dy: int) -> bool {
    &&& -MAX_COORD <= l.start.x + dx <= MAX_COORD
    &&& -MAX_COORD <= l.start.y + dy <= MAX_COORD
    &&& -MAX_COORD <= l.end.x + dx <= MAX_COORD
    &&& -MAX_COORD <= l.end.y + dy <= MAX_COORD
}

/// Translating both segments of a pair neither creates nor destroys its
/// reported intersection: the driver's test depends on coordinate
/// differences alone, and its reported point moves along.
#[verifier::rlimit(100)]
#[verifier::spinoff_prover]
proof fn lemma_pair_hit_translate(a: Line, b: Line, dx: int, dy: int, exclusive: bool)
    requires
        line_ok(a),
        line_ok(b),
        line_translate_ok(a, dx, dy),
        line_translate_ok(b, dx, dy),
    ensures
        pair_hit(translate_line(a, dx, dy), translate_line(b, dx, dy), exclusive) is Some
            <==> pair_hit(a, b, exclusive) is Some,
{
    let ta = translate_line(a, dx, dy);
    let tb = translate_line(b, dx, dy);
    assert(ta.start.x == a.start.x + dx && ta.start.y == a.start.y + dy && ta.end.x == a.end.x + dx
        && ta.end.y == a.end.y + dy);
    assert(tb.start.x == b.start.x + dx && tb.start.y == b.start.y + dy && tb.end.x == b.end.x + dx
        && tb.end.y == b.end.y + dy);
    assert(ends_share(ta, tb) == ends_share(a, b));
    assert(aabb_reject_spec(ta, tb) == aabb_reject_spec(a, b));
    if !aabb_reject_spec(a, b) {
        let rx = a.end.x - a.start.x;
        let ry = a.end.y - a.start.y;
        let sx = b.end.x - b.start.x;
        let sy = b.end.y - b.start.y;
        let qpx = b.start.x - a.start.x;
        let qpy = b.start.y - a.start.y;
        assert(ta.end.x - ta.start.x == rx && ta.end.y - ta.start.y == ry);
        assert(tb.end.x - tb.start.x == sx && tb.end.y - tb.start.y == sy);
        assert(tb.start.x - ta.start.x == qpx && tb.start.y - ta.start.y == qpy);
        let rxs = cross2(rx, ry, sx, sy);
        assert((ta.start == ta.end) == (a.start == a.end));
        assert((tb.start == tb.end) == (b.start == b.end));
        if rxs == 0 {
            if a.start == a.end || b.start == b.end {
                if a.start == a.end && b.start == b.end && a.start == b.start {
                    assert((ta.start == tb.start) == (a.start == b.start));
                } else if a.start == a.end {
                    assert((ta.start == tb.start) == (a.start == b.start));
                    lemma_coord_on_line_translate(b, a.start, dx, dy);
                } else {
                    lemma_coord_on_line_translate(a, b.start, dx, dy);
                }
            } else if cross2(qpx, qpy, rx, ry) == 0 {
                assert(overlap_ok(ta, tb) == overlap_ok(a, b));
            }
        } else {
            // the general branch: the candidate point moves by the same
            // vector, so its membership in either segment is unchanged
            let cn = cross2(qpx, qpy, sx, sy);
            let tn = if rxs < 0 { -cn } else { cn };
            let td = if rxs < 0 { -rxs } else { rxs };
            let p = rp3(a.start.x * td + tn * rx, a.start.y * td + tn * ry, td);
            let tp = rp3(ta.start.x * td + tn * rx, ta.start.y * td + tn * ry, td);
            assert(isect_spec(a, b) == Some(Intersection::Intersection(p)));
            assert(isect_spec(ta, tb) == Some(Intersection::Intersection(tp)));
            assert((a.start.x + dx) * td == a.start.x * td + dx * td) by (nonlinear_arith);
            assert((a.start.y + dy) * td == a.start.y * td + dy * td) by (nonlinear_arith);
            assert((b.start.x + dx) * td == b.start.x * td + dx * td) by (nonlinear_arith);
            assert((b.start.y + dy) * td == b.start.y * td + dy * td) by (nonlinear_arith);
            assert(-0x800000000 <= td <= 0x800000000 && -0x800000000 <= tn <= 0x800000000) by {
                lemma_mul_bnd(rx, sy, 131072, 131072);
                lemma_mul_bnd(ry, sx, 131072, 131072);
                lemma_mul_bnd(qpx, sy, 131072, 131072);
                lemma_mul_bnd(qpy, sx, 131072, 131072);
            }
            assert(p.xn == a.start.x * td + tn * rx && p.yn == a.start.y * td + tn * ry && p.den
                == td) by {
                lemma_mul_bnd(a.start.x as int, td, MAX_COORD as int, 0x800000000);
                lemma_mul_bnd(a.start.y as int, td, MAX_COORD as int, 0x800000000);
                lemma_mul_bnd(tn, rx, 0x800000000, 131072);
                lemma_mul_bnd(tn, ry, 0x800000000, 131072);
            }
            assert(tp.xn == ta.start.x * td + tn * rx && tp.yn == ta.start.y * td + tn * ry
                && tp.den == td) by {
                lemma_mul_bnd(ta.start.x as int, td, MAX_COORD as int, 0x800000000);
                lemma_mul_bnd(ta.start.y as int, td, MAX_COORD as int, 0x800000000);
                lemma_mul_bnd(tn, rx, 0x800000000, 131072);
                lemma_mul_bnd(tn, ry, 0x800000000, 131072);
            }
            assert(rp_on_line(ta, tp) == rp_on_line(a, p));
            assert(rp_on_line(tb, tp) == rp_on_line(b, p));
        }
    }
}

/// A grid point lies on a segment exactly when both moved by the same
/// vector still relate so.
proof fn lemma_coord_on_line_translate(l: Line, c: Coord, dx: int, dy: int)
    requires
        line_ok(l),
        coord_ok(c),
        line_translate_ok(l, dx, dy),
        -MAX_COORD <= c.x + dx <= MAX_COORD,
        -MAX_COORD <= c.y + dy <= MAX_COORD,
    ensures
        coord_on_line(translate_line(l, dx, dy), translate_coord(c, dx, dy)) == coord_on_line(
            l,
            c,
        ),
{
    let tl = translate_line(l, dx, dy);
    let tc = translate_coord(c, dx, dy);
    assert((tl.start == tl.end) == (l.start == l.end));
    assert((tc == tl.start) == (c == l.start));
    if l.start != l.end {
        assert(tl.end.x - tl.start.x == l.end.x - l.start.x);
        assert(tl.end.y - tl.start.y == l.end.y - l.start.y);
        assert(tc.x - tl.start.x == c.x - l.start.x);
        assert(tc.y - tl.start.y == c.y - l.start.y);
    }
}

/// Moving every segment by one vector preserves the number of reported
/// intersections and every record's contributor indices.
pub proof fn lemma_brute_translate(segs: Seq<Line>, dx: int, dy: int, exclusive: bool)
    requires
        segs.len() <= usize::MAX,
        forall |k: int| 0 <= k < segs.len() ==> line_ok(#[trigger] segs[k]),
        forall |k: int| 0 <= k < segs.len() ==> line_translate_ok(#[trigger] segs[k], dx, dy),
    ensures
        brute_recs(translate_segs(segs, dx, dy), exclusive).len() == brute_recs(
            segs,
            exclusive,
        ).len(),
        forall |k: int|
            0 <= k < brute_recs(segs, exclusive).len() ==> (#[trigger] brute_recs(
                translate_segs(segs, dx, dy),
                exclusive,
            )[k]).1 == brute_recs(segs, exclusive)[k].1,
{
    lemma_brute_from_translate(segs, dx, dy, exclusive, 0);
}

proof fn lemma_brute_row_translate(segs: Seq<Line>, dx: int, dy: int, exclusive: bool, i: int, j: int)
    requires
        segs.len() <= usize::MAX,
        forall |k: int| 0 <= k < segs.len() ==> line_ok(#[trigger] segs[k]),
        forall |k: int| 0 <= k < segs.len() ==> line_translate_ok(#[trigger] segs[k], dx, dy),
        0 <= i < segs.len(),
        i < j,
    ensures
        brute_row(translate_segs(segs, dx, dy), exclusive, i, j).len() == brute_row(
            segs,
            exclusive,
            i,
            j,
        ).len(),
        forall |k: int|
            0 <= k < brute_row(segs, exclusive, i, j).len() ==> (#[trigger] brute_row(
                translate_segs(segs, dx, dy),
                exclusive,
                i,
                j,
            )[k]).1 == brute_row(segs, exclusive, i, j)[k].1,
    decreases segs.len() - j,
{
    let tsegs = translate_segs(segs, dx, dy);
    assert(tsegs.len() == segs.len());
    if j < segs.len() {
        lemma_brute_row_translate(segs, dx, dy, exclusive, i, j + 1);
        assert(tsegs[i] == translate_line(segs[i], dx, dy));
        assert(tsegs[j] == translate_line(segs[j], dx, dy));
        lemma_pair_hit_translate(segs[i], segs[j], dx, dy, exclusive);
        let e = pair_entry(segs, exclusive, i, j);
        let te = pair_entry(tsegs, exclusive, i, j);
        assert(te.len() == e.len());
        let rest = brute_row(segs, exclusive, i, j + 1);
        let trest = brute_row(tsegs, exclusive, i, j + 1);
        assert forall |k: int|
            0 <= k < brute_row(segs, exclusive, i, j).len() implies (#[trigger] brute_row(
            tsegs,
            exclusive,
            i,
            j,
        )[k]).1 == brute_row(segs, exclusive, i, j)[k].1 by {
            if k < e.len() {
                assert(brute_row(tsegs, exclusive, i, j)[k] == te[k]);
                assert(brute_row(segs, exclusive, i, j)[k] == e[k]);
            } else {
                assert(brute_row(tsegs, exclusive, i, j)[k] == trest[k - e.len()]);
                assert(brute_row(segs, exclusive, i, j)[k] == rest[k - e.len()]);
            }
        }
    }
}

proof fn lemma_brute_from_translate(segs: Seq<Line>, dx: int, dy: int, exclusive: bool, i: int)
    requires
        segs.len() <= usize::MAX,
        forall |k: int| 0 <= k < segs.len() ==> line_ok(#[trigger] segs[k]),
        forall |k: int| 0 <= k < segs.len() ==> line_translate_ok(#[trigger] segs[k], dx, dy),
        0 <= i,
    ensures
        brute_from(translate_segs(segs, dx, dy), exclusive, i).len() == brute_from(
            segs,
            exclusive,
            i,
        ).len(),
        forall |k: int|
            0 <= k < brute_from(segs, exclusive, i).len() ==> (#[trigger] brute_from(
                translate_segs(segs, dx, dy),
                exclusive,
                i,
            )[k]).1 == brute_from(segs, exclusive, i)[k].1,
    decreases segs.len() - i,
{
    let tsegs = translate_segs(segs, dx, dy);
    assert(tsegs.len() == segs.len());
    if i < segs.len() {
        lemma_brute_row_translate(segs, dx, dy, exclusive, i, i + 1);
        lemma_brute_from_translate(segs, dx, dy, exclusive, i + 1);
        let row = brute_row(segs, exclusive, i, i + 1);
        let trow = brute_row(tsegs, exclusive, i, i + 1);
        let rest = brute_from(segs, exclusive, i + 1);
        let trest = brute_from(tsegs, exclusive, i + 1);
        assert forall |k: int|
            0 <= k < brute_from(segs, exclusive, i).len() implies (#[trigger] brute_from(
            tsegs,
            exclusive,
            i,
        )[k]).1 == brute_from(segs, exclusive, i)[k].1 by {
            if k < row.len() {
                assert(brute_from(tsegs, exclusive, i)[k] == trow[k]);
                assert(brute_from(segs, exclusive, i)[k] == row[k]);
            } else {
                assert(brute_from(tsegs, exclusive, i)[k] == trest[k - row.len()]);
                assert(brute_from(segs, exclusive, i)[k] == rest[k - row.len()]);
            }
        }
    }
}

/// The rational point equals one of the segment's endpoints.
pub open spec fn rp_is_end(l: Line, p: RPoint) -> bool {
    rp_eq(p, rp_of_coord_spec(l.start)) || rp_eq(p, rp_of_coord_spec(l.end))
}

/// No two segments of the collection share a point that is interior to
/// either: every point held in common by two segments is an endpoint of
/// both.
pub open spec fn only_mutual_endpoint_sharing(segs: Seq<Line>) -> bool {
    forall |i: int, j: int, p: RPoint|
        #![trigger rp_on_line(segs[i], p), rp_on_line(segs[j], p)]
        0 <= i < j < segs.len() && p.den > 0 && rp_on_line(segs[i], p) && rp_on_line(segs[j], p)
            ==> rp_is_end(segs[i], p) && rp_is_end(segs[j], p)
}

/// A rational point equal to two grid points makes those grid points equal.
proof fn lemma_rp_eq_two_coords(p: RPoint, ca: Coord, cb: Coord)
    requires
        p.den >= 1,
        rp_eq(p, rp_of_coord_spec(ca)),
        rp_eq(p, rp_of_coord_spec(cb)),
    ensures
        ca == cb,
{
    assert(p.xn * 1 == (ca.x as int) * p.den && p.yn * 1 == (ca.y as int) * p.den);
    assert(p.xn * 1 == (cb.x as int) * p.den && p.yn * 1 == (cb.y as int) * p.den);
    assert(ca.x == cb.x) by (nonlinear_arith)
        requires
            (ca.x as int) * (p.den as int) == (cb.x as int) * (p.den as int),
            p.den >= 1,
    ;
    assert(ca.y == cb.y) by (nonlinear_arith)
        requires
            (ca.y as int) * (p.den as int) == (cb.y as int) * (p.den as int),
            p.den >= 1,
    ;
}

/// A point both segments hold, when they hold it only at endpoints of both,
/// makes a pair of their endpoints coincide — which the exclusive policy
/// already skips. So the pair reports nothing.
proof fn lemma_pair_none_when_only_endpoints(a: Line, b: Line)
    requires
        line_ok(a),
        line_ok(b),
        forall |p: RPoint|
            (p.den > 0 && #[trigger] rp_on_line(a, p) && rp_on_line(b, p)) ==> (rp_is_end(a, p)
                && rp_is_end(b, p)),
    ensures
        pair_hit(a, b, true) is None,
{
    if ends_share(a, b) {
        return;
    }
    let rx = a.end.x - a.start.x;
    let ry = a.end.y - a.start.y;
    let sx = b.end.x - b.start.x;
    let sy = b.end.y - b.start.y;
    let qpx = b.start.x - a.start.x;
    let qpy = b.start.y - a.start.y;
    let rxs = cross2(rx, ry, sx, sy);
    match isect_spec(a, b) {
        None => {},
        Some(Intersection::Intersection(p)) => {
            if rp_on_line(a, p) && rp_on_line(b, p) {
                assert(p.den > 0) by {
                    if !aabb_reject_spec(a, b) && rxs != 0 {
                        lemma_mul_bnd(rx as int, sy as int, 131072, 131072);
                        lemma_mul_bnd(ry as int, sx as int, 131072, 131072);
                    }
                }
                assert(rp_is_end(a, p) && rp_is_end(b, p));
                if rp_eq(p, rp_of_coord_spec(a.start)) {
                    if rp_eq(p, rp_of_coord_spec(b.start)) {
                        lemma_rp_eq_two_coords(p, a.start, b.start);
                    } else {
                        lemma_rp_eq_two_coords(p, a.start, b.end);
                    }
                } else {
                    if rp_eq(p, rp_of_coord_spec(b.start)) {
                        lemma_rp_eq_two_coords(p, a.end, b.start);
                    } else {
                        lemma_rp_eq_two_coords(p, a.end, b.end);
                    }
                }
                assert(false);
            }
        },
        Some(Intersection::OverLap(l)) => {
            if overlap_ok(a, b) {
                // the overlap branch ran: both segments are proper and
                // collinear, and share a stretch; its sweep-first point is a
                // shared point, which the premise makes an endpoint of both —
                // but then two endpoints coincide, against the skip check
                assert(!aabb_reject_spec(a, b) && rxs == 0 && a.start != a.end && b.start != b.end
                    && cross2(qpx as int, qpy as int, rx as int, ry as int) == 0);
                let rr = dot2(rx as int, ry as int, rx as int, ry as int);
                let d0 = dot2(qpx as int, qpy as int, rx as int, ry as int);
                let srr = dot2(sx as int, sy as int, rx as int, ry as int);
                let d1 = d0 + srr;
                assert(rr >= 1) by (nonlinear_arith)
                    requires
                        rr == rx * rx + ry * ry,
                        !(rx == 0 && ry == 0),
                ;
                let lo = if d0 <= d1 { d0 } else { d1 };
                let hi = if d0 <= d1 { d1 } else { d0 };
                assert(lo <= rr && hi >= 0);
                let t = if lo >= 0 { lo } else { 0 };
                assert(0 <= t && t <= rr && lo <= t && t <= hi);
                lemma_mul_bnd(qpx, rx, 131072, 131072);
                lemma_mul_bnd(qpy, ry, 131072, 131072);
                lemma_mul_bnd(sx, rx, 131072, 131072);
                lemma_mul_bnd(sy, ry, 131072, 131072);
                lemma_mul_bnd(rx, rx, 131072, 131072);
                lemma_mul_bnd(ry, ry, 131072, 131072);
                lemma_mul_bnd(a.start.x as int, rr, MAX_COORD as int, 0x800000000);
                lemma_mul_bnd(a.start.y as int, rr, MAX_COORD as int, 0x800000000);
                lemma_mul_bnd(b.start.x as int, rr, MAX_COORD as int, 0x800000000);
                lemma_mul_bnd(b.start.y as int, rr, MAX_COORD as int, 0x800000000);
                lemma_mul_bnd(t, rx, 0x1000000000, 131072);
                lemma_mul_bnd(t, ry, 0x1000000000, 131072);
                let pxn = a.start.x * rr + t * rx;
                let pyn = a.start.y * rr + t * ry;
                let p = RPoint { xn: pxn as i128, yn: pyn as i128, den: rr as i128 };
                assert(p.xn == pxn && p.yn == pyn && p.den == rr);
                // the shared point lies on the first segment
                assert(p.xn - a.start.x * p.den == t * rx);
                assert(p.yn - a.start.y * p.den == t * ry);
                lemma_mul3_swap(t, rx, ry);
                lemma_mul3_assoc(t, rx, rx);
                lemma_mul3_assoc(t, ry, ry);
                lemma_mul_add_left(t, rx * rx, ry * ry);
                assert((t * rx) * ry - (t * ry) * rx == 0);
                assert((t * rx) * rx + (t * ry) * ry == t * rr);
                lemma_mul_nonneg(t, rr);
                lemma_mul_le_right(t, rr, rr);
                assert(rp_on_line(a, p));
                // and on the second, by collinearity
                let vxb = t * rx - qpx * rr;
                let vyb = t * ry - qpy * rr;
                assert(qpx * rr == b.start.x * rr - a.start.x * rr) by {
                    lemma_sub_mul(b.start.x as int, a.start.x as int, rr);
                }
                assert(qpy * rr == b.start.y * rr - a.start.y * rr) by {
                    lemma_sub_mul(b.start.y as int, a.start.y as int, rr);
                }
                assert(p.xn - b.start.x * p.den == vxb);
                assert(p.yn - b.start.y * p.den == vyb);
                lemma_qp_cross_s_zero(qpx, qpy, rx, ry, sx, sy, rr);
                lemma_sub_mul(t * rx, qpx * rr, sy);
                lemma_sub_mul(t * ry, qpy * rr, sx);
                lemma_mul3_assoc(t, rx, sy);
                lemma_mul3_assoc(t, ry, sx);
                lemma_mul3_swap(qpx, rr, sy);
                lemma_mul3_swap(qpy, rr, sx);
                assert(rx * sy == ry * sx);
                assert(qpx * sy == qpy * sx);
                assert(vxb * sy - vyb * sx == 0);
                let c = sx * rx + sy * ry;
                assert(c == srr);
                let qpds = qpx * sx + qpy * sy;
                let num = vxb * sx + vyb * sy;
                lemma_sub_mul(t * rx, qpx * rr, sx);
                lemma_sub_mul(t * ry, qpy * rr, sy);
                lemma_mul3_assoc(t, rx, sx);
                lemma_mul3_assoc(t, ry, sy);
                lemma_mul3_swap(qpx, rr, sx);
                lemma_mul3_swap(qpy, rr, sy);
                lemma_mul_comm(rx, sx);
                lemma_mul_comm(ry, sy);
                lemma_mul_add_left(t, sx * rx, sy * ry);
                lemma_add_mul(qpx * sx, qpy * sy, rr);
                assert(num == t * c - qpds * rr);
                lemma_qp_dot_s(qpx, qpy, rx, ry, sx, sy, rr);
                assert(qpds * rr == d0 * c) by {
                    lemma_zero_mul(rx * sy - ry * sx);
                    assert((qpx * ry - qpy * rx) * (rx * sy - ry * sx) == 0 * (rx * sy - ry * sx));
                }
                lemma_lagrange_plane(rx, ry, sx, sy, rr);
                let ss = dot2(sx as int, sy as int, sx as int, sy as int);
                assert(ss * rr == c * c) by {
                    lemma_zero_mul(rx * sy - ry * sx);
                    assert((rx * sy - ry * sx) * (rx * sy - ry * sx) == 0 * (rx * sy - ry * sx));
                }
                lemma_sign_cases(srr, t, d0, d1);
                lemma_sub_mul(t * c, qpds * rr, rr);
                lemma_sub_mul(t, d0, c);
                lemma_sub_mul(t * c, d0 * c, rr);
                assert(num * rr == ((t - d0) * c) * rr);
                lemma_mul_nonneg((t - d0) * c, rr);
                lemma_zero_mul(rr);
                lemma_cancel_pos_le(0, num, rr);
                assert(t - d0 == (t - d1) + srr);
                lemma_add_mul(t - d1, srr, c);
                assert((t - d0) * c <= c * c);
                lemma_mul_le_right((t - d0) * c, c * c, rr);
                assert(num * rr <= (c * c) * rr);
                lemma_mul_comm(ss, rr);
                lemma_cancel_pos_le(num, rr * ss, rr);
                assert(rp_on_line(b, p));
                // the premise makes the shared point an endpoint of both
                assert(rp_is_end(a, p) && rp_is_end(b, p));
                if rp_eq(p, rp_of_coord_spec(a.start)) {
                    if rp_eq(p, rp_of_coord_spec(b.start)) {
                        lemma_rp_eq_two_coords(p, a.start, b.start);
                    } else {
                        lemma_rp_eq_two_coords(p, a.start, b.end);
                    }
                } else {
                    if rp_eq(p, rp_of_coord_spec(b.start)) {
                        lemma_rp_eq_two_coords(p, a.end, b.start);
                    } else {
                        lemma_rp_eq_two_coords(p, a.end, b.end);
                    }
                }
                assert(false);
            }
        },
    }
}

proof fn lemma_row_clean(segs: Seq<Line>, i: int, j: int)
    requires
        all_lines_ok(segs),
        only_mutual_endpoint_sharing(segs),
        0 <= i < segs.len(),
        i < j,
    ensures
        brute_row(segs, true, i, j).len() == 0,
    decreases segs.len() - j,
{
    if j < segs.len() {
        assert forall |p: RPoint|
            (p.den > 0 && #[trigger] rp_on_line(segs[i], p) && rp_on_line(segs[j], p)) implies (
        rp_is_end(segs[i], p) && rp_is_end(segs[j], p)) by {}
        lemma_pair_none_when_only_endpoints(segs[i], segs[j]);
        lemma_row_clean(segs, i, j + 1);
    }
}

proof fn lemma_from_clean(segs: Seq<Line>, i: int)
    requires
        all_lines_ok(segs),
        only_mutual_endpoint_sharing(segs),
        0 <= i,
    ensures
        brute_from(segs, true, i).len() == 0,
    decreases segs.len() - i,
{
    if i < segs.len() {
        lemma_row_clean(segs, i, i + 1);
        lemma_from_clean(segs, i + 1);
    }
}

/// When no pair of segments shares a point interior to either — every
/// commonly held point is an endpoint of both — the endpoint-excluding
/// driver reports nothing.
pub proof fn lemma_exclusive_empty_when_only_endpoint_sharing(segs: Seq<Line>)
    requires
        all_lines_ok(segs),
        only_mutual_endpoint_sharing(segs),
    ensures
        brute_recs(segs, true).len() == 0,
        !some_pair_hits(segs, true),
{
    lemma_from_clean(segs, 0);
    lemma_any_iff_some_record(segs, true);
}

/// The boolean driver agrees with the record driver: some pair is reported
/// exactly when the record list is non-empty.
pub proof fn lemma_any_iff_some_record(segs: Seq<Line>, exclusive: bool)
    ensures
        some_pair_hits(segs, exclusive) <==> brute_recs(segs, exclusive).len() > 0,
{
    lemma_from_any(segs, exclusive, 0);
}

} // verus!
