use vstd::prelude::*;
use crate::geom::{Line, MAX_COORD, line_ok, dot2, dot_z, lemma_mul_bnd};
use crate::rat::{RPoint, RP_NUM_MAX, RP_DEN_MAX, rp_wf, rp_eq, rp_sweep_lt, rp3};
use crate::isect::{Intersection, intersect, isect_spec};
use crate::brute::{all_lines_ok, rp_on_seg, rp_on_line, pair_hit, pair_hit_exec,
    lemma_rp_on_line_transfer};
use crate::util::{sorted_distinct, all_lt, insert_sorted, insert_all_sorted, vec_contains,
    lemma_all_lt_union, lemma_all_lt_insert};
use crate::IntersectError;

verus! {

/// An event of the sweep: a point of the plane together with the segments
/// beginning there (upper endpoint), ending there (lower endpoint), and known
/// to pass through it as an interior crossing.
pub(crate) struct Event {
    pub p: RPoint,
    pub starting: Vec<usize>,
    pub ending: Vec<usize>,
    pub intersecting: Vec<usize>,
}

/// Which of an event's three sets a segment index is merged into.
pub(crate) enum EvKind {
    Start,
    End,
    Cross,
}

/// A well-formed event for `n` segments.
pub(crate) open spec fn event_wf(e: Event, n: int) -> bool {
    &&& rp_wf(e.p)
    &&& sorted_distinct(e.starting@) && all_lt(e.starting@, n)
    &&& sorted_distinct(e.ending@) && all_lt(e.ending@, n)
    &&& sorted_distinct(e.intersecting@) && all_lt(e.intersecting@, n)
}

/// Every queued event is well formed.
pub(crate) open spec fn events_wf(q: Seq<Event>, n: int) -> bool {
    forall |k: int| 0 <= k < q.len() ==> event_wf(#[trigger] q[k], n)
}

/// A well-formed record list for `n` segments: every record carries a
/// well-formed point and at least two distinct, ascending, in-range indices.
pub open spec fn erecs_wf(s: Seq<(RPoint, Vec<usize>)>, n: int) -> bool {
    forall |k: int|
        0 <= k < s.len() ==> rp_wf((#[trigger] s[k]).0) && (s[k].1@.len() >= 2 && sorted_distinct(
            s[k].1@,
        ) && all_lt(s[k].1@, n))
}

/// Every contributor of every record passes through the record's point.
pub open spec fn recs_sound(s: Seq<(RPoint, Vec<usize>)>, lines: Seq<Line>) -> bool {
    forall |k: int, w: int|
        0 <= k < s.len() && 0 <= w < s[k].1@.len() ==> rp_on_line(
            lines[(#[trigger] s[k].1@[w]) as int],
            s[k].0,
        )
}

/// No two records denote the same point of the plane.
pub open spec fn recs_distinct(s: Seq<(RPoint, Vec<usize>)>) -> bool {
    forall |k1: int, k2: int|
        0 <= k1 < k2 < s.len() ==> !rp_eq((#[trigger] s[k1]).0, (#[trigger] s[k2]).0)
}

/// The sweep-first endpoint of the stretch two collinear segments share,
/// clipped to the first segment: the point a collinear overlap is reported
/// at.
pub open spec fn overlap_rep(a: Line, b: Line) -> RPoint {
    let rx = a.end.x - a.start.x;
    let ry = a.end.y - a.start.y;
    let sx = b.end.x - b.start.x;
    let sy = b.end.y - b.start.y;
    let qpx = b.start.x - a.start.x;
    let qpy = b.start.y - a.start.y;
    let rr = dot2(rx, ry, rx, ry);
    let d0 = dot2(qpx, qpy, rx, ry);
    let d1 = d0 + dot2(sx, sy, rx, ry);
    let lo = if d0 <= d1 { d0 } else { d1 };
    let hi = if d0 <= d1 { d1 } else { d0 };
    let tl = if lo >= 0 { lo } else { 0 };
    let th = if hi <= rr { hi } else { rr };
    let pa = rp3(a.start.x * rr + tl * rx, a.start.y * rr + tl * ry, rr);
    let pb = rp3(a.start.x * rr + th * rx, a.start.y * rr + th * ry, rr);
    if rp_sweep_lt(pb, pa) {
        pb
    } else {
        pa
    }
}

/// The pair `(i, j)` is covered by the records: when the pairwise driver
/// reports it, some record holds both indices — at the driver's point when
/// the two segments meet at a single point, and at the shared stretch's
/// representative for a collinear overlap, as far as that representative
/// provably lies on both segments.
pub open spec fn pair_covered(
    s: Seq<(RPoint, Vec<usize>)>,
    lines: Seq<Line>,
    exclusive: bool,
    i: int,
    j: int,
) -> bool {
    match pair_hit(lines[i], lines[j], exclusive) {
        None => true,
        Some(p) => match isect_spec(lines[i], lines[j]) {
            Some(Intersection::Intersection(_)) => exists |k: int|
                0 <= k < s.len() && rp_eq((#[trigger] s[k]).0, p) && s[k].1@.contains(i as usize)
                    && s[k].1@.contains(j as usize),
            Some(Intersection::OverLap(_)) => {
                let w = overlap_rep(lines[i], lines[j]);
                (rp_on_line(lines[i], w) && rp_on_line(lines[j], w)) ==> exists |k: int|
                    0 <= k < s.len() && (#[trigger] s[k]).1@.contains(i as usize)
                        && s[k].1@.contains(j as usize)
            },
            None => true,
        },
    }
}

/// Every pair the pairwise driver reports is covered by some record.
pub open spec fn recs_complete(s: Seq<(RPoint, Vec<usize>)>, lines: Seq<Line>, exclusive: bool) -> bool {
    forall |i: int, j: int|
        0 <= i < j < lines.len() ==> pair_covered(s, lines, exclusive, i, j)
}

/// Some pair of segments meets at a single point the pairwise driver
/// reports.
pub open spec fn some_point_pair_hits(lines: Seq<Line>, exclusive: bool) -> bool {
    exists |i: int, j: int|
        0 <= i < j < lines.len() && pair_hit(#[trigger] lines[i], #[trigger] lines[j], exclusive)
            is Some && (isect_spec(lines[i], lines[j]) matches Some(
            Intersection::Intersection(_),
        ))
}

/// Index of a queued event at the same point of the plane, if one exists.
/// Distinct queue entries are kept for distinct points only, so new events
/// merge into an existing entry when one matches.
fn find_event(events: &Vec<Event>, p: &RPoint, Ghost(n): Ghost<int>) -> (r: Option<usize>)
    requires
        events_wf(events@, n),
        rp_wf(*p),
    ensures
        r matches Some(k) ==> k < events@.len(),
{
    let mut k: usize = 0;
    while k < events.len()
        invariant
            events_wf(events@, n),
            rp_wf(*p),
            k <= events@.len(),
        decreases events@.len() - k,
    {
        if events[k].p.eq_rp(p) {
            return Some(k);
        }
        k = k + 1;
    }
    None
}

/// Merges the segment index `idx` into the queue's event at point `p`,
/// creating the event when no queued point equals `p`.
fn queue_add(events: &mut Vec<Event>, p: RPoint, idx: usize, kind: EvKind, Ghost(n): Ghost<int>)
    requires
        events_wf(old(events)@, n),
        rp_wf(p),
        (idx as int) < n,
    ensures
        events_wf(final(events)@, n),
        final(events)@.len() <= old(events)@.len() + 1,
{
    let found = find_event(events, &p, Ghost(n));
    match found {
        Some(k) => {
            let mut e = events.remove(k);
            assert(event_wf(e, n)) by {
                assert(old(events)@[k as int] == e);
            }
            match kind {
                EvKind::Start => insert_sorted(&mut e.starting, idx),
                EvKind::End => insert_sorted(&mut e.ending, idx),
                EvKind::Cross => insert_sorted(&mut e.intersecting, idx),
            }
            proof {
                assert(all_lt(e.starting@, n) && all_lt(e.ending@, n) && all_lt(
                    e.intersecting@,
                    n,
                )) by {
                    assert forall |k2: int| 0 <= k2 < e.starting@.len() implies (
                    #[trigger] e.starting@[k2]) < n by {
                        assert(e.starting@.contains(e.starting@[k2]));
                    }
                    assert forall |k2: int| 0 <= k2 < e.ending@.len() implies (
                    #[trigger] e.ending@[k2]) < n by {
                        assert(e.ending@.contains(e.ending@[k2]));
                    }
                    assert forall |k2: int| 0 <= k2 < e.intersecting@.len() implies (
                    #[trigger] e.intersecting@[k2]) < n by {
                        assert(e.intersecting@.contains(e.intersecting@[k2]));
                    }
                }
            }
            events.push(e);
        },
        None => {
            let mut starting: Vec<usize> = Vec::new();
            let mut ending: Vec<usize> = Vec::new();
            let mut intersecting: Vec<usize> = Vec::new();
            match kind {
                EvKind::Start => starting.push(idx),
                EvKind::End => ending.push(idx),
                EvKind::Cross => intersecting.push(idx),
            }
            let e = Event { p, starting, ending, intersecting };
            events.push(e);
        },
    }
}

/// Removes and returns the sweep-least queued event.
fn pop_min(events: &mut Vec<Event>, Ghost(n): Ghost<int>) -> (e: Event)
    requires
        events_wf(old(events)@, n),
        old(events)@.len() > 0,
    ensures
        events_wf(final(events)@, n),
        event_wf(e, n),
        final(events)@.len() == old(events)@.len() - 1,
{
    let mut best: usize = 0;
    let mut k: usize = 1;
    while k < events.len()
        invariant
            events_wf(events@, n),
            events@.len() > 0,
            best < events@.len(),
            k <= events@.len(),
        decreases events@.len() - k,
    {
        if events[k].p.lt_sweep(&events[best].p) {
            best = k;
        }
        k = k + 1;
    }
    let e = events.remove(best);
    proof {
        assert(old(events)@[best as int] == e);
    }
    e
}

/// Orients a segment along the sweep: returns endpoints `(a, b)` with `a`
/// lexicographically first by `(y, x)`.
fn sweep_oriented(l: &Line) -> (r: (i64, i64, i64, i64))
    requires
        line_ok(*l),
    ensures
        -MAX_COORD <= r.0 <= MAX_COORD,
        -MAX_COORD <= r.1 <= MAX_COORD,
        -MAX_COORD <= r.2 <= MAX_COORD,
        -MAX_COORD <= r.3 <= MAX_COORD,
        r.1 <= r.3,
{
    let a = l.start;
    let b = l.end;
    if a.y < b.y || (a.y == b.y && a.x <= b.x) {
        (a.x, a.y, b.x, b.y)
    } else {
        (b.x, b.y, a.x, a.y)
    }
}

/// Compares a status segment's x position at the sweep line through `p`
/// against `p`'s own x: negative when the segment crosses left of `p`, zero
/// at `p`, positive right of `p`. A segment lying along the sweep line is
/// placed at its leftmost x. Used only to place segments in the status
/// order.
fn x_at_cmp(l: &Line, p: &RPoint) -> (r: i8)
    requires
        line_ok(*l),
        rp_wf(*p),
{
    let (ax, ay, bx, by) = sweep_oriented(l);
    if ay == by {
        // horizontal (or degenerate): its x is the left end of its x range
        let mnx: i64 = if ax <= bx { ax } else { bx };
        proof {
            lemma_mul_bnd(mnx as int, p.den as int, MAX_COORD as int, RP_DEN_MAX as int);
        }
        let lhs: i128 = (mnx as i128) * p.den;
        if lhs < p.xn {
            -1
        } else if lhs == p.xn {
            0
        } else {
            1
        }
    } else {
        let rx: i64 = bx - ax;
        let ry: i64 = by - ay;
        proof {
            lemma_mul_bnd(ax as int, ry as int, MAX_COORD as int, 131072);
            lemma_mul_bnd(ay as int, p.den as int, MAX_COORD as int, RP_DEN_MAX as int);
        }
        let axry: i128 = (ax as i128) * (ry as i128);
        let dy: i128 = p.yn - (ay as i128) * p.den;
        proof {
            lemma_mul_bnd(axry as int, p.den as int, 0x200000000, RP_DEN_MAX as int);
            lemma_mul_bnd(dy as int, rx as int, 0x48000000000000, 131072);
            lemma_mul_bnd(p.xn as int, ry as int, RP_NUM_MAX as int, 131072);
        }
        // seg x at p's sweep line, against p.x, over the common positive
        // denominator ry * p.den
        let num: i128 = axry * p.den + dy * (rx as i128);
        let rhs: i128 = p.xn * (ry as i128);
        if num < rhs {
            -1
        } else if num == rhs {
            0
        } else {
            1
        }
    }
}

/// Whether `a`'s direction turns before `b`'s just below a shared event
/// point: ascending slope `dx/dy` with downward orientation, horizontals
/// last. Used only to order newly inserted segments in the status.
fn slope_before(a: &Line, b: &Line) -> (r: bool)
    requires
        line_ok(*a),
        line_ok(*b),
{
    let (aax, aay, abx, aby) = sweep_oriented(a);
    let (bax, bay, bbx, bby) = sweep_oriented(b);
    let rx1: i64 = abx - aax;
    let ry1: i64 = aby - aay;
    let rx2: i64 = bbx - bax;
    let ry2: i64 = bby - bay;
    if ry1 == 0 {
        false
    } else if ry2 == 0 {
        true
    } else {
        proof {
            lemma_mul_bnd(rx1 as int, ry2 as int, 131072, 131072);
            lemma_mul_bnd(rx2 as int, ry1 as int, 131072, 131072);
        }
        (rx1 as i128) * (ry2 as i128) < (rx2 as i128) * (ry1 as i128)
    }
}

/// The rational point equals one of the segment's endpoints.
fn rp_is_endpoint(l: &Line, p: &RPoint) -> (r: bool)
    requires
        line_ok(*l),
        rp_wf(*p),
    ensures
        r == (rp_eq(*p, crate::rat::rp_of_coord_spec(l.start)) || rp_eq(
            *p,
            crate::rat::rp_of_coord_spec(l.end),
        )),
{
    p.eq_coord(&l.start) || p.eq_coord(&l.end)
}

/// Merges an intersection record at point `p` with the given contributors
/// into the list: a record at the same point of the plane absorbs them in
/// place, otherwise a new record is appended. Returns the index of the
/// covering record. Existing records keep their place, their point and
/// their contributors.
fn add_record(
    records: &mut Vec<(RPoint, Vec<usize>)>,
    p: RPoint,
    idx: Vec<usize>,
    Ghost(ls): Ghost<Seq<Line>>,
    Ghost(n): Ghost<int>,
) -> (ret: usize)
    requires
        n == ls.len(),
        erecs_wf(old(records)@, n),
        recs_sound(old(records)@, ls),
        recs_distinct(old(records)@),
        rp_wf(p),
        sorted_distinct(idx@),
        all_lt(idx@, n),
        idx@.len() >= 2,
        forall |w: int| 0 <= w < idx@.len() ==> rp_on_line(ls[(#[trigger] idx@[w]) as int], p),
    ensures
        erecs_wf(final(records)@, n),
        recs_sound(final(records)@, ls),
        recs_distinct(final(records)@),
        old(records)@.len() <= final(records)@.len() <= old(records)@.len() + 1,
        (ret as int) < final(records)@.len(),
        rp_eq(final(records)@[ret as int].0, p),
        forall |w: int|
            0 <= w < idx@.len() ==> final(records)@[ret as int].1@.contains(#[trigger] idx@[w]),
        forall |k2: int|
            0 <= k2 < old(records)@.len() ==> (#[trigger] final(records)@[k2]).0 == old(
                records,
            )@[k2].0,
        forall |k2: int, y: usize|
            0 <= k2 < old(records)@.len() && (#[trigger] old(records)@[k2].1@.contains(y))
                ==> final(records)@[k2].1@.contains(y),
{
    let mut k: usize = 0;
    while k < records.len()
        invariant
            n == ls.len(),
            erecs_wf(records@, n),
            recs_sound(records@, ls),
            recs_distinct(records@),
            rp_wf(p),
            sorted_distinct(idx@),
            all_lt(idx@, n),
            idx@.len() >= 2,
            forall |w: int| 0 <= w < idx@.len() ==> rp_on_line(ls[(#[trigger] idx@[w]) as int], p),
            k <= records@.len(),
            records@ == old(records)@,
            forall |k2: int| 0 <= k2 < k ==> !rp_eq((#[trigger] records@[k2]).0, p),
        decreases records@.len() - k,
    {
        if records[k].0.eq_rp(&p) {
            let ghost recs0 = records@;
            let (q, mut merged) = records.remove(k);
            proof {
                assert(recs0[k as int] == (q, merged));
                assert(rp_wf(q) && merged@.len() >= 2 && sorted_distinct(merged@) && all_lt(
                    merged@,
                    n,
                ));
                assert(rp_eq(p, q));
            }
            let ghost m0 = merged@;
            proof {
                assert(recs0[k as int].1@ == m0);
            }
            insert_all_sorted(&mut merged, &idx);
            let ghost m1 = merged@;
            proof {
                assert forall |y: usize|
                    #[trigger] m1.contains(y) <==> (m0.contains(y) || idx@.contains(y)) by {
                    assert(merged@.contains(y) <==> (m0.contains(y) || idx@.contains(y)));
                }
                assert forall |w: int| 0 <= w < merged@.len() implies ((#[trigger] merged@[w]) < n
                    && rp_on_line(ls[merged@[w] as int], q)) by {
                    let y = merged@[w];
                    assert(merged@.contains(y));
                    if m0.contains(y) {
                        let u = choose |u: int| 0 <= u < m0.len() && m0[u] == y;
                        assert(recs0[k as int].1@[u] == y);
                        assert(m0[u] < n);
                        assert(rp_on_line(ls[y as int], q));
                    } else {
                        assert(idx@.contains(y));
                        let u = choose |u: int| 0 <= u < idx@.len() && idx@[u] == y;
                        assert(idx@[u] < n);
                        assert(rp_on_line(ls[y as int], p));
                        lemma_rp_on_line_transfer(ls[y as int], p, q);
                    }
                }
            }
            records.insert(k, (q, merged));
            proof {
                let fin = records@;
                assert(fin =~= recs0.update(k as int, (q, merged)));
                assert forall |w: int| 0 <= w < fin.len() implies (rp_wf((#[trigger] fin[w]).0) && (
                fin[w].1@.len() >= 2 && sorted_distinct(fin[w].1@) && all_lt(fin[w].1@, n))) by {
                    if w != k {
                        assert(fin[w] == recs0[w]);
                    }
                }
                assert forall |w: int, v: int|
                    0 <= w < fin.len() && 0 <= v < fin[w].1@.len() implies rp_on_line(
                    ls[(#[trigger] fin[w].1@[v]) as int],
                    fin[w].0,
                ) by {
                    if w != k {
                        assert(fin[w] == recs0[w]);
                        assert(recs0[w].1@[v] == fin[w].1@[v]);
                    }
                }
                assert forall |k1: int, k2: int| 0 <= k1 < k2 < fin.len() implies !rp_eq(
                    (#[trigger] fin[k1]).0,
                    (#[trigger] fin[k2]).0,
                ) by {
                    assert(fin[k1].0 == recs0[k1].0);
                    assert(fin[k2].0 == recs0[k2].0);
                }
                assert(fin[k as int].1@ == m1);
                assert forall |w: int| 0 <= w < idx@.len() implies fin[k as int].1@.contains(
                    #[trigger] idx@[w],
                ) by {
                    assert(idx@.contains(idx@[w]));
                    assert(m1.contains(idx@[w]));
                }
                assert forall |k2: int, y: usize|
                    0 <= k2 < recs0.len() && (#[trigger] recs0[k2].1@.contains(y)) implies fin[k2]
                    .1@.contains(y) by {
                    if k2 == k {
                        assert(recs0[k2].1@ == m0);
                        assert(m0.contains(y));
                        assert(m1.contains(y));
                        assert(fin[k2].1@ == m1);
                    } else {
                        assert(fin[k2] == recs0[k2]);
                        assert(fin[k2].1@ == recs0[k2].1@);
                    }
                }
            }
            return k;
        }
        k = k + 1;
    }
    records.push((p, idx));
    proof {
        let fin = records@;
        assert forall |k1: int, k2: int| 0 <= k1 < k2 < fin.len() implies !rp_eq(
            (#[trigger] fin[k1]).0,
            (#[trigger] fin[k2]).0,
        ) by {
            if k2 == fin.len() - 1 {
                assert(fin[k1] == old(records)@[k1]);
            }
        }
        assert forall |w: int, v: int|
            0 <= w < fin.len() && 0 <= v < fin[w].1@.len() implies rp_on_line(
            ls[(#[trigger] fin[w].1@[v]) as int],
            fin[w].0,
        ) by {
            if w < fin.len() - 1 {
                assert(fin[w] == old(records)@[w]);
                assert(old(records)@[w].1@[v] == fin[w].1@[v]);
            }
        }
        assert(rp_eq(p, p));
    }
    records.len() - 1
}

/// The unordered pair `(a, b)` occurs in the list.
fn pair_done(v: &Vec<(usize, usize)>, a: usize, b: usize) -> (r: bool) {
    let mut k: usize = 0;
    while k < v.len()
        decreases v@.len() - k,
    {
        let (x, y) = v[k];
        if (x == a && y == b) || (x == b && y == a) {
            return true;
        }
        k = k + 1;
    }
    false
}

/// The unordered pair of `s` and some member of `idxs` occurs in the list:
/// an overlap of the two was already reported, so their later touches are
/// not reported again.
fn overlaps_with_any(done: &Vec<(usize, usize)>, s: usize, idxs: &Vec<usize>) -> (r: bool) {
    let mut k: usize = 0;
    while k < idxs.len()
        decreases idxs@.len() - k,
    {
        if pair_done(done, s, idxs[k]) {
            return true;
        }
        k = k + 1;
    }
    false
}

/// The sweep-first endpoint of the clipped shared stretch, executable form.
fn overlap_rep_exec(a: &Line, b: &Line) -> (r: RPoint)
    requires
        line_ok(*a),
        line_ok(*b),
        a.start != a.end,
    ensures
        r == overlap_rep(*a, *b),
        rp_wf(r),
{
    let rx: i64 = a.end.x - a.start.x;
    let ry: i64 = a.end.y - a.start.y;
    let sx: i64 = b.end.x - b.start.x;
    let sy: i64 = b.end.y - b.start.y;
    let qpx: i64 = b.start.x - a.start.x;
    let qpy: i64 = b.start.y - a.start.y;
    let rr: i128 = dot_z(rx, ry, rx, ry);
    assert(rr >= 1) by (nonlinear_arith)
        requires
            rr == dot2(rx as int, ry as int, rx as int, ry as int),
            !(rx == 0 && ry == 0),
    ;
    let d0: i128 = dot_z(qpx, qpy, rx, ry);
    let d1: i128 = d0 + dot_z(sx, sy, rx, ry);
    let lo: i128 = if d0 <= d1 { d0 } else { d1 };
    let hi: i128 = if d0 <= d1 { d1 } else { d0 };
    let tl: i128 = if lo >= 0 { lo } else { 0 };
    let th: i128 = if hi <= rr { hi } else { rr };
    proof {
        lemma_mul_bnd(a.start.x as int, rr as int, MAX_COORD as int, RP_DEN_MAX as int);
        lemma_mul_bnd(a.start.y as int, rr as int, MAX_COORD as int, RP_DEN_MAX as int);
        lemma_mul_bnd(tl as int, rx as int, 0x1000000000, 131072);
        lemma_mul_bnd(tl as int, ry as int, 0x1000000000, 131072);
        lemma_mul_bnd(th as int, rx as int, 0x1000000000, 131072);
        lemma_mul_bnd(th as int, ry as int, 0x1000000000, 131072);
    }
    let pa = RPoint {
        xn: (a.start.x as i128) * rr + tl * (rx as i128),
        yn: (a.start.y as i128) * rr + tl * (ry as i128),
        den: rr,
    };
    let pb = RPoint {
        xn: (a.start.x as i128) * rr + th * (rx as i128),
        yn: (a.start.y as i128) * rr + th * (ry as i128),
        den: rr,
    };
    if pb.lt_sweep(&pa) {
        pb
    } else {
        pa
    }
}

/// Collects, in sorted order, the indices from `src` whose segments pass
/// through the point `p`.
#[verifier::loop_isolation(false)]
fn gather_on_point(
    out: &mut Vec<usize>,
    src: &Vec<usize>,
    lines: &Vec<Line>,
    p: &RPoint,
    Ghost(n): Ghost<int>,
)
    requires
        n == lines@.len(),
        all_lines_ok(lines@),
        rp_wf(*p),
        sorted_distinct(old(out)@),
        all_lt(old(out)@, n),
        all_lt(src@, n),
        forall |y: usize|
            #[trigger] old(out)@.contains(y) ==> rp_on_line(lines@[y as int], *p),
    ensures
        sorted_distinct(final(out)@),
        all_lt(final(out)@, n),
        forall |y: usize| #[trigger] final(out)@.contains(y) ==> rp_on_line(lines@[y as int], *p),
{
    let mut w: usize = 0;
    while w < src.len()
        invariant
            sorted_distinct(out@),
            all_lt(out@, n),
            forall |y: usize| #[trigger] out@.contains(y) ==> rp_on_line(lines@[y as int], *p),
            w <= src@.len(),
        decreases src@.len() - w,
    {
        let u = src[w];
        proof {
            assert(src@[w as int] < n);
        }
        if rp_on_seg(&lines[u], p) {
            let ghost o0 = out@;
            insert_sorted(out, u);
            proof {
                lemma_all_lt_insert(out@, o0, u, n);
                assert forall |y: usize| #[trigger] out@.contains(y) implies rp_on_line(
                    lines@[y as int],
                    *p,
                ) by {
                    if !o0.contains(y) {
                        assert(y == u);
                    }
                }
            }
        }
        w = w + 1;
    }
}

/// Tests a newly adjacent pair of status segments for a crossing strictly
/// below the event at `ep`: a future point crossing is merged into the
/// queue, and a collinear overlap is recorded at once (the pair is then
/// never re-tested).
#[verifier::loop_isolation(false)]
fn test_pair(
    queue: &mut Vec<Event>,
    records: &mut Vec<(RPoint, Vec<usize>)>,
    done: &mut Vec<(usize, usize)>,
    lines: &Vec<Line>,
    s1: usize,
    s2: usize,
    ep: &RPoint,
    ignore_end_points: bool,
    Ghost(n): Ghost<int>,
)
    requires
        n == lines@.len(),
        all_lines_ok(lines@),
        (s1 as int) < n,
        (s2 as int) < n,
        rp_wf(*ep),
        events_wf(old(queue)@, n),
        erecs_wf(old(records)@, n),
        recs_sound(old(records)@, lines@),
        recs_distinct(old(records)@),
    ensures
        events_wf(final(queue)@, n),
        erecs_wf(final(records)@, n),
        recs_sound(final(records)@, lines@),
        recs_distinct(final(records)@),
        final(queue)@.len() <= old(queue)@.len() + 2,
        old(records)@.len() <= final(records)@.len() <= old(records)@.len() + 1,
{
    if s1 == s2 {
        return;
    }
    let l1 = lines[s1];
    let l2 = lines[s2];
    match intersect(&l1, &l2) {
        None => {},
        Some(Intersection::Intersection(pt)) => {
            if rp_on_seg(&l1, &pt) && rp_on_seg(&l2, &pt) && ep.lt_sweep(&pt) {
                if !rp_is_endpoint(&l1, &pt) {
                    queue_add(queue, pt, s1, EvKind::Cross, Ghost(n));
                }
                if !rp_is_endpoint(&l2, &pt) {
                    queue_add(queue, pt, s2, EvKind::Cross, Ghost(n));
                }
            }
        },
        Some(Intersection::OverLap(ov)) => {
            if pair_done(done, s1, s2) {
                return;
            }
            done.push((s1, s2));
            // the overlap is real only when its parameter range meets the
            // first segment
            let rx: i64 = l1.end.x - l1.start.x;
            let ry: i64 = l1.end.y - l1.start.y;
            let sx: i64 = l2.end.x - l2.start.x;
            let sy: i64 = l2.end.y - l2.start.y;
            let qpx: i64 = l2.start.x - l1.start.x;
            let qpy: i64 = l2.start.y - l1.start.y;
            let rr: i128 = crate::geom::dot_z(rx, ry, rx, ry);
            let d0: i128 = crate::geom::dot_z(qpx, qpy, rx, ry);
            let d1: i128 = d0 + crate::geom::dot_z(sx, sy, rx, ry);
            let lo: i128 = if d0 <= d1 { d0 } else { d1 };
            let hi: i128 = if d0 <= d1 { d1 } else { d0 };
            if !(lo <= rr && hi >= 0) {
                return;
            }
            // a degenerate overlap is a mere endpoint touch
            let degenerate = ov.start.eq_rp(&ov.end);
            if degenerate && ignore_end_points {
                return;
            }
            // report at the sweep-first endpoint of the shared stretch,
            // once both segments are seen to hold it
            assert(l1.start != l1.end);
            let rep = overlap_rep_exec(&l1, &l2);
            if rp_on_seg(&l1, &rep) && rp_on_seg(&l2, &rep) {
                let mut idx: Vec<usize> = Vec::new();
                if s1 < s2 {
                    idx.push(s1);
                    idx.push(s2);
                } else {
                    idx.push(s2);
                    idx.push(s1);
                }
                assert(sorted_distinct(idx@) && all_lt(idx@, n) && idx@.len() == 2);
                assert forall |w: int| 0 <= w < idx@.len() implies rp_on_line(
                    lines@[(#[trigger] idx@[w]) as int],
                    rep,
                ) by {
                    assert(idx@[w] == s1 || idx@[w] == s2);
                }
                let _at: usize = add_record(records, rep, idx, Ghost(lines@), Ghost(n));
            }
        },
    }
}

/// Runs the plane sweep over the whole collection and returns every
/// intersection record, one per distinct point of the plane (overlaps are
/// reported at the shared stretch's sweep-first endpoint). A closing pass
/// re-checks every pair against the pairwise driver, so the records are
/// complete as well as sound; when the sweep itself was complete the pass
/// only re-merges what is already there. With `stop` the sweep halts at the
/// first record and surfaces it alone. Exceeding the event budget — which
/// cannot happen when event merging works, since distinct event points are
/// bounded by endpoints plus pairwise crossings — surfaces as an internal
/// error rather than an unbounded run.
#[verifier::loop_isolation(false)]
pub(crate) fn sweep_all(lines: &Vec<Line>, ignore_end_points: bool, stop: bool) -> (r: Result<
    Vec<(RPoint, Vec<usize>)>,
    IntersectError,
>)
    requires
        all_lines_ok(lines@),
    ensures
        match r {
            Ok(v) => {
                &&& erecs_wf(v@, lines@.len() as int)
                &&& recs_sound(v@, lines@)
                &&& recs_distinct(v@)
                &&& (!stop ==> recs_complete(v@, lines@, ignore_end_points))
                &&& (stop ==> v@.len() <= 1 && (v@.len() == 0 ==> recs_complete(
                    v@,
                    lines@,
                    ignore_end_points,
                )))
            },
            Err(e) => e is InternalError,
        },
{
    let n: usize = lines.len();
    let ghost gn: int = n as int;
    let mut events: Vec<Event> = Vec::new();

    // initialization: each segment starts at its sweep-upper endpoint and
    // ends at its sweep-lower endpoint
    let mut i: usize = 0;
    while i < n
        invariant
            events_wf(events@, gn),
            i <= n,
        decreases n - i,
    {
        let l = lines[i];
        let (ax, ay, bx, by) = sweep_oriented(&l);
        let upper = crate::geom::Coord { x: ax, y: ay };
        let lower = crate::geom::Coord { x: bx, y: by };
        queue_add(&mut events, RPoint::from_coord(&upper), i, EvKind::Start, Ghost(gn));
        queue_add(&mut events, RPoint::from_coord(&lower), i, EvKind::End, Ghost(gn));
        i = i + 1;
    }

    let mut status: Vec<usize> = Vec::new();
    let mut records: Vec<(RPoint, Vec<usize>)> = Vec::new();
    let mut done: Vec<(usize, usize)> = Vec::new();

    // the budget covers every distinct event point: 2n endpoints plus at
    // most one crossing per pair, with margin
    let nn: u128 = n as u128;
    let mut fuel: u128 = if nn > 0xFFFFFFFF {
        u128::MAX
    } else {
        proof {
            lemma_mul_bnd(nn as int, nn as int, 0xFFFFFFFF, 0xFFFFFFFF);
        }
        let sq: u128 = nn * nn;
        16 + 4 * nn + 4 * sq
    };

    while events.len() > 0
        invariant
            events_wf(events@, gn),
            all_lt(status@, gn),
            erecs_wf(records@, gn),
            recs_sound(records@, lines@),
            recs_distinct(records@),
        decreases fuel,
    {
        if stop && records.len() > 0 {
            break;
        }
        if fuel == 0 {
            return Err(IntersectError::InternalError("sweep event budget exhausted".to_string()));
        }
        fuel = fuel - 1;

        let ev = pop_min(&mut events, Ghost(gn));

        // C: segments crossing through this point — recorded crossings plus
        // status segments whose geometry passes through it
        let mut cvec: Vec<usize> = Vec::new();
        insert_all_sorted(&mut cvec, &ev.intersecting);
        proof {
            lemma_all_lt_union(cvec@, Seq::<usize>::empty(), ev.intersecting@, gn);
        }
        let mut t: usize = 0;
        while t < status.len()
            invariant
                sorted_distinct(cvec@),
                all_lt(cvec@, gn),
                t <= status@.len(),
            decreases status@.len() - t,
        {
            let sidx = status[t];
            assert((sidx as int) < gn);
            if rp_on_seg(&lines[sidx], &ev.p) && !rp_is_endpoint(&lines[sidx], &ev.p)
                && !overlaps_with_any(&done, sidx, &ev.starting)
                && !overlaps_with_any(&done, sidx, &ev.ending) {
                let ghost c0 = cvec@;
                insert_sorted(&mut cvec, sidx);
                proof {
                    lemma_all_lt_insert(cvec@, c0, sidx, gn);
                }
            }
            t = t + 1;
        }

        // U union C, minus segments that end here: what is inserted back
        let mut uc: Vec<usize> = Vec::new();
        insert_all_sorted(&mut uc, &ev.starting);
        let ghost uc0 = uc@;
        insert_all_sorted(&mut uc, &cvec);
        proof {
            lemma_all_lt_union(uc0, Seq::<usize>::empty(), ev.starting@, gn);
            lemma_all_lt_union(uc@, uc0, cvec@, gn);
        }
        let mut ins: Vec<usize> = Vec::new();
        let mut w: usize = 0;
        while w < uc.len()
            invariant
                all_lt(ins@, gn),
                w <= uc@.len(),
            decreases uc@.len() - w,
        {
            let u = uc[w];
            assert((u as int) < gn);
            if !vec_contains(&ev.ending, u) {
                // keep the insertions ordered by direction below the event
                let mut pos: usize = 0;
                while pos < ins.len()
                    invariant
                        all_lt(ins@, gn),
                        pos <= ins@.len(),
                    decreases ins@.len() - pos,
                {
                    let q = ins[pos];
                    assert((q as int) < gn);
                    if slope_before(&lines[u], &lines[q]) {
                        break;
                    }
                    pos = pos + 1;
                }
                let ghost ins0 = ins@;
                ins.insert(pos, u);
                proof {
                    assert forall |z: int| 0 <= z < ins@.len() implies (#[trigger] ins@[z])
                        < gn by {
                        if z < pos {
                            assert(ins@[z] == ins0[z]);
                        } else if z == pos {
                        } else {
                            assert(ins@[z] == ins0[z - 1]);
                        }
                    }
                }
            }
            w = w + 1;
        }

        // the event's contributors: start here, end here, or cross here —
        // each checked against the event point, so records hold only
        // segments that really pass through theirs
        let mut gathered: Vec<usize> = Vec::new();
        gather_on_point(&mut gathered, &ev.starting, lines, &ev.p, Ghost(gn));
        gather_on_point(&mut gathered, &ev.ending, lines, &ev.p, Ghost(gn));
        gather_on_point(&mut gathered, &cvec, lines, &ev.p, Ghost(gn));
        let crossing_here = cvec.len() > 0;
        if gathered.len() >= 2 && (!ignore_end_points || crossing_here) {
            proof {
                assert forall |w: int| 0 <= w < gathered@.len() implies rp_on_line(
                    lines@[(#[trigger] gathered@[w]) as int],
                    ev.p,
                ) by {
                    assert(gathered@.contains(gathered@[w]));
                }
            }
            let _at: usize = add_record(&mut records, ev.p, gathered, Ghost(lines@), Ghost(gn));
        }

        // drop what ends or crosses here from the status
        let mut kept: Vec<usize> = Vec::new();
        let mut t2: usize = 0;
        while t2 < status.len()
            invariant
                all_lt(kept@, gn),
                t2 <= status@.len(),
            decreases status@.len() - t2,
        {
            let s = status[t2];
            assert((s as int) < gn);
            if !vec_contains(&ev.ending, s) && !vec_contains(&cvec, s) {
                kept.push(s);
            }
            t2 = t2 + 1;
        }
        status = kept;

        // where the event point falls in the status order
        let mut k: usize = 0;
        while k < status.len()
            invariant
                k <= status@.len(),
            decreases status@.len() - k,
        {
            let q = status[k];
            assert((q as int) < gn);
            if x_at_cmp(&lines[q], &ev.p) >= 0 {
                break;
            }
            k = k + 1;
        }

        let left_opt: Option<usize> = if k > 0 {
            let q = status[k - 1];
            Some(q)
        } else {
            None
        };
        let right_opt: Option<usize> = if k < status.len() {
            let q = status[k];
            Some(q)
        } else {
            None
        };
        proof {
            if k > 0 {
                assert((status@[k - 1]) < gn);
            }
            if (k as int) < status@.len() {
                assert((status@[k as int]) < gn);
            }
        }

        // reinsert what starts or crosses here, in post-event order
        let mut w2: usize = 0;
        while w2 < ins.len()
            invariant
                all_lt(status@, gn),
                w2 <= ins@.len(),
                k + w2 <= status@.len(),
            decreases ins@.len() - w2,
        {
            let u = ins[w2];
            assert((u as int) < gn);
            let ghost st0 = status@;
            let cap: usize = status.len();
            assert(k as int + w2 as int <= cap as int);
            status.insert(k + w2, u);
            proof {
                assert forall |z: int| 0 <= z < status@.len() implies (#[trigger] status@[z])
                    < gn by {
                    if z < k + w2 {
                        assert(status@[z] == st0[z]);
                    } else if z == k + w2 {
                    } else {
                        assert(status@[z] == st0[z - 1]);
                    }
                }
            }
            w2 = w2 + 1;
        }

        // segments inserted together are mutually adjacent below this
        // event: probe consecutive ones, which is what reveals collinear
        // overlaps extending past it
        if ins.len() >= 2 {
            let mut w3: usize = 0;
            while w3 < ins.len() - 1
                invariant
                    ins@.len() >= 2,
                    w3 <= ins@.len() - 1,
                    events_wf(events@, gn),
                    erecs_wf(records@, gn),
                    recs_sound(records@, lines@),
                    recs_distinct(records@),
                decreases ins@.len() - w3,
            {
                let u1 = ins[w3];
                let u2 = ins[w3 + 1];
                proof {
                    assert(ins@[w3 as int] < gn);
                    assert(ins@[w3 as int + 1] < gn);
                }
                test_pair(
                    &mut events,
                    &mut records,
                    &mut done,
                    lines,
                    u1,
                    u2,
                    &ev.p,
                    ignore_end_points,
                    Ghost(gn),
                );
                w3 = w3 + 1;
            }
        }

        // probe the newly adjacent pairs for crossings below this event
        if ins.len() == 0 {
            match (left_opt, right_opt) {
                (Some(le), Some(ri)) => {
                    test_pair(
                        &mut events,
                        &mut records,
                        &mut done,
                        lines,
                        le,
                        ri,
                        &ev.p,
                        ignore_end_points,
                        Ghost(gn),
                    );
                },
                _ => {},
            }
        } else {
            let first = ins[0];
            let last = ins[ins.len() - 1];
            proof {
                assert(ins@[0] < gn);
                assert(ins@[ins@.len() - 1] < gn);
            }
            match left_opt {
                Some(le) => {
                    test_pair(
                        &mut events,
                        &mut records,
                        &mut done,
                        lines,
                        le,
                        first,
                        &ev.p,
                        ignore_end_points,
                        Ghost(gn),
                    );
                },
                None => {},
            }
            match right_opt {
                Some(ri) => {
                    test_pair(
                        &mut events,
                        &mut records,
                        &mut done,
                        lines,
                        last,
                        ri,
                        &ev.p,
                        ignore_end_points,
                        Ghost(gn),
                    );
                },
                None => {},
            }
        }
    }
    if stop {
        if records.len() == 0 {
            audit_pairs(&mut records, lines, ignore_end_points, Ghost(gn));
        }
        if records.len() > 1 {
            let first = records.remove(0);
            let mut only: Vec<(RPoint, Vec<usize>)> = Vec::new();
            only.push(first);
            return Ok(only);
        }
        Ok(records)
    } else {
        audit_pairs(&mut records, lines, ignore_end_points, Ghost(gn));
        Ok(records)
    }
}

/// Establishes coverage for one pair: when the pairwise driver reports it,
/// its indices are merged into the record at the reported point (a new
/// record if none exists). Coverage of previously covered pairs persists,
/// since records only grow.
#[verifier::loop_isolation(false)]
fn ensure_pair(
    records: &mut Vec<(RPoint, Vec<usize>)>,
    lines: &Vec<Line>,
    exclusive: bool,
    i: usize,
    j: usize,
    Ghost(n): Ghost<int>,
)
    requires
        n == lines@.len(),
        all_lines_ok(lines@),
        (i as int) < (j as int) < n,
        erecs_wf(old(records)@, n),
        recs_sound(old(records)@, lines@),
        recs_distinct(old(records)@),
    ensures
        erecs_wf(final(records)@, n),
        recs_sound(final(records)@, lines@),
        recs_distinct(final(records)@),
        pair_covered(final(records)@, lines@, exclusive, i as int, j as int),
        forall |a: int, b: int|
            0 <= a < b < n && pair_covered(old(records)@, lines@, exclusive, a, b)
                ==> #[trigger] pair_covered(final(records)@, lines@, exclusive, a, b),
{
    let a = lines[i];
    let b = lines[j];
    let ghost recs0 = old(records)@;
    let hit = pair_hit_exec(&a, &b, exclusive);
    match hit {
        None => {
            assert(pair_covered(records@, lines@, exclusive, i as int, j as int));
        },
        Some(p) => {
            let mut idx: Vec<usize> = Vec::new();
            idx.push(i);
            idx.push(j);
            assert(sorted_distinct(idx@) && all_lt(idx@, n) && idx@.len() == 2);
            match intersect(&a, &b) {
                Some(Intersection::Intersection(_)) => {
                    // the pair meets at a single point, which the driver
                    // clipped to both segments
                    assert(rp_on_line(a, p) && rp_on_line(b, p));
                    assert forall |w: int| 0 <= w < idx@.len() implies rp_on_line(
                        lines@[(#[trigger] idx@[w]) as int],
                        p,
                    ) by {
                        assert(idx@[w] == i || idx@[w] == j);
                    }
                    let at: usize = add_record(records, p, idx, Ghost(lines@), Ghost(n));
                    proof {
                        assert(idx@[0] == i && idx@[1] == j);
                        assert(records@[at as int].1@.contains(i) && records@[at as int].1@.contains(
                            j,
                        ));
                        assert(pair_covered(records@, lines@, exclusive, i as int, j as int));
                    }
                },
                Some(Intersection::OverLap(_)) => {
                    assert(a.start != a.end);
                    let rep = overlap_rep_exec(&a, &b);
                    if rp_on_seg(&a, &rep) && rp_on_seg(&b, &rep) {
                        assert forall |w: int| 0 <= w < idx@.len() implies rp_on_line(
                            lines@[(#[trigger] idx@[w]) as int],
                            rep,
                        ) by {
                            assert(idx@[w] == i || idx@[w] == j);
                        }
                        let at: usize = add_record(records, rep, idx, Ghost(lines@), Ghost(n));
                        proof {
                            assert(idx@[0] == i && idx@[1] == j);
                            assert(records@[at as int].1@.contains(i) && records@[at as int].1@
                                .contains(j));
                            assert(pair_covered(records@, lines@, exclusive, i as int, j as int));
                        }
                    } else {
                        assert(pair_covered(records@, lines@, exclusive, i as int, j as int));
                    }
                },
                None => {
                    assert(false);
                },
            }
        },
    }
    proof {
        assert forall |a2: int, b2: int|
            0 <= a2 < b2 < n && pair_covered(recs0, lines@, exclusive, a2, b2)
                implies #[trigger] pair_covered(records@, lines@, exclusive, a2, b2) by {
            match pair_hit(lines@[a2], lines@[b2], exclusive) {
                None => {},
                Some(p2) => {
                    match isect_spec(lines@[a2], lines@[b2]) {
                        Some(Intersection::Intersection(_)) => {
                            let k = choose |k: int|
                                0 <= k < recs0.len() && rp_eq((#[trigger] recs0[k]).0, p2)
                                    && recs0[k].1@.contains(a2 as usize) && recs0[k].1@.contains(
                                    b2 as usize,
                                );
                            assert(records@[k].0 == recs0[k].0);
                            assert(records@[k].1@.contains(a2 as usize) && records@[k].1@.contains(
                                b2 as usize,
                            ));
                        },
                        Some(Intersection::OverLap(_)) => {
                            let w2 = overlap_rep(lines@[a2], lines@[b2]);
                            if rp_on_line(lines@[a2], w2) && rp_on_line(lines@[b2], w2) {
                                let k = choose |k: int|
                                    0 <= k < recs0.len() && (#[trigger] recs0[k]).1@.contains(
                                        a2 as usize,
                                    ) && recs0[k].1@.contains(b2 as usize);
                                assert(records@[k].1@.contains(a2 as usize) && records@[k].1@
                                    .contains(b2 as usize));
                            }
                        },
                        None => {},
                    }
                },
            }
        }
    }
}

/// Re-checks every pair against the pairwise driver and merges anything
/// missing into the records: afterwards the records cover every reported
/// pair.
#[verifier::loop_isolation(false)]
fn audit_pairs(
    records: &mut Vec<(RPoint, Vec<usize>)>,
    lines: &Vec<Line>,
    exclusive: bool,
    Ghost(n): Ghost<int>,
)
    requires
        n == lines@.len(),
        all_lines_ok(lines@),
        erecs_wf(old(records)@, n),
        recs_sound(old(records)@, lines@),
        recs_distinct(old(records)@),
    ensures
        erecs_wf(final(records)@, n),
        recs_sound(final(records)@, lines@),
        recs_distinct(final(records)@),
        recs_complete(final(records)@, lines@, exclusive),
{
    let nseg: usize = lines.len();
    let mut i: usize = 0;
    while i < nseg
        invariant
            erecs_wf(records@, n),
            recs_sound(records@, lines@),
            recs_distinct(records@),
            i <= nseg,
            forall |a: int, b: int|
                0 <= a < b < n && a < i ==> #[trigger] pair_covered(
                    records@,
                    lines@,
                    exclusive,
                    a,
                    b,
                ),
        decreases nseg - i,
    {
        let mut j: usize = i + 1;
        while j < nseg
            invariant
                erecs_wf(records@, n),
                recs_sound(records@, lines@),
                recs_distinct(records@),
                i < j <= nseg,
                forall |a: int, b: int|
                    0 <= a < b < n && a < i ==> #[trigger] pair_covered(
                        records@,
                        lines@,
                        exclusive,
                        a,
                        b,
                    ),
                forall |b: int|
                    i < b < j ==> #[trigger] pair_covered(records@, lines@, exclusive, i as int, b),
            decreases nseg - j,
        {
            ensure_pair(records, lines, exclusive, i, j, Ghost(n));
            j = j + 1;
        }
        i = i + 1;
    }
}

/// The engine's lifecycle: options may be set while `Configured`; binding
/// segments moves it to `Loaded`; computing hands the results over exactly
/// once and leaves it `Drained`.
#[derive(Clone, Copy, PartialEq, Eq, Structural, Debug)]
pub enum AlgoState {
    Configured,
    Loaded,
    Drained,
}

/// The sweep engine: configuration, bound segments, and lifecycle state.
#[derive(Debug)]
pub struct AlgorithmData {
    ignore_end_point_intersections: bool,
    stop_at_first_intersection: bool,
    lines: Vec<Line>,
    state: AlgoState,
}

impl AlgorithmData {
    /// Once loaded, the bound segments lie on the admitted grid.
    #[verifier::type_invariant]
    pub closed spec fn inv(self) -> bool {
        self.state == AlgoState::Loaded ==> all_lines_ok(self.lines@)
    }

    /// The engine's lifecycle state.
    pub closed spec fn state_spec(self) -> AlgoState {
        self.state
    }

    /// Whether events touched only by endpoints are suppressed.
    pub closed spec fn ignore_spec(self) -> bool {
        self.ignore_end_point_intersections
    }

    /// Whether only the first record is surfaced.
    pub closed spec fn stop_spec(self) -> bool {
        self.stop_at_first_intersection
    }

    /// The bound segments.
    pub closed spec fn lines_spec(self) -> Seq<Line> {
        self.lines@
    }

    /// Sets whether events whose contributors all merely touch by their
    /// endpoints are suppressed. Valid only while `Configured`.
    pub fn with_ignore_end_point_intersections(self, b: bool) -> (r: Result<
        AlgorithmData,
        IntersectError,
    >)
        ensures
            self.state_spec() == AlgoState::Configured ==> (r matches Ok(a) && a.state_spec()
                == AlgoState::Configured && a.ignore_spec() == b && a.stop_spec()
                == self.stop_spec() && a.lines_spec() == self.lines_spec()),
            self.state_spec() != AlgoState::Configured ==> (r matches Err(e) && e
                is InternalError),
    {
        match self.state {
            AlgoState::Configured => Ok(
                AlgorithmData {
                    ignore_end_point_intersections: b,
                    stop_at_first_intersection: self.stop_at_first_intersection,
                    lines: self.lines,
                    state: AlgoState::Configured,
                },
            ),
            _ => Err(
                IntersectError::InternalError(
                    "configuration is valid only before segments are bound".to_string(),
                ),
            ),
        }
    }

    /// Sets whether the engine surfaces only the first recorded
    /// intersection. Valid only while `Configured`.
    pub fn with_stop_at_first_intersection(self, b: bool) -> (r: Result<
        AlgorithmData,
        IntersectError,
    >)
        ensures
            self.state_spec() == AlgoState::Configured ==> (r matches Ok(a) && a.state_spec()
                == AlgoState::Configured && a.stop_spec() == b && a.ignore_spec()
                == self.ignore_spec() && a.lines_spec() == self.lines_spec()),
            self.state_spec() != AlgoState::Configured ==> (r matches Err(e) && e
                is InternalError),
    {
        match self.state {
            AlgoState::Configured => Ok(
                AlgorithmData {
                    ignore_end_point_intersections: self.ignore_end_point_intersections,
                    stop_at_first_intersection: b,
                    lines: self.lines,
                    state: AlgoState::Configured,
                },
            ),
            _ => Err(
                IntersectError::InternalError(
                    "configuration is valid only before segments are bound".to_string(),
                ),
            ),
        }
    }

    /// Binds the segment collection, validating every coordinate; the engine
    /// becomes `Loaded`. Valid only while `Configured`.
    #[verifier::loop_isolation(false)]
    pub fn with_lines(self, lines: Vec<Line>) -> (r: Result<AlgorithmData, IntersectError>)
        ensures
            self.state_spec() == AlgoState::Configured && all_lines_ok(lines@) ==> (r matches Ok(a)
                && a.state_spec() == AlgoState::Loaded && a.lines_spec() == lines@
                && a.ignore_spec() == self.ignore_spec() && a.stop_spec() == self.stop_spec()),
            self.state_spec() == AlgoState::Configured && !all_lines_ok(lines@) ==> (r matches Err(
                e,
            ) && e is InvalidData),
            self.state_spec() != AlgoState::Configured ==> (r matches Err(e) && e
                is InternalError),
    {
        match self.state {
            AlgoState::Configured => {
                let mut i: usize = 0;
                while i < lines.len()
                    invariant
                        i <= lines@.len(),
                        forall |w: int| 0 <= w < i ==> line_ok(#[trigger] lines@[w]),
                    decreases lines@.len() - i,
                {
                    if !crate::geom::line_valid(&lines[i]) {
                        assert(!all_lines_ok(lines@)) by {
                            assert(!line_ok(lines@[i as int]));
                        }
                        return Err(
                            IntersectError::InvalidData(
                                "a coordinate lies outside the admitted grid".to_string(),
                            ),
                        );
                    }
                    i = i + 1;
                }
                Ok(
                    AlgorithmData {
                        ignore_end_point_intersections: self.ignore_end_point_intersections,
                        stop_at_first_intersection: self.stop_at_first_intersection,
                        lines,
                        state: AlgoState::Loaded,
                    },
                )
            },
            _ => Err(
                IntersectError::InternalError(
                    "segments may be bound only once, before computing".to_string(),
                ),
            ),
        }
    }

    /// Runs the sweep to completion and hands the records over, exactly
    /// once: the engine is left `Drained`, and a second call fails with
    /// `ResultsAlreadyTaken`. Calling it before segments are bound is a
    /// programming error surfaced as `InternalError`.
    pub fn compute(&mut self) -> (r: Result<Vec<(RPoint, Vec<usize>)>, IntersectError>)
        ensures
            old(self).state_spec() == AlgoState::Loaded ==> final(self).state_spec()
                == AlgoState::Drained && (match r {
                Ok(v) => {
                    &&& erecs_wf(v@, old(self).lines_spec().len() as int)
                    &&& recs_sound(v@, old(self).lines_spec())
                    &&& recs_distinct(v@)
                    &&& (!old(self).stop_spec() ==> recs_complete(
                        v@,
                        old(self).lines_spec(),
                        old(self).ignore_spec(),
                    ))
                    &&& (old(self).stop_spec() ==> v@.len() <= 1 && (v@.len() == 0
                        ==> recs_complete(v@, old(self).lines_spec(), old(self).ignore_spec())))
                },
                Err(e) => e is InternalError,
            }),
            old(self).state_spec() == AlgoState::Drained ==> (r matches Err(e) && e
                is ResultsAlreadyTaken) && *final(self) == *old(self),
            old(self).state_spec() == AlgoState::Configured ==> (r matches Err(e) && e
                is InternalError) && *final(self) == *old(self),
    {
        proof {
            use_type_invariant(&*self);
        }
        match self.state {
            AlgoState::Loaded => {
                let out = sweep_all(
                    &self.lines,
                    self.ignore_end_point_intersections,
                    self.stop_at_first_intersection,
                );
                self.state = AlgoState::Drained;
                out
            },
            AlgoState::Drained => Err(
                IntersectError::ResultsAlreadyTaken(
                    "the results were already taken from this engine".to_string(),
                ),
            ),
            AlgoState::Configured => Err(
                IntersectError::InternalError(
                    "no segments were bound before computing".to_string(),
                ),
            ),
        }
    }
}

impl Default for AlgorithmData {
    /// A freshly configured engine: both options off, no segments bound.
    fn default() -> (r: AlgorithmData)
        ensures
            r.state_spec() == AlgoState::Configured,
            !r.ignore_spec(),
            !r.stop_spec(),
            r.lines_spec() == Seq::<Line>::empty(),
    {
        AlgorithmData {
            ignore_end_point_intersections: false,
            stop_at_first_intersection: false,
            lines: Vec::new(),
            state: AlgoState::Configured,
        }
    }
}

} // verus!
