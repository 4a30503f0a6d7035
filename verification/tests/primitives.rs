use intersect2d::geom::{Coord, Line};
use intersect2d::isect::{intersect, intersect_line_point, scale_to_coordinate, Intersection};
use intersect2d::rat::RPoint;
use intersect2d::{to_lines, ulps_eq, ulps_eq_c};

fn c(x: i64, y: i64) -> Coord {
    Coord { x, y }
}

fn seg(x1: i64, y1: i64, x2: i64, y2: i64) -> Line {
    Line { start: c(x1, y1), end: c(x2, y2) }
}

#[test]
fn general_crossing_yields_the_crossing_point() {
    let r = intersect(&seg(0, 0, 2, 2), &seg(0, 2, 2, 0)).expect("crossing");
    match r {
        Intersection::Intersection(p) => assert!(p.eq_coord(&c(1, 1))),
        _ => panic!("expected a point"),
    }
    assert!(r.single().eq_coord(&c(1, 1)));
}

#[test]
fn disjoint_boxes_are_rejected() {
    assert!(intersect(&seg(0, 0, 1, 1), &seg(5, 5, 6, 6)).is_none());
}

#[test]
fn parallel_non_collinear_segments_do_not_intersect() {
    assert!(intersect(&seg(0, 0, 4, 0), &seg(0, 1, 4, 1)).is_none());
}

#[test]
fn collinear_overlap_is_returned_unclipped() {
    let r = intersect(&seg(0, 0, 4, 0), &seg(2, 0, 6, 0)).expect("overlap");
    match r {
        Intersection::OverLap(l) => {
            assert!(l.start.eq_coord(&c(2, 0)));
            assert!(l.end.eq_coord(&c(6, 0)));
        },
        _ => panic!("expected an overlap"),
    }
    // the representative point of an overlap is its start
    assert!(r.single().eq_coord(&c(2, 0)));
}

#[test]
fn touching_endpoints_are_detected() {
    let r = intersect(&seg(0, 0, 2, 2), &seg(2, 2, 4, 0)).expect("touch");
    assert!(r.single().eq_coord(&c(2, 2)));
}

#[test]
fn degenerate_segments_reduce_to_point_tests() {
    // two coincident points
    let r = intersect(&seg(3, 3, 3, 3), &seg(3, 3, 3, 3)).expect("same point");
    assert!(r.single().eq_coord(&c(3, 3)));
    // a point resting on a segment's interior
    let r = intersect(&seg(3, 3, 3, 3), &seg(0, 0, 6, 6)).expect("point on segment");
    assert!(r.single().eq_coord(&c(3, 3)));
    // a point off the segment
    assert!(intersect(&seg(1, 0, 1, 0), &seg(0, 0, 6, 6)).is_none());
}

#[test]
fn point_on_segment_tests() {
    let l = seg(0, 0, 10, 0);
    assert!(intersect_line_point(&l, &c(0, 0)).is_some());
    assert!(intersect_line_point(&l, &c(10, 0)).is_some());
    assert!(intersect_line_point(&l, &c(5, 0)).is_some());
    assert!(intersect_line_point(&l, &c(5, 1)).is_none());
    assert!(intersect_line_point(&l, &c(11, 0)).is_none());
}

#[test]
fn vertical_and_horizontal_cross_exactly() {
    let r = intersect(&seg(3, -5, 3, 5), &seg(0, 2, 6, 2)).expect("crossing");
    assert!(r.single().eq_coord(&c(3, 2)));
}

#[test]
fn scaling_moves_a_point_along_a_vector() {
    // one third of the way from (0, 0) towards (3, 6)
    let p = scale_to_coordinate(&c(0, 0), &c(3, 6), 1, 3);
    assert!(p.eq_rp(&RPoint { xn: 1, yn: 2, den: 1 }));
}

#[test]
fn to_lines_builds_segments_from_quadruples() {
    let quads = vec![(0i64, 1i64, 2i64, 3i64), (4, 5, 6, 7)];
    let lines = to_lines(&quads);
    assert_eq!(lines.len(), 2);
    assert_eq!(lines[0], seg(0, 1, 2, 3));
    assert_eq!(lines[1], seg(4, 5, 6, 7));
}

#[test]
fn coordinate_equality_is_exact() {
    assert!(ulps_eq_c(&c(7, -9), &c(7, -9)));
    assert!(!ulps_eq_c(&c(7, -9), &c(7, 9)));
    assert!(ulps_eq(&42, &42));
    assert!(!ulps_eq(&42, &43));
}

#[test]
fn rational_point_equality_ignores_representation() {
    let a = RPoint { xn: 1, yn: 2, den: 2 };
    let b = RPoint { xn: 3, yn: 6, den: 6 };
    assert!(a.eq_rp(&b));
    let d = RPoint { xn: 2, yn: 2, den: 2 };
    assert!(!a.eq_rp(&d));
}
