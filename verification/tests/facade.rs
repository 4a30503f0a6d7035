use intersect2d::geom::{Coord, Line};
use intersect2d::rat::RPoint;
use intersect2d::{
    IntersectError, LineString, SelfIntersectingExclusive, SelfIntersectingInclusive,
};

fn c(x: i64, y: i64) -> Coord {
    Coord { x, y }
}

fn seg(x1: i64, y1: i64, x2: i64, y2: i64) -> Line {
    Line { start: c(x1, y1), end: c(x2, y2) }
}

fn rp(xn: i128, yn: i128, den: i128) -> RPoint {
    RPoint { xn, yn, den }
}

#[test]
fn empty_input_gives_empty_result() {
    let lines: Vec<Line> = Vec::new();
    let recs = lines.self_intersections().expect("empty input is valid");
    assert!(recs.is_empty());
    let recs = lines.self_intersections_inclusive().expect("empty input is valid");
    assert!(recs.is_empty());
}

#[test]
fn single_segment_gives_empty_result() {
    let lines = vec![seg(0, 0, 10, 10)];
    let recs = lines.self_intersections().expect("single segment is valid");
    assert!(recs.is_empty());
    assert!(!lines.is_self_intersecting().expect("valid"));
}

#[test]
fn out_of_range_coordinate_is_invalid_data() {
    let lines = vec![seg(0, 0, 1_000_000, 0)];
    match lines.self_intersections() {
        Err(IntersectError::InvalidData(_)) => {},
        _ => panic!("expected InvalidData"),
    }
    match lines.is_self_intersecting() {
        Err(IntersectError::InvalidData(_)) => {},
        _ => panic!("expected InvalidData"),
    }
}

#[test]
fn unit_square_polyline_exclusive_is_clean() {
    let square = LineString(vec![c(0, 0), c(1, 0), c(1, 1), c(0, 1), c(0, 0)]);
    assert!(!square.is_self_intersecting().expect("valid"));
    let recs = square.self_intersections().expect("valid");
    assert!(recs.is_empty());
}

#[test]
fn unit_square_segments_inclusive_reports_four_corners() {
    let square = LineString(vec![c(0, 0), c(1, 0), c(1, 1), c(0, 1), c(0, 0)]);
    let lines = square.lines();
    assert_eq!(lines.len(), 4);
    let recs = lines.self_intersections_inclusive().expect("valid");
    assert_eq!(recs.len(), 4);
    // pair enumeration order: (0,1) at (1,0), (0,3) at (0,0), (1,2) at (1,1),
    // (2,3) at (0,1)
    assert_eq!(recs[0].1, vec![0, 1]);
    assert!(recs[0].0.eq_coord(&c(1, 0)));
    assert_eq!(recs[1].1, vec![0, 3]);
    assert!(recs[1].0.eq_coord(&c(0, 0)));
    assert_eq!(recs[2].1, vec![1, 2]);
    assert!(recs[2].0.eq_coord(&c(1, 1)));
    assert_eq!(recs[3].1, vec![2, 3]);
    assert!(recs[3].0.eq_coord(&c(0, 1)));
    assert!(lines.is_self_intersecting_inclusive().expect("valid"));
}

#[test]
fn figure_eight_polyline_has_one_crossing() {
    let fig8 = LineString(vec![c(0, 0), c(2, 2), c(0, 2), c(2, 0), c(0, 0)]);
    let recs = fig8.self_intersections().expect("valid");
    assert_eq!(recs.len(), 1);
    assert_eq!(recs[0].1, vec![0, 2]);
    assert!(recs[0].0.eq_coord(&c(1, 1)));
    assert!(fig8.is_self_intersecting().expect("valid"));
}

#[test]
fn identical_segments_inclusive_give_one_overlap_record() {
    let lines = vec![seg(0, 0, 1, 0), seg(0, 0, 1, 0)];
    let recs = lines.self_intersections_inclusive().expect("valid");
    assert_eq!(recs.len(), 1);
    assert_eq!(recs[0].1, vec![0, 1]);
    assert!(recs[0].0.eq_coord(&c(0, 0)));
}

#[test]
fn collinear_overlapping_segments_give_one_record() {
    let lines = vec![seg(0, 0, 4, 0), seg(2, 0, 6, 0)];
    let recs = lines.self_intersections_inclusive().expect("valid");
    assert_eq!(recs.len(), 1);
    assert_eq!(recs[0].1, vec![0, 1]);
    // the overlap is reported from its start: the second segment's start
    assert!(recs[0].0.eq_coord(&c(2, 0)));
    // the exclusive policy also reports it: no endpoints are shared
    let recs = lines.self_intersections().expect("valid");
    assert_eq!(recs.len(), 1);
}

#[test]
fn five_point_polyline_exclusive_reports_two_crossings() {
    let path = LineString(vec![
        c(100, 100),
        c(200, 100),
        c(200, 200),
        c(150, 50),
        c(100, 200),
        c(100, 100),
    ]);
    let recs = path.self_intersections().expect("valid");
    assert_eq!(recs.len(), 2);
    assert_eq!(recs[0].1, vec![0, 2]);
    assert!(recs[0].0.eq_rp(&rp(500, 300, 3)));
    assert_eq!(recs[1].1, vec![0, 3]);
    assert!(recs[1].0.eq_rp(&rp(400, 300, 3)));
    assert!(path.is_self_intersecting().expect("valid"));
}

#[test]
fn five_point_polyline_segments_inclusive_report_corners_too() {
    let path = LineString(vec![
        c(100, 100),
        c(200, 100),
        c(200, 200),
        c(150, 50),
        c(100, 200),
        c(100, 100),
    ]);
    let lines = path.lines();
    let recs = lines.self_intersections_inclusive().expect("valid");
    assert_eq!(recs.len(), 7);
    assert_eq!(recs[0].1, vec![0, 1]);
    assert!(recs[0].0.eq_coord(&c(200, 100)));
    assert_eq!(recs[1].1, vec![0, 2]);
    assert!(recs[1].0.eq_rp(&rp(500, 300, 3)));
    assert_eq!(recs[2].1, vec![0, 3]);
    assert!(recs[2].0.eq_rp(&rp(400, 300, 3)));
    assert_eq!(recs[3].1, vec![0, 4]);
    assert!(recs[3].0.eq_coord(&c(100, 100)));
}

#[test]
fn polyline_inclusive_search_is_refused() {
    let square = LineString(vec![c(0, 0), c(1, 0), c(1, 1), c(0, 1), c(0, 0)]);
    match square.is_self_intersecting_inclusive() {
        Err(IntersectError::InvalidSearchParameter(_)) => {},
        _ => panic!("expected InvalidSearchParameter"),
    }
    match square.self_intersections_inclusive() {
        Err(IntersectError::InvalidSearchParameter(_)) => {},
        _ => panic!("expected InvalidSearchParameter"),
    }
}

#[test]
fn boolean_agrees_with_records_on_both_policies() {
    let cases: Vec<Vec<Line>> = vec![
        vec![],
        vec![seg(0, 0, 1, 1)],
        vec![seg(0, 0, 2, 2), seg(0, 2, 2, 0)],
        vec![seg(0, 0, 1, 0), seg(2, 0, 3, 0)],
        vec![seg(0, 0, 1, 0), seg(1, 0, 2, 0)],
        vec![seg(0, 0, 4, 0), seg(2, 0, 6, 0)],
    ];
    for lines in cases {
        let b = lines.is_self_intersecting().expect("valid");
        let recs = lines.self_intersections().expect("valid");
        assert_eq!(b, !recs.is_empty());
        let b = lines.is_self_intersecting_inclusive().expect("valid");
        let recs = lines.self_intersections_inclusive().expect("valid");
        assert_eq!(b, !recs.is_empty());
    }
}

#[test]
fn disjoint_segments_have_no_intersections() {
    let lines = vec![seg(0, 0, 1, 0), seg(0, 2, 1, 2), seg(5, 5, 6, 6)];
    assert!(lines.self_intersections().expect("valid").is_empty());
    assert!(lines.self_intersections_inclusive().expect("valid").is_empty());
}

#[test]
fn large_collections_go_through_the_sweep_and_agree_with_pairwise() {
    // thirty segments: at or above the threshold the facade runs the sweep
    let mut lines: Vec<Line> = Vec::new();
    for i in 0..15i64 {
        lines.push(seg(1, 2 * i, 99, 2 * i));
    }
    for j in 0..15i64 {
        lines.push(seg(2 + 6 * j, -1, 2 + 6 * j, 29));
    }
    let got = lines.self_intersections().expect("valid");
    assert_eq!(got.len(), 225);
    let expected = intersect2d::brute::brute_force(&lines, true);
    for rec in expected.iter() {
        let mut found = false;
        for other in got.iter() {
            if other.0.eq_rp(&rec.0) {
                assert_eq!(other.1, rec.1);
                found = true;
                break;
            }
        }
        assert!(found, "a pairwise record is missing from the sweep output");
    }
    assert!(lines.is_self_intersecting().expect("valid"));
    assert!(lines.is_self_intersecting_inclusive().expect("valid"));
}

#[test]
fn translation_preserves_records() {
    let base = vec![seg(0, 0, 2, 2), seg(0, 2, 2, 0), seg(0, 1, 2, 1)];
    let moved: Vec<Line> = base
        .iter()
        .map(|l| seg(l.start.x + 37, l.start.y - 11, l.end.x + 37, l.end.y - 11))
        .collect();
    let a = base.self_intersections_inclusive().expect("valid");
    let b = moved.self_intersections_inclusive().expect("valid");
    assert_eq!(a.len(), b.len());
    for (ra, rb) in a.iter().zip(b.iter()) {
        assert_eq!(ra.1, rb.1);
    }
}
