use intersect2d::algorithm::AlgorithmData;
use intersect2d::brute::brute_force;
use intersect2d::geom::{Coord, Line};
use intersect2d::IntersectError;

fn c(x: i64, y: i64) -> Coord {
    Coord { x, y }
}

fn seg(x1: i64, y1: i64, x2: i64, y2: i64) -> Line {
    Line { start: c(x1, y1), end: c(x2, y2) }
}

fn run_sweep(lines: Vec<Line>, inclusive: bool) -> Vec<(intersect2d::rat::RPoint, Vec<usize>)> {
    AlgorithmData::default()
        .with_ignore_end_point_intersections(!inclusive)
        .expect("configured")
        .with_lines(lines)
        .expect("valid")
        .compute()
        .expect("computed")
}

#[test]
fn three_segments_through_origin_merge_into_one_record() {
    let lines = vec![seg(-1, -1, 1, 1), seg(-1, 1, 1, -1), seg(-1, 0, 1, 0)];
    let recs = run_sweep(lines, true);
    assert_eq!(recs.len(), 1);
    assert!(recs[0].0.eq_coord(&c(0, 0)));
    assert_eq!(recs[0].1, vec![0, 1, 2]);
}

#[test]
fn sweep_handles_vertical_horizontal_and_degenerate() {
    // a cross of a vertical and a horizontal segment
    let recs = run_sweep(vec![seg(0, -2, 0, 2), seg(-2, 0, 2, 0)], true);
    assert_eq!(recs.len(), 1);
    assert!(recs[0].0.eq_coord(&c(0, 0)));
    assert_eq!(recs[0].1, vec![0, 1]);

    // a degenerate segment resting on another segment's interior
    let recs = run_sweep(vec![seg(0, 0, 4, 4), seg(2, 2, 2, 2)], true);
    assert_eq!(recs.len(), 1);
    assert!(recs[0].0.eq_coord(&c(2, 2)));
    assert_eq!(recs[0].1, vec![0, 1]);
}

#[test]
fn sweep_exclusive_suppresses_endpoint_touches() {
    // two segments joined at one vertex only
    let recs = run_sweep(vec![seg(0, 0, 2, 2), seg(2, 2, 4, 0)], false);
    assert!(recs.is_empty());
    // the same pair is reported inclusively
    let recs = run_sweep(vec![seg(0, 0, 2, 2), seg(2, 2, 4, 0)], true);
    assert_eq!(recs.len(), 1);
    assert!(recs[0].0.eq_coord(&c(2, 2)));
}

#[test]
fn sweep_reports_collinear_overlap_once() {
    let recs = run_sweep(vec![seg(0, 0, 4, 0), seg(2, 0, 6, 0)], true);
    assert_eq!(recs.len(), 1);
    assert_eq!(recs[0].1, vec![0, 1]);
}

#[test]
fn sweep_reports_overlap_at_shared_stretch_start() {
    // the second segment extends left of the first: the record sits at the
    // sweep-first point of the stretch they actually share, not at the
    // second segment's start
    let recs = run_sweep(vec![seg(0, 0, 4, 0), seg(-2, 0, 2, 0)], true);
    assert_eq!(recs.len(), 1);
    assert_eq!(recs[0].1, vec![0, 1]);
    assert!(recs[0].0.eq_coord(&c(0, 0)));
}

#[test]
fn stop_at_first_intersection_surfaces_at_most_one_record() {
    let lines = vec![seg(0, 0, 10, 10), seg(0, 10, 10, 0), seg(0, 4, 10, 4), seg(0, 6, 10, 6)];
    let recs = AlgorithmData::default()
        .with_ignore_end_point_intersections(false)
        .expect("configured")
        .with_stop_at_first_intersection(true)
        .expect("configured")
        .with_lines(lines)
        .expect("valid")
        .compute()
        .expect("computed");
    assert_eq!(recs.len(), 1);
}

#[test]
fn results_are_taken_exactly_once() {
    let mut engine = AlgorithmData::default()
        .with_ignore_end_point_intersections(false)
        .expect("configured")
        .with_lines(vec![seg(0, 0, 2, 2), seg(0, 2, 2, 0)])
        .expect("valid");
    let first = engine.compute().expect("computed");
    assert_eq!(first.len(), 1);
    match engine.compute() {
        Err(IntersectError::ResultsAlreadyTaken(_)) => {},
        _ => panic!("expected ResultsAlreadyTaken"),
    }
}

#[test]
fn compute_without_segments_is_a_programming_error() {
    let mut engine = AlgorithmData::default();
    match engine.compute() {
        Err(IntersectError::InternalError(_)) => {},
        _ => panic!("expected InternalError"),
    }
}

#[test]
fn engine_rejects_out_of_range_coordinates() {
    let r = AlgorithmData::default().with_lines(vec![seg(0, 0, 0, 100_000)]);
    match r {
        Err(IntersectError::InvalidData(_)) => {},
        _ => panic!("expected InvalidData"),
    }
}

#[test]
fn configuring_after_loading_is_refused() {
    let loaded = AlgorithmData::default().with_lines(vec![seg(0, 0, 1, 1)]).expect("valid");
    match loaded.with_ignore_end_point_intersections(true) {
        Err(IntersectError::InternalError(_)) => {},
        _ => panic!("expected InternalError"),
    }
}

#[test]
fn sweep_matches_pairwise_driver_on_a_grid() {
    // 15 horizontal and 15 vertical segments: 225 plain crossings, no three
    // segments meeting at one point, no shared endpoints
    let mut lines: Vec<Line> = Vec::new();
    for i in 0..15i64 {
        lines.push(seg(1, 2 * i, 99, 2 * i));
    }
    for j in 0..15i64 {
        lines.push(seg(2 + 6 * j, -1, 2 + 6 * j, 29));
    }
    assert_eq!(lines.len(), 30);

    let expected = brute_force(&lines, true);
    assert_eq!(expected.len(), 225);

    let got = run_sweep(lines, false);
    assert_eq!(got.len(), 225);
    for rec in expected.iter() {
        let mut found = false;
        for other in got.iter() {
            if other.0.eq_rp(&rec.0) {
                assert_eq!(other.1, rec.1);
                found = true;
                break;
            }
        }
        assert!(found, "a pairwise record is missing from the sweep output");
    }
}

#[test]
fn sweep_matches_pairwise_driver_on_steep_segments() {
    // twenty steep segments with disjoint x ranges, crossed by two long
    // horizontals: every crossing point is distinct and interior
    let mut lines: Vec<Line> = Vec::new();
    for i in 0..20i64 {
        lines.push(seg(4 * i, -5, 4 * i + 1, 5));
    }
    lines.push(seg(-1, 0, 90, 0));
    lines.push(seg(-1, 1, 90, 1));
    assert_eq!(lines.len(), 22);

    let expected = brute_force(&lines, true);
    assert_eq!(expected.len(), 40);

    let got = run_sweep(lines, false);
    assert_eq!(got.len(), 40);
    for rec in expected.iter() {
        let mut found = false;
        for other in got.iter() {
            if other.0.eq_rp(&rec.0) && other.1 == rec.1 {
                found = true;
                break;
            }
        }
        assert!(found, "a pairwise record is missing from the sweep output");
    }
}
