use beamtable::geometry::Frac;
use beamtable::geometry::Geomstr;
use beamtable::geometry::Point;
use beamtable::geometry::Segment;
use beamtable::geometry::Slope;
use beamtable::geometry::slope_less;
use beamtable::geometry::LINE_KIND;

fn seg(p0: (i64, i64), p1: (i64, i64), label: i64) -> Segment {
    Segment {
        p0: Point { x: p0.0, y: p0.1 },
        c1: Point { x: 0, y: 0 },
        kind: LINE_KIND,
        label,
        c2: Point { x: 0, y: 0 },
        p1: Point { x: p1.0, y: p1.1 },
    }
}

#[test]
fn point_order_is_lexicographic() {
    let a = Point::new(1, 5);
    let b = Point::new(2, 0);
    let c = Point::new(2, 3);
    assert!(a.lt(&b) && b.lt(&c) && a.lt(&c));
    assert!(!b.lt(&a));
    assert!(a.le(&b) && a.le(&a));
    assert!(!c.le(&b));
}

#[test]
fn line_appends_record() {
    let mut g = Geomstr::new();
    g.line((1, 2), (3, 4), 7);
    assert_eq!(g.segments.len(), 1);
    assert_eq!(g.segments[0], seg((1, 2), (3, 4), 7));
}

#[test]
fn rect_appends_four_oriented_edges() {
    let mut g = Geomstr::new();
    g.rect(0, 0, 10, 10, 1);
    assert_eq!(g.segments.len(), 4);
    assert_eq!(g.segments[0], seg((0, 0), (10, 0), 1));
    assert_eq!(g.segments[1], seg((10, 0), (10, 10), 1));
    assert_eq!(g.segments[2], seg((10, 10), (0, 10), 1));
    assert_eq!(g.segments[3], seg((0, 10), (0, 0), 1));
}

#[test]
fn from_segments_keeps_records() {
    let records = vec![seg((0, 0), (5, 5), 3)];
    let g = Geomstr::from_segments(records.clone());
    assert_eq!(g.segments, records);
}

#[test]
fn slope_of_vertical_and_ratios() {
    let mut g = Geomstr::new();
    g.line((5, 0), (5, 10), 0);
    g.line((0, 0), (10, 10), 0);
    g.line((0, 0), (10, 0), 0);
    assert_eq!(g.slope(0), Slope::Vertical);
    assert_eq!(g.slope(1), Slope::Ratio { rise: -10, run: -10 });
    assert_eq!(g.slope(2), Slope::Ratio { rise: 0, run: -10 });
}

#[test]
fn slope_order_vertical_is_steepest() {
    let down = Slope::Ratio { rise: 10, run: -10 };
    let flat = Slope::Ratio { rise: 0, run: -10 };
    let up = Slope::Ratio { rise: -10, run: -10 };
    assert!(slope_less(&down, &flat));
    assert!(slope_less(&flat, &up));
    assert!(slope_less(&down, &up));
    assert!(slope_less(&up, &Slope::Vertical));
    assert!(!slope_less(&Slope::Vertical, &up));
    assert!(!slope_less(&Slope::Vertical, &Slope::Vertical));
}

#[test]
fn crossing_diagonals_intersect_at_half() {
    let mut g = Geomstr::new();
    g.line((0, 0), (10, 10), 0);
    g.line((0, 10), (10, 0), 0);
    let t = g.get_intersection(0, 1).expect("the diagonals cross");
    assert_eq!(t.0, Frac { num: 100, den: 200 });
    assert_eq!(t.1, Frac { num: 100, den: 200 });
    let p = g.point(0, t.0);
    assert_eq!(p, Point { x: 5, y: 5 });
}

#[test]
fn parallel_lines_do_not_intersect() {
    let mut g = Geomstr::new();
    g.line((0, 0), (10, 0), 0);
    g.line((0, 5), (10, 5), 0);
    assert!(g.get_intersection(0, 1).is_none());
}

#[test]
fn crossing_outside_segments_is_rejected() {
    let mut g = Geomstr::new();
    g.line((0, 0), (1, 1), 0);
    g.line((5, 0), (6, -1), 0);
    assert!(g.get_intersection(0, 1).is_none());
}

#[test]
fn y_intercept_cases() {
    let mut g = Geomstr::new();
    g.line((0, 3), (10, 3), 0);
    g.line((5, 0), (5, 10), 0);
    g.line((0, 0), (3, 10), 0);
    g.line((0, 0), (2, 1), 0);
    // horizontal: its own y.
    assert_eq!(g.y_intercept(0, 7, 99), Point { x: 7, y: 3 });
    // vertical: the caller's default.
    assert_eq!(g.y_intercept(1, 5, 42), Point { x: 5, y: 42 });
    // slanted: 10/3 at x = 1 rounds to 3.
    assert_eq!(g.y_intercept(2, 1, 0), Point { x: 1, y: 3 });
    // a half rounds up: 1/2 at x = 1 gives 1.
    assert_eq!(g.y_intercept(3, 1, 0), Point { x: 1, y: 1 });
}

#[test]
fn point_interpolates_and_rounds() {
    let mut g = Geomstr::new();
    g.line((0, 0), (10, 10), 0);
    assert_eq!(g.point(0, Frac { num: 0, den: 4 }), Point { x: 0, y: 0 });
    assert_eq!(g.point(0, Frac { num: 4, den: 4 }), Point { x: 10, y: 10 });
    // 0.25 of the way: exactly (2.5, 2.5), rounded up to (3, 3).
    assert_eq!(g.point(0, Frac { num: 1, den: 4 }), Point { x: 3, y: 3 });
}

#[test]
fn point_up_rounds_the_column_up() {
    let mut g = Geomstr::new();
    g.line((0, 0), (1, 10), 0);
    let t = Frac { num: 2, den: 5 };
    // 0.4 of the way: x is exactly 0.4, y exactly 4.
    assert_eq!(g.point(0, t), Point { x: 0, y: 4 });
    assert_eq!(g.point_up(0, t), Point { x: 1, y: 4 });
}

#[test]
fn travel_distance_sums_squared_gaps() {
    let mut g = Geomstr::new();
    g.line((0, 0), (1, 0), 0);
    g.line((3, 0), (4, 0), 0);
    g.line((4, 2), (5, 2), 0);
    // gaps: (3-1)^2 = 4, then (4-4)^2 + (2-0)^2 = 4.
    assert_eq!(g.travel_distance_sq(), 8);
}

#[test]
fn reverse_swaps_endpoints_and_controls() {
    let mut g = Geomstr::new();
    g.line((1, 2), (3, 4), 9);
    g.reverse(0);
    assert_eq!(g.segments[0], seg((3, 4), (1, 2), 9));
}

#[test]
fn greedy_reorders_by_nearest_start() {
    let mut g = Geomstr::new();
    g.line((0, 0), (1, 0), 0); // a
    g.line((5, 0), (6, 0), 1); // c
    g.line((1, 0), (2, 0), 2); // b
    g.greedy_distance(Point { x: 0, y: 0 }, false);
    // From the origin the nearest later start is b's (1,0); then from b's
    // end (2,0) the nearest remaining start is a's (0,0).
    let labels: Vec<i64> = g.segments.iter().map(|s| s.label).collect();
    assert_eq!(labels, vec![2, 0, 1]);
}

#[test]
fn greedy_with_flips_reverses_nearer_far_end() {
    let mut g = Geomstr::new();
    g.line((0, 0), (1, 0), 0);
    g.line((10, 0), (2, 0), 1);
    g.greedy_distance(Point { x: 0, y: 0 }, true);
    // Of the records past position zero, the nearest endpoint to the origin
    // is the second record's far end (2,0), so it is flipped and pulled to
    // the front.
    assert_eq!(g.segments[0].p0, Point { x: 2, y: 0 });
    assert_eq!(g.segments[0].p1, Point { x: 10, y: 0 });
    assert_eq!(g.segments[0].label, 1);
    assert_eq!(g.segments[1].p0, Point { x: 0, y: 0 });
    assert_eq!(g.segments[1].label, 0);
}
