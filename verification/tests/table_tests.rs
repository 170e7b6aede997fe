use beamtable::events::Event;
use beamtable::geometry::Geomstr;
use beamtable::geometry::Point;
use beamtable::geometry::Segment;
use beamtable::table::BeamTable;

/// Direction-free view of a record: endpoints sorted, label kept.
fn canon(s: &Segment) -> ((i64, i64), (i64, i64), i64) {
    let a = (s.p0.x, s.p0.y);
    let b = (s.p1.x, s.p1.y);
    if a <= b {
        (a, b, s.label)
    } else {
        (b, a, s.label)
    }
}

/// The emitted records as direction-free tuples, sorted; a record collapsed
/// to a point (which `create` never emits) would be dropped.
fn boundary_set(g: &Geomstr) -> Vec<((i64, i64), (i64, i64), i64)> {
    let mut v: Vec<((i64, i64), (i64, i64), i64)> = g
        .segments
        .iter()
        .filter(|s| s.p0 != s.p1)
        .map(canon)
        .collect();
    v.sort();
    v
}

#[test]
fn two_box_test() {
    let mut segments = Geomstr::new();
    segments.rect(0, 0, 100, 100, 1);
    segments.rect(5, 5, 100, 100, 0);
    let mut table = BeamTable::new(segments);
    table.build();
    assert_eq!(table.events.len(), table.actives.len());
    for row in &table.actives {
        assert!(row.len() == 0 || row.len() == 2 || row.len() == 4, "row len {}", row.len());
    }
    for x in 6..100 {
        assert_eq!(table.actives_at(x, 50).len(), 4, "at x = {}", x);
    }
}

#[test]
fn crossing_diagonals() {
    let mut segments = Geomstr::new();
    segments.line((0, 0), (10, 10), 0);
    segments.line((0, 10), (10, 0), 0);
    let mut table = BeamTable::new(segments);
    table.build();
    assert!(!table.intersections.is_empty());
    for p in &table.intersections {
        assert_eq!(*p, Point { x: 5, y: 5 });
    }
    let expected = vec![
        Point { x: 0, y: 0 },
        Point { x: 0, y: 10 },
        Point { x: 5, y: 5 },
        Point { x: 10, y: 0 },
        Point { x: 10, y: 10 },
    ];
    assert_eq!(table.events, expected);
    // Past the crossing the diagonals have swapped places.
    assert_eq!(table.actives_at(5, 5), &vec![1usize, 0usize]);
}

#[test]
fn three_concurrent_lines() {
    let mut segments = Geomstr::new();
    segments.line((-10, -10), (10, 10), 0);
    segments.line((-10, 10), (10, -10), 0);
    segments.line((-10, 0), (10, 0), 0);
    let mut table = BeamTable::new(segments);
    table.build();
    // One coalesced event at the common point, three per outer column.
    assert_eq!(table.events.len(), 7);
    assert!(table.events.contains(&Point { x: 0, y: 0 }));
    for p in &table.intersections {
        assert_eq!(*p, Point { x: 0, y: 0 });
    }
    // After the shared crossing all three are re-sorted by slope.
    assert_eq!(table.actives_at(0, 0), &vec![1usize, 2usize, 0usize]);
}

#[test]
fn vertical_line() {
    let mut segments = Geomstr::new();
    segments.line((5, 0), (5, 10), 0);
    segments.line((0, 5), (10, 5), 0);
    let mut table = BeamTable::new(segments);
    table.build();
    assert!(table.intersections.contains(&Point { x: 5, y: 5 }));
    let row = table.actives_at(5, 5);
    assert_eq!(row.len(), 2);
    assert!(row.contains(&0) && row.contains(&1));
}

#[test]
fn evenodd_inside_rect() {
    let mut segments = Geomstr::new();
    segments.rect(0, 0, 10, 10, 1);
    let mut table = BeamTable::new(segments);
    table.build();
    let mask = table.evenodd_fill(1);
    assert_eq!(mask.inside.len(), table.actives.len());
    for (j, row) in mask.inside.iter().enumerate() {
        assert_eq!(row.len(), table.actives[j].len() + 1);
    }
    // The beam crossing the rectangle's body: outside, inside, outside.
    assert_eq!(table.events[1], Point { x: 0, y: 10 });
    assert_eq!(mask.inside[1], vec![false, true, false]);
    // The final row is past everything: all outside.
    assert_eq!(mask.inside[table.actives.len() - 1], vec![false]);
}

#[test]
fn round_trip_rect() {
    let mut segments = Geomstr::new();
    segments.rect(0, 0, 10, 10, 1);
    let mut table = BeamTable::new(segments);
    table.build();
    let mask = table.evenodd_fill(1);
    let out = table.create(mask, false);
    assert_eq!(out.segments.len(), 4);
    let expected = vec![
        ((0, 0), (0, 10), 1),
        ((0, 0), (10, 0), 1),
        ((0, 10), (10, 10), 1),
        ((10, 0), (10, 10), 1),
    ];
    assert_eq!(boundary_set(&out), expected);
}

#[test]
fn create_with_greedy_keeps_the_boundary() {
    let mut segments = Geomstr::new();
    segments.rect(0, 0, 10, 10, 1);
    let mut table = BeamTable::new(segments);
    table.build();
    let plain = table.create(table.evenodd_fill(1), false);
    let ordered = table.create(table.evenodd_fill(1), true);
    // Reordering may permute and flip records, never change their set.
    assert_eq!(ordered.segments.len(), plain.segments.len());
    assert_eq!(boundary_set(&ordered), boundary_set(&plain));
}

#[test]
fn evenodd_two_rects() {
    let mut segments = Geomstr::new();
    segments.rect(0, 0, 10, 10, 1);
    segments.rect(20, 0, 10, 10, 1);
    let mut table = BeamTable::new(segments);
    table.build();
    let mask = table.evenodd_fill(1);
    let out = table.create(mask, false);
    // Exactly the eight boundary records, none collapsed to a point.
    assert_eq!(out.segments.len(), 8);
    let got = boundary_set(&out);
    assert_eq!(got.len(), 8);
    let expected = vec![
        ((0, 0), (0, 10), 1),
        ((0, 0), (10, 0), 1),
        ((0, 10), (10, 10), 1),
        ((10, 0), (10, 10), 1),
        ((20, 0), (20, 10), 1),
        ((20, 0), (30, 0), 1),
        ((20, 10), (30, 10), 1),
        ((30, 0), (30, 10), 1),
    ];
    assert_eq!(got, expected);
}

#[test]
fn union_vs_intersection() {
    let mut segments = Geomstr::new();
    segments.rect(0, 0, 10, 10, 1);
    segments.rect(5, 0, 10, 10, 2);
    let mut table = BeamTable::new(segments);
    table.build();
    let m1 = table.evenodd_fill(1);
    let m2 = table.evenodd_fill(2);
    let union = table.create(m1.or(&m2), false);
    let inter = table.create(m1.and(&m2), false);
    // The intersection traces the overlap rectangle x in [5,10].
    let inter_got = boundary_set(&inter);
    assert_eq!(
        inter_got,
        vec![
            ((5, 0), (5, 10), 2),
            ((5, 0), (10, 0), 2),
            ((5, 10), (10, 10), 1),
            ((10, 0), (10, 10), 1),
        ]
    );
    // The union traces the outer outline x in [0,15], the horizontal runs
    // subdivided at the sweep's events.
    let union_got = boundary_set(&union);
    assert_eq!(
        union_got,
        vec![
            ((0, 0), (0, 10), 1),
            ((0, 0), (5, 0), 1),
            ((0, 10), (5, 10), 1),
            ((5, 0), (10, 0), 1),
            ((5, 10), (10, 10), 2),
            ((10, 0), (15, 0), 2),
            ((10, 10), (15, 10), 2),
            ((15, 0), (15, 10), 2),
        ]
    );
}

#[test]
fn degenerate_record_retires_immediately() {
    let mut segments = Geomstr::new();
    segments.rect(0, 0, 10, 10, 1);
    // A line collapsed to a single point: its add and remove coalesce at
    // one event and cancel, so it never enters any row.
    segments.line((5, 5), (5, 5), 2);
    let mut table = BeamTable::new(segments);
    table.build();
    for row in &table.actives {
        assert!(!row.contains(&4));
    }
    assert_eq!(table.actives.last().unwrap().len(), 0);
    // Its point still splits the plane: an event exists at (5,5).
    assert!(table.events.contains(&Point { x: 5, y: 5 }));
}

#[test]
fn build_is_idempotent() {
    let mut segments = Geomstr::new();
    segments.rect(0, 0, 10, 10, 1);
    let mut table = BeamTable::new(segments);
    table.build();
    let events = table.events.clone();
    let actives = table.actives.clone();
    table.build();
    assert_eq!(table.events, events);
    assert_eq!(table.actives, actives);
}

#[test]
fn empty_geometry_builds_empty_table() {
    let mut table = BeamTable::new(Geomstr::new());
    table.build();
    assert!(table.events.is_empty());
    assert!(table.actives.is_empty());
    assert!(table.intersections.is_empty());
}

#[test]
fn actives_at_before_first_event_wraps_to_last_row() {
    let mut segments = Geomstr::new();
    segments.rect(10, 0, 10, 10, 1);
    let mut table = BeamTable::new(segments);
    table.build();
    // The last row is past every event and is empty.
    assert_eq!(table.actives_at(0, 0).len(), 0);
}

#[test]
fn seeding_balances_adds_and_removes() {
    let mut g = Geomstr::new();
    g.line((0, 0), (10, 10), 1);
    g.rect(0, 0, 5, 5, 2);
    // A record of another kind takes no part in the sweep.
    let mut other = g.segments[0];
    other.kind = 7;
    g.segments.push(other);
    let n = g.segments.len();
    let table = BeamTable::new(g);
    let mut events: Vec<Event> = Vec::new();
    table.seed_events(&mut events);
    for idx in 0..n {
        let adds: usize = events.iter().map(|e| e.add.iter().filter(|&&v| v == idx).count()).sum();
        let removes: usize =
            events.iter().map(|e| e.remove.iter().filter(|&&v| v == idx).count()).sum();
        let expected = if idx < 5 { 1 } else { 0 };
        assert_eq!(adds, expected, "adds of {}", idx);
        assert_eq!(removes, expected, "removes of {}", idx);
    }
    assert!(events.iter().all(|e| e.update.is_empty()));
}

#[test]
fn bisect_events_finds_and_encodes_insertion() {
    let table = BeamTable::new(Geomstr::new());
    let events = vec![Event::new(0, 0), Event::new(5, 5), Event::new(10, 0)];
    assert_eq!(table.bisect_events(&Point { x: 5, y: 5 }, &events), 1);
    assert_eq!(table.bisect_events(&Point { x: 0, y: 0 }, &events), 0);
    // A missing point answers with the one's complement of its slot.
    assert_eq!(table.bisect_events(&Point { x: 3, y: 0 }, &events), !1);
    assert_eq!(table.bisect_events(&Point { x: -1, y: 0 }, &events), !0);
    assert_eq!(table.bisect_events(&Point { x: 11, y: 0 }, &events), !3);
}
