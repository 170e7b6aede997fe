use beamtable::geometry::Geomstr;
use beamtable::table::BeamTable;

/// A tiny deterministic generator so the fixture is reproducible.
struct Lcg(u64);

impl Lcg {
    fn next(&mut self) -> u64 {
        self.0 = self.0.wrapping_mul(6364136223846793005).wrapping_add(1442695040888963407);
        self.0 >> 33
    }

    fn below(&mut self, n: u64) -> i64 {
        (self.next() % n) as i64
    }
}

/// Checks, for queries at every event column, that each active segment's
/// x-extent encloses the column exactly, and that consecutive actives'
/// y-intercepts are ordered up to the grid rounding the comparator works
/// with (`slack` grid units).
///
/// Why a slack: a crossing's swap is scheduled at the crossing with its
/// column rounded up, so a swap can take effect up to half a grid unit
/// early. Just past such a column two actives may sit in post-crossing
/// order while their exact y-intercepts still differ by as much as half a
/// unit times the difference of the slopes. Both fixtures keep slopes
/// within about 13 input units per unit (run at least 300 of 1000 for the
/// generated lines, and at most 12.4 for the four fixed lines), so 16 grid
/// units cover the largest possible inversion with room to spare.
fn check_rows(table: &BeamTable, xs: &[i64], slack: i64) {
    for &x in xs {
        let actives = table.actives_at(x, 1_000_000);
        for i in 1..actives.len() {
            let prev = &table.geometry.segments[actives[i - 1]];
            let line = &table.geometry.segments[actives[i]];
            let (pp0, pp1) = (prev.p0.x.min(prev.p1.x), prev.p0.x.max(prev.p1.x));
            assert!(pp0 <= x && x <= pp1, "{} outside [{}, {}]", x, pp0, pp1);
            let (cp0, cp1) = (line.p0.x.min(line.p1.x), line.p0.x.max(line.p1.x));
            assert!(cp0 <= x && x <= cp1, "{} outside [{}, {}]", x, cp0, cp1);
            let last_pos = table.geometry.y_intercept(actives[i - 1], x, 0);
            let pos = table.geometry.y_intercept(actives[i], x, 0);
            assert!(
                pos.y + slack >= last_pos.y,
                "order broke at x = {}: {} then {}",
                x,
                last_pos.y,
                pos.y
            );
        }
    }
}

#[test]
fn actives_monotonic() {
    let mut segments = Geomstr::new();
    let mut rng = Lcg(7);
    let mut count: usize = 0;
    while count < 150 {
        let x0 = rng.below(500);
        let y0 = rng.below(1000);
        let x1 = x0 + 300 + rng.below(200);
        let y1 = rng.below(1000);
        if y0 == y1 && x0 == x1 {
            continue;
        }
        segments.line((x0 * 100, y0 * 100), (x1 * 100, y1 * 100), (count % 10) as i64);
        count += 1;
    }
    let mut beam = BeamTable::new(segments);
    beam.build();
    let xs: Vec<i64> = beam.events.iter().map(|p| p.x).collect();
    check_rows(&beam, &xs, 16);
}

#[test]
fn actives_four_lines() {
    let mut segments = Geomstr::new();
    segments.line((68000, 13400), (72500, 50900), 2);
    segments.line((93700, 18600), (22800, 24300), 8);
    segments.line((74600, 86700), (68000, 5200), 9);
    segments.line((96100, 48100), (66200, 18200), 7);
    let mut beam = BeamTable::new(segments);
    beam.build();
    let xs: Vec<i64> = beam.events.iter().map(|p| p.x).collect();
    check_rows(&beam, &xs, 16);
    // The same check across the whole span, between events too.
    let all: Vec<i64> = (680..962).map(|x| x * 100).collect();
    check_rows(&beam, &all, 16);
}

#[test]
fn events_are_strictly_ascending() {
    let mut segments = Geomstr::new();
    segments.rect(0, 0, 10, 10, 1);
    segments.line((0, 0), (10, 10), 2);
    segments.line((0, 10), (10, 0), 3);
    let mut beam = BeamTable::new(segments);
    beam.build();
    for i in 1..beam.events.len() {
        let a = beam.events[i - 1];
        let b = beam.events[i];
        assert!(a.x < b.x || (a.x == b.x && a.y < b.y));
    }
    // Every segment has retired by the end: the final row is empty.
    assert_eq!(beam.actives.last().unwrap().len(), 0);
}
