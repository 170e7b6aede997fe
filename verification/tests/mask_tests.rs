use beamtable::geometry::Geomstr;
use beamtable::table::BeamTable;
use beamtable::table::BoolOp;

fn fixture() -> BeamTable {
    let mut segments = Geomstr::new();
    segments.rect(0, 0, 10, 10, 1);
    segments.rect(5, 0, 10, 10, 2);
    let mut table = BeamTable::new(segments);
    table.build();
    table
}

#[test]
fn masks_align_with_the_table() {
    let table = fixture();
    assert_eq!(table.events.len(), table.actives.len());
    let by_label = table.evenodd_fill(1);
    let ignoring = table.even_odd_ignoring_origin();
    let union = table.union_all();
    for mask in [&by_label, &ignoring, &union] {
        assert_eq!(mask.inside.len(), table.actives.len());
        for (j, row) in mask.inside.iter().enumerate() {
            assert_eq!(row.len(), table.actives[j].len() + 1);
        }
    }
}

#[test]
fn even_odd_ignoring_origin_alternates() {
    let table = fixture();
    let mask = table.even_odd_ignoring_origin();
    for row in &mask.inside {
        for (k, v) in row.iter().enumerate() {
            assert_eq!(*v, k % 2 == 1);
        }
    }
}

#[test]
fn union_all_matches_or_of_fills_here() {
    // With one rectangle per label, the union of all labels agrees with the
    // disjunction of the per-label even-odd fills.
    let table = fixture();
    let m1 = table.evenodd_fill(1);
    let m2 = table.evenodd_fill(2);
    let union = table.union_all();
    assert_eq!(union.inside, m1.or(&m2).inside);
}

#[test]
fn double_negation_restores_the_mask() {
    let table = fixture();
    let m = table.evenodd_fill(1);
    assert_eq!(m.not().not().inside, m.inside);
}

#[test]
fn and_or_are_idempotent() {
    let table = fixture();
    let m = table.evenodd_fill(1);
    assert_eq!(m.and(&m).inside, m.inside);
    assert_eq!(m.or(&m).inside, m.inside);
}

#[test]
fn complement_gives_all_outside_and_all_inside() {
    let table = fixture();
    let m = table.evenodd_fill(1);
    let zero = m.and(&m.not());
    let one = m.or(&m.not());
    for row in &zero.inside {
        assert!(row.iter().all(|v| !v));
    }
    for row in &one.inside {
        assert!(row.iter().all(|v| *v));
    }
}

#[test]
fn and_or_commute() {
    let table = fixture();
    let a = table.evenodd_fill(1);
    let b = table.evenodd_fill(2);
    assert_eq!(a.and(&b).inside, b.and(&a).inside);
    assert_eq!(a.or(&b).inside, b.or(&a).inside);
}

#[test]
fn and_or_associate() {
    let table = fixture();
    let a = table.evenodd_fill(1);
    let b = table.evenodd_fill(2);
    let c = table.even_odd_ignoring_origin();
    assert_eq!(a.and(&b).and(&c).inside, a.and(&b.and(&c)).inside);
    assert_eq!(a.or(&b).or(&c).inside, a.or(&b.or(&c)).inside);
}

#[test]
fn boolop_new_owns_the_grid() {
    let grid = vec![vec![true, false], vec![false]];
    let m = BoolOp::new(grid.clone());
    assert_eq!(m.inside, grid);
}
