use beamtable::events::Event;
use beamtable::geometry::Point;

#[test]
fn new_event_is_empty() {
    let e = Event::new(3, 4);
    assert_eq!(e.point, Point { x: 3, y: 4 });
    assert!(e.add.is_empty());
    assert!(e.remove.is_empty());
    assert!(e.update.is_empty());
}

#[test]
fn swap_event_lists_the_pair() {
    let e = Event::swap(Point { x: 1, y: 2 }, 5, 9);
    assert_eq!(e.point, Point { x: 1, y: 2 });
    assert!(e.add.is_empty());
    assert!(e.remove.is_empty());
    assert_eq!(e.update, vec![5, 9]);
}

#[test]
fn start_and_end_events_name_the_segment() {
    let s = Event::start(Point { x: 0, y: 0 }, 7);
    assert_eq!(s.add, vec![7]);
    assert!(s.remove.is_empty());
    let e = Event::end(Point { x: 0, y: 0 }, 7);
    assert_eq!(e.remove, vec![7]);
    assert!(e.add.is_empty());
}
