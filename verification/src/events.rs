//! Sweep events. Events are keyed by point; each carries the index lists of
//! the segments that start (`add`), end (`remove`), or must be re-inserted
//! (`update`) at that point.

use vstd::prelude::*;

verus! {

use crate::geometry::Point;

/// One coalesced event of the sweep. `add` holds segments whose lower
/// endpoint is the event point, `remove` those whose upper endpoint is, and
/// `update` those that cross another segment there and have to be removed
/// and re-inserted.
#[derive(Clone, Debug)]
pub struct Event {
    pub point: Point,
    pub add: Vec<usize>,
    pub remove: Vec<usize>,
    pub update: Vec<usize>,
}

impl Event {
    /// An empty event at `(x, y)`.
    pub fn new(x: i64, y: i64) -> (r: Event)
        ensures
            r.point == (Point { x, y }),
            r.add@ == Seq::<usize>::empty(),
            r.remove@ == Seq::<usize>::empty(),
            r.update@ == Seq::<usize>::empty(),
    {
        Event { point: Point { x, y }, add: Vec::new(), remove: Vec::new(), update: Vec::new() }
    }

    /// An event at `pt` that re-inserts the crossing pair `s1`, `s2`.
    pub fn swap(pt: Point, s1: usize, s2: usize) -> (r: Event)
        ensures
            r.point == pt,
            r.add@ == Seq::<usize>::empty(),
            r.remove@ == Seq::<usize>::empty(),
            r.update@ == seq![s1, s2],
    {
        let mut update: Vec<usize> = Vec::new();
        update.push(s1);
        update.push(s2);
        Event { point: pt, add: Vec::new(), remove: Vec::new(), update }
    }

    /// An event at `pt` where segment `start` begins.
    pub fn start(pt: Point, start: usize) -> (r: Event)
        ensures
            r.point == pt,
            r.add@ == seq![start],
            r.remove@ == Seq::<usize>::empty(),
            r.update@ == Seq::<usize>::empty(),
    {
        let mut add: Vec<usize> = Vec::new();
        add.push(start);
        Event { point: pt, add, remove: Vec::new(), update: Vec::new() }
    }

    /// An event at `pt` where segment `end` finishes.
    pub fn end(pt: Point, end: usize) -> (r: Event)
        ensures
            r.point == pt,
            r.add@ == Seq::<usize>::empty(),
            r.remove@ == seq![end],
            r.update@ == Seq::<usize>::empty(),
    {
        let mut remove: Vec<usize> = Vec::new();
        remove.push(end);
        Event { point: pt, add: Vec::new(), remove, update: Vec::new() }
    }
}

} // verus!
