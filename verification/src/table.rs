//! The beam table and its mask algebra: the sweep-line builder, the mask
//! constructors over the per-beam active lists, boolean composition, and
//! the extraction of boundary segments from a mask.

use vstd::prelude::*;

verus! {

use vstd::multiset::Multiset;

use crate::events::Event;
use crate::geometry::Geomstr;
use crate::geometry::Point;
use crate::geometry::pt_in_bounds;
use crate::geometry::pt_le;
use crate::geometry::pt_lt;
use crate::geometry::geo_in_bounds;
use crate::geometry::seg_in_bounds;
use crate::geometry::slope_less;
use crate::geometry::Frac;
use crate::geometry::interp;
use crate::geometry::interp_up;
use crate::geometry::isect_denom;
use crate::geometry::isect_num1;
use crate::geometry::isect_num2;
use crate::num::absi;
use crate::num::sgn;

/// A space mask: row `j` corresponds to beam `j` of a table; entry `k`
/// answers whether the slab below the beam's `k`-th active segment (above
/// its `k-1`-th) lies inside the region. Entry `0` is the state at
/// y = -infinity and the last entry the state at y = +infinity.
#[derive(Clone, Debug)]
pub struct BoolOp {
    pub inside: Vec<Vec<bool>>,
}

/// The grid of a mask as a sequence of rows.
pub open spec fn mask_view(m: BoolOp) -> Seq<Seq<bool>> {
    m.inside@.map(|j: int, row: Vec<bool>| row@)
}

impl View for BoolOp {
    type V = Seq<Seq<bool>>;

    open spec fn view(&self) -> Seq<Seq<bool>> {
        mask_view(*self)
    }
}

/// Two grids of exactly the same shape.
pub open spec fn same_shape(a: Seq<Seq<bool>>, b: Seq<Seq<bool>>) -> bool {
    a.len() == b.len() && forall|j: int| 0 <= j < a.len() ==> a[j].len() == #[trigger] b[j].len()
}

/// Pointwise conjunction of two same-shaped grids.
pub open spec fn grid_and(a: Seq<Seq<bool>>, b: Seq<Seq<bool>>) -> Seq<Seq<bool>> {
    a.map(|j: int, row: Seq<bool>| row.map(|k: int, v: bool| v && b[j][k]))
}

/// Pointwise disjunction of two same-shaped grids.
pub open spec fn grid_or(a: Seq<Seq<bool>>, b: Seq<Seq<bool>>) -> Seq<Seq<bool>> {
    a.map(|j: int, row: Seq<bool>| row.map(|k: int, v: bool| v || b[j][k]))
}

/// Pointwise negation of a grid.
pub open spec fn grid_not(a: Seq<Seq<bool>>) -> Seq<Seq<bool>> {
    a.map(|j: int, row: Seq<bool>| row.map(|k: int, v: bool| !v))
}

impl BoolOp {
    /// A mask owning the given grid.
    pub fn new(mask: Vec<Vec<bool>>) -> (r: BoolOp)
        ensures
            r.inside@ == mask@,
    {
        BoolOp { inside: mask }
    }

    /// Pointwise AND with `rhs`.
    pub fn and(&self, rhs: &BoolOp) -> (r: BoolOp)
        requires
            same_shape(self@, rhs@),
        ensures
            r@ == grid_and(self@, rhs@),
    {
        let mut n: Vec<Vec<bool>> = Vec::new();
        let mut j: usize = 0;
        while j < self.inside.len()
            invariant
                same_shape(self@, rhs@),
                j <= self.inside.len(),
                self@.len() == self.inside@.len(),
                n@.len() == j as int,
                forall|i: int| 0 <= i < j as int ==> #[trigger] n@[i]@ == grid_and(self@, rhs@)[i],
            decreases self.inside.len() - j,
        {
            let mut m: Vec<bool> = Vec::new();
            let row_len: usize = self.inside[j].len();
            let mut k: usize = 0;
            while k < row_len
                invariant
                    same_shape(self@, rhs@),
                    j < self.inside.len(),
                    self@.len() == self.inside@.len(),
                    row_len == self@[j as int].len(),
                    k <= row_len,
                    m@ =~= grid_and(self@, rhs@)[j as int].take(k as int),
                decreases row_len - k,
            {
                m.push(self.inside[j][k] && rhs.inside[j][k]);
                k = k + 1;
            }
            n.push(m);
            proof {
                assert(m@ =~= grid_and(self@, rhs@)[j as int]);
            }
            j = j + 1;
        }
        proof {
            assert forall|i: int| 0 <= i < n@.len() implies mask_view(BoolOp { inside: n })[i]
                == grid_and(self@, rhs@)[i] by {
                assert(n@[i]@ == grid_and(self@, rhs@)[i]);
            }
            assert(mask_view(BoolOp { inside: n }) =~= grid_and(self@, rhs@));
        }
        BoolOp { inside: n }
    }

    /// Pointwise OR with `rhs`.
    pub fn or(&self, rhs: &BoolOp) -> (r: BoolOp)
        requires
            same_shape(self@, rhs@),
        ensures
            r@ == grid_or(self@, rhs@),
    {
        let mut n: Vec<Vec<bool>> = Vec::new();
        let mut j: usize = 0;
        while j < self.inside.len()
            invariant
                same_shape(self@, rhs@),
                j <= self.inside.len(),
                self@.len() == self.inside@.len(),
                n@.len() == j as int,
                forall|i: int| 0 <= i < j as int ==> #[trigger] n@[i]@ == grid_or(self@, rhs@)[i],
            decreases self.inside.len() - j,
        {
            let mut m: Vec<bool> = Vec::new();
            let row_len: usize = self.inside[j].len();
            let mut k: usize = 0;
            while k < row_len
                invariant
                    same_shape(self@, rhs@),
                    j < self.inside.len(),
                    self@.len() == self.inside@.len(),
                    row_len == self@[j as int].len(),
                    k <= row_len,
                    m@ =~= grid_or(self@, rhs@)[j as int].take(k as int),
                decreases row_len - k,
            {
                m.push(self.inside[j][k] || rhs.inside[j][k]);
                k = k + 1;
            }
            n.push(m);
            proof {
                assert(m@ =~= grid_or(self@, rhs@)[j as int]);
            }
            j = j + 1;
        }
        proof {
            assert forall|i: int| 0 <= i < n@.len() implies mask_view(BoolOp { inside: n })[i]
                == grid_or(self@, rhs@)[i] by {
                assert(n@[i]@ == grid_or(self@, rhs@)[i]);
            }
            assert(mask_view(BoolOp { inside: n }) =~= grid_or(self@, rhs@));
        }
        BoolOp { inside: n }
    }

    /// Pointwise negation.
    pub fn not(&self) -> (r: BoolOp)
        ensures
            r@ == grid_not(self@),
    {
        let mut n: Vec<Vec<bool>> = Vec::new();
        let mut j: usize = 0;
        while j < self.inside.len()
            invariant
                j <= self.inside.len(),
                self@.len() == self.inside@.len(),
                n@.len() == j as int,
                forall|i: int| 0 <= i < j as int ==> #[trigger] n@[i]@ == grid_not(self@)[i],
            decreases self.inside.len() - j,
        {
            let mut m: Vec<bool> = Vec::new();
            let row_len: usize = self.inside[j].len();
            let mut k: usize = 0;
            while k < row_len
                invariant
                    j < self.inside.len(),
                    self@.len() == self.inside@.len(),
                    row_len == self@[j as int].len(),
                    k <= row_len,
                    m@ =~= grid_not(self@)[j as int].take(k as int),
                decreases row_len - k,
            {
                m.push(!self.inside[j][k]);
                k = k + 1;
            }
            n.push(m);
            proof {
                assert(m@ =~= grid_not(self@)[j as int]);
            }
            j = j + 1;
        }
        proof {
            assert forall|i: int| 0 <= i < n@.len() implies mask_view(BoolOp { inside: n })[i]
                == grid_not(self@)[i] by {
                assert(n@[i]@ == grid_not(self@)[i]);
            }
            assert(mask_view(BoolOp { inside: n }) =~= grid_not(self@));
        }
        BoolOp { inside: n }
    }
}

/// Every index of one active row names a record of a geometry of `n`
/// records.
pub open spec fn row_indices_valid(row: Seq<usize>, n: int) -> bool {
    forall|k: int| 0 <= k < row.len() ==> (#[trigger] row[k]) < n
}

/// A strictly ascending sequence of points in the lexicographic order.
pub open spec fn events_sorted(evs: Seq<Point>) -> bool {
    forall|a: int, b: int| 0 <= a < b < evs.len() ==> pt_lt(#[trigger] evs[a], #[trigger] evs[b])
}

/// Every event point within `COORD_LIMIT`.
pub open spec fn events_in_bounds(evs: Seq<Point>) -> bool {
    forall|j: int| 0 <= j < evs.len() ==> pt_in_bounds(#[trigger] evs[j])
}

/// The inside/outside state after walking the first `k` active segments of
/// a row, toggling at each record whose label is `layer`.
pub open spec fn evenodd_prefix(
    geo: Seq<crate::geometry::Segment>,
    row: Seq<usize>,
    layer: i64,
    k: int,
) -> bool
    decreases k,
{
    if k <= 0 {
        false
    } else if geo[row[k - 1] as int].label == layer {
        !evenodd_prefix(geo, row, layer, k - 1)
    } else {
        evenodd_prefix(geo, row, layer, k - 1)
    }
}

/// The mask row the even-odd constructor emits for one active row: entry
/// `k` is the state after `k` toggles, entry `0` always outside.
pub open spec fn evenodd_row(
    geo: Seq<crate::geometry::Segment>,
    row: Seq<usize>,
    layer: i64,
) -> Seq<bool> {
    Seq::new(row.len() + 1, |k: int| evenodd_prefix(geo, row, layer, k))
}

/// How many of the first `k` active records of a row carry label `l`.
pub open spec fn label_count(
    geo: Seq<crate::geometry::Segment>,
    row: Seq<usize>,
    l: i64,
    k: int,
) -> int
    decreases k,
{
    if k <= 0 {
        0
    } else {
        label_count(geo, row, l, k - 1) + if geo[row[k - 1] as int].label == l {
            1int
        } else {
            0int
        }
    }
}

/// Whether, after walking the first `k` active records of a row, some label
/// has been crossed an odd number of times: the union-of-all-labels state.
pub open spec fn union_prefix(geo: Seq<crate::geometry::Segment>, row: Seq<usize>, k: int) -> bool {
    exists|l: i64| #[trigger] label_count(geo, row, l, k) % 2 == 1
}

/// The mask row the union constructor emits for one active row.
pub open spec fn union_row(geo: Seq<crate::geometry::Segment>, row: Seq<usize>) -> Seq<bool> {
    Seq::new(row.len() + 1, |k: int| union_prefix(geo, row, k))
}

/// The active-row comparator: record `a` sorts before record `b` at
/// the scanline when its y-intercept there is lexicographically smaller;
/// on a tie, when its slope is smaller; on a slope tie, when its index is
/// smaller.
pub open spec fn comes_before(
    geo: Seq<crate::geometry::Segment>,
    a: usize,
    b: usize,
    sl: Point,
) -> bool {
    let pa = crate::geometry::y_int_spec(geo[a as int], sl.x, sl.y);
    let pb = crate::geometry::y_int_spec(geo[b as int], sl.x, sl.y);
    let sa = crate::geometry::slope_of(geo[a as int]);
    let sb = crate::geometry::slope_of(geo[b as int]);
    if pt_lt(pa, pb) {
        true
    } else if pt_lt(pb, pa) {
        false
    } else if crate::geometry::slope_lt(sa, sb) {
        true
    } else if crate::geometry::slope_lt(sb, sa) {
        false
    } else {
        a < b
    }
}

/// An event queue strictly ascending by point: at most one event per point.
pub open spec fn evq_sorted(q: Seq<Event>) -> bool {
    forall|a: int, b: int| 0 <= a < b < q.len() ==> pt_lt(
        (#[trigger] q[a]).point,
        (#[trigger] q[b]).point,
    )
}

/// The table row in force at a query point: the row of the matching event
/// if there is one, otherwise the row of the last event before the query;
/// `-1` (read: wrap to the last row) for a query before every event.
pub open spec fn beam_index(evs: Seq<Point>, p: Point) -> int
    decreases evs.len(),
{
    if evs.len() == 0 {
        -1
    } else if evs[evs.len() - 1] == p || pt_lt(evs[evs.len() - 1], p) {
        evs.len() - 1
    } else {
        beam_index(evs.drop_last(), p)
    }
}

/// A query strictly between two neighbouring events resolves to the earlier
/// one; `ins` is the insertion point a bisection finds.
proof fn lemma_beam_index_between(evs: Seq<Point>, p: Point, ins: int)
    requires
        events_sorted(evs),
        0 <= ins <= evs.len(),
        forall|i: int| 0 <= i < ins ==> pt_lt(#[trigger] evs[i], p),
        forall|i: int| ins <= i < evs.len() ==> pt_lt(p, #[trigger] evs[i]),
    ensures
        beam_index(evs, p) == ins - 1,
    decreases evs.len(),
{
    if evs.len() == 0 {
    } else {
        let last = evs[evs.len() - 1];
        if ins == evs.len() {
            assert(pt_lt(last, p));
        } else {
            assert(pt_lt(p, last));
            assert(!(last == p || pt_lt(last, p)));
            assert(forall|i: int| 0 <= i < ins ==> evs.drop_last()[i] == evs[i]);
            lemma_beam_index_between(evs.drop_last(), p, ins);
        }
    }
}

/// A query that coincides with an event resolves to that event's row.
proof fn lemma_beam_index_found(evs: Seq<Point>, p: Point, idx: int)
    requires
        events_sorted(evs),
        0 <= idx < evs.len(),
        evs[idx] == p,
    ensures
        beam_index(evs, p) == idx,
    decreases evs.len(),
{
    let last = evs[evs.len() - 1];
    if idx == evs.len() - 1 {
    } else {
        assert(pt_lt(p, last));
        assert(!(last == p || pt_lt(last, p)));
        assert(evs.drop_last()[idx] == evs[idx]);
        lemma_beam_index_found(evs.drop_last(), p, idx);
    }
}

/// Every index named by an event's three action lists points at a record
/// of a geometry of `n` records.
pub open spec fn event_lists_valid(e: Event, n: int) -> bool {
    row_indices_valid(e.add@, n) && row_indices_valid(e.remove@, n) && row_indices_valid(
        e.update@,
        n,
    )
}

/// `event_lists_valid` over a whole queue.
pub open spec fn queue_lists_valid(q: Seq<Event>, n: int) -> bool {
    forall|i: int| 0 <= i < q.len() ==> event_lists_valid(#[trigger] q[i], n)
}

/// Every event point of a queue within `COORD_LIMIT`.
pub open spec fn queue_pts_in_bounds(q: Seq<Event>) -> bool {
    forall|i: int| 0 <= i < q.len() ==> pt_in_bounds((#[trigger] q[i]).point)
}

/// Every event of a queue lies strictly past the point `p`.
pub open spec fn queue_after(q: Seq<Event>, p: Point) -> bool {
    forall|i: int| 0 <= i < q.len() ==> pt_lt(p, (#[trigger] q[i]).point)
}

/// Both members of every recorded pair name a record of a geometry of `n`
/// records.
pub open spec fn pairs_in_range(s: Seq<(usize, usize)>, n: int) -> bool {
    forall|i: int| 0 <= i < s.len() ==> (#[trigger] s[i]).0 < n && s[i].1 < n
}

/// A duplicate-free list of pairs drawn from an `n` by `n` grid cannot hold
/// more than `n * n` entries.
proof fn lemma_pairs_bound(s: Seq<(usize, usize)>, n: int)
    requires
        s.no_duplicates(),
        pairs_in_range(s, n),
        n >= 0,
    ensures
        s.len() <= n * n,
{
    let codes = Seq::new(s.len(), |i: int| (s[i].0 as int) * n + (s[i].1 as int));
    assert(codes.no_duplicates()) by {
        assert forall|a: int, b: int| 0 <= a < b < codes.len() implies codes[a] != codes[b] by {
            if codes[a] == codes[b] {
                assert(s[a].0 == s[b].0 && s[a].1 == s[b].1) by (nonlinear_arith)
                    requires
                        (s[a].0 as int) * n + (s[a].1 as int) == (s[b].0 as int) * n + (
                        s[b].1 as int),
                        0 <= s[a].1 < n,
                        0 <= s[b].1 < n,
                        0 <= s[a].0,
                        0 <= s[b].0,
                ;
            }
        }
    }
    codes.unique_seq_to_set();
    assert(codes.to_set().subset_of(vstd::set_lib::set_int_range(0, n * n))) by {
        assert forall|x: int|
            codes.to_set().contains(x) implies vstd::set_lib::set_int_range(0, n * n).contains(
            x,
        ) by {
            let i = choose|i: int| 0 <= i < codes.len() && codes[i] == x;
            assert(0 <= (s[i].0 as int) * n + (s[i].1 as int) < n * n) by (nonlinear_arith)
                requires
                    0 <= s[i].0 < n,
                    0 <= s[i].1 < n,
            ;
        }
    }
    vstd::set_lib::lemma_int_range(0, n * n);
    vstd::set_lib::lemma_len_subset(codes.to_set(), vstd::set_lib::set_int_range(0, n * n));
}

/// First position of `x` in `v`, if any.
fn find_index(v: &Vec<usize>, x: usize) -> (r: Option<usize>)
    ensures
        match r {
            Some(i) => i < v@.len() && v@[i as int] == x,
            None => !v@.contains(x),
        },
{
    let mut i: usize = 0;
    while i < v.len()
        invariant
            i <= v@.len(),
            forall|q: int| 0 <= q < i as int ==> v@[q] != x,
        decreases v@.len() - i,
    {
        if v[i] == x {
            return Some(i);
        }
        i = i + 1;
    }
    None
}

/// The `add` lists of a queue, in order.
pub open spec fn adds_of(q: Seq<Event>) -> Seq<Seq<usize>> {
    q.map(|i: int, e: Event| e.add@)
}

/// The `remove` lists of a queue, in order.
pub open spec fn removes_of(q: Seq<Event>) -> Seq<Seq<usize>> {
    q.map(|i: int, e: Event| e.remove@)
}

/// The `update` lists of a queue, in order.
pub open spec fn updates_of(q: Seq<Event>) -> Seq<Seq<usize>> {
    q.map(|i: int, e: Event| e.update@)
}

/// How often `v` occurs across all the rows together.
pub open spec fn lists_total(rows: Seq<Seq<usize>>, v: usize) -> int
    decreases rows.len(),
{
    if rows.len() == 0 {
        0
    } else {
        lists_total(rows.drop_last(), v) + rows.last().to_multiset().count(v) as int
    }
}

/// Appending `w` to one row raises the total for `w` by one and leaves
/// every other total unchanged.
proof fn lemma_lists_total_push(
    q1: Seq<Seq<usize>>,
    q2: Seq<Seq<usize>>,
    idx: int,
    w: usize,
    v: usize,
)
    requires
        0 <= idx < q1.len(),
        q2.len() == q1.len(),
        q2[idx] == q1[idx].push(w),
        forall|i: int| 0 <= i < q1.len() && i != idx ==> q2[i] == q1[i],
    ensures
        lists_total(q2, v) == lists_total(q1, v) + if w == v {
            1int
        } else {
            0int
        },
    decreases q1.len(),
{
    if idx == q1.len() - 1 {
        assert(q2.drop_last() =~= q1.drop_last());
        q1.last().to_multiset_ensures();
        assert(q2.last() == q1.last().push(w));
        assert(q1.last().push(w).to_multiset() =~= q1.last().to_multiset().insert(w));
    } else {
        assert(q2.drop_last().len() == q1.drop_last().len());
        assert(q2.drop_last()[idx] == q1.drop_last()[idx].push(w));
        assert(forall|i: int|
            0 <= i < q1.drop_last().len() && i != idx ==> q2.drop_last()[i] == q1.drop_last()[i]);
        lemma_lists_total_push(q1.drop_last(), q2.drop_last(), idx, w, v);
        assert(q2.last() == q1.last());
    }
}

/// Inserting an empty row anywhere changes no total.
proof fn lemma_lists_total_insert_empty(q1: Seq<Seq<usize>>, q2: Seq<Seq<usize>>, idx: int, v: usize)
    requires
        0 <= idx <= q1.len(),
        q2.len() == q1.len() + 1,
        q2[idx] == Seq::<usize>::empty(),
        forall|i: int| 0 <= i < idx ==> q2[i] == q1[i],
        forall|i: int| idx <= i < q1.len() ==> q2[i + 1] == q1[i],
    ensures
        lists_total(q2, v) == lists_total(q1, v),
    decreases q1.len(),
{
    if idx == q2.len() - 1 {
        assert(q2.drop_last() =~= q1);
        q2.last().to_multiset_ensures();
        assert(!q2.last().contains(v));
        assert(q2.last().to_multiset().count(v) == 0);
    } else {
        assert(q1.len() > 0);
        assert(q2.last() == q1.last()) by {
            assert(q2[q1.len() - 1 + 1] == q1[q1.len() - 1]);
        }
        assert(q2.drop_last().len() == q1.drop_last().len() + 1);
        assert(q2.drop_last()[idx] == Seq::<usize>::empty());
        assert(forall|i: int| 0 <= i < idx ==> q2.drop_last()[i] == q1.drop_last()[i]);
        assert(forall|i: int|
            idx <= i < q1.drop_last().len() ==> q2.drop_last()[i + 1] == q1.drop_last()[i]);
        lemma_lists_total_insert_empty(q1.drop_last(), q2.drop_last(), idx, v);
    }
}

/// The lower endpoint of a record in the sweep's lexicographic order.
pub open spec fn seg_lower(s: crate::geometry::Segment) -> Point {
    if pt_lt(s.p0, s.p1) {
        s.p0
    } else {
        s.p1
    }
}

/// The upper endpoint of a record in the sweep's lexicographic order.
pub open spec fn seg_upper(s: crate::geometry::Segment) -> Point {
    if pt_lt(s.p0, s.p1) {
        s.p1
    } else {
        s.p0
    }
}

/// Every queued `add` sits in the event at its record's lower endpoint and
/// every queued `remove` in the event at its record's upper endpoint.
pub open spec fn seeded_lists_placed(q: Seq<Event>, geo: Seq<crate::geometry::Segment>) -> bool {
    &&& forall|i: int, k: int|
        0 <= i < q.len() && 0 <= k < q[i].add@.len() ==> q[i].point == seg_lower(
            geo[(#[trigger] q[i].add@[k]) as int],
        )
    &&& forall|i: int, k: int|
        0 <= i < q.len() && 0 <= k < q[i].remove@.len() ==> q[i].point == seg_upper(
            geo[(#[trigger] q[i].remove@[k]) as int],
        )
}

/// Occurrence totals are never negative.
proof fn lemma_lists_total_nonneg(rows: Seq<Seq<usize>>, v: usize)
    ensures
        lists_total(rows, v) >= 0,
    decreases rows.len(),
{
    if rows.len() > 0 {
        lemma_lists_total_nonneg(rows.drop_last(), v);
    }
}

/// An occurrence total splits off its first row.
proof fn lemma_lists_total_pop(rows: Seq<Seq<usize>>, v: usize)
    requires
        rows.len() > 0,
    ensures
        lists_total(rows, v) == lists_total(rows.drop_first(), v) + rows[0].to_multiset().count(
            v,
        ) as int,
    decreases rows.len(),
{
    if rows.len() == 1 {
        assert(rows.drop_last() =~= Seq::<Seq<usize>>::empty());
        assert(rows.drop_first() =~= Seq::<Seq<usize>>::empty());
        assert(rows.last() == rows[0]);
    } else {
        lemma_lists_total_pop(rows.drop_last(), v);
        assert(rows.drop_last()[0] == rows[0]);
        assert(rows.drop_first().drop_last() =~= rows.drop_last().drop_first());
        assert(rows.drop_first().last() == rows.last());
    }
}

/// One row's occurrence count never exceeds the total over all rows.
proof fn lemma_row_le_total(rows: Seq<Seq<usize>>, i: int, v: usize)
    requires
        0 <= i < rows.len(),
    ensures
        rows[i].to_multiset().count(v) as int <= lists_total(rows, v),
    decreases rows.len(),
{
    if i == rows.len() - 1 {
        lemma_lists_total_nonneg(rows.drop_last(), v);
        assert(rows.last() == rows[i]);
    } else {
        lemma_row_le_total(rows.drop_last(), i, v);
        assert(rows.drop_last()[i] == rows[i]);
    }
}

/// Inserting one element anywhere in a row adds one occurrence of it.
proof fn lemma_insert_row_multiset(s: Seq<usize>, i: int, v: usize)
    requires
        0 <= i <= s.len(),
    ensures
        s.insert(i, v).to_multiset() == s.to_multiset().insert(v),
{
    let t = s.insert(i, v);
    s.insert_ensures(i, v);
    assert(t.remove(i) =~= s);
    t.to_multiset_ensures();
    assert(t[i] == v);
    assert(t.remove(i).to_multiset() =~= t.to_multiset().remove(v));
    assert(t.contains(v)) by {
        assert(t[i] == v);
    }
    assert(t.to_multiset().count(v) > 0);
    assert(t.to_multiset() =~= t.to_multiset().remove(v).insert(v));
    assert(t.to_multiset() =~= s.to_multiset().insert(v));
}

/// Appending to one event's `update` list leaves the `add` and `remove`
/// totals unchanged.
proof fn lemma_queue_push_update_totals(before: Seq<Event>, after: Seq<Event>, idx: int)
    requires
        after.len() == before.len(),
        0 <= idx < before.len(),
        forall|i: int| 0 <= i < before.len() && i != idx ==> after[i] == before[i],
        after[idx].add@ == before[idx].add@,
        after[idx].remove@ == before[idx].remove@,
    ensures
        forall|v: usize| #[trigger] lists_total(adds_of(after), v) == lists_total(
            adds_of(before),
            v,
        ),
        forall|v: usize| #[trigger] lists_total(removes_of(after), v) == lists_total(
            removes_of(before),
            v,
        ),
{
    assert(adds_of(after) =~= adds_of(before)) by {
        assert forall|i: int| 0 <= i < before.len() implies adds_of(after)[i] == adds_of(
            before,
        )[i] by {
            if i != idx {
                assert(after[i] == before[i]);
            }
        }
    }
    assert(removes_of(after) =~= removes_of(before)) by {
        assert forall|i: int| 0 <= i < before.len() implies removes_of(after)[i] == removes_of(
            before,
        )[i] by {
            if i != idx {
                assert(after[i] == before[i]);
            }
        }
    }
}

/// One more element of a prefix: what the longer prefix contains.
proof fn lemma_take_step_contains(list: Seq<usize>, w: int, v: usize)
    requires
        0 <= w < list.len(),
    ensures
        list.take(w + 1).contains(v) <==> (list.take(w).contains(v) || v == list[w]),
{
    if list.take(w + 1).contains(v) {
        let idx = choose|idx: int|
            0 <= idx < list.take(w + 1).len() && #[trigger] list.take(w + 1)[idx] == v;
        if idx < w {
            assert(list.take(w)[idx] == v);
        }
    }
    if list.take(w).contains(v) {
        let idx = choose|idx: int|
            0 <= idx < list.take(w).len() && #[trigger] list.take(w)[idx] == v;
        assert(list.take(w + 1)[idx] == v);
    }
    if v == list[w] {
        assert(list.take(w + 1)[w] == v);
    }
}

/// A freshly inserted empty event disturbs no list placement.
proof fn lemma_placed_insert_empty(
    before: Seq<Event>,
    after: Seq<Event>,
    idx: int,
    geo: Seq<crate::geometry::Segment>,
)
    requires
        seeded_lists_placed(before, geo),
        after.len() == before.len() + 1,
        0 <= idx < after.len(),
        after[idx].add@ == Seq::<usize>::empty(),
        after[idx].remove@ == Seq::<usize>::empty(),
        forall|i: int| 0 <= i < idx ==> after[i] == before[i],
        forall|i: int| idx <= i < before.len() ==> after[i + 1] == before[i],
    ensures
        seeded_lists_placed(after, geo),
{
    assert forall|i: int, k: int|
        0 <= i < after.len() && 0 <= k < after[i].add@.len() implies after[i].point == seg_lower(
        geo[(#[trigger] after[i].add@[k]) as int],
    ) by {
        if i < idx {
            assert(after[i] == before[i]);
        } else if i > idx {
            assert(after[i] == before[i - 1]);
        }
    }
    assert forall|i: int, k: int|
        0 <= i < after.len() && 0 <= k < after[i].remove@.len() implies after[i].point == seg_upper(
        geo[(#[trigger] after[i].remove@[k]) as int],
    ) by {
        if i < idx {
            assert(after[i] == before[i]);
        } else if i > idx {
            assert(after[i] == before[i - 1]);
        }
    }
}

/// Appending to an `update` list disturbs no list placement.
proof fn lemma_placed_update_push(
    before: Seq<Event>,
    after: Seq<Event>,
    idx: int,
    geo: Seq<crate::geometry::Segment>,
)
    requires
        seeded_lists_placed(before, geo),
        after.len() == before.len(),
        0 <= idx < before.len(),
        forall|i: int| 0 <= i < before.len() && i != idx ==> after[i] == before[i],
        after[idx].add@ == before[idx].add@,
        after[idx].remove@ == before[idx].remove@,
        after[idx].point == before[idx].point,
    ensures
        seeded_lists_placed(after, geo),
{
    assert forall|i: int, k: int|
        0 <= i < after.len() && 0 <= k < after[i].add@.len() implies after[i].point == seg_lower(
        geo[(#[trigger] after[i].add@[k]) as int],
    ) by {
        if i != idx {
            assert(after[i] == before[i]);
        }
    }
    assert forall|i: int, k: int|
        0 <= i < after.len() && 0 <= k < after[i].remove@.len() implies after[i].point == seg_upper(
        geo[(#[trigger] after[i].remove@[k]) as int],
    ) by {
        if i != idx {
            assert(after[i] == before[i]);
        }
    }
}

/// Appending to an `add` list keeps every placement, provided the new
/// occurrence sits at its record's lower endpoint.
proof fn lemma_placed_push_add(
    before: Seq<Event>,
    after: Seq<Event>,
    idx: int,
    w: usize,
    geo: Seq<crate::geometry::Segment>,
)
    requires
        seeded_lists_placed(before, geo),
        after.len() == before.len(),
        0 <= idx < before.len(),
        forall|i: int| 0 <= i < before.len() && i != idx ==> after[i] == before[i],
        after[idx].add@ == before[idx].add@.push(w),
        after[idx].remove@ == before[idx].remove@,
        after[idx].point == before[idx].point,
        after[idx].point == seg_lower(geo[w as int]),
    ensures
        seeded_lists_placed(after, geo),
{
    assert forall|i: int, k: int|
        0 <= i < after.len() && 0 <= k < after[i].add@.len() implies after[i].point == seg_lower(
        geo[(#[trigger] after[i].add@[k]) as int],
    ) by {
        if i != idx {
            assert(after[i] == before[i]);
        } else if k < before[idx].add@.len() {
            assert(after[i].add@[k] == before[idx].add@[k]);
        } else {
            assert(after[i].add@[k] == w);
        }
    }
    assert forall|i: int, k: int|
        0 <= i < after.len() && 0 <= k < after[i].remove@.len() implies after[i].point == seg_upper(
        geo[(#[trigger] after[i].remove@[k]) as int],
    ) by {
        if i != idx {
            assert(after[i] == before[i]);
        }
    }
}

/// Appending to a `remove` list keeps every placement, provided the new
/// occurrence sits at its record's upper endpoint.
proof fn lemma_placed_push_remove(
    before: Seq<Event>,
    after: Seq<Event>,
    idx: int,
    w: usize,
    geo: Seq<crate::geometry::Segment>,
)
    requires
        seeded_lists_placed(before, geo),
        after.len() == before.len(),
        0 <= idx < before.len(),
        forall|i: int| 0 <= i < before.len() && i != idx ==> after[i] == before[i],
        after[idx].add@ == before[idx].add@,
        after[idx].remove@ == before[idx].remove@.push(w),
        after[idx].point == before[idx].point,
        after[idx].point == seg_upper(geo[w as int]),
    ensures
        seeded_lists_placed(after, geo),
{
    assert forall|i: int, k: int|
        0 <= i < after.len() && 0 <= k < after[i].add@.len() implies after[i].point == seg_lower(
        geo[(#[trigger] after[i].add@[k]) as int],
    ) by {
        if i != idx {
            assert(after[i] == before[i]);
        }
    }
    assert forall|i: int, k: int|
        0 <= i < after.len() && 0 <= k < after[i].remove@.len() implies after[i].point == seg_upper(
        geo[(#[trigger] after[i].remove@[k]) as int],
    ) by {
        if i != idx {
            assert(after[i] == before[i]);
        } else if k < before[idx].remove@.len() {
            assert(after[i].remove@[k] == before[idx].remove@[k]);
        } else {
            assert(after[i].remove@[k] == w);
        }
    }
}

/// The membership count of one record in the working row, read off the
/// pending-occurrence ledger at the current event point: present exactly
/// once when it is a line record whose span covers the point.
proof fn lemma_new_row_membership(
    geo: Seq<crate::geometry::Segment>,
    q: Seq<Event>,
    row: Seq<usize>,
    pt: Point,
    v: usize,
)
    requires
        (v as int) < geo.len(),
        row.to_multiset().count(v) as int == lists_total(removes_of(q), v) - lists_total(
            adds_of(q),
            v,
        ),
        seeded_lists_placed(q, geo),
        queue_after(q, pt),
        lists_total(adds_of(q), v) <= 1,
        lists_total(removes_of(q), v) <= 1,
        geo[v as int].kind != crate::geometry::LINE_KIND ==> lists_total(adds_of(q), v) == 0
            && lists_total(removes_of(q), v) == 0,
        (geo[v as int].kind == crate::geometry::LINE_KIND && lists_total(adds_of(q), v) == 0)
            ==> pt_le(seg_lower(geo[v as int]), pt),
        (geo[v as int].kind == crate::geometry::LINE_KIND && lists_total(removes_of(q), v) == 0)
            ==> pt_le(seg_upper(geo[v as int]), pt),
    ensures
        row.to_multiset().count(v) as int == (if geo[v as int].kind == crate::geometry::LINE_KIND
            && pt_le(seg_lower(geo[v as int]), pt) && pt_lt(pt, seg_upper(geo[v as int])) {
            1int
        } else {
            0int
        }),
{
    let pa = lists_total(adds_of(q), v);
    let pr = lists_total(removes_of(q), v);
    lemma_lists_total_nonneg(adds_of(q), v);
    lemma_lists_total_nonneg(removes_of(q), v);
    if geo[v as int].kind == crate::geometry::LINE_KIND {
        if pa > 0 {
            lemma_total_pos_exists(adds_of(q), v);
            let i2 = choose|i2: int|
                0 <= i2 < adds_of(q).len() && (#[trigger] adds_of(q)[i2]).to_multiset().count(v)
                    > 0;
            assert(q[i2].add@.to_multiset().count(v) > 0);
            q[i2].add@.to_multiset_ensures();
            assert(q[i2].add@.contains(v));
            let k3 = choose|k3: int| 0 <= k3 < q[i2].add@.len() && #[trigger] q[i2].add@[k3] == v;
            assert(q[i2].point == seg_lower(geo[v as int]));
            assert(pt_lt(pt, q[i2].point));
            assert(!pt_le(seg_lower(geo[v as int]), pt));
        }
        if pr > 0 {
            lemma_total_pos_exists(removes_of(q), v);
            let i2 = choose|i2: int|
                0 <= i2 < removes_of(q).len() && (#[trigger] removes_of(q)[i2]).to_multiset().count(
                    v,
                ) > 0;
            assert(q[i2].remove@.to_multiset().count(v) > 0);
            q[i2].remove@.to_multiset_ensures();
            assert(q[i2].remove@.contains(v));
            let k3 = choose|k3: int|
                0 <= k3 < q[i2].remove@.len() && #[trigger] q[i2].remove@[k3] == v;
            assert(q[i2].point == seg_upper(geo[v as int]));
            assert(pt_lt(pt, q[i2].point));
        } else {
            assert(!pt_lt(pt, seg_upper(geo[v as int])));
        }
    }
}

/// Appending one event and one row, with the new row characterized at the
/// new event point, keeps the whole table's membership characterization.
proof fn lemma_rows_membership_push(
    geo: Seq<crate::geometry::Segment>,
    evs_old: Seq<Point>,
    acts_old: Seq<Vec<usize>>,
    evs_new: Seq<Point>,
    acts_new: Seq<Vec<usize>>,
    row: Seq<usize>,
    pt: Point,
)
    requires
        rows_membership(geo, evs_old, acts_old),
        evs_old.len() == acts_old.len(),
        evs_new == evs_old.push(pt),
        acts_new.len() == acts_old.len() + 1,
        forall|j: int| 0 <= j < acts_old.len() ==> acts_new[j] == acts_old[j],
        acts_new[acts_new.len() - 1]@ == row,
        forall|v: usize| (v as int) < geo.len() ==> (#[trigger] row.to_multiset().count(v)) as int
            == (if geo[v as int].kind == crate::geometry::LINE_KIND && pt_le(
            seg_lower(geo[v as int]),
            pt,
        ) && pt_lt(pt, seg_upper(geo[v as int])) {
            1int
        } else {
            0int
        }),
    ensures
        rows_membership(geo, evs_new, acts_new),
{
    assert forall|j: int, v: usize|
        0 <= j < acts_new.len() && (v as int) < geo.len() implies (
    #[trigger] acts_new[j]@.to_multiset().count(v)) as int == (if geo[v as int].kind
        == crate::geometry::LINE_KIND && pt_le(seg_lower(geo[v as int]), evs_new[j]) && pt_lt(
        evs_new[j],
        seg_upper(geo[v as int]),
    ) {
        1int
    } else {
        0int
    }) by {
        if j < acts_old.len() {
            assert(acts_new[j] == acts_old[j]);
            assert(evs_new[j] == evs_old[j]);
            assert((acts_old[j]@.to_multiset().count(v)) as int == (if geo[v as int].kind
                == crate::geometry::LINE_KIND && pt_le(seg_lower(geo[v as int]), evs_old[j])
                && pt_lt(evs_old[j], seg_upper(geo[v as int])) {
                1int
            } else {
                0int
            }));
        } else {
            assert(acts_new[j]@ == row);
            assert(evs_new[j] == pt);
        }
    }
}

/// A positive occurrence total names a row holding the value.
proof fn lemma_total_pos_exists(rows: Seq<Seq<usize>>, v: usize)
    requires
        lists_total(rows, v) > 0,
    ensures
        exists|i: int| 0 <= i < rows.len() && (#[trigger] rows[i]).to_multiset().count(v) > 0,
    decreases rows.len(),
{
    if rows.len() > 0 {
        if rows.last().to_multiset().count(v) > 0 {
            assert(rows[rows.len() - 1].to_multiset().count(v) > 0);
        } else {
            lemma_total_pos_exists(rows.drop_last(), v);
            let i = choose|i: int|
                0 <= i < rows.drop_last().len() && (#[trigger] rows.drop_last()[i]).to_multiset().count(
                    v,
                ) > 0;
            assert(rows[i].to_multiset().count(v) > 0);
        }
    }
}

/// A freshly inserted empty event leaves every occurrence total unchanged.
proof fn lemma_queue_insert_totals(before: Seq<Event>, after: Seq<Event>, idx: int)
    requires
        after.len() == before.len() + 1,
        0 <= idx < after.len(),
        after[idx].add@ == Seq::<usize>::empty(),
        after[idx].remove@ == Seq::<usize>::empty(),
        after[idx].update@ == Seq::<usize>::empty(),
        forall|i: int| 0 <= i < idx ==> after[i] == before[i],
        forall|i: int| idx <= i < before.len() ==> after[i + 1] == before[i],
    ensures
        forall|v: usize| #[trigger] lists_total(adds_of(after), v) == lists_total(
            adds_of(before),
            v,
        ),
        forall|v: usize| #[trigger] lists_total(removes_of(after), v) == lists_total(
            removes_of(before),
            v,
        ),
        forall|v: usize| #[trigger] lists_total(updates_of(after), v) == lists_total(
            updates_of(before),
            v,
        ),
{
    assert forall|i: int| 0 <= i < idx implies adds_of(after)[i] == adds_of(before)[i]
        && removes_of(after)[i] == removes_of(before)[i] && updates_of(after)[i] == updates_of(
        before,
    )[i] by {
        assert(after[i] == before[i]);
    }
    assert forall|i: int| idx <= i < before.len() implies adds_of(after)[i + 1] == adds_of(
        before,
    )[i] && removes_of(after)[i + 1] == removes_of(before)[i] && updates_of(after)[i + 1]
        == updates_of(before)[i] by {
        assert(after[i + 1] == before[i]);
    }
    assert forall|v: usize| #[trigger] lists_total(adds_of(after), v) == lists_total(
        adds_of(before),
        v,
    ) by {
        lemma_lists_total_insert_empty(adds_of(before), adds_of(after), idx, v);
    }
    assert forall|v: usize| #[trigger] lists_total(removes_of(after), v) == lists_total(
        removes_of(before),
        v,
    ) by {
        lemma_lists_total_insert_empty(removes_of(before), removes_of(after), idx, v);
    }
    assert forall|v: usize| #[trigger] lists_total(updates_of(after), v) == lists_total(
        updates_of(before),
        v,
    ) by {
        lemma_lists_total_insert_empty(updates_of(before), updates_of(after), idx, v);
    }
}

/// Appending to one event's `add` list raises the `add` total of that value
/// by one and leaves every other total unchanged.
proof fn lemma_queue_push_add_totals(before: Seq<Event>, after: Seq<Event>, idx: int, w: usize)
    requires
        after.len() == before.len(),
        0 <= idx < before.len(),
        forall|i: int| 0 <= i < before.len() && i != idx ==> after[i] == before[i],
        after[idx].add@ == before[idx].add@.push(w),
        after[idx].remove@ == before[idx].remove@,
        after[idx].update@ == before[idx].update@,
    ensures
        forall|v: usize| #[trigger] lists_total(adds_of(after), v) == lists_total(
            adds_of(before),
            v,
        ) + if w == v {
            1int
        } else {
            0int
        },
        forall|v: usize| #[trigger] lists_total(removes_of(after), v) == lists_total(
            removes_of(before),
            v,
        ),
        forall|v: usize| #[trigger] lists_total(updates_of(after), v) == lists_total(
            updates_of(before),
            v,
        ),
{
    assert forall|i: int| 0 <= i < before.len() && i != idx implies adds_of(after)[i] == adds_of(
        before,
    )[i] && removes_of(after)[i] == removes_of(before)[i] && updates_of(after)[i] == updates_of(
        before,
    )[i] by {
        assert(after[i] == before[i]);
    }
    assert forall|v: usize| #[trigger] lists_total(adds_of(after), v) == lists_total(
        adds_of(before),
        v,
    ) + (if w == v {
        1int
    } else {
        0int
    }) by {
        lemma_lists_total_push(adds_of(before), adds_of(after), idx, w, v);
    }
    assert(removes_of(after) =~= removes_of(before));
    assert(updates_of(after) =~= updates_of(before));
}

/// Appending to one event's `remove` list raises the `remove` total of that
/// value by one and leaves every other total unchanged.
proof fn lemma_queue_push_remove_totals(before: Seq<Event>, after: Seq<Event>, idx: int, w: usize)
    requires
        after.len() == before.len(),
        0 <= idx < before.len(),
        forall|i: int| 0 <= i < before.len() && i != idx ==> after[i] == before[i],
        after[idx].add@ == before[idx].add@,
        after[idx].remove@ == before[idx].remove@.push(w),
        after[idx].update@ == before[idx].update@,
    ensures
        forall|v: usize| #[trigger] lists_total(removes_of(after), v) == lists_total(
            removes_of(before),
            v,
        ) + if w == v {
            1int
        } else {
            0int
        },
        forall|v: usize| #[trigger] lists_total(adds_of(after), v) == lists_total(
            adds_of(before),
            v,
        ),
        forall|v: usize| #[trigger] lists_total(updates_of(after), v) == lists_total(
            updates_of(before),
            v,
        ),
{
    assert forall|i: int| 0 <= i < before.len() && i != idx implies adds_of(after)[i] == adds_of(
        before,
    )[i] && removes_of(after)[i] == removes_of(before)[i] && updates_of(after)[i] == updates_of(
        before,
    )[i] by {
        assert(after[i] == before[i]);
    }
    assert forall|v: usize| #[trigger] lists_total(removes_of(after), v) == lists_total(
        removes_of(before),
        v,
    ) + (if w == v {
        1int
    } else {
        0int
    }) by {
        lemma_lists_total_push(removes_of(before), removes_of(after), idx, w, v);
    }
    assert(adds_of(after) =~= adds_of(before));
    assert(updates_of(after) =~= updates_of(before));
}

/// Append `val` to the `add` list of the event at `idx`, leaving every
/// other event and the event's point and other lists untouched.
#[verifier::rlimit(50)]
fn event_push_add(events: &mut Vec<Event>, idx: usize, val: usize)
    requires
        idx < old(events)@.len(),
    ensures
        final(events)@.len() == old(events)@.len(),
        forall|i: int| 0 <= i < old(events)@.len() && i != idx as int ==> final(events)@[i]
            == old(events)@[i],
        final(events)@[idx as int].point == old(events)@[idx as int].point,
        final(events)@[idx as int].add@ == old(events)@[idx as int].add@.push(val),
        final(events)@[idx as int].remove@ == old(events)@[idx as int].remove@,
        final(events)@[idx as int].update@ == old(events)@[idx as int].update@,
{
    let ghost before = events@;
    let mut ev = events.remove(idx);
    ev.add.push(val);
    events.insert(idx, ev);
    proof {
        before.remove_ensures(idx as int);
        before.remove(idx as int).insert_ensures(idx as int, events@[idx as int]);
    }
}

/// Append `val` to the `remove` list of the event at `idx`.
#[verifier::rlimit(50)]
fn event_push_remove(events: &mut Vec<Event>, idx: usize, val: usize)
    requires
        idx < old(events)@.len(),
    ensures
        final(events)@.len() == old(events)@.len(),
        forall|i: int| 0 <= i < old(events)@.len() && i != idx as int ==> final(events)@[i]
            == old(events)@[i],
        final(events)@[idx as int].point == old(events)@[idx as int].point,
        final(events)@[idx as int].add@ == old(events)@[idx as int].add@,
        final(events)@[idx as int].remove@ == old(events)@[idx as int].remove@.push(val),
        final(events)@[idx as int].update@ == old(events)@[idx as int].update@,
{
    let ghost before = events@;
    let mut ev = events.remove(idx);
    ev.remove.push(val);
    events.insert(idx, ev);
    proof {
        before.remove_ensures(idx as int);
        before.remove(idx as int).insert_ensures(idx as int, events@[idx as int]);
    }
}

/// Append the crossing pair `q`, `r` to the `update` list of the event at
/// `idx`.
#[verifier::rlimit(50)]
fn event_push_update(events: &mut Vec<Event>, idx: usize, q: usize, r: usize)
    requires
        idx < old(events)@.len(),
    ensures
        final(events)@.len() == old(events)@.len(),
        forall|i: int| 0 <= i < old(events)@.len() && i != idx as int ==> final(events)@[i]
            == old(events)@[i],
        final(events)@[idx as int].point == old(events)@[idx as int].point,
        final(events)@[idx as int].add@ == old(events)@[idx as int].add@,
        final(events)@[idx as int].remove@ == old(events)@[idx as int].remove@,
        final(events)@[idx as int].update@ == old(events)@[idx as int].update@.push(q).push(r),
{
    let ghost before = events@;
    let mut ev = events.remove(idx);
    ev.update.push(q);
    ev.update.push(r);
    events.insert(idx, ev);
    proof {
        before.remove_ensures(idx as int);
        before.remove(idx as int).insert_ensures(idx as int, events@[idx as int]);
    }
}

/// An element-by-element copy of an active row.
fn clone_row(v: &Vec<usize>) -> (r: Vec<usize>)
    ensures
        r@ == v@,
{
    let mut r: Vec<usize> = Vec::new();
    let mut i: usize = 0;
    while i < v.len()
        invariant
            i <= v@.len(),
            r@ == v@.take(i as int),
        decreases v@.len() - i,
    {
        r.push(v[i]);
        proof {
            assert(r@ =~= v@.take(i as int + 1));
        }
        i = i + 1;
    }
    proof {
        assert(r@ =~= v@);
    }
    r
}

/// A queue whose points are unchanged stays sorted and in bounds.
proof fn lemma_queue_points_preserved(before: Seq<Event>, after: Seq<Event>)
    requires
        after.len() == before.len(),
        forall|i: int| 0 <= i < after.len() ==> (#[trigger] after[i]).point == before[i].point,
        evq_sorted(before),
        queue_pts_in_bounds(before),
    ensures
        evq_sorted(after),
        queue_pts_in_bounds(after),
{
}

/// Appending one in-range index keeps a row valid.
proof fn lemma_row_push(row: Seq<usize>, v: usize, n: int)
    requires
        row_indices_valid(row, n),
        v < n,
    ensures
        row_indices_valid(row.push(v), n),
{
    assert forall|k: int| 0 <= k < row.push(v).len() implies (#[trigger] row.push(v)[k]) < n by {
        if k < row.len() {
            assert(row[k] < n);
        }
    }
}

/// Popping the head of a sorted queue leaves a sorted queue lying strictly
/// past the popped point, with every queue property inherited.
proof fn lemma_queue_pop(before: Seq<Event>, n: int)
    requires
        before.len() > 0,
        evq_sorted(before),
        queue_lists_valid(before, n),
        queue_pts_in_bounds(before),
    ensures
        evq_sorted(before.remove(0)),
        queue_lists_valid(before.remove(0), n),
        queue_pts_in_bounds(before.remove(0)),
        queue_after(before.remove(0), before[0].point),
        before.remove(0).len() == before.len() - 1,
{
    before.remove_ensures(0);
    let after = before.remove(0);
    assert forall|i: int| 0 <= i < after.len() implies pt_lt(
        before[0].point,
        (#[trigger] after[i]).point,
    ) && event_lists_valid(after[i], n) && pt_in_bounds(after[i].point) by {
        assert(after[i] == before[i + 1]);
    }
    assert forall|a: int, b: int|
        0 <= a < b < after.len() implies pt_lt(
        (#[trigger] after[a]).point,
        (#[trigger] after[b]).point,
    ) by {
        assert(after[a] == before[a + 1] && after[b] == before[b + 1]);
    }
}

/// A freshly inserted empty event at an in-bounds point keeps the queue's
/// list-validity and point bounds.
proof fn lemma_queue_insert_props(before: Seq<Event>, after: Seq<Event>, idx: int, p: Point, n: int)
    requires
        queue_lists_valid(before, n),
        queue_pts_in_bounds(before),
        after.len() == before.len() + 1,
        0 <= idx < after.len(),
        after[idx].point == p,
        after[idx].add@ == Seq::<usize>::empty(),
        after[idx].remove@ == Seq::<usize>::empty(),
        after[idx].update@ == Seq::<usize>::empty(),
        forall|i: int| 0 <= i < idx ==> after[i] == before[i],
        forall|i: int| idx <= i < before.len() ==> after[i + 1] == before[i],
        pt_in_bounds(p),
    ensures
        queue_lists_valid(after, n),
        queue_pts_in_bounds(after),
{
    assert forall|i: int|
        0 <= i < after.len() implies event_lists_valid(#[trigger] after[i], n) && pt_in_bounds(
        after[i].point,
    ) by {
        if i < idx {
            assert(after[i] == before[i]);
        } else if i > idx {
            assert(after[i] == before[i - 1]);
        }
    }
}

/// Removing one position from a valid row keeps it valid.
proof fn lemma_row_remove(row: Seq<usize>, i: int, n: int)
    requires
        0 <= i < row.len(),
        row_indices_valid(row, n),
    ensures
        row_indices_valid(row.remove(i), n),
{
    row.remove_ensures(i);
    assert forall|k: int| 0 <= k < row.remove(i).len() implies (#[trigger] row.remove(i)[k])
        < n by {
        if k < i {
            assert(row.remove(i)[k] == row[k]);
        } else {
            assert(row.remove(i)[k] == row[k + 1]);
        }
    }
}

/// Inserting one in-range index keeps a row valid.
proof fn lemma_row_insert(row: Seq<usize>, i: int, v: usize, n: int)
    requires
        0 <= i <= row.len(),
        row_indices_valid(row, n),
        v < n,
    ensures
        row_indices_valid(row.insert(i, v), n),
{
    row.insert_ensures(i, v);
    assert forall|k: int| 0 <= k < row.insert(i, v).len() implies (#[trigger] row.insert(i, v)[k])
        < n by {
        if k < i {
            assert(row.insert(i, v)[k] == row[k]);
        } else if k > i {
            assert(row.insert(i, v)[k] == row[k - 1]);
        }
    }
}

/// The elements of `a` that do not occur in `b`, in order. Used at each
/// event to cancel an `add` against a `remove` of the same record at one
/// point: such a record (a line collapsed to a single point) retires on the
/// spot instead of entering the active row.
fn filter_excluding(a: &Vec<usize>, b: &Vec<usize>) -> (r: Vec<usize>)
    ensures
        forall|v: usize| #[trigger] r@.to_multiset().count(v) == (if b@.contains(v) {
            0nat
        } else {
            a@.to_multiset().count(v)
        }),
        forall|x: usize| r@.contains(x) ==> a@.contains(x),
{
    let mut r: Vec<usize> = Vec::new();
    let mut i: usize = 0;
    proof {
        r@.to_multiset_ensures();
        assert forall|v: usize| #[trigger] r@.to_multiset().count(v) == 0nat by {
            assert(!r@.contains(v));
        }
        assert(a@.take(0).to_multiset() =~= Multiset::<usize>::empty()) by {
            a@.take(0).to_multiset_ensures();
            assert forall|v: usize| a@.take(0).to_multiset().count(v) == 0nat by {
                assert(!a@.take(0).contains(v));
            }
        }
    }
    while i < a.len()
        invariant
            i <= a@.len(),
            forall|v: usize| #[trigger] r@.to_multiset().count(v) == (if b@.contains(v) {
                0nat
            } else {
                a@.take(i as int).to_multiset().count(v)
            }),
            forall|x: usize| r@.contains(x) ==> a@.contains(x),
        decreases a@.len() - i,
    {
        let x = a[i];
        let ghost r0 = r@;
        match find_index(b, x) {
            Some(_) => {},
            None => {
                r.push(x);
                proof {
                    r0.to_multiset_ensures();
                    assert(r@.to_multiset() =~= r0.to_multiset().insert(x));
                    assert forall|y: usize| r@.contains(y) implies a@.contains(y) by {
                        let w = choose|w: int| 0 <= w < r@.len() && r@[w] == y;
                        if w < r0.len() {
                            assert(r0[w] == y);
                        } else {
                            assert(a@[i as int] == y);
                        }
                    }
                }
            },
        }
        proof {
            assert(a@.take(i as int + 1) =~= a@.take(i as int).push(x));
            a@.take(i as int).to_multiset_ensures();
            assert(a@.take(i as int + 1).to_multiset() =~= a@.take(
                i as int,
            ).to_multiset().insert(x));
        }
        i = i + 1;
    }
    proof {
        assert(a@.take(a@.len() as int) =~= a@);
    }
    r
}

/// Whether the ordered pair `x` was already recorded.
fn contains_pair(v: &Vec<(usize, usize)>, x: (usize, usize)) -> (r: bool)
    ensures
        r == v@.contains(x),
{
    let mut i: usize = 0;
    while i < v.len()
        invariant
            i <= v@.len(),
            forall|q: int| 0 <= q < i as int ==> v@[q] != x,
        decreases v@.len() - i,
    {
        let p = v[i];
        if p.0 == x.0 && p.1 == x.1 {
            proof {
                assert(v@[i as int] == x);
            }
            return true;
        }
        i = i + 1;
    }
    false
}

/// First position of `x` in `v`, if any.
fn find_label(v: &Vec<i64>, x: i64) -> (r: Option<usize>)
    ensures
        match r {
            Some(i) => i < v@.len() && v@[i as int] == x,
            None => !v@.contains(x),
        },
{
    let mut i: usize = 0;
    while i < v.len()
        invariant
            i <= v@.len(),
            forall|q: int| 0 <= q < i as int ==> v@[q] != x,
        decreases v@.len() - i,
    {
        if v[i] == x {
            return Some(i);
        }
        i = i + 1;
    }
    None
}

/// Removing one position from a duplicate-free sequence keeps it
/// duplicate-free, drops exactly that element, and keeps every other.
proof fn lemma_remove_keeps_others(s: Seq<i64>, i: int)
    requires
        0 <= i < s.len(),
        s.no_duplicates(),
    ensures
        s.remove(i).no_duplicates(),
        forall|x: i64| s.remove(i).contains(x) <==> (s.contains(x) && x != s[i]),
{
    s.remove_ensures(i);
    let t = s.remove(i);
    assert forall|x: i64| t.contains(x) implies (s.contains(x) && x != s[i]) by {
        let w = choose|w: int| 0 <= w < t.len() && t[w] == x;
        if w < i {
            assert(s[w] == x);
        } else {
            assert(s[w + 1] == x);
        }
    }
    assert forall|x: i64| s.contains(x) && x != s[i] implies t.contains(x) by {
        let w = choose|w: int| 0 <= w < s.len() && s[w] == x;
        if w < i {
            assert(t[w] == x);
        } else {
            assert(w > i);
            assert(t[w - 1] == x);
        }
    }
    assert forall|a: int, b: int| 0 <= a < b < t.len() implies t[a] != t[b] by {
        if b < i {
            assert(t[a] == s[a] && t[b] == s[b]);
        } else if a < i {
            assert(t[a] == s[a] && t[b] == s[b + 1]);
        } else {
            assert(t[a] == s[a + 1] && t[b] == s[b + 1]);
        }
    }
}

/// The rows of a table's active lists as plain sequences.
pub open spec fn actives_views(a: Seq<Vec<usize>>) -> Seq<Seq<usize>> {
    a.map(|i: int, v: Vec<usize>| v@)
}

/// The boundary record the extractor emits for active record `idx` across
/// the beam from scanline `l` to scanline `r`: the record's two y-intercepts
/// joined by a line carrying the record's label.
pub open spec fn boundary_record(
    geo: Seq<crate::geometry::Segment>,
    idx: usize,
    l: Point,
    r: Point,
) -> crate::geometry::Segment {
    crate::geometry::line_record(
        crate::geometry::y_int_spec(geo[idx as int], l.x, l.y),
        crate::geometry::y_int_spec(geo[idx as int], r.x, r.y),
        geo[idx as int].label,
    )
}

/// The boundary records one beam row contributes, walking its first `k`
/// mask transitions: active `k-1` is a boundary when the mask differs just
/// below and just above it. A boundary whose two intercepts coincide (a
/// zero-width beam) collapses to a point and is not emitted.
pub open spec fn create_row_upto(
    geo: Seq<crate::geometry::Segment>,
    l: Point,
    r: Point,
    row: Seq<usize>,
    mrow: Seq<bool>,
    k: int,
) -> Seq<crate::geometry::Segment>
    decreases k,
{
    if k <= 0 {
        Seq::empty()
    } else {
        let rest = create_row_upto(geo, l, r, row, mrow, k - 1);
        if mrow[k - 1] != mrow[k] && crate::geometry::y_int_spec(geo[row[k - 1] as int], l.x, l.y)
            != crate::geometry::y_int_spec(geo[row[k - 1] as int], r.x, r.y) {
            rest.push(boundary_record(geo, row[k - 1], l, r))
        } else {
            rest
        }
    }
}

/// The boundary records of the first `j` beam rows.
pub open spec fn create_upto(
    geo: Seq<crate::geometry::Segment>,
    evs: Seq<Point>,
    acts: Seq<Seq<usize>>,
    mask: Seq<Seq<bool>>,
    j: int,
) -> Seq<crate::geometry::Segment>
    decreases j,
{
    if j <= 0 {
        Seq::empty()
    } else {
        create_upto(geo, evs, acts, mask, j - 1) + create_row_upto(
            geo,
            evs[j - 1],
            evs[j],
            acts[j - 1],
            mask[j - 1],
            acts[j - 1].len() as int,
        )
    }
}

/// Everything the extractor emits for a table and a conforming mask: one
/// pass over every beam but the one past the last event.
pub open spec fn create_spec(
    geo: Seq<crate::geometry::Segment>,
    evs: Seq<Point>,
    acts: Seq<Seq<usize>>,
    mask: Seq<Seq<bool>>,
) -> Seq<crate::geometry::Segment> {
    if mask.len() == 0 {
        Seq::empty()
    } else {
        create_upto(geo, evs, acts, mask, mask.len() - 1)
    }
}

/// A point that is the grid-rounded crossing of two of the geometry's
/// records: what the sweep's intersection log may hold.
pub open spec fn crossing_recorded(geo: Seq<crate::geometry::Segment>, p: Point) -> bool {
    exists|a: int, b: int|
        #![trigger isect_denom(geo[a], geo[b])]
        {
            &&& 0 <= a < geo.len()
            &&& 0 <= b < geo.len()
            &&& ({
                let dn = isect_denom(geo[a], geo[b]);
                let ad = absi(dn);
                let n1 = isect_num1(geo[a], geo[b]) * sgn(dn);
                let n2 = isect_num2(geo[a], geo[b]) * sgn(dn);
                &&& dn != 0
                &&& 0 <= n1 <= ad
                &&& 0 <= n2 <= ad
                &&& p == interp(geo[a], Frac { num: n1 as i64, den: ad as i64 })
            })
        }
}

/// Every entry of the intersection log is such a crossing.
pub open spec fn all_crossings_recorded(s: Seq<Point>, geo: Seq<crate::geometry::Segment>) -> bool {
    forall|i: int| 0 <= i < s.len() ==> crossing_recorded(geo, #[trigger] s[i])
}

/// Exact row membership of a built table: a record occurs in the row of
/// beam `j` exactly once when it is a line record whose span covers the
/// beam's left event — lower endpoint at or before it, upper endpoint
/// strictly past it — and never otherwise.
pub open spec fn rows_membership(
    geo: Seq<crate::geometry::Segment>,
    evs: Seq<Point>,
    acts: Seq<Vec<usize>>,
) -> bool {
    forall|j: int, v: usize|
        0 <= j < acts.len() && (v as int) < geo.len() ==> (#[trigger] acts[j]@.to_multiset().count(
            v,
        )) as int == (if geo[v as int].kind == crate::geometry::LINE_KIND && pt_le(
            seg_lower(geo[v as int]),
            evs[j],
        ) && pt_lt(evs[j], seg_upper(geo[v as int])) {
            1int
        } else {
            0int
        })
}

/// Every line record's two endpoints appear among the event points: the
/// sweep split the plane at each of them.
pub open spec fn endpoints_eventful(geo: Seq<crate::geometry::Segment>, evs: Seq<Point>) -> bool {
    forall|v: usize|
        (v as int) < geo.len() && (#[trigger] geo[v as int]).kind == crate::geometry::LINE_KIND
            ==> evs.contains(seg_lower(geo[v as int])) && evs.contains(seg_upper(geo[v as int]))
}

/// Domain enclosure of a built table: every record active in a beam spans
/// the whole beam. Each active's lower endpoint lies at or before the
/// beam's left event and, for every beam but the last, its upper endpoint
/// lies at or past the beam's right event.
pub open spec fn rows_enclosed(
    geo: Seq<crate::geometry::Segment>,
    evs: Seq<Point>,
    acts: Seq<Vec<usize>>,
) -> bool {
    forall|j: int, k: int|
        0 <= j < acts.len() && 0 <= k < acts[j]@.len() ==> {
            let v = #[trigger] acts[j]@[k];
            &&& pt_le(seg_lower(geo[v as int]), evs[j])
            &&& (j < acts.len() - 1 ==> pt_le(evs[j + 1], seg_upper(geo[v as int])))
        }
}

/// Domain enclosure, read off for one active and one column: any x in the
/// beam lies within the record's x-extent, inclusive.
pub proof fn lemma_domain_enclosure(
    geo: Seq<crate::geometry::Segment>,
    evs: Seq<Point>,
    acts: Seq<Vec<usize>>,
    j: int,
    k: int,
    x: int,
)
    requires
        rows_enclosed(geo, evs, acts),
        evs.len() == acts.len(),
        0 <= j < acts.len() - 1,
        0 <= k < acts[j]@.len(),
        0 <= acts[j]@[k] < geo.len(),
        evs[j].x <= x <= evs[j + 1].x,
    ensures
        ({
            let s = geo[acts[j]@[k] as int];
            &&& (if s.p0.x <= s.p1.x {
                s.p0.x as int
            } else {
                s.p1.x as int
            }) <= x
            &&& x <= (if s.p0.x <= s.p1.x {
                s.p1.x as int
            } else {
                s.p0.x as int
            })
        }),
{
    let v = acts[j]@[k];
    assert(pt_le(seg_lower(geo[v as int]), evs[j]));
    assert(pt_le(evs[j + 1], seg_upper(geo[v as int])));
}

/// An opaque once-only marker: it can only be made unset, and set by the
/// builder. Keeping its flag private keeps callers from forging a "built"
/// table.
#[derive(Clone, Debug)]
pub struct BuiltFlag {
    flag: bool,
}

impl BuiltFlag {
    /// Whether the marker has been set.
    pub closed spec fn is_set(&self) -> bool {
        self.flag
    }

    /// A marker that is not yet set.
    fn fresh() -> (r: BuiltFlag)
        ensures
            !r.is_set(),
    {
        BuiltFlag { flag: false }
    }

    /// The set marker.
    fn done() -> (r: BuiltFlag)
        ensures
            r.is_set(),
    {
        BuiltFlag { flag: true }
    }

    /// Read the marker.
    fn read(&self) -> (b: bool)
        ensures
            b == self.is_set(),
    {
        self.flag
    }
}

/// The beam table: parallel arrays of event points and of the active list
/// in force from each event to the next, plus the intersection points the
/// sweep observed along the way.
#[derive(Clone, Debug)]
pub struct BeamTable {
    pub geometry: Geomstr,
    pub events: Vec<Point>,
    pub actives: Vec<Vec<usize>>,
    pub intersections: Vec<Point>,
    /// Set once `build` has run; a built table is never rebuilt.
    pub built: BuiltFlag,
}

impl BeamTable {
    /// Whether `build` has already run to completion.
    pub open spec fn built_spec(&self) -> bool {
        self.built.is_set()
    }

    /// Structural soundness of the table: one active row per event, events
    /// strictly ascending, and every active index naming a record.
    pub open spec fn wf(&self) -> bool {
        &&& self.events@.len() == self.actives@.len()
        &&& events_sorted(self.events@)
        &&& forall|j: int| 0 <= j < self.actives@.len() ==> row_indices_valid(
            (#[trigger] self.actives@[j])@,
            self.geometry@.len() as int,
        )
    }

    /// Event points and geometry within the sweep's coordinate bound.
    pub open spec fn in_bounds(&self) -> bool {
        geo_in_bounds(self.geometry@) && events_in_bounds(self.events@)
    }

    /// An unbuilt table over the given geometry.
    pub fn new(geometry: Geomstr) -> (r: BeamTable)
        ensures
            r.geometry@ == geometry@,
            r.events@.len() == 0,
            r.actives@.len() == 0,
            r.intersections@.len() == 0,
            !r.built_spec(),
            r.wf(),
    {
        BeamTable {
            geometry,
            events: Vec::new(),
            actives: Vec::new(),
            intersections: Vec::new(),
            built: BuiltFlag::fresh(),
        }
    }

    /// Even-odd fill for one label: walking each beam's actives bottom to
    /// top, the state toggles exactly at records labeled `layer`.
    pub fn evenodd_fill(&self, layer: i64) -> (r: BoolOp)
        requires
            self.wf(),
        ensures
            r@.len() == self.actives@.len(),
            forall|j: int| 0 <= j < r@.len() ==> #[trigger] r@[j] == evenodd_row(
                self.geometry@,
                self.actives@[j]@,
                layer,
            ),
    {
        let mut spacemask: Vec<Vec<bool>> = Vec::new();
        let mut j: usize = 0;
        while j < self.actives.len()
            invariant
                self.wf(),
                j <= self.actives@.len(),
                spacemask@.len() == j as int,
                forall|jj: int| 0 <= jj < j as int ==> #[trigger] spacemask@[jj]@ == evenodd_row(
                    self.geometry@,
                    self.actives@[jj]@,
                    layer,
                ),
            decreases self.actives@.len() - j,
        {
            let active: &Vec<usize> = &self.actives[j];
            let mut active_mask: Vec<bool> = Vec::new();
            let mut inside: bool = false;
            active_mask.push(inside);
            let mut k: usize = 0;
            while k < active.len()
                invariant
                    self.wf(),
                    j < self.actives@.len(),
                    active@ == self.actives@[j as int]@,
                    k <= active@.len(),
                    inside == evenodd_prefix(self.geometry@, active@, layer, k as int),
                    active_mask@.len() == k as int + 1,
                    forall|kk: int| 0 <= kk <= k as int ==> #[trigger] active_mask@[kk]
                        == evenodd_prefix(self.geometry@, active@, layer, kk),
                decreases active@.len() - k,
            {
                proof {
                    assert(row_indices_valid(self.actives@[j as int]@, self.geometry@.len() as int));
                    assert(active@[k as int] < self.geometry@.len());
                }
                let line = self.geometry.segments[active[k]];
                if line.label == layer {
                    inside = !inside;
                }
                active_mask.push(inside);
                k = k + 1;
            }
            proof {
                assert(active_mask@ =~= evenodd_row(self.geometry@, self.actives@[j as int]@, layer));
            }
            spacemask.push(active_mask);
            j = j + 1;
        }
        proof {
            assert forall|jj: int| 0 <= jj < spacemask@.len() implies #[trigger] mask_view(
                BoolOp { inside: spacemask },
            )[jj] == evenodd_row(self.geometry@, self.actives@[jj]@, layer) by {
                assert(spacemask@[jj]@ == evenodd_row(self.geometry@, self.actives@[jj]@, layer));
            }
        }
        BoolOp { inside: spacemask }
    }

    /// A mask whose shape matches this table: one row per beam, one entry
    /// more than the beam's active count.
    pub open spec fn mask_conforms(&self, m: Seq<Seq<bool>>) -> bool {
        &&& m.len() == self.actives@.len()
        &&& forall|j: int| 0 <= j < m.len() ==> (#[trigger] m[j]).len() == self.actives@[j]@.len()
            + 1
    }

    /// Turn a mask back into geometry: for every beam, every active record
    /// whose mask entries differ just below and just above it is a boundary,
    /// emitted as a line between its y-intercepts at the beam's two
    /// scanlines, carrying the record's label; a boundary that collapses to
    /// a single point at a zero-width beam is skipped. With `greedy` the emitted
    /// records are reordered (and possibly flipped) to shorten pen travel.
    pub fn create(&self, mask: BoolOp, greedy: bool) -> (r: Geomstr)
        requires
            self.wf(),
            self.in_bounds(),
            self.mask_conforms(mask@),
        ensures
            ({
                let out = create_spec(
                    self.geometry@,
                    self.events@,
                    actives_views(self.actives@),
                    mask@,
                );
                &&& !greedy ==> r@ == out
                &&& greedy ==> r@ == crate::geometry::greedy_spec(
                    out,
                    Point { x: 0, y: 0 },
                    false,
                    out.len() as int,
                )
                &&& r@.len() == out.len()
                &&& crate::geometry::canon_multiset(r@) == crate::geometry::canon_multiset(out)
            }),
    {
        let mut g = Geomstr::new();
        if mask.inside.len() == 0 {
            return g;
        }
        let ghost geo = self.geometry@;
        let ghost evs = self.events@;
        let ghost acts = actives_views(self.actives@);
        let rows: usize = mask.inside.len() - 1;
        let mut j: usize = 0;
        while j < rows
            invariant
                self.wf(),
                self.in_bounds(),
                self.mask_conforms(mask@),
                geo == self.geometry@,
                evs == self.events@,
                acts == actives_views(self.actives@),
                mask@.len() == mask.inside@.len(),
                rows as int == mask@.len() - 1,
                mask@.len() == self.actives@.len(),
                j <= rows,
                g@ == create_upto(geo, evs, acts, mask@, j as int),
                crate::geometry::geo_dist_bounded(g@),
            decreases rows - j,
        {
            let left_event: Point = self.events[j];
            let right_event: Point = self.events[j + 1];
            proof {
                assert(pt_in_bounds(evs[j as int]));
                assert(pt_in_bounds(evs[j as int + 1]));
                assert(mask@[j as int] == mask.inside@[j as int]@);
                assert(acts[j as int] == self.actives@[j as int]@);
                assert(row_indices_valid(self.actives@[j as int]@, geo.len() as int));
            }
            let row_len: usize = mask.inside[j].len();
            let mut k: usize = 0;
            while k + 1 < row_len
                invariant
                    self.wf(),
                    self.in_bounds(),
                    self.mask_conforms(mask@),
                    geo == self.geometry@,
                    evs == self.events@,
                    acts == actives_views(self.actives@),
                    mask@.len() == mask.inside@.len(),
                    rows as int == mask@.len() - 1,
                    mask@.len() == self.actives@.len(),
                    j < rows,
                    left_event == evs[j as int],
                    right_event == evs[j as int + 1],
                    row_len == mask@[j as int].len(),
                    row_len == self.actives@[j as int]@.len() + 1,
                    k < row_len,
                    g@ == create_upto(geo, evs, acts, mask@, j as int) + create_row_upto(
                        geo,
                        left_event,
                        right_event,
                        acts[j as int],
                        mask@[j as int],
                        k as int,
                    ),
                    crate::geometry::geo_dist_bounded(g@),
                decreases row_len - k,
            {
                proof {
                    assert(mask@[j as int] == mask.inside@[j as int]@);
                }
                let below_space = mask.inside[j][k];
                let above_space = mask.inside[j][k + 1];
                let ghost g_prev = g@;
                if below_space != above_space {
                    let seg_active: usize = self.actives[j][k];
                    proof {
                        assert(acts[j as int] == self.actives@[j as int]@);
                        assert(row_indices_valid(self.actives@[j as int]@, geo.len() as int));
                        assert(self.actives@[j as int]@[k as int] < geo.len());
                        assert(seg_in_bounds(geo[seg_active as int]));
                    }
                    let start = self.geometry.y_intercept(seg_active, left_event.x, left_event.y);
                    let end = self.geometry.y_intercept(seg_active, right_event.x, right_event.y);
                    if start.x != end.x || start.y != end.y {
                        let line = self.geometry.segments[seg_active];
                        g.line((start.x, start.y), (end.x, end.y), line.label);
                        proof {
                            assert(g@ == g_prev.push(
                                boundary_record(geo, seg_active, left_event, right_event),
                            ));
                            assert forall|i: int|
                                0 <= i < g@.len() implies crate::geometry::seg_dist_bounded(
                                #[trigger] g@[i],
                            ) by {
                                if i < g_prev.len() {
                                    assert(g@[i] == g_prev[i]);
                                }
                            }
                        }
                    }
                }
                proof {
                    assert(g@ == create_upto(geo, evs, acts, mask@, j as int) + create_row_upto(
                        geo,
                        left_event,
                        right_event,
                        acts[j as int],
                        mask@[j as int],
                        k as int + 1,
                    ));
                }
                k = k + 1;
            }
            proof {
                assert(k as int == acts[j as int].len());
                assert(create_upto(geo, evs, acts, mask@, j as int + 1) == create_upto(
                    geo,
                    evs,
                    acts,
                    mask@,
                    j as int,
                ) + create_row_upto(
                    geo,
                    evs[j as int],
                    evs[j as int + 1],
                    acts[j as int],
                    mask@[j as int],
                    acts[j as int].len() as int,
                ));
            }
            j = j + 1;
        }
        proof {
            assert(g@ == create_spec(geo, evs, acts, mask@));
        }
        if greedy {
            g.greedy_distance(Point { x: 0, y: 0 }, false);
        }
        g
    }

    /// Union of all labels: a beam slab is inside as long as some label has
    /// been crossed an odd number of times on the way up.
    pub fn union_all(&self) -> (r: BoolOp)
        requires
            self.wf(),
        ensures
            r@.len() == self.actives@.len(),
            forall|j: int| 0 <= j < r@.len() ==> #[trigger] r@[j] == union_row(
                self.geometry@,
                self.actives@[j]@,
            ),
    {
        let mut spacemask: Vec<Vec<bool>> = Vec::new();
        let mut j: usize = 0;
        while j < self.actives.len()
            invariant
                self.wf(),
                j <= self.actives@.len(),
                spacemask@.len() == j as int,
                forall|jj: int| 0 <= jj < j as int ==> #[trigger] spacemask@[jj]@ == union_row(
                    self.geometry@,
                    self.actives@[jj]@,
                ),
            decreases self.actives@.len() - j,
        {
            let active: &Vec<usize> = &self.actives[j];
            let mut set: Vec<i64> = Vec::new();
            let mut active_mask: Vec<bool> = Vec::new();
            active_mask.push(false);
            proof {
                assert(!union_prefix(self.geometry@, active@, 0)) by {
                    assert forall|l: i64| !(#[trigger] label_count(self.geometry@, active@, l, 0) % 2
                        == 1) by {}
                }
            }
            let mut k: usize = 0;
            while k < active.len()
                invariant
                    self.wf(),
                    j < self.actives@.len(),
                    active@ == self.actives@[j as int]@,
                    k <= active@.len(),
                    set@.no_duplicates(),
                    forall|l: i64| set@.contains(l) <==> (#[trigger] label_count(
                        self.geometry@,
                        active@,
                        l,
                        k as int,
                    )) % 2 == 1,
                    active_mask@.len() == k as int + 1,
                    forall|kk: int| 0 <= kk <= k as int ==> #[trigger] active_mask@[kk]
                        == union_prefix(self.geometry@, active@, kk),
                decreases active@.len() - k,
            {
                proof {
                    assert(row_indices_valid(self.actives@[j as int]@, self.geometry@.len() as int));
                    assert(active@[k as int] < self.geometry@.len());
                }
                let line = self.geometry.segments[active[k]];
                let lbl: i64 = line.label;
                let found = find_label(&set, lbl);
                let ghost old_set = set@;
                match found {
                    Some(idx) => {
                        proof {
                            lemma_remove_keeps_others(set@, idx as int);
                            assert(old_set.contains(lbl)) by {
                                assert(old_set[idx as int] == lbl);
                            }
                        }
                        set.remove(idx);
                        proof {
                            assert(forall|x: i64| #[trigger] set@.contains(x) <==> (
                            old_set.contains(x) && x != lbl));
                        }
                    },
                    None => {
                        set.push(lbl);
                        proof {
                            assert forall|x: i64| #[trigger] set@.contains(x) <==> (
                            old_set.contains(x) || x == lbl) by {
                                if set@.contains(x) {
                                    let w = choose|w: int| 0 <= w < set@.len() && set@[w] == x;
                                    if w < old_set.len() {
                                        assert(old_set[w] == x);
                                    }
                                }
                                if old_set.contains(x) {
                                    let w = choose|w: int|
                                        0 <= w < old_set.len() && old_set[w] == x;
                                    assert(set@[w] == x);
                                }
                                if x == lbl {
                                    assert(set@[old_set.len() as int] == lbl);
                                }
                            }
                            assert(set@.no_duplicates()) by {
                                assert forall|a: int, b: int|
                                    0 <= a < b < set@.len() implies set@[a] != set@[b] by {
                                    if b == set@.len() - 1 {
                                        assert(set@[a] == old_set[a]);
                                        assert(!old_set.contains(lbl));
                                        assert(old_set[a] != lbl);
                                    }
                                }
                            }
                        }
                    },
                }
                proof {
                    assert forall|l: i64| set@.contains(l) <==> (#[trigger] label_count(
                        self.geometry@,
                        active@,
                        l,
                        k as int + 1,
                    )) % 2 == 1 by {
                        assert(label_count(self.geometry@, active@, l, k as int + 1) == label_count(
                            self.geometry@,
                            active@,
                            l,
                            k as int,
                        ) + if self.geometry@[active@[k as int] as int].label == l {
                            1int
                        } else {
                            0int
                        });
                        assert(old_set.contains(l) <==> label_count(
                            self.geometry@,
                            active@,
                            l,
                            k as int,
                        ) % 2 == 1);
                        assert(self.geometry@[active@[k as int] as int].label == lbl);
                        if l == lbl {
                            assert(label_count(self.geometry@, active@, l, k as int + 1)
                                == label_count(self.geometry@, active@, l, k as int) + 1);
                        } else {
                            assert(set@.contains(l) <==> old_set.contains(l));
                        }
                    }
                }
                let inside: bool = set.len() != 0;
                proof {
                    if set@.len() != 0 {
                        assert(set@.contains(set@[0]));
                        assert(label_count(self.geometry@, active@, set@[0], k as int + 1) % 2 == 1);
                        assert(union_prefix(self.geometry@, active@, k as int + 1));
                    } else {
                        assert forall|l: i64| !((#[trigger] label_count(
                            self.geometry@,
                            active@,
                            l,
                            k as int + 1,
                        )) % 2 == 1) by {
                            assert(!set@.contains(l));
                        }
                    }
                }
                active_mask.push(inside);
                k = k + 1;
            }
            proof {
                assert(active_mask@ =~= union_row(self.geometry@, self.actives@[j as int]@));
            }
            spacemask.push(active_mask);
            j = j + 1;
        }
        proof {
            assert forall|jj: int| 0 <= jj < spacemask@.len() implies #[trigger] mask_view(
                BoolOp { inside: spacemask },
            )[jj] == union_row(self.geometry@, self.actives@[jj]@) by {
                assert(spacemask@[jj]@ == union_row(self.geometry@, self.actives@[jj]@));
            }
        }
        BoolOp { inside: spacemask }
    }

    /// Bisection over a sorted event queue: the index of the event at `pos`
    /// when one exists, otherwise the one's complement of the position at
    /// which an event at `pos` would have to be inserted.
    pub fn bisect_events(&self, pos: &Point, events: &Vec<Event>) -> (r: i32)
        requires
            evq_sorted(events@),
            events@.len() < 0x8000_0000,
        ensures
            r >= 0 ==> r < events@.len() && events@[r as int].point == *pos,
            r < 0 ==> ({
                let ins = -(r as int) - 1;
                &&& 0 <= ins <= events@.len()
                &&& forall|i: int| 0 <= i < ins ==> pt_lt((#[trigger] events@[i]).point, *pos)
                &&& forall|i: int| ins <= i < events@.len() ==> pt_lt(
                    *pos,
                    (#[trigger] events@[i]).point,
                )
            }),
    {
        let mut lo: usize = 0;
        let mut hi: usize = events.len();
        while lo < hi
            invariant
                evq_sorted(events@),
                events@.len() < 0x8000_0000,
                0 <= lo <= hi <= events@.len(),
                forall|i: int| 0 <= i < lo as int ==> pt_lt((#[trigger] events@[i]).point, *pos),
                forall|i: int| hi as int <= i < events@.len() ==> pt_lt(
                    *pos,
                    (#[trigger] events@[i]).point,
                ),
            decreases hi - lo,
        {
            let mid: usize = (lo + hi) / 2;
            let q: &Point = &events[mid].point;
            if q.lt(pos) {
                lo = mid + 1;
            } else if pos.lt(q) {
                hi = mid;
            } else {
                proof {
                    assert(events@[mid as int].point == *pos);
                }
                return mid as i32;
            }
        }
        -(lo as i32) - 1
    }

    /// The index of the event at `pt`, inserting a fresh empty event at the
    /// queue's correct position when none is there yet.
    fn get_or_insert_event(&self, pt: &Point, events: &mut Vec<Event>) -> (idx: usize)
        requires
            evq_sorted(old(events)@),
            old(events)@.len() < 0x7fff_ffff,
        ensures
            evq_sorted(final(events)@),
            idx < final(events)@.len(),
            final(events)@[idx as int].point == *pt,
            old(events)@.len() <= final(events)@.len() <= old(events)@.len() + 1,
            final(events)@.len() == old(events)@.len() ==> final(events)@ == old(events)@,
            final(events)@.len() == old(events)@.len() + 1 ==> ({
                &&& final(events)@[idx as int].add@ == Seq::<usize>::empty()
                &&& final(events)@[idx as int].remove@ == Seq::<usize>::empty()
                &&& final(events)@[idx as int].update@ == Seq::<usize>::empty()
                &&& forall|i: int| 0 <= i < idx as int ==> final(events)@[i] == old(events)@[i]
                &&& forall|i: int| idx as int <= i < old(events)@.len() ==> final(events)@[i + 1]
                    == old(events)@[i]
            }),
    {
        let r = self.bisect_events(pt, events);
        if r >= 0 {
            r as usize
        } else {
            let ins: usize = ((-r) - 1) as usize;
            let ghost before = events@;
            events.insert(ins, Event::new(pt.x, pt.y));
            proof {
                before.insert_ensures(ins as int, events@[ins as int]);
                assert forall|a: int, b: int|
                    0 <= a < b < events@.len() implies pt_lt(
                    (#[trigger] events@[a]).point,
                    (#[trigger] events@[b]).point,
                ) by {
                    if b < ins as int {
                        assert(events@[a] == before[a] && events@[b] == before[b]);
                    } else if a < ins as int && b == ins as int {
                        assert(events@[a] == before[a]);
                        assert(pt_lt(before[a].point, *pt));
                    } else if a < ins as int {
                        assert(events@[a] == before[a] && events@[b] == before[b - 1]);
                    } else if a == ins as int {
                        assert(events@[b] == before[b - 1]);
                        assert(pt_lt(*pt, before[b - 1].point));
                    } else {
                        assert(events@[a] == before[a - 1] && events@[b] == before[b - 1]);
                    }
                }
            }
            ins
        }
    }

    /// Insertion position for record `x` within the active row, bisecting
    /// by y-intercept at the scanline, then by slope, then by index: `x`
    /// does not sort before its left neighbour and sorts before its right
    /// one. On a row sorted by the comparator that pins the position; the
    /// sweep's rows can drift from comparator order between events, so no
    /// more is claimed.
    fn bisect_yints(&self, actives: &Vec<usize>, x: usize, scanline: &Point) -> (r: usize)
        requires
            geo_in_bounds(self.geometry@),
            row_indices_valid(actives@, self.geometry@.len() as int),
            x < self.geometry@.len(),
            pt_in_bounds(*scanline),
        ensures
            r <= actives@.len(),
            r > 0 ==> !comes_before(self.geometry@, x, actives@[r - 1], *scanline),
            r < actives@.len() ==> comes_before(self.geometry@, x, actives@[r as int], *scanline),
    {
        let mut lo: usize = 0;
        let mut hi: usize = actives.len();
        while lo < hi
            invariant
                lo <= hi <= actives@.len(),
                geo_in_bounds(self.geometry@),
                row_indices_valid(actives@, self.geometry@.len() as int),
                x < self.geometry@.len(),
                pt_in_bounds(*scanline),
                lo > 0 ==> !comes_before(self.geometry@, x, actives@[lo - 1], *scanline),
                hi < actives@.len() ==> comes_before(
                    self.geometry@,
                    x,
                    actives@[hi as int],
                    *scanline,
                ),
            decreases hi - lo,
        {
            let mid: usize = lo + (hi - lo) / 2;
            let y: usize = actives[mid];
            proof {
                assert(actives@[mid as int] < self.geometry@.len());
                assert(seg_in_bounds(self.geometry@[y as int]));
                assert(seg_in_bounds(self.geometry@[x as int]));
            }
            let test = self.geometry.y_intercept(y, scanline.x, scanline.y);
            let value = self.geometry.y_intercept(x, scanline.x, scanline.y);
            if value.lt(&test) {
                hi = mid;
            } else if test.lt(&value) {
                lo = mid + 1;
            } else {
                let test_slope = self.geometry.slope(y);
                let value_slope = self.geometry.slope(x);
                if slope_less(&value_slope, &test_slope) {
                    hi = mid;
                } else if slope_less(&test_slope, &value_slope) {
                    lo = mid + 1;
                } else if x < y {
                    hi = mid;
                } else {
                    lo = mid + 1;
                }
            }
        }
        lo
    }

    /// Test the neighbouring actives at positions `q` and `r` for a genuine
    /// crossing past the scanline `sl`; record the crossing point and, for a
    /// fresh pair, schedule an update event at it. Shared endpoints are not
    /// crossings; a crossing at or before the scanline schedules nothing.
    fn check_intersections(
        &mut self,
        events: &mut Vec<Event>,
        actives: &Vec<usize>,
        checked_swaps: &mut Vec<(usize, usize)>,
        q: usize,
        r: usize,
        sl: &Point,
    )
        requires
            geo_in_bounds(old(self).geometry@),
            old(self).geometry@.len() <= 0x4000,
            q < actives@.len(),
            r < actives@.len(),
            row_indices_valid(actives@, old(self).geometry@.len() as int),
            evq_sorted(old(events)@),
            old(events)@.len() < 0x7fff_0000,
            queue_lists_valid(old(events)@, old(self).geometry@.len() as int),
            queue_pts_in_bounds(old(events)@),
            queue_after(old(events)@, *sl),
            pt_in_bounds(*sl),
            old(checked_swaps)@.no_duplicates(),
            pairs_in_range(old(checked_swaps)@, old(self).geometry@.len() as int),
            old(checked_swaps)@.len() <= old(self).geometry@.len() * old(self).geometry@.len(),
            old(checked_swaps)@.len() <= 0x1000_0000,
        ensures
            final(self).geometry@ == old(self).geometry@,
            final(self).events@ == old(self).events@,
            final(self).actives@ == old(self).actives@,
            final(self).built.is_set() == old(self).built.is_set(),
            evq_sorted(final(events)@),
            queue_lists_valid(final(events)@, old(self).geometry@.len() as int),
            queue_pts_in_bounds(final(events)@),
            queue_after(final(events)@, *sl),
            final(checked_swaps)@.no_duplicates(),
            pairs_in_range(final(checked_swaps)@, old(self).geometry@.len() as int),
            final(checked_swaps)@.len() <= old(self).geometry@.len() * old(self).geometry@.len(),
            final(checked_swaps)@.len() <= 0x1000_0000,
            final(events)@.len() + 2 * old(checked_swaps)@.len() <= old(events)@.len() + 2
                * final(checked_swaps)@.len(),
            final(events)@.len() <= old(events)@.len() + 1,
            final(checked_swaps)@.len() >= old(checked_swaps)@.len(),
            forall|v: usize| #[trigger] lists_total(adds_of(final(events)@), v) == lists_total(
                adds_of(old(events)@),
                v,
            ),
            forall|v: usize| #[trigger] lists_total(removes_of(final(events)@), v) == lists_total(
                removes_of(old(events)@),
                v,
            ),
            seeded_lists_placed(old(events)@, old(self).geometry@) ==> seeded_lists_placed(
                final(events)@,
                old(self).geometry@,
            ),
            all_crossings_recorded(old(self).intersections@, old(self).geometry@)
                ==> all_crossings_recorded(final(self).intersections@, old(self).geometry@),
            ({
                let geo = old(self).geometry@;
                let qi = actives@[q as int];
                let ri = actives@[r as int];
                let s0 = geo[qi as int];
                let s1 = geo[ri as int];
                let dn = isect_denom(s0, s1);
                let ad = absi(dn);
                let n1 = isect_num1(s0, s1) * sgn(dn);
                let n2 = isect_num2(s0, s1) * sgn(dn);
                let t1 = Frac { num: n1 as i64, den: ad as i64 };
                let observed = !old(checked_swaps)@.contains((qi, ri)) && dn != 0 && 0 <= n1 <= ad
                    && 0 <= n2 <= ad && !((n1 == 0 || n1 == ad) && (n2 == 0 || n2 == ad));
                let scheduled = observed && pt_lt(*sl, interp_up(s0, t1));
                &&& final(self).intersections@ == (if observed {
                    old(self).intersections@.push(interp(s0, t1))
                } else {
                    old(self).intersections@
                })
                &&& final(checked_swaps)@ == (if scheduled {
                    old(checked_swaps)@.push((qi, ri))
                } else {
                    old(checked_swaps)@
                })
                &&& !scheduled ==> final(events)@ == old(events)@
                &&& scheduled ==> (exists|idx: int|
                    {
                        &&& 0 <= idx < final(events)@.len()
                        &&& (#[trigger] final(events)@[idx]).point == interp_up(s0, t1)
                        &&& (final(events)@.len() == old(events)@.len() || final(events)@.len()
                            == old(events)@.len() + 1)
                        &&& (final(events)@.len() == old(events)@.len() ==> {
                            &&& old(events)@[idx].point == interp_up(s0, t1)
                            &&& final(events)@[idx].add@ == old(events)@[idx].add@
                            &&& final(events)@[idx].remove@ == old(events)@[idx].remove@
                            &&& final(events)@[idx].update@ == old(events)@[idx].update@.push(
                                qi,
                            ).push(ri)
                            &&& forall|i: int|
                                0 <= i < old(events)@.len() && i != idx ==> final(events)@[i]
                                    == old(events)@[i]
                        })
                        &&& (final(events)@.len() == old(events)@.len() + 1 ==> {
                            &&& final(events)@[idx].add@ == Seq::<usize>::empty()
                            &&& final(events)@[idx].remove@ == Seq::<usize>::empty()
                            &&& final(events)@[idx].update@ == Seq::<usize>::empty().push(qi).push(
                                ri,
                            )
                            &&& forall|i: int| 0 <= i < idx ==> final(events)@[i] == old(events)@[i]
                            &&& forall|i: int|
                                idx <= i < old(events)@.len() ==> final(events)@[i + 1] == old(
                                    events,
                                )@[i]
                        })
                    })
            }),
    {
        let qi: usize = actives[q];
        let ri: usize = actives[r];
        proof {
            assert(actives@[q as int] < self.geometry@.len());
            assert(actives@[r as int] < self.geometry@.len());
            assert(seg_in_bounds(self.geometry@[qi as int]));
            assert(seg_in_bounds(self.geometry@[ri as int]));
        }
        if contains_pair(checked_swaps, (qi, ri)) {
            return;
        }
        let intersection = self.geometry.get_intersection(qi, ri);
        match intersection {
            None => (),
            Some(t) => {
                let t1 = t.0;
                let t2 = t.1;
                if (t1.num == 0 || t1.num == t1.den) && (t2.num == 0 || t2.num == t2.den) {
                    return;
                }
                proof {
                    assert(crate::geometry::frac_valid(t1));
                }
                let pt_intersect = self.geometry.point(qi, t1);
                let ghost log0 = self.intersections@;
                self.intersections.push(pt_intersect);
                proof {
                    assert(crossing_recorded(self.geometry@, pt_intersect)) by {
                        assert(0 <= qi < self.geometry@.len() && 0 <= ri < self.geometry@.len());
                    }
                    if all_crossings_recorded(log0, self.geometry@) {
                        assert forall|i: int|
                            0 <= i < self.intersections@.len() implies crossing_recorded(
                            self.geometry@,
                            #[trigger] self.intersections@[i],
                        ) by {
                            if i < log0.len() {
                                assert(self.intersections@[i] == log0[i]);
                            }
                        }
                    }
                }
                // Schedule the swap with the crossing's column rounded up:
                // at that scanline the pair already compares in its
                // post-crossing order, so the re-insertion really swaps it.
                let pt_sched = self.geometry.point_up(qi, t1);
                if !sl.lt(&pt_sched) {
                    return;
                }
                let ghost old_checked = checked_swaps@;
                checked_swaps.push((qi, ri));
                proof {
                    assert forall|a: int, b: int|
                        0 <= a < b < checked_swaps@.len() implies checked_swaps@[a]
                        != checked_swaps@[b] by {
                        if b == checked_swaps@.len() - 1 {
                            assert(checked_swaps@[a] == old_checked[a]);
                            assert(!old_checked.contains((qi, ri)));
                        }
                    }
                    // One update event at most per ordered pair: the dedup
                    // list stays within the square of the record count,
                    // which bounds the sweep's scheduled work.
                    lemma_pairs_bound(checked_swaps@, self.geometry@.len() as int);
                    assert(self.geometry@.len() * self.geometry@.len() <= 0x1000_0000)
                        by (nonlinear_arith)
                        requires
                            self.geometry@.len() <= 0x4000,
                    ;
                }
                let ghost q_before = events@;
                let idx = self.get_or_insert_event(&pt_sched, events);
                proof {
                    if events@.len() == q_before.len() + 1 {
                        lemma_queue_insert_totals(q_before, events@, idx as int);
                        if seeded_lists_placed(q_before, self.geometry@) {
                            lemma_placed_insert_empty(q_before, events@, idx as int, self.geometry@);
                        }
                    }
                    if events@.len() == q_before.len() + 1 {
                        assert forall|i: int|
                            0 <= i < events@.len() implies event_lists_valid(
                            #[trigger] events@[i],
                            self.geometry@.len() as int,
                        ) && pt_in_bounds(events@[i].point) && pt_lt(*sl, events@[i].point) by {
                            if i < idx as int {
                                assert(events@[i] == q_before[i]);
                            } else if i == idx as int {
                                assert(events@[i].point == pt_sched);
                            } else {
                                assert(events@[i] == q_before[i - 1]);
                            }
                        }
                    }
                }
                let ghost q_mid = events@;
                event_push_update(events, idx, qi, ri);
                proof {
                    lemma_queue_push_update_totals(q_mid, events@, idx as int);
                    if seeded_lists_placed(q_mid, self.geometry@) {
                        lemma_placed_update_push(q_mid, events@, idx as int, self.geometry@);
                    }
                    assert forall|a: int, b: int|
                        0 <= a < b < events@.len() implies pt_lt(
                        (#[trigger] events@[a]).point,
                        (#[trigger] events@[b]).point,
                    ) by {
                        assert(events@[a].point == q_mid[a].point);
                        assert(events@[b].point == q_mid[b].point);
                    }
                    assert forall|i: int|
                        0 <= i < events@.len() implies event_lists_valid(
                        #[trigger] events@[i],
                        self.geometry@.len() as int,
                    ) && pt_in_bounds(events@[i].point) && pt_lt(*sl, events@[i].point) by {
                        if i != idx as int {
                            assert(events@[i] == q_mid[i]);
                        } else {
                            assert(events@[i].update@ == q_mid[i].update@.push(qi).push(ri));
                            assert(events@[i].point == q_mid[i].point);
                            assert(row_indices_valid(events@[i].update@, self.geometry@.len() as int));
                        }
                    }
                    // the witness for the scheduling clause of the contract
                    assert(events@[idx as int].point == pt_sched);
                    if events@.len() == q_before.len() {
                        assert(q_mid == q_before);
                        assert(events@[idx as int].update@ == q_before[idx as int].update@.push(
                            qi,
                        ).push(ri));
                        assert(forall|i: int|
                            0 <= i < q_before.len() && i != idx as int ==> events@[i]
                                == q_before[i]);
                    } else {
                        assert(events@.len() == q_before.len() + 1);
                        assert(events@[idx as int].add@ == Seq::<usize>::empty());
                        assert(events@[idx as int].remove@ == Seq::<usize>::empty());
                        assert(events@[idx as int].update@ == Seq::<usize>::empty().push(qi).push(
                            ri,
                        ));
                        assert(forall|i: int| 0 <= i < idx as int ==> events@[i] == q_before[i]);
                        assert(forall|i: int|
                            idx as int <= i < q_before.len() ==> events@[i + 1] == q_before[i]);
                    }
                }
            },
        }
    }

    /// Queue the two endpoint events of record `i`: an `add` at its lower
    /// endpoint and a `remove` at its upper one, coalescing with events
    /// already queued at those points.
    fn seed_segment(&self, events: &mut Vec<Event>, lower: &Point, upper: &Point, i: usize)
        requires
            evq_sorted(old(events)@),
            queue_lists_valid(old(events)@, self.geometry@.len() as int),
            queue_pts_in_bounds(old(events)@),
            old(events)@.len() < 0x7fff_0000,
            pt_in_bounds(*lower),
            pt_in_bounds(*upper),
            i < self.geometry@.len(),
            *lower == seg_lower(self.geometry@[i as int]),
            *upper == seg_upper(self.geometry@[i as int]),
            seeded_lists_placed(old(events)@, self.geometry@),
        ensures
            evq_sorted(final(events)@),
            queue_lists_valid(final(events)@, self.geometry@.len() as int),
            queue_pts_in_bounds(final(events)@),
            final(events)@.len() <= old(events)@.len() + 2,
            seeded_lists_placed(final(events)@, self.geometry@),
            forall|v: usize| #[trigger] lists_total(adds_of(final(events)@), v) == lists_total(
                adds_of(old(events)@),
                v,
            ) + if v == i {
                1int
            } else {
                0int
            },
            forall|v: usize| #[trigger] lists_total(removes_of(final(events)@), v) == lists_total(
                removes_of(old(events)@),
                v,
            ) + if v == i {
                1int
            } else {
                0int
            },
            forall|v: usize| #[trigger] lists_total(updates_of(final(events)@), v) == lists_total(
                updates_of(old(events)@),
                v,
            ),
    {
        let ghost n = self.geometry@.len() as int;
        let ghost q0 = events@;
        let e1 = self.get_or_insert_event(lower, events);
        proof {
            if events@.len() == q0.len() + 1 {
                lemma_queue_insert_props(q0, events@, e1 as int, *lower, n);
                lemma_queue_insert_totals(q0, events@, e1 as int);
                lemma_placed_insert_empty(q0, events@, e1 as int, self.geometry@);
            }
        }
        let ghost q1 = events@;
        event_push_add(events, e1, i);
        proof {
            lemma_queue_push_add_totals(q1, events@, e1 as int, i);
            assert(events@[e1 as int].point == *lower);
            lemma_placed_push_add(q1, events@, e1 as int, i, self.geometry@);
        }
        proof {
            lemma_queue_points_preserved(q1, events@);
            assert forall|k: int|
                0 <= k < events@.len() implies event_lists_valid(#[trigger] events@[k], n)
                && pt_in_bounds(events@[k].point) by {
                if k != e1 as int {
                    assert(events@[k] == q1[k]);
                } else {
                    lemma_row_push(q1[k].add@, i, n);
                    assert(events@[k].point == q1[k].point);
                }
            }
        }
        let ghost q2 = events@;
        let e2 = self.get_or_insert_event(upper, events);
        proof {
            if events@.len() == q2.len() + 1 {
                lemma_queue_insert_props(q2, events@, e2 as int, *upper, n);
                lemma_queue_insert_totals(q2, events@, e2 as int);
                lemma_placed_insert_empty(q2, events@, e2 as int, self.geometry@);
            }
        }
        let ghost q3 = events@;
        event_push_remove(events, e2, i);
        proof {
            lemma_queue_push_remove_totals(q3, events@, e2 as int, i);
            assert(events@[e2 as int].point == *upper);
            lemma_placed_push_remove(q3, events@, e2 as int, i, self.geometry@);
        }
        proof {
            lemma_queue_points_preserved(q3, events@);
            assert forall|k: int|
                0 <= k < events@.len() implies event_lists_valid(#[trigger] events@[k], n)
                && pt_in_bounds(events@[k].point) by {
                if k != e2 as int {
                    assert(events@[k] == q3[k]);
                } else {
                    lemma_row_push(q3[k].remove@, i, n);
                    assert(events@[k].point == q3[k].point);
                }
            }
        }
    }

    /// First stage of the build: queue one `add` event at the lower
    /// endpoint and one `remove` event at the upper endpoint of every line
    /// record, coalescing events per point. Across the whole queue, each
    /// line record then sits in exactly one `add` list and exactly one
    /// `remove` list, records of any other kind in none, and no `update`
    /// list holds anything yet.
    pub fn seed_events(&self, events: &mut Vec<Event>)
        requires
            geo_in_bounds(self.geometry@),
            self.geometry@.len() <= 0x4000,
            old(events)@.len() == 0,
        ensures
            evq_sorted(final(events)@),
            queue_lists_valid(final(events)@, self.geometry@.len() as int),
            queue_pts_in_bounds(final(events)@),
            final(events)@.len() <= 2 * self.geometry@.len(),
            forall|v: usize| #[trigger] lists_total(adds_of(final(events)@), v) == if v
                < self.geometry@.len() && self.geometry@[v as int].kind
                == crate::geometry::LINE_KIND {
                1int
            } else {
                0int
            },
            forall|v: usize| #[trigger] lists_total(removes_of(final(events)@), v) == if v
                < self.geometry@.len() && self.geometry@[v as int].kind
                == crate::geometry::LINE_KIND {
                1int
            } else {
                0int
            },
            forall|v: usize| #[trigger] lists_total(updates_of(final(events)@), v) == 0,
            seeded_lists_placed(final(events)@, self.geometry@),
    {
        let n: usize = self.geometry.segments.len();
        let mut i: usize = 0;
        while i < n
            invariant
                geo_in_bounds(self.geometry@),
                n == self.geometry@.len(),
                n <= 0x4000,
                i <= n,
                evq_sorted(events@),
                queue_lists_valid(events@, n as int),
                queue_pts_in_bounds(events@),
                events@.len() <= 2 * i,
                forall|v: usize| #[trigger] lists_total(adds_of(events@), v) == if v < i
                    && self.geometry@[v as int].kind == crate::geometry::LINE_KIND {
                    1int
                } else {
                    0int
                },
                forall|v: usize| #[trigger] lists_total(removes_of(events@), v) == if v < i
                    && self.geometry@[v as int].kind == crate::geometry::LINE_KIND {
                    1int
                } else {
                    0int
                },
                forall|v: usize| #[trigger] lists_total(updates_of(events@), v) == 0,
                seeded_lists_placed(events@, self.geometry@),
            decreases n - i,
        {
            let seg = self.geometry.segments[i];
            if seg.kind == crate::geometry::LINE_KIND {
                proof {
                    assert(seg_in_bounds(self.geometry@[i as int]));
                }
                let p0 = seg.p0;
                let p1 = seg.p1;
                if p0.lt(&p1) {
                    proof {
                        assert(p0 == seg_lower(self.geometry@[i as int]));
                        assert(p1 == seg_upper(self.geometry@[i as int]));
                    }
                    self.seed_segment(events, &p0, &p1, i);
                } else {
                    proof {
                        assert(p1 == seg_lower(self.geometry@[i as int]));
                        assert(p0 == seg_upper(self.geometry@[i as int]));
                    }
                    self.seed_segment(events, &p1, &p0, i);
                }
            }
            i = i + 1;
        }
    }

    /// Build the table: seed an `add` and a `remove` event from each line
    /// record's endpoints, then pop events in ascending point order,
    /// applying removes, adds and updates to the active row, discovering
    /// crossings between newly adjacent actives, and appending one
    /// `(event point, active row snapshot)` row per event. A built table is
    /// never rebuilt.
    ///
    /// The record-count cap keeps every internal quantity in range: with at
    /// most 0x4000 records the queue never exceeds twice the record count
    /// plus two entries per scheduled crossing pair, which stays below the
    /// `i32` bisection's reach.
    pub fn build(&mut self)
        requires
            !old(self).built_spec() ==> ({
                &&& geo_in_bounds(old(self).geometry@)
                &&& old(self).geometry@.len() <= 0x4000
                &&& old(self).events@.len() == 0
                &&& old(self).actives@.len() == 0
                &&& old(self).intersections@.len() == 0
            }),
        ensures
            final(self).geometry@ == old(self).geometry@,
            final(self).built_spec(),
            old(self).built_spec() ==> *final(self) == *old(self),
            !old(self).built_spec() ==> final(self).wf() && final(self).in_bounds(),
            (!old(self).built_spec() && final(self).actives@.len() > 0)
                ==> final(self).actives@[final(self).actives@.len() - 1]@.len() == 0,
            !old(self).built_spec() ==> rows_enclosed(
                final(self).geometry@,
                final(self).events@,
                final(self).actives@,
            ),
            !old(self).built_spec() ==> rows_membership(
                final(self).geometry@,
                final(self).events@,
                final(self).actives@,
            ),
            !old(self).built_spec() ==> endpoints_eventful(
                final(self).geometry@,
                final(self).events@,
            ),
            !old(self).built_spec() ==> all_crossings_recorded(
                final(self).intersections@,
                final(self).geometry@,
            ),
            !old(self).built_spec() ==> (forall|j: int|
                0 <= j < final(self).actives@.len()
                    ==> (#[trigger] final(self).actives@[j])@.no_duplicates()),
    {
        if self.built.read() {
            return;
        }
        let n: usize = self.geometry.segments.len();
        let mut events: Vec<Event> = Vec::new();
        let mut checked_swaps: Vec<(usize, usize)> = Vec::new();
        let mut actives: Vec<usize> = Vec::new();
        self.seed_events(&mut events);
        proof {
            actives@.to_multiset_ensures();
            assert forall|v: usize| (v as int) < n as int implies #[trigger] actives@.to_multiset().count(
                v,
            ) as int == lists_total(removes_of(events@), v) - lists_total(
                adds_of(events@),
                v,
            ) by {
                assert(!actives@.contains(v));
            }
        }
        while events.len() != 0
            invariant
                self.geometry@ == old(self).geometry@,
                all_crossings_recorded(self.intersections@, self.geometry@),
                !self.built.is_set(),
                n == self.geometry@.len(),
                n <= 0x4000,
                geo_in_bounds(self.geometry@),
                evq_sorted(events@),
                queue_lists_valid(events@, n as int),
                queue_pts_in_bounds(events@),
                events@.len() <= 2 * (n as int) + 2 * checked_swaps@.len(),
                checked_swaps@.no_duplicates(),
                pairs_in_range(checked_swaps@, n as int),
                checked_swaps@.len() <= (n as int) * (n as int),
                checked_swaps@.len() <= 0x1000_0000,
                row_indices_valid(actives@, n as int),
                self.events@.len() == self.actives@.len(),
                events_sorted(self.events@),
                events_in_bounds(self.events@),
                forall|j: int| 0 <= j < self.actives@.len() ==> row_indices_valid(
                    (#[trigger] self.actives@[j])@,
                    n as int,
                ),
                self.events@.len() > 0 ==> queue_after(
                    events@,
                    self.events@[self.events@.len() - 1],
                ),
                self.actives@.len() > 0 ==> self.actives@[self.actives@.len() - 1]@ == actives@,
                forall|v: usize| 0 <= #[trigger] lists_total(adds_of(events@), v) <= 1,
                forall|v: usize| 0 <= #[trigger] lists_total(removes_of(events@), v) <= 1,
                forall|v: usize| (v as int) < n as int && self.geometry@[v as int].kind
                    != crate::geometry::LINE_KIND ==> #[trigger] lists_total(
                    removes_of(events@),
                    v,
                ) == 0 && lists_total(adds_of(events@), v) == 0,
                seeded_lists_placed(events@, self.geometry@),
                forall|v: usize| (v as int) < n as int
                    ==> #[trigger] actives@.to_multiset().count(v) as int == lists_total(
                    removes_of(events@),
                    v,
                ) - lists_total(adds_of(events@), v),
                forall|v: usize| (v as int) < n as int && self.geometry@[v as int].kind
                    == crate::geometry::LINE_KIND && #[trigger] lists_total(adds_of(events@), v)
                    == 0 ==> self.events@.len() > 0 && self.events@.contains(
                    seg_lower(self.geometry@[v as int]),
                ) && pt_le(
                    seg_lower(self.geometry@[v as int]),
                    self.events@[self.events@.len() - 1],
                ),
                forall|v: usize| (v as int) < n as int && self.geometry@[v as int].kind
                    == crate::geometry::LINE_KIND && #[trigger] lists_total(removes_of(events@), v)
                    == 0 ==> self.events@.len() > 0 && self.events@.contains(
                    seg_upper(self.geometry@[v as int]),
                ) && pt_le(
                    seg_upper(self.geometry@[v as int]),
                    self.events@[self.events@.len() - 1],
                ),
                rows_enclosed(self.geometry@, self.events@, self.actives@),
                rows_membership(self.geometry@, self.events@, self.actives@),
            decreases 2 * ((n as int) * (n as int) - checked_swaps@.len()) + events@.len(),
        {
            let ghost q_before = events@;
            let event = events.remove(0);
            proof {
                lemma_queue_pop(q_before, n as int);
                assert(event == q_before[0]);
                assert(event_lists_valid(event, n as int));
                assert(pt_in_bounds(event.point));
                assert(events@ =~= q_before.drop_first());
                assert(adds_of(events@) =~= adds_of(q_before).drop_first()) by {
                    assert forall|i2: int|
                        0 <= i2 < events@.len() implies adds_of(events@)[i2] == adds_of(
                        q_before,
                    ).drop_first()[i2] by {
                        assert(events@[i2] == q_before[i2 + 1]);
                    }
                }
                assert(removes_of(events@) =~= removes_of(q_before).drop_first()) by {
                    assert forall|i2: int|
                        0 <= i2 < events@.len() implies removes_of(events@)[i2] == removes_of(
                        q_before,
                    ).drop_first()[i2] by {
                        assert(events@[i2] == q_before[i2 + 1]);
                    }
                }
                assert forall|v: usize| #[trigger] lists_total(adds_of(q_before), v) == lists_total(
                    adds_of(events@),
                    v,
                ) + event.add@.to_multiset().count(v) as int by {
                    lemma_lists_total_pop(adds_of(q_before), v);
                    assert(adds_of(q_before)[0] == event.add@);
                }
                assert forall|v: usize| #[trigger] lists_total(removes_of(q_before), v)
                    == lists_total(removes_of(events@), v) + event.remove@.to_multiset().count(
                    v,
                ) as int by {
                    lemma_lists_total_pop(removes_of(q_before), v);
                    assert(removes_of(q_before)[0] == event.remove@);
                }
                assert forall|v: usize| 0 <= #[trigger] lists_total(adds_of(events@), v) <= 1 by {
                    lemma_lists_total_nonneg(adds_of(events@), v);
                    lemma_row_le_total(adds_of(q_before), 0, v);
                }
                assert forall|v: usize| 0 <= #[trigger] lists_total(removes_of(events@), v)
                    <= 1 by {
                    lemma_lists_total_nonneg(removes_of(events@), v);
                    lemma_row_le_total(removes_of(q_before), 0, v);
                }
                assert forall|v: usize|
                    (v as int) < n as int && self.geometry@[v as int].kind
                        != crate::geometry::LINE_KIND implies #[trigger] lists_total(
                    removes_of(events@),
                    v,
                ) == 0 && lists_total(adds_of(events@), v) == 0 by {
                    lemma_lists_total_nonneg(removes_of(events@), v);
                    lemma_lists_total_nonneg(adds_of(events@), v);
                    lemma_row_le_total(removes_of(q_before), 0, v);
                    lemma_row_le_total(adds_of(q_before), 0, v);
                    assert(event.remove@.to_multiset().count(v) as int >= 0);
                    assert(event.add@.to_multiset().count(v) as int >= 0);
                }
                    assert(seeded_lists_placed(events@, self.geometry@)) by {
                        assert forall|i2: int, k2: int|
                            0 <= i2 < events@.len() && 0 <= k2
                                < events@[i2].add@.len() implies events@[i2].point == seg_lower(
                            self.geometry@[(#[trigger] events@[i2].add@[k2]) as int],
                        ) by {
                            assert(events@[i2] == q_before[i2 + 1]);
                        }
                        assert forall|i2: int, k2: int|
                            0 <= i2 < events@.len() && 0 <= k2
                                < events@[i2].remove@.len() implies events@[i2].point == seg_upper(
                            self.geometry@[(#[trigger] events@[i2].remove@[k2]) as int],
                        ) by {
                            assert(events@[i2] == q_before[i2 + 1]);
                        }
                    }
            }
            let pt = event.point;
            // A record whose add and remove coalesce at one event (a line
            // collapsed to a point) retires on the spot: cancel the pair
            // instead of adding something no later event would remove.
            let add_list = filter_excluding(&event.add, &event.remove);
            let remove_list = filter_excluding(&event.remove, &event.add);
            proof {
                event.add@.to_multiset_ensures();
                event.remove@.to_multiset_ensures();
                add_list@.to_multiset_ensures();
                remove_list@.to_multiset_ensures();
                assert(row_indices_valid(add_list@, n as int)) by {
                    assert forall|k2: int|
                        0 <= k2 < add_list@.len() implies (#[trigger] add_list@[k2]) < n by {
                        assert(add_list@.contains(add_list@[k2]));
                        assert(event.add@.contains(add_list@[k2]));
                        let ki = choose|ki: int|
                            0 <= ki < event.add@.len() && #[trigger] event.add@[ki] == add_list@[k2];
                    }
                }
                assert(row_indices_valid(remove_list@, n as int)) by {
                    assert forall|k2: int|
                        0 <= k2 < remove_list@.len() implies (#[trigger] remove_list@[k2]) < n by {
                        assert(remove_list@.contains(remove_list@[k2]));
                        assert(event.remove@.contains(remove_list@[k2]));
                        let ki = choose|ki: int|
                            0 <= ki < event.remove@.len() && #[trigger] event.remove@[ki]
                                == remove_list@[k2];
                    }
                }
                assert(remove_list@.no_duplicates()) by {
                    assert forall|x: usize|
                        remove_list@.to_multiset().contains(
                            x,
                        ) implies remove_list@.to_multiset().count(x) == 1 by {
                        lemma_row_le_total(removes_of(q_before), 0, x);
                        assert(removes_of(q_before)[0] == event.remove@);
                    }
                    remove_list@.lemma_multiset_has_no_duplicates_conv();
                }
                assert forall|v: usize|
                    remove_list@.contains(v) implies actives@.to_multiset().count(v) <= 1 by {
                    assert(event.remove@.contains(v));
                    let ki = choose|ki: int|
                        0 <= ki < event.remove@.len() && #[trigger] event.remove@[ki] == v;
                    assert(row_indices_valid(event.remove@, n as int));
                    assert(v < n);
                    lemma_lists_total_nonneg(adds_of(q_before), v);
                    lemma_row_le_total(removes_of(q_before), 0, v);
                }
            }
            let ghost out_events = self.events@;
            let ghost out_actives = self.actives@;
            let ghost a0 = actives@;
            proof {
                    assert forall|k2: int|
                        0 <= k2 < a0.len() implies pt_le(
                        pt,
                        seg_upper(self.geometry@[(#[trigger] a0[k2]) as int]),
                    ) by {
                        let v = a0[k2];
                        a0.to_multiset_ensures();
                        assert(a0.contains(v));
                        assert(a0.to_multiset().count(v) > 0);
                        assert(v < n);
                        lemma_lists_total_nonneg(adds_of(q_before), v);
                        lemma_total_pos_exists(removes_of(q_before), v);
                        let i2 = choose|i2: int|
                            0 <= i2 < removes_of(q_before).len() && (#[trigger] removes_of(
                                q_before,
                            )[i2]).to_multiset().count(v) > 0;
                        assert(q_before[i2].remove@.to_multiset().count(v) > 0);
                        q_before[i2].remove@.to_multiset_ensures();
                        assert(q_before[i2].remove@.contains(v));
                        let k3 = choose|k3: int|
                            0 <= k3 < q_before[i2].remove@.len() && #[trigger] q_before[i2].remove@[k3]
                                == v;
                        assert(q_before[i2].point == seg_upper(self.geometry@[v as int]));
                        if i2 > 0 {
                            assert(pt_lt(q_before[0].point, q_before[i2].point));
                        }
                    }
            }
            self.apply_removes(&mut events, &mut actives, &mut checked_swaps, &remove_list, &pt);
            let ghost a1 = actives@;
            self.apply_adds(&mut events, &mut actives, &mut checked_swaps, &add_list, &pt);
            let ghost a2 = actives@;
            self.apply_updates(&mut events, &mut actives, &mut checked_swaps, &event.update, &pt);
            proof {
                    assert forall|v: usize| (v as int) < n as int implies #[trigger] actives@.to_multiset().count(
                        v,
                    ) as int == lists_total(removes_of(events@), v) - lists_total(
                        adds_of(events@),
                        v,
                    ) by {
                        let ca = event.add@.to_multiset().count(v) as int;
                        let cr = event.remove@.to_multiset().count(v) as int;
                        let pa_b = lists_total(adds_of(q_before), v);
                        let pr_b = lists_total(removes_of(q_before), v);
                        event.remove@.to_multiset_ensures();
                        event.add@.to_multiset_ensures();
                        add_list@.to_multiset_ensures();
                        remove_list@.to_multiset_ensures();
                        lemma_row_le_total(adds_of(q_before), 0, v);
                        assert(adds_of(q_before)[0] == event.add@);
                        lemma_row_le_total(removes_of(q_before), 0, v);
                        assert(removes_of(q_before)[0] == event.remove@);
                        lemma_lists_total_nonneg(adds_of(events@), v);
                        lemma_lists_total_nonneg(removes_of(events@), v);
                        assert(a1.to_multiset().count(v) as int == if remove_list@.contains(v) {
                            0int
                        } else {
                            a0.to_multiset().count(v) as int
                        });
                        assert(a2.to_multiset().count(v) == a1.to_multiset().count(v)
                            + add_list@.to_multiset().count(v));
                        assert(actives@.to_multiset().count(v) == a2.to_multiset().count(v));
                        assert(a0.to_multiset().count(v) as int == pr_b - pa_b);
                        if event.add@.contains(v) && event.remove@.contains(v) {
                            // The pair cancels: the record retires on the
                            // spot and the row never sees it.
                            assert(ca == 1 && cr == 1 && pa_b == 1 && pr_b == 1);
                            assert(remove_list@.to_multiset().count(v) == 0);
                            assert(!remove_list@.contains(v));
                            assert(add_list@.to_multiset().count(v) == 0);
                        } else if event.remove@.contains(v) {
                            assert(cr == 1 && pr_b == 1);
                            assert(pa_b == 0) by {
                                if pa_b > 0 {
                                    lemma_total_pos_exists(adds_of(q_before), v);
                                    let i2 = choose|i2: int|
                                        0 <= i2 < adds_of(q_before).len() && (#[trigger] adds_of(
                                            q_before,
                                        )[i2]).to_multiset().count(v) > 0;
                                    assert(q_before[i2].add@.to_multiset().count(v) > 0);
                                    q_before[i2].add@.to_multiset_ensures();
                                    assert(q_before[i2].add@.contains(v));
                                    let k2 = choose|k2: int|
                                        0 <= k2 < q_before[i2].add@.len()
                                            && #[trigger] q_before[i2].add@[k2] == v;
                                    assert(q_before[i2].point == seg_lower(
                                        self.geometry@[v as int],
                                    ));
                                    let kr = choose|kr: int|
                                        0 <= kr < event.remove@.len() && #[trigger] event.remove@[kr]
                                            == v;
                                    assert(q_before[0].point == seg_upper(
                                        self.geometry@[v as int],
                                    ));
                                    assert(pt_le(
                                        seg_lower(self.geometry@[v as int]),
                                        seg_upper(self.geometry@[v as int]),
                                    ));
                                    if i2 == 0 {
                                        assert(event.add@.contains(v));
                                    } else {
                                        assert(pt_lt(q_before[0].point, q_before[i2].point));
                                    }
                                }
                            }
                            assert(ca == 0);
                            assert(remove_list@.to_multiset().count(v) == 1);
                            assert(remove_list@.contains(v));
                            assert(add_list@.to_multiset().count(v) == 0);
                        } else if event.add@.contains(v) {
                            assert(ca == 1 && pa_b == 1);
                            assert(cr == 0);
                            assert(remove_list@.to_multiset().count(v) == 0);
                            assert(!remove_list@.contains(v));
                            assert(add_list@.to_multiset().count(v) == 1);
                            assert(pr_b == 1);
                        } else {
                            assert(ca == 0 && cr == 0);
                            assert(remove_list@.to_multiset().count(v) == 0);
                            assert(!remove_list@.contains(v));
                            assert(add_list@.to_multiset().count(v) == 0);
                        }
                    }
            }
            self.events.push(pt);
            let snap = clone_row(&actives);
            self.actives.push(snap);
            proof {
                assert(self.events@ == out_events.push(pt));
                if out_events.len() > 0 {
                    assert(pt_lt(out_events[out_events.len() - 1], pt)) by {
                        assert(pt_lt(out_events[out_events.len() - 1], q_before[0].point));
                    }
                }
                assert forall|a: int, b: int|
                    0 <= a < b < self.events@.len() implies pt_lt(
                    #[trigger] self.events@[a],
                    #[trigger] self.events@[b],
                ) by {
                    if b == self.events@.len() - 1 {
                        assert(self.events@[a] == out_events[a]);
                        if a < out_events.len() - 1 {
                            assert(pt_lt(out_events[a], out_events[out_events.len() - 1]));
                        }
                    } else {
                        assert(self.events@[a] == out_events[a]);
                        assert(self.events@[b] == out_events[b]);
                    }
                }
                assert forall|j: int|
                    0 <= j < self.actives@.len() implies row_indices_valid(
                    (#[trigger] self.actives@[j])@,
                    n as int,
                ) && pt_in_bounds(self.events@[j]) by {
                    if j < out_actives.len() {
                        assert(self.actives@[j] == out_actives[j]);
                        assert(self.events@[j] == out_events[j]);
                    }
                }
                    assert forall|v: usize|
                        (v as int) < n as int && self.geometry@[v as int].kind
                            == crate::geometry::LINE_KIND && #[trigger] lists_total(
                            adds_of(events@),
                            v,
                        ) == 0 implies self.events@.len() > 0 && self.events@.contains(
                        seg_lower(self.geometry@[v as int]),
                    ) && pt_le(
                        seg_lower(self.geometry@[v as int]),
                        self.events@[self.events@.len() - 1],
                    ) by {
                        let ca = event.add@.to_multiset().count(v) as int;
                        lemma_lists_total_nonneg(adds_of(events@), v);
                        if ca > 0 {
                            event.add@.to_multiset_ensures();
                            assert(event.add@.contains(v));
                            let k2 = choose|k2: int|
                                0 <= k2 < event.add@.len() && #[trigger] event.add@[k2] == v;
                            assert(q_before[0].point == seg_lower(self.geometry@[v as int]));
                            assert(self.events@[self.events@.len() - 1] == seg_lower(
                                self.geometry@[v as int],
                            ));
                        } else {
                            assert(lists_total(adds_of(q_before), v) == 0);
                            assert(out_events.len() > 0);
                            assert(out_events.contains(seg_lower(self.geometry@[v as int])));
                            let w = choose|w: int|
                                0 <= w < out_events.len() && #[trigger] out_events[w] == seg_lower(
                                    self.geometry@[v as int],
                                );
                            assert(self.events@[w] == seg_lower(self.geometry@[v as int]));
                            assert(pt_lt(out_events[out_events.len() - 1], pt));
                        }
                    }
                    assert forall|v: usize|
                        (v as int) < n as int && self.geometry@[v as int].kind
                            == crate::geometry::LINE_KIND && #[trigger] lists_total(
                            removes_of(events@),
                            v,
                        ) == 0 implies self.events@.len() > 0 && self.events@.contains(
                        seg_upper(self.geometry@[v as int]),
                    ) && pt_le(
                        seg_upper(self.geometry@[v as int]),
                        self.events@[self.events@.len() - 1],
                    ) by {
                        let cr = event.remove@.to_multiset().count(v) as int;
                        lemma_lists_total_nonneg(removes_of(events@), v);
                        if cr > 0 {
                            event.remove@.to_multiset_ensures();
                            assert(event.remove@.contains(v));
                            let k2 = choose|k2: int|
                                0 <= k2 < event.remove@.len() && #[trigger] event.remove@[k2] == v;
                            assert(q_before[0].point == seg_upper(self.geometry@[v as int]));
                            assert(self.events@[self.events@.len() - 1] == seg_upper(
                                self.geometry@[v as int],
                            ));
                        } else {
                            assert(lists_total(removes_of(q_before), v) == 0);
                            assert(out_events.len() > 0);
                            assert(out_events.contains(seg_upper(self.geometry@[v as int])));
                            let w = choose|w: int|
                                0 <= w < out_events.len() && #[trigger] out_events[w] == seg_upper(
                                    self.geometry@[v as int],
                                );
                            assert(self.events@[w] == seg_upper(self.geometry@[v as int]));
                            assert(pt_lt(out_events[out_events.len() - 1], pt));
                        }
                    }
                    assert forall|v: usize|
                        (v as int) < n as int implies (#[trigger] actives@.to_multiset().count(
                        v,
                    )) as int == (if self.geometry@[v as int].kind == crate::geometry::LINE_KIND
                        && pt_le(seg_lower(self.geometry@[v as int]), pt) && pt_lt(
                        pt,
                        seg_upper(self.geometry@[v as int]),
                    ) {
                        1int
                    } else {
                        0int
                    }) by {
                        lemma_lists_total_nonneg(adds_of(events@), v);
                        lemma_lists_total_nonneg(removes_of(events@), v);
                        lemma_new_row_membership(self.geometry@, events@, actives@, pt, v);
                    }
                    lemma_rows_membership_push(
                        self.geometry@,
                        out_events,
                        out_actives,
                        self.events@,
                        self.actives@,
                        actives@,
                        pt,
                    );
                    assert forall|j2: int, k2: int|
                        0 <= j2 < self.actives@.len() && 0 <= k2
                            < self.actives@[j2]@.len() implies {
                        let v = #[trigger] self.actives@[j2]@[k2];
                        &&& pt_le(seg_lower(self.geometry@[v as int]), self.events@[j2])
                        &&& (j2 < self.actives@.len() - 1 ==> pt_le(
                            self.events@[j2 + 1],
                            seg_upper(self.geometry@[v as int]),
                        ))
                    } by {
                        let v = self.actives@[j2]@[k2];
                        if j2 < out_actives.len() - 1 {
                            assert(self.actives@[j2] == out_actives[j2]);
                            assert(self.events@[j2] == out_events[j2]);
                            assert(self.events@[j2 + 1] == out_events[j2 + 1]);
                        } else if j2 == out_actives.len() - 1 && out_actives.len() > 0 {
                            assert(self.actives@[j2] == out_actives[j2]);
                            assert(self.events@[j2] == out_events[j2]);
                            assert(out_actives[j2]@ == a0);
                            assert(a0[k2] == v);
                            assert(pt_le(pt, seg_upper(self.geometry@[v as int])));
                            assert(self.events@[j2 + 1] == pt);
                        } else {
                            assert(j2 == out_actives.len());
                            assert(self.actives@[j2]@ == actives@);
                            assert(actives@[k2] == v);
                            actives@.to_multiset_ensures();
                            assert(actives@.contains(v));
                            assert(actives@.to_multiset().count(v) > 0);
                            assert(v < n);
                            lemma_lists_total_nonneg(adds_of(events@), v);
                            lemma_lists_total_nonneg(removes_of(events@), v);
                            assert(self.geometry@[v as int].kind == crate::geometry::LINE_KIND);
                            assert(lists_total(adds_of(events@), v) == 0);
                            assert(pt_le(seg_lower(self.geometry@[v as int]), pt));
                            assert(self.events@[j2] == pt);
                        }
                    }
            }
        }
        proof {
            {
                assert forall|v: usize| actives@.to_multiset().count(v) == 0 by {
                    if (v as int) < n as int {
                        assert(adds_of(events@).len() == 0);
                        assert(removes_of(events@).len() == 0);
                        assert(lists_total(adds_of(events@), v) == 0);
                        assert(lists_total(removes_of(events@), v) == 0);
                        assert(actives@.to_multiset().count(v) as int == 0);
                    } else {
                        actives@.to_multiset_ensures();
                        assert(!actives@.contains(v)) by {
                            if actives@.contains(v) {
                                let idx = choose|idx: int|
                                    0 <= idx < actives@.len() && #[trigger] actives@[idx] == v;
                                assert(actives@[idx] < n);
                            }
                        }
                    }
                }
                actives@.to_multiset_ensures();
                assert(actives@.to_multiset() =~= Multiset::<usize>::empty());
                assert(actives@.len() == 0);
            }
            assert forall|v: usize|
                (v as int) < n as int && self.geometry@[v as int].kind
                    == crate::geometry::LINE_KIND implies self.events@.contains(
                seg_lower(self.geometry@[v as int]),
            ) && self.events@.contains(seg_upper(self.geometry@[v as int])) by {
                assert(adds_of(events@).len() == 0);
                assert(removes_of(events@).len() == 0);
                assert(lists_total(adds_of(events@), v) == 0);
                assert(lists_total(removes_of(events@), v) == 0);
            }
            assert forall|j: int|
                0 <= j < self.actives@.len() implies (#[trigger] self.actives@[j])@.no_duplicates()
                 by {
                let row = self.actives@[j]@;
                assert forall|x: usize|
                    row.to_multiset().contains(x) implies row.to_multiset().count(x) == 1 by {
                    row.to_multiset_ensures();
                    assert(row.contains(x));
                    let k = choose|k: int| 0 <= k < row.len() && #[trigger] row[k] == x;
                    assert(row_indices_valid(row, n as int));
                    assert(x < n);
                    assert((self.actives@[j]@.to_multiset().count(x)) as int <= 1);
                }
                row.lemma_multiset_has_no_duplicates_conv();
            }
        }
        self.built = BuiltFlag::done();
    }

    /// Retire each listed segment from the active row (skipping one that is
    /// not active), testing the neighbours a removal newly joins.
    fn apply_removes(
        &mut self,
        events: &mut Vec<Event>,
        actives: &mut Vec<usize>,
        checked_swaps: &mut Vec<(usize, usize)>,
        list: &Vec<usize>,
        pt: &Point,
    )
        requires
            geo_in_bounds(old(self).geometry@),
            old(self).geometry@.len() <= 0x4000,
            row_indices_valid(list@, old(self).geometry@.len() as int),
            row_indices_valid(old(actives)@, old(self).geometry@.len() as int),
            evq_sorted(old(events)@),
            queue_lists_valid(old(events)@, old(self).geometry@.len() as int),
            queue_pts_in_bounds(old(events)@),
            queue_after(old(events)@, *pt),
            pt_in_bounds(*pt),
            old(checked_swaps)@.no_duplicates(),
            pairs_in_range(old(checked_swaps)@, old(self).geometry@.len() as int),
            old(checked_swaps)@.len() <= old(self).geometry@.len() * old(self).geometry@.len(),
            old(checked_swaps)@.len() <= 0x1000_0000,
            old(events)@.len() <= 2 * old(self).geometry@.len() + 2 * old(checked_swaps)@.len(),
        ensures
            final(self).geometry@ == old(self).geometry@,
            final(self).events@ == old(self).events@,
            final(self).actives@ == old(self).actives@,
            final(self).built.is_set() == old(self).built.is_set(),
            row_indices_valid(final(actives)@, old(self).geometry@.len() as int),
            evq_sorted(final(events)@),
            queue_lists_valid(final(events)@, old(self).geometry@.len() as int),
            queue_pts_in_bounds(final(events)@),
            queue_after(final(events)@, *pt),
            final(checked_swaps)@.no_duplicates(),
            pairs_in_range(final(checked_swaps)@, old(self).geometry@.len() as int),
            final(checked_swaps)@.len() <= old(self).geometry@.len() * old(self).geometry@.len(),
            final(checked_swaps)@.len() <= 0x1000_0000,
            final(events)@.len() + 2 * old(checked_swaps)@.len() <= old(events)@.len() + 2
                * final(checked_swaps)@.len(),
            final(events)@.len() <= 2 * old(self).geometry@.len() + 2 * final(
                checked_swaps)@.len(),
            all_crossings_recorded(old(self).intersections@, old(self).geometry@)
                ==> all_crossings_recorded(final(self).intersections@, old(self).geometry@),
            forall|v: usize| #[trigger] lists_total(adds_of(final(events)@), v) == lists_total(
                adds_of(old(events)@),
                v,
            ),
            forall|v: usize| #[trigger] lists_total(removes_of(final(events)@), v) == lists_total(
                removes_of(old(events)@),
                v,
            ),
            seeded_lists_placed(old(events)@, old(self).geometry@) ==> seeded_lists_placed(
                final(events)@,
                old(self).geometry@,
            ),
            (list@.no_duplicates() && (forall|v: usize| list@.contains(v) ==> old(
                actives,
            )@.to_multiset().count(v) <= 1)) ==> forall|v: usize|
                #[trigger] final(actives)@.to_multiset().count(v) as int == if list@.contains(v) {
                    0int
                } else {
                    old(actives)@.to_multiset().count(v) as int
                },
    {
        let ghost n = self.geometry@.len() as int;
        let ghost ev0 = events@.len() as int;
        let ghost ch0 = checked_swaps@.len() as int;
        let mut w: usize = 0;
        while w < list.len()
            invariant
                geo_in_bounds(self.geometry@),
                self.geometry@ == old(self).geometry@,
                self.events@ == old(self).events@,
                self.actives@ == old(self).actives@,
                self.built.is_set() == old(self).built.is_set(),
                n == self.geometry@.len() as int,
                n <= 0x4000,
                ev0 == old(events)@.len() as int,
                ch0 == old(checked_swaps)@.len() as int,
                w <= list@.len(),
                row_indices_valid(list@, n),
                row_indices_valid(actives@, n),
                evq_sorted(events@),
                queue_lists_valid(events@, n),
                queue_pts_in_bounds(events@),
                queue_after(events@, *pt),
                pt_in_bounds(*pt),
                checked_swaps@.no_duplicates(),
                pairs_in_range(checked_swaps@, n),
                checked_swaps@.len() <= n * n,
                checked_swaps@.len() <= 0x1000_0000,
                events@.len() + 2 * ch0 <= ev0 + 2 * checked_swaps@.len(),
                events@.len() <= 2 * n + 2 * checked_swaps@.len(),
                all_crossings_recorded(old(self).intersections@, old(self).geometry@)
                    ==> all_crossings_recorded(self.intersections@, old(self).geometry@),
                forall|v: usize| #[trigger] lists_total(adds_of(events@), v) == lists_total(
                    adds_of(old(events)@),
                    v,
                ),
                forall|v: usize| #[trigger] lists_total(removes_of(events@), v) == lists_total(
                    removes_of(old(events)@),
                    v,
                ),
                seeded_lists_placed(old(events)@, old(self).geometry@) ==> seeded_lists_placed(
                    events@,
                    old(self).geometry@,
                ),
                (list@.no_duplicates() && (forall|v: usize| list@.contains(v) ==> old(
                    actives,
                )@.to_multiset().count(v) <= 1)) ==> forall|v: usize|
                    #[trigger] actives@.to_multiset().count(v) as int == if list@.take(
                        w as int,
                    ).contains(v) {
                        0int
                    } else {
                        old(actives)@.to_multiset().count(v) as int
                    },
            decreases list@.len() - w,
        {
            let rm = list[w];
            let ghost cleared = list@.no_duplicates() && (forall|v: usize| list@.contains(v)
                ==> old(actives)@.to_multiset().count(v) <= 1);
            let ghost a0 = actives@;
            match find_index(actives, rm) {
                None => {
                    proof {
                        a0.to_multiset_ensures();
                        assert(!a0.contains(rm));
                        assert(a0.to_multiset().count(rm) == 0);
                        if cleared {
                            assert forall|v: usize|
                                #[trigger] actives@.to_multiset().count(v) as int == (if list@.take(
                                w as int + 1,
                            ).contains(v) {
                                0int
                            } else {
                                old(actives)@.to_multiset().count(v) as int
                            }) by {
                                lemma_take_step_contains(list@, w as int, v);
                            }
                        }
                    }
                },
                Some(rp) => {
                    proof {
                        lemma_row_remove(actives@, rp as int, n);
                        a0.to_multiset_ensures();
                        assert(a0[rp as int] == rm);
                        assert(a0.contains(rm));
                        assert(a0.to_multiset().count(rm) > 0);
                    }
                    actives.remove(rp);
                    proof {
                        assert(actives@.to_multiset() =~= a0.to_multiset().remove(rm));
                        if cleared {
                            assert(list@.contains(rm)) by {
                                assert(list@[w as int] == rm);
                            }
                            assert(!list@.take(w as int).contains(rm)) by {
                                if list@.take(w as int).contains(rm) {
                                    let idx = choose|idx: int|
                                        0 <= idx < w as int && #[trigger] list@.take(
                                            w as int,
                                        )[idx] == rm;
                                    assert(list@[idx] == list@[w as int]);
                                }
                            }
                            assert(a0.to_multiset().count(rm) == 1);
                            assert forall|v: usize|
                                #[trigger] actives@.to_multiset().count(v) as int == (if list@.take(
                                w as int + 1,
                            ).contains(v) {
                                0int
                            } else {
                                old(actives)@.to_multiset().count(v) as int
                            }) by {
                                lemma_take_step_contains(list@, w as int, v);
                            }
                        }
                    }
                    if 0 < rp && rp < actives.len() {
                        self.check_intersections(events, actives, checked_swaps, rp - 1, rp, pt);
                    }
                },
            }
            w = w + 1;
        }
        proof {
            assert(list@.take(list@.len() as int) =~= list@);
        }
    }

    /// Insert each listed segment into the active row at its comparator
    /// position, testing the neighbour pairs the insertion creates.
    fn apply_adds(
        &mut self,
        events: &mut Vec<Event>,
        actives: &mut Vec<usize>,
        checked_swaps: &mut Vec<(usize, usize)>,
        list: &Vec<usize>,
        pt: &Point,
    )
        requires
            geo_in_bounds(old(self).geometry@),
            old(self).geometry@.len() <= 0x4000,
            row_indices_valid(list@, old(self).geometry@.len() as int),
            row_indices_valid(old(actives)@, old(self).geometry@.len() as int),
            evq_sorted(old(events)@),
            queue_lists_valid(old(events)@, old(self).geometry@.len() as int),
            queue_pts_in_bounds(old(events)@),
            queue_after(old(events)@, *pt),
            pt_in_bounds(*pt),
            old(checked_swaps)@.no_duplicates(),
            pairs_in_range(old(checked_swaps)@, old(self).geometry@.len() as int),
            old(checked_swaps)@.len() <= old(self).geometry@.len() * old(self).geometry@.len(),
            old(checked_swaps)@.len() <= 0x1000_0000,
            old(events)@.len() <= 2 * old(self).geometry@.len() + 2 * old(checked_swaps)@.len(),
        ensures
            final(self).geometry@ == old(self).geometry@,
            final(self).events@ == old(self).events@,
            final(self).actives@ == old(self).actives@,
            final(self).built.is_set() == old(self).built.is_set(),
            row_indices_valid(final(actives)@, old(self).geometry@.len() as int),
            evq_sorted(final(events)@),
            queue_lists_valid(final(events)@, old(self).geometry@.len() as int),
            queue_pts_in_bounds(final(events)@),
            queue_after(final(events)@, *pt),
            final(checked_swaps)@.no_duplicates(),
            pairs_in_range(final(checked_swaps)@, old(self).geometry@.len() as int),
            final(checked_swaps)@.len() <= old(self).geometry@.len() * old(self).geometry@.len(),
            final(checked_swaps)@.len() <= 0x1000_0000,
            final(events)@.len() + 2 * old(checked_swaps)@.len() <= old(events)@.len() + 2
                * final(checked_swaps)@.len(),
            final(events)@.len() <= 2 * old(self).geometry@.len() + 2 * final(
                checked_swaps)@.len(),
            all_crossings_recorded(old(self).intersections@, old(self).geometry@)
                ==> all_crossings_recorded(final(self).intersections@, old(self).geometry@),
            forall|v: usize| #[trigger] lists_total(adds_of(final(events)@), v) == lists_total(
                adds_of(old(events)@),
                v,
            ),
            forall|v: usize| #[trigger] lists_total(removes_of(final(events)@), v) == lists_total(
                removes_of(old(events)@),
                v,
            ),
            seeded_lists_placed(old(events)@, old(self).geometry@) ==> seeded_lists_placed(
                final(events)@,
                old(self).geometry@,
            ),
            final(actives)@.to_multiset() == old(actives)@.to_multiset().add(
                list@.to_multiset(),
            ),
    {
        let ghost n = self.geometry@.len() as int;
        let ghost ev0 = events@.len() as int;
        let ghost ch0 = checked_swaps@.len() as int;
        proof {
            assert(list@.take(0).to_multiset() =~= Multiset::<usize>::empty()) by {
                list@.take(0).to_multiset_ensures();
                assert forall|v: usize|
                    list@.take(0).to_multiset().count(v) == 0 by {
                    assert(!list@.take(0).contains(v));
                }
            }
            assert(actives@.to_multiset() =~= actives@.to_multiset().add(
                list@.take(0).to_multiset(),
            ));
        }
        let mut w: usize = 0;
        while w < list.len()
            invariant
                geo_in_bounds(self.geometry@),
                self.geometry@ == old(self).geometry@,
                self.events@ == old(self).events@,
                self.actives@ == old(self).actives@,
                self.built.is_set() == old(self).built.is_set(),
                n == self.geometry@.len() as int,
                n <= 0x4000,
                ev0 == old(events)@.len() as int,
                ch0 == old(checked_swaps)@.len() as int,
                w <= list@.len(),
                row_indices_valid(list@, n),
                row_indices_valid(actives@, n),
                evq_sorted(events@),
                queue_lists_valid(events@, n),
                queue_pts_in_bounds(events@),
                queue_after(events@, *pt),
                pt_in_bounds(*pt),
                checked_swaps@.no_duplicates(),
                pairs_in_range(checked_swaps@, n),
                checked_swaps@.len() <= n * n,
                checked_swaps@.len() <= 0x1000_0000,
                events@.len() + 2 * ch0 <= ev0 + 2 * checked_swaps@.len(),
                events@.len() <= 2 * n + 2 * checked_swaps@.len(),
                all_crossings_recorded(old(self).intersections@, old(self).geometry@)
                    ==> all_crossings_recorded(self.intersections@, old(self).geometry@),
                forall|v: usize| #[trigger] lists_total(adds_of(events@), v) == lists_total(
                    adds_of(old(events)@),
                    v,
                ),
                forall|v: usize| #[trigger] lists_total(removes_of(events@), v) == lists_total(
                    removes_of(old(events)@),
                    v,
                ),
                seeded_lists_placed(old(events)@, old(self).geometry@) ==> seeded_lists_placed(
                    events@,
                    old(self).geometry@,
                ),
                actives@.to_multiset() == old(actives)@.to_multiset().add(
                    list@.take(w as int).to_multiset(),
                ),
            decreases list@.len() - w,
        {
            let ad = list[w];
            proof {
                assert(list@[w as int] < n);
                lemma_row_insert(actives@, 0, ad, n);
            }
            let ip = self.bisect_yints(actives, ad, pt);
            let ghost a1 = actives@;
            proof {
                lemma_row_insert(actives@, ip as int, ad, n);
                lemma_insert_row_multiset(a1, ip as int, ad);
            }
            actives.insert(ip, ad);
            proof {
                assert(list@.take(w as int + 1) =~= list@.take(w as int).push(ad));
                list@.take(w as int).to_multiset_ensures();
                assert(list@.take(w as int + 1).to_multiset() =~= list@.take(
                    w as int,
                ).to_multiset().insert(ad));
                assert(actives@.to_multiset() =~= old(actives)@.to_multiset().add(
                    list@.take(w as int + 1).to_multiset(),
                ));
            }
            if ip > 0 {
                self.check_intersections(events, actives, checked_swaps, ip - 1, ip, pt);
            }
            if ip < actives.len() - 1 {
                self.check_intersections(events, actives, checked_swaps, ip, ip + 1, pt);
            }
            w = w + 1;
        }
        proof {
            assert(list@.take(list@.len() as int) =~= list@);
        }
    }

    /// Re-seat each listed segment that is still active: remove it, test
    /// the neighbours that meet, insert it back at the comparator position
    /// for the new scanline, and test its new neighbours.
    fn apply_updates(
        &mut self,
        events: &mut Vec<Event>,
        actives: &mut Vec<usize>,
        checked_swaps: &mut Vec<(usize, usize)>,
        list: &Vec<usize>,
        pt: &Point,
    )
        requires
            geo_in_bounds(old(self).geometry@),
            old(self).geometry@.len() <= 0x4000,
            row_indices_valid(list@, old(self).geometry@.len() as int),
            row_indices_valid(old(actives)@, old(self).geometry@.len() as int),
            evq_sorted(old(events)@),
            queue_lists_valid(old(events)@, old(self).geometry@.len() as int),
            queue_pts_in_bounds(old(events)@),
            queue_after(old(events)@, *pt),
            pt_in_bounds(*pt),
            old(checked_swaps)@.no_duplicates(),
            pairs_in_range(old(checked_swaps)@, old(self).geometry@.len() as int),
            old(checked_swaps)@.len() <= old(self).geometry@.len() * old(self).geometry@.len(),
            old(checked_swaps)@.len() <= 0x1000_0000,
            old(events)@.len() <= 2 * old(self).geometry@.len() + 2 * old(checked_swaps)@.len(),
        ensures
            final(self).geometry@ == old(self).geometry@,
            final(self).events@ == old(self).events@,
            final(self).actives@ == old(self).actives@,
            final(self).built.is_set() == old(self).built.is_set(),
            row_indices_valid(final(actives)@, old(self).geometry@.len() as int),
            evq_sorted(final(events)@),
            queue_lists_valid(final(events)@, old(self).geometry@.len() as int),
            queue_pts_in_bounds(final(events)@),
            queue_after(final(events)@, *pt),
            final(checked_swaps)@.no_duplicates(),
            pairs_in_range(final(checked_swaps)@, old(self).geometry@.len() as int),
            final(checked_swaps)@.len() <= old(self).geometry@.len() * old(self).geometry@.len(),
            final(checked_swaps)@.len() <= 0x1000_0000,
            final(events)@.len() + 2 * old(checked_swaps)@.len() <= old(events)@.len() + 2
                * final(checked_swaps)@.len(),
            final(events)@.len() <= 2 * old(self).geometry@.len() + 2 * final(
                checked_swaps)@.len(),
            all_crossings_recorded(old(self).intersections@, old(self).geometry@)
                ==> all_crossings_recorded(final(self).intersections@, old(self).geometry@),
            forall|v: usize| #[trigger] lists_total(adds_of(final(events)@), v) == lists_total(
                adds_of(old(events)@),
                v,
            ),
            forall|v: usize| #[trigger] lists_total(removes_of(final(events)@), v) == lists_total(
                removes_of(old(events)@),
                v,
            ),
            seeded_lists_placed(old(events)@, old(self).geometry@) ==> seeded_lists_placed(
                final(events)@,
                old(self).geometry@,
            ),
            final(actives)@.to_multiset() == old(actives)@.to_multiset(),
    {
        let ghost n = self.geometry@.len() as int;
        let ghost ev0 = events@.len() as int;
        let ghost ch0 = checked_swaps@.len() as int;
        let mut w: usize = 0;
        while w < list.len()
            invariant
                geo_in_bounds(self.geometry@),
                self.geometry@ == old(self).geometry@,
                self.events@ == old(self).events@,
                self.actives@ == old(self).actives@,
                self.built.is_set() == old(self).built.is_set(),
                n == self.geometry@.len() as int,
                n <= 0x4000,
                ev0 == old(events)@.len() as int,
                ch0 == old(checked_swaps)@.len() as int,
                w <= list@.len(),
                row_indices_valid(list@, n),
                row_indices_valid(actives@, n),
                evq_sorted(events@),
                queue_lists_valid(events@, n),
                queue_pts_in_bounds(events@),
                queue_after(events@, *pt),
                pt_in_bounds(*pt),
                checked_swaps@.no_duplicates(),
                pairs_in_range(checked_swaps@, n),
                checked_swaps@.len() <= n * n,
                checked_swaps@.len() <= 0x1000_0000,
                events@.len() + 2 * ch0 <= ev0 + 2 * checked_swaps@.len(),
                events@.len() <= 2 * n + 2 * checked_swaps@.len(),
                all_crossings_recorded(old(self).intersections@, old(self).geometry@)
                    ==> all_crossings_recorded(self.intersections@, old(self).geometry@),
                forall|v: usize| #[trigger] lists_total(adds_of(events@), v) == lists_total(
                    adds_of(old(events)@),
                    v,
                ),
                forall|v: usize| #[trigger] lists_total(removes_of(events@), v) == lists_total(
                    removes_of(old(events)@),
                    v,
                ),
                seeded_lists_placed(old(events)@, old(self).geometry@) ==> seeded_lists_placed(
                    events@,
                    old(self).geometry@,
                ),
                actives@.to_multiset() == old(actives)@.to_multiset(),
            decreases list@.len() - w,
        {
            let ud = list[w];
            match find_index(actives, ud) {
                None => {},
                Some(rp) => {
                    let ghost a0 = actives@;
                    proof {
                        lemma_row_remove(actives@, rp as int, n);
                        a0.to_multiset_ensures();
                        assert(a0[rp as int] == ud);
                    }
                    actives.remove(rp);
                    proof {
                        assert(actives@.to_multiset() =~= a0.to_multiset().remove(ud));
                    }
                    if 0 < rp && rp < actives.len() {
                        self.check_intersections(events, actives, checked_swaps, rp - 1, rp, pt);
                    }
                    proof {
                        assert(list@[w as int] < n);
                    }
                    let ip = self.bisect_yints(actives, ud, pt);
                    let ghost a1 = actives@;
                    proof {
                        lemma_row_insert(actives@, ip as int, ud, n);
                        lemma_insert_row_multiset(a1, ip as int, ud);
                    }
                    actives.insert(ip, ud);
                    proof {
                        assert(a0.contains(ud)) by {
                            assert(a0[rp as int] == ud);
                        }
                        assert(a0.to_multiset().count(ud) > 0);
                        assert(actives@.to_multiset() =~= a0.to_multiset());
                    }
                    if ip > 0 {
                        self.check_intersections(events, actives, checked_swaps, ip - 1, ip, pt);
                    }
                    if ip < actives.len() - 1 {
                        self.check_intersections(events, actives, checked_swaps, ip, ip + 1, pt);
                    }
                },
            }
            w = w + 1;
        }
    }

    /// The active row in force at `(x, y)`: the row of the beam containing
    /// that column, the last (empty) row for a query before the first
    /// event. Meaningful only on a built, non-empty table.
    pub fn actives_at(&self, x: i64, y: i64) -> (r: &Vec<usize>)
        requires
            self.wf(),
            self.actives@.len() > 0,
        ensures
            ({
                let bi = beam_index(self.events@, Point { x, y });
                r == &(if bi == -1 {
                    self.actives@[self.actives@.len() - 1]
                } else {
                    self.actives@[bi]
                })
            }),
    {
        let p = Point { x, y };
        let mut lo: usize = 0;
        let mut hi: usize = self.events.len();
        while lo < hi
            invariant
                self.wf(),
                p == (Point { x, y }),
                0 <= lo <= hi <= self.events@.len(),
                forall|i: int| 0 <= i < lo as int ==> pt_lt(#[trigger] self.events@[i], p),
                forall|i: int| hi as int <= i < self.events@.len() ==> pt_lt(
                    p,
                    #[trigger] self.events@[i],
                ),
            decreases hi - lo,
        {
            let mid: usize = lo + (hi - lo) / 2;
            let q: &Point = &self.events[mid];
            if q.lt(&p) {
                lo = mid + 1;
            } else if p.lt(q) {
                hi = mid;
            } else {
                proof {
                    lemma_beam_index_found(self.events@, p, mid as int);
                }
                return &self.actives[mid];
            }
        }
        proof {
            lemma_beam_index_between(self.events@, p, lo as int);
        }
        if lo == 0 {
            &self.actives[self.actives.len() - 1]
        } else {
            &self.actives[lo - 1]
        }
    }

    /// Even-odd fill ignoring labels: the state toggles at every active
    /// record, so entry `k` of each row is simply whether `k` is odd.
    pub fn even_odd_ignoring_origin(&self) -> (r: BoolOp)
        requires
            self.wf(),
        ensures
            r@.len() == self.actives@.len(),
            forall|j: int| 0 <= j < r@.len() ==> #[trigger] r@[j] == Seq::new(
                self.actives@[j]@.len() + 1,
                |k: int| k % 2 == 1,
            ),
    {
        let mut spacemask: Vec<Vec<bool>> = Vec::new();
        let mut j: usize = 0;
        while j < self.actives.len()
            invariant
                j <= self.actives@.len(),
                spacemask@.len() == j as int,
                forall|jj: int| 0 <= jj < j as int ==> #[trigger] spacemask@[jj]@ == Seq::new(
                    self.actives@[jj]@.len() + 1,
                    |k: int| k % 2 == 1,
                ),
            decreases self.actives@.len() - j,
        {
            let active: &Vec<usize> = &self.actives[j];
            let mut active_mask: Vec<bool> = Vec::new();
            let mut inside: bool = false;
            active_mask.push(inside);
            let mut k: usize = 0;
            while k < active.len()
                invariant
                    k <= active@.len(),
                    inside == (k as int % 2 == 1),
                    active_mask@.len() == k as int + 1,
                    forall|kk: int| 0 <= kk <= k as int ==> #[trigger] active_mask@[kk] == (kk % 2
                        == 1),
                decreases active@.len() - k,
            {
                inside = !inside;
                active_mask.push(inside);
                k = k + 1;
            }
            proof {
                assert(active_mask@ =~= Seq::new(
                    self.actives@[j as int]@.len() + 1,
                    |k: int| k % 2 == 1,
                ));
            }
            spacemask.push(active_mask);
            j = j + 1;
        }
        proof {
            assert forall|jj: int| 0 <= jj < spacemask@.len() implies #[trigger] mask_view(
                BoolOp { inside: spacemask },
            )[jj] == Seq::new(self.actives@[jj]@.len() + 1, |k: int| k % 2 == 1) by {
                assert(spacemask@[jj]@ == Seq::new(self.actives@[jj]@.len() + 1, |k: int| k % 2 == 1));
            }
        }
        BoolOp { inside: spacemask }
    }
}

} // verus!
