//! Geometry store: points, labeled line segments, and the exact primitives
//! the sweep is built on (slope comparison, segment intersection,
//! y-intercepts, interpolation).

use vstd::prelude::*;

verus! {

use vstd::multiset::Multiset;

use crate::num::absi;
use crate::num::cdiv;
use crate::num::ceil_div_i128;
use crate::num::lemma_cdiv_range;
use crate::num::lemma_mul_bound;
use crate::num::lemma_rdiv_abs_le;
use crate::num::lemma_rdiv_range;
use crate::num::rdiv;
use crate::num::rdiv_s;
use crate::num::round_div_i128;
use crate::num::sgn;

/// Largest coordinate magnitude the sweep primitives accept. Keeping input
/// coordinates within this bound makes every intermediate product of the
/// exact intersection and intercept arithmetic fit comfortably in `i128`.
pub const COORD_LIMIT: i64 = 1048576;

/// Tag stored in a record's meta slot that marks it as a line segment.
/// Records with any other tag are ignored by the sweep.
pub const LINE_KIND: i64 = 41;

/// A point on the integer grid.
#[derive(Clone, Copy, PartialEq, Eq, Structural, Debug)]
pub struct Point {
    pub x: i64,
    pub y: i64,
}

/// Lexicographic order on points: by `x`, ties by `y`.
pub open spec fn pt_lt(a: Point, b: Point) -> bool {
    a.x < b.x || (a.x == b.x && a.y < b.y)
}

/// Non-strict lexicographic order on points.
pub open spec fn pt_le(a: Point, b: Point) -> bool {
    pt_lt(a, b) || a == b
}

/// Both coordinates within `COORD_LIMIT`.
pub open spec fn pt_in_bounds(p: Point) -> bool {
    -COORD_LIMIT <= p.x <= COORD_LIMIT && -COORD_LIMIT <= p.y <= COORD_LIMIT
}

impl Point {
    pub fn new(x: i64, y: i64) -> (r: Point)
        ensures
            r.x == x && r.y == y,
    {
        Point { x, y }
    }

    /// Strict lexicographic comparison.
    pub fn lt(&self, other: &Point) -> (r: bool)
        ensures
            r == pt_lt(*self, *other),
    {
        self.x < other.x || (self.x == other.x && self.y < other.y)
    }

    /// Non-strict lexicographic comparison.
    pub fn le(&self, other: &Point) -> (r: bool)
        ensures
            r == pt_le(*self, *other),
    {
        self.x < other.x || (self.x == other.x && self.y <= other.y)
    }
}

/// One record of the geometry store: a fixed-shape 5-slot segment. `p0` and
/// `p1` are the endpoints; `c1` and `c2` are reserved control slots (zero
/// for lines); `kind` tags the record (only `LINE_KIND` takes part in the
/// sweep) and `label` is the tag the mask constructors group by.
#[derive(Clone, Copy, PartialEq, Eq, Structural, Debug)]
pub struct Segment {
    pub p0: Point,
    pub c1: Point,
    pub kind: i64,
    pub label: i64,
    pub c2: Point,
    pub p1: Point,
}

/// Both endpoints of the record within `COORD_LIMIT`.
pub open spec fn seg_in_bounds(s: Segment) -> bool {
    pt_in_bounds(s.p0) && pt_in_bounds(s.p1)
}

/// The record a call to `line` appends.
pub open spec fn line_record(p0: Point, p1: Point, label: i64) -> Segment {
    Segment {
        p0,
        c1: Point { x: 0, y: 0 },
        kind: LINE_KIND,
        label,
        c2: Point { x: 0, y: 0 },
        p1,
    }
}

/// A segment's slope, exact: `Vertical` for a zero run, otherwise the
/// unreduced ratio `rise / run`. For ordering purposes a vertical slope is
/// the steepest, sorting above every finite ratio.
#[derive(Clone, Copy, PartialEq, Eq, Structural, Debug)]
pub enum Slope {
    Vertical,
    Ratio { rise: i64, run: i64 },
}

/// Rise of a record: `p0.y - p1.y`.
pub open spec fn seg_rise(s: Segment) -> int {
    s.p0.y - s.p1.y
}

/// Run of a record: `p0.x - p1.x`.
pub open spec fn seg_run(s: Segment) -> int {
    s.p0.x - s.p1.x
}

/// The exact slope of a record.
pub open spec fn slope_of(s: Segment) -> Slope {
    if seg_run(s) == 0 {
        Slope::Vertical
    } else {
        Slope::Ratio { rise: seg_rise(s) as i64, run: seg_run(s) as i64 }
    }
}

/// Strict order on slopes by value, a vertical slope greatest. For finite
/// ratios `r1/u1 < r2/u2` is decided by cross-multiplication, with the
/// comparison flipped when the runs have opposite signs.
pub open spec fn slope_lt(a: Slope, b: Slope) -> bool {
    match (a, b) {
        (Slope::Vertical, _) => false,
        (Slope::Ratio { .. }, Slope::Vertical) => true,
        (Slope::Ratio { rise: r1, run: u1 }, Slope::Ratio { rise: r2, run: u2 }) => if u1 * u2
            > 0 {
            r1 * u2 < r2 * u1
        } else {
            r1 * u2 > r2 * u1
        },
    }
}

/// Strict slope comparison, executable.
pub fn slope_less(a: &Slope, b: &Slope) -> (r: bool)
    ensures
        r == slope_lt(*a, *b),
{
    match (a, b) {
        (Slope::Vertical, _) => false,
        (Slope::Ratio { .. }, Slope::Vertical) => true,
        (Slope::Ratio { rise: r1, run: u1 }, Slope::Ratio { rise: r2, run: u2 }) => {
            proof {
                lemma_mul_bound(*u1 as int, *u2 as int, 0x8000_0000_0000_0000, 0x8000_0000_0000_0000);
                lemma_mul_bound(*r1 as int, *u2 as int, 0x8000_0000_0000_0000, 0x8000_0000_0000_0000);
                lemma_mul_bound(*r2 as int, *u1 as int, 0x8000_0000_0000_0000, 0x8000_0000_0000_0000);
            }
            let uu: i128 = (*u1 as i128) * (*u2 as i128);
            let cross1: i128 = (*r1 as i128) * (*u2 as i128);
            let cross2: i128 = (*r2 as i128) * (*u1 as i128);
            if uu > 0 {
                cross1 < cross2
            } else {
                cross1 > cross2
            }
        },
    }
}

/// An exact parameter value in `[0, 1]`: the fraction `num / den`.
#[derive(Clone, Copy, PartialEq, Eq, Structural, Debug)]
pub struct Frac {
    pub num: i64,
    pub den: i64,
}

/// A well-formed parameter fraction: a positive denominator and a value
/// between zero and one.
pub open spec fn frac_valid(f: Frac) -> bool {
    0 < f.den && 0 <= f.num <= f.den
}

/// Denominator of the 2x2 system intersecting records `s0` and `s1`; zero
/// exactly when the carrying lines are parallel or coincident.
pub open spec fn isect_denom(s0: Segment, s1: Segment) -> int {
    (s1.p1.y - s1.p0.y) * (s0.p1.x - s0.p0.x) - (s1.p1.x - s1.p0.x) * (s0.p1.y - s0.p0.y)
}

/// Numerator of the parameter along `s0` at which the carrying lines meet.
pub open spec fn isect_num1(s0: Segment, s1: Segment) -> int {
    (s1.p1.x - s1.p0.x) * (s0.p0.y - s1.p0.y) - (s1.p1.y - s1.p0.y) * (s0.p0.x - s1.p0.x)
}

/// Numerator of the parameter along `s1` at which the carrying lines meet.
pub open spec fn isect_num2(s0: Segment, s1: Segment) -> int {
    (s0.p1.x - s0.p0.x) * (s0.p0.y - s1.p0.y) - (s0.p1.y - s0.p0.y) * (s0.p0.x - s1.p0.x)
}

/// The point at parameter `t` along `s`, each coordinate rounded to the
/// nearest grid point.
pub open spec fn interp(s: Segment, t: Frac) -> Point {
    Point {
        x: (s.p0.x + rdiv(t.num * (s.p1.x - s.p0.x), t.den as int)) as i64,
        y: (s.p0.y + rdiv(t.num * (s.p1.y - s.p0.y), t.den as int)) as i64,
    }
}

/// The point at parameter `t` along `s`, with the x-coordinate rounded
/// toward positive infinity and the y-coordinate to the nearest grid point.
/// Scheduling a crossing's swap at this point puts the swap at or past the
/// true crossing column, where re-inserting by y-intercept lands the pair
/// in its post-crossing order.
pub open spec fn interp_up(s: Segment, t: Frac) -> Point {
    Point {
        x: (s.p0.x + cdiv(t.num * (s.p1.x - s.p0.x), t.den as int)) as i64,
        y: (s.p0.y + rdiv(t.num * (s.p1.y - s.p0.y), t.den as int)) as i64,
    }
}

/// Magnitude bound on the y-coordinate a y-intercept query can return for
/// in-bounds geometry: `COORD_LIMIT` plus the largest rounded quotient.
pub const YINT_LIMIT: i64 = 0x800_0000_0000;

/// Where the carrying line of `s` crosses the vertical line at `x`, the
/// y-coordinate rounded to the grid. A horizontal record answers with its
/// own y; a vertical record answers with the caller's `default` (the
/// scanline's y, letting a vertical compare at the sweep's current height).
pub open spec fn y_int_spec(s: Segment, x: i64, default: i64) -> Point {
    if seg_rise(s) == 0 {
        Point { x, y: s.p0.y }
    } else if seg_run(s) == 0 {
        Point { x, y: default }
    } else {
        Point { x, y: (s.p0.y + rdiv_s((x - s.p0.x) * seg_rise(s), seg_run(s))) as i64 }
    }
}

/// An ordered store of segment records.
#[derive(Clone, Debug)]
pub struct Geomstr {
    pub segments: Vec<Segment>,
}

impl View for Geomstr {
    type V = Seq<Segment>;

    open spec fn view(&self) -> Seq<Segment> {
        self.segments@
    }
}

/// Every record's endpoints within `COORD_LIMIT`: the precondition of the
/// sweep primitives.
pub open spec fn geo_in_bounds(geo: Seq<Segment>) -> bool {
    forall|i: int| 0 <= i < geo.len() ==> #[trigger] seg_in_bounds(geo[i])
}

impl Geomstr {
    /// An empty geometry.
    pub fn new() -> (r: Geomstr)
        ensures
            r@ == Seq::<Segment>::empty(),
    {
        Geomstr { segments: Vec::new() }
    }

    /// A geometry owning the given records.
    pub fn from_segments(segments: Vec<Segment>) -> (r: Geomstr)
        ensures
            r@ == segments@,
    {
        Geomstr { segments }
    }

    /// Append a line record from `p0` to `p1` carrying `label`.
    pub fn line(&mut self, p0: (i64, i64), p1: (i64, i64), label: i64)
        ensures
            final(self)@ == old(self)@.push(
                line_record(Point { x: p0.0, y: p0.1 }, Point { x: p1.0, y: p1.1 }, label),
            ),
    {
        self.segments.push(Segment {
            p0: Point { x: p0.0, y: p0.1 },
            c1: Point { x: 0, y: 0 },
            kind: LINE_KIND,
            label,
            c2: Point { x: 0, y: 0 },
            p1: Point { x: p1.0, y: p1.1 },
        });
    }

    /// Append the four oriented edges of an axis-aligned rectangle with
    /// corner `(x, y)` and the given width and height, all carrying `label`.
    pub fn rect(&mut self, x: i64, y: i64, width: i64, height: i64, label: i64)
        requires
            -COORD_LIMIT <= x + width <= COORD_LIMIT,
            -COORD_LIMIT <= y + height <= COORD_LIMIT,
            -COORD_LIMIT <= x <= COORD_LIMIT,
            -COORD_LIMIT <= y <= COORD_LIMIT,
        ensures
            final(self)@ == old(self)@
                .push(line_record(Point { x, y }, Point { x: (x + width) as i64, y }, label))
                .push(line_record(
                    Point { x: (x + width) as i64, y },
                    Point { x: (x + width) as i64, y: (y + height) as i64 },
                    label,
                ))
                .push(line_record(
                    Point { x: (x + width) as i64, y: (y + height) as i64 },
                    Point { x, y: (y + height) as i64 },
                    label,
                ))
                .push(line_record(Point { x, y: (y + height) as i64 }, Point { x, y }, label)),
    {
        self.line((x, y), (x + width, y), label);
        self.line((x + width, y), (x + width, y + height), label);
        self.line((x + width, y + height), (x, y + height), label);
        self.line((x, y + height), (x, y), label);
    }

    /// The exact slope of record `index`.
    pub fn slope(&self, index: usize) -> (r: Slope)
        requires
            index < self@.len(),
            seg_in_bounds(self@[index as int]),
        ensures
            r == slope_of(self@[index as int]),
    {
        let s = self.segments[index];
        let run: i64 = s.p0.x - s.p1.x;
        if run == 0 {
            Slope::Vertical
        } else {
            Slope::Ratio { rise: s.p0.y - s.p1.y, run }
        }
    }

    /// The exact intersection of the records `index0` and `index1`: `None`
    /// when the carrying lines are parallel or when the crossing falls
    /// outside either segment, otherwise the pair of exact parameters along
    /// each record, both in `[0, 1]` over the common (sign-normalized)
    /// denominator.
    pub fn get_intersection(&self, index0: usize, index1: usize) -> (r: Option<(Frac, Frac)>)
        requires
            index0 < self@.len(),
            index1 < self@.len(),
            seg_in_bounds(self@[index0 as int]),
            seg_in_bounds(self@[index1 as int]),
        ensures
            ({
                let s0 = self@[index0 as int];
                let s1 = self@[index1 as int];
                let dn = isect_denom(s0, s1);
                let ad = absi(dn);
                let n1 = isect_num1(s0, s1) * sgn(dn);
                let n2 = isect_num2(s0, s1) * sgn(dn);
                &&& absi(dn) <= 0x1000_0000_0000
                &&& absi(isect_num1(s0, s1)) <= 0x1000_0000_0000
                &&& absi(isect_num2(s0, s1)) <= 0x1000_0000_0000
                &&& (r is Some <==> dn != 0 && 0 <= n1 <= ad && 0 <= n2 <= ad)
                &&& (r matches Some(t) ==> t.0 == (Frac { num: n1 as i64, den: ad as i64 })
                    && t.1 == (Frac { num: n2 as i64, den: ad as i64 }) && frac_valid(t.0)
                    && frac_valid(t.1))
            }),
    {
        let s0 = self.segments[index0];
        let s1 = self.segments[index1];
        let bax: i128 = (s0.p1.x - s0.p0.x) as i128;
        let bay: i128 = (s0.p1.y - s0.p0.y) as i128;
        let dcx: i128 = (s1.p1.x - s1.p0.x) as i128;
        let dcy: i128 = (s1.p1.y - s1.p0.y) as i128;
        let acx: i128 = (s0.p0.x - s1.p0.x) as i128;
        let acy: i128 = (s0.p0.y - s1.p0.y) as i128;
        proof {
            let m = 2 * COORD_LIMIT as int;
            lemma_mul_bound(dcy as int, bax as int, m, m);
            lemma_mul_bound(dcx as int, bay as int, m, m);
            lemma_mul_bound(dcx as int, acy as int, m, m);
            lemma_mul_bound(dcy as int, acx as int, m, m);
            lemma_mul_bound(bax as int, acy as int, m, m);
            lemma_mul_bound(bay as int, acx as int, m, m);
        }
        let denom: i128 = dcy * bax - dcx * bay;
        if denom == 0 {
            return None;
        }
        let num1: i128 = dcx * acy - dcy * acx;
        let num2: i128 = bax * acy - bay * acx;
        let (n1, n2, ad): (i128, i128, i128) = if denom < 0 {
            (-num1, -num2, -denom)
        } else {
            (num1, num2, denom)
        };
        if 0 <= n1 && n1 <= ad && 0 <= n2 && n2 <= ad {
            Some((Frac { num: n1 as i64, den: ad as i64 }, Frac { num: n2 as i64, den: ad as i64 }))
        } else {
            None
        }
    }

    /// The y-intercept of record `index` at the vertical line `x`, rounded
    /// to the grid; `default` answers for a vertical record.
    pub fn y_intercept(&self, index: usize, x: i64, default: i64) -> (r: Point)
        requires
            index < self@.len(),
            seg_in_bounds(self@[index as int]),
            -COORD_LIMIT <= x <= COORD_LIMIT,
            -COORD_LIMIT <= default <= COORD_LIMIT,
        ensures
            r == y_int_spec(self@[index as int], x, default),
            r.x == x,
            -YINT_LIMIT <= r.y <= YINT_LIMIT,
    {
        let s = self.segments[index];
        let rise: i64 = s.p0.y - s.p1.y;
        let run: i64 = s.p0.x - s.p1.x;
        if rise == 0 {
            Point { x, y: s.p0.y }
        } else if run == 0 {
            Point { x, y: default }
        } else {
            proof {
                lemma_mul_bound((x - s.p0.x) as int, rise as int, 2 * COORD_LIMIT as int, 2
                    * COORD_LIMIT as int);
            }
            let n: i128 = ((x - s.p0.x) as i128) * (rise as i128);
            let q: i128 = if run > 0 {
                proof {
                    lemma_rdiv_abs_le(n as int, run as int);
                }
                round_div_i128(n, run as i128)
            } else {
                proof {
                    lemma_rdiv_abs_le(-n as int, -run as int);
                }
                round_div_i128(-n, -(run as i128))
            };
            Point { x, y: (s.p0.y as i128 + q) as i64 }
        }
    }

    /// The point at parameter `t` along record `index`, rounded to the
    /// grid. The result never leaves the record's bounding box.
    pub fn point(&self, index: usize, t: Frac) -> (r: Point)
        requires
            index < self@.len(),
            seg_in_bounds(self@[index as int]),
            frac_valid(t),
        ensures
            r == interp(self@[index as int], t),
            pt_in_bounds(r),
    {
        let s = self.segments[index];
        proof {
            lemma_mul_bound(t.num as int, (s.p1.x - s.p0.x) as int, 0x8000_0000_0000_0000, 2
                * COORD_LIMIT as int);
            lemma_mul_bound(t.num as int, (s.p1.y - s.p0.y) as int, 0x8000_0000_0000_0000, 2
                * COORD_LIMIT as int);
            lemma_interp_between(s.p0.x as int, s.p1.x as int, t.num as int, t.den as int);
            lemma_interp_between(s.p0.y as int, s.p1.y as int, t.num as int, t.den as int);
        }
        let qx: i128 = round_div_i128((t.num as i128) * ((s.p1.x - s.p0.x) as i128), t.den as i128);
        let qy: i128 = round_div_i128((t.num as i128) * ((s.p1.y - s.p0.y) as i128), t.den as i128);
        Point { x: (s.p0.x as i128 + qx) as i64, y: (s.p0.y as i128 + qy) as i64 }
    }

    /// The point at parameter `t` along record `index`, the column rounded
    /// up: where the sweep schedules the swap for a crossing found there.
    /// The result never leaves the record's bounding box.
    pub fn point_up(&self, index: usize, t: Frac) -> (r: Point)
        requires
            index < self@.len(),
            seg_in_bounds(self@[index as int]),
            frac_valid(t),
        ensures
            r == interp_up(self@[index as int], t),
            pt_in_bounds(r),
    {
        let s = self.segments[index];
        proof {
            lemma_mul_bound(t.num as int, (s.p1.x - s.p0.x) as int, 0x8000_0000_0000_0000, 2
                * COORD_LIMIT as int);
            lemma_mul_bound(t.num as int, (s.p1.y - s.p0.y) as int, 0x8000_0000_0000_0000, 2
                * COORD_LIMIT as int);
            lemma_interp_up_between(s.p0.x as int, s.p1.x as int, t.num as int, t.den as int);
            lemma_interp_between(s.p0.y as int, s.p1.y as int, t.num as int, t.den as int);
        }
        let qx: i128 = ceil_div_i128((t.num as i128) * ((s.p1.x - s.p0.x) as i128), t.den as i128);
        let qy: i128 = round_div_i128((t.num as i128) * ((s.p1.y - s.p0.y) as i128), t.den as i128);
        Point { x: (s.p0.x as i128 + qx) as i64, y: (s.p0.y as i128 + qy) as i64 }
    }

    /// Total squared pen travel between consecutive line records.
    pub fn travel_distance_sq(&self) -> (r: i128)
        requires
            geo_dist_bounded(self@),
            self@.len() <= 0x1000_0000,
        ensures
            r == travel_spec(self@, self@.len() as int),
    {
        let mut total: i128 = 0;
        let mut i: usize = 1;
        if self.segments.len() < 2 {
            return 0;
        }
        while i < self.segments.len()
            invariant
                1 <= i <= self.segments.len(),
                self.segments.len() <= 0x1000_0000,
                geo_dist_bounded(self@),
                total == travel_spec(self@, i as int),
                0 <= total <= (i as int - 1) * 0x1_0000_0000_0000_0000_0000_0000,
            decreases self.segments.len() - i,
        {
            let prev = self.segments[i - 1];
            let cur = self.segments[i];
            proof {
                assert(seg_dist_bounded(self@[i - 1]));
                assert(seg_dist_bounded(self@[i as int]));
            }
            if prev.kind == LINE_KIND && cur.kind == LINE_KIND {
                let d = dist_sq(prev.p1, cur.p0);
                total = total + d;
            }
            i = i + 1;
        }
        total
    }

    /// Reverse record `element` in place: endpoints and control slots
    /// swapped, meta kept.
    pub fn reverse(&mut self, element: usize)
        requires
            element < old(self)@.len(),
        ensures
            final(self)@ == old(self)@.update(element as int, seg_reversed(old(self)@[element as int])),
    {
        let g = self.segments[element];
        self.segments.set(
            element,
            Segment { p0: g.p1, c1: g.c2, kind: g.kind, label: g.label, c2: g.c1, p1: g.p0 },
        );
    }

    /// Greedy travel reduction: walking positions left to right, each step
    /// pulls forward the remaining record whose start (or, with `flips`,
    /// either end) lies nearest to the pen, reversing it when its far end
    /// won. The records are only permuted and possibly reversed: their
    /// direction-free multiset is untouched.
    pub fn greedy_distance(&mut self, pt: Point, flips: bool)
        requires
            geo_dist_bounded(old(self)@),
            -DIST_LIMIT <= pt.x <= DIST_LIMIT,
            -DIST_LIMIT <= pt.y <= DIST_LIMIT,
        ensures
            final(self)@.len() == old(self)@.len(),
            final(self)@ == greedy_spec(old(self)@, pt, flips, old(self)@.len() as int),
            canon_multiset(final(self)@) == canon_multiset(old(self)@),
            !flips ==> final(self)@.to_multiset() == old(self)@.to_multiset(),
            geo_dist_bounded(final(self)@),
    {
        let mut j: usize = 0;
        while j < self.segments.len()
            invariant
                j <= self.segments.len(),
                self@.len() == old(self)@.len(),
                self@ == greedy_spec(old(self)@, pt, flips, j as int),
                canon_multiset(self@) == canon_multiset(old(self)@),
                !flips ==> self@.to_multiset() == old(self)@.to_multiset(),
                geo_dist_bounded(self@),
                -DIST_LIMIT <= pt.x <= DIST_LIMIT,
                -DIST_LIMIT <= pt.y <= DIST_LIMIT,
            decreases self.segments.len() - j,
        {
            let ghost g_j = self@;
            let pen: Point = if j > 0 {
                proof {
                    assert(seg_dist_bounded(self@[j - 1]));
                }
                Point { x: self.segments[j - 1].p1.x, y: self.segments[j - 1].p1.y }
            } else {
                pt
            };
            proof {
                assert(pen == pen_at(g_j, pt, j as int));
            }
            let mut best: i128 = 0;
            let mut best_k: usize = 0;
            let mut best_flip: bool = false;
            let mut found: bool = false;
            let mut k: usize = j + 1;
            while k < self.segments.len()
                invariant
                    j < k,
                    k <= self.segments.len(),
                    self@ == g_j,
                    geo_dist_bounded(self@),
                    -DIST_LIMIT <= pen.x <= DIST_LIMIT,
                    -DIST_LIMIT <= pen.y <= DIST_LIMIT,
                    found ==> j < best_k < self.segments.len(),
                    !flips ==> !best_flip,
                    ({
                        let st = greedy_scan(g_j, pen, flips, j as int, k as int);
                        &&& found == st.found
                        &&& best as int == st.best
                        &&& best_k as int == st.best_k
                        &&& best_flip == st.best_flip
                    }),
                decreases self.segments.len() - k,
            {
                let kline = self.segments[k];
                proof {
                    assert(seg_dist_bounded(self@[k as int]));
                }
                if flips {
                    let delta = dist_sq(pen, kline.p1);
                    if !found || delta < best {
                        best = delta;
                        best_k = k;
                        best_flip = true;
                        found = true;
                    }
                }
                let delta = dist_sq(pen, kline.p0);
                if !found || delta < best {
                    best = delta;
                    best_k = k;
                    best_flip = false;
                    found = true;
                }
                proof {
                    assert(greedy_scan(g_j, pen, flips, j as int, k as int + 1) == greedy_pick(
                        g_j,
                        pen,
                        flips,
                        greedy_scan(g_j, pen, flips, j as int, k as int),
                        k as int,
                    ));
                }
                k = k + 1;
            }
            proof {
                assert(greedy_scan(g_j, pen, flips, j as int, g_j.len() as int) == greedy_scan(
                    g_j,
                    pen,
                    flips,
                    j as int,
                    k as int,
                ));
            }
            if found {
                if best_flip {
                    let ghost before = self@;
                    self.reverse(best_k);
                    proof {
                        lemma_canon_map_update(before, best_k as int, seg_reversed(before[best_k as int]));
                        lemma_canon_reversed(before[best_k as int]);
                        assert(canon_map(self@) =~= canon_map(before));
                        assert forall|i: int| 0 <= i < self@.len() implies seg_dist_bounded(
                            #[trigger] self@[i],
                        ) by {
                            assert(seg_dist_bounded(before[i]));
                        }
                    }
                }
                let ghost before = self@;
                let a = self.segments[j];
                let b = self.segments[best_k];
                self.segments.set(j, b);
                self.segments.set(best_k, a);
                proof {
                    assert(self@ == before.update(j as int, before[best_k as int]).update(
                        best_k as int,
                        before[j as int],
                    ));
                    lemma_canon_map_update(before, j as int, before[best_k as int]);
                    lemma_canon_map_update(
                        before.update(j as int, before[best_k as int]),
                        best_k as int,
                        before[j as int],
                    );
                    assert(canon_map(before)[j as int] == seg_canon(before[j as int]));
                    assert(canon_map(before)[best_k as int] == seg_canon(before[best_k as int]));
                    lemma_swap_multiset(canon_map(before), j as int, best_k as int);
                    assert(canon_map(self@) == canon_map(before).update(
                        j as int,
                        canon_map(before)[best_k as int],
                    ).update(best_k as int, canon_map(before)[j as int]));
                    assert forall|i: int| 0 <= i < self@.len() implies seg_dist_bounded(
                        #[trigger] self@[i],
                    ) by {
                        assert(seg_dist_bounded(before[i]));
                        assert(seg_dist_bounded(before[j as int]));
                        assert(seg_dist_bounded(before[best_k as int]));
                    }
                    if !flips {
                        lemma_swap_multiset(before, j as int, best_k as int);
                    }
                }
            }
            proof {
                assert(self@ == greedy_step(g_j, pt, flips, j as int));
                assert(self@ == greedy_spec(old(self)@, pt, flips, j as int + 1));
            }
            j = j + 1;
        }
    }
}

/// Squared distance between two points, exact.
pub fn dist_sq(a: Point, b: Point) -> (r: i128)
    requires
        -DIST_LIMIT <= a.x <= DIST_LIMIT,
        -DIST_LIMIT <= a.y <= DIST_LIMIT,
        -DIST_LIMIT <= b.x <= DIST_LIMIT,
        -DIST_LIMIT <= b.y <= DIST_LIMIT,
    ensures
        r == dist_sq_spec(a, b),
        0 <= r <= 0x1_0000_0000_0000_0000_0000_0000,
{
    let dx: i128 = (a.x - b.x) as i128;
    let dy: i128 = (a.y - b.y) as i128;
    proof {
        lemma_mul_bound(dx as int, dx as int, 2 * DIST_LIMIT as int, 2 * DIST_LIMIT as int);
        lemma_mul_bound(dy as int, dy as int, 2 * DIST_LIMIT as int, 2 * DIST_LIMIT as int);
        assert(dx as int * dx as int >= 0) by (nonlinear_arith);
        assert(dy as int * dy as int >= 0) by (nonlinear_arith);
    }
    dx * dx + dy * dy
}

/// A record with endpoints and control slots swapped: the same carrier,
/// walked the other way.
pub open spec fn seg_reversed(s: Segment) -> Segment {
    Segment { p0: s.p1, c1: s.c2, kind: s.kind, label: s.label, c2: s.c1, p1: s.p0 }
}

/// A direction-free representative of a record: of a record and its
/// reversal, the one whose points come in lexicographic order.
pub open spec fn seg_canon(s: Segment) -> Segment {
    if pt_lt(s.p1, s.p0) {
        seg_reversed(s)
    } else if s.p0 == s.p1 && pt_lt(s.c2, s.c1) {
        seg_reversed(s)
    } else {
        s
    }
}

/// A geometry with every record replaced by its direction-free
/// representative.
pub open spec fn canon_map(geo: Seq<Segment>) -> Seq<Segment> {
    geo.map(|i: int, s: Segment| seg_canon(s))
}

/// The multiset of direction-free records of a geometry: what a reordering
/// pass must leave unchanged.
pub open spec fn canon_multiset(geo: Seq<Segment>) -> Multiset<Segment> {
    canon_map(geo).to_multiset()
}

/// Coordinate bound under which squared travel distances cannot overflow.
pub const DIST_LIMIT: i64 = 0x4000_0000_0000;

/// Every endpoint coordinate of every record within `DIST_LIMIT`.
pub open spec fn geo_dist_bounded(geo: Seq<Segment>) -> bool {
    forall|i: int| 0 <= i < geo.len() ==> #[trigger] seg_dist_bounded(geo[i])
}

/// Both endpoints of a record within `DIST_LIMIT`.
pub open spec fn seg_dist_bounded(s: Segment) -> bool {
    -DIST_LIMIT <= s.p0.x <= DIST_LIMIT && -DIST_LIMIT <= s.p0.y <= DIST_LIMIT && -DIST_LIMIT
        <= s.p1.x <= DIST_LIMIT && -DIST_LIMIT <= s.p1.y <= DIST_LIMIT
}

/// Squared distance between two points.
pub open spec fn dist_sq_spec(a: Point, b: Point) -> int {
    (a.x - b.x) * (a.x - b.x) + (a.y - b.y) * (a.y - b.y)
}

/// Squared gap between the end of `a` and the start of `b`, counted only
/// when both are line records.
pub open spec fn gap_sq(a: Segment, b: Segment) -> int {
    if a.kind == LINE_KIND && b.kind == LINE_KIND {
        dist_sq_spec(a.p1, b.p0)
    } else {
        0
    }
}

/// Total squared pen travel over the first `n` records of a geometry.
pub open spec fn travel_spec(geo: Seq<Segment>, n: int) -> int
    decreases n,
{
    if n <= 1 {
        0
    } else {
        travel_spec(geo, n - 1) + gap_sq(geo[n - 2], geo[n - 1])
    }
}

/// The running result of the greedy candidate scan: whether any candidate
/// was seen yet, the best squared distance so far, the position holding it,
/// and whether that candidate is to be walked from its far end.
pub struct GreedyChoice {
    pub found: bool,
    pub best: int,
    pub best_k: int,
    pub best_flip: bool,
}

/// One candidate examined: with `flips` its far end first, then its start,
/// each taken when strictly nearer the pen than the best so far.
pub open spec fn greedy_pick(
    geo: Seq<Segment>,
    pen: Point,
    flips: bool,
    st: GreedyChoice,
    c: int,
) -> GreedyChoice {
    let s = geo[c];
    let st1 = if flips && (!st.found || dist_sq_spec(pen, s.p1) < st.best) {
        GreedyChoice { found: true, best: dist_sq_spec(pen, s.p1), best_k: c, best_flip: true }
    } else {
        st
    };
    if !st1.found || dist_sq_spec(pen, s.p0) < st1.best {
        GreedyChoice { found: true, best: dist_sq_spec(pen, s.p0), best_k: c, best_flip: false }
    } else {
        st1
    }
}

/// The scan over the candidates at positions `j + 1 .. k`.
pub open spec fn greedy_scan(
    geo: Seq<Segment>,
    pen: Point,
    flips: bool,
    j: int,
    k: int,
) -> GreedyChoice
    decreases k - j,
{
    if k <= j + 1 {
        GreedyChoice { found: false, best: 0, best_k: 0, best_flip: false }
    } else {
        greedy_pick(geo, pen, flips, greedy_scan(geo, pen, flips, j, k - 1), k - 1)
    }
}

/// The pen position when position `j` is chosen: the caller's start point
/// for the first position, afterwards the end of the record just placed.
pub open spec fn pen_at(geo: Seq<Segment>, pt: Point, j: int) -> Point {
    if j == 0 {
        pt
    } else {
        geo[j - 1].p1
    }
}

/// One greedy placement: scan the candidates past `j`, flip the winner if
/// its far end won, and swap it into position `j`. Nothing moves when no
/// candidate exists.
pub open spec fn greedy_step(geo: Seq<Segment>, pt: Point, flips: bool, j: int) -> Seq<Segment> {
    let pen = pen_at(geo, pt, j);
    let st = greedy_scan(geo, pen, flips, j, geo.len() as int);
    if st.found {
        let g1 = if st.best_flip {
            geo.update(st.best_k, seg_reversed(geo[st.best_k]))
        } else {
            geo
        };
        g1.update(j, g1[st.best_k]).update(st.best_k, g1[j])
    } else {
        geo
    }
}

/// The greedy reordering applied to the first `j` positions in turn.
pub open spec fn greedy_spec(geo0: Seq<Segment>, pt: Point, flips: bool, j: int) -> Seq<Segment>
    decreases j,
{
    if j <= 0 {
        geo0
    } else {
        greedy_step(greedy_spec(geo0, pt, flips, j - 1), pt, flips, j - 1)
    }
}

/// Replacing one element changes the element multiset by one removal and
/// one insertion.
proof fn lemma_update_multiset(s: Seq<Segment>, i: int, v: Segment)
    requires
        0 <= i < s.len(),
    ensures
        s.update(i, v).to_multiset() == s.to_multiset().remove(s[i]).insert(v),
{
    let s2 = s.update(i, v);
    assert(s2.remove(i) =~= s.remove(i));
    s.to_multiset_ensures();
    s2.to_multiset_ensures();
    assert(s2.contains(v)) by {
        assert(s2[i] == v);
    }
    assert(s2.to_multiset().count(v) > 0);
    assert(s.remove(i).to_multiset() =~= s.to_multiset().remove(s[i]));
    assert(s2.remove(i).to_multiset() =~= s2.to_multiset().remove(s2[i]));
    assert(s2.to_multiset().remove(v) =~= s.to_multiset().remove(s[i]));
    assert(s2.to_multiset() =~= s2.to_multiset().remove(v).insert(v));
    assert(s2.to_multiset() =~= s.to_multiset().remove(s[i]).insert(v));
}

/// Exchanging two elements leaves the element multiset unchanged.
proof fn lemma_swap_multiset(s: Seq<Segment>, i: int, j: int)
    requires
        0 <= i < s.len(),
        0 <= j < s.len(),
    ensures
        s.update(i, s[j]).update(j, s[i]).to_multiset() == s.to_multiset(),
{
    if i == j {
        assert(s.update(i, s[j]).update(j, s[i]) =~= s);
    } else {
        let s1 = s.update(i, s[j]);
        lemma_update_multiset(s, i, s[j]);
        lemma_update_multiset(s1, j, s[i]);
        assert(s1[j] == s[j]);
        s.to_multiset_ensures();
        assert(s.contains(s[i]) && s.contains(s[j]));
        assert(s.to_multiset().count(s[i]) > 0 && s.to_multiset().count(s[j]) > 0);
        assert(s1.update(j, s[i]).to_multiset() =~= s.to_multiset());
    }
}

/// The canon map commutes with a single-element update.
proof fn lemma_canon_map_update(s: Seq<Segment>, i: int, v: Segment)
    requires
        0 <= i < s.len(),
    ensures
        canon_map(s.update(i, v)) == canon_map(s).update(i, seg_canon(v)),
{
    assert(canon_map(s.update(i, v)) =~= canon_map(s).update(i, seg_canon(v)));
}

/// A record and its reversal share one direction-free representative.
pub proof fn lemma_canon_reversed(s: Segment)
    ensures
        seg_canon(seg_reversed(s)) == seg_canon(s),
{
}

/// Interpolating with a parameter in `[0, 1]` and rounding the quotient up
/// lands between the two endpoints, whichever way they are ordered.
proof fn lemma_interp_up_between(x0: int, x1: int, num: int, den: int)
    requires
        0 < den,
        0 <= num <= den,
    ensures
        x1 >= x0 ==> x0 <= x0 + cdiv(num * (x1 - x0), den) <= x1,
        x1 < x0 ==> x1 <= x0 + cdiv(num * (x1 - x0), den) <= x0,
{
    let d = x1 - x0;
    if d >= 0 {
        assert(0 * den <= num * d && num * d <= d * den) by (nonlinear_arith)
            requires
                0 < den,
                0 <= num <= den,
                d >= 0,
        ;
        lemma_cdiv_range(num * d, den, 0, d);
    } else {
        assert(d * den <= num * d && num * d <= 0 * den) by (nonlinear_arith)
            requires
                0 < den,
                0 <= num <= den,
                d < 0,
        ;
        lemma_cdiv_range(num * d, den, d, 0);
    }
}

/// Interpolating with a parameter in `[0, 1]` lands between the two
/// endpoints, whichever way they are ordered.
proof fn lemma_interp_between(x0: int, x1: int, num: int, den: int)
    requires
        0 < den,
        0 <= num <= den,
    ensures
        x1 >= x0 ==> x0 <= x0 + rdiv(num * (x1 - x0), den) <= x1,
        x1 < x0 ==> x1 <= x0 + rdiv(num * (x1 - x0), den) <= x0,
{
    let d = x1 - x0;
    if d >= 0 {
        assert(0 * den <= num * d && num * d <= d * den) by (nonlinear_arith)
            requires
                0 < den,
                0 <= num <= den,
                d >= 0,
        ;
        lemma_rdiv_range(num * d, den, 0, d);
    } else {
        assert(d * den <= num * d && num * d <= 0 * den) by (nonlinear_arith)
            requires
                0 < den,
                0 <= num <= den,
                d < 0,
        ;
        lemma_rdiv_range(num * d, den, d, 0);
    }
}

} // verus!
