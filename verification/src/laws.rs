//! The algebra of space masks: the pointwise boolean operators obey the
//! usual lattice laws, stated here over mask grids and proved once and for
//! all shapes.

use vstd::prelude::*;

verus! {

use crate::table::grid_and;
use crate::table::grid_not;
use crate::table::grid_or;
use crate::table::same_shape;

/// The grid of one shape with every entry the constant `v`.
pub open spec fn grid_const(shape: Seq<Seq<bool>>, v: bool) -> Seq<Seq<bool>> {
    shape.map(|j: int, row: Seq<bool>| row.map(|k: int, u: bool| v))
}

/// Double negation gives the mask back: `!!m == m`.
pub proof fn lemma_not_involutive(m: Seq<Seq<bool>>)
    ensures
        grid_not(grid_not(m)) == m,
{
    assert forall|j: int| 0 <= j < m.len() implies grid_not(grid_not(m))[j] == m[j] by {
        assert(grid_not(grid_not(m))[j] =~= m[j]);
    }
    assert(grid_not(grid_not(m)) =~= m);
}

/// Conjunction is idempotent: `m & m == m`.
pub proof fn lemma_and_idempotent(m: Seq<Seq<bool>>)
    ensures
        grid_and(m, m) == m,
{
    assert forall|j: int| 0 <= j < m.len() implies grid_and(m, m)[j] == m[j] by {
        assert(grid_and(m, m)[j] =~= m[j]);
    }
    assert(grid_and(m, m) =~= m);
}

/// Disjunction is idempotent: `m | m == m`.
pub proof fn lemma_or_idempotent(m: Seq<Seq<bool>>)
    ensures
        grid_or(m, m) == m,
{
    assert forall|j: int| 0 <= j < m.len() implies grid_or(m, m)[j] == m[j] by {
        assert(grid_or(m, m)[j] =~= m[j]);
    }
    assert(grid_or(m, m) =~= m);
}

/// A mask against its complement is everywhere outside: `m & !m == 0`.
pub proof fn lemma_and_complement(m: Seq<Seq<bool>>)
    ensures
        grid_and(m, grid_not(m)) == grid_const(m, false),
{
    assert forall|j: int| 0 <= j < m.len() implies grid_and(m, grid_not(m))[j] == grid_const(
        m,
        false,
    )[j] by {
        assert(grid_and(m, grid_not(m))[j] =~= grid_const(m, false)[j]);
    }
    assert(grid_and(m, grid_not(m)) =~= grid_const(m, false));
}

/// A mask with its complement is everywhere inside: `m | !m == 1`.
pub proof fn lemma_or_complement(m: Seq<Seq<bool>>)
    ensures
        grid_or(m, grid_not(m)) == grid_const(m, true),
{
    assert forall|j: int| 0 <= j < m.len() implies grid_or(m, grid_not(m))[j] == grid_const(
        m,
        true,
    )[j] by {
        assert(grid_or(m, grid_not(m))[j] =~= grid_const(m, true)[j]);
    }
    assert(grid_or(m, grid_not(m)) =~= grid_const(m, true));
}

/// Conjunction commutes on same-shaped masks: `a & b == b & a`.
pub proof fn lemma_and_commutative(a: Seq<Seq<bool>>, b: Seq<Seq<bool>>)
    requires
        same_shape(a, b),
    ensures
        grid_and(a, b) == grid_and(b, a),
{
    assert forall|j: int| 0 <= j < a.len() implies grid_and(a, b)[j] == grid_and(b, a)[j] by {
        assert(grid_and(a, b)[j] =~= grid_and(b, a)[j]);
    }
    assert(grid_and(a, b) =~= grid_and(b, a));
}

/// Disjunction commutes on same-shaped masks: `a | b == b | a`.
pub proof fn lemma_or_commutative(a: Seq<Seq<bool>>, b: Seq<Seq<bool>>)
    requires
        same_shape(a, b),
    ensures
        grid_or(a, b) == grid_or(b, a),
{
    assert forall|j: int| 0 <= j < a.len() implies grid_or(a, b)[j] == grid_or(b, a)[j] by {
        assert(grid_or(a, b)[j] =~= grid_or(b, a)[j]);
    }
    assert(grid_or(a, b) =~= grid_or(b, a));
}

/// Conjunction associates on same-shaped masks:
/// `(a & b) & c == a & (b & c)`.
pub proof fn lemma_and_associative(a: Seq<Seq<bool>>, b: Seq<Seq<bool>>, c: Seq<Seq<bool>>)
    requires
        same_shape(a, b),
        same_shape(b, c),
    ensures
        grid_and(grid_and(a, b), c) == grid_and(a, grid_and(b, c)),
{
    assert forall|j: int| 0 <= j < a.len() implies grid_and(grid_and(a, b), c)[j] == grid_and(
        a,
        grid_and(b, c),
    )[j] by {
        assert(grid_and(grid_and(a, b), c)[j] =~= grid_and(a, grid_and(b, c))[j]);
    }
    assert(grid_and(grid_and(a, b), c) =~= grid_and(a, grid_and(b, c)));
}

/// Disjunction associates on same-shaped masks:
/// `(a | b) | c == a | (b | c)`.
pub proof fn lemma_or_associative(a: Seq<Seq<bool>>, b: Seq<Seq<bool>>, c: Seq<Seq<bool>>)
    requires
        same_shape(a, b),
        same_shape(b, c),
    ensures
        grid_or(grid_or(a, b), c) == grid_or(a, grid_or(b, c)),
{
    assert forall|j: int| 0 <= j < a.len() implies grid_or(grid_or(a, b), c)[j] == grid_or(
        a,
        grid_or(b, c),
    )[j] by {
        assert(grid_or(grid_or(a, b), c)[j] =~= grid_or(a, grid_or(b, c))[j]);
    }
    assert(grid_or(grid_or(a, b), c) =~= grid_or(a, grid_or(b, c)));
}

} // verus!
