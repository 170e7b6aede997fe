//! Exact integer helpers the geometric primitives are built on: sign,
//! absolute value, and division rounded to the nearest integer (ties
//! rounded up), together with the lemmas that bound them.

use vstd::prelude::*;

verus! {

use vstd::arithmetic::div_mod::lemma_fundamental_div_mod;
use vstd::arithmetic::div_mod::lemma_fundamental_div_mod_converse;
use vstd::arithmetic::div_mod::lemma_mod_bound;

/// Sign of an integer: -1, 0 or 1.
pub open spec fn sgn(x: int) -> int {
    if x > 0 {
        1int
    } else if x < 0 {
        -1int
    } else {
        0int
    }
}

/// Absolute value of an integer.
pub open spec fn absi(x: int) -> int {
    if x < 0 {
        -x
    } else {
        x
    }
}

/// `a / b` rounded to the nearest integer, ties rounded toward positive
/// infinity. Meaningful for `b > 0`.
pub open spec fn rdiv(a: int, b: int) -> int
    recommends
        b > 0,
{
    (2 * a + b) / (2 * b)
}

/// `rdiv` after normalizing the divisor's sign, so that it is meaningful
/// for any nonzero divisor.
pub open spec fn rdiv_s(a: int, b: int) -> int
    recommends
        b != 0,
{
    if b > 0 {
        rdiv(a, b)
    } else {
        rdiv(-a, -b)
    }
}

/// `a / b` rounded toward positive infinity. Meaningful for `b > 0`.
pub open spec fn cdiv(a: int, b: int) -> int
    recommends
        b > 0,
{
    -((-a) / b)
}

/// Ceiling division stays between any pair of integer bounds on the exact
/// quotient.
pub proof fn lemma_cdiv_range(a: int, b: int, lo: int, hi: int)
    requires
        b > 0,
        lo * b <= a,
        a <= hi * b,
    ensures
        lo <= cdiv(a, b) <= hi,
{
    let q = (-a) / b;
    let m = (-a) % b;
    lemma_fundamental_div_mod(-a, b);
    lemma_mod_bound(-a, b);
    assert(-hi <= q) by (nonlinear_arith)
        requires
            b > 0,
            a <= hi * b,
            -a == b * q + m,
            0 <= m < b,
    ;
    assert(q <= -lo) by (nonlinear_arith)
        requires
            b > 0,
            lo * b <= a,
            -a == b * q + m,
            0 <= m < b,
    ;
}

/// Ceiling division, executable.
pub fn ceil_div_i128(a: i128, b: i128) -> (q: i128)
    requires
        0 < b,
        -0x0010_0000_0000_0000_0000_0000_0000_0000 <= a
            <= 0x0010_0000_0000_0000_0000_0000_0000_0000,
    ensures
        q == cdiv(a as int, b as int),
{
    let f = floor_div_i128(-a, b);
    proof {
        lemma_fundamental_div_mod(-a as int, b as int);
        lemma_mod_bound(-a as int, b as int);
        assert(-0x0020_0000_0000_0000_0000_0000_0000_0000 <= f as int
            <= 0x0020_0000_0000_0000_0000_0000_0000_0000) by (nonlinear_arith)
            requires
                -(a as int) == b as int * (f as int) + ((-a as int) % (b as int)),
                0 <= (-a as int) % (b as int) < b as int,
                1 <= b as int,
                -0x0010_0000_0000_0000_0000_0000_0000_0000 <= a as int
                    <= 0x0010_0000_0000_0000_0000_0000_0000_0000,
        ;
    }
    -f
}

/// The product of values bounded by `ma` and `mb` is bounded by `ma * mb`.
pub proof fn lemma_mul_bound(a: int, b: int, ma: int, mb: int)
    by (nonlinear_arith)
    requires
        -ma <= a <= ma,
        -mb <= b <= mb,
        0 <= ma,
        0 <= mb,
    ensures
        -(ma * mb) <= a * b <= ma * mb,
{
}

/// Rounded division stays between any pair of integer bounds on the exact
/// quotient: if `lo <= a/b <= hi` exactly, the rounding cannot escape.
pub proof fn lemma_rdiv_range(a: int, b: int, lo: int, hi: int)
    requires
        b > 0,
        lo * b <= a,
        a <= hi * b,
    ensures
        lo <= rdiv(a, b) <= hi,
{
    let q = (2 * a + b) / (2 * b);
    let m = (2 * a + b) % (2 * b);
    lemma_fundamental_div_mod(2 * a + b, 2 * b);
    lemma_mod_bound(2 * a + b, 2 * b);
    assert(lo <= q) by (nonlinear_arith)
        requires
            b > 0,
            lo * b <= a,
            2 * a + b == 2 * b * q + m,
            0 <= m < 2 * b,
    ;
    assert(q <= hi) by (nonlinear_arith)
        requires
            b > 0,
            a <= hi * b,
            2 * a + b == 2 * b * q + m,
            0 <= m < 2 * b,
    ;
}

/// The magnitude of a rounded quotient never exceeds the magnitude of the
/// dividend (the divisor is at least one).
pub proof fn lemma_rdiv_abs_le(a: int, b: int)
    requires
        b > 0,
    ensures
        -absi(a) <= rdiv(a, b) <= absi(a),
{
    let m = absi(a);
    assert((-m) * b <= a && a <= m * b) by (nonlinear_arith)
        requires
            b > 0,
            m == absi(a),
    ;
    lemma_rdiv_range(a, b, -m, m);
}

/// Floor division (the Euclidean quotient for a positive divisor).
pub fn floor_div_i128(n: i128, d: i128) -> (q: i128)
    requires
        0 < d,
        i128::MIN < n,
    ensures
        q == n as int / d as int,
{
    if n >= 0 {
        let qu: u128 = (n as u128) / (d as u128);
        proof {
            lemma_fundamental_div_mod(n as int, d as int);
        }
        qu as i128
    } else {
        let m: i128 = -n;
        let mu: u128 = m as u128;
        let du: u128 = d as u128;
        let qu: u128 = mu / du;
        let ru: u128 = mu % du;
        proof {
            let ni = n as int;
            let di = d as int;
            let qi = qu as int;
            let ri = ru as int;
            let mi = mu as int;
            lemma_fundamental_div_mod(mi, di);
            lemma_mod_bound(mi, di);
            assert(qi <= mi) by (nonlinear_arith)
                requires
                    mi == di * qi + ri,
                    di >= 1,
                    ri >= 0,
                    qi >= 0,
            ;
            if ru == 0 {
                assert(ni == (-qi) * di + 0) by (nonlinear_arith)
                    requires
                        ni == -mi,
                        mi == di * qi + ri,
                        ri == 0,
                ;
                lemma_fundamental_div_mod_converse(ni, di, -qi, 0);
            } else {
                assert(ni == (-qi - 1) * di + (di - ri)) by (nonlinear_arith)
                    requires
                        ni == -mi,
                        mi == di * qi + ri,
                ;
                lemma_fundamental_div_mod_converse(ni, di, -qi - 1, di - ri);
            }
        }
        if ru == 0 {
            -(qu as i128)
        } else {
            -(qu as i128) - 1
        }
    }
}

/// Division rounded to the nearest integer, ties toward positive infinity.
pub fn round_div_i128(a: i128, b: i128) -> (q: i128)
    requires
        0 < b <= 0x0010_0000_0000_0000_0000_0000_0000_0000,
        -0x0010_0000_0000_0000_0000_0000_0000_0000 <= a
            <= 0x0010_0000_0000_0000_0000_0000_0000_0000,
    ensures
        q == rdiv(a as int, b as int),
{
    let n: i128 = 2 * a + b;
    let d: i128 = 2 * b;
    floor_div_i128(n, d)
}

} // verus!
