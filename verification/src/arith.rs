//! Integer helpers.

use vstd::arithmetic::div_mod::{lemma_fundamental_div_mod, lemma_mod_bound};
use vstd::prelude::*;

verus! {

/// Division rounding toward negative infinity.
#[inline]
pub(crate) fn div_floor(a: i64, m: i64) -> (r: i64)
    requires
        m > 0,
    ensures
        r == a as int / m as int,
        r * m <= a < r * m + m,
{
    proof {
        lemma_div_floor(a as int, m as int);
    }
    match a.checked_div_euclid(m) {
        Some(q) => q,
        None => 0,
    }
}

/// Remainder in `0..m`.
#[inline]
pub(crate) fn mod_floor(a: i64, m: i64) -> (r: i64)
    requires
        m > 0,
    ensures
        r == a as int % m as int,
        0 <= r < m,
{
    proof {
        lemma_mod_bound(a as int, m as int);
    }
    match a.checked_rem_euclid(m) {
        Some(q) => q,
        None => 0,
    }
}

pub proof fn lemma_div_floor(a: int, m: int)
    requires
        m > 0,
    ensures
        (a / m) * m <= a < (a / m) * m + m,
        a >= 0 ==> 0 <= a / m <= a,
        a < 0 ==> a <= a / m < 0,
        a == (a / m) * m + a % m,
        0 <= a % m < m,
{
    lemma_fundamental_div_mod(a, m);
    lemma_mod_bound(a, m);
    let q = a / m;
    assert(m * q == q * m) by (nonlinear_arith);
    if a < 0 {
        assert(q < 0) by (nonlinear_arith)
            requires
                q * m <= a,
                a < 0,
                m > 0,
        ;
        assert(a <= q) by (nonlinear_arith)
            requires
                a < q * m + m,
                a < 0,
                m > 0,
                q < 0,
        ;
    } else {
        assert(q >= 0) by (nonlinear_arith)
            requires
                a < q * m + m,
                a >= 0,
                m > 0,
        ;
        assert(q <= a) by (nonlinear_arith)
            requires
                q * m <= a,
                m > 0,
                q >= 0,
        ;
    }
}

/// The quotient is the only number with these bounds.
pub proof fn lemma_div_is(a: int, m: int, q: int)
    requires
        m > 0,
        q * m <= a < q * m + m,
    ensures
        a / m == q,
        a % m == a - q * m,
{
    lemma_div_floor(a, m);
    let p = a / m;
    assert(p == q) by (nonlinear_arith)
        requires
            q * m <= a < q * m + m,
            p * m <= a < p * m + m,
            m > 0,
    ;
}

/// A multiple added to a number leaves its remainder.
pub proof fn lemma_mod_add_multiple(a: int, k: int, m: int)
    requires
        m > 0,
    ensures
        (a + k * m) % m == a % m,
        (a + k * m) / m == a / m + k,
{
    lemma_div_floor(a, m);
    let q = a / m;
    assert((q + k) * m == q * m + k * m) by (nonlinear_arith);
    lemma_div_is(a + k * m, m, q + k);
}

#[inline]
pub(crate) fn min_i64(a: i64, b: i64) -> (r: i64)
    ensures
        r == (if a < b {
            a
        } else {
            b
        }),
{
    if a < b {
        a
    } else {
        b
    }
}

#[inline]
pub(crate) fn max_i64(a: i64, b: i64) -> (r: i64)
    ensures
        r == (if a > b {
            a
        } else {
            b
        }),
{
    if a > b {
        a
    } else {
        b
    }
}

} // verus!
