//! Fixed-point arithmetic over scaled integers.
//!
//! A quantity in the unit interval is held as an `i64` scaled by `SCALE`:
//! the value `v` stands for the real number `v / SCALE`. Rounding is
//! round-half-away-from-zero throughout.

use vstd::prelude::*;

verus! {

/// One whole unit: the fixed-point representation of `1.0`.
pub const SCALE: i64 = 1_000_000;

/// The greatest magnitude a dividend handed to [`rdiv_i64`] may have.
pub const RDIV_MAX_NUM: i64 = 4_000_000_000_000_000;

/// The greatest divisor [`rdiv_i64`] accepts.
pub const RDIV_MAX_DEN: i64 = 1_000_000_000;

/// Round-half-away-from-zero division by a positive divisor.
pub open spec fn rdiv(n: int, d: int) -> int
    recommends
        d > 0,
{
    if n >= 0 {
        (n + d / 2) / d
    } else {
        -((-n + d / 2) / d)
    }
}

/// `x` forced into the interval `[lo, hi]`.
pub open spec fn clamp(x: int, lo: int, hi: int) -> int
    recommends
        lo <= hi,
{
    if x < lo {
        lo
    } else if x > hi {
        hi
    } else {
        x
    }
}

/// When `|n| <= b * d`, the rounded quotient stays within `[-b, b]`,
/// and a nonnegative dividend gives a nonnegative quotient.
pub proof fn lemma_rdiv_range(n: int, d: int, b: int)
    requires
        d > 0,
        b >= 0,
        -(b * d) <= n <= b * d,
    ensures
        -b <= rdiv(n, d) <= b,
        n >= 0 ==> rdiv(n, d) >= 0,
{
    if n >= 0 {
        vstd::arithmetic::div_mod::lemma_div_pos_is_pos(n + d / 2, d);
        assert((n + d / 2) / d <= b) by (nonlinear_arith)
            requires
                d > 0,
                b >= 0,
                n <= b * d,
        ;
    } else {
        vstd::arithmetic::div_mod::lemma_div_pos_is_pos(-n + d / 2, d);
        assert((-n + d / 2) / d <= b) by (nonlinear_arith)
            requires
                d > 0,
                b >= 0,
                -(b * d) <= n < 0,
        ;
    }
}

/// Dividing an exact multiple rounds to the exact quotient:
/// `rdiv(q * d, d) == q`.
pub proof fn lemma_rdiv_exact(q: int, d: int)
    requires
        d > 0,
    ensures
        rdiv(q * d, d) == q,
{
    if q >= 0 {
        assert(q * d >= 0 && (q * d + d / 2) / d == q) by (nonlinear_arith)
            requires
                d > 0,
                q >= 0,
        ;
    } else {
        assert(q * d < 0 && (-(q * d) + d / 2) / d == -q) by (nonlinear_arith)
            requires
                d > 0,
                q < 0,
        ;
    }
}

/// Rounded division loses at most half a divisor: the quotient scaled
/// back differs from the dividend by no more than `d - d / 2`.
pub proof fn lemma_rdiv_error(n: int, d: int)
    requires
        d > 0,
    ensures
        -(d - d / 2) <= rdiv(n, d) * d - n <= d - d / 2,
{
    if n >= 0 {
        let q = (n + d / 2) / d;
        vstd::arithmetic::div_mod::lemma_fundamental_div_mod(n + d / 2, d);
        vstd::arithmetic::div_mod::lemma_mod_division_less_than_divisor(n + d / 2, d);
        vstd::arithmetic::mul::lemma_mul_is_commutative(d, q);
    } else {
        let q = (-n + d / 2) / d;
        vstd::arithmetic::div_mod::lemma_fundamental_div_mod(-n + d / 2, d);
        vstd::arithmetic::div_mod::lemma_mod_division_less_than_divisor(-n + d / 2, d);
        vstd::arithmetic::mul::lemma_mul_is_commutative(d, q);
        assert((-q) * d == -(q * d)) by (nonlinear_arith);
    }
}

/// Round-half-away-from-zero division, exactly [`rdiv`] on the
/// mathematical integers.
pub fn rdiv_i64(n: i64, d: i64) -> (r: i64)
    requires
        0 < d <= RDIV_MAX_DEN,
        -RDIV_MAX_NUM <= n <= RDIV_MAX_NUM,
    ensures
        r as int == rdiv(n as int, d as int),
{
    let du = d as u64;
    let h = du / 2;
    if n >= 0 {
        let q = ((n as u64) + h) / du;
        proof {
            vstd::arithmetic::div_mod::lemma_div_nonincreasing((n + h) as int, du as int);
        }
        q as i64
    } else {
        let m = (-n) as u64;
        let q = (m + h) / du;
        proof {
            vstd::arithmetic::div_mod::lemma_div_nonincreasing((m + h) as int, du as int);
        }
        -(q as i64)
    }
}

/// `x` forced into `[lo, hi]`, exactly [`clamp`] on the mathematical
/// integers.
pub fn clamp_i64(x: i64, lo: i64, hi: i64) -> (r: i64)
    requires
        lo <= hi,
    ensures
        r as int == clamp(x as int, lo as int, hi as int),
        lo <= r <= hi,
{
    if x < lo {
        lo
    } else if x > hi {
        hi
    } else {
        x
    }
}

} // verus!
