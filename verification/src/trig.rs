//! Fixed-point circular functions.
//!
//! Angles are in billionths of a radian and function values in billionths
//! of one ([`UNIT`]). The sine uses Bhaskara's rational approximation, the
//! arctangent a quadratic one, and the arccosine a square-root expansion
//! around its zero; each is exact at the cardinal angles the coordinate
//! formulas single out, and each executable function returns exactly what
//! its specification mirror computes.

use crate::scalar::{
    abs_int, isqrt, lemma_div_pos_bounds, lemma_sqrt_floor_bounds, lemma_sqrt_floor_monotone,
    lemma_sqrt_floor_unique, sqrt_floor, ATAN_SPAN, FRAC_PI_2, PI, TAU, UNIT,
};
use vstd::arithmetic::div_mod::{
    lemma_div_is_ordered, lemma_div_multiples_vanish, lemma_fundamental_div_mod_converse,
};
use vstd::prelude::*;

verus! {

/// Coefficient of the quadratic correction in the arctangent approximation,
/// in billionths.
pub const ATAN_C: i64 = 273_000_000;

/// Arctangent of `t / UNIT` for `t` in `[0, UNIT]`, in billionths of a
/// radian: a quadratic approximation, exact at zero.
pub open spec fn atan_poly_spec(t: int) -> int {
    t * PI / (4 * UNIT) + ATAN_C * t * (UNIT - t) / (UNIT * UNIT)
}

/// Arctangent of the ratio `num / den` for `den != 0`, in billionths of a
/// radian, inside `[-FRAC_PI_2, FRAC_PI_2]`.
pub open spec fn atan_ratio_spec(num: int, den: int) -> int {
    let a = abs_int(num);
    let b = abs_int(den);
    let m = if a <= b {
        atan_poly_spec(a * UNIT / b)
    } else {
        FRAC_PI_2 - atan_poly_spec(b * UNIT / a)
    };
    if (num < 0) == (den < 0) {
        m
    } else {
        -m
    }
}

/// Sine of an angle in `[0, PI]`, scaled by [`UNIT`]: Bhaskara's rational
/// approximation, exact at `0`, `FRAC_PI_2` and `PI`.
pub open spec fn sin_half_spec(a: int) -> int {
    let u = a * (PI - a);
    16 * u * UNIT / (5 * PI * PI - 4 * u)
}

/// Sine of a latitude in `[-FRAC_PI_2, FRAC_PI_2]`, scaled by [`UNIT`].
pub open spec fn sin_lat_spec(a: int) -> int {
    if a >= 0 {
        sin_half_spec(a)
    } else {
        -sin_half_spec(-a)
    }
}

/// Cosine of an angle in `[0, PI]`, scaled by [`UNIT`].
pub open spec fn cos_half_spec(d: int) -> int {
    if d <= FRAC_PI_2 {
        sin_half_spec(FRAC_PI_2 + d)
    } else {
        -sin_half_spec(d - FRAC_PI_2)
    }
}

/// Cosine of a latitude in `[-FRAC_PI_2, FRAC_PI_2]`, scaled by [`UNIT`].
pub open spec fn cos_lat_spec(a: int) -> int {
    cos_half_spec(abs_int(a))
}

/// Cosine of a longitude difference in `[0, TAU)`, scaled by [`UNIT`].
pub open spec fn cos_delta_spec(d: int) -> int {
    if d <= PI {
        cos_half_spec(d)
    } else {
        cos_half_spec(TAU - d)
    }
}

/// Arccosine of `q / UNIT` for `q` in `[0, UNIT]`, in billionths of a
/// radian: a square-root expansion around `q == UNIT`, exact there.
pub open spec fn acos_pos_spec(q: int) -> int {
    let e = UNIT - q;
    (sqrt_floor((2 * e * UNIT) as nat) as int) * (12 * UNIT + e) / (12 * UNIT)
}

/// Arccosine of `q / UNIT` for `q` in `[-UNIT, UNIT]`, in billionths of a
/// radian, inside `[0, PI]`; exact at both ends of the domain.
pub open spec fn acos_spec(q: int) -> int {
    if q >= 0 {
        acos_pos_spec(q)
    } else {
        PI - acos_pos_spec(-q)
    }
}

/// The arctangent approximation stays inside `[0, FRAC_PI_2)`.
pub proof fn lemma_atan_poly_bounds(t: int)
    requires
        0 <= t <= UNIT,
    ensures
        0 <= atan_poly_spec(t) < FRAC_PI_2,
        t == 0 ==> atan_poly_spec(t) == 0,
{
    let p1 = t * PI;
    let p2 = ATAN_C * t * (UNIT - t);
    assert(0 <= p1 <= (UNIT as int) * PI) by (nonlinear_arith)
        requires
            p1 == t * PI,
            0 <= t <= UNIT,
    ;
    assert(0 <= p2 <= 68_250_000 * ((UNIT as int) * UNIT)) by (nonlinear_arith)
        requires
            p2 == (ATAN_C as int) * t * (UNIT - t),
            0 <= t <= UNIT,
    ;
    lemma_div_pos_bounds(p1, 4 * UNIT);
    lemma_div_pos_bounds(p2, (UNIT as int) * UNIT);
    lemma_div_is_ordered(p1, (UNIT as int) * PI, 4 * UNIT);
    lemma_div_is_ordered(p2, 68_250_000 * ((UNIT as int) * UNIT), (UNIT as int) * UNIT);
    assert((UNIT as int) * PI == (4 * (UNIT as int)) * 785_398_163 + 2_000_000_000)
        by (nonlinear_arith);
    lemma_fundamental_div_mod_converse(
        (UNIT as int) * PI,
        4 * UNIT,
        785_398_163,
        2_000_000_000,
    );
    assert(68_250_000 * ((UNIT as int) * UNIT) == 68_250_000 * ((UNIT as int) * UNIT) + 0);
    lemma_fundamental_div_mod_converse(
        68_250_000 * ((UNIT as int) * UNIT),
        (UNIT as int) * UNIT,
        68_250_000,
        0,
    );
    if t == 0 {
        assert(p1 == 0 && p2 == 0) by (nonlinear_arith)
            requires
                p1 == t * PI,
                p2 == (ATAN_C as int) * t * (UNIT - t),
                t == 0,
        ;
    }
}

/// Executable arctangent of `t / UNIT`.
pub(crate) fn atan_poly(t: i64) -> (r: i64)
    requires
        0 <= t <= UNIT,
    ensures
        r as int == atan_poly_spec(t as int),
        0 <= r < FRAC_PI_2,
{
    proof {
        lemma_atan_poly_bounds(t as int);
    }
    let t1: i128 = (t as i128) * (PI as i128) / (4 * (UNIT as i128));
    let t2: i128 = (ATAN_C as i128) * (t as i128) * ((UNIT as i128) - (t as i128)) / ((UNIT
        as i128) * (UNIT as i128));
    (t1 + t2) as i64
}

/// Executable arctangent of a ratio.
pub(crate) fn atan_ratio(num: i128, den: i128) -> (r: i64)
    requires
        den != 0,
        -ATAN_SPAN <= num <= ATAN_SPAN,
        -ATAN_SPAN <= den <= ATAN_SPAN,
    ensures
        r as int == atan_ratio_spec(num as int, den as int),
        -FRAC_PI_2 <= r <= FRAC_PI_2,
{
    let a: i128 = if num < 0 {
        -num
    } else {
        num
    };
    let b: i128 = if den < 0 {
        -den
    } else {
        den
    };
    let m: i64 = if a <= b {
        proof {
            assert(a * UNIT <= b * UNIT) by (nonlinear_arith)
                requires
                    0 <= a <= b,
            ;
            lemma_div_is_ordered(a * UNIT, b * UNIT, b as int);
            lemma_div_multiples_vanish(UNIT as int, b as int);
            assert(b * UNIT == (b as int) * (UNIT as int));
            lemma_div_pos_bounds(a * UNIT, b as int);
        }
        atan_poly((a * (UNIT as i128) / b) as i64)
    } else {
        proof {
            assert(b * UNIT <= a * UNIT) by (nonlinear_arith)
                requires
                    0 <= b <= a,
            ;
            lemma_div_is_ordered(b * UNIT, a * UNIT, a as int);
            lemma_div_multiples_vanish(UNIT as int, a as int);
            lemma_div_pos_bounds(b * UNIT, a as int);
        }
        let inner = atan_poly((b * (UNIT as i128) / a) as i64);
        FRAC_PI_2 - inner
    };
    if (num < 0) == (den < 0) {
        m
    } else {
        -m
    }
}

/// Bhaskara's approximation stays inside `[0, UNIT]` on `[0, PI]`.
pub proof fn lemma_sin_half_bounds(a: int)
    requires
        0 <= a <= PI,
    ensures
        0 <= sin_half_spec(a) <= UNIT,
        0 <= a * (PI - a),
        4 * (a * (PI - a)) <= (PI as int) * PI,
        (PI as int) * PI < 0x1_0000_0000_0000_0000,
        5 * ((PI as int) * PI) - 4 * (a * (PI - a)) > 0,
{
    assert((PI as int) * PI < 0x1_0000_0000_0000_0000) by (nonlinear_arith);
    let u = a * (PI - a);
    let den = 5 * PI * PI - 4 * u;
    assert(0 <= 4 * u <= (PI as int) * PI) by (nonlinear_arith)
        requires
            u == a * (PI - a),
            0 <= a <= PI,
    ;
    assert(den >= 4 * ((PI as int) * PI) > 0) by (nonlinear_arith)
        requires
            den == 5 * (PI as int) * PI - 4 * u,
            4 * u <= (PI as int) * PI,
    ;
    assert(0 <= 16 * u * UNIT <= den * UNIT) by (nonlinear_arith)
        requires
            den == 5 * (PI as int) * PI - 4 * u,
            0 <= 4 * u <= (PI as int) * PI,
    ;
    lemma_div_pos_bounds(16 * u * UNIT, den);
    lemma_div_is_ordered(16 * u * UNIT, den * UNIT, den);
    lemma_div_multiples_vanish(UNIT as int, den);
}

/// Executable sine on `[0, PI]`.
pub(crate) fn sin_half(a: i64) -> (r: i64)
    requires
        0 <= a <= PI,
    ensures
        r as int == sin_half_spec(a as int),
        0 <= r <= UNIT,
{
    proof {
        lemma_sin_half_bounds(a as int);
    }
    let u: i128 = (a as i128) * ((PI as i128) - (a as i128));
    let num: i128 = 16 * u * (UNIT as i128);
    let den: i128 = 5 * (PI as i128) * (PI as i128) - 4 * u;
    proof {
        assert(den > 0);
        assert(num / den == sin_half_spec(a as int));
    }
    (num / den) as i64
}

/// Executable sine of a latitude.
pub(crate) fn sin_lat(a: i64) -> (r: i64)
    requires
        -FRAC_PI_2 <= a <= FRAC_PI_2,
    ensures
        r as int == sin_lat_spec(a as int),
        -UNIT <= r <= UNIT,
{
    if a >= 0 {
        sin_half(a)
    } else {
        let s = sin_half(-a);
        -s
    }
}

/// Executable cosine on `[0, PI]`.
pub(crate) fn cos_half(d: i64) -> (r: i64)
    requires
        0 <= d <= PI,
    ensures
        r as int == cos_half_spec(d as int),
        -UNIT <= r <= UNIT,
{
    if d <= FRAC_PI_2 {
        sin_half(FRAC_PI_2 + d)
    } else {
        let s = sin_half(d - FRAC_PI_2);
        -s
    }
}

/// Executable cosine of a latitude.
pub(crate) fn cos_lat(a: i64) -> (r: i64)
    requires
        -FRAC_PI_2 <= a <= FRAC_PI_2,
    ensures
        r as int == cos_lat_spec(a as int),
        -UNIT <= r <= UNIT,
{
    if a >= 0 {
        cos_half(a)
    } else {
        cos_half(-a)
    }
}

/// Executable cosine of a longitude difference.
pub(crate) fn cos_delta(d: i64) -> (r: i64)
    requires
        0 <= d < TAU,
    ensures
        r as int == cos_delta_spec(d as int),
        -UNIT <= r <= UNIT,
{
    if d <= PI {
        cos_half(d)
    } else {
        cos_half(TAU - d)
    }
}

/// The arccosine stays inside `[0, PI]`, reaching `0` at `UNIT` and `PI` at
/// `-UNIT`.
pub proof fn lemma_acos_bounds(q: int)
    requires
        -UNIT <= q <= UNIT,
    ensures
        0 <= acos_spec(q) <= PI,
        q == UNIT ==> acos_spec(q) == 0,
        q == -UNIT ==> acos_spec(q) == PI,
{
    lemma_acos_pos_bounds(if q >= 0 {
        q
    } else {
        -q
    });
}

/// Bounds for the non-negative branch of the arccosine.
pub proof fn lemma_acos_pos_bounds(q: int)
    requires
        0 <= q <= UNIT,
    ensures
        0 <= acos_pos_spec(q) <= 1_532_064_692,
        q == UNIT ==> acos_pos_spec(q) == 0,
{
    let e = UNIT - q;
    let s = sqrt_floor((2 * e * UNIT) as nat) as int;
    lemma_sqrt_floor_bounds((2 * e * UNIT) as nat);
    lemma_sqrt_floor_monotone((2 * e * UNIT) as nat, (2 * (UNIT as int) * UNIT) as nat);
    assert(1_414_213_562 * 1_414_213_562 <= 2 * (UNIT as int) * UNIT < 1_414_213_563
        * 1_414_213_563) by (nonlinear_arith);
    lemma_sqrt_floor_unique((2 * (UNIT as int) * UNIT) as nat, 1_414_213_562nat);
    assert(s * (12 * UNIT + e) <= 1_414_213_562 * (13 * (UNIT as int))) by (nonlinear_arith)
        requires
            0 <= s <= 1_414_213_562,
            0 <= e <= UNIT,
    ;
    assert(s * (12 * UNIT + e) >= 0) by (nonlinear_arith)
        requires
            0 <= s,
            0 <= e,
    ;
    lemma_div_pos_bounds(s * (12 * UNIT + e), 12 * UNIT);
    lemma_div_is_ordered(s * (12 * UNIT + e), 1_414_213_562 * (13 * (UNIT as int)), 12 * UNIT);
    assert(1_414_213_562 * (13 * (UNIT as int)) / (12 * (UNIT as int)) == 1_532_064_692)
        by (nonlinear_arith);
    if q == UNIT {
        assert(e == 0);
        assert(2 * e * UNIT == 0) by (nonlinear_arith)
            requires
                e == 0,
        ;
        assert(sqrt_floor((2 * e * UNIT) as nat) == 0) by {
            assert((2 * e * UNIT) as nat == 0nat);
            assert(sqrt_floor(0nat) == 0);
        }
        assert(s == 0);
        assert(s * (12 * UNIT + e) == 0) by (nonlinear_arith)
            requires
                s == 0,
        ;
        lemma_div_pos_bounds(0, 12 * UNIT);
        assert(acos_pos_spec(q) == 0);
    }
}

/// Executable arccosine of `q / UNIT`.
pub(crate) fn acos_units(q: i64) -> (r: i64)
    requires
        -UNIT <= q <= UNIT,
    ensures
        r as int == acos_spec(q as int),
        0 <= r <= PI,
{
    proof {
        lemma_acos_bounds(q as int);
    }
    if q >= 0 {
        acos_pos(q)
    } else {
        let p = acos_pos(-q);
        PI - p
    }
}

/// Executable arccosine for the non-negative half of the domain.
pub(crate) fn acos_pos(q: i64) -> (r: i64)
    requires
        0 <= q <= UNIT,
    ensures
        r as int == acos_pos_spec(q as int),
        0 <= r <= 1_532_064_692,
{
    proof {
        lemma_acos_pos_bounds(q as int);
    }
    let e: i64 = UNIT - q;
    let s: u64 = isqrt((2 * (e as u128)) * (UNIT as u128));
    proof {
        assert((2 * (e as u128) * (UNIT as u128)) as nat == (2 * (e as int) * UNIT) as nat);
    }
    ((s as i128) * (12 * (UNIT as i128) + (e as i128)) / (12 * (UNIT as i128))) as i64
}

} // verus!
