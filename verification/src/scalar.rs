//! Fixed-point scalars and the arithmetic the coordinate types are built on.
//!
//! A scalar is an `i64` counting billionths: billionths of a radian for
//! angles, billionths of the abstract unit length for distances. [`PI`] is
//! the half turn in that representation, and all angle normalization is
//! exact integer arithmetic relative to it.

use vstd::arithmetic::div_mod::{
    lemma_div_multiples_vanish, lemma_fundamental_div_mod, lemma_fundamental_div_mod_converse,
    lemma_mod_division_less_than_divisor, lemma_mod_multiples_vanish, lemma_small_mod,
};
use vstd::prelude::*;

verus! {

/// One whole unit (1.0) in the fixed-point representation.
pub const UNIT: i64 = 1_000_000_000;

/// A half turn (pi radians) in billionths of a radian, rounded to the
/// nearest even count so that [`FRAC_PI_2`] is exact.
pub const PI: i64 = 3_141_592_654;

/// A quarter turn (pi/2 radians): exactly half of [`PI`].
pub const FRAC_PI_2: i64 = 1_570_796_327;

/// A full turn (2 pi radians): exactly twice [`PI`].
pub const TAU: i64 = 6_283_185_308;

/// Absolute value of a mathematical integer.
pub open spec fn abs_int(v: int) -> int {
    if v < 0 {
        -v
    } else {
        v
    }
}

/// Division truncated toward zero (what `/` computes on machine integers),
/// for a positive divisor.
pub open spec fn tdiv(n: int, d: int) -> int {
    if n >= 0 {
        n / d
    } else {
        -((-n) / d)
    }
}

/// Cyclic wrap of an angle into the longitude range `[-PI, PI)`: crossing
/// one boundary re-enters at the other, preserving the direction of travel.
pub open spec fn wrap_spec(v: int) -> int {
    (v + PI) % (TAU as int) - PI
}

/// Reflective fold of an angle into the latitude range `[-PI/2, PI/2]`:
/// moving past one pole bounces back toward the other, as `asin(sin(v))`
/// does for real angles.
pub open spec fn fold_spec(v: int) -> int {
    let w = (v + FRAC_PI_2) % (TAU as int);
    if w <= PI {
        w - FRAC_PI_2
    } else {
        3 * FRAC_PI_2 - w
    }
}

/// Floor of the square root of a natural number.
pub open spec fn sqrt_floor(n: nat) -> nat
    decreases n,
{
    if n == 0 {
        0
    } else {
        let r = sqrt_floor((n - 1) as nat);
        if (r + 1) * (r + 1) <= n {
            r + 1
        } else {
            r
        }
    }
}

/// An angle already inside the longitude range is left unchanged.
pub proof fn lemma_wrap_identity(v: int)
    requires
        -PI <= v < PI,
    ensures
        wrap_spec(v) == v,
{
    lemma_small_mod((v + PI) as nat, TAU as nat);
}

/// Wrap-around continuity: overflowing the upper longitude boundary by `k`
/// lands at the same angle as entering from the lower boundary by `k`.
pub proof fn lemma_wrap_boundary_continuity(k: int)
    ensures
        wrap_spec(PI + k) == wrap_spec(-PI + k),
{
    lemma_mod_multiples_vanish(1, k, TAU as int);
    assert(PI + k + PI == (TAU as int) * 1 + k);
}

/// An angle already inside the latitude range is left unchanged.
pub proof fn lemma_fold_identity(v: int)
    requires
        -FRAC_PI_2 <= v <= FRAC_PI_2,
    ensures
        fold_spec(v) == v,
{
    lemma_small_mod((v + FRAC_PI_2) as nat, TAU as nat);
}

/// Law: the fold is periodic with a full turn, so an angle that overshoots
/// a pole by whole turns folds back to the same latitude as its reduced
/// form does.
pub proof fn lemma_fold_periodic(v: int)
    ensures
        fold_spec(v + TAU) == fold_spec(v),
{
    lemma_mod_multiples_vanish(1, v + FRAC_PI_2, TAU as int);
}

/// Law: the fold reflects across the south pole: an angle that overshoots
/// `-PI/2` by some amount folds back to the same latitude as the angle that
/// stays short of it by the same amount, `fold(-PI - v) == fold(v)`.
pub proof fn lemma_fold_reflects_across_pole(v: int)
    ensures
        fold_spec(-PI - v) == fold_spec(v),
{
    let m = TAU as int;
    let a = v + FRAC_PI_2;
    lemma_fundamental_div_mod(a, m);
    lemma_mod_division_less_than_divisor(a, m);
    let q = a / m;
    let w = a % m;
    assert(-PI - v + FRAC_PI_2 == -a);
    if w == 0 {
        assert(-a == (-q) * m + 0) by (nonlinear_arith)
            requires
                a == m * q + 0,
        ;
        lemma_fundamental_div_mod_converse(-a, m, -q, 0);
    } else {
        assert(-a == (-q - 1) * m + (m - w)) by (nonlinear_arith)
            requires
                a == m * q + w,
        ;
        lemma_fundamental_div_mod_converse(-a, m, -q - 1, m - w);
    }
}

/// `sqrt_floor` is the floor of the square root.
pub proof fn lemma_sqrt_floor_bounds(n: nat)
    ensures
        sqrt_floor(n) * sqrt_floor(n) <= n,
        n < (sqrt_floor(n) + 1) * (sqrt_floor(n) + 1),
    decreases n,
{
    if n == 0 {
        let s = sqrt_floor(n);
        assert(s == 0);
        assert((s + 1) * (s + 1) == 1) by (nonlinear_arith)
            requires
                s == 0,
        ;
    } else {
        lemma_sqrt_floor_bounds((n - 1) as nat);
        let r = sqrt_floor((n - 1) as nat);
        if (r + 1) * (r + 1) <= n {
            assert(sqrt_floor(n) == r + 1);
            assert(n <= (r + 1) * (r + 1));
            assert((r + 1) * (r + 1) < (r + 2) * (r + 2)) by (nonlinear_arith);
            assert(sqrt_floor(n) * sqrt_floor(n) <= n);
            assert(n < (sqrt_floor(n) + 1) * (sqrt_floor(n) + 1));
        } else {
            assert(sqrt_floor(n) == r);
            assert(sqrt_floor(n) * sqrt_floor(n) <= n);
            assert(n < (sqrt_floor(n) + 1) * (sqrt_floor(n) + 1));
        }
    }
}

/// The floor of the square root is the only natural number whose square
/// bracket `n` this way.
pub proof fn lemma_sqrt_floor_unique(n: nat, r: nat)
    requires
        r * r <= n,
        n < (r + 1) * (r + 1),
    ensures
        r == sqrt_floor(n),
{
    lemma_sqrt_floor_bounds(n);
    let s = sqrt_floor(n);
    assert(r == s) by (nonlinear_arith)
        requires
            r * r <= n,
            n < (r + 1) * (r + 1),
            s * s <= n,
            n < (s + 1) * (s + 1),
    ;
}

/// `sqrt_floor` is monotone.
pub proof fn lemma_sqrt_floor_monotone(a: nat, b: nat)
    requires
        a <= b,
    ensures
        sqrt_floor(a) <= sqrt_floor(b),
{
    lemma_sqrt_floor_bounds(a);
    lemma_sqrt_floor_bounds(b);
    let ra = sqrt_floor(a);
    let rb = sqrt_floor(b);
    assert(ra <= rb) by (nonlinear_arith)
        requires
            ra * ra <= a,
            a <= b,
            b < (rb + 1) * (rb + 1),
    ;
}

/// Dividing an exact product back by its divisor recovers the factor, also
/// under truncating division.
pub proof fn lemma_tdiv_mul_exact(a: int, d: int)
    requires
        d > 0,
    ensures
        tdiv(a * d, d) == a,
{
    if a >= 0 {
        assert(a * d == d * a) by (nonlinear_arith);
        lemma_div_multiples_vanish(a, d);
    } else {
        assert(-(a * d) == d * (-a)) by (nonlinear_arith);
        lemma_div_multiples_vanish(-a, d);
    }
}

/// A non-negative dividend keeps its quotient between zero and itself.
pub proof fn lemma_div_pos_bounds(n: int, d: int)
    requires
        n >= 0,
        d > 0,
    ensures
        0 <= n / d <= n,
{
    lemma_fundamental_div_mod(n, d);
    lemma_mod_division_less_than_divisor(n, d);
    assert(0 <= n / d <= n) by (nonlinear_arith)
        requires
            d > 0,
            n >= 0,
            n == d * (n / d) + n % d,
            0 <= n % d < d,
    ;
}

/// Largest magnitude the arctangent helper accepts for either side of its
/// ratio; far beyond any value the coordinate formulas can produce.
pub(crate) const ATAN_SPAN: i128 = 1_180_591_620_717_411_303_424;

/// Largest magnitude the wrapping and folding helpers accept; far beyond any
/// value the coordinate formulas can produce.
pub(crate) const NORM_SPAN: i128 = 39_614_081_257_132_168_796_771_975_168;

/// A multiple of [`TAU`] larger than [`NORM_SPAN`], used to shift an angle
/// into non-negative territory before reducing it modulo a full turn.
pub(crate) const NORM_OFFSET: i128 = 7_417_875_926_039_547_121_466_806_894_592;

/// `NORM_OFFSET` as the multiple of `TAU` it is.
pub(crate) const NORM_OFFSET_TURNS: i128 = 1_180_591_620_717_411_303_424;

/// Wraps an angle into `[-PI, PI)`, exactly as [`wrap_spec`] describes.
pub(crate) fn wrap_i128(v: i128) -> (r: i64)
    requires
        -NORM_SPAN <= v <= NORM_SPAN,
    ensures
        r as int == wrap_spec(v as int),
        -PI <= r < PI,
{
    proof {
        lemma_mod_multiples_vanish(NORM_OFFSET_TURNS as int, v + PI, TAU as int);
        assert((TAU as int) * (NORM_OFFSET_TURNS as int) == NORM_OFFSET as int);
        lemma_mod_division_less_than_divisor(v + PI, TAU as int);
    }
    let shifted: u128 = (v + (PI as i128) + NORM_OFFSET) as u128;
    let m: u128 = shifted % (TAU as u128);
    (m as i128 - PI as i128) as i64
}

/// Folds an angle into `[-PI/2, PI/2]`, exactly as [`fold_spec`] describes.
pub(crate) fn fold_i128(v: i128) -> (r: i64)
    requires
        -NORM_SPAN <= v <= NORM_SPAN,
    ensures
        r as int == fold_spec(v as int),
        -FRAC_PI_2 <= r <= FRAC_PI_2,
{
    proof {
        lemma_mod_multiples_vanish(NORM_OFFSET_TURNS as int, v + FRAC_PI_2, TAU as int);
        assert((TAU as int) * (NORM_OFFSET_TURNS as int) == NORM_OFFSET as int);
        lemma_mod_division_less_than_divisor(v + FRAC_PI_2, TAU as int);
    }
    let shifted: u128 = (v + (FRAC_PI_2 as i128) + NORM_OFFSET) as u128;
    let w: u128 = shifted % (TAU as u128);
    if w <= PI as u128 {
        (w as i128 - FRAC_PI_2 as i128) as i64
    } else {
        (3 * (FRAC_PI_2 as i128) - w as i128) as i64
    }
}

/// Floor of the square root, by binary search on the answer.
pub(crate) fn isqrt(n: u128) -> (r: u64)
    ensures
        r as nat == sqrt_floor(n as nat),
        (r as nat) * (r as nat) <= n as nat,
        (n as nat) < ((r + 1) as nat) * ((r + 1) as nat),
{
    let mut lo: u128 = 0;
    let mut hi: u128 = 0x1_0000_0000_0000_0000;
    proof {
        assert((hi as nat) * (hi as nat) > n as nat) by (nonlinear_arith)
            requires
                hi == 0x1_0000_0000_0000_0000u128,
                n <= u128::MAX,
        ;
    }
    while lo + 1 < hi
        invariant
            0 <= lo < hi <= 0x1_0000_0000_0000_0000,
            (lo as nat) * (lo as nat) <= n as nat,
            (n as nat) < (hi as nat) * (hi as nat),
        decreases hi - lo,
    {
        let mid: u128 = lo + (hi - lo) / 2;
        proof {
            assert(lo < mid < hi);
            assert((mid as nat) * (mid as nat) < 0xffff_ffff_ffff_ffff_ffff_ffff_ffff_ffffnat)
                by (nonlinear_arith)
                requires
                    mid < 0x1_0000_0000_0000_0000u128,
            ;
        }
        if mid * mid <= n {
            lo = mid;
        } else {
            hi = mid;
        }
    }
    proof {
        lemma_sqrt_floor_unique(n as nat, lo as nat);
    }
    lo as u64
}

} // verus!
