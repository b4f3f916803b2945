//! Equirectangular projection.

use super::Projection;
use crate::cartesian;
use crate::geographic;
use crate::scalar::{
    abs_int, fold_spec, lemma_div_pos_bounds, lemma_fold_identity, lemma_tdiv_mul_exact,
    lemma_wrap_identity, tdiv, wrap_spec, FRAC_PI_2, PI, UNIT,
};
use vstd::arithmetic::div_mod::{
    lemma_div_is_ordered, lemma_fundamental_div_mod, lemma_fundamental_div_mod_converse,
    lemma_mod_division_less_than_divisor,
};
use vstd::prelude::*;

verus! {

/// Largest radius the projection accepts: generous enough for any sphere,
/// small enough that a projected half turn still fits in a scalar.
pub const MAX_RADIUS: u64 = 2_900_000_000_000_000_000;

/// The equirectangular projection: longitude and latitude scale linearly
/// into planar `x` and `y` by a fixed radius. The radius is a length in
/// billionths of the unit length, never negative; zero is accepted and
/// degenerates `forward` to the origin, leaving nothing for `reverse` to
/// invert.
#[derive(Debug, Clone, Copy, PartialEq, Eq, Structural)]
pub struct Equirectangular {
    radius: u64,
}

impl View for Equirectangular {
    type V = int;

    closed spec fn view(&self) -> int {
        self.radius as int
    }
}

impl Default for Equirectangular {
    /// The degenerate projection of radius zero.
    fn default() -> (r: Self)
        ensures
            r@ == 0,
    {
        Equirectangular { radius: 0 }
    }
}

impl Equirectangular {
    #[verifier::type_invariant]
    spec fn radius_in_range(self) -> bool {
        self.radius <= MAX_RADIUS
    }

    /// A projection of the given radius, in billionths of the unit length.
    pub fn new(radius: u64) -> (r: Self)
        requires
            radius <= MAX_RADIUS,
        ensures
            r@ == radius,
    {
        Equirectangular { radius }
    }

    /// The configured radius, in billionths of the unit length.
    pub fn radius(&self) -> (r: u64)
        ensures
            r as int == self@,
            r <= MAX_RADIUS,
    {
        proof {
            use_type_invariant(&*self);
        }
        self.radius
    }
}

/// An angle scaled by a radius: `radius * angle / UNIT`, truncated toward
/// zero.
fn scale_by_radius(radius: u64, angle: i64) -> (r: i64)
    requires
        radius <= MAX_RADIUS,
        -PI <= angle <= PI,
    ensures
        r as int == tdiv(radius * angle, UNIT as int),
{
    proof {
        lemma_scale_in_bounds(radius as int, angle as int);
    }
    if angle >= 0 {
        (((radius as i128) * (angle as i128)) / (UNIT as i128)) as i64
    } else {
        (-(((radius as i128) * (-(angle as i128))) / (UNIT as i128))) as i64
    }
}

/// The scaled angle fits in a scalar.
proof fn lemma_scale_in_bounds(radius: int, angle: int)
    requires
        0 <= radius <= MAX_RADIUS,
        -PI <= angle <= PI,
    ensures
        0 <= radius * abs_int(angle) <= (MAX_RADIUS as int) * PI,
        radius * abs_int(angle) == abs_int(radius * angle),
        0 <= radius * abs_int(angle) / (UNIT as int) <= 9_110_618_696_600_000_000,
        angle >= 0 ==> radius * angle == radius * abs_int(angle),
        angle < 0 ==> radius * abs_int(angle) == -(radius * angle),
{
    assert(0 <= radius * abs_int(angle) <= (MAX_RADIUS as int) * PI && radius * abs_int(angle)
        == abs_int(radius * angle) && (angle >= 0 ==> radius * angle == radius * abs_int(angle))
        && (angle < 0 ==> radius * abs_int(angle) == -(radius * angle))) by (nonlinear_arith)
        requires
            0 <= radius <= MAX_RADIUS,
            -PI <= angle <= PI,
    ;
    lemma_div_pos_bounds(radius * abs_int(angle), UNIT as int);
    lemma_div_is_ordered(radius * abs_int(angle), (MAX_RADIUS as int) * PI, UNIT as int);
    assert((MAX_RADIUS as int) * PI == (UNIT as int) * 9_110_618_696_600_000_000 + 0)
        by (nonlinear_arith);
    lemma_fundamental_div_mod_converse(
        (MAX_RADIUS as int) * PI,
        UNIT as int,
        9_110_618_696_600_000_000,
        0,
    );
}

impl Projection for Equirectangular {
    /// A non-zero radius can be inverted.
    open spec fn reversible(&self) -> bool {
        self@ > 0
    }

    /// Scales longitude into `x` and latitude into `y`; the projection is
    /// two-dimensional, so `z` stays zero.
    fn forward(&self, coordinates: &geographic::Coordinates) -> (r: cartesian::Coordinates)
        ensures
            r.x as int == tdiv(self@ * coordinates.longitude@, UNIT as int),
            r.y as int == tdiv(self@ * coordinates.latitude@, UNIT as int),
            r.z == 0,
    {
        proof {
            use_type_invariant(&*self);
        }
        let lon = coordinates.longitude.as_float();
        let lat = coordinates.latitude.as_float();
        cartesian::Coordinates {
            x: scale_by_radius(self.radius, lon),
            y: scale_by_radius(self.radius, lat),
            z: 0,
        }
    }

    /// Unscales `x` back into a longitude and `y` back into a latitude,
    /// each normalized by its own type; the altitude is left at its
    /// default.
    fn reverse(&self, coordinates: &cartesian::Coordinates) -> (r: geographic::Coordinates)
        ensures
            r.longitude@ == wrap_spec(tdiv(coordinates.x * UNIT, self@)),
            r.latitude@ == fold_spec(tdiv(coordinates.y * UNIT, self@)),
            r.altitude@ == 0,
    {
        proof {
            use_type_invariant(&*self);
            lemma_unscale_in_span(coordinates.x as int, self@);
            lemma_unscale_in_span(coordinates.y as int, self@);
        }
        let lon_wide: i128 = unscale_by_radius(coordinates.x, self.radius);
        let lat_wide: i128 = unscale_by_radius(coordinates.y, self.radius);
        geographic::Coordinates {
            longitude: geographic::Longitude::from_wide(lon_wide),
            latitude: geographic::Latitude::from_wide(lat_wide),
            altitude: geographic::Altitude::from(0),
        }
    }
}

/// A planar coordinate divided back by a radius: `value * UNIT / radius`,
/// truncated toward zero.
fn unscale_by_radius(value: i64, radius: u64) -> (r: i128)
    requires
        radius > 0,
    ensures
        r as int == tdiv(value * UNIT, radius as int),
{
    proof {
        assert(abs_int(value * UNIT) <= 0x8000_0000_0000_0000 * (UNIT as int) && (value >= 0
            ==> value * UNIT >= 0 && value * UNIT == abs_int(value * UNIT)) && (value < 0
            ==> abs_int(value * UNIT) == -(value * UNIT))) by (nonlinear_arith);
        lemma_div_pos_bounds(abs_int((value as int) * UNIT), radius as int);
    }
    if value >= 0 {
        ((value as i128) * (UNIT as i128)) / (radius as i128)
    } else {
        -((-((value as i128) * (UNIT as i128))) / (radius as i128))
    }
}

/// The unscaled coordinate is small enough for the angle normalizers.
proof fn lemma_unscale_in_span(value: int, radius: int)
    requires
        abs_int(value) <= 0x8000_0000_0000_0000,
        radius > 0,
    ensures
        -crate::scalar::NORM_SPAN <= tdiv(value * UNIT, radius) <= crate::scalar::NORM_SPAN,
{
    assert(abs_int(value * UNIT) <= 0x8000_0000_0000_0000 * (UNIT as int)) by (nonlinear_arith)
        requires
            abs_int(value) <= 0x8000_0000_0000_0000,
    ;
    if value * UNIT >= 0 {
        lemma_div_pos_bounds(value * UNIT, radius);
    } else {
        lemma_div_pos_bounds(-(value * UNIT), radius);
    }
}

/// Law: with a radius that is a whole number of unit lengths, the
/// equirectangular round trip is exact. Projecting any in-range longitude
/// and latitude with `forward` and mapping the plane back with `reverse`
/// recovers them unchanged, so `reverse(forward(g)) == g` up to the
/// altitude, which the projection does not carry.
pub proof fn lemma_reverse_inverts_forward(radius: int, lon: int, lat: int)
    requires
        radius > 0,
        radius % (UNIT as int) == 0,
        -PI <= lon < PI,
        -FRAC_PI_2 <= lat <= FRAC_PI_2,
    ensures
        wrap_spec(tdiv(tdiv(radius * lon, UNIT as int) * UNIT, radius)) == lon,
        fold_spec(tdiv(tdiv(radius * lat, UNIT as int) * UNIT, radius)) == lat,
{
    lemma_round_trip_exact(radius, lon);
    lemma_round_trip_exact(radius, lat);
    lemma_wrap_identity(lon);
    lemma_fold_identity(lat);
}

/// Law: for any positive radius, the equirectangular round trip brings an
/// in-range angle back to within `UNIT / radius + 1` billionths of a
/// radian of itself, on the same side of zero and still in range, so no
/// wrap or fold disturbs it.
pub proof fn lemma_reverse_approximates_forward(radius: int, angle: int)
    requires
        radius > 0,
        -PI <= angle <= PI,
    ensures
        ({
            let back = tdiv(tdiv(radius * angle, UNIT as int) * UNIT, radius);
            &&& abs_int(back) <= abs_int(angle)
            &&& abs_int(angle - back) <= UNIT as int / radius + 1
            &&& angle >= 0 ==> 0 <= back <= angle
            &&& angle <= 0 ==> angle <= back <= 0
        }),
{
    if angle >= 0 {
        lemma_round_trip_nonneg(radius, angle);
    } else {
        lemma_round_trip_nonneg(radius, -angle);
        lemma_tdiv_negates(radius * angle, UNIT as int);
        assert(radius * (-angle) == -(radius * angle)) by (nonlinear_arith);
        lemma_tdiv_negates(tdiv(radius * angle, UNIT as int) * UNIT, radius);
        assert(tdiv(radius * (-angle), UNIT as int) * UNIT == -(tdiv(radius * angle, UNIT as int)
            * UNIT)) by (nonlinear_arith)
            requires
                tdiv(radius * (-angle), UNIT as int) == -tdiv(radius * angle, UNIT as int),
        ;
    }
}

/// Truncating division commutes with negation of the dividend.
proof fn lemma_tdiv_negates(n: int, d: int)
    requires
        d > 0,
    ensures
        tdiv(-n, d) == -tdiv(n, d),
{
}

/// The round trip of a non-negative angle: exact when the radius is a
/// multiple of the unit, and within `UNIT / radius + 1` below the angle in
/// general.
proof fn lemma_round_trip_nonneg(radius: int, angle: int)
    requires
        radius > 0,
        0 <= angle,
    ensures
        ({
            let back = tdiv(tdiv(radius * angle, UNIT as int) * UNIT, radius);
            &&& 0 <= back <= angle
            &&& angle - back <= UNIT as int / radius + 1
        }),
{
    let u = UNIT as int;
    let prod = radius * angle;
    assert(prod >= 0) by (nonlinear_arith)
        requires
            prod == radius * angle,
            radius > 0,
            0 <= angle,
    ;
    let x = prod / u;
    lemma_div_pos_bounds(prod, u);
    lemma_fundamental_div_mod(prod, u);
    lemma_mod_division_less_than_divisor(prod, u);
    let r1 = prod % u;
    assert(x * u >= 0) by (nonlinear_arith)
        requires
            x >= 0,
            u > 0,
    ;
    let back = (x * u) / radius;
    lemma_div_pos_bounds(x * u, radius);
    lemma_fundamental_div_mod(x * u, radius);
    lemma_mod_division_less_than_divisor(x * u, radius);
    let r2 = (x * u) % radius;
    assert(radius * (angle - back) == r1 + r2) by (nonlinear_arith)
        requires
            prod == radius * angle,
            prod == u * x + r1,
            x * u == radius * back + r2,
    ;
    assert(angle - back >= 0) by (nonlinear_arith)
        requires
            radius * (angle - back) == r1 + r2,
            r1 >= 0,
            r2 >= 0,
            radius > 0,
    ;
    lemma_fundamental_div_mod(u, radius);
    lemma_mod_division_less_than_divisor(u, radius);
    assert(angle - back <= u / radius + 1) by (nonlinear_arith)
        requires
            radius * (angle - back) == r1 + r2,
            r1 < u,
            r2 < radius,
            radius > 0,
            u == radius * (u / radius) + u % radius,
            0 <= u % radius < radius,
    ;
    assert(tdiv(radius * angle, u) == x);
    assert(tdiv(x * u, radius) == back);
}

/// The round trip is exact when the radius is a whole number of units.
proof fn lemma_round_trip_exact(radius: int, angle: int)
    requires
        radius > 0,
        radius % (UNIT as int) == 0,
    ensures
        tdiv(tdiv(radius * angle, UNIT as int) * UNIT, radius) == angle,
{
    let u = UNIT as int;
    let m = radius / u;
    lemma_fundamental_div_mod(radius, u);
    assert(radius == u * m);
    assert(m > 0) by (nonlinear_arith)
        requires
            radius == u * m,
            radius > 0,
            u > 0,
    ;
    assert(radius * angle == (m * angle) * u) by (nonlinear_arith)
        requires
            radius == u * m,
    ;
    lemma_tdiv_mul_exact(m * angle, u);
    assert((m * angle) * u == angle * radius) by (nonlinear_arith)
        requires
            radius == u * m,
    ;
    assert(tdiv(radius * angle, u) * u == angle * radius) by (nonlinear_arith)
        requires
            tdiv(radius * angle, u) == m * angle,
            radius == u * m,
    ;
    lemma_tdiv_mul_exact(angle, radius);
}

} // verus!
