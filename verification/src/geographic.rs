//! Geographic system of coordinates.

use crate::cartesian;
use crate::scalar::{
    abs_int, fold_i128, fold_spec, isqrt, lemma_div_pos_bounds, lemma_fold_identity,
    lemma_sqrt_floor_unique, lemma_tdiv_mul_exact, lemma_wrap_boundary_continuity,
    lemma_wrap_identity, sqrt_floor, tdiv, wrap_i128, wrap_spec, FRAC_PI_2, PI, UNIT,
};
use crate::trig::{
    acos_units, atan_ratio, atan_ratio_spec, cos_delta, cos_delta_spec, cos_half_spec, cos_lat,
    cos_lat_spec, acos_spec, lemma_acos_bounds, lemma_atan_poly_bounds, sin_half_spec, sin_lat,
    sin_lat_spec,
};
use vstd::arithmetic::div_mod::lemma_div_multiples_vanish;
use vstd::prelude::*;

verus! {

/// The planar angle of `(x, y)` in billionths of a radian, before
/// normalization: the arctangent of `y / x` corrected by quadrant, a quarter
/// turn on the positive or negative `y` axis, and zero as the documented
/// fallback for the degenerate origin.
pub open spec fn lon_cart_spec(x: int, y: int) -> int {
    if x > 0 {
        atan_ratio_spec(y, x)
    } else if x < 0 && y >= 0 {
        atan_ratio_spec(y, x) + PI
    } else if x < 0 && y < 0 {
        atan_ratio_spec(y, x) - PI
    } else if x == 0 && y > 0 {
        FRAC_PI_2 as int
    } else if x == 0 && y < 0 {
        -FRAC_PI_2 as int
    } else {
        0
    }
}

/// The polar angle of `(x, y, z)` in billionths of a radian: the angle
/// between the positive `z` axis and the point, with a quarter turn as the
/// documented fallback whenever `z` is zero.
pub open spec fn theta_cart_spec(x: int, y: int, z: int) -> int {
    let p = sqrt_floor((x * x + y * y) as nat) as int;
    if z > 0 {
        atan_ratio_spec(p, z)
    } else if z < 0 {
        PI + atan_ratio_spec(p, z)
    } else {
        FRAC_PI_2 as int
    }
}

/// The great-circle distance formula: the arccosine, clamped to its domain,
/// of `sin(lat_a) sin(lat_b) + cos(lat_a) cos(lat_b) cos(|lon_a - lon_b|)`,
/// all in fixed point.
pub open spec fn distance_spec(lon_a: int, lat_a: int, lon_b: int, lat_b: int) -> int {
    let dl = abs_int(lon_a - lon_b);
    let q = tdiv(
        sin_lat_spec(lat_a) * sin_lat_spec(lat_b) * UNIT + cos_lat_spec(lat_a) * cos_lat_spec(
            lat_b,
        ) * cos_delta_spec(dl),
        (UNIT as int) * UNIT,
    );
    let qc = if q > UNIT {
        UNIT as int
    } else if q < -UNIT {
        -UNIT as int
    } else {
        q
    };
    acos_spec(qc)
}

/// Represents the horizontal axis in a geographic system of coordinates:
/// the angle east (positive) or west (negative) of the zero meridian, in
/// billionths of a radian, always inside `[-PI, PI)`. Both boundaries of
/// that range are consecutive, so construction wraps any angle around
/// rather than rejecting it.
#[derive(Debug, Clone, Copy, PartialEq, Eq, Structural)]
pub struct Longitude(i64);

impl View for Longitude {
    type V = int;

    closed spec fn view(&self) -> int {
        self.0 as int
    }
}

impl Longitude {
    #[verifier::type_invariant]
    spec fn in_range(self) -> bool {
        -PI <= self.0 < PI
    }

    /// Builds a longitude from an angle in billionths of a radian, wrapping
    /// it into `[-PI, PI)`; every value is accepted.
    pub fn from(value: i64) -> (r: Self)
        ensures
            r@ == wrap_spec(value as int),
            -PI <= r@ < PI,
    {
        Longitude(wrap_i128(value as i128))
    }

    /// The longitude of a Cartesian point: the planar angle of `(x, y)`,
    /// wrapped into range.
    pub fn from_cartesian(point: cartesian::Coordinates) -> (r: Self)
        ensures
            r@ == wrap_spec(lon_cart_spec(point.x as int, point.y as int)),
            -PI <= r@ < PI,
    {
        let raw: i64 = if point.x > 0 {
            atan_ratio(point.y as i128, point.x as i128)
        } else if point.x < 0 && point.y >= 0 {
            atan_ratio(point.y as i128, point.x as i128) + PI
        } else if point.x < 0 && point.y < 0 {
            atan_ratio(point.y as i128, point.x as i128) - PI
        } else if point.x == 0 && point.y > 0 {
            FRAC_PI_2
        } else if point.x == 0 && point.y < 0 {
            -FRAC_PI_2
        } else {
            0
        };
        Self::from(raw)
    }

    /// Builds a longitude from an angle too large for a scalar, wrapping it
    /// into `[-PI, PI)`.
    pub(crate) fn from_wide(value: i128) -> (r: Self)
        requires
            -crate::scalar::NORM_SPAN <= value <= crate::scalar::NORM_SPAN,
        ensures
            r@ == wrap_spec(value as int),
            -PI <= r@ < PI,
    {
        Longitude(wrap_i128(value))
    }

    /// Returns the wrapped angle, in billionths of a radian.
    pub fn as_float(&self) -> (r: i64)
        ensures
            r as int == self@,
            -PI <= r < PI,
    {
        proof {
            use_type_invariant(&*self);
        }
        self.0
    }
}

impl Default for Longitude {
    /// The zero meridian.
    fn default() -> (r: Self)
        ensures
            r@ == 0,
    {
        Longitude(0)
    }
}

/// Represents the vertical axis in a geographic system of coordinates: the
/// angle between the equatorial plane and the point, in billionths of a
/// radian, always inside `[-PI/2, PI/2]`. Overflowing one boundary folds
/// back toward the opposite one, so construction reflects any angle into
/// range rather than rejecting it.
#[derive(Debug, Clone, Copy, PartialEq, Eq, Structural)]
pub struct Latitude(i64);

impl View for Latitude {
    type V = int;

    closed spec fn view(&self) -> int {
        self.0 as int
    }
}

impl Latitude {
    #[verifier::type_invariant]
    spec fn in_range(self) -> bool {
        -FRAC_PI_2 <= self.0 <= FRAC_PI_2
    }

    /// Builds a latitude from an angle in billionths of a radian, folding
    /// it into `[-PI/2, PI/2]`; every value is accepted.
    pub fn from(value: i64) -> (r: Self)
        ensures
            r@ == fold_spec(value as int),
            -FRAC_PI_2 <= r@ <= FRAC_PI_2,
    {
        Latitude(fold_i128(value as i128))
    }

    /// The latitude of a Cartesian point: a quarter turn minus its polar
    /// angle, folded into range.
    pub fn from_cartesian(point: cartesian::Coordinates) -> (r: Self)
        ensures
            r@ == fold_spec(
                FRAC_PI_2 - theta_cart_spec(point.x as int, point.y as int, point.z as int),
            ),
            -FRAC_PI_2 <= r@ <= FRAC_PI_2,
    {
        let p = planar_radius(point.x, point.y);
        let theta: i64 = if point.z > 0 {
            atan_ratio(p as i128, point.z as i128)
        } else if point.z < 0 {
            let m = atan_ratio(p as i128, point.z as i128);
            PI + m
        } else {
            FRAC_PI_2
        };
        Self::from(FRAC_PI_2 - theta)
    }

    /// Builds a latitude from an angle too large for a scalar, folding it
    /// into `[-PI/2, PI/2]`.
    pub(crate) fn from_wide(value: i128) -> (r: Self)
        requires
            -crate::scalar::NORM_SPAN <= value <= crate::scalar::NORM_SPAN,
        ensures
            r@ == fold_spec(value as int),
            -FRAC_PI_2 <= r@ <= FRAC_PI_2,
    {
        Latitude(fold_i128(value))
    }

    /// Returns the folded angle, in billionths of a radian.
    pub fn as_float(&self) -> (r: i64)
        ensures
            r as int == self@,
            -FRAC_PI_2 <= r <= FRAC_PI_2,
    {
        proof {
            use_type_invariant(&*self);
        }
        self.0
    }
}

impl Default for Latitude {
    /// The equator.
    fn default() -> (r: Self)
        ensures
            r@ == 0,
    {
        Latitude(0)
    }
}

/// The length of the projection of `(x, y, z)` onto the equatorial plane.
fn planar_radius(x: i64, y: i64) -> (r: u64)
    ensures
        r as nat == sqrt_floor((x * x + y * y) as nat),
{
    proof {
        assert(0 <= (x as int) * (x as int) < 0x8000_0000_0000_0000_0000_0000_0000_0000)
            by (nonlinear_arith);
        assert(0 <= (y as int) * (y as int) < 0x8000_0000_0000_0000_0000_0000_0000_0000)
            by (nonlinear_arith);
    }
    let xx: u128 = ((x as i128) * (x as i128)) as u128;
    let yy: u128 = ((y as i128) * (y as i128)) as u128;
    isqrt(xx + yy)
}

/// Represents the radius in a geographic system of coordinates: the
/// distance between the point and the center of the sphere, in billionths
/// of the unit length, never negative. Construction takes the absolute
/// value of its input rather than rejecting a sign.
#[derive(Debug, Clone, Copy, PartialEq, Eq, Structural)]
pub struct Altitude(u64);

impl View for Altitude {
    type V = int;

    closed spec fn view(&self) -> int {
        self.0 as int
    }
}

impl Altitude {
    /// Builds an altitude from a length in billionths of the unit length,
    /// discarding the sign; every value is accepted.
    pub fn from(value: i64) -> (r: Self)
        ensures
            r@ == abs_int(value as int),
    {
        if value >= 0 {
            Altitude(value as u64)
        } else {
            Altitude((-(value as i128)) as u64)
        }
    }

    /// The altitude of a Cartesian point: its Euclidean distance from the
    /// origin, rounded down.
    pub fn from_cartesian(point: cartesian::Coordinates) -> (r: Self)
        ensures
            r@ == sqrt_floor(
                (point.x * point.x + point.y * point.y + point.z * point.z) as nat,
            ),
    {
        proof {
            assert(0 <= (point.x as int) * (point.x as int)
                <= 0x4000_0000_0000_0000_0000_0000_0000_0000) by (nonlinear_arith);
            assert(0 <= (point.y as int) * (point.y as int)
                <= 0x4000_0000_0000_0000_0000_0000_0000_0000) by (nonlinear_arith);
            assert(0 <= (point.z as int) * (point.z as int)
                <= 0x4000_0000_0000_0000_0000_0000_0000_0000) by (nonlinear_arith);
        }
        let xx: u128 = ((point.x as i128) * (point.x as i128)) as u128;
        let yy: u128 = ((point.y as i128) * (point.y as i128)) as u128;
        let zz: u128 = ((point.z as i128) * (point.z as i128)) as u128;
        Altitude(isqrt(xx + yy + zz))
    }

    /// Returns the length, in billionths of the unit length.
    pub fn as_float(&self) -> (r: u64)
        ensures
            r as int == self@,
            r >= 0,
    {
        self.0
    }
}

impl Default for Altitude {
    /// The center of the sphere.
    fn default() -> (r: Self)
        ensures
            r@ == 0,
    {
        Altitude(0)
    }
}

/// Discarding a sign twice lands on the same altitude: built from a length
/// or from its negation, the result is the same.
pub proof fn lemma_altitude_ignores_sign(v: int)
    ensures
        abs_int(v) == abs_int(-v),
        abs_int(v) >= 0,
{
}

/// Coordinates according to the geographical system of coordinates.
#[derive(Debug, Clone, Copy, PartialEq, Eq, Structural)]
pub struct Coordinates {
    pub longitude: Longitude,
    pub latitude: Latitude,
    pub altitude: Altitude,
}

impl Default for Coordinates {
    /// The front point: zero meridian on the equator, at the center of the
    /// sphere.
    fn default() -> (r: Self)
        ensures
            r.longitude@ == 0,
            r.latitude@ == 0,
            r.altitude@ == 0,
    {
        Coordinates { longitude: Longitude(0), latitude: Latitude(0), altitude: Altitude(0) }
    }
}

impl Coordinates {
    /// A copy of the point with its longitude replaced.
    pub fn with_longitude(self, longitude: Longitude) -> (r: Self)
        ensures
            r.longitude == longitude,
            r.latitude == self.latitude,
            r.altitude == self.altitude,
    {
        Coordinates { longitude, ..self }
    }

    /// A copy of the point with its latitude replaced.
    pub fn with_latitude(self, latitude: Latitude) -> (r: Self)
        ensures
            r.longitude == self.longitude,
            r.latitude == latitude,
            r.altitude == self.altitude,
    {
        Coordinates { latitude, ..self }
    }

    /// A copy of the point with its altitude replaced.
    pub fn with_altitude(self, altitude: Altitude) -> (r: Self)
        ensures
            r.longitude == self.longitude,
            r.latitude == self.latitude,
            r.altitude == altitude,
    {
        Coordinates { altitude, ..self }
    }

    /// The geographic reading of a Cartesian point, each component derived
    /// from the same `(x, y, z)` triple by the spherical-coordinate
    /// formulas. A point at distance `r` from the origin along a cardinal
    /// axis comes back with altitude exactly `r` and the longitude and
    /// latitude of that axis.
    pub fn from(point: cartesian::Coordinates) -> (r: Self)
        ensures
            r.longitude@ == wrap_spec(lon_cart_spec(point.x as int, point.y as int)),
            r.latitude@ == fold_spec(
                FRAC_PI_2 - theta_cart_spec(point.x as int, point.y as int, point.z as int),
            ),
            r.altitude@ == sqrt_floor(
                (point.x * point.x + point.y * point.y + point.z * point.z) as nat,
            ),
            point.x == 0 && point.y == 0 && point.z > 0 ==> r.longitude@ == 0 && r.latitude@
                == FRAC_PI_2 && r.altitude@ == point.z,
            point.x == 0 && point.y == 0 && point.z < 0 ==> r.longitude@ == 0 && r.latitude@
                == -FRAC_PI_2 && r.altitude@ == -point.z,
            point.x == 0 && point.y > 0 && point.z == 0 ==> r.longitude@ == FRAC_PI_2
                && r.latitude@ == 0 && r.altitude@ == point.y,
            point.x == 0 && point.y < 0 && point.z == 0 ==> r.longitude@ == -FRAC_PI_2
                && r.latitude@ == 0 && r.altitude@ == -point.y,
            point.x > 0 && point.y == 0 && point.z == 0 ==> r.longitude@ == 0 && r.latitude@ == 0
                && r.altitude@ == point.x,
            point.x < 0 && point.y == 0 && point.z == 0 ==> r.longitude@ == -PI && r.latitude@
                == 0 && r.altitude@ == -point.x,
    {
        let r = Self::default().with_longitude(Longitude::from_cartesian(point)).with_latitude(
            Latitude::from_cartesian(point),
        ).with_altitude(Altitude::from_cartesian(point));
        proof {
            lemma_cardinal_axes(point.x as int, point.y as int, point.z as int);
        }
        r
    }

    /// The great-circle distance from `self` to the given point, in
    /// billionths of a radian: the spherical law of cosines, with the
    /// arccosine argument clamped to its domain where fixed-point rounding
    /// pushes it out.
    pub fn distance(&self, rhs: &Self) -> (r: i64)
        ensures
            r as int == distance_spec(self.longitude@, self.latitude@, rhs.longitude@,
                rhs.latitude@),
            0 <= r <= PI,
    {
        proof {
            use_type_invariant(&self.longitude);
            use_type_invariant(&self.latitude);
            use_type_invariant(&rhs.longitude);
            use_type_invariant(&rhs.latitude);
        }
        let sa = sin_lat(self.latitude.0);
        let sb = sin_lat(rhs.latitude.0);
        let ca = cos_lat(self.latitude.0);
        let cb = cos_lat(rhs.latitude.0);
        let diff: i64 = self.longitude.0 - rhs.longitude.0;
        let dl: i64 = if diff < 0 {
            -diff
        } else {
            diff
        };
        let cd = cos_delta(dl);
        proof {
            let sab = (sa as int) * (sb as int);
            let cab = (ca as int) * (cb as int);
            assert(-1_000_000_000_000_000_000 <= sab <= 1_000_000_000_000_000_000)
                by (nonlinear_arith)
                requires
                    sab == (sa as int) * (sb as int),
                    -UNIT <= sa <= UNIT,
                    -UNIT <= sb <= UNIT,
            ;
            assert(-1_000_000_000_000_000_000 <= cab <= 1_000_000_000_000_000_000)
                by (nonlinear_arith)
                requires
                    cab == (ca as int) * (cb as int),
                    -UNIT <= ca <= UNIT,
                    -UNIT <= cb <= UNIT,
            ;
            assert(-1_000_000_000_000_000_000_000_000_000_000 <= sab * UNIT
                <= 1_000_000_000_000_000_000_000_000_000_000) by (nonlinear_arith)
                requires
                    -1_000_000_000_000_000_000 <= sab <= 1_000_000_000_000_000_000,
            ;
            assert(-1_000_000_000_000_000_000_000_000_000_000 <= cab * cd
                <= 1_000_000_000_000_000_000_000_000_000_000) by (nonlinear_arith)
                requires
                    -1_000_000_000_000_000_000 <= cab <= 1_000_000_000_000_000_000,
                    -UNIT <= cd <= UNIT,
            ;
        }
        let num: i128 = (sa as i128) * (sb as i128) * (UNIT as i128) + (ca as i128) * (cb
            as i128) * (cd as i128);
        let den: i128 = (UNIT as i128) * (UNIT as i128);
        let q128: i128 = if num >= 0 {
            num / den
        } else {
            -((-num) / den)
        };
        proof {
            if num >= 0 {
                lemma_div_pos_bounds(num as int, den as int);
            } else {
                lemma_div_pos_bounds(-(num as int), den as int);
            }
        }
        let q: i64 = if q128 > UNIT as i128 {
            UNIT
        } else if q128 < -(UNIT as i128) {
            -UNIT
        } else {
            q128 as i64
        };
        acos_units(q)
    }
}

/// On the cardinal axes the spherical formulas are exact: the altitude is
/// the distance from the origin, and the planar and polar angles are the
/// axis's own.
proof fn lemma_cardinal_axes(x: int, y: int, z: int)
    requires
        abs_int(x) <= i64::MAX as int + 1,
        abs_int(y) <= i64::MAX as int + 1,
        abs_int(z) <= i64::MAX as int + 1,
    ensures
        x == 0 && y == 0 && z != 0 ==> sqrt_floor((x * x + y * y + z * z) as nat) == abs_int(z)
            && sqrt_floor((x * x + y * y) as nat) == 0,
        x == 0 && z == 0 && y != 0 ==> sqrt_floor((x * x + y * y + z * z) as nat) == abs_int(y),
        y == 0 && z == 0 && x != 0 ==> sqrt_floor((x * x + y * y + z * z) as nat) == abs_int(x),
        z != 0 ==> atan_ratio_spec(0, z) == 0,
        x != 0 ==> atan_ratio_spec(0, x) == 0,
        wrap_spec(0) == 0,
        wrap_spec(FRAC_PI_2 as int) == FRAC_PI_2,
        wrap_spec(-FRAC_PI_2 as int) == -FRAC_PI_2,
        wrap_spec(PI as int) == -PI,
        fold_spec(0) == 0,
        fold_spec(FRAC_PI_2 as int) == FRAC_PI_2,
        fold_spec(-FRAC_PI_2 as int) == -FRAC_PI_2,
{
    assert(abs_int(x) * abs_int(x) == x * x && abs_int(y) * abs_int(y) == y * y && abs_int(z)
        * abs_int(z) == z * z) by (nonlinear_arith);
    if x == 0 && y == 0 {
        assert(x * x + y * y + z * z == z * z) by (nonlinear_arith)
            requires
                x == 0 && y == 0,
        ;
        assert(x * x + y * y == 0) by (nonlinear_arith)
            requires
                x == 0 && y == 0,
        ;
        lemma_sqrt_floor_square(abs_int(z) as nat);
        assert((z * z) as nat == (abs_int(z) as nat) * (abs_int(z) as nat));
        assert(sqrt_floor(0nat) == 0);
    }
    if x == 0 && z == 0 {
        assert(x * x + y * y + z * z == y * y) by (nonlinear_arith)
            requires
                x == 0 && z == 0,
        ;
        lemma_sqrt_floor_square(abs_int(y) as nat);
        assert((y * y) as nat == (abs_int(y) as nat) * (abs_int(y) as nat));
    }
    if y == 0 && z == 0 {
        assert(x * x + y * y + z * z == x * x) by (nonlinear_arith)
            requires
                y == 0 && z == 0,
        ;
        lemma_sqrt_floor_square(abs_int(x) as nat);
        assert((x * x) as nat == (abs_int(x) as nat) * (abs_int(x) as nat));
    }
    if z != 0 {
        lemma_atan_ratio_of_zero(z);
    }
    if x != 0 {
        lemma_atan_ratio_of_zero(x);
    }
    lemma_wrap_identity(0);
    lemma_wrap_identity(FRAC_PI_2 as int);
    lemma_wrap_identity(-FRAC_PI_2 as int);
    lemma_wrap_boundary_continuity(0);
    lemma_wrap_identity(-PI as int);
    lemma_fold_identity(0);
    lemma_fold_identity(FRAC_PI_2 as int);
    lemma_fold_identity(-FRAC_PI_2 as int);
}

/// The fixed-point sine is exact at the cardinal angles.
proof fn lemma_sin_half_cardinals()
    ensures
        sin_half_spec(0) == 0,
        sin_half_spec(FRAC_PI_2 as int) == UNIT,
        sin_half_spec(PI as int) == 0,
{
    assert(5 * (PI as int) * PI > 0) by (nonlinear_arith);
    assert(0 * ((PI as int) - 0) == 0 && (PI as int) * ((PI as int) - PI) == 0)
        by (nonlinear_arith);
    assert(16 * 0 * (UNIT as int) == 0) by (nonlinear_arith);
    lemma_div_pos_bounds(0, 5 * (PI as int) * PI);
    let uf = (FRAC_PI_2 as int) * ((PI as int) - FRAC_PI_2);
    let denf = 5 * (PI as int) * PI - 4 * uf;
    assert(16 * uf * (UNIT as int) == denf * UNIT && denf > 0) by (nonlinear_arith)
        requires
            uf == (FRAC_PI_2 as int) * ((PI as int) - FRAC_PI_2),
            denf == 5 * (PI as int) * PI - 4 * uf,
            PI == 2 * FRAC_PI_2,
    ;
    lemma_div_multiples_vanish(UNIT as int, denf);
}

/// The fixed-point cosine is exact at the cardinal angles.
proof fn lemma_cos_half_cardinals()
    ensures
        cos_half_spec(0) == UNIT,
        cos_half_spec(FRAC_PI_2 as int) == 0,
        cos_half_spec(PI as int) == -UNIT,
{
    lemma_sin_half_cardinals();
}

/// Law: the distance from an equatorial point to itself is exactly zero,
/// whatever its longitude.
pub proof fn lemma_distance_self_equator(lon: int)
    ensures
        distance_spec(lon, 0, lon, 0) == 0,
{
    lemma_sin_half_cardinals();
    lemma_cos_half_cardinals();
    let u = UNIT as int;
    assert(0 * 0 * u == 0 && u * u * u == u * (u * u)) by (nonlinear_arith)
        requires
            u == UNIT as int,
    ;
    lemma_tdiv_mul_exact(u, u * u);
    assert(u * u > 0) by (nonlinear_arith)
        requires
            u == UNIT as int,
    ;
    lemma_acos_bounds(u);
}

/// Law: two equatorial points whose longitudes differ by a half turn are
/// antipodal, at distance exactly `PI`.
pub proof fn lemma_distance_antipodal_equator(lon_a: int, lon_b: int)
    requires
        abs_int(lon_a - lon_b) == PI,
    ensures
        distance_spec(lon_a, 0, lon_b, 0) == PI,
{
    lemma_sin_half_cardinals();
    lemma_cos_half_cardinals();
    let u = UNIT as int;
    assert(0 * 0 * u == 0 && u * u * (-u) == -(u * (u * u))) by (nonlinear_arith)
        requires
            u == UNIT as int,
    ;
    lemma_tdiv_mul_exact(u, u * u);
    assert(u * u > 0 && u * (u * u) > 0) by (nonlinear_arith)
        requires
            u == UNIT as int,
    ;
    lemma_acos_bounds(-u);
}

/// Law: the two poles are antipodal, at distance exactly `PI`, whatever
/// longitudes they are given.
pub proof fn lemma_distance_opposite_poles(lon_a: int, lon_b: int)
    ensures
        distance_spec(lon_a, FRAC_PI_2 as int, lon_b, -FRAC_PI_2 as int) == PI,
{
    lemma_sin_half_cardinals();
    lemma_cos_half_cardinals();
    let u = UNIT as int;
    let c = cos_delta_spec(abs_int(lon_a - lon_b));
    assert(u * (-u) * u == -(u * (u * u)) && 0 * 0 * c == 0) by (nonlinear_arith)
        requires
            u == UNIT as int,
    ;
    lemma_tdiv_mul_exact(u, u * u);
    assert(u * u > 0 && u * (u * u) > 0) by (nonlinear_arith)
        requires
            u == UNIT as int,
    ;
    lemma_acos_bounds(-u);
}

/// A perfect square's root is recovered exactly.
proof fn lemma_sqrt_floor_square(r: nat)
    ensures
        sqrt_floor(r * r) == r,
{
    assert(r * r < (r + 1) * (r + 1)) by (nonlinear_arith);
    lemma_sqrt_floor_unique(r * r, r);
}

/// The arctangent of zero over any non-zero denominator is zero.
proof fn lemma_atan_ratio_of_zero(den: int)
    requires
        den != 0,
    ensures
        atan_ratio_spec(0, den) == 0,
{
    let b = abs_int(den);
    lemma_div_pos_bounds(0, b);
    assert(0 * UNIT == 0) by (nonlinear_arith);
    lemma_atan_poly_bounds(0);
}

} // verus!
