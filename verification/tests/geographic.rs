use geocart::cartesian;
use geocart::geographic::{Altitude, Coordinates, Latitude, Longitude};
use geocart::scalar::{FRAC_PI_2, PI, UNIT};

/// Tolerance, in billionths of a radian, for expected values that are
/// themselves built by truncated integer division of `PI`.
const ABS_ERROR: i64 = 2;

fn approx_eq(a: i64, b: i64, e: i64) -> bool {
    (a - b).abs() <= e
}

#[test]
fn longitude_must_not_exceed_boundaries() {
    let cases: [(&str, i64, i64); 4] = [
        ("positive longitude value must not change", UNIT, UNIT),
        ("negative longitude value must not change", -3 * UNIT, -3 * UNIT),
        ("positive overflowing longitude must change", PI + UNIT, -PI + UNIT),
        ("negative overflowing longitude must change", -PI - UNIT, PI - UNIT),
    ];
    for (name, input, output) in cases {
        let longitude: i64 = Longitude::from(input).as_float();
        assert_eq!(
            longitude, output,
            "{}: got longitude = {}, want {}",
            name, longitude, output
        );
    }
}

#[test]
fn latitude_must_not_exceed_boundaries() {
    let cases: [(&str, i64, i64); 4] = [
        ("positive latitude value must not change", UNIT, UNIT),
        ("negative latitude value must not change", -UNIT, -UNIT),
        ("positive overflowing latitude must change", 7 * PI / 4, -PI / 4),
        ("negative overflowing latidude must change", -(7 * PI) / 4, PI / 4),
    ];
    for (name, input, output) in cases {
        let latitude: i64 = Latitude::from(input).as_float();
        assert!(
            approx_eq(latitude, output, ABS_ERROR),
            "{}: got latitude = {}, want {}",
            name,
            latitude,
            output
        );
    }
}

#[test]
fn geographic_from_cartesian_must_not_fail() {
    let cases: [(&str, cartesian::Coordinates, Coordinates); 6] = [
        (
            "north point",
            cartesian::Coordinates::default().with_z(UNIT),
            Coordinates::default()
                .with_latitude(Latitude::from(FRAC_PI_2))
                .with_altitude(Altitude::from(UNIT)),
        ),
        (
            "south point",
            cartesian::Coordinates::default().with_z(-UNIT),
            Coordinates::default()
                .with_latitude(Latitude::from(-FRAC_PI_2))
                .with_altitude(Altitude::from(UNIT)),
        ),
        (
            "east point",
            cartesian::Coordinates::default().with_y(UNIT),
            Coordinates::default()
                .with_longitude(Longitude::from(FRAC_PI_2))
                .with_altitude(Altitude::from(UNIT)),
        ),
        (
            "weast point",
            cartesian::Coordinates::default().with_y(-UNIT),
            Coordinates::default()
                .with_longitude(Longitude::from(-FRAC_PI_2))
                .with_altitude(Altitude::from(UNIT)),
        ),
        (
            "front point",
            cartesian::Coordinates::default().with_x(UNIT),
            Coordinates::default().with_altitude(Altitude::from(UNIT)),
        ),
        (
            "back point",
            cartesian::Coordinates::default().with_x(-UNIT),
            Coordinates::default()
                .with_longitude(Longitude::from(PI))
                .with_altitude(Altitude::from(UNIT)),
        ),
    ];
    for (name, input, output) in cases {
        let point = Coordinates::from(input);
        assert_eq!(
            point.longitude,
            output.longitude,
            "{}: got longitude = {}, want {}",
            name,
            point.longitude.as_float(),
            output.longitude.as_float(),
        );
        assert_eq!(
            point.latitude,
            output.latitude,
            "{}: got latitude = {}, want {}",
            name,
            point.latitude.as_float(),
            output.latitude.as_float(),
        );
        assert_eq!(
            point.altitude,
            output.altitude,
            "{}: got altitude = {}, want {}",
            name,
            point.altitude.as_float(),
            output.altitude.as_float(),
        );
    }
}

#[test]
fn distance_must_not_fail() {
    let cases: [(&str, Coordinates, Coordinates, i64); 3] = [
        (
            "Same point must be zero",
            Coordinates::default(),
            Coordinates::default(),
            0,
        ),
        (
            "Oposite points in the horizontal",
            Coordinates::default(),
            Coordinates::default().with_longitude(Longitude::from(-PI)),
            PI,
        ),
        (
            "Oposite points in the vertical",
            Coordinates::default().with_latitude(Latitude::from(FRAC_PI_2)),
            Coordinates::default().with_latitude(Latitude::from(-FRAC_PI_2)),
            PI,
        ),
    ];
    for (name, from, to, expected) in cases {
        let distance = from.distance(&to);
        assert_eq!(
            distance, expected,
            "{}: distance {} ± e == {}",
            name, distance, expected,
        );
    }
}

#[test]
fn longitude_always_lands_in_range() {
    let inputs = vec![0, 1, -1, PI, -PI, PI - 1, 17 * PI + 3, -29 * PI - 7, i64::MAX, i64::MIN];
    for input in inputs {
        let l = Longitude::from(input).as_float();
        assert!(-PI <= l && l < PI, "got longitude = {} for input {}", l, input);
    }
}

#[test]
fn latitude_always_lands_in_range() {
    let inputs = vec![0, 1, -1, PI, -PI, FRAC_PI_2, 23 * PI + 11, -31 * PI - 5, i64::MAX, i64::MIN];
    for input in inputs {
        let l = Latitude::from(input).as_float();
        assert!(-FRAC_PI_2 <= l && l <= FRAC_PI_2, "got latitude = {} for input {}", l, input);
    }
}

#[test]
fn longitude_wraps_around_the_boundary() {
    let offsets = vec![0, 1, UNIT, FRAC_PI_2, -FRAC_PI_2, 3 * UNIT];
    for k in offsets {
        assert_eq!(
            Longitude::from(PI + k),
            Longitude::from(-PI + k),
            "wrap-around differs at offset {}",
            k
        );
    }
}

#[test]
fn latitude_folds_back_from_beyond_the_pole() {
    let overflowing = Latitude::from(-5 * PI / 4);
    let equivalent = Latitude::from(PI / 4);
    assert!(
        approx_eq(overflowing.as_float(), equivalent.as_float(), ABS_ERROR),
        "the overflowing latitude should be as the equivalent latitude ± e"
    );
}

#[test]
fn latitude_reflects_exactly_across_the_pole() {
    let offsets = vec![0, 1, 300_000_000, FRAC_PI_2, -FRAC_PI_2, 5 * UNIT];
    for v in offsets {
        assert_eq!(
            Latitude::from(-PI - v),
            Latitude::from(v),
            "reflection differs at {}",
            v
        );
    }
}

#[test]
fn altitude_discards_the_sign() {
    assert_eq!(Altitude::from(-1_560_000_000), Altitude::from(1_560_000_000));
    assert_eq!(Altitude::from(0), Altitude::from(0));
    assert_eq!(Altitude::from(i64::MIN).as_float(), 9_223_372_036_854_775_808u64);
    assert_eq!(Altitude::from(-7).as_float(), 7);
}

#[test]
fn geographic_from_diagonal_point() {
    let point = Coordinates::from(
        cartesian::Coordinates::default().with_x(UNIT).with_y(UNIT),
    );
    // The arctangent approximation is exact at a ratio of one: an eighth of
    // a turn, truncated to whole billionths.
    assert_eq!(point.longitude.as_float(), PI / 4);
    assert_eq!(point.latitude.as_float(), 0);
    // The altitude is the square root of two, rounded down.
    assert_eq!(point.altitude.as_float(), 1_414_213_562);
}

#[test]
fn cardinal_axes_recover_altitude_exactly() {
    let radii: [i64; 5] = [1, 2, UNIT, 5 * UNIT, 123_456_789];
    for r in radii {
        let north = Coordinates::from(cartesian::Coordinates::default().with_z(r));
        assert_eq!(north.altitude, Altitude::from(r));
        assert_eq!(north.latitude, Latitude::from(FRAC_PI_2));
        assert_eq!(north.longitude, Longitude::from(0));
        let back = Coordinates::from(cartesian::Coordinates::default().with_x(-r));
        assert_eq!(back.altitude, Altitude::from(r));
        assert_eq!(back.latitude, Latitude::from(0));
        assert_eq!(back.longitude, Longitude::from(PI));
    }
}

#[test]
fn distance_of_a_quarter_turn() {
    let from = Coordinates::default();
    let to = Coordinates::default().with_longitude(Longitude::from(FRAC_PI_2));
    // The arccosine expansion puts the quarter turn at 1.532 radians.
    assert_eq!(from.distance(&to), 1_532_064_692);
}

#[test]
fn builders_replace_one_field_at_a_time() {
    let base = Coordinates::default();
    let l = Longitude::from(3 * UNIT);
    let t = Latitude::from(UNIT);
    let a = Altitude::from(5);
    let built = base.with_longitude(l).with_latitude(t).with_altitude(a);
    assert_eq!(built.longitude, l);
    assert_eq!(built.latitude, t);
    assert_eq!(built.altitude, a);
    assert_eq!(built.with_latitude(Latitude::from(0)).longitude, l);

    let c = cartesian::Coordinates::default().with_x(1).with_y(2).with_z(3);
    assert_eq!(c.x, 1);
    assert_eq!(c.y, 2);
    assert_eq!(c.z, 3);
    assert_eq!(c.with_y(9).x, 1);
}
