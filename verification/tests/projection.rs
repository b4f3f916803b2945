use geocart::cartesian;
use geocart::geographic::{Altitude, Coordinates, Latitude, Longitude};
use geocart::projection::equirectangular::Equirectangular;
use geocart::projection::Projection;
use geocart::scalar::{FRAC_PI_2, PI, UNIT};

#[test]
fn forward_scales_angles_by_the_radius() {
    let projection = Equirectangular::new(2 * (UNIT as u64));
    let point = Coordinates::default()
        .with_longitude(Longitude::from(UNIT))
        .with_latitude(Latitude::from(-700_000_000))
        .with_altitude(Altitude::from(123));
    let plane = projection.forward(&point);
    assert_eq!(plane.x, 2 * UNIT);
    assert_eq!(plane.y, -1_400_000_000);
    assert_eq!(plane.z, 0);
}

#[test]
fn forward_with_zero_radius_degenerates_to_the_origin() {
    let projection = Equirectangular::default();
    let point = Coordinates::default()
        .with_longitude(Longitude::from(-PI))
        .with_latitude(Latitude::from(FRAC_PI_2));
    assert_eq!(projection.forward(&point), cartesian::Coordinates::default());
}

#[test]
fn reverse_inverts_forward_for_a_whole_radius() {
    let projection = Equirectangular::new(3 * (UNIT as u64));
    let cases: [(i64, i64); 5] = [
        (0, 0),
        (UNIT, -700_000_000),
        (-PI, FRAC_PI_2),
        (PI - 1, -FRAC_PI_2),
        (-321_654_987, 123_456_789),
    ];
    for (lon, lat) in cases {
        let point = Coordinates::default()
            .with_longitude(Longitude::from(lon))
            .with_latitude(Latitude::from(lat));
        let back = projection.reverse(&projection.forward(&point));
        assert_eq!(back.longitude, point.longitude, "longitude differs at {}", lon);
        assert_eq!(back.latitude, point.latitude, "latitude differs at {}", lat);
        // The projection is flat: the altitude is not carried around the
        // round trip.
        assert_eq!(back.altitude, Altitude::from(0));
    }
}

#[test]
fn reverse_approximates_forward_for_any_radius() {
    let radius: u64 = 7;
    let tolerance: i64 = UNIT / 7 + 1;
    let projection = Equirectangular::new(radius);
    let cases: [(i64, i64); 3] = [(UNIT, 700_000_000), (-3 * UNIT, -FRAC_PI_2), (PI - 1, 1)];
    for (lon, lat) in cases {
        let point = Coordinates::default()
            .with_longitude(Longitude::from(lon))
            .with_latitude(Latitude::from(lat));
        let back = projection.reverse(&projection.forward(&point));
        let lon_error = (back.longitude.as_float() - point.longitude.as_float()).abs();
        let lat_error = (back.latitude.as_float() - point.latitude.as_float()).abs();
        assert!(lon_error <= tolerance, "longitude off by {} at {}", lon_error, lon);
        assert!(lat_error <= tolerance, "latitude off by {} at {}", lat_error, lat);
    }
}

#[test]
fn radius_is_kept_as_configured() {
    assert_eq!(Equirectangular::new(42).radius(), 42);
    assert_eq!(Equirectangular::default().radius(), 0);
}
