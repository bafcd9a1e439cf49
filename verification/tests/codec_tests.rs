use chrono::TimeZone;
use geotemporal_uuid::CodecError;
use geotemporal_uuid::GeoTemporalUuid;

#[test]
fn test_encode_decode() {
    let lat = 40.6892_f64;
    let lon = -74.0445_f64;
    let uuid = GeoTemporalUuid::new(40_689_200, -74_044_500, None).unwrap();

    let (d_lat_micro, d_lon_micro, _time) = uuid.decode();
    let d_lat = d_lat_micro as f64 / 1e6;
    let d_lon = d_lon_micro as f64 / 1e6;

    // Check precision (approx 1e-5 degrees)
    assert!((lat - d_lat).abs() < 1e-5);
    assert!((lon - d_lon).abs() < 1e-5);
}

#[test]
fn test_ordering() {
    let u1 = GeoTemporalUuid::new(0, 0, Some(1000)).unwrap();
    let u2 = GeoTemporalUuid::new(0, 0, Some(2000)).unwrap();

    assert!(u1 < u2); // Time dominant
}

#[test]
fn ordering_holds_for_any_random_draws() {
    // The random fields differ between calls, yet time stays dominant.
    for _ in 0..32 {
        let u1 = GeoTemporalUuid::new(45_000_000, -120_000_000, Some(999_999)).unwrap();
        let u2 = GeoTemporalUuid::new(45_000_000, -120_000_000, Some(1_000_000)).unwrap();
        assert!(u1.lt(&u2));
        assert!(u1 < u2);
        assert!(!u2.lt(&u1));
    }
}

#[test]
fn concrete_scenario_new_york_2021() {
    // 2021-01-01T00:00:00Z
    let t = chrono::Utc
        .with_ymd_and_hms(2021, 1, 1, 0, 0, 0)
        .unwrap()
        .timestamp_millis();
    assert_eq!(t, 1_609_459_200_000);
    let uuid = GeoTemporalUuid::encode_at(40_689_200, -74_044_500, t, 0x00AB_CDEF).unwrap();
    let (d_lat_micro, d_lon_micro, d_t) = uuid.decode();
    assert_eq!(d_t, 1_609_459_200_000);
    assert!((d_lat_micro as f64 / 1e6 - 40.6892).abs() < 1e-4);
    assert!((d_lon_micro as f64 / 1e6 - (-74.0445)).abs() < 1e-4);
}

#[test]
fn boundary_coordinates_round_trip() {
    let t = 123_456_789_i64;
    let low = GeoTemporalUuid::encode_at(-90_000_000, -180_000_000, t, 7).unwrap();
    let (la, lo, dt) = low.decode();
    assert_eq!(dt, t);
    assert!((la - -90_000_000).abs() <= 6);
    assert!((lo - -180_000_000).abs() <= 6);

    let high = GeoTemporalUuid::encode_at(90_000_000, 180_000_000, t, 7).unwrap();
    let (la, lo, dt) = high.decode();
    assert_eq!(dt, t);
    assert!((la - 90_000_000).abs() <= 6);
    assert!((lo - 180_000_000).abs() <= 6);
}

#[test]
fn out_of_range_rejected() {
    assert_eq!(
        GeoTemporalUuid::encode_at(91_000_000, 0, 0, 0).unwrap_err(),
        CodecError::OutOfRange
    );
    assert_eq!(
        GeoTemporalUuid::encode_at(-91_000_000, 0, 0, 0).unwrap_err(),
        CodecError::OutOfRange
    );
    assert_eq!(
        GeoTemporalUuid::encode_at(0, 181_000_000, 0, 0).unwrap_err(),
        CodecError::OutOfRange
    );
    assert_eq!(
        GeoTemporalUuid::encode_at(0, -181_000_000, 0, 0).unwrap_err(),
        CodecError::OutOfRange
    );
    assert_eq!(GeoTemporalUuid::new(91_000_000, 0, None).unwrap_err(), CodecError::OutOfRange);
}

#[test]
fn known_encoding_of_origin_at_epoch() {
    // lat 0, lon 0, t 0, random 0: the quantized fields are 0x800000 and
    // 0x1000000, whose single set bits land at absolute positions 2 and 1;
    // the reserved markers fill in the rest.
    let uuid = GeoTemporalUuid::encode_at(0, 0, 0, 0).unwrap();
    assert_eq!(uuid.to_uuid_string(), "60000000-0000-7000-8000-000000000000");
    let (la, lo, dt) = uuid.decode();
    assert_eq!(dt, 0);
    assert_eq!(la, 5);
    assert_eq!(lo, 5);
}

#[test]
fn reserved_bits_fixed_for_all_inputs() {
    let cases = [
        (0i64, 0i64, 0i64, 0u32),
        (40_689_200, -74_044_500, 1_609_459_200_000, 0x01FF_FFFF),
        (-90_000_000, 180_000_000, -1, 0xFFFF_FFFF),
        (12_345_678, 98_765_432, 0x0000_FFFF_FFFF_FFFF, 42),
    ];
    for (la, lo, t, r) in cases {
        let uuid = GeoTemporalUuid::encode_at(la, lo, t, r).unwrap();
        let b = uuid.as_bytes();
        // bits 48..51 are the version marker 0111
        assert_eq!(b[6] >> 4, 0x7);
        // bits 64..65 are the variant marker 10
        assert_eq!(b[8] & 0xC0, 0x80);
    }
}

#[test]
fn timestamp_wraps_to_48_bits() {
    // -1 wraps to the all-ones 48-bit field.
    let uuid = GeoTemporalUuid::encode_at(0, 0, -1, 0).unwrap();
    let (_, _, dt) = uuid.decode();
    assert_eq!(dt, 0xFFFF_FFFF_FFFF);
    // A value above 48 bits is truncated.
    let big = 0x0001_0000_0000_0005_i64;
    let uuid = GeoTemporalUuid::encode_at(0, 0, big, 0).unwrap();
    let (_, _, dt) = uuid.decode();
    assert_eq!(dt, 5);
}

#[test]
fn bytes_round_trip() {
    let bytes: [u8; 16] = [
        0x00, 0x11, 0x22, 0x33, 0x44, 0x55, 0x66, 0x77, 0x88, 0x99, 0xAA, 0xBB, 0xCC, 0xDD,
        0xEE, 0xFF,
    ];
    let uuid = GeoTemporalUuid::from_bytes(bytes);
    assert_eq!(uuid.as_bytes(), &bytes);
}
