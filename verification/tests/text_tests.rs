use geotemporal_uuid::{CodecError, GeoTemporalUuid};
use std::str::FromStr;

#[test]
fn string_form_is_grouped_hex() {
    let bytes: [u8; 16] = [
        0x00, 0x11, 0x22, 0x33, 0x44, 0x55, 0x66, 0x77, 0x88, 0x99, 0xAA, 0xBB, 0xCC, 0xDD,
        0xEE, 0xFF,
    ];
    let uuid = GeoTemporalUuid::from_bytes(bytes);
    let s = uuid.to_uuid_string();
    assert_eq!(s, "00112233-4455-6677-8899-aabbccddeeff");
    assert_eq!(s.len(), 36);
    for (i, c) in s.chars().enumerate() {
        if i == 8 || i == 13 || i == 18 || i == 23 {
            assert_eq!(c, '-');
        } else {
            assert!(c.is_ascii_hexdigit());
        }
    }
}

#[test]
fn string_round_trip() {
    let uuid = GeoTemporalUuid::encode_at(40_689_200, -74_044_500, 1_609_459_200_000, 12345)
        .unwrap();
    let s = uuid.to_uuid_string();
    let parsed = GeoTemporalUuid::from_str(&s).unwrap();
    assert_eq!(parsed, uuid);
}

#[test]
fn parse_accepts_ungrouped_and_uppercase_hex() {
    let grouped = "00112233-4455-6677-8899-aabbccddeeff";
    let bare = "00112233445566778899aabbccddeeff";
    let upper = "00112233-4455-6677-8899-AABBCCDDEEFF";
    let a = GeoTemporalUuid::from_str(grouped).unwrap();
    let b = GeoTemporalUuid::from_str(bare).unwrap();
    let c = GeoTemporalUuid::from_str(upper).unwrap();
    assert_eq!(a, b);
    assert_eq!(a, c);
    assert_eq!(a.as_bytes()[0], 0x00);
    assert_eq!(a.as_bytes()[15], 0xFF);
}

#[test]
fn parse_rejects_malformed_strings() {
    // too short
    assert_eq!(
        GeoTemporalUuid::from_str("00112233").unwrap_err(),
        CodecError::MalformedInput
    );
    // too long
    assert_eq!(
        GeoTemporalUuid::from_str("00112233445566778899aabbccddeeff00").unwrap_err(),
        CodecError::MalformedInput
    );
    // non-hex character
    assert_eq!(
        GeoTemporalUuid::from_str("0011223g-4455-6677-8899-aabbccddeeff").unwrap_err(),
        CodecError::MalformedInput
    );
    // empty
    assert_eq!(GeoTemporalUuid::from_str("").unwrap_err(), CodecError::MalformedInput);
}

#[test]
fn error_messages_name_the_failure() {
    assert_eq!(
        CodecError::OutOfRange.message(),
        "latitude or longitude out of range"
    );
    assert_eq!(
        CodecError::MalformedInput.message(),
        "malformed identifier string"
    );
}
