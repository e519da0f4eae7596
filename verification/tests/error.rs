use geozero::error::{DecodeFault, GeozeroError};

#[test]
fn decode_errors_say_what_and_where() {
    let cases = [
        (DecodeFault::Truncated, 0, "unexpected end of input at byte 0"),
        (DecodeFault::BadMagic, 7, "not a GeoPackage geometry at byte 7"),
        (DecodeFault::UnsupportedVersion, 10, "unsupported GeoPackage geometry version at byte 10"),
        (DecodeFault::BadFlags, 99, "unsupported GeoPackage geometry flags at byte 99"),
        (DecodeFault::BadByteOrder, 100, "invalid byte order at byte 100"),
        (DecodeFault::UnknownGeometryType, 1234567890, "unknown geometry type at byte 1234567890"),
        (DecodeFault::MixedDimensions, 4096, "mixed dimensionalities at byte 4096"),
        (DecodeFault::UnexpectedMember, 18, "unexpected kind of member at byte 18"),
    ];
    for (fault, offset, text) in cases {
        assert_eq!(GeozeroError::Decode { fault, offset }.description(), text);
    }
}

#[test]
fn other_errors_carry_their_message() {
    assert_eq!(GeozeroError::Sink { message: "rejected".to_string() }.description(), "rejected");
    assert_eq!(
        GeozeroError::Encoding { message: "Invalid UTF-8 encoding".to_string() }.description(),
        "Invalid UTF-8 encoding"
    );
    assert_eq!(GeozeroError::ColumnDecode { message: String::new() }.description(), "");
}
