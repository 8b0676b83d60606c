use lib::uuid::{Error, Uuid};

const TEXT: &str = "550e8400-e29b-41d4-a716-446655440000";
const BYTES: [u8; 16] = [
    0x55, 0x0e, 0x84, 0x00, 0xe2, 0x9b, 0x41, 0xd4, 0xa7, 0x16, 0x44, 0x66, 0x55, 0x44, 0x00, 0x00,
];

#[test]
fn uuid_parse_forms() {
    assert_eq!(Uuid::parse_str(TEXT).unwrap().into_bytes(), BYTES);
    assert_eq!(Uuid::parse_str("550e8400e29b41d4a716446655440000").unwrap().into_bytes(), BYTES);
    assert_eq!(Uuid::parse_str("{550e8400-e29b-41d4-a716-446655440000}").unwrap().into_bytes(), BYTES);
    assert_eq!(Uuid::parse_str("urn:uuid:550e8400-e29b-41d4-a716-446655440000").unwrap().into_bytes(), BYTES);
    assert_eq!(Uuid::parse_str("550E8400-E29B-41D4-A716-446655440000").unwrap().into_bytes(), BYTES);
}

#[test]
fn uuid_parse_errors() {
    assert_eq!(Uuid::parse_str("abc"), Err(Error::InvalidLength(3)));
    assert_eq!(Uuid::parse_str("550e8400xe29b-41d4-a716-446655440000"), Err(Error::InvalidGroupLength));
    assert_eq!(Uuid::parse_str("g50e8400-e29b-41d4-a716-446655440000"), Err(Error::InvalidChar(b'g')));
}

#[test]
fn uuid_formats() {
    let u = Uuid::from_bytes(BYTES);
    assert_eq!(u.to_string(), TEXT);
    assert_eq!(u.hyphenated().to_string(), TEXT);
    assert_eq!(u.simple().to_string(), "550e8400e29b41d4a716446655440000");
    assert_eq!(u.braced().to_string(), "{550e8400-e29b-41d4-a716-446655440000}");
    assert_eq!(u.urn().to_string(), "urn:uuid:550e8400-e29b-41d4-a716-446655440000");
}

#[test]
fn uuid_format_parse_round_trip() {
    let u = Uuid::from_bytes([0xab; 16]);
    for text in [u.to_string(), u.simple().to_string(), u.braced().to_string(), u.urn().to_string()] {
        assert_eq!(Uuid::parse_str(&text).unwrap(), u);
    }
}

#[test]
fn uuid_nil_max_and_version() {
    assert!(Uuid::nil().is_nil());
    assert!(!Uuid::max().is_nil());
    assert_eq!(Uuid::max().into_bytes(), [0xff; 16]);
    assert_eq!(*Uuid::from_bytes(BYTES).as_bytes(), BYTES);
    assert_eq!(Uuid::from_bytes(BYTES).get_version_num(), 4);
}

#[test]
fn uuid_v4_and_v7_layout() {
    let v4 = Uuid::new_v4_from_bytes([0xff; 16]);
    assert_eq!(v4.get_version_num(), 4);
    assert_eq!(v4.as_bytes()[6], 0x4f);
    assert_eq!(v4.as_bytes()[8], 0xbf);
    let v7 = Uuid::now_v7_from_parts(0x0102_0304_0506, [0; 10]);
    assert_eq!(&v7.as_bytes()[..6], &[1, 2, 3, 4, 5, 6]);
    assert_eq!(v7.get_version_num(), 7);
    assert_eq!(v7.as_bytes()[8], 0x80);
}
