use lib::base64;
use lib::hex;

#[test]
fn hex_encode_lower_and_upper() {
    assert_eq!(hex::encode(b"\xde\xad\xbe\xef"), "deadbeef");
    assert_eq!(hex::encode_upper(b"\xff"), "FF");
    assert_eq!(hex::encode(b""), "");
}

#[test]
fn hex_decode_mixed_case() {
    assert_eq!(hex::decode(b"DeAdBeEf").unwrap(), vec![0xde, 0xad, 0xbe, 0xef]);
    assert_eq!(hex::decode(b"").unwrap(), Vec::<u8>::new());
}

#[test]
fn hex_decode_errors() {
    let e = hex::decode(b"abc").unwrap_err();
    assert_eq!((e.index, e.msg), (3, "odd length"));
    let e = hex::decode(b"zz").unwrap_err();
    assert_eq!((e.index, e.msg), (0, "invalid hex char"));
    let e = hex::decode(b"0z").unwrap_err();
    assert_eq!((e.index, e.msg), (1, "invalid hex char"));
}

#[test]
fn hex_round_trip() {
    let data: Vec<u8> = (0u8..=255).collect();
    assert_eq!(hex::decode(hex::encode(&data).as_bytes()).unwrap(), data);
    assert_eq!(hex::decode(hex::encode_upper(&data).as_bytes()).unwrap(), data);
}

#[test]
fn base64_encode_examples() {
    assert_eq!(base64::encode(b"hello"), "aGVsbG8=");
    assert_eq!(base64::encode_url(b"hello"), "aGVsbG8");
    assert_eq!(base64::encode(b""), "");
    assert_eq!(base64::encode(b"f"), "Zg==");
    assert_eq!(base64::encode(b"fo"), "Zm8=");
    assert_eq!(base64::encode(b"foo"), "Zm9v");
    assert_eq!(base64::encode(&[0xfb, 0xff]), "+/8=");
    assert_eq!(base64::encode_url(&[0xfb, 0xff]), "-_8");
}

#[test]
fn base64_decode_examples() {
    assert_eq!(base64::decode(b"aGVsbG8=").unwrap(), b"hello".to_vec());
    assert_eq!(base64::decode_url(b"aGVsbG8").unwrap(), b"hello".to_vec());
    assert_eq!(base64::decode(b"Zm9v").unwrap(), b"foo".to_vec());
}

#[test]
fn base64_decode_errors() {
    let e = base64::decode(b"abc").unwrap_err();
    assert_eq!((e.index, e.msg), (3, "invalid padded length"));
    let e = base64::decode_url(b"aGVsbG8=").unwrap_err();
    assert_eq!((e.index, e.msg), (7, "unexpected padding"));
    let e = base64::decode_url(b"a").unwrap_err();
    assert_eq!((e.index, e.msg), (1, "invalid length"));
    let e = base64::decode(b"ab!d").unwrap_err();
    assert_eq!((e.index, e.msg), (2, "invalid base64 char"));
    let e = base64::decode(b"ab==").unwrap_err();
    assert_eq!((e.index, e.msg), (1, "invalid trailing bits"));
}

#[test]
fn base64_round_trip() {
    let data: Vec<u8> = (0u8..=200).collect();
    for n in 0..data.len() {
        let part = &data[..n];
        assert_eq!(base64::decode(base64::encode(part).as_bytes()).unwrap(), part.to_vec());
        assert_eq!(base64::decode_url(base64::encode_url(part).as_bytes()).unwrap(), part.to_vec());
    }
}

#[test]
fn hex_encode_of_decoded_text_is_lower_case() {
    for text in ["DeAdBeEf", "00ff7F", "", "ABCDEF0123456789"] {
        let bytes = hex::decode(text.as_bytes()).unwrap();
        assert_eq!(hex::encode(&bytes), text.to_ascii_lowercase());
    }
}

#[test]
fn base64_rejects_surplus_padding() {
    assert_eq!(base64::decode(b"aQ==").unwrap(), vec![0x69]);
    let e = base64::decode(b"aQ======").unwrap_err();
    assert_eq!(e.index, 2);
    assert!(base64::decode(b"QUJD====").is_err());
    assert_eq!(base64::decode(b"QUJD").unwrap(), b"ABC".to_vec());
}
