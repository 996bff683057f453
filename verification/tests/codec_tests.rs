use mock_store::bignum::BigDecimalVal;
use mock_store::bignum::BigIntVal;
use mock_store::traits::convert_value_to_bytes;
use mock_store::traits::get_value_from_bytes;
use mock_store::traits::EncodingError;

#[test]
fn roundtrip_text() {
    let v = String::from("hello world");
    let bytes = convert_value_to_bytes(&v);
    assert_eq!(bytes, b"hello world".to_vec());
    let back: String = get_value_from_bytes(&bytes).unwrap();
    assert_eq!(back, v);
}

#[test]
fn roundtrip_text_unicode() {
    let v = String::from("caf\u{e9} \u{1f600} \u{4e2d}\u{6587}");
    let bytes = convert_value_to_bytes(&v);
    let back: String = get_value_from_bytes(&bytes).unwrap();
    assert_eq!(back, v);
}

#[test]
fn roundtrip_text_empty() {
    let v = String::new();
    let bytes = convert_value_to_bytes(&v);
    assert_eq!(bytes.len(), 0);
    let back: String = get_value_from_bytes(&bytes).unwrap();
    assert_eq!(back, v);
}

#[test]
fn text_rejects_invalid_utf8() {
    let bytes = vec![0xffu8, 0xfe];
    let r: Result<String, EncodingError> = get_value_from_bytes(&bytes);
    assert_eq!(r, Err(EncodingError::InvalidUtf8));
}

#[test]
fn roundtrip_i64_zero() {
    let bytes = convert_value_to_bytes(&0i64);
    assert_eq!(bytes, b"0".to_vec());
    let back: i64 = get_value_from_bytes(&bytes).unwrap();
    assert_eq!(back, 0);
}

#[test]
fn roundtrip_i64_positive() {
    let bytes = convert_value_to_bytes(&1234567890123i64);
    assert_eq!(bytes, b"1234567890123".to_vec());
    let back: i64 = get_value_from_bytes(&bytes).unwrap();
    assert_eq!(back, 1234567890123);
}

#[test]
fn roundtrip_i64_negative() {
    let bytes = convert_value_to_bytes(&-42i64);
    assert_eq!(bytes, b"-42".to_vec());
    let back: i64 = get_value_from_bytes(&bytes).unwrap();
    assert_eq!(back, -42);
}

#[test]
fn roundtrip_i64_extremes() {
    for v in [i64::MIN, i64::MAX] {
        let bytes = convert_value_to_bytes(&v);
        let back: i64 = get_value_from_bytes(&bytes).unwrap();
        assert_eq!(back, v);
    }
    assert_eq!(convert_value_to_bytes(&i64::MIN), b"-9223372036854775808".to_vec());
    assert_eq!(convert_value_to_bytes(&i64::MAX), b"9223372036854775807".to_vec());
}

#[test]
fn i64_parse_accepts_leading_zeros() {
    let v: i64 = get_value_from_bytes(b"0000000000000000000007").unwrap();
    assert_eq!(v, 7);
    let v: i64 = get_value_from_bytes(b"-007").unwrap();
    assert_eq!(v, -7);
}

#[test]
fn i64_parse_failures() {
    let cases: &[&[u8]] = &[
        b"",
        b"-",
        b"abc",
        b"12x",
        b"+5",
        b"9223372036854775808",
        b"-9223372036854775809",
        b"99999999999999999999999999",
    ];
    for c in cases {
        let r: Result<i64, EncodingError> = get_value_from_bytes(c);
        assert_eq!(r, Err(EncodingError::ParseFailure));
    }
    let r: Result<i64, EncodingError> = get_value_from_bytes(&[0xff, 0x31]);
    assert_eq!(r, Err(EncodingError::InvalidUtf8));
}

#[test]
fn i64_parse_min_boundary() {
    let v: i64 = get_value_from_bytes(b"-9223372036854775808").unwrap();
    assert_eq!(v, i64::MIN);
    let v: i64 = get_value_from_bytes(b"9223372036854775807").unwrap();
    assert_eq!(v, i64::MAX);
}

#[test]
fn roundtrip_bigint() {
    let v = BigIntVal::new("123456789012345678901234567890123456789").unwrap();
    let bytes = convert_value_to_bytes(&v);
    assert_eq!(bytes, b"123456789012345678901234567890123456789".to_vec());
    let back: BigIntVal = get_value_from_bytes(&bytes).unwrap();
    assert_eq!(back.text(), "123456789012345678901234567890123456789");
}

#[test]
fn roundtrip_bigint_negative_and_zero() {
    for t in ["-987654321098765432109876543210", "0"] {
        let v = BigIntVal::new(t).unwrap();
        let bytes = convert_value_to_bytes(&v);
        let back: BigIntVal = get_value_from_bytes(&bytes).unwrap();
        assert_eq!(back.text(), t);
    }
}

#[test]
fn bigint_rejects_malformed() {
    assert!(BigIntVal::new("").is_none());
    assert!(BigIntVal::new("-").is_none());
    assert!(BigIntVal::new("12a").is_none());
    assert!(BigIntVal::new("1.5").is_none());
    let r: Result<BigIntVal, EncodingError> = get_value_from_bytes(b"12a");
    assert_eq!(r, Err(EncodingError::ParseFailure));
}

#[test]
fn roundtrip_bigdecimal() {
    for t in ["3.14", "-0.5", "0.00", "42", "-12345678901234567890.000000001"] {
        let v = BigDecimalVal::new(t).unwrap();
        let bytes = convert_value_to_bytes(&v);
        let back: BigDecimalVal = get_value_from_bytes(&bytes).unwrap();
        assert_eq!(back.text(), t);
    }
}

#[test]
fn bigdecimal_rejects_malformed() {
    assert!(BigDecimalVal::new(".5").is_none());
    assert!(BigDecimalVal::new("5.").is_none());
    assert!(BigDecimalVal::new("1..2").is_none());
    assert!(BigDecimalVal::new("-.5").is_none());
    assert!(BigDecimalVal::new("1,5").is_none());
    let r: Result<BigDecimalVal, EncodingError> = get_value_from_bytes(b"1..2");
    assert_eq!(r, Err(EncodingError::ParseFailure));
}
