//! Tests of the binary serialization format.

use weakauras_codec::lib_serialize::error::DeserializationError;
use weakauras_codec::lib_serialize::{Deserializer, Serializer};
use weakauras_codec::lua_value::{deep_eq, LuaMapKey, LuaValue};
use weakauras_codec::NumberRuntime;

struct StdRuntime;

impl NumberRuntime for StdRuntime {
    fn parse_bits(&self, s: &[u8]) -> Option<u64> {
        std::str::from_utf8(s).ok().and_then(|t| t.parse::<f64>().ok()).map(|f| f.to_bits())
    }

    fn scale2_bits(&self, m: u64, e: u64) -> u64 {
        (f64::from_bits(m) * 2f64.powf(f64::from_bits(e))).to_bits()
    }
}

fn de_first(input: &[u8]) -> Result<Option<LuaValue>, DeserializationError> {
    Deserializer::from_slice(input, StdRuntime).deserialize_first()
}

fn str_value(s: &[u8]) -> LuaValue {
    LuaValue::String(s.to_vec())
}

fn num_value(f: f64) -> LuaValue {
    LuaValue::Number(f.to_bits())
}

#[test]
fn small_string_decodes() {
    let v = de_first(b"\x01\xd2Hello, world!").unwrap().unwrap();
    assert!(deep_eq(&v, &str_value(b"Hello, world!")));
}

#[test]
fn small_string_serializes() {
    let out = Serializer::serialize_one(&str_value(b"Hello, world!"), None).unwrap();
    assert_eq!(out, b"\x01\xd2Hello, world!".to_vec());
}

#[test]
fn repeated_strings_become_back_references() {
    let v = LuaValue::Array(vec![
        str_value(b"hello"),
        str_value(b"hello"),
        str_value(b"hello"),
    ]);
    let out = Serializer::serialize_one(&v, None).unwrap();
    // Version byte; array of three; one inline `hello`; two one-byte
    // back-references to string number one.
    let mut expected: Vec<u8> = vec![1, 0x3a, 0x52];
    expected.extend_from_slice(b"hello");
    expected.extend_from_slice(&[0xd0, 1, 0xd0, 1]);
    assert_eq!(out, expected);
}

#[test]
fn back_references_decode_to_equal_strings() {
    let v = LuaValue::Array(vec![
        str_value(b"hello"),
        str_value(b"hello"),
        str_value(b"hello"),
    ]);
    let out = Serializer::serialize_one(&v, None).unwrap();
    let back = de_first(&out).unwrap().unwrap();
    assert!(deep_eq(&back, &v));
}

#[test]
fn out_of_range_string_reference_is_invalid() {
    assert!(matches!(
        de_first(&[1, 0xd0, 255]),
        Err(DeserializationError::InvalidStringReference)
    ));
}

#[test]
fn out_of_range_table_reference_is_invalid() {
    assert!(matches!(de_first(&[1, 0xe8, 1]), Err(DeserializationError::InvalidMapReference)));
}

#[test]
fn integers_round_trip() {
    for n in [
        0.0f64,
        1.0,
        127.0,
        128.0,
        4095.0,
        -4095.0,
        -1.0,
        4096.0,
        65535.0,
        65536.0,
        16777215.0,
        16777216.0,
        4294967295.0,
        4294967296.0,
        9007199254740991.0,
        9007199254740992.0,
        72057594037927935.0,
        -72057594037927935.0,
    ] {
        let out = Serializer::serialize_one(&num_value(n), None).unwrap();
        let v = de_first(&out).unwrap().unwrap();
        assert!(deep_eq(&v, &num_value(n)), "{}", n);
    }
}

#[test]
fn small_integer_forms_are_exact() {
    assert_eq!(Serializer::serialize_one(&num_value(0.0), None).unwrap(), vec![1, 1]);
    assert_eq!(Serializer::serialize_one(&num_value(3.0), None).unwrap(), vec![1, 7]);
    assert_eq!(Serializer::serialize_one(&num_value(127.0), None).unwrap(), vec![1, 255]);
    // 128 takes the 12-bit form: (128 << 4) | 4, little end first.
    assert_eq!(
        Serializer::serialize_one(&num_value(128.0), None).unwrap(),
        vec![1, 0x04, 0x08]
    );
    // -5 takes the 12-bit form with the sign bit.
    assert_eq!(
        Serializer::serialize_one(&num_value(-5.0), None).unwrap(),
        vec![1, 0x5c, 0x00]
    );
    // 4096 takes the two-byte big-endian form.
    assert_eq!(
        Serializer::serialize_one(&num_value(4096.0), None).unwrap(),
        vec![1, 8, 0x10, 0x00]
    );
}

#[test]
fn floats_use_the_raw_pattern() {
    let out = Serializer::serialize_one(&num_value(0.5), None).unwrap();
    assert_eq!(out, vec![1, 72, 0x3f, 0xe0, 0, 0, 0, 0, 0, 0]);
    let v = de_first(&out).unwrap().unwrap();
    assert!(deep_eq(&v, &num_value(0.5)));
}

#[test]
fn nan_serializes_as_canonical_quiet_nan() {
    let out = Serializer::serialize_one(&num_value(f64::NAN), None).unwrap();
    assert_eq!(out, vec![1, 72, 0x7f, 0xf8, 0, 0, 0, 0, 0, 0]);
    let v = de_first(&out).unwrap().unwrap();
    assert!(deep_eq(&v, &num_value(f64::NAN)));
}

#[test]
fn float_string_payloads_parse() {
    // Tag 10 is a positive decimal string, tag 11 its negated form.
    let mut input: Vec<u8> = vec![1, 80, 3];
    input.extend_from_slice(b"2.5");
    let v = de_first(&input).unwrap().unwrap();
    assert!(deep_eq(&v, &num_value(2.5)));

    let mut input: Vec<u8> = vec![1, 88, 3];
    input.extend_from_slice(b"2.5");
    let v = de_first(&input).unwrap().unwrap();
    assert!(deep_eq(&v, &num_value(-2.5)));
}

#[test]
fn scalars_round_trip() {
    for v in [LuaValue::Null, LuaValue::Boolean(true), LuaValue::Boolean(false)] {
        let out = Serializer::serialize_one(&v, None).unwrap();
        let back = de_first(&out).unwrap().unwrap();
        assert!(deep_eq(&back, &v));
    }
}

#[test]
fn tables_round_trip() {
    let key = LuaMapKey::try_from(str_value(b"key")).unwrap();
    let v = LuaValue::Table(vec![(key, num_value(7.0))]);
    let out = Serializer::serialize_one(&v, None).unwrap();
    let back = de_first(&out).unwrap().unwrap();
    assert!(deep_eq(&back, &v));
}

#[test]
fn mixed_containers_become_one_map() {
    // Embedded mixed with one positional and one keyed entry:
    // `7`, then `"k" -> true`.
    let input: Vec<u8> = vec![1, 0x0e, 15, 0x12, b'k', 96];
    let v = de_first(&input).unwrap().unwrap();
    let key1 = LuaMapKey::try_from(num_value(1.0)).unwrap();
    let key_k = LuaMapKey::try_from(str_value(b"k")).unwrap();
    let expected = LuaValue::Table(vec![
        (key1, num_value(7.0)),
        (key_k, LuaValue::Boolean(true)),
    ]);
    assert!(deep_eq(&v, &expected));
}

#[test]
fn accepts_version_two_prefix() {
    let v = de_first(b"\x02\xd2Hello, world!").unwrap().unwrap();
    assert!(deep_eq(&v, &str_value(b"Hello, world!")));
}

#[test]
fn invalid_prefix_is_reported() {
    assert!(matches!(de_first(b"\x03\x01"), Err(DeserializationError::InvalidPrefix)));
    assert!(matches!(de_first(b""), Err(DeserializationError::InvalidPrefix)));
}

#[test]
fn truncated_input_is_reported() {
    assert!(matches!(de_first(&[1, 0xd2]), Err(DeserializationError::UnexpectedEof)));
    assert!(matches!(de_first(&[1, 72, 0, 0]), Err(DeserializationError::UnexpectedEof)));
}

fn nested_maps(levels: usize) -> Vec<u8> {
    // Each level is an embedded one-entry map keyed by the integer 1;
    // the innermost is an embedded empty map.
    let mut input: Vec<u8> = vec![1];
    for _ in 0..levels - 1 {
        input.extend_from_slice(&[0x16, 3]);
    }
    input.push(0x06);
    input
}

#[test]
fn binary_recursion_limit_is_exactly_enforced() {
    assert!(de_first(&nested_maps(128)).unwrap().is_some());
    assert!(matches!(de_first(&nested_maps(129)), Err(DeserializationError::RecursionLimitExceeded)));
}

#[test]
fn invalid_utf8_strings_are_normalized() {
    // An embedded three-byte string of invalid UTF-8: every byte becomes
    // the replacement character.
    let input: Vec<u8> = vec![1, 0x32, 0xff, 0xfe, 0xff];
    let v = de_first(&input).unwrap().unwrap();
    let expected = String::from_utf8_lossy(&[0xff, 0xfe, 0xff]).into_owned().into_bytes();
    assert!(deep_eq(&v, &LuaValue::String(expected)));
}
