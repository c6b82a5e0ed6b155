//! Tests of the textual serialization format.

use weakauras_codec::ace_serialize::error::{DeserializationError, SerializationError};
use weakauras_codec::ace_serialize::{Deserializer, Serializer};
use weakauras_codec::lua_value::{deep_eq, LuaMapKey, LuaValue};
use weakauras_codec::NumberRuntime;

struct StdRuntime;

impl NumberRuntime for StdRuntime {
    fn parse_bits(&self, s: &[u8]) -> Option<u64> {
        std::str::from_utf8(s).ok().and_then(|t| t.parse::<f64>().ok()).map(|f| f.to_bits())
    }

    fn scale2_bits(&self, m: u64, e: u64) -> u64 {
        (f64::from_bits(m) * 2f64.powf(f64::from_bits(e))).to_bits()
    }
}

fn de_first(input: &[u8]) -> Result<Option<LuaValue>, DeserializationError> {
    Deserializer::from_str(input, StdRuntime).deserialize_first()
}

fn str_value(s: &[u8]) -> LuaValue {
    LuaValue::String(s.to_vec())
}

fn num_value(f: f64) -> LuaValue {
    LuaValue::Number(f.to_bits())
}

#[test]
fn string_with_escape_decodes() {
    let v = de_first(b"^1^SHello,~`world!^^").unwrap().unwrap();
    assert!(deep_eq(&v, &str_value(b"Hello, world!")));
}

#[test]
fn string_round_trips_through_serializer() {
    let out = Serializer::serialize_one(&str_value(b"Hello, world!"), None).unwrap();
    assert_eq!(out, b"^1^SHello,~`world!^^".to_vec());
}

#[test]
fn escape_bytes_round_trip() {
    let raw: Vec<u8> = vec![0x00, 0x1d, 0x1e, 0x1f, 0x20, 0x5e, 0x7e, 0x7f, b'x'];
    let out = Serializer::serialize_one(&LuaValue::String(raw.clone()), None).unwrap();
    let v = de_first(&out).unwrap().unwrap();
    assert!(deep_eq(&v, &LuaValue::String(raw)));
}

#[test]
fn consecutive_integer_keys_make_an_array() {
    let v = de_first(b"^1^T^N1^SA^N2^SB^N3^SC^t^^").unwrap().unwrap();
    let expected = LuaValue::Array(vec![str_value(b"A"), str_value(b"B"), str_value(b"C")]);
    assert!(deep_eq(&v, &expected));
}

#[test]
fn other_keys_make_a_map() {
    let v = de_first(b"^1^T^N1^SA^N3^SB^t^^").unwrap().unwrap();
    let key1 = LuaMapKey::try_from(num_value(1.0)).unwrap();
    let key3 = LuaMapKey::try_from(num_value(3.0)).unwrap();
    let expected = LuaValue::Table(vec![(key1, str_value(b"A")), (key3, str_value(b"B"))]);
    assert!(deep_eq(&v, &expected));
}

#[test]
fn map_keys_wrap_and_unwrap_their_value() {
    let key = LuaMapKey::try_from(str_value(b"k")).unwrap();
    assert!(deep_eq(key.as_value(), &str_value(b"k")));
    assert!(deep_eq(&key.into_value(), &str_value(b"k")));
}

#[test]
fn scalars_decode() {
    assert!(deep_eq(&de_first(b"^1^Z^^").unwrap().unwrap(), &LuaValue::Null));
    assert!(deep_eq(&de_first(b"^1^B^^").unwrap().unwrap(), &LuaValue::Boolean(true)));
    assert!(deep_eq(&de_first(b"^1^b^^").unwrap().unwrap(), &LuaValue::Boolean(false)));
    assert!(deep_eq(&de_first(b"^1^N42^^").unwrap().unwrap(), &num_value(42.0)));
    assert!(deep_eq(&de_first(b"^1^N-17^^").unwrap().unwrap(), &num_value(-17.0)));
    assert!(deep_eq(&de_first(b"^1^N2.5^^").unwrap().unwrap(), &num_value(2.5)));
    assert!(deep_eq(&de_first(b"^1^Ninf^^").unwrap().unwrap(), &num_value(f64::INFINITY)));
    assert!(
        deep_eq(&de_first(b"^1^N-1.#INF^^").unwrap().unwrap(), &num_value(f64::NEG_INFINITY))
    );
}

#[test]
fn mantissa_exponent_decodes() {
    let v = de_first(b"^1^F4503599627370496^f-53^^").unwrap().unwrap();
    assert!(deep_eq(&v, &num_value(0.5)));
}

#[test]
fn numbers_round_trip() {
    for f in [0.0f64, 1.0, -1.0, 42.0, 0.5, -2.75, 1e300, 5e-324, f64::INFINITY, 9007199254740991.0]
    {
        let out = Serializer::serialize_one(&num_value(f), None).unwrap();
        let v = de_first(&out).unwrap().unwrap();
        assert!(deep_eq(&v, &num_value(f)), "{} -> {:?}", f, out);
    }
}

#[test]
fn nan_is_refused_on_serialize() {
    assert_eq!(
        Serializer::serialize_one(&num_value(f64::NAN), None),
        Err(SerializationError::NanEncountered)
    );
}

#[test]
fn decode_then_encode_preserves_value() {
    let inputs: [&[u8]; 4] = [
        b"^1^SHello,~`world!^^",
        b"^1^T^N1^SA^N2^SB^t^^",
        b"^1^T^Skey^N7^t^^",
        b"^1^F4503599627370496^f-53^^",
    ];
    for input in inputs {
        let v = de_first(input).unwrap().unwrap();
        let out = Serializer::serialize_one(&v, None).unwrap();
        let v2 = de_first(&out).unwrap().unwrap();
        assert!(deep_eq(&v, &v2));
    }
}

#[test]
fn errors_are_reported() {
    assert!(matches!(de_first(b"^2^Z^^"), Err(DeserializationError::InvalidPrefix)));
    assert!(matches!(de_first(b"x1^Z^^"), Err(DeserializationError::InvalidIdentifier)));
    assert!(matches!(de_first(b"^"), Err(DeserializationError::UnexpectedEof)));
    assert!(matches!(de_first(b"^1^Q^^"), Err(DeserializationError::InvalidIdentifier)));
    assert!(matches!(de_first(b"^1^S~q^^"), Err(DeserializationError::InvalidEscapeCharacter)));
    assert!(matches!(de_first(b"^1^Nx^^"), Err(DeserializationError::InvalidFloatNumber)));
    assert!(matches!(de_first(b"^1^F1^N2^^"), Err(DeserializationError::MissingExponent)));
    assert!(matches!(de_first(b"^1^T^Z^SA^t^^"), Err(DeserializationError::InvalidMapKeyType)));
    assert!(matches!(de_first(b"^1^T^N1^t^^"), Err(DeserializationError::MapMissingValue)));
    assert!(matches!(de_first(b"^1^T^N1^^"), Err(DeserializationError::UnclosedMap)));
}

fn nested_maps(levels: usize) -> Vec<u8> {
    let mut input = b"^1".to_vec();
    for _ in 0..levels - 1 {
        input.extend_from_slice(b"^T^N1");
    }
    input.extend_from_slice(b"^T");
    for _ in 0..levels {
        input.extend_from_slice(b"^t");
    }
    input.extend_from_slice(b"^^");
    input
}

#[test]
fn recursion_limit_is_exactly_enforced() {
    assert!(de_first(&nested_maps(128)).unwrap().is_some());
    assert!(matches!(de_first(&nested_maps(129)), Err(DeserializationError::RecursionLimitExceeded)));
}

#[test]
fn deserialize_all_collects_values() {
    let de = Deserializer::from_str(b"^1^N1^N2^^", StdRuntime);
    let values = de.deserialize_all().unwrap();
    assert_eq!(values.len(), 2);
    assert!(deep_eq(&values[0], &num_value(1.0)));
    assert!(deep_eq(&values[1], &num_value(2.0)));
}
