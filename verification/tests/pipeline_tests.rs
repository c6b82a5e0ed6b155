//! Tests of the top-level pipeline: prefix dispatch, compression caps,
//! and whole-string round trips.

use weakauras_codec::base64::encode::encode_to_vec;
use weakauras_codec::error::DecodeError;
use weakauras_codec::lib_compress::{decompress, DecompressionError};
use weakauras_codec::lua_value::{deep_eq, LuaMapKey, LuaValue};
use weakauras_codec::{decode, encode, NumberRuntime, OutputStringVersion};

struct StdRuntime;

impl NumberRuntime for StdRuntime {
    fn parse_bits(&self, s: &[u8]) -> Option<u64> {
        std::str::from_utf8(s).ok().and_then(|t| t.parse::<f64>().ok()).map(|f| f.to_bits())
    }

    fn scale2_bits(&self, m: u64, e: u64) -> u64 {
        (f64::from_bits(m) * 2f64.powf(f64::from_bits(e))).to_bits()
    }
}

fn str_value(s: &[u8]) -> LuaValue {
    LuaValue::String(s.to_vec())
}

#[test]
fn deflate_prefixed_string_decodes() {
    let v = decode(b"!lodJlypsnNCYxN6sO88lkNuumU4aaa", None, StdRuntime).unwrap().unwrap();
    assert!(deep_eq(&v, &str_value(b"Hello, world!")));
}

#[test]
fn binary_prefixed_string_decodes() {
    let v = decode(b"!WA:2!JXl5rQ5Kt(6Oq55xuoPOiaa", Some(1024), StdRuntime).unwrap().unwrap();
    assert!(deep_eq(&v, &str_value(b"Hello, world!")));
}

#[test]
fn both_output_versions_round_trip() {
    let key = LuaMapKey::try_from(str_value(b"name")).unwrap();
    let value = LuaValue::Table(vec![
        (key, str_value(b"Hello, world!")),
        (
            LuaMapKey::try_from(LuaValue::Number(2.5f64.to_bits())).unwrap(),
            LuaValue::Array(vec![LuaValue::Boolean(true), LuaValue::Null]),
        ),
    ]);
    for version in [OutputStringVersion::Deflate, OutputStringVersion::BinarySerialization] {
        let encoded = encode(&value, version).unwrap();
        let back = decode(&encoded, None, StdRuntime).unwrap().unwrap();
        assert!(deep_eq(&back, &value));
    }
}

#[test]
fn max_size_is_enforced_exactly() {
    // The serialized form of this value is 106 bytes long.
    let payload = vec![b'a'; 100];
    let value = str_value(&payload);
    let encoded = encode(&value, OutputStringVersion::Deflate).unwrap();
    let ok = decode(&encoded, Some(106), StdRuntime).unwrap().unwrap();
    assert!(deep_eq(&ok, &value));
    assert!(matches!(decode(&encoded, Some(105), StdRuntime), Err(DecodeError::DataExceedsMaxSize)));
}

#[test]
fn invalid_base64_offset_counts_the_prefix() {
    match decode(b"!WA:2!ab=a", None, StdRuntime) {
        Err(DecodeError::Base64DecodeError(
            weakauras_codec::base64::error::DecodeError::InvalidByte(k),
        )) => assert_eq!(k, 8),
        other => panic!("{:?}", other),
    }
}

#[test]
fn invalid_base64_length_is_reported() {
    assert!(matches!(
        decode(b"!abcde", None, StdRuntime),
        Err(DecodeError::Base64DecodeError(
            weakauras_codec::base64::error::DecodeError::InvalidLength
        ))
    ));
}

#[test]
fn legacy_store_mode_decodes() {
    let mut raw: Vec<u8> = vec![1];
    raw.extend_from_slice(b"^1^SHi^^");
    let b64 = encode_to_vec(&raw).unwrap();
    let v = decode(&b64, None, StdRuntime).unwrap().unwrap();
    assert!(deep_eq(&v, &str_value(b"Hi")));
}

#[test]
fn legacy_bad_mode_byte_is_reported() {
    let b64 = encode_to_vec(&[7, 7, 7, 7]).unwrap();
    assert!(matches!(decode(&b64, None, StdRuntime), Err(DecodeError::LibCompressDecompressionError(DecompressionError::InvalidPrefix))));
}

#[test]
fn legacy_compressed_mode_decodes() {
    // One symbol `A` with a one-bit code; two coded bytes.
    assert_eq!(decompress(&[3, 0, 2, 0, 0, 65, 6, 0], 10).unwrap(), b"AA".to_vec());
}

#[test]
fn legacy_decompressor_reports_header_errors() {
    assert_eq!(decompress(&[], 10), Err(DecompressionError::InvalidPrefix));
    assert_eq!(decompress(&[9], 10), Err(DecompressionError::InvalidPrefix));
    assert_eq!(decompress(&[3, 0], 10), Err(DecompressionError::InputIsTooSmall));
    assert_eq!(decompress(&[3, 0, 0, 0, 0], 10), Err(DecompressionError::InputIsTooSmall));
    assert_eq!(decompress(&[3, 0, 9, 0, 0], 8), Err(DecompressionError::DataExceedsMaxSize));
    assert_eq!(decompress(&[3, 0, 2, 0, 0], 10), Err(DecompressionError::UnexpectedEof));
}

#[test]
fn legacy_store_mode_keeps_bytes() {
    assert_eq!(decompress(&[1, 10, 20, 30], 10).unwrap(), vec![10, 20, 30]);
    assert_eq!(decompress(&[1, 10, 20, 30], 3).unwrap(), vec![10, 20, 30]);
}

#[test]
fn legacy_store_mode_respects_the_cap() {
    assert_eq!(decompress(&[1, 10, 20, 30], 2), Err(DecompressionError::DataExceedsMaxSize));
    assert_eq!(decompress(&[1], 0).unwrap(), Vec::<u8>::new());
}

#[test]
fn corrupt_deflate_stream_is_an_io_error() {
    // Valid base64, but the decompressor cannot make sense of the bytes.
    let b64 = encode_to_vec(&[0xff, 0xff, 0xff, 0xff, 0xff]).unwrap();
    let mut input: Vec<u8> = vec![b'!'];
    input.extend_from_slice(&b64);
    assert!(matches!(decode(&input, None, StdRuntime), Err(DecodeError::IoError)));
}
