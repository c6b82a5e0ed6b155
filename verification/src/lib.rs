//! Codec for WeakAuras-compatible strings.
//!
//! An encoded string has up to four layers, outermost first: a short ASCII
//! prefix selecting the format, a custom base64 alphabet, a compression
//! stage (DEFLATE, or a legacy scheme for prefix-less strings), and a
//! serialization stage that turns the decompressed bytes into a tree of
//! Lua-like values.

pub mod ace_serialize;
pub mod base64;
pub mod deflate;
pub mod error;
pub mod lib_compress;
pub mod lib_serialize;
pub mod lua_value;
pub mod numbers;
pub mod unicode;

pub use error::DecodeError;
pub use error::EncodeError;
pub use lua_value::LuaMapKey;
pub use lua_value::LuaValue;
pub use numbers::NumberRuntime;

use vstd::prelude::*;

use crate::base64::error::DecodeError as Base64DecodeError;
use crate::base64::{decode_of, first_invalid_at, spec_valid_sym};
use crate::deflate::{inflate_of, InflateError};

verus! {

/// A version of the string to be produced by [encode].
#[derive(Clone, Copy, Debug, PartialEq, Eq, Structural)]
pub enum OutputStringVersion {
    /// `!` followed by the base64 payload, DEFLATE over the textual format.
    Deflate,
    /// `!WA:2!` followed by the base64 payload, DEFLATE over the binary
    /// format.
    BinarySerialization,
}

/// The decompression cap used when the caller passes `None`: 16 MiB.
pub const DEFAULT_MAX_SIZE: usize = 16777216;

/// The length of the prefix that selects the format: 6 for `!WA:2!`, 1
/// for `!`, 0 for a legacy string.
pub open spec fn spec_prefix_len(data: Seq<u8>) -> int {
    if data.len() >= 6 && data[0] == 0x21 && data[1] == 0x57 && data[2] == 0x41 && data[3] == 0x3a
        && data[4] == 0x32 && data[5] == 0x21 {
        6
    } else if data.len() >= 1 && data[0] == 0x21 {
        1
    } else {
        0
    }
}

/// The base64 payload: everything after the prefix.
pub open spec fn spec_payload(data: Seq<u8>) -> Seq<u8> {
    data.skip(spec_prefix_len(data))
}

/// The decompression cap `max_size` selects.
pub open spec fn spec_max(max_size: Option<usize>) -> int {
    match max_size {
        Some(v) => v as int,
        None => DEFAULT_MAX_SIZE as int,
    }
}

/// Whether the base64 layer accepts `payload`: a workable length and only
/// alphabet symbols.
pub open spec fn spec_b64_ok(payload: Seq<u8>) -> bool {
    &&& payload.len() % 4 != 1
    &&& forall|j: int| 0 <= j < payload.len() ==> spec_valid_sym(payload[j])
}

/// The error decoding reports for an invalid base64 byte at whole-input
/// offset `k`.
pub open spec fn spec_invalid_byte_err(k: int) -> Result<Option<LuaValue>, DecodeError> {
    Err(DecodeError::Base64DecodeError(Base64DecodeError::InvalidByte(k as usize)))
}

/// What decoding owes when the binary-format path reaches the
/// decompressed bytes `d`: the binary deserializer's pinned answers,
/// wrapped in the pipeline's error type.
pub open spec fn spec_v2_decode_pins(d: Seq<u8>, r: Result<Option<LuaValue>, DecodeError>) -> bool {
    &&& ((d.len() == 0 || (d[0] != 1 && d[0] != 2)) ==> r == Err::<Option<LuaValue>, DecodeError>(
        DecodeError::LibSerializeDeserializationError(
            crate::lib_serialize::error::DeserializationError::InvalidPrefix,
        ),
    ))
    &&& ((d.len() == 1 && (d[0] == 1 || d[0] == 2)) ==> r == Ok::<Option<LuaValue>, DecodeError>(
        None,
    ))
    &&& ((d.len() >= 2 && (d[0] == 1 || d[0] == 2)) ==> {
        &&& (d[1] & 1 == 1 ==> r == Ok::<Option<LuaValue>, DecodeError>(
            Some(LuaValue::Number(crate::numbers::spec_bits_of_int((d[1] / 2) as int))),
        ))
        &&& (d[1] == 0 ==> r == Ok::<Option<LuaValue>, DecodeError>(Some(LuaValue::Null)))
        &&& (d[1] == 96 ==> r == Ok::<Option<LuaValue>, DecodeError>(
            Some(LuaValue::Boolean(true)),
        ))
        &&& (d[1] == 104 ==> r == Ok::<Option<LuaValue>, DecodeError>(
            Some(LuaValue::Boolean(false)),
        ))
        &&& (d[1] & 7 == 4 ==> if d.len() >= 3 {
            r == Ok::<Option<LuaValue>, DecodeError>(
                Some(crate::lib_serialize::deserialization::spec_v2_compact_number(d[1], d[2])),
            )
        } else {
            r == Err::<Option<LuaValue>, DecodeError>(
                DecodeError::LibSerializeDeserializationError(
                    crate::lib_serialize::error::DeserializationError::UnexpectedEof,
                ),
            )
        })
        &&& (d[1] & 3 == 2 && (d[1] & 0x0f) >> 2 == 0 ==> ({
            let slen = (d[1] >> 4) as int;
            if 2 + slen <= d.len() {
                r matches Ok(Some(LuaValue::String(b))) && b@ == crate::unicode::utf8_lossy_of(
                    d.subrange(2, 2 + slen),
                )
            } else {
                r == Err::<Option<LuaValue>, DecodeError>(
                    DecodeError::LibSerializeDeserializationError(
                        crate::lib_serialize::error::DeserializationError::UnexpectedEof,
                    ),
                )
            }
        }))
    })
}

/// What decoding owes when a textual-format path reaches the (lossy
/// UTF-8 normalized) text `t`: the textual deserializer's pinned answers,
/// wrapped in the pipeline's error type.
pub open spec fn spec_v1_decode_pins(t: Seq<u8>, r: Result<Option<LuaValue>, DecodeError>) -> bool {
    &&& (t.len() < 2 ==> r == Err::<Option<LuaValue>, DecodeError>(
        DecodeError::AceSerializeDeserializationError(
            crate::ace_serialize::error::DeserializationError::UnexpectedEof,
        ),
    ))
    &&& (t.len() >= 2 && !(t[0] == 0x5e && t[1] <= 0x79) ==> r == Err::<
        Option<LuaValue>,
        DecodeError,
    >(
        DecodeError::AceSerializeDeserializationError(
            crate::ace_serialize::error::DeserializationError::InvalidIdentifier,
        ),
    ))
    &&& (t.len() >= 2 && t[0] == 0x5e && t[1] <= 0x79 && t[1] != 0x31 ==> r == Err::<
        Option<LuaValue>,
        DecodeError,
    >(
        DecodeError::AceSerializeDeserializationError(
            crate::ace_serialize::error::DeserializationError::InvalidPrefix,
        ),
    ))
    &&& (t.len() >= 2 && t[0] == 0x5e && t[1] == 0x31 && t.len() < 4 ==> r == Err::<
        Option<LuaValue>,
        DecodeError,
    >(
        DecodeError::AceSerializeDeserializationError(
            crate::ace_serialize::error::DeserializationError::UnexpectedEof,
        ),
    ))
    &&& (t.len() >= 4 && t[0] == 0x5e && t[1] == 0x31 && t[2] == 0x5e && t[3] <= 0x79 ==> {
        &&& (t[3] == 0x5e ==> r == Ok::<Option<LuaValue>, DecodeError>(None))
        &&& (t[3] == 0x5a ==> r == Ok::<Option<LuaValue>, DecodeError>(Some(LuaValue::Null)))
        &&& (t[3] == 0x42 ==> r == Ok::<Option<LuaValue>, DecodeError>(
            Some(LuaValue::Boolean(true)),
        ))
        &&& (t[3] == 0x62 ==> r == Ok::<Option<LuaValue>, DecodeError>(
            Some(LuaValue::Boolean(false)),
        ))
        &&& (t[3] == 0x53 ==> match crate::ace_serialize::reader::spec_parse_str(t.skip(4)) {
            Ok(p) => r matches Ok(Some(LuaValue::String(v))) && v@ == p.0,
            Err(e) => r == Err::<Option<LuaValue>, DecodeError>(
                DecodeError::AceSerializeDeserializationError(e),
            ),
        })
        &&& (t[3] == 0x4e ==> match crate::ace_serialize::deserialization::spec_find_caret(
            t,
            4,
        ) {
            None => r == Err::<Option<LuaValue>, DecodeError>(
                DecodeError::AceSerializeDeserializationError(
                    crate::ace_serialize::error::DeserializationError::UnexpectedEof,
                ),
            ),
            Some(j) => match crate::ace_serialize::deserialization::spec_n_token(
                t.subrange(4, j),
            ) {
                Some(b) => r == Ok::<Option<LuaValue>, DecodeError>(
                    Some(LuaValue::Number(b)),
                ),
                None => true,
            },
        })
    })
}

/// Decode a WeakAuras-compatible string into a value.
///
/// `max_size` caps the decompressed byte count (`None` means 16 MiB), a
/// measure against inputs crafted to inflate enormously. Number payloads
/// that are not plain integer literals are converted through `runtime`
/// (see [`NumberRuntime`]). `Ok(None)` means the stream held no value
/// after its prefix.
pub fn decode<R: NumberRuntime>(data: &[u8], max_size: Option<usize>, runtime: R) -> (r: Result<
    Option<LuaValue>,
    DecodeError,
>)
    ensures
        ({
            let payload = spec_payload(data@);
            let plen = spec_prefix_len(data@);
            let cap = spec_max(max_size);
            &&& (match r {
                Err(DecodeError::Base64DecodeError(e)) => match e {
                    Base64DecodeError::InvalidLength => payload.len() % 4 == 1,
                    Base64DecodeError::InvalidByte(k) => k >= plen && first_invalid_at(
                        payload,
                        k - plen,
                    ),
                },
                _ => true,
            })
            &&& (payload.len() % 4 == 1 ==> r == Err::<Option<LuaValue>, DecodeError>(
                DecodeError::Base64DecodeError(Base64DecodeError::InvalidLength),
            ))
            &&& (r is Ok ==> payload.len() % 4 != 1 && (forall|j: int|
                0 <= j < payload.len() ==> spec_valid_sym(payload[j])))
            &&& (r is Ok && plen >= 1 ==> (inflate_of(decode_of(payload)) matches Some(d)
                && d.len() <= cap))
            &&& ((r == Err::<Option<LuaValue>, DecodeError>(DecodeError::DataExceedsMaxSize)
                && plen >= 1) ==> !(inflate_of(decode_of(payload)) matches Some(d) && d.len()
                <= cap))
            &&& (r == Err::<Option<LuaValue>, DecodeError>(DecodeError::IoError) ==> plen >= 1
                && inflate_of(decode_of(payload)) is None)
            &&& (r is Ok && plen == 0 ==> decode_of(payload).len() >= 1 && (decode_of(payload)[0]
                == 1 || decode_of(payload)[0] == 3))
            &&& (forall|j: int|
                payload.len() % 4 != 1 && first_invalid_at(payload, j) ==> r
                    == spec_invalid_byte_err(plen + j))
            &&& (spec_b64_ok(payload) && plen >= 1 && (inflate_of(decode_of(payload)) matches Some(
                d,
            ) && d.len() > cap) ==> r == Err::<Option<LuaValue>, DecodeError>(
                DecodeError::DataExceedsMaxSize,
            ))
            &&& (spec_b64_ok(payload) && plen >= 1 && inflate_of(decode_of(payload)) is None ==> r
                == Err::<Option<LuaValue>, DecodeError>(DecodeError::IoError) || r == Err::<
                Option<LuaValue>,
                DecodeError,
            >(DecodeError::DataExceedsMaxSize))
            &&& (spec_b64_ok(payload) && plen >= 1 && (inflate_of(decode_of(payload)) matches Some(
                d,
            ) && d.len() <= cap) ==> !(r == Err::<Option<LuaValue>, DecodeError>(
                DecodeError::DataExceedsMaxSize,
            )) && !(r == Err::<Option<LuaValue>, DecodeError>(DecodeError::IoError)) && !(r matches
            Err(DecodeError::Base64DecodeError(_))) && !(r matches Err(
                DecodeError::LibCompressDecompressionError(_),
            )))
            &&& (spec_b64_ok(payload) && plen == 6 ==> match inflate_of(decode_of(payload)) {
                Some(d) => d.len() <= cap ==> spec_v2_decode_pins(d, r),
                None => true,
            })
            &&& (spec_b64_ok(payload) && plen == 1 ==> match inflate_of(decode_of(payload)) {
                Some(d) => d.len() <= cap ==> spec_v1_decode_pins(
                    crate::unicode::utf8_lossy_of(d),
                    r,
                ),
                None => true,
            })
            &&& (spec_b64_ok(payload) && plen == 0 && decode_of(payload).len() >= 1 && decode_of(
                payload,
            )[0] == 1 && decode_of(payload).len() - 1 <= cap ==> spec_v1_decode_pins(
                crate::unicode::utf8_lossy_of(decode_of(payload).skip(1)),
                r,
            ))
            &&& (spec_b64_ok(payload) && plen == 0 ==> ({
                let c = decode_of(payload);
                &&& ((c.len() == 0 || (c[0] != 1 && c[0] != 3)) ==> r == Err::<
                    Option<LuaValue>,
                    DecodeError,
                >(
                    DecodeError::LibCompressDecompressionError(
                        crate::lib_compress::DecompressionError::InvalidPrefix,
                    ),
                ))
                &&& (c.len() >= 1 && c[0] == 1 && c.len() - 1 > cap ==> r == Err::<
                    Option<LuaValue>,
                    DecodeError,
                >(DecodeError::DataExceedsMaxSize))
                &&& (c.len() >= 5 && c[0] == 3 && c[1] != 255
                    && crate::lib_compress::spec_stored_size(c) > cap ==> r == Err::<
                    Option<LuaValue>,
                    DecodeError,
                >(DecodeError::DataExceedsMaxSize))
            }))
        }),
{
    let n = data.len();
    let is_v2 = n >= 6 && data[0] == 0x21 && data[1] == 0x57 && data[2] == 0x41 && data[3] == 0x3a
        && data[4] == 0x32 && data[5] == 0x21;
    let is_deflate = !is_v2 && n >= 1 && data[0] == 0x21;
    let plen: usize = if is_v2 {
        6
    } else if is_deflate {
        1
    } else {
        0
    };
    let payload = &data[plen..n];
    proof {
        assert(payload@ =~= spec_payload(data@));
    }
    let compressed = match crate::base64::decode::decode_to_vec(payload) {
        Ok(v) => v,
        Err(Base64DecodeError::InvalidByte(k)) => {
            return Err(DecodeError::Base64DecodeError(Base64DecodeError::InvalidByte(plen + k)));
        },
        Err(Base64DecodeError::InvalidLength) => {
            return Err(DecodeError::Base64DecodeError(Base64DecodeError::InvalidLength));
        },
    };
    let max = match max_size {
        Some(v) => v,
        None => DEFAULT_MAX_SIZE,
    };
    if plen == 0 {
        // Legacy: the custom decompressor, then the textual format.
        let decompressed = match crate::lib_compress::decompress(compressed.as_slice(), max) {
            Ok(v) => v,
            Err(crate::lib_compress::DecompressionError::DataExceedsMaxSize) => {
                return Err(DecodeError::DataExceedsMaxSize);
            },
            Err(e) => {
                return Err(DecodeError::LibCompressDecompressionError(e));
            },
        };
        let text = crate::unicode::utf8_lossy(decompressed);
        let de = crate::ace_serialize::Deserializer::from_str(text.as_slice(), runtime);
        return match de.deserialize_first() {
            Ok(v) => Ok(v),
            Err(e) => Err(DecodeError::AceSerializeDeserializationError(e)),
        };
    }
    let decoded = match crate::deflate::inflate_capped(compressed.as_slice(), max) {
        Ok(v) => v,
        Err(InflateError::DataTooLarge) => {
            return Err(DecodeError::DataExceedsMaxSize);
        },
        Err(InflateError::Io) => {
            return Err(DecodeError::IoError);
        },
    };
    if is_v2 {
        let de = crate::lib_serialize::Deserializer::from_slice(decoded.as_slice(), runtime);
        match de.deserialize_first() {
            Ok(v) => Ok(v),
            Err(e) => Err(DecodeError::LibSerializeDeserializationError(e)),
        }
    } else {
        let text = crate::unicode::utf8_lossy(decoded);
        let de = crate::ace_serialize::Deserializer::from_str(text.as_slice(), runtime);
        match de.deserialize_first() {
            Ok(v) => Ok(v),
            Err(e) => Err(DecodeError::AceSerializeDeserializationError(e)),
        }
    }
}

/// Encode a value into a WeakAuras-compatible string, returned as ASCII
/// bytes.
pub fn encode(value: &LuaValue, string_version: OutputStringVersion) -> (r: Result<
    Vec<u8>,
    EncodeError,
>)
    ensures
        string_version == OutputStringVersion::Deflate
            ==> match crate::ace_serialize::serialization::spec_v1_serialize(*value) {
            Err(e) => r == Err::<Vec<u8>, EncodeError>(
                EncodeError::AceSerializeSerializationError(e),
            ),
            Ok(s) => match r {
                Ok(out) => exists|c: Seq<u8>|
                    #[trigger] inflate_of(c) == Some(s) && out@ == seq![0x21u8]
                        + crate::base64::encode_of(c),
                Err(EncodeError::Base64EncodeError(e2)) => e2
                    == crate::base64::error::EncodeError::DataIsTooLarge && exists|c: Seq<u8>|
                    #[trigger] inflate_of(c) == Some(s)
                        && crate::base64::spec_encoded_len(c.len() as int) + 1 > usize::MAX,
                _ => false,
            },
        },
        string_version == OutputStringVersion::BinarySerialization
            ==> match crate::lib_serialize::serialization::spec_v2_serialize(*value) {
            Err(e) => r == Err::<Vec<u8>, EncodeError>(
                EncodeError::LibSerializeSerializationError(e),
            ),
            Ok(s) => match r {
                Ok(out) => exists|c: Seq<u8>|
                    #[trigger] inflate_of(c) == Some(s) && out@ == seq![
                        0x21u8,
                        0x57u8,
                        0x41u8,
                        0x3au8,
                        0x32u8,
                        0x21u8,
                    ] + crate::base64::encode_of(c),
                Err(EncodeError::Base64EncodeError(e2)) => e2
                    == crate::base64::error::EncodeError::DataIsTooLarge && exists|c: Seq<u8>|
                    #[trigger] inflate_of(c) == Some(s)
                        && crate::base64::spec_encoded_len(c.len() as int) + 6 > usize::MAX,
                _ => false,
            },
        },
{
    let serialized = match string_version {
        OutputStringVersion::Deflate => {
            match crate::ace_serialize::Serializer::serialize_one(value, None) {
                Ok(v) => v,
                Err(e) => {
                    return Err(EncodeError::AceSerializeSerializationError(e));
                },
            }
        },
        OutputStringVersion::BinarySerialization => {
            match crate::lib_serialize::Serializer::serialize_one(value, None) {
                Ok(v) => v,
                Err(e) => {
                    return Err(EncodeError::LibSerializeSerializationError(e));
                },
            }
        },
    };
    let compressed = match crate::deflate::deflate_compress(serialized.as_slice()) {
        Ok(v) => v,
        Err(_) => {
            // The compressor cannot fail on slice input.
            proof {
                assert(false);
            }
            return Err(EncodeError::IoError);
        },
    };
    let mut out: Vec<u8> = Vec::new();
    out.push(0x21);
    if string_version == OutputStringVersion::BinarySerialization {
        out.push(0x57);
        out.push(0x41);
        out.push(0x3a);
        out.push(0x32);
        out.push(0x21);
    }
    match crate::base64::encode::calculate_encoded_len(compressed.as_slice()) {
        Some(el) => {
            if el > usize::MAX - out.len() {
                return Err(
                    EncodeError::Base64EncodeError(
                        crate::base64::error::EncodeError::DataIsTooLarge,
                    ),
                );
            }
        },
        None => {
            return Err(
                EncodeError::Base64EncodeError(crate::base64::error::EncodeError::DataIsTooLarge),
            );
        },
    }
    crate::base64::encode::encode_append(compressed.as_slice(), &mut out);
    proof {
        if string_version == OutputStringVersion::Deflate {
            assert(out@ =~= seq![0x21u8] + crate::base64::encode_of(compressed@));
        } else {
            assert(out@ =~= seq![0x21u8, 0x57u8, 0x41u8, 0x3au8, 0x32u8, 0x21u8]
                + crate::base64::encode_of(compressed@));
        }
    }
    Ok(out)
}

} // verus!
