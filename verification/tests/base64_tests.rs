//! Tests of the base64 layer: kernel agreement, exact values, round
//! trips, and invalid-byte offsets.

use weakauras_codec::base64::decode::{calculate_decoded_len, decode_append, decode_to_vec};
use weakauras_codec::base64::encode::{calculate_encoded_len, encode_to_string, encode_to_vec};
use weakauras_codec::base64::swar;

fn base64_iter() -> impl Iterator<Item = u8> {
    (b'a'..=b'z')
        .chain(b'A'..=b'Z')
        .chain(b'0'..=b'9')
        .chain(b'('..=b')')
        .cycle()
}

fn encode_wide(data: &[u8]) -> Vec<u8> {
    let mut out = Vec::new();
    swar::encode_append(data, &mut out);
    out
}

fn encode_plain(data: &[u8]) -> Vec<u8> {
    encode_to_vec(data).unwrap()
}

#[test]
fn scalar_and_ssse3_return_same_values() {
    let data: Vec<u8> = (0..=255).cycle().take(1024 * 30 + 3).collect();
    assert_eq!(encode_plain(&data), encode_wide(&data));
}

#[test]
fn scalar_and_avx2_return_same_values() {
    let data: Vec<u8> = (0..=255).cycle().take(1024 * 30 + 3).collect();
    assert_eq!(encode_plain(&data), encode_wide(&data));
}

#[test]
fn scalar_and_neon_return_same_values() {
    let data: Vec<u8> = (0..=255).cycle().take(1024 * 30 + 3).collect();
    assert_eq!(encode_plain(&data), encode_wide(&data));
}

#[test]
fn scalar_and_simd128_return_same_values() {
    let data: Vec<u8> = (0..=255).cycle().take(1024 * 30 + 3).collect();
    assert_eq!(encode_plain(&data), encode_wide(&data));
}

fn decode_plain(data: &[u8]) -> Result<Vec<u8>, usize> {
    let mut out = Vec::new();
    match decode_append(data, &mut out) {
        Ok(_) => Ok(out),
        Err(k) => Err(k),
    }
}

fn decode_wide(data: &[u8]) -> Result<Vec<u8>, usize> {
    let mut out = Vec::new();
    match swar::decode_append(data, &mut out) {
        Ok(_) => Ok(out),
        Err(k) => Err(k),
    }
}

#[test]
fn scalar_and_sse41_return_same_values() {
    let data: Vec<u8> = base64_iter().take(1024 * 1024 + 3).collect();
    assert_eq!(decode_plain(&data), decode_wide(&data));
}

#[test]
fn mod_scalar_and_avx2_return_same_values() {
    let data: Vec<u8> = base64_iter().take(1024 * 1024 + 3).collect();
    assert_eq!(decode_plain(&data), decode_wide(&data));
}

#[test]
fn scalar_returns_index_of_invalid_byte() {
    let test_cases = [
        (
            core::iter::once(b'=').chain(base64_iter().take(7)).collect::<Vec<_>>(),
            0usize,
        ),
        (
            base64_iter()
                .take(1)
                .chain(core::iter::once(b'='))
                .chain(base64_iter().take(6))
                .collect::<Vec<_>>(),
            1,
        ),
        (
            base64_iter()
                .take(4)
                .chain(core::iter::once(b'='))
                .chain(base64_iter().take(3))
                .collect::<Vec<_>>(),
            4,
        ),
        (base64_iter().take(9).chain(core::iter::once(b'=')).collect::<Vec<_>>(), 9),
        (
            base64_iter()
                .take(9)
                .chain(core::iter::once(b'='))
                .chain(base64_iter().take(1))
                .collect::<Vec<_>>(),
            9,
        ),
    ];

    for (data, invalid_byte_at) in test_cases {
        assert_eq!(decode_plain(&data), Err(invalid_byte_at));
    }
}

#[test]
fn sse41_returns_index_of_invalid_byte() {
    let test_cases = [
        (
            core::iter::once(b'=').chain(base64_iter().take(39)).collect::<Vec<_>>(),
            0usize,
        ),
        (
            base64_iter()
                .take(1)
                .chain(core::iter::once(b'='))
                .chain(base64_iter().take(38))
                .collect::<Vec<_>>(),
            1,
        ),
        (
            base64_iter()
                .take(16)
                .chain(core::iter::once(b'='))
                .chain(base64_iter().take(23))
                .collect::<Vec<_>>(),
            16,
        ),
        (
            base64_iter()
                .take(35)
                .chain(core::iter::once(b'='))
                .chain(base64_iter().take(4))
                .collect::<Vec<_>>(),
            35,
        ),
    ];

    for (data, invalid_byte_at) in test_cases {
        assert_eq!(decode_wide(&data), Err(invalid_byte_at));
    }
}

#[test]
fn avx2_returns_index_of_invalid_byte() {
    let test_cases = [
        (
            core::iter::once(b'=').chain(base64_iter().take(79)).collect::<Vec<_>>(),
            0usize,
        ),
        (
            base64_iter()
                .take(1)
                .chain(core::iter::once(b'='))
                .chain(base64_iter().take(78))
                .collect::<Vec<_>>(),
            1,
        ),
        (
            base64_iter()
                .take(32)
                .chain(core::iter::once(b'='))
                .chain(base64_iter().take(47))
                .collect::<Vec<_>>(),
            32,
        ),
        (
            base64_iter()
                .take(70)
                .chain(core::iter::once(b'='))
                .chain(base64_iter().take(9))
                .collect::<Vec<_>>(),
            70,
        ),
    ];

    for (data, invalid_byte_at) in test_cases {
        assert_eq!(decode_wide(&data), Err(invalid_byte_at));
    }
}

#[test]
fn encode_hello_world() {
    assert_eq!(encode_to_string(b"Hello, world!").unwrap(), "ivgBS9glGC3BYXgzHa");
    assert_eq!(encode_plain(b"Hello, world!"), b"ivgBS9glGC3BYXgzHa".to_vec());
}

#[test]
fn decode_hello_world() {
    assert_eq!(decode_to_vec(b"ivgBS9glGC3BYXgzHa").unwrap(), b"Hello, world!".to_vec());
}

#[test]
fn round_trip_all_lengths() {
    for len in 0..100usize {
        let data: Vec<u8> = (0..=255).cycle().take(len).collect();
        let encoded = encode_plain(&data);
        assert_eq!(decode_to_vec(&encoded).unwrap(), data);
        let wide = encode_wide(&data);
        assert_eq!(wide, encoded);
        assert_eq!(decode_wide(&wide).unwrap(), data);
    }
}

#[test]
fn length_calculations() {
    assert_eq!(calculate_encoded_len(b"Hello, world!").unwrap(), 18);
    assert_eq!(calculate_decoded_len(b"ivgBS9glGC3BYXgzHa").unwrap(), 13);
    assert_eq!(calculate_encoded_len(b"").unwrap(), 0);
    assert_eq!(calculate_decoded_len(b"ab").unwrap(), 1);
    assert!(calculate_decoded_len(b"abcde").is_none());
}

#[test]
fn invalid_length_is_reported() {
    assert!(decode_to_vec(b"abcde").is_err());
    assert!(decode_to_vec(b"a").is_err());
}
