//! Tests of the bit-level number model against the platform's floats.

use weakauras_codec::numbers::{
    bits_to_int, format_uint, int_to_bits, is_inf_bits, is_nan_bits, mantissa_exp, num_eq,
    parse_uint, round_int_to_bits, uint_to_bits, CANONICAL_NAN_BITS, INFINITY_BITS,
    NEG_INFINITY_BITS,
};

#[test]
fn integer_patterns_match_the_hardware() {
    for n in [1u64, 2, 3, 7, 10, 127, 128, 255, 4095, 65536, 123456789, 9007199254740991] {
        assert_eq!(uint_to_bits(n), (n as f64).to_bits(), "{}", n);
    }
    for n in [-1i64, -2, -127, -4095, -9007199254740991, 0, 5, 42] {
        assert_eq!(int_to_bits(n), (n as f64).to_bits(), "{}", n);
    }
}

#[test]
fn integer_extraction_matches_the_hardware() {
    for f in [0.0f64, -0.0, 1.0, -1.0, 255.0, 4096.0, 72057594037927936.0, 9007199254740993.0] {
        assert_eq!(bits_to_int(f.to_bits()), Some(f as i64), "{}", f);
    }
    for f in [0.5f64, -2.75, f64::NAN, f64::INFINITY, 1e300] {
        assert_eq!(bits_to_int(f.to_bits()), None, "{}", f);
    }
}

#[test]
fn rounding_conversion_matches_the_hardware() {
    for n in [
        0u64,
        1,
        9007199254740992,
        9007199254740993,
        9007199254740995,
        18014398509481985,
        36028797018963971,
        72057594037927935,
    ] {
        assert_eq!(round_int_to_bits(n, false), (n as f64).to_bits(), "{}", n);
        if n > 0 {
            assert_eq!(round_int_to_bits(n, true), (-(n as f64)).to_bits(), "-{}", n);
        }
    }
}

#[test]
fn classification_matches_the_hardware() {
    assert!(is_nan_bits(f64::NAN.to_bits()));
    assert!(!is_nan_bits(1.5f64.to_bits()));
    assert!(is_inf_bits(INFINITY_BITS));
    assert!(is_inf_bits(NEG_INFINITY_BITS));
    assert_eq!(INFINITY_BITS, f64::INFINITY.to_bits());
    assert_eq!(NEG_INFINITY_BITS, f64::NEG_INFINITY.to_bits());
    assert!(is_nan_bits(CANONICAL_NAN_BITS));
}

#[test]
fn number_equality_follows_ieee_rules() {
    assert!(num_eq(0.0f64.to_bits(), (-0.0f64).to_bits()));
    assert!(num_eq(1.5f64.to_bits(), 1.5f64.to_bits()));
    assert!(!num_eq(f64::NAN.to_bits(), f64::NAN.to_bits()));
    assert!(!num_eq(1.0f64.to_bits(), 2.0f64.to_bits()));
}

#[test]
fn mantissa_exponent_is_exact() {
    let (m, e) = mantissa_exp(0.5f64.to_bits());
    assert_eq!((m, e), (4503599627370496, -53));
    let (m, e) = mantissa_exp(3.0f64.to_bits());
    assert_eq!(f64::from_bits(uint_to_bits(m)) * 2f64.powi(e as i32), 3.0);
    // A subnormal keeps its raw fraction at the lowest scale.
    let (m, e) = mantissa_exp(5e-324f64.to_bits());
    assert_eq!((m, e), (1, -1074));
}

#[test]
fn decimal_parse_and_format_agree() {
    for n in [0u64, 1, 9, 10, 99, 12345678901234567] {
        let mut buf = Vec::new();
        format_uint(n, &mut buf);
        assert_eq!(parse_uint(&buf), Some(n));
        assert_eq!(buf, n.to_string().into_bytes());
    }
    assert_eq!(parse_uint(b""), None);
    assert_eq!(parse_uint(b"12x"), None);
    assert_eq!(parse_uint(b"99999999999999999999999"), None);
}
