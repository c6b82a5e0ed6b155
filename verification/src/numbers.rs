//! IEEE-754 binary64 values handled as their raw bit patterns.
//!
//! Numbers travel through the codec as `u64` bit patterns, so the codec
//! itself never performs floating-point arithmetic. Everything the wire
//! formats need — classification, equality, exact conversions between
//! integers and bit patterns, mantissa/exponent decomposition — is integer
//! arithmetic on the pattern.

use vstd::arithmetic::power2::{
    lemma2_to64, lemma_pow2_adds, lemma_pow2_pos, lemma_pow2_strictly_increases, pow2,
};
use vstd::bits::lemma_u64_shl_is_mul;
use vstd::prelude::*;

verus! {

/// Bit pattern of a positive quiet NaN, the canonical NaN of the binary
/// format.
pub const CANONICAL_NAN_BITS: u64 = 0x7ff8000000000000;

/// Bit pattern of positive infinity.
pub const INFINITY_BITS: u64 = 0x7ff0000000000000;

/// Bit pattern of negative infinity.
pub const NEG_INFINITY_BITS: u64 = 0xfff0000000000000;

/// The biased exponent field.
pub open spec fn spec_exp_field(b: u64) -> u64 {
    (b / 0x10000000000000) % 0x800
}

/// The 52-bit fraction field.
pub open spec fn spec_frac_field(b: u64) -> u64 {
    b % 0x10000000000000
}

/// Whether the sign bit is set.
pub open spec fn spec_sign_bit(b: u64) -> bool {
    b >= 0x8000000000000000
}

/// Whether `b` encodes a NaN.
pub open spec fn spec_is_nan(b: u64) -> bool {
    spec_exp_field(b) == 0x7ff && spec_frac_field(b) != 0
}

/// Whether `b` encodes an infinity.
pub open spec fn spec_is_inf(b: u64) -> bool {
    spec_exp_field(b) == 0x7ff && spec_frac_field(b) == 0
}

/// Whether `b` encodes a zero of either sign.
pub open spec fn spec_is_zero(b: u64) -> bool {
    b == 0 || b == 0x8000000000000000
}

/// Equality of two numbers under IEEE semantics: NaN equals nothing, the
/// two zeros are equal, and otherwise the patterns must agree.
pub open spec fn spec_num_eq(a: u64, b: u64) -> bool {
    &&& !spec_is_nan(a)
    &&& !spec_is_nan(b)
    &&& (a == b || (spec_is_zero(a) && spec_is_zero(b)))
}

/// The biased exponent field.
pub fn exp_field(b: u64) -> (r: u64)
    ensures
        r == spec_exp_field(b),
        r < 0x800,
{
    (b / 0x10000000000000) % 0x800
}

/// The 52-bit fraction field.
pub fn frac_field(b: u64) -> (r: u64)
    ensures
        r == spec_frac_field(b),
        r < 0x10000000000000,
{
    b % 0x10000000000000
}

/// Whether the sign bit is set.
pub fn sign_bit(b: u64) -> (r: bool)
    ensures
        r == spec_sign_bit(b),
{
    b >= 0x8000000000000000
}

/// Whether `b` encodes a NaN.
pub fn is_nan_bits(b: u64) -> (r: bool)
    ensures
        r == spec_is_nan(b),
{
    exp_field(b) == 0x7ff && frac_field(b) != 0
}

/// Whether `b` encodes an infinity of either sign.
pub fn is_inf_bits(b: u64) -> (r: bool)
    ensures
        r == spec_is_inf(b),
{
    exp_field(b) == 0x7ff && frac_field(b) == 0
}

/// Equality of two numbers under IEEE semantics.
pub fn num_eq(a: u64, b: u64) -> (r: bool)
    ensures
        r == spec_num_eq(a, b),
{
    if is_nan_bits(a) || is_nan_bits(b) {
        false
    } else {
        a == b || ((a == 0 || a == 0x8000000000000000) && (b == 0 || b == 0x8000000000000000))
    }
}

/// Position of the most significant set bit of `n`; 0 for `n <= 1`.
pub open spec fn spec_msb(n: int) -> int
    decreases n,
{
    if n < 2 {
        0
    } else {
        1 + spec_msb(n / 2)
    }
}

/// `2^spec_msb(n) <= n < 2^(spec_msb(n) + 1)` for positive `n`.
pub proof fn lemma_msb_bounds(n: int)
    requires
        n >= 1,
    ensures
        0 <= spec_msb(n) && pow2(spec_msb(n) as nat) <= n < pow2((spec_msb(n) + 1) as nat),
    decreases n,
{
    if n < 2 {
        lemma2_to64();
    } else {
        lemma_msb_bounds(n / 2);
        let m = spec_msb(n / 2);
        lemma_pow2_adds(m as nat, 1);
        lemma_pow2_adds((m + 1) as nat, 1);
        lemma2_to64();
        assert(pow2((m + 1) as nat) == 2 * pow2(m as nat));
        assert(pow2((m + 2) as nat) == 2 * pow2((m + 1) as nat));
        assert(n == 2 * (n / 2) + n % 2);
    }
}

/// The bit pattern of the binary64 value equal to `n`, for `1 <= n < 2^53`:
/// the normal encoding with unbiased exponent `spec_msb(n)`.
pub open spec fn spec_bits_of_uint(n: int) -> u64 {
    let p = spec_msb(n);
    ((p + 1023) * 0x10000000000000 + n * pow2((52 - p) as nat) - 0x10000000000000) as u64
}

/// The bit pattern of the binary64 value equal to the integer `n`, for
/// `|n| < 2^53`.
pub open spec fn spec_bits_of_int(n: int) -> u64 {
    if n == 0 {
        0
    } else if n > 0 {
        spec_bits_of_uint(n)
    } else {
        (spec_bits_of_uint(-n) + 0x8000000000000000) as u64
    }
}

/// The exact integer encoded by the bit pattern `b`, when `b` is finite and
/// integral with magnitude below `2^63`; `None` otherwise.
pub open spec fn spec_int_of_bits(b: u64) -> Option<int> {
    let e = spec_exp_field(b);
    let f = spec_frac_field(b);
    let neg = spec_sign_bit(b);
    if b == 0 || b == 0x8000000000000000 {
        Some(0)
    } else if e < 1023 || e >= 0x7ff {
        None  // below one (and not zero), or infinite, or NaN
    } else if e >= 1075 {
        if e - 1075 <= 10 {
            let m = (0x10000000000000 + f) * pow2((e - 1075) as nat);
            if neg {
                Some(-m)
            } else {
                Some(m as int)
            }
        } else {
            None  // magnitude of 2^63 or more
        }
    } else {
        let shift = pow2((1075 - e) as nat) as int;
        if (f as int) % shift == 0 {
            let m = (0x10000000000000 + f) / shift;
            if neg {
                Some(-m)
            } else {
                Some(m)
            }
        } else {
            None  // has a fractional part
        }
    }
}

/// Build the bit pattern of the binary64 value equal to `n`.
pub fn uint_to_bits(n: u64) -> (r: u64)
    requires
        1 <= n < 0x20000000000000,
    ensures
        r == spec_bits_of_uint(n as int),
        r < 0x8000000000000000,
{
    let mut m: u64 = n;
    let mut p: u64 = 0;
    proof {
        lemma2_to64();
    }
    while m >= 2
        invariant
            1 <= m <= n < 0x20000000000000,
            p == spec_msb(n as int) - spec_msb(m as int),
            spec_msb(n as int) - spec_msb(m as int) >= 0,
            pow2(p as nat) * (m as int) <= n as int,
        decreases m,
    {
        proof {
            lemma_pow2_pos(p as nat);
            lemma2_to64_rest_local();
            assert(pow2(p as nat) <= n as int) by (nonlinear_arith)
                requires
                    pow2(p as nat) * (m as int) <= n as int && m >= 1 && pow2(p as nat) >= 1,
            ;
            if p > 53 {
                lemma_pow2_strictly_increases(53, p as nat);
            }
            assert(p <= 52);
            lemma_pow2_adds(p as nat, 1);
            lemma2_to64();
            assert(pow2((p + 1) as nat) * ((m / 2) as int) <= pow2(p as nat) * (m as int))
                by (nonlinear_arith)
                requires
                    pow2((p + 1) as nat) == 2 * pow2(p as nat) && m >= 2 && pow2(p as nat) >= 1,
            ;
        }
        m = m / 2;
        p = p + 1;
    }
    proof {
        assert(spec_msb(m as int) == 0);
        assert(p == spec_msb(n as int));
        lemma_msb_bounds(n as int);
        assert(pow2(p as nat) <= n);
        // p <= 52 because n < 2^53
        lemma2_to64_rest_local();
        if p > 53 {
            lemma_pow2_strictly_increases(53, p as nat);
        }
        assert(p <= 52);
        lemma_pow2_adds((52 - p) as nat, p as nat);
        assert(n * pow2((52 - p) as nat) < 0x20000000000000) by {
            assert(n < pow2((p + 1) as nat));
            lemma_pow2_adds((52 - p) as nat, (p + 1) as nat);
            assert(pow2((52 - p) as nat) * pow2((p + 1) as nat) == pow2(53));
            assert(n * pow2((52 - p) as nat) < pow2((p + 1) as nat) * pow2((52 - p) as nat))
                by (nonlinear_arith)
                requires
                    n < pow2((p + 1) as nat) && pow2((52 - p) as nat) >= 1,
            ;
        }
        assert(n * pow2((52 - p) as nat) >= 0x10000000000000) by {
            lemma_pow2_adds(p as nat, (52 - p) as nat);
            assert(pow2(p as nat) <= n);
            assert(pow2(p as nat) * pow2((52 - p) as nat) <= n * pow2((52 - p) as nat))
                by (nonlinear_arith)
                requires
                    pow2(p as nat) <= n && pow2((52 - p) as nat) >= 1,
            ;
            assert(pow2(p as nat) * pow2((52 - p) as nat) == pow2(52));
        }
        lemma_u64_shl_is_mul(n, (52 - p) as u64);
    }
    let shifted = n << (52 - p);
    let low = shifted - 0x10000000000000;
    let efield = p + 1023;
    let r = (efield << 52u64) | low;
    proof {
        lemma_u64_shl_is_mul(efield, 52u64);
        lemma2_to64_rest_local();
        assert(r == (efield << 52u64) + low) by (bit_vector)
            requires
                efield < 2048 && low < 0x10000000000000 && r == (efield << 52u64) | low,
        ;
    }
    r
}

/// Building the pattern of a positive integer and reading the integer
/// back gives the integer: the two spec-level conversions invert.
pub proof fn lemma_uint_bits_round_trip(n: int)
    requires
        1 <= n < 0x20000000000000,
    ensures
        spec_int_of_bits(spec_bits_of_uint(n)) == Some(n),
        spec_bits_of_uint(n) < 0x8000000000000000,
{
    let p = spec_msb(n);
    lemma_msb_bounds(n);
    lemma2_to64_rest_local();
    if p > 53 {
        lemma_pow2_strictly_increases(53, p as nat);
    }
    if p == 53 {
        assert(false);
    }
    let scaled = n * pow2((52 - p) as nat);
    assert(pow2(52) <= scaled < pow2(53)) by {
        lemma_pow2_adds(p as nat, (52 - p) as nat);
        lemma_pow2_pos((52 - p) as nat);
        assert(pow2(p as nat) * pow2((52 - p) as nat) <= n * pow2((52 - p) as nat))
            by (nonlinear_arith)
            requires
                pow2(p as nat) <= n && pow2((52 - p) as nat) >= 1,
        ;
        lemma_pow2_adds((p + 1) as nat, (52 - p) as nat);
        assert(n * pow2((52 - p) as nat) < pow2((p + 1) as nat) * pow2((52 - p) as nat))
            by (nonlinear_arith)
            requires
                n < pow2((p + 1) as nat) && pow2((52 - p) as nat) >= 1,
        ;
        assert(pow2((p + 1) as nat) * pow2((52 - p) as nat) == pow2(53));
        assert(pow2(p as nat) * pow2((52 - p) as nat) == pow2(52));
    }
    let e = p + 1023;
    let f = scaled - 0x10000000000000;
    let b = spec_bits_of_uint(n);
    assert(b == e * 0x10000000000000 + f);
    assert(spec_exp_field(b) == e) by {
        vstd::arithmetic::div_mod::lemma_div_multiples_vanish_fancy(e, f, 0x10000000000000);
        assert(0x10000000000000 * e + f == e * 0x10000000000000 + f) by (nonlinear_arith);
    }
    assert(spec_frac_field(b) == f) by {
        vstd::arithmetic::div_mod::lemma_mod_multiples_vanish(e, f, 0x10000000000000);
        assert(0x10000000000000 * e + f == e * 0x10000000000000 + f) by (nonlinear_arith);
    }
    assert(!spec_sign_bit(b) && b != 0 && b != 0x8000000000000000) by (nonlinear_arith)
        requires
            b == e * 0x10000000000000 + f && 1023 <= e <= 1075 && 0 <= f < 0x10000000000000,
    ;
    if e >= 1075 {
        assert(p == 52);
        assert(pow2((e - 1075) as nat) == 1) by {
            lemma2_to64();
        }
        assert((0x10000000000000 + f) * 1 == scaled);
        assert(pow2((52 - p) as nat) == 1) by {
            lemma2_to64();
        }
        assert(scaled == n) by (nonlinear_arith)
            requires
                scaled == n * (pow2((52 - p) as nat) as int) && pow2((52 - p) as nat) == 1,
        ;
    } else {
        let shift = pow2((1075 - e) as nat) as int;
        assert(1075 - e == 52 - p);
        lemma_pow2_pos((52 - p) as nat);
        assert(0x10000000000000 + f == shift * n) by {
            lemma_pow2_adds(p as nat, (52 - p) as nat);
            assert(scaled == n * pow2((52 - p) as nat));
            assert(n * pow2((52 - p) as nat) == pow2((52 - p) as nat) * n) by (nonlinear_arith);
        }
        assert(f % shift == 0) by {
            assert(f == shift * (n - pow2(p as nat))) by {
                assert(0x10000000000000 == pow2(52));
                lemma_pow2_adds((52 - p) as nat, p as nat);
                assert(shift * n - shift * pow2(p as nat) == shift * (n - pow2(p as nat)))
                    by (nonlinear_arith);
                assert(shift * pow2(p as nat) == pow2(52));
            }
            vstd::arithmetic::div_mod::lemma_mod_multiples_vanish(n - pow2(p as nat), 0, shift);
        }
        assert((0x10000000000000 + f) / shift == n) by {
            vstd::arithmetic::div_mod::lemma_div_multiples_vanish(n, shift);
        }
    }
}

/// The signed form: the conversions invert for every integer of magnitude
/// below `2^53`.
pub proof fn lemma_int_bits_round_trip(n: int)
    requires
        -0x20000000000000 < n < 0x20000000000000,
    ensures
        spec_int_of_bits(spec_bits_of_int(n)) == Some(n),
{
    if n > 0 {
        lemma_uint_bits_round_trip(n);
    } else if n < 0 {
        lemma_uint_bits_round_trip(-n);
        let b = spec_bits_of_uint(-n);
        let bn = spec_bits_of_int(n);
        assert(bn == b + 0x8000000000000000);
        assert(spec_exp_field(bn) == spec_exp_field(b) && spec_frac_field(bn) == spec_frac_field(
            b,
        )) by (nonlinear_arith)
            requires
                bn == b + 0x8000000000000000 && 0 <= b < 0x8000000000000000,
        ;
        assert(spec_sign_bit(bn));
        assert(bn != 0x8000000000000000) by {
            assert(spec_exp_field(b) >= 1023);
        }
    }
}

/// The exact integer encoded by `b`, when there is one.
///
/// This is the check the binary serializer needs: a finite pattern whose
/// value is an integer of magnitude below `2^63` yields that integer.
pub fn bits_to_int(b: u64) -> (r: Option<i64>)
    ensures
        match r {
            Some(n) => spec_int_of_bits(b) == Some(n as int),
            None => spec_int_of_bits(b) is None,
        },
{
    let e = exp_field(b);
    let f = frac_field(b);
    let neg = sign_bit(b);
    if b == 0 || b == 0x8000000000000000 {
        Some(0)
    } else if e < 1023 || e >= 0x7ff {
        None
    } else if e >= 1075 {
        if e - 1075 <= 10 {
            let sh = e - 1075;
            let m = (0x10000000000000 + f) << sh;
            proof {
                assert((0x10000000000000 + f) * pow2(sh as nat) <= u64::MAX) by {
                    lemma_pow2_increases_local(sh as nat, 10);
                    lemma2_to64();
                    assert((0x10000000000000 + f) * pow2(sh as nat) <= (0x10000000000000 + f)
                        * 1024) by (nonlinear_arith)
                        requires
                            pow2(sh as nat) <= 1024 && 0x10000000000000 + f >= 0,
                    ;
                }
                lemma_u64_shl_is_mul((0x10000000000000 + f) as u64, sh);
                assert(m < 0x8000000000000000) by {
                    lemma_pow2_increases_local(sh as nat, 10);
                    lemma2_to64();
                    assert((0x10000000000000 + f) * pow2(sh as nat) < 0x8000000000000000)
                        by (nonlinear_arith)
                        requires
                            pow2(sh as nat) <= 1024 && 0x10000000000000 + f < 0x20000000000000,
                    ;
                }
            }
            if neg {
                Some(-(m as i64))
            } else {
                Some(m as i64)
            }
        } else {
            None
        }
    } else {
        let sh = 1075 - e;
        proof {
            lemma_pow2_increases_local(sh as nat, 52);
            lemma2_to64_rest_local();
            lemma_pow2_pos(sh as nat);
        }
        let shift = pow2_u64(sh);
        if f % shift == 0 {
            let m = (0x10000000000000 + f) / shift;
            if neg {
                Some(-(m as i64))
            } else {
                Some(m as i64)
            }
        } else {
            None
        }
    }
}

/// `2^sh` as a `u64`, for `sh < 64`.
pub fn pow2_u64(sh: u64) -> (r: u64)
    requires
        sh < 64,
    ensures
        r == pow2(sh as nat),
        r >= 1,
{
    proof {
        lemma_pow2_pos(sh as nat);
    }
    proof {
        assert(1 * pow2(sh as nat) <= u64::MAX) by {
            lemma_pow2_increases_local(sh as nat, 63);
            assert(pow2(63) == 0x8000000000000000) by {
                lemma_pow2_adds(52, 11);
                lemma2_to64_rest_local();
                lemma2_to64();
                lemma_pow2_adds(10, 1);
                assert(pow2(11) == 2048);
            }
        }
        lemma_u64_shl_is_mul(1, sh);
    }
    1u64 << sh
}

/// `pow2` is monotone: `a <= b` gives `pow2(a) <= pow2(b)`.
proof fn lemma_pow2_increases_local(a: nat, b: nat)
    requires
        a <= b,
    ensures
        pow2(a) <= pow2(b),
{
    if a < b {
        lemma_pow2_strictly_increases(a, b);
    }
}

/// The mantissa/exponent pair of a finite non-zero pattern: the value of
/// `b` is `(neg ? -1 : 1) * m * 2^ex`, exactly.
///
/// Normal patterns yield the 53-bit significand and its scale; subnormal
/// ones yield the raw fraction at scale `-1074`.
pub fn mantissa_exp(b: u64) -> (r: (u64, i64))
    requires
        !spec_is_nan(b),
        !spec_is_inf(b),
        !spec_is_zero(b),
    ensures
        r == spec_mantissa_exp(b),
{
    let e = exp_field(b);
    let f = frac_field(b);
    if e >= 1 {
        (0x10000000000000 + f, e as i64 - 1075)
    } else {
        (f, -1074)
    }
}

/// The mantissa/exponent pair of a finite non-zero pattern.
pub open spec fn spec_mantissa_exp(b: u64) -> (u64, i64) {
    let e = spec_exp_field(b);
    let f = spec_frac_field(b);
    if e >= 1 {
        ((0x10000000000000 + f) as u64, (e - 1075) as i64)
    } else {
        (f, -1074i64)
    }
}

/// The pattern that encodes the value `q * 2^sh`, for a normalized `q` in
/// `[2^52, 2^53)` and `-1022 - 52 <= sh <= 1023 - 52`.
pub open spec fn spec_norm_bits(q: int, sh: int) -> u64 {
    ((1075 + sh) * 0x10000000000000 + q - 0x10000000000000) as u64
}

/// The pattern of the binary64 value nearest to `n`, for `0 < n < 2^56`,
/// rounding ties to even.
pub open spec fn spec_round_bits_of_uint(n: int) -> u64 {
    if n < 0x20000000000000 {
        spec_bits_of_uint(n)
    } else {
        let sh = spec_msb(n) - 52;
        let q = n / pow2(sh as nat) as int;
        let r = n % pow2(sh as nat) as int;
        let half = pow2((sh - 1) as nat) as int;
        let q2 = if r > half || (r == half && q % 2 == 1) {
            q + 1
        } else {
            q
        };
        if q2 == 0x20000000000000 {
            spec_norm_bits(0x10000000000000, sh + 1)
        } else {
            spec_norm_bits(q2, sh)
        }
    }
}

/// The pattern of the binary64 value nearest to `n` (ties to even), with
/// the sign bit set when `neg` holds and `n` is not zero.
pub fn round_int_to_bits(n: u64, neg: bool) -> (r: u64)
    requires
        n < 0x100000000000000,
    ensures
        n == 0 ==> r == 0,
        n > 0 && !neg ==> r == spec_round_bits_of_uint(n as int),
        n > 0 && neg ==> r == spec_round_bits_of_uint(n as int) + 0x8000000000000000,
{
    if n == 0 {
        return 0;
    }
    let mag = if n < 0x20000000000000 {
        uint_to_bits(n)
    } else {
        // 2^53 <= n < 2^56: shave `sh` bits, rounding to nearest even.
        let mut m: u64 = n;
        let mut p: u64 = 0;
        proof {
            lemma2_to64();
        }
        while m >= 2
            invariant
                1 <= m <= n,
                n < 0x100000000000000,
                p == spec_msb(n as int) - spec_msb(m as int),
                spec_msb(n as int) - spec_msb(m as int) >= 0,
                pow2(p as nat) * (m as int) <= n as int,
            decreases m,
        {
            proof {
                lemma_pow2_pos(p as nat);
                if p > 56 {
                    lemma_pow2_strictly_increases(56, p as nat);
                }
                assert(pow2(56) == 0x100000000000000) by {
                    lemma_pow2_adds(52, 4);
                    lemma2_to64_rest_local();
                    lemma2_to64();
                }
                assert(pow2(p as nat) <= n as int) by (nonlinear_arith)
                    requires
                        pow2(p as nat) * (m as int) <= n as int && m >= 1 && pow2(p as nat) >= 1,
                ;
                assert(p <= 55);
                lemma_pow2_adds(p as nat, 1);
                lemma2_to64();
                assert(pow2((p + 1) as nat) * ((m / 2) as int) <= pow2(p as nat) * (m as int))
                    by (nonlinear_arith)
                    requires
                        pow2((p + 1) as nat) == 2 * pow2(p as nat) && m >= 2 && pow2(p as nat)
                            >= 1,
                ;
            }
            m = m / 2;
            p = p + 1;
        }
        proof {
            assert(p == spec_msb(n as int));
            lemma_msb_bounds(n as int);
            lemma2_to64_rest_local();
            if p < 53 {
                lemma_pow2_increases_local((p + 1) as nat, 53);
                assert(false);
            }
            assert(pow2(56) == 0x100000000000000) by {
                lemma_pow2_adds(52, 4);
                lemma2_to64();
            }
            if p > 55 {
                lemma_pow2_increases_local(56, p as nat);
                assert(false);
            }
        }
        let sh = p - 52;
        let half = pow2_u64(sh - 1);
        let divisor = pow2_u64(sh);
        proof {
            lemma_pow2_adds((sh - 1) as nat, 1);
            lemma2_to64();
            lemma_pow2_pos((sh - 1) as nat);
        }
        let q = n / divisor;
        let r = n % divisor;
        let q2 = if r > half || (r == half && q % 2 == 1) {
            q + 1
        } else {
            q
        };
        proof {
            assert(pow2((p + 1) as nat) == pow2(sh as nat) * 0x20000000000000) by {
                lemma_pow2_adds(sh as nat, 53);
                lemma2_to64_rest_local();
            }
            assert(pow2(p as nat) == pow2(sh as nat) * 0x10000000000000) by {
                lemma_pow2_adds(sh as nat, 52);
                lemma2_to64_rest_local();
            }
            assert(q < 0x20000000000000) by (nonlinear_arith)
                requires
                    q == n as int / (pow2(sh as nat) as int) && n < pow2((p + 1) as nat) && pow2(
                        (p + 1) as nat,
                    ) == pow2(sh as nat) * 0x20000000000000 && pow2(sh as nat) >= 1,
            ;
            assert(0x10000000000000 <= q) by (nonlinear_arith)
                requires
                    q == n as int / (pow2(sh as nat) as int) && n >= pow2(p as nat) && pow2(p as nat)
                        == pow2(sh as nat) * 0x10000000000000 && pow2(sh as nat) >= 1,
            ;
        }
        if q2 == 0x20000000000000 {
            (1075 + sh + 1) * 0x10000000000000
        } else {
            (1075 + sh) * 0x10000000000000 + (q2 - 0x10000000000000)
        }
    };
    if neg {
        mag + 0x8000000000000000
    } else {
        mag
    }
}

/// `pow2(52) == 0x10000000000000` and `pow2(53) == 0x20000000000000`.
proof fn lemma2_to64_rest_local()
    ensures
        pow2(52) == 0x10000000000000,
        pow2(53) == 0x20000000000000,
{
    vstd::arithmetic::power2::lemma2_to64_rest();
}

/// Build the bit pattern of the binary64 value equal to the signed `n`.
pub fn int_to_bits(n: i64) -> (r: u64)
    requires
        -0x20000000000000 < n < 0x20000000000000,
    ensures
        r == spec_bits_of_int(n as int),
{
    if n == 0 {
        0
    } else if n > 0 {
        uint_to_bits(n as u64)
    } else {
        let m = (-n) as u64;
        let b = uint_to_bits(m);
        b + 0x8000000000000000
    }
}

/// The floating-point conversions the codec cannot perform on bit patterns
/// alone, supplied by the embedding program.
///
/// The deserializers handle decimal integer literals exactly by themselves;
/// everything else — general decimal literals, and the mantissa-times-
/// power-of-two form — is referred to an implementation of this trait. An
/// implementation backed by the platform's floating point should answer
/// `parse_bits` with `Some` of the bits of the standard `f64` parse of `s`
/// (or `None` when that parse fails), and `scale2_bits` with the bits of
/// `m * 2.0f64.powf(e)` computed on the values `m` and `e` encode.
///
/// Nothing is assumed of the answers: every codec guarantee that involves
/// them holds for any implementation.
pub trait NumberRuntime {
    /// The bits of the `f64` the decimal literal `s` denotes, if any.
    fn parse_bits(&self, s: &[u8]) -> Option<u64>;

    /// The bits of `m * 2^e`, where `m` and `e` are themselves bit
    /// patterns of finite numbers.
    fn scale2_bits(&self, m: u64, e: u64) -> u64;
}

/// The decimal digits of `n`, most significant first.
pub open spec fn spec_dec_digits(n: int) -> Seq<u8>
    decreases n,
{
    if n < 10 {
        seq![(48 + if n >= 0 {
            n
        } else {
            0
        }) as u8]
    } else {
        spec_dec_digits(n / 10).push((48 + n % 10) as u8)
    }
}

/// Whether every byte of `s` is an ASCII digit.
pub open spec fn spec_all_digits(s: Seq<u8>) -> bool {
    forall|i: int| 0 <= i < s.len() ==> 48 <= #[trigger] s[i] <= 57
}

/// The number the digit string `s` denotes.
pub open spec fn spec_digits_val(s: Seq<u8>) -> int
    decreases s.len(),
{
    if s.len() == 0 {
        0
    } else {
        10 * spec_digits_val(s.drop_last()) + (s.last() - 48)
    }
}

/// The decimal digits of `n` denote `n`: formatting inverts parsing.
pub proof fn lemma_digits_val_of_dec(n: int)
    requires
        0 <= n,
    ensures
        spec_all_digits(spec_dec_digits(n)),
        spec_digits_val(spec_dec_digits(n)) == n,
        spec_dec_digits(n).len() >= 1,
    decreases n,
{
    if n < 10 {
        let s = spec_dec_digits(n);
        assert(s.len() == 1);
        assert(s.drop_last() =~= Seq::<u8>::empty());
        assert(spec_digits_val(s.drop_last()) == 0);
        assert(spec_digits_val(s) == 10 * spec_digits_val(s.drop_last()) + (s.last() - 48));
        assert(s.last() == (48 + n) as u8);
    } else {
        lemma_digits_val_of_dec(n / 10);
        let prev = spec_dec_digits(n / 10);
        let s = spec_dec_digits(n);
        assert(s == prev.push((48 + n % 10) as u8));
        assert(s.drop_last() =~= prev);
        assert(s.last() == (48 + n % 10) as u8);
        assert(spec_digits_val(s) == 10 * (n / 10) + n % 10);
    }
}

/// A digit string denotes a non-negative number.
pub proof fn lemma_digits_val_nonneg(s: Seq<u8>)
    requires
        spec_all_digits(s),
    ensures
        spec_digits_val(s) >= 0,
    decreases s.len(),
{
    if s.len() > 0 {
        assert(spec_all_digits(s.drop_last()));
        lemma_digits_val_nonneg(s.drop_last());
    }
}

/// Dropping trailing digits never increases the denoted number.
pub proof fn lemma_digits_val_prefix(s: Seq<u8>, i: int)
    requires
        spec_all_digits(s),
        0 <= i <= s.len(),
    ensures
        spec_digits_val(s.take(i)) <= spec_digits_val(s),
    decreases s.len() - i,
{
    if i < s.len() {
        lemma_digits_val_prefix(s, i + 1);
        let t = s.take(i + 1);
        assert(t.drop_last() =~= s.take(i));
        assert(spec_all_digits(t.drop_last()));
        lemma_digits_val_nonneg(t.drop_last());
        assert(spec_digits_val(t) == 10 * spec_digits_val(s.take(i)) + (t.last() - 48));
        assert(t.last() == s[i]);
    } else {
        assert(s.take(i) =~= s);
    }
}

/// Append the decimal digits of `n` to `out`.
pub fn format_uint(n: u64, out: &mut Vec<u8>)
    ensures
        final(out)@ == old(out)@ + spec_dec_digits(n as int),
    decreases n,
{
    if n < 10 {
        out.push(48 + n as u8);
    } else {
        format_uint(n / 10, out);
        out.push(48 + (n % 10) as u8);
    }
}

/// Parse an unsigned decimal integer.
///
/// `None` exactly when `s` is empty, holds a byte that is not an ASCII
/// digit, or denotes a number that does not fit in 64 bits.
pub fn parse_uint(s: &[u8]) -> (r: Option<u64>)
    ensures
        match r {
            Some(v) => s@.len() > 0 && spec_all_digits(s@) && v == spec_digits_val(s@),
            None => s@.len() == 0 || !spec_all_digits(s@) || spec_digits_val(s@) > u64::MAX,
        },
{
    let n = s.len();
    if n == 0 {
        return None;
    }
    let mut acc: u64 = 0;
    let mut i: usize = 0;
    while i < n
        invariant
            0 <= i <= n,
            n == s@.len(),
            spec_all_digits(s@.take(i as int)),
            acc == spec_digits_val(s@.take(i as int)),
        decreases n - i,
    {
        let b = s[i];
        if b < 48 || b > 57 {
            return None;
        }
        let d = b - 48;
        let next = match acc.checked_mul(10) {
            Some(t) => t.checked_add(d as u64),
            None => None,
        };
        proof {
            let t = s@.take(i + 1);
            assert(t.drop_last() =~= s@.take(i as int));
            assert(t.last() == s@[i as int]);
        }
        match next {
            Some(v) => {
                acc = v;
            },
            None => {
                proof {
                    if spec_all_digits(s@) {
                        lemma_digits_val_prefix(s@, i + 1);
                    }
                }
                return None;
            },
        }
        i = i + 1;
    }
    proof {
        assert(s@.take(n as int) =~= s@);
    }
    Some(acc)
}

} // verus!
