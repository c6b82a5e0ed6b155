//! Block-at-a-time base64 kernels: SIMD within a register.
//!
//! The wide kernel packs six input bytes into one 64-bit word and slices
//! eight symbols out of it, falling back to the byte-at-a-time code for
//! the tail. It emits exactly what the plain kernel emits.

use vstd::prelude::*;

use crate::base64::decode::is_valid_byte;
use crate::base64::encode::encode_append as encode_append_scalar;
use crate::base64::{
    byte_or_zero, dec_byte, decode_of, enc_sym, encode_of, first_invalid_at, group_word, idx_of,
    spec_decoded_len, spec_encoded_len, spec_valid_sym, sym_idx_or_zero, sym_of, sym_word,
};

verus! {

/// Symbols at and past `4 * g` of the encoding of `s` are the encoding of
/// `s` without its first `3 * g` bytes.
proof fn lemma_enc_sym_shift(s: Seq<u8>, g: int, j: int)
    requires
        0 <= g,
        0 <= j,
        3 * g <= s.len(),
    ensures
        enc_sym(s, 4 * g + j) == enc_sym(s.skip(3 * g), j),
    decreases g,
{
    if g > 0 {
        lemma_enc_sym_shift(s.skip(3), g - 1, j);
        assert(s.skip(3).skip(3 * (g - 1)) =~= s.skip(3 * g));
        lemma_enc_sym_shift_one(s, 4 * (g - 1) + j);
        assert(4 * g + j == 4 + (4 * (g - 1) + j));
    }
}

/// One group of shift: symbol `4 + j` of `s` is symbol `j` of `s.skip(3)`.
proof fn lemma_enc_sym_shift_one(s: Seq<u8>, j: int)
    requires
        0 <= j,
        3 <= s.len(),
    ensures
        enc_sym(s, 4 + j) == enc_sym(s.skip(3), j),
{
    assert((4 + j) / 4 == 1 + j / 4 && (4 + j) % 4 == j % 4) by (nonlinear_arith)
        requires
            j >= 0,
    ;
    assert(group_word(s, 3 * (1 + j / 4)) == group_word(s.skip(3), 3 * (j / 4))) by {
        let k = 3 * (j / 4);
        assert(k >= 0) by (nonlinear_arith)
            requires
                j >= 0 && k == 3 * (j / 4),
        ;
        assert(3 * (1 + j / 4) == 3 + k);
        assert(s.skip(3).len() == s.len() - 3);
        if k < s.len() - 3 {
            assert(s.skip(3)[k] == s[3 + k]);
        }
        if k + 1 < s.len() - 3 {
            assert(s.skip(3)[k + 1] == s[3 + k + 1]);
        }
        if k + 2 < s.len() - 3 {
            assert(s.skip(3)[k + 2] == s[3 + k + 2]);
        }
        assert(byte_or_zero(s, 3 + k) == byte_or_zero(s.skip(3), k));
        assert(byte_or_zero(s, 3 + k + 1) == byte_or_zero(s.skip(3), k + 1));
        assert(byte_or_zero(s, 3 + k + 2) == byte_or_zero(s.skip(3), k + 2));
    }
}

/// The low four 6-bit digits of a 48-bit word are those of its low 24
/// bits.
proof fn lemma_low_digits(w0: int, w1: int, p: int)
    requires
        0 <= w0 < 16777216,
        0 <= w1,
        p == 1 || p == 64 || p == 4096 || p == 262144,
    ensures
        (w0 + 16777216 * w1) / p % 64 == w0 / p % 64,
{
    if p == 1 {
        lemma_low_digit_step(w0, w1, 1, 16777216);
    } else if p == 64 {
        lemma_low_digit_step(w0, w1, 64, 262144);
    } else if p == 4096 {
        lemma_low_digit_step(w0, w1, 4096, 4096);
    } else {
        lemma_low_digit_step(w0, w1, 262144, 64);
    }
}

/// One case of [`lemma_low_digits`], with the cofactor `m` given.
proof fn lemma_low_digit_step(w0: int, w1: int, p: int, m: int)
    requires
        0 <= w0,
        0 <= w1,
        1 <= p,
        1 <= m,
        p * m == 16777216,
        m % 64 == 0,
    ensures
        (w0 + 16777216 * w1) / p % 64 == w0 / p % 64,
{
    vstd::arithmetic::div_mod::lemma_fundamental_div_mod(w0, p);
    let q = w0 / p;
    let rem = w0 % p;
    assert(w0 + 16777216 * w1 == p * (q + m * w1) + rem) by (nonlinear_arith)
        requires
            w0 == p * q + rem && p * m == 16777216,
    ;
    assert(q + m * w1 >= 0) by (nonlinear_arith)
        requires
            q >= 0 && m >= 1 && w1 >= 0,
    ;
    vstd::arithmetic::div_mod::lemma_div_multiples_vanish_fancy(q + m * w1, rem, p);
    assert((w0 + 16777216 * w1) / p == q + m * w1);
    vstd::arithmetic::div_mod::lemma_fundamental_div_mod(m, 64);
    assert(m == 64 * (m / 64));
    vstd::arithmetic::div_mod::lemma_mod_multiples_vanish(m / 64 * w1, q, 64);
    assert(64 * (m / 64 * w1) == m * w1) by (nonlinear_arith)
        requires
            m == 64 * (m / 64),
    ;
}

/// The high four 6-bit digits of a 48-bit word are those of its high 24
/// bits.
proof fn lemma_high_digits(w0: int, w1: int, p: int)
    requires
        0 <= w0 < 16777216,
        0 <= w1,
        p == 1 || p == 64 || p == 4096 || p == 262144,
    ensures
        (w0 + 16777216 * w1) / (16777216 * p) % 64 == w1 / p % 64,
{
    vstd::arithmetic::div_mod::lemma_div_multiples_vanish_fancy(w1, w0, 16777216);
    assert(16777216 * w1 + w0 == w0 + 16777216 * w1);
    assert((w0 + 16777216 * w1) / 16777216 == w1);
    vstd::arithmetic::div_mod::lemma_div_denominator(w0 + 16777216 * w1, 16777216, p);
}

/// Append the encoding of `input` to `out`, six input bytes at a time.
#[verifier::rlimit(100)]
pub fn encode_append(input: &[u8], out: &mut Vec<u8>)
    requires
        old(out)@.len() + spec_encoded_len(input@.len() as int) <= usize::MAX,
    ensures
        final(out)@ == old(out)@ + encode_of(input@),
{
    let ghost s = input@;
    let ghost base = out@.len() as int;
    let n = input.len();

    let mut i: usize = 0;
    while n - i >= 6
        invariant
            0 <= i <= n,
            i % 3 == 0,
            n == input@.len(),
            s == input@,
            0 <= base,
            base + spec_encoded_len(n as int) <= usize::MAX,
            out@.len() == base + 4 * (i / 3),
            forall|j: int| 0 <= j < 4 * (i as int / 3) ==> out@[base + j] == enc_sym(s, j),
            forall|j: int| 0 <= j < base ==> out@[j] == old(out)@[j],
        decreases n - i,
    {
        let ghost g = i as int / 3;
        proof {
            assert(3 * g == i && 4 * g + 8 <= spec_encoded_len(n as int)) by (nonlinear_arith)
                requires
                    i % 3 == 0 && g == i as int / 3 && i + 6 <= n && n == s.len(),
            ;
        }
        let w: u64 = input[i] as u64 + 256 * (input[i + 1] as u64) + 65536 * (input[i + 2] as u64)
            + 16777216 * (input[i + 3] as u64) + 4294967296 * (input[i + 4] as u64) + 1099511627776
            * (input[i + 5] as u64);
        let ghost w0 = group_word(s, i as int);
        let ghost w1 = group_word(s, i as int + 3);
        proof {
            assert(w == w0 + 16777216 * w1);
            lemma_low_digits(w0, w1, 1);
            lemma_low_digits(w0, w1, 64);
            lemma_low_digits(w0, w1, 4096);
            lemma_low_digits(w0, w1, 262144);
            lemma_high_digits(w0, w1, 1);
            lemma_high_digits(w0, w1, 64);
            lemma_high_digits(w0, w1, 4096);
            lemma_high_digits(w0, w1, 262144);
        }
        let ghost out0 = out@;
        let s0 = sym_u64(w % 64);
        let s1 = sym_u64(w / 64 % 64);
        let s2 = sym_u64(w / 4096 % 64);
        let s3 = sym_u64(w / 262144 % 64);
        let s4 = sym_u64(w / 16777216 % 64);
        let s5 = sym_u64(w / 1073741824 % 64);
        let s6 = sym_u64(w / 68719476736 % 64);
        let s7 = sym_u64(w / 4398046511104 % 64);
        out.push(s0);
        out.push(s1);
        out.push(s2);
        out.push(s3);
        out.push(s4);
        out.push(s5);
        out.push(s6);
        out.push(s7);
        proof {
            assert(out@ =~= out0 + seq![s0, s1, s2, s3, s4, s5, s6, s7]);
            assert((4 * g) / 4 == g && (4 * g) % 4 == 0 && (4 * g + 1) / 4 == g && (4 * g + 1) % 4
                == 1 && (4 * g + 2) / 4 == g && (4 * g + 2) % 4 == 2 && (4 * g + 3) / 4 == g && (4
                * g + 3) % 4 == 3 && (4 * g + 4) / 4 == g + 1 && (4 * g + 4) % 4 == 0 && (4 * g + 5)
                / 4 == g + 1 && (4 * g + 5) % 4 == 1 && (4 * g + 6) / 4 == g + 1 && (4 * g + 6) % 4
                == 2 && (4 * g + 7) / 4 == g + 1 && (4 * g + 7) % 4 == 3) by (nonlinear_arith);
            assert(1073741824 == 16777216 * 64 && 68719476736 == 16777216 * 4096
                && 4398046511104 == 16777216 * 262144);
            assert(3 * (g + 1) == i + 3);
            assert(out@[base + 4 * g] == enc_sym(s, 4 * g));
            assert(out@[base + 4 * g + 1] == enc_sym(s, 4 * g + 1));
            assert(out@[base + 4 * g + 2] == enc_sym(s, 4 * g + 2));
            assert(out@[base + 4 * g + 3] == enc_sym(s, 4 * g + 3));
            assert(out@[base + 4 * g + 4] == enc_sym(s, 4 * g + 4));
            assert(out@[base + 4 * g + 5] == enc_sym(s, 4 * g + 5));
            assert(out@[base + 4 * g + 6] == enc_sym(s, 4 * g + 6));
            assert(out@[base + 4 * g + 7] == enc_sym(s, 4 * g + 7));
            assert forall|j: int| 0 <= j < 4 * (g + 2) implies out@[base + j] == enc_sym(
                s,
                j,
            ) by {
                if j < 4 * g {
                    assert(out@[base + j] == out0[base + j]);
                    assert(out0[base + j] == enc_sym(s, j));
                }
            }
            assert((i + 6) % 3 == 0 && (i + 6) as int / 3 == g + 2) by (nonlinear_arith)
                requires
                    i % 3 == 0 && g == i as int / 3,
            ;
        }
        i = i + 6;
    }
    // The scalar kernel finishes the tail.
    let tail = &input[i..n];
    proof {
        assert(tail@ =~= s.skip(i as int));
        let g = i as int / 3;
        assert(3 * g == i) by (nonlinear_arith)
            requires
                i % 3 == 0 && g == i as int / 3,
        ;
        lemma_encode_tail(s, g, base, out@, old(out)@);
    }
    encode_append_scalar(tail, out);
    proof {
        let g = i as int / 3;
        assert forall|j: int| 0 <= j < encode_of(s).len() implies (old(out)@ + encode_of(s))[base
            + j] == #[trigger] out@[base + j] by {
            if j < 4 * g {
            } else {
                lemma_enc_sym_shift(s, g, j - 4 * g);
            }
        }
        assert(out@ =~= old(out)@ + encode_of(s));
    }
}

/// The lengths agree: what the wide loop has emitted plus the tail's
/// encoding fills the encoding of `s` exactly.
proof fn lemma_encode_tail(s: Seq<u8>, g: int, base: int, cur: Seq<u8>, orig: Seq<u8>)
    requires
        0 <= g,
        3 * g <= s.len(),
        cur.len() == base + 4 * g,
    ensures
        spec_encoded_len(s.len() as int) == 4 * g + spec_encoded_len(s.len() - 3 * g),
{
    let n = s.len() as int;
    let m = n - 3 * g;
    assert(n / 3 == g + m / 3 && n % 3 == m % 3) by (nonlinear_arith)
        requires
            n == 3 * g + m && m >= 0 && g >= 0,
    ;
    assert(spec_encoded_len(n) == 4 * (g + m / 3) + if m % 3 == 0 {
        0int
    } else {
        m % 3 + 1
    });
}

/// The symbol for a 6-bit slice held in a wide word.
fn sym_u64(v: u64) -> (r: u8)
    requires
        v < 64,
    ensures
        r == sym_of(v as int),
{
    crate::base64::encode::sym_for(v as u8)
}

/// Bytes at and past `6 * g` of the decoding of `s` are the decoding of
/// `s` without its first `8 * g` symbols.
proof fn lemma_dec_byte_shift(s: Seq<u8>, g: int, k: int)
    requires
        0 <= g,
        0 <= k,
        8 * g <= s.len(),
    ensures
        dec_byte(s, 6 * g + k) == dec_byte(s.skip(8 * g), k),
    decreases g,
{
    if g > 0 {
        lemma_dec_byte_shift(s.skip(8), g - 1, k);
        assert(s.skip(8).skip(8 * (g - 1)) =~= s.skip(8 * g));
        lemma_dec_byte_shift_one(s, 6 * (g - 1) + k);
        assert(6 * g + k == 6 + (6 * (g - 1) + k));
    }
}

/// One block of shift: byte `6 + k` of the decoding of `s` is byte `k` of
/// the decoding of `s.skip(8)`.
proof fn lemma_dec_byte_shift_one(s: Seq<u8>, k: int)
    requires
        0 <= k,
        8 <= s.len(),
    ensures
        dec_byte(s, 6 + k) == dec_byte(s.skip(8), k),
{
    assert((6 + k) / 3 == 2 + k / 3 && (6 + k) % 3 == k % 3) by (nonlinear_arith)
        requires
            k >= 0,
    ;
    assert(sym_word(s, 4 * (2 + k / 3)) == sym_word(s.skip(8), 4 * (k / 3))) by {
        let j = 4 * (k / 3);
        assert(j >= 0) by (nonlinear_arith)
            requires
                k >= 0 && j == 4 * (k / 3),
        ;
        assert(4 * (2 + k / 3) == 8 + j);
        assert(s.skip(8).len() == s.len() - 8);
        if j < s.len() - 8 {
            assert(s.skip(8)[j] == s[8 + j]);
        }
        if j + 1 < s.len() - 8 {
            assert(s.skip(8)[j + 1] == s[8 + j + 1]);
        }
        if j + 2 < s.len() - 8 {
            assert(s.skip(8)[j + 2] == s[8 + j + 2]);
        }
        if j + 3 < s.len() - 8 {
            assert(s.skip(8)[j + 3] == s[8 + j + 3]);
        }
        assert(sym_idx_or_zero(s, 8 + j) == sym_idx_or_zero(s.skip(8), j));
        assert(sym_idx_or_zero(s, 8 + j + 1) == sym_idx_or_zero(s.skip(8), j + 1));
        assert(sym_idx_or_zero(s, 8 + j + 2) == sym_idx_or_zero(s.skip(8), j + 2));
        assert(sym_idx_or_zero(s, 8 + j + 3) == sym_idx_or_zero(s.skip(8), j + 3));
    }
}

/// The decoded lengths agree on the split: six bytes per full block plus
/// the tail's decoding.
proof fn lemma_decode_tail(s: Seq<u8>, g: int)
    requires
        0 <= g,
        8 * g <= s.len(),
    ensures
        spec_decoded_len(s.len() as int) == 6 * g + spec_decoded_len(s.len() - 8 * g),
{
    let n = s.len() as int;
    let m = n - 8 * g;
    assert(n / 4 == 2 * g + m / 4 && n % 4 == m % 4) by (nonlinear_arith)
        requires
            n == 8 * g + m && m >= 0 && g >= 0,
    ;
}

/// One low byte case: dividing a 48-bit word made of two 24-bit group
/// words by a power of 256 below `2^24` and reducing modulo 256 reads a
/// byte of the low group word.
proof fn lemma_low_byte_step(w0: int, w1: int, p: int, m: int)
    requires
        0 <= w0,
        0 <= w1,
        1 <= p,
        1 <= m,
        p * m == 16777216,
        m % 256 == 0,
    ensures
        (w0 + 16777216 * w1) / p % 256 == w0 / p % 256,
{
    vstd::arithmetic::div_mod::lemma_fundamental_div_mod(w0, p);
    let q = w0 / p;
    let rem = w0 % p;
    assert(w0 + 16777216 * w1 == p * (q + m * w1) + rem) by (nonlinear_arith)
        requires
            w0 == p * q + rem && p * m == 16777216,
    ;
    assert(q + m * w1 >= 0) by (nonlinear_arith)
        requires
            q >= 0 && m >= 1 && w1 >= 0,
    ;
    vstd::arithmetic::div_mod::lemma_div_multiples_vanish_fancy(q + m * w1, rem, p);
    vstd::arithmetic::div_mod::lemma_fundamental_div_mod(m, 256);
    assert(m == 256 * (m / 256));
    vstd::arithmetic::div_mod::lemma_mod_multiples_vanish(m / 256 * w1, q, 256);
    assert(256 * (m / 256 * w1) == m * w1) by (nonlinear_arith)
        requires
            m == 256 * (m / 256),
    ;
}

/// The high byte cases of the split word.
proof fn lemma_high_byte(w0: int, w1: int, p: int)
    requires
        0 <= w0 < 16777216,
        0 <= w1,
        p == 1 || p == 256 || p == 65536,
    ensures
        (w0 + 16777216 * w1) / (16777216 * p) % 256 == w1 / p % 256,
{
    vstd::arithmetic::div_mod::lemma_div_multiples_vanish_fancy(w1, w0, 16777216);
    assert((w0 + 16777216 * w1) / 16777216 == w1);
    vstd::arithmetic::div_mod::lemma_div_denominator(w0 + 16777216 * w1, 16777216, p);
}

/// Decode base64-encoded `input`, eight symbols at a time, appending the
/// decoded bytes to `out`.
///
/// A block holding an invalid byte is rescanned one byte at a time, so the
/// offset returned is exactly that of the first invalid input byte,
/// whichever block it falls in. On an error, what has been appended is a
/// whole-group prefix of the decoding.
#[verifier::rlimit(100)]
pub fn decode_append(input: &[u8], out: &mut Vec<u8>) -> (r: Result<usize, usize>)
    requires
        input@.len() % 4 != 1,
        old(out)@.len() + spec_decoded_len(input@.len() as int) <= usize::MAX,
    ensures
        match r {
            Ok(written) => {
                &&& forall|j: int| 0 <= j < input@.len() ==> spec_valid_sym(input@[j])
                &&& final(out)@ == old(out)@ + decode_of(input@)
                &&& written == spec_decoded_len(input@.len() as int)
            },
            Err(k) => {
                &&& first_invalid_at(input@, k as int)
                &&& exists|t: int|
                    0 <= 3 * t <= decode_of(input@).len() && final(out)@ == old(out)@ + #[trigger] decode_of(
                        input@,
                    ).take(3 * t)
            },
        },
{
    let ghost s = input@;
    let ghost base = out@.len() as int;
    let n = input.len();

    let mut i: usize = 0;
    while n - i >= 8
        invariant
            0 <= i <= n,
            i % 8 == 0 || i % 4 == 0,
            i % 4 == 0,
            i % 8 == 0,
            n == input@.len(),
            n % 4 != 1,
            s == input@,
            0 <= base,
            base == old(out)@.len(),
            base + spec_decoded_len(n as int) <= usize::MAX,
            out@.len() == base + 6 * (i / 8),
            forall|j: int| 0 <= j < i ==> spec_valid_sym(s[j]),
            forall|k: int| 0 <= k < 6 * (i as int / 8) ==> out@[base + k] == dec_byte(s, k),
            forall|j: int| 0 <= j < base ==> out@[j] == old(out)@[j],
        decreases n - i,
    {
        let ghost g = i as int / 8;
        proof {
            assert(8 * g == i && 6 * g + 6 <= spec_decoded_len(n as int) && (i as int) / 4 == 2
                * g) by (nonlinear_arith)
                requires
                    i % 8 == 0 && g == i as int / 8 && i + 8 <= n && n == s.len() && n % 4 != 1,
            ;
        }
        let c0 = input[i];
        let c1 = input[i + 1];
        let c2 = input[i + 2];
        let c3 = input[i + 3];
        let c4 = input[i + 4];
        let c5 = input[i + 5];
        let c6 = input[i + 6];
        let c7 = input[i + 7];
        let ok = is_valid_byte(c0) && is_valid_byte(c1) && is_valid_byte(c2) && is_valid_byte(c3)
            && is_valid_byte(c4) && is_valid_byte(c5) && is_valid_byte(c6) && is_valid_byte(c7);
        if !ok {
            // Rescan the block one byte at a time for the exact offset.
            let mut r: usize = 0;
            while r < 8
                invariant
                    0 <= r <= 8,
                    i + 8 <= n,
                    n == input@.len(),
                    s == input@,
                    forall|j: int| 0 <= j < i ==> spec_valid_sym(s[j]),
                    forall|j: int| i <= j < i + r ==> spec_valid_sym(s[j]),
                    !(spec_valid_sym(s[i as int]) && spec_valid_sym(s[i as int + 1])
                        && spec_valid_sym(s[i as int + 2]) && spec_valid_sym(s[i as int + 3])
                        && spec_valid_sym(s[i as int + 4]) && spec_valid_sym(s[i as int + 5])
                        && spec_valid_sym(s[i as int + 6]) && spec_valid_sym(s[i as int + 7])),
                    out@.len() == base + 6 * (i as int / 8),
                    forall|k: int| 0 <= k < 6 * (i as int / 8) ==> out@[base + k] == dec_byte(s, k),
                    forall|j: int| 0 <= j < base ==> out@[j] == old(out)@[j],
                    base == old(out)@.len(),
                    base + spec_decoded_len(n as int) <= usize::MAX,
                    8 * (i as int / 8) == i,
                decreases 8 - r,
            {
                if !is_valid_byte(input[i + r]) {
                    proof {
                        let g2 = i as int / 8;
                        assert(out@ =~= old(out)@ + decode_of(s).take(3 * (2 * g2))) by {
                            assert(decode_of(s).take(3 * (2 * g2)).len() == 6 * g2);
                        }
                    }
                    return Err(i + r);
                }
                r = r + 1;
            }
            proof {
                assert(false);
            }
        }
        let w: u64 = idx_u64(c0) + 64 * idx_u64(c1) + 4096 * idx_u64(c2) + 262144 * idx_u64(c3)
            + 16777216 * idx_u64(c4) + 1073741824 * idx_u64(c5) + 68719476736 * idx_u64(c6)
            + 4398046511104 * idx_u64(c7);
        let ghost w0 = sym_word(s, i as int);
        let ghost w1 = sym_word(s, i as int + 4);
        proof {
            assert(1073741824 == 16777216 * 64 && 68719476736 == 16777216 * 4096
                && 4398046511104 == 16777216 * 262144);
            assert(w == w0 + 16777216 * w1);
            assert(0 <= w0 < 16777216 && 0 <= w1 < 16777216);
            lemma_low_byte_step(w0, w1, 1, 16777216);
            lemma_low_byte_step(w0, w1, 256, 65536);
            lemma_low_byte_step(w0, w1, 65536, 256);
            lemma_high_byte(w0, w1, 1);
            lemma_high_byte(w0, w1, 256);
            lemma_high_byte(w0, w1, 65536);
        }
        let ghost out0 = out@;
        let b0 = (w % 256) as u8;
        let b1 = (w / 256 % 256) as u8;
        let b2 = (w / 65536 % 256) as u8;
        let b3 = (w / 16777216 % 256) as u8;
        let b4 = (w / 4294967296 % 256) as u8;
        let b5 = (w / 1099511627776 % 256) as u8;
        out.push(b0);
        out.push(b1);
        out.push(b2);
        out.push(b3);
        out.push(b4);
        out.push(b5);
        proof {
            assert(out@ =~= out0 + seq![b0, b1, b2, b3, b4, b5]);
            assert(4294967296 == 16777216 * 256 && 1099511627776 == 16777216 * 65536);
            assert((6 * g) / 3 == 2 * g && (6 * g) % 3 == 0 && (6 * g + 1) / 3 == 2 * g && (6 * g
                + 1) % 3 == 1 && (6 * g + 2) / 3 == 2 * g && (6 * g + 2) % 3 == 2 && (6 * g + 3) / 3
                == 2 * g + 1 && (6 * g + 3) % 3 == 0 && (6 * g + 4) / 3 == 2 * g + 1 && (6 * g + 4)
                % 3 == 1 && (6 * g + 5) / 3 == 2 * g + 1 && (6 * g + 5) % 3 == 2)
                by (nonlinear_arith);
            assert(4 * (2 * g) == i && 4 * (2 * g + 1) == i + 4) by (nonlinear_arith)
                requires
                    8 * g == i,
            ;
            assert(out@[base + 6 * g] == dec_byte(s, 6 * g));
            assert(out@[base + 6 * g + 1] == dec_byte(s, 6 * g + 1));
            assert(out@[base + 6 * g + 2] == dec_byte(s, 6 * g + 2));
            assert(out@[base + 6 * g + 3] == dec_byte(s, 6 * g + 3));
            assert(out@[base + 6 * g + 4] == dec_byte(s, 6 * g + 4));
            assert(out@[base + 6 * g + 5] == dec_byte(s, 6 * g + 5));
            assert forall|k: int| 0 <= k < 6 * (g + 1) implies out@[base + k] == dec_byte(
                s,
                k,
            ) by {
                if k < 6 * g {
                    assert(out@[base + k] == out0[base + k]);
                    assert(out0[base + k] == dec_byte(s, k));
                }
            }
            assert((i + 8) % 8 == 0 && (i + 8) % 4 == 0 && (i + 8) as int / 8 == g + 1)
                by (nonlinear_arith)
                requires
                    i % 8 == 0 && g == i as int / 8,
            ;
        }
        i = i + 8;
    }
    // The plain kernel finishes the tail.
    let ghost g_done = i as int / 8;
    let tail = &input[i..n];
    proof {
        assert(tail@ =~= s.skip(i as int));
        assert(8 * g_done == i) by (nonlinear_arith)
            requires
                i % 8 == 0 && g_done == i as int / 8,
        ;
        lemma_decode_tail(s, g_done);
        assert(tail@.len() % 4 != 1) by (nonlinear_arith)
            requires
                n % 4 != 1 && i % 4 == 0 && tail@.len() == n - i && i <= n,
        ;
    }
    let ghost out_mid = out@;
    match crate::base64::decode::decode_append(tail, out) {
        Ok(written_rel) => {
            proof {
                assert forall|j: int| 0 <= j < s.len() implies spec_valid_sym(s[j]) by {
                    if j >= i {
                        assert(tail@[j - i] == s[j]);
                    }
                }
                assert forall|k: int| 0 <= k < decode_of(s).len() implies (old(out)@ + decode_of(
                    s,
                ))[base + k] == #[trigger] out@[base + k] by {
                    if k >= 6 * g_done {
                        lemma_dec_byte_shift(s, g_done, k - 6 * g_done);
                    }
                }
                assert(out@ =~= old(out)@ + decode_of(s));
            }
            proof {
                assert(6 * g_done + written_rel == spec_decoded_len(n as int));
            }
            Ok(6 * (i / 8) + written_rel)
        },
        Err(k_rel) => {
            proof {
                let kk = i + k_rel;
                assert forall|j: int| 0 <= j < kk implies spec_valid_sym(s[j]) by {
                    if j >= i {
                        assert(tail@[j - i] == s[j]);
                    }
                }
                assert(tail@[k_rel as int] == s[kk as int]);
                let t = 2 * g_done + (k_rel as int) / 4;
                assert(decode_of(tail@).take(3 * ((k_rel as int) / 4)).len() == 3 * ((
                k_rel as int) / 4)) by {
                    assert(3 * ((k_rel as int) / 4) <= spec_decoded_len(tail@.len() as int))
                        by (nonlinear_arith)
                        requires
                            0 <= k_rel < tail@.len() && tail@.len() % 4 != 1,
                    ;
                }
                assert(3 * t <= decode_of(s).len()) by (nonlinear_arith)
                    requires
                        t == 2 * g_done + (k_rel as int) / 4 && 0 <= k_rel < tail@.len() && decode_of(
                            s,
                        ).len() == 6 * g_done + spec_decoded_len(tail@.len() as int) && 3 * ((
                        k_rel as int) / 4) <= spec_decoded_len(tail@.len() as int) && g_done >= 0,
                ;
                assert forall|k: int| 0 <= k < 3 * t implies (old(out)@ + decode_of(s).take(3 * t))[
                    base + k] == #[trigger] out@[base + k] by {
                    if k >= 6 * g_done {
                        lemma_dec_byte_shift(s, g_done, k - 6 * g_done);
                        assert(out@[base + k] == decode_of(tail@).take(3 * ((k_rel as int) / 4))[k
                            - 6 * g_done]);
                    }
                }
                assert(out@ =~= old(out)@ + decode_of(s).take(3 * t));
            }
            Err(i + k_rel)
        },
    }
}

/// The 6-bit index of a valid symbol, widened for the packing arithmetic.
fn idx_u64(b: u8) -> (r: u64)
    requires
        spec_valid_sym(b),
    ensures
        r == idx_of(b),
        r < 64,
{
    if b >= 97 {
        (b - 97) as u64
    } else if b >= 65 {
        (26 + (b - 65)) as u64
    } else if b >= 48 {
        (52 + (b - 48)) as u64
    } else if b == 40 {
        62
    } else {
        63
    }
}

} // verus!
