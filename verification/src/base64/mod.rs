//! Base64 with the WeakAuras alphabet and little-endian bit packing.
//!
//! The alphabet assigns indices 0..=63 to `a..z`, `A..Z`, `0..9`, `(`, `)`.
//! Three input bytes `a b c` form the 24-bit word `a | b<<8 | c<<16`, which
//! is emitted as four 6-bit indices from least to most significant; this is
//! the mirror of standard base64. There is no padding character.

pub mod decode;
pub mod encode;
pub mod error;
pub mod swar;

use vstd::prelude::*;

verus! {

/// The symbol that encodes the 6-bit index `i`.
pub open spec fn sym_of(i: int) -> u8 {
    if i < 26 {
        (97 + i) as u8  // 'a'..='z'
    } else if i < 52 {
        (65 + (i - 26)) as u8  // 'A'..='Z'
    } else if i < 62 {
        (48 + (i - 52)) as u8  // '0'..='9'
    } else if i == 62 {
        40u8  // '('
    } else {
        41u8  // ')'
    }
}

/// Whether `b` is a symbol of the alphabet.
pub open spec fn spec_valid_sym(b: u8) -> bool {
    (97 <= b <= 122) || (65 <= b <= 90) || (48 <= b <= 57) || b == 40 || b == 41
}

/// The 6-bit index encoded by the symbol `b`.
pub open spec fn idx_of(b: u8) -> int {
    if 97 <= b <= 122 {
        b - 97
    } else if 65 <= b <= 90 {
        26 + (b - 65)
    } else if 48 <= b <= 57 {
        52 + (b - 48)
    } else if b == 40 {
        62
    } else {
        63
    }
}

/// The byte of `s` at `k`, or zero past the end; input groups are
/// zero-extended so that whole groups and tail groups pack alike.
pub open spec fn byte_or_zero(s: Seq<u8>, k: int) -> int {
    if 0 <= k < s.len() {
        s[k] as int
    } else {
        0
    }
}

/// The 24-bit word packed from the input group that starts at byte `k`.
pub open spec fn group_word(s: Seq<u8>, k: int) -> int {
    byte_or_zero(s, k) + 256 * byte_or_zero(s, k + 1) + 65536 * byte_or_zero(s, k + 2)
}

/// Number of symbols that encode `n` input bytes: four per whole group of
/// three, plus two or three for a tail of one or two bytes.
pub open spec fn spec_encoded_len(n: int) -> int {
    4 * (n / 3) + if n % 3 == 0 {
        0int
    } else {
        n % 3 + 1
    }
}

/// Symbol `j` of the encoding of `s`: the `j % 4`-th 6-bit slice of the
/// word of input group `j / 4`, taken from least-significant bits up.
pub open spec fn enc_sym(s: Seq<u8>, j: int) -> u8 {
    let w = group_word(s, 3 * (j / 4));
    sym_of(w / pow64(j % 4) % 64)
}

/// `64^r` for `r` in `0..=3`.
pub open spec fn pow64(r: int) -> int {
    if r <= 0 {
        1
    } else if r == 1 {
        64
    } else if r == 2 {
        4096
    } else {
        262144
    }
}

/// The encoding of a byte sequence.
pub open spec fn encode_of(s: Seq<u8>) -> Seq<u8> {
    Seq::new(spec_encoded_len(s.len() as int) as nat, |j: int| enc_sym(s, j))
}

/// Number of bytes encoded by `m` symbols, when `m % 4 != 1`.
pub open spec fn spec_decoded_len(m: int) -> int {
    3 * (m / 4) + if m % 4 == 0 {
        0int
    } else {
        m % 4 - 1
    }
}

/// The 24-bit word packed from the (up to four) symbols starting at `j`.
pub open spec fn sym_word(s: Seq<u8>, j: int) -> int {
    sym_idx_or_zero(s, j) + 64 * sym_idx_or_zero(s, j + 1) + 4096 * sym_idx_or_zero(s, j + 2)
        + 262144 * sym_idx_or_zero(s, j + 3)
}

/// The index of the symbol of `s` at `j`, or zero past the end.
pub open spec fn sym_idx_or_zero(s: Seq<u8>, j: int) -> int {
    if 0 <= j < s.len() {
        idx_of(s[j])
    } else {
        0
    }
}

/// Byte `k` of the decoding of `s`: the `k % 3`-th byte of the word of
/// symbol group `k / 3`.
pub open spec fn dec_byte(s: Seq<u8>, k: int) -> u8 {
    let w = sym_word(s, 4 * (k / 3));
    (w / pow256(k % 3) % 256) as u8
}

/// `256^r` for `r` in `0..=2`.
pub open spec fn pow256(r: int) -> int {
    if r <= 0 {
        1
    } else if r == 1 {
        256
    } else {
        65536
    }
}

/// The decoding of a symbol sequence whose length is not 1 modulo 4 and
/// whose bytes are all alphabet symbols.
pub open spec fn decode_of(s: Seq<u8>) -> Seq<u8> {
    Seq::new(spec_decoded_len(s.len() as int) as nat, |k: int| dec_byte(s, k))
}

/// Whether `k` is the position of the first byte of `s` that is not an
/// alphabet symbol.
pub open spec fn first_invalid_at(s: Seq<u8>, k: int) -> bool {
    &&& 0 <= k < s.len()
    &&& !spec_valid_sym(s[k])
    &&& forall|j: int| 0 <= j < k ==> spec_valid_sym(s[j])
}

/// Every symbol is a valid alphabet byte, and encoding it is undone by
/// taking its index.
proof fn lemma_sym_props(i: int)
    requires
        0 <= i < 64,
    ensures
        spec_valid_sym(sym_of(i)),
        idx_of(sym_of(i)) == i,
{
}

/// An encoding never has length 1 modulo 4, and decoding restores the
/// original byte count.
pub proof fn lemma_encode_well_formed(s: Seq<u8>)
    ensures
        encode_of(s).len() == spec_encoded_len(s.len() as int),
        spec_encoded_len(s.len() as int) % 4 != 1,
        spec_decoded_len(spec_encoded_len(s.len() as int)) == s.len(),
        forall|j: int| 0 <= j < encode_of(s).len() ==> spec_valid_sym(#[trigger] encode_of(s)[j]),
{
    let n = s.len() as int;
    let q = n / 3;
    let t = n % 3;
    assert(n == 3 * q + t && 0 <= t < 3) by (nonlinear_arith)
        requires
            n >= 0 && q == n / 3 && t == n % 3,
    ;
    let m = spec_encoded_len(n);
    assert(m == 4 * q + if t == 0 {
        0int
    } else {
        t + 1
    });
    assert(m % 4 == if t == 0 {
        0int
    } else {
        t + 1
    } && m / 4 == q) by (nonlinear_arith)
        requires
            m == 4 * q + if t == 0 {
                0int
            } else {
                t + 1
            } && 0 <= t < 3 && 0 <= q,
    ;
    assert forall|j: int| 0 <= j < encode_of(s).len() implies spec_valid_sym(
        #[trigger] encode_of(s)[j],
    ) by {
        let w = group_word(s, 3 * (j / 4));
        let pw = pow64(j % 4);
        assert(w >= 0 && pw >= 1);
        assert(0 <= w / pw % 64 < 64) by (nonlinear_arith)
            requires
                w >= 0 && pw >= 1,
        ;
        lemma_sym_props(w / pw % 64);
    }
}

/// Byte `k` of the decoding of the encoding of `s` is byte `k` of `s`.
proof fn lemma_dec_byte_of_encode(s: Seq<u8>, k: int)
    requires
        0 <= k < s.len(),
    ensures
        dec_byte(encode_of(s), k) == s[k],
{
    let e = encode_of(s);
    let n = s.len() as int;
    lemma_encode_well_formed(s);
    let g = k / 3;
    let p = k % 3;
    assert(k == 3 * g + p && 0 <= p < 3 && 0 <= g) by (nonlinear_arith)
        requires
            k >= 0 && g == k / 3 && p == k % 3,
    ;
    let w = group_word(s, 3 * g);
    // Each symbol of group `g` carries one 6-bit digit of `w`.
    assert((4 * g) / 4 == g && (4 * g) % 4 == 0 && (4 * g + 1) / 4 == g && (4 * g + 1) % 4 == 1 && (
    4 * g + 2) / 4 == g && (4 * g + 2) % 4 == 2 && (4 * g + 3) / 4 == g && (4 * g + 3) % 4 == 3)
        by (nonlinear_arith);
    let d0 = w % 64;
    let d1 = w / 64 % 64;
    let d2 = w / 4096 % 64;
    let d3 = w / 262144 % 64;
    assert(w >= 0);
    assert(0 <= d0 < 64 && 0 <= d1 < 64 && 0 <= d2 < 64 && 0 <= d3 < 64) by (nonlinear_arith)
        requires
            w >= 0 && d0 == w % 64 && d1 == w / 64 % 64 && d2 == w / 4096 % 64 && d3 == w / 262144
                % 64,
    ;
    lemma_sym_props(d0);
    lemma_sym_props(d1);
    lemma_sym_props(d2);
    lemma_sym_props(d3);
    assert(4 * g < e.len() ==> sym_idx_or_zero(e, 4 * g) == d0);
    assert(4 * g + 1 < e.len() ==> sym_idx_or_zero(e, 4 * g + 1) == d1);
    assert(4 * g + 2 < e.len() ==> sym_idx_or_zero(e, 4 * g + 2) == d2);
    assert(4 * g + 3 < e.len() ==> sym_idx_or_zero(e, 4 * g + 3) == d3);
    let q = n / 3;
    let t = n % 3;
    assert(n == 3 * q + t && 0 <= t < 3) by (nonlinear_arith)
        requires
            n >= 0 && q == n / 3 && t == n % 3,
    ;
    // How many symbols group `g` has, and how large `w` can be.
    if g < q {
        assert(3 * g + 2 < n && 4 * g + 3 < e.len()) by (nonlinear_arith)
            requires
                g < q && n == 3 * q + t && 0 <= t && e.len() == 4 * q + if t == 0 {
                    0int
                } else {
                    t + 1
                },
        ;
        assert(0 <= w < 16777216);
        assert(sym_word(e, 4 * g) == d0 + 64 * d1 + 4096 * d2 + 262144 * d3);
        assert(d0 + 64 * d1 + 4096 * d2 + 262144 * d3 == w) by (nonlinear_arith)
            requires
                0 <= w < 16777216 && d0 == w % 64 && d1 == w / 64 % 64 && d2 == w / 4096 % 64 && d3
                    == w / 262144 % 64,
        ;
    } else {
        // The tail group: `p < t`, and the missing bytes read as zero.
        assert(g == q && p < t) by (nonlinear_arith)
            requires
                k == 3 * g + p && 0 <= p < 3 && k < n && n == 3 * q + t && 0 <= t < 3 && g >= q && q
                    == n / 3,
        ;
        if t == 1 {
            assert(e.len() == 4 * q + 2);
            assert(byte_or_zero(s, 3 * g + 1) == 0 && byte_or_zero(s, 3 * g + 2) == 0);
            assert(0 <= w < 256);
            assert(sym_word(e, 4 * g) == d0 + 64 * d1);
            assert(d0 + 64 * d1 == w) by (nonlinear_arith)
                requires
                    0 <= w < 256 && d0 == w % 64 && d1 == w / 64 % 64,
            ;
        } else {
            assert(e.len() == 4 * q + 3);
            assert(byte_or_zero(s, 3 * g + 2) == 0);
            assert(0 <= w < 65536);
            assert(sym_word(e, 4 * g) == d0 + 64 * d1 + 4096 * d2);
            assert(d0 + 64 * d1 + 4096 * d2 == w) by (nonlinear_arith)
                requires
                    0 <= w < 65536 && d0 == w % 64 && d1 == w / 64 % 64 && d2 == w / 4096 % 64,
            ;
        }
    }
    // Extract byte `p` of `w`.
    let b0 = byte_or_zero(s, 3 * g);
    let b1 = byte_or_zero(s, 3 * g + 1);
    let b2 = byte_or_zero(s, 3 * g + 2);
    assert(w / pow256(p) % 256 == if p == 0 {
        b0
    } else if p == 1 {
        b1
    } else {
        b2
    }) by (nonlinear_arith)
        requires
            w == b0 + 256 * b1 + 65536 * b2 && 0 <= b0 < 256 && 0 <= b1 < 256 && 0 <= b2 < 256 && 0
                <= p < 3 && pow256(p) == if p == 0 {
                1int
            } else if p == 1 {
                256int
            } else {
                65536int
            },
    ;
    assert(s[k] == if p == 0 {
        b0
    } else if p == 1 {
        b1
    } else {
        b2
    });
}

/// Base64 round trip: decoding an encoding gives back the original bytes.
pub proof fn lemma_base64_round_trip(s: Seq<u8>)
    ensures
        decode_of(encode_of(s)) == s,
{
    let e = encode_of(s);
    let n = s.len() as int;
    lemma_encode_well_formed(s);
    assert(decode_of(e).len() == n);
    assert forall|k: int| 0 <= k < n implies decode_of(e)[k] == s[k] by {
        lemma_dec_byte_of_encode(s, k);
    }
    assert(decode_of(encode_of(s)) =~= s);
}

} // verus!
