//! Decoding routines.

use vstd::prelude::*;

use crate::base64::error::DecodeError;
use crate::base64::{
    dec_byte, decode_of, first_invalid_at, idx_of, spec_decoded_len, spec_valid_sym, sym_word,
};

verus! {

/// Whether `byte` is a symbol of the alphabet.
pub fn is_valid_byte(byte: u8) -> (r: bool)
    ensures
        r == spec_valid_sym(byte),
{
    (byte >= 97 && byte <= 122) || (byte >= 65 && byte <= 90) || (byte >= 48 && byte <= 57)
        || byte == 40 || byte == 41
}

/// The position of the first byte of `bytes` that is not an alphabet symbol.
pub fn find_invalid_byte(bytes: &[u8]) -> (r: Option<usize>)
    ensures
        match r {
            Some(k) => first_invalid_at(bytes@, k as int),
            None => forall|j: int| 0 <= j < bytes@.len() ==> spec_valid_sym(bytes@[j]),
        },
{
    let n = bytes.len();
    let mut k: usize = 0;
    while k < n
        invariant
            0 <= k <= n,
            n == bytes@.len(),
            forall|j: int| 0 <= j < k ==> spec_valid_sym(bytes@[j]),
        decreases n - k,
    {
        if !is_valid_byte(bytes[k]) {
            return Some(k);
        }
        k = k + 1;
    }
    None
}

/// The 6-bit index encoded by the symbol `b`.
fn idx_for(b: u8) -> (r: u8)
    requires
        spec_valid_sym(b),
    ensures
        r == idx_of(b),
{
    if b >= 97 {
        b - 97
    } else if b >= 65 {
        26 + (b - 65)
    } else if b >= 48 {
        52 + (b - 48)
    } else if b == 40 {
        62
    } else {
        63
    }
}

/// Calculate the amount of bytes required to store base64-encoded `input`
/// after decoding it.
///
/// `None` indicates an invalid length of the `input`.
pub fn calculate_decoded_len(input: &[u8]) -> (r: Option<usize>)
    ensures
        match r {
            Some(n) => input@.len() % 4 != 1 && n == spec_decoded_len(input@.len() as int),
            None => input@.len() % 4 == 1,
        },
{
    let len = input.len();

    let leftover = len % 4;
    if leftover == 1 {
        return None;
    }
    let mut result = len / 4 * 3;

    if leftover > 0 {
        result += leftover - 1;
    }

    Some(result)
}

/// Decode base64-encoded `input`, appending the decoded bytes to `out`.
///
/// On success the amount of bytes appended is returned. Otherwise the offset
/// of the first invalid input byte is returned; the whole symbol groups
/// before the one holding that byte have then already been appended.
#[verifier::rlimit(50)]
pub fn decode_append(input: &[u8], out: &mut Vec<u8>) -> (r: Result<usize, usize>)
    requires
        input@.len() % 4 != 1,
        old(out)@.len() + spec_decoded_len(input@.len() as int) <= usize::MAX,
    ensures
        match r {
            Ok(written) => {
                &&& forall|j: int| 0 <= j < input@.len() ==> spec_valid_sym(input@[j])
                &&& final(out)@ == old(out)@ + decode_of(input@)
                &&& written == spec_decoded_len(input@.len() as int)
            },
            Err(k) => {
                &&& first_invalid_at(input@, k as int)
                &&& final(out)@ == old(out)@ + decode_of(input@).take(3 * (k as int / 4))
            },
        },
{
    let ghost s = input@;
    let ghost base = out@.len() as int;
    let n = input.len();
    let groups = n / 4;

    let mut g: usize = 0;
    while g < groups
        invariant
            0 <= g <= groups,
            groups == n / 4,
            n == input@.len(),
            s == input@,
            0 <= base,
            base == old(out)@.len(),
            base + spec_decoded_len(n as int) <= usize::MAX,
            out@.len() == base + 3 * g,
            forall|j: int| 0 <= j < 4 * g ==> spec_valid_sym(s[j]),
            forall|k: int| 0 <= k < 3 * g ==> out@[base + k] == dec_byte(s, k),
            forall|j: int| 0 <= j < base ==> out@[j] == old(out)@[j],
        decreases groups - g,
    {
        let i = 4 * g;
        proof {
            assert(4 * g + 3 < n && 3 * g + 3 <= spec_decoded_len(n as int)) by (nonlinear_arith)
                requires
                    g < groups && groups == n / 4 && n == s.len(),
            ;
        }
        proof {
            let gi = g as int;
            assert((4 * gi) / 4 == gi && (4 * gi + 1) / 4 == gi && (4 * gi + 2) / 4 == gi && (4 * gi
                + 3) / 4 == gi) by (nonlinear_arith);
            assert(out@ =~= old(out)@ + decode_of(s).take(3 * gi));
        }
        let c0 = input[i];
        let c1 = input[i + 1];
        let c2 = input[i + 2];
        let c3 = input[i + 3];
        if !is_valid_byte(c0) {
            return Err(i);
        }
        if !is_valid_byte(c1) {
            return Err(i + 1);
        }
        if !is_valid_byte(c2) {
            return Err(i + 2);
        }
        if !is_valid_byte(c3) {
            return Err(i + 3);
        }
        let w: u32 = idx_for(c0) as u32 + 64 * (idx_for(c1) as u32) + 4096 * (idx_for(c2) as u32)
            + 262144 * (idx_for(c3) as u32);

        let ghost out0 = out@;
        let b0 = (w % 256) as u8;
        let b1 = (w / 256 % 256) as u8;
        let b2 = (w / 65536) as u8;
        out.push(b0);
        out.push(b1);
        out.push(b2);

        proof {
            let gi = g as int;
            assert(out@ =~= out0 + seq![b0, b1, b2]);
            assert((3 * gi) / 3 == gi && (3 * gi) % 3 == 0 && (3 * gi + 1) / 3 == gi && (3 * gi + 1)
                % 3 == 1 && (3 * gi + 2) / 3 == gi && (3 * gi + 2) % 3 == 2) by (nonlinear_arith);
            assert(w == sym_word(s, 4 * gi));
            assert(w / 65536 < 256);
            assert(out@[base + 3 * gi] == dec_byte(s, 3 * gi));
            assert(out@[base + 3 * gi + 1] == dec_byte(s, 3 * gi + 1));
            assert(out@[base + 3 * gi + 2] == dec_byte(s, 3 * gi + 2));
            assert forall|k: int| 0 <= k < 3 * (gi + 1) implies out@[base + k] == dec_byte(
                s,
                k,
            ) by {
                if k < 3 * gi {
                    assert(out@[base + k] == out0[base + k]);
                }
            }
        }
        g = g + 1;
    }

    let i = 4 * groups;
    let rem = n - i;
    proof {
        assert(rem == (n as int) % 4 && spec_decoded_len(n as int) == 3 * groups + if rem == 0 {
            0int
        } else {
            rem - 1
        }) by (nonlinear_arith)
            requires
                groups == n / 4 && i == 4 * groups && rem == n - i && n == s.len(),
        ;
    }
    if rem >= 2 {
        let c0 = input[i];
        let c1 = input[i + 1];
        if !is_valid_byte(c0) {
            proof {
                assert((4 * (groups as int)) / 4 == groups as int) by (nonlinear_arith);
                assert(out@ =~= old(out)@ + decode_of(s).take(3 * (groups as int)));
            }
            return Err(i);
        }
        if !is_valid_byte(c1) {
            proof {
                assert((4 * (groups as int) + 1) / 4 == groups as int) by (nonlinear_arith);
                assert(out@ =~= old(out)@ + decode_of(s).take(3 * (groups as int)));
            }
            return Err(i + 1);
        }
        let mut w: u32 = idx_for(c0) as u32 + 64 * (idx_for(c1) as u32);
        if rem == 3 {
            let c2 = input[i + 2];
            if !is_valid_byte(c2) {
                proof {
                    assert((4 * (groups as int) + 2) / 4 == groups as int) by (nonlinear_arith);
                    assert(out@ =~= old(out)@ + decode_of(s).take(3 * (groups as int)));
                }
                return Err(i + 2);
            }
            w = w + 4096 * (idx_for(c2) as u32);
        }
        let ghost out0 = out@;
        let b0 = (w % 256) as u8;
        out.push(b0);
        if rem == 3 {
            out.push((w / 256 % 256) as u8);
        }
        proof {
            let gi = groups as int;
            assert((3 * gi) / 3 == gi && (3 * gi) % 3 == 0 && (3 * gi + 1) / 3 == gi && (3 * gi + 1)
                % 3 == 1) by (nonlinear_arith);
            assert(w == sym_word(s, 4 * gi));
            assert(out@[base + 3 * gi] == dec_byte(s, 3 * gi));
            if rem == 3 {
                assert(out@[base + 3 * gi + 1] == dec_byte(s, 3 * gi + 1));
            }
        }
    }
    let written = if rem > 0 {
        3 * groups + (rem - 1)
    } else {
        3 * groups
    };
    proof {
        assert(out@ =~= old(out)@ + decode_of(s));
    }
    Ok(written)
}

/// Decode base64-encoded `input` into a new `Vec<u8>`.
pub fn decode_to_vec(input: &[u8]) -> (r: Result<Vec<u8>, DecodeError>)
    ensures
        match r {
            Ok(v) => {
                &&& input@.len() % 4 != 1
                &&& forall|j: int| 0 <= j < input@.len() ==> spec_valid_sym(input@[j])
                &&& v@ == decode_of(input@)
            },
            Err(DecodeError::InvalidLength) => input@.len() % 4 == 1,
            Err(DecodeError::InvalidByte(k)) => input@.len() % 4 != 1 && first_invalid_at(
                input@,
                k as int,
            ),
        },
{
    match calculate_decoded_len(input) {
        None => Err(DecodeError::InvalidLength),
        Some(_) => {
            let mut out: Vec<u8> = Vec::new();
            match decode_append(input, &mut out) {
                Ok(_) => Ok(out),
                Err(k) => Err(DecodeError::InvalidByte(k)),
            }
        },
    }
}

} // verus!
