//! Encoding routines.

use vstd::prelude::*;

use vstd::string::StringSliceAdditionalSpecFns;

use crate::base64::error::EncodeError;
use crate::base64::{byte_or_zero, enc_sym, encode_of, group_word, pow64, spec_encoded_len, sym_of};

verus! {

/// The symbol that encodes the 6-bit index `i`.
pub(crate) fn sym_for(i: u8) -> (r: u8)
    requires
        i < 64,
    ensures
        r == sym_of(i as int),
{
    if i < 26 {
        97 + i
    } else if i < 52 {
        65 + (i - 26)
    } else if i < 62 {
        48 + (i - 52)
    } else if i == 62 {
        40
    } else {
        41
    }
}

/// Calculate the amount of bytes required to store `input`
/// after encoding it as base64.
///
/// `None` indicates an overflow.
pub fn calculate_encoded_len(input: &[u8]) -> (r: Option<usize>)
    ensures
        match r {
            Some(n) => n == spec_encoded_len(input@.len() as int),
            None => spec_encoded_len(input@.len() as int) > usize::MAX,
        },
{
    let len = input.len();
    let leftover = len % 3;

    match (len / 3).checked_mul(4) {
        None => None,
        Some(glen) => {
            if leftover > 0 {
                glen.checked_add(leftover + 1)
            } else {
                Some(glen)
            }
        },
    }
}

/// Append the encoding of `input` to `out`.
#[verifier::rlimit(50)]
pub fn encode_append(input: &[u8], out: &mut Vec<u8>)
    requires
        old(out)@.len() + spec_encoded_len(input@.len() as int) <= usize::MAX,
    ensures
        final(out)@ == old(out)@ + encode_of(input@),
{
    let ghost s = input@;
    let ghost base = out@.len() as int;
    let n = input.len();
    let groups = n / 3;

    let mut g: usize = 0;
    while g < groups
        invariant
            0 <= g <= groups,
            groups == n / 3,
            n == input@.len(),
            s == input@,
            0 <= base,
            base + spec_encoded_len(n as int) <= usize::MAX,
            out@.len() == base + 4 * g,
            forall|j: int| 0 <= j < 4 * g ==> out@[base + j] == enc_sym(s, j),
            forall|j: int| 0 <= j < base ==> out@[j] == old(out)@[j],
        decreases groups - g,
    {
        let i = 3 * g;
        proof {
            assert(3 * g + 2 < n && 4 * g + 4 <= spec_encoded_len(n as int)) by (nonlinear_arith)
                requires
                    g < groups && groups == n / 3 && n == s.len(),
            ;
        }
        let w: u32 = input[i] as u32 + 256 * (input[i + 1] as u32) + 65536 * (input[i + 2] as u32);

        let ghost out0 = out@;
        let s0 = sym_for((w % 64) as u8);
        let s1 = sym_for((w / 64 % 64) as u8);
        let s2 = sym_for((w / 4096 % 64) as u8);
        let s3 = sym_for((w / 262144 % 64) as u8);
        out.push(s0);
        out.push(s1);
        out.push(s2);
        out.push(s3);

        proof {
            let gi = g as int;
            assert(out@ =~= out0 + seq![s0, s1, s2, s3]);
            assert((4 * gi) / 4 == gi && (4 * gi) % 4 == 0 && (4 * gi + 1) / 4 == gi && (4 * gi + 1)
                % 4 == 1 && (4 * gi + 2) / 4 == gi && (4 * gi + 2) % 4 == 2 && (4 * gi + 3) / 4
                == gi && (4 * gi + 3) % 4 == 3) by (nonlinear_arith);
            assert(w == group_word(s, 3 * gi));
            assert(w / 262144 < 64);
            assert(out@[base + 4 * gi] == enc_sym(s, 4 * gi));
            assert(out@[base + 4 * gi + 1] == enc_sym(s, 4 * gi + 1));
            assert(out@[base + 4 * gi + 2] == enc_sym(s, 4 * gi + 2));
            assert(out@[base + 4 * gi + 3] == enc_sym(s, 4 * gi + 3));
            assert forall|j: int| 0 <= j < 4 * (gi + 1) implies out@[base + j] == enc_sym(
                s,
                j,
            ) by {
                if j < 4 * gi {
                    assert(out@[base + j] == out0[base + j]);
                    assert(out0[base + j] == enc_sym(s, j));
                }
            }
        }
        g = g + 1;
    }

    let i = 3 * groups;
    let rem = n - i;
    assert(rem == (n as int) % 3 && 3 * (n as int / 3) == i) by (nonlinear_arith)
        requires
            groups == n / 3 && i == 3 * groups && rem == n - i,
    ;
    if rem == 1 {
        let b0 = input[i];
        out.push(sym_for(b0 % 64));
        out.push(sym_for(b0 / 64));
        assert(group_word(input@, i as int) == b0);
        assert forall|j: int| 4 * groups <= j < 4 * groups + 2 implies out@[base + j] == enc_sym(
            input@,
            j,
        ) by {
            assert(j / 4 == groups) by (nonlinear_arith)
                requires
                    4 * groups <= j < 4 * groups + 2,
            ;
        }
    } else if rem == 2 {
        let b0 = input[i];
        let b1 = input[i + 1];
        let w: u32 = b0 as u32 + 256 * (b1 as u32);
        assert(w == group_word(input@, i as int));
        out.push(sym_for((w % 64) as u8));
        out.push(sym_for((w / 64 % 64) as u8));
        out.push(sym_for((w / 4096) as u8));
        assert forall|j: int| 4 * groups <= j < 4 * groups + 3 implies out@[base + j] == enc_sym(
            input@,
            j,
        ) by {
            assert(j / 4 == groups) by (nonlinear_arith)
                requires
                    4 * groups <= j < 4 * groups + 3,
            ;
            assert(w / 4096 < 64);
            assert(pow64(j % 4) == if j % 4 == 0 { 1int } else if j % 4 == 1 { 64int } else { 4096int });
        }
    }

    assert(out@ =~= old(out)@ + encode_of(input@));
}

/// Relies on `String::from_utf8`: a vector of bytes below `0x80` is valid
/// UTF-8 and becomes the string with exactly those bytes as characters.
#[verifier::external_body]
fn ascii_string(v: Vec<u8>) -> (r: String)
    requires
        forall|i: int| 0 <= i < v@.len() ==> v@[i] < 0x80,
    ensures
        r@.len() == v@.len(),
        forall|i: int| 0 <= i < v@.len() ==> r@[i] == v@[i] as char,
{
    match String::from_utf8(v) {
        Ok(s) => s,
        Err(_) => String::new(),
    }
}

/// Alphabet symbols are printable ASCII.
proof fn lemma_syms_ascii(s: Seq<u8>)
    ensures
        forall|j: int|
            0 <= j < encode_of(s).len() ==> #[trigger] encode_of(s)[j] < 0x80 && encode_of(s)[j]
                < 0xff,
{
    crate::base64::lemma_encode_well_formed(s);
    assert forall|j: int| 0 <= j < encode_of(s).len() implies #[trigger] encode_of(s)[j] < 0x80
        && encode_of(s)[j] < 0xff by {
        assert(crate::base64::spec_valid_sym(encode_of(s)[j]));
    }
}

/// Encode `input` as base64 into a new `String`.
pub fn encode_to_string(input: &[u8]) -> (r: Result<String, EncodeError>)
    ensures
        match r {
            Ok(s) => s@.len() == encode_of(input@).len() && forall|i: int|
                0 <= i < s@.len() ==> s@[i] == #[trigger] encode_of(input@)[i] as char,
            Err(e) => e == EncodeError::DataIsTooLarge && spec_encoded_len(input@.len() as int)
                > usize::MAX,
        },
{
    match encode_to_vec(input) {
        Err(e) => Err(e),
        Ok(v) => {
            proof {
                lemma_syms_ascii(input@);
            }
            Ok(ascii_string(v))
        },
    }
}

/// Relies on `String`'s concatenation operator: the result holds the
/// characters of `a` followed by those of `b`.
#[verifier::external_body]
fn concat_str(a: String, b: String) -> (r: String)
    ensures
        r@ == a@ + b@,
{
    a + &b
}

/// Encode `input` as base64 into a new `String`, after the supplied
/// prefix.
///
/// The error comes exactly when the encoded length plus the prefix's
/// byte length does not fit in a machine word.
pub fn encode_to_string_with_prefix(input: &[u8], prefix: &str) -> (r: Result<String, EncodeError>)
    ensures
        match r {
            Ok(s) => s@ == prefix@ + encode_of(input@).map_values(|b: u8| b as char),
            Err(e) => e == EncodeError::DataIsTooLarge,
        },
        r is Err <==> spec_encoded_len(input@.len() as int) + prefix.spec_bytes().len()
            > usize::MAX,
{
    let plen = prefix.as_bytes().len();
    match calculate_encoded_len(input) {
        Some(el) => {
            if el > usize::MAX - plen {
                return Err(EncodeError::DataIsTooLarge);
            }
        },
        None => {
            return Err(EncodeError::DataIsTooLarge);
        },
    }
    let head = prefix.to_owned();
    let tail = match encode_to_string(input) {
        Ok(t) => t,
        Err(_) => {
            return Err(EncodeError::DataIsTooLarge);
        },
    };
    let s = concat_str(head, tail);
    proof {
        assert(s@ =~= prefix@ + encode_of(input@).map_values(|b: u8| b as char));
    }
    Ok(s)
}

/// Encode `input` as base64 into a new byte vector.
pub fn encode_to_vec(input: &[u8]) -> (r: Result<Vec<u8>, EncodeError>)
    ensures
        match r {
            Ok(v) => v@ == encode_of(input@),
            Err(e) => e == EncodeError::DataIsTooLarge && spec_encoded_len(input@.len() as int)
                > usize::MAX,
        },
{
    match calculate_encoded_len(input) {
        None => Err(EncodeError::DataIsTooLarge),
        Some(_) => {
            let mut out: Vec<u8> = Vec::new();
            encode_append(input, &mut out);
            Ok(out)
        },
    }
}

} // verus!
