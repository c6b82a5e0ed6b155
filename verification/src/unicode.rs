//! Lossy UTF-8 normalization of decoded byte strings.

use vstd::prelude::*;

verus! {

/// The bytes of the lossy UTF-8 reading of `s`: invalid sequences are
/// replaced with the replacement character. A function of `s` alone.
pub uninterp spec fn utf8_lossy_of(s: Seq<u8>) -> Seq<u8>;

/// Relies on `String::from_utf8_lossy`: invalid UTF-8 sequences are
/// replaced with U+FFFD, and input that is already valid UTF-8 — in
/// particular, pure ASCII — comes back unchanged.
#[verifier::external_body]
pub fn utf8_lossy(s: Vec<u8>) -> (r: Vec<u8>)
    ensures
        r@ == utf8_lossy_of(s@),
        (forall|i: int| 0 <= i < s@.len() ==> s@[i] < 0x80) ==> r@ == s@,
{
    String::from_utf8_lossy(&s).into_owned().into_bytes()
}

} // verus!
