//! DEFLATE compression and decompression, through the flate2 crate.

use std::io::Read;

use vstd::prelude::*;

verus! {

/// What DEFLATE decompression of `s` yields when the whole stream
/// inflates cleanly, and `None` when it is not a valid stream. A function
/// of `s` alone, fixed by the DEFLATE format.
pub uninterp spec fn inflate_of(s: Seq<u8>) -> Option<Seq<u8>>;

/// How capped inflation can fail.
#[derive(Clone, Copy, Debug, PartialEq, Eq, Structural)]
pub enum InflateError {
    /// The stream would inflate to more than the permitted size.
    DataTooLarge,
    /// The stream is not valid DEFLATE data.
    Io,
}

/// Relies on flate2's `DeflateDecoder`, read through `std::io::Read::take`:
/// inflation succeeds with at most `max` bytes exactly when the whole
/// stream inflates cleanly to at most `max` bytes; a read error inside the
/// first `max` bytes means the stream is invalid.
#[verifier::external_body]
pub fn inflate_capped(data: &[u8], max: usize) -> (r: Result<Vec<u8>, InflateError>)
    ensures
        match r {
            Ok(v) => inflate_of(data@) == Some(v@) && v@.len() <= max,
            Err(InflateError::DataTooLarge) => !(inflate_of(data@) matches Some(s) && s.len()
                <= max),
            Err(InflateError::Io) => inflate_of(data@) is None,
        },
{
    let mut result = Vec::new();
    let mut inflater = flate2::read::DeflateDecoder::new(data).take(max as u64);
    if inflater.read_to_end(&mut result).is_err() {
        return Err(InflateError::Io);
    }
    if result.len() == max {
        let mut probe = [0u8; 1];
        match inflater.into_inner().read(&mut probe) {
            Ok(0) => (),
            _ => return Err(InflateError::DataTooLarge),
        }
    }
    Ok(result)
}

/// Relies on flate2's `DeflateEncoder` at the highest compression level:
/// what it emits inflates back to exactly the input. Compressing from an
/// in-memory slice cannot fail — the bundled backend's compressor never
/// errors and slice reads are infallible — so the result is always `Ok`.
#[verifier::external_body]
pub fn deflate_compress(data: &[u8]) -> (r: Result<Vec<u8>, ()>)
    ensures
        r is Ok,
        r matches Ok(v) ==> inflate_of(v@) == Some(data@),
{
    let mut result = Vec::new();
    let mut deflater = flate2::read::DeflateEncoder::new(data, flate2::Compression::best());
    match deflater.read_to_end(&mut result) {
        Ok(_) => Ok(result),
        Err(_) => Err(()),
    }
}

} // verus!
