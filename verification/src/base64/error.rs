//! Error types of the base64 layer.

use vstd::prelude::*;

verus! {

/// Errors that can occur while decoding.
#[derive(Clone, Copy, Debug, PartialEq, Eq, Structural)]
pub enum DecodeError {
    /// An invalid byte was found in the input. Its offset is provided.
    InvalidByte(usize),
    /// The input's length is invalid: one more than a multiple of four.
    InvalidLength,
}

/// Errors that can occur while encoding.
#[derive(Clone, Copy, Debug, PartialEq, Eq, Structural)]
pub enum EncodeError {
    /// Encoding the input would require more than [usize::MAX] bytes of output.
    DataIsTooLarge,
}

} // verus!
