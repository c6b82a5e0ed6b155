//! Error types of the textual format.

use vstd::prelude::*;

verus! {

/// Errors that can occur while deserializing.
#[derive(Clone, Copy, Debug, PartialEq, Eq, Structural)]
pub enum DeserializationError {
    /// The input does not start with `^1`.
    InvalidPrefix,
    /// Invalid identifier. Valid values are `^^`, `^Z`, `^B`, `^b`, `^S`,
    /// `^N`, `^F`, `^f`, `^T`, `^t`.
    InvalidIdentifier,
    /// Invalid escape character. Valid ranges are `0x40..=0x5D`,
    /// `0x5F..=0x60` and `0x7A..=0x7D`.
    InvalidEscapeCharacter,
    /// Failed to parse a floating-point number.
    InvalidFloatNumber,
    /// A floating-point number stored as a mantissa-exponent pair is
    /// missing its exponent.
    MissingExponent,
    /// According to the input, a map has a key that is either a null or a
    /// NaN. That is not valid in Lua.
    InvalidMapKeyType,
    /// A map has a key without a corresponding value.
    MapMissingValue,
    /// The input ended before an identifier marking the end of a map.
    UnclosedMap,
    /// The input ended unexpectedly.
    UnexpectedEof,
    /// Exceeded recursion limit while deserializing nested data.
    RecursionLimitExceeded,
}

/// Errors that can occur while serializing.
#[derive(Clone, Copy, Debug, PartialEq, Eq, Structural)]
pub enum SerializationError {
    /// This format does not support serializing NaNs.
    NanEncountered,
    /// Exceeded recursion limit while serializing nested data.
    RecursionLimitExceeded,
}

} // verus!
