//! Error types of the binary format.

use vstd::prelude::*;

verus! {

/// Errors that can occur while deserializing.
#[derive(Clone, Copy, Debug, PartialEq, Eq, Structural)]
pub enum DeserializationError {
    /// The input does not start with a valid prefix.
    InvalidPrefix,
    /// Invalid tag.
    InvalidTag,
    /// Invalid embedded tag.
    InvalidEmbeddedTag,
    /// Invalid string reference.
    InvalidStringReference,
    /// Invalid map reference.
    InvalidMapReference,
    /// Failed to parse a floating-point number.
    InvalidFloatNumber,
    /// According to the input, a map has a key that is either a null or a
    /// NaN. That is not valid in Lua.
    InvalidMapKeyType,
    /// The input ended unexpectedly.
    UnexpectedEof,
    /// Exceeded recursion limit while deserializing nested data.
    RecursionLimitExceeded,
}

/// Errors that can occur while serializing.
#[derive(Clone, Copy, Debug, PartialEq, Eq, Structural)]
pub enum SerializationError {
    /// More than `2^24` unique strings.
    TooManyUniqueStrings,
    /// A string is larger than `2^24` bytes.
    StringIsTooLarge,
    /// A map is larger than `2^24` key-value pairs.
    MapIsTooLarge,
    /// An array is larger than `2^24` elements.
    ArrayIsTooLarge,
    /// Exceeded recursion limit while serializing nested data.
    RecursionLimitExceeded,
}

} // verus!
