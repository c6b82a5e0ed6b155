//! Error types of the top-level pipeline.

use vstd::prelude::*;

use crate::ace_serialize::error::DeserializationError as AceSerializeDeserializationError;
use crate::ace_serialize::error::SerializationError as AceSerializeSerializationError;
use crate::base64::error::DecodeError as Base64DecodeError;
use crate::base64::error::EncodeError as Base64EncodeError;
use crate::lib_compress::DecompressionError as LibCompressDecompressionError;
use crate::lib_serialize::error::DeserializationError as LibSerializeDeserializationError;
use crate::lib_serialize::error::SerializationError as LibSerializeSerializationError;

verus! {

/// Errors that can occur while decoding.
#[derive(Clone, Copy, Debug, PartialEq, Eq, Structural)]
pub enum DecodeError {
    /// The input is not a valid base64 string. Offsets count from the
    /// start of the whole input, prefix included.
    Base64DecodeError(Base64DecodeError),
    /// The input is not valid data compressed by the legacy scheme.
    LibCompressDecompressionError(LibCompressDecompressionError),
    /// The supposedly DEFLATE-compressed data could not be read: the
    /// stream is not valid DEFLATE data.
    IoError,
    /// The decompressed data exceeds the provided maximum size.
    DataExceedsMaxSize,
    /// The input is not valid data in the textual serialization format.
    AceSerializeDeserializationError(AceSerializeDeserializationError),
    /// The input is not valid data in the binary serialization format.
    LibSerializeDeserializationError(LibSerializeDeserializationError),
}

/// Errors that can occur while encoding.
#[derive(Clone, Copy, Debug, PartialEq, Eq, Structural)]
pub enum EncodeError {
    /// The input cannot be base64-encoded.
    Base64EncodeError(Base64EncodeError),
    /// Compression failed. Never produced: compressing from memory
    /// cannot fail.
    IoError,
    /// The input cannot be serialized in the textual format.
    AceSerializeSerializationError(AceSerializeSerializationError),
    /// The input cannot be serialized in the binary format.
    LibSerializeSerializationError(LibSerializeSerializationError),
}

} // verus!
