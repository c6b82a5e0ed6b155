//! The binary serialization format ("V2"): a dense tag stream with
//! variable-width integers, embedded-length short forms, back-references
//! to previously emitted strings and tables, and mixed array-plus-map
//! tables.
//!
//! A stream is one version byte (`1`, with `2` also accepted on decode),
//! then a sequence of values. Each value starts with a tag byte: a low set
//! bit carries a 7-bit non-negative integer; low bits `10` carry an
//! embedded type and 4-bit count; low bits `100` carry a 12-bit signed
//! integer; low bits `000` carry a 5-bit full type tag.

pub mod deserialization;
pub mod error;
pub mod reader;
pub mod serialization;

pub use deserialization::Deserializer;
pub use serialization::Serializer;

use vstd::prelude::*;

verus! {

/// The version byte written in front of every stream.
pub const FORMAT_VERSION: u8 = 1;

} // verus!
