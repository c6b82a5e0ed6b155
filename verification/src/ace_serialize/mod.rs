//! The textual serialization format ("V1"): a stream of `^`-prefixed
//! two-byte identifiers with escape-encoded string bodies.
//!
//! A stream opens with `^1`, each value starts with an identifier (`^Z`
//! null, `^B`/`^b` booleans, `^S` string, `^N` plain number, `^F`…`^f`
//! mantissa and exponent, `^T`…`^t` table), and a top-level stream ends
//! with `^^`.

pub mod deserialization;
pub mod error;
pub mod reader;
pub mod serialization;

pub use deserialization::Deserializer;
pub use serialization::Serializer;
