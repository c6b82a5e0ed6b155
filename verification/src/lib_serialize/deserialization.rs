//! Deserialization of the binary format.

use vstd::prelude::*;

use crate::lib_serialize::error::DeserializationError;
use crate::lib_serialize::reader::SliceReader;
use crate::lua_value::{clone_bytes, clone_value, map_insert, LuaMapKey, LuaValue};
use crate::numbers::{round_int_to_bits, spec_bits_of_int, uint_to_bits, NumberRuntime};

verus! {

/// The recursion limit of the format: at most this many nested tables.
pub const RECURSION_LIMIT: usize = 128;

/// The number a 12-bit tag pair denotes: the magnitude sits in the high
/// twelve bits, the sign in bit three of the tag byte.
pub open spec fn spec_v2_compact_number(tag: u8, next: u8) -> LuaValue {
    let mag = (next * 256 + tag) as int / 16;
    LuaValue::Number(
        if tag & 15 == 12 {
            if mag == 0 {
                0x8000000000000000u64
            } else {
                (spec_bits_of_int(mag) + 0x8000000000000000) as u64
            }
        } else {
            spec_bits_of_int(mag)
        },
    )
}

/// The first value of a stream, when its head is one of the pinned
/// scalar forms.
pub open spec fn spec_v2_first_scalar(s: Seq<u8>) -> Option<LuaValue> {
    if s.len() >= 2 && (s[0] == 1 || s[0] == 2) {
        if s[1] & 1 == 1 {
            Some(LuaValue::Number(spec_bits_of_int((s[1] / 2) as int)))
        } else if s[1] == 0 {
            Some(LuaValue::Null)
        } else if s[1] == 96 {
            Some(LuaValue::Boolean(true))
        } else if s[1] == 104 {
            Some(LuaValue::Boolean(false))
        } else {
            None
        }
    } else {
        None
    }
}

/// What decoding a back-reference of `width` count bytes must yield,
/// given `table_len` recorded entries: a truncated count is end-of-input;
/// a zero or too-large one-based index is the reference error; otherwise
/// the recorded entry comes back (an equal, independent copy).
pub open spec fn spec_ref_pinned<'s, R: NumberRuntime>(
    de: Deserializer<'s, R>,
    width: int,
    table_len: int,
    r: Result<LuaValue, DeserializationError>,
    is_string: bool,
) -> bool {
    let s = de.spec_slice();
    let i = de.spec_index();
    if i + width > s.len() {
        r == Err::<LuaValue, DeserializationError>(DeserializationError::UnexpectedEof)
    } else {
        let idx = crate::lib_serialize::reader::spec_be_int(s, i, width);
        if idx == 0 || idx > table_len {
            if is_string {
                r == Err::<LuaValue, DeserializationError>(
                    DeserializationError::InvalidStringReference,
                )
            } else {
                r == Err::<LuaValue, DeserializationError>(
                    DeserializationError::InvalidMapReference,
                )
            }
        } else {
            if is_string {
                r matches Ok(LuaValue::String(b)) && b@ == de.spec_string_refs()[idx - 1]
            } else {
                r matches Ok(v) && crate::lua_value::spec_deep_eq(v, de.spec_table_refs()[idx - 1])
            }
        }
    }
}

/// A structure for deserializing binary streams.
pub struct Deserializer<'s, R: NumberRuntime> {
    remaining_depth: usize,
    reader: SliceReader<'s>,
    table_refs: Vec<LuaValue>,
    string_refs: Vec<Vec<u8>>,
    runtime: R,
}

impl<'s, R: NumberRuntime> Deserializer<'s, R> {
    /// The reader state is sound and depth remains available.
    pub closed spec fn wf(&self) -> bool {
        &&& self.reader.wf()
        &&& 1 <= self.remaining_depth <= RECURSION_LIMIT
    }

    /// The whole input.
    pub closed spec fn spec_slice(&self) -> Seq<u8> {
        self.reader.spec_slice()
    }

    /// The read position.
    pub closed spec fn spec_index(&self) -> int {
        self.reader.spec_index()
    }

    /// The recursion budget still open.
    pub closed spec fn spec_depth(&self) -> int {
        self.remaining_depth as int
    }

    /// The strings recorded for back-references, in order of appearance.
    pub closed spec fn spec_string_refs(&self) -> Seq<Seq<u8>> {
        self.string_refs@.map_values(|v: Vec<u8>| v@)
    }

    /// The tables recorded for back-references, in order of appearance.
    pub closed spec fn spec_table_refs(&self) -> Seq<LuaValue> {
        self.table_refs@
    }

    /// Create a deserializer from a byte slice.
    ///
    /// Number payloads that are not plain integer literals are converted
    /// through `runtime` (see [`NumberRuntime`]).
    pub fn from_slice(slice: &'s [u8], runtime: R) -> (r: Deserializer<'s, R>)
        ensures
            r.wf(),
            r.spec_slice() == slice@,
            r.spec_index() == 0,
            r.spec_depth() == RECURSION_LIMIT,
    {
        Deserializer {
            remaining_depth: RECURSION_LIMIT,
            reader: SliceReader::new(slice),
            table_refs: Vec::new(),
            string_refs: Vec::new(),
            runtime,
        }
    }

    /// Deserialize all values.
    pub fn deserialize_all(self) -> (r: Result<Vec<LuaValue>, DeserializationError>)
        requires
            self.wf(),
            self.spec_index() == 0,
            self.spec_depth() == RECURSION_LIMIT,
        ensures
            ({
                let s = self.spec_slice();
                (s.len() == 0 || (s[0] != 1 && s[0] != 2)) ==> r == Err::<
                    Vec<LuaValue>,
                    DeserializationError,
                >(DeserializationError::InvalidPrefix)
            }),
            r is Ok ==> self.spec_slice().len() >= 1 && (self.spec_slice()[0] == 1
                || self.spec_slice()[0] == 2),
            r == Err::<Vec<LuaValue>, DeserializationError>(
                DeserializationError::InvalidPrefix,
            ) ==> self.spec_slice().len() == 0 || (self.spec_slice()[0] != 1
                && self.spec_slice()[0] != 2),
            ({
                let s = self.spec_slice();
                (s.len() == 1 && (s[0] == 1 || s[0] == 2)) ==> (r matches Ok(vs) && vs@.len()
                    == 0)
            }),
            match spec_v2_first_scalar(self.spec_slice()) {
                Some(v0) => r matches Ok(vs) ==> vs@.len() >= 1 && vs@[0] == v0,
                None => true,
            },
    {
        let mut de = self;
        match de.reader.read_u8() {
            Some(v) if v == 1 || v == 2 => (),
            _ => {
                return Err(DeserializationError::InvalidPrefix);
            },
        }
        let mut result: Vec<LuaValue> = Vec::new();
        loop
            invariant
                de.wf(),
                de.spec_depth() == RECURSION_LIMIT,
                de.spec_slice() == self.spec_slice(),
                de.spec_slice().len() >= 1,
                de.spec_slice()[0] == 1 || de.spec_slice()[0] == 2,
                de.spec_index() >= 1,
                self.spec_slice().len() == 1 ==> result@.len() == 0,
                spec_v2_first_scalar(self.spec_slice()) is Some ==> (result@.len() == 0
                    ==> de.spec_index() == 1),
                spec_v2_first_scalar(self.spec_slice()) is Some && result@.len() >= 1
                    ==> result@[0] == spec_v2_first_scalar(self.spec_slice()).unwrap(),
            ensures
                spec_v2_first_scalar(self.spec_slice()) is Some ==> result@.len() >= 1
                    && result@[0] == spec_v2_first_scalar(self.spec_slice()).unwrap(),
            decreases de.spec_slice().len() - de.spec_index(),
        {
            match de.deserialize_helper() {
                Ok(Some(v)) => result.push(v),
                Ok(None) => {
                    proof {
                        if spec_v2_first_scalar(self.spec_slice()) is Some {
                            assert(de.spec_index() > 1);
                        }
                    }
                    break ;
                },
                Err(e) => {
                    return Err(e);
                },
            }
        }
        Ok(result)
    }

    /// Deserialize the first value.
    ///
    /// `Ok(None)` means the stream held no value after its version byte.
    pub fn deserialize_first(self) -> (r: Result<Option<LuaValue>, DeserializationError>)
        requires
            self.wf(),
            self.spec_index() == 0,
            self.spec_depth() == RECURSION_LIMIT,
        ensures
            ({
                let s = self.spec_slice();
                (s.len() == 0 || (s[0] != 1 && s[0] != 2)) <==> r == Err::<
                    Option<LuaValue>,
                    DeserializationError,
                >(DeserializationError::InvalidPrefix)
            }),
            ({
                let s = self.spec_slice();
                (s.len() >= 2 && (s[0] == 1 || s[0] == 2)) ==> {
                    &&& (s[1] & 1 == 1 ==> r == Ok::<Option<LuaValue>, DeserializationError>(
                        Some(LuaValue::Number(spec_bits_of_int((s[1] / 2) as int))),
                    ))
                    &&& (s[1] == 0 ==> r == Ok::<Option<LuaValue>, DeserializationError>(
                        Some(LuaValue::Null),
                    ))
                    &&& (s[1] == 96 ==> r == Ok::<Option<LuaValue>, DeserializationError>(
                        Some(LuaValue::Boolean(true)),
                    ))
                    &&& (s[1] == 104 ==> r == Ok::<Option<LuaValue>, DeserializationError>(
                        Some(LuaValue::Boolean(false)),
                    ))
                }
            }),
            ({
                let s = self.spec_slice();
                (s.len() == 1 && (s[0] == 1 || s[0] == 2)) ==> r == Ok::<
                    Option<LuaValue>,
                    DeserializationError,
                >(None)
            }),
            ({
                let s = self.spec_slice();
                (s.len() >= 2 && (s[0] == 1 || s[0] == 2) && s[1] & 7 == 4) ==> if s.len() >= 3 {
                    r == Ok::<Option<LuaValue>, DeserializationError>(
                        Some(spec_v2_compact_number(s[1], s[2])),
                    )
                } else {
                    r == Err::<Option<LuaValue>, DeserializationError>(
                        DeserializationError::UnexpectedEof,
                    )
                }
            }),
            ({
                let s = self.spec_slice();
                (s.len() >= 2 && (s[0] == 1 || s[0] == 2) && s[1] & 3 == 2 && (s[1] & 0x0f) >> 2
                    == 0) ==> ({
                    let slen = (s[1] >> 4) as int;
                    if 2 + slen <= s.len() {
                        r matches Ok(Some(LuaValue::String(b))) && b@
                            == crate::unicode::utf8_lossy_of(s.subrange(2, 2 + slen))
                    } else {
                        r == Err::<Option<LuaValue>, DeserializationError>(
                            DeserializationError::UnexpectedEof,
                        )
                    }
                })
            }),
    {
        let mut de = self;
        match de.reader.read_u8() {
            Some(v) if v == 1 || v == 2 => (),
            _ => {
                return Err(DeserializationError::InvalidPrefix);
            },
        }
        de.deserialize_helper()
    }

    /// Deserialize one value; `Ok(None)` at a clean end of input.
    ///
    /// The integer forms that fit in the tag byte (and the byte after it)
    /// are pinned exactly; so are the tags with a fixed payload.
    fn deserialize_helper(&mut self) -> (r: Result<Option<LuaValue>, DeserializationError>)
        requires
            old(self).wf(),
        ensures
            !(r == Err::<Option<LuaValue>, DeserializationError>(
                DeserializationError::InvalidPrefix,
            )),
            final(self).spec_slice() == old(self).spec_slice(),
            r matches Ok(Some(_)) ==> final(self).wf() && final(self).spec_depth() == old(self).spec_depth() && old(self).spec_index() + 1 <= final(self).spec_index() <= final(self).spec_slice().len(),
            r matches Ok(None) ==> final(self).wf() && final(self).spec_depth() == old(self).spec_depth() && final(self).spec_index() == old(self).spec_index(),
            r is Err ==> old(self).spec_index() <= final(self).spec_index() <= final(self).spec_slice().len(),
            old(self).spec_index() == old(self).spec_slice().len() ==> r == Ok::<
                Option<LuaValue>,
                DeserializationError,
            >(None),
            ({
                let s = old(self).spec_slice();
                let i = old(self).spec_index();
                i < s.len() ==> {
                    &&& (s[i] & 1 == 1 ==> r == Ok::<Option<LuaValue>, DeserializationError>(
                        Some(LuaValue::Number(spec_bits_of_int((s[i] / 2) as int))),
                    ))
                    &&& (s[i] & 7 == 4 && i + 1 < s.len() ==> r == Ok::<
                        Option<LuaValue>,
                        DeserializationError,
                    >(Some(spec_v2_compact_number(s[i], s[i + 1]))))
                    &&& (s[i] & 7 == 4 && i + 1 >= s.len() ==> r == Err::<
                        Option<LuaValue>,
                        DeserializationError,
                    >(DeserializationError::UnexpectedEof))
                    &&& (s[i] == 0 ==> r == Ok::<Option<LuaValue>, DeserializationError>(
                        Some(LuaValue::Null),
                    ))
                    &&& (s[i] == 96 ==> r == Ok::<Option<LuaValue>, DeserializationError>(
                        Some(LuaValue::Boolean(true)),
                    ))
                    &&& (s[i] == 104 ==> r == Ok::<Option<LuaValue>, DeserializationError>(
                        Some(LuaValue::Boolean(false)),
                    ))
                    &&& (s[i] & 3 == 2 && (s[i] & 0x0f) >> 2 == 0 ==> ({
                        let slen = (s[i] >> 4) as int;
                        if i + 1 + slen <= s.len() {
                            r matches Ok(Some(LuaValue::String(b))) && b@
                                == crate::unicode::utf8_lossy_of(
                                s.subrange(i + 1, i + 1 + slen),
                            )
                        } else {
                            r == Err::<Option<LuaValue>, DeserializationError>(
                                DeserializationError::UnexpectedEof,
                            )
                        }
                    }))
                }
            }),
        decreases old(self).spec_depth(), 3int,
    {
        let value = match self.reader.read_u8() {
            None => {
                return Ok(None);
            },
            Some(value) => value,
        };
        if value & 1 == 1 {
            // `NNNN NNN1`: a 7-bit non-negative integer.
            let m = value >> 1;
            proof {
                assert(value >> 1 < 128 && value >> 1 == value / 2) by (bit_vector);
                assert(value & 7 != 4 && value & 3 != 2 && value != 0 && value != 96 && value
                    != 104) by (bit_vector)
                    requires
                        value & 1 == 1,
                ;
            }
            let bits = if m == 0 {
                0
            } else {
                uint_to_bits(m as u64)
            };
            Ok(Some(LuaValue::Number(bits)))
        } else if value & 3 == 2 {
            // `CCCC TT10`: a 2-bit embedded type and a 4-bit count.
            let tag = (value & 0x0f) >> 2;
            let len = value >> 4;
            proof {
                assert((value & 0x0f) >> 2 < 4 && value >> 4 < 16) by (bit_vector);
                assert(value & 7 != 4 && value != 0 && value != 96 && value != 104)
                    by (bit_vector)
                    requires
                        value & 3 == 2,
                ;
            }
            let v = match self.deserialize_embedded(tag, len) {
                Ok(v) => v,
                Err(e) => {
                    return Err(e);
                },
            };
            Ok(Some(v))
        } else if value & 7 == 4 {
            // `NNNN S100`: a 12-bit integer, sign in bit three.
            proof {
                assert(value & 3 != 2 && value != 0 && value != 96 && value != 104)
                    by (bit_vector)
                    requires
                        value & 7 == 4,
                ;
            }
            let next_byte = match self.reader.read_u8() {
                None => {
                    return Err(DeserializationError::UnexpectedEof);
                },
                Some(b) => b as u16,
            };
            proof {
                assert(next_byte << 8u16 == next_byte * 256 && next_byte << 8u16 <= 0xff00)
                    by (bit_vector)
                    requires
                        next_byte < 256,
                ;
            }
            let packed = (next_byte << 8u16) + value as u16;
            let mag = packed >> 4;
            proof {
                assert(packed >> 4 < 4096 && packed >> 4 == packed / 16) by (bit_vector);
            }
            let mag_bits = if mag == 0 {
                0
            } else {
                uint_to_bits(mag as u64)
            };
            let bits = if value & 15 == 12 {
                // Negative: set the sign bit.
                if mag == 0 {
                    0x8000000000000000u64
                } else {
                    mag_bits + 0x8000000000000000
                }
            } else {
                mag_bits
            };
            proof {
                let s = old(self).spec_slice();
                let i = old(self).spec_index();
                assert(value == s[i] && next_byte == s[i + 1]);
                assert(packed == s[i + 1] * 256 + s[i]);
                assert(mag == (s[i + 1] * 256 + s[i]) as int / 16);
                assert(mag >= 1 ==> mag_bits == spec_bits_of_int(mag as int));
            }
            Ok(Some(LuaValue::Number(bits)))
        } else {
            // `TTTT T000`: a full 5-bit type tag.
            proof {
                assert(value >> 3 < 32) by (bit_vector);
                assert((value == 0 ==> value >> 3 == 0) && (value == 96 ==> value >> 3 == 12) && (
                value == 104 ==> value >> 3 == 13)) by (bit_vector);
            }
            let v = match self.deserialize_one(value >> 3) {
                Ok(v) => v,
                Err(e) => {
                    return Err(e);
                },
            };
            Ok(Some(v))
        }
    }

    /// Deserialize one value, requiring one to be present.
    fn extract_value(&mut self) -> (r: Result<LuaValue, DeserializationError>)
        requires
            old(self).wf(),
        ensures
            !(r == Err::<LuaValue, DeserializationError>(DeserializationError::InvalidPrefix)),
            final(self).spec_slice() == old(self).spec_slice(),
            r is Ok ==> final(self).wf() && final(self).spec_depth() == old(self).spec_depth()
                && old(self).spec_index() + 1 <= final(self).spec_index() <= final(self).spec_slice().len(),
            r is Err ==> old(self).spec_index() <= final(self).spec_index() <= final(self).spec_slice().len(),
        decreases old(self).spec_depth(), 4int,
    {
        match self.deserialize_helper() {
            Ok(Some(value)) => Ok(value),
            Ok(None) => Err(DeserializationError::UnexpectedEof),
            Err(e) => Err(e),
        }
    }

    /// Deserialize the payload of an embedded tag.
    fn deserialize_embedded(&mut self, tag: u8, len: u8) -> (r: Result<
        LuaValue,
        DeserializationError,
    >)
        requires
            old(self).wf(),
            old(self).spec_index() >= 1,
            tag < 4,
            len < 16,
        ensures
            !(r == Err::<LuaValue, DeserializationError>(DeserializationError::InvalidPrefix)),
            tag == 0 ==> ({
                let s = old(self).spec_slice();
                let i = old(self).spec_index();
                if i + len <= s.len() {
                    r matches Ok(LuaValue::String(b)) && b@ == crate::unicode::utf8_lossy_of(
                        s.subrange(i, i + len),
                    )
                } else {
                    r == Err::<LuaValue, DeserializationError>(
                        DeserializationError::UnexpectedEof,
                    )
                }
            }),
            final(self).spec_slice() == old(self).spec_slice(),
            r is Ok ==> final(self).wf() && final(self).spec_depth() == old(self).spec_depth()
                && old(self).spec_index() <= final(self).spec_index() <= final(self).spec_slice().len(),
            r is Err ==> old(self).spec_index() <= final(self).spec_index() <= final(self).spec_slice().len(),
        decreases old(self).spec_depth(), 2int,
    {
        if tag == 0 {
            self.deserialize_string(len as usize)
        } else if tag == 1 {
            self.deserialize_map(len as usize)
        } else if tag == 2 {
            self.deserialize_array(len as usize)
        } else {
            // For the mixed form the 4-bit count holds two 2-bit counts,
            // each one less than the true count.
            proof {
                assert(len & 3 <= 3 && len >> 2 <= 3) by (bit_vector)
                    requires
                        len < 16,
                ;
            }
            self.deserialize_mixed(((len & 3) + 1) as usize, ((len >> 2) + 1) as usize)
        }
    }

    /// Deserialize the payload of a full type tag.
    #[verifier::rlimit(50)]
    fn deserialize_one(&mut self, tag: u8) -> (r: Result<LuaValue, DeserializationError>)
        requires
            old(self).wf(),
            old(self).spec_index() >= 1,
            tag < 32,
        ensures
            !(r == Err::<LuaValue, DeserializationError>(DeserializationError::InvalidPrefix)),
            tag == 0 ==> r == Ok::<LuaValue, DeserializationError>(LuaValue::Null),
            tag == 12 ==> r == Ok::<LuaValue, DeserializationError>(LuaValue::Boolean(true)),
            tag == 13 ==> r == Ok::<LuaValue, DeserializationError>(LuaValue::Boolean(false)),
            26 <= tag <= 28 ==> spec_ref_pinned(
                *old(self),
                (tag - 25) as int,
                old(self).spec_string_refs().len() as int,
                r,
                true,
            ),
            29 <= tag <= 31 ==> spec_ref_pinned(
                *old(self),
                (tag - 28) as int,
                old(self).spec_table_refs().len() as int,
                r,
                false,
            ),
            26 <= tag <= 31 && r is Ok ==> final(self).spec_string_refs() == old(
                self,
            ).spec_string_refs() && final(self).spec_table_refs() == old(self).spec_table_refs(),
            final(self).spec_slice() == old(self).spec_slice(),
            r is Ok ==> final(self).wf() && final(self).spec_depth() == old(self).spec_depth()
                && old(self).spec_index() <= final(self).spec_index() <= final(self).spec_slice().len(),
            r is Err ==> old(self).spec_index() <= final(self).spec_index() <= final(self).spec_slice().len(),
        decreases old(self).spec_depth(), 2int,
    {
        if tag == 0 {
            Ok(LuaValue::Null)
        } else if tag >= 1 && tag <= 8 {
            // Big-endian integers of 2, 3, 4 or 7 bytes; even tags are the
            // negative forms.
            let width: usize = if tag <= 2 {
                2
            } else if tag <= 4 {
                3
            } else if tag <= 6 {
                4
            } else {
                7
            };
            let v = match self.reader.read_int(width) {
                None => {
                    return Err(DeserializationError::UnexpectedEof);
                },
                Some(v) => v,
            };
            proof {
                crate::lib_serialize::reader::lemma_be_int_bound(
                    old(self).spec_slice(),
                    old(self).spec_index(),
                    width as int,
                );
                crate::lib_serialize::reader::lemma_cap256_mono(width as int, 7);
                crate::lib_serialize::reader::lemma_cap256_val();
            }
            let neg = tag % 2 == 0;
            Ok(LuaValue::Number(round_int_to_bits(v, neg)))
        } else if tag == 9 {
            // A full-width float: the raw pattern, big-endian.
            let bits = match self.reader.read_int(8) {
                None => {
                    return Err(DeserializationError::UnexpectedEof);
                },
                Some(v) => v,
            };
            Ok(LuaValue::Number(bits))
        } else if tag == 10 || tag == 11 {
            // A float written as a decimal string, negated under tag 11.
            let len = match self.reader.read_u8() {
                None => {
                    return Err(DeserializationError::UnexpectedEof);
                },
                Some(b) => b,
            };
            let bytes = match self.reader.read_bytes(len as usize) {
                None => {
                    return Err(DeserializationError::UnexpectedEof);
                },
                Some(v) => v,
            };
            let bits = match crate::ace_serialize::deserialization::parse_plain_number(
                &bytes,
                &self.runtime,
            ) {
                Ok(b) => b,
                Err(_) => {
                    return Err(DeserializationError::InvalidFloatNumber);
                },
            };
            let bits = if tag == 11 {
                if bits >= 0x8000000000000000 {
                    bits - 0x8000000000000000
                } else {
                    bits + 0x8000000000000000
                }
            } else {
                bits
            };
            Ok(LuaValue::Number(bits))
        } else if tag == 12 {
            Ok(LuaValue::Boolean(true))
        } else if tag == 13 {
            Ok(LuaValue::Boolean(false))
        } else if tag >= 14 && tag <= 16 {
            let len = match self.read_count((tag - 13) as usize) {
                Ok(v) => v,
                Err(e) => {
                    return Err(e);
                },
            };
            self.deserialize_string(len)
        } else if tag >= 17 && tag <= 19 {
            let len = match self.read_count((tag - 16) as usize) {
                Ok(v) => v,
                Err(e) => {
                    return Err(e);
                },
            };
            self.deserialize_map(len)
        } else if tag >= 20 && tag <= 22 {
            let len = match self.read_count((tag - 19) as usize) {
                Ok(v) => v,
                Err(e) => {
                    return Err(e);
                },
            };
            self.deserialize_array(len)
        } else if tag >= 23 && tag <= 25 {
            let width = (tag - 22) as usize;
            let array_len = match self.read_count(width) {
                Ok(v) => v,
                Err(e) => {
                    return Err(e);
                },
            };
            let map_len = match self.read_count(width) {
                Ok(v) => v,
                Err(e) => {
                    return Err(e);
                },
            };
            self.deserialize_mixed(array_len, map_len)
        } else if tag >= 26 && tag <= 28 {
            // A back-reference to an earlier string, by one-based index.
            let index = match self.read_count((tag - 25) as usize) {
                Ok(v) => v,
                Err(e) => {
                    return Err(e);
                },
            };
            if index == 0 || index - 1 >= self.string_refs.len() {
                return Err(DeserializationError::InvalidStringReference);
            }
            let b = clone_bytes(&self.string_refs[index - 1]);
            proof {
                assert(b@ == old(self).spec_string_refs()[index - 1]);
            }
            Ok(LuaValue::String(b))
        } else {
            // A back-reference to an earlier table, by one-based index.
            let index = match self.read_count((tag - 28) as usize) {
                Ok(v) => v,
                Err(e) => {
                    return Err(e);
                },
            };
            if index == 0 || index - 1 >= self.table_refs.len() {
                return Err(DeserializationError::InvalidMapReference);
            }
            Ok(clone_value(&self.table_refs[index - 1]))
        }
    }

    /// Read a big-endian count of 1, 2 or 3 bytes.
    fn read_count(&mut self, width: usize) -> (r: Result<usize, DeserializationError>)
        requires
            old(self).wf(),
            1 <= width <= 3,
        ensures
            final(self).wf(),
            final(self).spec_slice() == old(self).spec_slice(),
            final(self).spec_depth() == old(self).spec_depth(),
            old(self).spec_index() <= final(self).spec_index() <= final(self).spec_slice().len(),
            !(r == Err::<usize, DeserializationError>(DeserializationError::InvalidPrefix)),
            r matches Ok(v) ==> v < 0x1000000,
            final(self).spec_string_refs() == old(self).spec_string_refs(),
            final(self).spec_table_refs() == old(self).spec_table_refs(),
            old(self).spec_index() + width <= old(self).spec_slice().len() ==> (r matches Ok(v)
                && v == crate::lib_serialize::reader::spec_be_int(
                old(self).spec_slice(),
                old(self).spec_index(),
                width as int,
            )) && final(self).spec_index() == old(self).spec_index() + width,
            old(self).spec_index() + width > old(self).spec_slice().len() ==> r == Err::<
                usize,
                DeserializationError,
            >(DeserializationError::UnexpectedEof) && final(self).spec_index() == old(
                self,
            ).spec_index(),
    {
        let v = match self.reader.read_int(width) {
            None => {
                return Err(DeserializationError::UnexpectedEof);
            },
            Some(v) => v,
        };
        proof {
            crate::lib_serialize::reader::lemma_be_int_bound(
                old(self).spec_slice(),
                old(self).spec_index(),
                width as int,
            );
            crate::lib_serialize::reader::lemma_cap256_mono(width as int, 3);
            crate::lib_serialize::reader::lemma_cap256_val();
        }
        Ok(v as usize)
    }

    /// Read an inline string of `len` bytes, UTF-8-normalized; strings
    /// longer than two bytes join the back-reference table.
    fn deserialize_string(&mut self, len: usize) -> (r: Result<LuaValue, DeserializationError>)
        requires
            old(self).wf(),
        ensures
            !(r == Err::<LuaValue, DeserializationError>(DeserializationError::InvalidPrefix)),
            final(self).spec_slice() == old(self).spec_slice(),
            r is Ok ==> final(self).wf() && final(self).spec_depth() == old(self).spec_depth()
                && old(self).spec_index() <= final(self).spec_index() <= final(self).spec_slice().len(),
            r is Err ==> old(self).spec_index() <= final(self).spec_index() <= final(self).spec_slice().len(),
            old(self).spec_index() + len > old(self).spec_slice().len() ==> r == Err::<
                LuaValue,
                DeserializationError,
            >(DeserializationError::UnexpectedEof) && final(self).spec_index() == old(
                self,
            ).spec_index() && final(self).spec_string_refs() == old(self).spec_string_refs()
                && final(self).spec_table_refs() == old(self).spec_table_refs(),
            old(self).spec_index() + len <= old(self).spec_slice().len() ==> ({
                let body = crate::unicode::utf8_lossy_of(
                    old(self).spec_slice().subrange(
                        old(self).spec_index(),
                        old(self).spec_index() + len,
                    ),
                );
                &&& r matches Ok(LuaValue::String(b)) && b@ == body
                &&& final(self).spec_index() == old(self).spec_index() + len
                &&& final(self).spec_string_refs() == if len > 2 {
                    old(self).spec_string_refs().push(body)
                } else {
                    old(self).spec_string_refs()
                }
                &&& final(self).spec_table_refs() == old(self).spec_table_refs()
            }),
    {
        let s = match self.reader.read_string(len) {
            None => {
                return Err(DeserializationError::UnexpectedEof);
            },
            Some(v) => v,
        };
        if len > 2 {
            self.string_refs.push(clone_bytes(&s));
            proof {
                assert(self.spec_string_refs() =~= old(self).spec_string_refs().push(s@));
            }
        }
        Ok(LuaValue::String(s))
    }

    /// Read the `len` key-value pairs of a map.
    fn deserialize_map(&mut self, len: usize) -> (r: Result<LuaValue, DeserializationError>)
        requires
            old(self).wf(),
            old(self).spec_index() >= 1,
        ensures
            !(r == Err::<LuaValue, DeserializationError>(DeserializationError::InvalidPrefix)),
            final(self).spec_slice() == old(self).spec_slice(),
            r is Ok ==> final(self).wf() && final(self).spec_depth() == old(self).spec_depth()
                && old(self).spec_index() <= final(self).spec_index() <= final(self).spec_slice().len(),
            r is Err ==> old(self).spec_index() <= final(self).spec_index() <= final(self).spec_slice().len(),
        decreases old(self).spec_depth(), 1int,
    {
        let ghost depth0 = self.spec_depth();
        let mut m: Vec<(LuaMapKey, LuaValue)> = Vec::new();
        let mut i: usize = 0;
        while i < len
            invariant
                0 <= i <= len,
                self.wf(),
                self.spec_depth() == depth0,
                depth0 == old(self).spec_depth(),
                self.spec_slice() == old(self).spec_slice(),
                1 <= old(self).spec_index() <= self.spec_index() <= self.spec_slice().len(),
                m@.len() + old(self).spec_index() <= self.spec_index(),
            decreases len - i,
        {
            self.remaining_depth = self.remaining_depth - 1;
            if self.remaining_depth == 0 {
                return Err(DeserializationError::RecursionLimitExceeded);
            }
            let key_value = match self.extract_value() {
                Ok(v) => v,
                Err(e) => {
                    return Err(e);
                },
            };
            let value = match self.extract_value() {
                Ok(v) => v,
                Err(e) => {
                    return Err(e);
                },
            };
            let key = match LuaMapKey::try_from(key_value) {
                Ok(k) => k,
                Err(_) => {
                    return Err(DeserializationError::InvalidMapKeyType);
                },
            };
            proof {
                crate::lua_value::lemma_find_key_range(m@, key.spec_value());
            }
            map_insert(&mut m, key, value);
            self.remaining_depth = self.remaining_depth + 1;
            i = i + 1;
        }
        let v = LuaValue::Table(m);
        let copy = clone_value(&v);
        self.table_refs.push(copy);
        Ok(v)
    }

    /// Read the `len` elements of an array.
    fn deserialize_array(&mut self, len: usize) -> (r: Result<LuaValue, DeserializationError>)
        requires
            old(self).wf(),
        ensures
            !(r == Err::<LuaValue, DeserializationError>(DeserializationError::InvalidPrefix)),
            final(self).spec_slice() == old(self).spec_slice(),
            r is Ok ==> final(self).wf() && final(self).spec_depth() == old(self).spec_depth()
                && old(self).spec_index() <= final(self).spec_index() <= final(self).spec_slice().len(),
            r is Err ==> old(self).spec_index() <= final(self).spec_index() <= final(self).spec_slice().len(),
        decreases old(self).spec_depth(), 1int,
    {
        let ghost depth0 = self.spec_depth();
        let mut out: Vec<LuaValue> = Vec::new();
        let mut i: usize = 0;
        while i < len
            invariant
                0 <= i <= len,
                self.wf(),
                self.spec_depth() == depth0,
                depth0 == old(self).spec_depth(),
                self.spec_slice() == old(self).spec_slice(),
                old(self).spec_index() <= self.spec_index() <= self.spec_slice().len(),
            decreases len - i,
        {
            self.remaining_depth = self.remaining_depth - 1;
            if self.remaining_depth == 0 {
                return Err(DeserializationError::RecursionLimitExceeded);
            }
            let value = match self.extract_value() {
                Ok(v) => v,
                Err(e) => {
                    return Err(e);
                },
            };
            out.push(value);
            self.remaining_depth = self.remaining_depth + 1;
            i = i + 1;
        }
        let v = LuaValue::Array(out);
        let copy = clone_value(&v);
        self.table_refs.push(copy);
        Ok(v)
    }

    /// Read a mixed container: `array_len` positionally keyed values, then
    /// `map_len` key-value pairs, all one map.
    fn deserialize_mixed(&mut self, array_len: usize, map_len: usize) -> (r: Result<
        LuaValue,
        DeserializationError,
    >)
        requires
            old(self).wf(),
            old(self).spec_index() >= 1,
            array_len < 0x20000000000000,
        ensures
            !(r == Err::<LuaValue, DeserializationError>(DeserializationError::InvalidPrefix)),
            final(self).spec_slice() == old(self).spec_slice(),
            r is Ok ==> final(self).wf() && final(self).spec_depth() == old(self).spec_depth()
                && old(self).spec_index() <= final(self).spec_index() <= final(self).spec_slice().len(),
            r is Err ==> old(self).spec_index() <= final(self).spec_index() <= final(self).spec_slice().len(),
        decreases old(self).spec_depth(), 1int,
    {
        let ghost depth0 = self.spec_depth();
        let mut m: Vec<(LuaMapKey, LuaValue)> = Vec::new();
        let mut i: usize = 0;
        while i < array_len
            invariant
                0 <= i <= array_len,
                array_len < 0x20000000000000,
                self.wf(),
                self.spec_depth() == depth0,
                depth0 == old(self).spec_depth(),
                self.spec_slice() == old(self).spec_slice(),
                1 <= old(self).spec_index() <= self.spec_index() <= self.spec_slice().len(),
                m@.len() + old(self).spec_index() <= self.spec_index(),
            decreases array_len - i,
        {
            self.remaining_depth = self.remaining_depth - 1;
            if self.remaining_depth == 0 {
                return Err(DeserializationError::RecursionLimitExceeded);
            }
            let element = match self.extract_value() {
                Ok(v) => v,
                Err(e) => {
                    return Err(e);
                },
            };
            let key_bits = uint_to_bits(i as u64 + 1);
            let key = match LuaMapKey::try_from(LuaValue::Number(key_bits)) {
                Ok(k) => k,
                Err(_) => {
                    return Err(DeserializationError::InvalidMapKeyType);
                },
            };
            proof {
                crate::lua_value::lemma_find_key_range(m@, key.spec_value());
            }
            map_insert(&mut m, key, element);
            self.remaining_depth = self.remaining_depth + 1;
            i = i + 1;
        }
        let mut j: usize = 0;
        while j < map_len
            invariant
                0 <= j <= map_len,
                self.wf(),
                self.spec_depth() == depth0,
                depth0 == old(self).spec_depth(),
                self.spec_slice() == old(self).spec_slice(),
                1 <= old(self).spec_index() <= self.spec_index() <= self.spec_slice().len(),
                m@.len() + old(self).spec_index() <= self.spec_index(),
            decreases map_len - j,
        {
            self.remaining_depth = self.remaining_depth - 1;
            if self.remaining_depth == 0 {
                return Err(DeserializationError::RecursionLimitExceeded);
            }
            let key_value = match self.extract_value() {
                Ok(v) => v,
                Err(e) => {
                    return Err(e);
                },
            };
            let value = match self.extract_value() {
                Ok(v) => v,
                Err(e) => {
                    return Err(e);
                },
            };
            let key = match LuaMapKey::try_from(key_value) {
                Ok(k) => k,
                Err(_) => {
                    return Err(DeserializationError::InvalidMapKeyType);
                },
            };
            proof {
                crate::lua_value::lemma_find_key_range(m@, key.spec_value());
            }
            map_insert(&mut m, key, value);
            self.remaining_depth = self.remaining_depth + 1;
            j = j + 1;
        }
        let v = LuaValue::Table(m);
        let copy = clone_value(&v);
        self.table_refs.push(copy);
        Ok(v)
    }
}

} // verus!
