//! Serialization into the binary format.

use vstd::prelude::*;

use crate::lib_serialize::error::SerializationError;
use crate::lib_serialize::FORMAT_VERSION;
use crate::lua_value::{LuaMapKey, LuaValue};
use crate::numbers::{bits_to_int, is_nan_bits, spec_int_of_bits, spec_is_nan};

verus! {

/// The recursion limit of the format: at most this many nested tables.
pub const RECURSION_LIMIT: usize = 128;

/// The width in bytes the serializer picks for the magnitude `v`.
pub open spec fn spec_required_bytes(v: int) -> int {
    if v <= 0xff {
        1
    } else if v <= 0xffff {
        2
    } else if v <= 0xffffff {
        3
    } else if v <= 0xffffffff {
        4
    } else {
        7
    }
}

/// The width in bytes required to store `v`.
pub fn required_bytes(v: u64) -> (r: u8)
    ensures
        r == spec_required_bytes(v as int),
{
    if v <= 0xff {
        1
    } else if v <= 0xffff {
        2
    } else if v <= 0xffffff {
        3
    } else if v <= 0xffffffff {
        4
    } else {
        7
    }
}

/// The `w` big-endian bytes of `v`.
pub open spec fn spec_be_bytes(v: int, w: int) -> Seq<u8>
    decreases w,
{
    if w <= 0 {
        Seq::empty()
    } else {
        spec_be_bytes(v / 256, w - 1) + seq![(v % 256) as u8]
    }
}

/// Append the `w` big-endian bytes of `v`.
pub fn push_be(v: u64, w: u8, out: &mut Vec<u8>)
    ensures
        final(out)@ == old(out)@ + spec_be_bytes(v as int, w as int),
    decreases w,
{
    if w == 0 {
        proof {
            assert(old(out)@ + Seq::<u8>::empty() =~= old(out)@);
        }
    } else {
        push_be(v / 256, w - 1, out);
        out.push((v % 256) as u8);
    }
}

/// Big-endian reading ignores bytes appended past its window.
proof fn lemma_be_int_snoc(prev: Seq<u8>, x: u8, k: int, w: int)
    requires
        0 <= k,
        0 <= w,
        k + w <= prev.len(),
    ensures
        crate::lib_serialize::reader::spec_be_int(prev.push(x), k, w)
            == crate::lib_serialize::reader::spec_be_int(prev, k, w),
    decreases w,
{
    if w > 0 {
        lemma_be_int_snoc(prev, x, k, w - 1);
    }
}

/// The big-endian bytes the serializer writes read back as the value
/// (reduced to the width written): the writer and the reader invert.
pub proof fn lemma_be_bytes_read_back(v: int, w: int)
    requires
        0 <= v,
        0 <= w <= 8,
    ensures
        spec_be_bytes(v, w).len() == w,
        crate::lib_serialize::reader::spec_be_int(spec_be_bytes(v, w), 0, w) == v
            % (crate::lib_serialize::reader::cap256(w) as int),
    decreases w,
{
    crate::lib_serialize::reader::lemma_cap256_mono(0, w);
    if w == 0 {
        assert(v % 1 == 0) by (nonlinear_arith);
    } else {
        lemma_be_bytes_read_back(v / 256, w - 1);
        let s = spec_be_bytes(v, w);
        let prev = spec_be_bytes(v / 256, w - 1);
        assert(s =~= prev.push((v % 256) as u8));
        assert(s[w - 1] == (v % 256) as u8);
        lemma_be_int_snoc(prev, (v % 256) as u8, 0, w - 1);
        let cap_prev = crate::lib_serialize::reader::cap256(w - 1) as int;
        vstd::arithmetic::div_mod::lemma_mod_breakdown(v, 256, cap_prev);
        assert(256 * cap_prev == crate::lib_serialize::reader::cap256(w)) by (nonlinear_arith)
            requires
                crate::lib_serialize::reader::cap256(w) == 256 * crate::lib_serialize::reader::cap256(
                    w - 1,
                ) && cap_prev == crate::lib_serialize::reader::cap256(w - 1),
        ;
        assert(crate::lib_serialize::reader::spec_be_int(s, 0, w)
            == crate::lib_serialize::reader::spec_be_int(s, 0, w - 1) * 256 + s[w - 1]);
        assert(256 * ((v / 256) % cap_prev) == ((v / 256) % cap_prev) * 256) by (nonlinear_arith);
    }
}

/// The bytes a number serializes to. Total: a NaN becomes the canonical
/// quiet NaN under the full-width float tag; an integer of magnitude below
/// `2^56` takes the narrowest of the 7-bit, 12-bit, 16-, 24-, 32- or
/// 56-bit forms; everything else is the raw pattern, big-endian, under the
/// float tag.
pub open spec fn spec_v2_number(b: u64) -> Seq<u8> {
    if spec_is_nan(b) {
        seq![72u8] + spec_be_bytes(0x7ff8000000000000, 8)
    } else {
        match spec_int_of_bits(b) {
            Some(n) => if -0xffffffffffffff <= n <= 0xffffffffffffff {
                spec_v2_int(n)
            } else {
                seq![72u8] + spec_be_bytes(b as int, 8)
            },
            None => seq![72u8] + spec_be_bytes(b as int, 8),
        }
    }
}

/// The bytes an integer of magnitude below `2^56` serializes to.
pub open spec fn spec_v2_int(n: int) -> Seq<u8> {
    if 0 <= n < 128 {
        seq![(n * 2 + 1) as u8]
    } else if -4096 < n < 4096 {
        let mag = if n < 0 {
            -n
        } else {
            n
        };
        let packed = mag * 16 + (if n < 0 {
            8int
        } else {
            0int
        }) + 4;
        seq![(packed % 256) as u8, (packed / 256) as u8]
    } else {
        let mag = if n < 0 {
            -n
        } else {
            n
        };
        let w = spec_required_bytes(mag);
        let tag: int = if w == 2 {
            1
        } else if w == 3 {
            3
        } else if w == 4 {
            5
        } else {
            7
        };
        seq![((tag + if n < 0 {
            1int
        } else {
            0int
        }) * 8) as u8] + spec_be_bytes(mag, w)
    }
}

/// The 7-bit integer form round-trips: the single byte written for `n`
/// is odd, and halving it — which is what the deserializer does with an
/// odd tag byte — gives `n` back.
pub proof fn lemma_v2_small_int_round_trip(n: int)
    requires
        0 <= n < 128,
    ensures
        spec_v2_int(n) == seq![(n * 2 + 1) as u8],
        ((n * 2 + 1) as u8) & 1 == 1,
        (((n * 2 + 1) as u8) / 2) as int == n,
{
    let x = (n * 2 + 1) as u8;
    assert(x & 1 == 1 && x / 2 == (x - 1) / 2) by (bit_vector)
        requires
            x % 2 == 1,
    ;
}

/// The 12-bit integer form round-trips: the two bytes written for `n`
/// carry its magnitude in their high twelve bits — which is what the
/// deserializer reads — with the low bits naming the form and the sign.
pub proof fn lemma_v2_compact_int_round_trip(n: int)
    requires
        -4096 < n < 4096,
        !(0 <= n < 128),
    ensures
        ({
            let s = spec_v2_int(n);
            let mag = if n < 0 {
                -n
            } else {
                n
            };
            &&& s.len() == 2
            &&& (s[1] * 256 + s[0]) as int / 16 == mag
            &&& s[0] & 1 == 0
            &&& s[0] & 7 == 4
            &&& (s[0] & 15 == 12 <==> n < 0)
        }),
{
    let mag = if n < 0 {
        -n
    } else {
        n
    };
    let packed = mag * 16 + (if n < 0 {
        8int
    } else {
        0int
    }) + 4;
    assert(0 <= packed < 65536);
    let lo = (packed % 256) as u8;
    let hi = (packed / 256) as u8;
    assert(spec_v2_int(n) == seq![lo, hi]);
    vstd::arithmetic::div_mod::lemma_fundamental_div_mod(packed, 256);
    assert(hi * 256 + lo == packed);
    let pk = (packed) as u16;
    assert(pk / 16 == mag) by (nonlinear_arith)
        requires
            pk == mag * 16 + (if n < 0 {
                8int
            } else {
                0int
            }) + 4 && 0 <= mag < 4096,
    ;
    let l = lo;
    if n < 0 {
        assert(l == pk % 256 ==> (pk % 16 == 12 ==> (l & 7 == 4 && l & 1 == 0 && l & 15 == 12)))
            by (bit_vector);
        assert(pk % 16 == 12) by (nonlinear_arith)
            requires
                pk == mag * 16 + 12 && 0 <= mag,
        ;
    } else {
        assert(l == pk % 256 ==> (pk % 16 == 4 ==> (l & 7 == 4 && l & 1 == 0 && l & 15 == 4)))
            by (bit_vector);
        assert(pk % 16 == 4) by (nonlinear_arith)
            requires
                pk == mag * 16 + 4 && 0 <= mag,
        ;
    }
}

/// The first position of `s` among the emitted strings, or `-1`.
pub open spec fn spec_refs_find(refs: Seq<Seq<u8>>, s: Seq<u8>) -> int
    decreases refs.len(),
{
    if refs.len() == 0 {
        -1
    } else if refs[0] == s {
        0
    } else {
        let r = spec_refs_find(refs.drop_first(), s);
        if r < 0 {
            -1
        } else {
            r + 1
        }
    }
}

/// The bytes a string serializes to, with the emitted-strings table it
/// leaves behind: a repeated string becomes a back-reference, a fresh one
/// is written inline and, when longer than two bytes, recorded.
pub open spec fn spec_v2_string(s: Seq<u8>, refs: Seq<Seq<u8>>) -> Result<
    (Seq<u8>, Seq<Seq<u8>>),
    SerializationError,
> {
    let found = spec_refs_find(refs, s);
    if found >= 0 {
        let index = found + 1;
        let w = spec_required_bytes(index);
        if w == 1 {
            Ok((seq![208u8] + spec_be_bytes(index, 1), refs))
        } else if w == 2 {
            Ok((seq![216u8] + spec_be_bytes(index, 2), refs))
        } else if w == 3 {
            Ok((seq![224u8] + spec_be_bytes(index, 3), refs))
        } else {
            Err(SerializationError::TooManyUniqueStrings)
        }
    } else {
        let refs2 = if s.len() > 2 {
            refs.push(s)
        } else {
            refs
        };
        if s.len() < 16 {
            Ok((seq![(s.len() * 16 + 2) as u8] + s, refs2))
        } else if s.len() <= 0xff {
            Ok((seq![112u8] + spec_be_bytes(s.len() as int, 1) + s, refs2))
        } else if s.len() <= 0xffff {
            Ok((seq![120u8] + spec_be_bytes(s.len() as int, 2) + s, refs2))
        } else if s.len() <= 0xffffff {
            Ok((seq![128u8] + spec_be_bytes(s.len() as int, 3) + s, refs2))
        } else {
            Err(SerializationError::StringIsTooLarge)
        }
    }
}

/// The container header for a count of `len`: the embedded short form
/// under 16, else a tagged 1-, 2- or 3-byte count. `base_embedded` is the
/// embedded type index, `base_tag` the full tag of the 1-byte form.
pub open spec fn spec_v2_header(
    len: int,
    base_embedded: int,
    base_tag: int,
    too_large: SerializationError,
) -> Result<Seq<u8>, SerializationError> {
    if len < 16 {
        Ok(seq![(len * 16 + base_embedded * 4 + 2) as u8])
    } else if len <= 0xff {
        Ok(seq![(base_tag * 8) as u8] + spec_be_bytes(len, 1))
    } else if len <= 0xffff {
        Ok(seq![((base_tag + 1) * 8) as u8] + spec_be_bytes(len, 2))
    } else if len <= 0xffffff {
        Ok(seq![((base_tag + 2) * 8) as u8] + spec_be_bytes(len, 3))
    } else {
        Err(too_large)
    }
}

/// What serializing `v` with `depth` levels of budget emits, and the
/// emitted-strings table it leaves behind.
pub open spec fn spec_ser_value(v: LuaValue, depth: int, refs: Seq<Seq<u8>>) -> Result<
    (Seq<u8>, Seq<Seq<u8>>),
    SerializationError,
>
    decreases depth, 1int, 0int,
{
    match v {
        LuaValue::Null => Ok((seq![0u8], refs)),
        LuaValue::Boolean(true) => Ok((seq![96u8], refs)),
        LuaValue::Boolean(false) => Ok((seq![104u8], refs)),
        LuaValue::Number(b) => Ok((spec_v2_number(b), refs)),
        LuaValue::String(s) => spec_v2_string(s@, refs),
        LuaValue::Array(xs) => match spec_v2_header(
            xs@.len() as int,
            2,
            20,
            SerializationError::ArrayIsTooLarge,
        ) {
            Ok(header) => match spec_ser_items(xs@, 0, depth, refs) {
                Ok((body, refs2)) => Ok((header + body, refs2)),
                Err(e) => Err(e),
            },
            Err(e) => Err(e),
        },
        LuaValue::Table(ps) => match spec_v2_header(
            ps@.len() as int,
            1,
            17,
            SerializationError::MapIsTooLarge,
        ) {
            Ok(header) => match spec_ser_entries(ps@, 0, depth, refs) {
                Ok((body, refs2)) => Ok((header + body, refs2)),
                Err(e) => Err(e),
            },
            Err(e) => Err(e),
        },
    }
}

/// What serializing the array items from `i` on emits.
pub open spec fn spec_ser_items(
    xs: Seq<LuaValue>,
    i: int,
    depth: int,
    refs: Seq<Seq<u8>>,
) -> Result<(Seq<u8>, Seq<Seq<u8>>), SerializationError>
    decreases depth, 0int, xs.len() - i,
{
    if i < 0 || i >= xs.len() {
        Ok((Seq::empty(), refs))
    } else if depth <= 1 {
        Err(SerializationError::RecursionLimitExceeded)
    } else {
        match spec_ser_value(xs[i], depth - 1, refs) {
            Ok((item, refs2)) => match spec_ser_items(xs, i + 1, depth, refs2) {
                Ok((rest, refs3)) => Ok((item + rest, refs3)),
                Err(e) => Err(e),
            },
            Err(e) => Err(e),
        }
    }
}

/// What serializing the table entries from `i` on emits.
pub open spec fn spec_ser_entries(
    ps: Seq<(LuaMapKey, LuaValue)>,
    i: int,
    depth: int,
    refs: Seq<Seq<u8>>,
) -> Result<(Seq<u8>, Seq<Seq<u8>>), SerializationError>
    decreases depth, 0int, ps.len() - i,
{
    if i < 0 || i >= ps.len() {
        Ok((Seq::empty(), refs))
    } else if depth <= 1 {
        Err(SerializationError::RecursionLimitExceeded)
    } else {
        match spec_ser_value(ps[i].0.spec_value(), depth - 1, refs) {
            Ok((key, refs2)) => match spec_ser_value(ps[i].1, depth - 1, refs2) {
                Ok((value, refs3)) => match spec_ser_entries(ps, i + 1, depth, refs3) {
                    Ok((rest, refs4)) => Ok((key + value + rest, refs4)),
                    Err(e) => Err(e),
                },
                Err(e) => Err(e),
            },
            Err(e) => Err(e),
        }
    }
}

/// What serializing one top-level value emits: the version byte, then the
/// value.
pub open spec fn spec_v2_serialize(v: LuaValue) -> Result<Seq<u8>, SerializationError> {
    match spec_ser_value(v, RECURSION_LIMIT as int, Seq::empty()) {
        Ok((body, _refs)) => Ok(seq![FORMAT_VERSION] + body),
        Err(e) => Err(e),
    }
}

/// A structure for serializing values into the binary format.
pub struct Serializer {
    remaining_depth: usize,
    result: Vec<u8>,
    string_refs: Vec<Vec<u8>>,
}

impl Serializer {
    /// The emitted-strings table, as byte sequences.
    pub closed spec fn spec_refs(&self) -> Seq<Seq<u8>> {
        self.string_refs@.map_values(|s: Vec<u8>| s@)
    }

    /// Serialize a single value, preceded by the version byte.
    ///
    /// `approximate_len` merely pre-sizes the output buffer.
    pub fn serialize_one(value: &LuaValue, approximate_len: Option<usize>) -> (r: Result<
        Vec<u8>,
        SerializationError,
    >)
        ensures
            match spec_v2_serialize(*value) {
                Ok(s) => r matches Ok(v) && v@ == s,
                Err(e) => r == Err::<Vec<u8>, SerializationError>(e),
            },
    {
        let capacity = match approximate_len {
            Some(c) => c,
            None => 1024,
        };
        let mut ser = Serializer {
            remaining_depth: RECURSION_LIMIT,
            result: Vec::with_capacity(capacity),
            string_refs: Vec::new(),
        };
        proof {
            assert(ser.spec_refs() =~= Seq::<Seq<u8>>::empty());
        }
        ser.result.push(FORMAT_VERSION);
        match ser.serialize_helper(value) {
            Ok(_) => (),
            Err(e) => {
                return Err(e);
            },
        }
        proof {
            assert(ser.result@ =~= seq![FORMAT_VERSION] + spec_ser_value(
                *value,
                RECURSION_LIMIT as int,
                Seq::empty(),
            ).unwrap().0);
        }
        Ok(ser.result)
    }

    /// Append the serialization of `v` to the output.
    fn serialize_helper(&mut self, v: &LuaValue) -> (r: Result<(), SerializationError>)
        requires
            1 <= old(self).remaining_depth,
        ensures
            match spec_ser_value(*v, old(self).remaining_depth as int, old(self).spec_refs()) {
                Ok(p) => r is Ok && final(self).result@ == old(self).result@ + p.0 && final(self).spec_refs() == p.1 && final(self).remaining_depth == old(self).remaining_depth,
                Err(e) => r == Err::<(), SerializationError>(e),
            },
        decreases old(self).remaining_depth, 1int, 0int,
    {
        match v {
            LuaValue::Null => {
                self.result.push(0);
                proof {
                    assert(self.result@ =~= old(self).result@ + seq![0u8]);
                }
                Ok(())
            },
            LuaValue::Boolean(b) => {
                if *b {
                    self.result.push(96);
                    proof {
                        assert(self.result@ =~= old(self).result@ + seq![96u8]);
                    }
                } else {
                    self.result.push(104);
                    proof {
                        assert(self.result@ =~= old(self).result@ + seq![104u8]);
                    }
                }
                Ok(())
            },
            LuaValue::Number(b) => {
                self.serialize_number(*b);
                Ok(())
            },
            LuaValue::String(s) => self.serialize_string(s),
            LuaValue::Array(xs) => {
                let n = xs.len();
                match self.push_header(n, 2, 20) {
                    Ok(_) => (),
                    Err(_) => {
                        return Err(SerializationError::ArrayIsTooLarge);
                    },
                }
                let ghost mark = self.result@;
                let ghost refs0 = self.spec_refs();
                let mut i: usize = 0;
                proof {
                    assert(self.result@.skip(mark.len() as int) =~= Seq::<u8>::empty());
                    if spec_ser_items(xs@, 0, self.remaining_depth as int, refs0) is Ok {
                        let p = spec_ser_items(xs@, 0, self.remaining_depth as int, refs0).unwrap();
                        assert(Seq::<u8>::empty() + p.0 =~= p.0);
                    }
                    assert(self.result@.take(mark.len() as int) =~= mark);
                }
                while i < n
                    invariant
                        *v == LuaValue::Array(*xs),
                        0 <= i <= n,
                        n == xs@.len(),
                        1 <= self.remaining_depth == old(self).remaining_depth,
                        refs0 == old(self).spec_refs(),
                        spec_v2_header(
                            xs@.len() as int,
                            2,
                            20,
                            SerializationError::ArrayIsTooLarge,
                        ) is Ok,
                        mark == old(self).result@ + spec_v2_header(
                            xs@.len() as int,
                            2,
                            20,
                            SerializationError::ArrayIsTooLarge,
                        ).unwrap(),
                        spec_ser_items(xs@, 0, self.remaining_depth as int, refs0) == (
                        match spec_ser_items(
                            xs@,
                            i as int,
                            self.remaining_depth as int,
                            self.spec_refs(),
                        ) {
                            Ok(p) => Ok::<(Seq<u8>, Seq<Seq<u8>>), SerializationError>(
                                (self.result@.skip(mark.len() as int) + p.0, p.1),
                            ),
                            Err(e) => Err(e),
                        }),
                        self.result@.len() >= mark.len(),
                        self.result@.take(mark.len() as int) == mark,
                    decreases n - i,
                {
                    let ghost emitted0 = self.result@.skip(mark.len() as int);
                    let ghost refs_i = self.spec_refs();
                    self.remaining_depth = self.remaining_depth - 1;
                    if self.remaining_depth == 0 {
                        proof {
                            let d = old(self).remaining_depth as int;
                            assert(spec_ser_items(xs@, i as int, d, refs_i) == Err::<
                                (Seq<u8>, Seq<Seq<u8>>),
                                SerializationError,
                            >(SerializationError::RecursionLimitExceeded));
                        }
                        return Err(SerializationError::RecursionLimitExceeded);
                    }
                    match self.serialize_helper(&xs[i]) {
                        Ok(_) => (),
                        Err(e) => {
                            proof {
                                let d = old(self).remaining_depth as int;
                                assert(spec_ser_value(xs@[i as int], d - 1, refs_i) == Err::<
                                    (Seq<u8>, Seq<Seq<u8>>),
                                    SerializationError,
                                >(e));
                                assert(spec_ser_items(xs@, i as int, d, refs_i) == Err::<
                                    (Seq<u8>, Seq<Seq<u8>>),
                                    SerializationError,
                                >(e));
                            }
                            return Err(e);
                        },
                    }
                    self.remaining_depth = self.remaining_depth + 1;
                    proof {
                        let d = self.remaining_depth as int;
                        assert(spec_ser_value(xs@[i as int], d - 1, refs_i) is Ok);
                        let p = spec_ser_value(xs@[i as int], d - 1, refs_i).unwrap();
                        assert(self.result@.skip(mark.len() as int) =~= emitted0 + p.0);
                        assert(spec_ser_items(xs@, i as int, d, refs_i) == (
                        match spec_ser_items(xs@, i as int + 1, d, p.1) {
                            Ok(q) => Ok::<(Seq<u8>, Seq<Seq<u8>>), SerializationError>(
                                (p.0 + q.0, q.1),
                            ),
                            Err(e) => Err(e),
                        }));
                        if spec_ser_items(xs@, i as int + 1, d, p.1) is Ok {
                            let q = spec_ser_items(xs@, i as int + 1, d, p.1).unwrap();
                            assert(emitted0 + (p.0 + q.0) =~= (emitted0 + p.0) + q.0);
                        }
                        assert(self.result@.take(mark.len() as int) =~= mark);
                    }
                    i = i + 1;
                }
                proof {
                    let d = self.remaining_depth as int;
                    let emitted = self.result@.skip(mark.len() as int);
                    assert(spec_ser_items(xs@, i as int, d, self.spec_refs()) == Ok::<
                        (Seq<u8>, Seq<Seq<u8>>),
                        SerializationError,
                    >((Seq::empty(), self.spec_refs())));
                    assert(emitted + Seq::<u8>::empty() =~= emitted);
                    assert(self.result@ =~= self.result@.take(mark.len() as int)
                        + self.result@.skip(mark.len() as int));
                    let header = spec_v2_header(
                        xs@.len() as int,
                        2,
                        20,
                        SerializationError::ArrayIsTooLarge,
                    ).unwrap();
                    assert(self.result@ =~= old(self).result@ + (header + emitted));
                }
                Ok(())
            },
            LuaValue::Table(ps) => {
                let n = ps.len();
                match self.push_header(n, 1, 17) {
                    Ok(_) => (),
                    Err(_) => {
                        return Err(SerializationError::MapIsTooLarge);
                    },
                }
                let ghost mark = self.result@;
                let ghost refs0 = self.spec_refs();
                let mut i: usize = 0;
                proof {
                    assert(self.result@.skip(mark.len() as int) =~= Seq::<u8>::empty());
                    if spec_ser_entries(ps@, 0, self.remaining_depth as int, refs0) is Ok {
                        let p = spec_ser_entries(
                            ps@,
                            0,
                            self.remaining_depth as int,
                            refs0,
                        ).unwrap();
                        assert(Seq::<u8>::empty() + p.0 =~= p.0);
                    }
                    assert(self.result@.take(mark.len() as int) =~= mark);
                }
                while i < n
                    invariant
                        *v == LuaValue::Table(*ps),
                        0 <= i <= n,
                        n == ps@.len(),
                        1 <= self.remaining_depth == old(self).remaining_depth,
                        refs0 == old(self).spec_refs(),
                        spec_v2_header(
                            ps@.len() as int,
                            1,
                            17,
                            SerializationError::MapIsTooLarge,
                        ) is Ok,
                        mark == old(self).result@ + spec_v2_header(
                            ps@.len() as int,
                            1,
                            17,
                            SerializationError::MapIsTooLarge,
                        ).unwrap(),
                        spec_ser_entries(ps@, 0, self.remaining_depth as int, refs0) == (
                        match spec_ser_entries(
                            ps@,
                            i as int,
                            self.remaining_depth as int,
                            self.spec_refs(),
                        ) {
                            Ok(p) => Ok::<(Seq<u8>, Seq<Seq<u8>>), SerializationError>(
                                (self.result@.skip(mark.len() as int) + p.0, p.1),
                            ),
                            Err(e) => Err(e),
                        }),
                        self.result@.len() >= mark.len(),
                        self.result@.take(mark.len() as int) == mark,
                    decreases n - i,
                {
                    let ghost emitted0 = self.result@.skip(mark.len() as int);
                    let ghost refs_i = self.spec_refs();
                    self.remaining_depth = self.remaining_depth - 1;
                    if self.remaining_depth == 0 {
                        proof {
                            let d = old(self).remaining_depth as int;
                            assert(spec_ser_entries(ps@, i as int, d, refs_i) == Err::<
                                (Seq<u8>, Seq<Seq<u8>>),
                                SerializationError,
                            >(SerializationError::RecursionLimitExceeded));
                        }
                        return Err(SerializationError::RecursionLimitExceeded);
                    }
                    let pair = &ps[i];
                    match self.serialize_helper(pair.0.as_value()) {
                        Ok(_) => (),
                        Err(e) => {
                            proof {
                                let d = old(self).remaining_depth as int;
                                assert(spec_ser_value(ps@[i as int].0.spec_value(), d - 1, refs_i)
                                    == Err::<(Seq<u8>, Seq<Seq<u8>>), SerializationError>(e));
                                assert(spec_ser_entries(ps@, i as int, d, refs_i) == Err::<
                                    (Seq<u8>, Seq<Seq<u8>>),
                                    SerializationError,
                                >(e));
                            }
                            return Err(e);
                        },
                    }
                    let ghost refs_k = self.spec_refs();
                    match self.serialize_helper(&pair.1) {
                        Ok(_) => (),
                        Err(e) => {
                            proof {
                                let d = old(self).remaining_depth as int;
                                assert(spec_ser_value(ps@[i as int].1, d - 1, refs_k) == Err::<
                                    (Seq<u8>, Seq<Seq<u8>>),
                                    SerializationError,
                                >(e));
                                assert(spec_ser_entries(ps@, i as int, d, refs_i) == Err::<
                                    (Seq<u8>, Seq<Seq<u8>>),
                                    SerializationError,
                                >(e));
                            }
                            return Err(e);
                        },
                    }
                    self.remaining_depth = self.remaining_depth + 1;
                    proof {
                        let d = self.remaining_depth as int;
                        assert(spec_ser_value(ps@[i as int].0.spec_value(), d - 1, refs_i) is Ok);
                        let p = spec_ser_value(ps@[i as int].0.spec_value(), d - 1, refs_i).unwrap();
                        assert(spec_ser_value(ps@[i as int].1, d - 1, p.1) is Ok);
                        let q = spec_ser_value(ps@[i as int].1, d - 1, p.1).unwrap();
                        assert(self.result@.skip(mark.len() as int) =~= emitted0 + (p.0 + q.0));
                        assert(spec_ser_entries(ps@, i as int, d, refs_i) == (
                        match spec_ser_entries(ps@, i as int + 1, d, q.1) {
                            Ok(w) => Ok::<(Seq<u8>, Seq<Seq<u8>>), SerializationError>(
                                (p.0 + q.0 + w.0, w.1),
                            ),
                            Err(e) => Err(e),
                        }));
                        if spec_ser_entries(ps@, i as int + 1, d, q.1) is Ok {
                            let w = spec_ser_entries(ps@, i as int + 1, d, q.1).unwrap();
                            assert(emitted0 + (p.0 + q.0 + w.0) =~= (emitted0 + (p.0 + q.0))
                                + w.0);
                        }
                        assert(self.result@.take(mark.len() as int) =~= mark);
                    }
                    i = i + 1;
                }
                proof {
                    let d = self.remaining_depth as int;
                    let emitted = self.result@.skip(mark.len() as int);
                    assert(spec_ser_entries(ps@, i as int, d, self.spec_refs()) == Ok::<
                        (Seq<u8>, Seq<Seq<u8>>),
                        SerializationError,
                    >((Seq::empty(), self.spec_refs())));
                    assert(emitted + Seq::<u8>::empty() =~= emitted);
                    assert(self.result@ =~= self.result@.take(mark.len() as int)
                        + self.result@.skip(mark.len() as int));
                    let header = spec_v2_header(
                        ps@.len() as int,
                        1,
                        17,
                        SerializationError::MapIsTooLarge,
                    ).unwrap();
                    assert(self.result@ =~= old(self).result@ + (header + emitted));
                }
                Ok(())
            },
        }
    }

    /// Append a container header for `len` entries.
    fn push_header(&mut self, len: usize, base_embedded: u8, base_tag: u8) -> (r: Result<(), ()>)
        requires
            base_embedded <= 2,
            base_tag <= 20,
        ensures
            final(self).remaining_depth == old(self).remaining_depth,
            final(self).spec_refs() == old(self).spec_refs(),
            match spec_v2_header(
                len as int,
                base_embedded as int,
                base_tag as int,
                SerializationError::RecursionLimitExceeded,
            ) {
                Ok(h) => r is Ok && final(self).result@ == old(self).result@ + h,
                Err(_) => r is Err && *final(self) == *old(self),
            },
    {
        if len < 16 {
            self.result.push((len as u8) * 16 + base_embedded * 4 + 2);
            proof {
                assert(self.result@ =~= old(self).result@ + seq![
                    ((len as int) * 16 + base_embedded * 4 + 2) as u8,
                ]);
            }
            Ok(())
        } else if len <= 0xff {
            self.result.push(base_tag * 8);
            push_be(len as u64, 1, &mut self.result);
            proof {
                assert(self.result@ =~= old(self).result@ + (seq![((base_tag as int) * 8) as u8]
                    + spec_be_bytes(len as int, 1)));
            }
            Ok(())
        } else if len <= 0xffff {
            self.result.push((base_tag + 1) * 8);
            push_be(len as u64, 2, &mut self.result);
            proof {
                assert(self.result@ =~= old(self).result@ + (seq![
                    (((base_tag as int) + 1) * 8) as u8,
                ] + spec_be_bytes(len as int, 2)));
            }
            Ok(())
        } else if len <= 0xffffff {
            self.result.push((base_tag + 2) * 8);
            push_be(len as u64, 3, &mut self.result);
            proof {
                assert(self.result@ =~= old(self).result@ + (seq![
                    (((base_tag as int) + 2) * 8) as u8,
                ] + spec_be_bytes(len as int, 3)));
            }
            Ok(())
        } else {
            Err(())
        }
    }

    /// Append the serialization of the number `b`.
    fn serialize_number(&mut self, b: u64)
        ensures
            final(self).result@ == old(self).result@ + spec_v2_number(b),
            final(self).remaining_depth == old(self).remaining_depth,
            final(self).spec_refs() == old(self).spec_refs(),
    {
        if is_nan_bits(b) {
            self.result.push(72);
            push_be(0x7ff8000000000000, 8, &mut self.result);
            proof {
                assert(self.result@ =~= old(self).result@ + (seq![72u8] + spec_be_bytes(
                    0x7ff8000000000000,
                    8,
                )));
            }
            return ;
        }
        let as_int = bits_to_int(b);
        match as_int {
            Some(n) if -0xffffffffffffff <= n && n <= 0xffffffffffffff => {
                self.serialize_int(n);
            },
            _ => {
                self.result.push(72);
                push_be(b, 8, &mut self.result);
                proof {
                    assert(self.result@ =~= old(self).result@ + (seq![72u8] + spec_be_bytes(
                        b as int,
                        8,
                    )));
                }
            },
        }
    }

    /// Append the serialization of an integer of magnitude below `2^56`.
    fn serialize_int(&mut self, n: i64)
        requires
            -0xffffffffffffff <= n <= 0xffffffffffffff,
        ensures
            final(self).result@ == old(self).result@ + spec_v2_int(n as int),
            final(self).remaining_depth == old(self).remaining_depth,
            final(self).spec_refs() == old(self).spec_refs(),
    {
        if n >= 0 && n < 128 {
            self.result.push((n as u8) * 2 + 1);
            proof {
                assert(self.result@ =~= old(self).result@ + seq![((n as int) * 2 + 1) as u8]);
            }
        } else if n > -4096 && n < 4096 {
            let mag: u16 = if n < 0 {
                (-n) as u16
            } else {
                n as u16
            };
            let packed: u16 = mag * 16 + if n < 0 {
                8
            } else {
                0
            } + 4;
            self.result.push((packed % 256) as u8);
            self.result.push((packed / 256) as u8);
            proof {
                assert(self.result@ =~= old(self).result@ + spec_v2_int(n as int));
            }
        } else {
            let mag: u64 = if n < 0 {
                (-n) as u64
            } else {
                n as u64
            };
            let w = required_bytes(mag);
            let tag: u8 = if w == 2 {
                1
            } else if w == 3 {
                3
            } else if w == 4 {
                5
            } else {
                7
            };
            let neg: u8 = if n < 0 {
                1
            } else {
                0
            };
            self.result.push((tag + neg) * 8);
            push_be(mag, w, &mut self.result);
            proof {
                assert(self.result@ =~= old(self).result@ + spec_v2_int(n as int));
            }
        }
    }

    /// Append the serialization of the string `s`, tracking repeats.
    fn serialize_string(&mut self, s: &Vec<u8>) -> (r: Result<(), SerializationError>)
        ensures
            match spec_v2_string(s@, old(self).spec_refs()) {
                Ok(p) => r is Ok && final(self).result@ == old(self).result@ + p.0 && final(self).spec_refs() == p.1 && final(self).remaining_depth == old(self).remaining_depth,
                Err(e) => r == Err::<(), SerializationError>(e),
            },
    {
        let ghost refs0 = self.spec_refs();
        // Look the string up among the emitted ones.
        let count = self.string_refs.len();
        let mut j: usize = 0;
        let mut found: Option<usize> = None;
        while j < count
            invariant
                0 <= j <= count,
                count == self.string_refs@.len(),
                refs0 == self.spec_refs(),
                self.string_refs@.len() == refs0.len(),
                found is None ==> forall|t: int| 0 <= t < j ==> refs0[t] != s@,
                match found {
                    Some(f) => {
                        &&& 0 <= f < refs0.len()
                        &&& refs0[f as int] == s@
                        &&& forall|t: int| 0 <= t < f ==> refs0[t] != s@
                        &&& spec_refs_find(refs0, s@) == f
                    },
                    None => true,
                },
                found is Some ==> j == count,
            decreases count - j + (if found is None {
                1int
            } else {
                0int
            }),
        {
            if crate::lua_value::bytes_eq(&self.string_refs[j], s) {
                proof {
                    lemma_refs_find_at(refs0, s@, j as int);
                }
                found = Some(j);
                j = count;
            } else {
                j = j + 1;
            }
        }
        match found {
            Some(f) => {
                proof {
                    assert(spec_refs_find(refs0, s@) == f);
                }
                let index = f as u64 + 1;
                let w = required_bytes(index);
                if w == 1 {
                    self.result.push(208);
                    push_be(index, 1, &mut self.result);
                    proof {
                        assert(self.result@ =~= old(self).result@ + (seq![208u8] + spec_be_bytes(
                            index as int,
                            1,
                        )));
                    }
                    Ok(())
                } else if w == 2 {
                    self.result.push(216);
                    push_be(index, 2, &mut self.result);
                    proof {
                        assert(self.result@ =~= old(self).result@ + (seq![216u8] + spec_be_bytes(
                            index as int,
                            2,
                        )));
                    }
                    Ok(())
                } else if w == 3 {
                    self.result.push(224);
                    push_be(index, 3, &mut self.result);
                    proof {
                        assert(self.result@ =~= old(self).result@ + (seq![224u8] + spec_be_bytes(
                            index as int,
                            3,
                        )));
                    }
                    Ok(())
                } else {
                    Err(SerializationError::TooManyUniqueStrings)
                }
            },
            None => {
                proof {
                    lemma_refs_find_none(refs0, s@);
                }
                let len = s.len();
                if len < 16 {
                    self.result.push((len as u8) * 16 + 2);
                } else if len <= 0xff {
                    self.result.push(112);
                    push_be(len as u64, 1, &mut self.result);
                } else if len <= 0xffff {
                    self.result.push(120);
                    push_be(len as u64, 2, &mut self.result);
                } else if len <= 0xffffff {
                    self.result.push(128);
                    push_be(len as u64, 3, &mut self.result);
                } else {
                    return Err(SerializationError::StringIsTooLarge);
                }
                let mut i: usize = 0;
                let ghost header_done = self.result@;
                while i < len
                    invariant
                        0 <= i <= len,
                        len == s@.len(),
                        refs0 == self.spec_refs(),
                        self.remaining_depth == old(self).remaining_depth,
                        self.result@ == header_done + s@.take(i as int),
                    decreases len - i,
                {
                    self.result.push(s[i]);
                    proof {
                        assert(self.result@ =~= header_done + s@.take(i as int + 1));
                    }
                    i = i + 1;
                }
                proof {
                    assert(s@.take(len as int) =~= s@);
                }
                if len > 2 {
                    let copy = clone_bytes(s);
                    self.string_refs.push(copy);
                    proof {
                        assert(self.spec_refs() =~= refs0.push(s@));
                    }
                }
                proof {
                    let p = spec_v2_string(s@, refs0).unwrap();
                    assert(self.result@ =~= old(self).result@ + p.0);
                }
                Ok(())
            },
        }
    }
}

/// Copy a byte string.
fn clone_bytes(s: &Vec<u8>) -> (r: Vec<u8>)
    ensures
        r@ == s@,
{
    let mut out: Vec<u8> = Vec::new();
    let n = s.len();
    let mut i: usize = 0;
    while i < n
        invariant
            0 <= i <= n,
            n == s@.len(),
            out@ == s@.take(i as int),
        decreases n - i,
    {
        out.push(s[i]);
        proof {
            assert(out@ =~= s@.take(i as int + 1));
        }
        i = i + 1;
    }
    proof {
        assert(s@.take(n as int) =~= s@);
    }
    out
}

/// If the strings before `f` all differ from `s` and entry `f` matches,
/// `f` is the position `spec_refs_find` names.
proof fn lemma_refs_find_at(refs: Seq<Seq<u8>>, s: Seq<u8>, f: int)
    requires
        0 <= f < refs.len(),
        refs[f] == s,
        forall|t: int| 0 <= t < f ==> refs[t] != s,
    ensures
        spec_refs_find(refs, s) == f,
    decreases f,
{
    if f > 0 {
        lemma_refs_find_at(refs.drop_first(), s, f - 1);
    }
}

/// If no emitted string equals `s`, `spec_refs_find` comes back negative.
proof fn lemma_refs_find_none(refs: Seq<Seq<u8>>, s: Seq<u8>)
    requires
        forall|t: int| 0 <= t < refs.len() ==> refs[t] != s,
    ensures
        spec_refs_find(refs, s) == -1,
    decreases refs.len(),
{
    if refs.len() > 0 {
        lemma_refs_find_none(refs.drop_first(), s);
    }
}

} // verus!
