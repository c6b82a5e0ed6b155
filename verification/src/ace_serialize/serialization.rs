//! Serialization into the textual format.

use vstd::prelude::*;

use crate::ace_serialize::error::SerializationError;
use crate::lua_value::{LuaMapKey, LuaValue};
use crate::numbers::{
    bits_to_int, format_uint, is_nan_bits, spec_dec_digits, spec_int_of_bits, spec_is_nan,
    spec_mantissa_exp, INFINITY_BITS, NEG_INFINITY_BITS,
};

verus! {

/// The recursion limit of the format: at most this many nested tables.
pub const RECURSION_LIMIT: usize = 128;

/// How a byte of a string body is written: bytes below `0x21`, `^`, `~`
/// and `0x7f` become two-byte `~X` escapes, everything else stands as is.
pub open spec fn spec_escape_byte(b: u8) -> Seq<u8> {
    if b <= 0x1d {
        seq![0x7eu8, (b + 0x40) as u8]
    } else if b == 0x1e {
        seq![0x7eu8, 0x7au8]
    } else if b == 0x1f || b == 0x20 {
        seq![0x7eu8, (b + 0x40) as u8]
    } else if b == 0x5e {
        seq![0x7eu8, 0x7du8]
    } else if b == 0x7e {
        seq![0x7eu8, 0x7cu8]
    } else if b == 0x7f {
        seq![0x7eu8, 0x7bu8]
    } else {
        seq![b]
    }
}

/// The escape-encoded form of a whole string body.
pub open spec fn spec_escape_seq(s: Seq<u8>) -> Seq<u8>
    decreases s.len(),
{
    if s.len() == 0 {
        Seq::empty()
    } else {
        spec_escape_byte(s[0]) + spec_escape_seq(s.skip(1))
    }
}

/// The decimal digits of `n` with a leading `-` when `neg` holds.
pub open spec fn spec_signed_dec(neg: bool, n: int) -> Seq<u8> {
    if neg {
        seq![0x2du8] + spec_dec_digits(n)
    } else {
        spec_dec_digits(n)
    }
}

/// How a number is written: NaNs are refused; infinities become `^Ninf` /
/// `^N-inf`; integers of magnitude below `2^53` become plain decimal
/// `^N` tokens; everything else becomes the exact `^F mantissa ^f scale`
/// pair, both parts integers.
pub open spec fn spec_v1_number(b: u64) -> Result<Seq<u8>, SerializationError> {
    if spec_is_nan(b) {
        Err(SerializationError::NanEncountered)
    } else if b == INFINITY_BITS {
        Ok(seq![0x5eu8, 0x4eu8, 0x69u8, 0x6eu8, 0x66u8])
    } else if b == NEG_INFINITY_BITS {
        Ok(seq![0x5eu8, 0x4eu8, 0x2du8, 0x69u8, 0x6eu8, 0x66u8])
    } else {
        match spec_int_of_bits(b) {
            Some(n) => if -0x20000000000000 < n < 0x20000000000000 {
                Ok(
                    seq![0x5eu8, 0x4eu8] + spec_signed_dec(
                        n < 0,
                        if n < 0 {
                            -n
                        } else {
                            n
                        },
                    ),
                )
            } else {
                Ok(spec_v1_float(b))
            },
            None => Ok(spec_v1_float(b)),
        }
    }
}

/// The `^F mantissa ^f scale` form of a finite non-zero number: the value
/// is exactly `mantissa * 2^scale`.
pub open spec fn spec_v1_float(b: u64) -> Seq<u8> {
    let m = spec_mantissa_exp(b).0;
    let e = spec_mantissa_exp(b).1;
    seq![0x5eu8, 0x46u8] + spec_signed_dec(b >= 0x8000000000000000, m as int) + seq![
        0x5eu8,
        0x66u8,
    ] + spec_signed_dec(e < 0, if e < 0 {
        -e as int
    } else {
        e as int
    })
}

/// What serializing `v` with `depth` levels of budget emits.
pub open spec fn spec_ser_value(v: LuaValue, depth: int) -> Result<Seq<u8>, SerializationError>
    decreases depth, 1int, 0int,
{
    match v {
        LuaValue::Null => Ok(seq![0x5eu8, 0x5au8]),
        LuaValue::Boolean(true) => Ok(seq![0x5eu8, 0x42u8]),
        LuaValue::Boolean(false) => Ok(seq![0x5eu8, 0x62u8]),
        LuaValue::String(s) => Ok(seq![0x5eu8, 0x53u8] + spec_escape_seq(s@)),
        LuaValue::Number(b) => spec_v1_number(b),
        LuaValue::Array(xs) => match spec_ser_array_items(xs@, 0, depth) {
            Ok(body) => Ok(seq![0x5eu8, 0x54u8] + body + seq![0x5eu8, 0x74u8]),
            Err(e) => Err(e),
        },
        LuaValue::Table(ps) => match spec_ser_entries(ps@, 0, depth) {
            Ok(body) => Ok(seq![0x5eu8, 0x54u8] + body + seq![0x5eu8, 0x74u8]),
            Err(e) => Err(e),
        },
    }
}

/// What serializing the array items from `i` on emits: each item is keyed
/// by its one-based index.
pub open spec fn spec_ser_array_items(xs: Seq<LuaValue>, i: int, depth: int) -> Result<
    Seq<u8>,
    SerializationError,
>
    decreases depth, 0int, xs.len() - i,
{
    if i < 0 || i >= xs.len() {
        Ok(Seq::empty())
    } else if depth <= 1 {
        Err(SerializationError::RecursionLimitExceeded)
    } else {
        let key = seq![0x5eu8, 0x4eu8] + spec_dec_digits(i + 1);
        match spec_ser_value(xs[i], depth - 1) {
            Ok(item) => match spec_ser_array_items(xs, i + 1, depth) {
                Ok(rest) => Ok(key + item + rest),
                Err(e) => Err(e),
            },
            Err(e) => Err(e),
        }
    }
}

/// What serializing the table entries from `i` on emits.
pub open spec fn spec_ser_entries(
    ps: Seq<(LuaMapKey, LuaValue)>,
    i: int,
    depth: int,
) -> Result<Seq<u8>, SerializationError>
    decreases depth, 0int, ps.len() - i,
{
    if i < 0 || i >= ps.len() {
        Ok(Seq::empty())
    } else if depth <= 1 {
        Err(SerializationError::RecursionLimitExceeded)
    } else {
        match spec_ser_value(ps[i].0.spec_value(), depth - 1) {
            Ok(key) => match spec_ser_value(ps[i].1, depth - 1) {
                Ok(value) => match spec_ser_entries(ps, i + 1, depth) {
                    Ok(rest) => Ok(key + value + rest),
                    Err(e) => Err(e),
                },
                Err(e) => Err(e),
            },
            Err(e) => Err(e),
        }
    }
}

/// What serializing one top-level value emits: a `^1` prefix, the value,
/// and the `^^` terminator.
pub open spec fn spec_v1_serialize(v: LuaValue) -> Result<Seq<u8>, SerializationError> {
    match spec_ser_value(v, RECURSION_LIMIT as int) {
        Ok(body) => Ok(seq![0x5eu8, 0x31u8] + body + seq![0x5eu8, 0x5eu8]),
        Err(e) => Err(e),
    }
}

/// Escaping is undone by unescaping: each escaped byte decodes back to
/// the byte it stands for.
proof fn lemma_unescape_escape(b: u8)
    ensures
        ({
            let e = spec_escape_byte(b);
            if e.len() == 2 {
                e[0] == 0x7e && crate::ace_serialize::reader::spec_unescape_char(e[1]) == Some(b)
            } else {
                e == seq![b] && b != 0x5e && b != 0x7e
            }
        }),
{
}

/// String bodies round-trip: parsing an escape-encoded body followed by
/// anything that opens with the `^` terminator gives back the original
/// bytes, having consumed exactly the encoded body.
pub proof fn lemma_escape_round_trip(s: Seq<u8>, tail: Seq<u8>)
    requires
        tail.len() >= 1,
        tail[0] == 0x5e,
    ensures
        crate::ace_serialize::reader::spec_parse_str(spec_escape_seq(s) + tail) == Ok::<
            (Seq<u8>, int),
            crate::ace_serialize::error::DeserializationError,
        >((s, spec_escape_seq(s).len() as int)),
    decreases s.len(),
{
    let whole = spec_escape_seq(s) + tail;
    if s.len() == 0 {
        assert(whole =~= tail);
        assert(Seq::<u8>::empty() =~= s);
    } else {
        let b = s[0];
        let rest = s.skip(1);
        lemma_unescape_escape(b);
        lemma_escape_round_trip(rest, tail);
        let e = spec_escape_byte(b);
        let rest_whole = spec_escape_seq(rest) + tail;
        if e.len() == 2 {
            assert(whole.len() >= 3);
            assert(whole[0] == 0x7e && whole[1] == e[1]);
            assert(whole.skip(2) =~= rest_whole);
            assert(seq![b] + rest =~= s);
        } else {
            assert(whole[0] == b && b != 0x5e && b != 0x7e);
            assert(whole.skip(1) =~= rest_whole);
            assert(seq![b] + rest =~= s);
        }
    }
}

/// Strings round-trip through the wire format: a serialized string is a
/// `^1^S` prefix, the escape-encoded body and the `^^` terminator, and
/// parsing that body back yields exactly the original bytes. Together
/// with the deserializer's contract this pins the whole journey of a
/// string value.
pub proof fn lemma_v1_string_round_trip(v: LuaValue)
    requires
        v is String,
    ensures
        ({
            let b = v->String_0@;
            &&& spec_v1_serialize(v) matches Ok(out)
            &&& spec_v1_serialize(v).unwrap() == seq![0x5eu8, 0x31u8, 0x5eu8, 0x53u8]
                + spec_escape_seq(b) + seq![0x5eu8, 0x5eu8]
            &&& crate::ace_serialize::reader::spec_parse_str(
                spec_v1_serialize(v).unwrap().skip(4),
            ) == Ok::<(Seq<u8>, int), crate::ace_serialize::error::DeserializationError>(
                (b, spec_escape_seq(b).len() as int),
            )
        }),
{
    let b = v->String_0@;
    let body = spec_ser_value(v, RECURSION_LIMIT as int).unwrap();
    assert(body == seq![0x5eu8, 0x53u8] + spec_escape_seq(b));
    let out = spec_v1_serialize(v).unwrap();
    assert(out =~= seq![0x5eu8, 0x31u8, 0x5eu8, 0x53u8] + spec_escape_seq(b) + seq![
        0x5eu8,
        0x5eu8,
    ]);
    assert(out.skip(4) =~= spec_escape_seq(b) + seq![0x5eu8, 0x5eu8]);
    lemma_escape_round_trip(b, seq![0x5eu8, 0x5eu8]);
}

/// Integers round-trip through the wire format: an integral number of
/// magnitude below `2^53` is written as a plain decimal token, and the
/// deserializer's exact integer path reads that token back to the very
/// same bit pattern.
pub proof fn lemma_v1_int_round_trip(n: int)
    requires
        -0x20000000000000 < n < 0x20000000000000,
    ensures
        ({
            let mag = if n < 0 {
                -n
            } else {
                n
            };
            let token = spec_signed_dec(n < 0, mag);
            &&& spec_v1_number(crate::numbers::spec_bits_of_int(n)) == Ok::<
                Seq<u8>,
                SerializationError,
            >(seq![0x5eu8, 0x4eu8] + token)
            &&& crate::ace_serialize::deserialization::spec_int_token_bits(token) == Some(
                crate::numbers::spec_bits_of_int(n),
            )
        }),
{
    let mag = if n < 0 {
        -n
    } else {
        n
    };
    let b = crate::numbers::spec_bits_of_int(n);
    if n != 0 {
        crate::numbers::lemma_int_bits_round_trip(n);
    }
    assert(crate::numbers::spec_int_of_bits(b) == Some(n));
    assert(!spec_is_nan(b) && b != INFINITY_BITS && b != NEG_INFINITY_BITS);
    crate::numbers::lemma_digits_val_of_dec(mag);
    let digits = crate::numbers::spec_dec_digits(mag);
    let token = spec_signed_dec(n < 0, mag);
    if n < 0 {
        assert(token[0] == 0x2d);
        assert(token.skip(1) =~= digits);
        assert(crate::numbers::spec_digits_val(digits) == mag);
    } else {
        assert(token == digits);
        assert(48 <= token[0] <= 57);
        assert(token.len() > 0);
    }
}

/// A structure for serializing values into the textual format.
pub struct Serializer {
    remaining_depth: usize,
    result: Vec<u8>,
}

impl Serializer {
    /// Serialize a single value, `^1`-prefixed and `^^`-terminated.
    ///
    /// `approximate_len` merely pre-sizes the output buffer.
    pub fn serialize_one(value: &LuaValue, approximate_len: Option<usize>) -> (r: Result<
        Vec<u8>,
        SerializationError,
    >)
        ensures
            match spec_v1_serialize(*value) {
                Ok(s) => r matches Ok(v) && v@ == s,
                Err(e) => r == Err::<Vec<u8>, SerializationError>(e),
            },
    {
        let capacity = match approximate_len {
            Some(c) => c,
            None => 1024,
        };
        let mut ser = Serializer { remaining_depth: RECURSION_LIMIT, result: Vec::with_capacity(
            capacity,
        ) };
        ser.result.push(0x5e);
        ser.result.push(0x31);
        match ser.serialize_helper(value) {
            Ok(_) => (),
            Err(e) => {
                return Err(e);
            },
        }
        ser.result.push(0x5e);
        ser.result.push(0x5e);
        proof {
            assert(ser.result@ =~= seq![0x5eu8, 0x31u8] + spec_ser_value(
                *value,
                RECURSION_LIMIT as int,
            ).unwrap() + seq![0x5eu8, 0x5eu8]);
        }
        Ok(ser.result)
    }

    /// Append the serialization of `v` to the output.
    fn serialize_helper(&mut self, v: &LuaValue) -> (r: Result<(), SerializationError>)
        requires
            1 <= old(self).remaining_depth,
        ensures
            match spec_ser_value(*v, old(self).remaining_depth as int) {
                Ok(s) => r is Ok && final(self).result@ == old(self).result@ + s && final(self).remaining_depth == old(self).remaining_depth,
                Err(e) => r == Err::<(), SerializationError>(e),
            },
        decreases old(self).remaining_depth, 1int, 0int,
    {
        match v {
            LuaValue::Null => {
                self.result.push(0x5e);
                self.result.push(0x5a);
                proof {
                    assert(self.result@ =~= old(self).result@ + seq![0x5eu8, 0x5au8]);
                }
                Ok(())
            },
            LuaValue::Boolean(b) => {
                self.result.push(0x5e);
                if *b {
                    self.result.push(0x42);
                    proof {
                        assert(self.result@ =~= old(self).result@ + seq![0x5eu8, 0x42u8]);
                    }
                } else {
                    self.result.push(0x62);
                    proof {
                        assert(self.result@ =~= old(self).result@ + seq![0x5eu8, 0x62u8]);
                    }
                }
                Ok(())
            },
            LuaValue::String(s) => {
                self.result.push(0x5e);
                self.result.push(0x53);
                self.serialize_str_body(s);
                proof {
                    assert(self.result@ =~= old(self).result@ + (seq![0x5eu8, 0x53u8]
                        + spec_escape_seq(s@)));
                }
                Ok(())
            },
            LuaValue::Number(b) => self.serialize_number(*b),
            LuaValue::Array(xs) => {
                self.result.push(0x5e);
                self.result.push(0x54);
                let ghost mark = self.result@;
                let n = xs.len();
                let mut i: usize = 0;
                proof {
                    assert(self.result@.skip(mark.len() as int) =~= Seq::<u8>::empty());
                    if spec_ser_array_items(xs@, 0, self.remaining_depth as int) is Ok {
                        let rest = spec_ser_array_items(xs@, 0, self.remaining_depth as int).unwrap();
                        assert(Seq::<u8>::empty() + rest =~= rest);
                    }
                    assert(self.result@.take(mark.len() as int) =~= mark);
                }
                while i < n
                    invariant
                        *v == LuaValue::Array(*xs),
                        0 <= i <= n,
                        n == xs@.len(),
                        1 <= self.remaining_depth == old(self).remaining_depth,
                        mark == old(self).result@ + seq![0x5eu8, 0x54u8],
                        spec_ser_array_items(xs@, 0, self.remaining_depth as int) == (
                        match spec_ser_array_items(xs@, i as int, self.remaining_depth as int) {
                            Ok(rest) => Ok::<Seq<u8>, SerializationError>(
                                self.result@.skip(mark.len() as int) + rest,
                            ),
                            Err(e) => Err(e),
                        }),
                        self.result@.len() >= mark.len(),
                        self.result@.take(mark.len() as int) == mark,
                    decreases n - i,
                {
                    let ghost emitted0 = self.result@.skip(mark.len() as int);
                    self.remaining_depth = self.remaining_depth - 1;
                    if self.remaining_depth == 0 {
                        proof {
                            let d = old(self).remaining_depth as int;
                            assert(spec_ser_array_items(xs@, i as int, d) == Err::<
                                Seq<u8>,
                                SerializationError,
                            >(SerializationError::RecursionLimitExceeded));
                        }
                        return Err(SerializationError::RecursionLimitExceeded);
                    }
                    self.result.push(0x5e);
                    self.result.push(0x4e);
                    format_uint(i as u64 + 1, &mut self.result);
                    match self.serialize_helper(&xs[i]) {
                        Ok(_) => (),
                        Err(e) => {
                            proof {
                                let d = old(self).remaining_depth as int;
                                assert(spec_ser_value(xs@[i as int], d - 1) == Err::<
                                    Seq<u8>,
                                    SerializationError,
                                >(e));
                                assert(spec_ser_array_items(xs@, i as int, d) == Err::<
                                    Seq<u8>,
                                    SerializationError,
                                >(e));
                            }
                            return Err(e);
                        },
                    }
                    self.remaining_depth = self.remaining_depth + 1;
                    proof {
                        let d = self.remaining_depth as int;
                        assert(spec_ser_value(xs@[i as int], d - 1) is Ok);
                        let item = spec_ser_value(xs@[i as int], d - 1).unwrap();
                        let key = seq![0x5eu8, 0x4eu8] + spec_dec_digits(i as int + 1);
                        assert(self.result@.skip(mark.len() as int) =~= emitted0 + (key + item));
                        assert(spec_ser_array_items(xs@, i as int, d) == (
                        match spec_ser_array_items(xs@, i as int + 1, d) {
                            Ok(rest) => Ok::<Seq<u8>, SerializationError>(key + item + rest),
                            Err(e) => Err(e),
                        }));
                        if spec_ser_array_items(xs@, i as int + 1, d) is Ok {
                            let rest = spec_ser_array_items(xs@, i as int + 1, d).unwrap();
                            assert(emitted0 + (key + item + rest) =~= (emitted0 + (key + item))
                                + rest);
                        }
                        assert(self.result@.take(mark.len() as int) =~= mark);
                    }
                    i = i + 1;
                }
                proof {
                    let d = self.remaining_depth as int;
                    let emitted = self.result@.skip(mark.len() as int);
                    assert(spec_ser_array_items(xs@, i as int, d) == Ok::<
                        Seq<u8>,
                        SerializationError,
                    >(Seq::empty()));
                    assert(emitted + Seq::<u8>::empty() =~= emitted);
                }
                let ghost rb = self.result@;
                self.result.push(0x5e);
                self.result.push(0x74);
                proof {
                    let d = self.remaining_depth as int;
                    let body = spec_ser_array_items(xs@, 0, d).unwrap();
                    assert(rb =~= mark + rb.skip(mark.len() as int));
                    assert(self.result@ =~= old(self).result@ + (seq![0x5eu8, 0x54u8] + body + seq![
                        0x5eu8,
                        0x74u8,
                    ]));
                }
                Ok(())
            },
            LuaValue::Table(ps) => {
                self.result.push(0x5e);
                self.result.push(0x54);
                let ghost mark = self.result@;
                let n = ps.len();
                let mut i: usize = 0;
                proof {
                    assert(self.result@.skip(mark.len() as int) =~= Seq::<u8>::empty());
                    if spec_ser_entries(ps@, 0, self.remaining_depth as int) is Ok {
                        let rest = spec_ser_entries(ps@, 0, self.remaining_depth as int).unwrap();
                        assert(Seq::<u8>::empty() + rest =~= rest);
                    }
                    assert(self.result@.take(mark.len() as int) =~= mark);
                }
                while i < n
                    invariant
                        *v == LuaValue::Table(*ps),
                        0 <= i <= n,
                        n == ps@.len(),
                        1 <= self.remaining_depth == old(self).remaining_depth,
                        mark == old(self).result@ + seq![0x5eu8, 0x54u8],
                        spec_ser_entries(ps@, 0, self.remaining_depth as int) == (
                        match spec_ser_entries(ps@, i as int, self.remaining_depth as int) {
                            Ok(rest) => Ok::<Seq<u8>, SerializationError>(
                                self.result@.skip(mark.len() as int) + rest,
                            ),
                            Err(e) => Err(e),
                        }),
                        self.result@.len() >= mark.len(),
                        self.result@.take(mark.len() as int) == mark,
                    decreases n - i,
                {
                    let ghost emitted0 = self.result@.skip(mark.len() as int);
                    self.remaining_depth = self.remaining_depth - 1;
                    if self.remaining_depth == 0 {
                        proof {
                            let d = old(self).remaining_depth as int;
                            assert(spec_ser_entries(ps@, i as int, d) == Err::<
                                Seq<u8>,
                                SerializationError,
                            >(SerializationError::RecursionLimitExceeded));
                        }
                        return Err(SerializationError::RecursionLimitExceeded);
                    }
                    let pair = &ps[i];
                    match self.serialize_helper(pair.0.as_value()) {
                        Ok(_) => (),
                        Err(e) => {
                            proof {
                                let d = old(self).remaining_depth as int;
                                assert(spec_ser_value(ps@[i as int].0.spec_value(), d - 1) == Err::<
                                    Seq<u8>,
                                    SerializationError,
                                >(e));
                                assert(spec_ser_entries(ps@, i as int, d) == Err::<
                                    Seq<u8>,
                                    SerializationError,
                                >(e));
                            }
                            return Err(e);
                        },
                    }
                    match self.serialize_helper(&pair.1) {
                        Ok(_) => (),
                        Err(e) => {
                            proof {
                                let d = old(self).remaining_depth as int;
                                assert(spec_ser_value(ps@[i as int].1, d - 1) == Err::<
                                    Seq<u8>,
                                    SerializationError,
                                >(e));
                                assert(spec_ser_entries(ps@, i as int, d) == Err::<
                                    Seq<u8>,
                                    SerializationError,
                                >(e));
                            }
                            return Err(e);
                        },
                    }
                    self.remaining_depth = self.remaining_depth + 1;
                    proof {
                        let d = self.remaining_depth as int;
                        assert(spec_ser_value(ps@[i as int].0.spec_value(), d - 1) is Ok);
                        assert(spec_ser_value(ps@[i as int].1, d - 1) is Ok);
                        let key = spec_ser_value(ps@[i as int].0.spec_value(), d - 1).unwrap();
                        let value = spec_ser_value(ps@[i as int].1, d - 1).unwrap();
                        assert(self.result@.skip(mark.len() as int) =~= emitted0 + (key + value));
                        assert(spec_ser_entries(ps@, i as int, d) == (
                        match spec_ser_entries(ps@, i as int + 1, d) {
                            Ok(rest) => Ok::<Seq<u8>, SerializationError>(key + value + rest),
                            Err(e) => Err(e),
                        }));
                        if spec_ser_entries(ps@, i as int + 1, d) is Ok {
                            let rest = spec_ser_entries(ps@, i as int + 1, d).unwrap();
                            assert(emitted0 + (key + value + rest) =~= (emitted0 + (key + value))
                                + rest);
                        }
                        assert(self.result@.take(mark.len() as int) =~= mark);
                    }
                    i = i + 1;
                }
                proof {
                    let d = self.remaining_depth as int;
                    let emitted = self.result@.skip(mark.len() as int);
                    assert(spec_ser_entries(ps@, i as int, d) == Ok::<
                        Seq<u8>,
                        SerializationError,
                    >(Seq::empty()));
                    assert(emitted + Seq::<u8>::empty() =~= emitted);
                }
                let ghost rb = self.result@;
                self.result.push(0x5e);
                self.result.push(0x74);
                proof {
                    let d = self.remaining_depth as int;
                    let body = spec_ser_entries(ps@, 0, d).unwrap();
                    assert(rb =~= mark + rb.skip(mark.len() as int));
                    assert(self.result@ =~= old(self).result@ + (seq![0x5eu8, 0x54u8] + body + seq![
                        0x5eu8,
                        0x74u8,
                    ]));
                }
                Ok(())
            },
        }
    }

    /// Append the escape-encoded body of a string.
    fn serialize_str_body(&mut self, s: &Vec<u8>)
        ensures
            final(self).result@ == old(self).result@ + spec_escape_seq(s@),
            final(self).remaining_depth == old(self).remaining_depth,
    {
        let n = s.len();
        let mut i: usize = 0;
        proof {
            assert(self.result@.skip(old(self).result@.len() as int) =~= Seq::<u8>::empty());
            assert(s@.skip(0) =~= s@);
            assert(Seq::<u8>::empty() + spec_escape_seq(s@) =~= spec_escape_seq(s@));
            assert(self.result@.take(old(self).result@.len() as int) =~= old(self).result@);
        }
        while i < n
            invariant
                0 <= i <= n,
                n == s@.len(),
                self.remaining_depth == old(self).remaining_depth,
                spec_escape_seq(s@) == self.result@.skip(old(self).result@.len() as int)
                    + spec_escape_seq(s@.skip(i as int)),
                self.result@.len() >= old(self).result@.len(),
                self.result@.take(old(self).result@.len() as int) == old(self).result@,
            decreases n - i,
        {
            let ghost emitted0 = self.result@.skip(old(self).result@.len() as int);
            let ghost tail0 = s@.skip(i as int);
            let b = s[i];
            if b <= 0x1d {
                self.result.push(0x7e);
                self.result.push(b + 0x40);
            } else if b == 0x1e {
                self.result.push(0x7e);
                self.result.push(0x7a);
            } else if b == 0x1f || b == 0x20 {
                self.result.push(0x7e);
                self.result.push(b + 0x40);
            } else if b == 0x5e {
                self.result.push(0x7e);
                self.result.push(0x7d);
            } else if b == 0x7e {
                self.result.push(0x7e);
                self.result.push(0x7c);
            } else if b == 0x7f {
                self.result.push(0x7e);
                self.result.push(0x7b);
            } else {
                self.result.push(b);
            }
            proof {
                assert(tail0[0] == s@[i as int]);
                assert(tail0.skip(1) =~= s@.skip(i as int + 1));
                assert(self.result@.skip(old(self).result@.len() as int) =~= emitted0
                    + spec_escape_byte(s@[i as int]));
                assert(emitted0 + (spec_escape_byte(s@[i as int]) + spec_escape_seq(
                    s@.skip(i as int + 1),
                )) =~= (emitted0 + spec_escape_byte(s@[i as int])) + spec_escape_seq(
                    s@.skip(i as int + 1),
                ));
                assert(self.result@.take(old(self).result@.len() as int) =~= old(self).result@);
            }
            i = i + 1;
        }
        proof {
            assert(s@.skip(n as int) =~= Seq::<u8>::empty());
            assert(self.result@ =~= old(self).result@ + self.result@.skip(
                old(self).result@.len() as int,
            ));
        }
    }

    /// Append the serialization of the number `b`.
    fn serialize_number(&mut self, b: u64) -> (r: Result<(), SerializationError>)
        ensures
            match spec_v1_number(b) {
                Ok(s) => r is Ok && final(self).result@ == old(self).result@ + s && final(self).remaining_depth == old(self).remaining_depth,
                Err(e) => r == Err::<(), SerializationError>(e),
            },
    {
        if is_nan_bits(b) {
            return Err(SerializationError::NanEncountered);
        }
        if b == INFINITY_BITS {
            self.result.push(0x5e);
            self.result.push(0x4e);
            self.result.push(0x69);
            self.result.push(0x6e);
            self.result.push(0x66);
            proof {
                assert(self.result@ =~= old(self).result@ + seq![
                    0x5eu8,
                    0x4eu8,
                    0x69u8,
                    0x6eu8,
                    0x66u8,
                ]);
            }
            return Ok(());
        }
        if b == NEG_INFINITY_BITS {
            self.result.push(0x5e);
            self.result.push(0x4e);
            self.result.push(0x2d);
            self.result.push(0x69);
            self.result.push(0x6e);
            self.result.push(0x66);
            proof {
                assert(self.result@ =~= old(self).result@ + seq![
                    0x5eu8,
                    0x4eu8,
                    0x2du8,
                    0x69u8,
                    0x6eu8,
                    0x66u8,
                ]);
            }
            return Ok(());
        }
        let as_int = bits_to_int(b);
        match as_int {
            Some(n) if -0x20000000000000 < n && n < 0x20000000000000 => {
                self.result.push(0x5e);
                self.result.push(0x4e);
                let mag = if n < 0 {
                    self.result.push(0x2d);
                    (-n) as u64
                } else {
                    n as u64
                };
                format_uint(mag, &mut self.result);
                proof {
                    let body = spec_signed_dec(n < 0, if n < 0 {
                        -n as int
                    } else {
                        n as int
                    });
                    assert(self.result@ =~= old(self).result@ + (seq![0x5eu8, 0x4eu8] + body));
                }
                Ok(())
            },
            _ => {
                // The exact mantissa-and-scale form.
                let (m, e) = crate::numbers::mantissa_exp(b);
                self.result.push(0x5e);
                self.result.push(0x46);
                if b >= 0x8000000000000000 {
                    self.result.push(0x2d);
                }
                format_uint(m, &mut self.result);
                self.result.push(0x5e);
                self.result.push(0x66);
                let emag = if e < 0 {
                    self.result.push(0x2d);
                    (-e) as u64
                } else {
                    e as u64
                };
                format_uint(emag, &mut self.result);
                proof {
                    assert(self.result@ =~= old(self).result@ + spec_v1_float(b));
                }
                Ok(())
            },
        }
    }
}

} // verus!
