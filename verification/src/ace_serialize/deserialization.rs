//! Deserialization of the textual format.

use vstd::prelude::*;

use crate::ace_serialize::error::DeserializationError;
use crate::ace_serialize::reader::StrReader;
use crate::lua_value::{spec_map_set, LuaMapKey, LuaValue};
use crate::numbers::spec_num_eq;
use crate::numbers::{
    num_eq, parse_uint, spec_all_digits, spec_bits_of_int, spec_digits_val, uint_to_bits,
    NumberRuntime, INFINITY_BITS, NEG_INFINITY_BITS,
};

verus! {

/// The recursion limit of the format: at most this many nested tables.
pub const RECURSION_LIMIT: usize = 128;

/// The bits of the number a plain token denotes, when the token is a
/// decimal integer literal of magnitude below `2^53` (those the codec
/// converts exactly, without consulting the runtime).
pub open spec fn spec_int_token_bits(s: Seq<u8>) -> Option<u64> {
    let neg = s.len() > 0 && s[0] == 0x2d;
    let ds = if s.len() > 0 && (s[0] == 0x2d || s[0] == 0x2b) {
        s.skip(1)
    } else {
        s
    };
    if ds.len() > 0 && spec_all_digits(ds) && spec_digits_val(ds) < 0x20000000000000 {
        if neg {
            // A negative zero literal keeps its sign, as the standard
            // parse does.
            if spec_digits_val(ds) == 0 {
                Some(0x8000000000000000u64)
            } else {
                Some(spec_bits_of_int(-spec_digits_val(ds)))
            }
        } else {
            Some(spec_bits_of_int(spec_digits_val(ds)))
        }
    } else {
        None
    }
}

/// The position of the first `^` of `s` at or after `from`.
pub open spec fn spec_find_caret(s: Seq<u8>, from: int) -> Option<int>
    decreases s.len() - from,
{
    if from < 0 || from >= s.len() {
        None
    } else if s[from] == 0x5e {
        Some(from)
    } else {
        spec_find_caret(s, from + 1)
    }
}

/// If nothing before `j` is a `^` and `j` holds one, `j` is the position
/// `spec_find_caret` names.
proof fn lemma_find_caret_at(s: Seq<u8>, from: int, j: int)
    requires
        0 <= from <= j < s.len(),
        s[j] == 0x5e,
        forall|k: int| from <= k < j ==> s[k] != 0x5e,
    ensures
        spec_find_caret(s, from) == Some(j),
    decreases j - from,
{
    if from < j {
        lemma_find_caret_at(s, from + 1, j);
    }
}

/// If no `^` follows, `spec_find_caret` comes back empty.
proof fn lemma_find_caret_none(s: Seq<u8>, from: int)
    requires
        0 <= from,
        forall|k: int| from <= k < s.len() ==> s[k] != 0x5e,
    ensures
        spec_find_caret(s, from) is None,
    decreases s.len() - from,
{
    if from < s.len() {
        lemma_find_caret_none(s, from + 1);
    }
}

/// The bits a `^N` token denotes, for the tokens the codec converts
/// without the runtime: the four infinity spellings and plain decimal
/// integer literals.
pub open spec fn spec_n_token(tok: Seq<u8>) -> Option<u64> {
    if tok == seq![0x31u8, 0x2eu8, 0x23u8, 0x49u8, 0x4eu8, 0x46u8] || tok == seq![
        0x69u8,
        0x6eu8,
        0x66u8,
    ] {
        Some(INFINITY_BITS)
    } else if tok == seq![0x2du8, 0x31u8, 0x2eu8, 0x23u8, 0x49u8, 0x4eu8, 0x46u8] || tok == seq![
        0x2du8,
        0x69u8,
        0x6eu8,
        0x66u8,
    ] {
        Some(NEG_INFINITY_BITS)
    } else {
        spec_int_token_bits(tok)
    }
}

/// The first value of a stream, when what follows its `^1` prefix is one
/// of the fixed scalar identifiers.
pub open spec fn spec_v1_first_scalar(s: Seq<u8>) -> Option<LuaValue> {
    if s.len() >= 4 && s[0] == 0x5e && s[1] == 0x31 && s[2] == 0x5e {
        if s[3] == 0x5a {
            Some(LuaValue::Null)
        } else if s[3] == 0x42 {
            Some(LuaValue::Boolean(true))
        } else if s[3] == 0x62 {
            Some(LuaValue::Boolean(false))
        } else {
            None
        }
    } else {
        None
    }
}

/// Whether `a` holds exactly the bytes `pat`.
fn bytes_is(a: &Vec<u8>, pat: &[u8]) -> (r: bool)
    ensures
        r == (a@ == pat@),
{
    if a.len() != pat.len() {
        return false;
    }
    let n = a.len();
    let mut i: usize = 0;
    while i < n
        invariant
            0 <= i <= n,
            n == a@.len() == pat@.len(),
            forall|j: int| 0 <= j < i ==> a@[j] == pat@[j],
        decreases n - i,
    {
        if a[i] != pat[i] {
            return false;
        }
        i = i + 1;
    }
    proof {
        assert(a@ =~= pat@);
    }
    true
}

/// Turn a plain numeric token into bits: decimal integer literals below
/// `2^53` exactly, anything else through the runtime's standard parse.
pub(crate) fn parse_plain_number<R: NumberRuntime>(token: &Vec<u8>, runtime: &R) -> (r: Result<
    u64,
    DeserializationError,
>)
    ensures
        match spec_int_token_bits(token@) {
            Some(b) => r == Ok::<u64, DeserializationError>(b),
            None => r is Ok || r == Err::<u64, DeserializationError>(
                DeserializationError::InvalidFloatNumber,
            ),
        },
{
    let n = token.len();
    let signed = n > 0 && (token[0] == 0x2d || token[0] == 0x2b);
    let neg = n > 0 && token[0] == 0x2d;
    let digits_from: usize = if signed {
        1
    } else {
        0
    };
    let ghost ds = if signed {
        token@.skip(1)
    } else {
        token@
    };
    let digits = &token[digits_from..n];
    proof {
        assert(digits@ =~= ds);
    }
    match parse_uint(digits) {
        Some(v) if v < 0x20000000000000 => {
            if neg {
                if v == 0 {
                    Ok(0x8000000000000000)
                } else {
                    Ok(uint_to_bits(v) + 0x8000000000000000)
                }
            } else {
                if v == 0 {
                    Ok(0)
                } else {
                    Ok(uint_to_bits(v))
                }
            }
        },
        _ => {
            match runtime.parse_bits(token.as_slice()) {
                Some(b) => Ok(b),
                None => Err(DeserializationError::InvalidFloatNumber),
            }
        },
    }
}

/// Turn a `^N` token into bits: the four infinity spellings, then plain
/// numbers.
fn parse_n_token<R: NumberRuntime>(token: &Vec<u8>, runtime: &R) -> (r: Result<
    u64,
    DeserializationError,
>)
    ensures
        token@ == seq![0x31u8, 0x2eu8, 0x23u8, 0x49u8, 0x4eu8, 0x46u8] || token@ == seq![
            0x69u8,
            0x6eu8,
            0x66u8,
        ] ==> r == Ok::<u64, DeserializationError>(INFINITY_BITS),
        token@ == seq![0x2du8, 0x31u8, 0x2eu8, 0x23u8, 0x49u8, 0x4eu8, 0x46u8] || token@ == seq![
            0x2du8,
            0x69u8,
            0x6eu8,
            0x66u8,
        ] ==> r == Ok::<u64, DeserializationError>(NEG_INFINITY_BITS),
        match spec_int_token_bits(token@) {
            Some(b) => r == Ok::<u64, DeserializationError>(b),
            None => r is Ok || r == Err::<u64, DeserializationError>(
                DeserializationError::InvalidFloatNumber,
            ),
        },
{
    if bytes_is(token, &[0x31, 0x2e, 0x23, 0x49, 0x4e, 0x46]) || bytes_is(
        token,
        &[0x69, 0x6e, 0x66],
    ) {
        proof {
            assert(spec_int_token_bits(token@) is None);
        }
        Ok(INFINITY_BITS)
    } else if bytes_is(token, &[0x2d, 0x31, 0x2e, 0x23, 0x49, 0x4e, 0x46]) || bytes_is(
        token,
        &[0x2d, 0x69, 0x6e, 0x66],
    ) {
        proof {
            assert(spec_int_token_bits(token@) is None);
        }
        Ok(NEG_INFINITY_BITS)
    } else {
        parse_plain_number(token, runtime)
    }
}

/// Whether the keys of `entries` are exactly the numbers `1.0 .. n.0`, in
/// order: such a block is an array in disguise.
pub open spec fn spec_is_canonical_array(entries: Seq<(LuaMapKey, LuaValue)>) -> bool {
    &&& entries.len() < 0x20000000000000
    &&& forall|i: int|
        0 <= i < entries.len() ==> ((#[trigger] entries[i]).0.spec_value() matches LuaValue::Number(
            b,
        ) && spec_num_eq(b, spec_bits_of_int(i + 1)))
}

/// The values of `entries`, in order.
pub open spec fn spec_entry_values(entries: Seq<(LuaMapKey, LuaValue)>) -> Seq<LuaValue> {
    entries.map_values(|e: (LuaMapKey, LuaValue)| e.1)
}

/// The map the first `n` entries build up, inserted left to right.
pub open spec fn spec_table_prefix(entries: Seq<(LuaMapKey, LuaValue)>, n: int) -> Seq<
    (LuaMapKey, LuaValue),
>
    decreases n,
{
    if n <= 0 {
        Seq::empty()
    } else {
        spec_map_set(spec_table_prefix(entries, n - 1), entries[n - 1].0, entries[n - 1].1)
    }
}

/// Whether `r` is the value a `^T…^t` block with the given entries
/// denotes: an array when the keys are exactly `1.0 .. n.0` in order,
/// otherwise an insertion-ordered map.
pub open spec fn spec_finished_table(entries: Seq<(LuaMapKey, LuaValue)>, r: LuaValue) -> bool {
    if spec_is_canonical_array(entries) {
        r matches LuaValue::Array(vs) && vs@ == spec_entry_values(entries)
    } else {
        r matches LuaValue::Table(m) && m@ == spec_table_prefix(entries, entries.len() as int)
    }
}

/// Build the value a `^T…^t` block denotes from its parsed entries: an
/// array when the keys are exactly `1.0 .. n.0` in order, otherwise an
/// insertion-ordered map.
pub fn finish_table(entries: Vec<(LuaMapKey, LuaValue)>) -> (r: LuaValue)
    ensures
        spec_finished_table(entries@, r),
{
    let ghost entries0 = entries@;
    let n = entries.len();
    let mut is_array = (n as u64) < 0x20000000000000;
    let mut i: usize = 0;
    while i < n && is_array
        invariant
            0 <= i <= n,
            n == entries@.len(),
            entries@ == entries0,
            is_array ==> n < 0x20000000000000,
            is_array ==> forall|j: int|
                0 <= j < i ==> ((#[trigger] entries@[j]).0.spec_value() matches LuaValue::Number(b)
                    && spec_num_eq(b, spec_bits_of_int(j + 1))),
            !is_array ==> !spec_is_canonical_array(entries0),
        decreases n - i + (if is_array {
            1int
        } else {
            0int
        }),
    {
        let ok = match entries[i].0.as_value() {
            LuaValue::Number(b) => num_eq(*b, uint_to_bits(i as u64 + 1)),
            _ => false,
        };
        if !ok {
            is_array = false;
        } else {
            i = i + 1;
        }
    }
    proof {
        if is_array {
            assert(spec_is_canonical_array(entries0));
        }
    }
    // Consume the entries front to back by reversing twice.
    let mut rev: Vec<(LuaMapKey, LuaValue)> = Vec::new();
    let mut work = entries;
    while work.len() > 0
        invariant
            entries0.len() <= usize::MAX,
            work@.len() + rev@.len() == entries0.len(),
            work@ == entries0.take(work@.len() as int),
            forall|j: int|
                0 <= j < rev@.len() ==> #[trigger] rev@[j] == entries0[entries0.len() - 1 - j],
        decreases work@.len(),
    {
        let ghost w0 = work@;
        let e = work.pop().unwrap();
        proof {
            assert(work@ =~= entries0.take(work@.len() as int));
            assert(e == entries0[entries0.len() - 1 - rev@.len()]);
        }
        rev.push(e);
    }
    if is_array {
        let mut values: Vec<LuaValue> = Vec::new();
        while rev.len() > 0
            invariant
                entries0.len() <= usize::MAX,
                rev@.len() + values@.len() == entries0.len(),
                forall|j: int|
                    0 <= j < rev@.len() ==> #[trigger] rev@[j] == entries0[entries0.len() - 1 - j],
                values@ =~= spec_entry_values(entries0).take(values@.len() as int),
            decreases rev@.len(),
        {
            let e = rev.pop().unwrap();
            let (_k, v) = e;
            values.push(v);
            proof {
                assert(values@ =~= spec_entry_values(entries0).take(values@.len() as int));
            }
        }
        proof {
            assert(values@ =~= spec_entry_values(entries0));
        }
        LuaValue::Array(values)
    } else {
        let mut m: Vec<(LuaMapKey, LuaValue)> = Vec::new();
        let mut taken: usize = 0;
        while rev.len() > 0
            invariant
                entries0.len() <= usize::MAX,
                rev@.len() + taken == entries0.len(),
                taken <= usize::MAX,
                forall|j: int|
                    0 <= j < rev@.len() ==> #[trigger] rev@[j] == entries0[entries0.len() - 1 - j],
                m@ == spec_table_prefix(entries0, taken as int),
                m@.len() <= taken,
            decreases rev@.len(),
        {
            let e = rev.pop().unwrap();
            proof {
                assert(e == entries0[taken as int]);
                let t = taken as int;
                assert(spec_table_prefix(entries0, t + 1) == spec_map_set(
                    spec_table_prefix(entries0, t),
                    entries0[t].0,
                    entries0[t].1,
                ));
            }
            let (k, v) = e;
            let ghost m0 = m@;
            proof {
                crate::lua_value::lemma_find_key_range(m0, entries0[taken as int].0.spec_value());
            }
            crate::lua_value::map_insert(&mut m, k, v);
            proof {
                assert(m@.len() <= m0.len() + 1);
            }
            taken = taken + 1;
        }
        LuaValue::Table(m)
    }
}

/// A structure for deserializing textual streams.
pub struct Deserializer<'s, R: NumberRuntime> {
    remaining_depth: usize,
    reader: StrReader<'s>,
    runtime: R,
}

impl<'s, R: NumberRuntime> Deserializer<'s, R> {
    /// The reader state is sound and depth remains available.
    pub closed spec fn wf(&self) -> bool {
        &&& self.reader.wf()
        &&& 1 <= self.spec_depth() <= RECURSION_LIMIT
    }

    /// The whole input.
    pub closed spec fn spec_slice(&self) -> Seq<u8> {
        self.reader.spec_slice()
    }

    /// The read position.
    pub closed spec fn spec_index(&self) -> int {
        self.reader.spec_index()
    }

    /// The recursion budget still open.
    pub closed spec fn spec_depth(&self) -> int {
        self.remaining_depth as int
    }

    /// Create a deserializer from the bytes of a string slice.
    ///
    /// Number tokens that are not plain integer literals are converted
    /// through `runtime` (see [`NumberRuntime`]).
    pub fn from_str(slice: &'s [u8], runtime: R) -> (r: Deserializer<'s, R>)
        ensures
            r.wf(),
            r.spec_slice() == slice@,
            r.spec_index() == 0,
            r.spec_depth() == RECURSION_LIMIT,
    {
        Deserializer { remaining_depth: RECURSION_LIMIT, reader: StrReader::new(slice), runtime }
    }

    /// Deserialize all values.
    pub fn deserialize_all(self) -> (r: Result<Vec<LuaValue>, DeserializationError>)
        requires
            self.wf(),
            self.spec_index() == 0,
            self.spec_depth() == RECURSION_LIMIT,
        ensures
            ({
                let s = self.spec_slice();
                (s.len() >= 2 && s[0] == 0x5e && 0x31 != s[1] && s[1] <= 0x79) <==> r == Err::<
                    Vec<LuaValue>,
                    DeserializationError,
                >(DeserializationError::InvalidPrefix)
            }),
            ({
                let s = self.spec_slice();
                (s.len() >= 2 && !(s[0] == 0x5e && s[1] <= 0x79)) ==> r == Err::<
                    Vec<LuaValue>,
                    DeserializationError,
                >(DeserializationError::InvalidIdentifier)
            }),
            self.spec_slice().len() < 2 ==> r == Err::<Vec<LuaValue>, DeserializationError>(
                DeserializationError::UnexpectedEof,
            ),
            r is Ok ==> self.spec_slice().len() >= 2 && self.spec_slice()[0] == 0x5e
                && self.spec_slice()[1] == 0x31,
            match spec_v1_first_scalar(self.spec_slice()) {
                Some(v0) => r matches Ok(vs) ==> vs@.len() >= 1 && vs@[0] == v0,
                None => true,
            },
    {
        let mut de = self;
        match de.reader.read_identifier() {
            Ok(c) => {
                if c != 0x31 {
                    return Err(DeserializationError::InvalidPrefix);
                }
            },
            Err(e) => {
                return Err(e);
            },
        }
        let mut result: Vec<LuaValue> = Vec::new();
        loop
            invariant
                de.wf(),
                de.spec_depth() == RECURSION_LIMIT,
                de.spec_slice() == self.spec_slice(),
                self.spec_slice().len() >= 2,
                self.spec_slice()[0] == 0x5e,
                self.spec_slice()[1] == 0x31,
                spec_v1_first_scalar(self.spec_slice()) is Some ==> (result@.len() == 0
                    ==> de.spec_index() == 2),
                spec_v1_first_scalar(self.spec_slice()) is Some && result@.len() >= 1
                    ==> result@[0] == spec_v1_first_scalar(self.spec_slice()).unwrap(),
            ensures
                spec_v1_first_scalar(self.spec_slice()) is Some ==> result@.len() >= 1
                    && result@[0] == spec_v1_first_scalar(self.spec_slice()).unwrap(),
            decreases de.spec_slice().len() - de.spec_index(),
        {
            match de.reader.peek_identifier() {
                Err(_) => {
                    proof {
                        if spec_v1_first_scalar(self.spec_slice()) is Some && result@.len()
                            == 0 {
                            assert(de.spec_index() == 2);
                            assert(false);
                        }
                    }
                    break ;
                },
                Ok(_) => {
                    match de.deserialize_helper() {
                        Ok(Some(v)) => result.push(v),
                        Ok(None) => (),
                        Err(e) => {
                            return Err(e);
                        },
                    }
                },
            }
        }
        Ok(result)
    }

    /// Deserialize the first value.
    ///
    /// `Ok(None)` means the stream held no value after its `^1` prefix.
    pub fn deserialize_first(self) -> (r: Result<Option<LuaValue>, DeserializationError>)
        requires
            self.wf(),
            self.spec_index() == 0,
            self.spec_depth() == RECURSION_LIMIT,
        ensures
            ({
                let s = self.spec_slice();
                (s.len() >= 2 && s[0] == 0x5e && 0x31 != s[1] && s[1] <= 0x79) <==> r == Err::<
                    Option<LuaValue>,
                    DeserializationError,
                >(DeserializationError::InvalidPrefix)
            }),
            ({
                let s = self.spec_slice();
                (s.len() >= 2 && !(s[0] == 0x5e && s[1] <= 0x79)) ==> r == Err::<
                    Option<LuaValue>,
                    DeserializationError,
                >(DeserializationError::InvalidIdentifier)
            }),
            self.spec_slice().len() < 2 ==> r == Err::<Option<LuaValue>, DeserializationError>(
                DeserializationError::UnexpectedEof,
            ),
            ({
                let s = self.spec_slice();
                (s.len() >= 2 && s[0] == 0x5e && s[1] == 0x31 && s.len() < 4) ==> r == Err::<
                    Option<LuaValue>,
                    DeserializationError,
                >(DeserializationError::UnexpectedEof)
            }),
            ({
                let s = self.spec_slice();
                (s.len() >= 4 && s[0] == 0x5e && s[1] == 0x31 && !(s[2] == 0x5e && s[3] <= 0x79))
                    ==> r == Err::<Option<LuaValue>, DeserializationError>(
                    DeserializationError::InvalidIdentifier,
                )
            }),
            ({
                let s = self.spec_slice();
                (s.len() >= 4 && s[0] == 0x5e && s[1] == 0x31 && s[2] == 0x5e) ==> {
                    &&& (s[3] == 0x5e ==> r == Ok::<Option<LuaValue>, DeserializationError>(
                        None,
                    ))
                    &&& (s[3] == 0x5a ==> r == Ok::<Option<LuaValue>, DeserializationError>(
                        Some(LuaValue::Null),
                    ))
                    &&& (s[3] == 0x42 ==> r == Ok::<Option<LuaValue>, DeserializationError>(
                        Some(LuaValue::Boolean(true)),
                    ))
                    &&& (s[3] == 0x62 ==> r == Ok::<Option<LuaValue>, DeserializationError>(
                        Some(LuaValue::Boolean(false)),
                    ))
                    &&& (s[3] == 0x53 ==> match crate::ace_serialize::reader::spec_parse_str(
                        s.skip(4),
                    ) {
                        Ok(p) => r matches Ok(Some(LuaValue::String(v))) && v@ == p.0,
                        Err(e) => r == Err::<Option<LuaValue>, DeserializationError>(e),
                    })
                    &&& (s[3] <= 0x79 && s[3] != 0x5e && s[3] != 0x5a && s[3] != 0x42 && s[3]
                        != 0x62 && s[3] != 0x53 && s[3] != 0x4e && s[3] != 0x46 && s[3] != 0x54
                        ==> r == Err::<Option<LuaValue>, DeserializationError>(
                        DeserializationError::InvalidIdentifier,
                    ))
                    &&& (s[3] == 0x4e ==> match spec_find_caret(s, 4) {
                        None => r == Err::<Option<LuaValue>, DeserializationError>(
                            DeserializationError::UnexpectedEof,
                        ),
                        Some(j) => match spec_n_token(s.subrange(4, j)) {
                            Some(b) => r == Ok::<Option<LuaValue>, DeserializationError>(
                                Some(LuaValue::Number(b)),
                            ),
                            None => true,
                        },
                    })
                }
            }),
    {
        let mut de = self;
        match de.reader.read_identifier() {
            Ok(c) => {
                if c != 0x31 {
                    return Err(DeserializationError::InvalidPrefix);
                }
            },
            Err(e) => {
                return Err(e);
            },
        }
        de.deserialize_helper()
    }

    /// Deserialize one value (or an end-of-stream marker, `Ok(None)`).
    ///
    /// On success at least the two identifier bytes are consumed and the
    /// recursion budget is back to what it was. For the identifiers whose
    /// payload is fixed — the stream end, nulls, booleans and string
    /// bodies — the result is pinned exactly.
    fn deserialize_helper(&mut self) -> (r: Result<Option<LuaValue>, DeserializationError>)
        requires
            old(self).wf(),
        ensures
            !(r == Err::<Option<LuaValue>, DeserializationError>(
                DeserializationError::InvalidPrefix,
            )),
            final(self).spec_slice() == old(self).spec_slice(),
            r is Ok ==> final(self).wf() && final(self).spec_depth() == old(self).spec_depth()
                && old(self).spec_index() + 2 <= final(self).spec_index() <= final(self).spec_slice().len(),
            r is Err ==> final(self).reader.wf() && old(self).spec_index() <= final(self).spec_index() <= final(self).spec_slice().len(),
            old(self).spec_index() + 1 >= old(self).spec_slice().len() ==> r == Err::<
                Option<LuaValue>,
                DeserializationError,
            >(DeserializationError::UnexpectedEof),
            ({
                let s = old(self).spec_slice();
                let i = old(self).spec_index();
                i + 1 < s.len() && !(s[i] == 0x5e && s[i + 1] <= 0x79) ==> r == Err::<
                    Option<LuaValue>,
                    DeserializationError,
                >(DeserializationError::InvalidIdentifier)
            }),
            ({
                let s = old(self).spec_slice();
                let i = old(self).spec_index();
                i + 1 < s.len() && s[i] == 0x5e ==> {
                    &&& (s[i + 1] == 0x5e ==> r == Ok::<Option<LuaValue>, DeserializationError>(
                        None,
                    ))
                    &&& (s[i + 1] == 0x5a ==> r == Ok::<Option<LuaValue>, DeserializationError>(
                        Some(LuaValue::Null),
                    ))
                    &&& (s[i + 1] == 0x42 ==> r == Ok::<Option<LuaValue>, DeserializationError>(
                        Some(LuaValue::Boolean(true)),
                    ))
                    &&& (s[i + 1] == 0x62 ==> r == Ok::<Option<LuaValue>, DeserializationError>(
                        Some(LuaValue::Boolean(false)),
                    ))
                    &&& (s[i + 1] == 0x53 ==> match crate::ace_serialize::reader::spec_parse_str(
                        s.skip(i + 2),
                    ) {
                        Ok(p) => r matches Ok(Some(LuaValue::String(v))) && v@ == p.0,
                        Err(e) => r == Err::<Option<LuaValue>, DeserializationError>(e),
                    })
                    &&& (s[i + 1] <= 0x79 && s[i + 1] != 0x5e && s[i + 1] != 0x5a && s[i + 1]
                        != 0x42 && s[i + 1] != 0x62 && s[i + 1] != 0x53 && s[i + 1] != 0x4e && s[i
                        + 1] != 0x46 && s[i + 1] != 0x54 ==> r == Err::<
                        Option<LuaValue>,
                        DeserializationError,
                    >(DeserializationError::InvalidIdentifier))
                    &&& (s[i + 1] == 0x4e ==> match spec_find_caret(s, i + 2) {
                        None => r == Err::<Option<LuaValue>, DeserializationError>(
                            DeserializationError::UnexpectedEof,
                        ),
                        Some(j) => match spec_n_token(s.subrange(i + 2, j)) {
                            Some(b) => r == Ok::<Option<LuaValue>, DeserializationError>(
                                Some(LuaValue::Number(b)),
                            ),
                            None => true,
                        },
                    })
                    &&& (s[i + 1] == 0x46 ==> match spec_find_caret(s, i + 2) {
                        None => r == Err::<Option<LuaValue>, DeserializationError>(
                            DeserializationError::UnexpectedEof,
                        ),
                        Some(j) => spec_int_token_bits(s.subrange(i + 2, j)) is Some ==> if j + 1
                            >= s.len() {
                            r == Err::<Option<LuaValue>, DeserializationError>(
                                DeserializationError::UnexpectedEof,
                            )
                        } else if !(s[j] == 0x5e && s[j + 1] <= 0x79) {
                            r == Err::<Option<LuaValue>, DeserializationError>(
                                DeserializationError::InvalidIdentifier,
                            )
                        } else if s[j + 1] != 0x66 {
                            r == Err::<Option<LuaValue>, DeserializationError>(
                                DeserializationError::MissingExponent,
                            )
                        } else {
                            true
                        },
                    })
                }
            }),
        decreases old(self).spec_depth(), 1int,
    {
        let c = match self.reader.read_identifier() {
            Ok(c) => c,
            Err(e) => {
                return Err(e);
            },
        };
        match c {
            0x5e => Ok(None),  // `^^`: end of stream
            0x5a => Ok(Some(LuaValue::Null)),  // `^Z`
            0x42 => Ok(Some(LuaValue::Boolean(true))),  // `^B`
            0x62 => Ok(Some(LuaValue::Boolean(false))),  // `^b`
            0x53 => {
                // `^S`
                let s = match self.reader.parse_str() {
                    Ok(s) => s,
                    Err(e) => {
                        proof {
                            crate::ace_serialize::reader::lemma_parse_str_errors(
                                old(self).spec_slice().skip(old(self).spec_index() + 2),
                            );
                        }
                        return Err(e);
                    },
                };
                Ok(Some(LuaValue::String(s)))
            },
            0x4e => {
                // `^N`
                let token = match self.reader.read_until_next() {
                    Ok(t) => t,
                    Err(e) => {
                        proof {
                            lemma_find_caret_none(
                                old(self).spec_slice(),
                                old(self).spec_index() + 2,
                            );
                        }
                        return Err(e);
                    },
                };
                proof {
                    lemma_find_caret_at(
                        old(self).spec_slice(),
                        old(self).spec_index() + 2,
                        self.spec_index(),
                    );
                }
                let bits = match parse_n_token(&token, &self.runtime) {
                    Ok(b) => b,
                    Err(e) => {
                        return Err(e);
                    },
                };
                Ok(Some(LuaValue::Number(bits)))
            },
            0x46 => {
                // `^F` mantissa `^f` exponent
                let mtoken = match self.reader.read_until_next() {
                    Ok(t) => t,
                    Err(e) => {
                        proof {
                            lemma_find_caret_none(
                                old(self).spec_slice(),
                                old(self).spec_index() + 2,
                            );
                        }
                        return Err(e);
                    },
                };
                proof {
                    lemma_find_caret_at(
                        old(self).spec_slice(),
                        old(self).spec_index() + 2,
                        self.spec_index(),
                    );
                }
                let m = match parse_plain_number(&mtoken, &self.runtime) {
                    Ok(b) => b,
                    Err(e) => {
                        return Err(e);
                    },
                };
                let c2 = match self.reader.read_identifier() {
                    Ok(c2) => c2,
                    Err(e) => {
                        return Err(e);
                    },
                };
                if c2 != 0x66 {
                    return Err(DeserializationError::MissingExponent);
                }
                let etoken = match self.reader.read_until_next() {
                    Ok(t) => t,
                    Err(e) => {
                        return Err(e);
                    },
                };
                let e = match parse_plain_number(&etoken, &self.runtime) {
                    Ok(b) => b,
                    Err(err) => {
                        return Err(err);
                    },
                };
                Ok(Some(LuaValue::Number(self.runtime.scale2_bits(m, e))))
            },
            0x54 => {
                // `^T` … `^t`
                let v = match self.deserialize_table() {
                    Ok(v) => v,
                    Err(e) => {
                        return Err(e);
                    },
                };
                Ok(Some(v))
            },
            _ => Err(DeserializationError::InvalidIdentifier),
        }
    }

    /// Parse the entries of a `^T…^t` block, the opening `^T` already
    /// consumed, and build the table (or array) they denote.
    fn deserialize_table(&mut self) -> (r: Result<LuaValue, DeserializationError>)
        requires
            old(self).wf(),
        ensures
            !(r == Err::<LuaValue, DeserializationError>(DeserializationError::InvalidPrefix)),
            final(self).spec_slice() == old(self).spec_slice(),
            r is Ok ==> final(self).wf() && final(self).spec_depth() == old(self).spec_depth()
                && old(self).spec_index() <= final(self).spec_index() <= final(self).spec_slice().len(),
            r is Err ==> final(self).reader.wf() && old(self).spec_index() <= final(self).spec_index() <= final(self).spec_slice().len(),
        decreases old(self).spec_depth(), 0int,
    {
        let mut entries: Vec<(LuaMapKey, LuaValue)> = Vec::new();
        let ghost depth0 = self.spec_depth();
        loop
            invariant
                self.wf(),
                self.spec_depth() == depth0,
                depth0 == old(self).spec_depth(),
                self.spec_slice() == old(self).spec_slice(),
                old(self).spec_index() <= self.spec_index() <= self.spec_slice().len(),
            decreases self.spec_slice().len() - self.spec_index(),
        {
            let t = match self.reader.peek_identifier() {
                Ok(t) => t,
                Err(e) => {
                    return Err(e);
                },
            };
            if t == 0x74 {
                // `^t` closes the block.
                let _ = self.reader.read_identifier();
                break ;
            }
            self.remaining_depth = self.remaining_depth - 1;
            if self.remaining_depth == 0 {
                return Err(DeserializationError::RecursionLimitExceeded);
            }
            let key_value = match self.deserialize_helper() {
                Ok(Some(v)) => v,
                Ok(None) => {
                    return Err(DeserializationError::UnclosedMap);
                },
                Err(e) => {
                    return Err(e);
                },
            };
            let key = match LuaMapKey::try_from(key_value) {
                Ok(k) => k,
                Err(_) => {
                    return Err(DeserializationError::InvalidMapKeyType);
                },
            };
            let t2 = match self.reader.peek_identifier() {
                Ok(t2) => t2,
                Err(e) => {
                    return Err(e);
                },
            };
            if t2 == 0x74 {
                return Err(DeserializationError::MapMissingValue);
            }
            let value = match self.deserialize_helper() {
                Ok(Some(v)) => v,
                Ok(None) => {
                    return Err(DeserializationError::UnclosedMap);
                },
                Err(e) => {
                    return Err(e);
                },
            };
            entries.push((key, value));
            self.remaining_depth = self.remaining_depth + 1;
        }
        Ok(finish_table(entries))
    }
}

} // verus!
