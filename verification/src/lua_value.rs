//! The tree of Lua-like values that the codecs read and write.
//!
//! Numbers are IEEE-754 binary64 bit patterns (see [`crate::numbers`]);
//! strings are byte strings; maps built through [`map_insert`] preserve
//! insertion order and keep their keys unique under number/string/boolean
//! equality. Two composite values (maps, arrays) are never equal as map
//! keys: a key that is a table is compared by identity in Lua, and
//! distinct trees here are distinct tables.

use vstd::prelude::*;

use crate::numbers::{num_eq, spec_is_nan, spec_num_eq};

verus! {

/// A tagged union representing all possible values in Lua.
#[allow(missing_docs)]
#[derive(Debug)]
pub enum LuaValue {
    Table(Vec<(LuaMapKey, LuaValue)>),
    Array(Vec<LuaValue>),
    String(Vec<u8>),
    Number(u64),
    Boolean(bool),
    Null,
}

/// A key of a Lua map: any value but a null or a NaN number.
#[derive(Debug)]
pub struct LuaMapKey {
    value: LuaValue,
}

/// The error type returned when conversion from [LuaValue] to [LuaMapKey]
/// fails.
#[derive(Clone, Copy, Debug, PartialEq, Eq, Structural)]
pub enum TryFromLuaValueError {
    /// Attempt to use a [LuaValue::Number] that is NaN as a key.
    KeyCannotBeNan,
    /// Attempt to use a [LuaValue::Null] as a key.
    KeyCannotBeNull,
}

/// Whether `v` may serve as a map key.
pub open spec fn spec_key_ok(v: LuaValue) -> bool {
    match v {
        LuaValue::Null => false,
        LuaValue::Number(b) => !spec_is_nan(b),
        _ => true,
    }
}

impl LuaMapKey {
    /// The value this key wraps.
    pub closed spec fn spec_value(&self) -> LuaValue {
        self.value
    }

    /// Get a reference to the underlying value.
    pub fn as_value(&self) -> (r: &LuaValue)
        ensures
            *r == self.spec_value(),
    {
        &self.value
    }

    /// Turn a value into a key; nulls and NaN numbers are refused.
    pub fn try_from(value: LuaValue) -> (r: Result<LuaMapKey, TryFromLuaValueError>)
        ensures
            match r {
                Ok(k) => spec_key_ok(value) && k.spec_value() == value,
                Err(TryFromLuaValueError::KeyCannotBeNull) => value is Null,
                Err(TryFromLuaValueError::KeyCannotBeNan) => value matches LuaValue::Number(b)
                    && spec_is_nan(b),
            },
    {
        match value {
            LuaValue::Null => Err(TryFromLuaValueError::KeyCannotBeNull),
            LuaValue::Number(b) => {
                if crate::numbers::is_nan_bits(b) {
                    Err(TryFromLuaValueError::KeyCannotBeNan)
                } else {
                    Ok(LuaMapKey { value: LuaValue::Number(b) })
                }
            },
            v => Ok(LuaMapKey { value: v }),
        }
    }

    /// Take the key apart again.
    pub fn into_value(self) -> (r: LuaValue)
        ensures
            r == self.spec_value(),
    {
        self.value
    }
}

/// Key equality: scalars compare by content (numbers under IEEE equality),
/// and composite values are never equal, mirroring Lua's table identity.
pub open spec fn spec_key_eq(a: LuaValue, b: LuaValue) -> bool {
    match (a, b) {
        (LuaValue::String(x), LuaValue::String(y)) => x@ == y@,
        (LuaValue::Number(x), LuaValue::Number(y)) => spec_num_eq(x, y),
        (LuaValue::Boolean(x), LuaValue::Boolean(y)) => x == y,
        (LuaValue::Null, LuaValue::Null) => true,
        _ => false,
    }
}

/// Key equality, executable.
pub fn key_eq(a: &LuaValue, b: &LuaValue) -> (r: bool)
    ensures
        r == spec_key_eq(*a, *b),
{
    match (a, b) {
        (LuaValue::String(x), LuaValue::String(y)) => bytes_eq(x, y),
        (LuaValue::Number(x), LuaValue::Number(y)) => num_eq(*x, *y),
        (LuaValue::Boolean(x), LuaValue::Boolean(y)) => x == y,
        (LuaValue::Null, LuaValue::Null) => true,
        _ => false,
    }
}

/// Byte-string equality.
pub fn bytes_eq(a: &Vec<u8>, b: &Vec<u8>) -> (r: bool)
    ensures
        r == (a@ == b@),
{
    if a.len() != b.len() {
        return false;
    }
    let n = a.len();
    let mut i: usize = 0;
    while i < n
        invariant
            0 <= i <= n,
            n == a@.len() == b@.len(),
            forall|j: int| 0 <= j < i ==> a@[j] == b@[j],
        decreases n - i,
    {
        if a[i] != b[i] {
            return false;
        }
        i = i + 1;
    }
    proof {
        assert(a@ =~= b@);
    }
    true
}

/// Structural equality of two trees: scalars by content, with NaN equal to
/// NaN and the two zeros equal; tables and arrays entry by entry, in order.
pub open spec fn spec_deep_eq(a: LuaValue, b: LuaValue) -> bool
    decreases a,
{
    match (a, b) {
        (LuaValue::Table(x), LuaValue::Table(y)) => {
            &&& x@.len() == y@.len()
            &&& forall|i: int|
                0 <= i < x@.len() ==> spec_deep_eq(
                    (#[trigger] x@[i]).0.spec_value(),
                    y@[i].0.spec_value(),
                ) && spec_deep_eq(x@[i].1, y@[i].1)
        },
        (LuaValue::Array(x), LuaValue::Array(y)) => {
            &&& x@.len() == y@.len()
            &&& forall|i: int| 0 <= i < x@.len() ==> spec_deep_eq(#[trigger] x@[i], y@[i])
        },
        (LuaValue::String(x), LuaValue::String(y)) => x@ == y@,
        (LuaValue::Number(x), LuaValue::Number(y)) => (spec_is_nan(x) && spec_is_nan(y))
            || spec_num_eq(x, y),
        (LuaValue::Boolean(x), LuaValue::Boolean(y)) => x == y,
        (LuaValue::Null, LuaValue::Null) => true,
        _ => false,
    }
}

/// Structural equality, executable.
pub fn deep_eq(a: &LuaValue, b: &LuaValue) -> (r: bool)
    ensures
        r == spec_deep_eq(*a, *b),
    decreases *a,
{
    match (a, b) {
        (LuaValue::Table(x), LuaValue::Table(y)) => {
            if x.len() != y.len() {
                return false;
            }
            let n = x.len();
            let mut i: usize = 0;
            while i < n
                invariant
                    0 <= i <= n,
                    n == x@.len() == y@.len(),
                    *a == LuaValue::Table(*x),
                    *b == LuaValue::Table(*y),
                    forall|j: int|
                        0 <= j < i ==> spec_deep_eq(
                            (#[trigger] x@[j]).0.spec_value(),
                            y@[j].0.spec_value(),
                        ) && spec_deep_eq(x@[j].1, y@[j].1),
                decreases n - i,
            {
                proof {
                    assert(decreases_to!(*a => a->Table_0@[i as int].0.value));
                    assert(decreases_to!(*a => a->Table_0@[i as int].1));
                    assert(a->Table_0 == *x);
                }
                let xe = &x[i];
                let ye = &y[i];
                if !deep_eq(&xe.0.value, &ye.0.value) {
                    return false;
                }
                if !deep_eq(&xe.1, &ye.1) {
                    return false;
                }
                i = i + 1;
            }
            true
        },
        (LuaValue::Array(x), LuaValue::Array(y)) => {
            if x.len() != y.len() {
                return false;
            }
            let n = x.len();
            let mut i: usize = 0;
            while i < n
                invariant
                    0 <= i <= n,
                    n == x@.len() == y@.len(),
                    *a == LuaValue::Array(*x),
                    *b == LuaValue::Array(*y),
                    forall|j: int| 0 <= j < i ==> spec_deep_eq(#[trigger] x@[j], y@[j]),
                decreases n - i,
            {
                proof {
                    assert(decreases_to!(*a => a->Array_0@[i as int]));
                    assert(a->Array_0 == *x);
                }
                if !deep_eq(&x[i], &y[i]) {
                    return false;
                }
                i = i + 1;
            }
            true
        },
        (LuaValue::String(x), LuaValue::String(y)) => bytes_eq(x, y),
        (LuaValue::Number(x), LuaValue::Number(y)) => {
            (crate::numbers::is_nan_bits(*x) && crate::numbers::is_nan_bits(*y)) || num_eq(*x, *y)
        },
        (LuaValue::Boolean(x), LuaValue::Boolean(y)) => x == y,
        (LuaValue::Null, LuaValue::Null) => true,
        _ => false,
    }
}

/// Copy a byte string.
pub fn clone_bytes(s: &Vec<u8>) -> (r: Vec<u8>)
    ensures
        r@ == s@,
{
    let mut out: Vec<u8> = Vec::new();
    let n = s.len();
    let mut i: usize = 0;
    while i < n
        invariant
            0 <= i <= n,
            n == s@.len(),
            out@ == s@.take(i as int),
        decreases n - i,
    {
        out.push(s[i]);
        proof {
            assert(out@ =~= s@.take(i as int + 1));
        }
        i = i + 1;
    }
    proof {
        assert(s@.take(n as int) =~= s@);
    }
    out
}

/// Copy a whole value tree. The copy is structurally equal to the
/// original.
pub fn clone_value(a: &LuaValue) -> (r: LuaValue)
    ensures
        spec_deep_eq(r, *a),
    decreases *a,
{
    match a {
        LuaValue::Table(x) => {
            let n = x.len();
            let mut out: Vec<(LuaMapKey, LuaValue)> = Vec::new();
            let mut i: usize = 0;
            while i < n
                invariant
                    0 <= i <= n,
                    n == x@.len(),
                    *a == LuaValue::Table(*x),
                    out@.len() == i,
                    forall|j: int|
                        0 <= j < i ==> spec_deep_eq(
                            (#[trigger] out@[j]).0.spec_value(),
                            x@[j].0.spec_value(),
                        ) && spec_deep_eq(out@[j].1, x@[j].1),
                decreases n - i,
            {
                proof {
                    assert(decreases_to!(*a => a->Table_0@[i as int].0.value));
                    assert(decreases_to!(*a => a->Table_0@[i as int].1));
                    assert(a->Table_0 == *x);
                }
                let e = &x[i];
                let k = LuaMapKey { value: clone_value(&e.0.value) };
                let v = clone_value(&e.1);
                out.push((k, v));
                i = i + 1;
            }
            LuaValue::Table(out)
        },
        LuaValue::Array(x) => {
            let n = x.len();
            let mut out: Vec<LuaValue> = Vec::new();
            let mut i: usize = 0;
            while i < n
                invariant
                    0 <= i <= n,
                    n == x@.len(),
                    *a == LuaValue::Array(*x),
                    out@.len() == i,
                    forall|j: int| 0 <= j < i ==> spec_deep_eq(#[trigger] out@[j], x@[j]),
                decreases n - i,
            {
                proof {
                    assert(decreases_to!(*a => a->Array_0@[i as int]));
                    assert(a->Array_0 == *x);
                }
                let v = clone_value(&x[i]);
                out.push(v);
                i = i + 1;
            }
            LuaValue::Array(out)
        },
        LuaValue::String(s) => LuaValue::String(clone_bytes(s)),
        LuaValue::Number(b) => LuaValue::Number(*b),
        LuaValue::Boolean(b) => LuaValue::Boolean(*b),
        LuaValue::Null => LuaValue::Null,
    }
}

/// The position of the first entry of `m` whose key equals `k`, or `-1`.
pub open spec fn spec_find_key(m: Seq<(LuaMapKey, LuaValue)>, k: LuaValue) -> int
    decreases m.len(),
{
    if m.len() == 0 {
        -1
    } else if spec_key_eq(m[0].0.spec_value(), k) {
        0
    } else {
        let r = spec_find_key(m.drop_first(), k);
        if r < 0 {
            -1
        } else {
            r + 1
        }
    }
}

/// What inserting `(k, v)` leaves behind: the first entry with an equal key
/// is given the value `v` (the stored key stays), and a fresh key is
/// appended.
pub open spec fn spec_map_set(
    m: Seq<(LuaMapKey, LuaValue)>,
    k: LuaMapKey,
    v: LuaValue,
) -> Seq<(LuaMapKey, LuaValue)> {
    let i = spec_find_key(m, k.spec_value());
    if i >= 0 {
        m.update(i, (m[i].0, v))
    } else {
        m.push((k, v))
    }
}

/// Insert `(k, v)` into the insertion-ordered map `m`.
pub fn map_insert(m: &mut Vec<(LuaMapKey, LuaValue)>, k: LuaMapKey, v: LuaValue)
    requires
        old(m)@.len() < usize::MAX,
    ensures
        final(m)@ == spec_map_set(old(m)@, k, v),
{
    let n = m.len();
    let mut i: usize = 0;
    while i < n
        invariant
            0 <= i <= n,
            n == m@.len(),
            m@ == old(m)@,
            forall|j: int| 0 <= j < i ==> !spec_key_eq(m@[j].0.spec_value(), k.spec_value()),
        decreases n - i,
    {
        if key_eq(m[i].0.as_value(), k.as_value()) {
            proof {
                lemma_find_key_at(m@, k.spec_value(), i as int);
            }
            let ghost m0 = m@;
            let slot = &mut m[i];
            slot.1 = v;
            proof {
                assert(m@ =~= m0.update(i as int, (m0[i as int].0, v)));
            }
            return ;
        }
        i = i + 1;
    }
    proof {
        lemma_find_key_none(m@, k.spec_value());
    }
    m.push((k, v));
}

/// The position `spec_find_key` names is a position of `m`, or `-1`.
pub proof fn lemma_find_key_range(m: Seq<(LuaMapKey, LuaValue)>, k: LuaValue)
    ensures
        -1 <= spec_find_key(m, k) < m.len(),
    decreases m.len(),
{
    if m.len() > 0 && !spec_key_eq(m[0].0.spec_value(), k) {
        lemma_find_key_range(m.drop_first(), k);
    }
}

/// If the keys before `i` all differ from `k` and entry `i` matches, then
/// `i` is the position `spec_find_key` names.
proof fn lemma_find_key_at(m: Seq<(LuaMapKey, LuaValue)>, k: LuaValue, i: int)
    requires
        0 <= i < m.len(),
        spec_key_eq(m[i].0.spec_value(), k),
        forall|j: int| 0 <= j < i ==> !spec_key_eq(m[j].0.spec_value(), k),
    ensures
        spec_find_key(m, k) == i,
    decreases i,
{
    if i > 0 {
        lemma_find_key_at(m.drop_first(), k, i - 1);
    }
}

/// If no key of `m` equals `k`, `spec_find_key` comes back negative.
proof fn lemma_find_key_none(m: Seq<(LuaMapKey, LuaValue)>, k: LuaValue)
    requires
        forall|j: int| 0 <= j < m.len() ==> !spec_key_eq(m[j].0.spec_value(), k),
    ensures
        spec_find_key(m, k) == -1,
    decreases m.len(),
{
    if m.len() > 0 {
        lemma_find_key_none(m.drop_first(), k);
    }
}

} // verus!
