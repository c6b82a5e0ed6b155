//! Byte-level reading of the binary format.

use vstd::prelude::*;

use crate::unicode::utf8_lossy_of;

verus! {

/// The big-endian reading of the `w` bytes of `s` starting at `k`.
pub open spec fn spec_be_int(s: Seq<u8>, k: int, w: int) -> int
    decreases w,
{
    if w <= 0 {
        0
    } else {
        spec_be_int(s, k, w - 1) * 256 + s[k + w - 1]
    }
}

/// A reader over the bytes of a binary stream.
pub struct SliceReader<'s> {
    slice: &'s [u8],
    index: usize,
}

impl<'s> SliceReader<'s> {
    /// The whole input.
    pub closed spec fn spec_slice(&self) -> Seq<u8> {
        self.slice@
    }

    /// The read position.
    pub closed spec fn spec_index(&self) -> int {
        self.index as int
    }

    /// The position never passes the end of the input, which fits in a
    /// machine word.
    pub open spec fn wf(&self) -> bool {
        &&& 0 <= self.spec_index() <= self.spec_slice().len()
        &&& self.spec_slice().len() <= usize::MAX
    }

    /// Create a reader over `slice`.
    pub fn new(slice: &'s [u8]) -> (r: SliceReader<'s>)
        ensures
            r.wf(),
            r.spec_slice() == slice@,
            r.spec_index() == 0,
    {
        let _len = slice.len();
        SliceReader { slice, index: 0 }
    }

    /// The byte at the read position, advancing past it.
    pub fn read_u8(&mut self) -> (r: Option<u8>)
        requires
            old(self).wf(),
        ensures
            final(self).wf(),
            final(self).spec_slice() == old(self).spec_slice(),
            match r {
                Some(b) => old(self).spec_index() < old(self).spec_slice().len() && b == old(self).spec_slice()[old(self).spec_index()] && final(self).spec_index() == old(self).spec_index() + 1,
                None => old(self).spec_index() == old(self).spec_slice().len() && final(self).spec_index() == old(self).spec_index(),
            },
    {
        if self.index < self.slice.len() {
            let byte = self.slice[self.index];
            self.index = self.index + 1;
            Some(byte)
        } else {
            None
        }
    }

    /// Read a big-endian unsigned integer of `bytes` bytes.
    pub fn read_int(&mut self, bytes: usize) -> (r: Option<u64>)
        requires
            old(self).wf(),
            1 <= bytes <= 8,
        ensures
            final(self).wf(),
            final(self).spec_slice() == old(self).spec_slice(),
            match r {
                Some(v) => {
                    &&& old(self).spec_index() + bytes <= old(self).spec_slice().len()
                    &&& v == spec_be_int(old(self).spec_slice(), old(self).spec_index(), bytes as int)
                    &&& final(self).spec_index() == old(self).spec_index() + bytes
                },
                None => {
                    &&& old(self).spec_index() + bytes > old(self).spec_slice().len()
                    &&& final(self).spec_index() == old(self).spec_index()
                },
            },
    {
        if self.slice.len() - self.index < bytes {
            return None;
        }
        let ghost s = self.spec_slice();
        let ghost k = self.spec_index();
        let mut v: u64 = 0;
        let mut i: usize = 0;
        while i < bytes
            invariant
                0 <= i <= bytes <= 8,
                self.wf(),
                s == self.spec_slice(),
                k == self.spec_index(),
                k + bytes <= s.len(),
                v == spec_be_int(s, k, i as int),
                v < cap256(i as int),
            decreases bytes - i,
        {
            proof {
                assert(spec_be_int(s, k, i as int + 1) == spec_be_int(s, k, i as int) * 256 + s[k
                    + i]);
                lemma_cap256_mono(i as int + 1, 8);
                lemma_cap256_val();
                assert(v * 256 + 255 < cap256(i as int + 1)) by (nonlinear_arith)
                    requires
                        v < cap256(i as int) && cap256(i as int + 1) == 256 * cap256(i as int),
                ;
            }
            v = v * 256 + (self.slice[self.index + i] as u64);
            i = i + 1;
        }
        self.index = self.index + bytes;
        Some(v)
    }

    /// Read `len` raw bytes.
    pub fn read_bytes(&mut self, len: usize) -> (r: Option<Vec<u8>>)
        requires
            old(self).wf(),
        ensures
            final(self).wf(),
            final(self).spec_slice() == old(self).spec_slice(),
            match r {
                Some(v) => {
                    &&& old(self).spec_index() + len <= old(self).spec_slice().len()
                    &&& v@ == old(self).spec_slice().subrange(
                        old(self).spec_index(),
                        old(self).spec_index() + len,
                    )
                    &&& final(self).spec_index() == old(self).spec_index() + len
                },
                None => {
                    &&& old(self).spec_index() + len > old(self).spec_slice().len()
                    &&& final(self).spec_index() == old(self).spec_index()
                },
            },
    {
        if self.slice.len() - self.index < len {
            return None;
        }
        let ghost s = self.spec_slice();
        let ghost k = self.spec_index();
        let mut out: Vec<u8> = Vec::new();
        let mut i: usize = 0;
        while i < len
            invariant
                0 <= i <= len,
                self.wf(),
                s == self.spec_slice(),
                k == self.spec_index(),
                k + len <= s.len(),
                out@ == s.subrange(k, k + i),
            decreases len - i,
        {
            out.push(self.slice[self.index + i]);
            proof {
                assert(out@ =~= s.subrange(k, k + i + 1));
            }
            i = i + 1;
        }
        self.index = self.index + len;
        Some(out)
    }

    /// Read `len` raw bytes as a lossy UTF-8 string.
    pub fn read_string(&mut self, len: usize) -> (r: Option<Vec<u8>>)
        requires
            old(self).wf(),
        ensures
            final(self).wf(),
            final(self).spec_slice() == old(self).spec_slice(),
            match r {
                Some(v) => {
                    &&& old(self).spec_index() + len <= old(self).spec_slice().len()
                    &&& v@ == utf8_lossy_of(
                        old(self).spec_slice().subrange(
                            old(self).spec_index(),
                            old(self).spec_index() + len,
                        ),
                    )
                    &&& final(self).spec_index() == old(self).spec_index() + len
                },
                None => {
                    &&& old(self).spec_index() + len > old(self).spec_slice().len()
                    &&& final(self).spec_index() == old(self).spec_index()
                },
            },
    {
        match self.read_bytes(len) {
            None => None,
            Some(bytes) => Some(crate::unicode::utf8_lossy(bytes)),
        }
    }
}

/// `256^w`, the exclusive bound of a `w`-byte big-endian integer.
pub open spec fn cap256(w: int) -> int
    decreases w,
{
    if w <= 0 {
        1
    } else {
        256 * cap256(w - 1)
    }
}

/// `cap256` is monotone.
pub proof fn lemma_cap256_mono(a: int, b: int)
    requires
        a <= b,
    ensures
        cap256(a) <= cap256(b),
        cap256(a) >= 1,
    decreases b - a,
{
    if a < b {
        lemma_cap256_mono(a, b - 1);
    }
    lemma_cap256_pos(a);
    lemma_cap256_pos(b);
}

/// `cap256` is positive.
proof fn lemma_cap256_pos(w: int)
    ensures
        cap256(w) >= 1,
    decreases w,
{
    if w > 0 {
        lemma_cap256_pos(w - 1);
    }
}

/// The values of `cap256` up to eight bytes.
pub proof fn lemma_cap256_val()
    ensures
        cap256(1) == 0x100,
        cap256(2) == 0x10000,
        cap256(3) == 0x1000000,
        cap256(4) == 0x100000000,
        cap256(7) == 0x100000000000000,
        cap256(8) == 0x10000000000000000,
{
    reveal_with_fuel(cap256, 10);
}

/// A `w`-byte big-endian integer stays below `256^w`.
pub proof fn lemma_be_int_bound(s: Seq<u8>, k: int, w: int)
    requires
        0 <= w,
        k >= 0,
        k + w <= s.len(),
    ensures
        0 <= spec_be_int(s, k, w) < cap256(w),
    decreases w,
{
    if w > 0 {
        lemma_be_int_bound(s, k, w - 1);
        let prev = spec_be_int(s, k, w - 1);
        assert(prev * 256 + s[k + w - 1] < cap256(w)) by (nonlinear_arith)
            requires
                prev < cap256(w - 1) && cap256(w) == 256 * cap256(w - 1) && 0 <= s[k + w - 1] < 256,
        ;
    } else {
        lemma_cap256_pos(w);
    }
}

} // verus!
