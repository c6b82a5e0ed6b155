//! The legacy pre-DEFLATE decompressor (decode only).
//!
//! A stream is one mode byte (`1` stored, `3` compressed), one byte for
//! the number of symbols minus one, three little-endian bytes for the
//! original size, a code table, and the compressed payload. Each code is
//! extracted bit by bit from a running bitfield: two consecutive set bits
//! at positions `i`, `i + 1` delimit a code of `i` bits, which is then
//! unescaped by dropping the filler bit written after every set bit. A
//! lookup table of up to two 256-entry levels decodes payload bytes.

use vstd::arithmetic::power2::{lemma2_to64, lemma_pow2_adds, lemma_pow2_pos, pow2};
use vstd::prelude::*;

use crate::numbers::pow2_u64;

verus! {

/// Errors that can occur while decompressing.
#[derive(Clone, Copy, Debug, PartialEq, Eq, Structural)]
pub enum DecompressionError {
    /// Invalid prefix.
    InvalidPrefix,
    /// The input is too small.
    InputIsTooSmall,
    /// Decompressed data exceeds the provided maximum size.
    DataExceedsMaxSize,
    /// The input ended unexpectedly.
    UnexpectedEof,
    /// Catch-all variant for bogus input.
    InvalidData,
}

/// `a + b * 2^len` fits below `2^(len + 8)` when `a < 2^len` and `b < 256`.
proof fn lemma_insert_bound(a: int, b: int, len: int)
    requires
        0 <= len <= 56,
        0 <= a < pow2(len as nat),
        0 <= b < 256,
    ensures
        0 <= a + b * pow2(len as nat) < pow2((len + 8) as nat),
        pow2((len + 8) as nat) <= 0x10000000000000000,
{
    lemma_pow2_adds(len as nat, 8);
    lemma2_to64();
    lemma_pow2_pos(len as nat);
    assert(a + b * pow2(len as nat) < pow2(len as nat) * 256) by (nonlinear_arith)
        requires
            0 <= a < pow2(len as nat) && 0 <= b < 256 && pow2(len as nat) >= 1,
    ;
    assert(pow2(64) == 0x10000000000000000) by {
        lemma_pow2_adds(56, 8);
        vstd::arithmetic::power2::lemma2_to64_rest();
        lemma2_to64();
        assert(pow2(64) == pow2(56) * pow2(8));
    }
    if len < 56 {
        vstd::arithmetic::power2::lemma_pow2_strictly_increases((len + 8) as nat, 64);
    }
}

/// Dividing off `n` bits keeps a `len`-bit value inside `len - n` bits.
proof fn lemma_shift_out(a: int, n: int, len: int)
    requires
        0 <= n <= len <= 64,
        0 <= a < pow2(len as nat),
    ensures
        0 <= a / (pow2(n as nat) as int) < pow2((len - n) as nat),
{
    lemma_pow2_adds((len - n) as nat, n as nat);
    lemma_pow2_pos(n as nat);
    assert(a / (pow2(n as nat) as int) < pow2((len - n) as nat)) by (nonlinear_arith)
        requires
            0 <= a < pow2((len - n) as nat) * pow2(n as nat) && pow2(n as nat) >= 1,
    ;
}

/// A little-endian bitfield of at most 64 bits.
#[derive(Clone, Copy)]
pub struct Bitfield {
    data: u64,
    len: u8,
}

impl Bitfield {
    /// The bits held.
    pub closed spec fn spec_data(&self) -> u64 {
        self.data
    }

    /// How many bits are held.
    pub closed spec fn spec_len(&self) -> int {
        self.len as int
    }

    /// No more than 64 bits, with the unused high bits clear.
    pub open spec fn wf(&self) -> bool {
        &&& 0 <= self.spec_len() <= 64
        &&& self.spec_data() < pow2(self.spec_len() as nat)
    }

    /// The empty bitfield.
    pub fn new() -> (r: Bitfield)
        ensures
            r.wf(),
            r.spec_len() == 0,
            r.spec_data() == 0,
    {
        proof {
            lemma2_to64();
        }
        Bitfield { data: 0, len: 0 }
    }

    /// How many bits are held.
    pub fn get_len(&self) -> (r: u8)
        ensures
            r == self.spec_len(),
    {
        self.len
    }

    /// The bits held.
    pub fn get_data(&self) -> (r: u64)
        ensures
            r == self.spec_data(),
    {
        self.data
    }

    /// Append the eight bits of `byte` above the bits held; refused when
    /// fewer than eight bits are free.
    pub fn insert(&mut self, byte: u8) -> (r: Result<(), ()>)
        requires
            old(self).wf(),
        ensures
            final(self).wf(),
            match r {
                Ok(_) => {
                    &&& old(self).spec_len() <= 56
                    &&& final(self).spec_len() == old(self).spec_len() + 8
                    &&& final(self).spec_data() == old(self).spec_data() + byte * pow2(
                        old(self).spec_len() as nat,
                    )
                },
                Err(_) => old(self).spec_len() > 56 && *final(self) == *old(self),
            },
    {
        if self.len > 56 {
            return Err(());
        }
        proof {
            lemma_insert_bound(self.spec_data() as int, byte as int, self.spec_len());
        }
        let scale = pow2_u64(self.len as u64);
        self.data = self.data + (byte as u64) * scale;
        self.len = self.len + 8;
        Ok(())
    }

    /// Append `byte`, then take the low eight bits out; the bit count is
    /// unchanged.
    pub fn insert_and_extract_byte(&mut self, byte: u8) -> (r: u8)
        requires
            old(self).wf(),
            old(self).spec_len() <= 56,
        ensures
            final(self).wf(),
            final(self).spec_len() == old(self).spec_len(),
            r == (old(self).spec_data() + byte * pow2(old(self).spec_len() as nat)) % 256,
            final(self).spec_data() == (old(self).spec_data() + byte * pow2(
                old(self).spec_len() as nat,
            )) as u64 / 256,
    {
        proof {
            lemma_insert_bound(self.spec_data() as int, byte as int, self.spec_len());
        }
        let scale = pow2_u64(self.len as u64);
        let combined: u64 = self.data + (byte as u64) * scale;
        let out = (combined % 256) as u8;
        proof {
            lemma_shift_out(combined as int, 8, self.spec_len() + 8);
            lemma2_to64();
        }
        self.data = combined / 256;
        out
    }

    /// Take the low `n` bits out.
    pub fn extract_bits(&mut self, n: u8) -> (r: u64)
        requires
            old(self).wf(),
            n < 64,
            n <= old(self).spec_len(),
        ensures
            final(self).wf(),
            final(self).spec_len() == old(self).spec_len() - n,
            r == old(self).spec_data() % (pow2(n as nat) as u64),
            r < pow2(n as nat),
            final(self).spec_data() == old(self).spec_data() / (pow2(n as nat) as u64),
    {
        proof {
            lemma_shift_out(self.spec_data() as int, n as int, self.spec_len());
            lemma_pow2_pos(n as nat);
        }
        let scale = pow2_u64(n as u64);
        let r = self.data % scale;
        self.data = self.data / scale;
        self.len = self.len - n;
        r
    }

    /// Throw the low `n` bits away.
    pub fn discard_bits(&mut self, n: u8)
        requires
            old(self).wf(),
            n < 64,
            n <= old(self).spec_len(),
        ensures
            final(self).wf(),
            final(self).spec_len() == old(self).spec_len() - n,
            final(self).spec_data() == old(self).spec_data() / (pow2(n as nat) as u64),
    {
        proof {
            lemma_shift_out(self.spec_data() as int, n as int, self.spec_len());
            lemma_pow2_pos(n as nat);
        }
        let scale = pow2_u64(n as u64);
        self.data = self.data / scale;
        self.len = self.len - n;
    }

    /// The low eight bits (zero-padded past the held length).
    pub fn peek_byte(&self) -> (r: u8)
        ensures
            r == self.spec_data() % 256,
    {
        (self.data % 256) as u8
    }
}

/// Whether bit `i` of `d` is set.
pub open spec fn spec_bit(d: u64, i: int) -> bool {
    if i >= 0 {
        (d as int / (pow2(i as nat) as int)) % 2 == 1
    } else {
        false
    }
}

/// Whether positions `i` and `i + 1` of `d` hold the terminator pair.
pub open spec fn spec_pair_at(d: u64, i: int) -> bool {
    spec_bit(d, i) && spec_bit(d, i + 1)
}

/// Find the terminator — two consecutive set bits at positions `i` and
/// `i + 1` — and when present take the `i` code bits (and the terminator)
/// out of the bitfield: `Ok(Some)` carries exactly the bits below the
/// least pair; `Ok(None)` means no pair is in reach; codes longer than 32
/// bits are refused.
pub fn get_code(bitfield: &mut Bitfield) -> (r: Result<
    Option<(u32, u8)>,
    DecompressionError,
>)
    requires
        old(bitfield).wf(),
    ensures
        final(bitfield).wf(),
        match r {
            Ok(Some((code, code_len))) => {
                &&& code_len + 2 <= old(bitfield).spec_len()
                &&& code_len <= 32
                &&& spec_pair_at(old(bitfield).spec_data(), code_len as int)
                &&& forall|j: int|
                    0 <= j < code_len ==> !spec_pair_at(old(bitfield).spec_data(), j)
                &&& code == old(bitfield).spec_data() % (pow2(code_len as nat) as u64)
                &&& final(bitfield).spec_data() == old(bitfield).spec_data() / (pow2(
                    (code_len + 2) as nat,
                ) as u64)
                &&& final(bitfield).spec_len() == old(bitfield).spec_len() - code_len - 2
            },
            Ok(None) => *final(bitfield) == *old(bitfield) && (old(bitfield).spec_len() < 2
                || forall|j: int|
                0 <= j <= old(bitfield).spec_len() - 2 ==> !spec_pair_at(
                    old(bitfield).spec_data(),
                    j,
                )),
            Err(e) => {
                &&& e == DecompressionError::InvalidData
                &&& *final(bitfield) == *old(bitfield)
                &&& exists|j: int|
                    32 < j <= old(bitfield).spec_len() - 2 && #[trigger] spec_pair_at(
                        old(bitfield).spec_data(),
                        j,
                    )
                &&& forall|j: int| 0 <= j <= 32 ==> !spec_pair_at(old(bitfield).spec_data(), j)
            },
        },
{
    let len = bitfield.get_len();
    if len >= 2 {
        let mut i: u8 = 0;
        while i <= len - 2
            invariant
                bitfield.wf(),
                *bitfield == *old(bitfield),
                2 <= len == bitfield.spec_len(),
                0 <= i <= len - 1,
                forall|j: int| 0 <= j < i ==> !spec_pair_at(bitfield.spec_data(), j),
            decreases len - i,
        {
            let data = bitfield.get_data();
            let b1 = (data / pow2_u64(i as u64)) % 2;
            let b2 = (data / pow2_u64(i as u64 + 1)) % 2;
            if b1 != 0 && b2 != 0 {
                if i <= 32 {
                    let ghost d0 = bitfield.spec_data();
                    let code = bitfield.extract_bits(i);
                    proof {
                        if i < 32 {
                            vstd::arithmetic::power2::lemma_pow2_strictly_increases(
                                i as nat,
                                32,
                            );
                        }
                        lemma2_to64();
                        assert(code < 0x100000000);
                    }
                    bitfield.discard_bits(2);
                    proof {
                        lemma_pow2_pos(i as nat);
                        lemma_pow2_adds(i as nat, 2);
                        lemma2_to64();
                        vstd::arithmetic::div_mod::lemma_div_denominator(
                            d0 as int,
                            pow2(i as nat) as int,
                            4,
                        );
                    }
                    return Ok(Some((code as u32, i)));
                } else {
                    proof {
                        assert(spec_pair_at(bitfield.spec_data(), i as int));
                    }
                    return Err(DecompressionError::InvalidData);
                }
            }
            i = i + 1;
        }
    }
    Ok(None)
}

/// One entry of the payload lookup table: nothing, a symbol reached after
/// `code_length` bits, or a hop into a second-level table after eight bits.
#[derive(Clone, Copy)]
struct LutEntry {
    code_length: u8,
    kind: u8,  // 0 = empty, 1 = symbol, 2 = reference
    sym: u8,
    sub: usize,
}

/// What the decompressor relies on of a built table: two full levels, all
/// hops in bounds, no hop from the second level, and all lengths small.
spec fn spec_lut_wf(main: Seq<LutEntry>, subs: Seq<Vec<LutEntry>>) -> bool {
    &&& main.len() == 256
    &&& forall|i: int|
        0 <= i < 256 ==> (#[trigger] main[i]).code_length < 64 && (main[i].kind == 2 ==> main[i].sub
            < subs.len() && main[i].code_length >= 1)
    &&& forall|k: int|
        0 <= k < subs.len() ==> (#[trigger] subs[k])@.len() == 256 && forall|j: int|
            0 <= j < 256 ==> (#[trigger] subs[k]@[j]).kind != 2 && subs[k]@[j].code_length < 64
}

/// A table of 256 empty entries.
fn empty_level() -> (r: Vec<LutEntry>)
    ensures
        r@.len() == 256,
        forall|j: int| 0 <= j < 256 ==> (#[trigger] r@[j]).kind == 0 && r@[j].code_length == 0,
{
    let mut level: Vec<LutEntry> = Vec::new();
    let mut i: usize = 0;
    while i < 256
        invariant
            0 <= i <= 256,
            level@.len() == i,
            forall|j: int|
                0 <= j < i ==> (#[trigger] level@[j]).kind == 0 && level@[j].code_length == 0,
        decreases 256 - i,
    {
        level.push(LutEntry { code_length: 0, kind: 0, sym: 0, sub: 0 });
        i = i + 1;
    }
    level
}

/// Build the two-level lookup table from the extracted codes, shorter
/// codes first. Codes longer than sixteen bits are refused.
fn build_lookup_table(codes: &Vec<(u32, u8, u8)>) -> (r: Result<
    (Vec<LutEntry>, Vec<Vec<LutEntry>>),
    DecompressionError,
>)
    ensures
        r matches Ok(t) ==> spec_lut_wf(t.0@, t.1@),
        r matches Err(e) ==> e == DecompressionError::InvalidData,
{
    let mut main = empty_level();
    let mut subs: Vec<Vec<LutEntry>> = Vec::new();
    let count = codes.len();
    // Check the lengths up front.
    let mut c: usize = 0;
    while c < count
        invariant
            0 <= c <= count,
            count == codes@.len(),
            forall|t: int| 0 <= t < c ==> (#[trigger] codes@[t]).1 <= 16,
        decreases count - c,
    {
        if codes[c].1 > 16 {
            return Err(DecompressionError::InvalidData);
        }
        c = c + 1;
    }
    // Fill shorter codes first: across lengths a longer code overwrites
    // the slots of a shorter prefix, and codes of one length never clash.
    let mut target: u8 = 0;
    while target <= 16
        invariant
            0 <= target <= 17,
            count == codes@.len(),
            forall|t: int| 0 <= t < count ==> (#[trigger] codes@[t]).1 <= 16,
            spec_lut_wf(main@, subs@),
        decreases 17 - target,
    {
        let mut c: usize = 0;
        while c < count
            invariant
                0 <= c <= count,
                count == codes@.len(),
                forall|t: int| 0 <= t < count ==> (#[trigger] codes@[t]).1 <= 16,
                spec_lut_wf(main@, subs@),
            decreases count - c,
        {
            let (code, len, sym) = codes[c];
            if len == target {
                if len <= 8 {
                    proof {
                        if len < 8 {
                            vstd::arithmetic::power2::lemma_pow2_strictly_increases(
                                len as nat,
                                8,
                            );
                        }
                        lemma2_to64();
                    }
                    let step = pow2_u64(len as u64);
                    let base = (code as u64) % step;
                    let mut idx: u64 = base;
                    while idx < 256
                        invariant
                            1 <= step <= 256,
                            len <= 8,
                            spec_lut_wf(main@, subs@),
                        decreases 512 - idx,
                    {
                        let slot = &mut main[idx as usize];
                        *slot = LutEntry { code_length: len, kind: 1, sym, sub: 0 };
                        idx = idx + step;
                    }
                } else {
                    let low = (code % 256) as usize;
                    let rest = code / 256;
                    let sublen = len - 8;
                    proof {
                        if sublen < 8 {
                            vstd::arithmetic::power2::lemma_pow2_strictly_increases(
                                sublen as nat,
                                8,
                            );
                        }
                        lemma2_to64();
                    }
                    let step = pow2_u64(sublen as u64);
                    let base = (rest as u64) % step;
                    let sub_index = if main[low].kind == 2 {
                        main[low].sub
                    } else {
                        let fresh = empty_level();
                        subs.push(fresh);
                        let si = subs.len() - 1;
                        let slot = &mut main[low];
                        *slot = LutEntry { code_length: 8, kind: 2, sym: 0, sub: si };
                        si
                    };
                    proof {
                        assert(spec_lut_wf(main@, subs@));
                    }
                    let mut idx: u64 = base;
                    while idx < 256
                        invariant
                            1 <= step <= 256,
                            sub_index < subs@.len(),
                            spec_lut_wf(main@, subs@),
                            sublen < 64,
                        decreases 512 - idx,
                    {
                        let level = &mut subs[sub_index];
                        let slot = &mut level[idx as usize];
                        *slot = LutEntry { code_length: sublen, kind: 1, sym, sub: 0 };
                        idx = idx + step;
                    }
                }
            }
            c = c + 1;
        }
        target = target + 1;
    }
    Ok((main, subs))
}

/// The original size held in the three little-endian bytes at offsets
/// 2 to 4.
pub open spec fn spec_stored_size(s: Seq<u8>) -> int {
    s[2] + 256 * s[3] + 65536 * s[4]
}

/// Decompress a legacy stream, refusing to produce more than `max_size`
/// bytes.
///
/// Mode 1 returns the rest of the input as it stands; mode 3 inflates the
/// coded payload to exactly the size the header names. The cap is
/// enforced in both modes.
pub fn decompress(input: &[u8], max_size: usize) -> (r: Result<Vec<u8>, DecompressionError>)
    ensures
        match r {
            Ok(v) => {
                &&& input@.len() >= 1
                &&& (input@[0] == 1 || input@[0] == 3)
                &&& v@.len() <= max_size
                &&& (input@[0] == 1 ==> v@ == input@.skip(1))
                &&& (input@[0] == 3 ==> input@.len() >= 5 && v@.len() == spec_stored_size(input@))
            },
            Err(DecompressionError::InvalidPrefix) => input@.len() == 0 || (input@[0] != 1
                && input@[0] != 3),
            Err(DecompressionError::DataExceedsMaxSize) => (input@[0] == 1 && input@.len() - 1
                > max_size) || (input@[0] == 3 && input@.len() >= 5 && spec_stored_size(input@)
                > max_size),
            Err(_) => input@.len() >= 1 && input@[0] == 3,
        },
        input@.len() == 0 || (input@.len() >= 1 && input@[0] != 1 && input@[0] != 3) ==> r
            == Err::<Vec<u8>, DecompressionError>(DecompressionError::InvalidPrefix),
        input@.len() >= 1 && input@[0] == 1 ==> if input@.len() - 1 > max_size {
            r == Err::<Vec<u8>, DecompressionError>(DecompressionError::DataExceedsMaxSize)
        } else {
            r matches Ok(v) && v@ == input@.skip(1)
        },
        input@.len() >= 1 && input@[0] == 3 && input@.len() < 5 ==> r == Err::<
            Vec<u8>,
            DecompressionError,
        >(DecompressionError::InputIsTooSmall),
        input@.len() >= 5 && input@[0] == 3 && input@[1] == 255 ==> r == Err::<
            Vec<u8>,
            DecompressionError,
        >(DecompressionError::InvalidData),
        input@.len() >= 5 && input@[0] == 3 && input@[1] != 255 && spec_stored_size(input@) == 0
            ==> r == Err::<Vec<u8>, DecompressionError>(DecompressionError::InputIsTooSmall),
        input@.len() >= 5 && input@[0] == 3 && input@[1] != 255 && spec_stored_size(input@)
            > max_size ==> r == Err::<Vec<u8>, DecompressionError>(
            DecompressionError::DataExceedsMaxSize,
        ),
{
    let n = input.len();
    if n == 0 {
        return Err(DecompressionError::InvalidPrefix);
    }
    if input[0] == 1 {
        if n - 1 > max_size {
            return Err(DecompressionError::DataExceedsMaxSize);
        }
        let mut out: Vec<u8> = Vec::new();
        let mut i: usize = 1;
        while i < n
            invariant
                1 <= i <= n,
                n == input@.len(),
                out@ == input@.subrange(1, i as int),
            decreases n - i,
        {
            out.push(input[i]);
            proof {
                assert(out@ =~= input@.subrange(1, i as int + 1));
            }
            i = i + 1;
        }
        proof {
            assert(out@ =~= input@.skip(1));
        }
        return Ok(out);
    }
    if input[0] != 3 {
        return Err(DecompressionError::InvalidPrefix);
    }
    if n < 5 {
        return Err(DecompressionError::InputIsTooSmall);
    }
    if input[1] == 255 {
        // The symbol count would not fit its byte.
        return Err(DecompressionError::InvalidData);
    }
    let num_symbols: u16 = input[1] as u16 + 1;
    let original_size: usize = input[2] as usize + 256 * (input[3] as usize) + 65536 * (
    input[4] as usize);
    if original_size == 0 {
        return Err(DecompressionError::InputIsTooSmall);
    }
    if original_size > max_size {
        return Err(DecompressionError::DataExceedsMaxSize);
    }
    let mut codes: Vec<(u32, u8, u8)> = Vec::new();
    let mut result: Vec<u8> = Vec::new();
    let mut bitfield = Bitfield::new();
    let mut pos: usize = 5;
    let mut min_code_len: u8 = 255;

    // Code extraction.
    let mut s: u16 = 0;
    while s < num_symbols
        invariant
            0 <= s <= num_symbols,
            n == input@.len(),
            5 <= pos <= n,
            bitfield.wf(),
            input@[0] == 3,
            n >= 5,
            input@[1] != 255,
            1 <= spec_stored_size(input@) <= max_size,
        decreases num_symbols - s,
    {
        if pos >= n {
            return Err(DecompressionError::UnexpectedEof);
        }
        if bitfield.get_len() > 56 {
            return Err(DecompressionError::InvalidData);
        }
        let symbol = bitfield.insert_and_extract_byte(input[pos]);
        pos = pos + 1;
        let mut got: bool = false;
        while !got
            invariant
                n == input@.len(),
                5 <= pos <= n,
                bitfield.wf(),
                input@[0] == 3,
                n >= 5,
                input@[1] != 255,
                1 <= spec_stored_size(input@) <= max_size,
            decreases 2 * (n - pos) + 1 + (if got {
                0int
            } else {
                1int
            }),
        {
            if pos >= n {
                return Err(DecompressionError::UnexpectedEof);
            }
            match bitfield.insert(input[pos]) {
                Ok(_) => (),
                Err(_) => {
                    return Err(DecompressionError::InvalidData);
                },
            }
            pos = pos + 1;
            match get_code(&mut bitfield) {
                Err(e) => {
                    return Err(e);
                },
                Ok(Some((code, code_len))) => {
                    let (ucode, ulen) = unescape_code(code, code_len);
                    if ulen < min_code_len {
                        min_code_len = ulen;
                    }
                    codes.push((ucode, ulen, symbol));
                    got = true;
                },
                Ok(None) => (),
            }
        }
        s = s + 1;
    }

    // Decompression.
    let (main, subs) = match build_lookup_table(&codes) {
        Ok(t) => t,
        Err(e) => {
            return Err(e);
        },
    };
    loop
        invariant
            n == input@.len(),
            5 <= pos <= n,
            bitfield.wf(),
            spec_lut_wf(main@, subs@),
            result@.len() < original_size,
            original_size <= max_size,
            input@[0] == 3,
            n >= 5,
            input@[1] != 255,
            original_size == spec_stored_size(input@),
        decreases 8 * (n - pos) + bitfield.spec_len(),
    {
        let ghost m0 = 8 * (n - pos) as int + bitfield.spec_len();
        // Refill from the input.
        while bitfield.get_len() <= 56 && pos < n
            invariant
                n == input@.len(),
                5 <= pos <= n,
                bitfield.wf(),
                8 * (n - pos) as int + bitfield.spec_len() == m0,
            decreases n - pos,
        {
            let _ = bitfield.insert(input[pos]);
            pos = pos + 1;
        }
        let original_len = bitfield.get_len();
        let ghost pos_r = pos as int;
        if original_len < min_code_len {
            break ;
        }
        let mut cur = main[bitfield.peek_byte() as usize];
        if original_len < cur.code_length {
            break ;
        }
        let mut new_bitfield = bitfield;
        let mut committed: bool = false;
        while !committed && new_bitfield.get_len() >= cur.code_length
            invariant
                new_bitfield.wf(),
                new_bitfield.spec_len() <= original_len,
                spec_lut_wf(main@, subs@),
                cur.code_length < 64,
                cur.kind == 2 ==> cur.sub < subs@.len(),
                bitfield.wf(),
                result@.len() < original_size,
                committed ==> bitfield.spec_len() < original_len,
                !committed ==> bitfield.spec_len() == original_len,
                n == input@.len(),
                input@[0] == 3,
                n >= 5,
                input@[1] != 255,
                original_size == spec_stored_size(input@),
                original_size <= max_size,
            decreases 2 * new_bitfield.spec_len() + (if committed {
                0int
            } else {
                1int
            }),
        {
            if cur.code_length == 0 || cur.kind == 0 {
                return Err(DecompressionError::InvalidData);
            }
            if cur.kind == 2 {
                new_bitfield.discard_bits(cur.code_length);
                let level = &subs[cur.sub];
                cur = level[new_bitfield.peek_byte() as usize];
            } else {
                result.push(cur.sym);
                if result.len() == original_size {
                    return Ok(result);
                }
                bitfield = new_bitfield;
                bitfield.discard_bits(cur.code_length);
                committed = true;
            }
        }
        if !committed {
            return Err(DecompressionError::InvalidData);
        }
        if bitfield.get_len() == original_len {
            return Err(DecompressionError::InvalidData);
        }
        proof {
            assert(8 * (n - pos) as int + bitfield.spec_len() < m0);
        }
    }
    Err(DecompressionError::InvalidData)
}

/// What unescaping the low `len` bits of `code` from position `i` on
/// yields: a set bit contributes a set output bit and skips the filler
/// bit after it, a clear bit contributes a clear output bit; the second
/// component counts the output bits.
pub open spec fn spec_unescape_from(code: int, i: int, len: int) -> (int, int)
    decreases len + 1 - i,
{
    if i < 0 || i >= len {
        (0int, 0int)
    } else if (code / (pow2(i as nat) as int)) % 2 == 1 {
        let rest = spec_unescape_from(code, i + 2, len);
        (1 + 2 * rest.0, 1 + rest.1)
    } else {
        let rest = spec_unescape_from(code, i + 1, len);
        (2 * rest.0, 1 + rest.1)
    }
}

/// Drop the filler bit written after every set bit of `code`: each set
/// bit consumes two input positions, each clear bit one, and every
/// consumed position yields one output bit.
pub fn unescape_code(code: u32, code_len: u8) -> (r: (u32, u8))
    requires
        code_len <= 32,
    ensures
        r.0 == spec_unescape_from(code as int, 0, code_len as int).0,
        r.1 == spec_unescape_from(code as int, 0, code_len as int).1,
        r.1 <= code_len,
{
    let ghost c = code as int;
    let ghost len = code_len as int;
    let mut unescaped: u32 = 0;
    let mut i: u8 = 0;
    let mut l: u8 = 0;
    proof {
        lemma2_to64();
    }
    while i < code_len
        invariant
            code_len <= 32,
            c == code as int,
            len == code_len as int,
            0 <= l <= i <= code_len + 1,
            l <= code_len,
            unescaped < pow2(l as nat),
            spec_unescape_from(c, 0, len).0 == unescaped + pow2(l as nat) * spec_unescape_from(
                c,
                i as int,
                len,
            ).0,
            spec_unescape_from(c, 0, len).1 == l + spec_unescape_from(c, i as int, len).1,
        decreases code_len + 2 - i,
    {
        proof {
            vstd::bits::lemma_u32_shr_is_div(code, i as u32);
            assert((code & (1u32 << (i as u32)) != 0) == ((code >> (i as u32)) % 2 == 1))
                by (bit_vector)
                requires
                    i < 32,
            ;
            lemma_pow2_adds(l as nat, 1);
            lemma2_to64();
            lemma_pow2_pos(l as nat);
        }
        let ghost rest = spec_unescape_from(c, i as int + 1, len);
        let ghost rest2 = spec_unescape_from(c, i as int + 2, len);
        if code & (1u32 << (i as u32)) != 0 {
            proof {
                vstd::bits::lemma_u32_shl_is_mul(1, l as u32);
                assert(unescaped | (1u32 << (l as u32)) == unescaped + (1u32 << (l as u32)))
                    by (bit_vector)
                    requires
                        unescaped < (1u32 << (l as u32)) && l < 32,
                ;
                assert(unescaped + pow2(l as nat) * (1 + 2 * rest2.0) == (unescaped + pow2(
                    l as nat,
                )) + pow2((l + 1) as nat) * rest2.0) by (nonlinear_arith)
                    requires
                        pow2((l + 1) as nat) == 2 * pow2(l as nat),
                ;
            }
            unescaped = unescaped | (1u32 << (l as u32));
            i = i + 1;
        } else {
            proof {
                assert(unescaped + pow2(l as nat) * (2 * rest.0) == unescaped + pow2(
                    (l + 1) as nat,
                ) * rest.0) by (nonlinear_arith)
                    requires
                        pow2((l + 1) as nat) == 2 * pow2(l as nat),
                ;
            }
        }
        i = i + 1;
        l = l + 1;
    }
    proof {
        assert(spec_unescape_from(c, i as int, len) == (0int, 0int));
    }
    (unescaped, l)
}

} // verus!
