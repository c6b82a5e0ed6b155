//! Byte-level reading of the textual format.

use vstd::prelude::*;

use crate::ace_serialize::error::DeserializationError;

verus! {

/// The byte an escape character decodes to, if it is a valid one.
pub open spec fn spec_unescape_char(x: u8) -> Option<u8> {
    if 0x40 <= x <= 0x5d || 0x5f <= x <= 0x60 {
        Some((x - 64) as u8)
    } else if x == 0x7a {
        Some(0x1eu8)
    } else if x == 0x7b {
        Some(0x7fu8)
    } else if x == 0x7c {
        Some(0x7eu8)
    } else if x == 0x7d {
        Some(0x5eu8)
    } else {
        None
    }
}

/// What parsing a string body from the front of `s` yields: the decoded
/// bytes and the count of input bytes consumed, the body's unconsumed
/// `^` terminator excluded.
pub open spec fn spec_parse_str(s: Seq<u8>) -> Result<(Seq<u8>, int), DeserializationError>
    decreases s.len(),
{
    if s.len() == 0 {
        Err(DeserializationError::UnexpectedEof)
    } else if s[0] == 0x5e {
        Ok((Seq::empty(), 0))
    } else if s[0] == 0x7e {
        if s.len() < 2 {
            Err(DeserializationError::InvalidEscapeCharacter)
        } else {
            match spec_unescape_char(s[1]) {
                None => Err(DeserializationError::InvalidEscapeCharacter),
                Some(b) => match spec_parse_str(s.skip(2)) {
                    Ok((d, c)) => Ok((seq![b] + d, c + 2)),
                    Err(e) => Err(e),
                },
            }
        }
    } else {
        match spec_parse_str(s.skip(1)) {
            Ok((d, c)) => Ok((seq![s[0]] + d, c + 1)),
            Err(e) => Err(e),
        }
    }
}

/// Parsing a string body fails only by running out of input or on a bad
/// escape character.
pub proof fn lemma_parse_str_errors(s: Seq<u8>)
    ensures
        spec_parse_str(s) matches Err(e) ==> e == DeserializationError::UnexpectedEof || e
            == DeserializationError::InvalidEscapeCharacter,
    decreases s.len(),
{
    if s.len() > 0 && s[0] != 0x5e {
        if s[0] == 0x7e {
            if s.len() >= 2 {
                lemma_parse_str_errors(s.skip(2));
            }
        } else {
            lemma_parse_str_errors(s.skip(1));
        }
    }
}

/// A reader over the bytes of a textual stream.
pub struct StrReader<'s> {
    slice: &'s [u8],
    index: usize,
}

impl<'s> StrReader<'s> {
    /// The whole input.
    pub closed spec fn spec_slice(&self) -> Seq<u8> {
        self.slice@
    }

    /// The read position.
    pub closed spec fn spec_index(&self) -> int {
        self.index as int
    }

    /// The position never passes the end of the input.
    pub open spec fn wf(&self) -> bool {
        0 <= self.spec_index() <= self.spec_slice().len()
    }

    /// The bytes not yet read.
    pub open spec fn spec_rest(&self) -> Seq<u8> {
        self.spec_slice().skip(self.spec_index())
    }

    /// Create a reader over `slice`.
    pub fn new(slice: &'s [u8]) -> (r: StrReader<'s>)
        ensures
            r.wf(),
            r.spec_slice() == slice@,
            r.spec_index() == 0,
    {
        StrReader { slice, index: 0 }
    }

    /// The byte at the read position, advancing past it.
    pub fn next(&mut self) -> (r: Option<u8>)
        requires
            old(self).wf(),
        ensures
            final(self).wf(),
            final(self).spec_slice() == old(self).spec_slice(),
            match r {
                Some(b) => old(self).spec_index() < old(self).spec_slice().len() && b == old(self).spec_slice()[old(self).spec_index()] && final(self).spec_index() == old(self).spec_index() + 1,
                None => old(self).spec_index() == old(self).spec_slice().len() && final(self).spec_index() == old(self).spec_index(),
            },
    {
        if self.index < self.slice.len() {
            let c = self.slice[self.index];
            self.index = self.index + 1;
            Some(c)
        } else {
            None
        }
    }

    /// The byte at the read position, if any.
    pub fn peek(&self) -> (r: Option<u8>)
        requires
            self.wf(),
        ensures
            match r {
                Some(b) => self.spec_index() < self.spec_slice().len() && b
                    == self.spec_slice()[self.spec_index()],
                None => self.spec_index() == self.spec_slice().len(),
            },
    {
        if self.index < self.slice.len() {
            Some(self.slice[self.index])
        } else {
            None
        }
    }

    /// Advance past the byte at the read position.
    pub fn discard(&mut self)
        requires
            old(self).wf(),
            old(self).spec_index() < old(self).spec_slice().len(),
        ensures
            final(self).wf(),
            final(self).spec_slice() == old(self).spec_slice(),
            final(self).spec_index() == old(self).spec_index() + 1,
    {
        let n = self.slice.len();
        proof {
            assert(self.spec_index() < n);
        }
        self.index = self.index + 1;
    }

    /// The read position.
    pub fn position(&self) -> (r: usize)
        ensures
            r == self.spec_index(),
    {
        self.index
    }

    /// Read a two-byte identifier: a `^` and a second byte at most `0x79`
    /// (so that a multibyte character is never split). The second byte is
    /// returned.
    pub fn read_identifier(&mut self) -> (r: Result<u8, DeserializationError>)
        requires
            old(self).wf(),
        ensures
            final(self).wf(),
            final(self).spec_slice() == old(self).spec_slice(),
            match r {
                Ok(c) => {
                    &&& old(self).spec_index() + 1 < old(self).spec_slice().len()
                    &&& old(self).spec_slice()[old(self).spec_index()] == 0x5e
                    &&& c == old(self).spec_slice()[old(self).spec_index() + 1]
                    &&& c <= 0x79
                    &&& final(self).spec_index() == old(self).spec_index() + 2
                },
                Err(DeserializationError::UnexpectedEof) => {
                    &&& old(self).spec_index() + 1 >= old(self).spec_slice().len()
                    &&& final(self).spec_index() == old(self).spec_index()
                },
                Err(DeserializationError::InvalidIdentifier) => {
                    &&& old(self).spec_index() + 1 < old(self).spec_slice().len()
                    &&& !(old(self).spec_slice()[old(self).spec_index()] == 0x5e && old(self).spec_slice()[old(self).spec_index() + 1] <= 0x79)
                    &&& final(self).spec_index() == old(self).spec_index()
                },
                _ => false,
            },
    {
        if self.slice.len() - self.index >= 2 {
            let b0 = self.slice[self.index];
            let b1 = self.slice[self.index + 1];
            if b0 == 0x5e && b1 <= 0x79 {
                self.index = self.index + 2;
                Ok(b1)
            } else {
                Err(DeserializationError::InvalidIdentifier)
            }
        } else {
            Err(DeserializationError::UnexpectedEof)
        }
    }

    /// Like [`Self::read_identifier`], without advancing.
    pub fn peek_identifier(&self) -> (r: Result<u8, DeserializationError>)
        requires
            self.wf(),
        ensures
            match r {
                Ok(c) => {
                    &&& self.spec_index() + 1 < self.spec_slice().len()
                    &&& self.spec_slice()[self.spec_index()] == 0x5e
                    &&& c == self.spec_slice()[self.spec_index() + 1]
                    &&& c <= 0x79
                },
                Err(DeserializationError::UnexpectedEof) => self.spec_index() + 1
                    >= self.spec_slice().len(),
                Err(DeserializationError::InvalidIdentifier) => {
                    &&& self.spec_index() + 1 < self.spec_slice().len()
                    &&& !(self.spec_slice()[self.spec_index()] == 0x5e && self.spec_slice()[self.spec_index()
                        + 1] <= 0x79)
                },
                _ => false,
            },
    {
        if self.slice.len() - self.index >= 2 {
            let b0 = self.slice[self.index];
            let b1 = self.slice[self.index + 1];
            if b0 == 0x5e && b1 <= 0x79 {
                Ok(b1)
            } else {
                Err(DeserializationError::InvalidIdentifier)
            }
        } else {
            Err(DeserializationError::UnexpectedEof)
        }
    }

    /// Read the bytes up to (not including) the next `^`.
    pub fn read_until_next(&mut self) -> (r: Result<Vec<u8>, DeserializationError>)
        requires
            old(self).wf(),
        ensures
            final(self).wf(),
            final(self).spec_slice() == old(self).spec_slice(),
            match r {
                Ok(v) => {
                    &&& old(self).spec_index() <= final(self).spec_index() < old(self).spec_slice().len()
                    &&& old(self).spec_slice()[final(self).spec_index()] == 0x5e
                    &&& v@ == old(self).spec_slice().subrange(
                        old(self).spec_index(),
                        final(self).spec_index(),
                    )
                    &&& forall|j: int|
                        old(self).spec_index() <= j < final(self).spec_index() ==> old(self).spec_slice()[j] != 0x5e
                },
                Err(DeserializationError::UnexpectedEof) => old(self).spec_index() <= final(self).spec_index() && forall|j: int|
                    old(self).spec_index() <= j < old(self).spec_slice().len() ==> old(self).spec_slice()[j] != 0x5e,
                _ => false,
            },
    {
        let ghost start = self.spec_index();
        let mut out: Vec<u8> = Vec::new();
        loop
            invariant
                self.wf(),
                self.spec_slice() == old(self).spec_slice(),
                start == old(self).spec_index(),
                start <= self.spec_index() <= self.spec_slice().len(),
                out@ == self.spec_slice().subrange(start, self.spec_index()),
                forall|j: int| start <= j < self.spec_index() ==> self.spec_slice()[j] != 0x5e,
            decreases self.spec_slice().len() - self.spec_index(),
        {
            match self.peek() {
                None => {
                    return Err(DeserializationError::UnexpectedEof);
                },
                Some(b) => {
                    if b == 0x5e {
                        return Ok(out);
                    }
                    out.push(b);
                    self.discard();
                    proof {
                        assert(out@ =~= self.spec_slice().subrange(start, self.spec_index()));
                    }
                },
            }
        }
    }

    /// Read and escape-decode a string body, up to (not including) the
    /// next unescaped `^`.
    pub fn parse_str(&mut self) -> (r: Result<Vec<u8>, DeserializationError>)
        requires
            old(self).wf(),
        ensures
            final(self).wf(),
            final(self).spec_slice() == old(self).spec_slice(),
            old(self).spec_index() <= final(self).spec_index(),
            match r {
                Ok(v) => {
                    &&& spec_parse_str(old(self).spec_rest()) matches Ok(p)
                    &&& v@ == spec_parse_str(old(self).spec_rest()).unwrap().0
                    &&& final(self).spec_index() == old(self).spec_index() + spec_parse_str(
                        old(self).spec_rest(),
                    ).unwrap().1
                    &&& final(self).spec_index() < final(self).spec_slice().len()
                    &&& final(self).spec_slice()[final(self).spec_index()] == 0x5e
                },
                Err(e) => spec_parse_str(old(self).spec_rest()) == Err::<(Seq<u8>, int),
                    DeserializationError,
                >(e),
            },
    {
        let mut out: Vec<u8> = Vec::new();
        loop
            invariant
                self.wf(),
                self.spec_slice() == old(self).spec_slice(),
                old(self).spec_index() <= self.spec_index(),
                spec_parse_str(old(self).spec_rest()) == (match spec_parse_str(self.spec_rest()) {
                    Ok(p) => Ok::<(Seq<u8>, int), DeserializationError>(
                        (
                            out@ + p.0,
                            (self.spec_index() - old(self).spec_index()) + p.1,
                        ),
                    ),
                    Err(e) => Err(e),
                }),
            decreases self.spec_slice().len() - self.spec_index(),
        {
            let ghost rest0 = self.spec_rest();
            let ghost out0 = out@;
            match self.peek() {
                None => {
                    proof {
                        assert(rest0.len() == 0);
                    }
                    return Err(DeserializationError::UnexpectedEof);
                },
                Some(b) => {
                    proof {
                        assert(rest0[0] == b);
                    }
                    if b == 0x5e {
                        proof {
                            assert(out@ + Seq::<u8>::empty() =~= out@);
                        }
                        return Ok(out);
                    } else if b == 0x7e {
                        self.discard();
                        let e = match self.peek() {
                            Some(x) => x,
                            None => {
                                proof {
                                    assert(rest0.len() < 2);
                                }
                                return Err(DeserializationError::InvalidEscapeCharacter);
                            },
                        };
                        proof {
                            assert(rest0.len() >= 2 && rest0[1] == e);
                        }
                        let d = if 0x40 <= e && e <= 0x5d {
                            e - 64
                        } else if 0x5f <= e && e <= 0x60 {
                            e - 64
                        } else if e == 0x7a {
                            0x1e
                        } else if e == 0x7b {
                            0x7f
                        } else if e == 0x7c {
                            0x7e
                        } else if e == 0x7d {
                            0x5e
                        } else {
                            return Err(DeserializationError::InvalidEscapeCharacter);
                        };
                        self.discard();
                        out.push(d);
                        proof {
                            assert(self.spec_rest() =~= rest0.skip(2));
                            assert(spec_unescape_char(rest0[1]) == Some(d));
                            if spec_parse_str(self.spec_rest()) is Ok {
                                let p = spec_parse_str(self.spec_rest()).unwrap();
                                assert(out0 + (seq![d] + p.0) =~= out@ + p.0);
                            }
                        }
                    } else {
                        self.discard();
                        out.push(b);
                        proof {
                            assert(self.spec_rest() =~= rest0.skip(1));
                            if spec_parse_str(self.spec_rest()) is Ok {
                                let p = spec_parse_str(self.spec_rest()).unwrap();
                                assert(out0 + (seq![b] + p.0) =~= out@ + p.0);
                            }
                        }
                    }
                },
            }
        }
    }
}

} // verus!
