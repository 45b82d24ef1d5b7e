//! The decoder: a cursor over a byte buffer, verified to return exactly what
//! `spec_decode` says for the bytes at its position.

use vstd::prelude::*;
use crate::term::{DecodeError, ErlangTerm, TermView, views_of, lemma_views_of_push, lemma_views_of_index};
use crate::decode_spec::{
    DecodeOutcome, DecodeRunOutcome, be_u16_at, be_u32_at, be_u64_at, be_i32_at, be_u32_run_at,
    spec_decode, spec_decode_terms, prepend_run, spec_decode_atom_cache_ref, spec_decode_small_integer,
    spec_decode_integer, spec_decode_float, spec_decode_new_float, spec_decode_atom,
    spec_decode_string, spec_decode_binary, spec_decode_big_integer, spec_decode_bit_binary,
    spec_decode_reference, spec_decode_new_reference, spec_decode_port, spec_decode_pid,
    spec_decode_tuple, spec_decode_list, spec_decode_fun, spec_decode_new_fun, spec_decode_export,
};
use crate::float_lit::check_float_literal;

verus! {

/// Whether the executable outcome `r`, ending at position `end`, is the one
/// the specification `o` demands.
pub open spec fn outcome_matches(o: DecodeOutcome, r: Result<ErlangTerm, DecodeError>, end: int) -> bool {
    match r {
        Ok(t) => o == Ok::<(TermView, int), (DecodeError, int)>((t@, end)),
        Err(e) => o == Err::<(TermView, int), (DecodeError, int)>((e, end)),
    }
}

/// Whether the executable outcome of a run of terms matches the
/// specification `o`.
pub open spec fn run_matches(o: DecodeRunOutcome, r: Result<Vec<ErlangTerm>, DecodeError>, end: int) -> bool {
    match r {
        Ok(v) => o == Ok::<(Seq<TermView>, int), (DecodeError, int)>((views_of(v@), end)),
        Err(e) => o == Err::<(Seq<TermView>, int), (DecodeError, int)>((e, end)),
    }
}

/// A decoder: the byte source and a cursor over it. Each `decode` call
/// consumes exactly the bytes of one term.
pub struct Decoder {
    data: Vec<u8>,
    pos: usize,
}

impl Decoder {
    /// The bytes the decoder was given.
    pub closed spec fn bytes(&self) -> Seq<u8> {
        self.data@
    }

    /// The cursor: how many bytes have been consumed.
    pub closed spec fn position(&self) -> int {
        self.pos as int
    }

    /// The cursor never passes the end of the bytes.
    pub open spec fn wf(&self) -> bool {
        0 <= self.position() <= self.bytes().len()
    }

    /// A decoder over the given bytes, with nothing consumed yet.
    pub fn new(data: Vec<u8>) -> (d: Decoder)
        ensures
            d.bytes() == data@,
            d.position() == 0,
            d.wf(),
    {
        Decoder { data, pos: 0 }
    }

    /// How many bytes have been consumed so far.
    pub fn offset(&self) -> (n: usize)
        ensures
            n as int == self.position(),
    {
        self.pos
    }

    /// One byte, or `Truncated` without moving.
    fn read_u8(&mut self) -> (r: Result<u8, DecodeError>)
        requires
            old(self).wf(),
        ensures
            final(self).wf(),
            final(self).bytes() == old(self).bytes(),
            old(self).position() + 1 <= old(self).bytes().len() ==> r == Ok::<u8, DecodeError>(
                old(self).bytes()[old(self).position()],
            ) && final(self).position() == old(self).position() + 1,
            old(self).position() + 1 > old(self).bytes().len() ==> r == Err::<u8, DecodeError>(
                DecodeError::Truncated,
            ) && final(self).position() == old(self).position(),
    {
        if self.pos < self.data.len() {
            let b = self.data[self.pos];
            self.pos = self.pos + 1;
            Ok(b)
        } else {
            Err(DecodeError::Truncated)
        }
    }

    /// Exactly `n` bytes, or `Truncated` without moving.
    fn read_exact(&mut self, n: usize) -> (r: Result<Vec<u8>, DecodeError>)
        requires
            old(self).wf(),
        ensures
            final(self).wf(),
            final(self).bytes() == old(self).bytes(),
            old(self).position() + n <= old(self).bytes().len() ==> (match r {
                Ok(v) => v@ == old(self).bytes().subrange(
                    old(self).position(),
                    old(self).position() + n,
                ) && final(self).position() == old(self).position() + n,
                Err(_) => false,
            }),
            old(self).position() + n > old(self).bytes().len() ==> r == Err::<
                Vec<u8>,
                DecodeError,
            >(DecodeError::Truncated) && final(self).position() == old(self).position(),
    {
        if n > self.data.len() - self.pos {
            Err(DecodeError::Truncated)
        } else {
            let mut out: Vec<u8> = Vec::new();
            let mut i: usize = 0;
            while i < n
                invariant
                    self.wf(),
                    self.pos + n <= self.data.len(),
                    i <= n,
                    out@ =~= self.data@.subrange(self.pos as int, self.pos + i),
                decreases n - i,
            {
                out.push(self.data[self.pos + i]);
                i = i + 1;
                proof {
                    assert(out@ =~= self.data@.subrange(self.pos as int, self.pos + i));
                }
            }
            self.pos = self.pos + n;
            Ok(out)
        }
    }

    /// A 2-byte big-endian field, or `Truncated` without moving.
    fn read_be_u16(&mut self) -> (r: Result<u16, DecodeError>)
        requires
            old(self).wf(),
        ensures
            final(self).wf(),
            final(self).bytes() == old(self).bytes(),
            old(self).position() + 2 <= old(self).bytes().len() ==> r == Ok::<u16, DecodeError>(
                be_u16_at(old(self).bytes(), old(self).position()),
            ) && final(self).position() == old(self).position() + 2,
            old(self).position() + 2 > old(self).bytes().len() ==> r == Err::<u16, DecodeError>(
                DecodeError::Truncated,
            ) && final(self).position() == old(self).position(),
    {
        if 2 > self.data.len() - self.pos {
            Err(DecodeError::Truncated)
        } else {
            let b0 = self.data[self.pos];
            let b1 = self.data[self.pos + 1];
            self.pos = self.pos + 2;
            let v: u16 = ((b0 as u16) << 8u16) | (b1 as u16);
            proof {
                let s = old(self).bytes();
                let p = old(self).position();
                assert(s.subrange(p, p + 2)[0] == b0);
                assert(s.subrange(p, p + 2)[1] == b1);
            }
            Ok(v)
        }
    }

    /// A 4-byte big-endian field, or `Truncated` without moving.
    fn read_be_u32(&mut self) -> (r: Result<u32, DecodeError>)
        requires
            old(self).wf(),
        ensures
            final(self).wf(),
            final(self).bytes() == old(self).bytes(),
            old(self).position() + 4 <= old(self).bytes().len() ==> r == Ok::<u32, DecodeError>(
                be_u32_at(old(self).bytes(), old(self).position()),
            ) && final(self).position() == old(self).position() + 4,
            old(self).position() + 4 > old(self).bytes().len() ==> r == Err::<u32, DecodeError>(
                DecodeError::Truncated,
            ) && final(self).position() == old(self).position(),
    {
        if 4 > self.data.len() - self.pos {
            Err(DecodeError::Truncated)
        } else {
            let b0 = self.data[self.pos];
            let b1 = self.data[self.pos + 1];
            let b2 = self.data[self.pos + 2];
            let b3 = self.data[self.pos + 3];
            self.pos = self.pos + 4;
            let v: u32 = ((b0 as u32) << 24u32) | ((b1 as u32) << 16u32) | ((b2 as u32) << 8u32)
                | (b3 as u32);
            proof {
                let s = old(self).bytes();
                let p = old(self).position();
                assert(s.subrange(p, p + 4)[0] == b0);
                assert(s.subrange(p, p + 4)[1] == b1);
                assert(s.subrange(p, p + 4)[2] == b2);
                assert(s.subrange(p, p + 4)[3] == b3);
            }
            Ok(v)
        }
    }

    /// An 8-byte big-endian field, or `Truncated` without moving.
    fn read_be_u64(&mut self) -> (r: Result<u64, DecodeError>)
        requires
            old(self).wf(),
        ensures
            final(self).wf(),
            final(self).bytes() == old(self).bytes(),
            old(self).position() + 8 <= old(self).bytes().len() ==> r == Ok::<u64, DecodeError>(
                be_u64_at(old(self).bytes(), old(self).position()),
            ) && final(self).position() == old(self).position() + 8,
            old(self).position() + 8 > old(self).bytes().len() ==> r == Err::<u64, DecodeError>(
                DecodeError::Truncated,
            ) && final(self).position() == old(self).position(),
    {
        if 8 > self.data.len() - self.pos {
            Err(DecodeError::Truncated)
        } else {
            let b0 = self.data[self.pos];
            let b1 = self.data[self.pos + 1];
            let b2 = self.data[self.pos + 2];
            let b3 = self.data[self.pos + 3];
            let b4 = self.data[self.pos + 4];
            let b5 = self.data[self.pos + 5];
            let b6 = self.data[self.pos + 6];
            let b7 = self.data[self.pos + 7];
            self.pos = self.pos + 8;
            let v: u64 = ((b0 as u64) << 56u64) | ((b1 as u64) << 48u64) | ((b2 as u64) << 40u64)
                | ((b3 as u64) << 32u64) | ((b4 as u64) << 24u64) | ((b5 as u64) << 16u64) | ((
            b6 as u64) << 8u64) | (b7 as u64);
            proof {
                let s = old(self).bytes();
                let p = old(self).position();
                assert(s.subrange(p, p + 8)[0] == b0);
                assert(s.subrange(p, p + 8)[1] == b1);
                assert(s.subrange(p, p + 8)[2] == b2);
                assert(s.subrange(p, p + 8)[3] == b3);
                assert(s.subrange(p, p + 8)[4] == b4);
                assert(s.subrange(p, p + 8)[5] == b5);
                assert(s.subrange(p, p + 8)[6] == b6);
                assert(s.subrange(p, p + 8)[7] == b7);
            }
            Ok(v)
        }
    }

    /// A 4-byte big-endian two's-complement field, or `Truncated` without
    /// moving.
    fn read_be_i32(&mut self) -> (r: Result<i32, DecodeError>)
        requires
            old(self).wf(),
        ensures
            final(self).wf(),
            final(self).bytes() == old(self).bytes(),
            old(self).position() + 4 <= old(self).bytes().len() ==> r == Ok::<i32, DecodeError>(
                be_i32_at(old(self).bytes(), old(self).position()),
            ) && final(self).position() == old(self).position() + 4,
            old(self).position() + 4 > old(self).bytes().len() ==> r == Err::<i32, DecodeError>(
                DecodeError::Truncated,
            ) && final(self).position() == old(self).position(),
    {
        match self.read_be_u32() {
            Ok(v) => Ok(v as i32),
            Err(e) => Err(e),
        }
    }

    /// Exactly `n` consecutive 4-byte big-endian fields, or `Truncated`
    /// without moving.
    fn read_u32_run(&mut self, n: usize) -> (r: Result<Vec<u32>, DecodeError>)
        requires
            old(self).wf(),
        ensures
            final(self).wf(),
            final(self).bytes() == old(self).bytes(),
            old(self).position() + 4 * n <= old(self).bytes().len() ==> (match r {
                Ok(v) => v@ == be_u32_run_at(old(self).bytes(), old(self).position(), n as nat)
                    && final(self).position() == old(self).position() + 4 * n,
                Err(_) => false,
            }),
            old(self).position() + 4 * n > old(self).bytes().len() ==> r == Err::<
                Vec<u32>,
                DecodeError,
            >(DecodeError::Truncated) && final(self).position() == old(self).position(),
    {
        if n > (self.data.len() - self.pos) / 4 {
            proof {
                assert(old(self).position() + 4 * n > old(self).bytes().len());
            }
            Err(DecodeError::Truncated)
        } else {
            proof {
                assert(4 * n <= old(self).bytes().len() - old(self).position());
            }
            let ghost p0 = self.position();
            let mut out: Vec<u32> = Vec::new();
            let mut i: usize = 0;
            while i < n
                invariant
                    self.wf(),
                    self.bytes() == old(self).bytes(),
                    i <= n,
                    self.position() == p0 + 4 * i,
                    p0 + 4 * n <= self.bytes().len(),
                    out@.len() == i,
                    forall|j: int| 0 <= j < i ==> out@[j] == be_u32_at(self.bytes(), p0 + 4 * j),
                decreases n - i,
            {
                match self.read_be_u32() {
                    Ok(v) => {
                        out.push(v);
                    },
                    Err(_) => {
                        proof {
                            assert(false);
                        }
                    },
                }
                i = i + 1;
            }
            proof {
                assert(out@ =~= be_u32_run_at(old(self).bytes(), p0, n as nat));
            }
            Ok(out)
        }
    }

    /// An atom-cache reference: one raw index byte, stored opaquely.
    fn parse_atom_cache_ref(&mut self) -> (r: Result<ErlangTerm, DecodeError>)
        requires
            old(self).wf(),
        ensures
            final(self).wf(),
            final(self).bytes() == old(self).bytes(),
            old(self).position() <= final(self).position(),
            outcome_matches(
                spec_decode_atom_cache_ref(old(self).bytes(), old(self).position()),
                r,
                final(self).position(),
            ),
    {
        match self.read_u8() {
            Ok(index) => Ok(ErlangTerm::AtomCacheRef(index)),
            Err(e) => Err(e),
        }
    }

    /// A small integer: one unsigned byte.
    fn parse_small_integer(&mut self) -> (r: Result<ErlangTerm, DecodeError>)
        requires
            old(self).wf(),
        ensures
            final(self).wf(),
            final(self).bytes() == old(self).bytes(),
            old(self).position() <= final(self).position(),
            outcome_matches(
                spec_decode_small_integer(old(self).bytes(), old(self).position()),
                r,
                final(self).position(),
            ),
    {
        match self.read_u8() {
            Ok(v) => Ok(ErlangTerm::Integer(v as i32)),
            Err(e) => Err(e),
        }
    }

    /// A full integer: a 4-byte big-endian signed value.
    fn parse_integer(&mut self) -> (r: Result<ErlangTerm, DecodeError>)
        requires
            old(self).wf(),
        ensures
            final(self).wf(),
            final(self).bytes() == old(self).bytes(),
            old(self).position() <= final(self).position(),
            outcome_matches(
                spec_decode_integer(old(self).bytes(), old(self).position()),
                r,
                final(self).position(),
            ),
    {
        match self.read_be_i32() {
            Ok(v) => Ok(ErlangTerm::Integer(v)),
            Err(e) => Err(e),
        }
    }

    /// A legacy float: 26 text bytes that must form a floating literal, then
    /// 5 padding bytes that are discarded.
    fn parse_float(&mut self) -> (r: Result<ErlangTerm, DecodeError>)
        requires
            old(self).wf(),
        ensures
            final(self).wf(),
            final(self).bytes() == old(self).bytes(),
            old(self).position() <= final(self).position(),
            outcome_matches(
                spec_decode_float(old(self).bytes(), old(self).position()),
                r,
                final(self).position(),
            ),
    {
        let text = match self.read_exact(26) {
            Ok(v) => v,
            Err(e) => {
                return Err(e);
            },
        };
        match self.read_exact(5) {
            Ok(_) => {},
            Err(e) => {
                return Err(e);
            },
        };
        if check_float_literal(text.as_slice()) {
            Ok(ErlangTerm::LegacyFloat(text))
        } else {
            Err(DecodeError::MalformedFloat)
        }
    }

    /// A compact float: the 8-byte bit pattern of an IEEE-754 double.
    fn parse_new_float(&mut self) -> (r: Result<ErlangTerm, DecodeError>)
        requires
            old(self).wf(),
        ensures
            final(self).wf(),
            final(self).bytes() == old(self).bytes(),
            old(self).position() <= final(self).position(),
            outcome_matches(
                spec_decode_new_float(old(self).bytes(), old(self).position()),
                r,
                final(self).position(),
            ),
    {
        match self.read_be_u64() {
            Ok(bits) => Ok(ErlangTerm::Float(bits)),
            Err(e) => Err(e),
        }
    }

    /// An atom: a 1-byte or 2-byte big-endian length, then the text bytes.
    fn parse_atom(&mut self, small: bool) -> (r: Result<ErlangTerm, DecodeError>)
        requires
            old(self).wf(),
        ensures
            final(self).wf(),
            final(self).bytes() == old(self).bytes(),
            old(self).position() <= final(self).position(),
            outcome_matches(
                spec_decode_atom(old(self).bytes(), old(self).position(), small),
                r,
                final(self).position(),
            ),
    {
        let l: usize = if small {
            match self.read_u8() {
                Ok(b) => b as usize,
                Err(e) => {
                    return Err(e);
                },
            }
        } else {
            match self.read_be_u16() {
                Ok(v) => v as usize,
                Err(e) => {
                    return Err(e);
                },
            }
        };
        match self.read_exact(l) {
            Ok(text) => Ok(ErlangTerm::Atom(text)),
            Err(e) => Err(e),
        }
    }

    /// A string: a 2-byte big-endian length, then the character bytes.
    fn parse_string(&mut self) -> (r: Result<ErlangTerm, DecodeError>)
        requires
            old(self).wf(),
        ensures
            final(self).wf(),
            final(self).bytes() == old(self).bytes(),
            old(self).position() <= final(self).position(),
            outcome_matches(
                spec_decode_string(old(self).bytes(), old(self).position()),
                r,
                final(self).position(),
            ),
    {
        let l: usize = match self.read_be_u16() {
            Ok(v) => v as usize,
            Err(e) => {
                return Err(e);
            },
        };
        match self.read_exact(l) {
            Ok(text) => Ok(ErlangTerm::Str(text)),
            Err(e) => Err(e),
        }
    }

    /// A binary: a 4-byte big-endian length, then the raw bytes.
    fn parse_binary(&mut self) -> (r: Result<ErlangTerm, DecodeError>)
        requires
            old(self).wf(),
        ensures
            final(self).wf(),
            final(self).bytes() == old(self).bytes(),
            old(self).position() <= final(self).position(),
            outcome_matches(
                spec_decode_binary(old(self).bytes(), old(self).position()),
                r,
                final(self).position(),
            ),
    {
        let l: usize = match self.read_be_u32() {
            Ok(v) => v as usize,
            Err(e) => {
                return Err(e);
            },
        };
        match self.read_exact(l) {
            Ok(bytes) => Ok(ErlangTerm::Binary(bytes)),
            Err(e) => Err(e),
        }
    }

    /// A big integer: a 1-byte or 4-byte magnitude length, then one sign byte
    /// and the magnitude bytes.
    fn parse_big_integer(&mut self, small: bool) -> (r: Result<ErlangTerm, DecodeError>)
        requires
            old(self).wf(),
        ensures
            final(self).wf(),
            final(self).bytes() == old(self).bytes(),
            old(self).position() <= final(self).position(),
            outcome_matches(
                spec_decode_big_integer(old(self).bytes(), old(self).position(), small),
                r,
                final(self).position(),
            ),
    {
        let l: usize = if small {
            match self.read_u8() {
                Ok(b) => b as usize,
                Err(e) => {
                    return Err(e);
                },
            }
        } else {
            match self.read_be_u32() {
                Ok(v) => v as usize,
                Err(e) => {
                    return Err(e);
                },
            }
        };
        let sign = match self.read_u8() {
            Ok(b) => b,
            Err(e) => {
                return Err(e);
            },
        };
        match self.read_exact(l) {
            Ok(magnitude) => Ok(ErlangTerm::BigInteger(sign, magnitude)),
            Err(e) => Err(e),
        }
    }

    /// A bit-binary: a 4-byte length, one trailing-bits byte, then the raw
    /// bytes.
    fn parse_bit_binary(&mut self) -> (r: Result<ErlangTerm, DecodeError>)
        requires
            old(self).wf(),
        ensures
            final(self).wf(),
            final(self).bytes() == old(self).bytes(),
            old(self).position() <= final(self).position(),
            outcome_matches(
                spec_decode_bit_binary(old(self).bytes(), old(self).position()),
                r,
                final(self).position(),
            ),
    {
        let l: usize = match self.read_be_u32() {
            Ok(v) => v as usize,
            Err(e) => {
                return Err(e);
            },
        };
        let trailing_bits = match self.read_u8() {
            Ok(b) => b,
            Err(e) => {
                return Err(e);
            },
        };
        match self.read_exact(l) {
            Ok(bytes) => Ok(ErlangTerm::BitBinary(trailing_bits, bytes)),
            Err(e) => Err(e),
        }
    }

    /// A run of `n` consecutive terms, each decoded recursively.
    pub fn _parse_vec(&mut self, n: u32) -> (r: Result<Vec<ErlangTerm>, DecodeError>)
        requires
            old(self).wf(),
        ensures
            final(self).wf(),
            final(self).bytes() == old(self).bytes(),
            old(self).position() <= final(self).position(),
            run_matches(
                spec_decode_terms(old(self).bytes(), old(self).position(), n as nat),
                r,
                final(self).position(),
            ),
            (match r {
                Ok(v) => v@.len() == n as int,
                Err(_) => true,
            }),
        decreases old(self).bytes().len() - old(self).position(), 1int,
    {
        let mut out: Vec<ErlangTerm> = Vec::new();
        let mut i: u32 = 0;
        while i < n
            invariant
                self.wf(),
                self.bytes() == old(self).bytes(),
                old(self).position() <= self.position(),
                i <= n,
                out@.len() == i as int,
                spec_decode_terms(old(self).bytes(), old(self).position(), n as nat)
                    == prepend_run(
                    views_of(out@),
                    spec_decode_terms(old(self).bytes(), self.position(), (n - i) as nat),
                ),
            decreases n - i,
        {
            let ghost s = old(self).bytes();
            let ghost pre = views_of(out@);
            let ghost cur = self.position();
            match self.decode() {
                Ok(t) => {
                    let ghost tv = t@;
                    let ghost gt = t;
                    let ghost cur2 = self.position();
                    let ghost outsnap = out@;
                    out.push(t);
                    i = i + 1;
                    proof {
                        lemma_views_of_push(outsnap, gt);
                        assert(views_of(out@) == pre.push(tv));
                        match spec_decode_terms(old(self).bytes(), cur2, (n - i) as nat) {
                            Ok((ts, q)) => {
                                assert(pre + (seq![tv] + ts) =~= pre.push(tv) + ts);
                            },
                            Err(_) => {},
                        }
                    }
                },
                Err(e) => {
                    return Err(e);
                },
            }
        }
        proof {
            assert(views_of(out@) + Seq::<TermView>::empty() =~= views_of(out@));
        }
        Ok(out)
    }

    /// One term: the tag byte dispatches to its variant's reader; the
    /// version-marker tag unwraps and decodes the remainder.
    pub fn decode(&mut self) -> (r: Result<ErlangTerm, DecodeError>)
        requires
            old(self).wf(),
        ensures
            final(self).wf(),
            final(self).bytes() == old(self).bytes(),
            old(self).position() <= final(self).position(),
            r is Ok ==> old(self).position() < final(self).position(),
            outcome_matches(
                spec_decode(old(self).bytes(), old(self).position()),
                r,
                final(self).position(),
            ),
        decreases old(self).bytes().len() - old(self).position(), 0int,
    {
        let tag = match self.read_u8() {
            Ok(t) => t,
            Err(e) => {
                return Err(e);
            },
        };
        match tag {
            82 => self.parse_atom_cache_ref(),
            97 => self.parse_small_integer(),
            98 => self.parse_integer(),
            99 => self.parse_float(),
            100 => self.parse_atom(false),
            101 => self.parse_reference(),
            102 => self.parse_port(),
            103 => self.parse_pid(),
            104 => self.parse_tuple(true),
            105 => self.parse_tuple(false),
            106 => Ok(ErlangTerm::Nil),
            107 => self.parse_string(),
            108 => self.parse_list(),
            109 => self.parse_binary(),
            110 => self.parse_big_integer(true),
            111 => self.parse_big_integer(false),
            114 => self.parse_new_reference(),
            115 => self.parse_atom(true),
            117 => self.parse_fun(),
            112 => self.parse_new_fun(),
            113 => self.parse_export(),
            77 => self.parse_bit_binary(),
            70 => self.parse_new_float(),
            118 => self.parse_atom(false),
            119 => self.parse_atom(true),
            131 => self.decode(),
            _ => Err(DecodeError::UnknownTag),
        }
    }

    /// A legacy reference: a node term, one 32-bit id and a creation byte.
    fn parse_reference(&mut self) -> (r: Result<ErlangTerm, DecodeError>)
        requires
            old(self).wf(),
        ensures
            final(self).wf(),
            final(self).bytes() == old(self).bytes(),
            old(self).position() <= final(self).position(),
            outcome_matches(
                spec_decode_reference(old(self).bytes(), old(self).position()),
                r,
                final(self).position(),
            ),
        decreases old(self).bytes().len() - old(self).position(), 2int,
    {
        let node = match self.decode() {
            Ok(t) => t,
            Err(e) => {
                return Err(e);
            },
        };
        let id = match self.read_be_u32() {
            Ok(v) => v,
            Err(e) => {
                return Err(e);
            },
        };
        let creation = match self.read_u8() {
            Ok(b) => b,
            Err(e) => {
                return Err(e);
            },
        };
        let mut ids: Vec<u32> = Vec::new();
        ids.push(id);
        proof {
            assert(ids@ =~= seq![id]);
        }
        Ok(ErlangTerm::Reference(Box::new(node), ids, creation))
    }

    /// An extended reference: an id count of at most three, a node term, a
    /// creation byte and the ids.
    fn parse_new_reference(&mut self) -> (r: Result<ErlangTerm, DecodeError>)
        requires
            old(self).wf(),
        ensures
            final(self).wf(),
            final(self).bytes() == old(self).bytes(),
            old(self).position() <= final(self).position(),
            outcome_matches(
                spec_decode_new_reference(old(self).bytes(), old(self).position()),
                r,
                final(self).position(),
            ),
        decreases old(self).bytes().len() - old(self).position(), 2int,
    {
        let l = match self.read_be_u16() {
            Ok(v) => v,
            Err(e) => {
                return Err(e);
            },
        };
        if l > 3 {
            return Err(DecodeError::ReferenceArityExceeded);
        }
        let node = match self.decode() {
            Ok(t) => t,
            Err(e) => {
                return Err(e);
            },
        };
        let creation = match self.read_u8() {
            Ok(b) => b,
            Err(e) => {
                return Err(e);
            },
        };
        match self.read_u32_run(l as usize) {
            Ok(ids) => Ok(ErlangTerm::Reference(Box::new(node), ids, creation)),
            Err(e) => Err(e),
        }
    }

    /// A port: a node term, a 32-bit id and a creation byte.
    fn parse_port(&mut self) -> (r: Result<ErlangTerm, DecodeError>)
        requires
            old(self).wf(),
        ensures
            final(self).wf(),
            final(self).bytes() == old(self).bytes(),
            old(self).position() <= final(self).position(),
            outcome_matches(
                spec_decode_port(old(self).bytes(), old(self).position()),
                r,
                final(self).position(),
            ),
        decreases old(self).bytes().len() - old(self).position(), 2int,
    {
        let node = match self.decode() {
            Ok(t) => t,
            Err(e) => {
                return Err(e);
            },
        };
        let id = match self.read_be_u32() {
            Ok(v) => v,
            Err(e) => {
                return Err(e);
            },
        };
        let creation = match self.read_u8() {
            Ok(b) => b,
            Err(e) => {
                return Err(e);
            },
        };
        Ok(ErlangTerm::Port(Box::new(node), id, creation))
    }

    /// A pid: a node term, 32-bit id and serial, and a creation byte.
    fn parse_pid(&mut self) -> (r: Result<ErlangTerm, DecodeError>)
        requires
            old(self).wf(),
        ensures
            final(self).wf(),
            final(self).bytes() == old(self).bytes(),
            old(self).position() <= final(self).position(),
            outcome_matches(
                spec_decode_pid(old(self).bytes(), old(self).position()),
                r,
                final(self).position(),
            ),
        decreases old(self).bytes().len() - old(self).position(), 2int,
    {
        let node = match self.decode() {
            Ok(t) => t,
            Err(e) => {
                return Err(e);
            },
        };
        let id = match self.read_be_u32() {
            Ok(v) => v,
            Err(e) => {
                return Err(e);
            },
        };
        let serial = match self.read_be_u32() {
            Ok(v) => v,
            Err(e) => {
                return Err(e);
            },
        };
        let creation = match self.read_u8() {
            Ok(b) => b,
            Err(e) => {
                return Err(e);
            },
        };
        Ok(ErlangTerm::Pid(Box::new(node), id, serial, creation))
    }

    /// A tuple: a 1-byte or 4-byte big-endian arity, then the elements.
    fn parse_tuple(&mut self, small: bool) -> (r: Result<ErlangTerm, DecodeError>)
        requires
            old(self).wf(),
        ensures
            final(self).wf(),
            final(self).bytes() == old(self).bytes(),
            old(self).position() <= final(self).position(),
            outcome_matches(
                spec_decode_tuple(old(self).bytes(), old(self).position(), small),
                r,
                final(self).position(),
            ),
        decreases old(self).bytes().len() - old(self).position(), 2int,
    {
        let arity: u32 = if small {
            match self.read_u8() {
                Ok(b) => b as u32,
                Err(e) => {
                    return Err(e);
                },
            }
        } else {
            match self.read_be_u32() {
                Ok(v) => v,
                Err(e) => {
                    return Err(e);
                },
            }
        };
        match self._parse_vec(arity) {
            Ok(elements) => Ok(ErlangTerm::Tuple(elements)),
            Err(e) => Err(e),
        }
    }

    /// A list: a 4-byte element count, the elements, then the tail term; a
    /// Nil tail is dropped, any other tail is appended as one extra element.
    fn parse_list(&mut self) -> (r: Result<ErlangTerm, DecodeError>)
        requires
            old(self).wf(),
        ensures
            final(self).wf(),
            final(self).bytes() == old(self).bytes(),
            old(self).position() <= final(self).position(),
            outcome_matches(
                spec_decode_list(old(self).bytes(), old(self).position()),
                r,
                final(self).position(),
            ),
        decreases old(self).bytes().len() - old(self).position(), 2int,
    {
        let count = match self.read_be_u32() {
            Ok(v) => v,
            Err(e) => {
                return Err(e);
            },
        };
        let mut elements = match self._parse_vec(count) {
            Ok(v) => v,
            Err(e) => {
                return Err(e);
            },
        };
        match self.decode() {
            Ok(tail) => match tail {
                ErlangTerm::Nil => Ok(ErlangTerm::List(elements)),
                t => {
                    proof {
                        lemma_views_of_push(elements@, t);
                    }
                    elements.push(t);
                    Ok(ErlangTerm::List(elements))
                },
            },
            Err(e) => Err(e),
        }
    }

    /// A legacy fun: a free-variable count, the pid, module, old-index and
    /// old-uniq terms, then the free variables; arity, uniq and index are
    /// zero-filled.
    fn parse_fun(&mut self) -> (r: Result<ErlangTerm, DecodeError>)
        requires
            old(self).wf(),
        ensures
            final(self).wf(),
            final(self).bytes() == old(self).bytes(),
            old(self).position() <= final(self).position(),
            outcome_matches(
                spec_decode_fun(old(self).bytes(), old(self).position()),
                r,
                final(self).position(),
            ),
        decreases old(self).bytes().len() - old(self).position(), 2int,
    {
        let num_free = match self.read_be_u32() {
            Ok(v) => v,
            Err(e) => {
                return Err(e);
            },
        };
        let mut heads = match self._parse_vec(4) {
            Ok(v) => v,
            Err(e) => {
                return Err(e);
            },
        };
        let free_vars = match self._parse_vec(num_free) {
            Ok(v) => v,
            Err(e) => {
                return Err(e);
            },
        };
        let ghost h0 = heads@;
        proof {
            lemma_views_of_index(h0, 0);
            lemma_views_of_index(h0, 1);
            lemma_views_of_index(h0, 2);
            lemma_views_of_index(h0, 3);
        }
        let old_uniq = heads.pop().unwrap();
        let old_index = heads.pop().unwrap();
        let module = heads.pop().unwrap();
        let pid = heads.pop().unwrap();
        let uniq: Vec<u8> = vec![0u8, 0, 0, 0, 0, 0, 0, 0, 0, 0, 0, 0, 0, 0, 0, 0];
        proof {
            assert(uniq@ =~= Seq::new(16, |i: int| 0u8));
        }
        Ok(
            ErlangTerm::Fun {
                arity: 0,
                uniq,
                index: 0,
                num_free,
                module: Box::new(module),
                old_index: Box::new(old_index),
                old_uniq: Box::new(old_uniq),
                pid: Box::new(pid),
                free_vars,
            },
        )
    }

    /// A new fun: a framing size (discarded), arity, 16 uniq bytes, index
    /// and free-variable count, then the module, old-index, old-uniq and pid
    /// terms and the free variables.
    fn parse_new_fun(&mut self) -> (r: Result<ErlangTerm, DecodeError>)
        requires
            old(self).wf(),
        ensures
            final(self).wf(),
            final(self).bytes() == old(self).bytes(),
            old(self).position() <= final(self).position(),
            outcome_matches(
                spec_decode_new_fun(old(self).bytes(), old(self).position()),
                r,
                final(self).position(),
            ),
        decreases old(self).bytes().len() - old(self).position(), 2int,
    {
        match self.read_be_u32() {
            Ok(_) => {},
            Err(e) => {
                return Err(e);
            },
        };
        let arity = match self.read_u8() {
            Ok(b) => b,
            Err(e) => {
                return Err(e);
            },
        };
        let uniq = match self.read_exact(16) {
            Ok(v) => v,
            Err(e) => {
                return Err(e);
            },
        };
        let index = match self.read_be_u32() {
            Ok(v) => v,
            Err(e) => {
                return Err(e);
            },
        };
        let num_free = match self.read_be_u32() {
            Ok(v) => v,
            Err(e) => {
                return Err(e);
            },
        };
        let mut heads = match self._parse_vec(4) {
            Ok(v) => v,
            Err(e) => {
                return Err(e);
            },
        };
        let free_vars = match self._parse_vec(num_free) {
            Ok(v) => v,
            Err(e) => {
                return Err(e);
            },
        };
        let ghost h0 = heads@;
        proof {
            lemma_views_of_index(h0, 0);
            lemma_views_of_index(h0, 1);
            lemma_views_of_index(h0, 2);
            lemma_views_of_index(h0, 3);
        }
        let pid = heads.pop().unwrap();
        let old_uniq = heads.pop().unwrap();
        let old_index = heads.pop().unwrap();
        let module = heads.pop().unwrap();
        Ok(
            ErlangTerm::Fun {
                arity,
                uniq,
                index,
                num_free,
                module: Box::new(module),
                old_index: Box::new(old_index),
                old_uniq: Box::new(old_uniq),
                pid: Box::new(pid),
                free_vars,
            },
        )
    }

    /// An export: the module, function and arity terms in order.
    fn parse_export(&mut self) -> (r: Result<ErlangTerm, DecodeError>)
        requires
            old(self).wf(),
        ensures
            final(self).wf(),
            final(self).bytes() == old(self).bytes(),
            old(self).position() <= final(self).position(),
            outcome_matches(
                spec_decode_export(old(self).bytes(), old(self).position()),
                r,
                final(self).position(),
            ),
        decreases old(self).bytes().len() - old(self).position(), 2int,
    {
        let mut parts = match self._parse_vec(3) {
            Ok(v) => v,
            Err(e) => {
                return Err(e);
            },
        };
        let ghost h0 = parts@;
        proof {
            lemma_views_of_index(h0, 0);
            lemma_views_of_index(h0, 1);
            lemma_views_of_index(h0, 2);
        }
        let arity = parts.pop().unwrap();
        let function = parts.pop().unwrap();
        let module = parts.pop().unwrap();
        Ok(ErlangTerm::Export(Box::new(module), Box::new(function), Box::new(arity)))
    }
}

} // verus!
