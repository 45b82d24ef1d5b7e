//! The encoder: a byte sink, verified to append exactly the bytes that
//! `spec_encode` gives for each supported term, and to refuse the rest with
//! the error `spec_encode_err` names.

use vstd::prelude::*;
use crate::term::{EncodeError, ErlangTerm, TermView, views_of, lemma_views_of_index, lemma_views_of_len};
use crate::encode_spec::{
    encodable, spec_encode, spec_encode_terms, spec_encode_err, spec_encode_terms_err,
    spec_encode_partial, spec_encode_terms_partial, lemma_encode_terms_push,
    lemma_encode_terms_err_at, lemma_encode_terms_partial_at,
};
use crate::wire::{spec_u16_to_be_bytes, spec_u32_to_be_bytes, spec_u64_to_be_bytes, spec_i32_to_be_bytes};

verus! {

/// An encoder: the byte sink that the wire form of each encoded term is
/// appended to.
pub struct Encoder {
    out: Vec<u8>,
}

impl Encoder {
    /// The bytes written so far.
    pub closed spec fn sink(&self) -> Seq<u8> {
        self.out@
    }

    /// An encoder with an empty sink.
    pub fn new() -> (e: Encoder)
        ensures
            e.sink() == Seq::<u8>::empty(),
    {
        Encoder { out: Vec::new() }
    }

    /// The bytes written so far, handed out.
    pub fn into_bytes(self) -> (r: Vec<u8>)
        ensures
            r@ == self.sink(),
    {
        self.out
    }

    /// One byte.
    fn push_u8(&mut self, b: u8)
        ensures
            final(self).sink() == old(self).sink().push(b),
    {
        self.out.push(b);
    }

    /// A 2-byte big-endian field.
    fn push_u16_be(&mut self, v: u16)
        ensures
            final(self).sink() == old(self).sink() + spec_u16_to_be_bytes(v),
    {
        self.out.push(((v >> 8u16) & 0xff) as u8);
        self.out.push((v & 0xff) as u8);
        proof {
            assert(final(self).sink() =~= old(self).sink() + spec_u16_to_be_bytes(v));
        }
    }

    /// A 4-byte big-endian field.
    fn push_u32_be(&mut self, v: u32)
        ensures
            final(self).sink() == old(self).sink() + spec_u32_to_be_bytes(v),
    {
        self.out.push(((v >> 24u32) & 0xff) as u8);
        self.out.push(((v >> 16u32) & 0xff) as u8);
        self.out.push(((v >> 8u32) & 0xff) as u8);
        self.out.push((v & 0xff) as u8);
        proof {
            assert(final(self).sink() =~= old(self).sink() + spec_u32_to_be_bytes(v));
        }
    }

    /// An 8-byte big-endian field.
    fn push_u64_be(&mut self, v: u64)
        ensures
            final(self).sink() == old(self).sink() + spec_u64_to_be_bytes(v),
    {
        self.out.push(((v >> 56u64) & 0xff) as u8);
        self.out.push(((v >> 48u64) & 0xff) as u8);
        self.out.push(((v >> 40u64) & 0xff) as u8);
        self.out.push(((v >> 32u64) & 0xff) as u8);
        self.out.push(((v >> 24u64) & 0xff) as u8);
        self.out.push(((v >> 16u64) & 0xff) as u8);
        self.out.push(((v >> 8u64) & 0xff) as u8);
        self.out.push((v & 0xff) as u8);
        proof {
            assert(final(self).sink() =~= old(self).sink() + spec_u64_to_be_bytes(v));
        }
    }

    /// A 4-byte big-endian two's-complement field.
    fn push_i32_be(&mut self, v: i32)
        ensures
            final(self).sink() == old(self).sink() + spec_i32_to_be_bytes(v),
    {
        self.push_u32_be(v as u32);
    }

    /// A run of raw bytes.
    fn push_bytes(&mut self, bytes: &[u8])
        ensures
            final(self).sink() == old(self).sink() + bytes@,
    {
        let mut i: usize = 0;
        while i < bytes.len()
            invariant
                i <= bytes@.len(),
                self.sink() == old(self).sink() + bytes@.subrange(0, i as int),
            decreases bytes@.len() - i,
        {
            let ghost snap = self.sink();
            self.out.push(bytes[i]);
            i = i + 1;
            proof {
                assert(snap.push(bytes@[i - 1]) =~= old(self).sink() + bytes@.subrange(
                    0,
                    i as int,
                ));
            }
        }
        proof {
            assert(bytes@.subrange(0, bytes@.len() as int) =~= bytes@);
        }
    }

    /// An atom-cache reference: its tag and the raw index byte.
    pub fn encode_atom_cache_ref(&mut self, index: u8)
        ensures
            final(self).sink() == old(self).sink() + spec_encode(TermView::AtomCacheRef(index)),
    {
        self.push_u8(82);
        self.push_u8(index);
        proof {
            assert(final(self).sink() =~= old(self).sink() + spec_encode(
                TermView::AtomCacheRef(index),
            ));
        }
    }

    /// An integer: the 1-byte compact form for 0 to 255, else the 4-byte
    /// two's-complement form.
    pub fn encode_integer(&mut self, value: i32)
        ensures
            final(self).sink() == old(self).sink() + spec_encode(TermView::Integer(value)),
    {
        if value >= 0 && value <= 255 {
            self.push_u8(97);
            self.push_u8(value as u8);
            proof {
                assert(final(self).sink() =~= old(self).sink() + spec_encode(
                    TermView::Integer(value),
                ));
            }
        } else {
            self.push_u8(98);
            self.push_i32_be(value);
            proof {
                assert(old(self).sink().push(98u8) + spec_i32_to_be_bytes(value) =~= old(self).sink() + spec_encode(TermView::Integer(value)));
            }
        }
    }

    /// A float: always the compact 8-byte bit-pattern form.
    pub fn encode_float(&mut self, bits: u64)
        ensures
            final(self).sink() == old(self).sink() + spec_encode(TermView::Float(bits)),
    {
        self.push_u8(70);
        self.push_u64_be(bits);
        proof {
            assert(old(self).sink().push(70u8) + spec_u64_to_be_bytes(bits) =~= old(self).sink()
                + spec_encode(TermView::Float(bits)));
        }
    }

    /// An atom: the 1-byte length form where the text fits it, the 2-byte
    /// form up to 65535 bytes, and `TooLarge` beyond that.
    pub fn encode_atom(&mut self, text: &[u8]) -> (r: Result<(), EncodeError>)
        ensures
            text@.len() <= 0xffff ==> r == Ok::<(), EncodeError>(()) && final(self).sink() == old(self).sink() + spec_encode(TermView::Atom(text@)),
            text@.len() > 0xffff ==> r == Err::<(), EncodeError>(EncodeError::TooLarge) && final(self).sink() == old(self).sink(),
    {
        let n = text.len();
        if n <= 255 {
            self.push_u8(115);
            self.push_u8(n as u8);
            self.push_bytes(text);
            proof {
                assert((old(self).sink().push(115u8).push(n as u8)) + text@ =~= old(self).sink()
                    + spec_encode(TermView::Atom(text@)));
            }
            Ok(())
        } else if n <= 65535 {
            self.push_u8(100);
            self.push_u16_be(n as u16);
            self.push_bytes(text);
            proof {
                assert((old(self).sink().push(100u8) + spec_u16_to_be_bytes(n as u16)) + text@
                    =~= old(self).sink() + spec_encode(TermView::Atom(text@)));
            }
            Ok(())
        } else {
            Err(EncodeError::TooLarge)
        }
    }

    /// A string: always the 2-byte length form, up to 65535 bytes, and
    /// `TooLarge` beyond that.
    pub fn encode_string(&mut self, text: &[u8]) -> (r: Result<(), EncodeError>)
        ensures
            text@.len() <= 0xffff ==> r == Ok::<(), EncodeError>(()) && final(self).sink() == old(self).sink() + spec_encode(TermView::Str(text@)),
            text@.len() > 0xffff ==> r == Err::<(), EncodeError>(EncodeError::TooLarge) && final(self).sink() == old(self).sink(),
    {
        let n = text.len();
        if n > 65535 {
            Err(EncodeError::TooLarge)
        } else {
            self.push_u8(107);
            self.push_u16_be(n as u16);
            self.push_bytes(text);
            proof {
                assert((old(self).sink().push(107u8) + spec_u16_to_be_bytes(n as u16)) + text@
                    =~= old(self).sink() + spec_encode(TermView::Str(text@)));
            }
            Ok(())
        }
    }

    /// A binary: the 4-byte length form, and `TooLarge` beyond its reach.
    pub fn encode_binary(&mut self, bytes: &[u8]) -> (r: Result<(), EncodeError>)
        ensures
            bytes@.len() <= 0xffffffff ==> r == Ok::<(), EncodeError>(()) && final(self).sink()
                == old(self).sink() + spec_encode(TermView::Binary(bytes@)),
            bytes@.len() > 0xffffffff ==> r == Err::<(), EncodeError>(EncodeError::TooLarge)
                && final(self).sink() == old(self).sink(),
    {
        let n = bytes.len();
        if n as u64 > 0xffffffffu64 {
            Err(EncodeError::TooLarge)
        } else {
            self.push_u8(109);
            self.push_u32_be(n as u32);
            self.push_bytes(bytes);
            proof {
                assert((old(self).sink().push(109u8) + spec_u32_to_be_bytes(n as u32)) + bytes@
                    =~= old(self).sink() + spec_encode(TermView::Binary(bytes@)));
            }
            Ok(())
        }
    }

    /// A big integer: the 1-byte magnitude-length form where it fits, the
    /// 4-byte form up to its reach, and `TooLarge` beyond; then the sign byte
    /// and the magnitude.
    pub fn encode_biginteger(&mut self, sign: u8, magnitude: &[u8]) -> (r: Result<
        (),
        EncodeError,
    >)
        ensures
            magnitude@.len() <= 0xffffffff ==> r == Ok::<(), EncodeError>(()) && final(self).sink()
                == old(self).sink() + spec_encode(TermView::BigInteger(sign, magnitude@)),
            magnitude@.len() > 0xffffffff ==> r == Err::<(), EncodeError>(EncodeError::TooLarge)
                && final(self).sink() == old(self).sink(),
    {
        let n = magnitude.len();
        if n <= 255 {
            self.push_u8(110);
            self.push_u8(n as u8);
            self.push_u8(sign);
            self.push_bytes(magnitude);
            proof {
                assert((old(self).sink().push(110u8).push(n as u8).push(sign)) + magnitude@
                    =~= old(self).sink() + spec_encode(TermView::BigInteger(sign, magnitude@)));
            }
            Ok(())
        } else if n as u64 <= 0xffffffffu64 {
            self.push_u8(111);
            self.push_u32_be(n as u32);
            self.push_u8(sign);
            self.push_bytes(magnitude);
            proof {
                assert(((old(self).sink().push(111u8) + spec_u32_to_be_bytes(n as u32)).push(sign))
                    + magnitude@ =~= old(self).sink() + spec_encode(
                    TermView::BigInteger(sign, magnitude@),
                ));
            }
            Ok(())
        } else {
            Err(EncodeError::TooLarge)
        }
    }

    /// A bit-binary: the 4-byte length form, the trailing-bits byte, then the
    /// raw bytes; `TooLarge` beyond the length field's reach.
    pub fn encode_bitbinary(&mut self, trailing_bits: u8, bytes: &[u8]) -> (r: Result<
        (),
        EncodeError,
    >)
        ensures
            bytes@.len() <= 0xffffffff ==> r == Ok::<(), EncodeError>(()) && final(self).sink()
                == old(self).sink() + spec_encode(TermView::BitBinary(trailing_bits, bytes@)),
            bytes@.len() > 0xffffffff ==> r == Err::<(), EncodeError>(EncodeError::TooLarge)
                && final(self).sink() == old(self).sink(),
    {
        let n = bytes.len();
        if n as u64 > 0xffffffffu64 {
            Err(EncodeError::TooLarge)
        } else {
            self.push_u8(77);
            self.push_u32_be(n as u32);
            self.push_u8(trailing_bits);
            self.push_bytes(bytes);
            proof {
                assert(((old(self).sink().push(77u8) + spec_u32_to_be_bytes(n as u32)).push(
                    trailing_bits,
                )) + bytes@ =~= old(self).sink() + spec_encode(
                    TermView::BitBinary(trailing_bits, bytes@),
                ));
            }
            Ok(())
        }
    }

    /// A run of terms, encoded in order; the first refused term's error is
    /// returned, with the sink already extended by those before it.
    fn encode_terms(&mut self, elements: &[ErlangTerm]) -> (r: Result<(), EncodeError>)
        ensures
            (forall|i: int|
                0 <= i < elements@.len() ==> encodable(
                    #[trigger] views_of(elements@)[i],
                )) ==> r == Ok::<(), EncodeError>(()) && final(self).sink() == old(self).sink()
                + spec_encode_terms(views_of(elements@)),
            !(forall|i: int|
                0 <= i < elements@.len() ==> encodable(#[trigger] views_of(elements@)[i])) ==> r
                == Err::<(), EncodeError>(spec_encode_terms_err(views_of(elements@))) && final(self).sink() == old(self).sink() + spec_encode_terms_partial(views_of(elements@)),
        decreases elements@, 0int,
    {
        let ghost vs = views_of(elements@);
        proof {
            lemma_views_of_len(elements@);
        }
        let mut i: usize = 0;
        while i < elements.len()
            invariant
                i <= elements@.len(),
                vs == views_of(elements@),
                vs.len() == elements@.len(),
                forall|j: int| 0 <= j < i ==> encodable(#[trigger] vs[j]),
                self.sink() == old(self).sink() + spec_encode_terms(vs.take(i as int)),
            decreases elements@.len() - i,
        {
            proof {
                lemma_views_of_index(elements@, i as int);
            }
            let ghost snap = self.sink();
            match self.encode(&elements[i]) {
                Ok(_) => {
                    proof {
                        lemma_encode_terms_push(vs.take(i as int), vs[i as int]);
                        assert(vs.take(i as int).push(vs[i as int]) =~= vs.take(i + 1));
                        assert((old(self).sink() + spec_encode_terms(vs.take(i as int)))
                            + spec_encode(vs[i as int]) =~= old(self).sink() + spec_encode_terms(
                            vs.take(i + 1),
                        ));
                    }
                    i = i + 1;
                },
                Err(e) => {
                    proof {
                        lemma_encode_terms_err_at(vs, i as int);
                        lemma_encode_terms_partial_at(vs, i as int);
                        assert((old(self).sink() + spec_encode_terms(vs.take(i as int)))
                            + spec_encode_partial(vs[i as int]) =~= old(self).sink() + (
                        spec_encode_terms(vs.take(i as int)) + spec_encode_partial(
                            vs[i as int],
                        )));
                    }
                    return Err(e);
                },
            }
        }
        proof {
            assert(vs.take(vs.len() as int) =~= vs);
        }
        Ok(())
    }

    /// A tuple: the 1-byte arity form where it fits, else the 4-byte form,
    /// then the elements in order.
    pub fn encode_tuple(&mut self, elements: &[ErlangTerm]) -> (r: Result<(), EncodeError>)
        ensures
            encodable(TermView::Tuple(views_of(elements@))) ==> r == Ok::<(), EncodeError>(())
                && final(self).sink() == old(self).sink() + spec_encode(
                TermView::Tuple(views_of(elements@)),
            ),
            !encodable(TermView::Tuple(views_of(elements@))) ==> r == Err::<(), EncodeError>(
                spec_encode_err(TermView::Tuple(views_of(elements@))),
            ) && final(self).sink() == old(self).sink() + spec_encode_partial(
                TermView::Tuple(views_of(elements@)),
            ),
        decreases elements@, 1int,
    {
        let ghost vs = views_of(elements@);
        proof {
            lemma_views_of_len(elements@);
        }
        let n = elements.len();
        if n <= 255 {
            self.push_u8(104);
            self.push_u8(n as u8);
        } else if n as u64 <= 0xffffffffu64 {
            self.push_u8(105);
            self.push_u32_be(n as u32);
        } else {
            proof {
                assert(old(self).sink() + spec_encode_partial(TermView::Tuple(vs)) =~= old(self).sink());
            }
            return Err(EncodeError::TooLarge);
        }
        match self.encode_terms(elements) {
            Ok(_) => {
                proof {
                    if n <= 255 {
                        assert((old(self).sink().push(104u8).push(n as u8)) + spec_encode_terms(vs)
                            =~= old(self).sink() + spec_encode(TermView::Tuple(vs)));
                    } else {
                        assert(((old(self).sink().push(105u8) + spec_u32_to_be_bytes(n as u32)))
                            + spec_encode_terms(vs) =~= old(self).sink() + spec_encode(
                            TermView::Tuple(vs),
                        ));
                    }
                }
                Ok(())
            },
            Err(e) => {
                proof {
                    if n <= 255 {
                        assert((old(self).sink().push(104u8).push(n as u8))
                            + spec_encode_terms_partial(vs) =~= old(self).sink()
                            + spec_encode_partial(TermView::Tuple(vs)));
                    } else {
                        assert(((old(self).sink().push(105u8) + spec_u32_to_be_bytes(n as u32)))
                            + spec_encode_terms_partial(vs) =~= old(self).sink()
                            + spec_encode_partial(TermView::Tuple(vs)));
                    }
                }
                Err(e)
            },
        }
    }

    /// A list: always the 4-byte count form, the elements in order, then an
    /// explicit Nil terminator; the encoder always emits a proper list.
    pub fn encode_list(&mut self, elements: &[ErlangTerm]) -> (r: Result<(), EncodeError>)
        ensures
            encodable(TermView::List(views_of(elements@))) ==> r == Ok::<(), EncodeError>(())
                && final(self).sink() == old(self).sink() + spec_encode(
                TermView::List(views_of(elements@)),
            ),
            !encodable(TermView::List(views_of(elements@))) ==> r == Err::<(), EncodeError>(
                spec_encode_err(TermView::List(views_of(elements@))),
            ) && final(self).sink() == old(self).sink() + spec_encode_partial(
                TermView::List(views_of(elements@)),
            ),
        decreases elements@, 1int,
    {
        let ghost vs = views_of(elements@);
        proof {
            lemma_views_of_len(elements@);
        }
        let n = elements.len();
        if n as u64 > 0xffffffffu64 {
            proof {
                assert(old(self).sink() + spec_encode_partial(TermView::List(vs)) =~= old(self).sink());
            }
            return Err(EncodeError::TooLarge);
        }
        self.push_u8(108);
        self.push_u32_be(n as u32);
        match self.encode_terms(elements) {
            Ok(_) => {
                self.push_u8(106);
                proof {
                    assert((((old(self).sink().push(108u8) + spec_u32_to_be_bytes(n as u32)))
                        + spec_encode_terms(vs)).push(106u8) =~= old(self).sink() + spec_encode(
                        TermView::List(vs),
                    ));
                }
                Ok(())
            },
            Err(e) => {
                proof {
                    assert(((old(self).sink().push(108u8) + spec_u32_to_be_bytes(n as u32)))
                        + spec_encode_terms_partial(vs) =~= old(self).sink()
                        + spec_encode_partial(TermView::List(vs)));
                }
                Err(e)
            },
        }
    }

    /// One term: dispatch on the variant; an unsupported variant is refused
    /// with `Unsupported`, an oversize payload with `TooLarge`.
    pub fn encode(&mut self, term: &ErlangTerm) -> (r: Result<(), EncodeError>)
        ensures
            encodable(term@) ==> r == Ok::<(), EncodeError>(()) && final(self).sink() == old(self).sink() + spec_encode(term@),
            !encodable(term@) ==> r == Err::<(), EncodeError>(spec_encode_err(term@)) && final(self).sink() == old(self).sink() + spec_encode_partial(term@),
        decreases term, 0int,
    {
        proof {
            assert(old(self).sink() + Seq::<u8>::empty() =~= old(self).sink());
        }
        match term {
            ErlangTerm::AtomCacheRef(index) => {
                self.encode_atom_cache_ref(*index);
                Ok(())
            },
            ErlangTerm::Integer(value) => {
                self.encode_integer(*value);
                Ok(())
            },
            ErlangTerm::Float(bits) => {
                self.encode_float(*bits);
                Ok(())
            },
            ErlangTerm::Atom(text) => self.encode_atom(text.as_slice()),
            ErlangTerm::Tuple(elements) => self.encode_tuple(elements.as_slice()),
            ErlangTerm::Str(text) => self.encode_string(text.as_slice()),
            ErlangTerm::List(elements) => self.encode_list(elements.as_slice()),
            ErlangTerm::Binary(bytes) => self.encode_binary(bytes.as_slice()),
            ErlangTerm::BigInteger(sign, magnitude) => self.encode_biginteger(
                *sign,
                magnitude.as_slice(),
            ),
            ErlangTerm::BitBinary(trailing_bits, bytes) => self.encode_bitbinary(
                *trailing_bits,
                bytes.as_slice(),
            ),
            _ => Err(EncodeError::Unsupported),
        }
    }
}

} // verus!
