//! What decoding means: a recursive definition over the byte sequence and a
//! position. Each function returns the decoded term and the position after
//! it, or the error and the position at which consumption stopped. The
//! decoder is verified against these definitions.

use vstd::prelude::*;
use crate::term::{DecodeError, TermView};
use crate::wire::{spec_u16_from_be_bytes, spec_u32_from_be_bytes, spec_u64_from_be_bytes, spec_i32_from_be_bytes};
use crate::float_lit::is_float_literal;

verus! {

/// The outcome of one decode step: a term and the position after it, or an
/// error and the position where consumption stopped.
pub type DecodeOutcome = Result<(TermView, int), (DecodeError, int)>;

/// The outcome of decoding a run of terms.
pub type DecodeRunOutcome = Result<(Seq<TermView>, int), (DecodeError, int)>;

/// The u16 in the 2-byte big-endian field at `p`.
pub open spec fn be_u16_at(s: Seq<u8>, p: int) -> u16
    recommends
        0 <= p && p + 2 <= s.len(),
{
    spec_u16_from_be_bytes(s.subrange(p, p + 2))
}

/// The u32 in the 4-byte big-endian field at `p`.
pub open spec fn be_u32_at(s: Seq<u8>, p: int) -> u32
    recommends
        0 <= p && p + 4 <= s.len(),
{
    spec_u32_from_be_bytes(s.subrange(p, p + 4))
}

/// The u64 in the 8-byte big-endian field at `p`.
pub open spec fn be_u64_at(s: Seq<u8>, p: int) -> u64
    recommends
        0 <= p && p + 8 <= s.len(),
{
    spec_u64_from_be_bytes(s.subrange(p, p + 8))
}

/// The i32 in the 4-byte big-endian two's-complement field at `p`.
pub open spec fn be_i32_at(s: Seq<u8>, p: int) -> i32
    recommends
        0 <= p && p + 4 <= s.len(),
{
    spec_i32_from_be_bytes(s.subrange(p, p + 4))
}

/// The `n` consecutive 4-byte big-endian fields starting at `p`.
pub open spec fn be_u32_run_at(s: Seq<u8>, p: int, n: nat) -> Seq<u32>
    recommends
        0 <= p && p + 4 * n <= s.len(),
{
    Seq::new(n, |i: int| be_u32_at(s, p + 4 * i))
}

/// An atom-cache reference: one raw index byte.
pub open spec fn spec_decode_atom_cache_ref(s: Seq<u8>, p: int) -> DecodeOutcome {
    if p + 1 <= s.len() {
        Ok((TermView::AtomCacheRef(s[p]), p + 1))
    } else {
        Err((DecodeError::Truncated, p))
    }
}

/// A small integer: one unsigned byte.
pub open spec fn spec_decode_small_integer(s: Seq<u8>, p: int) -> DecodeOutcome {
    if p + 1 <= s.len() {
        Ok((TermView::Integer(s[p] as i32), p + 1))
    } else {
        Err((DecodeError::Truncated, p))
    }
}

/// A full integer: a 4-byte big-endian signed value.
pub open spec fn spec_decode_integer(s: Seq<u8>, p: int) -> DecodeOutcome {
    if p + 4 <= s.len() {
        Ok((TermView::Integer(be_i32_at(s, p)), p + 4))
    } else {
        Err((DecodeError::Truncated, p))
    }
}

/// A legacy float: 26 bytes of ASCII text that must form a floating literal,
/// then 5 padding bytes that are discarded.
pub open spec fn spec_decode_float(s: Seq<u8>, p: int) -> DecodeOutcome {
    if p + 26 <= s.len() {
        if p + 31 <= s.len() {
            let text = s.subrange(p, p + 26);
            if is_float_literal(text) {
                Ok((TermView::LegacyFloat(text), p + 31))
            } else {
                Err((DecodeError::MalformedFloat, p + 31))
            }
        } else {
            Err((DecodeError::Truncated, p + 26))
        }
    } else {
        Err((DecodeError::Truncated, p))
    }
}

/// A compact float: the 8-byte big-endian bit pattern of an IEEE-754 double.
pub open spec fn spec_decode_new_float(s: Seq<u8>, p: int) -> DecodeOutcome {
    if p + 8 <= s.len() {
        Ok((TermView::Float(be_u64_at(s, p)), p + 8))
    } else {
        Err((DecodeError::Truncated, p))
    }
}

/// An atom: a 1-byte (small) or 2-byte (large) big-endian length, then that
/// many text bytes.
pub open spec fn spec_decode_atom(s: Seq<u8>, p: int, small: bool) -> DecodeOutcome {
    if small {
        if p + 1 <= s.len() {
            let l = s[p] as int;
            if p + 1 + l <= s.len() {
                Ok((TermView::Atom(s.subrange(p + 1, p + 1 + l)), p + 1 + l))
            } else {
                Err((DecodeError::Truncated, p + 1))
            }
        } else {
            Err((DecodeError::Truncated, p))
        }
    } else {
        if p + 2 <= s.len() {
            let l = be_u16_at(s, p) as int;
            if p + 2 + l <= s.len() {
                Ok((TermView::Atom(s.subrange(p + 2, p + 2 + l)), p + 2 + l))
            } else {
                Err((DecodeError::Truncated, p + 2))
            }
        } else {
            Err((DecodeError::Truncated, p))
        }
    }
}

/// A string: a 2-byte big-endian length, then that many character bytes.
pub open spec fn spec_decode_string(s: Seq<u8>, p: int) -> DecodeOutcome {
    if p + 2 <= s.len() {
        let l = be_u16_at(s, p) as int;
        if p + 2 + l <= s.len() {
            Ok((TermView::Str(s.subrange(p + 2, p + 2 + l)), p + 2 + l))
        } else {
            Err((DecodeError::Truncated, p + 2))
        }
    } else {
        Err((DecodeError::Truncated, p))
    }
}

/// A binary: a 4-byte big-endian length, then that many raw bytes.
pub open spec fn spec_decode_binary(s: Seq<u8>, p: int) -> DecodeOutcome {
    if p + 4 <= s.len() {
        let l = be_u32_at(s, p) as int;
        if p + 4 + l <= s.len() {
            Ok((TermView::Binary(s.subrange(p + 4, p + 4 + l)), p + 4 + l))
        } else {
            Err((DecodeError::Truncated, p + 4))
        }
    } else {
        Err((DecodeError::Truncated, p))
    }
}

/// A big integer: a 1-byte (small) or 4-byte (large) magnitude length, then
/// one sign byte and that many little-endian magnitude bytes.
pub open spec fn spec_decode_big_integer(s: Seq<u8>, p: int, small: bool) -> DecodeOutcome {
    if small {
        if p + 1 <= s.len() {
            let l = s[p] as int;
            if p + 2 <= s.len() {
                if p + 2 + l <= s.len() {
                    Ok((TermView::BigInteger(s[p + 1], s.subrange(p + 2, p + 2 + l)), p + 2 + l))
                } else {
                    Err((DecodeError::Truncated, p + 2))
                }
            } else {
                Err((DecodeError::Truncated, p + 1))
            }
        } else {
            Err((DecodeError::Truncated, p))
        }
    } else {
        if p + 4 <= s.len() {
            let l = be_u32_at(s, p) as int;
            if p + 5 <= s.len() {
                if p + 5 + l <= s.len() {
                    Ok((TermView::BigInteger(s[p + 4], s.subrange(p + 5, p + 5 + l)), p + 5 + l))
                } else {
                    Err((DecodeError::Truncated, p + 5))
                }
            } else {
                Err((DecodeError::Truncated, p + 4))
            }
        } else {
            Err((DecodeError::Truncated, p))
        }
    }
}

/// A bit-binary: a 4-byte length, one trailing-bits byte, then that many raw
/// bytes.
pub open spec fn spec_decode_bit_binary(s: Seq<u8>, p: int) -> DecodeOutcome {
    if p + 4 <= s.len() {
        let l = be_u32_at(s, p) as int;
        if p + 5 <= s.len() {
            if p + 5 + l <= s.len() {
                Ok((TermView::BitBinary(s[p + 4], s.subrange(p + 5, p + 5 + l)), p + 5 + l))
            } else {
                Err((DecodeError::Truncated, p + 5))
            }
        } else {
            Err((DecodeError::Truncated, p + 4))
        }
    } else {
        Err((DecodeError::Truncated, p))
    }
}

/// A legacy reference: a nested node term, one 32-bit id wrapped in a
/// one-element sequence, and a creation byte.
pub open spec fn spec_decode_reference(s: Seq<u8>, p: int) -> DecodeOutcome
    decreases s.len() - p, 2int,
    when 0 <= p <= s.len()
{
    match spec_decode(s, p) {
        Err(e) => Err(e),
        Ok((node, q)) => {
            if q + 4 <= s.len() {
                if q + 5 <= s.len() {
                    Ok(
                        (
                            TermView::Reference(Box::new(node), seq![be_u32_at(s, q)], s[q + 4]),
                            q + 5,
                        ),
                    )
                } else {
                    Err((DecodeError::Truncated, q + 4))
                }
            } else {
                Err((DecodeError::Truncated, q))
            }
        },
    }
}

/// An extended reference: a 2-byte id count of at most three, a nested node
/// term, a creation byte, then that many 32-bit ids.
pub open spec fn spec_decode_new_reference(s: Seq<u8>, p: int) -> DecodeOutcome
    decreases s.len() - p, 2int,
    when 0 <= p <= s.len()
{
    if p + 2 <= s.len() {
        let l = be_u16_at(s, p) as int;
        if l > 3 {
            Err((DecodeError::ReferenceArityExceeded, p + 2))
        } else {
            match spec_decode(s, p + 2) {
                Err(e) => Err(e),
                Ok((node, q)) => {
                    if q + 1 <= s.len() {
                        if q + 1 + 4 * l <= s.len() {
                            Ok(
                                (
                                    TermView::Reference(
                                        Box::new(node),
                                        be_u32_run_at(s, q + 1, l as nat),
                                        s[q],
                                    ),
                                    q + 1 + 4 * l,
                                ),
                            )
                        } else {
                            Err((DecodeError::Truncated, q + 1))
                        }
                    } else {
                        Err((DecodeError::Truncated, q))
                    }
                },
            }
        }
    } else {
        Err((DecodeError::Truncated, p))
    }
}

/// A port: a nested node term, a 32-bit id and a creation byte.
pub open spec fn spec_decode_port(s: Seq<u8>, p: int) -> DecodeOutcome
    decreases s.len() - p, 2int,
    when 0 <= p <= s.len()
{
    match spec_decode(s, p) {
        Err(e) => Err(e),
        Ok((node, q)) => {
            if q + 4 <= s.len() {
                if q + 5 <= s.len() {
                    Ok((TermView::Port(Box::new(node), be_u32_at(s, q), s[q + 4]), q + 5))
                } else {
                    Err((DecodeError::Truncated, q + 4))
                }
            } else {
                Err((DecodeError::Truncated, q))
            }
        },
    }
}

/// A pid: a nested node term, 32-bit id and serial, and a creation byte.
pub open spec fn spec_decode_pid(s: Seq<u8>, p: int) -> DecodeOutcome
    decreases s.len() - p, 2int,
    when 0 <= p <= s.len()
{
    match spec_decode(s, p) {
        Err(e) => Err(e),
        Ok((node, q)) => {
            if q + 4 <= s.len() {
                if q + 8 <= s.len() {
                    if q + 9 <= s.len() {
                        Ok(
                            (
                                TermView::Pid(
                                    Box::new(node),
                                    be_u32_at(s, q),
                                    be_u32_at(s, q + 4),
                                    s[q + 8],
                                ),
                                q + 9,
                            ),
                        )
                    } else {
                        Err((DecodeError::Truncated, q + 8))
                    }
                } else {
                    Err((DecodeError::Truncated, q + 4))
                }
            } else {
                Err((DecodeError::Truncated, q))
            }
        },
    }
}

/// A tuple: a 1-byte (small) or 4-byte (large) big-endian arity, then that
/// many recursively decoded elements.
pub open spec fn spec_decode_tuple(s: Seq<u8>, p: int, small: bool) -> DecodeOutcome
    decreases s.len() - p, 2int,
    when 0 <= p <= s.len()
{
    if small {
        if p + 1 <= s.len() {
            match spec_decode_terms(s, p + 1, s[p] as nat) {
                Err(e) => Err(e),
                Ok((elements, q)) => Ok((TermView::Tuple(elements), q)),
            }
        } else {
            Err((DecodeError::Truncated, p))
        }
    } else {
        if p + 4 <= s.len() {
            match spec_decode_terms(s, p + 4, be_u32_at(s, p) as nat) {
                Err(e) => Err(e),
                Ok((elements, q)) => Ok((TermView::Tuple(elements), q)),
            }
        } else {
            Err((DecodeError::Truncated, p))
        }
    }
}

/// A list: a 4-byte element count, that many elements, then one more term as
/// the tail. A Nil tail is dropped; any other tail term is appended as one
/// extra trailing element.
pub open spec fn spec_decode_list(s: Seq<u8>, p: int) -> DecodeOutcome
    decreases s.len() - p, 2int,
    when 0 <= p <= s.len()
{
    if p + 4 <= s.len() {
        match spec_decode_terms(s, p + 4, be_u32_at(s, p) as nat) {
            Err(e) => Err(e),
            Ok((elements, q)) => {
                if p < q <= s.len() {
                    match spec_decode(s, q) {
                        Err(e) => Err(e),
                        Ok((tail, q2)) => {
                            if tail == TermView::Nil {
                                Ok((TermView::List(elements), q2))
                            } else {
                                Ok((TermView::List(elements.push(tail)), q2))
                            }
                        },
                    }
                } else {
                    Err((DecodeError::Truncated, q))
                }
            },
        }
    } else {
        Err((DecodeError::Truncated, p))
    }
}

/// A legacy fun: a 4-byte free-variable count, the pid, module, old-index and
/// old-uniq terms, then that many free variables; the unified shape is filled
/// with a zero arity, a zeroed 16-byte uniq and a zero index.
pub open spec fn spec_decode_fun(s: Seq<u8>, p: int) -> DecodeOutcome
    decreases s.len() - p, 2int,
    when 0 <= p <= s.len()
{
    if p + 4 <= s.len() {
        let l = be_u32_at(s, p);
        match spec_decode_terms(s, p + 4, 4) {
            Err(e) => Err(e),
            Ok((heads, q)) => {
                if p < q <= s.len() {
                    match spec_decode_terms(s, q, l as nat) {
                        Err(e) => Err(e),
                        Ok((free_vars, q2)) => Ok(
                            (
                                TermView::Fun {
                                    arity: 0,
                                    uniq: Seq::new(16, |i: int| 0u8),
                                    index: 0,
                                    num_free: l,
                                    module: Box::new(heads[1]),
                                    old_index: Box::new(heads[2]),
                                    old_uniq: Box::new(heads[3]),
                                    pid: Box::new(heads[0]),
                                    free_vars: free_vars,
                                },
                                q2,
                            ),
                        ),
                    }
                } else {
                    Err((DecodeError::Truncated, q))
                }
            },
        }
    } else {
        Err((DecodeError::Truncated, p))
    }
}

/// A new fun: a 4-byte size (framing only, discarded), a 1-byte arity, 16
/// uniq bytes, a 4-byte index and a 4-byte free-variable count, then the
/// module, old-index, old-uniq and pid terms and the free variables.
pub open spec fn spec_decode_new_fun(s: Seq<u8>, p: int) -> DecodeOutcome
    decreases s.len() - p, 2int,
    when 0 <= p <= s.len()
{
    if p + 4 > s.len() {
        Err((DecodeError::Truncated, p))
    } else if p + 5 > s.len() {
        Err((DecodeError::Truncated, p + 4))
    } else if p + 21 > s.len() {
        Err((DecodeError::Truncated, p + 5))
    } else if p + 25 > s.len() {
        Err((DecodeError::Truncated, p + 21))
    } else if p + 29 > s.len() {
        Err((DecodeError::Truncated, p + 25))
    } else {
        let arity = s[p + 4];
        let uniq = s.subrange(p + 5, p + 21);
        let index = be_u32_at(s, p + 21);
        let l = be_u32_at(s, p + 25);
        match spec_decode_terms(s, p + 29, 4) {
            Err(e) => Err(e),
            Ok((heads, q)) => {
                if p < q <= s.len() {
                    match spec_decode_terms(s, q, l as nat) {
                        Err(e) => Err(e),
                        Ok((free_vars, q2)) => Ok(
                            (
                                TermView::Fun {
                                    arity: arity,
                                    uniq: uniq,
                                    index: index,
                                    num_free: l,
                                    module: Box::new(heads[0]),
                                    old_index: Box::new(heads[1]),
                                    old_uniq: Box::new(heads[2]),
                                    pid: Box::new(heads[3]),
                                    free_vars: free_vars,
                                },
                                q2,
                            ),
                        ),
                    }
                } else {
                    Err((DecodeError::Truncated, q))
                }
            },
        }
    }
}

/// An export: the module, function and arity terms in order.
pub open spec fn spec_decode_export(s: Seq<u8>, p: int) -> DecodeOutcome
    decreases s.len() - p, 2int,
    when 0 <= p <= s.len()
{
    match spec_decode_terms(s, p, 3) {
        Err(e) => Err(e),
        Ok((parts, q)) => Ok(
            (TermView::Export(Box::new(parts[0]), Box::new(parts[1]), Box::new(parts[2])), q),
        ),
    }
}

/// The run outcome `o` with `pre` prepended to its terms.
pub open spec fn prepend_run(pre: Seq<TermView>, o: DecodeRunOutcome) -> DecodeRunOutcome {
    match o {
        Ok((ts, q)) => Ok((pre + ts, q)),
        Err(e) => Err(e),
    }
}

/// A run of `n` consecutive terms.
pub open spec fn spec_decode_terms(s: Seq<u8>, pos: int, n: nat) -> DecodeRunOutcome
    decreases s.len() - pos, 1int,
    when 0 <= pos <= s.len()
{
    if n == 0 {
        Ok((Seq::empty(), pos))
    } else {
        match spec_decode(s, pos) {
            Err(e) => Err(e),
            Ok((t, q)) => {
                if pos < q <= s.len() {
                    match spec_decode_terms(s, q, (n - 1) as nat) {
                        Err(e) => Err(e),
                        Ok((ts, q2)) => Ok((seq![t] + ts, q2)),
                    }
                } else {
                    Err((DecodeError::Truncated, q))
                }
            },
        }
    }
}

/// The tag bytes the decoder recognizes, the version marker included.
pub open spec fn recognized_tag(b: u8) -> bool {
    b == 82 || b == 97 || b == 98 || b == 99 || b == 100 || b == 101 || b == 102 || b == 103
        || b == 104 || b == 105 || b == 106 || b == 107 || b == 108 || b == 109 || b == 110
        || b == 111 || b == 114 || b == 115 || b == 117 || b == 112 || b == 113 || b == 77
        || b == 70 || b == 118 || b == 119 || b == 131
}

/// One term: the tag byte at `pos` dispatches to its variant's reader; the
/// version-marker tag unwraps and decodes the remainder.
pub open spec fn spec_decode(s: Seq<u8>, pos: int) -> DecodeOutcome
    decreases s.len() - pos, 0int,
    when 0 <= pos <= s.len()
{
    if pos >= s.len() {
        Err((DecodeError::Truncated, pos))
    } else {
        let tag = s[pos];
        let p = pos + 1;
        if tag == 82 {
            spec_decode_atom_cache_ref(s, p)
        } else if tag == 97 {
            spec_decode_small_integer(s, p)
        } else if tag == 98 {
            spec_decode_integer(s, p)
        } else if tag == 99 {
            spec_decode_float(s, p)
        } else if tag == 100 {
            spec_decode_atom(s, p, false)
        } else if tag == 101 {
            spec_decode_reference(s, p)
        } else if tag == 102 {
            spec_decode_port(s, p)
        } else if tag == 103 {
            spec_decode_pid(s, p)
        } else if tag == 104 {
            spec_decode_tuple(s, p, true)
        } else if tag == 105 {
            spec_decode_tuple(s, p, false)
        } else if tag == 106 {
            Ok((TermView::Nil, p))
        } else if tag == 107 {
            spec_decode_string(s, p)
        } else if tag == 108 {
            spec_decode_list(s, p)
        } else if tag == 109 {
            spec_decode_binary(s, p)
        } else if tag == 110 {
            spec_decode_big_integer(s, p, true)
        } else if tag == 111 {
            spec_decode_big_integer(s, p, false)
        } else if tag == 114 {
            spec_decode_new_reference(s, p)
        } else if tag == 115 {
            spec_decode_atom(s, p, true)
        } else if tag == 117 {
            spec_decode_fun(s, p)
        } else if tag == 112 {
            spec_decode_new_fun(s, p)
        } else if tag == 113 {
            spec_decode_export(s, p)
        } else if tag == 77 {
            spec_decode_bit_binary(s, p)
        } else if tag == 70 {
            spec_decode_new_float(s, p)
        } else if tag == 118 {
            spec_decode_atom(s, p, false)
        } else if tag == 119 {
            spec_decode_atom(s, p, true)
        } else if tag == 131 {
            spec_decode(s, p)
        } else {
            Err((DecodeError::UnknownTag, p))
        }
    }
}

/// A successful decode consumes at least the tag byte and never passes the
/// end of the bytes.
#[verifier::rlimit(100)]
#[verifier::spinoff_prover]
pub proof fn lemma_decode_advances(s: Seq<u8>, pos: int)
    requires
        0 <= pos <= s.len(),
    ensures
        (match spec_decode(s, pos) {
            Ok((t, q)) => pos < q <= s.len(),
            Err(_) => true,
        }),
    decreases s.len() - pos, 0int,
{
    if pos < s.len() {
        let tag = s[pos];
        let p = pos + 1;
        if tag == 101 {
            lemma_decode_advances(s, p);
            match spec_decode(s, p) {
                Ok((node, q)) => {
                    if q + 4 <= s.len() && q + 5 <= s.len() {
                        assert(spec_decode_reference(s, p) == Ok::<
                            (TermView, int),
                            (DecodeError, int),
                        >((
                            TermView::Reference(Box::new(node), seq![be_u32_at(s, q)], s[q + 4]),
                            q + 5,
                        )));
                    }
                },
                Err(_) => {},
            }
        } else if tag == 102 {
            lemma_decode_advances(s, p);
            match spec_decode(s, p) {
                Ok((node, q)) => {
                    if q + 4 <= s.len() && q + 5 <= s.len() {
                        assert(spec_decode_port(s, p) == Ok::<
                            (TermView, int),
                            (DecodeError, int),
                        >((TermView::Port(Box::new(node), be_u32_at(s, q), s[q + 4]), q + 5)));
                    }
                },
                Err(_) => {},
            }
        } else if tag == 103 {
            lemma_decode_advances(s, p);
            match spec_decode(s, p) {
                Ok((node, q)) => {
                    if q + 4 <= s.len() && q + 8 <= s.len() && q + 9 <= s.len() {
                        assert(spec_decode_pid(s, p) == Ok::<
                            (TermView, int),
                            (DecodeError, int),
                        >((
                            TermView::Pid(
                                Box::new(node),
                                be_u32_at(s, q),
                                be_u32_at(s, q + 4),
                                s[q + 8],
                            ),
                            q + 9,
                        )));
                    }
                },
                Err(_) => {},
            }
        } else if tag == 114 {
            if p + 2 <= s.len() && be_u16_at(s, p) <= 3 {
                let l = be_u16_at(s, p) as int;
                lemma_decode_advances(s, p + 2);
                match spec_decode(s, p + 2) {
                    Ok((node, q)) => {
                        if q + 1 <= s.len() && q + 1 + 4 * l <= s.len() {
                            assert(spec_decode_new_reference(s, p) == Ok::<
                                (TermView, int),
                                (DecodeError, int),
                            >((
                                TermView::Reference(
                                    Box::new(node),
                                    be_u32_run_at(s, q + 1, l as nat),
                                    s[q],
                                ),
                                q + 1 + 4 * l,
                            )));
                        }
                    },
                    Err(_) => {},
                }
            }
        } else if tag == 104 || tag == 105 {
            let small = tag == 104;
            let after: int = if small { p + 1 } else { p + 4 };
            let count: nat = if small { s[p] as nat } else { be_u32_at(s, p) as nat };
            if after <= s.len() {
                lemma_decode_terms_advance(s, after, count);
                match spec_decode_terms(s, after, count) {
                    Ok((elements, q)) => {
                        assert(spec_decode_tuple(s, p, small) == Ok::<
                            (TermView, int),
                            (DecodeError, int),
                        >((TermView::Tuple(elements), q)));
                    },
                    Err(_) => {},
                }
            }
        } else if tag == 108 {
            if p + 4 <= s.len() {
                lemma_decode_terms_advance(s, p + 4, be_u32_at(s, p) as nat);
                match spec_decode_terms(s, p + 4, be_u32_at(s, p) as nat) {
                    Ok((elements, q)) => {
                        if p < q <= s.len() {
                            lemma_decode_advances(s, q);
                            match spec_decode(s, q) {
                                Ok((tail, q2)) => {
                                    if tail == TermView::Nil {
                                        assert(spec_decode_list(s, p) == Ok::<
                                            (TermView, int),
                                            (DecodeError, int),
                                        >((TermView::List(elements), q2)));
                                    } else {
                                        assert(spec_decode_list(s, p) == Ok::<
                                            (TermView, int),
                                            (DecodeError, int),
                                        >((TermView::List(elements.push(tail)), q2)));
                                    }
                                },
                                Err(_) => {},
                            }
                        }
                    },
                    Err(_) => {},
                }
            }
        } else if tag == 117 {
            if p + 4 <= s.len() {
                let l = be_u32_at(s, p);
                lemma_decode_terms_advance(s, p + 4, 4);
                match spec_decode_terms(s, p + 4, 4) {
                    Ok((heads, q)) => {
                        if p < q <= s.len() {
                            lemma_decode_terms_advance(s, q, l as nat);
                            match spec_decode_terms(s, q, l as nat) {
                                Ok((free_vars, q2)) => {
                                    assert(spec_decode_fun(s, p) == Ok::<
                                        (TermView, int),
                                        (DecodeError, int),
                                    >((
                                        TermView::Fun {
                                            arity: 0,
                                            uniq: Seq::new(16, |i: int| 0u8),
                                            index: 0,
                                            num_free: l,
                                            module: Box::new(heads[1]),
                                            old_index: Box::new(heads[2]),
                                            old_uniq: Box::new(heads[3]),
                                            pid: Box::new(heads[0]),
                                            free_vars: free_vars,
                                        },
                                        q2,
                                    )));
                                },
                                Err(_) => {},
                            }
                        }
                    },
                    Err(_) => {},
                }
            }
        } else if tag == 112 {
            if p + 29 <= s.len() {
                let l = be_u32_at(s, p + 25);
                lemma_decode_terms_advance(s, p + 29, 4);
                match spec_decode_terms(s, p + 29, 4) {
                    Ok((heads, q)) => {
                        if p < q <= s.len() {
                            lemma_decode_terms_advance(s, q, l as nat);
                            match spec_decode_terms(s, q, l as nat) {
                                Ok((free_vars, q2)) => {
                                    assert(spec_decode_new_fun(s, p) == Ok::<
                                        (TermView, int),
                                        (DecodeError, int),
                                    >((
                                        TermView::Fun {
                                            arity: s[p + 4],
                                            uniq: s.subrange(p + 5, p + 21),
                                            index: be_u32_at(s, p + 21),
                                            num_free: l,
                                            module: Box::new(heads[0]),
                                            old_index: Box::new(heads[1]),
                                            old_uniq: Box::new(heads[2]),
                                            pid: Box::new(heads[3]),
                                            free_vars: free_vars,
                                        },
                                        q2,
                                    )));
                                },
                                Err(_) => {},
                            }
                        }
                    },
                    Err(_) => {},
                }
            }
        } else if tag == 113 {
            lemma_decode_terms_advance(s, p, 3);
            match spec_decode_terms(s, p, 3) {
                Ok((parts, q)) => {
                    assert(spec_decode_export(s, p) == Ok::<
                        (TermView, int),
                        (DecodeError, int),
                    >((
                        TermView::Export(
                            Box::new(parts[0]),
                            Box::new(parts[1]),
                            Box::new(parts[2]),
                        ),
                        q,
                    )));
                },
                Err(_) => {},
            }
        } else if tag == 131 {
            lemma_decode_advances(s, p);
        }
    }
}

/// A successful run of `n` terms yields `n` terms, moving forward and never
/// passing the end of the bytes.
pub proof fn lemma_decode_terms_advance(s: Seq<u8>, pos: int, n: nat)
    requires
        0 <= pos <= s.len(),
    ensures
        (match spec_decode_terms(s, pos, n) {
            Ok((elements, q)) => pos <= q <= s.len() && elements.len() == n,
            Err(_) => true,
        }),
    decreases s.len() - pos, 1int,
{
    if n > 0 {
        lemma_decode_advances(s, pos);
        match spec_decode(s, pos) {
            Ok((t, q)) => {
                if pos < q <= s.len() {
                    lemma_decode_terms_advance(s, q, (n - 1) as nat);
                }
            },
            Err(_) => {},
        }
    }
}

} // verus!
