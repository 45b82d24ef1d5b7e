//! The laws that tie the encoder and the decoder together: decoding a
//! canonical encoding gives back exactly the encoded term, and a leading
//! version marker is transparent to the decoder.

use vstd::prelude::*;
use crate::term::{DecodeError, EncodeError, TermView};
use crate::wire::{
    spec_u16_to_be_bytes, spec_u32_to_be_bytes, spec_u64_to_be_bytes, spec_i32_to_be_bytes,
    lemma_u16_from_to_be_bytes, lemma_u32_from_to_be_bytes, lemma_u64_from_to_be_bytes,
    lemma_i32_from_to_be_bytes,
};
use crate::decode_spec::{
    spec_decode, spec_decode_terms, spec_decode_reference, spec_decode_new_reference,
    spec_decode_port, spec_decode_pid, spec_decode_tuple, spec_decode_list, spec_decode_fun,
    spec_decode_new_fun, spec_decode_export, recognized_tag, be_u16_at, be_u32_at, be_u64_at,
    be_i32_at, be_u32_run_at, DecodeOutcome, DecodeRunOutcome, lemma_decode_advances,
};
use crate::encode_spec::{encodable, spec_encode, spec_encode_terms, spec_encode_err, spec_encode_partial};

verus! {

/// A byte of an encoding, seen through the bytes it was embedded in.
proof fn lemma_byte_at(s: Seq<u8>, pos: int, e: Seq<u8>, j: int)
    requires
        0 <= pos,
        pos + e.len() <= s.len(),
        s.subrange(pos, pos + e.len() as int) == e,
        0 <= j < e.len(),
    ensures
        s[pos + j] == e[j],
{
    assert(s.subrange(pos, pos + e.len() as int)[j] == s[pos + j]);
}

/// A slice of an encoding, seen through the bytes it was embedded in.
proof fn lemma_slice_at(s: Seq<u8>, pos: int, e: Seq<u8>, a: int, b: int)
    requires
        0 <= pos,
        pos + e.len() <= s.len(),
        s.subrange(pos, pos + e.len() as int) == e,
        0 <= a <= b <= e.len(),
    ensures
        s.subrange(pos + a, pos + b) == e.subrange(a, b),
{
    assert forall|k: int| 0 <= k < b - a implies s.subrange(pos + a, pos + b)[k] == e.subrange(
        a,
        b,
    )[k] by {
        assert(s.subrange(pos, pos + e.len() as int)[a + k] == s[pos + a + k]);
    }
    assert(s.subrange(pos + a, pos + b) =~= e.subrange(a, b));
}

/// Every supported term's encoding holds its tag byte and at least one more.
proof fn lemma_encode_len(t: TermView)
    requires
        encodable(t),
    ensures
        spec_encode(t).len() >= 2,
{
}

/// Decoding a run of canonical encodings gives back exactly the encoded
/// terms, consuming exactly their bytes.
proof fn lemma_round_trip_terms_at(elements: Seq<TermView>, s: Seq<u8>, pos: int)
    requires
        forall|i: int| 0 <= i < elements.len() ==> encodable(#[trigger] elements[i]),
        0 <= pos,
        pos + spec_encode_terms(elements).len() <= s.len(),
        s.subrange(pos, pos + spec_encode_terms(elements).len() as int) == spec_encode_terms(
            elements,
        ),
    ensures
        spec_decode_terms(s, pos, elements.len()) == Ok::<(Seq<TermView>, int), (DecodeError, int)>(
            (elements, pos + spec_encode_terms(elements).len()),
        ),
    decreases elements,
{
    if elements.len() == 0 {
        assert(s.subrange(pos, pos) =~= Seq::<u8>::empty());
        assert(elements =~= Seq::<TermView>::empty());
    } else {
        let e0 = elements[0];
        let rest = elements.drop_first();
        let head = spec_encode(e0);
        let tail = spec_encode_terms(rest);
        let e = spec_encode_terms(elements);
        assert(e == head + tail);
        lemma_encode_len(e0);
        lemma_slice_at(s, pos, e, 0, head.len() as int);
        assert(e.subrange(0, head.len() as int) =~= head);
        lemma_round_trip_at(e0, s, pos);
        lemma_slice_at(s, pos, e, head.len() as int, e.len() as int);
        assert(e.subrange(head.len() as int, e.len() as int) =~= tail);
        lemma_round_trip_terms_at(rest, s, pos + head.len());
        assert(seq![e0] + rest =~= elements);
        assert(spec_decode(s, pos) == Ok::<(TermView, int), (DecodeError, int)>(
            (e0, pos + head.len()),
        ));
        assert(pos < pos + head.len() <= s.len());
        assert(spec_decode_terms(s, pos + head.len(), (elements.len() - 1) as nat) == Ok::<
            (Seq<TermView>, int),
            (DecodeError, int),
        >((rest, pos + head.len() + tail.len())));
        assert(e.len() == head.len() + tail.len());
        assert(spec_decode_terms(s, pos, elements.len()) == Ok::<
            (Seq<TermView>, int),
            (DecodeError, int),
        >((seq![e0] + rest, pos + head.len() + tail.len())));
    }
}

/// Decoding a canonical encoding, embedded at any position, gives back
/// exactly the encoded term, consuming exactly its bytes.
#[verifier::rlimit(100)]
#[verifier::spinoff_prover]
pub proof fn lemma_round_trip_at(t: TermView, s: Seq<u8>, pos: int)
    requires
        encodable(t),
        0 <= pos,
        pos + spec_encode(t).len() <= s.len(),
        s.subrange(pos, pos + spec_encode(t).len() as int) == spec_encode(t),
    ensures
        spec_decode(s, pos) == Ok::<(TermView, int), (DecodeError, int)>(
            (t, pos + spec_encode(t).len()),
        ),
    decreases t,
{
    let e = spec_encode(t);
    lemma_byte_at(s, pos, e, 0);
    let p = pos + 1;
    match t {
        TermView::AtomCacheRef(index) => {
            lemma_byte_at(s, pos, e, 1);
        },
        TermView::Integer(v) => {
            if 0 <= v <= 255 {
                lemma_byte_at(s, pos, e, 1);
                assert((v as u8) as i32 == v) by (bit_vector)
                    requires
                        0 <= v <= 255,
                ;
            } else {
                lemma_slice_at(s, pos, e, 1, 5);
                assert(e.subrange(1, 5) =~= spec_i32_to_be_bytes(v));
                lemma_i32_from_to_be_bytes(v);
                assert(be_i32_at(s, p) == v);
            }
        },
        TermView::Float(bits) => {
            lemma_slice_at(s, pos, e, 1, 9);
            assert(e.subrange(1, 9) =~= spec_u64_to_be_bytes(bits));
            lemma_u64_from_to_be_bytes(bits);
            assert(be_u64_at(s, p) == bits);
        },
        TermView::Atom(text) => {
            if text.len() <= 255 {
                lemma_byte_at(s, pos, e, 1);
                assert(s[p] == text.len() as u8);
                assert((text.len() as u8) as int == text.len() as int);
                lemma_slice_at(s, pos, e, 2, e.len() as int);
                assert(e.subrange(2, e.len() as int) =~= text);
            } else {
                lemma_slice_at(s, pos, e, 1, 3);
                assert(e.subrange(1, 3) =~= spec_u16_to_be_bytes(text.len() as u16));
                lemma_u16_from_to_be_bytes(text.len() as u16);
                assert(be_u16_at(s, p) == text.len() as u16);
                assert((text.len() as u16) as int == text.len() as int);
                lemma_slice_at(s, pos, e, 3, e.len() as int);
                assert(e.subrange(3, e.len() as int) =~= text);
            }
        },
        TermView::Str(text) => {
            lemma_slice_at(s, pos, e, 1, 3);
            assert(e.subrange(1, 3) =~= spec_u16_to_be_bytes(text.len() as u16));
            lemma_u16_from_to_be_bytes(text.len() as u16);
            assert(be_u16_at(s, p) == text.len() as u16);
            assert((text.len() as u16) as int == text.len() as int);
            lemma_slice_at(s, pos, e, 3, e.len() as int);
            assert(e.subrange(3, e.len() as int) =~= text);
        },
        TermView::Binary(bytes) => {
            lemma_slice_at(s, pos, e, 1, 5);
            assert(e.subrange(1, 5) =~= spec_u32_to_be_bytes(bytes.len() as u32));
            lemma_u32_from_to_be_bytes(bytes.len() as u32);
            assert(be_u32_at(s, p) == bytes.len() as u32);
            assert((bytes.len() as u32) as int == bytes.len() as int);
            lemma_slice_at(s, pos, e, 5, e.len() as int);
            assert(e.subrange(5, e.len() as int) =~= bytes);
        },
        TermView::BigInteger(sign, magnitude) => {
            if magnitude.len() <= 255 {
                lemma_byte_at(s, pos, e, 1);
                lemma_byte_at(s, pos, e, 2);
                assert(s[p] == magnitude.len() as u8);
                assert((magnitude.len() as u8) as int == magnitude.len() as int);
                assert(s[p + 1] == sign);
                lemma_slice_at(s, pos, e, 3, e.len() as int);
                assert(e.subrange(3, e.len() as int) =~= magnitude);
            } else {
                lemma_slice_at(s, pos, e, 1, 5);
                assert(e.subrange(1, 5) =~= spec_u32_to_be_bytes(magnitude.len() as u32));
                lemma_u32_from_to_be_bytes(magnitude.len() as u32);
                assert(be_u32_at(s, p) == magnitude.len() as u32);
                assert((magnitude.len() as u32) as int == magnitude.len() as int);
                lemma_byte_at(s, pos, e, 5);
                assert(s[p + 4] == sign);
                lemma_slice_at(s, pos, e, 6, e.len() as int);
                assert(e.subrange(6, e.len() as int) =~= magnitude);
            }
        },
        TermView::BitBinary(trailing_bits, bytes) => {
            lemma_slice_at(s, pos, e, 1, 5);
            assert(e.subrange(1, 5) =~= spec_u32_to_be_bytes(bytes.len() as u32));
            lemma_u32_from_to_be_bytes(bytes.len() as u32);
            assert(be_u32_at(s, p) == bytes.len() as u32);
            assert((bytes.len() as u32) as int == bytes.len() as int);
            lemma_byte_at(s, pos, e, 5);
            assert(s[p + 4] == trailing_bits);
            lemma_slice_at(s, pos, e, 6, e.len() as int);
            assert(e.subrange(6, e.len() as int) =~= bytes);
        },
        TermView::Tuple(elements) => {
            let body = spec_encode_terms(elements);
            if elements.len() <= 255 {
                lemma_byte_at(s, pos, e, 1);
                assert(s[p] == elements.len() as u8);
                assert((elements.len() as u8) as nat == elements.len());
                lemma_slice_at(s, pos, e, 2, e.len() as int);
                assert(e.subrange(2, e.len() as int) =~= body);
                assert(e.len() == 2 + body.len());
                lemma_round_trip_terms_at(elements, s, pos + 2);
                assert(s[pos] == 104);
                assert(spec_decode(s, pos) == spec_decode_tuple(s, p, true));
                assert(s[p] as nat == elements.len());
                assert(spec_decode_terms(s, p + 1, s[p] as nat) == Ok::<
                    (Seq<TermView>, int),
                    (DecodeError, int),
                >((elements, pos + 2 + body.len() as int)));
                assert(spec_decode_tuple(s, p, true) == Ok::<
                    (TermView, int),
                    (DecodeError, int),
                >((TermView::Tuple(elements), pos + 2 + body.len() as int)));
            } else {
                lemma_slice_at(s, pos, e, 1, 5);
                assert(e.subrange(1, 5) =~= spec_u32_to_be_bytes(elements.len() as u32));
                lemma_u32_from_to_be_bytes(elements.len() as u32);
                assert(be_u32_at(s, p) == elements.len() as u32);
                assert((elements.len() as u32) as nat == elements.len());
                lemma_slice_at(s, pos, e, 5, e.len() as int);
                assert(e.subrange(5, e.len() as int) =~= body);
                assert(e.len() == 5 + body.len());
                lemma_round_trip_terms_at(elements, s, pos + 5);
                assert(s[pos] == 105);
                assert(spec_decode(s, pos) == spec_decode_tuple(s, p, false));
                assert(be_u32_at(s, p) as nat == elements.len());
                assert(spec_decode_terms(s, p + 4, be_u32_at(s, p) as nat) == Ok::<
                    (Seq<TermView>, int),
                    (DecodeError, int),
                >((elements, pos + 5 + body.len() as int)));
                assert(spec_decode_tuple(s, p, false) == Ok::<
                    (TermView, int),
                    (DecodeError, int),
                >((TermView::Tuple(elements), pos + 5 + body.len() as int)));
            }
        },
        TermView::List(elements) => {
            let body = spec_encode_terms(elements);
            lemma_slice_at(s, pos, e, 1, 5);
            assert(e.subrange(1, 5) =~= spec_u32_to_be_bytes(elements.len() as u32));
            lemma_u32_from_to_be_bytes(elements.len() as u32);
            assert(be_u32_at(s, p) == elements.len() as u32);
            assert((elements.len() as u32) as nat == elements.len());
            lemma_slice_at(s, pos, e, 5, 5 + body.len() as int);
            assert(e.subrange(5, 5 + body.len() as int) =~= body);
            assert(e.len() == 6 + body.len());
            lemma_round_trip_terms_at(elements, s, pos + 5);
            let q = pos + 5 + body.len();
            lemma_byte_at(s, pos, e, e.len() as int - 1);
            assert(e[e.len() - 1] == 106);
            assert(s[q] == 106);
            assert(s[pos] == 108);
            assert(spec_decode(s, pos) == spec_decode_list(s, p));
            assert(be_u32_at(s, p) as nat == elements.len());
            assert(spec_decode_terms(s, p + 4, be_u32_at(s, p) as nat) == Ok::<
                (Seq<TermView>, int),
                (DecodeError, int),
            >((elements, q)));
            assert(p < q <= s.len());
            assert(spec_decode(s, q) == Ok::<(TermView, int), (DecodeError, int)>(
                (TermView::Nil, q + 1),
            ));
            assert(spec_decode_list(s, p) == Ok::<(TermView, int), (DecodeError, int)>(
                (TermView::List(elements), q + 1),
            ));
        },
        _ => {
            assert(false);
        },
    }
}

/// The round-trip law: a term the encoder supports decodes from its own
/// canonical encoding, back to itself, consuming every byte. Hence re-encoding
/// what was decoded from a canonical encoding reproduces those bytes exactly.
pub proof fn lemma_round_trip(t: TermView)
    requires
        encodable(t),
    ensures
        spec_decode(spec_encode(t), 0) == Ok::<(TermView, int), (DecodeError, int)>(
            (t, spec_encode(t).len() as int),
        ),
{
    let e = spec_encode(t);
    assert(e.subrange(0, e.len() as int) =~= e);
    lemma_round_trip_at(t, e, 0);
}

/// A list's improper tail is folded in: after the counted elements, a Nil
/// tail term is dropped and any other tail term is appended as one extra
/// trailing element, never an error.
pub proof fn lemma_list_tail_folding(
    s: Seq<u8>,
    p: int,
    elements: Seq<TermView>,
    q: int,
    tail: TermView,
    q2: int,
)
    requires
        0 <= p,
        p + 4 <= s.len(),
        spec_decode_terms(s, p + 4, be_u32_at(s, p) as nat) == Ok::<
            (Seq<TermView>, int),
            (DecodeError, int),
        >((elements, q)),
        p < q <= s.len(),
        spec_decode(s, q) == Ok::<(TermView, int), (DecodeError, int)>((tail, q2)),
    ensures
        tail == TermView::Nil ==> spec_decode_list(s, p) == Ok::<
            (TermView, int),
            (DecodeError, int),
        >((TermView::List(elements), q2)),
        tail != TermView::Nil ==> spec_decode_list(s, p) == Ok::<
            (TermView, int),
            (DecodeError, int),
        >((TermView::List(elements.push(tail)), q2)),
{
}

/// An unsupported variant is refused with `Unsupported`, never silently
/// dropped or trimmed, and leaves no bytes in the sink: the encoder supports
/// no reference, port, pid, fun, export, Nil or legacy-float term.
pub proof fn lemma_unsupported_variant_refused(t: TermView)
    requires
        t is Reference || t is Port || t is Pid || t is Fun || t is Export || t is Nil
            || t is LegacyFloat,
    ensures
        !encodable(t),
        spec_encode_err(t) == EncodeError::Unsupported,
        spec_encode_partial(t) == Seq::<u8>::empty(),
{
}

/// A tag byte outside the recognized set is refused with `UnknownTag`, with
/// exactly the tag byte consumed.
pub proof fn lemma_unknown_tag(s: Seq<u8>, pos: int)
    requires
        0 <= pos < s.len(),
        !recognized_tag(s[pos]),
    ensures
        spec_decode(s, pos) == Err::<(TermView, int), (DecodeError, int)>(
            (DecodeError::UnknownTag, pos + 1),
        ),
{
}

/// The second buffer is the first with `d` bytes put before it and nothing
/// after it.
pub open spec fn embeds_at(s2: Seq<u8>, s: Seq<u8>, d: int) -> bool {
    0 <= d && s2.len() == d + s.len() && s2.subrange(d, s2.len() as int) == s
}

/// A byte of the embedded buffer, seen through the embedding one.
proof fn lemma_embed_byte(s2: Seq<u8>, s: Seq<u8>, d: int, i: int)
    requires
        embeds_at(s2, s, d),
        0 <= i < s.len(),
    ensures
        s2[d + i] == s[i],
{
    assert(s2.subrange(d, s2.len() as int)[i] == s2[d + i]);
}

/// A slice of the embedded buffer, seen through the embedding one.
proof fn lemma_embed_slice(s2: Seq<u8>, s: Seq<u8>, d: int, a: int, b: int)
    requires
        embeds_at(s2, s, d),
        0 <= a <= b <= s.len(),
    ensures
        s2.subrange(d + a, d + b) == s.subrange(a, b),
{
    assert forall|k: int| 0 <= k < b - a implies s2.subrange(d + a, d + b)[k] == s.subrange(
        a,
        b,
    )[k] by {
        assert(s2.subrange(d, s2.len() as int)[a + k] == s2[d + a + k]);
    }
    assert(s2.subrange(d + a, d + b) =~= s.subrange(a, b));
}

/// A decode outcome with every position moved forward by `d`.
pub open spec fn shift_outcome(o: DecodeOutcome, d: int) -> DecodeOutcome {
    match o {
        Ok((t, q)) => Ok((t, q + d)),
        Err((e, ep)) => Err((e, ep + d)),
    }
}

/// A run outcome with every position moved forward by `d`.
pub open spec fn shift_run_outcome(o: DecodeRunOutcome, d: int) -> DecodeRunOutcome {
    match o {
        Ok((ts, q)) => Ok((ts, q + d)),
        Err((e, ep)) => Err((e, ep + d)),
    }
}

/// Decoding a run ignores what stands before the bytes it reads: in the
/// embedding buffer it yields the same terms, at positions moved by `d`.
proof fn lemma_decode_terms_shift(s2: Seq<u8>, s: Seq<u8>, d: int, pos: int, n: nat)
    requires
        embeds_at(s2, s, d),
        0 <= pos <= s.len(),
    ensures
        spec_decode_terms(s2, d + pos, n) == shift_run_outcome(spec_decode_terms(s, pos, n), d),
    decreases s.len() - pos, 2int,
{
    if n > 0 {
        lemma_decode_shift(s2, s, d, pos);
        match spec_decode(s, pos) {
            Ok((t, q)) => {
                if pos < q <= s.len() {
                    lemma_decode_terms_shift(s2, s, d, q, (n - 1) as nat);
                }
            },
            Err(_) => {},
        }
    }
}

/// One case of `lemma_decode_shift`, split out for the prover's sake.
#[verifier::rlimit(100)]
#[verifier::spinoff_prover]
proof fn lemma_decode_shift_node(s2: Seq<u8>, s: Seq<u8>, d: int, pos: int)
    requires
        embeds_at(s2, s, d),
        0 <= pos < s.len(),
        s[pos] == 101 || s[pos] == 102 || s[pos] == 103,
    ensures
        spec_decode(s2, d + pos) == shift_outcome(spec_decode(s, pos), d),
    decreases s.len() - pos, 0int,
{
    lemma_embed_byte(s2, s, d, pos);
    let p = pos + 1;
    let pd = d + p;
    let tag = s[pos];
    lemma_decode_advances(s, p);
    lemma_decode_shift(s2, s, d, p);
    match spec_decode(s, p) {
        Ok((node, q)) => {
            if q + 4 <= s.len() {
                lemma_embed_slice(s2, s, d, q, q + 4);
                assert(be_u32_at(s2, d + q) == be_u32_at(s, q));
                if q + 5 <= s.len() {
                    lemma_embed_byte(s2, s, d, q + 4);
                }
                if tag == 103 {
                    if q + 8 <= s.len() {
                        lemma_embed_slice(s2, s, d, q + 4, q + 8);
                        assert(be_u32_at(s2, d + q + 4) == be_u32_at(s, q + 4));
                        if q + 9 <= s.len() {
                            lemma_embed_byte(s2, s, d, q + 8);
                        }
                    }
                }
            }
        },
        Err(_) => {},
    }
    if tag == 101 {
        assert(spec_decode_reference(s2, pd) == shift_outcome(
            spec_decode_reference(s, p),
            d,
        ));
    } else if tag == 102 {
        assert(spec_decode_port(s2, pd) == shift_outcome(spec_decode_port(s, p), d));
    } else {
        assert(spec_decode_pid(s2, pd) == shift_outcome(spec_decode_pid(s, p), d));
    }
}

/// One case of `lemma_decode_shift`, split out for the prover's sake.
#[verifier::rlimit(100)]
#[verifier::spinoff_prover]
proof fn lemma_decode_shift_new_reference(s2: Seq<u8>, s: Seq<u8>, d: int, pos: int)
    requires
        embeds_at(s2, s, d),
        0 <= pos < s.len(),
        s[pos] == 114,
    ensures
        spec_decode(s2, d + pos) == shift_outcome(spec_decode(s, pos), d),
    decreases s.len() - pos, 0int,
{
    lemma_embed_byte(s2, s, d, pos);
    let p = pos + 1;
    let pd = d + p;
    if p + 2 <= s.len() {
        lemma_embed_slice(s2, s, d, p, p + 2);
        assert(be_u16_at(s2, pd) == be_u16_at(s, p));
        let l = be_u16_at(s, p) as int;
        if l <= 3 {
            lemma_decode_advances(s, p + 2);
            lemma_decode_shift(s2, s, d, p + 2);
            match spec_decode(s, p + 2) {
                Ok((node, q)) => {
                    if q + 1 <= s.len() {
                        lemma_embed_byte(s2, s, d, q);
                        if q + 1 + 4 * l <= s.len() {
                            let run2 = be_u32_run_at(s2, d + q + 1, l as nat);
                            let run = be_u32_run_at(s, q + 1, l as nat);
                            assert forall|i: int| 0 <= i < l implies #[trigger] run2[i]
                                == run[i] by {
                                lemma_embed_slice(
                                    s2,
                                    s,
                                    d,
                                    q + 1 + 4 * i,
                                    q + 1 + 4 * i + 4,
                                );
                                assert(d + q + 1 + 4 * i == d + (q + 1 + 4 * i));
                            }
                            assert(run2 =~= run);
                        }
                    }
                },
                Err(_) => {},
            }
        }
        assert(spec_decode_new_reference(s2, pd) == shift_outcome(
            spec_decode_new_reference(s, p),
            d,
        ));
    }
}

/// One case of `lemma_decode_shift`, split out for the prover's sake.
#[verifier::rlimit(100)]
#[verifier::spinoff_prover]
proof fn lemma_decode_shift_tuple(s2: Seq<u8>, s: Seq<u8>, d: int, pos: int)
    requires
        embeds_at(s2, s, d),
        0 <= pos < s.len(),
        s[pos] == 104 || s[pos] == 105,
    ensures
        spec_decode(s2, d + pos) == shift_outcome(spec_decode(s, pos), d),
    decreases s.len() - pos, 0int,
{
    lemma_embed_byte(s2, s, d, pos);
    let p = pos + 1;
    let pd = d + p;
    let tag = s[pos];
    let small = tag == 104;
    if small {
        if p + 1 <= s.len() {
            lemma_embed_byte(s2, s, d, p);
            lemma_decode_terms_shift(s2, s, d, p + 1, s[p] as nat);
        }
    } else {
        if p + 4 <= s.len() {
            lemma_embed_slice(s2, s, d, p, p + 4);
            assert(be_u32_at(s2, pd) == be_u32_at(s, p));
            lemma_decode_terms_shift(s2, s, d, p + 4, be_u32_at(s, p) as nat);
        }
    }
    assert(spec_decode_tuple(s2, pd, small) == shift_outcome(
        spec_decode_tuple(s, p, small),
        d,
    ));
}

/// One case of `lemma_decode_shift`, split out for the prover's sake.
#[verifier::rlimit(100)]
#[verifier::spinoff_prover]
proof fn lemma_decode_shift_list(s2: Seq<u8>, s: Seq<u8>, d: int, pos: int)
    requires
        embeds_at(s2, s, d),
        0 <= pos < s.len(),
        s[pos] == 108,
    ensures
        spec_decode(s2, d + pos) == shift_outcome(spec_decode(s, pos), d),
    decreases s.len() - pos, 0int,
{
    lemma_embed_byte(s2, s, d, pos);
    let p = pos + 1;
    let pd = d + p;
    if p + 4 <= s.len() {
        lemma_embed_slice(s2, s, d, p, p + 4);
        assert(be_u32_at(s2, pd) == be_u32_at(s, p));
        lemma_decode_terms_shift(s2, s, d, p + 4, be_u32_at(s, p) as nat);
        match spec_decode_terms(s, p + 4, be_u32_at(s, p) as nat) {
            Ok((elements, q)) => {
                if p < q <= s.len() {
                    lemma_decode_shift(s2, s, d, q);
                }
            },
            Err(_) => {},
        }
        assert(spec_decode_list(s2, pd) == shift_outcome(spec_decode_list(s, p), d));
    }
}

/// One case of `lemma_decode_shift`, split out for the prover's sake.
#[verifier::rlimit(100)]
#[verifier::spinoff_prover]
proof fn lemma_decode_shift_fun(s2: Seq<u8>, s: Seq<u8>, d: int, pos: int)
    requires
        embeds_at(s2, s, d),
        0 <= pos < s.len(),
        s[pos] == 117,
    ensures
        spec_decode(s2, d + pos) == shift_outcome(spec_decode(s, pos), d),
    decreases s.len() - pos, 0int,
{
    lemma_embed_byte(s2, s, d, pos);
    let p = pos + 1;
    let pd = d + p;
    if p + 4 <= s.len() {
        lemma_embed_slice(s2, s, d, p, p + 4);
        assert(be_u32_at(s2, pd) == be_u32_at(s, p));
        lemma_decode_terms_shift(s2, s, d, p + 4, 4);
        match spec_decode_terms(s, p + 4, 4) {
            Ok((heads, q)) => {
                if p < q <= s.len() {
                    lemma_decode_terms_shift(s2, s, d, q, be_u32_at(s, p) as nat);
                }
            },
            Err(_) => {},
        }
        assert(spec_decode_fun(s2, pd) == shift_outcome(spec_decode_fun(s, p), d));
    }
}

/// One case of `lemma_decode_shift`, split out for the prover's sake.
#[verifier::rlimit(100)]
#[verifier::spinoff_prover]
proof fn lemma_decode_shift_new_fun(s2: Seq<u8>, s: Seq<u8>, d: int, pos: int)
    requires
        embeds_at(s2, s, d),
        0 <= pos < s.len(),
        s[pos] == 112,
    ensures
        spec_decode(s2, d + pos) == shift_outcome(spec_decode(s, pos), d),
    decreases s.len() - pos, 0int,
{
    lemma_embed_byte(s2, s, d, pos);
    let p = pos + 1;
    let pd = d + p;
    if p + 4 <= s.len() {
        lemma_embed_slice(s2, s, d, p, p + 4);
    }
    if p + 5 <= s.len() {
        lemma_embed_byte(s2, s, d, p + 4);
    }
    if p + 21 <= s.len() {
        lemma_embed_slice(s2, s, d, p + 5, p + 21);
    }
    if p + 25 <= s.len() {
        lemma_embed_slice(s2, s, d, p + 21, p + 25);
        assert(be_u32_at(s2, pd + 21) == be_u32_at(s, p + 21));
    }
    if p + 29 <= s.len() {
        lemma_embed_slice(s2, s, d, p + 25, p + 29);
        assert(be_u32_at(s2, pd + 25) == be_u32_at(s, p + 25));
        lemma_decode_terms_shift(s2, s, d, p + 29, 4);
        match spec_decode_terms(s, p + 29, 4) {
            Ok((heads, q)) => {
                if p < q <= s.len() {
                    lemma_decode_terms_shift(s2, s, d, q, be_u32_at(s, p + 25) as nat);
                }
            },
            Err(_) => {},
        }
    }
    assert(spec_decode_new_fun(s2, pd) == shift_outcome(spec_decode_new_fun(s, p), d));
}

/// Decoding ignores what stands before the bytes it reads: in the embedding
/// buffer it yields the same term or error, at positions moved by `d`.
#[verifier::rlimit(100)]
#[verifier::spinoff_prover]
pub proof fn lemma_decode_shift(s2: Seq<u8>, s: Seq<u8>, d: int, pos: int)
    requires
        embeds_at(s2, s, d),
        0 <= pos <= s.len(),
    ensures
        spec_decode(s2, d + pos) == shift_outcome(spec_decode(s, pos), d),
    decreases s.len() - pos, 1int,
{
    if pos >= s.len() {
        assert(d + pos >= s2.len());
    } else {
        lemma_embed_byte(s2, s, d, pos);
        let tag = s[pos];
        let p = pos + 1;
        let pd = d + p;
        if tag == 82 || tag == 97 {
            if p + 1 <= s.len() {
                lemma_embed_byte(s2, s, d, p);
            }
        } else if tag == 98 {
            if p + 4 <= s.len() {
                lemma_embed_slice(s2, s, d, p, p + 4);
                assert(be_i32_at(s2, pd) == be_i32_at(s, p));
            }
        } else if tag == 70 {
            if p + 8 <= s.len() {
                lemma_embed_slice(s2, s, d, p, p + 8);
                assert(be_u64_at(s2, pd) == be_u64_at(s, p));
            }
        } else if tag == 99 {
            if p + 26 <= s.len() {
                lemma_embed_slice(s2, s, d, p, p + 26);
                assert(s2.subrange(pd, pd + 26) == s.subrange(p, p + 26));
            }
        } else if tag == 100 || tag == 115 || tag == 118 || tag == 119 {
            let small = tag == 115 || tag == 119;
            if small {
                if p + 1 <= s.len() {
                    lemma_embed_byte(s2, s, d, p);
                    let l = s[p] as int;
                    if p + 1 + l <= s.len() {
                        lemma_embed_slice(s2, s, d, p + 1, p + 1 + l);
                    }
                }
            } else {
                if p + 2 <= s.len() {
                    lemma_embed_slice(s2, s, d, p, p + 2);
                    assert(be_u16_at(s2, pd) == be_u16_at(s, p));
                    let l = be_u16_at(s, p) as int;
                    if p + 2 + l <= s.len() {
                        lemma_embed_slice(s2, s, d, p + 2, p + 2 + l);
                    }
                }
            }
        } else if tag == 107 {
            if p + 2 <= s.len() {
                lemma_embed_slice(s2, s, d, p, p + 2);
                assert(be_u16_at(s2, pd) == be_u16_at(s, p));
                let l = be_u16_at(s, p) as int;
                if p + 2 + l <= s.len() {
                    lemma_embed_slice(s2, s, d, p + 2, p + 2 + l);
                }
            }
        } else if tag == 109 {
            if p + 4 <= s.len() {
                lemma_embed_slice(s2, s, d, p, p + 4);
                assert(be_u32_at(s2, pd) == be_u32_at(s, p));
                let l = be_u32_at(s, p) as int;
                if p + 4 + l <= s.len() {
                    lemma_embed_slice(s2, s, d, p + 4, p + 4 + l);
                }
            }
        } else if tag == 110 {
            if p + 1 <= s.len() {
                lemma_embed_byte(s2, s, d, p);
                let l = s[p] as int;
                if p + 2 <= s.len() {
                    lemma_embed_byte(s2, s, d, p + 1);
                    if p + 2 + l <= s.len() {
                        lemma_embed_slice(s2, s, d, p + 2, p + 2 + l);
                    }
                }
            }
        } else if tag == 111 {
            if p + 4 <= s.len() {
                lemma_embed_slice(s2, s, d, p, p + 4);
                assert(be_u32_at(s2, pd) == be_u32_at(s, p));
                let l = be_u32_at(s, p) as int;
                if p + 5 <= s.len() {
                    lemma_embed_byte(s2, s, d, p + 4);
                    if p + 5 + l <= s.len() {
                        lemma_embed_slice(s2, s, d, p + 5, p + 5 + l);
                    }
                }
            }
        } else if tag == 77 {
            if p + 4 <= s.len() {
                lemma_embed_slice(s2, s, d, p, p + 4);
                assert(be_u32_at(s2, pd) == be_u32_at(s, p));
                let l = be_u32_at(s, p) as int;
                if p + 5 <= s.len() {
                    lemma_embed_byte(s2, s, d, p + 4);
                    if p + 5 + l <= s.len() {
                        lemma_embed_slice(s2, s, d, p + 5, p + 5 + l);
                    }
                }
            }
        } else if tag == 101 || tag == 102 || tag == 103 {
            lemma_decode_shift_node(s2, s, d, pos);
        } else if tag == 114 {
            lemma_decode_shift_new_reference(s2, s, d, pos);
        } else if tag == 104 || tag == 105 {
            lemma_decode_shift_tuple(s2, s, d, pos);
        } else if tag == 108 {
            lemma_decode_shift_list(s2, s, d, pos);
        } else if tag == 117 {
            lemma_decode_shift_fun(s2, s, d, pos);
        } else if tag == 112 {
            lemma_decode_shift_new_fun(s2, s, d, pos);
        } else if tag == 113 {
            lemma_decode_terms_shift(s2, s, d, p, 3);
            assert(spec_decode_export(s2, pd) == shift_outcome(spec_decode_export(s, p), d));
        } else if tag == 131 {
            lemma_decode_shift(s2, s, d, p);
        }
    }
}

/// The version marker is transparent: decoding at a position holding the
/// marker tag decodes the bytes after it, as one term.
pub proof fn lemma_version_marker_transparent(s: Seq<u8>, pos: int)
    requires
        0 <= pos < s.len(),
        s[pos] == 131,
    ensures
        spec_decode(s, pos) == spec_decode(s, pos + 1),
{
}

/// The version marker is transparent, stated over two buffers: decoding the
/// marker byte followed by any bytes yields exactly what decoding those
/// bytes alone yields, term and error alike, with every position one
/// greater.
pub proof fn lemma_version_marker_prepended(enc: Seq<u8>)
    ensures
        spec_decode(seq![131u8] + enc, 0) == shift_outcome(spec_decode(enc, 0), 1),
{
    let s2 = seq![131u8] + enc;
    assert(s2[0] == 131);
    assert(s2.subrange(1, s2.len() as int) =~= enc);
    lemma_decode_shift(s2, enc, 1, 0);
}

} // verus!
