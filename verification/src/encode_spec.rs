//! What encoding means: the wire bytes of each supported term, which terms
//! the encoder supports, and which error an unsupported term earns. The
//! encoder is verified against these definitions.

use vstd::prelude::*;
use crate::term::{EncodeError, TermView};
use crate::wire::{spec_u16_to_be_bytes, spec_u32_to_be_bytes, spec_u64_to_be_bytes, spec_i32_to_be_bytes};

verus! {

/// Whether the encoder supports the term: a supported variant whose payload
/// fits the widest length field of that variant, recursively.
pub open spec fn encodable(t: TermView) -> bool
    decreases t,
{
    match t {
        TermView::AtomCacheRef(_) => true,
        TermView::Integer(_) => true,
        TermView::Float(_) => true,
        TermView::Atom(text) => text.len() <= 0xffff,
        TermView::Tuple(elements) => elements.len() <= 0xffffffff && (forall|i: int|
            0 <= i < elements.len() ==> encodable(#[trigger] elements[i])),
        TermView::Str(text) => text.len() <= 0xffff,
        TermView::List(elements) => elements.len() <= 0xffffffff && (forall|i: int|
            0 <= i < elements.len() ==> encodable(#[trigger] elements[i])),
        TermView::Binary(bytes) => bytes.len() <= 0xffffffff,
        TermView::BigInteger(_, magnitude) => magnitude.len() <= 0xffffffff,
        TermView::BitBinary(_, bytes) => bytes.len() <= 0xffffffff,
        _ => false,
    }
}

/// The wire bytes of a run of terms, in order.
pub open spec fn spec_encode_terms(elements: Seq<TermView>) -> Seq<u8>
    decreases elements,
{
    if elements.len() == 0 {
        Seq::empty()
    } else {
        spec_encode(elements[0]) + spec_encode_terms(elements.drop_first())
    }
}

/// The wire bytes of a supported term: the most compact form whose length
/// field can hold the payload size.
pub open spec fn spec_encode(t: TermView) -> Seq<u8>
    decreases t,
{
    match t {
        TermView::AtomCacheRef(index) => seq![82u8, index],
        TermView::Integer(v) => if 0 <= v <= 255 {
            seq![97u8, v as u8]
        } else {
            seq![98u8] + spec_i32_to_be_bytes(v)
        },
        TermView::Float(bits) => seq![70u8] + spec_u64_to_be_bytes(bits),
        TermView::Atom(text) => if text.len() <= 255 {
            seq![115u8, text.len() as u8] + text
        } else {
            seq![100u8] + spec_u16_to_be_bytes(text.len() as u16) + text
        },
        TermView::Tuple(elements) => if elements.len() <= 255 {
            seq![104u8, elements.len() as u8] + spec_encode_terms(elements)
        } else {
            seq![105u8] + spec_u32_to_be_bytes(elements.len() as u32) + spec_encode_terms(elements)
        },
        TermView::Str(text) => seq![107u8] + spec_u16_to_be_bytes(text.len() as u16) + text,
        TermView::List(elements) => seq![108u8] + spec_u32_to_be_bytes(elements.len() as u32)
            + spec_encode_terms(elements) + seq![106u8],
        TermView::Binary(bytes) => seq![109u8] + spec_u32_to_be_bytes(bytes.len() as u32) + bytes,
        TermView::BigInteger(sign, magnitude) => if magnitude.len() <= 255 {
            seq![110u8, magnitude.len() as u8, sign] + magnitude
        } else {
            seq![111u8] + spec_u32_to_be_bytes(magnitude.len() as u32) + seq![sign] + magnitude
        },
        TermView::BitBinary(trailing_bits, bytes) => seq![77u8] + spec_u32_to_be_bytes(
            bytes.len() as u32,
        ) + seq![trailing_bits] + bytes,
        _ => Seq::empty(),
    }
}

/// The error of the first term of a run that the encoder refuses.
pub open spec fn spec_encode_terms_err(elements: Seq<TermView>) -> EncodeError
    decreases elements,
{
    if elements.len() == 0 {
        EncodeError::Unsupported
    } else if !encodable(elements[0]) {
        spec_encode_err(elements[0])
    } else {
        spec_encode_terms_err(elements.drop_first())
    }
}

/// The error an unsupported term earns: `Unsupported` for a variant outside
/// the encoder's set, `TooLarge` for an oversize payload, and for a tuple or
/// list the error of its first refused element.
pub open spec fn spec_encode_err(t: TermView) -> EncodeError
    recommends
        !encodable(t),
    decreases t,
{
    match t {
        TermView::Atom(_) => EncodeError::TooLarge,
        TermView::Str(_) => EncodeError::TooLarge,
        TermView::Binary(_) => EncodeError::TooLarge,
        TermView::BigInteger(_, _) => EncodeError::TooLarge,
        TermView::BitBinary(_, _) => EncodeError::TooLarge,
        TermView::Tuple(elements) => if elements.len() > 0xffffffff {
            EncodeError::TooLarge
        } else {
            spec_encode_terms_err(elements)
        },
        TermView::List(elements) => if elements.len() > 0xffffffff {
            EncodeError::TooLarge
        } else {
            spec_encode_terms_err(elements)
        },
        _ => EncodeError::Unsupported,
    }
}

/// The bytes a refused term leaves in the sink: nothing for a refused
/// scalar or an oversize container, and for a tuple or list whose count fits
/// its length field, the header already written, the encodings of the
/// elements before the first refused one, and what that element itself left.
pub open spec fn spec_encode_partial(t: TermView) -> Seq<u8>
    recommends
        !encodable(t),
    decreases t,
{
    match t {
        TermView::Tuple(elements) => if elements.len() > 0xffffffff {
            Seq::empty()
        } else if elements.len() <= 255 {
            seq![104u8, elements.len() as u8] + spec_encode_terms_partial(elements)
        } else {
            seq![105u8] + spec_u32_to_be_bytes(elements.len() as u32) + spec_encode_terms_partial(
                elements,
            )
        },
        TermView::List(elements) => if elements.len() > 0xffffffff {
            Seq::empty()
        } else {
            seq![108u8] + spec_u32_to_be_bytes(elements.len() as u32) + spec_encode_terms_partial(
                elements,
            )
        },
        _ => Seq::empty(),
    }
}

/// The bytes a run with a refused term leaves in the sink: the encodings up
/// to the first refused term, then what that term itself left.
pub open spec fn spec_encode_terms_partial(elements: Seq<TermView>) -> Seq<u8>
    decreases elements,
{
    if elements.len() == 0 {
        Seq::empty()
    } else if !encodable(elements[0]) {
        spec_encode_partial(elements[0])
    } else {
        spec_encode(elements[0]) + spec_encode_terms_partial(elements.drop_first())
    }
}

/// Encoding a run commutes with appending one term.
pub proof fn lemma_encode_terms_push(elements: Seq<TermView>, t: TermView)
    ensures
        spec_encode_terms(elements.push(t)) == spec_encode_terms(elements) + spec_encode(t),
    decreases elements,
{
    if elements.len() == 0 {
        assert(elements.push(t).len() == 1);
        assert(elements.push(t)[0] == t);
        assert(elements.push(t).drop_first() =~= Seq::<TermView>::empty());
        assert(spec_encode_terms(elements.push(t)) == spec_encode(t) + spec_encode_terms(
            Seq::<TermView>::empty(),
        ));
        assert(spec_encode_terms(Seq::<TermView>::empty()) == Seq::<u8>::empty());
        assert(spec_encode_terms(elements) == Seq::<u8>::empty());
        assert(spec_encode(t) + Seq::<u8>::empty() =~= spec_encode(t));
        assert(Seq::<u8>::empty() + spec_encode(t) =~= spec_encode(t));
        assert(spec_encode_terms(elements.push(t)) =~= spec_encode_terms(elements) + spec_encode(
            t,
        ));
    } else {
        let e0 = elements[0];
        let rest = elements.drop_first();
        assert(elements.push(t)[0] == e0);
        assert(elements.push(t).drop_first() =~= rest.push(t));
        lemma_encode_terms_push(rest, t);
        assert(spec_encode_terms(elements.push(t)) == spec_encode(e0) + spec_encode_terms(
            rest.push(t),
        ));
        assert(spec_encode_terms(elements) == spec_encode(e0) + spec_encode_terms(rest));
        assert(spec_encode(e0) + (spec_encode_terms(rest) + spec_encode(t)) =~= (spec_encode(e0)
            + spec_encode_terms(rest)) + spec_encode(t));
    }
}

/// The leavings of a run are the encodings before its first refused term,
/// then that term's own leavings.
pub proof fn lemma_encode_terms_partial_at(elements: Seq<TermView>, i: int)
    requires
        0 <= i < elements.len(),
        forall|j: int| 0 <= j < i ==> encodable(#[trigger] elements[j]),
        !encodable(elements[i]),
    ensures
        spec_encode_terms_partial(elements) == spec_encode_terms(elements.take(i))
            + spec_encode_partial(elements[i]),
    decreases elements,
{
    if i == 0 {
        assert(elements.take(0) =~= Seq::<TermView>::empty());
        assert(Seq::<u8>::empty() + spec_encode_partial(elements[0]) =~= spec_encode_partial(
            elements[0],
        ));
    } else {
        assert(encodable(elements[0]));
        let rest = elements.drop_first();
        assert(rest[i - 1] == elements[i]);
        assert(forall|j: int| 0 <= j < i - 1 ==> #[trigger] rest[j] == elements[j + 1]);
        lemma_encode_terms_partial_at(rest, i - 1);
        assert(elements.take(i)[0] == elements[0]);
        assert(elements.take(i).drop_first() =~= rest.take(i - 1));
        assert(spec_encode_terms(elements.take(i)) == spec_encode(elements[0])
            + spec_encode_terms(rest.take(i - 1)));
        assert(spec_encode(elements[0]) + (spec_encode_terms(rest.take(i - 1))
            + spec_encode_partial(elements[i])) =~= (spec_encode(elements[0])
            + spec_encode_terms(rest.take(i - 1))) + spec_encode_partial(elements[i]));
    }
}

/// The error of a run is the error of its first refused term.
pub proof fn lemma_encode_terms_err_at(elements: Seq<TermView>, i: int)
    requires
        0 <= i < elements.len(),
        forall|j: int| 0 <= j < i ==> encodable(#[trigger] elements[j]),
        !encodable(elements[i]),
    ensures
        spec_encode_terms_err(elements) == spec_encode_err(elements[i]),
    decreases elements,
{
    if i == 0 {
    } else {
        assert(encodable(elements[0]));
        assert(elements.drop_first()[i - 1] == elements[i]);
        assert(forall|j: int|
            0 <= j < i - 1 ==> #[trigger] elements.drop_first()[j] == elements[j + 1]);
        lemma_encode_terms_err_at(elements.drop_first(), i - 1);
    }
}

} // verus!
