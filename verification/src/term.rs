//! The term model: one closed sum type for every value the wire format can
//! carry, together with its mathematical view and the error types of the
//! decoder and the encoder.

use vstd::prelude::*;

verus! {

broadcast use vstd::std_specs::vec::group_vec_axioms;

/// Why a decode call failed.
#[derive(Debug, Clone, Copy, PartialEq, Eq, Structural)]
pub enum DecodeError {
    /// The tag byte is outside the recognized set.
    UnknownTag,
    /// The source ran out while a reader expected more bytes.
    Truncated,
    /// The legacy ASCII float field does not parse as a floating literal.
    MalformedFloat,
    /// An extended reference carries more than three ids.
    ReferenceArityExceeded,
}

/// Why an encode call failed.
#[derive(Debug, Clone, Copy, PartialEq, Eq, Structural)]
pub enum EncodeError {
    /// The encoder does not implement this variant.
    Unsupported,
    /// The payload length exceeds the widest length field of the variant.
    TooLarge,
}

/// One decoded value. Nested terms are boxed; atom and string text is kept as
/// its wire bytes; a float is carried as the bit pattern of an IEEE-754
/// double, so that re-encoding reproduces the exact wire bytes.
#[derive(Debug)]
pub enum ErlangTerm {
    /// An opaque atom-cache slot index, never resolved here.
    AtomCacheRef(u8),
    /// A 32-bit signed integer, from the compact or the full wire form.
    Integer(i32),
    /// The bit pattern of a 64-bit IEEE-754 double, from the compact form.
    Float(u64),
    /// The text of a legacy ASCII float field, kept as its well-formed
    /// literal bytes: turning them into a double is floating-point work,
    /// which this library leaves to its caller.
    LegacyFloat(Vec<u8>),
    /// Atom text bytes, length-prefixed on the wire.
    Atom(Vec<u8>),
    /// A node term, one to three 32-bit ids, and a creation byte.
    Reference(Box<ErlangTerm>, Vec<u32>, u8),
    /// A node term, a 32-bit id, and a creation byte.
    Port(Box<ErlangTerm>, u32, u8),
    /// A node term, 32-bit id and serial, and a creation byte.
    Pid(Box<ErlangTerm>, u32, u32, u8),
    /// An ordered sequence of element terms.
    Tuple(Vec<ErlangTerm>),
    /// A length-prefixed list of byte-sized characters.
    Str(Vec<u8>),
    /// An ordered sequence of element terms; an improper wire tail is folded
    /// in as one extra trailing element.
    List(Vec<ErlangTerm>),
    /// A raw opaque byte payload.
    Binary(Vec<u8>),
    /// A sign byte (0 positive, 1 negative) and little-endian magnitude bytes.
    BigInteger(u8, Vec<u8>),
    /// A closure: arity, 16 uniq bytes, index, free-variable count, then the
    /// module, old-index, old-uniq and pid terms and the free variables.
    Fun {
        arity: u8,
        uniq: Vec<u8>,
        index: u32,
        num_free: u32,
        module: Box<ErlangTerm>,
        old_index: Box<ErlangTerm>,
        old_uniq: Box<ErlangTerm>,
        pid: Box<ErlangTerm>,
        free_vars: Vec<ErlangTerm>,
    },
    /// A module, function and arity term.
    Export(Box<ErlangTerm>, Box<ErlangTerm>, Box<ErlangTerm>),
    /// A byte payload whose final byte uses only `trailing_bits` bits (1-8).
    BitBinary(u8, Vec<u8>),
    /// The empty list marker.
    Nil,
}

/// The mathematical model of a term: the same closed sum over `Seq` in place
/// of `Vec`. Contracts speak of terms through this type.
pub enum TermView {
    AtomCacheRef(u8),
    Integer(i32),
    Float(u64),
    LegacyFloat(Seq<u8>),
    Atom(Seq<u8>),
    Reference(Box<TermView>, Seq<u32>, u8),
    Port(Box<TermView>, u32, u8),
    Pid(Box<TermView>, u32, u32, u8),
    Tuple(Seq<TermView>),
    Str(Seq<u8>),
    List(Seq<TermView>),
    Binary(Seq<u8>),
    BigInteger(u8, Seq<u8>),
    Fun {
        arity: u8,
        uniq: Seq<u8>,
        index: u32,
        num_free: u32,
        module: Box<TermView>,
        old_index: Box<TermView>,
        old_uniq: Box<TermView>,
        pid: Box<TermView>,
        free_vars: Seq<TermView>,
    },
    Export(Box<TermView>, Box<TermView>, Box<TermView>),
    BitBinary(u8, Seq<u8>),
    Nil,
}

/// The views of a sequence of terms, in order.
pub open spec fn views_of(elements: Seq<ErlangTerm>) -> Seq<TermView>
    decreases elements,
{
    if elements.len() == 0 {
        Seq::empty()
    } else {
        views_of(elements.drop_last()).push(term_view(elements.last()))
    }
}

/// The model of one term: each `Vec` becomes its `Seq`, recursively.
pub open spec fn term_view(t: ErlangTerm) -> TermView
    decreases t,
{
    match t {
        ErlangTerm::AtomCacheRef(index) => TermView::AtomCacheRef(index),
        ErlangTerm::Integer(value) => TermView::Integer(value),
        ErlangTerm::Float(bits) => TermView::Float(bits),
        ErlangTerm::LegacyFloat(text) => TermView::LegacyFloat(text@),
        ErlangTerm::Atom(text) => TermView::Atom(text@),
        ErlangTerm::Reference(node, ids, creation) => TermView::Reference(
            Box::new(term_view(*node)),
            ids@,
            creation,
        ),
        ErlangTerm::Port(node, id, creation) => TermView::Port(
            Box::new(term_view(*node)),
            id,
            creation,
        ),
        ErlangTerm::Pid(node, id, serial, creation) => TermView::Pid(
            Box::new(term_view(*node)),
            id,
            serial,
            creation,
        ),
        ErlangTerm::Tuple(elements) => TermView::Tuple(views_of(elements@)),
        ErlangTerm::Str(text) => TermView::Str(text@),
        ErlangTerm::List(elements) => TermView::List(views_of(elements@)),
        ErlangTerm::Binary(bytes) => TermView::Binary(bytes@),
        ErlangTerm::BigInteger(sign, magnitude) => TermView::BigInteger(sign, magnitude@),
        ErlangTerm::Fun {
            arity,
            uniq,
            index,
            num_free,
            module,
            old_index,
            old_uniq,
            pid,
            free_vars,
        } => TermView::Fun {
            arity,
            uniq: uniq@,
            index,
            num_free,
            module: Box::new(term_view(*module)),
            old_index: Box::new(term_view(*old_index)),
            old_uniq: Box::new(term_view(*old_uniq)),
            pid: Box::new(term_view(*pid)),
            free_vars: views_of(free_vars@),
        },
        ErlangTerm::Export(module, function, arity) => TermView::Export(
            Box::new(term_view(*module)),
            Box::new(term_view(*function)),
            Box::new(term_view(*arity)),
        ),
        ErlangTerm::BitBinary(trailing_bits, bytes) => TermView::BitBinary(trailing_bits, bytes@),
        ErlangTerm::Nil => TermView::Nil,
    }
}

impl View for ErlangTerm {
    type V = TermView;

    open spec fn view(&self) -> TermView {
        term_view(*self)
    }
}

/// `views_of` keeps the length.
pub proof fn lemma_views_of_len(elements: Seq<ErlangTerm>)
    ensures
        views_of(elements).len() == elements.len(),
    decreases elements,
{
    if elements.len() > 0 {
        lemma_views_of_len(elements.drop_last());
    }
}

/// `views_of` maps each element to its view, in place.
pub proof fn lemma_views_of_index(elements: Seq<ErlangTerm>, i: int)
    requires
        0 <= i < elements.len(),
    ensures
        views_of(elements).len() == elements.len(),
        views_of(elements)[i] == term_view(elements[i]),
    decreases elements,
{
    lemma_views_of_len(elements);
    lemma_views_of_len(elements.drop_last());
    if i < elements.len() - 1 {
        lemma_views_of_index(elements.drop_last(), i);
        assert(elements.drop_last()[i] == elements[i]);
    }
}

/// `views_of` commutes with appending one element.
pub proof fn lemma_views_of_push(elements: Seq<ErlangTerm>, t: ErlangTerm)
    ensures
        views_of(elements.push(t)) == views_of(elements).push(term_view(t)),
{
    assert(elements.push(t).drop_last() =~= elements);
    assert(elements.push(t).last() == t);
}

} // verus!
