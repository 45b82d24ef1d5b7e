//! Codec for a tagged, length-prefixed binary term format: a closed term
//! model, a recursive decoder from bytes to terms, and an encoder from terms
//! back to bytes for a supported subset of the variants.

pub mod term;
pub mod wire;
pub mod float_lit;
pub mod decode_spec;
pub mod decoder;
pub mod encode_spec;
pub mod encoder;
pub mod laws;
