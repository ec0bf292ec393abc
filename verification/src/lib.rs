//! yaml0: a YAML 1.2 best-effort scanner, scalar resolver and emitter whose
//! scalar grammar, escape decoding, block-scalar folding, merge-key splicing
//! and emitting are stated as contracts and proved.

pub mod emitter;
mod error;
pub mod parser;
pub mod merge;
pub mod order_laws;
pub mod owned;
pub mod patterns;
pub mod roundtrip;
pub mod tags;
pub mod text;
pub mod utf8;
pub mod value;
pub mod block_roundtrip;
pub mod chomping;

pub use error::Error;
pub use parser::Parser;
