//! A byte-level BPE (byte-pair-encoding) tokenizer.
//!
//! Text is split into chunks by a pre-tokenizer, each chunk's UTF-8 bytes are
//! remapped to printable symbol characters, and a merge engine repeatedly
//! joins the adjacent symbol pair of lowest rank until no trained merge
//! applies.  The resulting subwords are looked up in a fixed vocabulary to
//! produce token ids; decoding reverses the pipeline.

pub mod bytemap;
pub mod encoder;
pub mod engine;
pub mod errors;
pub mod merges;
pub mod roundtrip;
pub mod segment;
mod strutil;
pub mod vocab;
pub mod words;

pub use bytemap::bytes_to_unicode;
pub use bytemap::to_byte;
pub use bytemap::to_symbol;
pub use encoder::Encoder;
pub use engine::get_pairs;
pub use errors::TokenizerError;
pub use merges::parse_merges;
pub use segment::segment;
