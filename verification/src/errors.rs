//! The error taxonomy of the tokenizer.

use vstd::prelude::*;

verus! {

/// Everything that can go wrong while building a tokenizer or decoding a
/// token sequence.  Encoding never fails: a merged subword with no vocabulary
/// entry is silently dropped from the output, by design.
#[derive(Clone, Copy, Debug, PartialEq, Eq, Structural)]
pub enum TokenizerError {
    /// Construction-time: the supplied vocabulary maps two strings to one id
    /// or one string to two ids, so it is not a bijection.
    MalformedVocabularyData,
    /// Decode-time: a caller-supplied token id has no vocabulary entry.
    UnknownTokenId,
    /// Decode-time: a character outside the byte mapper's image appeared in a
    /// vocabulary string.
    InvalidSymbol,
    /// Decode-time: the reconstructed byte sequence is not valid UTF-8.
    /// Decoding is strict: such input is rejected rather than replaced.
    InvalidUtf8,
}

} // verus!
