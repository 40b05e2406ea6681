//! Token filters: per-token transforms applied after tokenization.
//!
//! Token filters never touch byte offsets: they rewrite token text or
//! details only, so the byte-range tiling established by the tokenizer
//! stands.

pub mod japanese_kana;
pub mod japanese_reading_form;

use vstd::prelude::*;

use crate::word_entry::WordId;

verus! {

/// A token as the filters see it: the dictionary references are gone and
/// the details are plain values.
#[derive(Clone, Debug)]
pub struct FilteredToken {
    /// Text content of the token.
    pub text: String,
    /// Starting position of the token in bytes.
    pub byte_start: usize,
    /// Ending position of the token in bytes.
    pub byte_end: usize,
    /// Position, expressed in number of tokens.
    pub position: usize,
    /// The length expressed in terms of number of original tokens.
    pub position_length: usize,
    /// The id of the word behind the token.
    pub word_id: WordId,
    /// The resolved details of the token.
    pub details: Vec<String>,
}

/// Two tokens that agree on everything but their text.
pub open spec fn same_but_text(a: FilteredToken, b: FilteredToken) -> bool {
    &&& a.byte_start == b.byte_start
    &&& a.byte_end == b.byte_end
    &&& a.position == b.position
    &&& a.position_length == b.position_length
    &&& a.word_id == b.word_id
    &&& a.details@.map_values(|s: String| s@) == b.details@.map_values(|s: String| s@)
}

} // verus!
