//! A morphological analyzer for CJK text.
//!
//! The library segments unsegmented input into words by building a lattice of
//! dictionary and unknown-word candidates over the byte positions of the text
//! and searching it for the minimum-cost path.  Character filters may mutate
//! the text before tokenization; each one emits an offset-correction table so
//! that token byte positions can be mapped back to the original input.  Token
//! filters rewrite the emitted tokens afterwards.

pub mod blob;
pub mod character_definition;
pub mod character_filter;
pub mod connection;
pub mod dictionary;
pub mod error;
pub mod formatter;
pub mod json;
pub mod ko_dic;
pub mod prefix_dict;
pub mod text;
pub mod token;
pub mod token_filter;
pub mod tokenizer;
pub mod unknown_dictionary;
pub mod viterbi;
pub mod word_entry;

use vstd::prelude::*;

verus! {

/// The result type used throughout the library.
pub type LinderaResult<T> = Result<T, error::LinderaError>;

} // verus!
