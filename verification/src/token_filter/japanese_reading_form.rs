//! A token filter that replaces each token's text with its reading.
//!
//! The reading is taken from the part-of-speech details, whose layout
//! depends on the dictionary the tokens came from.

use vstd::prelude::*;
use vstd::string::StringExecFns;

use crate::error::{LinderaError, LinderaErrorKind};
use crate::token_filter::{same_but_text, FilteredToken};
use crate::LinderaResult;

verus! {

/// The dictionary scheme the details follow.
#[derive(Clone, Copy, Debug, PartialEq, Eq, Structural)]
pub enum DictionaryKind {
    IPADIC,
    IPADICNEologd,
    UniDic,
    KoDic,
    CcCedict,
}

/// The index of the reading field in a detail row of this scheme, if the
/// scheme has one.
pub open spec fn reading_index(kind: DictionaryKind) -> Option<int> {
    match kind {
        DictionaryKind::IPADIC => Some(7int),
        DictionaryKind::UniDic => Some(6int),
        _ => None,
    }
}

/// The configuration of the reading-form filter: the dictionary scheme.
#[derive(Clone, Copy, Debug, PartialEq, Eq, Structural)]
pub struct JapaneseReadingFormTokenFilterConfig {
    pub kind: DictionaryKind,
}

impl JapaneseReadingFormTokenFilterConfig {
    /// Builds a configuration for the given scheme.
    pub fn new(kind: DictionaryKind) -> (r: Self)
        ensures
            r.kind == kind,
    {
        Self { kind }
    }

    /// Reads a configuration from a JSON document whose `kind` member names
    /// a dictionary scheme.
    pub fn from_slice(data: &[u8]) -> (r: LinderaResult<Self>)
        ensures
            r matches Err(e) ==> e.kind == LinderaErrorKind::Deserialize,
    {
        let v = vstd::slice::slice_to_vec(data);
        let parsed = match crate::json::parse_json(&v) {
            Ok(p) => p,
            Err(e) => {
                return Err(e);
            },
        };
        match parsed {
            crate::json::JsonValue::Obj(members) => {
                let kind_name = match crate::json::obj_get_string(&members, "kind") {
                    Some(k) => k,
                    None => {
                        return Err(crate::json::deserialize_error());
                    },
                };
                let kind = if kind_name == String::from_str("ipadic") {
                    DictionaryKind::IPADIC
                } else if kind_name == String::from_str("ipadic-neologd") {
                    DictionaryKind::IPADICNEologd
                } else if kind_name == String::from_str("unidic") {
                    DictionaryKind::UniDic
                } else if kind_name == String::from_str("ko-dic") {
                    DictionaryKind::KoDic
                } else if kind_name == String::from_str("cc-cedict") {
                    DictionaryKind::CcCedict
                } else {
                    return Err(crate::json::deserialize_error());
                };
                Ok(Self { kind })
            },
            _ => Err(crate::json::deserialize_error()),
        }
    }
}

/// Replace the text of a token with the reading of the text as registered
/// in the morphological dictionary.  The reading is in katakana.
#[derive(Clone, Copy, Debug)]
pub struct JapaneseReadingFormTokenFilter {
    config: JapaneseReadingFormTokenFilterConfig,
}

/// Whether a token's details are the unknown-word sentinel row.
pub open spec fn is_unk_row(details: Seq<Seq<char>>) -> bool {
    details.len() > 0 && details[0] == "UNK"@
}

impl JapaneseReadingFormTokenFilter {
    /// The scheme this filter reads under.
    pub closed spec fn kind_view(&self) -> DictionaryKind {
        self.config.kind
    }

    /// Builds the filter from its configuration.
    pub fn new(config: JapaneseReadingFormTokenFilterConfig) -> (r: Self)
        ensures
            r.kind_view() == config.kind,
    {
        Self { config }
    }

    /// Reads the configuration from a JSON document.
    pub fn from_slice(data: &[u8]) -> (r: LinderaResult<Self>)
        ensures
            r matches Err(e) ==> e.kind == LinderaErrorKind::Deserialize,
    {
        let config = match JapaneseReadingFormTokenFilterConfig::from_slice(data) {
            Ok(c) => c,
            Err(e) => {
                return Err(e);
            },
        };
        Ok(Self::new(config))
    }

    /// Rewrites each token's text to the reading field of its details.  A
    /// token whose details are the unknown-word sentinel is left exactly as
    /// it stands, as is one whose detail row is too short for the scheme or
    /// whose scheme names no reading field.  No other field changes.
    pub fn apply(&self, tokens: &mut Vec<FilteredToken>) -> (r: LinderaResult<()>)
        ensures
            r is Ok,
            final(tokens)@.len() == old(tokens)@.len(),
            forall|i: int|
                0 <= i < old(tokens)@.len() ==> {
                    let old_tok = old(tokens)@[i];
                    let new_tok = #[trigger] final(tokens)@[i];
                    &&& same_but_text(old_tok, new_tok)
                    &&& if is_unk_row(old_tok.details@.map_values(|s: String| s@)) {
                        new_tok.text@ == old_tok.text@
                    } else {
                        match reading_index(self.kind_view()) {
                            Some(ix) => {
                                if ix < old_tok.details@.len() {
                                    new_tok.text@ == old_tok.details@[ix]@
                                } else {
                                    new_tok.text@ == old_tok.text@
                                }
                            },
                            None => new_tok.text@ == old_tok.text@,
                        }
                    }
                },
    {
        let unk = String::from_str("UNK");
        proof {
            reveal_strlit("UNK");
        }
        let n = tokens.len();
        let mut i: usize = 0;
        while i < n
            invariant
                i <= n,
                n == tokens@.len(),
                old(tokens)@.len() == n,
                unk@ == "UNK"@,
                forall|j: int| i <= j < n ==> #[trigger] tokens@[j] == old(tokens)@[j],
                forall|j: int|
                    0 <= j < i ==> {
                        let old_tok = old(tokens)@[j];
                        let new_tok = #[trigger] tokens@[j];
                        &&& same_but_text(old_tok, new_tok)
                        &&& if is_unk_row(old_tok.details@.map_values(|s: String| s@)) {
                            new_tok.text@ == old_tok.text@
                        } else {
                            match self.config.kind {
                                DictionaryKind::IPADIC => {
                                    if 7 < old_tok.details@.len() {
                                        new_tok.text@ == old_tok.details@[7]@
                                    } else {
                                        new_tok.text@ == old_tok.text@
                                    }
                                },
                                DictionaryKind::UniDic => {
                                    if 6 < old_tok.details@.len() {
                                        new_tok.text@ == old_tok.details@[6]@
                                    } else {
                                        new_tok.text@ == old_tok.text@
                                    }
                                },
                                _ => new_tok.text@ == old_tok.text@,
                            }
                        }
                    },
            decreases n - i,
        {
            let is_unk = tokens[i].details.len() > 0 && tokens[i].details[0] == unk;
            proof {
                let dv = tokens@[i as int].details@.map_values(|s: String| s@);
                assert(dv.len() == tokens@[i as int].details@.len());
                if tokens@[i as int].details@.len() > 0 {
                    assert(dv[0] == tokens@[i as int].details@[0]@);
                }
            }
            if !is_unk {
                let ix_opt: Option<usize> = match self.config.kind {
                    DictionaryKind::IPADIC => Some(7),
                    DictionaryKind::UniDic => Some(6),
                    _ => None,
                };
                if let Some(ix) = ix_opt {
                    if ix < tokens[i].details.len() {
                        let new_text = tokens[i].details[ix].clone();
                        let old_tok = &tokens[i];
                        let replacement = FilteredToken {
                            text: new_text,
                            byte_start: old_tok.byte_start,
                            byte_end: old_tok.byte_end,
                            position: old_tok.position,
                            position_length: old_tok.position_length,
                            word_id: old_tok.word_id,
                            details: crate::text::clone_strings(&old_tok.details),
                        };
                        tokens.set(i, replacement);
                    }
                }
            }
            i = i + 1;
        }
        Ok(())
    }
}

} // verus!
