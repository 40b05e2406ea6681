//! A token filter that converts between hiragana and katakana.

use vstd::prelude::*;

use vstd::string::StringExecFns;

use crate::error::{LinderaError, LinderaErrorKind};
use crate::text::clone_strings;
use crate::token_filter::{same_but_text, FilteredToken};
use crate::LinderaResult;

verus! {

/// The direction of the conversion.
#[derive(Clone, Copy, Debug, PartialEq, Eq, Structural)]
pub enum KanaKind {
    /// Katakana to hiragana.
    Hiragana,
    /// Hiragana to katakana.
    Katakana,
}

/// Whether the fullwidth katakana character has a hiragana counterpart.
pub open spec fn katakana_convertible(c: char) -> bool {
    ||| 0x30A1 <= c as u32 <= 0x30F6
    ||| 0x30FD <= c as u32 <= 0x30FF
}

/// Whether the hiragana character has a fullwidth katakana counterpart.
pub open spec fn hiragana_convertible(c: char) -> bool {
    ||| 0x3041 <= c as u32 <= 0x3096
    ||| 0x309D <= c as u32 <= 0x309F
}

/// How one character converts to hiragana: a convertible katakana character
/// shifts down by the block offset, any other character stays.
pub open spec fn hiragana_char(c: char, r: char) -> bool {
    if katakana_convertible(c) {
        r as u32 == c as u32 - 0x60
    } else {
        r == c
    }
}

/// How one character converts to katakana.
pub open spec fn katakana_char(c: char, r: char) -> bool {
    if hiragana_convertible(c) {
        r as u32 == c as u32 + 0x60
    } else {
        r == c
    }
}

/// The whole text converted, character for character.
pub open spec fn hiragana_text(s: Seq<char>, r: Seq<char>) -> bool {
    &&& r.len() == s.len()
    &&& forall|i: int| 0 <= i < s.len() ==> hiragana_char(s[i], #[trigger] r[i])
}

/// See `hiragana_text`.
pub open spec fn katakana_text(s: Seq<char>, r: Seq<char>) -> bool {
    &&& r.len() == s.len()
    &&& forall|i: int| 0 <= i < s.len() ==> katakana_char(s[i], #[trigger] r[i])
}

/// Relies on kanaria's `UCSStr::hiragana`: every character of the fullwidth
/// katakana block is shifted down to its hiragana counterpart and every
/// other character is kept as it stands, one for one.
#[verifier::external_body]
fn to_hiragana(s: &str) -> (r: String)
    ensures
        hiragana_text(s@, r@),
{
    kanaria::string::UCSStr::from_str(s).hiragana().to_string()
}

/// Relies on kanaria's `UCSStr::katakana`: every hiragana character is
/// shifted up to its fullwidth katakana counterpart and every other
/// character is kept as it stands, one for one.
#[verifier::external_body]
fn to_katakana(s: &str) -> (r: String)
    ensures
        katakana_text(s@, r@),
{
    kanaria::string::UCSStr::from_str(s).katakana().to_string()
}

/// The configuration of the kana filter: the direction to convert in.
#[derive(Clone, Copy, Debug, PartialEq, Eq, Structural)]
pub struct JapaneseKanaTokenFilterConfig {
    pub kind: KanaKind,
}

impl JapaneseKanaTokenFilterConfig {
    /// Builds a configuration for the given direction.
    pub fn new(kind: KanaKind) -> (r: Self)
        ensures
            r.kind == kind,
    {
        Self { kind }
    }

    /// Reads a configuration from a JSON document whose `kind` member is
    /// `hiragana` or `katakana`.
    pub fn from_slice(data: &[u8]) -> (r: LinderaResult<Self>)
        ensures
            r matches Err(e) ==> e.kind == LinderaErrorKind::Deserialize,
    {
        let v = vstd::slice::slice_to_vec(data);
        let parsed = match crate::json::parse_json(&v) {
            Ok(p) => p,
            Err(e) => {
                return Err(e);
            },
        };
        match parsed {
            crate::json::JsonValue::Obj(members) => {
                let kind_name = match crate::json::obj_get_string(&members, "kind") {
                    Some(k) => k,
                    None => {
                        return Err(crate::json::deserialize_error());
                    },
                };
                let kind = if kind_name == String::from_str("hiragana") {
                    KanaKind::Hiragana
                } else if kind_name == String::from_str("katakana") {
                    KanaKind::Katakana
                } else {
                    return Err(crate::json::deserialize_error());
                };
                Ok(Self { kind })
            },
            _ => Err(crate::json::deserialize_error()),
        }
    }
}

/// Converts only katakana to hiragana, or only hiragana to katakana.
#[derive(Clone, Copy, Debug)]
pub struct JapaneseKanaTokenFilter {
    config: JapaneseKanaTokenFilterConfig,
}

impl JapaneseKanaTokenFilter {
    /// The direction this filter converts in.
    pub closed spec fn kind_view(&self) -> KanaKind {
        self.config.kind
    }

    /// Builds the filter from its configuration.
    pub fn new(config: JapaneseKanaTokenFilterConfig) -> (r: Self)
        ensures
            r.kind_view() == config.kind,
    {
        Self { config }
    }

    /// Reads the configuration from a JSON document.
    pub fn from_slice(data: &[u8]) -> (r: LinderaResult<Self>)
        ensures
            r matches Err(e) ==> e.kind == LinderaErrorKind::Deserialize,
    {
        let config = match JapaneseKanaTokenFilterConfig::from_slice(data) {
            Ok(c) => c,
            Err(e) => {
                return Err(e);
            },
        };
        Ok(Self::new(config))
    }

    /// Rewrites every token's text in the configured direction; everything
    /// else, the details included, stands as it was.  Characters outside
    /// the converted kana block, kanji among them, are never touched.
    pub fn apply(&self, tokens: &mut Vec<FilteredToken>) -> (r: LinderaResult<()>)
        ensures
            r is Ok,
            final(tokens)@.len() == old(tokens)@.len(),
            forall|i: int|
                0 <= i < old(tokens)@.len() ==> {
                    &&& same_but_text(old(tokens)@[i], #[trigger] final(tokens)@[i])
                    &&& match self.kind_view() {
                        KanaKind::Hiragana => hiragana_text(
                            old(tokens)@[i].text@,
                            final(tokens)@[i].text@,
                        ),
                        KanaKind::Katakana => katakana_text(
                            old(tokens)@[i].text@,
                            final(tokens)@[i].text@,
                        ),
                    }
                },
    {
        let n = tokens.len();
        let mut i: usize = 0;
        while i < n
            invariant
                i <= n,
                n == tokens@.len(),
                old(tokens)@.len() == n,
                forall|j: int| i <= j < n ==> #[trigger] tokens@[j] == old(tokens)@[j],
                forall|j: int|
                    0 <= j < i ==> {
                        &&& same_but_text(old(tokens)@[j], #[trigger] tokens@[j])
                        &&& match self.config.kind {
                            KanaKind::Hiragana => hiragana_text(
                                old(tokens)@[j].text@,
                                tokens@[j].text@,
                            ),
                            KanaKind::Katakana => katakana_text(
                                old(tokens)@[j].text@,
                                tokens@[j].text@,
                            ),
                        }
                    },
            decreases n - i,
        {
            let converted = match self.config.kind {
                KanaKind::Hiragana => to_hiragana(tokens[i].text.as_str()),
                KanaKind::Katakana => to_katakana(tokens[i].text.as_str()),
            };
            let old_tok = &tokens[i];
            let replacement = FilteredToken {
                text: converted,
                byte_start: old_tok.byte_start,
                byte_end: old_tok.byte_end,
                position: old_tok.position,
                position_length: old_tok.position_length,
                word_id: old_tok.word_id,
                details: clone_strings(&old_tok.details),
            };
            tokens.set(i, replacement);
            i = i + 1;
        }
        Ok(())
    }
}

} // verus!
