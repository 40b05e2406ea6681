//! Tokens and their lazily resolved details.

use vstd::prelude::*;
use vstd::string::StringExecFns;

use crate::dictionary::{details_spec, Dictionary, UserDictionary};
use crate::word_entry::WordId;

verus! {

/// One emitted token: its surface text in filtered-text coordinates, the
/// byte span it covers there, its position in the token sequence, and the
/// key of the word behind it.  The part-of-speech details are resolved from
/// the owning dictionary on first access and cached: `details` is `None`
/// until then.
pub struct Token<'a> {
    /// Text content of the token.
    pub text: String,
    /// Starting position of the token in bytes.
    pub byte_start: usize,
    /// Ending position of the token in bytes.
    pub byte_end: usize,
    /// Position, expressed in number of tokens.
    pub position: usize,
    /// The length expressed in terms of number of original tokens.
    pub position_length: usize,
    /// The id of the word and whether it is registered in the system
    /// dictionary.
    pub word_id: WordId,
    /// The dictionary the token was produced from.
    pub dictionary: &'a Dictionary,
    /// The user dictionary overlaid on it, if any.
    pub user_dictionary: Option<&'a UserDictionary>,
    /// The cached details; `None` until resolved.  Use `get_details` to
    /// resolve and read them.
    pub details: Option<Vec<String>>,
}

/// The detail row of a word never resolved from any dictionary: the
/// unknown-word sentinel.
pub open spec fn unk_details() -> Seq<Seq<char>> {
    seq![Seq::<char>::empty().push('U').push('N').push('K')]
}

impl<'a> Token<'a> {
    /// The cached details, if resolution has happened.
    pub closed spec fn details_view(&self) -> Option<Seq<Seq<char>>> {
        match self.details {
            Some(d) => Some(d@.map_values(|s: String| s@)),
            None => None,
        }
    }

    /// Builds a token with unresolved details.
    pub fn new(
        text: String,
        start: usize,
        end: usize,
        position: usize,
        word_id: WordId,
        dictionary: &'a Dictionary,
        user_dictionary: Option<&'a UserDictionary>,
    ) -> (r: Self)
        ensures
            r.text == text,
            r.byte_start == start,
            r.byte_end == end,
            r.position == position,
            r.position_length == 1,
            r.word_id == word_id,
            r.dictionary == dictionary,
            r.user_dictionary == user_dictionary,
            r.details_view() is None,
    {
        Self {
            text,
            details: None,
            byte_start: start,
            byte_end: end,
            position,
            position_length: 1,
            word_id,
            dictionary,
            user_dictionary,
        }
    }

    /// A copy of the cached details.
    fn details(&self) -> (r: Option<Vec<String>>)
        ensures
            match r {
                Some(d) => self.details_view() == Some(d@.map_values(|s: String| s@)),
                None => self.details_view() is None,
            },
    {
        match &self.details {
            Some(details) => {
                let mut v: Vec<String> = Vec::new();
                let n = details.len();
                let mut i: usize = 0;
                while i < n
                    invariant
                        i <= n,
                        n == details@.len(),
                        v@.len() == i,
                        forall|j: int| 0 <= j < i ==> (#[trigger] v@[j])@ == details@[j]@,
                    decreases n - i,
                {
                    v.push(details[i].clone());
                    i = i + 1;
                }
                proof {
                    assert(v@.map_values(|s: String| s@) =~= details@.map_values(
                        |s: String| s@,
                    ));
                }
                Some(v)
            },
            None => None,
        }
    }

    /// The cached details, read-only; `None` while unresolved.
    pub fn peek_details(&self) -> (r: &Option<Vec<String>>)
        ensures
            match r {
                Some(d) => self.details_view() == Some(d@.map_values(|s: String| s@)),
                None => self.details_view() is None,
            },
    {
        &self.details
    }

    /// Resolves and caches the details on first access: a synthesized
    /// unknown word resolves to the sentinel row, a system word to the
    /// record the system dictionary's word blobs decode to at its index, and
    /// a user word to the user dictionary's record.  Resolution that finds
    /// nothing leaves the token unresolved and yields nothing.
    pub fn get_details(&mut self) -> (r: Option<Vec<String>>)
        ensures
            old(self).details_view() is Some ==> {
                &&& final(self).details_view() == old(self).details_view()
                &&& match r {
                    Some(d) => final(self).details_view() == Some(
                        d@.map_values(|s: String| s@),
                    ),
                    None => false,
                }
            },
            old(self).details_view() is None && old(self).word_id.0
                == crate::word_entry::UNKNOWN_WORD_INDEX ==> {
                &&& final(self).details_view() == Some(unk_details())
                &&& match r {
                    Some(d) => d@.map_values(|s: String| s@) == unk_details(),
                    None => false,
                }
            },
            old(self).details_view() is None && old(self).word_id.0
                != crate::word_entry::UNKNOWN_WORD_INDEX ==> {
                let resolved = if old(self).word_id.1 {
                    details_spec(
                        old(self).dictionary.words_idx_data@,
                        old(self).dictionary.words_data@,
                        old(self).word_id.0 as int,
                    )
                } else {
                    match old(self).user_dictionary {
                        Some(u) => details_spec(
                            u.words_idx_data@,
                            u.words_data@,
                            old(self).word_id.0 as int,
                        ),
                        None => None,
                    }
                };
                &&& match r {
                    Some(d) => resolved == Some(d@.map_values(|s: String| s@))
                        && final(self).details_view() == resolved,
                    None => resolved is None && final(self).details_view() is None,
                }
            },
            final(self).text == old(self).text,
            final(self).byte_start == old(self).byte_start,
            final(self).byte_end == old(self).byte_end,
            final(self).position == old(self).position,
            final(self).position_length == old(self).position_length,
            final(self).word_id == old(self).word_id,
    {
        if self.details.is_some() {
            return self.details();
        }
        if self.word_id.is_unknown() {
            let mut unk: Vec<String> = Vec::new();
            unk.push(String::from_str("UNK"));
            proof {
                reveal_strlit("UNK");
                assert(unk@.map_values(|s: String| s@) =~~= unk_details());
            }
            self.details = Some(unk);
            return self.details();
        }
        self.details = if self.word_id.is_system() {
            self.dictionary.word_details(self.word_id.0 as usize)
        } else {
            match self.user_dictionary {
                Some(user_dictionary) => user_dictionary.word_details(self.word_id.0 as usize),
                None => None,
            }
        };
        self.details()
    }

    /// Overwrites the cached details.
    pub fn set_details(&mut self, details: Option<Vec<String>>)
        ensures
            match details {
                Some(d) => final(self).details_view() == Some(d@.map_values(|s: String| s@)),
                None => final(self).details_view() is None,
            },
            final(self).text == old(self).text,
            final(self).byte_start == old(self).byte_start,
            final(self).byte_end == old(self).byte_end,
            final(self).position == old(self).position,
            final(self).position_length == old(self).position_length,
            final(self).word_id == old(self).word_id,
    {
        self.details = details;
    }
}

} // verus!
