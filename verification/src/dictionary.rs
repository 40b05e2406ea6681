//! The loaded dictionary: every table the tokenizer queries.

use vstd::prelude::*;

use vstd::utf8::{decode_utf8, valid_utf8};

use crate::blob::{le32_at, read_u32_le};
use crate::character_definition::CharacterDefinitions;
use crate::connection::ConnectionCostMatrix;
use crate::prefix_dict::PrefixDict;
use crate::text::string_from_utf8;
use crate::unknown_dictionary::UnknownDictionary;
use crate::word_entry::WordEntry;

verus! {

/// Whether every entry of a flat array may stand next to the connection-cost
/// matrix: its right context id indexes a row and its left context id a
/// column.
pub open spec fn entries_fit_matrix(entries: Seq<WordEntry>, matrix: ConnectionCostMatrix) -> bool {
    forall|i: int|
        0 <= i < entries.len() ==> {
            &&& (#[trigger] entries[i]).right_id < matrix.forward_size
            &&& entries[i].left_id < matrix.backward_size
        }
}

/// The decode of `count` fields at `pos`, each a little-endian 32-bit byte
/// length followed by UTF-8 text; `None` on a truncated or malformed record.
pub open spec fn decode_fields(data: Seq<u8>, pos: int, count: int) -> Option<Seq<Seq<char>>>
    decreases count,
{
    if count <= 0 {
        Some(Seq::empty())
    } else if pos + 4 > data.len() {
        None
    } else {
        let flen = le32_at(data, pos);
        if pos + 4 + flen > data.len() {
            None
        } else {
            let bytes = data.subrange(pos + 4, pos + 4 + flen);
            if !valid_utf8(bytes) {
                None
            } else {
                match decode_fields(data, pos + 4 + flen, count - 1) {
                    Some(rest) => Some(seq![decode_utf8(bytes)] + rest),
                    None => None,
                }
            }
        }
    }
}

/// The detail record of a word, decoded from the two blobs: the index blob
/// holds one little-endian 32-bit offset per word, and the word blob holds,
/// at that offset, a 32-bit field count and the fields.
pub open spec fn details_spec(idx: Seq<u8>, data: Seq<u8>, word_id: int) -> Option<Seq<Seq<char>>> {
    if !(0 <= word_id && 4 * word_id + 4 <= idx.len()) {
        None
    } else {
        let offset = le32_at(idx, 4 * word_id);
        if offset + 4 > data.len() {
            None
        } else {
            decode_fields(data, offset + 4, le32_at(data, offset))
        }
    }
}

/// The system dictionary with its companions, loaded once and immutable.
pub struct Dictionary {
    pub dict: PrefixDict,
    pub entries: Vec<WordEntry>,
    pub cost_matrix: ConnectionCostMatrix,
    pub char_definitions: CharacterDefinitions,
    pub unknown_dictionary: UnknownDictionary,
    pub words_idx_data: Vec<u8>,
    pub words_data: Vec<u8>,
}

/// A user dictionary overlaid on the system one.  Its entries share the
/// system matrix's context-id space.
pub struct UserDictionary {
    pub dict: PrefixDict,
    pub entries: Vec<WordEntry>,
    pub words_idx_data: Vec<u8>,
    pub words_data: Vec<u8>,
}

impl Dictionary {
    /// Everything agrees: the prefix keys point into the entry array, every
    /// entry of every source indexes within the matrix, the default context
    /// exists, every category the character definitions can report has a
    /// non-empty reference list, and those references point into the unknown
    /// cost array.
    pub open spec fn wf(&self) -> bool {
        &&& self.dict.wf(self.entries@.len() as int)
        &&& self.cost_matrix.wf()
        &&& self.cost_matrix.forward_size >= 1
        &&& self.cost_matrix.backward_size >= 1
        &&& self.char_definitions.wf()
        &&& self.unknown_dictionary.wf()
        &&& entries_fit_matrix(self.entries@, self.cost_matrix)
        &&& entries_fit_matrix(self.unknown_dictionary.costs@, self.cost_matrix)
        &&& self.char_definitions.category_definitions@.len()
            <= self.unknown_dictionary.category_references@.len()
    }

    /// The part-of-speech details of a system word: exactly the record that
    /// `details_spec` decodes from the word blobs.  A word id outside the
    /// index, a truncated record or malformed text yields no details.
    pub fn word_details(&self, word_id: usize) -> (r: Option<Vec<String>>)
        ensures
            match r {
                Some(d) => details_spec(self.words_idx_data@, self.words_data@, word_id as int)
                    == Some(d@.map_values(|s: String| s@)),
                None => details_spec(
                    self.words_idx_data@,
                    self.words_data@,
                    word_id as int,
                ) is None,
            },
    {
        read_details(&self.words_idx_data, &self.words_data, word_id)
    }
}

impl UserDictionary {
    /// See `Dictionary::wf`; a user dictionary is checked against the system
    /// matrix.
    pub open spec fn wf(&self, matrix: ConnectionCostMatrix) -> bool {
        &&& self.dict.wf(self.entries@.len() as int)
        &&& entries_fit_matrix(self.entries@, matrix)
    }

    /// The details of a user word; see `Dictionary::word_details`.
    pub fn word_details(&self, word_id: usize) -> (r: Option<Vec<String>>)
        ensures
            match r {
                Some(d) => details_spec(self.words_idx_data@, self.words_data@, word_id as int)
                    == Some(d@.map_values(|s: String| s@)),
                None => details_spec(
                    self.words_idx_data@,
                    self.words_data@,
                    word_id as int,
                ) is None,
            },
    {
        read_details(&self.words_idx_data, &self.words_data, word_id)
    }
}

/// Connection-cost lookup never indexes out of range for any word entry the
/// loaded dictionaries produce: whichever source an entry comes from —
/// system, unknown, or a user dictionary sharing the system matrix — its
/// right context id lies below the matrix's row count and its left context
/// id below its column count, which is exactly what the cost lookup asks of
/// its callers.
pub proof fn lemma_connection_lookup_in_range(dict: Dictionary, user: Option<UserDictionary>)
    requires
        dict.wf(),
        match user {
            Some(u) => u.wf(dict.cost_matrix),
            None => true,
        },
    ensures
        entries_fit_matrix(dict.entries@, dict.cost_matrix),
        entries_fit_matrix(dict.unknown_dictionary.costs@, dict.cost_matrix),
        match user {
            Some(u) => entries_fit_matrix(u.entries@, dict.cost_matrix),
            None => true,
        },
{
}

/// Checks `entries_fit_matrix`, which a loaded dictionary must satisfy.
pub fn check_entries_fit(entries: &Vec<WordEntry>, matrix: &ConnectionCostMatrix) -> (r: bool)
    ensures
        r == entries_fit_matrix(entries@, *matrix),
{
    let n = entries.len();
    let mut i: usize = 0;
    while i < n
        invariant
            i <= n,
            n == entries@.len(),
            forall|j: int|
                0 <= j < i ==> (#[trigger] entries@[j]).right_id < matrix.forward_size
                    && entries@[j].left_id < matrix.backward_size,
        decreases n - i,
    {
        let e = entries[i];
        if e.right_id >= matrix.forward_size || e.left_id >= matrix.backward_size {
            return false;
        }
        i = i + 1;
    }
    true
}

/// Checks that every prefix key is non-empty and every word id points into
/// an entry array of the given length.
fn check_prefix_dict(dict: &PrefixDict, entries_len: usize) -> (r: bool)
    ensures
        r == dict.wf(entries_len as int),
{
    let n = dict.keys.len();
    let mut i: usize = 0;
    while i < n
        invariant
            i <= n,
            n == dict.keys@.len(),
            forall|a: int|
                0 <= a < i ==> (#[trigger] dict.keys@[a]).0@.len() >= 1 && forall|b: int|
                    0 <= b < dict.keys@[a].1@.len() ==> (#[trigger] dict.keys@[a].1@[b])
                        < entries_len,
        decreases n - i,
    {
        let (key, ids) = &dict.keys[i];
        if key.len() == 0 {
            return false;
        }
        let m = ids.len();
        let mut b: usize = 0;
        while b < m
            invariant
                b <= m,
                i < dict.keys@.len(),
                m == dict.keys@[i as int].1@.len(),
                ids@ == dict.keys@[i as int].1@,
                forall|c: int|
                    0 <= c < b ==> (#[trigger] dict.keys@[i as int].1@[c]) < entries_len,
            decreases m - b,
        {
            if ids[b] as usize >= entries_len {
                return false;
            }
            b = b + 1;
        }
        i = i + 1;
    }
    true
}

/// Checks that every category named by the code point mapping exists.
fn check_char_definitions(defs: &CharacterDefinitions) -> (r: bool)
    ensures
        r == defs.wf(),
{
    let ncat = defs.category_definitions.len();
    if ncat == 0 {
        return false;
    }
    let n = defs.mapping.len();
    let mut i: usize = 0;
    while i < n
        invariant
            i <= n,
            n == defs.mapping@.len(),
            ncat == defs.category_definitions@.len(),
            ncat >= 1,
            forall|a: int, b: int|
                0 <= a < i && 0 <= b < (#[trigger] defs.mapping@[a]).2@.len() ==> (
                #[trigger] defs.mapping@[a].2@[b]) < ncat,
        decreases n - i,
    {
        let (_lo, _hi, cats) = &defs.mapping[i];
        let m = cats.len();
        let mut b: usize = 0;
        while b < m
            invariant
                b <= m,
                i < defs.mapping@.len(),
                ncat == defs.category_definitions@.len(),
                m == defs.mapping@[i as int].2@.len(),
                cats@ == defs.mapping@[i as int].2@,
                forall|c: int| 0 <= c < b ==> (#[trigger] defs.mapping@[i as int].2@[c]) < ncat,
            decreases m - b,
        {
            if cats[b] as usize >= ncat {
                return false;
            }
            b = b + 1;
        }
        i = i + 1;
    }
    true
}

/// Checks that every category's unknown-word reference list is non-empty and
/// in range.
fn check_unknown(unk: &UnknownDictionary) -> (r: bool)
    ensures
        r == unk.wf(),
{
    let n = unk.category_references.len();
    let costs_len = unk.costs.len();
    let mut i: usize = 0;
    while i < n
        invariant
            i <= n,
            n == unk.category_references@.len(),
            costs_len == unk.costs@.len(),
            forall|a: int|
                0 <= a < i ==> (#[trigger] unk.category_references@[a])@.len() >= 1 && forall|
                    b: int,
                |
                    0 <= b < unk.category_references@[a]@.len() ==> (
                    #[trigger] unk.category_references@[a]@[b]) < costs_len,
        decreases n - i,
    {
        let refs = &unk.category_references[i];
        let m = refs.len();
        if m == 0 {
            return false;
        }
        let mut b: usize = 0;
        while b < m
            invariant
                b <= m,
                i < unk.category_references@.len(),
                costs_len == unk.costs@.len(),
                m == unk.category_references@[i as int]@.len(),
                refs@ == unk.category_references@[i as int]@,
                forall|c: int|
                    0 <= c < b ==> (#[trigger] unk.category_references@[i as int]@[c])
                        < costs_len,
            decreases m - b,
        {
            if refs[b] as usize >= costs_len {
                return false;
            }
            b = b + 1;
        }
        i = i + 1;
    }
    true
}

impl Dictionary {
    /// Checks the whole well-formedness condition at load time, so that a
    /// corrupt dictionary is rejected atomically before any tokenization.
    pub fn validate(&self) -> (r: bool)
        ensures
            r == self.wf(),
    {
        proof {
            assert(self.cost_matrix.forward_size as int * self.cost_matrix.backward_size as int
                <= 0xffff * 0xffff) by (nonlinear_arith)
                requires
                    self.cost_matrix.forward_size <= 0xffff,
                    self.cost_matrix.backward_size <= 0xffff,
            ;
        }
        let cells: u64 = (self.cost_matrix.forward_size as u64) * (
        self.cost_matrix.backward_size as u64);
        if self.cost_matrix.costs.len() as u64 != cells || self.cost_matrix.forward_size == 0
            || self.cost_matrix.backward_size == 0 {
            return false;
        }
        if !check_prefix_dict(&self.dict, self.entries.len()) {
            return false;
        }
        if !check_char_definitions(&self.char_definitions) {
            return false;
        }
        if !check_unknown(&self.unknown_dictionary) {
            return false;
        }
        if !check_entries_fit(&self.entries, &self.cost_matrix) {
            return false;
        }
        if !check_entries_fit(&self.unknown_dictionary.costs, &self.cost_matrix) {
            return false;
        }
        if self.char_definitions.category_definitions.len()
            > self.unknown_dictionary.category_references.len() {
            return false;
        }
        proof {
            assert(self.cost_matrix.costs@.len() == self.cost_matrix.forward_size as int
                * self.cost_matrix.backward_size as int);
        }
        true
    }
}

impl UserDictionary {
    /// Checks the user dictionary against the system matrix.
    pub fn validate(&self, matrix: &ConnectionCostMatrix) -> (r: bool)
        ensures
            r == self.wf(*matrix),
    {
        if !check_prefix_dict(&self.dict, self.entries.len()) {
            return false;
        }
        check_entries_fit(&self.entries, matrix)
    }
}

/// Reads one word's detail strings from the two blobs; `None` on any
/// malformed or out-of-range record.
fn read_details(idx: &Vec<u8>, data: &Vec<u8>, word_id: usize) -> (r: Option<Vec<String>>)
    ensures
        match r {
            Some(d) => details_spec(idx@, data@, word_id as int) == Some(
                d@.map_values(|s: String| s@),
            ),
            None => details_spec(idx@, data@, word_id as int) is None,
        },
{
    let ilen = idx.len();
    let dlen = data.len();
    if ilen < 4 {
        return None;
    }
    if word_id > (ilen - 4) / 4 {
        return None;
    }
    let offset = read_u32_le(idx, 4 * word_id) as usize;
    if offset > dlen {
        return None;
    }
    if dlen - offset < 4 {
        return None;
    }
    let count = read_u32_le(data, offset) as usize;
    let mut pos: usize = offset + 4;
    let mut details: Vec<String> = Vec::new();
    let mut i: usize = 0;
    proof {
        assert(details_spec(idx@, data@, word_id as int) == decode_fields(
            data@,
            offset + 4,
            count as int,
        ));
        assert(details@.map_values(|s: String| s@) =~= Seq::<Seq<char>>::empty());
    }
    while i < count
        invariant
            i <= count,
            pos <= data@.len() <= usize::MAX,
            dlen == data@.len(),
            details_spec(idx@, data@, word_id as int) == decode_fields(
                data@,
                offset + 4,
                count as int,
            ),
            decode_fields(data@, offset + 4, count as int) == match decode_fields(
                data@,
                pos as int,
                count - i,
            ) {
                Some(rest) => Some(details@.map_values(|s: String| s@) + rest),
                None => None,
            },
        decreases count - i,
    {
        let ghost pos0: int = pos as int;
        if dlen - pos < 4 {
            proof {
                assert(decode_fields(data@, pos0, count - i) is None);
            }
            return None;
        }
        let flen = read_u32_le(data, pos) as usize;
        pos = pos + 4;
        if flen > dlen - pos {
            proof {
                assert(le32_at(data@, pos0) == flen);
                assert(decode_fields(data@, pos0, count - i) is None);
            }
            return None;
        }
        let ghost field_start: int = pos as int;
        let mut field: Vec<u8> = Vec::new();
        let mut t: usize = 0;
        while t < flen
            invariant
                t <= flen,
                pos + flen <= data@.len() <= usize::MAX,
                field@ == data@.subrange(field_start, field_start + t),
                field_start == pos,
            decreases flen - t,
        {
            field.push(data[pos + t]);
            proof {
                assert(field@ =~= data@.subrange(field_start, field_start + t + 1));
            }
            t = t + 1;
        }
        pos = pos + flen;
        let ghost details_before = details@;
        match string_from_utf8(field) {
            Ok(s) => {
                proof {
                    vstd::utf8::encode_utf8_decode_utf8(s@);
                }
                details.push(s);
                proof {
                    let bytes = data@.subrange(field_start, field_start + flen);
                    assert(s@ == decode_utf8(bytes));
                    assert forall|rest: Seq<Seq<char>>| true implies details_before.map_values(
                        |x: String| x@,
                    ) + (seq![decode_utf8(bytes)] + rest) =~= details@.map_values(
                        |x: String| x@,
                    ) + rest by {
                        assert(details@.map_values(|x: String| x@) =~= details_before.map_values(
                            |x: String| x@,
                        ).push(s@));
                    }
                }
            },
            Err(_) => {
                return None;
            },
        }
        i = i + 1;
    }
    proof {
        assert(decode_fields(data@, offset + 4, count as int) == Some(
            details@.map_values(|s: String| s@),
        )) by {
            assert(details@.map_values(|s: String| s@) + Seq::<Seq<char>>::empty()
                =~= details@.map_values(|s: String| s@));
        }
    }
    Some(details)
}

} // verus!
