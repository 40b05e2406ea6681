//! Word identifiers and cost records.

use vstd::prelude::*;
use vstd::string::StringExecFns;

use crate::blob::{le16_at, le32_at, read_i16_le, read_u16_le, read_u32_le, sig16_at};
use crate::error::{LinderaError, LinderaErrorKind};
use crate::LinderaResult;

verus! {

/// The reserved index meaning "not dictionary-backed": a synthesized unknown
/// word.
pub const UNKNOWN_WORD_INDEX: u32 = 0xffff_ffff;

/// The key of a word: its index in the owning flat array, and whether that
/// array belongs to the system dictionary or to the user dictionary.  The
/// all-ones index is the unknown-word sentinel.
#[derive(Clone, Copy, Debug, PartialEq, Eq, Structural)]
pub struct WordId(pub u32, pub bool);

impl WordId {
    /// Whether this is the synthesized unknown-word sentinel.
    pub fn is_unknown(&self) -> (r: bool)
        ensures
            r == (self.0 == UNKNOWN_WORD_INDEX),
    {
        self.0 == UNKNOWN_WORD_INDEX
    }

    /// Whether this word belongs to the system dictionary.
    pub fn is_system(&self) -> (r: bool)
        ensures
            r == self.1,
    {
        self.1
    }
}

/// The fixed-shape cost record of one word: its own cost and the two context
/// identifiers that the connection-cost matrix is indexed with.
#[derive(Clone, Copy, Debug, PartialEq, Eq, Structural)]
pub struct WordEntry {
    pub word_cost: i16,
    pub left_id: u16,
    pub right_id: u16,
}

/// The cost record encoded at `pos`: a signed 16-bit word cost and two
/// 16-bit context ids, little-endian.
pub open spec fn entry_at(data: Seq<u8>, pos: int) -> WordEntry {
    WordEntry {
        word_cost: sig16_at(data, pos) as i16,
        left_id: le16_at(data, pos + 2) as u16,
        right_id: le16_at(data, pos + 4) as u16,
    }
}

/// The decode of a flat word-entry blob: a little-endian 32-bit record
/// count, then exactly that many records; a blob of any other size decodes
/// to nothing.
pub open spec fn word_entries_spec(data: Seq<u8>) -> Option<Seq<WordEntry>> {
    if data.len() < 4 {
        None
    } else {
        let count = le32_at(data, 0);
        if data.len() == 4 + 6 * count {
            Some(Seq::new(count as nat, |i: int| entry_at(data, 4 + 6 * i)))
        } else {
            None
        }
    }
}

/// Loads a flat word-entry array from its binary blob, exactly as
/// `word_entries_spec` decodes it.  A blob of the wrong size is rejected
/// whole.
pub fn load_word_entries(data: &Vec<u8>) -> (r: LinderaResult<Vec<WordEntry>>)
    ensures
        match r {
            Ok(es) => word_entries_spec(data@) == Some(es@),
            Err(e) => word_entries_spec(data@) is None && e.kind
                == LinderaErrorKind::Deserialize,
        },
{
    let dlen = data.len();
    if dlen < 4 {
        return Err(
            LinderaErrorKind::Deserialize.with_error(
                String::from_str("malformed word entry blob"),
            ),
        );
    }
    let count = read_u32_le(data, 0) as usize;
    if count != (dlen - 4) / 6 || (dlen - 4) % 6 != 0 {
        return Err(
            LinderaErrorKind::Deserialize.with_error(
                String::from_str("malformed word entry blob"),
            ),
        );
    }
    let mut entries: Vec<WordEntry> = Vec::new();
    let mut i: usize = 0;
    proof {
        assert(data@.len() as int - 4 == 6 * count);
    }
    while i < count
        invariant
            i <= count,
            entries@.len() == i,
            count == le32_at(data@, 0),
            data@.len() == 4 + 6 * count,
            data@.len() <= usize::MAX,
            forall|j: int| 0 <= j < i ==> #[trigger] entries@[j] == entry_at(data@, 4 + 6 * j),
        decreases count - i,
    {
        let word_cost = read_i16_le(data, 4 + 6 * i);
        let left_id = read_u16_le(data, 4 + 6 * i + 2);
        let right_id = read_u16_le(data, 4 + 6 * i + 4);
        entries.push(WordEntry { word_cost, left_id, right_id });
        i = i + 1;
    }
    proof {
        assert(Seq::new(count as nat, |j: int| entry_at(data@, 4 + 6 * j)) =~= entries@);
    }
    Ok(entries)
}

} // verus!
