//! The bundled Korean dictionary.
//!
//! This build bundles no dictionary data: every blob is empty, so the
//! loaders that parse a blob report a deserialization failure and the plain
//! accessors yield empty tables, exactly as the binary contracts say for
//! empty input.

use vstd::prelude::*;

use crate::character_definition::CharacterDefinitions;
use crate::connection::ConnectionCostMatrix;
use crate::dictionary::Dictionary;
use crate::error::LinderaErrorKind;
use crate::prefix_dict::PrefixDict;
use crate::unknown_dictionary::UnknownDictionary;
use crate::LinderaResult;

verus! {

/// Loads the whole dictionary.  Without bundled data the character
/// definition blob is empty and the load fails atomically.
pub fn load_dictionary() -> (r: LinderaResult<Dictionary>)
    ensures
        r matches Err(e) ==> e.kind == LinderaErrorKind::Deserialize,
        r is Err,
{
    let char_definitions = match char_def() {
        Ok(c) => c,
        Err(e) => {
            return Err(e);
        },
    };
    let unknown_dictionary = match unknown_dict() {
        Ok(u) => u,
        Err(e) => {
            return Err(e);
        },
    };
    Ok(
        Dictionary {
            dict: prefix_dict(),
            entries: Vec::new(),
            cost_matrix: connection(),
            char_definitions,
            unknown_dictionary,
            words_idx_data: words_idx_data(),
            words_data: words_data(),
        },
    )
}

/// Loads the bundled character definitions; an empty blob is rejected.
pub fn char_def() -> (r: LinderaResult<CharacterDefinitions>)
    ensures
        r matches Err(e) ==> e.kind == LinderaErrorKind::Deserialize,
        r is Err,
{
    let data: Vec<u8> = Vec::new();
    CharacterDefinitions::load(&data)
}

/// The bundled connection matrix; empty data yields the empty matrix.
pub fn connection() -> (r: ConnectionCostMatrix)
    ensures
        r.wf(),
        r.forward_size == 0,
        r.backward_size == 0,
{
    ConnectionCostMatrix::empty()
}

/// The bundled prefix dictionary; empty data yields the empty dictionary.
pub fn prefix_dict() -> (r: PrefixDict)
    ensures
        r.keys@.len() == 0,
{
    PrefixDict::empty()
}

/// Loads the bundled unknown dictionary; an empty blob is rejected.
pub fn unknown_dict() -> (r: LinderaResult<UnknownDictionary>)
    ensures
        r matches Err(e) ==> e.kind == LinderaErrorKind::Deserialize,
        r is Err,
{
    let data: Vec<u8> = Vec::new();
    UnknownDictionary::load(&data)
}

/// The bundled word index blob.
pub fn words_idx_data() -> (r: Vec<u8>)
    ensures
        r@.len() == 0,
{
    Vec::new()
}

/// The bundled word detail blob.
pub fn words_data() -> (r: Vec<u8>)
    ensures
        r@.len() == 0,
{
    Vec::new()
}

} // verus!
