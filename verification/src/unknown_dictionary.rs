//! Fallback word entries per character category.

use vstd::prelude::*;
use vstd::string::StringExecFns;

use crate::blob::{le32_at, read_i16_le, read_u16_le, read_u32_le};
use crate::character_definition::CategoryId;
use crate::error::{LinderaError, LinderaErrorKind};
use crate::word_entry::{entry_at, WordEntry};
use crate::LinderaResult;

verus! {

/// The reference lists decoded from `pos` on: `n` lists, each a 32-bit
/// count of at least one followed by that many 32-bit word ids; yields the
/// lists and the position after them.
pub open spec fn decode_references(data: Seq<u8>, pos: int, n: int) -> Option<(Seq<Seq<u32>>, int)>
    decreases n,
{
    if n <= 0 {
        Some((Seq::empty(), pos))
    } else if pos + 4 > data.len() {
        None
    } else {
        let m = le32_at(data, pos);
        if m < 1 || pos + 4 + 4 * m > data.len() {
            None
        } else {
            let ids = Seq::new(m as nat, |j: int| le32_at(data, pos + 4 + 4 * j) as u32);
            match decode_references(data, pos + 4 + 4 * m, n - 1) {
                Some((rest, end)) => Some((seq![ids] + rest, end)),
                None => None,
            }
        }
    }
}

/// Whether every listed word id points into a cost array of `ncost`
/// entries.
pub open spec fn references_in_range(refs: Seq<Seq<u32>>, ncost: int) -> bool {
    forall|x: int, y: int|
        0 <= x < refs.len() && 0 <= y < (#[trigger] refs[x]).len() ==> (#[trigger] refs[x][y])
            < ncost
}

/// The decode of an unknown dictionary blob: a 32-bit category count, the
/// reference lists, a 32-bit cost count and exactly that many cost records,
/// with every reference in range; anything else decodes to nothing.
pub open spec fn unknown_dictionary_spec(data: Seq<u8>) -> Option<(Seq<Seq<u32>>, Seq<WordEntry>)> {
    if data.len() < 4 {
        None
    } else {
        match decode_references(data, 4, le32_at(data, 0)) {
            Some((refs, pos)) => {
                if pos + 4 > data.len() {
                    None
                } else {
                    let ncost = le32_at(data, pos);
                    if data.len() != pos + 4 + 6 * ncost {
                        None
                    } else if !references_in_range(refs, ncost) {
                        None
                    } else {
                        Some((refs, Seq::new(ncost as nat, |i: int| entry_at(data, pos + 4 + 6 * i))))
                    }
                }
            },
            None => None,
        }
    }
}

/// The unknown-word dictionary: for each character category an ordered,
/// non-empty set of word ids into its own flat cost array, in an id space
/// distinct from the system dictionary's.
pub struct UnknownDictionary {
    pub category_references: Vec<Vec<u32>>,
    pub costs: Vec<WordEntry>,
}

/// Whether every listed id points into a cost array of `ncost` entries,
/// computed.
fn refs_in_range(refs: &Vec<Vec<u32>>, ncost: usize) -> (r: bool)
    ensures
        r == references_in_range(refs@.map_values(|v: Vec<u32>| v@), ncost as int),
{
    let n = refs.len();
    let mut a: usize = 0;
    while a < n
        invariant
            a <= n,
            n == refs@.len(),
            forall|x: int, y: int|
                0 <= x < a && 0 <= y < (#[trigger] refs@[x])@.len() ==> (#[trigger] refs@[x]@[y])
                    < ncost,
        decreases n - a,
    {
        let m = refs[a].len();
        let mut b: usize = 0;
        while b < m
            invariant
                b <= m,
                a < refs@.len(),
                m == refs@[a as int]@.len(),
                forall|y: int| 0 <= y < b ==> (#[trigger] refs@[a as int]@[y]) < ncost,
            decreases m - b,
        {
            if refs[a][b] as usize >= ncost {
                proof {
                    let rv = refs@.map_values(|v: Vec<u32>| v@);
                    assert(rv[a as int][b as int] >= ncost);
                    assert(!references_in_range(rv, ncost as int));
                }
                return false;
            }
            b = b + 1;
        }
        a = a + 1;
    }
    proof {
        let rv = refs@.map_values(|v: Vec<u32>| v@);
        assert forall|x: int, y: int|
            0 <= x < rv.len() && 0 <= y < (#[trigger] rv[x]).len() implies (#[trigger] rv[x][y])
            < ncost by {
            assert(rv[x] == refs@[x]@);
        }
    }
    true
}

impl UnknownDictionary {
    /// Every category's reference list is non-empty and points into the cost
    /// array.
    pub open spec fn wf(&self) -> bool {
        forall|i: int|
            0 <= i < self.category_references@.len() ==> {
                &&& (#[trigger] self.category_references@[i])@.len() >= 1
                &&& forall|j: int|
                    0 <= j < self.category_references@[i]@.len() ==> (
                    #[trigger] self.category_references@[i]@[j]) < self.costs@.len()
            }
    }

    /// The cost record of an unknown word.
    pub fn word_entry(&self, word_id: u32) -> (r: WordEntry)
        requires
            word_id < self.costs@.len(),
        ensures
            r == self.costs@[word_id as int],
    {
        self.costs[word_id as usize]
    }

    /// The word ids synthesized for a category.
    pub fn lookup_word_ids(&self, category_id: CategoryId) -> (r: &Vec<u32>)
        requires
            category_id.0 < self.category_references@.len(),
        ensures
            r@ == self.category_references@[category_id.0 as int]@,
    {
        &self.category_references[category_id.0]
    }

    /// Loads the unknown dictionary from its binary blob, exactly as
    /// `unknown_dictionary_spec` decodes it.  A truncated blob, an empty
    /// reference list or an out-of-range word id is rejected whole.
    pub fn load(unknown_data: &Vec<u8>) -> (r: LinderaResult<UnknownDictionary>)
        ensures
            match r {
                Ok(d) => d.wf() && unknown_dictionary_spec(unknown_data@) == Some(
                    (d.category_references@.map_values(|v: Vec<u32>| v@), d.costs@),
                ),
                Err(e) => unknown_dictionary_spec(unknown_data@) is None && e.kind
                    == LinderaErrorKind::Deserialize,
            },
    {
        let dlen = unknown_data.len();
        if dlen < 4 {
            return Err(
                LinderaErrorKind::Deserialize.with_error(
                    String::from_str("malformed unknown dictionary blob"),
                ),
            );
        }
        let ncat = read_u32_le(unknown_data, 0) as usize;
        let mut category_references: Vec<Vec<u32>> = Vec::new();
        let mut pos: usize = 4;
        let mut i: usize = 0;
        let ghost data = unknown_data@;
        proof {
            assert(category_references@.map_values(|v: Vec<u32>| v@)
                =~= Seq::<Seq<u32>>::empty());
        }
        while i < ncat
            invariant
                i <= ncat,
                category_references@.len() == i,
                pos <= unknown_data@.len() <= usize::MAX,
                dlen == unknown_data@.len(),
                data == unknown_data@,
                ncat == le32_at(data, 0),
                dlen >= 4,
                forall|a: int|
                    0 <= a < category_references@.len() ==> (
                    #[trigger] category_references@[a])@.len() >= 1,
                decode_references(data, 4, ncat as int) == match decode_references(
                    data,
                    pos as int,
                    ncat - i,
                ) {
                    Some((rest, end)) => Some(
                        (category_references@.map_values(|v: Vec<u32>| v@) + rest, end),
                    ),
                    None => None,
                },
            decreases ncat - i,
        {
            let ghost pos0: int = pos as int;
            if dlen - pos < 4 {
                proof {
                    assert(decode_references(data, pos0, ncat - i) is None);
                }
                return Err(
                    LinderaErrorKind::Deserialize.with_error(
                        String::from_str("malformed unknown dictionary blob"),
                    ),
                );
            }
            let nids = read_u32_le(unknown_data, pos) as usize;
            pos = pos + 4;
            if nids == 0 || nids > (dlen - pos) / 4 {
                proof {
                    assert(le32_at(data, pos0) == nids);
                    assert(decode_references(data, pos0, ncat - i) is None);
                }
                return Err(
                    LinderaErrorKind::Deserialize.with_error(
                        String::from_str("malformed unknown dictionary blob"),
                    ),
                );
            }
            let mut ids: Vec<u32> = Vec::new();
            let mut t: usize = 0;
            while t < nids
                invariant
                    t <= nids,
                    ids@.len() == t,
                    pos + 4 * nids <= unknown_data@.len() <= usize::MAX,
                    data == unknown_data@,
                    pos == pos0 + 4,
                    forall|j: int|
                        0 <= j < t ==> #[trigger] ids@[j] == le32_at(data, pos0 + 4 + 4 * j),
                decreases nids - t,
            {
                ids.push(read_u32_le(unknown_data, pos + 4 * t));
                t = t + 1;
            }
            pos = pos + 4 * nids;
            let ghost refs_before = category_references@.map_values(|v: Vec<u32>| v@);
            category_references.push(ids);
            proof {
                assert(ids@ =~= Seq::new(
                    nids as nat,
                    |j: int| le32_at(data, pos0 + 4 + 4 * j) as u32,
                ));
                assert(category_references@.map_values(|v: Vec<u32>| v@) =~= refs_before
                    + seq![ids@]);
                assert forall|rest: Seq<Seq<u32>>| true implies refs_before + (seq![ids@] + rest)
                    =~= (refs_before + seq![ids@]) + rest by {}
            }
            i = i + 1;
        }
        if dlen - pos < 4 {
            return Err(
                LinderaErrorKind::Deserialize.with_error(
                    String::from_str("malformed unknown dictionary blob"),
                ),
            );
        }
        let ghost refs_pos: int = pos as int;
        let ncost = read_u32_le(unknown_data, pos) as usize;
        pos = pos + 4;
        if ncost > (dlen - pos) / 6 {
            return Err(
                LinderaErrorKind::Deserialize.with_error(
                    String::from_str("malformed unknown dictionary blob"),
                ),
            );
        }
        let mut costs: Vec<WordEntry> = Vec::new();
        let mut k: usize = 0;
        while k < ncost
            invariant
                k <= ncost,
                costs@.len() == k,
                pos + 6 * ncost <= unknown_data@.len() <= usize::MAX,
                data == unknown_data@,
                pos == refs_pos + 4,
                forall|a: int|
                    0 <= a < category_references@.len() ==> (
                    #[trigger] category_references@[a])@.len() >= 1,
                forall|j: int|
                    0 <= j < k ==> #[trigger] costs@[j] == entry_at(data, refs_pos + 4 + 6 * j),
            decreases ncost - k,
        {
            let word_cost = read_i16_le(unknown_data, pos + 6 * k);
            let left_id = read_u16_le(unknown_data, pos + 6 * k + 2);
            let right_id = read_u16_le(unknown_data, pos + 6 * k + 4);
            costs.push(WordEntry { word_cost, left_id, right_id });
            k = k + 1;
        }
        pos = pos + 6 * ncost;
        if pos != dlen {
            return Err(
                LinderaErrorKind::Deserialize.with_error(
                    String::from_str("malformed unknown dictionary blob"),
                ),
            );
        }
        proof {
            assert(costs@ =~= Seq::new(
                ncost as nat,
                |j: int| entry_at(data, refs_pos + 4 + 6 * j),
            ));
        }
        // Check that every reference points into the cost array.
        if !refs_in_range(&category_references, ncost) {
            return Err(
                LinderaErrorKind::Deserialize.with_error(
                    String::from_str("malformed unknown dictionary blob"),
                ),
            );
        }
        proof {
            let refs = category_references@.map_values(|v: Vec<u32>| v@);
            assert(unknown_dictionary_spec(data) == Some((refs, costs@)));
            let d = UnknownDictionary { category_references: category_references, costs: costs };
            assert forall|x: int, y: int|
                0 <= x < d.category_references@.len() && 0 <= y < (
                #[trigger] d.category_references@[x])@.len() implies (
            #[trigger] d.category_references@[x]@[y]) < d.costs@.len() by {
                assert(refs[x] == d.category_references@[x]@);
                assert(refs[x][y] < ncost);
            }
            assert(d.wf());
        }
        Ok(UnknownDictionary { category_references, costs })
    }
}

} // verus!
