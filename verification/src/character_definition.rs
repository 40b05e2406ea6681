//! Character categories and their unknown-word policy.

use vstd::prelude::*;

use vstd::string::StringExecFns;

use crate::blob::{le32_at, read_u32_le};
use crate::error::{LinderaError, LinderaErrorKind};
use crate::LinderaResult;

verus! {

/// The index of a character category.
#[derive(Clone, Copy, Debug, PartialEq, Eq, Structural)]
pub struct CategoryId(pub usize);

/// The unknown-word policy of one category: whether unknown-word candidates
/// are synthesized even beside dictionary matches (`invoke`), whether a run
/// of characters of this category is merged into one candidate (`group`), and
/// the longest such run in characters (0 for no bound).
#[derive(Clone, Copy, Debug, PartialEq, Eq, Structural)]
pub struct CategoryData {
    pub invoke: bool,
    pub group: bool,
    pub max_length: u32,
}

/// The category record encoded at `pos`: an `invoke` byte, a `group` byte
/// and a little-endian 32-bit run cap.
pub open spec fn category_at(data: Seq<u8>, pos: int) -> CategoryData {
    CategoryData {
        invoke: data[pos] != 0,
        group: data[pos + 1] != 0,
        max_length: le32_at(data, pos + 2) as u32,
    }
}

/// The code point ranges decoded from `pos` on: `n` ranges, each two 32-bit
/// code points and a 32-bit count of 32-bit category indices, every index
/// below `ncat`; yields the ranges and the position after them.
pub open spec fn decode_ranges(data: Seq<u8>, pos: int, n: int, ncat: int) -> Option<
    (Seq<(u32, u32, Seq<u32>)>, int),
>
    decreases n,
{
    if n <= 0 {
        Some((Seq::empty(), pos))
    } else if pos + 12 > data.len() {
        None
    } else {
        let m = le32_at(data, pos + 8);
        if pos + 12 + 4 * m > data.len() {
            None
        } else {
            let ids = Seq::new(m as nat, |j: int| le32_at(data, pos + 12 + 4 * j) as u32);
            if exists|j: int| 0 <= j < ids.len() && ids[j] >= ncat {
                None
            } else {
                match decode_ranges(data, pos + 12 + 4 * m, n - 1, ncat) {
                    Some((rest, end)) => Some(
                        (
                            seq![
                                (le32_at(data, pos) as u32, le32_at(data, pos + 4) as u32, ids),
                            ] + rest,
                            end,
                        ),
                    ),
                    None => None,
                }
            }
        }
    }
}

/// The decode of a character definition blob: a 32-bit category count of at
/// least one, the category records, a 32-bit range count and the ranges;
/// anything else decodes to nothing.
pub open spec fn char_definitions_spec(data: Seq<u8>) -> Option<
    (Seq<CategoryData>, Seq<(u32, u32, Seq<u32>)>),
> {
    if data.len() < 4 {
        None
    } else {
        let ncat = le32_at(data, 0);
        if ncat < 1 || 4 + 6 * ncat + 4 > data.len() {
            None
        } else {
            let cats = Seq::new(ncat as nat, |i: int| category_at(data, 4 + 6 * i));
            match decode_ranges(data, 4 + 6 * ncat + 4, le32_at(data, 4 + 6 * ncat), ncat) {
                Some((ranges, end)) => {
                    if end == data.len() {
                        Some((cats, ranges))
                    } else {
                        None
                    }
                },
                None => None,
            }
        }
    }
}

/// Classifies code points into categories.  `mapping` lists inclusive code
/// point ranges with the categories of their characters; a code point in no
/// range belongs to the default category 0.
pub struct CharacterDefinitions {
    pub category_definitions: Vec<CategoryData>,
    pub mapping: Vec<(u32, u32, Vec<u32>)>,
}

/// The categories that the listed ranges give to `c`, in range order.
pub open spec fn range_categories(mapping: Seq<(u32, u32, Vec<u32>)>, c: char, i: int) -> Seq<u32>
    decreases i,
{
    if i <= 0 {
        Seq::empty()
    } else {
        let prev = range_categories(mapping, c, i - 1);
        let m = mapping[i - 1];
        if m.0 <= c as u32 <= m.1 {
            prev + m.2@
        } else {
            prev
        }
    }
}

impl CharacterDefinitions {
    /// Every category the mapping names exists, the default category exists,
    /// and no range is empty of categories.
    pub open spec fn wf(&self) -> bool {
        &&& self.category_definitions@.len() >= 1
        &&& forall|i: int, j: int|
            0 <= i < self.mapping@.len() && 0 <= j < (#[trigger] self.mapping@[i]).2@.len()
                ==> (#[trigger] self.mapping@[i].2@[j]) < self.category_definitions@.len()
    }

    /// The categories of a code point: those of every range that holds it,
    /// or the default category alone.
    pub open spec fn categories_of(&self, c: char) -> Seq<u32> {
        let s = range_categories(self.mapping@, c, self.mapping@.len() as int);
        if s.len() == 0 {
            seq![0u32]
        } else {
            s
        }
    }

    /// The number of categories.
    pub fn category_count(&self) -> (r: usize)
        ensures
            r == self.category_definitions@.len(),
    {
        self.category_definitions.len()
    }

    /// The policy record of a category.
    pub fn lookup_definition(&self, category: usize) -> (r: CategoryData)
        requires
            category < self.category_definitions@.len(),
        ensures
            r == self.category_definitions@[category as int],
    {
        self.category_definitions[category]
    }

    /// The categories of a code point; never empty, and each one in range
    /// when the definitions are well-formed.
    pub fn lookup_categories(&self, c: char) -> (r: Vec<u32>)
        ensures
            r@ == self.categories_of(c),
            r@.len() >= 1,
            self.wf() ==> forall|j: int|
                0 <= j < r@.len() ==> (#[trigger] r@[j]) < self.category_definitions@.len(),
    {
        let u = c as u32;
        let mut found: Vec<u32> = Vec::new();
        let mut i: usize = 0;
        let n = self.mapping.len();
        while i < n
            invariant
                i <= n,
                n == self.mapping@.len(),
                found@ == range_categories(self.mapping@, c, i as int),
                self.wf() ==> forall|j: int|
                    0 <= j < found@.len() ==> (#[trigger] found@[j])
                        < self.category_definitions@.len(),
                u == c as u32,
            decreases n - i,
        {
            let (lo, hi, cats) = &self.mapping[i];
            if *lo <= u && u <= *hi {
                let mut j: usize = 0;
                let m = cats.len();
                let ghost found_before = found@;
                while j < m
                    invariant
                        j <= m,
                        m == cats@.len(),
                        cats@ == self.mapping@[i as int].2@,
                        i < self.mapping@.len(),
                        found@ == found_before + cats@.take(j as int),
                        self.wf() ==> forall|t: int|
                            0 <= t < found_before.len() ==> (#[trigger] found_before[t])
                                < self.category_definitions@.len(),
                    decreases m - j,
                {
                    found.push(cats[j]);
                    proof {
                        assert(found@ =~= found_before + cats@.take(j + 1));
                    }
                    j = j + 1;
                }
                proof {
                    assert(cats@.take(m as int) =~= cats@);
                    assert(found@ =~= range_categories(self.mapping@, c, i + 1));
                }
            }
            i = i + 1;
        }
        if found.len() == 0 {
            found.push(0);
            proof {
                assert(found@ =~= seq![0u32]);
            }
        }
        found
    }

    /// Loads character definitions from their binary blob: a little-endian
    /// 32-bit category count, each category as `invoke` byte, `group` byte
    /// and 32-bit `max_length`, then a 32-bit range count and each range as
    /// two 32-bit code points and a 32-bit count of 32-bit category indices.
    /// A truncated blob, an empty category table or an out-of-range category
    /// index is rejected whole.
    /// Loads character definitions from their binary blob, exactly as
    /// `char_definitions_spec` decodes it.  A truncated blob, an empty
    /// category table or an out-of-range category index is rejected whole.
    pub fn load(data: &Vec<u8>) -> (r: LinderaResult<Self>)
        ensures
            match r {
                Ok(d) => d.wf() && char_definitions_spec(data@) == Some(
                    (
                        d.category_definitions@,
                        d.mapping@.map_values(|t: (u32, u32, Vec<u32>)| (t.0, t.1, t.2@)),
                    ),
                ),
                Err(e) => char_definitions_spec(data@) is None && e.kind
                    == LinderaErrorKind::Deserialize,
            },
    {
        let dlen = data.len();
        if dlen < 4 {
            return Err(
                LinderaErrorKind::Deserialize.with_error(
                    String::from_str("malformed character definition blob"),
                ),
            );
        }
        let ncat = read_u32_le(data, 0) as usize;
        if ncat == 0 || ncat > (dlen - 4) / 6 {
            return Err(
                LinderaErrorKind::Deserialize.with_error(
                    String::from_str("malformed character definition blob"),
                ),
            );
        }
        let mut category_definitions: Vec<CategoryData> = Vec::new();
        let mut pos: usize = 4;
        let mut i: usize = 0;
        while i < ncat
            invariant
                i <= ncat,
                category_definitions@.len() == i,
                pos == 4 + 6 * i,
                4 + 6 * ncat <= data@.len() <= usize::MAX,
                dlen == data@.len(),
                forall|j: int|
                    0 <= j < i ==> #[trigger] category_definitions@[j] == category_at(
                        data@,
                        4 + 6 * j,
                    ),
            decreases ncat - i,
        {
            let invoke = data[pos] != 0;
            let group = data[pos + 1] != 0;
            let max_length = read_u32_le(data, pos + 2);
            category_definitions.push(CategoryData { invoke, group, max_length });
            pos = pos + 6;
            i = i + 1;
        }
        if dlen - pos < 4 {
            return Err(
                LinderaErrorKind::Deserialize.with_error(
                    String::from_str("malformed character definition blob"),
                ),
            );
        }
        let ghost rp: int = pos as int;
        let nranges = read_u32_le(data, pos) as usize;
        pos = pos + 4;
        let mut mapping: Vec<(u32, u32, Vec<u32>)> = Vec::new();
        let mut k: usize = 0;
        proof {
            assert(category_definitions@ =~= Seq::new(
                ncat as nat,
                |j: int| category_at(data@, 4 + 6 * j),
            ));
            assert(mapping@.map_values(|t: (u32, u32, Vec<u32>)| (t.0, t.1, t.2@))
                =~= Seq::<(u32, u32, Seq<u32>)>::empty());
        }
        while k < nranges
            invariant
                k <= nranges,
                pos <= data@.len() <= usize::MAX,
                dlen == data@.len(),
                dlen >= 4,
                1 <= ncat == le32_at(data@, 0),
                rp == 4 + 6 * ncat,
                rp + 4 <= dlen,
                nranges == le32_at(data@, rp),
                category_definitions@.len() == ncat,
                category_definitions@ == Seq::new(
                    ncat as nat,
                    |j: int| category_at(data@, 4 + 6 * j),
                ),
                forall|a: int, b: int|
                    0 <= a < mapping@.len() && 0 <= b < (#[trigger] mapping@[a]).2@.len() ==> (
                    #[trigger] mapping@[a].2@[b]) < category_definitions@.len(),
                decode_ranges(data@, rp + 4, nranges as int, ncat as int) == match decode_ranges(
                    data@,
                    pos as int,
                    nranges - k,
                    ncat as int,
                ) {
                    Some((rest, end)) => Some(
                        (
                            mapping@.map_values(|t: (u32, u32, Vec<u32>)| (t.0, t.1, t.2@))
                                + rest,
                            end,
                        ),
                    ),
                    None => None,
                },
            decreases nranges - k,
        {
            let ghost pos0: int = pos as int;
            if dlen - pos < 12 {
                proof {
                    assert(decode_ranges(data@, pos0, nranges - k, ncat as int) is None);
                }
                return Err(
                    LinderaErrorKind::Deserialize.with_error(
                        String::from_str("malformed character definition blob"),
                    ),
                );
            }
            let lo = read_u32_le(data, pos);
            let hi = read_u32_le(data, pos + 4);
            let nids = read_u32_le(data, pos + 8) as usize;
            pos = pos + 12;
            if nids > (dlen - pos) / 4 {
                proof {
                    assert(le32_at(data@, pos0 + 8) == nids);
                    assert(decode_ranges(data@, pos0, nranges - k, ncat as int) is None);
                }
                return Err(
                    LinderaErrorKind::Deserialize.with_error(
                        String::from_str("malformed character definition blob"),
                    ),
                );
            }
            let ghost spec_ids: Seq<u32> = Seq::new(
                nids as nat,
                |j: int| le32_at(data@, pos0 + 12 + 4 * j) as u32,
            );
            let mut ids: Vec<u32> = Vec::new();
            let mut t: usize = 0;
            while t < nids
                invariant
                    t <= nids,
                    ids@.len() == t,
                    pos + 4 * nids <= data@.len() <= usize::MAX,
                    pos == pos0 + 12,
                    category_definitions@.len() >= 1,
                    category_definitions@.len() == ncat,
                    nids == le32_at(data@, pos0 + 8),
                    0 <= pos0,
                    k < nranges,
                    dlen == data@.len(),
                    dlen >= 4,
                    1 <= ncat == le32_at(data@, 0),
                    rp == 4 + 6 * ncat,
                    rp + 4 <= dlen,
                    nranges == le32_at(data@, rp),
                    decode_ranges(data@, rp + 4, nranges as int, ncat as int)
                        == match decode_ranges(data@, pos0, nranges - k, ncat as int) {
                        Some((rest, end)) => Some(
                            (
                                mapping@.map_values(
                                    |x: (u32, u32, Vec<u32>)| (x.0, x.1, x.2@),
                                ) + rest,
                                end,
                            ),
                        ),
                        None => None,
                    },
                    spec_ids == Seq::new(
                        nids as nat,
                        |j: int| le32_at(data@, pos0 + 12 + 4 * j) as u32,
                    ),
                    forall|b: int| 0 <= b < t ==> #[trigger] ids@[b] == spec_ids[b],
                    forall|b: int|
                        0 <= b < ids@.len() ==> (#[trigger] ids@[b])
                            < category_definitions@.len(),
                decreases nids - t,
            {
                let id = read_u32_le(data, pos + 4 * t);
                if id as usize >= category_definitions.len() {
                    proof {
                        assert(spec_ids[t as int] == le32_at(data@, pos0 + 12 + 4 * (t as int))
                            as u32);
                        assert(id == le32_at(data@, pos0 + 12 + 4 * (t as int)));
                        assert(spec_ids[t as int] >= ncat);
                        let m_spec = le32_at(data@, pos0 + 8);
                        assert(m_spec == nids);
                        let ids_spec = Seq::new(
                            m_spec as nat,
                            |j: int| le32_at(data@, pos0 + 12 + 4 * j) as u32,
                        );
                        assert(ids_spec =~= spec_ids);
                        assert(0 <= t < ids_spec.len() && ids_spec[t as int] >= ncat);
                        assert(exists|j: int|
                            0 <= j < ids_spec.len() && ids_spec[j] >= ncat as int);
                        assert(decode_ranges(data@, pos0, nranges - k, ncat as int) is None);
                    }
                    return Err(
                        LinderaErrorKind::Deserialize.with_error(
                            String::from_str("malformed character definition blob"),
                        ),
                    );
                }
                ids.push(id);
                t = t + 1;
            }
            pos = pos + 4 * nids;
            let ghost ranges_before = mapping@.map_values(
                |t: (u32, u32, Vec<u32>)| (t.0, t.1, t.2@),
            );
            mapping.push((lo, hi, ids));
            proof {
                assert(ids@ =~= spec_ids);
                assert(forall|j: int|
                    0 <= j < spec_ids.len() ==> #[trigger] spec_ids[j] < ncat);
                assert(mapping@.map_values(|t: (u32, u32, Vec<u32>)| (t.0, t.1, t.2@))
                    =~= ranges_before + seq![(lo, hi, ids@)]);
                assert forall|rest: Seq<(u32, u32, Seq<u32>)>| true implies ranges_before + (
                seq![(lo, hi, ids@)] + rest) =~= (ranges_before + seq![(lo, hi, ids@)])
                    + rest by {}
            }
            k = k + 1;
        }
        if pos != dlen {
            return Err(
                LinderaErrorKind::Deserialize.with_error(
                    String::from_str("malformed character definition blob"),
                ),
            );
        }
        proof {
            let ranges = mapping@.map_values(|t: (u32, u32, Vec<u32>)| (t.0, t.1, t.2@));
            assert(char_definitions_spec(data@) == Some((category_definitions@, ranges)));
            let d = CharacterDefinitions { category_definitions, mapping };
            assert(d.wf());
        }
        Ok(CharacterDefinitions { category_definitions, mapping })
    }
}
} // verus!
