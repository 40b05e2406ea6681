//! The prefix-matching dictionary.
//!
//! A surface-form-keyed structure: looking up a start position in the input
//! yields every `(matched_byte_length, word_id)` whose key is the input
//! substring beginning there.  Shorter and longer matches coexist.

use vstd::prelude::*;
use vstd::string::StringExecFns;

use crate::blob::{le32_at, read_u32_le};
use crate::error::{LinderaError, LinderaErrorKind};
use crate::LinderaResult;

verus! {

/// Whether `key` occurs in `bytes` at position `start`.
pub open spec fn key_matches_at(key: Seq<u8>, bytes: Seq<u8>, start: int) -> bool {
    &&& start + key.len() <= bytes.len()
    &&& bytes.subrange(start, start + key.len() as int) == key
}

/// The `(length, id)` pairs of one key.
pub open spec fn pairs_of(len: int, ids: Seq<u32>) -> Seq<(usize, u32)> {
    ids.map_values(|id: u32| (len as usize, id))
}

/// The matches that the first `i` keys contribute at `start`, in key order.
pub open spec fn prefix_matches_upto(
    keys: Seq<(Vec<u8>, Vec<u32>)>,
    bytes: Seq<u8>,
    start: int,
    i: int,
) -> Seq<(usize, u32)>
    decreases i,
{
    if i <= 0 {
        Seq::empty()
    } else {
        let prev = prefix_matches_upto(keys, bytes, start, i - 1);
        let k = keys[i - 1];
        if key_matches_at(k.0@, bytes, start) {
            prev + pairs_of(k.0@.len() as int, k.1@)
        } else {
            prev
        }
    }
}

/// All matches at `start`.
pub open spec fn prefix_matches(
    keys: Seq<(Vec<u8>, Vec<u32>)>,
    bytes: Seq<u8>,
    start: int,
) -> Seq<(usize, u32)> {
    prefix_matches_upto(keys, bytes, start, keys.len() as int)
}

/// The keys decoded from the two blobs in lockstep: `n` keys, each a
/// 32-bit byte length of at least one and its bytes in the index blob, and
/// a 32-bit count of 32-bit word ids in the value blob; yields the keys and
/// both end positions.
pub open spec fn decode_keys(
    index: Seq<u8>,
    vals: Seq<u8>,
    ipos: int,
    vpos: int,
    n: int,
) -> Option<(Seq<(Seq<u8>, Seq<u32>)>, int, int)>
    decreases n,
{
    if n <= 0 {
        Some((Seq::empty(), ipos, vpos))
    } else if ipos + 4 > index.len() {
        None
    } else {
        let klen = le32_at(index, ipos);
        if klen < 1 || ipos + 4 + klen > index.len() {
            None
        } else {
            let key = index.subrange(ipos + 4, ipos + 4 + klen);
            if vpos + 4 > vals.len() {
                None
            } else {
                let m = le32_at(vals, vpos);
                if vpos + 4 + 4 * m > vals.len() {
                    None
                } else {
                    let ids = Seq::new(m as nat, |j: int| le32_at(vals, vpos + 4 + 4 * j) as u32);
                    match decode_keys(index, vals, ipos + 4 + klen, vpos + 4 + 4 * m, n - 1) {
                        Some((rest, ie, ve)) => Some((seq![(key, ids)] + rest, ie, ve)),
                        None => None,
                    }
                }
            }
        }
    }
}

/// The decode of a prefix dictionary blob pair: matching 32-bit key counts,
/// then the keys, consuming both blobs whole; anything else decodes to
/// nothing.
pub open spec fn prefix_dict_spec(index: Seq<u8>, vals: Seq<u8>) -> Option<
    Seq<(Seq<u8>, Seq<u32>)>,
> {
    if index.len() < 4 || vals.len() < 4 {
        None
    } else if le32_at(index, 0) != le32_at(vals, 0) {
        None
    } else {
        match decode_keys(index, vals, 4, 4, le32_at(index, 0)) {
            Some((keys, ie, ve)) => {
                if ie == index.len() && ve == vals.len() {
                    Some(keys)
                } else {
                    None
                }
            },
            None => None,
        }
    }
}

/// A prefix dictionary held as a list of keys, each with the word ids whose
/// surface form it is.
pub struct PrefixDict {
    pub keys: Vec<(Vec<u8>, Vec<u32>)>,
}

impl PrefixDict {
    /// No key is empty and every word id points into a flat entry array of
    /// the given length.
    pub open spec fn wf(&self, entries_len: int) -> bool {
        forall|i: int|
            0 <= i < self.keys@.len() ==> {
                &&& (#[trigger] self.keys@[i]).0@.len() >= 1
                &&& forall|j: int|
                    0 <= j < self.keys@[i].1@.len() ==> (#[trigger] self.keys@[i].1@[j])
                        < entries_len
            }
    }

    /// A dictionary with no keys.
    pub fn empty() -> (r: Self)
        ensures
            r.keys@.len() == 0,
    {
        PrefixDict { keys: Vec::new() }
    }

    /// Every `(matched_byte_length, word_id)` whose key is the substring of
    /// `bytes` beginning at `start`, in key order.  No match is not an
    /// error: the result is then empty.
    pub fn prefix(&self, bytes: &Vec<u8>, start: usize) -> (r: Vec<(usize, u32)>)
        requires
            start <= bytes@.len(),
        ensures
            r@ == prefix_matches(self.keys@, bytes@, start as int),
    {
        let mut out: Vec<(usize, u32)> = Vec::new();
        let mut i: usize = 0;
        let n = self.keys.len();
        let blen = bytes.len();
        while i < n
            invariant
                i <= n,
                n == self.keys@.len(),
                blen == bytes@.len(),
                start <= blen,
                out@ == prefix_matches_upto(self.keys@, bytes@, start as int, i as int),
            decreases n - i,
        {
            let (key, ids) = &self.keys[i];
            let klen = key.len();
            let mut matches = klen <= blen - start;
            if matches {
                let mut j: usize = 0;
                while j < klen
                    invariant
                        j <= klen,
                        klen == key@.len(),
                        start + klen <= bytes@.len() <= usize::MAX,
                        matches == (forall|m: int| 0 <= m < j ==> bytes@[start + m] == key@[m]),
                    decreases klen - j,
                {
                    if bytes[start + j] != key[j] {
                        matches = false;
                        proof {
                            assert(!(forall|m: int|
                                0 <= m < j + 1 ==> bytes@[start + m] == key@[m])) by {
                                assert(bytes@[start + j as int] != key@[j as int]);
                            }
                        }
                        j = klen;
                    } else {
                        proof {
                            assert(forall|m: int|
                                0 <= m < j ==> bytes@[start + m] == key@[m] ==> true);
                        }
                        j = j + 1;
                    }
                }
            }
            proof {
                if matches {
                    assert(bytes@.subrange(start as int, start + key@.len() as int) =~= key@);
                    assert(key_matches_at(key@, bytes@, start as int));
                } else {
                    if start + key@.len() <= bytes@.len() {
                        if bytes@.subrange(start as int, start + key@.len() as int) == key@ {
                            let m0 = choose|m: int|
                                !(0 <= m < key@.len() ==> bytes@[start + m] == key@[m]);
                            assert(bytes@.subrange(start as int, start + key@.len() as int)[m0]
                                == bytes@[start + m0]);
                            assert(false);
                        }
                    }
                    assert(!key_matches_at(key@, bytes@, start as int));
                }
            }
            if matches {
                let ghost out_before = out@;
                let nids = ids.len();
                let mut j: usize = 0;
                while j < nids
                    invariant
                        j <= nids,
                        nids == ids@.len(),
                        klen == key@.len(),
                        out@ == out_before + pairs_of(klen as int, ids@.take(j as int)),
                    decreases nids - j,
                {
                    let id = ids[j];
                    out.push((klen, id));
                    proof {
                        assert(pairs_of(klen as int, ids@.take(j + 1)) =~= pairs_of(
                            klen as int,
                            ids@.take(j as int),
                        ).push((klen, ids@[j as int])));
                        assert(out@ =~= out_before + pairs_of(klen as int, ids@.take(j + 1)));
                    }
                    j = j + 1;
                }
                proof {
                    assert(ids@.take(nids as int) =~= ids@);
                    assert(out@ =~= prefix_matches_upto(
                        self.keys@,
                        bytes@,
                        start as int,
                        i + 1,
                    ));
                }
            }
            i = i + 1;
        }
        out
    }

    /// Loads a prefix dictionary from its two blobs, exactly as
    /// `prefix_dict_spec` decodes them.  The index blob holds a little-endian
    /// 32-bit key count and each key as a 32-bit byte length followed by its
    /// bytes; the value blob holds the same count and, for each key in
    /// order, a 32-bit count of 32-bit word ids.  A truncated blob, an empty
    /// key, a count mismatch or trailing bytes is rejected whole.
    pub fn from_static_slice(index_data: &Vec<u8>, vals_data: &Vec<u8>) -> (r: LinderaResult<Self>)
        ensures
            match r {
                Ok(d) => {
                    &&& prefix_dict_spec(index_data@, vals_data@) == Some(
                        d.keys@.map_values(|t: (Vec<u8>, Vec<u32>)| (t.0@, t.1@)),
                    )
                    &&& forall|i: int|
                        0 <= i < d.keys@.len() ==> (#[trigger] d.keys@[i]).0@.len() >= 1
                },
                Err(e) => prefix_dict_spec(index_data@, vals_data@) is None && e.kind
                    == LinderaErrorKind::Deserialize,
            },
    {
        let ilen = index_data.len();
        let vlen = vals_data.len();
        if ilen < 4 || vlen < 4 {
            return Err(
                LinderaErrorKind::Deserialize.with_error(
                    String::from_str("malformed prefix dictionary blob"),
                ),
            );
        }
        let nkeys = read_u32_le(index_data, 0) as usize;
        let nvals = read_u32_le(vals_data, 0) as usize;
        if nkeys != nvals {
            return Err(
                LinderaErrorKind::Deserialize.with_error(
                    String::from_str("malformed prefix dictionary blob"),
                ),
            );
        }
        let mut keys: Vec<(Vec<u8>, Vec<u32>)> = Vec::new();
        let mut ipos: usize = 4;
        let mut vpos: usize = 4;
        let mut i: usize = 0;
        proof {
            assert(keys@.map_values(|t: (Vec<u8>, Vec<u32>)| (t.0@, t.1@)) =~= Seq::<
                (Seq<u8>, Seq<u32>),
            >::empty());
        }
        while i < nkeys
            invariant
                i <= nkeys,
                ipos <= index_data@.len() <= usize::MAX,
                vpos <= vals_data@.len() <= usize::MAX,
                ilen == index_data@.len(),
                vlen == vals_data@.len(),
                ilen >= 4,
                vlen >= 4,
                nkeys == le32_at(index_data@, 0),
                nkeys == le32_at(vals_data@, 0),
                forall|a: int| 0 <= a < keys@.len() ==> (#[trigger] keys@[a]).0@.len() >= 1,
                decode_keys(index_data@, vals_data@, 4, 4, nkeys as int) == match decode_keys(
                    index_data@,
                    vals_data@,
                    ipos as int,
                    vpos as int,
                    nkeys - i,
                ) {
                    Some((rest, ie, ve)) => Some(
                        (keys@.map_values(|t: (Vec<u8>, Vec<u32>)| (t.0@, t.1@)) + rest, ie, ve),
                    ),
                    None => None,
                },
            decreases nkeys - i,
        {
            let ghost ipos0: int = ipos as int;
            let ghost vpos0: int = vpos as int;
            if ilen - ipos < 4 {
                proof {
                    assert(decode_keys(
                        index_data@,
                        vals_data@,
                        ipos0,
                        vpos0,
                        nkeys - i,
                    ) is None);
                }
                return Err(
                    LinderaErrorKind::Deserialize.with_error(
                        String::from_str("malformed prefix dictionary blob"),
                    ),
                );
            }
            let klen = read_u32_le(index_data, ipos) as usize;
            ipos = ipos + 4;
            if klen == 0 || klen > ilen - ipos {
                proof {
                    assert(le32_at(index_data@, ipos0) == klen);
                    assert(decode_keys(
                        index_data@,
                        vals_data@,
                        ipos0,
                        vpos0,
                        nkeys - i,
                    ) is None);
                }
                return Err(
                    LinderaErrorKind::Deserialize.with_error(
                        String::from_str("malformed prefix dictionary blob"),
                    ),
                );
            }
            let mut key: Vec<u8> = Vec::new();
            let mut t: usize = 0;
            while t < klen
                invariant
                    t <= klen,
                    ipos + klen <= index_data@.len() <= usize::MAX,
                    ipos == ipos0 + 4,
                    key@ == index_data@.subrange(ipos0 + 4, ipos0 + 4 + t),
                decreases klen - t,
            {
                key.push(index_data[ipos + t]);
                proof {
                    assert(key@ =~= index_data@.subrange(ipos0 + 4, ipos0 + 4 + t + 1));
                }
                t = t + 1;
            }
            ipos = ipos + klen;
            if vlen - vpos < 4 {
                proof {
                    assert(le32_at(index_data@, ipos0) == klen);
                    assert(decode_keys(
                        index_data@,
                        vals_data@,
                        ipos0,
                        vpos0,
                        nkeys - i,
                    ) is None);
                }
                return Err(
                    LinderaErrorKind::Deserialize.with_error(
                        String::from_str("malformed prefix dictionary blob"),
                    ),
                );
            }
            let nids = read_u32_le(vals_data, vpos) as usize;
            vpos = vpos + 4;
            if nids > (vlen - vpos) / 4 {
                proof {
                    assert(le32_at(index_data@, ipos0) == klen);
                    assert(le32_at(vals_data@, vpos0) == nids);
                    assert(decode_keys(
                        index_data@,
                        vals_data@,
                        ipos0,
                        vpos0,
                        nkeys - i,
                    ) is None);
                }
                return Err(
                    LinderaErrorKind::Deserialize.with_error(
                        String::from_str("malformed prefix dictionary blob"),
                    ),
                );
            }
            let mut ids: Vec<u32> = Vec::new();
            let mut t2: usize = 0;
            while t2 < nids
                invariant
                    t2 <= nids,
                    ids@.len() == t2,
                    vpos + 4 * nids <= vals_data@.len() <= usize::MAX,
                    vpos == vpos0 + 4,
                    forall|j: int|
                        0 <= j < t2 ==> #[trigger] ids@[j] == le32_at(
                            vals_data@,
                            vpos0 + 4 + 4 * j,
                        ),
                decreases nids - t2,
            {
                ids.push(read_u32_le(vals_data, vpos + 4 * t2));
                t2 = t2 + 1;
            }
            vpos = vpos + 4 * nids;
            let ghost keys_before = keys@.map_values(|t: (Vec<u8>, Vec<u32>)| (t.0@, t.1@));
            keys.push((key, ids));
            proof {
                assert(ids@ =~= Seq::new(
                    nids as nat,
                    |j: int| le32_at(vals_data@, vpos0 + 4 + 4 * j) as u32,
                ));
                assert(keys@.map_values(|t: (Vec<u8>, Vec<u32>)| (t.0@, t.1@)) =~= keys_before
                    + seq![(key@, ids@)]);
                assert forall|rest: Seq<(Seq<u8>, Seq<u32>)>| true implies keys_before + (
                seq![(key@, ids@)] + rest) =~= (keys_before + seq![(key@, ids@)]) + rest by {}
            }
            i = i + 1;
        }
        if ipos != ilen || vpos != vlen {
            return Err(
                LinderaErrorKind::Deserialize.with_error(
                    String::from_str("malformed prefix dictionary blob"),
                ),
            );
        }
        proof {
            assert(prefix_dict_spec(index_data@, vals_data@) == Some(
                keys@.map_values(|t: (Vec<u8>, Vec<u32>)| (t.0@, t.1@)),
            ));
        }
        Ok(PrefixDict { keys })
    }
}

} // verus!
