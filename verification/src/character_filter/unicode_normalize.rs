//! A character filter that applies a Unicode normalization form.
//!
//! The filter rewrites the text into one of the four normalization forms and
//! records a diff table by walking the input a character at a time, matching
//! each character's own normalization greedily against the normalized text.

use unicode_normalization::UnicodeNormalization;
use vstd::prelude::*;
use vstd::string::*;
use vstd::utf8::*;

use crate::character_filter::{
    building_wf, corrected, diff_at, int_diffs, int_offsets, lemma_building_advance, record_diff,
    table_maps_back, table_step, table_wf,
};
use crate::error::{LinderaError, LinderaErrorKind};
use crate::text::{blen, chars_vec, lemma_blen_take_le, lemma_blen_take_next, utf8_len};
use crate::LinderaResult;

verus! {

/// What `nfc` of the unicode-normalization crate returns for these
/// characters.
pub uninterp spec fn nfc_of(s: Seq<char>) -> Seq<char>;

/// What `nfd` of the unicode-normalization crate returns for these
/// characters.
pub uninterp spec fn nfd_of(s: Seq<char>) -> Seq<char>;

/// What `nfkc` of the unicode-normalization crate returns for these
/// characters.
pub uninterp spec fn nfkc_of(s: Seq<char>) -> Seq<char>;

/// What `nfkd` of the unicode-normalization crate returns for these
/// characters.
pub uninterp spec fn nfkd_of(s: Seq<char>) -> Seq<char>;

/// The four Unicode normalization forms.
#[derive(Clone, Copy, Debug, PartialEq, Eq, Structural)]
pub enum UnicodeNormalizeKind {
    NFC,
    NFD,
    NFKC,
    NFKD,
}

/// The normalization of `s` under the given form.
pub open spec fn norm_of(kind: UnicodeNormalizeKind, s: Seq<char>) -> Seq<char> {
    match kind {
        UnicodeNormalizeKind::NFC => nfc_of(s),
        UnicodeNormalizeKind::NFD => nfd_of(s),
        UnicodeNormalizeKind::NFKC => nfkc_of(s),
        UnicodeNormalizeKind::NFKD => nfkd_of(s),
    }
}

/// Relies on `UnicodeNormalization::nfc`: the result depends on the
/// characters alone, and an empty input stays empty.
#[verifier::external_body]
fn normalize_nfc(s: &str) -> (r: String)
    ensures
        r@ == nfc_of(s@),
        s@.len() == 0 ==> r@.len() == 0,
{
    s.nfc().collect::<String>()
}

/// Relies on `UnicodeNormalization::nfd`: the result depends on the
/// characters alone, and an empty input stays empty.
#[verifier::external_body]
fn normalize_nfd(s: &str) -> (r: String)
    ensures
        r@ == nfd_of(s@),
        s@.len() == 0 ==> r@.len() == 0,
{
    s.nfd().collect::<String>()
}

/// Relies on `UnicodeNormalization::nfkc`: the result depends on the
/// characters alone, and an empty input stays empty.
#[verifier::external_body]
fn normalize_nfkc(s: &str) -> (r: String)
    ensures
        r@ == nfkc_of(s@),
        s@.len() == 0 ==> r@.len() == 0,
{
    s.nfkc().collect::<String>()
}

/// Relies on `UnicodeNormalization::nfkd`: the result depends on the
/// characters alone, and an empty input stays empty.
#[verifier::external_body]
fn normalize_nfkd(s: &str) -> (r: String)
    ensures
        r@ == nfkd_of(s@),
        s@.len() == 0 ==> r@.len() == 0,
{
    s.nfkd().collect::<String>()
}

/// Relies on `char::to_string`: the returned string holds exactly the one
/// character.
#[verifier::external_body]
fn char_to_string(c: char) -> (r: String)
    ensures
        r@ == seq![c],
{
    c.to_string()
}

/// Applies the normalization form the configuration names.
fn normalize(kind: UnicodeNormalizeKind, s: &str) -> (r: String)
    ensures
        r@ == norm_of(kind, s@),
{
    match kind {
        UnicodeNormalizeKind::NFC => normalize_nfc(s),
        UnicodeNormalizeKind::NFD => normalize_nfd(s),
        UnicodeNormalizeKind::NFKC => normalize_nfkc(s),
        UnicodeNormalizeKind::NFKD => normalize_nfkd(s),
    }
}

/// Normalizes one character on its own.
fn normalize_char(kind: UnicodeNormalizeKind, c: char) -> (r: Vec<char>)
    ensures
        r@ == norm_of(kind, seq![c]),
{
    let s = char_to_string(c);
    let normalized = normalize(kind, s.as_str());
    chars_vec(normalized.as_str())
}

/// Whether `a[start .. start + k]` holds exactly the characters of `b`.
fn seg_eq(a: &Vec<char>, start: usize, k: usize, b: &Vec<char>) -> (r: bool)
    requires
        start + k <= a@.len(),
    ensures
        r == (a@.subrange(start as int, (start + k) as int) == b@),
{
    let a_len = a.len();
    if k != b.len() {
        proof {
            assert(a@.subrange(start as int, (start + k) as int).len() == k);
        }
        return false;
    }
    let mut j: usize = 0;
    while j < k
        invariant
            j <= k,
            start + k <= a@.len(),
            a@.len() == a_len,
            k == b@.len(),
            forall|m: int| 0 <= m < j ==> a@[start + m] == b@[m],
        decreases k - j,
    {
        proof {
            assert(start + j < a@.len());
        }
        if a[start + j] != b[j] {
            proof {
                assert(a@.subrange(start as int, (start + k) as int)[j as int] == a@[start + j]);
            }
            return false;
        }
        j = j + 1;
    }
    proof {
        assert(a@.subrange(start as int, (start + k) as int) =~= b@);
    }
    true
}

/// Whether the normalization of one character occurs in the normalized text
/// at position `ni`: the greedy walk then consumes exactly it.
pub open spec fn walk_match(norm: Seq<char>, ni: int, tmp: Seq<char>) -> bool {
    &&& tmp.len() >= 1
    &&& ni + tmp.len() <= norm.len()
    &&& norm.subrange(ni, ni + tmp.len() as int) == tmp
}

/// How many characters of the normalized text the walk consumes for one
/// character of the input, `ni` of them already consumed: the character's
/// own normalization when it occurs next, everything left when it does not,
/// and nothing once the normalized text is exhausted.
pub open spec fn walk_consumed(
    kind: UnicodeNormalizeKind,
    norm: Seq<char>,
    ni: int,
    c: char,
) -> int {
    let tmp = norm_of(kind, seq![c]);
    if ni >= norm.len() {
        0
    } else if walk_match(norm, ni, tmp) {
        tmp.len() as int
    } else {
        norm.len() - ni
    }
}

/// The diff table and the consumed count after the first `ti` characters of
/// the input are walked: each character's byte span is replaced by the bytes
/// of the characters the walk consumes for it, recorded as `table_step`
/// says.
#[verifier::opaque]
pub open spec fn uni_walk(
    kind: UnicodeNormalizeKind,
    chars: Seq<char>,
    norm: Seq<char>,
    ti: int,
) -> (Seq<int>, Seq<int>, int)
    decreases ti,
{
    if ti <= 0 {
        (Seq::empty(), Seq::empty(), 0)
    } else {
        let prev = uni_walk(kind, chars, norm, ti - 1);
        let ni = prev.2;
        let consumed = walk_consumed(kind, norm, ni, chars[ti - 1]);
        let rep_len = blen(norm.take(ni + consumed)) - blen(norm.take(ni));
        let t = table_step(
            prev.0,
            prev.1,
            blen(chars.take(ti - 1)),
            blen(chars.take(ti)),
            rep_len,
        );
        (t.0, t.1, ni + consumed)
    }
}

/// The whole diff table of a normalization rewrite: a function of the form,
/// the old text and its normalization.
pub open spec fn uni_table(
    kind: UnicodeNormalizeKind,
    chars: Seq<char>,
    norm: Seq<char>,
) -> (Seq<int>, Seq<int>) {
    let w = uni_walk(kind, chars, norm, chars.len() as int);
    (w.0, w.1)
}

/// The configuration of a Unicode-normalization character filter.
#[derive(Clone, Copy, Debug, PartialEq, Eq, Structural)]
pub struct UnicodeNormalizeCharacterFilterConfig {
    pub kind: UnicodeNormalizeKind,
}

impl UnicodeNormalizeCharacterFilterConfig {
    /// Builds a configuration for the given normalization form.
    pub fn new(kind: UnicodeNormalizeKind) -> (r: Self)
        ensures
            r.kind == kind,
    {
        Self { kind }
    }

    /// Reads a configuration from a JSON document whose `kind` member names
    /// one of the four normalization forms.
    pub fn from_slice(data: &[u8]) -> (r: LinderaResult<Self>)
        ensures
            r matches Err(e) ==> e.kind == LinderaErrorKind::Deserialize,
    {
        let v = vstd::slice::slice_to_vec(data);
        let parsed = match crate::json::parse_json(&v) {
            Ok(p) => p,
            Err(e) => {
                return Err(e);
            },
        };
        match parsed {
            crate::json::JsonValue::Obj(members) => {
                let kind_name = match crate::json::obj_get_string(&members, "kind") {
                    Some(k) => k,
                    None => {
                        return Err(crate::json::deserialize_error());
                    },
                };
                let kind = if kind_name == String::from_str("nfc") {
                    UnicodeNormalizeKind::NFC
                } else if kind_name == String::from_str("nfd") {
                    UnicodeNormalizeKind::NFD
                } else if kind_name == String::from_str("nfkc") {
                    UnicodeNormalizeKind::NFKC
                } else if kind_name == String::from_str("nfkd") {
                    UnicodeNormalizeKind::NFKD
                } else {
                    return Err(crate::json::deserialize_error());
                };
                Ok(Self { kind })
            },
            _ => Err(crate::json::deserialize_error()),
        }
    }
}

/// A character filter that rewrites the text into a Unicode normalization
/// form.
#[derive(Clone, Copy, Debug)]
pub struct UnicodeNormalizeCharacterFilter {
    config: UnicodeNormalizeCharacterFilterConfig,
}

impl UnicodeNormalizeCharacterFilter {
    /// The normalization form this filter applies.
    pub closed spec fn kind_view(&self) -> UnicodeNormalizeKind {
        self.config.kind
    }

    /// Builds the filter from its configuration.
    pub fn new(config: UnicodeNormalizeCharacterFilterConfig) -> (r: Self)
        ensures
            r.kind_view() == config.kind,
    {
        Self { config }
    }

    /// Reads the configuration from a JSON document.
    pub fn from_slice(data: &[u8]) -> (r: LinderaResult<Self>)
        ensures
            r matches Err(e) ==> e.kind == LinderaErrorKind::Deserialize,
    {
        let config = match UnicodeNormalizeCharacterFilterConfig::from_slice(data) {
            Ok(c) => c,
            Err(e) => {
                return Err(e);
            },
        };
        Ok(Self::new(config))
    }

    /// Rewrites `text` into the configured normalization form and returns the
    /// diff table of the rewrite.
    ///
    /// On success the new text is exactly the normalization of the old one,
    /// the table is well-formed, and every position of the new text maps
    /// through the table into the combined extent of old and new text.  The
    /// only failure is a normalization too long for the diff representation,
    /// in which case the text is left unchanged.
    #[verifier::rlimit(90)]
    pub fn apply(&self, text: &mut String) -> (r: LinderaResult<(Vec<usize>, Vec<i64>)>)
        requires
            encode_utf8(old(text)@).len() <= i64::MAX,
        ensures
            r is Ok <==> encode_utf8(norm_of(self.kind_view(), old(text)@)).len() <= i64::MAX,
            match r {
                Ok(t) => {
                    &&& final(text)@ == norm_of(self.kind_view(), old(text)@)
                    &&& (int_offsets(t.0@), int_diffs(t.1@)) == uni_table(
                        self.kind_view(),
                        old(text)@,
                        norm_of(self.kind_view(), old(text)@),
                    )
                    &&& table_wf(t.0@, t.1@)
                    &&& table_maps_back(
                        t.0@,
                        t.1@,
                        encode_utf8(final(text)@).len() as int,
                        encode_utf8(old(text)@).len() + encode_utf8(final(text)@).len() as int,
                    )
                    &&& uni_walk(
                        self.kind_view(),
                        old(text)@,
                        norm_of(self.kind_view(), old(text)@),
                        old(text)@.len() as int,
                    ).2 == norm_of(self.kind_view(), old(text)@).len() ==> table_maps_back(
                        t.0@,
                        t.1@,
                        encode_utf8(final(text)@).len() as int,
                        encode_utf8(old(text)@).len() as int,
                    )
                },
                Err(_) => final(text)@ == old(text)@,
            },
    {
        let kind = self.config.kind;
        let normalized = normalize(kind, text.as_str());
        let norm_byte_len: usize = normalized.as_str().as_bytes_vec().len();
        if norm_byte_len as u64 > i64::MAX as u64 {
            return Err(
                LinderaErrorKind::Args.with_error(
                    String::from_str("normalized text too long for offset correction"),
                ),
            );
        }
        let old_byte_len: usize = text.as_str().as_bytes_vec().len();
        let text_chars = chars_vec(text.as_str());
        let norm_chars = chars_vec(normalized.as_str());
        let mut offsets: Vec<usize> = Vec::new();
        let mut diffs: Vec<i64> = Vec::new();
        let norm_char_count = norm_chars.len();
        let mut ti: usize = 0;
        let mut ni: usize = 0;
        let mut in_off: usize = 0;
        let ghost mut out_pos: int = 0;
        proof {
            assert(text_chars@.take(0) =~= Seq::<char>::empty());
            assert(norm_chars@.take(0) =~= Seq::<char>::empty());
            assert(encode_utf8(Seq::<char>::empty()) =~= Seq::<u8>::empty());
            reveal(uni_walk);
            assert(int_offsets(offsets@) =~= Seq::<int>::empty());
            assert(int_diffs(diffs@) =~= Seq::<int>::empty());
            assert((int_offsets(offsets@), int_diffs(diffs@), 0int) == uni_walk(
                kind,
                text_chars@,
                norm_chars@,
                0,
            ));
        }
        while ti < text_chars.len()
            invariant
                text_chars@ == old(text)@,
                norm_chars@ == norm_of(self.kind_view(), old(text)@),
                old_byte_len == blen(text_chars@),
                norm_byte_len == blen(norm_chars@),
                old_byte_len <= i64::MAX,
                norm_byte_len <= i64::MAX,
                ti <= text_chars@.len(),
                ni <= norm_chars@.len(),
                norm_chars@.len() == norm_char_count,
                in_off == blen(text_chars@.take(ti as int)),
                out_pos == blen(norm_chars@.take(ni as int)),
                in_off <= old_byte_len,
                0 <= out_pos <= norm_byte_len,
                building_wf(offsets@, diffs@, in_off as int, out_pos),
                kind == self.kind_view(),
                (int_offsets(offsets@), int_diffs(diffs@), ni as int) == uni_walk(
                    kind,
                    text_chars@,
                    norm_chars@,
                    ti as int,
                ),
            decreases text_chars@.len() - ti,
        {
            let c = text_chars[ti];
            let plen = utf8_len(c);
            proof {
                lemma_blen_take_next(text_chars@, ti as int);
                lemma_blen_take_le(text_chars@, ti + 1);
            }
            let tmp_chars = normalize_char(kind, c);
            let mut k: usize = 0;
            let mut npl: usize = 0;
            let mut matched = false;
            while ni + k < norm_chars.len() && !matched
                invariant
                    ni + k <= norm_chars@.len(),
                    norm_chars@.len() == norm_char_count,
                    norm_byte_len == blen(norm_chars@),
                    norm_byte_len <= i64::MAX,
                    out_pos == blen(norm_chars@.take(ni as int)),
                    out_pos + npl == blen(norm_chars@.take(ni as int + k as int)),
                    0 <= out_pos,
                    npl >= 0,
                    tmp_chars@ == norm_of(kind, seq![c]),
                    matched ==> 1 <= k && k == tmp_chars@.len() && norm_chars@.subrange(
                        ni as int,
                        ni as int + k as int,
                    ) == tmp_chars@,
                    !matched ==> forall|k2: int|
                        1 <= k2 <= k ==> #[trigger] norm_chars@.subrange(ni as int, ni as int + k2)
                            != tmp_chars@,
                decreases norm_chars@.len() - (ni + k),
            {
                let nc = norm_chars[ni + k];
                let w = utf8_len(nc);
                proof {
                    lemma_blen_take_next(norm_chars@, ni as int + k as int);
                    lemma_blen_take_le(norm_chars@, ni as int + k as int + 1);
                }
                npl = npl + w;
                k = k + 1;
                if seg_eq(&norm_chars, ni, k, &tmp_chars) {
                    matched = true;
                }
            }
            proof {
                lemma_blen_take_le(norm_chars@, ni as int + k as int);
                assert(k as int == walk_consumed(kind, norm_chars@, ni as int, c)) by {
                    let tmp = norm_of(kind, seq![c]);
                    if ni as int >= norm_chars@.len() {
                        assert(k == 0);
                    } else if matched {
                        assert(walk_match(norm_chars@, ni as int, tmp));
                    } else {
                        assert(ni + k == norm_chars@.len());
                        if walk_match(norm_chars@, ni as int, tmp) {
                            assert(1 <= tmp.len() <= k);
                            assert(norm_chars@.subrange(
                                ni as int,
                                ni as int + tmp.len() as int,
                            ) != tmp_chars@);
                            assert(false);
                        }
                    }
                }
            }
            record_diff(
                &mut offsets,
                &mut diffs,
                in_off + plen,
                plen,
                npl,
                Ghost(in_off as int),
                Ghost(out_pos),
                Ghost(old_byte_len as int),
                Ghost(norm_byte_len as int),
            );
            proof {
                reveal(uni_walk);
                assert((int_offsets(offsets@), int_diffs(diffs@), ni + k as int) == uni_walk(
                    kind,
                    text_chars@,
                    norm_chars@,
                    ti + 1,
                ));
            }
            in_off = in_off + plen;
            ti = ti + 1;
            ni = ni + k;
            proof {
                out_pos = out_pos + npl;
            }
        }
        proof {
            assert(text_chars@.take(ti as int) =~= text_chars@);
            assert((int_offsets(offsets@), int_diffs(diffs@)) == uni_table(
                kind,
                text_chars@,
                norm_chars@,
            ));
            lemma_building_advance(
                offsets@,
                diffs@,
                in_off as int,
                out_pos,
                norm_byte_len - out_pos,
            );
            assert forall|q: int| 0 <= q <= norm_byte_len implies 0 <= #[trigger] corrected(
                offsets@,
                diffs@,
                q,
            ) <= old_byte_len + norm_byte_len by {
                if q < norm_byte_len {
                } else {
                    if offsets@.len() > 0 {
                        assert(offsets@.last() <= out_pos <= q);
                    }
                    assert(diff_at(offsets@, diffs@, q) == in_off - out_pos);
                }
            }
            assert(table_maps_back(
                offsets@,
                diffs@,
                norm_byte_len as int,
                old_byte_len + norm_byte_len,
            ));
            if ni == norm_chars@.len() {
                assert(norm_chars@.take(ni as int) =~= norm_chars@);
                assert(out_pos == norm_byte_len);
                assert forall|q: int| 0 <= q <= norm_byte_len implies 0 <= #[trigger] corrected(
                    offsets@,
                    diffs@,
                    q,
                ) <= old_byte_len by {
                    if q < out_pos {
                    } else {
                        if offsets@.len() > 0 {
                            assert(offsets@.last() <= out_pos <= q);
                        }
                        assert(diff_at(offsets@, diffs@, q) == in_off - out_pos);
                    }
                }
                assert(table_maps_back(offsets@, diffs@, norm_byte_len as int, old_byte_len as int));
            }
        }
        *text = normalized;
        Ok((offsets, diffs))
    }
}

} // verus!
