//! A character filter that replaces regular-expression matches.
//!
//! The filter finds every match of a compiled pattern, replaces each one with
//! a fixed replacement string, and records a diff table so that positions in
//! the rewritten text can be mapped back to the text it was given.

use vstd::prelude::*;
use vstd::string::*;
use vstd::utf8::*;

use crate::character_filter::{
    building_wf, corrected, diff_at, int_diffs, int_offsets, lemma_building_advance, record_diff,
    table_from, table_maps_back, table_of, table_wf,
};
use crate::error::{LinderaError, LinderaErrorKind};
use crate::text::{push_byte_range, string_from_utf8};
use crate::LinderaResult;

verus! {

/// The byte ranges of the matches that a search reported: each lies within
/// the text on character boundaries, and they are sorted and disjoint.
pub open spec fn match_ranges_wf(ranges: Seq<(usize, usize)>, text_bytes: Seq<u8>) -> bool {
    &&& forall|i: int|
        0 <= i < ranges.len() ==> {
            &&& (#[trigger] ranges[i]).0 <= ranges[i].1 <= text_bytes.len()
            &&& is_char_boundary(text_bytes, ranges[i].0 as int)
            &&& is_char_boundary(text_bytes, ranges[i].1 as int)
        }
    &&& forall|i: int| 0 <= i && i + 1 < ranges.len() ==> (#[trigger] ranges[i]).1 <= ranges[i
        + 1].0
}

/// The bytes produced from `bytes` from position `pos` on, after every listed
/// range is replaced by `rep`.
pub open spec fn splice_from(
    bytes: Seq<u8>,
    ranges: Seq<(usize, usize)>,
    rep: Seq<u8>,
    pos: int,
) -> Seq<u8>
    decreases ranges.len(),
{
    if ranges.len() == 0 {
        bytes.subrange(pos, bytes.len() as int)
    } else {
        bytes.subrange(pos, ranges[0].0 as int) + rep + splice_from(
            bytes,
            ranges.drop_first(),
            rep,
            ranges[0].1 as int,
        )
    }
}

/// The length of `splice_from`, written over lengths alone.
pub open spec fn splice_len(len: int, ranges: Seq<(usize, usize)>, rep_len: int, pos: int) -> int
    decreases ranges.len(),
{
    if ranges.len() == 0 {
        len - pos
    } else {
        (ranges[0].0 - pos) + rep_len + splice_len(len, ranges.drop_first(), rep_len, ranges[0].1 as int)
    }
}

/// The ranges all lie within `[pos, len)` in order; what `splice_from`
/// needs of its arguments to be meaningful.
pub open spec fn ranges_sorted_from(ranges: Seq<(usize, usize)>, len: int, pos: int) -> bool {
    &&& 0 <= pos
    &&& ranges.len() > 0 ==> pos <= ranges[0].0
    &&& forall|i: int| 0 <= i < ranges.len() ==> (#[trigger] ranges[i]).0 <= ranges[i].1 <= len
    &&& forall|i: int| 0 <= i && i + 1 < ranges.len() ==> (#[trigger] ranges[i]).1 <= ranges[i
        + 1].0
}

proof fn lemma_splice_len(bytes: Seq<u8>, ranges: Seq<(usize, usize)>, rep: Seq<u8>, pos: int)
    requires
        ranges_sorted_from(ranges, bytes.len() as int, pos),
        pos <= bytes.len(),
    ensures
        splice_from(bytes, ranges, rep, pos).len() == splice_len(
            bytes.len() as int,
            ranges,
            rep.len() as int,
            pos,
        ),
    decreases ranges.len(),
{
    if ranges.len() == 0 {
    } else {
        assert(ranges_sorted_from(ranges.drop_first(), bytes.len() as int, ranges[0].1 as int));
        lemma_splice_len(bytes, ranges.drop_first(), rep, ranges[0].1 as int);
    }
}

proof fn lemma_splice_len_nonneg(len: int, ranges: Seq<(usize, usize)>, rep_len: int, pos: int)
    requires
        ranges_sorted_from(ranges, len, pos),
        pos <= len,
        rep_len >= 0,
    ensures
        splice_len(len, ranges, rep_len, pos) >= 0,
    decreases ranges.len(),
{
    if ranges.len() == 0 {
    } else {
        assert(ranges_sorted_from(ranges.drop_first(), len, ranges[0].1 as int));
        lemma_splice_len_nonneg(len, ranges.drop_first(), rep_len, ranges[0].1 as int);
    }
}

/// A boundary of the whole text is a boundary of a prefix that contains it.
proof fn lemma_boundary_in_prefix(bytes: Seq<u8>, cut: int, pos: int)
    requires
        valid_utf8(bytes),
        is_char_boundary(bytes, cut),
        is_char_boundary(bytes, pos),
        0 <= pos <= cut <= bytes.len(),
    ensures
        valid_utf8(bytes.subrange(0, cut)),
        is_char_boundary(bytes.subrange(0, cut), pos),
{
    broadcast use vstd::utf8::valid_utf8_split;
    broadcast use vstd::utf8::is_char_boundary_start_end_of_seq;
    broadcast use vstd::utf8::is_char_boundary_iff_not_is_continuation_byte;

    let prefix = bytes.subrange(0, cut);
    assert(valid_utf8(prefix));
    if pos == cut {
        assert(is_char_boundary(prefix, pos));
    } else if pos == 0 {
        assert(is_char_boundary(prefix, 0));
    } else {
        assert(prefix[pos] == bytes[pos]);
        assert(!is_continuation_byte(bytes[pos]));
        assert(is_char_boundary(prefix, pos));
    }
}

/// A subrange of valid text taken between two character boundaries is valid.
proof fn lemma_subrange_valid(bytes: Seq<u8>, from: int, to: int)
    requires
        valid_utf8(bytes),
        is_char_boundary(bytes, from),
        is_char_boundary(bytes, to),
        0 <= from <= to <= bytes.len(),
    ensures
        valid_utf8(bytes.subrange(from, to)),
    decreases bytes.len(),
{
    broadcast use vstd::utf8::valid_utf8_split;

    lemma_boundary_in_prefix(bytes, to, from);
    let prefix = bytes.subrange(0, to);
    assert(valid_utf8(prefix.subrange(from, to)));
    assert(prefix.subrange(from, to) =~= bytes.subrange(from, to));
}

/// The spliced text is valid UTF-8 when the replacement is and every range
/// endpoint falls on a character boundary.
proof fn lemma_splice_valid(bytes: Seq<u8>, ranges: Seq<(usize, usize)>, rep: Seq<u8>, pos: int)
    requires
        valid_utf8(bytes),
        valid_utf8(rep),
        ranges_sorted_from(ranges, bytes.len() as int, pos),
        pos <= bytes.len(),
        is_char_boundary(bytes, pos),
        forall|i: int|
            0 <= i < ranges.len() ==> is_char_boundary(bytes, (#[trigger] ranges[i]).0 as int)
                && is_char_boundary(bytes, ranges[i].1 as int),
    ensures
        valid_utf8(splice_from(bytes, ranges, rep, pos)),
    decreases ranges.len(),
{
    broadcast use vstd::utf8::valid_utf8_split;
    broadcast use vstd::utf8::valid_utf8_concat;

    if ranges.len() == 0 {
        assert(valid_utf8(bytes.subrange(pos, bytes.len() as int)));
    } else {
        let r0 = ranges[0];
        lemma_subrange_valid(bytes, pos, r0.0 as int);
        assert(ranges_sorted_from(ranges.drop_first(), bytes.len() as int, r0.1 as int));
        lemma_splice_valid(bytes, ranges.drop_first(), rep, r0.1 as int);
        let head = bytes.subrange(pos, r0.0 as int);
        let tail = splice_from(bytes, ranges.drop_first(), rep, r0.1 as int);
        assert(valid_utf8(head + rep));
        assert(valid_utf8((head + rep) + tail));
        assert((head + rep) + tail =~= head + rep + tail);
    }
}

/// Sorted, disjoint ranges are pairwise ordered, not only adjacently.
proof fn lemma_ranges_pairwise(ranges: Seq<(usize, usize)>, a: int, b: int)
    requires
        forall|i: int| 0 <= i < ranges.len() ==> (#[trigger] ranges[i]).0 <= ranges[i].1,
        forall|i: int| 0 <= i && i + 1 < ranges.len() ==> (#[trigger] ranges[i]).1 <= ranges[i
            + 1].0,
        0 <= a < b < ranges.len(),
    ensures
        ranges[a].1 <= ranges[b].0,
    decreases b - a,
{
    if a + 1 == b {
    } else {
        lemma_ranges_pairwise(ranges, a + 1, b);
    }
}

/// Builds the spliced byte string: the text with every listed range replaced
/// by the replacement bytes.
#[verifier::rlimit(60)]
fn splice_bytes(bytes: &Vec<u8>, ranges: &Vec<(usize, usize)>, rep: &Vec<u8>) -> (r: Vec<u8>)
    requires
        ranges_sorted_from(ranges@, bytes@.len() as int, 0),
    ensures
        r@ == splice_from(bytes@, ranges@, rep@, 0),
{
    let mut out: Vec<u8> = Vec::new();
    let mut pos: usize = 0;
    let mut i: usize = 0;
    proof {
        assert(ranges@.skip(0) =~= ranges@);
        assert(out@ + splice_from(bytes@, ranges@, rep@, 0) =~= splice_from(bytes@, ranges@, rep@, 0));
    }
    while i < ranges.len()
        invariant
            ranges_sorted_from(ranges@, bytes@.len() as int, 0),
            i <= ranges@.len(),
            i == 0 ==> pos == 0,
            i > 0 ==> pos == ranges@[i - 1].1,
            pos <= bytes@.len(),
            ranges_sorted_from(ranges@.skip(i as int), bytes@.len() as int, pos as int),
            out@ + splice_from(bytes@, ranges@.skip(i as int), rep@, pos as int) == splice_from(
                bytes@,
                ranges@,
                rep@,
                0,
            ),
        decreases ranges@.len() - i,
    {
        let (ms, me) = ranges[i];
        proof {
            assert(ranges@.skip(i as int)[0] == ranges@[i as int]);
            assert(ranges@.skip(i as int).drop_first() =~= ranges@.skip(i + 1));
        }
        let ghost prev_out = out@;
        push_byte_range(&mut out, bytes, pos, ms);
        let mut k: usize = 0;
        while k < rep.len()
            invariant
                k <= rep@.len(),
                out@ == prev_out + bytes@.subrange(pos as int, ms as int) + rep@.subrange(
                    0,
                    k as int,
                ),
            decreases rep@.len() - k,
        {
            let b: u8 = rep[k];
            out.push(b);
            proof {
                assert(out@ =~= prev_out + bytes@.subrange(pos as int, ms as int) + rep@.subrange(
                    0,
                    k + 1,
                ));
            }
            k = k + 1;
        }
        proof {
            assert(rep@.subrange(0, rep@.len() as int) =~= rep@);
            assert(out@ + splice_from(bytes@, ranges@.skip(i + 1), rep@, me as int) =~= prev_out
                + splice_from(bytes@, ranges@.skip(i as int), rep@, pos as int));
        }
        pos = me;
        i = i + 1;
    }
    proof {
        assert(ranges@.skip(ranges@.len() as int) =~= Seq::<(usize, usize)>::empty());
        assert(out@ + bytes@.subrange(pos as int, bytes@.len() as int) =~= splice_from(
            bytes@,
            ranges@,
            rep@,
            0,
        ));
    }
    push_byte_range(&mut out, bytes, pos, bytes.len());
    out
}

/// Builds the diff table for the listed replacements, exactly as `table_of`
/// says, and proves that every position of the spliced text maps back into
/// the original text.
#[verifier::rlimit(60)]
fn build_table(
    ranges: &Vec<(usize, usize)>,
    rep_len: usize,
    old_len: usize,
    new_len: usize,
) -> (r: (Vec<usize>, Vec<i64>))
    requires
        ranges_sorted_from(ranges@, old_len as int, 0),
        forall|i: int| 0 <= i < ranges@.len() ==> (#[trigger] ranges@[i]).0 < ranges@[i].1,
        old_len <= i64::MAX,
        new_len <= i64::MAX,
        new_len as int == splice_len(old_len as int, ranges@, rep_len as int, 0),
    ensures
        (int_offsets(r.0@), int_diffs(r.1@)) == table_of(ranges@, rep_len as int),
        table_wf(r.0@, r.1@),
        table_maps_back(r.0@, r.1@, new_len as int, old_len as int),
{
    let mut offsets: Vec<usize> = Vec::new();
    let mut diffs: Vec<i64> = Vec::new();
    let ghost mut in_pos: int = 0;
    let ghost mut out_pos: int = 0;
    let mut i: usize = 0;
    proof {
        assert(ranges@.skip(0) =~= ranges@);
        assert(int_offsets(offsets@) =~= Seq::<int>::empty());
        assert(int_diffs(diffs@) =~= Seq::<int>::empty());
    }
    while i < ranges.len()
        invariant
            ranges_sorted_from(ranges@, old_len as int, 0),
            forall|j: int| 0 <= j < ranges@.len() ==> (#[trigger] ranges@[j]).0 < ranges@[j].1,
            old_len <= i64::MAX,
            new_len <= i64::MAX,
            new_len <= usize::MAX,
            i <= ranges@.len(),
            i == 0 ==> in_pos == 0,
            i > 0 ==> in_pos == ranges@[i - 1].1,
            0 <= in_pos <= old_len,
            ranges_sorted_from(ranges@.skip(i as int), old_len as int, in_pos),
            building_wf(offsets@, diffs@, in_pos, out_pos),
            out_pos + splice_len(old_len as int, ranges@.skip(i as int), rep_len as int, in_pos)
                == new_len,
            table_from(
                ranges@.skip(i as int),
                rep_len as int,
                int_offsets(offsets@),
                int_diffs(diffs@),
            ) == table_of(ranges@, rep_len as int),
        decreases ranges@.len() - i,
    {
        let (ms, me) = ranges[i];
        let ghost out_s: int = ms - in_pos + out_pos;
        let ghost out_e: int = out_s + rep_len;
        proof {
            assert(ranges@.skip(i as int)[0] == ranges@[i as int]);
            assert(ranges@.skip(i as int).drop_first() =~= ranges@.skip(i + 1));
            assert(ranges_sorted_from(ranges@.skip(i + 1), old_len as int, me as int));
            lemma_splice_len_nonneg(
                old_len as int,
                ranges@.skip(i + 1),
                rep_len as int,
                me as int,
            );
            assert(out_e <= new_len);
        }
        record_diff(
            &mut offsets,
            &mut diffs,
            me,
            me - ms,
            rep_len,
            Ghost(in_pos),
            Ghost(out_pos),
            Ghost(old_len as int),
            Ghost(new_len as int),
        );
        proof {
            in_pos = me as int;
            out_pos = out_e;
        }
        i = i + 1;
    }
    proof {
        assert(ranges@.skip(ranges@.len() as int) =~= Seq::<(usize, usize)>::empty());
        assert(new_len == out_pos + (old_len - in_pos));
        lemma_building_advance(
            offsets@,
            diffs@,
            in_pos,
            out_pos,
            old_len - in_pos,
        );
        assert forall|q: int| 0 <= q <= new_len implies 0 <= #[trigger] corrected(
            offsets@,
            diffs@,
            q,
        ) <= old_len by {
            if q < new_len {
            } else {
                assert(diff_at(offsets@, diffs@, q) == in_pos - out_pos) by {
                    if offsets@.len() > 0 {
                        assert(offsets@.last() <= out_pos <= q);
                    }
                }
            }
        }
    }
    (offsets, diffs)
}

/// What `regex::Regex::find_iter` reports for this pattern on this
/// haystack: the successive non-overlapping match ranges, leftmost first.
/// The matches are a function of pattern and haystack alone.
pub uninterp spec fn regex_matches_of(pattern: Seq<char>, text: Seq<char>) -> Seq<(usize, usize)>;

/// Whether `regex::Regex::new` accepts this pattern; compilation is a
/// function of the pattern alone.
pub uninterp spec fn regex_compiles(pattern: Seq<char>) -> bool;

/// The first `i` ranges with the empty ones dropped; a match of the empty
/// string replaces nothing.
pub open spec fn nonempty_prefix(ranges: Seq<(usize, usize)>, i: int) -> Seq<(usize, usize)>
    decreases i,
{
    if i <= 0 {
        Seq::empty()
    } else {
        let prev = nonempty_prefix(ranges, i - 1);
        if ranges[i - 1].0 < ranges[i - 1].1 {
            prev.push(ranges[i - 1])
        } else {
            prev
        }
    }
}

/// The non-empty ranges, in order.
pub open spec fn nonempty_ranges(ranges: Seq<(usize, usize)>) -> Seq<(usize, usize)> {
    nonempty_prefix(ranges, ranges.len() as int)
}

/// The configuration of a regular-expression character filter: the pattern to
/// search for and the text that replaces each match.
#[derive(Clone, Debug)]
pub struct RegexCharacterFilterConfig {
    pub pattern: String,
    pub replacement: String,
}

impl RegexCharacterFilterConfig {
    /// Builds a configuration from its two parts.
    pub fn new(pattern: String, replacement: String) -> (r: Self)
        ensures
            r.pattern == pattern,
            r.replacement == replacement,
    {
        Self { pattern, replacement }
    }

    /// Reads a configuration from a JSON document with the string members
    /// `pattern` and `replacement`; anything else is rejected.
    pub fn from_slice(data: &[u8]) -> (r: LinderaResult<Self>)
        ensures
            r matches Err(e) ==> e.kind == LinderaErrorKind::Deserialize,
    {
        let v = vstd::slice::slice_to_vec(data);
        let parsed = match crate::json::parse_json(&v) {
            Ok(p) => p,
            Err(e) => {
                return Err(e);
            },
        };
        match parsed {
            crate::json::JsonValue::Obj(members) => {
                let pattern = match crate::json::obj_get_string(&members, "pattern") {
                    Some(p) => p,
                    None => {
                        return Err(crate::json::deserialize_error());
                    },
                };
                let replacement = match crate::json::obj_get_string(&members, "replacement") {
                    Some(p) => p,
                    None => {
                        return Err(crate::json::deserialize_error());
                    },
                };
                Ok(Self { pattern, replacement })
            },
            _ => Err(crate::json::deserialize_error()),
        }
    }
}

#[verifier::external_type_specification]
#[verifier::external_body]
pub struct ExRegex(regex::Regex);

/// Relies on `regex::Regex::new`: it compiles the pattern, succeeding
/// exactly on the patterns the regex crate accepts, a function of the
/// pattern alone.
#[verifier::external_body]
fn regex_new(pattern: &str) -> (r: Result<regex::Regex, LinderaError>)
    ensures
        r is Ok <==> regex_compiles(pattern@),
        r matches Err(e) ==> e.kind == LinderaErrorKind::Args,
{
    match regex::Regex::new(pattern) {
        Ok(re) => Ok(re),
        Err(err) => Err(LinderaErrorKind::Args.with_error(format!("{}", err))),
    }
}

/// A character filter that replaces every match of a regular expression with
/// a fixed string.
pub struct RegexCharacterFilter {
    config: RegexCharacterFilterConfig,
    regex: regex::Regex,
}

impl RegexCharacterFilter {
    /// The replacement text that this filter inserts for each match.
    pub closed spec fn replacement_view(&self) -> Seq<char> {
        self.config.replacement@
    }

    /// The pattern that this filter searches for.
    pub closed spec fn pattern_view(&self) -> Seq<char> {
        self.config.pattern@
    }

    /// Relies on `regex::Regex::find_iter` on the regex that `new` compiled
    /// from `config.pattern` (only `new` pairs the two fields): the ranges
    /// are the pattern's successive non-overlapping matches, a function of
    /// pattern and haystack alone, each within the haystack on UTF-8
    /// character boundaries, sorted and disjoint.
    #[verifier::external_body]
    fn find_match_ranges(&self, text: &str) -> (r: Vec<(usize, usize)>)
        ensures
            r@ == regex_matches_of(self.config.pattern@, text@),
            match_ranges_wf(r@, encode_utf8(text@)),
    {
        self.regex.find_iter(text).map(|m| (m.start(), m.end())).collect()
    }

    /// Compiles the configured pattern; succeeds exactly when the pattern is
    /// a valid regular expression.
    pub fn new(config: RegexCharacterFilterConfig) -> (r: LinderaResult<Self>)
        ensures
            r is Ok <==> regex_compiles(config.pattern@),
            match r {
                Ok(f) => f.replacement_view() == config.replacement@ && f.pattern_view()
                    == config.pattern@,
                Err(e) => e.kind == LinderaErrorKind::Args,
            },
    {
        match regex_new(config.pattern.as_str()) {
            Ok(re) => Ok(Self { config, regex: re }),
            Err(e) => Err(e),
        }
    }

    /// Reads the configuration from a JSON document and compiles it.
    pub fn from_slice(data: &[u8]) -> (r: LinderaResult<Self>)
        ensures
            r matches Err(e) ==> e.kind == LinderaErrorKind::Deserialize || e.kind
                == LinderaErrorKind::Args,
    {
        let config = match RegexCharacterFilterConfig::from_slice(data) {
            Ok(c) => c,
            Err(e) => {
                return Err(e);
            },
        };
        Self::new(config)
    }

    /// Replaces every non-empty match of the pattern in `text` and returns
    /// the diff table of the rewrite: the new text is exactly the old one
    /// with each such match replaced by the replacement bytes, and the table
    /// records exactly those replacements, as `table_of` says, mapping every
    /// position of the new text back into the old one.  A match of the empty
    /// string replaces nothing, and the replacement is inserted as it
    /// stands.  The only failure is a rewritten text too long for the diff
    /// representation, in which case the text is left unchanged.
    #[verifier::rlimit(60)]
    pub fn apply(&self, text: &mut String) -> (r: LinderaResult<(Vec<usize>, Vec<i64>)>)
        requires
            encode_utf8(old(text)@).len() <= i64::MAX,
        ensures
            ({
                let ob = encode_utf8(old(text)@);
                let rb = encode_utf8(self.replacement_view());
                let kept = nonempty_ranges(regex_matches_of(self.pattern_view(), old(text)@));
                &&& match_ranges_wf(regex_matches_of(self.pattern_view(), old(text)@), ob)
                &&& (r is Ok <==> splice_from(ob, kept, rb, 0).len() <= i64::MAX)
                &&& match r {
                    Ok(t) => {
                        &&& encode_utf8(final(text)@) == splice_from(ob, kept, rb, 0)
                        &&& (int_offsets(t.0@), int_diffs(t.1@)) == table_of(
                            kept,
                            rb.len() as int,
                        )
                        &&& table_wf(t.0@, t.1@)
                        &&& table_maps_back(
                            t.0@,
                            t.1@,
                            encode_utf8(final(text)@).len() as int,
                            ob.len() as int,
                        )
                    },
                    Err(_) => final(text)@ == old(text)@,
                }
            }),
    {
        let ghost tb: Seq<u8> = encode_utf8(text@);
        let ranges_all = self.find_match_ranges(text.as_str());
        // Matches of the empty string replace nothing; drop them.
        let mut ranges: Vec<(usize, usize)> = Vec::new();
        let ghost mut j_last: int = 0;
        let mut idx: usize = 0;
        while idx < ranges_all.len()
            invariant
                match_ranges_wf(ranges_all@, tb),
                idx <= ranges_all@.len(),
                match_ranges_wf(ranges@, tb),
                ranges@ == nonempty_prefix(ranges_all@, idx as int),
                forall|a: int| 0 <= a < ranges@.len() ==> (#[trigger] ranges@[a]).0 < ranges@[a].1,
                ranges@.len() > 0 ==> 0 <= j_last < idx && ranges@.last() == ranges_all@[j_last],
            decreases ranges_all@.len() - idx,
        {
            let (s, e) = ranges_all[idx];
            if s < e {
                proof {
                    if ranges@.len() > 0 && j_last + 1 < idx + 1 {
                        lemma_ranges_pairwise(ranges_all@, j_last, idx as int);
                    }
                }
                let ghost prev = ranges@;
                ranges.push((s, e));
                proof {
                    j_last = idx as int;
                    assert forall|a: int| 0 <= a && a + 1 < ranges@.len() implies (
                    #[trigger] ranges@[a]).1 <= ranges@[a + 1].0 by {
                        if a + 2 < ranges@.len() {
                            assert(ranges@[a] == prev[a] && ranges@[a + 1] == prev[a + 1]);
                        }
                    }
                }
            }
            idx = idx + 1;
        }
        let text_bytes = text.as_str().as_bytes_vec();
        let rep_bytes = self.config.replacement.as_str().as_bytes_vec();
        let new_bytes = splice_bytes(&text_bytes, &ranges, &rep_bytes);
        if new_bytes.len() as u64 > i64::MAX as u64 {
            return Err(
                LinderaErrorKind::Args.with_error(
                    String::from_str("replacement result too long for offset correction"),
                ),
            );
        }
        proof {
            lemma_splice_len(text_bytes@, ranges@, rep_bytes@, 0);
            broadcast use vstd::utf8::is_char_boundary_start_end_of_seq;
            broadcast use vstd::utf8::encode_utf8_valid_utf8;

            lemma_splice_valid(text_bytes@, ranges@, rep_bytes@, 0);
        }
        let (offsets, diffs) = build_table(
            &ranges,
            rep_bytes.len(),
            text_bytes.len(),
            new_bytes.len(),
        );
        let ghost new_bytes_view = new_bytes@;
        let new_text = match string_from_utf8(new_bytes) {
            Ok(s) => s,
            Err(e) => {
                proof {
                    assert(false);
                }
                return Err(e);
            },
        };
        let ghost old_view = text@;
        *text = new_text;
        proof {
            assert(ranges@ == nonempty_ranges(regex_matches_of(self.pattern_view(), old_view)));
            assert(table_wf(offsets@, diffs@));
            assert(encode_utf8(text@) == new_bytes_view);
            assert(encode_utf8(old_view) == text_bytes@);
            assert(new_bytes_view.len() <= i64::MAX);
            assert(table_maps_back(
                offsets@,
                diffs@,
                encode_utf8(text@).len() as int,
                encode_utf8(old(text)@).len() as int,
            ));
        }
        Ok((offsets, diffs))
    }
}

} // verus!
