//! Lattice construction and minimum-cost path search.
//!
//! The lattice is an implicit DAG over the character positions of the text.
//! Positions are processed strictly left to right from a virtual beginning
//! node; at each reachable position every dictionary match and every
//! synthesized unknown-word candidate extends the path, and each end position
//! keeps the single cheapest node that reached it, ties going to the first
//! candidate seen: the longer match first, then dictionary before unknown
//! candidates in enumeration order.  Walking the back pointers from the end
//! yields the segmentation.

use vstd::prelude::*;

use crate::character_definition::CategoryId;
use crate::dictionary::{Dictionary, UserDictionary};
use crate::word_entry::{WordEntry, WordId, UNKNOWN_WORD_INDEX};

verus! {

/// The cost heuristics of the decompose mode: long candidates are penalized
/// so that compounds split into their parts.
#[derive(Clone, Copy, Debug, PartialEq, Eq, Structural)]
pub struct Penalty {
    pub kanji_penalty_length_threshold: usize,
    pub kanji_penalty_length_penalty: i32,
    pub other_penalty_length_threshold: usize,
    pub other_penalty_length_penalty: i32,
}

impl Penalty {
    /// The stock penalty parameters.
    pub fn normal() -> (r: Penalty)
        ensures
            r.kanji_penalty_length_threshold == 2,
            r.kanji_penalty_length_penalty == 3000,
            r.other_penalty_length_threshold == 7,
            r.other_penalty_length_penalty == 1700,
    {
        Penalty {
            kanji_penalty_length_threshold: 2,
            kanji_penalty_length_penalty: 3000,
            other_penalty_length_threshold: 7,
            other_penalty_length_penalty: 1700,
        }
    }
}

/// The tokenization mode: plain minimum-cost segmentation, or the same
/// search with length penalties that favour decomposing compounds.
#[derive(Clone, Copy, Debug, PartialEq, Eq, Structural)]
pub enum Mode {
    Normal,
    Decompose(Penalty),
}

/// Whether a character lies in the unified CJK ideograph block.
pub open spec fn is_kanji(c: char) -> bool {
    0x4E00 <= c as u32 <= 0x9FFF
}

/// A value clamped into the signed 64-bit range; path costs saturate instead
/// of wrapping.
pub open spec fn clamp_i64(v: int) -> int {
    if v < i64::MIN as int {
        i64::MIN as int
    } else if v > i64::MAX as int {
        i64::MAX as int
    } else {
        v
    }
}

/// The mode's extra cost for a candidate spanning `chars[start .. start +
/// len]`.
pub open spec fn penalty_spec(mode: Mode, chars: Seq<char>, start: int, len: int) -> int {
    match mode {
        Mode::Normal => 0,
        Mode::Decompose(p) => {
            if len <= p.kanji_penalty_length_threshold {
                0
            } else if forall|i: int| start <= i < start + len ==> is_kanji(#[trigger] chars[i]) {
                (len - p.kanji_penalty_length_threshold) * p.kanji_penalty_length_penalty
            } else if len > p.other_penalty_length_threshold {
                (len - p.other_penalty_length_threshold) * p.other_penalty_length_penalty
            } else {
                0
            }
        },
    }
}

/// One candidate word at a position: how many characters it spans, the key
/// it will carry, and its cost record.
#[derive(Clone, Copy, Debug)]
pub struct Candidate {
    pub char_len: usize,
    pub word_id: WordId,
    pub entry: WordEntry,
}

/// One finalized lattice node: the cheapest way found to end a word at this
/// position.  `start` is the back pointer.
#[derive(Clone, Copy, Debug)]
pub struct Node {
    pub cost: i64,
    pub start: usize,
    pub word_id: WordId,
    pub left_id: u16,
    pub right_id: u16,
}

/// Every candidate spans at least one character, stays within the text, and
/// carries context ids that index within the matrix.
pub open spec fn candidates_ok(
    cands: Seq<Candidate>,
    dict: Dictionary,
    p: int,
    char_count: int,
) -> bool {
    forall|i: int|
        0 <= i < cands.len() ==> {
            &&& 1 <= (#[trigger] cands[i]).char_len
            &&& p + cands[i].char_len <= char_count
            &&& cands[i].entry.right_id < dict.cost_matrix.forward_size
            &&& cands[i].entry.left_id < dict.cost_matrix.backward_size
        }
}

/// The mode's extra cost, computed.
fn penalty_cost(mode: &Mode, chars: &Vec<char>, start: usize, len: usize) -> (r: i64)
    requires
        start + len <= chars@.len(),
    ensures
        r == clamp_i64(penalty_spec(*mode, chars@, start as int, len as int)),
{
    let n = chars.len();
    match mode {
        Mode::Normal => 0i64,
        Mode::Decompose(p) => {
            if len <= p.kanji_penalty_length_threshold {
                0i64
            } else {
                let mut kanji_only = true;
                let mut i: usize = start;
                while i < start + len
                    invariant
                        start <= i <= start + len,
                        start + len <= chars@.len() <= usize::MAX,
                        kanji_only == (forall|j: int|
                            start <= j < i ==> is_kanji(#[trigger] chars@[j])),
                    decreases start + len - i,
                {
                    let u = chars[i] as u32;
                    if !(0x4E00 <= u && u <= 0x9FFF) {
                        proof {
                            assert(!is_kanji(chars@[i as int]));
                        }
                        kanji_only = false;
                        i = start + len;
                    } else {
                        proof {
                            assert(is_kanji(chars@[i as int]));
                        }
                        i = i + 1;
                    }
                }
                if kanji_only {
                    clamp_exec(mul_extra(
                        len - p.kanji_penalty_length_threshold,
                        p.kanji_penalty_length_penalty,
                    ))
                } else if len > p.other_penalty_length_threshold {
                    clamp_exec(mul_extra(
                        len - p.other_penalty_length_threshold,
                        p.other_penalty_length_penalty,
                    ))
                } else {
                    0i64
                }
            }
        },
    }
}

/// The product of a length and a per-length penalty.
fn mul_extra(d: usize, pen: i32) -> (r: i128)
    ensures
        r == d as int * pen as int,
{
    proof {
        assert(d as i128 * (pen as i128) <= 0xffff_ffff_ffff_ffffi128 * 0x8000_0000i128
            && d as i128 * (pen as i128) >= -(0xffff_ffff_ffff_ffffi128 * 0x8000_0000i128))
            by (nonlinear_arith)
            requires
                0 <= d as i128 <= 0xffff_ffff_ffff_ffffi128,
                -0x8000_0000i128 <= pen as i128 <= 0x7fff_ffffi128,
        ;
    }
    (d as i128) * (pen as i128)
}

/// Clamps into the 64-bit range.
fn clamp_exec(v: i128) -> (r: i64)
    ensures
        r == clamp_i64(v as int),
{
    if v < i64::MIN as i128 {
        i64::MIN
    } else if v > i64::MAX as i128 {
        i64::MAX
    } else {
        v as i64
    }
}

/// The candidates that one dictionary's prefix matches contribute at
/// character position `p`, taking the first `i` matches in order: a match
/// counts when its word id points into the entry array and its byte length
/// covers whole characters.
pub open spec fn match_candidates(
    matches: Seq<(usize, u32)>,
    entries: Seq<WordEntry>,
    is_system: bool,
    chars: Seq<char>,
    p: int,
    i: int,
) -> Seq<Candidate>
    decreases i,
{
    if i <= 0 {
        Seq::empty()
    } else {
        let prev = match_candidates(matches, entries, is_system, chars, p, i - 1);
        let m = matches[i - 1];
        if m.1 < entries.len() {
            match span_of(chars, p, m.0 as int) {
                Some(t) => prev.push(
                    Candidate {
                        char_len: t as usize,
                        word_id: WordId(m.1, is_system),
                        entry: entries[m.1 as int],
                    },
                ),
                None => prev,
            }
        } else {
            prev
        }
    }
}

/// The number of consecutive characters from `q` on that carry the category.
pub open spec fn category_run(
    defs: crate::character_definition::CharacterDefinitions,
    chars: Seq<char>,
    cat: u32,
    q: int,
) -> int
    decreases chars.len() - q,
{
    if q < 0 || q >= chars.len() {
        0
    } else if defs.categories_of(chars[q]).contains(cat) {
        1 + category_run(defs, chars, cat, q + 1)
    } else {
        0
    }
}

/// The character span of an unknown-word candidate of this category at `p`:
/// one character, or, for a grouping category, the whole run of characters
/// sharing the category, capped at the category's limit.
pub open spec fn unknown_span(dict: Dictionary, chars: Seq<char>, p: int, cat: u32) -> int {
    let data = dict.char_definitions.category_definitions@[cat as int];
    if data.group {
        let merged = 1 + category_run(dict.char_definitions, chars, cat, p + 1);
        if data.max_length > 0 && merged > data.max_length {
            data.max_length as int
        } else {
            merged
        }
    } else {
        1
    }
}

/// The unknown-word candidates of one category: one per referenced word id,
/// over the first `v` references.
pub open spec fn reference_candidates(
    dict: Dictionary,
    chars: Seq<char>,
    p: int,
    cat: u32,
    refs: Seq<u32>,
    v: int,
) -> Seq<Candidate>
    decreases v,
{
    if v <= 0 {
        Seq::empty()
    } else {
        reference_candidates(dict, chars, p, cat, refs, v - 1).push(
            Candidate {
                char_len: unknown_span(dict, chars, p, cat) as usize,
                word_id: WordId(UNKNOWN_WORD_INDEX, true),
                entry: dict.unknown_dictionary.costs@[refs[v - 1] as int],
            },
        )
    }
}

/// The unknown-word candidates of the first `k` categories of the character
/// at `p`: a category contributes when its `invoke` flag is set or when no
/// dictionary match exists.
pub open spec fn unknown_candidates(
    dict: Dictionary,
    chars: Seq<char>,
    p: int,
    cats: Seq<u32>,
    has_match: bool,
    k: int,
) -> Seq<Candidate>
    decreases k,
{
    if k <= 0 {
        Seq::empty()
    } else {
        let prev = unknown_candidates(dict, chars, p, cats, has_match, k - 1);
        let cat = cats[k - 1];
        let data = dict.char_definitions.category_definitions@[cat as int];
        if data.invoke || !has_match {
            prev + reference_candidates(
                dict,
                chars,
                p,
                cat,
                dict.unknown_dictionary.category_references@[cat as int]@,
                dict.unknown_dictionary.category_references@[cat as int]@.len() as int,
            )
        } else {
            prev
        }
    }
}

/// Every candidate at character position `p`, in enumeration order: system
/// dictionary matches, then user dictionary matches, then unknown-word
/// synthesis.
#[verifier::opaque]
pub open spec fn spec_candidates(
    dict: Dictionary,
    user: Option<UserDictionary>,
    chars: Seq<char>,
    p: int,
) -> Seq<Candidate> {
    let bytes = vstd::utf8::encode_utf8(chars);
    let start = crate::text::blen(chars.take(p));
    let sys_matches = crate::prefix_dict::prefix_matches(dict.dict.keys@, bytes, start);
    let sys = match_candidates(sys_matches, dict.entries@, true, chars, p, sys_matches.len() as int);
    let both = match user {
        Some(u) => {
            let user_matches = crate::prefix_dict::prefix_matches(u.dict.keys@, bytes, start);
            sys + match_candidates(
                user_matches,
                u.entries@,
                false,
                chars,
                p,
                user_matches.len() as int,
            )
        },
        None => sys,
    };
    let cats = dict.char_definitions.categories_of(chars[p]);
    both + unknown_candidates(dict, chars, p, cats, both.len() > 0, cats.len() as int)
}

/// A run count is never negative.
proof fn lemma_category_run_nonneg(
    defs: crate::character_definition::CharacterDefinitions,
    chars: Seq<char>,
    cat: u32,
    q: int,
)
    ensures
        category_run(defs, chars, cat, q) >= 0,
    decreases chars.len() - q,
{
    if 0 <= q < chars.len() {
        lemma_category_run_nonneg(defs, chars, cat, q + 1);
    }
}

/// A run of category members, closed off by a non-member or the text's end,
/// is exactly what `category_run` counts; an open run bounds it from below.
proof fn lemma_category_run(
    defs: crate::character_definition::CharacterDefinitions,
    chars: Seq<char>,
    cat: u32,
    a: int,
    b: int,
)
    requires
        0 <= a <= b <= chars.len(),
        forall|u: int| a <= u < b ==> defs.categories_of(#[trigger] chars[u]).contains(cat),
    ensures
        category_run(defs, chars, cat, a) >= b - a,
        b == chars.len() || !defs.categories_of(chars[b]).contains(cat) ==> category_run(
            defs,
            chars,
            cat,
            a,
        ) == b - a,
    decreases b - a,
{
    if a < b {
        assert(defs.categories_of(chars[a]).contains(cat));
        lemma_category_run(defs, chars, cat, a + 1, b);
    } else {
        lemma_category_run_nonneg(defs, chars, cat, a);
    }
}

/// A user dictionary argument as a value, for the candidate model.
pub open spec fn user_val(user: Option<&UserDictionary>) -> Option<UserDictionary> {
    match user {
        Some(u) => Some(*u),
        None => None,
    }
}

/// Collects every candidate at character position `p`, exactly as
/// `spec_candidates` says: system dictionary matches first, then user
/// dictionary matches, then the synthesized unknown words of every category
/// of the character at `p` whose `invoke` flag is set, or of every category
/// when no dictionary match exists.  The fallback guarantees at least one
/// candidate at every position, so the lattice never dead-ends.
#[verifier::rlimit(90)]
pub(crate) fn candidates_at(
    dict: &Dictionary,
    user: Option<&UserDictionary>,
    chars: &Vec<char>,
    bytes: &Vec<u8>,
    offs: &Vec<usize>,
    p: usize,
) -> (r: Vec<Candidate>)
    requires
        dict.wf(),
        match user {
            Some(u) => u.wf(dict.cost_matrix),
            None => true,
        },
        p < chars@.len(),
        offs@.len() == chars@.len() + 1,
        forall|i: int| 0 <= i <= chars@.len() ==> #[trigger] offs@[i] == crate::text::blen(
            chars@.take(i),
        ),
        bytes@ == vstd::utf8::encode_utf8(chars@),
    ensures
        r@.len() >= 1,
        candidates_ok(r@, *dict, p as int, chars@.len() as int),
        r@ == spec_candidates(*dict, user_val(user), chars@, p as int),
{
    let char_count = chars.len();
    let mut out: Vec<Candidate> = Vec::new();
    let start_byte = offs[p];
    proof {
        crate::text::lemma_blen_take_le(chars@, p as int);
        assert(chars@.take(chars@.len() as int) =~= chars@);
        assert(offs@[chars@.len() as int] == bytes@.len());
    }
    // System dictionary matches.
    let sys_matches = dict.dict.prefix(bytes, start_byte);
    let mut i: usize = 0;
    while i < sys_matches.len()
        invariant
            i <= sys_matches@.len(),
            dict.wf(),
            p < chars@.len(),
            offs@.len() == chars@.len() + 1,
            forall|t: int| 0 <= t <= chars@.len() ==> #[trigger] offs@[t] == crate::text::blen(
                chars@.take(t),
            ),
            candidates_ok(out@, *dict, p as int, chars@.len() as int),
            out@ == match_candidates(
                sys_matches@,
                dict.entries@,
                true,
                chars@,
                p as int,
                i as int,
            ),
        decreases sys_matches@.len() - i,
    {
        let (match_bytes, id) = sys_matches[i];
        if (id as usize) < dict.entries.len() {
            if let Some(t) = char_span(chars, offs, p, match_bytes) {
                let entry = dict.entries[id as usize];
                proof {
                    assert((t as int) as usize == t);
                }
                out.push(Candidate { char_len: t, word_id: WordId(id, true), entry });
            }
        }
        i = i + 1;
    }
    let ghost sys_cands = out@;
    // User dictionary matches.
    if let Some(u) = user {
        let user_matches = u.dict.prefix(bytes, start_byte);
        let mut i2: usize = 0;
        while i2 < user_matches.len()
            invariant
                i2 <= user_matches@.len(),
                dict.wf(),
                match user {
                    Some(uu) => uu.wf(dict.cost_matrix) && uu == u,
                    None => false,
                },
                p < chars@.len(),
                offs@.len() == chars@.len() + 1,
                forall|t: int| 0 <= t <= chars@.len() ==> #[trigger] offs@[t]
                    == crate::text::blen(chars@.take(t)),
                candidates_ok(out@, *dict, p as int, chars@.len() as int),
                out@ == sys_cands + match_candidates(
                    user_matches@,
                    u.entries@,
                    false,
                    chars@,
                    p as int,
                    i2 as int,
                ),
            decreases user_matches@.len() - i2,
        {
            let (match_bytes, id) = user_matches[i2];
            if (id as usize) < u.entries.len() {
                if let Some(t) = char_span(chars, offs, p, match_bytes) {
                    let entry = u.entries[id as usize];
                    proof {
                        assert((t as int) as usize == t);
                    }
                    let ghost out_prev = out@;
                    out.push(Candidate { char_len: t, word_id: WordId(id, false), entry });
                    proof {
                        assert(out@ =~= sys_cands + match_candidates(
                            user_matches@,
                            u.entries@,
                            false,
                            chars@,
                            p as int,
                            i2 + 1,
                        ));
                    }
                }
            }
            i2 = i2 + 1;
        }
    }
    let ghost both_cands = out@;
    let has_match = out.len() > 0;
    // Unknown-word synthesis.
    let cats = dict.char_definitions.lookup_categories(chars[p]);
    let ncats = cats.len();
    let mut k: usize = 0;
    while k < ncats
        invariant
            k <= ncats,
            ncats == cats@.len(),
            ncats >= 1,
            dict.wf(),
            p < chars@.len(),
            char_count == chars@.len(),
            chars@.len() <= usize::MAX,
            cats@ == dict.char_definitions.categories_of(chars@[p as int]),
            forall|t: int| 0 <= t < cats@.len() ==> (#[trigger] cats@[t])
                < dict.char_definitions.category_definitions@.len(),
            candidates_ok(out@, *dict, p as int, chars@.len() as int),
            has_match == (both_cands.len() > 0),
            out@ == both_cands + unknown_candidates(
                *dict,
                chars@,
                p as int,
                cats@,
                has_match,
                k as int,
            ),
            has_match ==> out@.len() >= 1,
            !has_match && k >= 1 ==> out@.len() >= 1,
        decreases ncats - k,
    {
        let cat = cats[k];
        let data = dict.char_definitions.lookup_definition(cat as usize);
        if data.invoke || !has_match {
            let ghost uspan = unknown_span(*dict, chars@, p as int, cat);
            let mut span: usize = 1;
            if data.group {
                // Greedily merge the run of characters sharing this
                // category, up to the category's cap.
                let mut q: usize = p + 1;
                let mut done = false;
                while q < char_count && !done
                    invariant
                        p < q <= char_count,
                        char_count == chars@.len(),
                        span == q - p,
                        dict.wf(),
                        cat < dict.char_definitions.category_definitions@.len(),
                        data == dict.char_definitions.category_definitions@[cat as int],
                        data.group,
                        uspan == unknown_span(*dict, chars@, p as int, cat),
                        forall|u: int|
                            p + 1 <= u < q ==> dict.char_definitions.categories_of(
                                #[trigger] chars@[u],
                            ).contains(cat),
                        !done ==> data.max_length == 0 || span <= data.max_length,
                        done ==> span == uspan,
                    decreases char_count - q, !done as int,
                {
                    if data.max_length > 0 && span >= data.max_length as usize {
                        proof {
                            lemma_category_run(
                                dict.char_definitions,
                                chars@,
                                cat,
                                p + 1,
                                q as int,
                            );
                        }
                        done = true;
                    } else {
                        let qcats = dict.char_definitions.lookup_categories(chars[q]);
                        let mut seen = false;
                        let mut w: usize = 0;
                        while w < qcats.len()
                            invariant
                                w <= qcats@.len(),
                                seen ==> qcats@.contains(cat),
                                !seen ==> forall|x: int| 0 <= x < w ==> qcats@[x] != cat,
                            decreases qcats@.len() - w,
                        {
                            if qcats[w] == cat {
                                proof {
                                    assert(qcats@[w as int] == cat);
                                }
                                seen = true;
                                w = qcats.len();
                            } else {
                                w = w + 1;
                            }
                        }
                        proof {
                            if !seen {
                                assert(!qcats@.contains(cat));
                            }
                        }
                        if !seen {
                            proof {
                                lemma_category_run(
                                    dict.char_definitions,
                                    chars@,
                                    cat,
                                    p + 1,
                                    q as int,
                                );
                            }
                            done = true;
                        } else {
                            span = span + 1;
                            q = q + 1;
                        }
                    }
                }
                proof {
                    if !done {
                        lemma_category_run(
                            dict.char_definitions,
                            chars@,
                            cat,
                            p + 1,
                            char_count as int,
                        );
                    }
                    assert(span == uspan);
                }
            } else {
                proof {
                    assert(uspan == 1);
                }
            }
            let refs = dict.unknown_dictionary.lookup_word_ids(CategoryId(cat as usize));
            let nrefs = refs.len();
            let ghost out_before = out@;
            let mut v: usize = 0;
            while v < nrefs
                invariant
                    v <= nrefs,
                    nrefs == refs@.len(),
                    nrefs >= 1,
                    dict.wf(),
                    p < chars@.len(),
                    1 <= span,
                    p + span <= chars@.len(),
                    span == unknown_span(*dict, chars@, p as int, cat),
                    refs@ == dict.unknown_dictionary.category_references@[cat as int]@,
                    cat < dict.unknown_dictionary.category_references@.len(),
                    candidates_ok(out@, *dict, p as int, chars@.len() as int),
                    out@ == out_before + reference_candidates(
                        *dict,
                        chars@,
                        p as int,
                        cat,
                        refs@,
                        v as int,
                    ),
                    out@.len() >= out_before.len(),
                    v >= 1 ==> out@.len() >= 1,
                decreases nrefs - v,
            {
                let uid = refs[v];
                let entry = dict.unknown_dictionary.word_entry(uid);
                out.push(
                    Candidate { char_len: span, word_id: WordId(UNKNOWN_WORD_INDEX, true), entry },
                );
                proof {
                    assert(out@ =~= out_before + reference_candidates(
                        *dict,
                        chars@,
                        p as int,
                        cat,
                        refs@,
                        v + 1,
                    ));
                }
                v = v + 1;
            }
            proof {
                assert(out@ =~= both_cands + unknown_candidates(
                    *dict,
                    chars@,
                    p as int,
                    cats@,
                    has_match,
                    k + 1,
                ));
            }
        }
        k = k + 1;
    }
    proof {
        reveal(spec_candidates);
        assert(start_byte == crate::text::blen(chars@.take(p as int)));
        assert(out@ =~= spec_candidates(*dict, user_val(user), chars@, p as int));
    }
    out
}

/// The state after one candidate is weighed at position `p`: the candidate's
/// end keeps the cheaper of its standing node and the new path through
/// `node_p`, first come on a tie.
#[verifier::opaque]
pub open spec fn relax_one(
    st: Seq<Option<Node>>,
    p: int,
    node_p: Node,
    cand: Candidate,
    matrix: crate::connection::ConnectionCostMatrix,
    mode: Mode,
    chars: Seq<char>,
) -> Seq<Option<Node>> {
    let e = p + cand.char_len;
    let pen = clamp_i64(penalty_spec(mode, chars, p, cand.char_len as int));
    let cost = clamp_i64(
        node_p.cost + matrix.cost_spec(node_p.right_id as int, cand.entry.left_id as int)
            + cand.entry.word_cost + pen,
    );
    let better = match st[e] {
        Some(existing) => cost < existing.cost,
        None => true,
    };
    if better {
        st.update(
            e,
            Some(
                Node {
                    cost: cost as i64,
                    start: p as usize,
                    word_id: cand.word_id,
                    left_id: cand.entry.left_id,
                    right_id: cand.entry.right_id,
                },
            ),
        )
    } else {
        st
    }
}

/// The state after the first `c` candidates at `p` are weighed, in order.
#[verifier::opaque]
pub open spec fn relax_all(
    st: Seq<Option<Node>>,
    p: int,
    node_p: Node,
    cands: Seq<Candidate>,
    matrix: crate::connection::ConnectionCostMatrix,
    mode: Mode,
    chars: Seq<char>,
    c: int,
) -> Seq<Option<Node>>
    decreases c,
{
    if c <= 0 {
        st
    } else {
        relax_one(
            relax_all(st, p, node_p, cands, matrix, mode, chars, c - 1),
            p,
            node_p,
            cands[c - 1],
            matrix,
            mode,
            chars,
        )
    }
}

/// The starting state: the virtual beginning node at position 0, every
/// other position uncommitted.
pub open spec fn dp_init(m: int) -> Seq<Option<Node>> {
    Seq::new(
        (m + 1) as nat,
        |i: int|
            if i == 0 {
                Some(Node { cost: 0, start: 0, word_id: WordId(0, true), left_id: 0, right_id: 0 })
            } else {
                None
            },
    )
}

/// The state after the first `p` positions are processed left to right: a
/// reachable position relaxes all its candidates, an unreachable one
/// changes nothing.
#[verifier::opaque]
pub open spec fn dp_upto(
    dict: Dictionary,
    user: Option<UserDictionary>,
    mode: Mode,
    chars: Seq<char>,
    p: int,
) -> Seq<Option<Node>>
    decreases p,
{
    if p <= 0 {
        dp_init(chars.len() as int)
    } else {
        let st = dp_upto(dict, user, mode, chars, p - 1);
        match st[p - 1] {
            Some(n) => {
                let cands = spec_candidates(dict, user, chars, p - 1);
                relax_all(st, p - 1, n, cands, dict.cost_matrix, mode, chars, cands.len() as int)
            },
            None => st,
        }
    }
}

/// The finished lattice of a text.
pub open spec fn spec_lattice(
    dict: Dictionary,
    user: Option<UserDictionary>,
    mode: Mode,
    chars: Seq<char>,
) -> Seq<Option<Node>> {
    dp_upto(dict, user, mode, chars, chars.len() as int)
}

/// The token spans read off the lattice by walking back pointers from `e`,
/// in reading order.
#[verifier::opaque]
pub open spec fn spec_backtrack(st: Seq<Option<Node>>, e: int) -> Seq<(usize, usize, WordId)>
    decreases e,
{
    if e <= 0 {
        Seq::empty()
    } else {
        match st[e] {
            Some(n) => {
                if n.start < e {
                    spec_backtrack(st, n.start as int).push((n.start, e as usize, n.word_id))
                } else {
                    Seq::empty()
                }
            },
            None => Seq::empty(),
        }
    }
}

/// The nodes committed so far are sound: the virtual beginning node stands
/// at position 0, and every later node spans at least one character back to
/// an earlier committed node and carries a context id that indexes within
/// the matrix.
pub open spec fn nodes_ok(st: Seq<Option<Node>>, dict: Dictionary) -> bool {
    &&& st.len() >= 1
    &&& st[0] is Some
    &&& st[0].unwrap().start == 0
    &&& st[0].unwrap().right_id < dict.cost_matrix.forward_size
    &&& forall|e: int|
        1 <= e < st.len() && (#[trigger] st[e]) is Some ==> {
            &&& st[e].unwrap().start < e
            &&& st[st[e].unwrap().start as int] is Some
            &&& st[e].unwrap().right_id < dict.cost_matrix.forward_size
        }
}

/// From any committed position the committed successors reach the end.
proof fn lemma_reachable(st: Seq<Option<Node>>, q: int, m: int)
    requires
        st.len() == m + 1,
        0 <= q <= m,
        st[q] is Some,
        forall|a: int|
            0 <= a < m && (#[trigger] st[a]) is Some ==> exists|e: int|
                a < e <= m && (#[trigger] st[e]) is Some,
    ensures
        st[m] is Some,
    decreases m - q,
{
    if q < m {
        let e = choose|e: int| q < e <= m && (#[trigger] st[e]) is Some;
        lemma_reachable(st, e, m);
    }
}

/// Weighs one candidate: its end position keeps the cheaper of its
/// standing node and the new path through `node_p`, exactly as `relax_one`
/// says; nothing else changes, and soundness of the committed nodes is
/// kept.
#[verifier::rlimit(60)]
fn relax_candidate(
    dict: &Dictionary,
    mode: &Mode,
    chars: &Vec<char>,
    st: &mut Vec<Option<Node>>,
    p: usize,
    node_p: Node,
    cand: Candidate,
)
    requires
        dict.wf(),
        p < chars@.len(),
        old(st)@.len() == chars@.len() + 1,
        1 <= cand.char_len,
        p + cand.char_len <= chars@.len(),
        cand.entry.right_id < dict.cost_matrix.forward_size,
        cand.entry.left_id < dict.cost_matrix.backward_size,
        node_p.right_id < dict.cost_matrix.forward_size,
        nodes_ok(old(st)@, *dict),
        old(st)@[p as int] is Some,
    ensures
        final(st)@.len() == old(st)@.len(),
        final(st)@ == relax_one(
            old(st)@,
            p as int,
            node_p,
            cand,
            dict.cost_matrix,
            *mode,
            chars@,
        ),
        nodes_ok(final(st)@, *dict),
        forall|a: int|
            0 <= a < old(st)@.len() && (#[trigger] old(st)@[a]) is Some ==> final(st)@[a] is Some,
        forall|a: int| 0 <= a <= p ==> #[trigger] final(st)@[a] == old(st)@[a],
        final(st)@[p + cand.char_len] is Some,
{
    let m = chars.len();
    let e = p + cand.char_len;
    let conn = dict.cost_matrix.cost(node_p.right_id, cand.entry.left_id);
    let pen = penalty_cost(mode, chars, p, cand.char_len);
    let total: i128 = node_p.cost as i128 + conn as i128 + cand.entry.word_cost as i128
        + pen as i128;
    let new_cost = clamp_exec(total);
    let better = match &st[e] {
        Some(existing) => new_cost < existing.cost,
        None => true,
    };
    let ghost st_before = st@;
    proof {
        assert(total as int == node_p.cost + dict.cost_matrix.cost_spec(
            node_p.right_id as int,
            cand.entry.left_id as int,
        ) + cand.entry.word_cost + clamp_i64(
            penalty_spec(*mode, chars@, p as int, cand.char_len as int),
        ));
    }
    if better {
        st.set(
            e,
            Some(
                Node {
                    cost: new_cost,
                    start: p,
                    word_id: cand.word_id,
                    left_id: cand.entry.left_id,
                    right_id: cand.entry.right_id,
                },
            ),
        );
        proof {
            assert(st@ =~= st_before.update(e as int, st@[e as int]));
        }
    }
    proof {
        reveal(relax_one);
        assert(st@ =~= relax_one(
            st_before,
            p as int,
            node_p,
            cand,
            dict.cost_matrix,
            *mode,
            chars@,
        ));
    }
}

/// Progress carries across one processing step: positions below `p` are
/// unchanged and keep their committed successors, and `p` itself just
/// committed one.
proof fn lemma_progress_carries(st_prev: Seq<Option<Node>>, st: Seq<Option<Node>>, p: int, m: int)
    requires
        st_prev.len() == m + 1,
        st.len() == m + 1,
        0 <= p <= m,
        forall|a: int|
            0 <= a < st.len() && (#[trigger] st_prev[a]) is Some ==> st[a] is Some,
        forall|a: int| 0 <= a <= p ==> #[trigger] st[a] == st_prev[a],
        forall|a: int|
            0 <= a < p && (#[trigger] st_prev[a]) is Some ==> exists|e: int|
                a < e <= m && (#[trigger] st_prev[e]) is Some,
        st_prev[p] is Some ==> exists|e: int| p < e <= m && (#[trigger] st[e]) is Some,
    ensures
        forall|a: int|
            0 <= a < p + 1 && (#[trigger] st[a]) is Some ==> exists|e: int|
                a < e <= m && (#[trigger] st[e]) is Some,
{
    assert forall|a: int|
        0 <= a < p + 1 && (#[trigger] st[a]) is Some implies exists|e: int|
        a < e <= m && (#[trigger] st[e]) is Some by {
        if a < p {
            assert(st[a] == st_prev[a]);
            let e0 = choose|e: int| a < e <= m && (#[trigger] st_prev[e]) is Some;
            assert(st[e0] is Some);
        } else {
            assert(st_prev[p] is Some);
        }
    }
}

/// Weighs every candidate of a committed position, in order, exactly as
/// `relax_all` says.
#[verifier::rlimit(100)]
#[verifier::spinoff_prover]
fn relax_position(
    dict: &Dictionary,
    mode: &Mode,
    chars: &Vec<char>,
    st: &mut Vec<Option<Node>>,
    p: usize,
    node_p: Node,
    cands: &Vec<Candidate>,
)
    requires
        dict.wf(),
        p < chars@.len(),
        old(st)@.len() == chars@.len() + 1,
        nodes_ok(old(st)@, *dict),
        old(st)@[p as int] == Some(node_p),
        candidates_ok(cands@, *dict, p as int, chars@.len() as int),
        cands@.len() >= 1,
    ensures
        final(st)@.len() == old(st)@.len(),
        nodes_ok(final(st)@, *dict),
        final(st)@ == relax_all(
            old(st)@,
            p as int,
            node_p,
            cands@,
            dict.cost_matrix,
            *mode,
            chars@,
            cands@.len() as int,
        ),
        forall|a: int|
            0 <= a < old(st)@.len() && (#[trigger] old(st)@[a]) is Some ==> final(st)@[a] is Some,
        forall|a: int| 0 <= a <= p ==> #[trigger] final(st)@[a] == old(st)@[a],
        exists|e: int| p < e <= chars@.len() && (#[trigger] final(st)@[e]) is Some,
{
    let m = chars.len();
    let ghost st_at_entry = st@;
    let mut c: usize = 0;
    proof {
        reveal_with_fuel(relax_all, 1);
        assert(st@ == relax_all(
            st_at_entry,
            p as int,
            node_p,
            cands@,
            dict.cost_matrix,
            *mode,
            chars@,
            0,
        ));
    }
    while c < cands.len()
        invariant
            c <= cands@.len(),
            p < m,
            m == chars@.len(),
            st@.len() == m + 1,
            dict.wf(),
            candidates_ok(cands@, *dict, p as int, m as int),
            nodes_ok(st@, *dict),
            node_p.right_id < dict.cost_matrix.forward_size,
            st_at_entry.len() == st@.len(),
            st_at_entry == old(st)@,
            st_at_entry[p as int] == Some(node_p),
            st@ == relax_all(
                st_at_entry,
                p as int,
                node_p,
                cands@,
                dict.cost_matrix,
                *mode,
                chars@,
                c as int,
            ),
            forall|a: int|
                0 <= a < st@.len() && (#[trigger] st_at_entry[a]) is Some ==> st@[a] is Some,
            forall|a: int| 0 <= a <= p ==> #[trigger] st@[a] == st_at_entry[a],
            c > 0 ==> exists|e: int| p < e <= m && (#[trigger] st@[e]) is Some,
        decreases cands@.len() - c,
    {
        let cand = cands[c];
        relax_candidate(dict, mode, chars, st, p, node_p, cand);
        proof {
            reveal_with_fuel(relax_all, 2);
            assert(st@ == relax_all(
                st_at_entry,
                p as int,
                node_p,
                cands@,
                dict.cost_matrix,
                *mode,
                chars@,
                c + 1,
            ));
            assert(st@[p + cand.char_len] is Some);
            assert(p < p + cand.char_len <= m);
        }
        c = c + 1;
    }
}

/// Processes one position: if it is committed, weighs every candidate
/// there, exactly as one step of `dp_upto` says.  Already committed nodes
/// never become uncommitted, positions at or before `p` do not change, and
/// a committed position always commits some successor.
#[verifier::rlimit(100)]
#[verifier::spinoff_prover]
fn process_position(
    dict: &Dictionary,
    user: Option<&UserDictionary>,
    mode: &Mode,
    chars: &Vec<char>,
    bytes: &Vec<u8>,
    offs: &Vec<usize>,
    st: &mut Vec<Option<Node>>,
    p: usize,
)
    requires
        dict.wf(),
        match user {
            Some(u) => u.wf(dict.cost_matrix),
            None => true,
        },
        p < chars@.len(),
        old(st)@.len() == chars@.len() + 1,
        nodes_ok(old(st)@, *dict),
        old(st)@ == dp_upto(*dict, user_val(user), *mode, chars@, p as int),
        offs@.len() == chars@.len() + 1,
        forall|i: int| 0 <= i <= chars@.len() ==> #[trigger] offs@[i] == crate::text::blen(
            chars@.take(i),
        ),
        bytes@ == vstd::utf8::encode_utf8(chars@),
        forall|a: int|
            0 <= a < p && (#[trigger] old(st)@[a]) is Some ==> exists|e: int|
                a < e <= chars@.len() && (#[trigger] old(st)@[e]) is Some,
    ensures
        final(st)@.len() == old(st)@.len(),
        nodes_ok(final(st)@, *dict),
        final(st)@ == dp_upto(*dict, user_val(user), *mode, chars@, p + 1),
        forall|a: int|
            0 <= a < old(st)@.len() && (#[trigger] old(st)@[a]) is Some ==> final(st)@[a] is Some,
        forall|a: int|
            0 <= a < p + 1 && (#[trigger] final(st)@[a]) is Some ==> exists|e: int|
                a < e <= chars@.len() && (#[trigger] final(st)@[e]) is Some,
{
    let ghost st_prev = st@;
    if let Some(node_p) = st[p] {
        let cands = candidates_at(dict, user, chars, bytes, offs, p);
        relax_position(dict, mode, chars, st, p, node_p, &cands);
        proof {
            reveal_with_fuel(dp_upto, 2);
            assert(st@ == dp_upto(*dict, user_val(user), *mode, chars@, p + 1));
        }
    } else {
        proof {
            reveal_with_fuel(dp_upto, 2);
            assert(st@ == dp_upto(*dict, user_val(user), *mode, chars@, p + 1));
        }
    }
    proof {
        lemma_progress_carries(st_prev, st@, p as int, chars@.len() as int);
    }
}

/// Builds the lattice: processes every character position left to right from
/// the virtual beginning node, relaxing every candidate of every reachable
/// position, and returns the committed node of each position, exactly as
/// `spec_lattice` says.  The beginning node and, for a well-formed
/// dictionary, the end node are always committed: the unknown-word fallback
/// keeps every position reachable.
#[verifier::rlimit(100)]
#[verifier::spinoff_prover]
pub(crate) fn build_lattice(
    dict: &Dictionary,
    user: Option<&UserDictionary>,
    mode: &Mode,
    chars: &Vec<char>,
    bytes: &Vec<u8>,
    offs: &Vec<usize>,
) -> (st: Vec<Option<Node>>)
    requires
        dict.wf(),
        match user {
            Some(u) => u.wf(dict.cost_matrix),
            None => true,
        },
        offs@.len() == chars@.len() + 1,
        forall|i: int| 0 <= i <= chars@.len() ==> #[trigger] offs@[i] == crate::text::blen(
            chars@.take(i),
        ),
        bytes@ == vstd::utf8::encode_utf8(chars@),
    ensures
        st@.len() == chars@.len() + 1,
        nodes_ok(st@, *dict),
        st@.last() is Some,
        st@ == spec_lattice(*dict, user_val(user), *mode, chars@),
{
    let m = chars.len();
    let mut st: Vec<Option<Node>> = Vec::new();
    st.push(
        Some(Node { cost: 0, start: 0, word_id: WordId(0, true), left_id: 0, right_id: 0 }),
    );
    let mut f: usize = 0;
    while f < m
        invariant
            st@.len() == f + 1,
            f <= m,
            st@[0] == Some(
                Node { cost: 0, start: 0, word_id: WordId(0, true), left_id: 0, right_id: 0 },
            ),
            forall|e: int| 1 <= e < st@.len() ==> (#[trigger] st@[e]) is None,
        decreases m - f,
    {
        st.push(None);
        f = f + 1;
    }
    proof {
        reveal_with_fuel(dp_upto, 1);
        assert(st@ =~= dp_init(m as int));
        assert(st@ == dp_upto(*dict, user_val(user), *mode, chars@, 0));
    }
    let mut p: usize = 0;
    while p < m
        invariant
            p <= m,
            m == chars@.len(),
            st@.len() == m + 1,
            dict.wf(),
            match user {
                Some(u) => u.wf(dict.cost_matrix),
                None => true,
            },
            offs@.len() == chars@.len() + 1,
            forall|i: int| 0 <= i <= chars@.len() ==> #[trigger] offs@[i] == crate::text::blen(
                chars@.take(i),
            ),
            bytes@ == vstd::utf8::encode_utf8(chars@),
            nodes_ok(st@, *dict),
            st@ == dp_upto(*dict, user_val(user), *mode, chars@, p as int),
            forall|a: int|
                0 <= a < p && (#[trigger] st@[a]) is Some ==> exists|e: int|
                    a < e <= m && (#[trigger] st@[e]) is Some,
        decreases m - p,
    {
        process_position(dict, user, mode, chars, bytes, offs, &mut st, p);
        p = p + 1;
    }
    proof {
        lemma_reachable(st@, 0, m as int);
    }
    st
}

/// Walks the back pointers from the end node to the beginning and returns
/// the token spans in reading order: for non-empty text they tile the whole
/// character range with no gaps and no overlaps.
pub(crate) fn backtrack(st: &Vec<Option<Node>>, Ghost(dict): Ghost<Dictionary>) -> (toks: Vec<
    (usize, usize, WordId),
>)
    requires
        nodes_ok(st@, dict),
        st@.last() is Some,
    ensures
        spans_tile(toks@, st@.len() - 1),
        toks@ == spec_backtrack(st@, st@.len() - 1),
{
    let m = st.len() - 1;
    let mut rev: Vec<(usize, usize, WordId)> = Vec::new();
    let mut e: usize = m;
    proof {
        assert(rev@.reverse() =~= Seq::<(usize, usize, WordId)>::empty());
        assert(spec_backtrack(st@, m as int) =~= spec_backtrack(st@, m as int)
            + rev@.reverse());
    }
    while e > 0
        invariant
            e <= m,
            m == st@.len() - 1,
            nodes_ok(st@, dict),
            st@[e as int] is Some,
            rev@.len() == 0 ==> e == m,
            rev@.len() > 0 ==> rev@[0].1 == m && rev@.last().0 == e,
            forall|i: int| 0 <= i < rev@.len() ==> (#[trigger] rev@[i]).0 < rev@[i].1,
            forall|i: int| 0 <= i && i + 1 < rev@.len() ==> (#[trigger] rev@[i + 1]).1 == rev@[i].0,
            spec_backtrack(st@, m as int) == spec_backtrack(st@, e as int) + rev@.reverse(),
        decreases e,
    {
        let node = match &st[e] {
            Some(n) => *n,
            None => {
                proof {
                    assert(false);
                }
                (Node { cost: 0, start: 0, word_id: WordId(0, true), left_id: 0, right_id: 0 })
            },
        };
        let ghost rev_before = rev@;
        rev.push((node.start, e, node.word_id));
        proof {
            assert forall|i: int| 0 <= i && i + 1 < rev@.len() implies (#[trigger] rev@[i + 1]).1
                == rev@[i].0 by {
                if i + 1 < rev@.len() - 1 {
                    assert(rev@[i] == rev_before[i]);
                    assert(rev@[i + 1] == rev_before[i + 1]);
                } else {
                    assert(rev@[i] == rev_before[i]);
                }
            }
            let tok = (node.start, e, node.word_id);
            reveal_with_fuel(spec_backtrack, 1);
            assert(rev@.reverse() =~= seq![tok] + rev_before.reverse());
            assert(spec_backtrack(st@, e as int) == spec_backtrack(
                st@,
                node.start as int,
            ).push(tok));
            assert(spec_backtrack(st@, node.start as int).push(tok) + rev_before.reverse()
                =~= spec_backtrack(st@, node.start as int) + rev@.reverse());
        }
        e = node.start;
    }
    proof {
        reveal_with_fuel(spec_backtrack, 1);
        assert(spec_backtrack(st@, 0) =~= Seq::<(usize, usize, WordId)>::empty());
        assert(spec_backtrack(st@, m as int) =~= rev@.reverse());
    }
    let mut toks: Vec<(usize, usize, WordId)> = Vec::new();
    let n = rev.len();
    let mut i: usize = 0;
    while i < n
        invariant
            i <= n,
            n == rev@.len(),
            toks@.len() == i,
            forall|j: int| 0 <= j < i ==> toks@[j] == rev@[n - 1 - j],
        decreases n - i,
    {
        let item = rev[n - 1 - i];
        toks.push(item);
        i = i + 1;
    }
    proof {
        assert(toks@ =~= rev@.reverse());
        if n == 0 {
        } else {
            assert(rev@.last().0 == 0);
            assert(toks@[0] == rev@[n - 1]);
            assert(toks@[n - 1] == rev@[0]);
            assert forall|j: int| 0 <= j && j + 1 < toks@.len() implies (#[trigger] toks@[j]).1
                == toks@[j + 1].0 by {
                assert(toks@[j] == rev@[n - 1 - j]);
                assert(toks@[j + 1] == rev@[n - 2 - j]);
                assert(rev@[(n - 2 - j) + 1].1 == rev@[n - 2 - j].0);
            }
        }
    }
    toks
}

/// The spans tile `[0, char_count)`: the first starts at 0, the last ends at
/// `char_count`, each is non-empty, and each begins where the previous one
/// ended.  Empty text has no spans.
pub open spec fn spans_tile(toks: Seq<(usize, usize, WordId)>, char_count: int) -> bool {
    &&& (char_count == 0 <==> toks.len() == 0)
    &&& toks.len() > 0 ==> toks[0].0 == 0 && toks.last().1 == char_count
    &&& forall|i: int| 0 <= i < toks.len() ==> (#[trigger] toks[i]).0 < toks[i].1
    &&& forall|i: int| 0 <= i && i + 1 < toks.len() ==> (#[trigger] toks[i]).1 == toks[i + 1].0
}

/// Under `spans_tile` every span lies within `[0, char_count]`.
pub(crate) proof fn lemma_spans_bounds(toks: Seq<(usize, usize, WordId)>, char_count: int, i: int)
    requires
        spans_tile(toks, char_count),
        0 <= i < toks.len(),
    ensures
        toks[i].1 <= char_count,
    decreases toks.len() - i,
{
    if i == toks.len() - 1 {
    } else {
        lemma_spans_bounds(toks, char_count, i + 1);
        assert(toks[i].1 == toks[i + 1].0);
    }
}

/// Whether `t` characters from `p` hold exactly `mbytes` bytes.
pub open spec fn span_witness(chars: Seq<char>, p: int, mbytes: int, t: int) -> bool {
    &&& 1 <= t
    &&& p + t <= chars.len()
    &&& 1 <= mbytes
    &&& crate::text::blen(chars.take(p + t)) - crate::text::blen(chars.take(p)) == mbytes
}

/// The number of characters from `p` that hold exactly `mbytes` bytes, when
/// that count falls on a character boundary; character widths are positive,
/// so at most one count can.
pub open spec fn span_of(chars: Seq<char>, p: int, mbytes: int) -> Option<int> {
    if exists|t: int| span_witness(chars, p, mbytes, t) {
        Some(choose|t: int| span_witness(chars, p, mbytes, t))
    } else {
        None
    }
}

/// The number of characters such that the bytes of `chars[p .. p + t]` are
/// exactly `match_bytes` many, when the match falls on a character boundary.
fn char_span(chars: &Vec<char>, offs: &Vec<usize>, p: usize, match_bytes: usize) -> (r: Option<
    usize,
>)
    requires
        p < chars@.len(),
        offs@.len() == chars@.len() + 1,
        forall|i: int| 0 <= i <= chars@.len() ==> #[trigger] offs@[i] == crate::text::blen(
            chars@.take(i),
        ),
    ensures
        match r {
            Some(t) => 1 <= t && p + t <= chars@.len() && span_of(
                chars@,
                p as int,
                match_bytes as int,
            ) == Some(t as int),
            None => span_of(chars@, p as int, match_bytes as int) is None,
        },
{
    if match_bytes == 0 {
        return None;
    }
    let base = offs[p];
    let mut q: usize = p;
    let n = chars.len();
    while q < n
        invariant
            p <= q <= n,
            n == chars@.len(),
            offs@.len() == chars@.len() + 1,
            match_bytes >= 1,
            forall|i: int| 0 <= i <= chars@.len() ==> #[trigger] offs@[i] == crate::text::blen(
                chars@.take(i),
            ),
            base == offs@[p as int],
            offs@[q as int] >= base,
            forall|u: int|
                p < u <= q ==> crate::text::blen(chars@.take(u)) - base < match_bytes,
        decreases n - q,
    {
        proof {
            crate::text::lemma_blen_take_next(chars@, q as int);
        }
        let here = offs[q + 1] - base;
        if here == match_bytes {
            let t = q + 1 - p;
            proof {
                assert(span_witness(chars@, p as int, match_bytes as int, t as int));
                assert forall|t2: int|
                    span_witness(chars@, p as int, match_bytes as int, t2) implies t2
                    == t as int by {
                    if t2 < t {
                        crate::text::lemma_blen_strict(chars@, p + t2, p + t);
                    }
                    if t2 > t {
                        crate::text::lemma_blen_strict(chars@, p + t, p + t2);
                    }
                }
            }
            return Some(t);
        }
        if here > match_bytes {
            proof {
                assert forall|t2: int|
                    !span_witness(chars@, p as int, match_bytes as int, t2) by {
                    if span_witness(chars@, p as int, match_bytes as int, t2) {
                        if p + t2 > q {
                            if p + t2 > q + 1 {
                                crate::text::lemma_blen_strict(chars@, q + 1, p + t2);
                            }
                            assert(crate::text::blen(chars@.take(p + t2)) - base >= here);
                        }
                    }
                }
            }
            return None;
        }
        q = q + 1;
    }
    proof {
        assert forall|t2: int| !span_witness(chars@, p as int, match_bytes as int, t2) by {}
    }
    None
}

} // verus!
