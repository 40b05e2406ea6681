//! The tokenizer: dictionary lookup, lattice search and token emission in
//! one call.

use vstd::prelude::*;
use vstd::string::*;
use vstd::utf8::encode_utf8;

use crate::dictionary::{Dictionary, UserDictionary};
use crate::error::{LinderaError, LinderaErrorKind};
use crate::text::{blen, chars_vec, push_char, utf8_len};
use crate::token::Token;
use crate::viterbi::{
    backtrack, build_lattice, lemma_spans_bounds, spans_tile, spec_backtrack, spec_lattice,
    user_val, Mode,
};
use crate::word_entry::WordId;
use crate::LinderaResult;

verus! {

/// The byte spans of a token sequence exactly tile `[0, byte_len)`: no gaps,
/// no overlaps, strictly increasing, and a token for every byte.  Empty text
/// has no tokens.
#[verifier::opaque]
pub open spec fn tokens_tile(toks: Seq<Token>, byte_len: int) -> bool {
    &&& (byte_len == 0 <==> toks.len() == 0)
    &&& toks.len() > 0 ==> toks[0].byte_start == 0 && toks.last().byte_end == byte_len
    &&& forall|i: int| 0 <= i < toks.len() ==> (#[trigger] toks[i]).byte_start < toks[i].byte_end
    &&& forall|i: int|
        0 <= i && i + 1 < toks.len() ==> (#[trigger] toks[i]).byte_end == toks[i + 1].byte_start
}

/// Each token realizes its span: one token per span, carrying the key of
/// the word that won it, the span's characters as its text, and the span's
/// character boundaries mapped to byte positions.
#[verifier::opaque]
pub open spec fn tokens_realize_spans(
    toks: Seq<Token>,
    spans: Seq<(usize, usize, WordId)>,
    text: Seq<char>,
) -> bool {
    &&& toks.len() == spans.len()
    &&& forall|i: int|
        0 <= i < toks.len() ==> {
            &&& (#[trigger] toks[i]).word_id == spans[i].2
            &&& toks[i].text@ == text.subrange(spans[i].0 as int, spans[i].1 as int)
            &&& toks[i].byte_start == blen(text.take(spans[i].0 as int))
            &&& toks[i].byte_end == blen(text.take(spans[i].1 as int))
        }
}

/// Each token carries its index as its position, a position length of one,
/// unresolved details, and as text the very bytes of its span.
#[verifier::opaque]
pub open spec fn tokens_annotated(toks: Seq<Token>, text: Seq<char>) -> bool {
    forall|i: int|
        0 <= i < toks.len() ==> {
            &&& (#[trigger] toks[i]).position == i
            &&& toks[i].position_length == 1
            &&& toks[i].details_view() is None
            &&& toks[i].byte_end <= encode_utf8(text).len()
            &&& encode_utf8(toks[i].text@) == encode_utf8(text).subrange(
                toks[i].byte_start as int,
                toks[i].byte_end as int,
            )
        }
}

/// The string holding `chars[from .. to]`.
fn substring_chars(chars: &Vec<char>, from: usize, to: usize) -> (r: String)
    requires
        from <= to <= chars@.len(),
    ensures
        r@ == chars@.subrange(from as int, to as int),
{
    let mut out = String::new();
    let mut q: usize = from;
    proof {
        assert(out@ =~= chars@.subrange(from as int, from as int));
    }
    while q < to
        invariant
            from <= q <= to,
            to <= chars@.len(),
            out@ == chars@.subrange(from as int, q as int),
        decreases to - q,
    {
        push_char(&mut out, chars[q]);
        proof {
            assert(out@ =~= chars@.subrange(from as int, q + 1));
        }
        q = q + 1;
    }
    out
}

/// What the token-building loop records per token implies the tiling of
/// the byte ranges.
#[verifier::rlimit(100)]
#[verifier::spinoff_prover]
proof fn lemma_emit_tile(
    toks: Seq<Token>,
    spans: Seq<(usize, usize, WordId)>,
    chars: Seq<char>,
    offs: Seq<usize>,
)
    requires
        offs.len() == chars.len() + 1,
        forall|j: int| 0 <= j <= chars.len() ==> #[trigger] offs[j] == blen(chars.take(j)),
        spans_tile(spans, chars.len() as int),
        toks.len() == spans.len(),
        forall|j: int|
            0 <= j < toks.len() ==> {
                &&& (#[trigger] toks[j]).byte_start == offs[spans[j].0 as int]
                &&& toks[j].byte_end == offs[spans[j].1 as int]
                &&& toks[j].byte_start < toks[j].byte_end
            },
    ensures
        tokens_tile(toks, blen(chars)),
{
    reveal(tokens_tile);
    assert(chars.take(chars.len() as int) =~= chars);
    if spans.len() > 0 {
        assert(toks[0].byte_start == offs[spans[0].0 as int]);
        assert(spans[0].0 == 0);
        assert(toks.last().byte_end == offs[spans[spans.len() - 1].1 as int]);
    }
    assert forall|j: int|
        0 <= j && j + 1 < toks.len() implies (#[trigger] toks[j]).byte_end == toks[j
        + 1].byte_start by {
        assert(spans[j].1 == spans[j + 1].0);
    }
    assert(chars.take(0) =~= Seq::<char>::empty());
    assert(encode_utf8(Seq::<char>::empty()) =~= Seq::<u8>::empty());
}

/// What the loop records implies the per-token annotation.
#[verifier::rlimit(100)]
#[verifier::spinoff_prover]
proof fn lemma_emit_annotated(toks: Seq<Token>, chars: Seq<char>)
    requires
        forall|j: int|
            0 <= j < toks.len() ==> {
                &&& (#[trigger] toks[j]).position == j
                &&& toks[j].position_length == 1
                &&& toks[j].details_view() is None
                &&& toks[j].byte_end <= blen(chars)
                &&& encode_utf8(toks[j].text@) == encode_utf8(chars).subrange(
                    toks[j].byte_start as int,
                    toks[j].byte_end as int,
                )
            },
    ensures
        tokens_annotated(toks, chars),
{
    reveal(tokens_annotated);
}

/// What the loop records implies that each token realizes its span.
#[verifier::rlimit(100)]
#[verifier::spinoff_prover]
proof fn lemma_emit_realize(
    toks: Seq<Token>,
    spans: Seq<(usize, usize, WordId)>,
    chars: Seq<char>,
    offs: Seq<usize>,
)
    requires
        offs.len() == chars.len() + 1,
        forall|j: int| 0 <= j <= chars.len() ==> #[trigger] offs[j] == blen(chars.take(j)),
        spans_tile(spans, chars.len() as int),
        toks.len() == spans.len(),
        forall|j: int|
            0 <= j < toks.len() ==> {
                &&& (#[trigger] toks[j]).word_id == spans[j].2
                &&& toks[j].text@ == chars.subrange(spans[j].0 as int, spans[j].1 as int)
                &&& toks[j].byte_start == offs[spans[j].0 as int]
                &&& toks[j].byte_end == offs[spans[j].1 as int]
            },
    ensures
        tokens_realize_spans(toks, spans, chars),
{
    reveal(tokens_realize_spans);
    assert forall|i: int| 0 <= i < toks.len() implies {
        &&& (#[trigger] toks[i]).word_id == spans[i].2
        &&& toks[i].text@ == chars.subrange(spans[i].0 as int, spans[i].1 as int)
        &&& toks[i].byte_start == blen(chars.take(spans[i].0 as int))
        &&& toks[i].byte_end == blen(chars.take(spans[i].1 as int))
    } by {
        crate::viterbi::lemma_spans_bounds(spans, chars.len() as int, i);
    }
}

/// Builds the emitted tokens from the span walk: one token per span, its
/// text the characters of the span and its byte positions the span's
/// character boundaries mapped through the byte offsets.
#[verifier::rlimit(100)]
#[verifier::spinoff_prover]
fn emit_tokens<'a>(
    dictionary: &'a Dictionary,
    user_dictionary: Option<&'a UserDictionary>,
    chars: &Vec<char>,
    offs: &Vec<usize>,
    spans: &Vec<(usize, usize, WordId)>,
) -> (tokens: Vec<Token<'a>>)
    requires
        offs@.len() == chars@.len() + 1,
        forall|j: int| 0 <= j <= chars@.len() ==> #[trigger] offs@[j] == blen(chars@.take(j)),
        spans_tile(spans@, chars@.len() as int),
    ensures
        tokens_tile(tokens@, blen(chars@)),
        tokens_annotated(tokens@, chars@),
        tokens_realize_spans(tokens@, spans@, chars@),
{
    let m = chars.len();
    let ghost byte_len = blen(chars@);
    proof {
        crate::text::lemma_blen_take_le(chars@, m as int);
        assert(chars@.take(chars@.len() as int) =~= chars@);
    }
    let mut tokens: Vec<Token<'a>> = Vec::new();
    let n = spans.len();
    let mut k: usize = 0;
    while k < n
        invariant
            k <= n,
            n == spans@.len(),
            m == chars@.len(),
            byte_len == blen(chars@),
            offs@.len() == m + 1,
            forall|j: int| 0 <= j <= m ==> #[trigger] offs@[j] == blen(chars@.take(j)),
            spans_tile(spans@, chars@.len() as int),
            tokens@.len() == k,
            forall|j: int|
                0 <= j < k ==> {
                    &&& (#[trigger] tokens@[j]).word_id == spans@[j].2
                    &&& tokens@[j].text@ == chars@.subrange(
                        spans@[j].0 as int,
                        spans@[j].1 as int,
                    )
                    &&& tokens@[j].byte_start == offs@[spans@[j].0 as int]
                    &&& tokens@[j].byte_end == offs@[spans@[j].1 as int]
                    &&& tokens@[j].byte_start < tokens@[j].byte_end
                    &&& tokens@[j].byte_end <= byte_len
                    &&& tokens@[j].position == j
                    &&& tokens@[j].position_length == 1
                    &&& tokens@[j].details_view() is None
                    &&& encode_utf8(tokens@[j].text@) == encode_utf8(chars@).subrange(
                        tokens@[j].byte_start as int,
                        tokens@[j].byte_end as int,
                    )
                },
        decreases n - k,
    {
        let (cs, ce, wid) = spans[k];
        proof {
            lemma_spans_bounds(spans@, chars@.len() as int, k as int);
            crate::text::lemma_blen_strict(chars@, cs as int, ce as int);
            crate::text::lemma_blen_take_le(chars@, ce as int);
        }
        let token_text = substring_chars(chars, cs, ce);
        proof {
            crate::text::lemma_encode_subrange(chars@, cs as int, ce as int);
        }
        let byte_start = offs[cs];
        let byte_end = offs[ce];
        let token = Token::new(
            token_text,
            byte_start,
            byte_end,
            k,
            wid,
            dictionary,
            user_dictionary,
        );
        tokens.push(token);
        k = k + 1;
    }
    proof {
        lemma_emit_tile(tokens@, spans@, chars@, offs@);
        lemma_emit_annotated(tokens@, chars@);
        lemma_emit_realize(tokens@, spans@, chars@, offs@);
    }
    tokens
}

/// The tokenizer: the loaded dictionaries and the mode.  Shared read-only
/// across calls; each call allocates its own lattice.
pub struct Tokenizer {
    dictionary: Dictionary,
    user_dictionary: Option<UserDictionary>,
    mode: Mode,
}

impl Tokenizer {
    /// The dictionaries are well-formed; established once by `new`.
    pub closed spec fn wf(&self) -> bool {
        &&& self.dictionary.wf()
        &&& match self.user_dictionary {
            Some(u) => u.wf(self.dictionary.cost_matrix),
            None => true,
        }
    }

    /// The mode the tokenizer was built with.
    pub closed spec fn mode_view(&self) -> Mode {
        self.mode
    }

    /// The character spans and word keys that tokenizing a text yields: the
    /// back-pointer walk over the finished lattice.  The token sequence is a
    /// function of the text, the loaded dictionaries and the mode alone, so
    /// tokenizing identical text twice yields identical tokens.
    pub closed spec fn spec_token_spans(&self, text: Seq<char>) -> Seq<(usize, usize, WordId)> {
        spec_backtrack(
            spec_lattice(self.dictionary, self.user_dictionary, self.mode, text),
            text.len() as int,
        )
    }

    /// Builds a tokenizer, validating the dictionaries whole: it succeeds
    /// exactly when every dictionary table agrees, so a corrupt dictionary
    /// is rejected here and never tokenizes.
    pub fn new(
        dictionary: Dictionary,
        user_dictionary: Option<UserDictionary>,
        mode: Mode,
    ) -> (r: LinderaResult<Tokenizer>)
        ensures
            r is Ok <==> dictionary.wf() && match user_dictionary {
                Some(u) => u.wf(dictionary.cost_matrix),
                None => true,
            },
            match r {
                Ok(t) => t.wf() && t.mode_view() == mode,
                Err(e) => e.kind == LinderaErrorKind::Args,
            },
    {
        if !dictionary.validate() {
            return Err(
                LinderaErrorKind::Args.with_error(
                    String::from_str("dictionary tables are inconsistent"),
                ),
            );
        }
        match &user_dictionary {
            Some(u) => {
                if !u.validate(&dictionary.cost_matrix) {
                    return Err(
                        LinderaErrorKind::Args.with_error(
                            String::from_str("user dictionary tables are inconsistent"),
                        ),
                    );
                }
            },
            None => {},
        }
        Ok(Tokenizer { dictionary, user_dictionary, mode })
    }

    /// The loaded system dictionary.
    pub fn dictionary(&self) -> (r: &Dictionary) {
        &self.dictionary
    }

    /// Segments the text into tokens along the minimum-cost lattice path.
    ///
    /// Never fails on input text content: the unknown-word fallback covers
    /// every span no dictionary knows, so the emitted byte ranges always
    /// tile the whole text, a non-empty text always yields at least one
    /// token, and each token's text is exactly the bytes of its span.
    #[verifier::rlimit(100)]
    #[verifier::spinoff_prover]
    pub fn tokenize<'a>(&'a self, text: &str) -> (r: LinderaResult<Vec<Token<'a>>>)
        requires
            self.wf(),
        ensures
            r is Ok,
            tokens_tile(r.unwrap()@, encode_utf8(text@).len() as int),
            tokens_annotated(r.unwrap()@, text@),
            tokens_realize_spans(r.unwrap()@, self.spec_token_spans(text@), text@),
    {
        let chars = chars_vec(text);
        let bytes = text.as_bytes_vec();
        let m = chars.len();
        let byte_len = bytes.len();
        // Byte offset of every character boundary.
        let mut offs: Vec<usize> = Vec::new();
        offs.push(0);
        proof {
            assert(chars@.take(0) =~= Seq::<char>::empty());
            assert(encode_utf8(Seq::<char>::empty()) =~= Seq::<u8>::empty());
        }
        let mut i: usize = 0;
        while i < m
            invariant
                i <= m,
                m == chars@.len(),
                byte_len == blen(chars@),
                bytes@ == encode_utf8(chars@),
                offs@.len() == i + 1,
                forall|j: int| 0 <= j <= i ==> #[trigger] offs@[j] == blen(chars@.take(j)),
            decreases m - i,
        {
            proof {
                crate::text::lemma_blen_take_next(chars@, i as int);
                crate::text::lemma_blen_take_le(chars@, i + 1);
            }
            let w = utf8_len(chars[i]);
            let prev = offs[i];
            offs.push(prev + w);
            i = i + 1;
        }
        let user_ref = self.user_dictionary.as_ref();
        let st = build_lattice(&self.dictionary, user_ref, &self.mode, &chars, &bytes, &offs);
        let spans = backtrack(&st, Ghost(self.dictionary));
        proof {
            assert(spans_tile(spans@, chars@.len() as int));
            assert(user_val(user_ref) == self.user_dictionary);
            assert(spans@ == self.spec_token_spans(text@));
        }
        let tokens = emit_tokens(
            &self.dictionary,
            user_ref,
            &chars,
            &offs,
            &spans,
        );
        Ok(tokens)
    }
}

} // verus!
