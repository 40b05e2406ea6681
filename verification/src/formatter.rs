//! Rendering of token sequences.

use vstd::prelude::*;
use vstd::string::*;

use crate::error::{LinderaError, LinderaErrorKind};
use crate::token_filter::FilteredToken;
use crate::LinderaResult;

verus! {

/// Formatter type.
#[derive(Clone, Copy, Debug, PartialEq, Eq, Structural)]
pub enum Format {
    Mecab,
    Wakati,
    Json,
}

impl Format {
    /// The format a name stands for; any other name is rejected.
    pub fn from_str(s: &str) -> (r: LinderaResult<Format>)
        ensures
            s@ == "mecab"@ ==> r == Ok::<Format, LinderaError>(Format::Mecab),
            s@ == "wakati"@ ==> r == Ok::<Format, LinderaError>(Format::Wakati),
            s@ == "json"@ ==> r == Ok::<Format, LinderaError>(Format::Json),
            r is Ok ==> s@ == "mecab"@ || s@ == "wakati"@ || s@ == "json"@,
            r matches Err(e) ==> e.kind == LinderaErrorKind::Args && s@ != "mecab"@ && s@
                != "wakati"@ && s@ != "json"@,
    {
        proof {
            reveal_strlit("mecab");
            reveal_strlit("wakati");
            reveal_strlit("json");
        }
        let owned = String::from_str(s);
        if owned == String::from_str("mecab") {
            proof {
                assert(s@ == "mecab"@);
                assert("mecab"@.len() == 5 && "wakati"@.len() == 6 && "json"@.len() == 4);
                assert(s@ != "wakati"@ && s@ != "json"@);
            }
            Ok(Format::Mecab)
        } else if owned == String::from_str("wakati") {
            proof {
                assert(s@ == "wakati"@);
                assert("mecab"@.len() == 5 && "wakati"@.len() == 6 && "json"@.len() == 4);
                assert(s@ != "mecab"@ && s@ != "json"@);
            }
            Ok(Format::Wakati)
        } else if owned == String::from_str("json") {
            proof {
                assert(s@ == "json"@);
                assert("mecab"@.len() == 5 && "wakati"@.len() == 6 && "json"@.len() == 4);
                assert(s@ != "mecab"@ && s@ != "wakati"@);
            }
            Ok(Format::Json)
        } else {
            proof {
                assert(s@ != "mecab"@ && s@ != "wakati"@ && s@ != "json"@);
            }
            Err(LinderaErrorKind::Args.with_error(String::from_str("invalid format name")))
        }
    }
}

/// The details joined with commas.
pub open spec fn join_comma(details: Seq<Seq<char>>, i: int) -> Seq<char>
    decreases i,
{
    if i <= 0 {
        Seq::empty()
    } else if i == 1 {
        details[0]
    } else {
        join_comma(details, i - 1) + seq![','] + details[i - 1]
    }
}

/// One rendered line: the token's text, a tab, and its details.
pub open spec fn mecab_line(t: FilteredToken) -> Seq<char> {
    t.text@ + seq!['\t'] + join_comma(
        t.details@.map_values(|s: String| s@),
        t.details@.len() as int,
    )
}

/// The rendered lines of the first `i` tokens, each ending in a line break,
/// and then the end mark.
pub open spec fn mecab_text(toks: Seq<FilteredToken>, i: int) -> Seq<char>
    decreases toks.len() - i,
{
    if i < 0 || i >= toks.len() {
        "EOS"@
    } else {
        mecab_line(toks[i]) + seq!['\n'] + mecab_text(toks, i + 1)
    }
}

/// The token texts joined with blanks.
pub open spec fn wakati_text(toks: Seq<FilteredToken>, i: int) -> Seq<char>
    decreases toks.len() - i,
{
    if i < 0 || i >= toks.len() {
        Seq::empty()
    } else if i == toks.len() - 1 {
        toks[i].text@
    } else {
        toks[i].text@ + seq![' '] + wakati_text(toks, i + 1)
    }
}

/// Renders each token as its text, a tab and its comma-joined details, one
/// line per token, closed by an end mark.
fn format_mecab(tokens: &Vec<FilteredToken>) -> (r: LinderaResult<String>)
    ensures
        r matches Ok(s) && s@ == mecab_text(tokens@, 0),
{
    let mut out = String::new();
    let n = tokens.len();
    let mut i: usize = 0;
    while i < n
        invariant
            i <= n,
            n == tokens@.len(),
            out@ + mecab_text(tokens@, i as int) == mecab_text(tokens@, 0),
        decreases n - i,
    {
        let t = &tokens[i];
        out.append(t.text.as_str());
        crate::text::push_char(&mut out, '\t');
        let m = t.details.len();
        let ghost line_start = out@;
        let mut j: usize = 0;
        while j < m
            invariant
                j <= m,
                m == t.details@.len(),
                t == tokens@[i as int],
                out@ == line_start + join_comma(
                    t.details@.map_values(|s: String| s@),
                    j as int,
                ),
            decreases m - j,
        {
            if j > 0 {
                crate::text::push_char(&mut out, ',');
            }
            out.append(t.details[j].as_str());
            proof {
                let dv = t.details@.map_values(|s: String| s@);
                if j == 0 {
                    assert(out@ =~= line_start + join_comma(dv, 1));
                } else {
                    assert(out@ =~= line_start + join_comma(dv, j + 1));
                }
            }
            j = j + 1;
        }
        crate::text::push_char(&mut out, '\n');
        proof {
            assert(out@ + mecab_text(tokens@, i + 1) =~= mecab_text(tokens@, 0));
        }
        i = i + 1;
    }
    let eos = String::from_str("EOS");
    out.append(eos.as_str());
    proof {
        assert(out@ =~= mecab_text(tokens@, 0));
    }
    Ok(out)
}

/// Renders the token texts separated by blanks.
fn format_wakati(tokens: &Vec<FilteredToken>) -> (r: LinderaResult<String>)
    ensures
        r matches Ok(s) && s@ == wakati_text(tokens@, 0),
{
    let mut out = String::new();
    let n = tokens.len();
    let mut i: usize = 0;
    proof {
        if n == 0 {
            assert(out@ =~= wakati_text(tokens@, 0));
        }
    }
    while i < n
        invariant
            i <= n,
            n == tokens@.len(),
            out@ + wakati_text(tokens@, i as int) == wakati_text(tokens@, 0),
        decreases n - i,
    {
        let t = &tokens[i];
        out.append(t.text.as_str());
        if i + 1 < n {
            crate::text::push_char(&mut out, ' ');
        }
        proof {
            assert(out@ + wakati_text(tokens@, i + 1) =~= wakati_text(tokens@, 0));
        }
        i = i + 1;
    }
    proof {
        assert(out@ =~= wakati_text(tokens@, 0));
    }
    Ok(out)
}

/// Appends a JSON string literal for the text.
fn push_json_string(out: &mut String, text: &str) {
    crate::text::push_char(out, '"');
    let chars = crate::text::chars_vec(text);
    let n = chars.len();
    let mut i: usize = 0;
    while i < n
        invariant
            i <= n,
            n == chars@.len(),
        decreases n - i,
    {
        let c = chars[i];
        if c == '"' {
            crate::text::push_char(out, '\\');
            crate::text::push_char(out, '"');
        } else if c == '\\' {
            crate::text::push_char(out, '\\');
            crate::text::push_char(out, '\\');
        } else if c == '\n' {
            crate::text::push_char(out, '\\');
            crate::text::push_char(out, 'n');
        } else if c == '\r' {
            crate::text::push_char(out, '\\');
            crate::text::push_char(out, 'r');
        } else if c == '\t' {
            crate::text::push_char(out, '\\');
            crate::text::push_char(out, 't');
        } else if (c as u32) < 0x20 {
            // Other control characters are rare in text; render a blank.
            crate::text::push_char(out, ' ');
        } else {
            crate::text::push_char(out, c);
        }
        i = i + 1;
    }
    crate::text::push_char(out, '"');
}

/// Appends a decimal rendering of the number.
fn push_usize(out: &mut String, v: usize) {
    let mut digits: Vec<char> = Vec::new();
    let mut rest = v;
    if rest == 0 {
        crate::text::push_char(out, '0');
        return ;
    }
    while rest > 0
        invariant
            digits@.len() <= 20,
        decreases rest,
    {
        if digits.len() >= 20 {
            break ;
        }
        let d = (rest % 10) as u32;
        let c: char = match d {
            0 => '0',
            1 => '1',
            2 => '2',
            3 => '3',
            4 => '4',
            5 => '5',
            6 => '6',
            7 => '7',
            8 => '8',
            _ => '9',
        };
        digits.push(c);
        rest = rest / 10;
    }
    let mut k: usize = digits.len();
    while k > 0
        invariant
            k <= digits@.len(),
        decreases k,
    {
        crate::text::push_char(out, digits[k - 1]);
        k = k - 1;
    }
}

/// Renders the tokens as one JSON array of objects with the token's text,
/// details and byte positions.
fn format_json(tokens: &Vec<FilteredToken>) -> (r: LinderaResult<String>)
    ensures
        r is Ok,
{
    let mut out = String::new();
    crate::text::push_char(&mut out, '[');
    let n = tokens.len();
    let mut i: usize = 0;
    while i < n
        invariant
            i <= n,
            n == tokens@.len(),
        decreases n - i,
    {
        if i > 0 {
            crate::text::push_char(&mut out, ',');
        }
        let t = &tokens[i];
        out.append("{\"text\":");
        push_json_string(&mut out, t.text.as_str());
        out.append(",\"details\":[");
        let m = t.details.len();
        let mut j: usize = 0;
        while j < m
            invariant
                j <= m,
                m == t.details@.len(),
            decreases m - j,
        {
            if j > 0 {
                crate::text::push_char(&mut out, ',');
            }
            push_json_string(&mut out, t.details[j].as_str());
            j = j + 1;
        }
        out.append("],\"byte_start\":");
        push_usize(&mut out, t.byte_start);
        out.append(",\"byte_end\":");
        push_usize(&mut out, t.byte_end);
        crate::text::push_char(&mut out, '}');
        i = i + 1;
    }
    crate::text::push_char(&mut out, ']');
    Ok(out)
}

/// Format a token list to a string by `output_format`.
pub fn format(tokens: Vec<FilteredToken>, output_format: Format) -> (r: LinderaResult<String>)
    ensures
        output_format == Format::Mecab ==> (r matches Ok(s) && s@ == mecab_text(tokens@, 0)),
        output_format == Format::Wakati ==> (r matches Ok(s) && s@ == wakati_text(tokens@, 0)),
        output_format == Format::Json ==> r is Ok,
{
    match output_format {
        Format::Mecab => format_mecab(&tokens),
        Format::Wakati => format_wakati(&tokens),
        Format::Json => format_json(&tokens),
    }
}

/// The Unicode white-space code points, as a regular expression's space
/// class counts them.
pub open spec fn is_space_char(c: char) -> bool {
    ||| 0x09 <= c as u32 <= 0x0D
    ||| c as u32 == 0x20
    ||| c as u32 == 0x85
    ||| c as u32 == 0xA0
    ||| c as u32 == 0x1680
    ||| 0x2000 <= c as u32 <= 0x200A
    ||| c as u32 == 0x2028
    ||| c as u32 == 0x2029
    ||| c as u32 == 0x202F
    ||| c as u32 == 0x205F
    ||| c as u32 == 0x3000
}

/// Whether the text is non-empty and made of white space alone.
pub open spec fn all_space(s: Seq<char>) -> bool {
    s.len() > 0 && forall|i: int| 0 <= i < s.len() ==> is_space_char(#[trigger] s[i])
}

/// Whether the text is non-empty white space, computed.
pub fn is_all_space(s: &str) -> (r: bool)
    ensures
        r == all_space(s@),
{
    let chars = crate::text::chars_vec(s);
    let n = chars.len();
    if n == 0 {
        return false;
    }
    let mut i: usize = 0;
    while i < n
        invariant
            i <= n,
            n == chars@.len(),
            n > 0,
            chars@ == s@,
            forall|j: int| 0 <= j < i ==> is_space_char(#[trigger] chars@[j]),
        decreases n - i,
    {
        let u = chars[i] as u32;
        let space = (0x09 <= u && u <= 0x0D) || u == 0x20 || u == 0x85 || u == 0xA0 || u == 0x1680
            || (0x2000 <= u && u <= 0x200A) || u == 0x2028 || u == 0x2029 || u == 0x202F
            || u == 0x205F || u == 0x3000;
        if !space {
            proof {
                assert(!is_space_char(chars@[i as int]));
            }
            return false;
        }
        proof {
            assert(is_space_char(chars@[i as int]));
        }
        i = i + 1;
    }
    true
}

/// Whether the rendering keeps a token: a token of white space alone and a
/// synthesized unknown word are dropped, unless spaces are shown.
pub fn retain_token(token: &crate::token::Token, show_spaces: bool) -> (r: bool)
    ensures
        r == {
            ||| show_spaces
            ||| !all_space(token.text@) && !(match token.details_view() {
                Some(d) => d.len() > 0 && d[0] == "UNK"@,
                None => false,
            })
        },
{
    let space = is_all_space(token.text.as_str());
    let unk = is_unkown(token);
    !space && !unk || show_spaces
}

/// Whether a token's resolved details mark it as a synthesized unknown word.
pub fn is_unkown(token: &crate::token::Token) -> (r: bool)
    ensures
        r == match token.details_view() {
            Some(d) => d.len() > 0 && d[0] == "UNK"@,
            None => false,
        },
{
    let unk = String::from_str("UNK");
    proof {
        reveal_strlit("UNK");
    }
    match token.peek_details() {
        Some(details) => {
            if details.len() > 0 {
                let r = details[0] == unk;
                proof {
                    let dv = token.details_view().unwrap();
                    assert(dv[0] == details@.map_values(|s: String| s@)[0]);
                }
                r
            } else {
                false
            }
        },
        None => false,
    }
}

} // verus!
