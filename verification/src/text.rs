//! Conversions between strings and their UTF-8 bytes.

use vstd::prelude::*;
use vstd::utf8::*;
#[allow(unused_imports)]
use vstd::seq_lib::*;

use crate::error::{LinderaError, LinderaErrorKind};

verus! {

/// Relies on `String::from_utf8`: it succeeds exactly on valid UTF-8 input
/// and returns the string holding those very bytes.
#[verifier::external_body]
pub fn string_from_utf8(bytes: Vec<u8>) -> (r: Result<String, LinderaError>)
    ensures
        valid_utf8(bytes@) ==> match r {
            Ok(s) => encode_utf8(s@) == bytes@,
            Err(_) => false,
        },
        !valid_utf8(bytes@) ==> r is Err,
        r matches Err(e) ==> e.kind == LinderaErrorKind::Deserialize,
{
    match String::from_utf8(bytes) {
        Ok(s) => Ok(s),
        Err(err) => Err(LinderaErrorKind::Deserialize.with_error(format!("{}", err))),
    }
}

/// Copies `src[from..to]` onto the end of `out`.
pub fn push_byte_range(out: &mut Vec<u8>, src: &Vec<u8>, from: usize, to: usize)
    requires
        from <= to <= src@.len(),
    ensures
        final(out)@ == old(out)@ + src@.subrange(from as int, to as int),
{
    let mut j: usize = from;
    proof {
        assert(out@ =~= out@ + src@.subrange(from as int, from as int));
    }
    while j < to
        invariant
            from <= j <= to <= src@.len(),
            out@ == old(out)@ + src@.subrange(from as int, j as int),
        decreases to - j,
    {
        let b: u8 = src[j];
        out.push(b);
        proof {
            assert(out@ =~= old(out)@ + src@.subrange(from as int, j + 1));
        }
        j = j + 1;
    }
    proof {
        assert(out@ =~= old(out)@ + src@.subrange(from as int, to as int));
    }
}

/// The number of UTF-8 bytes of these characters.
pub open spec fn blen(s: Seq<char>) -> int {
    encode_utf8(s).len() as int
}

/// Encoding distributes over concatenation.
pub(crate) proof fn lemma_encode_concat(a: Seq<char>, b: Seq<char>)
    ensures
        encode_utf8(a + b) == encode_utf8(a) + encode_utf8(b),
    decreases a.len(),
{
    if a.len() == 0 {
        assert(a + b =~= b);
        assert(encode_utf8(a) + encode_utf8(b) =~= encode_utf8(b));
    } else {
        assert((a + b).drop_first() =~= a.drop_first() + b);
        lemma_encode_concat(a.drop_first(), b);
        assert((a + b)[0] == a[0]);
        assert(encode_scalar(a[0] as u32) + (encode_utf8(a.drop_first()) + encode_utf8(b)) =~= (
        encode_scalar(a[0] as u32) + encode_utf8(a.drop_first())) + encode_utf8(b));
    }
}

/// One more character adds its own encoding length.
pub(crate) proof fn lemma_blen_take_next(s: Seq<char>, n: int)
    requires
        0 <= n < s.len(),
    ensures
        blen(s.take(n + 1)) == blen(s.take(n)) + encode_scalar(s[n] as u32).len(),
{
    assert(s.take(n + 1) =~= s.take(n) + seq![s[n]]);
    lemma_encode_concat(s.take(n), seq![s[n]]);
    assert(encode_utf8(seq![s[n]]) =~= encode_scalar(s[n] as u32) + encode_utf8(
        seq![s[n]].drop_first(),
    ));
    assert(seq![s[n]].drop_first() =~= Seq::<char>::empty());
}

/// A prefix never encodes to more bytes than the whole.
pub(crate) proof fn lemma_blen_take_le(s: Seq<char>, n: int)
    requires
        0 <= n <= s.len(),
    ensures
        0 <= blen(s.take(n)) <= blen(s),
        n == s.len() ==> blen(s.take(n)) == blen(s),
    decreases s.len() - n,
{
    if n == s.len() {
        assert(s.take(n) =~= s);
    } else {
        lemma_blen_take_next(s, n);
        lemma_blen_take_le(s, n + 1);
    }
}

/// The UTF-8 width of one character.
pub(crate) fn utf8_len(c: char) -> (r: usize)
    ensures
        r == encode_scalar(c as u32).len(),
        1 <= r <= 4,
{
    let u = c as u32;
    if u < 0x80 {
        1
    } else if u < 0x800 {
        2
    } else if u < 0x10000 {
        3
    } else {
        4
    }
}

/// A later prefix of the text encodes to strictly more bytes.
pub(crate) proof fn lemma_blen_strict(s: Seq<char>, a: int, b: int)
    requires
        0 <= a < b <= s.len(),
    ensures
        blen(s.take(a)) < blen(s.take(b)),
    decreases b - a,
{
    lemma_blen_take_next(s, b - 1);
    assert(encode_scalar(s[b - 1] as u32).len() >= 1);
    if a < b - 1 {
        lemma_blen_strict(s, a, b - 1);
    }
}

/// A prefix of the characters encodes to the matching prefix of the bytes.
pub(crate) proof fn lemma_encode_take_prefix(s: Seq<char>, n: int)
    requires
        0 <= n <= s.len(),
    ensures
        encode_utf8(s.take(n)) == encode_utf8(s).subrange(0, blen(s.take(n))),
{
    assert(s =~= s.take(n) + s.skip(n));
    lemma_encode_concat(s.take(n), s.skip(n));
    assert(encode_utf8(s.take(n)) =~= (encode_utf8(s.take(n)) + encode_utf8(s.skip(n))).subrange(
        0,
        encode_utf8(s.take(n)).len() as int,
    ));
}

/// A character span encodes to the matching byte span.
pub(crate) proof fn lemma_encode_subrange(s: Seq<char>, a: int, b: int)
    requires
        0 <= a <= b <= s.len(),
    ensures
        encode_utf8(s.subrange(a, b)) == encode_utf8(s).subrange(
            blen(s.take(a)),
            blen(s.take(b)),
        ),
{
    assert(s.take(b) =~= s.take(a) + s.subrange(a, b));
    lemma_encode_concat(s.take(a), s.subrange(a, b));
    lemma_encode_take_prefix(s, a);
    lemma_encode_take_prefix(s, b);
    lemma_blen_take_le(s, a);
    lemma_blen_take_le(s, b);
    assert(blen(s.take(b)) == blen(s.take(a)) + encode_utf8(s.subrange(a, b)).len());
    let la = blen(s.take(a));
    let lb = blen(s.take(b));
    assert forall|i: int| 0 <= i < lb - la implies encode_utf8(s.subrange(a, b))[i] == encode_utf8(
        s,
    )[la + i] by {
        assert(encode_utf8(s.take(b))[la + i] == (encode_utf8(s.take(a)) + encode_utf8(
            s.subrange(a, b),
        ))[la + i]);
        assert(encode_utf8(s.take(b))[la + i] == encode_utf8(s).subrange(0, lb)[la + i]);
    }
    assert(encode_utf8(s.subrange(a, b)) =~= encode_utf8(s).subrange(
        blen(s.take(a)),
        blen(s.take(b)),
    ));
}

/// A deep copy of a list of strings.
pub(crate) fn clone_strings(v: &Vec<String>) -> (r: Vec<String>)
    ensures
        r@.len() == v@.len(),
        r@.map_values(|s: String| s@) == v@.map_values(|s: String| s@),
{
    let mut out: Vec<String> = Vec::new();
    let n = v.len();
    let mut i: usize = 0;
    while i < n
        invariant
            i <= n,
            n == v@.len(),
            out@.len() == i,
            forall|j: int| 0 <= j < i ==> (#[trigger] out@[j])@ == v@[j]@,
        decreases n - i,
    {
        out.push(v[i].clone());
        i = i + 1;
    }
    proof {
        assert(out@.map_values(|s: String| s@) =~= v@.map_values(|s: String| s@));
    }
    out
}

/// Relies on `String::push`: it appends exactly the one character.
#[verifier::external_body]
pub(crate) fn push_char(s: &mut String, c: char)
    ensures
        final(s)@ == old(s)@.push(c),
{
    s.push(c);
}

/// Relies on `str::chars`: it yields exactly the characters of the string.
#[verifier::external_body]
pub(crate) fn chars_vec(s: &str) -> (r: Vec<char>)
    ensures
        r@ == s@,
{
    s.chars().collect()
}

} // verus!
