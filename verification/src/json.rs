//! A small JSON reader for configuration documents.
//!
//! Filter configurations are single JSON documents of nested objects,
//! arrays, strings, integers, booleans and null.  Numbers with a fraction or
//! an exponent are not configuration material and are rejected, as is any
//! malformed document.

use vstd::prelude::*;
use vstd::string::StringExecFns;

use crate::error::{LinderaError, LinderaErrorKind};
use crate::text::string_from_utf8;
use crate::LinderaResult;

verus! {

/// One JSON value.
pub enum JsonValue {
    Null,
    Bool(bool),
    Int(i64),
    Str(String),
    Arr(Vec<JsonValue>),
    Obj(Vec<(String, JsonValue)>),
}

/// The deepest nesting a configuration document may use.
pub const MAX_JSON_DEPTH: u32 = 64;

pub(crate) fn deserialize_error() -> (r: LinderaError)
    ensures
        r.kind == LinderaErrorKind::Deserialize,
{
    LinderaErrorKind::Deserialize.with_error(String::from_str("malformed configuration document"))
}

/// Advances past blanks, tabs and line breaks.
fn skip_ws(data: &Vec<u8>, pos: &mut usize)
    requires
        *old(pos) <= data@.len(),
    ensures
        *old(pos) <= *final(pos) <= data@.len(),
{
    let n = data.len();
    while *pos < n
        invariant
            *old(pos) <= *pos <= n,
            n == data@.len(),
        decreases n - *pos,
    {
        let b = data[*pos];
        if b == 0x20 || b == 0x09 || b == 0x0a || b == 0x0d {
            *pos = *pos + 1;
        } else {
            return ;
        }
    }
}

/// Appends the UTF-8 encoding of a code point below the surrogate range or
/// above it.
fn push_code_point(out: &mut Vec<u8>, code: u32)
    requires
        code < 0x11_0000,
        !(0xD800 <= code < 0xE000),
{
    if code < 0x80 {
        out.push(code as u8);
    } else if code < 0x800 {
        out.push((0xC0 | (code >> 6)) as u8);
        out.push((0x80 | (code & 0x3F)) as u8);
    } else if code < 0x1_0000 {
        out.push((0xE0 | (code >> 12)) as u8);
        out.push((0x80 | ((code >> 6) & 0x3F)) as u8);
        out.push((0x80 | (code & 0x3F)) as u8);
    } else {
        out.push((0xF0 | (code >> 18)) as u8);
        out.push((0x80 | ((code >> 12) & 0x3F)) as u8);
        out.push((0x80 | ((code >> 6) & 0x3F)) as u8);
        out.push((0x80 | (code & 0x3F)) as u8);
    }
}

/// Reads four hexadecimal digits.
fn parse_hex4(data: &Vec<u8>, pos: &mut usize) -> (r: LinderaResult<u32>)
    requires
        *old(pos) <= data@.len(),
    ensures
        *old(pos) <= *final(pos) <= data@.len(),
        r matches Ok(v) ==> v < 0x1_0000,
        r matches Err(e) ==> e.kind == LinderaErrorKind::Deserialize,
{
    let n = data.len();
    let mut value: u32 = 0;
    let mut k: usize = 0;
    while k < 4
        invariant
            k <= 4,
            *old(pos) <= *pos <= n,
            n == data@.len(),
            k == 0 ==> value == 0,
            k == 1 ==> value < 0x10,
            k == 2 ==> value < 0x100,
            k == 3 ==> value < 0x1000,
            k == 4 ==> value < 0x1_0000,
        decreases 4 - k,
    {
        if *pos >= n {
            return Err(deserialize_error());
        }
        let b = data[*pos];
        let digit: u32 = if 0x30 <= b && b <= 0x39 {
            (b - 0x30) as u32
        } else if 0x61 <= b && b <= 0x66 {
            (b - 0x61) as u32 + 10
        } else if 0x41 <= b && b <= 0x46 {
            (b - 0x41) as u32 + 10
        } else {
            return Err(deserialize_error());
        };
        value = value * 16 + digit;
        *pos = *pos + 1;
        k = k + 1;
    }
    Ok(value)
}

/// Reads a quoted string with its escapes, the opening quote included.
fn parse_string(data: &Vec<u8>, pos: &mut usize) -> (r: LinderaResult<String>)
    requires
        *old(pos) <= data@.len(),
    ensures
        *old(pos) <= *final(pos) <= data@.len(),
        r is Ok ==> *old(pos) < *final(pos),
        r matches Err(e) ==> e.kind == LinderaErrorKind::Deserialize,
{
    let n = data.len();
    if *pos >= n || data[*pos] != 0x22 {
        return Err(deserialize_error());
    }
    *pos = *pos + 1;
    let mut out: Vec<u8> = Vec::new();
    while *pos < n
        invariant
            *old(pos) < *pos <= n,
            n == data@.len(),
        decreases n - *pos,
    {
        let b = data[*pos];
        if b == 0x22 {
            *pos = *pos + 1;
            return string_from_utf8(out);
        }
        if b == 0x5c {
            // An escape sequence.
            *pos = *pos + 1;
            if *pos >= n {
                return Err(deserialize_error());
            }
            let e = data[*pos];
            *pos = *pos + 1;
            if e == 0x22 || e == 0x5c || e == 0x2f {
                out.push(e);
            } else if e == 0x62 {
                out.push(0x08);
            } else if e == 0x66 {
                out.push(0x0c);
            } else if e == 0x6e {
                out.push(0x0a);
            } else if e == 0x72 {
                out.push(0x0d);
            } else if e == 0x74 {
                out.push(0x09);
            } else if e == 0x75 {
                let code = match parse_hex4(data, pos) {
                    Ok(c) => c,
                    Err(err) => {
                        return Err(err);
                    },
                };
                if 0xD800 <= code && code < 0xDC00 {
                    // A surrogate pair: the low half must follow.
                    if n - *pos < 2 || data[*pos] != 0x5c || data[*pos + 1] != 0x75 {
                        return Err(deserialize_error());
                    }
                    *pos = *pos + 2;
                    let low = match parse_hex4(data, pos) {
                        Ok(c) => c,
                        Err(err) => {
                            return Err(err);
                        },
                    };
                    if !(0xDC00 <= low && low < 0xE000) {
                        return Err(deserialize_error());
                    }
                    let combined: u32 = 0x1_0000 + (code - 0xD800) * 0x400 + (low - 0xDC00);
                    push_code_point(&mut out, combined);
                } else if 0xDC00 <= code && code < 0xE000 {
                    return Err(deserialize_error());
                } else {
                    push_code_point(&mut out, code);
                }
            } else {
                return Err(deserialize_error());
            }
        } else {
            out.push(b);
            *pos = *pos + 1;
        }
    }
    Err(deserialize_error())
}

/// Reads an integer; a fraction or an exponent is rejected.
fn parse_number(data: &Vec<u8>, pos: &mut usize) -> (r: LinderaResult<i64>)
    requires
        *old(pos) <= data@.len(),
    ensures
        *old(pos) <= *final(pos) <= data@.len(),
        r matches Err(e) ==> e.kind == LinderaErrorKind::Deserialize,
{
    let n = data.len();
    let mut negative = false;
    if *pos < n && data[*pos] == 0x2d {
        negative = true;
        *pos = *pos + 1;
    }
    if *pos >= n || !(0x30 <= data[*pos] && data[*pos] <= 0x39) {
        return Err(deserialize_error());
    }
    let mut value: i64 = 0;
    while *pos < n
        invariant
            *old(pos) <= *pos <= n,
            n == data@.len(),
            0 <= value,
        decreases n - *pos,
    {
        let b = data[*pos];
        if 0x30 <= b && b <= 0x39 {
            if value > (i64::MAX - 9) / 10 {
                return Err(deserialize_error());
            }
            value = value * 10 + ((b - 0x30) as i64);
            *pos = *pos + 1;
        } else if b == 0x2e || b == 0x65 || b == 0x45 {
            return Err(deserialize_error());
        } else {
            if negative {
                return Ok(-value);
            }
            return Ok(value);
        }
    }
    if negative {
        return Ok(-value);
    }
    Ok(value)
}

/// Reads the given keyword.
fn expect_keyword(data: &Vec<u8>, pos: &mut usize, kw: &Vec<u8>) -> (r: LinderaResult<()>)
    requires
        *old(pos) <= data@.len(),
    ensures
        *old(pos) <= *final(pos) <= data@.len(),
        r matches Err(e) ==> e.kind == LinderaErrorKind::Deserialize,
{
    let n = data.len();
    let m = kw.len();
    let mut k: usize = 0;
    while k < m
        invariant
            k <= m,
            m == kw@.len(),
            *old(pos) <= *pos <= n,
            n == data@.len(),
        decreases m - k,
    {
        if *pos >= n || data[*pos] != kw[k] {
            return Err(deserialize_error());
        }
        *pos = *pos + 1;
        k = k + 1;
    }
    Ok(())
}

/// Reads one JSON value.
fn parse_value(data: &Vec<u8>, pos: &mut usize, depth: u32) -> (r: LinderaResult<JsonValue>)
    requires
        *old(pos) <= data@.len(),
    ensures
        *old(pos) <= *final(pos) <= data@.len(),
        r matches Err(e) ==> e.kind == LinderaErrorKind::Deserialize,
    decreases depth,
{
    if depth == 0 {
        return Err(deserialize_error());
    }
    skip_ws(data, pos);
    let n = data.len();
    if *pos >= n {
        return Err(deserialize_error());
    }
    let b = data[*pos];
    if b == 0x7b {
        // An object.
        *pos = *pos + 1;
        let mut members: Vec<(String, JsonValue)> = Vec::new();
        skip_ws(data, pos);
        if *pos < n && data[*pos] == 0x7d {
            *pos = *pos + 1;
            return Ok(JsonValue::Obj(members));
        }
        while *pos < n
            invariant
                *old(pos) < *pos <= n,
                n == data@.len(),
                depth >= 1,
            decreases n - *pos,
        {
            skip_ws(data, pos);
            let ghost entry_pos = *pos;
            let key = match parse_string(data, pos) {
                Ok(k) => k,
                Err(err) => {
                    return Err(err);
                },
            };
            skip_ws(data, pos);
            if *pos >= n || data[*pos] != 0x3a {
                return Err(deserialize_error());
            }
            *pos = *pos + 1;
            let value = match parse_value(data, pos, depth - 1) {
                Ok(v) => v,
                Err(err) => {
                    return Err(err);
                },
            };
            members.push((key, value));
            skip_ws(data, pos);
            if *pos >= n {
                return Err(deserialize_error());
            }
            let c = data[*pos];
            *pos = *pos + 1;
            if c == 0x7d {
                return Ok(JsonValue::Obj(members));
            }
            if c != 0x2c {
                return Err(deserialize_error());
            }
        }
        Err(deserialize_error())
    } else if b == 0x5b {
        // An array.
        *pos = *pos + 1;
        let mut items: Vec<JsonValue> = Vec::new();
        skip_ws(data, pos);
        if *pos < n && data[*pos] == 0x5d {
            *pos = *pos + 1;
            return Ok(JsonValue::Arr(items));
        }
        while *pos < n
            invariant
                *old(pos) < *pos <= n,
                n == data@.len(),
                depth >= 1,
            decreases n - *pos,
        {
            let ghost entry_pos = *pos;
            let value = match parse_value(data, pos, depth - 1) {
                Ok(v) => v,
                Err(err) => {
                    return Err(err);
                },
            };
            items.push(value);
            skip_ws(data, pos);
            if *pos >= n {
                return Err(deserialize_error());
            }
            let c = data[*pos];
            *pos = *pos + 1;
            if c == 0x5d {
                return Ok(JsonValue::Arr(items));
            }
            if c != 0x2c {
                return Err(deserialize_error());
            }
            proof {
                assert(entry_pos < *pos);
            }
        }
        Err(deserialize_error())
    } else if b == 0x22 {
        match parse_string(data, pos) {
            Ok(s) => Ok(JsonValue::Str(s)),
            Err(err) => Err(err),
        }
    } else if b == 0x74 {
        let mut kw: Vec<u8> = Vec::new();
        kw.push(0x74);
        kw.push(0x72);
        kw.push(0x75);
        kw.push(0x65);
        match expect_keyword(data, pos, &kw) {
            Ok(_) => Ok(JsonValue::Bool(true)),
            Err(err) => Err(err),
        }
    } else if b == 0x66 {
        let mut kw: Vec<u8> = Vec::new();
        kw.push(0x66);
        kw.push(0x61);
        kw.push(0x6c);
        kw.push(0x73);
        kw.push(0x65);
        match expect_keyword(data, pos, &kw) {
            Ok(_) => Ok(JsonValue::Bool(false)),
            Err(err) => Err(err),
        }
    } else if b == 0x6e {
        let mut kw: Vec<u8> = Vec::new();
        kw.push(0x6e);
        kw.push(0x75);
        kw.push(0x6c);
        kw.push(0x6c);
        match expect_keyword(data, pos, &kw) {
            Ok(_) => Ok(JsonValue::Null),
            Err(err) => Err(err),
        }
    } else if b == 0x2d || (0x30 <= b && b <= 0x39) {
        match parse_number(data, pos) {
            Ok(v) => Ok(JsonValue::Int(v)),
            Err(err) => Err(err),
        }
    } else {
        Err(deserialize_error())
    }
}

/// Reads one JSON document; trailing content other than blanks is rejected.
pub fn parse_json(data: &Vec<u8>) -> (r: LinderaResult<JsonValue>)
    ensures
        r matches Err(e) ==> e.kind == LinderaErrorKind::Deserialize,
{
    let mut pos: usize = 0;
    let value = match parse_value(data, &mut pos, MAX_JSON_DEPTH) {
        Ok(v) => v,
        Err(err) => {
            return Err(err);
        },
    };
    skip_ws(data, &mut pos);
    if pos != data.len() {
        return Err(deserialize_error());
    }
    Ok(value)
}

/// The string stored under a key of an object, when there is one.
pub fn obj_get_string(members: &Vec<(String, JsonValue)>, key: &str) -> (r: Option<String>) {
    let wanted = String::from_str(key);
    let n = members.len();
    let mut i: usize = 0;
    while i < n
        invariant
            i <= n,
            n == members@.len(),
        decreases n - i,
    {
        let (k, v) = &members[i];
        if *k == wanted {
            match v {
                JsonValue::Str(s) => {
                    return Some(s.clone());
                },
                _ => {
                    return None;
                },
            }
        }
        i = i + 1;
    }
    None
}

} // verus!
