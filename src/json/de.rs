//! The JSON reader: recursive descent, refusing to nest deeper than
//! [`MAX_DEPTH`] levels.
use vstd::prelude::*;
use vstd::utf8::{valid_utf8, decode_utf8, encode_scalar, encode_utf8};

use crate::error::{Error, ErrorKind};
use crate::strings::utf8_text;
use super::value::{JsonModel, Value, Number, Array, Object, models, member_models, lemma_container_model};
use super::object::insert_member;

verus! {

/// The number of nesting levels the reader accepts: the top-level value is at
/// level 0, and a value at level `MAX_DEPTH` is refused.
pub const MAX_DEPTH: usize = 256;

pub open spec fn is_ws(b: u8) -> bool {
    b == 0x20 || b == 0x09 || b == 0x0a || b == 0x0d
}

pub open spec fn is_digit(b: u8) -> bool {
    0x30 <= b <= 0x39
}

/// The first position from `pos` on that is not whitespace.
pub open spec fn skip_ws(s: Seq<u8>, pos: int) -> int
    decreases s.len() - pos,
{
    if 0 <= pos < s.len() && is_ws(s[pos]) {
        skip_ws(s, pos + 1)
    } else {
        pos
    }
}

/// The first position from `pos` on that is not a decimal digit.
pub open spec fn digits_end(s: Seq<u8>, pos: int) -> int
    decreases s.len() - pos,
{
    if 0 <= pos < s.len() && is_digit(s[pos]) {
        digits_end(s, pos + 1)
    } else {
        pos
    }
}

/// The number that decimal digits `d` stand for.
pub open spec fn digits_value(d: Seq<u8>) -> nat
    decreases d.len(),
{
    if d.len() == 0 {
        0
    } else {
        digits_value(d.drop_last()) * 10 + (d.last() - 0x30) as nat
    }
}

/// The value of a hexadecimal digit.
pub open spec fn hex_value(b: u8) -> Option<nat> {
    if 0x30 <= b <= 0x39 {
        Some((b - 0x30) as nat)
    } else if 0x61 <= b <= 0x66 {
        Some((b - 0x61 + 10) as nat)
    } else if 0x41 <= b <= 0x46 {
        Some((b - 0x41 + 10) as nat)
    } else {
        None
    }
}

/// The four hexadecimal digits at `pos`, as a number.
pub open spec fn hex4(s: Seq<u8>, pos: int) -> Option<nat> {
    if 0 <= pos && pos + 4 <= s.len() {
        match (hex_value(s[pos]), hex_value(s[pos + 1]), hex_value(s[pos + 2]), hex_value(s[pos + 3])) {
            (Some(a), Some(b), Some(c), Some(d)) => Some(((a * 16 + b) * 16 + c) * 16 + d),
            _ => None,
        }
    } else {
        None
    }
}

/// The scalar written by the `\u` escape whose hexadecimal digits start at
/// `pos` (a surrogate pair takes two escapes), and where it ends.
pub open spec fn parse_unicode_escape(s: Seq<u8>, pos: int) -> Option<(u32, int)> {
    match hex4(s, pos) {
        None => None,
        Some(u) => if 0xd800 <= u < 0xdc00 {
            if pos + 6 <= s.len() && s[pos + 4] == 0x5c && s[pos + 5] == 0x75 {
                match hex4(s, pos + 6) {
                    Some(lo) => if 0xdc00 <= lo < 0xe000 {
                        Some(((0x10000 + (u - 0xd800) * 0x400 + (lo - 0xdc00)) as u32, pos + 10))
                    } else {
                        None
                    },
                    None => None,
                }
            } else {
                None
            }
        } else if 0xdc00 <= u < 0xe000 {
            None
        } else {
            Some((u as u32, pos + 4))
        },
    }
}

/// The byte that a one-character escape `\c` stands for.
pub open spec fn simple_escape(c: u8) -> Option<u8> {
    if c == 0x22 {
        Some(0x22u8)
    } else if c == 0x5c {
        Some(0x5cu8)
    } else if c == 0x2f {
        Some(0x2fu8)
    } else if c == 0x62 {
        Some(0x08u8)
    } else if c == 0x66 {
        Some(0x0cu8)
    } else if c == 0x6e {
        Some(0x0au8)
    } else if c == 0x72 {
        Some(0x0du8)
    } else if c == 0x74 {
        Some(0x09u8)
    } else {
        None
    }
}

/// The bytes of a string literal's contents from `pos` up to its closing
/// quote, appended to `acc`, and the position after the quote.
pub open spec fn parse_string_bytes(s: Seq<u8>, pos: int, acc: Seq<u8>) -> Result<(Seq<u8>, int), ErrorKind>
    decreases s.len() - pos,
{
    if pos < 0 || pos >= s.len() {
        Err(ErrorKind::Malformed)
    } else if s[pos] == 0x22 {
        Ok((acc, pos + 1))
    } else if s[pos] < 0x20 {
        Err(ErrorKind::Malformed)
    } else if s[pos] == 0x5c {
        if pos + 1 >= s.len() {
            Err(ErrorKind::Malformed)
        } else if s[pos + 1] == 0x75 {
            match parse_unicode_escape(s, pos + 2) {
                Some((c, q)) => if pos < q {
                    parse_string_bytes(s, q, acc + encode_scalar(c))
                } else {
                    Err(ErrorKind::Malformed)
                },
                None => Err(ErrorKind::Malformed),
            }
        } else {
            match simple_escape(s[pos + 1]) {
                Some(b) => parse_string_bytes(s, pos + 2, acc.push(b)),
                None => Err(ErrorKind::Malformed),
            }
        }
    } else {
        parse_string_bytes(s, pos + 1, acc.push(s[pos]))
    }
}

/// The text of the string literal whose contents start at `pos`.
pub open spec fn parse_string(s: Seq<u8>, pos: int) -> Result<(Seq<char>, int), ErrorKind> {
    match parse_string_bytes(s, pos, seq![]) {
        Ok((b, q)) => if valid_utf8(b) {
            Ok((decode_utf8(b), q))
        } else {
            Err(ErrorKind::Malformed)
        },
        Err(e) => Err(e),
    }
}

/// Where the exponent part of a number that starts at `pos` ends, if the
/// text there is one (`pos` itself when there is none).
pub open spec fn exponent_end(s: Seq<u8>, pos: int) -> Option<int> {
    if 0 <= pos < s.len() && (s[pos] == 0x65 || s[pos] == 0x45) {
        let p = if pos + 1 < s.len() && (s[pos + 1] == 0x2b || s[pos + 1] == 0x2d) {
            pos + 2
        } else {
            pos + 1
        };
        if p < s.len() && is_digit(s[p]) {
            Some(digits_end(s, p))
        } else {
            None
        }
    } else {
        Some(pos)
    }
}

/// The number that starts at `pos`: an integer when it has neither fraction
/// nor exponent and fits in `u64` or `i64`, else its literal text.
pub open spec fn parse_number(s: Seq<u8>, pos: int) -> Result<(JsonModel, int), ErrorKind> {
    let neg = 0 <= pos < s.len() && s[pos] == 0x2d;
    let digits_start = if neg {
        pos + 1
    } else {
        pos
    };
    if !(0 <= digits_start < s.len() && is_digit(s[digits_start])) {
        Err(ErrorKind::Malformed)
    } else {
        let int_end = if s[digits_start] == 0x30 {
            digits_start + 1
        } else {
            digits_end(s, digits_start)
        };
        let has_frac = int_end < s.len() && s[int_end] == 0x2e;
        if has_frac && !(int_end + 1 < s.len() && is_digit(s[int_end + 1])) {
            Err(ErrorKind::Malformed)
        } else {
            let frac_end = if has_frac {
                digits_end(s, int_end + 1)
            } else {
                int_end
            };
            match exponent_end(s, frac_end) {
                None => Err(ErrorKind::Malformed),
                Some(num_end) => {
                    let magnitude = digits_value(s.subrange(digits_start, int_end));
                    let v = if neg {
                        -magnitude
                    } else {
                        magnitude as int
                    };
                    if !has_frac && num_end == frac_end && 0 <= v <= u64::MAX {
                        Ok((JsonModel::UInt(v as u64), num_end))
                    } else if !has_frac && num_end == frac_end && i64::MIN <= v < 0 {
                        Ok((JsonModel::Int(v as i64), num_end))
                    } else if valid_utf8(s.subrange(pos, num_end)) {
                        Ok((JsonModel::Float(decode_utf8(s.subrange(pos, num_end))), num_end))
                    } else {
                        Err(ErrorKind::Malformed)
                    }
                },
            }
        }
    }
}

/// `word` stands at `pos`.
pub open spec fn word_at(s: Seq<u8>, pos: int, word: Seq<u8>) -> bool {
    0 <= pos && pos + word.len() <= s.len() && s.subrange(pos, pos + word.len()) == word
}

/// The value that starts at `pos` (after any whitespace) at nesting level
/// `depth`, and where it ends.
pub open spec fn parse_json(s: Seq<u8>, pos: int, depth: int) -> Result<(JsonModel, int), ErrorKind>
    decreases MAX_DEPTH - depth, s.len() - pos, 0int,
{
    let p = skip_ws(s, pos);
    if depth < 0 || depth >= MAX_DEPTH {
        Err(ErrorKind::DepthExceeded)
    } else if p < 0 || p >= s.len() {
        Err(ErrorKind::Malformed)
    } else if s[p] == 0x6e {
        if word_at(s, p, seq![0x6eu8, 0x75, 0x6c, 0x6c]) {
            Ok((JsonModel::Null, p + 4))
        } else {
            Err(ErrorKind::Malformed)
        }
    } else if s[p] == 0x74 {
        if word_at(s, p, seq![0x74u8, 0x72, 0x75, 0x65]) {
            Ok((JsonModel::Bool(true), p + 4))
        } else {
            Err(ErrorKind::Malformed)
        }
    } else if s[p] == 0x66 {
        if word_at(s, p, seq![0x66u8, 0x61, 0x6c, 0x73, 0x65]) {
            Ok((JsonModel::Bool(false), p + 5))
        } else {
            Err(ErrorKind::Malformed)
        }
    } else if s[p] == 0x22 {
        match parse_string(s, p + 1) {
            Ok((t, q)) => Ok((JsonModel::Str(t), q)),
            Err(e) => Err(e),
        }
    } else if s[p] == 0x5b {
        let q = skip_ws(s, p + 1);
        if 0 <= q < s.len() && s[q] == 0x5d {
            Ok((JsonModel::Array(seq![]), q + 1))
        } else if pos <= p {
            parse_elements(s, p + 1, depth + 1, seq![])
        } else {
            Err(ErrorKind::Malformed)
        }
    } else if s[p] == 0x7b {
        let q = skip_ws(s, p + 1);
        if 0 <= q < s.len() && s[q] == 0x7d {
            Ok((JsonModel::Object(seq![]), q + 1))
        } else if pos <= p {
            parse_members(s, p + 1, depth + 1, seq![])
        } else {
            Err(ErrorKind::Malformed)
        }
    } else if s[p] == 0x2d || is_digit(s[p]) {
        parse_number(s, p)
    } else {
        Err(ErrorKind::Malformed)
    }
}

/// Array elements from `pos` at level `depth` up to the closing bracket,
/// after the elements `acc`.
pub open spec fn parse_elements(s: Seq<u8>, pos: int, depth: int, acc: Seq<JsonModel>) -> Result<
    (JsonModel, int),
    ErrorKind,
>
    decreases MAX_DEPTH - depth, s.len() - pos, 1int,
{
    match parse_json(s, pos, depth) {
        Ok((m, q)) => if pos < q <= s.len() {
            let r = skip_ws(s, q);
            if 0 <= r < s.len() && s[r] == 0x2c && q <= r {
                parse_elements(s, r + 1, depth, acc.push(m))
            } else if 0 <= r < s.len() && s[r] == 0x5d {
                Ok((JsonModel::Array(acc.push(m)), r + 1))
            } else {
                Err(ErrorKind::Malformed)
            }
        } else {
            Err(ErrorKind::Malformed)
        },
        Err(e) => Err(e),
    }
}

/// Object members from `pos` at level `depth` up to the closing brace, set
/// into `acc` one after the other (a repeated key keeps the last value).
pub open spec fn parse_members(
    s: Seq<u8>,
    pos: int,
    depth: int,
    acc: Seq<(Seq<char>, JsonModel)>,
) -> Result<(JsonModel, int), ErrorKind>
    decreases MAX_DEPTH - depth, s.len() - pos, 1int,
{
    let p = skip_ws(s, pos);
    if !(0 <= p < s.len() && s[p] == 0x22 && pos <= p) {
        Err(ErrorKind::Malformed)
    } else {
        match parse_string(s, p + 1) {
            Err(e) => Err(e),
            Ok((k, q)) => {
                let r = skip_ws(s, q);
                if !(0 <= r < s.len() && s[r] == 0x3a && p < r) {
                    Err(ErrorKind::Malformed)
                } else {
                    match parse_json(s, r + 1, depth) {
                        Err(e) => Err(e),
                        Ok((v, q2)) => if r + 1 < q2 <= s.len() {
                            let t = skip_ws(s, q2);
                            let members = insert_member(acc, k, v);
                            if 0 <= t < s.len() && s[t] == 0x2c && q2 <= t {
                                parse_members(s, t + 1, depth, members)
                            } else if 0 <= t < s.len() && s[t] == 0x7d {
                                Ok((JsonModel::Object(members), t + 1))
                            } else {
                                Err(ErrorKind::Malformed)
                            }
                        } else {
                            Err(ErrorKind::Malformed)
                        },
                    }
                }
            },
        }
    }
}

/// What reading all of `s` as one JSON value gives; whitespace may surround
/// it.
pub open spec fn decode_json(s: Seq<u8>) -> Result<JsonModel, ErrorKind> {
    match parse_json(s, 0, 0) {
        Ok((m, p)) => if skip_ws(s, p) == s.len() {
            Ok(m)
        } else {
            Err(ErrorKind::TrailingData)
        },
        Err(e) => Err(e),
    }
}

/// `r` is what the specification `sp` of the reader says, as values.
pub open spec fn agrees(r: Result<(Value, usize), Error>, sp: Result<(JsonModel, int), ErrorKind>) -> bool {
    match r {
        Ok((v, p)) => sp == Ok::<(JsonModel, int), ErrorKind>((v.model(), p as int)),
        Err(e) => sp == Err::<(JsonModel, int), ErrorKind>(e.kind),
    }
}

fn skip_ws_exec(bytes: &[u8], pos: usize) -> (r: usize)
    requires
        pos <= bytes@.len(),
    ensures
        r == skip_ws(bytes@, pos as int),
        pos <= r <= bytes@.len(),
{
    let mut p = pos;
    while p < bytes.len() && (bytes[p] == 0x20 || bytes[p] == 0x09 || bytes[p] == 0x0a || bytes[p]
        == 0x0d)
        invariant
            pos <= p <= bytes@.len(),
            skip_ws(bytes@, pos as int) == skip_ws(bytes@, p as int),
        decreases bytes@.len() - p,
    {
        p = p + 1;
    }
    p
}

fn digits_end_exec(bytes: &[u8], pos: usize) -> (r: usize)
    requires
        pos <= bytes@.len(),
    ensures
        r == digits_end(bytes@, pos as int),
        pos <= r <= bytes@.len(),
{
    let mut p = pos;
    while p < bytes.len() && 0x30 <= bytes[p] && bytes[p] <= 0x39
        invariant
            pos <= p <= bytes@.len(),
            digits_end(bytes@, pos as int) == digits_end(bytes@, p as int),
        decreases bytes@.len() - p,
    {
        p = p + 1;
    }
    p
}

/// The value of the digits from `from` to `to`, or `None` when it exceeds
/// `2^64`.
fn digits_value_exec(bytes: &[u8], from: usize, to: usize) -> (r: Option<u128>)
    requires
        from <= to <= bytes@.len(),
        forall|i: int| from <= i < to ==> #[trigger] is_digit(bytes@[i]),
    ensures
        r matches Some(v) ==> v == digits_value(bytes@.subrange(from as int, to as int)) && v
            <= 0x1_0000_0000_0000_0000,
        r is None ==> digits_value(bytes@.subrange(from as int, to as int)) > 0x1_0000_0000_0000_0000,
{
    let mut acc: u128 = 0;
    let mut big = false;
    let mut i = from;
    assert(bytes@.subrange(from as int, from as int) =~= Seq::<u8>::empty());
    while i < to
        invariant
            from <= i <= to <= bytes@.len(),
            forall|j: int| from <= j < to ==> #[trigger] is_digit(bytes@[j]),
            !big ==> acc == digits_value(bytes@.subrange(from as int, i as int)) && acc
                <= 0x1_0000_0000_0000_0000,
            big ==> digits_value(bytes@.subrange(from as int, i as int)) > 0x1_0000_0000_0000_0000,
        decreases to - i,
    {
        assert(bytes@.subrange(from as int, i + 1).drop_last() =~= bytes@.subrange(from as int, i as int));
        assert(is_digit(bytes@[i as int]));
        if !big {
            acc = acc * 10 + (bytes[i] - 0x30) as u128;
            if acc > 0x1_0000_0000_0000_0000 {
                big = true;
            }
        }
        i = i + 1;
    }
    if big {
        None
    } else {
        Some(acc)
    }
}

/// Copies the bytes from `from` to `to`.
fn copy_range(bytes: &[u8], from: usize, to: usize) -> (r: Vec<u8>)
    requires
        from <= to <= bytes@.len(),
    ensures
        r@ == bytes@.subrange(from as int, to as int),
{
    let mut out: Vec<u8> = Vec::new();
    let mut i = from;
    while i < to
        invariant
            from <= i <= to <= bytes@.len(),
            out@ == bytes@.subrange(from as int, i as int),
        decreases to - i,
    {
        out.push(bytes[i]);
        i = i + 1;
        assert(out@ =~= bytes@.subrange(from as int, i as int));
    }
    out
}

fn parse_number_exec(bytes: &[u8], pos: usize) -> (r: Result<(Value, usize), Error>)
    requires
        pos < bytes@.len(),
    ensures
        agrees(r, parse_number(bytes@, pos as int)),
        r matches Ok((_, p)) ==> pos < p <= bytes@.len(),
{
    let neg = bytes[pos] == 0x2d;
    let digits_start = if neg {
        pos + 1
    } else {
        pos
    };
    if !(digits_start < bytes.len() && 0x30 <= bytes[digits_start] && bytes[digits_start] <= 0x39) {
        return Err(Error::new(ErrorKind::Malformed));
    }
    let int_end = if bytes[digits_start] == 0x30 {
        digits_start + 1
    } else {
        digits_end_exec(bytes, digits_start)
    };
    proof {
        if bytes@[digits_start as int] != 0x30 {
            lemma_digits_end_digits(bytes@, digits_start as int);
            lemma_digits_end_digits(bytes@, digits_start + 1);
            assert(digits_end(bytes@, digits_start as int) == digits_end(bytes@, digits_start + 1));
        }
    }
    let has_frac = int_end < bytes.len() && bytes[int_end] == 0x2e;
    if has_frac && !(int_end + 1 < bytes.len() && 0x30 <= bytes[int_end + 1] && bytes[int_end + 1] <= 0x39) {
        return Err(Error::new(ErrorKind::Malformed));
    }
    let frac_end = if has_frac {
        digits_end_exec(bytes, int_end + 1)
    } else {
        int_end
    };
    let num_end: usize;
    if frac_end < bytes.len() && (bytes[frac_end] == 0x65 || bytes[frac_end] == 0x45) {
        let p = if frac_end + 1 < bytes.len() && (bytes[frac_end + 1] == 0x2b || bytes[frac_end + 1] == 0x2d) {
            frac_end + 2
        } else {
            frac_end + 1
        };
        if p < bytes.len() && 0x30 <= bytes[p] && bytes[p] <= 0x39 {
            num_end = digits_end_exec(bytes, p);
        } else {
            return Err(Error::new(ErrorKind::Malformed));
        }
    } else {
        num_end = frac_end;
    }
    assert(exponent_end(bytes@, frac_end as int) == Some(num_end as int));
    let magnitude = digits_value_exec(bytes, digits_start, int_end);
    if !has_frac && num_end == frac_end {
        match magnitude {
            Some(m) => {
                if !neg && m <= 0xffff_ffff_ffff_ffff {
                    return Ok((Value::Number(Number::U64(m as u64)), num_end));
                } else if neg && m == 0 {
                    return Ok((Value::Number(Number::U64(0)), num_end));
                } else if neg && m <= 0x8000_0000_0000_0000 {
                    return Ok((Value::Number(Number::I64((-(m as i128)) as i64)), num_end));
                }
            },
            None => {},
        }
    }
    let text = copy_range(bytes, pos, num_end);
    match utf8_text(text.as_slice()) {
        Some(t) => Ok((Value::Number(Number::Float(t)), num_end)),
        None => Err(Error::new(ErrorKind::Malformed)),
    }
}

proof fn lemma_digits_end_digits(s: Seq<u8>, pos: int)
    requires
        0 <= pos <= s.len(),
    ensures
        forall|i: int| pos <= i < digits_end(s, pos) ==> #[trigger] is_digit(s[i]),
        pos <= digits_end(s, pos) <= s.len(),
    decreases s.len() - pos,
{
    if 0 <= pos < s.len() && is_digit(s[pos]) {
        lemma_digits_end_digits(s, pos + 1);
    }
}

fn hex_value_exec(b: u8) -> (r: Option<u32>)
    ensures
        r matches Some(v) ==> hex_value(b) == Some(v as nat) && v < 16,
        r is None ==> hex_value(b) is None,
{
    if 0x30 <= b && b <= 0x39 {
        Some((b - 0x30) as u32)
    } else if 0x61 <= b && b <= 0x66 {
        Some((b - 0x61 + 10) as u32)
    } else if 0x41 <= b && b <= 0x46 {
        Some((b - 0x41 + 10) as u32)
    } else {
        None
    }
}

fn hex4_exec(bytes: &[u8], pos: usize) -> (r: Option<u32>)
    ensures
        r matches Some(v) ==> hex4(bytes@, pos as int) == Some(v as nat) && v <= 0xffff && pos
            + 4 <= bytes@.len(),
        r is None ==> hex4(bytes@, pos as int) is None,
{
    if pos <= bytes.len() && 4 <= bytes.len() - pos {
        match (
            hex_value_exec(bytes[pos]),
            hex_value_exec(bytes[pos + 1]),
            hex_value_exec(bytes[pos + 2]),
            hex_value_exec(bytes[pos + 3]),
        ) {
            (Some(a), Some(b), Some(c), Some(d)) => Some(((a * 16 + b) * 16 + c) * 16 + d),
            _ => None,
        }
    } else {
        None
    }
}

fn parse_unicode_escape_exec(bytes: &[u8], pos: usize) -> (r: Option<(u32, usize)>)
    requires
        pos <= bytes@.len(),
    ensures
        r matches Some((c, q)) ==> parse_unicode_escape(bytes@, pos as int) == Some((c, q as int))
            && q <= bytes@.len(),
        r is None ==> parse_unicode_escape(bytes@, pos as int) is None,
{
    match hex4_exec(bytes, pos) {
        None => None,
        Some(u) => {
            if 0xd800 <= u && u < 0xdc00 {
                if 6 <= bytes.len() - pos && bytes[pos + 4] == 0x5c && bytes[pos + 5] == 0x75 {
                    match hex4_exec(bytes, pos + 6) {
                        Some(lo) => if 0xdc00 <= lo && lo < 0xe000 {
                            Some((0x10000 + (u - 0xd800) * 0x400 + (lo - 0xdc00), pos + 10))
                        } else {
                            None
                        },
                        None => None,
                    }
                } else {
                    None
                }
            } else if 0xdc00 <= u && u < 0xe000 {
                None
            } else if bytes.len() - pos >= 4 {
                Some((u, pos + 4))
            } else {
                None
            }
        },
    }
}

/// Appends the UTF-8 encoding of the scalar `x`.
fn push_scalar(out: &mut Vec<u8>, x: u32)
    ensures
        final(out)@ == old(out)@ + encode_scalar(x),
{
    if x <= 0x7f {
        out.push((x & 0x7f) as u8);
    } else if x <= 0x7ff {
        out.push(0xc0 | ((x >> 6) & 0x1f) as u8);
        out.push(0x80 | (x & 0x3f) as u8);
    } else if x <= 0xffff && !(0xd800 <= x && x <= 0xdfff) {
        out.push(0xe0 | ((x >> 12) & 0x0f) as u8);
        out.push(0x80 | ((x >> 6) & 0x3f) as u8);
        out.push(0x80 | (x & 0x3f) as u8);
    } else {
        out.push(0xf0 | ((x >> 18) & 0x7) as u8);
        out.push(0x80 | ((x >> 12) & 0x3f) as u8);
        out.push(0x80 | ((x >> 6) & 0x3f) as u8);
        out.push(0x80 | (x & 0x3f) as u8);
    }
    assert(final(out)@ =~= old(out)@ + encode_scalar(x));
}

fn simple_escape_exec(c: u8) -> (r: Option<u8>)
    ensures
        r == simple_escape(c),
{
    if c == 0x22 {
        Some(0x22)
    } else if c == 0x5c {
        Some(0x5c)
    } else if c == 0x2f {
        Some(0x2f)
    } else if c == 0x62 {
        Some(0x08)
    } else if c == 0x66 {
        Some(0x0c)
    } else if c == 0x6e {
        Some(0x0a)
    } else if c == 0x72 {
        Some(0x0d)
    } else if c == 0x74 {
        Some(0x09)
    } else {
        None
    }
}

/// Reads the string literal whose contents start at `pos`.
fn parse_string_exec(bytes: &[u8], pos: usize) -> (r: Result<(String, usize), Error>)
    requires
        pos <= bytes@.len(),
    ensures
        match r {
            Ok((t, q)) => parse_string(bytes@, pos as int) == Ok::<(Seq<char>, int), ErrorKind>(
                (t@, q as int),
            ) && pos < q <= bytes@.len(),
            Err(e) => parse_string(bytes@, pos as int) == Err::<(Seq<char>, int), ErrorKind>(
                e.kind,
            ),
        },
{
    let mut acc: Vec<u8> = Vec::new();
    let mut p = pos;
    while p < bytes.len()
        invariant
            pos <= p <= bytes@.len(),
            parse_string_bytes(bytes@, pos as int, seq![]) == parse_string_bytes(
                bytes@,
                p as int,
                acc@,
            ),
        decreases bytes@.len() - p,
    {
        let b = bytes[p];
        if b == 0x22 {
            return match utf8_text(acc.as_slice()) {
                Some(t) => Ok((t, p + 1)),
                None => Err(Error::new(ErrorKind::Malformed)),
            };
        } else if b < 0x20 {
            return Err(Error::new(ErrorKind::Malformed));
        } else if b == 0x5c {
            if p + 1 >= bytes.len() {
                return Err(Error::new(ErrorKind::Malformed));
            } else if bytes[p + 1] == 0x75 {
                match parse_unicode_escape_exec(bytes, p + 2) {
                    Some((c, q)) => {
                        push_scalar(&mut acc, c);
                        p = q;
                    },
                    None => {
                        return Err(Error::new(ErrorKind::Malformed));
                    },
                }
            } else {
                match simple_escape_exec(bytes[p + 1]) {
                    Some(e) => {
                        acc.push(e);
                        p = p + 2;
                    },
                    None => {
                        return Err(Error::new(ErrorKind::Malformed));
                    },
                }
            }
        } else {
            acc.push(b);
            p = p + 1;
        }
    }
    Err(Error::new(ErrorKind::Malformed))
}

/// Whether the bytes `w` stand at `pos`.
fn word_at_exec(bytes: &[u8], pos: usize, w: &Vec<u8>) -> (r: bool)
    requires
        pos <= bytes@.len(),
    ensures
        r == word_at(bytes@, pos as int, w@),
{
    let n = bytes.len();
    if w.len() > n - pos {
        return false;
    }
    let mut i: usize = 0;
    while i < w.len()
        invariant
            n == bytes@.len(),
            i <= w@.len(),
            pos + w@.len() <= bytes@.len(),
            forall|j: int| 0 <= j < i ==> bytes@[pos + j] == w@[j],
        decreases w@.len() - i,
    {
        if bytes[pos + i] != w[i] {
            proof {
                assert(bytes@.subrange(pos as int, pos + w@.len())[i as int] != w@[i as int]);
            }
            return false;
        }
        i = i + 1;
    }
    assert(bytes@.subrange(pos as int, pos + w@.len()) =~= w@);
    true
}

/// Reads the value that starts at `pos` (after any whitespace) at nesting
/// level `depth` (see [`parse_json`]).
pub fn parse_json_value(bytes: &[u8], pos: usize, depth: usize) -> (r: Result<(Value, usize), Error>)
    requires
        pos <= bytes@.len(),
    ensures
        agrees(r, parse_json(bytes@, pos as int, depth as int)),
        r matches Ok((_, p)) ==> pos < p <= bytes@.len(),
    decreases MAX_DEPTH - depth, bytes@.len() - pos, 0int,
{
    let p = skip_ws_exec(bytes, pos);
    if depth >= MAX_DEPTH {
        return Err(Error::new(ErrorKind::DepthExceeded));
    }
    if p >= bytes.len() {
        return Err(Error::new(ErrorKind::Malformed));
    }
    let b = bytes[p];
    if b == 0x6e {
        let w: Vec<u8> = vec![0x6e, 0x75, 0x6c, 0x6c];
        assert(w@ =~= seq![0x6eu8, 0x75, 0x6c, 0x6c]);
        if word_at_exec(bytes, p, &w) {
            Ok((Value::Null, p + 4))
        } else {
            Err(Error::new(ErrorKind::Malformed))
        }
    } else if b == 0x74 {
        let w: Vec<u8> = vec![0x74, 0x72, 0x75, 0x65];
        assert(w@ =~= seq![0x74u8, 0x72, 0x75, 0x65]);
        if word_at_exec(bytes, p, &w) {
            Ok((Value::Bool(true), p + 4))
        } else {
            Err(Error::new(ErrorKind::Malformed))
        }
    } else if b == 0x66 {
        let w: Vec<u8> = vec![0x66, 0x61, 0x6c, 0x73, 0x65];
        assert(w@ =~= seq![0x66u8, 0x61, 0x6c, 0x73, 0x65]);
        if word_at_exec(bytes, p, &w) {
            Ok((Value::Bool(false), p + 5))
        } else {
            Err(Error::new(ErrorKind::Malformed))
        }
    } else if b == 0x22 {
        match parse_string_exec(bytes, p + 1) {
            Ok((t, q)) => Ok((Value::String(t), q)),
            Err(e) => Err(e),
        }
    } else if b == 0x5b {
        let q = skip_ws_exec(bytes, p + 1);
        if q < bytes.len() && bytes[q] == 0x5d {
            let v = Value::Array(Array::new());
            proof {
                lemma_container_model(&v);
                if let Value::Array(a) = &v {
                    assert(models(a.0@) =~= Seq::<JsonModel>::empty());
                }
            }
            Ok((v, q + 1))
        } else {
            parse_elements_exec(bytes, p + 1, depth + 1)
        }
    } else if b == 0x7b {
        let q = skip_ws_exec(bytes, p + 1);
        if q < bytes.len() && bytes[q] == 0x7d {
            let v = Value::Object(Object::new());
            proof {
                lemma_container_model(&v);
                if let Value::Object(o) = &v {
                    assert(member_models(o.entries@) =~= Seq::<(Seq<char>, JsonModel)>::empty());
                }
            }
            Ok((v, q + 1))
        } else {
            parse_members_exec(bytes, p + 1, depth + 1)
        }
    } else if b == 0x2d || (0x30 <= b && b <= 0x39) {
        parse_number_exec(bytes, p)
    } else {
        Err(Error::new(ErrorKind::Malformed))
    }
}

fn parse_elements_exec(bytes: &[u8], pos: usize, depth: usize) -> (r: Result<(Value, usize), Error>)
    requires
        pos <= bytes@.len(),
        1 <= depth <= MAX_DEPTH,
    ensures
        agrees(r, parse_elements(bytes@, pos as int, depth as int, seq![])),
        r matches Ok((_, p)) ==> pos < p <= bytes@.len(),
    decreases MAX_DEPTH - depth, bytes@.len() - pos, 1int,
{
    let mut items: Vec<Value> = Vec::new();
    let mut p = pos;
    assert(models(items@) =~= Seq::<JsonModel>::empty());
    loop
        invariant
            pos <= p <= bytes@.len(),
            1 <= depth <= MAX_DEPTH,
            parse_elements(bytes@, pos as int, depth as int, seq![]) == parse_elements(
                bytes@,
                p as int,
                depth as int,
                models(items@),
            ),
        decreases bytes@.len() - p,
    {
        match parse_json_value(bytes, p, depth) {
            Err(e) => {
                return Err(e);
            },
            Ok((v, q)) => {
                let r = skip_ws_exec(bytes, q);
                proof {
                    assert(models(items@.push(v)) =~= models(items@).push(v.model()));
                }
                if r < bytes.len() && bytes[r] == 0x2c {
                    items.push(v);
                    p = r + 1;
                } else if r < bytes.len() && bytes[r] == 0x5d {
                    items.push(v);
                    let arr = Value::Array(Array(items));
                    proof {
                        lemma_container_model(&arr);
                    }
                    return Ok((arr, r + 1));
                } else {
                    return Err(Error::new(ErrorKind::Malformed));
                }
            },
        }
    }
}

fn parse_members_exec(bytes: &[u8], pos: usize, depth: usize) -> (r: Result<(Value, usize), Error>)
    requires
        pos <= bytes@.len(),
        1 <= depth <= MAX_DEPTH,
    ensures
        agrees(r, parse_members(bytes@, pos as int, depth as int, seq![])),
        r matches Ok((_, p)) ==> pos < p <= bytes@.len(),
    decreases MAX_DEPTH - depth, bytes@.len() - pos, 1int,
{
    let mut obj = Object::new();
    let mut p = pos;
    assert(member_models(obj.entries@) =~= Seq::<(Seq<char>, JsonModel)>::empty());
    loop
        invariant
            pos <= p <= bytes@.len(),
            1 <= depth <= MAX_DEPTH,
            parse_members(bytes@, pos as int, depth as int, seq![]) == parse_members(
                bytes@,
                p as int,
                depth as int,
                member_models(obj.entries@),
            ),
        decreases bytes@.len() - p,
    {
        let k0 = skip_ws_exec(bytes, p);
        if !(k0 < bytes.len() && bytes[k0] == 0x22) {
            return Err(Error::new(ErrorKind::Malformed));
        }
        let (key, q) = match parse_string_exec(bytes, k0 + 1) {
            Ok(kq) => kq,
            Err(e) => {
                return Err(e);
            },
        };
        let r = skip_ws_exec(bytes, q);
        if !(r < bytes.len() && bytes[r] == 0x3a) {
            return Err(Error::new(ErrorKind::Malformed));
        }
        match parse_json_value(bytes, r + 1, depth) {
            Err(e) => {
                return Err(e);
            },
            Ok((v, q2)) => {
                let t = skip_ws_exec(bytes, q2);
                obj.insert(key, v);
                if t < bytes.len() && bytes[t] == 0x2c {
                    p = t + 1;
                } else if t < bytes.len() && bytes[t] == 0x7d {
                    let o = Value::Object(obj);
                    proof {
                        lemma_container_model(&o);
                    }
                    return Ok((o, t + 1));
                } else {
                    return Err(Error::new(ErrorKind::Malformed));
                }
            },
        }
    }
}

/// Reads one JSON value that fills all of `s`, whitespace around it aside.
///
/// Fails with [`ErrorKind::DepthExceeded`] when arrays and objects nest
/// [`MAX_DEPTH`] levels deep or more, with [`ErrorKind::TrailingData`] when
/// anything but whitespace follows the value, and with
/// [`ErrorKind::Malformed`] on text that is not JSON (see [`decode_json`]).
pub fn from_str(s: &str) -> (r: Result<Value, Error>)
    ensures
        match decode_json(encode_utf8(s@)) {
            Ok(m) => r matches Ok(v) && v.model() == m,
            Err(k) => r matches Err(e) && e.kind == k,
        },
{
    let bytes = s.as_bytes();
    match parse_json_value(bytes, 0, 0) {
        Ok((v, p)) => if skip_ws_exec(bytes, p) == bytes.len() {
            Ok(v)
        } else {
            Err(Error::new(ErrorKind::TrailingData))
        },
        Err(e) => Err(e),
    }
}

proof fn lemma_nested_brackets(s: Seq<u8>, i: int)
    requires
        0 <= i <= MAX_DEPTH,
        s.len() > MAX_DEPTH,
        forall|j: int| 0 <= j <= MAX_DEPTH ==> #[trigger] s[j] == 0x5b,
    ensures
        parse_json(s, i, i) == Err::<(JsonModel, int), ErrorKind>(ErrorKind::DepthExceeded),
    decreases MAX_DEPTH - i,
{
    assert(skip_ws(s, i) == i);
    if i < MAX_DEPTH {
        lemma_nested_brackets(s, i + 1);
        assert(skip_ws(s, i + 1) == i + 1);
        assert(s[i] == 0x5b && s[i + 1] == 0x5b);
    }
}

/// Text that opens `MAX_DEPTH + 1` arrays in a row is refused for its depth,
/// whatever follows.
pub proof fn lemma_text_depth_ceiling(s: Seq<u8>)
    requires
        s.len() > MAX_DEPTH,
        forall|j: int| 0 <= j <= MAX_DEPTH ==> #[trigger] s[j] == 0x5b,
    ensures
        decode_json(s) == Err::<JsonModel, ErrorKind>(ErrorKind::DepthExceeded),
{
    lemma_nested_brackets(s, 0);
}

} // verus!
