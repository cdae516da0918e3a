//! What holds of writing and reading JSON text together.
use vstd::prelude::*;
use vstd::utf8::{
    encode_utf8, decode_utf8, encode_scalar, encode_utf8_valid_utf8, encode_utf8_decode_utf8,
};

use crate::error::ErrorKind;
use super::value::JsonModel;
use super::text::{
    json_text, items_from, members_from, quoted, escape_chars, escape_char, escape_byte,
    escape_bytes, digits, decimal, hex_digit, lemma_encode_utf8_concat, lemma_escape_utf8,
};
use super::object::{key_cmp, first_key_not_below, insert_member};
use super::de::{
    MAX_DEPTH, parse_json, parse_elements, parse_members, parse_string, parse_string_bytes,
    parse_number, skip_ws, digits_end, digits_value, is_digit, simple_escape, hex_value, hex4,
    parse_unicode_escape, decode_json,
};

verus! {

/// The bytes of the JSON text of `m`.
pub open spec fn text_bytes(m: JsonModel) -> Seq<u8> {
    encode_utf8(json_text(m))
}

/// `t` is a number literal that the reader keeps as text: ASCII, and read as
/// `Float(t)` when a comma follows it.
pub open spec fn float_literal(t: Seq<char>) -> bool {
    &&& vstd::utf8::is_ascii_chars(t)
    &&& parse_number(encode_utf8(t) + seq![0x2cu8], 0) == Ok::<(JsonModel, int), ErrorKind>(
        (JsonModel::Float(t), encode_utf8(t).len() as int),
    )
}

/// `m` is as the reader would build it: a negative integer held as `Int`,
/// any other as `UInt`, a float as a literal the reader keeps, and each
/// object's keys strictly increasing.
pub open spec fn readable(m: JsonModel) -> bool
    decreases m, 0int,
{
    match m {
        JsonModel::Int(i) => i < 0,
        JsonModel::Float(t) => float_literal(t),
        JsonModel::Array(items) => readable_items(items, 0),
        JsonModel::Object(members) => keys_increasing(members) && readable_members(members, 0),
        _ => true,
    }
}

pub open spec fn readable_items(items: Seq<JsonModel>, i: int) -> bool
    decreases items, items.len() - i,
{
    i < 0 || i >= items.len() || (readable(items[i]) && readable_items(items, i + 1))
}

pub open spec fn readable_members(members: Seq<(Seq<char>, JsonModel)>, i: int) -> bool
    decreases members, members.len() - i,
{
    i < 0 || i >= members.len() || (readable(members[i].1) && readable_members(members, i + 1))
}

/// Keys strictly increasing by their bytes.
pub open spec fn keys_increasing(members: Seq<(Seq<char>, JsonModel)>) -> bool {
    forall|i: int, j: int|
        #![trigger members[i], members[j]]
        0 <= i < j < members.len() ==> key_cmp(members[i].0, members[j].0) < 0
}

/// How deeply arrays and objects nest in `m`.
pub open spec fn depth_of(m: JsonModel) -> nat
    decreases m, 0int,
{
    match m {
        JsonModel::Array(items) => 1 + items_depth(items, 0),
        JsonModel::Object(members) => 1 + members_depth(members, 0),
        _ => 0,
    }
}

pub open spec fn items_depth(items: Seq<JsonModel>, i: int) -> nat
    decreases items, items.len() - i,
{
    if i < 0 || i >= items.len() {
        0
    } else {
        let a = depth_of(items[i]);
        let b = items_depth(items, i + 1);
        if a >= b {
            a
        } else {
            b
        }
    }
}

pub open spec fn members_depth(members: Seq<(Seq<char>, JsonModel)>, i: int) -> nat
    decreases members, members.len() - i,
{
    if i < 0 || i >= members.len() {
        0
    } else {
        let a = depth_of(members[i].1);
        let b = members_depth(members, i + 1);
        if a >= b {
            a
        } else {
            b
        }
    }
}

/// A value's text may end at `q`: the input ends there or a comma or a
/// closing bracket or brace follows.
pub open spec fn delimited(s: Seq<u8>, q: int) -> bool {
    q == s.len() || (0 <= q < s.len() && (s[q] == 0x2c || s[q] == 0x5d || s[q] == 0x7d))
}

/// `s` holds `w` at `p`.
pub open spec fn holds(s: Seq<u8>, p: int, w: Seq<u8>) -> bool {
    0 <= p && p + w.len() <= s.len() && s.subrange(p, p + w.len()) == w
}

proof fn lemma_holds_split(s: Seq<u8>, p: int, a: Seq<u8>, b: Seq<u8>)
    requires
        holds(s, p, a + b),
    ensures
        holds(s, p, a),
        holds(s, p + a.len(), b),
{
    assert forall|i: int| 0 <= i < a.len() implies s.subrange(p, p + a.len())[i] == a[i] by {
        assert(s[p + i] == s.subrange(p, p + (a + b).len())[i]);
    }
    assert forall|i: int| 0 <= i < b.len() implies s.subrange(p + a.len(), p + a.len() + b.len())[i]
        == b[i] by {
        assert(s[p + a.len() + i] == s.subrange(p, p + (a + b).len())[a.len() + i]);
    }
    assert(s.subrange(p, p + a.len()) =~= a);
    assert(s.subrange(p + a.len(), p + a.len() + b.len()) =~= b);
}

proof fn lemma_holds_at(s: Seq<u8>, p: int, w: Seq<u8>, i: int)
    requires
        holds(s, p, w),
        0 <= i < w.len(),
    ensures
        s[p + i] == w[i],
{
    assert(s.subrange(p, p + w.len())[i] == s[p + i]);
}

proof fn lemma_ascii_char(c: char)
    requires
        (c as u32) < 0x80,
    ensures
        encode_utf8(seq![c]) == seq![c as u8],
{
    assert(seq![c].drop_first() =~= Seq::<char>::empty());
    assert(encode_utf8(Seq::<char>::empty()) =~= Seq::<u8>::empty());
    let x = c as u32;
    assert((x & 0x7f) as u8 == x as u8) by (bit_vector)
        requires
            x < 0x80,
    ;
    assert(encode_utf8(seq![c]) =~= seq![c as u8]);
}

proof fn lemma_escape_bytes_front(x: u8, rest: Seq<u8>)
    ensures
        escape_bytes(seq![x] + rest) == escape_byte(x) + escape_bytes(rest),
    decreases rest.len(),
{
    if rest.len() == 0 {
        assert(seq![x] + rest =~= seq![x]);
        assert(seq![x].drop_last() =~= Seq::<u8>::empty());
        assert(escape_bytes(Seq::<u8>::empty()) =~= Seq::<u8>::empty());
        assert(escape_byte(x) + escape_bytes(rest) =~= escape_byte(x));
    } else {
        lemma_escape_bytes_front(x, rest.drop_last());
        assert((seq![x] + rest).drop_last() =~= seq![x] + rest.drop_last());
        assert(escape_bytes(seq![x] + rest) =~= escape_byte(x) + escape_bytes(rest));
    }
}

/// One escaped byte reads back as that byte.
proof fn lemma_read_escaped_byte(s: Seq<u8>, p: int, x: u8, acc: Seq<u8>)
    requires
        holds(s, p, escape_byte(x)),
    ensures
        parse_string_bytes(s, p, acc) == parse_string_bytes(s, p + escape_byte(x).len(), acc.push(x)),
{
    let e = escape_byte(x);
    let c = x as char;
    if x >= 0x80 {
        lemma_holds_at(s, p, e, 0);
    } else {
        let ec = escape_char(c);
        assert(e =~= ec.map_values(|y: char| y as u8));
        lemma_holds_at(s, p, e, 0);
        if x == 0x22 || x == 0x5c || x == 0x08 || x == 0x09 || x == 0x0a || x == 0x0c || x == 0x0d {
            lemma_holds_at(s, p, e, 1);
        } else if x < 0x20 {
            lemma_holds_at(s, p, e, 1);
            lemma_holds_at(s, p, e, 2);
            lemma_holds_at(s, p, e, 3);
            lemma_holds_at(s, p, e, 4);
            lemma_holds_at(s, p, e, 5);
            let hi = (x / 16) as nat;
            let lo = (x % 16) as nat;
            assert(hex_value(hex_digit(hi) as u8) == Some(hi));
            assert(hex_value(hex_digit(lo) as u8) == Some(lo));
            assert(hex4(s, p + 2) == Some(x as nat));
            assert(parse_unicode_escape(s, p + 2) == Some((x as u32, p + 6)));
            let y = x as u32;
            assert((y & 0x7f) as u8 == x) by (bit_vector)
                requires
                    y == x as u32,
                    x < 0x80,
            ;
            assert(encode_scalar(y) =~= seq![x]);
            assert(acc + encode_scalar(y) =~= acc.push(x));
        }
    }
}

/// The escaped bytes `b` and a closing quote read back as `b`.
proof fn lemma_read_escaped(s: Seq<u8>, p: int, b: Seq<u8>, acc: Seq<u8>)
    requires
        holds(s, p, escape_bytes(b) + seq![0x22u8]),
    ensures
        parse_string_bytes(s, p, acc) == Ok::<(Seq<u8>, int), ErrorKind>(
            (acc + b, p + escape_bytes(b).len() + 1),
        ),
    decreases b.len(),
{
    if b.len() == 0 {
        assert(escape_bytes(b) =~= Seq::<u8>::empty());
        lemma_holds_at(s, p, escape_bytes(b) + seq![0x22u8], 0);
        assert(acc + b =~= acc);
    } else {
        let x = b[0];
        let rest = b.drop_first();
        assert(b =~= seq![x] + rest);
        lemma_escape_bytes_front(x, rest);
        assert(escape_bytes(b) + seq![0x22u8] =~= escape_byte(x) + (escape_bytes(rest) + seq![
            0x22u8,
        ]));
        lemma_holds_split(s, p, escape_byte(x), escape_bytes(rest) + seq![0x22u8]);
        lemma_read_escaped_byte(s, p, x, acc);
        lemma_read_escaped(s, p + escape_byte(x).len(), rest, acc.push(x));
        assert(acc.push(x) + rest =~= acc + b);
    }
}

/// A string literal's text reads back as the string.
proof fn lemma_read_string(s: Seq<u8>, p: int, t: Seq<char>)
    requires
        holds(s, p, encode_utf8(quoted(t))),
    ensures
        parse_string(s, p + 1) == Ok::<(Seq<char>, int), ErrorKind>(
            (t, p + encode_utf8(quoted(t)).len()),
        ),
        s[p] == 0x22,
{
    lemma_escape_utf8(t);
    lemma_encode_utf8_concat(seq!['"'], escape_chars(t));
    lemma_encode_utf8_concat(seq!['"'] + escape_chars(t), seq!['"']);
    lemma_ascii_char('"');
    let eb = escape_bytes(encode_utf8(t));
    assert(encode_utf8(quoted(t)) =~= seq![0x22u8] + (eb + seq![0x22u8]));
    lemma_holds_split(s, p, seq![0x22u8], eb + seq![0x22u8]);
    lemma_holds_at(s, p, seq![0x22u8], 0);
    lemma_read_escaped(s, p + 1, encode_utf8(t), seq![]);
    assert(Seq::<u8>::empty() + encode_utf8(t) =~= encode_utf8(t));
    encode_utf8_valid_utf8(t);
    encode_utf8_decode_utf8(t);
}

/// The ASCII bytes of the decimal digits of `n`.
pub open spec fn digit_bytes(n: nat) -> Seq<u8>
    decreases n,
{
    if n < 10 {
        seq![(48 + n) as u8]
    } else {
        digit_bytes(n / 10).push((48 + n % 10) as u8)
    }
}

proof fn lemma_digit_bytes(n: nat)
    ensures
        encode_utf8(digits(n)) == digit_bytes(n),
        digits_value(digit_bytes(n)) == n,
        forall|i: int| 0 <= i < digit_bytes(n).len() ==> #[trigger] is_digit(digit_bytes(n)[i]),
        digit_bytes(n).len() >= 1,
        (digit_bytes(n)[0] == 0x30) == (n == 0),
    decreases n,
{
    let d = hex_digit(n % 10);
    assert((d as u32) < 0x80);
    lemma_ascii_char(d);
    if n < 10 {
        let b = digit_bytes(n);
        assert(b.drop_last() =~= Seq::<u8>::empty());
        assert(digits_value(Seq::<u8>::empty()) == 0);
    } else {
        lemma_digit_bytes(n / 10);
        lemma_encode_utf8_concat(digits(n / 10), seq![d]);
        assert(digits(n) =~= digits(n / 10) + seq![d]);
        let b = digit_bytes(n);
        assert(b.drop_last() =~= digit_bytes(n / 10));
        assert(encode_utf8(digits(n)) =~= digit_bytes(n));
        assert(b[0] == digit_bytes(n / 10)[0]);
    }
}

proof fn lemma_digits_end_at(s: Seq<u8>, p: int, k: int)
    requires
        0 <= p,
        0 <= k,
        p + k <= s.len(),
        forall|i: int| p <= i < p + k ==> #[trigger] is_digit(s[i]),
        p + k == s.len() || !is_digit(s[p + k]),
    ensures
        digits_end(s, p) == p + k,
    decreases k,
{
    if k > 0 {
        lemma_digits_end_at(s, p + 1, k - 1);
    }
}

/// The text of an integer reads back as that integer.
proof fn lemma_read_integer(s: Seq<u8>, pos: int, m: JsonModel)
    requires
        m is UInt || (m matches JsonModel::Int(i) && i < 0),
        holds(s, pos, text_bytes(m)),
        delimited(s, pos + text_bytes(m).len()),
    ensures
        parse_number(s, pos) == Ok::<(JsonModel, int), ErrorKind>((m, pos + text_bytes(m).len())),
{
    let neg = m is Int;
    let mag: nat = match m {
        JsonModel::UInt(n) => n as nat,
        JsonModel::Int(i) => (-i) as nat,
        _ => 0,
    };
    lemma_digit_bytes(mag);
    let db = digit_bytes(mag);
    let digits_start = if neg {
        pos + 1
    } else {
        pos
    };
    if neg {
        lemma_ascii_char('-');
        lemma_encode_utf8_concat(seq!['-'], digits(mag));
        assert(text_bytes(m) =~= seq![0x2du8] + db);
        lemma_holds_split(s, pos, seq![0x2du8], db);
        lemma_holds_at(s, pos, seq![0x2du8], 0);
    } else {
        assert(text_bytes(m) == db);
    }
    assert(holds(s, digits_start, db));
    assert forall|i: int| digits_start <= i < digits_start + db.len() implies #[trigger] is_digit(s[i]) by {
        lemma_holds_at(s, digits_start, db, i - digits_start);
    }
    lemma_holds_at(s, digits_start, db, 0);
    assert(is_digit(db[0]));
    if !neg {
        assert(s[pos] == db[0]);
    }
    let end = digits_start + db.len();
    if mag != 0 {
        lemma_digits_end_at(s, digits_start, db.len() as int);
    } else {
        assert(db.len() == 1);
    }
    assert(s.subrange(digits_start, end) == db);
}

proof fn lemma_ascii_seq(cs: Seq<char>)
    requires
        vstd::utf8::is_ascii_chars(cs),
    ensures
        encode_utf8(cs) == cs.map_values(|c: char| c as u8),
{
    vstd::utf8::is_ascii_chars_encode_utf8(cs);
    assert(encode_utf8(cs) =~= cs.map_values(|c: char| c as u8));
}

proof fn lemma_text_nonempty(m: JsonModel)
    requires
        readable(m),
    ensures
        text_bytes(m).len() >= 1,
        m is Null ==> text_bytes(m) == seq![0x6eu8, 0x75, 0x6c, 0x6c],
        m == JsonModel::Bool(true) ==> text_bytes(m) == seq![0x74u8, 0x72, 0x75, 0x65],
        m == JsonModel::Bool(false) ==> text_bytes(m) == seq![0x66u8, 0x61, 0x6c, 0x73, 0x65],
        m is UInt ==> is_digit(text_bytes(m)[0]),
        m is Int ==> text_bytes(m)[0] == 0x2d,
        m is Str ==> text_bytes(m)[0] == 0x22,
        m is Array ==> text_bytes(m)[0] == 0x5b,
        m is Object ==> text_bytes(m)[0] == 0x7b,
        m is Float ==> text_bytes(m)[0] == 0x2d || is_digit(text_bytes(m)[0]),
{
    match m {
        JsonModel::Null => {
            let cs = seq!['n', 'u', 'l', 'l'];
            assert(json_text(m) == cs);
            lemma_ascii_seq(cs);
            assert(cs.map_values(|c: char| c as u8) =~= seq![0x6eu8, 0x75, 0x6c, 0x6c]);
        },
        JsonModel::Bool(b) => {
            if b {
                let cs = seq!['t', 'r', 'u', 'e'];
                lemma_ascii_seq(cs);
                assert(cs.map_values(|c: char| c as u8) =~= seq![0x74u8, 0x72, 0x75, 0x65]);
            } else {
                let cs = seq!['f', 'a', 'l', 's', 'e'];
                lemma_ascii_seq(cs);
                assert(cs.map_values(|c: char| c as u8) =~= seq![0x66u8, 0x61, 0x6c, 0x73, 0x65]);
            }
        },
        JsonModel::UInt(n) => {
            lemma_digit_bytes(n as nat);
            assert(is_digit(digit_bytes(n as nat)[0]));
        },
        JsonModel::Int(i) => {
            lemma_digit_bytes((-i) as nat);
            lemma_ascii_char('-');
            lemma_encode_utf8_concat(seq!['-'], digits((-i) as nat));
        },
        JsonModel::Str(t) => {
            lemma_ascii_char('"');
            lemma_encode_utf8_concat(seq!['"'], escape_chars(t));
            lemma_encode_utf8_concat(seq!['"'] + escape_chars(t), seq!['"']);
        },
        JsonModel::Array(items) => {
            lemma_ascii_char('[');
            lemma_encode_utf8_concat(seq!['['], items_from(items, 0));
            lemma_encode_utf8_concat(seq!['['] + items_from(items, 0), seq![']']);
        },
        JsonModel::Object(members) => {
            lemma_ascii_char('{');
            lemma_encode_utf8_concat(seq!['{'], members_from(members, 0));
            lemma_encode_utf8_concat(seq!['{'] + members_from(members, 0), seq!['}']);
        },
        JsonModel::Float(t) => {
            let w = encode_utf8(t);
            let tt = w + seq![0x2cu8];
            assert(tt[0] == 0x2d || is_digit(tt[0]));
            if w.len() == 0 {
                assert(tt[0] == 0x2c);
            }
        },
    }
}

/// The bytes of the elements of an array from `i` on.
proof fn lemma_items_bytes(items: Seq<JsonModel>, i: int)
    requires
        0 <= i < items.len(),
    ensures
        encode_utf8(items_from(items, i)) == (if i == 0 {
            Seq::<u8>::empty()
        } else {
            seq![0x2cu8]
        }) + text_bytes(items[i]) + encode_utf8(items_from(items, i + 1)),
{
    let sep = if i == 0 {
        Seq::<char>::empty()
    } else {
        seq![',']
    };
    lemma_encode_utf8_concat(sep, json_text(items[i]));
    lemma_encode_utf8_concat(sep + json_text(items[i]), items_from(items, i + 1));
    lemma_ascii_char(',');
    assert(encode_utf8(Seq::<char>::empty()) =~= Seq::<u8>::empty());
}

/// The bytes of the members of an object from `i` on.
proof fn lemma_members_bytes(members: Seq<(Seq<char>, JsonModel)>, i: int)
    requires
        0 <= i < members.len(),
    ensures
        encode_utf8(members_from(members, i)) == (if i == 0 {
            Seq::<u8>::empty()
        } else {
            seq![0x2cu8]
        }) + encode_utf8(quoted(members[i].0)) + seq![0x3au8] + text_bytes(members[i].1)
            + encode_utf8(members_from(members, i + 1)),
{
    let sep = if i == 0 {
        Seq::<char>::empty()
    } else {
        seq![',']
    };
    let a = sep + quoted(members[i].0);
    lemma_encode_utf8_concat(sep, quoted(members[i].0));
    lemma_encode_utf8_concat(a, seq![':']);
    lemma_encode_utf8_concat(a + seq![':'], json_text(members[i].1));
    lemma_encode_utf8_concat(a + seq![':'] + json_text(members[i].1), members_from(members, i + 1));
    lemma_ascii_char(',');
    lemma_ascii_char(':');
    assert(encode_utf8(Seq::<char>::empty()) =~= Seq::<u8>::empty());
}

proof fn lemma_skip_none(s: Seq<u8>, p: int)
    requires
        0 <= p < s.len(),
        !(s[p] == 0x20 || s[p] == 0x09 || s[p] == 0x0a || s[p] == 0x0d),
    ensures
        skip_ws(s, p) == p,
{
}

proof fn lemma_insert_last(acc: Seq<(Seq<char>, JsonModel)>, k: Seq<char>, v: JsonModel, i: int)
    requires
        0 <= i <= acc.len(),
        forall|j: int| 0 <= j < acc.len() ==> key_cmp(#[trigger] acc[j].0, k) < 0,
    ensures
        first_key_not_below(acc, k, i) == acc.len(),
    decreases acc.len() - i,
{
    if i < acc.len() {
        lemma_insert_last(acc, k, v, i + 1);
    }
}

/// The text of a value reads back as the value.
proof fn lemma_read_back(s: Seq<u8>, pos: int, depth: int, m: JsonModel)
    requires
        readable(m),
        0 <= depth,
        depth + depth_of(m) < MAX_DEPTH,
        holds(s, pos, text_bytes(m)),
        delimited(s, pos + text_bytes(m).len()),
    ensures
        parse_json(s, pos, depth) == Ok::<(JsonModel, int), ErrorKind>(
            (m, pos + text_bytes(m).len()),
        ),
    decreases m, 0int,
{
    let tb = text_bytes(m);
    lemma_text_nonempty(m);
    lemma_holds_at(s, pos, tb, 0);
    lemma_skip_none(s, pos);
    match m {
        JsonModel::Null => {
            assert(s.subrange(pos, pos + 4) == seq![0x6eu8, 0x75, 0x6c, 0x6c]);
            assert(parse_json(s, pos, depth) == Ok::<(JsonModel, int), ErrorKind>((m, pos + tb.len())));
        },
        JsonModel::Bool(b) => {
            assert(parse_json(s, pos, depth) == Ok::<(JsonModel, int), ErrorKind>((m, pos + tb.len())));
        },
        JsonModel::UInt(_) => {
            lemma_read_integer(s, pos, m);
            assert(parse_json(s, pos, depth) == Ok::<(JsonModel, int), ErrorKind>((m, pos + tb.len())));
        },
        JsonModel::Int(_) => {
            lemma_read_integer(s, pos, m);
            assert(parse_json(s, pos, depth) == Ok::<(JsonModel, int), ErrorKind>((m, pos + tb.len())));
        },
        JsonModel::Str(t) => {
            lemma_read_string(s, pos, t);
            assert(parse_json(s, pos, depth) == Ok::<(JsonModel, int), ErrorKind>((m, pos + tb.len())));
        },
        JsonModel::Array(items) => {
            lemma_read_array(s, pos, depth, items);
        },
        JsonModel::Object(members) => {
            lemma_read_object(s, pos, depth, members);
        },
        JsonModel::Float(t) => {
            lemma_number_local(s, pos, encode_utf8(t), m);
        },
    }
}

proof fn lemma_read_array(s: Seq<u8>, pos: int, depth: int, items: Seq<JsonModel>)
    requires
        readable(JsonModel::Array(items)),
        0 <= depth,
        depth + depth_of(JsonModel::Array(items)) < MAX_DEPTH,
        holds(s, pos, text_bytes(JsonModel::Array(items))),
        delimited(s, pos + text_bytes(JsonModel::Array(items)).len()),
    ensures
        parse_json(s, pos, depth) == Ok::<(JsonModel, int), ErrorKind>(
            (JsonModel::Array(items), pos + text_bytes(JsonModel::Array(items)).len()),
        ),
    decreases items, items.len() + 1,
{
    let m = JsonModel::Array(items);
    let tb = text_bytes(m);
    lemma_text_nonempty(m);
    lemma_holds_at(s, pos, tb, 0);
    lemma_skip_none(s, pos);
    lemma_ascii_char('[');
    lemma_ascii_char(']');
    lemma_encode_utf8_concat(seq!['['], items_from(items, 0));
    lemma_encode_utf8_concat(seq!['['] + items_from(items, 0), seq![']']);
    let body = encode_utf8(items_from(items, 0));
    assert(tb =~= seq![0x5bu8] + (body + seq![0x5du8]));
    lemma_holds_split(s, pos, seq![0x5bu8], body + seq![0x5du8]);
    if items.len() == 0 {
        assert(body =~= Seq::<u8>::empty()) by {
            assert(items_from(items, 0) =~= Seq::<char>::empty());
        }
        lemma_holds_at(s, pos + 1, body + seq![0x5du8], 0);
        lemma_skip_none(s, pos + 1);
        assert(items =~= Seq::<JsonModel>::empty());
    } else {
        lemma_items_bytes(items, 0);
        assert(readable(items[0]));
        lemma_text_nonempty(items[0]);
        assert(body + seq![0x5du8] =~= text_bytes(items[0]) + (encode_utf8(
            items_from(items, 1),
        ) + seq![0x5du8]));
        lemma_holds_at(s, pos + 1, body + seq![0x5du8], 0);
        lemma_skip_none(s, pos + 1);
        assert(Seq::<JsonModel>::empty() =~= items.subrange(0, 0));
        lemma_read_elements(s, pos + 1, depth + 1, items, 0, seq![]);
    }
}

proof fn lemma_read_object(s: Seq<u8>, pos: int, depth: int, members: Seq<(Seq<char>, JsonModel)>)
    requires
        readable(JsonModel::Object(members)),
        0 <= depth,
        depth + depth_of(JsonModel::Object(members)) < MAX_DEPTH,
        holds(s, pos, text_bytes(JsonModel::Object(members))),
        delimited(s, pos + text_bytes(JsonModel::Object(members)).len()),
    ensures
        parse_json(s, pos, depth) == Ok::<(JsonModel, int), ErrorKind>(
            (JsonModel::Object(members), pos + text_bytes(JsonModel::Object(members)).len()),
        ),
    decreases members, members.len() + 1,
{
    let m = JsonModel::Object(members);
    let tb = text_bytes(m);
    lemma_text_nonempty(m);
    lemma_holds_at(s, pos, tb, 0);
    lemma_skip_none(s, pos);
    lemma_ascii_char('{');
    lemma_ascii_char('}');
    lemma_encode_utf8_concat(seq!['{'], members_from(members, 0));
    lemma_encode_utf8_concat(seq!['{'] + members_from(members, 0), seq!['}']);
    let body = encode_utf8(members_from(members, 0));
    assert(tb =~= seq![0x7bu8] + (body + seq![0x7du8]));
    lemma_holds_split(s, pos, seq![0x7bu8], body + seq![0x7du8]);
    if members.len() == 0 {
        assert(body =~= Seq::<u8>::empty()) by {
            assert(members_from(members, 0) =~= Seq::<char>::empty());
        }
        lemma_holds_at(s, pos + 1, body + seq![0x7du8], 0);
        lemma_skip_none(s, pos + 1);
        assert(members =~= Seq::<(Seq<char>, JsonModel)>::empty());
    } else {
        lemma_members_bytes(members, 0);
        let k = members[0].0;
        lemma_text_nonempty(JsonModel::Str(k));
        assert(body + seq![0x7du8] =~= encode_utf8(quoted(k)) + (seq![0x3au8]
            + text_bytes(members[0].1) + encode_utf8(members_from(members, 1)) + seq![
            0x7du8,
        ]));
        lemma_holds_at(s, pos + 1, body + seq![0x7du8], 0);
        lemma_skip_none(s, pos + 1);
        assert(Seq::<(Seq<char>, JsonModel)>::empty() =~= members.subrange(0, 0));
        lemma_read_members(s, pos + 1, depth + 1, members, 0, seq![]);
    }
}

proof fn lemma_read_elements(
    s: Seq<u8>,
    p: int,
    depth: int,
    items: Seq<JsonModel>,
    i: int,
    acc: Seq<JsonModel>,
)
    requires
        0 <= i < items.len(),
        readable_items(items, i),
        1 <= depth,
        depth + items_depth(items, i) < MAX_DEPTH,
        holds(s, p, text_bytes(items[i]) + (encode_utf8(items_from(items, i + 1)) + seq![0x5du8])),
        acc == items.subrange(0, i),
    ensures
        parse_elements(s, p, depth, acc) == Ok::<(JsonModel, int), ErrorKind>(
            (
                JsonModel::Array(items),
                p + text_bytes(items[i]).len() + encode_utf8(items_from(items, i + 1)).len() + 1,
            ),
        ),
    decreases items, items.len() - i,
{
    let tb = text_bytes(items[i]);
    let rest = encode_utf8(items_from(items, i + 1)) + seq![0x5du8];
    lemma_holds_split(s, p, tb, rest);
    lemma_text_nonempty(items[i]);
    let q = p + tb.len();
    if i + 1 < items.len() {
        lemma_items_bytes(items, i + 1);
        let tb2 = text_bytes(items[i + 1]);
        let after = encode_utf8(items_from(items, i + 2)) + seq![0x5du8];
        assert(rest =~= seq![0x2cu8] + (tb2 + after));
        lemma_holds_at(s, q, rest, 0);
        lemma_read_back(s, p, depth, items[i]);
        lemma_skip_none(s, q);
        lemma_holds_split(s, q, seq![0x2cu8], tb2 + after);
        assert(acc.push(items[i]) =~= items.subrange(0, i + 1));
        lemma_read_elements(s, q + 1, depth, items, i + 1, acc.push(items[i]));
    } else {
        assert(items_from(items, i + 1) =~= Seq::<char>::empty());
        assert(encode_utf8(Seq::<char>::empty()) =~= Seq::<u8>::empty());
        assert(rest =~= seq![0x5du8]);
        lemma_holds_at(s, q, rest, 0);
        lemma_read_back(s, p, depth, items[i]);
        lemma_skip_none(s, q);
        assert(acc.push(items[i]) =~= items);
    }
}

proof fn lemma_read_members(
    s: Seq<u8>,
    p: int,
    depth: int,
    members: Seq<(Seq<char>, JsonModel)>,
    i: int,
    acc: Seq<(Seq<char>, JsonModel)>,
)
    requires
        0 <= i < members.len(),
        keys_increasing(members),
        readable_members(members, i),
        1 <= depth,
        depth + members_depth(members, i) < MAX_DEPTH,
        holds(
            s,
            p,
            encode_utf8(quoted(members[i].0)) + (seq![0x3au8] + text_bytes(members[i].1)
                + encode_utf8(members_from(members, i + 1)) + seq![0x7du8]),
        ),
        acc == members.subrange(0, i),
    ensures
        parse_members(s, p, depth, acc) == Ok::<(JsonModel, int), ErrorKind>(
            (
                JsonModel::Object(members),
                p + encode_utf8(quoted(members[i].0)).len() + 1 + text_bytes(members[i].1).len()
                    + encode_utf8(members_from(members, i + 1)).len() + 1,
            ),
        ),
    decreases members, members.len() - i,
{
    let (k, v) = members[i];
    let qk = encode_utf8(quoted(k));
    let tb = text_bytes(v);
    let tail = encode_utf8(members_from(members, i + 1)) + seq![0x7du8];
    assert(seq![0x3au8] + tb + encode_utf8(members_from(members, i + 1)) + seq![0x7du8] =~= seq![
        0x3au8,
    ] + (tb + tail));
    lemma_holds_split(s, p, qk, seq![0x3au8] + (tb + tail));
    lemma_holds_split(s, p + qk.len(), seq![0x3au8], tb + tail);
    lemma_holds_split(s, p + qk.len() + 1, tb, tail);
    lemma_read_string(s, p, k);
    lemma_skip_none(s, p);
    let r = p + qk.len();
    lemma_holds_at(s, r, seq![0x3au8], 0);
    lemma_skip_none(s, r);
    lemma_text_nonempty(v);
    let q2 = r + 1 + tb.len();
    assert forall|j: int| 0 <= j < acc.len() implies key_cmp(#[trigger] acc[j].0, k) < 0 by {
        assert(acc[j] == members[j]);
    }
    lemma_insert_last(acc, k, v, 0);
    assert(insert_member(acc, k, v) =~= acc.push((k, v)));
    if i + 1 < members.len() {
        lemma_members_bytes(members, i + 1);
        let k2 = members[i + 1].0;
        let after = seq![0x3au8] + text_bytes(members[i + 1].1) + encode_utf8(
            members_from(members, i + 2),
        ) + seq![0x7du8];
        assert(tail =~= seq![0x2cu8] + (encode_utf8(quoted(k2)) + after));
        lemma_holds_at(s, q2, tail, 0);
        lemma_read_back(s, r + 1, depth, v);
        lemma_skip_none(s, q2);
        lemma_holds_split(s, q2, seq![0x2cu8], encode_utf8(quoted(k2)) + after);
        lemma_text_nonempty(JsonModel::Str(k2));
        lemma_holds_at(s, q2 + 1, encode_utf8(quoted(k2)) + after, 0);
        assert(acc.push((k, v)) =~= members.subrange(0, i + 1));
        lemma_read_members(s, q2 + 1, depth, members, i + 1, acc.push((k, v)));
    } else {
        assert(members_from(members, i + 1) =~= Seq::<char>::empty());
        assert(encode_utf8(Seq::<char>::empty()) =~= Seq::<u8>::empty());
        assert(tail =~= seq![0x7du8]);
        lemma_holds_at(s, q2, tail, 0);
        lemma_read_back(s, r + 1, depth, v);
        lemma_skip_none(s, q2);
        assert(acc.push((k, v)) =~= members);
    }
}

/// Round trip of the text format: reading the text written for a value as
/// the reader would build it (see [`readable`]) that nests fewer than
/// `MAX_DEPTH` levels gives back exactly that value.
pub proof fn lemma_text_round_trip(m: JsonModel)
    requires
        readable(m),
        depth_of(m) < MAX_DEPTH,
    ensures
        decode_json(text_bytes(m)) == Ok::<JsonModel, ErrorKind>(m),
{
    let s = text_bytes(m);
    assert(s.subrange(0, s.len() as int) =~= s);
    lemma_read_back(s, 0, 0, m);
}

/// Writing is stable: the text written for what was read from a value's text
/// is that text again, byte for byte (for the values of
/// [`lemma_text_round_trip`]).
pub proof fn lemma_text_rewriting_is_stable(m: JsonModel)
    requires
        readable(m),
        depth_of(m) < MAX_DEPTH,
    ensures
        decode_json(text_bytes(m)) matches Ok(m2) && text_bytes(m2) == text_bytes(m),
{
    lemma_text_round_trip(m);
}

/// A byte that ends a number without being part of it.
pub open spec fn ends_number(s: Seq<u8>, q: int) -> bool {
    q == s.len() || (0 <= q < s.len() && !is_digit(s[q]) && s[q] != 0x2e && s[q] != 0x65 && s[q]
        != 0x45)
}

proof fn lemma_digits_end_local(s: Seq<u8>, pos: int, t: Seq<u8>, i: int, n: int)
    requires
        0 <= pos,
        0 <= i <= n,
        n < t.len(),
        pos + n <= s.len(),
        forall|j: int| 0 <= j < n ==> s[pos + j] == #[trigger] t[j],
        !is_digit(t[n]),
        pos + n == s.len() || !is_digit(s[pos + n]),
        digits_end(t, i) <= n,
    ensures
        digits_end(s, pos + i) == pos + digits_end(t, i),
    decreases n - i,
{
    if i < n && is_digit(t[i]) {
        assert(s[pos + i] == t[i]);
        lemma_digits_end_local(s, pos, t, i + 1, n);
    } else if i < n {
        assert(s[pos + i] == t[i]);
    }
}

proof fn lemma_digits_end_ge(t: Seq<u8>, i: int)
    requires
        0 <= i <= t.len(),
    ensures
        i <= digits_end(t, i) <= t.len(),
    decreases t.len() - i,
{
    if i < t.len() && is_digit(t[i]) {
        lemma_digits_end_ge(t, i + 1);
    }
}

/// What the reader makes of a number depends only on its own bytes and on
/// the byte after it not continuing it.
proof fn lemma_number_local(s: Seq<u8>, pos: int, w: Seq<u8>, mm: JsonModel)
    requires
        holds(s, pos, w),
        ends_number(s, pos + w.len()),
        parse_number(w + seq![0x2cu8], 0) == Ok::<(JsonModel, int), ErrorKind>((mm, w.len() as int)),
    ensures
        parse_number(s, pos) == Ok::<(JsonModel, int), ErrorKind>((mm, pos + w.len())),
{
    let t = w + seq![0x2cu8];
    let n = w.len() as int;
    assert forall|j: int| 0 <= j < n implies s[pos + j] == #[trigger] t[j] by {
        lemma_holds_at(s, pos, w, j);
    }
    assert(t[n] == 0x2c);
    // positions the parse looks at, in `t`
    let neg = t[0] == 0x2d;
    let digits_start: int = if neg {
        1
    } else {
        0
    };
    assert(digits_start < n);
    lemma_digits_end_ge(t, digits_start);
    lemma_digits_end_ge(t, digits_start + 1);
    let int_end: int = if t[digits_start] == 0x30 {
        digits_start + 1
    } else {
        digits_end(t, digits_start)
    };
    assert(int_end <= n) by {
        if int_end > n {
            assert(t[n] == 0x2c);
        }
    }
    if t[digits_start] != 0x30 {
        lemma_digits_end_local(s, pos, t, digits_start, n);
    }
    let has_frac = int_end < t.len() && t[int_end] == 0x2e;
    if has_frac {
        lemma_digits_end_ge(t, int_end + 1);
        lemma_digits_end_local(s, pos, t, int_end + 1, n);
    }
    let frac_end: int = if has_frac {
        digits_end(t, int_end + 1)
    } else {
        int_end
    };
    assert(frac_end <= n);
    if 0 <= frac_end < t.len() && (t[frac_end] == 0x65 || t[frac_end] == 0x45) {
        let q: int = if frac_end + 1 < t.len() && (t[frac_end + 1] == 0x2b || t[frac_end + 1] == 0x2d) {
            frac_end + 2
        } else {
            frac_end + 1
        };
        lemma_digits_end_ge(t, q);
        lemma_digits_end_local(s, pos, t, q, n);
    }
    assert(s.subrange(pos + digits_start, pos + int_end) =~= t.subrange(digits_start, int_end));
    assert(s.subrange(pos, pos + n) =~= t.subrange(0, n));
}

} // verus!
