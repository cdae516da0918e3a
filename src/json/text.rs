//! The JSON text of a value, as characters, and the facts about UTF-8 that
//! writing it needs.
use vstd::prelude::*;
use vstd::utf8::{encode_utf8, encode_scalar, is_ascii_chars, is_ascii_chars_encode_utf8};

use super::value::JsonModel;

verus! {

/// The lowercase hexadecimal digit for `n < 16`.
pub open spec fn hex_digit(n: nat) -> char {
    (if n < 10 {
        48 + n
    } else {
        87 + n
    }) as u8 as char
}

/// How one character of a string is written inside quotes: `"` and `\`
/// behind a backslash, control characters as `\b`, `\t`, `\n`, `\f`, `\r` or
/// `\u00XX`, and every other character as itself.
pub open spec fn escape_char(c: char) -> Seq<char> {
    if c == '"' {
        seq!['\\', '"']
    } else if c == '\\' {
        seq!['\\', '\\']
    } else if c == '\x08' {
        seq!['\\', 'b']
    } else if c == '\t' {
        seq!['\\', 't']
    } else if c == '\n' {
        seq!['\\', 'n']
    } else if c == '\x0c' {
        seq!['\\', 'f']
    } else if c == '\r' {
        seq!['\\', 'r']
    } else if (c as u32) < 0x20 {
        seq!['\\', 'u', '0', '0', hex_digit((c as u32 / 16) as nat), hex_digit((c as u32 % 16) as nat)]
    } else {
        seq![c]
    }
}

/// The characters of `t`, each escaped.
pub open spec fn escape_chars(t: Seq<char>) -> Seq<char>
    decreases t.len(),
{
    if t.len() == 0 {
        seq![]
    } else {
        escape_chars(t.drop_last()) + escape_char(t.last())
    }
}

/// A string literal: `t` escaped, between double quotes.
pub open spec fn quoted(t: Seq<char>) -> Seq<char> {
    seq!['"'] + escape_chars(t) + seq!['"']
}

/// The decimal digits of `n`, without leading zeros.
pub open spec fn digits(n: nat) -> Seq<char>
    decreases n,
{
    if n < 10 {
        seq![hex_digit(n)]
    } else {
        digits(n / 10).push(hex_digit(n % 10))
    }
}

/// `i` in decimal, with a leading `-` when negative.
pub open spec fn decimal(i: int) -> Seq<char> {
    if i < 0 {
        seq!['-'] + digits((-i) as nat)
    } else {
        digits(i as nat)
    }
}

/// The compact JSON text of `m`: no whitespace, members in the order held.
pub open spec fn json_text(m: JsonModel) -> Seq<char>
    decreases m, 0int,
{
    match m {
        JsonModel::Null => seq!['n', 'u', 'l', 'l'],
        JsonModel::Bool(b) => if b {
            seq!['t', 'r', 'u', 'e']
        } else {
            seq!['f', 'a', 'l', 's', 'e']
        },
        JsonModel::UInt(n) => decimal(n as int),
        JsonModel::Int(n) => decimal(n as int),
        JsonModel::Float(t) => t,
        JsonModel::Str(t) => quoted(t),
        JsonModel::Array(items) => seq!['['] + items_from(items, 0) + seq![']'],
        JsonModel::Object(members) => seq!['{'] + members_from(members, 0) + seq!['}'],
    }
}

/// The elements of an array from index `i` on, each after a comma but the
/// first one of the array.
pub open spec fn items_from(items: Seq<JsonModel>, i: int) -> Seq<char>
    decreases items, items.len() - i,
{
    if i < 0 || i >= items.len() {
        seq![]
    } else {
        (if i == 0 {
            seq![]
        } else {
            seq![',']
        }) + json_text(items[i]) + items_from(items, i + 1)
    }
}

/// The members of an object from index `i` on, as `"key":value`, each after a
/// comma but the first one of the object.
pub open spec fn members_from(members: Seq<(Seq<char>, JsonModel)>, i: int) -> Seq<char>
    decreases members, members.len() - i,
{
    if i < 0 || i >= members.len() {
        seq![]
    } else {
        (if i == 0 {
            seq![]
        } else {
            seq![',']
        }) + quoted(members[i].0) + seq![':'] + json_text(members[i].1) + members_from(
            members,
            i + 1,
        )
    }
}

/// How one byte of a string's UTF-8 encoding is written: an ASCII byte as the
/// bytes of its escape, any other byte as itself.
pub open spec fn escape_byte(b: u8) -> Seq<u8> {
    if b < 0x80 {
        escape_char(b as char).map_values(|c: char| c as u8)
    } else {
        seq![b]
    }
}

/// The bytes of `s`, each escaped.
pub open spec fn escape_bytes(s: Seq<u8>) -> Seq<u8>
    decreases s.len(),
{
    if s.len() == 0 {
        seq![]
    } else {
        escape_bytes(s.drop_last()) + escape_byte(s.last())
    }
}

pub proof fn lemma_encode_utf8_concat(a: Seq<char>, b: Seq<char>)
    ensures
        encode_utf8(a + b) == encode_utf8(a) + encode_utf8(b),
    decreases a.len(),
{
    if a.len() > 0 {
        lemma_encode_utf8_concat(a.drop_first(), b);
        assert((a + b).drop_first() =~= a.drop_first() + b);
        assert((a + b)[0] == a[0]);
        assert(encode_utf8(a + b) =~= encode_utf8(a) + encode_utf8(b));
    } else {
        assert(a + b =~= b);
        assert(encode_utf8(a) =~= Seq::<u8>::empty());
    }
}

proof fn lemma_escape_bytes_concat(a: Seq<u8>, b: Seq<u8>)
    ensures
        escape_bytes(a + b) == escape_bytes(a) + escape_bytes(b),
    decreases b.len(),
{
    if b.len() == 0 {
        assert(a + b =~= a);
        assert(escape_bytes(a) + escape_bytes(b) =~= escape_bytes(a));
    } else {
        lemma_escape_bytes_concat(a, b.drop_last());
        assert((a + b).drop_last() =~= a + b.drop_last());
        assert((a + b).last() == b.last());
        assert(escape_bytes(a + b) =~= escape_bytes(a) + escape_bytes(b));
    }
}

/// Escape sequences are ASCII, so their UTF-8 encoding is their bytes.
proof fn lemma_escape_char_ascii(c: char)
    requires
        (c as u32) < 0x80,
    ensures
        encode_utf8(escape_char(c)) == escape_char(c).map_values(|x: char| x as u8),
{
    let e = escape_char(c);
    assert(is_ascii_chars(e)) by {
        assert forall|i: int| 0 <= i < e.len() implies '\0' <= #[trigger] e[i] <= '\u{7f}' by {
            if (c as u32) < 0x20 && !(c == '\x08' || c == '\t' || c == '\n' || c == '\x0c' || c
                == '\r') {
                let hi = (c as u32 / 16) as nat;
                let lo = (c as u32 % 16) as nat;
                assert(hi < 16 && lo < 16);
            }
        }
    }
    is_ascii_chars_encode_utf8(e);
    assert(encode_utf8(e) =~= e.map_values(|x: char| x as u8));
}

proof fn lemma_high_bytes_unescaped(s: Seq<u8>)
    requires
        forall|i: int| 0 <= i < s.len() ==> #[trigger] s[i] >= 0x80,
    ensures
        escape_bytes(s) == s,
    decreases s.len(),
{
    if s.len() > 0 {
        lemma_high_bytes_unescaped(s.drop_last());
        assert(s.drop_last().push(s.last()) =~= s);
    }
}

/// Escaping the bytes of a text is writing the bytes of the escaped text.
pub proof fn lemma_escape_utf8(t: Seq<char>)
    ensures
        escape_bytes(encode_utf8(t)) == encode_utf8(escape_chars(t)),
    decreases t.len(),
{
    if t.len() > 0 {
        let front = t.drop_last();
        let c = t.last();
        lemma_escape_utf8(front);
        assert(t =~= front + seq![c]);
        lemma_encode_utf8_concat(front, seq![c]);
        lemma_escape_bytes_concat(encode_utf8(front), encode_utf8(seq![c]));
        lemma_encode_utf8_concat(escape_chars(front), escape_char(c));
        assert(seq![c].drop_first() =~= Seq::<char>::empty());
        assert(encode_utf8(Seq::<char>::empty()) =~= Seq::<u8>::empty());
        assert(encode_utf8(seq![c]) =~= encode_scalar(c as u32) + encode_utf8(Seq::<char>::empty()));
        assert(encode_utf8(seq![c]) =~= encode_scalar(c as u32));
        let x = c as u32;
        if x < 0x80 {
            assert(encode_scalar(x) == seq![(x & 0x7f) as u8]);
            assert((x & 0x7f) as u8 == x as u8) by (bit_vector)
                requires
                    x < 0x80,
            ;
            assert(escape_bytes(seq![x as u8]) =~= escape_byte(x as u8)) by {
                assert(seq![x as u8].drop_last() =~= Seq::<u8>::empty());
                assert(escape_bytes(Seq::<u8>::empty()) =~= Seq::<u8>::empty());
            }
            assert((x as u8) as char == c) by {
                vstd::utf8::char_u32_cast(c, x);
            }
            lemma_escape_char_ascii(c);
        } else {
            let e = encode_scalar(x);
            assert forall|i: int| 0 <= i < e.len() implies #[trigger] e[i] >= 0x80 by {
                assert((0x80u8 | (x & 0x3F) as u8) >= 0x80) by (bit_vector);
                assert((0xC0u8 | ((x >> 6) & 0x1F) as u8) >= 0x80) by (bit_vector);
                assert((0xE0u8 | ((x >> 12) & 0x0F) as u8) >= 0x80) by (bit_vector);
                assert((0xF0u8 | ((x >> 18) & 0x7) as u8) >= 0x80) by (bit_vector);
                assert((0x80u8 | ((x >> 6) & 0x3F) as u8) >= 0x80) by (bit_vector);
                assert((0x80u8 | ((x >> 12) & 0x3F) as u8) >= 0x80) by (bit_vector);
            }
            lemma_high_bytes_unescaped(e);
            assert(escape_char(c) == seq![c]);
        }
    } else {
        assert(encode_utf8(t) =~= Seq::<u8>::empty());
    }
}

} // verus!
