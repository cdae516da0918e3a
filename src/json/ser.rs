//! The JSON writer. Like the CBOR encoder it keeps its pending work on an
//! explicit stack.
use vstd::prelude::*;
use vstd::utf8::{encode_utf8, valid_utf8, decode_utf8, encode_utf8_valid_utf8, encode_utf8_decode_utf8};

use crate::error::Error;
use crate::strings::utf8_text;
use super::value::{Value, Number, JsonModel, models, member_models, lemma_container_model};
use super::text::{
    json_text, items_from, members_from, quoted, escape_chars, escape_byte, escape_bytes, decimal,
    escape_char, hex_digit, lemma_encode_utf8_concat, lemma_escape_utf8,
};

verus! {

/// Relies on `itoa::Buffer::format`: the decimal digits of `i`, after a `-`
/// when it is negative.
#[verifier::external_body]
fn int_text(i: i128) -> (r: String)
    ensures
        r@ == decimal(i as int),
{
    itoa::Buffer::new().format(i).to_owned()
}

/// Appends the ASCII character `b`.
fn push_ascii(out: &mut Vec<u8>, b: u8)
    requires
        b < 0x80,
    ensures
        final(out)@ == old(out)@ + encode_utf8(seq![b as char]),
{
    proof {
        let c = b as char;
        assert(seq![c].drop_first() =~= Seq::<char>::empty());
        assert(encode_utf8(Seq::<char>::empty()) =~= Seq::<u8>::empty());
        let x = c as u32;
        assert(x == b as u32);
        assert((x & 0x7f) as u8 == b) by (bit_vector)
            requires
                x == b as u32,
                b < 0x80,
        ;
        assert(encode_utf8(seq![c]) =~= seq![b]);
    }
    out.push(b);
}

/// Appends every byte of `bytes`.
fn push_all(out: &mut Vec<u8>, bytes: &[u8])
    ensures
        final(out)@ == old(out)@ + bytes@,
{
    let mut i: usize = 0;
    while i < bytes.len()
        invariant
            i <= bytes@.len(),
            out@ == old(out)@ + bytes@.subrange(0, i as int),
        decreases bytes@.len() - i,
    {
        out.push(bytes[i]);
        i = i + 1;
        assert(out@ =~= old(out)@ + bytes@.subrange(0, i as int));
    }
    assert(bytes@.subrange(0, i as int) =~= bytes@);
}

fn hex_byte(n: u8) -> (r: u8)
    requires
        n < 16,
    ensures
        r == hex_digit(n as nat) as u8,
{
    if n < 10 {
        48 + n
    } else {
        87 + n
    }
}

/// Appends the escaped form of one byte of a string's UTF-8 encoding.
fn push_escaped_byte(out: &mut Vec<u8>, b: u8)
    ensures
        final(out)@ == old(out)@ + escape_byte(b),
{
    let ghost c = b as char;
    if b >= 0x80 {
        out.push(b);
    } else if b == 0x22 || b == 0x5c {
        out.push(0x5c);
        out.push(b);
        proof {
            assert(escape_char(c).map_values(|x: char| x as u8) =~= seq![0x5cu8, b]);
        }
    } else if b == 0x08 || b == 0x09 || b == 0x0a || b == 0x0c || b == 0x0d {
        let letter: u8 = if b == 0x08 {
            0x62
        } else if b == 0x09 {
            0x74
        } else if b == 0x0a {
            0x6e
        } else if b == 0x0c {
            0x66
        } else {
            0x72
        };
        out.push(0x5c);
        out.push(letter);
        proof {
            assert(escape_char(c).map_values(|x: char| x as u8) =~= seq![0x5cu8, letter]);
        }
    } else if b < 0x20 {
        let hi = hex_byte(b / 16);
        let lo = hex_byte(b % 16);
        out.push(0x5c);
        out.push(0x75);
        out.push(0x30);
        out.push(0x30);
        out.push(hi);
        out.push(lo);
        proof {
            assert(escape_char(c).map_values(|x: char| x as u8) =~= seq![
                0x5cu8,
                0x75u8,
                0x30u8,
                0x30u8,
                hi,
                lo,
            ]);
        }
    } else {
        out.push(b);
        proof {
            assert(escape_char(c).map_values(|x: char| x as u8) =~= seq![b]);
        }
    }
    assert(final(out)@ =~= old(out)@ + escape_byte(b));
}

/// Appends `value` as a JSON string literal: quoted, with `"`, `\` and the
/// control characters escaped and every other character, non-ASCII ones too,
/// as it is.
pub fn escape_str(value: &str, out: &mut Vec<u8>)
    ensures
        final(out)@ == old(out)@ + encode_utf8(quoted(value@)),
{
    push_ascii(out, 0x22);
    let bytes = value.as_bytes();
    let ghost start = out@;
    let mut i: usize = 0;
    assert(escape_bytes(bytes@.subrange(0, 0)) =~= Seq::<u8>::empty());
    while i < bytes.len()
        invariant
            i <= bytes@.len(),
            out@ == start + escape_bytes(bytes@.subrange(0, i as int)),
        decreases bytes@.len() - i,
    {
        push_escaped_byte(out, bytes[i]);
        proof {
            assert(bytes@.subrange(0, i + 1).drop_last() =~= bytes@.subrange(0, i as int));
        }
        i = i + 1;
        assert(out@ =~= start + escape_bytes(bytes@.subrange(0, i as int)));
    }
    push_ascii(out, 0x22);
    proof {
        assert(bytes@.subrange(0, i as int) =~= bytes@);
        lemma_escape_utf8(value@);
        lemma_encode_utf8_concat(seq!['"'], escape_chars(value@));
        lemma_encode_utf8_concat(seq!['"'] + escape_chars(value@), seq!['"']);
        assert(final(out)@ =~= old(out)@ + encode_utf8(quoted(value@)));
    }
}

/// Appends the UTF-8 bytes of `t`.
fn push_text(out: &mut Vec<u8>, t: &str)
    ensures
        final(out)@ == old(out)@ + encode_utf8(t@),
{
    push_all(out, t.as_bytes());
}

/// How many steps the writer takes on `m`.
pub open spec fn steps(m: JsonModel) -> nat
    decreases m, 0int,
{
    match m {
        JsonModel::Array(items) => 2 + items.len() + steps_from(items, 0),
        JsonModel::Object(members) => 2 + members.len() + member_steps_from(members, 0),
        _ => 1,
    }
}

pub open spec fn steps_from(items: Seq<JsonModel>, i: int) -> nat
    decreases items, items.len() - i,
{
    if i < 0 || i >= items.len() {
        0
    } else {
        steps(items[i]) + steps_from(items, i + 1)
    }
}

pub open spec fn member_steps_from(members: Seq<(Seq<char>, JsonModel)>, i: int) -> nat
    decreases members, members.len() - i,
{
    if i < 0 || i >= members.len() {
        0
    } else {
        steps(members[i].1) + member_steps_from(members, i + 1)
    }
}

/// One unit of pending work of the writer.
enum Layer<'a> {
    Single(&'a Value),
    Items(&'a Vec<Value>, usize),
    Members(&'a Vec<(String, Value)>, usize),
}

spec fn layer_text(l: Layer) -> Seq<char> {
    match l {
        Layer::Single(v) => json_text(v.model()),
        Layer::Items(vs, i) => items_from(models(vs@), i as int) + seq![']'],
        Layer::Members(ms, i) => members_from(member_models(ms@), i as int) + seq!['}'],
    }
}

spec fn layer_weight(l: Layer) -> int {
    match l {
        Layer::Single(v) => steps(v.model()) as int,
        Layer::Items(vs, i) => 1 + (vs@.len() - i) + steps_from(models(vs@), i as int),
        Layer::Members(ms, i) => 1 + (ms@.len() - i) + member_steps_from(
            member_models(ms@),
            i as int,
        ),
    }
}

spec fn layer_in_bounds(l: Layer) -> bool {
    match l {
        Layer::Single(_) => true,
        Layer::Items(vs, i) => i <= vs@.len(),
        Layer::Members(ms, i) => i <= ms@.len(),
    }
}

spec fn pending(s: Seq<Layer>) -> Seq<char>
    decreases s.len(),
{
    if s.len() == 0 {
        seq![]
    } else {
        layer_text(s.last()) + pending(s.drop_last())
    }
}

spec fn weight(s: Seq<Layer>) -> int
    decreases s.len(),
{
    if s.len() == 0 {
        0
    } else {
        layer_weight(s.last()) + weight(s.drop_last())
    }
}

spec fn all_in_bounds(s: Seq<Layer>) -> bool
    decreases s.len(),
{
    s.len() == 0 || (layer_in_bounds(s.last()) && all_in_bounds(s.drop_last()))
}

proof fn lemma_push(s: Seq<Layer>, l: Layer)
    ensures
        pending(s.push(l)) == layer_text(l) + pending(s),
        weight(s.push(l)) == layer_weight(l) + weight(s),
        all_in_bounds(s.push(l)) == (layer_in_bounds(l) && all_in_bounds(s)),
{
    assert(s.push(l).drop_last() =~= s);
}

proof fn lemma_weight_nonneg(s: Seq<Layer>)
    requires
        all_in_bounds(s),
    ensures
        weight(s) >= 0,
    decreases s.len(),
{
    if s.len() > 0 {
        lemma_weight_nonneg(s.drop_last());
    }
}

proof fn lemma_items_step(vs: &Vec<Value>, i: usize)
    requires
        i < vs.len(),
    ensures
        layer_text(Layer::Items(vs, i)) == (if i == 0 {
            seq![]
        } else {
            seq![',']
        }) + json_text(vs@[i as int].model()) + layer_text(Layer::Items(vs, (i + 1) as usize)),
        layer_weight(Layer::Items(vs, i)) == 1 + layer_weight(Layer::Items(vs, (i + 1) as usize))
            + layer_weight(Layer::Single(&vs@[i as int])),
{
    assert(vs.len() == vs@.len());
    let ms = models(vs@);
    assert(ms[i as int] == vs@[i as int].model());
}

proof fn lemma_members_step(es: &Vec<(String, Value)>, i: usize)
    requires
        i < es.len(),
    ensures
        layer_text(Layer::Members(es, i)) == (if i == 0 {
            seq![]
        } else {
            seq![',']
        }) + quoted(es@[i as int].0@) + seq![':'] + json_text(es@[i as int].1.model())
            + layer_text(Layer::Members(es, (i + 1) as usize)),
        layer_weight(Layer::Members(es, i)) == 1 + layer_weight(
            Layer::Members(es, (i + 1) as usize),
        ) + layer_weight(Layer::Single(&es@[i as int].1)),
{
    assert(es.len() == es@.len());
    let ms = member_models(es@);
    assert(ms[i as int] == (es@[i as int].0@, es@[i as int].1.model()));
}

proof fn lemma_open(v: &Value)
    ensures
        v matches Value::Array(a) ==> json_text(v.model()) == seq!['['] + layer_text(
            Layer::Items(&a.0, 0),
        ) && layer_weight(Layer::Items(&a.0, 0)) < layer_weight(Layer::Single(v)),
        v matches Value::Object(o) ==> json_text(v.model()) == seq!['{'] + layer_text(
            Layer::Members(&o.entries, 0),
        ) && layer_weight(Layer::Members(&o.entries, 0)) < layer_weight(Layer::Single(v)),
{
    lemma_container_model(v);
}

/// Appends `chars` to the written text, whose bytes `out` holds.
proof fn lemma_append(done: Seq<char>, chars: Seq<char>)
    ensures
        encode_utf8(done + chars) == encode_utf8(done) + encode_utf8(chars),
{
    lemma_encode_utf8_concat(done, chars);
}

/// Writes `value` as compact JSON text.
///
/// Members are written in the order the object holds them (increasing key
/// order for objects this library builds); numbers as decimal integers or as
/// the literal a float holds.
#[verifier::rlimit(40)]
pub fn to_string(value: &Value) -> (r: Result<String, Error>)
    ensures
        r matches Ok(t) && t@ == json_text(value.model()),
{
    let mut out: Vec<u8> = Vec::new();
    let ghost mut done: Seq<char> = Seq::empty();
    let mut stack: Vec<Layer> = Vec::new();
    proof {
        lemma_push(stack@, Layer::Single(value));
        assert(encode_utf8(Seq::<char>::empty()) =~= Seq::<u8>::empty());
    }
    stack.push(Layer::Single(value));
    proof {
        assert(pending(Seq::<Layer>::empty()) =~= Seq::<char>::empty());
        assert(done + pending(stack@) =~= json_text(value.model()));
    }
    while stack.len() > 0
        invariant
            out@ == encode_utf8(done),
            done + pending(stack@) == json_text(value.model()),
            all_in_bounds(stack@),
        decreases weight(stack@),
    {
        let ghost before = stack@;
        let ghost done0 = done;
        let top = stack.pop().unwrap();
        proof {
            assert(stack@ =~= before.drop_last());
            assert(pending(before) == layer_text(before.last()) + pending(stack@));
            assert(weight(before) == layer_weight(before.last()) + weight(stack@));
            assert(all_in_bounds(before) == (layer_in_bounds(before.last()) && all_in_bounds(stack@)));
            lemma_weight_nonneg(stack@);
        }
        let ghost written: Seq<char>;
        match top {
            Layer::Single(v) => {
                proof {
                    lemma_open(v);
                }
                match v {
                    Value::Null => {
                        push_text(&mut out, "null");
                        proof {
                            reveal_strlit("null");
                            written = "null"@;
                        }
                    },
                    Value::Bool(b) => {
                        if *b {
                            push_text(&mut out, "true");
                            proof {
                                reveal_strlit("true");
                                written = "true"@;
                            }
                        } else {
                            push_text(&mut out, "false");
                            proof {
                                reveal_strlit("false");
                                written = "false"@;
                            }
                        }
                    },
                    Value::Number(Number::U64(n)) => {
                        let t = int_text(*n as i128);
                        push_text(&mut out, t.as_str());
                        proof {
                            written = t@;
                        }
                    },
                    Value::Number(Number::I64(n)) => {
                        let t = int_text(*n as i128);
                        push_text(&mut out, t.as_str());
                        proof {
                            written = t@;
                        }
                    },
                    Value::Number(Number::Float(t)) => {
                        push_text(&mut out, t.as_str());
                        proof {
                            written = t@;
                        }
                    },
                    Value::String(t) => {
                        escape_str(t.as_str(), &mut out);
                        proof {
                            written = quoted(t@);
                        }
                    },
                    Value::Array(a) => {
                        push_text(&mut out, "[");
                        proof {
                            reveal_strlit("[");
                            written = "["@;
                            lemma_push(stack@, Layer::Items(&a.0, 0));
                        }
                        stack.push(Layer::Items(&a.0, 0));
                    },
                    Value::Object(o) => {
                        push_text(&mut out, "{");
                        proof {
                            reveal_strlit("{");
                            written = "{"@;
                            lemma_push(stack@, Layer::Members(&o.entries, 0));
                        }
                        stack.push(Layer::Members(&o.entries, 0));
                    },
                }
            },
            Layer::Items(vs, i) => {
                if i < vs.len() {
                    if i > 0 {
                        push_text(&mut out, ",");
                        proof {
                            reveal_strlit(",");
                            written = ","@;
                        }
                    } else {
                        proof {
                            written = Seq::empty();
                            assert(out@ =~= out@ + encode_utf8(written));
                        }
                    }
                    proof {
                        lemma_items_step(vs, i);
                        lemma_push(stack@, Layer::Items(vs, (i + 1) as usize));
                        lemma_push(
                            stack@.push(Layer::Items(vs, (i + 1) as usize)),
                            Layer::Single(&vs[i as int]),
                        );
                    }
                    stack.push(Layer::Items(vs, i + 1));
                    stack.push(Layer::Single(&vs[i]));
                } else {
                    push_text(&mut out, "]");
                    proof {
                        reveal_strlit("]");
                        written = "]"@;
                    }
                }
            },
            Layer::Members(es, i) => {
                if i < es.len() {
                    let ghost sep: Seq<char>;
                    if i > 0 {
                        push_text(&mut out, ",");
                        proof {
                            reveal_strlit(",");
                            sep = ","@;
                        }
                    } else {
                        proof {
                            sep = Seq::empty();
                            assert(out@ =~= out@ + encode_utf8(sep));
                        }
                    }
                    let ghost o1 = out@;
                    escape_str(es[i].0.as_str(), &mut out);
                    let ghost o2 = out@;
                    push_text(&mut out, ":");
                    proof {
                        reveal_strlit(":");
                        written = sep + quoted(es@[i as int].0@) + ":"@;
                        lemma_encode_utf8_concat(sep, quoted(es@[i as int].0@));
                        lemma_encode_utf8_concat(sep + quoted(es@[i as int].0@), ":"@);
                        assert(out@ =~= encode_utf8(done0) + encode_utf8(written)) by {
                            assert(out@ =~= encode_utf8(done0) + encode_utf8(sep) + encode_utf8(
                                quoted(es@[i as int].0@),
                            ) + encode_utf8(":"@));
                        }
                        lemma_members_step(es, i);
                        lemma_push(stack@, Layer::Members(es, (i + 1) as usize));
                        lemma_push(
                            stack@.push(Layer::Members(es, (i + 1) as usize)),
                            Layer::Single(&es[i as int].1),
                        );
                    }
                    stack.push(Layer::Members(es, i + 1));
                    stack.push(Layer::Single(&es[i].1));
                } else {
                    push_text(&mut out, "}");
                    proof {
                        reveal_strlit("}");
                        written = "}"@;
                    }
                }
            },
        }
        proof {
            lemma_append(done0, written);
            done = done0 + written;
            assert(done + pending(stack@) =~= json_text(value.model()));
        }
    }
    proof {
        encode_utf8_valid_utf8(done);
        encode_utf8_decode_utf8(done);
        assert(done =~= json_text(value.model()));
    }
    match utf8_text(out.as_slice()) {
        Some(t) => Ok(t),
        None => Ok(String::new()),
    }
}

} // verus!
