//! The CBOR encoder. It walks the value with an explicit stack, so the depth
//! of the value never reaches the call stack.
use vstd::prelude::*;
use vstd::utf8::encode_utf8;

use crate::error::{Error, ErrorKind};
use super::model::{
    Model, be_bytes, head, float_encoding, encode, encode_items, encode_entries, encodable,
    encodable_items, encodable_entries,
};
use super::value::{Value, models, entry_models};
use super::float::{half_bits, single_bits};

verus! {

/// Appends `n` as `k` big-endian bytes.
fn push_be(out: &mut Vec<u8>, n: u64, k: usize)
    requires
        k <= 8,
    ensures
        final(out)@ == old(out)@ + be_bytes(n as nat, k as nat),
    decreases k,
{
    if k == 0 {
        assert(old(out)@ + be_bytes(n as nat, 0) =~= old(out)@);
        return;
    }
    push_be(out, n / 256, k - 1);
    out.push((n % 256) as u8);
    assert(final(out)@ =~= old(out)@ + be_bytes(n as nat, k as nat));
}

/// Appends the shortest head of major type `major` with argument `n`.
pub fn write_head(out: &mut Vec<u8>, major: u8, n: u64)
    requires
        major < 8,
    ensures
        final(out)@ == old(out)@ + head(major, n as nat),
{
    let mask: u8 = major * 32;
    if n <= 23 {
        out.push(mask + n as u8);
        assert(final(out)@ =~= old(out)@ + head(major, n as nat));
    } else if n <= 0xff {
        out.push(mask + 24);
        out.push(n as u8);
        assert(final(out)@ =~= old(out)@ + head(major, n as nat));
    } else if n <= 0xffff {
        out.push(mask + 25);
        push_be(out, n, 2);
        assert(final(out)@ =~= old(out)@ + head(major, n as nat));
    } else if n <= 0xffff_ffff {
        out.push(mask + 26);
        push_be(out, n, 4);
        assert(final(out)@ =~= old(out)@ + head(major, n as nat));
    } else {
        out.push(mask + 27);
        push_be(out, n, 8);
        assert(final(out)@ =~= old(out)@ + head(major, n as nat));
    }
}

/// Appends every byte of `bytes`.
fn push_all(out: &mut Vec<u8>, bytes: &[u8])
    ensures
        final(out)@ == old(out)@ + bytes@,
{
    let mut i: usize = 0;
    while i < bytes.len()
        invariant
            i <= bytes@.len(),
            out@ == old(out)@ + bytes@.subrange(0, i as int),
        decreases bytes@.len() - i,
    {
        out.push(bytes[i]);
        i = i + 1;
        assert(out@ =~= old(out)@ + bytes@.subrange(0, i as int));
    }
    assert(bytes@.subrange(0, i as int) =~= bytes@);
}

/// Appends the canonical encoding of the double with bits `bits`.
pub fn write_float(out: &mut Vec<u8>, bits: u64)
    ensures
        final(out)@ == old(out)@ + float_encoding(bits),
{
    match half_bits(bits) {
        Some(h) => {
            out.push(0xf9);
            push_be(out, h as u64, 2);
            assert(final(out)@ =~= old(out)@ + float_encoding(bits));
        },
        None => match single_bits(bits) {
            Some(f) => {
                out.push(0xfa);
                push_be(out, f as u64, 4);
                assert(final(out)@ =~= old(out)@ + float_encoding(bits));
            },
            None => {
                out.push(0xfb);
                push_be(out, bits, 8);
                assert(final(out)@ =~= old(out)@ + float_encoding(bits));
            },
        },
    }
}

pub proof fn lemma_encode_nonempty(m: Model)
    ensures
        encode(m).len() >= 1,
{
    match m {
        Model::Bytes(b) => {
            assert((head(2, b.len()) + b).len() >= 1);
        },
        Model::Text(t) => {
            assert((head(3, encode_utf8(t).len()) + encode_utf8(t)).len() >= 1);
        },
        Model::Array(items) => {
            assert((head(4, items.len()) + encode_items(items)).len() >= 1);
        },
        Model::Object(entries) => {
            assert((head(5, entries.len()) + encode_entries(entries)).len() >= 1);
        },
        Model::Tag(t, inner) => {
            assert((head(6, t as nat) + encode(*inner)).len() >= 1);
        },
        _ => {},
    }
}

/// Appends the encoding of a value that is neither a container nor a tag, or
/// returns `false` when it cannot be encoded.
fn write_scalar(out: &mut Vec<u8>, v: &Value) -> (ok: bool)
    requires
        !(v is Array || v is Object || v is Tag),
    ensures
        ok == encodable(v.model()),
        ok ==> final(out)@ == old(out)@ + encode(v.model()),
{
    match v {
        Value::Null => out.push(0xf6),
        Value::Bool(b) => out.push(if *b { 0xf5 } else { 0xf4 }),
        Value::Integer(i) => {
            if 0 <= *i && *i <= 0xffff_ffff_ffff_ffff {
                write_head(out, 0, *i as u64);
            } else if -0x1_0000_0000_0000_0000 <= *i && *i < 0 {
                write_head(out, 1, (-(*i + 1)) as u64);
            } else {
                return false;
            }
        },
        Value::Float(bits) => write_float(out, *bits),
        Value::Bytes(b) => {
            write_head(out, 2, b.len() as u64);
            push_all(out, b.as_slice());
        },
        Value::Text(t) => {
            let bytes = t.as_str().as_bytes();
            write_head(out, 3, bytes.len() as u64);
            push_all(out, bytes);
        },
        _ => {},
    }
    assert(final(out)@ =~= old(out)@ + encode(v.model()));
    true
}

/// One unit of pending work of the encoder.
enum Layer<'a> {
    /// A value still to be written.
    Single(&'a Value),
    /// The elements of an array from the given index on.
    Items(&'a Vec<Value>, usize),
    /// The entries of a map from the given index on.
    Entries(&'a Vec<(Value, Value)>, usize),
}

spec fn layer_bytes(l: Layer) -> Seq<u8> {
    match l {
        Layer::Single(v) => encode(v.model()),
        Layer::Items(vs, i) => encode_items(models(vs@).subrange(i as int, vs@.len() as int)),
        Layer::Entries(es, i) => encode_entries(
            entry_models(es@).subrange(i as int, es@.len() as int),
        ),
    }
}

spec fn layer_encodable(l: Layer) -> bool {
    match l {
        Layer::Single(v) => encodable(v.model()),
        Layer::Items(vs, i) => encodable_items(models(vs@).subrange(i as int, vs@.len() as int)),
        Layer::Entries(es, i) => encodable_entries(
            entry_models(es@).subrange(i as int, es@.len() as int),
        ),
    }
}

spec fn layer_in_bounds(l: Layer) -> bool {
    match l {
        Layer::Single(_) => true,
        Layer::Items(vs, i) => i <= vs@.len(),
        Layer::Entries(es, i) => i <= es@.len(),
    }
}

spec fn layer_weight(l: Layer) -> int {
    match l {
        Layer::Single(v) => 3 * encode(v.model()).len() - 1,
        _ => 3 * layer_bytes(l).len() as int + 1,
    }
}

/// What the stack still has to write, its top first.
spec fn pending(s: Seq<Layer>) -> Seq<u8>
    decreases s.len(),
{
    if s.len() == 0 {
        seq![]
    } else {
        layer_bytes(s.last()) + pending(s.drop_last())
    }
}

spec fn all_encodable(s: Seq<Layer>) -> bool
    decreases s.len(),
{
    s.len() == 0 || (layer_encodable(s.last()) && all_encodable(s.drop_last()))
}

spec fn all_in_bounds(s: Seq<Layer>) -> bool
    decreases s.len(),
{
    s.len() == 0 || (layer_in_bounds(s.last()) && all_in_bounds(s.drop_last()))
}

spec fn weight(s: Seq<Layer>) -> int
    decreases s.len(),
{
    if s.len() == 0 {
        0
    } else {
        layer_weight(s.last()) + weight(s.drop_last())
    }
}

proof fn lemma_weight_nonneg(s: Seq<Layer>)
    ensures
        weight(s) >= 0,
    decreases s.len(),
{
    if s.len() > 0 {
        lemma_weight_nonneg(s.drop_last());
        if let Layer::Single(v) = s.last() {
            lemma_encode_nonempty(v.model());
        }
    }
}

proof fn lemma_push(s: Seq<Layer>, l: Layer)
    ensures
        pending(s.push(l)) == layer_bytes(l) + pending(s),
        all_encodable(s.push(l)) == (layer_encodable(l) && all_encodable(s)),
        all_in_bounds(s.push(l)) == (layer_in_bounds(l) && all_in_bounds(s)),
        weight(s.push(l)) == layer_weight(l) + weight(s),
{
    assert(s.push(l).drop_last() =~= s);
}

proof fn lemma_items_step(vs: &Vec<Value>, i: usize)
    requires
        i < vs.len(),
    ensures
        layer_bytes(Layer::Items(vs, i)) == encode(vs@[i as int].model()) + layer_bytes(
            Layer::Items(vs, (i + 1) as usize),
        ),
        layer_encodable(Layer::Items(vs, i)) == (encodable(vs@[i as int].model())
            && layer_encodable(Layer::Items(vs, (i + 1) as usize))),
        layer_weight(Layer::Items(vs, i)) > layer_weight(Layer::Items(vs, (i + 1) as usize))
            + layer_weight(Layer::Single(&vs@[i as int])),
{
    assert(vs.len() == vs@.len());
    let ms = models(vs@);
    let rest = ms.subrange(i as int, vs@.len() as int);
    assert(layer_bytes(Layer::Items(vs, i)) == encode_items(rest));
    assert(rest[0] == vs@[i as int].model());
    assert(rest.subrange(1, rest.len() as int) =~= ms.subrange(i + 1, vs@.len() as int));
    lemma_encode_nonempty(vs@[i as int].model());
}

proof fn lemma_entries_step(es: &Vec<(Value, Value)>, i: usize)
    requires
        i < es.len(),
    ensures
        layer_bytes(Layer::Entries(es, i)) == encode(es@[i as int].0.model()) + encode(
            es@[i as int].1.model(),
        ) + layer_bytes(Layer::Entries(es, (i + 1) as usize)),
        layer_encodable(Layer::Entries(es, i)) == (encodable(es@[i as int].0.model())
            && encodable(es@[i as int].1.model()) && layer_encodable(
            Layer::Entries(es, (i + 1) as usize),
        )),
        layer_weight(Layer::Entries(es, i)) > layer_weight(Layer::Entries(es, (i + 1) as usize))
            + layer_weight(Layer::Single(&es@[i as int].1)) + layer_weight(
            Layer::Single(&es@[i as int].0),
        ),
{
    assert(es.len() == es@.len());
    let ms = entry_models(es@);
    let rest = ms.subrange(i as int, es@.len() as int);
    assert(rest[0] == (es@[i as int].0.model(), es@[i as int].1.model()));
    assert(rest.subrange(1, rest.len() as int) =~= ms.subrange(i + 1, es@.len() as int));
    lemma_encode_nonempty(es@[i as int].0.model());
    lemma_encode_nonempty(es@[i as int].1.model());
}

pub(crate) proof fn lemma_array_model(v: &Value)
    ensures
        v matches Value::Array(a) ==> v.model() == Model::Array(models(a.0@)),
        v matches Value::Object(o) ==> v.model() == Model::Object(entry_models(o.entries@)),
{
    if let Value::Array(a) = v {
        assert(v.model()->Array_0 =~= models(a.0@));
    }
    if let Value::Object(o) = v {
        assert(v.model()->Object_0 =~= entry_models(o.entries@));
    }
}

proof fn lemma_open_array(v: &Value, a: &super::value::Array)
    requires
        *v == Value::Array(*a),
    ensures
        encode(v.model()) == head(4, a.0@.len()) + layer_bytes(Layer::Items(&a.0, 0)),
        encodable(v.model()) == layer_encodable(Layer::Items(&a.0, 0)),
        layer_weight(Layer::Items(&a.0, 0)) < layer_weight(Layer::Single(v)),
        layer_in_bounds(Layer::Items(&a.0, 0)),
{
    lemma_array_model(v);
    assert(models(a.0@).subrange(0, a.0@.len() as int) =~= models(a.0@));
}

proof fn lemma_open_object(v: &Value, o: &super::value::Object)
    requires
        *v == Value::Object(*o),
    ensures
        encode(v.model()) == head(5, o.entries@.len()) + layer_bytes(
            Layer::Entries(&o.entries, 0),
        ),
        encodable(v.model()) == layer_encodable(Layer::Entries(&o.entries, 0)),
        layer_weight(Layer::Entries(&o.entries, 0)) < layer_weight(Layer::Single(v)),
        layer_in_bounds(Layer::Entries(&o.entries, 0)),
{
    lemma_array_model(v);
    assert(entry_models(o.entries@).subrange(0, o.entries@.len() as int) =~= entry_models(
        o.entries@,
    ));
}

/// Serializes `value` as canonical CBOR.
///
/// Fails with [`ErrorKind::Unrepresentable`] exactly when the value holds an
/// integer outside the CBOR range or a semantic tag. Maps are written in the
/// order their entries are held.
#[verifier::rlimit(40)]
pub fn to_vec(value: &Value) -> (r: Result<Vec<u8>, Error>)
    ensures
        r is Ok <==> encodable(value.model()),
        r matches Ok(bytes) ==> bytes@ == encode(value.model()),
        r matches Err(e) ==> e.kind == ErrorKind::Unrepresentable,
{
    let mut out: Vec<u8> = Vec::new();
    let mut stack: Vec<Layer> = Vec::new();
    stack.push(Layer::Single(value));
    proof {
        lemma_push(Seq::<Layer>::empty(), Layer::Single(value));
        assert(Seq::<Layer>::empty().push(Layer::Single(value)) =~= stack@);
        assert(pending(stack@) =~= encode(value.model()));
        lemma_weight_nonneg(stack@);
    }
    while stack.len() > 0
        invariant
            out@ + pending(stack@) == encode(value.model()),
            all_encodable(stack@) <==> encodable(value.model()),
            all_in_bounds(stack@),
        decreases weight(stack@),
    {
        let ghost before = stack@;
        let ghost out0 = out@;
        let top = stack.pop().unwrap();
        proof {
            assert(stack@ =~= before.drop_last());
            assert(pending(before) == layer_bytes(before.last()) + pending(stack@));
            assert(all_encodable(before) == (layer_encodable(before.last()) && all_encodable(
                stack@,
            )));
            assert(weight(before) == layer_weight(before.last()) + weight(stack@));
            assert(top == before.last());
            assert(all_in_bounds(before) == (layer_in_bounds(before.last()) && all_in_bounds(
                stack@,
            )));
            lemma_weight_nonneg(stack@);
        }
        match top {
            Layer::Single(v) => {
                match v {
                    Value::Array(a) => {
                        write_head(&mut out, 4, a.0.len() as u64);
                        proof {
                            lemma_push(stack@, Layer::Items(&a.0, 0));
                            lemma_open_array(v, a);
                        }
                        stack.push(Layer::Items(&a.0, 0));
                    },
                    Value::Object(o) => {
                        write_head(&mut out, 5, o.entries.len() as u64);
                        proof {
                            lemma_push(stack@, Layer::Entries(&o.entries, 0));
                            lemma_open_object(v, o);
                        }
                        stack.push(Layer::Entries(&o.entries, 0));
                    },
                    Value::Tag(_, _) => {
                        return Err(Error::new(ErrorKind::Unrepresentable));
                    },
                    _ => {
                        if !write_scalar(&mut out, v) {
                            return Err(Error::new(ErrorKind::Unrepresentable));
                        }
                    },
                }
                proof {
                    lemma_encode_nonempty(v.model());
                    assert(out@ + pending(stack@) =~= out0 + pending(before));
                }
            },
            Layer::Items(vs, i) => {
                if i < vs.len() {
                    proof {
                        lemma_push(stack@, Layer::Items(vs, (i + 1) as usize));
                        lemma_push(stack@.push(Layer::Items(vs, (i + 1) as usize)), Layer::Single(&vs[i as int]));
                    }
                    stack.push(Layer::Items(vs, i + 1));
                    stack.push(Layer::Single(&vs[i]));
                    proof {
                        lemma_items_step(vs, i);
                        assert(out@ + pending(stack@) =~= out0 + pending(before));
                    }
                }
            },
            Layer::Entries(es, i) => {
                if i < es.len() {
                    proof {
                        let s1 = stack@.push(Layer::Entries(es, (i + 1) as usize));
                        let s2 = s1.push(Layer::Single(&es[i as int].1));
                        lemma_push(stack@, Layer::Entries(es, (i + 1) as usize));
                        lemma_push(s1, Layer::Single(&es[i as int].1));
                        lemma_push(s2, Layer::Single(&es[i as int].0));
                    }
                    stack.push(Layer::Entries(es, i + 1));
                    stack.push(Layer::Single(&es[i].1));
                    stack.push(Layer::Single(&es[i].0));
                    proof {
                        lemma_entries_step(es, i);
                        assert(out@ + pending(stack@) =~= out0 + pending(before));
                    }
                }
            },
        }
    }
    assert(out@ =~= encode(value.model()));
    Ok(out)
}

} // verus!
