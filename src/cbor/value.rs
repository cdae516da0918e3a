use vstd::prelude::*;

use super::model::{Model, well_formed};

verus! {

/// A CBOR value of any kind.
///
/// A float is held as the bit pattern of an IEEE-754 double
/// (`f64::to_bits`). Maps are held by [`Object`], which keeps its keys in the
/// canonical order; this is what makes equal values encode to equal bytes.
#[derive(Debug)]
pub enum Value {
    Null,
    Bool(bool),
    /// An integer; CBOR holds those from `-(2^64)` to `2^64 - 1`.
    Integer(i128),
    /// The bits of a double-precision float.
    Float(u64),
    Bytes(Vec<u8>),
    Text(String),
    Array(Array),
    Object(Object),
    /// A semantic tag: it can be built, but is not written by this library.
    Tag(u64, Box<Value>),
}

/// The elements of a CBOR array.
#[derive(Debug)]
pub struct Array(pub Vec<Value>);

/// The entries of a CBOR map, kept with strictly increasing keys in the
/// canonical order (see [`super::model::canonical_cmp`]).
#[derive(Debug)]
pub struct Object {
    pub entries: Vec<(Value, Value)>,
}

/// The models of a sequence of values.
pub open spec fn models(s: Seq<Value>) -> Seq<Model> {
    Seq::new(s.len(), |i: int| s[i].model())
}

/// The models of a sequence of entries.
pub open spec fn entry_models(s: Seq<(Value, Value)>) -> Seq<(Model, Model)> {
    Seq::new(s.len(), |i: int| (s[i].0.model(), s[i].1.model()))
}

impl Value {
    /// The mathematical value this stands for.
    pub open spec fn model(&self) -> Model
        decreases self,
    {
        match self {
            Value::Null => Model::Null,
            Value::Bool(b) => Model::Bool(*b),
            Value::Integer(i) => Model::Int(*i as int),
            Value::Float(bits) => Model::Float(*bits),
            Value::Bytes(b) => Model::Bytes(b@),
            Value::Text(t) => Model::Text(t@),
            Value::Array(a) => Model::Array(
                Seq::new(
                    a.0@.len(),
                    |i: int|
                        if 0 <= i < a.0@.len() {
                            a.0@[i].model()
                        } else {
                            Model::Null
                        },
                ),
            ),
            Value::Object(o) => Model::Object(
                Seq::new(
                    o.entries@.len(),
                    |i: int|
                        if 0 <= i < o.entries@.len() {
                            (o.entries@[i].0.model(), o.entries@[i].1.model())
                        } else {
                            (Model::Null, Model::Null)
                        },
                ),
            ),
            Value::Tag(t, inner) => Model::Tag(*t, Box::new((**inner).model())),
        }
    }

    /// The major type of the head that starts this value's encoding.
    pub fn major_type(&self) -> (r: u8)
        ensures
            r as int == super::model::major(self.model()),
    {
        match self {
            Value::Null => 7,
            Value::Bool(_) => 7,
            Value::Integer(v) => if *v >= 0 {
                0
            } else {
                1
            },
            Value::Tag(_, _) => 6,
            Value::Float(_) => 7,
            Value::Bytes(_) => 2,
            Value::Text(_) => 3,
            Value::Array(_) => 4,
            Value::Object(_) => 5,
        }
    }
}

impl Array {
    pub fn new() -> (r: Array)
        ensures
            r.0@.len() == 0,
    {
        Array(Vec::new())
    }

    pub fn len(&self) -> (r: usize)
        ensures
            r == self.0@.len(),
    {
        self.0.len()
    }

    pub fn push(&mut self, v: Value)
        ensures
            final(self).0@ == old(self).0@.push(v),
    {
        self.0.push(v);
    }
}

impl Object {
    pub fn new() -> (r: Object)
        ensures
            r.entries@.len() == 0,
    {
        Object { entries: Vec::new() }
    }

    pub fn len(&self) -> (r: usize)
        ensures
            r == self.entries@.len(),
    {
        self.entries.len()
    }
}

} // verus!

