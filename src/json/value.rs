use vstd::prelude::*;
use vstd::utf8::encode_utf8;

verus! {

/// A JSON number: an integer that fits in `u64`, else one that fits in `i64`,
/// else a decimal literal with a fraction or an exponent (or an integer too
/// large for both), kept as its text.
#[derive(Debug)]
pub enum Number {
    U64(u64),
    I64(i64),
    Float(String),
}

/// Any JSON value.
///
/// Objects keep their keys once each, in increasing order of their bytes.
#[derive(Debug)]
pub enum Value {
    Null,
    Bool(bool),
    Number(Number),
    String(String),
    Array(Array),
    Object(Object),
}

/// The elements of a JSON array.
#[derive(Debug)]
pub struct Array(pub Vec<Value>);

/// The members of a JSON object, with strictly increasing keys.
#[derive(Debug)]
pub struct Object {
    pub entries: Vec<(String, Value)>,
}

/// What a JSON value is, as mathematics.
pub enum JsonModel {
    Null,
    Bool(bool),
    UInt(u64),
    Int(i64),
    Float(Seq<char>),
    Str(Seq<char>),
    Array(Seq<JsonModel>),
    Object(Seq<(Seq<char>, JsonModel)>),
}

/// The models of a sequence of values.
pub open spec fn models(s: Seq<Value>) -> Seq<JsonModel> {
    Seq::new(s.len(), |i: int| s[i].model())
}

/// The models of a sequence of members.
pub open spec fn member_models(s: Seq<(String, Value)>) -> Seq<(Seq<char>, JsonModel)> {
    Seq::new(s.len(), |i: int| (s[i].0@, s[i].1.model()))
}

impl Value {
    pub open spec fn model(&self) -> JsonModel
        decreases self,
    {
        match self {
            Value::Null => JsonModel::Null,
            Value::Bool(b) => JsonModel::Bool(*b),
            Value::Number(Number::U64(n)) => JsonModel::UInt(*n),
            Value::Number(Number::I64(n)) => JsonModel::Int(*n),
            Value::Number(Number::Float(t)) => JsonModel::Float(t@),
            Value::String(t) => JsonModel::Str(t@),
            Value::Array(a) => JsonModel::Array(
                Seq::new(
                    a.0@.len(),
                    |i: int|
                        if 0 <= i < a.0@.len() {
                            a.0@[i].model()
                        } else {
                            JsonModel::Null
                        },
                ),
            ),
            Value::Object(o) => JsonModel::Object(
                Seq::new(
                    o.entries@.len(),
                    |i: int|
                        if 0 <= i < o.entries@.len() {
                            (o.entries@[i].0@, o.entries@[i].1.model())
                        } else {
                            (Seq::empty(), JsonModel::Null)
                        },
                ),
            ),
        }
    }
}

pub proof fn lemma_container_model(v: &Value)
    ensures
        v matches Value::Array(a) ==> v.model() == JsonModel::Array(models(a.0@)),
        v matches Value::Object(o) ==> v.model() == JsonModel::Object(member_models(o.entries@)),
{
    if let Value::Array(a) = v {
        assert(v.model()->Array_0 =~= models(a.0@));
    }
    if let Value::Object(o) = v {
        assert(v.model()->Object_0 =~= member_models(o.entries@));
    }
}

impl Array {
    pub fn new() -> (r: Array)
        ensures
            r.0@.len() == 0,
    {
        Array(Vec::new())
    }

    pub fn push(&mut self, v: Value)
        ensures
            final(self).0@ == old(self).0@.push(v),
    {
        self.0.push(v);
    }
}

impl Object {
    pub fn new() -> (r: Object)
        ensures
            r.entries@.len() == 0,
    {
        Object { entries: Vec::new() }
    }
}

} // verus!
