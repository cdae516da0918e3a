//! The canonical order of CBOR values, used to keep map keys sorted.
use vstd::prelude::*;
use std::cmp::Ordering;

use super::model::{
    Model, canonical_cmp, lex_cmp, int_cmp, major, magnitude, tiebreak, encodable,
};
use super::value::Value;
use super::ser::to_vec;

verus! {

/// The sign that an `Ordering` stands for.
pub open spec fn ordering_sign(o: Ordering) -> int {
    match o {
        Ordering::Less => -1,
        Ordering::Equal => 0,
        Ordering::Greater => 1,
    }
}

fn compare_u128(a: u128, b: u128) -> (r: Ordering)
    ensures
        ordering_sign(r) == int_cmp(a as int, b as int),
{
    if a < b {
        Ordering::Less
    } else if a > b {
        Ordering::Greater
    } else {
        Ordering::Equal
    }
}

/// Lexicographic comparison of two byte strings, a proper prefix first.
pub fn lex_compare(a: &[u8], b: &[u8]) -> (r: Ordering)
    ensures
        ordering_sign(r) == lex_cmp(a@, b@),
{
    let mut i: usize = 0;
    assert(a@.skip(0) =~= a@ && b@.skip(0) =~= b@);
    while i < a.len() && i < b.len()
        invariant
            i <= a@.len(),
            i <= b@.len(),
            lex_cmp(a@, b@) == lex_cmp(a@.skip(i as int), b@.skip(i as int)),
        decreases a@.len() - i,
    {
        if a[i] < b[i] {
            return Ordering::Less;
        } else if a[i] > b[i] {
            return Ordering::Greater;
        }
        assert(a@.skip(i as int).drop_first() =~= a@.skip(i + 1));
        assert(b@.skip(i as int).drop_first() =~= b@.skip(i + 1));
        i = i + 1;
    }
    if i < a.len() {
        Ordering::Greater
    } else if i < b.len() {
        Ordering::Less
    } else {
        Ordering::Equal
    }
}

impl Value {
    /// The magnitude of an integer, or the length of a string or a container
    /// (a text's length in bytes).
    fn magnitude_of(&self) -> (r: u128)
        requires
            encodable(self.model()),
        ensures
            r as int == magnitude(self.model()),
    {
        match self {
            Value::Integer(i) => {
                assert(self.model() == Model::Int(*i as int));
                assert(super::number::cbor_int_min() <= *i);
                if *i >= 0 {
                    *i as u128
                } else {
                    (-*i) as u128
                }
            },
            Value::Bytes(b) => b.len() as u128,
            Value::Text(t) => t.as_str().as_bytes().len() as u128,
            Value::Array(a) => {
                proof {
                    assert(self.model()->Array_0.len() == a.0@.len());
                }
                a.0.len() as u128
            },
            Value::Object(o) => {
                proof {
                    assert(self.model()->Object_0.len() == o.entries@.len());
                }
                o.entries.len() as u128
            },
            _ => 0,
        }
    }

    /// Compares two values in the canonical order: by major type, then by the
    /// magnitude of an integer or the length of a string or container, and
    /// last by the bytes of their encodings.
    pub fn canonical_cmp(&self, other: &Value) -> (r: Ordering)
        requires
            encodable(self.model()),
            encodable(other.model()),
        ensures
            ordering_sign(r) == canonical_cmp(self.model(), other.model()),
    {
        proof {
            reveal(canonical_cmp);
        }
        let ma = self.major_type();
        let mb = other.major_type();
        if ma != mb {
            return compare_u128(ma as u128, mb as u128);
        }
        let sa = self.magnitude_of();
        let sb = other.magnitude_of();
        if sa != sb {
            return compare_u128(sa, sb);
        }
        if ma == 0 || ma == 1 {
            return Ordering::Equal;
        }
        let ea = to_vec(self).unwrap();
        let eb = to_vec(other).unwrap();
        lex_compare(ea.as_slice(), eb.as_slice())
    }
}

pub proof fn lemma_lex_antisymmetric(a: Seq<u8>, b: Seq<u8>)
    ensures
        lex_cmp(a, b) == -lex_cmp(b, a),
        lex_cmp(a, b) == 0 ==> a == b,
        -1 <= lex_cmp(a, b) <= 1,
    decreases a.len(),
{
    if a.len() > 0 && b.len() > 0 && a[0] == b[0] {
        lemma_lex_antisymmetric(a.drop_first(), b.drop_first());
        if lex_cmp(a, b) == 0 {
            assert(a =~= seq![a[0]] + a.drop_first());
            assert(b =~= seq![b[0]] + b.drop_first());
        }
    }
}

pub proof fn lemma_lex_transitive(a: Seq<u8>, b: Seq<u8>, c: Seq<u8>)
    requires
        lex_cmp(a, b) < 0,
        lex_cmp(b, c) < 0,
    ensures
        lex_cmp(a, c) < 0,
    decreases a.len(),
{
    if a.len() > 0 && b.len() > 0 && c.len() > 0 && a[0] == b[0] && b[0] == c[0] {
        lemma_lex_transitive(a.drop_first(), b.drop_first(), c.drop_first());
    }
}

/// The canonical order is a total order: exactly one of `<`, `=`, `>` holds
/// between any two values, and swapping them flips the result.
pub proof fn lemma_canonical_cmp_antisymmetric(a: Model, b: Model)
    ensures
        canonical_cmp(a, b) == -1 || canonical_cmp(a, b) == 0 || canonical_cmp(a, b) == 1,
        canonical_cmp(a, b) == -canonical_cmp(b, a),
{
    reveal(canonical_cmp);
    lemma_lex_antisymmetric(tiebreak(a), tiebreak(b));
}

/// The canonical order is transitive.
pub proof fn lemma_canonical_cmp_transitive(a: Model, b: Model, c: Model)
    requires
        canonical_cmp(a, b) <= 0,
        canonical_cmp(b, c) <= 0,
    ensures
        canonical_cmp(a, c) <= 0,
        canonical_cmp(a, b) < 0 || canonical_cmp(b, c) < 0 ==> canonical_cmp(a, c) < 0,
{
    reveal(canonical_cmp);
    lemma_lex_antisymmetric(tiebreak(a), tiebreak(b));
    lemma_lex_antisymmetric(tiebreak(b), tiebreak(c));
    lemma_lex_antisymmetric(tiebreak(a), tiebreak(c));
    if major(a) == major(b) && major(b) == major(c) && magnitude(a) == magnitude(b)
        && magnitude(b) == magnitude(c) {
        if lex_cmp(tiebreak(a), tiebreak(b)) < 0 && lex_cmp(tiebreak(b), tiebreak(c)) < 0 {
            lemma_lex_transitive(tiebreak(a), tiebreak(b), tiebreak(c));
        }
    }
}

/// Values that compare equal in the canonical order have the same encoding,
/// unless both are integers, which then are the same integer.
pub proof fn lemma_canonical_equal(a: Model, b: Model)
    requires
        canonical_cmp(a, b) == 0,
    ensures
        a is Int ==> a == b,
        !(a is Int) ==> super::model::encode(a) == super::model::encode(b),
{
    reveal(canonical_cmp);
    lemma_lex_antisymmetric(tiebreak(a), tiebreak(b));
}

} // verus!
