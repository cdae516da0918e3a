//! The mathematical model of CBOR values and of their canonical encoding and
//! ordering.
use vstd::prelude::*;
use vstd::arithmetic::power2::pow2;
use vstd::utf8::encode_utf8;

use super::number::{cbor_int_min, cbor_int_max};

verus! {

/// What a CBOR value is, as mathematics: the view of [`super::value::Value`].
///
/// A float is kept as the bit pattern of an IEEE-754 double.
pub enum Model {
    Null,
    Bool(bool),
    Int(int),
    Float(u64),
    Bytes(Seq<u8>),
    Text(Seq<char>),
    Array(Seq<Model>),
    Object(Seq<(Model, Model)>),
    Tag(u64, Box<Model>),
}

/// `n` as `k` bytes, most significant first (`n` taken modulo `256^k`).
pub open spec fn be_bytes(n: nat, k: nat) -> Seq<u8>
    decreases k,
{
    if k == 0 {
        seq![]
    } else {
        be_bytes(n / 256, (k - 1) as nat).push((n % 256) as u8)
    }
}

/// The number that big-endian bytes `s` stand for.
pub open spec fn be_value(s: Seq<u8>) -> nat
    decreases s.len(),
{
    if s.len() == 0 {
        0
    } else {
        be_value(s.drop_last()) * 256 + s.last() as nat
    }
}

/// The initial byte of an item: the major type in the high three bits and
/// `info` in the low five.
pub open spec fn initial_byte(major: u8, info: u8) -> u8 {
    (major * 32 + info) as u8
}

/// The shortest head of an item of major type `major` with argument `n`.
pub open spec fn head(major: u8, n: nat) -> Seq<u8> {
    if n <= 23 {
        seq![initial_byte(major, n as u8)]
    } else if n <= 0xff {
        seq![initial_byte(major, 24), n as u8]
    } else if n <= 0xffff {
        seq![initial_byte(major, 25)] + be_bytes(n, 2)
    } else if n <= 0xffff_ffff {
        seq![initial_byte(major, 26)] + be_bytes(n, 4)
    } else {
        seq![initial_byte(major, 27)] + be_bytes(n, 8)
    }
}

/// Sign bit of a double.
pub open spec fn f64_sign(bits: u64) -> nat {
    bits as nat / pow2(63)
}

/// Biased exponent field of a double.
pub open spec fn f64_exp(bits: u64) -> nat {
    (bits as nat / pow2(52)) % 2048
}

/// Fraction field of a double.
pub open spec fn f64_frac(bits: u64) -> nat {
    bits as nat % pow2(52)
}

/// The bits of the half-precision float equal to the double `bits`, if there is
/// one. Infinities keep their sign; every NaN becomes the quiet NaN `0x7e00`.
pub open spec fn narrow_to_half(bits: u64) -> Option<u16> {
    let s = f64_sign(bits);
    let e = f64_exp(bits);
    let m = f64_frac(bits);
    let x = e - 1023;
    if e == 2047 {
        if m == 0 {
            Some((0x7c00 + s * 0x8000) as u16)
        } else {
            Some(0x7e00u16)
        }
    } else if e == 0 {
        if m == 0 {
            Some((s * 0x8000) as u16)
        } else {
            None
        }
    } else if -14 <= x <= 15 {
        if m % pow2(42) == 0 {
            Some((s * 0x8000 + (x + 15) * 0x400 + m / pow2(42)) as u16)
        } else {
            None
        }
    } else if -24 <= x <= -15 {
        let full = m + pow2(52);
        let shift = (28 - x) as nat;
        if full % pow2(shift) == 0 {
            Some((s * 0x8000 + full / pow2(shift)) as u16)
        } else {
            None
        }
    } else {
        None
    }
}

/// The bits of the single-precision float equal to the finite double `bits`,
/// if there is one.
pub open spec fn narrow_to_single(bits: u64) -> Option<u32> {
    let s = f64_sign(bits);
    let e = f64_exp(bits);
    let m = f64_frac(bits);
    let x = e - 1023;
    if e == 0 || e == 2047 {
        None
    } else if -126 <= x <= 127 {
        if m % pow2(29) == 0 {
            Some((s * 0x8000_0000 + (x + 127) * 0x80_0000 + m / pow2(29)) as u32)
        } else {
            None
        }
    } else if -149 <= x <= -127 {
        let full = m + pow2(52);
        let shift = (-97 - x) as nat;
        if full % pow2(shift) == 0 {
            Some((s * 0x8000_0000 + full / pow2(shift)) as u32)
        } else {
            None
        }
    } else {
        None
    }
}

/// The canonical encoding of a float: the narrowest of half, single and double
/// precision that holds it exactly.
pub open spec fn float_encoding(bits: u64) -> Seq<u8> {
    match narrow_to_half(bits) {
        Some(h) => seq![0xf9u8] + be_bytes(h as nat, 2),
        None => match narrow_to_single(bits) {
            Some(f) => seq![0xfau8] + be_bytes(f as nat, 4),
            None => seq![0xfbu8] + be_bytes(bits as nat, 8),
        },
    }
}

/// The canonical CBOR encoding of `m`.
///
/// Integers are encoded as major type 0 (or 1, for `-(n + 1)`), heads are as
/// short as possible, containers have definite lengths and are written in the
/// order they hold.
pub open spec fn encode(m: Model) -> Seq<u8>
    decreases m,
{
    match m {
        Model::Null => seq![0xf6u8],
        Model::Bool(b) => seq![if b { 0xf5u8 } else { 0xf4u8 }],
        Model::Int(i) => if i >= 0 {
            head(0, i as nat)
        } else {
            head(1, (-(i + 1)) as nat)
        },
        Model::Float(bits) => float_encoding(bits),
        Model::Bytes(b) => head(2, b.len()) + b,
        Model::Text(t) => head(3, encode_utf8(t).len()) + encode_utf8(t),
        Model::Array(items) => head(4, items.len()) + encode_items(items),
        Model::Object(entries) => head(5, entries.len()) + encode_entries(entries),
        Model::Tag(t, inner) => head(6, t as nat) + encode(*inner),
    }
}

/// The encodings of `items`, one after the other.
pub open spec fn encode_items(items: Seq<Model>) -> Seq<u8>
    decreases items,
{
    if items.len() == 0 {
        seq![]
    } else {
        encode(items[0]) + encode_items(items.subrange(1, items.len() as int))
    }
}

/// The encodings of the keys and values of `entries`, key before value.
pub open spec fn encode_entries(entries: Seq<(Model, Model)>) -> Seq<u8>
    decreases entries,
{
    if entries.len() == 0 {
        seq![]
    } else {
        encode(entries[0].0) + encode(entries[0].1) + encode_entries(
            entries.subrange(1, entries.len() as int),
        )
    }
}

/// `m` can be written as CBOR by this library: its integers lie in the CBOR
/// range and it holds no semantic tag.
pub open spec fn encodable(m: Model) -> bool
    decreases m,
{
    match m {
        Model::Int(i) => cbor_int_min() <= i <= cbor_int_max(),
        Model::Array(items) => encodable_items(items),
        Model::Object(entries) => encodable_entries(entries),
        Model::Tag(_, _) => false,
        _ => true,
    }
}

/// Every one of `items` is encodable.
pub open spec fn encodable_items(items: Seq<Model>) -> bool
    decreases items,
{
    items.len() == 0 || (encodable(items[0]) && encodable_items(
        items.subrange(1, items.len() as int),
    ))
}

/// Every key and value of `entries` is encodable.
pub open spec fn encodable_entries(entries: Seq<(Model, Model)>) -> bool
    decreases entries,
{
    entries.len() == 0 || (encodable(entries[0].0) && encodable(entries[0].1)
        && encodable_entries(entries.subrange(1, entries.len() as int)))
}

/// The major type under which `m` is encoded.
pub open spec fn major(m: Model) -> int {
    match m {
        Model::Int(i) => if i >= 0 {
            0
        } else {
            1
        },
        Model::Bytes(_) => 2,
        Model::Text(_) => 3,
        Model::Array(_) => 4,
        Model::Object(_) => 5,
        Model::Tag(_, _) => 6,
        _ => 7,
    }
}

/// The second criterion of the canonical order: the magnitude of an integer,
/// the length of a string or of a container.
pub open spec fn magnitude(m: Model) -> int {
    match m {
        Model::Int(i) => if i >= 0 {
            i
        } else {
            -i
        },
        Model::Bytes(b) => b.len() as int,
        Model::Text(t) => encode_utf8(t).len() as int,
        Model::Array(items) => items.len() as int,
        Model::Object(entries) => entries.len() as int,
        _ => 0,
    }
}

/// The last criterion of the canonical order: the encoding itself. Integers
/// are fully ordered by the first two and have none.
pub open spec fn tiebreak(m: Model) -> Seq<u8> {
    match m {
        Model::Int(_) => seq![],
        _ => encode(m),
    }
}

/// Lexicographic comparison of byte strings, a proper prefix first: negative,
/// zero or positive.
pub open spec fn lex_cmp(a: Seq<u8>, b: Seq<u8>) -> int
    decreases a.len(),
{
    if a.len() == 0 {
        if b.len() == 0 {
            0
        } else {
            -1
        }
    } else if b.len() == 0 {
        1
    } else if a[0] < b[0] {
        -1
    } else if a[0] > b[0] {
        1
    } else {
        lex_cmp(a.drop_first(), b.drop_first())
    }
}

pub open spec fn int_cmp(a: int, b: int) -> int {
    if a < b {
        -1
    } else if a > b {
        1
    } else {
        0
    }
}

/// The canonical order of CBOR values: by major type, then by magnitude or
/// length, then by encoding. Negative, zero or positive.
pub open spec fn canonical_cmp(a: Model, b: Model) -> int {
    if major(a) != major(b) {
        int_cmp(major(a), major(b))
    } else if magnitude(a) != magnitude(b) {
        int_cmp(magnitude(a), magnitude(b))
    } else {
        lex_cmp(tiebreak(a), tiebreak(b))
    }
}

/// Keys strictly increasing in the canonical order.
pub open spec fn keys_sorted(entries: Seq<(Model, Model)>) -> bool {
    forall|i: int, j: int|
        #![trigger entries[i], entries[j]]
        0 <= i < j < entries.len() ==> canonical_cmp(entries[i].0, entries[j].0) < 0
}

/// A well-formed value: encodable, no string or container longer than a head
/// can say, and every map holds its keys once each in canonical order.
pub open spec fn well_formed(m: Model) -> bool
    decreases m,
{
    match m {
        Model::Int(i) => cbor_int_min() <= i <= cbor_int_max(),
        Model::Bytes(b) => b.len() <= cbor_int_max(),
        Model::Text(t) => encode_utf8(t).len() <= cbor_int_max(),
        Model::Array(items) => items.len() <= cbor_int_max() && well_formed_items(items),
        Model::Object(entries) => entries.len() <= cbor_int_max() && keys_sorted(entries)
            && well_formed_entries(entries),
        Model::Tag(_, _) => false,
        _ => true,
    }
}

/// Every one of `items` is well formed.
pub open spec fn well_formed_items(items: Seq<Model>) -> bool
    decreases items,
{
    items.len() == 0 || (well_formed(items[0]) && well_formed_items(
        items.subrange(1, items.len() as int),
    ))
}

/// Every key and value of `entries` is well formed.
pub open spec fn well_formed_entries(entries: Seq<(Model, Model)>) -> bool
    decreases entries,
{
    entries.len() == 0 || (well_formed(entries[0].0) && well_formed(entries[0].1)
        && well_formed_entries(entries.subrange(1, entries.len() as int)))
}

/// The index of the first entry of `entries`, from `i` on, whose key is not
/// below `key` in the canonical order (the length when there is none).
pub open spec fn first_not_below(entries: Seq<(Model, Model)>, key: Model, i: int) -> int
    decreases entries.len() - i,
{
    if i < 0 || i >= entries.len() || canonical_cmp(entries[i].0, key) >= 0 {
        i
    } else {
        first_not_below(entries, key, i + 1)
    }
}

/// `entries` after inserting `value` under `key`: where the first key not
/// below `key` equals it, that entry's value is replaced and its key kept;
/// otherwise the entry is inserted there.
pub open spec fn insert_entry(entries: Seq<(Model, Model)>, key: Model, value: Model) -> Seq<
    (Model, Model),
> {
    let p = first_not_below(entries, key, 0);
    if p < entries.len() && canonical_cmp(entries[p].0, key) == 0 {
        entries.update(p, (entries[p].0, value))
    } else {
        entries.insert(p, (key, value))
    }
}

} // verus!

verus! {

/// `encodable_items` holds exactly when every item is encodable.
pub proof fn lemma_encodable_items(items: Seq<Model>)
    ensures
        encodable_items(items) <==> forall|i: int| 0 <= i < items.len() ==> #[trigger] encodable(items[i]),
    decreases items.len(),
{
    if items.len() > 0 {
        let rest = items.subrange(1, items.len() as int);
        lemma_encodable_items(rest);
        assert forall|i: int| 0 < i < items.len() implies items[i] == rest[i - 1] by {}
        if forall|i: int| 0 <= i < items.len() ==> #[trigger] encodable(items[i]) {
            assert(encodable(items[0]));
            assert forall|i: int| 0 <= i < rest.len() implies #[trigger] encodable(rest[i]) by {
                assert(rest[i] == items[i + 1]);
            }
        }
    }
}

/// `encodable_entries` holds exactly when every key and value is encodable.
pub proof fn lemma_encodable_entries(entries: Seq<(Model, Model)>)
    ensures
        encodable_entries(entries) <==> forall|i: int|
            #![trigger entries[i]]
            0 <= i < entries.len() ==> encodable(entries[i].0) && encodable(entries[i].1),
    decreases entries.len(),
{
    if entries.len() > 0 {
        let rest = entries.subrange(1, entries.len() as int);
        lemma_encodable_entries(rest);
        assert forall|i: int| 0 < i < entries.len() implies entries[i] == rest[i - 1] by {}
        if forall|i: int|
            #![trigger entries[i]]
            0 <= i < entries.len() ==> encodable(entries[i].0) && encodable(entries[i].1) {
            assert(encodable(entries[0].0) && encodable(entries[0].1));
            assert forall|i: int|
                #![trigger rest[i]]
                0 <= i < rest.len() implies encodable(rest[i].0) && encodable(rest[i].1) by {
                assert(rest[i] == entries[i + 1]);
            }
        }
    }
}

/// The insertion point lies between `i` and the end.
pub proof fn lemma_first_not_below_bounds(entries: Seq<(Model, Model)>, key: Model, i: int)
    requires
        0 <= i <= entries.len(),
    ensures
        i <= first_not_below(entries, key, i) <= entries.len(),
    decreases entries.len() - i,
{
    if i < entries.len() && canonical_cmp(entries[i].0, key) < 0 {
        lemma_first_not_below_bounds(entries, key, i + 1);
    }
}

} // verus!
