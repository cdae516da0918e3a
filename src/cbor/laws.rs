//! What holds of encoding and decoding together.
use vstd::prelude::*;
use vstd::arithmetic::power2::pow2;
use vstd::utf8::{encode_utf8, decode_utf8, encode_utf8_valid_utf8, encode_utf8_decode_utf8};

use crate::error::ErrorKind;
use super::model::{
    Model, be_bytes, be_value, head, initial_byte, encode, encode_items, encode_entries,
    well_formed, well_formed_items, well_formed_entries, major, magnitude, canonical_cmp, float_encoding, insert_entry, first_not_below,
    keys_sorted, tiebreak, lex_cmp, narrow_to_half, narrow_to_single,
};
use super::de::{MAX_DEPTH, parse_arg, parse_item, parse_items, parse_entries, parse_simple, arg_len, decode};
use super::order::lemma_lex_antisymmetric;

verus! {

/// How deeply containers nest in `m`: 0 for a value that is no container.
pub open spec fn nesting(m: Model) -> nat
    decreases m,
{
    match m {
        Model::Array(items) => 1 + nesting_items(items),
        Model::Object(entries) => 1 + nesting_entries(entries),
        Model::Tag(_, inner) => 1 + nesting(*inner),
        _ => 0,
    }
}

pub open spec fn nesting_items(items: Seq<Model>) -> nat
    decreases items,
{
    if items.len() == 0 {
        0
    } else {
        let a = nesting(items[0]);
        let b = nesting_items(items.subrange(1, items.len() as int));
        if a >= b {
            a
        } else {
            b
        }
    }
}

pub open spec fn nesting_entries(entries: Seq<(Model, Model)>) -> nat
    decreases entries,
{
    if entries.len() == 0 {
        0
    } else {
        let a = nesting(entries[0].0);
        let b = nesting(entries[0].1);
        let c = nesting_entries(entries.subrange(1, entries.len() as int));
        if a >= b && a >= c {
            a
        } else if b >= c {
            b
        } else {
            c
        }
    }
}

/// `a` and `b` agree as CBOR values: the same encoding, major type and
/// magnitude, and the same integer where `a` is one. (They differ at most in
/// the bits of NaNs.)
pub open spec fn agree(a: Model, b: Model) -> bool {
    &&& encode(a) == encode(b)
    &&& major(a) == major(b)
    &&& magnitude(a) == magnitude(b)
    &&& (a is Int ==> a == b)
}

pub open spec fn pow256(k: nat) -> nat
    decreases k,
{
    if k == 0 {
        1
    } else {
        256 * pow256((k - 1) as nat)
    }
}

proof fn lemma_be_round_trip(n: nat, k: nat)
    requires
        n < pow256(k),
    ensures
        be_value(be_bytes(n, k)) == n,
        be_bytes(n, k).len() == k,
    decreases k,
{
    if k > 0 {
        let p = pow256((k - 1) as nat);
        assert(n / 256 < p) by {
            vstd::arithmetic::div_mod::lemma_div_is_ordered(n as int, (256 * p - 1) as int, 256);
            assert((256 * p - 1) / 256 == p - 1) by (nonlinear_arith)
                requires
                    p >= 1,
            ;
        }
        assert(p >= 1) by {
            lemma_pow256_pos((k - 1) as nat);
        }
        lemma_be_round_trip(n / 256, (k - 1) as nat);
        let b = be_bytes(n, k);
        assert(b.drop_last() =~= be_bytes(n / 256, (k - 1) as nat));
        assert(n == (n / 256) * 256 + n % 256) by {
            vstd::arithmetic::div_mod::lemma_fundamental_div_mod(n as int, 256);
        }
    }
}

proof fn lemma_pow256_pos(k: nat)
    ensures
        pow256(k) >= 1,
    decreases k,
{
    if k > 0 {
        lemma_pow256_pos((k - 1) as nat);
    }
}

/// Reading the head `head(mj, n)` back.
proof fn lemma_head_round_trip(s: Seq<u8>, pos: int, mj: u8, n: nat)
    requires
        mj < 8,
        n < 0x1_0000_0000_0000_0000,
        0 <= pos,
        pos + head(mj, n).len() <= s.len(),
        s.subrange(pos, pos + head(mj, n).len()) == head(mj, n),
    ensures
        s[pos] / 32 == mj,
        s[pos] % 32 <= 27,
        parse_arg(s, pos + 1, s[pos] % 32) == Some((n, pos + head(mj, n).len())),
{
    let h = head(mj, n);
    assert(s[pos] == h[0]);
    reveal_with_fuel(pow256, 9);
    assert(pow256(1) == 256 && pow256(2) == 0x1_0000 && pow256(4) == 0x1_0000_0000 && pow256(8)
        == 0x1_0000_0000_0000_0000);
    if n <= 23 {
        assert(h[0] == initial_byte(mj, n as u8));
    } else if n <= 0xff {
        assert(h[0] == initial_byte(mj, 24));
        assert(s.subrange(pos + 1, pos + 2) =~= seq![n as u8]);
        assert(be_value(seq![n as u8]) == n) by {
            assert(seq![n as u8].drop_last() =~= Seq::<u8>::empty());
            assert(be_value(Seq::<u8>::empty()) == 0);
            assert(seq![n as u8].last() == n as u8);
        }
    } else {
        let k: nat = if n <= 0xffff {
            2
        } else if n <= 0xffff_ffff {
            4
        } else {
            8
        };
        let info: u8 = if k == 2 {
            25
        } else if k == 4 {
            26
        } else {
            27
        };
        assert(h == seq![initial_byte(mj, info)] + be_bytes(n, k));
        lemma_be_round_trip(n, k);
        assert(h[0] == initial_byte(mj, info));
        assert(s.subrange(pos + 1, pos + 1 + k) =~= be_bytes(n, k)) by {
            assert forall|i: int| 0 <= i < k implies s.subrange(pos + 1, pos + 1 + k)[i]
                == be_bytes(n, k)[i] by {
                assert(s[pos + 1 + i] == s.subrange(pos, pos + h.len())[1 + i]);
            }
        }
        assert(arg_len(info) == k);
    }
}

proof fn lemma_split(s: Seq<u8>, p: int, a: Seq<u8>, b: Seq<u8>)
    requires
        0 <= p,
        p + a.len() + b.len() <= s.len(),
        s.subrange(p, p + a.len() + b.len()) == a + b,
    ensures
        s.subrange(p, p + a.len()) == a,
        s.subrange(p + a.len(), p + a.len() + b.len()) == b,
{
    assert forall|i: int| 0 <= i < a.len() implies s.subrange(p, p + a.len())[i] == a[i] by {
        assert(s[p + i] == s.subrange(p, p + a.len() + b.len())[i]);
    }
    assert forall|i: int| 0 <= i < b.len() implies s.subrange(
        p + a.len(),
        p + a.len() + b.len(),
    )[i] == b[i] by {
        assert(s[p + a.len() + i] == s.subrange(p, p + a.len() + b.len())[a.len() + i]);
    }
    assert(s.subrange(p, p + a.len()) =~= a);
    assert(s.subrange(p + a.len(), p + a.len() + b.len()) =~= b);
}

proof fn lemma_cmp_congruent(a: Model, a2: Model, b: Model, b2: Model)
    requires
        agree(a, a2),
        agree(b, b2),
    ensures
        canonical_cmp(a2, b2) == canonical_cmp(a, b),
{
    reveal(canonical_cmp);
    assert(tiebreak(a) == tiebreak(a2));
    assert(tiebreak(b) == tiebreak(b2));
}

proof fn lemma_first_not_below_end(acc: Seq<(Model, Model)>, k: Model, i: int)
    requires
        0 <= i <= acc.len(),
        forall|j: int| 0 <= j < acc.len() ==> canonical_cmp(#[trigger] acc[j].0, k) < 0,
    ensures
        first_not_below(acc, k, i) == acc.len(),
    decreases acc.len() - i,
{
    if i < acc.len() {
        lemma_first_not_below_end(acc, k, i + 1);
    }
}

/// Reading back the encoding of a well-formed value gives a value that
/// agrees with it, and ends where the encoding ends.
proof fn lemma_parse_encoded(s: Seq<u8>, pos: int, depth: int, m: Model)
    requires
        well_formed(m),
        0 <= depth,
        depth + nesting(m) < MAX_DEPTH,
        0 <= pos,
        pos + encode(m).len() <= s.len(),
        s.subrange(pos, pos + encode(m).len()) == encode(m),
    ensures
        parse_item(s, pos, depth) matches Ok((m2, q)) && q == pos + encode(m).len() && agree(m, m2),
    decreases m,
{
    let e = encode(m);
    assert(s[pos] == e[0]) by {
        assert(s.subrange(pos, pos + e.len())[0] == s[pos]);
    }
    match m {
        Model::Null => {},
        Model::Bool(b) => {},
        Model::Int(i) => {
            if i >= 0 {
                lemma_head_round_trip(s, pos, 0, i as nat);
            } else {
                lemma_head_round_trip(s, pos, 1, (-(i + 1)) as nat);
            }
        },
        Model::Float(bits) => {
            lemma_float_read(s, pos, bits);
        },
        Model::Bytes(b) => {
            let h = head(2, b.len());
            lemma_split(s, pos, h, b);
            lemma_head_round_trip(s, pos, 2, b.len());
        },
        Model::Text(t) => {
            let b = encode_utf8(t);
            let h = head(3, b.len());
            lemma_split(s, pos, h, b);
            lemma_head_round_trip(s, pos, 3, b.len());
            encode_utf8_valid_utf8(t);
            encode_utf8_decode_utf8(t);
        },
        Model::Array(items) => {
            let h = head(4, items.len());
            let body = encode_items(items);
            lemma_split(s, pos, h, body);
            lemma_head_round_trip(s, pos, 4, items.len());
            lemma_parse_items(s, pos + h.len(), depth + 1, items, seq![]);
            let r = parse_items(s, pos + h.len(), items.len(), depth + 1, seq![]);
            let all = r->Ok_0.0->Array_0;
            assert(all.subrange(0, all.len() as int) =~= all);
        },
        Model::Object(entries) => {
            let h = head(5, entries.len());
            let body = encode_entries(entries);
            lemma_split(s, pos, h, body);
            lemma_head_round_trip(s, pos, 5, entries.len());
            lemma_parse_entries(s, pos + h.len(), depth + 1, entries, seq![]);
            let r = parse_entries(s, pos + h.len(), entries.len(), depth + 1, seq![]);
            let all = r->Ok_0.0->Object_0;
            assert(all.subrange(0, all.len() as int) =~= all);
        },
        Model::Tag(_, _) => {},
    }
}

proof fn lemma_parse_items(s: Seq<u8>, p: int, depth: int, items: Seq<Model>, acc: Seq<Model>)
    requires
        well_formed_items(items),
        1 <= depth,
        depth + nesting_items(items) < MAX_DEPTH,
        0 <= p,
        p + encode_items(items).len() <= s.len(),
        s.subrange(p, p + encode_items(items).len()) == encode_items(items),
    ensures
        parse_items(s, p, items.len(), depth, acc) matches Ok((Model::Array(all), q)) && q == p
            + encode_items(items).len() && all.len() == acc.len() + items.len()
            && all.subrange(0, acc.len() as int) == acc && encode_items(
            all.subrange(acc.len() as int, all.len() as int),
        ) == encode_items(items),
    decreases items,
{
    if items.len() == 0 {
        assert(Seq::<Model>::empty() =~= acc.subrange(acc.len() as int, acc.len() as int));
        assert(acc.subrange(0, acc.len() as int) =~= acc);
    } else {
        let first = items[0];
        let rest = items.subrange(1, items.len() as int);
        lemma_split(s, p, encode(first), encode_items(rest));
        lemma_parse_encoded(s, p, depth, first);
        let (m2, q) = parse_item(s, p, depth)->Ok_0;
        super::ser::lemma_encode_nonempty(first);
        lemma_parse_items(s, q, depth, rest, acc.push(m2));
        let all = parse_items(s, q, rest.len(), depth, acc.push(m2))->Ok_0.0->Array_0;
        assert(all.subrange(0, acc.len() as int) =~= all.subrange(0, (acc.len() + 1) as int).subrange(
            0,
            acc.len() as int,
        ));
        assert(all.subrange(0, (acc.len() + 1) as int)[acc.len() as int] == m2);
        let tail = all.subrange(acc.len() as int, all.len() as int);
        assert(tail[0] == m2);
        assert(tail.subrange(1, tail.len() as int) =~= all.subrange((acc.len() + 1) as int, all.len() as int));
    }
}

proof fn lemma_parse_entries(
    s: Seq<u8>,
    p: int,
    depth: int,
    entries: Seq<(Model, Model)>,
    acc: Seq<(Model, Model)>,
)
    requires
        keys_sorted(entries),
        well_formed_entries(entries),
        forall|i: int, j: int|
            0 <= j < acc.len() && 0 <= i < entries.len() ==> canonical_cmp(
                #[trigger] acc[j].0,
                #[trigger] entries[i].0,
            ) < 0,
        1 <= depth,
        depth + nesting_entries(entries) < MAX_DEPTH,
        0 <= p,
        p + encode_entries(entries).len() <= s.len(),
        s.subrange(p, p + encode_entries(entries).len()) == encode_entries(entries),
    ensures
        parse_entries(s, p, entries.len(), depth, acc) matches Ok((Model::Object(all), q)) && q
            == p + encode_entries(entries).len() && all.len() == acc.len() + entries.len()
            && all.subrange(0, acc.len() as int) == acc && encode_entries(
            all.subrange(acc.len() as int, all.len() as int),
        ) == encode_entries(entries),
    decreases entries,
{
    if entries.len() == 0 {
        assert(Seq::<(Model, Model)>::empty() =~= acc.subrange(acc.len() as int, acc.len() as int));
        assert(acc.subrange(0, acc.len() as int) =~= acc);
    } else {
        let (k, v) = entries[0];
        let rest = entries.subrange(1, entries.len() as int);
        lemma_split(s, p, encode(k) + encode(v), encode_entries(rest));
        lemma_split(s, p, encode(k), encode(v));
        lemma_parse_encoded(s, p, depth, k);
        let (k2, q1) = parse_item(s, p, depth)->Ok_0;
        lemma_parse_encoded(s, q1, depth, v);
        let (v2, q2) = parse_item(s, q1, depth)->Ok_0;
        super::ser::lemma_encode_nonempty(k);
        super::ser::lemma_encode_nonempty(v);
        assert forall|j: int| 0 <= j < acc.len() implies canonical_cmp(#[trigger] acc[j].0, k2) < 0 by {
            assert(canonical_cmp(acc[j].0, entries[0].0) < 0);
            lemma_cmp_congruent(acc[j].0, acc[j].0, k, k2);
        }
        lemma_first_not_below_end(acc, k2, 0);
        assert(insert_entry(acc, k2, v2) =~= acc.push((k2, v2)));
        let acc2 = acc.push((k2, v2));
        assert forall|i: int| 0 <= i < rest.len() implies #[trigger] rest[i] == entries[i + 1] by {}
        assert forall|i: int, j: int|
            0 <= j < acc2.len() && 0 <= i < rest.len() implies canonical_cmp(
                #[trigger] acc2[j].0,
                #[trigger] rest[i].0,
            ) < 0 by {
            if j < acc.len() {
                assert(acc2[j] == acc[j]);
            } else {
                assert(canonical_cmp(entries[0].0, entries[i + 1].0) < 0);
                lemma_cmp_congruent(k, k2, rest[i].0, rest[i].0);
            }
        }
        assert forall|i: int, j: int| 0 <= i < j < rest.len() implies canonical_cmp(
            #[trigger] rest[i].0,
            #[trigger] rest[j].0,
        ) < 0 by {
            assert(canonical_cmp(entries[i + 1].0, entries[j + 1].0) < 0);
        }
        lemma_parse_entries(s, q2, depth, rest, acc2);
        let all = parse_entries(s, q2, rest.len(), depth, acc2)->Ok_0.0->Object_0;
        assert(all.subrange(0, acc.len() as int) =~= all.subrange(0, (acc.len() + 1) as int).subrange(
            0,
            acc.len() as int,
        ));
        assert(all.subrange(0, (acc.len() + 1) as int)[acc.len() as int] == (k2, v2));
        let tail = all.subrange(acc.len() as int, all.len() as int);
        assert(tail[0] == (k2, v2));
        assert(tail.subrange(1, tail.len() as int) =~= all.subrange((acc.len() + 1) as int, all.len() as int));
    }
}

proof fn lemma_double_fields(bits: u64)
    ensures
        bits as nat == super::model::f64_sign(bits) * 0x8000_0000_0000_0000
            + super::model::f64_exp(bits) * 0x10_0000_0000_0000 + super::model::f64_frac(bits),
        super::model::f64_sign(bits) <= 1,
        super::model::f64_exp(bits) < 2048,
        super::model::f64_frac(bits) < 0x10_0000_0000_0000,
{
    vstd::arithmetic::power2::lemma2_to64();
    vstd::arithmetic::power2::lemma2_to64_rest();
    let b = bits as nat;
    assert(b == (b / 0x8000_0000_0000_0000) * 0x8000_0000_0000_0000 + ((b / 0x10_0000_0000_0000)
        % 2048) * 0x10_0000_0000_0000 + b % 0x10_0000_0000_0000) by (nonlinear_arith)
        requires
            b < 0x1_0000_0000_0000_0000,
    ;
}

/// `lead_shift` of a number with its highest bit at `j`.
proof fn lemma_lead_shift_of(m: nat, j: nat, bits: nat)
    requires
        j < bits,
        pow2(j) <= m < pow2(j + 1),
    ensures
        super::de::lead_shift(m, pow2(bits)) == bits - j,
    decreases bits - j,
{
    vstd::arithmetic::power2::lemma_pow2_unfold(j + 1);
    vstd::arithmetic::power2::lemma_pow2_pos(j);
    if j + 1 < bits {
        vstd::arithmetic::power2::lemma_pow2_strictly_increases(j + 1, bits);
        vstd::arithmetic::power2::lemma_pow2_unfold(j + 2);
        lemma_lead_shift_of(2 * m, j + 1, bits);
        if 2 * m >= pow2(bits) {
            vstd::arithmetic::power2::lemma_pow2_strictly_increases(j + 2, bits);
        }
    } else {
        assert(2 * m >= pow2(bits));
    }
}


/// A finite double that fits in half precision comes back from it unchanged.
proof fn lemma_half_widen(bits: u64)
    requires
        narrow_to_half(bits) matches Some(_),
        super::model::f64_exp(bits) != 2047 || super::model::f64_frac(bits) == 0,
    ensures
        super::de::widen_half(narrow_to_half(bits)->Some_0) == bits,
{
    vstd::arithmetic::power2::lemma2_to64();
    vstd::arithmetic::power2::lemma2_to64_rest();
    lemma_double_fields(bits);
    let sg = super::model::f64_sign(bits);
    let e = super::model::f64_exp(bits);
    let m = super::model::f64_frac(bits);
    let h = narrow_to_half(bits)->Some_0;
    if e == 2047 || e == 0 {
    } else if 1009 <= e && e <= 1038 {
        let m16 = m / 0x400_0000_0000;
        assert(m == m16 * 0x400_0000_0000) by (nonlinear_arith)
            requires
                m % 0x400_0000_0000 == 0,
                m16 == m / 0x400_0000_0000,
        ;
        assert(m16 < 1024) by (nonlinear_arith)
            requires
                m16 == m / 0x400_0000_0000,
                m < 0x10_0000_0000_0000,
        ;
        assert(h as nat == sg * 0x8000 + (e - 1008) * 0x400 + m16);
        assert(h as nat / 0x8000 == sg);
        assert((h as nat / 0x400) % 32 == e - 1008);
        assert(h as nat % 0x400 == m16);
    } else {
        let x = e - 1023;
        let full = m + pow2(52);
        let shift = (28 - x) as nat;
        let k16 = full / pow2(shift);
        assert(43 <= shift <= 52);
        vstd::arithmetic::power2::lemma_pow2_adds((52 - shift) as nat, shift);
        vstd::arithmetic::power2::lemma_pow2_adds((53 - shift) as nat, shift);
        vstd::arithmetic::power2::lemma_pow2_pos(shift);
        let j = (52 - shift) as nat;
        assert(full == k16 * pow2(shift)) by (nonlinear_arith)
            requires
                full % pow2(shift) == 0,
                k16 == full / pow2(shift),
                pow2(shift) > 0,
        ;
        assert(pow2(j) <= k16 < pow2(j + 1)) by (nonlinear_arith)
            requires
                full == k16 * pow2(shift),
                pow2(52) <= full < pow2(53),
                pow2(j) * pow2(shift) == pow2(52),
                pow2(j + 1) * pow2(shift) == pow2(53),
                pow2(shift) > 0,
        ;
        if j + 1 < 10 {
            vstd::arithmetic::power2::lemma_pow2_strictly_increases(j + 1, 10);
        }
        assert(k16 < 1024);
        assert(h as nat == sg * 0x8000 + k16);
        assert(h as nat / 0x8000 == sg);
        assert((h as nat / 0x400) % 32 == 0);
        assert(h as nat % 0x400 == k16);
        lemma_lead_shift_of(k16, j, 10);
        let k = (10 - j) as nat;
        vstd::arithmetic::power2::lemma_pow2_adds(k, 42);
        assert(k + 42 == shift);
        assert((k16 * pow2(k) - 0x400) * 0x400_0000_0000 == full - pow2(52)) by (nonlinear_arith)
            requires
                full == k16 * pow2(shift),
                pow2(k) * pow2(42) == pow2(shift),
                pow2(42) == 0x400_0000_0000,
                pow2(52) == 0x400 * 0x400_0000_0000,
        ;
    }
}

/// A finite double that fits in single precision comes back from it
/// unchanged.
proof fn lemma_single_widen(bits: u64)
    requires
        narrow_to_single(bits) matches Some(_),
    ensures
        super::de::widen_single(narrow_to_single(bits)->Some_0) == bits,
{
    vstd::arithmetic::power2::lemma2_to64();
    vstd::arithmetic::power2::lemma2_to64_rest();
    lemma_double_fields(bits);
    let sg = super::model::f64_sign(bits);
    let e = super::model::f64_exp(bits);
    let m = super::model::f64_frac(bits);
    let f = narrow_to_single(bits)->Some_0;
    if 897 <= e && e <= 1150 {
        let m32 = m / 0x2000_0000;
        assert(m == m32 * 0x2000_0000) by (nonlinear_arith)
            requires
                m % 0x2000_0000 == 0,
                m32 == m / 0x2000_0000,
        ;
        assert(m32 < 0x80_0000) by (nonlinear_arith)
            requires
                m32 == m / 0x2000_0000,
                m < 0x10_0000_0000_0000,
        ;
        assert(f as nat == sg * 0x8000_0000 + (e - 896) * 0x80_0000 + m32);
        assert(f as nat / 0x8000_0000 == sg);
        assert((f as nat / 0x80_0000) % 256 == e - 896);
        assert(f as nat % 0x80_0000 == m32);
    } else {
        let x = e - 1023;
        let full = m + pow2(52);
        let shift = (-97 - x) as nat;
        let k32 = full / pow2(shift);
        assert(30 <= shift <= 52);
        vstd::arithmetic::power2::lemma_pow2_adds((52 - shift) as nat, shift);
        vstd::arithmetic::power2::lemma_pow2_adds((53 - shift) as nat, shift);
        vstd::arithmetic::power2::lemma_pow2_pos(shift);
        let j = (52 - shift) as nat;
        assert(full == k32 * pow2(shift)) by (nonlinear_arith)
            requires
                full % pow2(shift) == 0,
                k32 == full / pow2(shift),
                pow2(shift) > 0,
        ;
        assert(pow2(j) <= k32 < pow2(j + 1)) by (nonlinear_arith)
            requires
                full == k32 * pow2(shift),
                pow2(52) <= full < pow2(53),
                pow2(j) * pow2(shift) == pow2(52),
                pow2(j + 1) * pow2(shift) == pow2(53),
                pow2(shift) > 0,
        ;
        if j + 1 < 23 {
            vstd::arithmetic::power2::lemma_pow2_strictly_increases(j + 1, 23);
        }
        assert(k32 < 0x80_0000);
        assert(f as nat == sg * 0x8000_0000 + k32);
        assert(f as nat / 0x8000_0000 == sg);
        assert((f as nat / 0x80_0000) % 256 == 0);
        assert(f as nat % 0x80_0000 == k32);
        lemma_lead_shift_of(k32, j, 23);
        let k = (23 - j) as nat;
        vstd::arithmetic::power2::lemma_pow2_adds(k, 29);
        assert(k + 29 == shift);
        assert((k32 * pow2(k) - 0x80_0000) * 0x2000_0000 == full - pow2(52)) by (nonlinear_arith)
            requires
                full == k32 * pow2(shift),
                pow2(k) * pow2(29) == pow2(shift),
                pow2(29) == 0x2000_0000,
                pow2(52) == 0x80_0000 * 0x2000_0000,
        ;
    }
}

proof fn lemma_float_read(s: Seq<u8>, pos: int, bits: u64)
    requires
        0 <= pos,
        pos + float_encoding(bits).len() <= s.len(),
        s.subrange(pos, pos + float_encoding(bits).len()) == float_encoding(bits),
    ensures
        parse_simple(s, pos + 1, s[pos] % 32) matches Ok((m2, q)) && q == pos + float_encoding(
            bits,
        ).len() && agree(Model::Float(bits), m2),
        s[pos] / 32 == 7,
{
    vstd::arithmetic::power2::lemma2_to64();
    vstd::arithmetic::power2::lemma2_to64_rest();
    reveal_with_fuel(pow256, 9);
    let fe = float_encoding(bits);
    assert(s[pos] == fe[0]) by {
        assert(s.subrange(pos, pos + fe.len())[0] == s[pos]);
    }
    match narrow_to_half(bits) {
        Some(h) => {
            lemma_be_round_trip(h as nat, 2);
            lemma_split(s, pos, seq![0xf9u8], be_bytes(h as nat, 2));
            let w = super::de::widen_half(h);
            if super::model::f64_exp(bits) == 2047 && super::model::f64_frac(bits) != 0 {
                assert(h == 0x7e00);
                assert(w == 0x7ff8_0000_0000_0000u64);
                lemma_double_fields(w);
                assert(narrow_to_half(w) == Some(0x7e00u16));
            } else {
                lemma_half_widen(bits);
            }
            assert(float_encoding(w) == fe);
        },
        None => match narrow_to_single(bits) {
            Some(f) => {
                lemma_be_round_trip(f as nat, 4);
                lemma_split(s, pos, seq![0xfau8], be_bytes(f as nat, 4));
                lemma_single_widen(bits);
            },
            None => {
                lemma_be_round_trip(bits as nat, 8);
                lemma_split(s, pos, seq![0xfbu8], be_bytes(bits as nat, 8));
            },
        },
    }
}

/// Round trip: decoding the encoding of a well-formed value that nests fewer
/// than `MAX_DEPTH` levels succeeds, and gives a value equal to it in the
/// canonical order (the same value, but for the bits of NaNs, which all
/// encode alike).
pub proof fn lemma_round_trip(m: Model)
    requires
        well_formed(m),
        nesting(m) < MAX_DEPTH,
    ensures
        decode(encode(m)) matches Ok(m2) && canonical_cmp(m2, m) == 0,
{
    let s = encode(m);
    assert(s.subrange(0, s.len() as int) =~= s);
    lemma_parse_encoded(s, 0, 0, m);
    let m2 = parse_item(s, 0, 0)->Ok_0.0;
    reveal(canonical_cmp);
    lemma_lex_antisymmetric(tiebreak(m2), tiebreak(m));
    lemma_lex_antisymmetric(tiebreak(m), tiebreak(m));
}

/// Encoding is stable: re-encoding what decoding an encoding gave yields the
/// very same bytes, for every well-formed value that nests fewer than
/// `MAX_DEPTH` levels.
pub proof fn lemma_reencoding_is_stable(m: Model)
    requires
        well_formed(m),
        nesting(m) < MAX_DEPTH,
    ensures
        decode(encode(m)) matches Ok(m2) && encode(m2) == encode(m),
{
    let s = encode(m);
    assert(s.subrange(0, s.len() as int) =~= s);
    lemma_parse_encoded(s, 0, 0, m);
}

} // verus!
