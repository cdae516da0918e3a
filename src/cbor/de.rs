//! The CBOR decoder. It is recursive, one call per nested item, and refuses to
//! go deeper than [`MAX_DEPTH`] levels.
use vstd::prelude::*;
use vstd::arithmetic::power2::pow2;
use vstd::utf8::{valid_utf8, decode_utf8, valid_utf8_concat};

use vstd::arithmetic::power2::{lemma2_to64, lemma_pow2_unfold};

use crate::error::{Error, ErrorKind};
use crate::strings::utf8_text;
use super::model::{
    Model, be_value, insert_entry, encodable, lemma_encodable_items, lemma_encodable_entries,
};
use super::value::{Value, Array, Object, models, entry_models};
use super::ser::lemma_array_model;

verus! {

/// The number of nesting levels the decoder accepts: the top-level item is at
/// level 0, and an item at level `MAX_DEPTH` is refused.
pub const MAX_DEPTH: usize = 256;

/// How many bytes follow a head with additional information `info`, or `-1`
/// where `info` is reserved.
pub open spec fn arg_len(info: u8) -> int {
    if info <= 23 {
        0
    } else if info == 24 {
        1
    } else if info == 25 {
        2
    } else if info == 26 {
        4
    } else if info == 27 {
        8
    } else {
        -1
    }
}

/// The argument of a head with additional information `info` whose following
/// bytes start at `pos`, and where the head ends.
pub open spec fn parse_arg(s: Seq<u8>, pos: int, info: u8) -> Option<(nat, int)> {
    if info <= 23 {
        Some((info as nat, pos))
    } else if 24 <= info <= 27 && 0 <= pos && pos + arg_len(info) <= s.len() {
        Some((be_value(s.subrange(pos, pos + arg_len(info))), pos + arg_len(info)))
    } else {
        None
    }
}

/// How many times `m` doubles before it reaches `limit`.
pub open spec fn lead_shift(m: nat, limit: nat) -> nat
    decreases limit - m,
{
    if m == 0 || m >= limit {
        0
    } else if 2 * m >= limit {
        1
    } else {
        1 + lead_shift(2 * m, limit)
    }
}

/// A NaN fraction with its quiet bit set.
pub open spec fn quiet(m: nat, quiet_bit: nat) -> nat {
    if (m / quiet_bit) % 2 == 1 {
        m
    } else {
        m + quiet_bit
    }
}

/// The double with the value of the half-precision float `h` (a NaN becomes a
/// quiet NaN with the same sign and payload).
pub open spec fn widen_half(h: u16) -> u64 {
    let s = h as nat / 0x8000;
    let e = (h as nat / 0x400) % 32;
    let m = h as nat % 0x400;
    let sign = s * 0x8000_0000_0000_0000;
    if e == 31 {
        if m == 0 {
            (sign + 0x7ff0_0000_0000_0000) as u64
        } else {
            (sign + 0x7ff0_0000_0000_0000 + quiet(m, 0x200) * 0x400_0000_0000) as u64
        }
    } else if e == 0 {
        if m == 0 {
            sign as u64
        } else {
            let k = lead_shift(m, 0x400);
            (sign + (1009 - k) * 0x10_0000_0000_0000 + (m * pow2(k) - 0x400)
                * 0x400_0000_0000) as u64
        }
    } else {
        (sign + (e + 1008) * 0x10_0000_0000_0000 + m * 0x400_0000_0000) as u64
    }
}

/// The double with the value of the single-precision float `f` (a NaN becomes
/// a quiet NaN with the same sign and payload).
pub open spec fn widen_single(f: u32) -> u64 {
    let s = f as nat / 0x8000_0000;
    let e = (f as nat / 0x80_0000) % 256;
    let m = f as nat % 0x80_0000;
    let sign = s * 0x8000_0000_0000_0000;
    if e == 255 {
        if m == 0 {
            (sign + 0x7ff0_0000_0000_0000) as u64
        } else {
            (sign + 0x7ff0_0000_0000_0000 + quiet(m, 0x40_0000) * 0x2000_0000) as u64
        }
    } else if e == 0 {
        if m == 0 {
            sign as u64
        } else {
            let k = lead_shift(m, 0x80_0000);
            (sign + (897 - k) * 0x10_0000_0000_0000 + (m * pow2(k) - 0x80_0000)
                * 0x2000_0000) as u64
        }
    } else {
        (sign + (e + 896) * 0x10_0000_0000_0000 + m * 0x2000_0000) as u64
    }
}

/// The simple value or float of major type 7 with additional information
/// `info` whose following bytes start at `pos`.
pub open spec fn parse_simple(s: Seq<u8>, pos: int, info: u8) -> Result<(Model, int), ErrorKind> {
    if info == 20 || info == 21 {
        Ok((Model::Bool(info == 21), pos))
    } else if info == 22 || info == 23 {
        Ok((Model::Null, pos))
    } else if 25 <= info <= 27 {
        match parse_arg(s, pos, info) {
            Some((n, p)) => Ok(
                (
                    Model::Float(
                        if info == 25 {
                            widen_half(n as u16)
                        } else if info == 26 {
                            widen_single(n as u32)
                        } else {
                            n as u64
                        },
                    ),
                    p,
                ),
            ),
            None => Err(ErrorKind::Malformed),
        }
    } else {
        Err(ErrorKind::Malformed)
    }
}

/// The chunks of an indefinite-length string of major type `major` from `pos`
/// up to the break byte, appended to `acc`: the bytes and where they end.
/// Each chunk is a definite-length string of the same major type; a text chunk
/// must be valid UTF-8 by itself.
pub open spec fn parse_chunks(s: Seq<u8>, pos: int, major: u8, acc: Seq<u8>) -> Result<
    (Seq<u8>, int),
    ErrorKind,
>
    decreases s.len() - pos,
{
    if pos < 0 || pos >= s.len() {
        Err(ErrorKind::Malformed)
    } else if s[pos] == 0xff {
        Ok((acc, pos + 1))
    } else if s[pos] / 32 != major || s[pos] % 32 == 31 {
        Err(ErrorKind::Malformed)
    } else {
        match parse_arg(s, pos + 1, s[pos] % 32) {
            Some((n, p)) => if p + n <= s.len() {
                let chunk = s.subrange(p, p + n);
                if major == 3 && !valid_utf8(chunk) {
                    Err(ErrorKind::Malformed)
                } else {
                    parse_chunks(s, p + n, major, acc + chunk)
                }
            } else {
                Err(ErrorKind::Malformed)
            },
            None => Err(ErrorKind::Malformed),
        }
    }
}

/// The item that starts at `pos` at nesting level `depth`, and where it ends.
///
/// Integers, strings, arrays and maps may have any head width; strings,
/// arrays and maps may have indefinite length. A map's entries are inserted
/// in order as by [`insert_entry`], so a repeated key keeps the last value.
pub open spec fn parse_item(s: Seq<u8>, pos: int, depth: int) -> Result<(Model, int), ErrorKind>
    decreases MAX_DEPTH - depth, s.len() - pos, 0int,
{
    if depth < 0 || depth >= MAX_DEPTH {
        Err(ErrorKind::DepthExceeded)
    } else if pos < 0 || pos >= s.len() {
        Err(ErrorKind::Malformed)
    } else {
        let major = s[pos] / 32;
        let info = s[pos] % 32;
        if major == 7 {
            parse_simple(s, pos + 1, info)
        } else if major == 6 {
            Err(ErrorKind::Unrepresentable)
        } else if info == 31 {
            if major == 2 || major == 3 {
                match parse_chunks(s, pos + 1, major, seq![]) {
                    Ok((b, p)) => Ok(
                        (
                            if major == 2 {
                                Model::Bytes(b)
                            } else {
                                Model::Text(decode_utf8(b))
                            },
                            p,
                        ),
                    ),
                    Err(e) => Err(e),
                }
            } else if major == 4 {
                parse_items_until_break(s, pos + 1, depth + 1, seq![])
            } else if major == 5 {
                parse_entries_until_break(s, pos + 1, depth + 1, seq![])
            } else {
                Err(ErrorKind::Malformed)
            }
        } else {
            match parse_arg(s, pos + 1, info) {
                None => Err(ErrorKind::Malformed),
                Some((n, p)) => if major == 0 {
                    Ok((Model::Int(n as int), p))
                } else if major == 1 {
                    Ok((Model::Int(-(n + 1)), p))
                } else if major == 2 || major == 3 {
                    if p + n <= s.len() {
                        let b = s.subrange(p, p + n);
                        if major == 2 {
                            Ok((Model::Bytes(b), p + n))
                        } else if valid_utf8(b) {
                            Ok((Model::Text(decode_utf8(b)), p + n))
                        } else {
                            Err(ErrorKind::Malformed)
                        }
                    } else {
                        Err(ErrorKind::Malformed)
                    }
                } else if major == 4 {
                    parse_items(s, p, n, depth + 1, seq![])
                } else {
                    parse_entries(s, p, n, depth + 1, seq![])
                },
            }
        }
    }
}

/// `n` more items from `pos` at level `depth`, after the items `acc`.
pub open spec fn parse_items(s: Seq<u8>, pos: int, n: nat, depth: int, acc: Seq<Model>) -> Result<
    (Model, int),
    ErrorKind,
>
    decreases MAX_DEPTH - depth, s.len() - pos, 1int,
{
    if n == 0 {
        Ok((Model::Array(acc), pos))
    } else {
        match parse_item(s, pos, depth) {
            Ok((m, p)) => if pos < p <= s.len() {
                parse_items(s, p, (n - 1) as nat, depth, acc.push(m))
            } else {
                Err(ErrorKind::Malformed)
            },
            Err(e) => Err(e),
        }
    }
}

/// Items from `pos` at level `depth` up to the break byte, after the items
/// `acc`.
pub open spec fn parse_items_until_break(s: Seq<u8>, pos: int, depth: int, acc: Seq<Model>) -> Result<
    (Model, int),
    ErrorKind,
>
    decreases MAX_DEPTH - depth, s.len() - pos, 1int,
{
    if pos < 0 || pos >= s.len() {
        Err(ErrorKind::Malformed)
    } else if s[pos] == 0xff {
        Ok((Model::Array(acc), pos + 1))
    } else {
        match parse_item(s, pos, depth) {
            Ok((m, p)) => if pos < p <= s.len() {
                parse_items_until_break(s, p, depth, acc.push(m))
            } else {
                Err(ErrorKind::Malformed)
            },
            Err(e) => Err(e),
        }
    }
}

/// `n` more entries from `pos` at level `depth`, inserted into `acc`.
pub open spec fn parse_entries(
    s: Seq<u8>,
    pos: int,
    n: nat,
    depth: int,
    acc: Seq<(Model, Model)>,
) -> Result<(Model, int), ErrorKind>
    decreases MAX_DEPTH - depth, s.len() - pos, 1int,
{
    if n == 0 {
        Ok((Model::Object(acc), pos))
    } else {
        match parse_item(s, pos, depth) {
            Ok((k, p)) => if pos < p <= s.len() {
                match parse_item(s, p, depth) {
                    Ok((v, q)) => if p < q <= s.len() {
                        parse_entries(s, q, (n - 1) as nat, depth, insert_entry(acc, k, v))
                    } else {
                        Err(ErrorKind::Malformed)
                    },
                    Err(e) => Err(e),
                }
            } else {
                Err(ErrorKind::Malformed)
            },
            Err(e) => Err(e),
        }
    }
}

/// Entries from `pos` at level `depth` up to the break byte, inserted into
/// `acc`.
pub open spec fn parse_entries_until_break(
    s: Seq<u8>,
    pos: int,
    depth: int,
    acc: Seq<(Model, Model)>,
) -> Result<(Model, int), ErrorKind>
    decreases MAX_DEPTH - depth, s.len() - pos, 1int,
{
    if pos < 0 || pos >= s.len() {
        Err(ErrorKind::Malformed)
    } else if s[pos] == 0xff {
        Ok((Model::Object(acc), pos + 1))
    } else {
        match parse_item(s, pos, depth) {
            Ok((k, p)) => if pos < p <= s.len() {
                match parse_item(s, p, depth) {
                    Ok((v, q)) => if p < q <= s.len() {
                        parse_entries_until_break(s, q, depth, insert_entry(acc, k, v))
                    } else {
                        Err(ErrorKind::Malformed)
                    },
                    Err(e) => Err(e),
                }
            } else {
                Err(ErrorKind::Malformed)
            },
            Err(e) => Err(e),
        }
    }
}

/// What decoding all of `s` as one CBOR item gives.
pub open spec fn decode(s: Seq<u8>) -> Result<Model, ErrorKind> {
    match parse_item(s, 0, 0) {
        Ok((m, p)) => if p == s.len() {
            Ok(m)
        } else {
            Err(ErrorKind::TrailingData)
        },
        Err(e) => Err(e),
    }
}

/// Splits an initial byte into its major type and its additional information.
pub fn major_and_tag(byte: u8) -> (r: (u8, u8))
    ensures
        r.0 == byte / 32,
        r.1 == byte % 32,
{
    (byte / 32, byte % 32)
}

/// Reads `k` big-endian bytes from `pos`.
fn read_be(bytes: &[u8], pos: usize, k: usize) -> (r: u64)
    requires
        k <= 8,
        pos + k <= bytes@.len(),
    ensures
        r as nat == be_value(bytes@.subrange(pos as int, pos + k)),
{
    proof {
        lemma2_to64();
    }
    let mut acc: u64 = 0;
    let mut j: usize = 0;
    let len = bytes.len();
    assert(bytes@.subrange(pos as int, pos as int) =~= Seq::<u8>::empty());
    while j < k
        invariant
            len == bytes@.len(),
            j <= k <= 8,
            pos + k <= bytes@.len(),
            acc as nat == be_value(bytes@.subrange(pos as int, pos + j)),
            (acc as nat) < pow2((8 * j) as nat),
            pow2(64) == 0x1_0000_0000_0000_0000,
        decreases k - j,
    {
        let b = bytes[pos + j];
        proof {
            let sub = bytes@.subrange(pos as int, pos + j + 1);
            assert(sub.drop_last() =~= bytes@.subrange(pos as int, pos + j));
            vstd::arithmetic::power2::lemma_pow2_adds((8 * j) as nat, 8);
            lemma2_to64();
            let pj = pow2((8 * j) as nat);
            assert(acc * 256 + b < pj * 256) by (nonlinear_arith)
                requires
                    acc < pj,
                    b < 256,
            ;
            if j + 1 < 8 {
                vstd::arithmetic::power2::lemma_pow2_strictly_increases((8 * (j + 1)) as nat, 64);
            }
            assert(8 * j + 8 == 8 * (j + 1));
        }
        acc = acc * 256 + b as u64;
        j = j + 1;
    }
    acc
}

/// The argument of a head with additional information `tag` whose following
/// bytes start at `pos`, and where the head ends (see [`parse_arg`]).
pub fn parse_u64(tag: u8, bytes: &[u8], pos: usize) -> (r: Option<(u64, usize)>)
    ensures
        r is Some <==> parse_arg(bytes@, pos as int, tag) is Some,
        r matches Some((n, p)) ==> parse_arg(bytes@, pos as int, tag) == Some(
            (n as nat, p as int),
        ),
{
    if tag <= 23 {
        Some((tag as u64, pos))
    } else if tag <= 27 {
        let k: usize = if tag == 24 {
            1
        } else if tag == 25 {
            2
        } else if tag == 26 {
            4
        } else {
            8
        };
        if pos <= bytes.len() && k <= bytes.len() - pos {
            let n = read_be(bytes, pos, k);
            Some((n, pos + k))
        } else {
            None
        }
    } else {
        None
    }
}

/// The bytes of a definite-length string whose head's additional information
/// is `tag` and whose argument starts at `pos`, and where they end.
pub fn parse_known_len_byte_seq(tag: u8, bytes: &[u8], pos: usize) -> (r: Option<(Vec<u8>, usize)>)
    ensures
        r is Some <==> (parse_arg(bytes@, pos as int, tag) matches Some((n, p)) && p + n
            <= bytes@.len()),
        r matches Some((b, q)) ==> (parse_arg(bytes@, pos as int, tag) matches Some((n, p))
            && b@ == bytes@.subrange(p, p + n) && q == p + n),
{
    match parse_u64(tag, bytes, pos) {
        None => None,
        Some((n, p)) => {
            if p <= bytes.len() && n as u128 <= (bytes.len() - p) as u128 {
                let end = p + n as usize;
                let mut out: Vec<u8> = Vec::new();
                let mut i: usize = p;
                while i < end
                    invariant
                        p <= i <= end <= bytes@.len(),
                        out@ == bytes@.subrange(p as int, i as int),
                    decreases end - i,
                {
                    out.push(bytes[i]);
                    i = i + 1;
                    assert(out@ =~= bytes@.subrange(p as int, i as int));
                }
                Some((out, end))
            } else {
                None
            }
        },
    }
}

/// `lead_shift(m, 2^bits)`, and `m` doubled that many times.
fn lead_shift_exec(m: u64, bits: u64) -> (r: (u64, u64))
    requires
        0 < bits <= 23,
        0 < m < pow2(bits as nat),
    ensures
        r.0 == lead_shift(m as nat, pow2(bits as nat)),
        r.0 <= bits,
        r.1 as nat == m * pow2(r.0 as nat),
        pow2(bits as nat) <= r.1 < 2 * pow2(bits as nat),
{
    proof {
        lemma2_to64();
    }
    let limit: u64 = if bits == 10 {
        0x400
    } else {
        pow2_exec(bits)
    };
    let mut mm: u64 = m;
    let mut k: u64 = 0;
    proof {
        assert(m * pow2(0) == m);
    }
    while mm < limit
        invariant
            limit as nat == pow2(bits as nat),
            0 < bits <= 23,
            limit <= 0x80_0000,
            0 < mm < 2 * limit,
            mm as nat == m * pow2(k as nat),
            k + lead_shift(mm as nat, limit as nat) == lead_shift(m as nat, limit as nat),
            k <= bits,
        decreases 2 * limit - mm,
    {
        proof {
            lemma_pow2_unfold((k + 1) as nat);
            assert(m * pow2((k + 1) as nat) == (m * pow2(k as nat)) * 2) by (nonlinear_arith)
                requires
                    pow2((k + 1) as nat) == 2 * pow2(k as nat),
            ;
            assert(m * pow2(k as nat) >= pow2(k as nat)) by (nonlinear_arith)
                requires
                    m >= 1,
            ;
            if k >= bits {
                if k > bits {
                    vstd::arithmetic::power2::lemma_pow2_strictly_increases(bits as nat, k as nat);
                }
                assert(false);
            }
        }
        mm = mm * 2;
        k = k + 1;
    }
    (k, mm)
}

/// `2^k` for small `k`.
fn pow2_exec(k: u64) -> (r: u64)
    requires
        k <= 23,
    ensures
        r as nat == pow2(k as nat),
{
    let mut p: u64 = 1;
    let mut i: u64 = 0;
    proof {
        lemma2_to64();
    }
    while i < k
        invariant
            i <= k <= 23,
            p as nat == pow2(i as nat),
        decreases k - i,
    {
        proof {
            lemma_pow2_unfold((i + 1) as nat);
            if i + 1 < 23 {
                vstd::arithmetic::power2::lemma_pow2_strictly_increases((i + 1) as nat, 23);
            }
            lemma2_to64();
        }
        p = p * 2;
        i = i + 1;
    }
    p
}

/// The double with the value of the half-precision float `h` (see
/// [`widen_half`]).
pub fn half_to_double(h: u16) -> (r: u64)
    ensures
        r == widen_half(h),
{
    let s: u64 = h as u64 / 0x8000;
    let e: u64 = (h as u64 / 0x400) % 32;
    let m: u64 = h as u64 % 0x400;
    let sign: u64 = s * 0x8000_0000_0000_0000;
    if e == 31 {
        if m == 0 {
            sign + 0x7ff0_0000_0000_0000
        } else {
            let q: u64 = if (m / 0x200) % 2 == 1 {
                m
            } else {
                m + 0x200
            };
            sign + 0x7ff0_0000_0000_0000 + q * 0x400_0000_0000
        }
    } else if e == 0 {
        if m == 0 {
            sign
        } else {
            proof {
                lemma2_to64();
            }
            let (k, mm) = lead_shift_exec(m, 10);
            sign + (1009 - k) * 0x10_0000_0000_0000 + (mm - 0x400) * 0x400_0000_0000
        }
    } else {
        sign + (e + 1008) * 0x10_0000_0000_0000 + m * 0x400_0000_0000
    }
}

/// The double with the value of the single-precision float `f` (see
/// [`widen_single`]).
pub fn single_to_double(f: u32) -> (r: u64)
    ensures
        r == widen_single(f),
{
    let s: u64 = f as u64 / 0x8000_0000;
    let e: u64 = (f as u64 / 0x80_0000) % 256;
    let m: u64 = f as u64 % 0x80_0000;
    let sign: u64 = s * 0x8000_0000_0000_0000;
    if e == 255 {
        if m == 0 {
            sign + 0x7ff0_0000_0000_0000
        } else {
            let q: u64 = if (m / 0x40_0000) % 2 == 1 {
                m
            } else {
                m + 0x40_0000
            };
            sign + 0x7ff0_0000_0000_0000 + q * 0x2000_0000
        }
    } else if e == 0 {
        if m == 0 {
            sign
        } else {
            proof {
                lemma2_to64();
            }
            let (k, mm) = lead_shift_exec(m, 23);
            sign + (897 - k) * 0x10_0000_0000_0000 + (mm - 0x80_0000) * 0x2000_0000
        }
    } else {
        sign + (e + 896) * 0x10_0000_0000_0000 + m * 0x2000_0000
    }
}

/// `r` is what the specification `sp` of the parse says, as values.
pub open spec fn agrees(r: Result<(Value, usize), Error>, sp: Result<(Model, int), ErrorKind>) -> bool {
    match r {
        Ok((v, p)) => sp == Ok::<(Model, int), ErrorKind>((v.model(), p as int)),
        Err(e) => sp == Err::<(Model, int), ErrorKind>(e.kind),
    }
}

/// Every key and value of `es` is encodable.
pub open spec fn entries_encodable(es: Seq<(Model, Model)>) -> bool {
    forall|i: int| #![trigger es[i]] 0 <= i < es.len() ==> encodable(es[i].0) && encodable(es[i].1)
}

proof fn lemma_insert_entry_encodable(es: Seq<(Model, Model)>, k: Model, v: Model)
    requires
        entries_encodable(es),
        encodable(k),
        encodable(v),
    ensures
        entries_encodable(insert_entry(es, k, v)),
{
    let r = insert_entry(es, k, v);
    let p = super::model::first_not_below(es, k, 0);
    super::model::lemma_first_not_below_bounds(es, k, 0);
    assert forall|i: int| #![trigger r[i]] 0 <= i < r.len() implies encodable(r[i].0) && encodable(
        r[i].1,
    ) by {
        if p < es.len() && super::model::canonical_cmp(es[p].0, k) == 0 {
            if i != p {
                assert(r[i] == es[i]);
            }
        } else {
            if i < p {
                assert(r[i] == es[i]);
            } else if i > p {
                assert(r[i] == es[i - 1]);
            }
        }
    }
}

/// Decodes the simple value or float of major type 7 whose following bytes
/// start at `pos`.
fn parse_simple_value(info: u8, bytes: &[u8], pos: usize) -> (r: Result<(Value, usize), Error>)
    requires
        pos <= bytes@.len(),
    ensures
        agrees(r, parse_simple(bytes@, pos as int, info)),
        r matches Ok((v, p)) ==> pos <= p <= bytes@.len() && encodable(v.model()),
{
    if info == 20 || info == 21 {
        Ok((Value::Bool(info == 21), pos))
    } else if info == 22 || info == 23 {
        Ok((Value::Null, pos))
    } else if 25 <= info && info <= 27 {
        match parse_u64(info, bytes, pos) {
            Some((n, p)) => {
                let bits = if info == 25 {
                    half_to_double(n as u16)
                } else if info == 26 {
                    single_to_double(n as u32)
                } else {
                    n
                };
                Ok((Value::Float(bits), p))
            },
            None => Err(Error::new(ErrorKind::Malformed)),
        }
    } else {
        Err(Error::new(ErrorKind::Malformed))
    }
}

/// Decodes the chunks of an indefinite-length string of major type `major`.
fn parse_chunks_exec(bytes: &[u8], pos: usize, major: u8) -> (r: Result<(Vec<u8>, usize), Error>)
    requires
        pos <= bytes@.len(),
        major == 2 || major == 3,
    ensures
        match r {
            Ok((b, p)) => parse_chunks(bytes@, pos as int, major, seq![]) == Ok::<
                (Seq<u8>, int),
                ErrorKind,
            >((b@, p as int)) && pos < p <= bytes@.len() && (major == 3 ==> valid_utf8(b@)),
            Err(e) => parse_chunks(bytes@, pos as int, major, seq![]) == Err::<
                (Seq<u8>, int),
                ErrorKind,
            >(e.kind),
        },
{
    let mut acc: Vec<u8> = Vec::new();
    let mut p: usize = pos;
    proof {
        assert(valid_utf8(Seq::<u8>::empty())) by {
            vstd::utf8::encode_utf8_valid_utf8(Seq::<char>::empty());
            assert(vstd::utf8::encode_utf8(Seq::<char>::empty()) =~= Seq::<u8>::empty());
        }
    }
    while p < bytes.len()
        invariant
            pos <= p <= bytes@.len(),
            major == 2 || major == 3,
            parse_chunks(bytes@, pos as int, major, seq![]) == parse_chunks(bytes@, p as int, major, acc@),
            major == 3 ==> valid_utf8(acc@),
        decreases bytes@.len() - p,
    {
        let b = bytes[p];
        if b == 0xff {
            return Ok((acc, p + 1));
        }
        let (mj, info) = major_and_tag(b);
        if mj != major || info == 31 {
            return Err(Error::new(ErrorKind::Malformed));
        }
        match parse_known_len_byte_seq(info, bytes, p + 1) {
            None => {
                return Err(Error::new(ErrorKind::Malformed));
            },
            Some((chunk, q)) => {
                if major == 3 {
                    if utf8_text(chunk.as_slice()).is_none() {
                        return Err(Error::new(ErrorKind::Malformed));
                    }
                }
                let ghost before = acc@;
                let mut i: usize = 0;
                while i < chunk.len()
                    invariant
                        i <= chunk@.len(),
                        acc@ == before + chunk@.subrange(0, i as int),
                    decreases chunk@.len() - i,
                {
                    acc.push(chunk[i]);
                    i = i + 1;
                    assert(acc@ =~= before + chunk@.subrange(0, i as int));
                }
                proof {
                    assert(chunk@.subrange(0, chunk@.len() as int) =~= chunk@);
                    if major == 3 {
                        valid_utf8_concat(before, chunk@);
                    }
                }
                p = q;
            },
        }
    }
    Err(Error::new(ErrorKind::Malformed))
}

/// Decodes the item that starts at `pos` at nesting level `depth` (see
/// [`parse_item`]).
pub fn parse_value(bytes: &[u8], pos: usize, depth: usize) -> (r: Result<(Value, usize), Error>)
    ensures
        agrees(r, parse_item(bytes@, pos as int, depth as int)),
        r matches Ok((v, p)) ==> pos < p <= bytes@.len() && encodable(v.model()),
    decreases MAX_DEPTH - depth, bytes@.len() - pos, 0int,
{
    if depth >= MAX_DEPTH {
        return Err(Error::new(ErrorKind::DepthExceeded));
    }
    if pos >= bytes.len() {
        return Err(Error::new(ErrorKind::Malformed));
    }
    let (major, info) = major_and_tag(bytes[pos]);
    if major == 7 {
        return parse_simple_value(info, bytes, pos + 1);
    }
    if major == 6 {
        return Err(Error::new(ErrorKind::Unrepresentable));
    }
    if info == 31 {
        if major == 2 {
            return match parse_chunks_exec(bytes, pos + 1, 2) {
                Ok((b, p)) => Ok((Value::Bytes(b), p)),
                Err(e) => Err(e),
            };
        } else if major == 3 {
            return match parse_chunks_exec(bytes, pos + 1, 3) {
                Ok((b, p)) => match utf8_text(b.as_slice()) {
                    Some(t) => Ok((Value::Text(t), p)),
                    None => Err(Error::new(ErrorKind::Malformed)),
                },
                Err(e) => Err(e),
            };
        } else if major == 4 {
            return parse_array_until_break(bytes, pos + 1, depth + 1);
        } else if major == 5 {
            return parse_object_until_break(bytes, pos + 1, depth + 1);
        } else {
            return Err(Error::new(ErrorKind::Malformed));
        }
    }
    if major == 2 || major == 3 {
        return match parse_known_len_byte_seq(info, bytes, pos + 1) {
            None => Err(Error::new(ErrorKind::Malformed)),
            Some((b, p)) => if major == 2 {
                Ok((Value::Bytes(b), p))
            } else {
                match utf8_text(b.as_slice()) {
                    Some(t) => Ok((Value::Text(t), p)),
                    None => Err(Error::new(ErrorKind::Malformed)),
                }
            },
        };
    }
    match parse_u64(info, bytes, pos + 1) {
        None => Err(Error::new(ErrorKind::Malformed)),
        Some((n, p)) => {
            if major == 0 {
                Ok((Value::Integer(n as i128), p))
            } else if major == 1 {
                Ok((Value::Integer(-(n as i128) - 1), p))
            } else if major == 4 {
                parse_array(bytes, p, n, depth + 1)
            } else {
                parse_object(bytes, p, n, depth + 1)
            }
        },
    }
}

/// Decodes `n` array elements from `pos` at level `depth`.
fn parse_array(bytes: &[u8], pos: usize, n: u64, depth: usize) -> (r: Result<(Value, usize), Error>)
    requires
        pos <= bytes@.len(),
        1 <= depth <= MAX_DEPTH,
    ensures
        agrees(r, parse_items(bytes@, pos as int, n as nat, depth as int, seq![])),
        r matches Ok((v, p)) ==> pos <= p <= bytes@.len() && encodable(v.model()),
    decreases MAX_DEPTH - depth, bytes@.len() - pos, 1int,
{
    let mut items: Vec<Value> = Vec::new();
    let mut p: usize = pos;
    let mut left: u64 = n;
    assert(models(items@) =~= Seq::<Model>::empty());
    loop
        invariant
            pos <= p <= bytes@.len(),
            1 <= depth <= MAX_DEPTH,
            parse_items(bytes@, pos as int, n as nat, depth as int, seq![]) == parse_items(
                bytes@,
                p as int,
                left as nat,
                depth as int,
                models(items@),
            ),
            forall|i: int| 0 <= i < items@.len() ==> #[trigger] encodable(items@[i].model()),
        decreases left,
    {
        if left == 0 {
            let v = Value::Array(Array(items));
            proof {
                lemma_array_model(&v);
                lemma_encodable_items(models(items@));
            }
            return Ok((v, p));
        }
        match parse_value(bytes, p, depth) {
            Err(e) => {
                return Err(e);
            },
            Ok((v, q)) => {
                proof {
                    assert(models(items@.push(v)) =~= models(items@).push(v.model()));
                }
                items.push(v);
                p = q;
                left = left - 1;
            },
        }
    }
}

/// Decodes array elements from `pos` at level `depth` up to the break byte.
fn parse_array_until_break(bytes: &[u8], pos: usize, depth: usize) -> (r: Result<(Value, usize), Error>)
    requires
        pos <= bytes@.len(),
        1 <= depth <= MAX_DEPTH,
    ensures
        agrees(r, parse_items_until_break(bytes@, pos as int, depth as int, seq![])),
        r matches Ok((v, p)) ==> pos < p <= bytes@.len() && encodable(v.model()),
    decreases MAX_DEPTH - depth, bytes@.len() - pos, 1int,
{
    let mut items: Vec<Value> = Vec::new();
    let mut p: usize = pos;
    assert(models(items@) =~= Seq::<Model>::empty());
    while p < bytes.len()
        invariant
            pos <= p <= bytes@.len(),
            1 <= depth <= MAX_DEPTH,
            parse_items_until_break(bytes@, pos as int, depth as int, seq![])
                == parse_items_until_break(bytes@, p as int, depth as int, models(items@)),
            forall|i: int| 0 <= i < items@.len() ==> #[trigger] encodable(items@[i].model()),
        decreases bytes@.len() - p,
    {
        if bytes[p] == 0xff {
            let v = Value::Array(Array(items));
            proof {
                lemma_array_model(&v);
                lemma_encodable_items(models(items@));
            }
            return Ok((v, p + 1));
        }
        match parse_value(bytes, p, depth) {
            Err(e) => {
                return Err(e);
            },
            Ok((v, q)) => {
                proof {
                    assert(models(items@.push(v)) =~= models(items@).push(v.model()));
                }
                items.push(v);
                p = q;
            },
        }
    }
    Err(Error::new(ErrorKind::Malformed))
}

/// Decodes `n` map entries from `pos` at level `depth`.
fn parse_object(bytes: &[u8], pos: usize, n: u64, depth: usize) -> (r: Result<(Value, usize), Error>)
    requires
        pos <= bytes@.len(),
        1 <= depth <= MAX_DEPTH,
    ensures
        agrees(r, parse_entries(bytes@, pos as int, n as nat, depth as int, seq![])),
        r matches Ok((v, p)) ==> pos <= p <= bytes@.len() && encodable(v.model()),
    decreases MAX_DEPTH - depth, bytes@.len() - pos, 1int,
{
    let mut obj = Object::new();
    let mut p: usize = pos;
    let mut left: u64 = n;
    assert(entry_models(obj.entries@) =~= Seq::<(Model, Model)>::empty());
    loop
        invariant
            pos <= p <= bytes@.len(),
            1 <= depth <= MAX_DEPTH,
            parse_entries(bytes@, pos as int, n as nat, depth as int, seq![]) == parse_entries(
                bytes@,
                p as int,
                left as nat,
                depth as int,
                entry_models(obj.entries@),
            ),
            obj.well_keyed(),
            entries_encodable(entry_models(obj.entries@)),
        decreases left,
    {
        if left == 0 {
            let v = Value::Object(obj);
            proof {
                lemma_array_model(&v);
                lemma_encodable_entries(entry_models(obj.entries@));
            }
            return Ok((v, p));
        }
        match parse_value(bytes, p, depth) {
            Err(e) => {
                return Err(e);
            },
            Ok((k, q)) => match parse_value(bytes, q, depth) {
                Err(e) => {
                    return Err(e);
                },
                Ok((v, q2)) => {
                    let ghost old_models = entry_models(obj.entries@);
                    let ghost km = k.model();
                    let ghost vm = v.model();
                    obj.insert(k, v);
                    proof {
                        lemma_insert_entry_encodable(old_models, km, vm);
                    }
                    p = q2;
                    left = left - 1;
                },
            },
        }
    }
}

/// Decodes map entries from `pos` at level `depth` up to the break byte.
fn parse_object_until_break(bytes: &[u8], pos: usize, depth: usize) -> (r: Result<(Value, usize), Error>)
    requires
        pos <= bytes@.len(),
        1 <= depth <= MAX_DEPTH,
    ensures
        agrees(r, parse_entries_until_break(bytes@, pos as int, depth as int, seq![])),
        r matches Ok((v, p)) ==> pos < p <= bytes@.len() && encodable(v.model()),
    decreases MAX_DEPTH - depth, bytes@.len() - pos, 1int,
{
    let mut obj = Object::new();
    let mut p: usize = pos;
    assert(entry_models(obj.entries@) =~= Seq::<(Model, Model)>::empty());
    while p < bytes.len()
        invariant
            pos <= p <= bytes@.len(),
            1 <= depth <= MAX_DEPTH,
            parse_entries_until_break(bytes@, pos as int, depth as int, seq![])
                == parse_entries_until_break(bytes@, p as int, depth as int, entry_models(obj.entries@)),
            obj.well_keyed(),
            entries_encodable(entry_models(obj.entries@)),
        decreases bytes@.len() - p,
    {
        if bytes[p] == 0xff {
            let v = Value::Object(obj);
            proof {
                lemma_array_model(&v);
                lemma_encodable_entries(entry_models(obj.entries@));
            }
            return Ok((v, p + 1));
        }
        match parse_value(bytes, p, depth) {
            Err(e) => {
                return Err(e);
            },
            Ok((k, q)) => match parse_value(bytes, q, depth) {
                Err(e) => {
                    return Err(e);
                },
                Ok((v, q2)) => {
                    let ghost old_models = entry_models(obj.entries@);
                    let ghost km = k.model();
                    let ghost vm = v.model();
                    obj.insert(k, v);
                    proof {
                        lemma_insert_entry_encodable(old_models, km, vm);
                    }
                    p = q2;
                },
            },
        }
    }
    Err(Error::new(ErrorKind::Malformed))
}

/// Deserializes one CBOR item that fills all of `bytes`.
///
/// Fails with [`ErrorKind::DepthExceeded`] when items nest [`MAX_DEPTH`] levels
/// deep or more, with [`ErrorKind::TrailingData`] when bytes remain after the
/// item, with [`ErrorKind::Unrepresentable`] on a semantic tag, and with
/// [`ErrorKind::Malformed`] on truncated or ill-formed input (see [`decode`]).
pub fn from_slice(bytes: &[u8]) -> (r: Result<Value, Error>)
    ensures
        match decode(bytes@) {
            Ok(m) => r matches Ok(v) && v.model() == m,
            Err(k) => r matches Err(e) && e.kind == k,
        },
        r matches Ok(v) ==> encodable(v.model()),
{
    match parse_value(bytes, 0, 0) {
        Ok((v, p)) => if p == bytes.len() {
            Ok(v)
        } else {
            Err(Error::new(ErrorKind::TrailingData))
        },
        Err(e) => Err(e),
    }
}

proof fn lemma_nested_opens(s: Seq<u8>, i: int)
    requires
        0 <= i <= MAX_DEPTH,
        s.len() > MAX_DEPTH,
        forall|j: int| 0 <= j <= MAX_DEPTH ==> #[trigger] s[j] == 0x9f || s[j] == 0x81,
    ensures
        parse_item(s, i, i) == Err::<(Model, int), ErrorKind>(ErrorKind::DepthExceeded),
    decreases MAX_DEPTH - i,
{
    if i < MAX_DEPTH {
        lemma_nested_opens(s, i + 1);
        assert(s[i] == 0x9f || s[i] == 0x81);
        assert(s[i + 1] != 0xff);
        if s[i] == 0x81 {
            assert(parse_arg(s, i + 1, 1) == Some((1nat, i + 1)));
            assert(parse_items(s, i + 1, 1, i + 1, seq![]) == Err::<(Model, int), ErrorKind>(
                ErrorKind::DepthExceeded,
            ));
        }
    }
}

/// Input that opens arrays `MAX_DEPTH + 1` times in a row, of definite or
/// indefinite length, is refused for its depth, whatever follows.
pub proof fn lemma_depth_ceiling(s: Seq<u8>)
    requires
        s.len() > MAX_DEPTH,
        forall|j: int| 0 <= j <= MAX_DEPTH ==> #[trigger] s[j] == 0x9f || s[j] == 0x81,
    ensures
        decode(s) == Err::<Model, ErrorKind>(ErrorKind::DepthExceeded),
{
    lemma_nested_opens(s, 0);
}

} // verus!
