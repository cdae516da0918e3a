//! Width selection for floats, on the bits of IEEE-754 numbers.
use vstd::prelude::*;
use vstd::arithmetic::power2::{
    pow2, lemma2_to64, lemma2_to64_rest, lemma_pow2_unfold, lemma_pow2_strictly_increases,
    lemma_pow2_pos,
};
use vstd::arithmetic::div_mod::lemma_div_is_ordered_by_denominator;

use super::model::{narrow_to_half, narrow_to_single, f64_sign, f64_exp, f64_frac};

verus! {

/// `2^k` for `k < 64`.
pub(crate) fn pow2_u64(k: u64) -> (r: u64)
    requires
        k < 64,
    ensures
        r as nat == pow2(k as nat),
{
    proof {
        lemma2_to64();
    }
    let mut p: u64 = 1;
    let mut i: u64 = 0;
    while i < k
        invariant
            i <= k < 64,
            p as nat == pow2(i as nat),
            pow2(64) == 0x1_0000_0000_0000_0000,
        decreases k - i,
    {
        proof {
            lemma_pow2_unfold((i + 1) as nat);
            lemma_pow2_strictly_increases((i + 1) as nat, 64);
        }
        p = p * 2;
        i = i + 1;
    }
    p
}

/// The half-precision bits equal to the double `bits`, if any (see
/// [`narrow_to_half`]).
pub fn half_bits(bits: u64) -> (r: Option<u16>)
    ensures
        r == narrow_to_half(bits),
{
    proof {
        lemma2_to64();
        lemma2_to64_rest();
    }
    let s: u64 = bits / 0x8000_0000_0000_0000;
    let e: u64 = (bits / 0x10_0000_0000_0000) % 2048;
    let m: u64 = bits % 0x10_0000_0000_0000;
    assert(s == f64_sign(bits) && e == f64_exp(bits) && m == f64_frac(bits));
    if e == 2047 {
        if m == 0 {
            Some((0x7c00 + s * 0x8000) as u16)
        } else {
            Some(0x7e00u16)
        }
    } else if e == 0 {
        if m == 0 {
            Some((s * 0x8000) as u16)
        } else {
            None
        }
    } else if 1009 <= e && e <= 1038 {
        if m % 0x400_0000_0000 == 0 {
            Some((s * 0x8000 + (e - 1008) * 0x400 + m / 0x400_0000_0000) as u16)
        } else {
            None
        }
    } else if 999 <= e && e <= 1008 {
        let full: u64 = m + 0x10_0000_0000_0000;
        let shift: u64 = 1051 - e;
        let p = pow2_u64(shift);
        proof {
            lemma_pow2_pos(shift as nat);
            if shift > 43 {
                lemma_pow2_strictly_increases(43, shift as nat);
            }
            lemma_div_is_ordered_by_denominator(full as int, pow2(43) as int, p as int);
        }
        if full % p == 0 {
            Some((s * 0x8000 + full / p) as u16)
        } else {
            None
        }
    } else {
        None
    }
}

/// The single-precision bits equal to the finite double `bits`, if any (see
/// [`narrow_to_single`]).
pub fn single_bits(bits: u64) -> (r: Option<u32>)
    ensures
        r == narrow_to_single(bits),
{
    proof {
        lemma2_to64();
        lemma2_to64_rest();
    }
    let s: u64 = bits / 0x8000_0000_0000_0000;
    let e: u64 = (bits / 0x10_0000_0000_0000) % 2048;
    let m: u64 = bits % 0x10_0000_0000_0000;
    assert(s == f64_sign(bits) && e == f64_exp(bits) && m == f64_frac(bits));
    if e == 0 || e == 2047 {
        None
    } else if 897 <= e && e <= 1150 {
        if m % 0x2000_0000 == 0 {
            Some((s * 0x8000_0000 + (e - 896) * 0x80_0000 + m / 0x2000_0000) as u32)
        } else {
            None
        }
    } else if 874 <= e && e <= 896 {
        let full: u64 = m + 0x10_0000_0000_0000;
        let shift: u64 = 926 - e;
        let p = pow2_u64(shift);
        proof {
            lemma_pow2_pos(shift as nat);
            if shift > 30 {
                lemma_pow2_strictly_increases(30, shift as nat);
            }
            lemma_div_is_ordered_by_denominator(full as int, pow2(30) as int, p as int);
        }
        if full % p == 0 {
            Some((s * 0x8000_0000 + full / p) as u32)
        } else {
            None
        }
    } else {
        None
    }
}

} // verus!
