use vstd::prelude::*;

verus! {

/// The least integer that CBOR can hold: `-(2^64)`.
pub open spec fn cbor_int_min() -> int {
    -0x1_0000_0000_0000_0000
}

/// The greatest integer that CBOR can hold: `2^64 - 1`.
pub open spec fn cbor_int_max() -> int {
    0xffff_ffff_ffff_ffff
}

/// A CBOR integer, from `-(2^64)` up to `2^64 - 1` inclusive.
///
/// `negative` is `true` iff the number is below zero and `abs` is its absolute
/// value. The pair `abs == 0`, `negative == true` would otherwise be a negative
/// zero; it stands for `-(2^64)`, whose absolute value does not fit in a `u64`.
#[allow(non_camel_case_types)]
#[derive(Clone, Copy, Debug, PartialEq, Eq, Structural)]
pub struct i65 {
    pub negative: bool,
    pub abs: u64,
}

impl i65 {
    /// The number this value stands for.
    pub open spec fn value(&self) -> int {
        if !self.negative {
            self.abs as int
        } else if self.abs == 0 {
            cbor_int_min()
        } else {
            -(self.abs as int)
        }
    }

    pub fn zero() -> (r: i65)
        ensures
            r.value() == 0,
    {
        i65 { negative: false, abs: 0 }
    }

    pub fn min() -> (r: i65)
        ensures
            r.value() == cbor_int_min(),
    {
        i65 { negative: true, abs: 0 }
    }

    pub fn max() -> (r: i65)
        ensures
            r.value() == cbor_int_max(),
    {
        i65 { negative: false, abs: 0xffff_ffff_ffff_ffff }
    }

    /// The same number as an `i128`; every `i65` fits.
    pub fn to_i128(self) -> (r: i128)
        ensures
            r as int == self.value(),
    {
        if !self.negative {
            self.abs as i128
        } else if self.abs == 0 {
            -0x1_0000_0000_0000_0000i128
        } else {
            -(self.abs as i128)
        }
    }

    /// The `i65` for `x`, or `None` when `x` lies outside the CBOR range.
    pub fn try_from_i128(x: i128) -> (r: Option<i65>)
        ensures
            r is Some <==> cbor_int_min() <= x <= cbor_int_max(),
            r matches Some(v) ==> v.value() == x,
    {
        if x == -0x1_0000_0000_0000_0000i128 {
            Some(i65 { negative: true, abs: 0 })
        } else if -0x1_0000_0000_0000_0000i128 < x && x < 0 {
            Some(i65 { negative: true, abs: (-x) as u64 })
        } else if 0 <= x && x <= 0xffff_ffff_ffff_ffffi128 {
            Some(i65 { negative: false, abs: x as u64 })
        } else {
            None
        }
    }

    pub fn from_u64(x: u64) -> (r: i65)
        ensures
            r.value() == x,
    {
        i65 { negative: false, abs: x }
    }

    pub fn from_i64(x: i64) -> (r: i65)
        ensures
            r.value() == x,
    {
        if x == i64::MIN {
            i65 { negative: true, abs: 0x8000_0000_0000_0000 }
        } else if x < 0 {
            i65 { negative: true, abs: (-x) as u64 }
        } else {
            i65 { negative: false, abs: x as u64 }
        }
    }
}

} // verus!
