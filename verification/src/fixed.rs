//! Binary fixed-point numbers.
//!
//! A [`Fixed`] is a signed 64-bit integer that stands for the rational number
//! `raw / ONE`, with `ONE = 2^30`. Contracts speak of the raw integers:
//! `x == n * ONE` says that `x` is the whole number `n`.

use vstd::prelude::*;

verus! {

/// A coordinate, as `raw / ONE`.
pub type Fixed = i64;

/// Number of fractional bits of a [`Fixed`].
pub const FRAC_BITS: u32 = 30;

/// The raw value of the number one.
pub const ONE: i64 = 1073741824;

/// Quotient rounded toward zero, for a positive divisor.
pub open spec fn trunc_div(a: int, b: int) -> int {
    if a >= 0 {
        a / b
    } else {
        -((-a) / b)
    }
}

/// The whole number `n`.
pub fn from_int(n: i32) -> (x: Fixed)
    ensures
        x == n * ONE,
{
    let wide: i64 = n as i64;
    wide * ONE
}

/// The fraction `num / den`, rounded toward zero to the nearest multiple of
/// `1 / ONE`. There is no such number when `den` is zero.
pub fn from_ratio(num: i32, den: u32) -> (x: Option<Fixed>)
    ensures
        den == 0 <==> x is None,
        x matches Some(v) ==> v == trunc_div(num * ONE, den as int),
{
    if den == 0 {
        return None;
    }
    let scaled: i64 = (num as i64) * ONE;
    let q: i64 = scaled / (den as i64);
    Some(q)
}

} // verus!
