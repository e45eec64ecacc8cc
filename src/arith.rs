//! Fixed-point and rational arithmetic, as computed by `sp-arithmetic` and
//! `num-rational`, with the exact results stated over integers.

use num_rational::Ratio;
use sp_arithmetic::traits::CheckedMul;
use sp_arithmetic::{FixedI64, FixedPointNumber, Perbill, PerThing};
use vstd::prelude::*;

verus! {

/// Parts in a whole: the accuracy of a `Perbill` and the scale of a `FixedI64`.
pub const BILLION: u64 = 1_000_000_000;

/// `n * parts / BILLION`, rounded to the nearest integer, ties rounded down.
pub open spec fn perbill_of(parts: u32, n: u64) -> int {
    let product = n as int * parts as int;
    product / BILLION as int + if product % (BILLION as int) > BILLION as int / 2 {
        1int
    } else {
        0int
    }
}

/// Relies on `Perbill * u64` of sp-arithmetic, which multiplies with the rounding
/// `NearestPrefDown` (`overflow_prune_mul` and `rational_mul_correction`).
#[verifier::external_body]
pub(crate) fn perbill_mul(parts: u32, n: u64) -> (r: u64)
    requires
        parts <= BILLION,
    ensures
        r == perbill_of(parts, n),
{
    Perbill::from_parts(parts) * n
}

/// `n / d` in billionths, rounded toward zero, capped at `i64::MAX`.
pub open spec fn billionths_of_ratio(n: u64, d: u64) -> int
    recommends
        d > 0,
{
    let v = n as int * BILLION as int / d as int;
    if v <= i64::MAX as int {
        v
    } else {
        i64::MAX as int
    }
}

/// Relies on `FixedI64::saturating_from_rational` of sp-arithmetic: for a non-negative
/// ratio it rounds toward zero (`SignedRounding::Minor`) and saturates at the maximum.
/// It panics on a zero divisor.
#[verifier::external_body]
pub(crate) fn fixed_from_rational(n: u64, d: u64) -> (r: i64)
    requires
        d > 0,
    ensures
        r as int == billionths_of_ratio(n, d),
{
    FixedI64::saturating_from_rational(n, d).into_inner()
}

/// `n + f * n` for the fixed-point number of `billionths`, the product rounded toward
/// zero, capped at `u64::MAX`.
pub open spec fn mul_acc_of(billionths: i64, n: u64) -> int
    recommends
        billionths >= 0,
{
    let v = billionths as int * n as int / BILLION as int + n as int;
    if v <= u64::MAX as int {
        v
    } else {
        u64::MAX as int
    }
}

/// Relies on `FixedI64::saturating_mul_acc_int` of sp-arithmetic: for a non-negative
/// number it is `saturating_mul_int(n).saturating_add(n)`, and `saturating_mul_int`
/// rounds toward zero and saturates at `u64::MAX`.
#[verifier::external_body]
pub(crate) fn fixed_mul_acc_int(billionths: i64, n: u64) -> (r: u64)
    requires
        billionths >= 0,
    ensures
        r as int == mul_acc_of(billionths, n),
{
    FixedI64::from_inner(billionths).saturating_mul_acc_int(n)
}

/// Greatest common divisor, with `gcd(a, 0) == a`.
pub open spec fn gcd(a: nat, b: nat) -> nat
    decreases b,
{
    if b == 0 {
        a
    } else {
        gcd(b, a % b)
    }
}

/// Whether num-rational's `checked_mul` of `numer / denom` (in lowest terms) by the
/// integer `x` keeps its numerator within `u64`: it divides `x` by its common factor
/// with the denominator before multiplying.
pub open spec fn ratio_product_fits(numer: u64, denom: u64, x: u64) -> bool
    recommends
        denom > 0,
{
    let g = gcd(numer as nat, denom as nat);
    let a = numer as nat / g;
    let b = denom as nat / g;
    a * (x as nat / gcd(b, x as nat)) <= u64::MAX as nat
}

/// Relies on num-rational: `Ratio::new` reduces the fraction to lowest terms (it
/// panics on a zero denominator), `checked_mul` by `Ratio::from_integer(x)` returns
/// `None` exactly when the reduced numerator product overflows, and `to_integer`
/// rounds toward zero.
#[verifier::external_body]
pub(crate) fn ratio_mul_floor(numer: u64, denom: u64, x: u64) -> (r: Option<u64>)
    requires
        denom > 0,
    ensures
        r == if ratio_product_fits(numer, denom, x) {
            Some((numer as int * x as int / denom as int) as u64)
        } else {
            None::<u64>
        },
{
    Ratio::new(numer, denom).checked_mul(&Ratio::from_integer(x)).map(|q| q.to_integer())
}

} // verus!
