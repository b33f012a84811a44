//! The floating approximation kind: `astro_float::BigFloat` numbers, carried
//! as they are. Nothing is claimed of their digits.
use crate::num::{big_of, Int};
use astro_float::{BigFloat, Consts, Radix, RoundingMode};
use vstd::prelude::*;

verus! {

/// Bits of mantissa that every approximation is rounded to.
pub const FLOAT_PRECISION: usize = 128;

#[verifier::external_type_specification]
#[verifier::external_body]
pub struct ExBigFloat(BigFloat);

/// Relies on `BigFloat::parse` of the decimal digits that num-bigint's
/// `to_str_radix` writes: the integer rounded to `p` bits.
#[verifier::external_body]
pub(crate) fn float_of_int(a: &Int, p: usize) -> BigFloat {
    let mut cc = Consts::new().expect("constants cache");
    BigFloat::parse(&big_of(a).to_str_radix(10), Radix::Dec, p, RoundingMode::ToEven, &mut cc)
}

/// Relies on `BigFloat::clone`, which copies the number (nothing more is
/// claimed: it gives NaN where the copy cannot be allocated).
pub assume_specification[ <BigFloat as Clone>::clone ](a: &BigFloat) -> BigFloat;

/// Relies on `BigFloat::add`, rounded to `p` bits.
#[verifier::external_body]
pub(crate) fn float_add(a: &BigFloat, b: &BigFloat, p: usize) -> BigFloat {
    a.add(b, p, RoundingMode::ToEven)
}

/// Relies on `BigFloat::mul`, rounded to `p` bits.
#[verifier::external_body]
pub(crate) fn float_mul(a: &BigFloat, b: &BigFloat, p: usize) -> BigFloat {
    a.mul(b, p, RoundingMode::ToEven)
}

/// Relies on `BigFloat::div`, rounded to `p` bits.
#[verifier::external_body]
pub(crate) fn float_div(a: &BigFloat, b: &BigFloat, p: usize) -> BigFloat {
    a.div(b, p, RoundingMode::ToEven)
}

/// Relies on `BigFloat::neg`.
#[verifier::external_body]
pub(crate) fn float_neg(a: &BigFloat) -> BigFloat {
    a.neg()
}

/// Relies on `BigFloat::is_zero`.
#[verifier::external_body]
pub(crate) fn float_is_zero(a: &BigFloat) -> bool {
    a.is_zero()
}

/// Relies on `BigFloat::is_negative`.
#[verifier::external_body]
pub(crate) fn float_is_negative(a: &BigFloat) -> bool {
    a.is_negative()
}

/// Relies on `Consts::pi`: pi rounded to `p` bits.
#[verifier::external_body]
pub(crate) fn float_pi(p: usize) -> BigFloat {
    let mut cc = Consts::new().expect("constants cache");
    cc.pi(p, RoundingMode::ToEven)
}

/// Relies on `BigFloat::sin`, rounded to `p` bits.
#[verifier::external_body]
pub(crate) fn float_sin(a: &BigFloat, p: usize) -> BigFloat {
    let mut cc = Consts::new().expect("constants cache");
    a.sin(p, RoundingMode::ToEven, &mut cc)
}

/// Relies on `BigFloat::asin`, rounded to `p` bits.
#[verifier::external_body]
pub(crate) fn float_asin(a: &BigFloat, p: usize) -> BigFloat {
    let mut cc = Consts::new().expect("constants cache");
    a.asin(p, RoundingMode::ToEven, &mut cc)
}

/// Relies on `BigFloat::sinh`, rounded to `p` bits.
#[verifier::external_body]
pub(crate) fn float_sinh(a: &BigFloat, p: usize) -> BigFloat {
    let mut cc = Consts::new().expect("constants cache");
    a.sinh(p, RoundingMode::ToEven, &mut cc)
}

/// Relies on `BigFloat::asinh`, rounded to `p` bits.
#[verifier::external_body]
pub(crate) fn float_asinh(a: &BigFloat, p: usize) -> BigFloat {
    let mut cc = Consts::new().expect("constants cache");
    a.asinh(p, RoundingMode::ToEven, &mut cc)
}

/// Relies on `BigFloat::cos`, rounded to `p` bits.
#[verifier::external_body]
pub(crate) fn float_cos(a: &BigFloat, p: usize) -> BigFloat {
    let mut cc = Consts::new().expect("constants cache");
    a.cos(p, RoundingMode::ToEven, &mut cc)
}

/// Relies on `BigFloat::cosh`, rounded to `p` bits.
#[verifier::external_body]
pub(crate) fn float_cosh(a: &BigFloat, p: usize) -> BigFloat {
    let mut cc = Consts::new().expect("constants cache");
    a.cosh(p, RoundingMode::ToEven, &mut cc)
}

/// Relies on `BigFloat::sqrt`, rounded to `p` bits.
#[verifier::external_body]
pub(crate) fn float_sqrt(a: &BigFloat, p: usize) -> BigFloat {
    a.sqrt(p, RoundingMode::ToEven)
}

/// Relies on `BigFloat::ln`, rounded to `p` bits.
#[verifier::external_body]
pub(crate) fn float_ln(a: &BigFloat, p: usize) -> BigFloat {
    let mut cc = Consts::new().expect("constants cache");
    a.ln(p, RoundingMode::ToEven, &mut cc)
}

/// Relies on `BigFloat::atan`, rounded to `p` bits.
#[verifier::external_body]
pub(crate) fn float_atan(a: &BigFloat, p: usize) -> BigFloat {
    let mut cc = Consts::new().expect("constants cache");
    a.atan(p, RoundingMode::ToEven, &mut cc)
}

} // verus!
