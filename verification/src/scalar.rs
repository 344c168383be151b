//! The scalar arithmetic of the engine.
//!
//! A scalar is carried as the bit pattern of an IEEE-754 binary64 number,
//! held in a `u64`. The graph logic never looks inside a bit pattern: each
//! arithmetic operation is an outside call, and what it returns is named by
//! an uninterpreted spec function of the argument bits alone. Contracts
//! throughout the crate are exact compositions of these names.

use vstd::prelude::*;
use rustc_apfloat::Float;

verus! {

/// Bit pattern of the double 0.0, the initial gradient of every node.
pub const ZERO_BITS: u64 = 0;

/// Bit pattern of the double 1.0, the gradient seeded into a backward root.
pub const ONE_BITS: u64 = 0x3FF0_0000_0000_0000;

pub uninterp spec fn add_bits(a: u64, b: u64) -> u64;

pub uninterp spec fn sub_bits(a: u64, b: u64) -> u64;

pub uninterp spec fn mul_bits(a: u64, b: u64) -> u64;

pub uninterp spec fn div_bits(a: u64, b: u64) -> u64;

pub uninterp spec fn neg_bits(a: u64) -> u64;

pub uninterp spec fn tanh_bits(a: u64) -> u64;

pub uninterp spec fn pow_bits(a: u64, n: u64) -> u64;

/// Relies on `rustc_apfloat::ieee::Double`'s `Add` impl: the IEEE-754
/// binary64 sum (round to nearest, ties to even) of the two encoded doubles,
/// a function of the two bit patterns alone.
#[verifier::external_body]
pub(crate) fn f_add(a: u64, b: u64) -> (r: u64)
    ensures
        r == add_bits(a, b),
{
    (rustc_apfloat::ieee::Double::from_bits(a as u128)
        + rustc_apfloat::ieee::Double::from_bits(b as u128))
        .value
        .to_bits() as u64
}

/// Relies on `rustc_apfloat::ieee::Double`'s `Sub` impl: the IEEE-754
/// binary64 difference of the two encoded doubles, a function of the two
/// bit patterns alone.
#[verifier::external_body]
pub(crate) fn f_sub(a: u64, b: u64) -> (r: u64)
    ensures
        r == sub_bits(a, b),
{
    (rustc_apfloat::ieee::Double::from_bits(a as u128)
        - rustc_apfloat::ieee::Double::from_bits(b as u128))
        .value
        .to_bits() as u64
}

/// Relies on `rustc_apfloat::ieee::Double`'s `Mul` impl: the IEEE-754
/// binary64 product of the two encoded doubles, a function of the two
/// bit patterns alone.
#[verifier::external_body]
pub(crate) fn f_mul(a: u64, b: u64) -> (r: u64)
    ensures
        r == mul_bits(a, b),
{
    (rustc_apfloat::ieee::Double::from_bits(a as u128)
        * rustc_apfloat::ieee::Double::from_bits(b as u128))
        .value
        .to_bits() as u64
}

/// Relies on `rustc_apfloat::ieee::Double`'s `Div` impl: the IEEE-754
/// binary64 quotient of the two encoded doubles, a function of the two bit
/// patterns alone; division by a zero yields an infinity or NaN encoding,
/// never a failure.
#[verifier::external_body]
pub(crate) fn f_div(a: u64, b: u64) -> (r: u64)
    ensures
        r == div_bits(a, b),
{
    (rustc_apfloat::ieee::Double::from_bits(a as u128)
        / rustc_apfloat::ieee::Double::from_bits(b as u128))
        .value
        .to_bits() as u64
}

/// Relies on `rustc_apfloat::ieee::Double`'s `Neg` impl: the encoded double
/// with its sign flipped, a function of the bit pattern alone.
#[verifier::external_body]
pub(crate) fn f_neg(a: u64) -> (r: u64)
    ensures
        r == neg_bits(a),
{
    (-rustc_apfloat::ieee::Double::from_bits(a as u128)).to_bits() as u64
}

/// Relies on `libm::tanh`: the hyperbolic tangent of the encoded double,
/// computed by a fixed software algorithm, a function of the bit pattern
/// alone.
#[verifier::external_body]
pub(crate) fn f_tanh(a: u64) -> (r: u64)
    ensures
        r == tanh_bits(a),
{
    bytemuck::cast(libm::tanh(bytemuck::cast(a)))
}

/// Relies on `libm::pow`: the encoded double raised to the encoded exponent,
/// computed by a fixed software algorithm, a function of the two bit
/// patterns alone.
#[verifier::external_body]
pub(crate) fn f_pow(a: u64, n: u64) -> (r: u64)
    ensures
        r == pow_bits(a, n),
{
    bytemuck::cast(libm::pow(bytemuck::cast(a), bytemuck::cast(n)))
}

} // verus!
