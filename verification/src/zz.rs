//! Arbitrary-precision integers, taken from the `num` crate.
//!
//! `num::BigInt` is opaque to the verifier, so this module gives it a
//! mathematical view `zz` (the integer a value holds) and small trusted
//! wrappers around the handful of `num` operations the library relies on.
//! Everything built on top of these wrappers is verified against the view.

use vstd::prelude::*;

verus! {

#[verifier::external_type_specification]
#[verifier::external_body]
pub struct ExBigInt(num::BigInt);

/// The mathematical integer that a `num::BigInt` value holds.
pub uninterp spec fn zz(b: num::BigInt) -> int;

/// An arbitrary-precision signed integer.
pub type Integer = num::BigInt;

/// The ring of integers.
pub type Int = num::BigInt;

/// The ring of integers, under its usual symbol.
pub type ZZ = num::BigInt;

/// Relies on `<num::BigInt as From<i64>>::from`: the big integer with the
/// given value.
#[verifier::external_body]
pub fn zz_from_i64(v: i64) -> (r: num::BigInt)
    ensures
        zz(r) == v as int,
{
    num::BigInt::from(v)
}

/// Relies on `<num::BigInt as From<u64>>::from`: the big integer with the
/// given value.
#[verifier::external_body]
pub fn zz_from_u64(v: u64) -> (r: num::BigInt)
    ensures
        zz(r) == v as int,
{
    num::BigInt::from(v)
}

/// Relies on `<num::BigInt as Clone>::clone`: a copy holds the same integer.
#[verifier::external_body]
pub fn zz_clone(a: &num::BigInt) -> (r: num::BigInt)
    ensures
        zz(r) == zz(*a),
{
    a.clone()
}

/// Relies on `<&num::BigInt as Add>::add` in `num`: exact integer addition.
#[verifier::external_body]
pub fn zz_add(a: &num::BigInt, b: &num::BigInt) -> (r: num::BigInt)
    ensures
        zz(r) == zz(*a) + zz(*b),
{
    a + b
}

/// Relies on `<&num::BigInt as Sub>::sub` in `num`: exact integer
/// subtraction.
#[verifier::external_body]
pub fn zz_sub(a: &num::BigInt, b: &num::BigInt) -> (r: num::BigInt)
    ensures
        zz(r) == zz(*a) - zz(*b),
{
    a - b
}

/// Relies on `<&num::BigInt as Mul>::mul` in `num`: exact integer
/// multiplication.
#[verifier::external_body]
pub fn zz_mul(a: &num::BigInt, b: &num::BigInt) -> (r: num::BigInt)
    ensures
        zz(r) == zz(*a) * zz(*b),
{
    a * b
}

/// Relies on `<&num::BigInt as Rem>::rem` in `num`, which truncates toward
/// zero; on a non-negative dividend and a positive divisor that is the
/// Euclidean remainder.
#[verifier::external_body]
pub fn zz_rem(a: &num::BigInt, b: &num::BigInt) -> (r: num::BigInt)
    requires
        zz(*a) >= 0,
        zz(*b) > 0,
    ensures
        zz(r) == zz(*a) % zz(*b),
{
    a % b
}

/// Relies on `<&num::BigInt as Div>::div` in `num`, which truncates toward
/// zero; on a non-negative dividend and a positive divisor that is the
/// Euclidean quotient.
#[verifier::external_body]
pub fn zz_div(a: &num::BigInt, b: &num::BigInt) -> (r: num::BigInt)
    requires
        zz(*a) >= 0,
        zz(*b) > 0,
    ensures
        zz(r) == zz(*a) / zz(*b),
{
    a / b
}

/// Relies on `<&num::BigInt as Neg>::neg` in `num`: exact negation.
#[verifier::external_body]
pub fn zz_neg(a: &num::BigInt) -> (r: num::BigInt)
    ensures
        zz(r) == -zz(*a),
{
    -a
}

/// Relies on `<num::BigInt as PartialEq>::eq`: equality of the integers
/// held.
#[verifier::external_body]
pub fn zz_eq(a: &num::BigInt, b: &num::BigInt) -> (r: bool)
    ensures
        r == (zz(*a) == zz(*b)),
{
    a == b
}

/// Relies on `<num::BigInt as Ord>::lt`: order of the integers held.
#[verifier::external_body]
pub fn zz_lt(a: &num::BigInt, b: &num::BigInt) -> (r: bool)
    ensures
        r == (zz(*a) < zz(*b)),
{
    a < b
}

/// Relies on `num_traits::ToPrimitive::to_u64` for `num::BigInt`: the value
/// when it fits in a `u64`, and `None` exactly when it does not.
#[verifier::external_body]
pub fn zz_to_u64(a: &num::BigInt) -> (r: Option<u64>)
    ensures
        r is Some <==> 0 <= zz(*a) <= u64::MAX,
        r is Some ==> r->Some_0 as int == zz(*a),
{
    num::ToPrimitive::to_u64(a)
}

} // verus!
