//! Trusted surface over `num_bigint::BigInt`.
//!
//! The scalar type of this library is an exact rational whose numerator and
//! denominator are arbitrary-precision integers. The integer arithmetic
//! itself comes from the `num-bigint` crate; each operation the library
//! needs is wrapped here with a contract over the integer a `BigInt` holds.

use vstd::prelude::*;
use num_bigint::BigInt;

verus! {

#[verifier::external_type_specification]
#[verifier::external_body]
pub struct ExBigInt(BigInt);

/// The integer that a `BigInt` holds.
pub uninterp spec fn big_value(b: BigInt) -> int;

/// Relies on `BigInt: From<i64>`: exact conversion of a machine integer.
#[verifier::external_body]
pub(crate) fn big_from_i64(n: i64) -> (r: BigInt)
    ensures
        big_value(r) == n as int,
{
    BigInt::from(n)
}

/// Relies on `Add for &BigInt`: exact arbitrary-precision addition.
#[verifier::external_body]
pub(crate) fn big_add(a: &BigInt, b: &BigInt) -> (r: BigInt)
    ensures
        big_value(r) == big_value(*a) + big_value(*b),
{
    a + b
}

/// Relies on `Sub for &BigInt`: exact arbitrary-precision subtraction.
#[verifier::external_body]
pub(crate) fn big_sub(a: &BigInt, b: &BigInt) -> (r: BigInt)
    ensures
        big_value(r) == big_value(*a) - big_value(*b),
{
    a - b
}

/// Relies on `Mul for &BigInt`: exact arbitrary-precision multiplication.
#[verifier::external_body]
pub(crate) fn big_mul(a: &BigInt, b: &BigInt) -> (r: BigInt)
    ensures
        big_value(r) == big_value(*a) * big_value(*b),
{
    a * b
}

/// Relies on `Neg for &BigInt`: exact negation.
#[verifier::external_body]
pub(crate) fn big_neg(a: &BigInt) -> (r: BigInt)
    ensures
        big_value(r) == -big_value(*a),
{
    -a
}

/// Relies on `Clone for BigInt`: the copy holds the same integer.
#[verifier::external_body]
pub(crate) fn big_clone(a: &BigInt) -> (r: BigInt)
    ensures
        big_value(r) == big_value(*a),
{
    a.clone()
}

/// Relies on `Ord for BigInt`: comparison orders by integer value.
#[verifier::external_body]
pub(crate) fn big_lt(a: &BigInt, b: &BigInt) -> (r: bool)
    ensures
        r == (big_value(*a) < big_value(*b)),
{
    a < b
}

/// Relies on `PartialEq for BigInt`: equality of the held integers.
#[verifier::external_body]
pub(crate) fn big_eq(a: &BigInt, b: &BigInt) -> (r: bool)
    ensures
        r == (big_value(*a) == big_value(*b)),
{
    a == b
}

} // verus!
