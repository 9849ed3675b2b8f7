//! Trusted interface to `num_bigint::BigUint`.
//!
//! The scaling kernel must form and round products of integers far wider
//! than a machine word. Those operations are delegated to `num_bigint`;
//! each call is wrapped in a function whose contract states the exact
//! arithmetic meaning of the call over `big_val`, the natural number a
//! `BigUint` stands for.

use vstd::prelude::*;

verus! {

#[verifier::external_type_specification]
#[verifier::external_body]
pub struct ExBigUint(num_bigint::BigUint);

/// The natural number that a `num_bigint::BigUint` represents.
pub uninterp spec fn big_val(x: num_bigint::BigUint) -> nat;

/// Relies on `BigUint: From<u64>`: the converted value is the argument.
#[verifier::external_body]
pub fn big_from_u64(v: u64) -> (r: num_bigint::BigUint)
    ensures
        big_val(r) == v as nat,
{
    num_bigint::BigUint::from(v)
}

/// Relies on `Add for &BigUint`: exact addition of arbitrary-size naturals.
#[verifier::external_body]
pub fn big_add(a: &num_bigint::BigUint, b: &num_bigint::BigUint) -> (r: num_bigint::BigUint)
    ensures
        big_val(r) == big_val(*a) + big_val(*b),
{
    a + b
}

/// Relies on `Sub for &BigUint`: exact subtraction; it panics on underflow,
/// which the precondition rules out.
#[verifier::external_body]
pub fn big_sub(a: &num_bigint::BigUint, b: &num_bigint::BigUint) -> (r: num_bigint::BigUint)
    requires
        big_val(*b) <= big_val(*a),
    ensures
        big_val(r) == big_val(*a) - big_val(*b),
{
    a - b
}

/// Relies on `Mul for &BigUint`: exact multiplication.
#[verifier::external_body]
pub fn big_mul(a: &num_bigint::BigUint, b: &num_bigint::BigUint) -> (r: num_bigint::BigUint)
    ensures
        big_val(r) == big_val(*a) * big_val(*b),
{
    a * b
}

/// Relies on `Div for &BigUint`: quotient rounded toward zero, which on
/// naturals is the floor; it panics on a zero divisor, which the
/// precondition rules out.
#[verifier::external_body]
pub fn big_div(a: &num_bigint::BigUint, b: &num_bigint::BigUint) -> (r: num_bigint::BigUint)
    requires
        big_val(*b) >= 1,
    ensures
        big_val(r) == big_val(*a) / big_val(*b),
{
    a / b
}

/// Relies on `Rem for &BigUint`: the Euclidean remainder; it panics on a
/// zero divisor, which the precondition rules out.
#[verifier::external_body]
pub fn big_rem(a: &num_bigint::BigUint, b: &num_bigint::BigUint) -> (r: num_bigint::BigUint)
    requires
        big_val(*b) >= 1,
    ensures
        big_val(r) == big_val(*a) % big_val(*b),
{
    a % b
}

/// Relies on `Rem<u64> for &BigUint`: the remainder is below the divisor
/// and therefore fits a word.
#[verifier::external_body]
pub fn big_rem_u64(a: &num_bigint::BigUint, m: u64) -> (r: u64)
    requires
        m >= 1,
    ensures
        r as nat == big_val(*a) % (m as nat),
{
    u64::try_from(&(a % m)).unwrap()
}

/// Relies on `PartialOrd for BigUint`: comparison agrees with the order of
/// the represented naturals.
#[verifier::external_body]
pub fn big_le(a: &num_bigint::BigUint, b: &num_bigint::BigUint) -> (r: bool)
    ensures
        r == (big_val(*a) <= big_val(*b)),
{
    a <= b
}

/// Relies on `PartialEq for BigUint`: equality agrees with equality of the
/// represented naturals.
#[verifier::external_body]
pub fn big_eq(a: &num_bigint::BigUint, b: &num_bigint::BigUint) -> (r: bool)
    ensures
        r == (big_val(*a) == big_val(*b)),
{
    a == b
}

/// Relies on `Clone for BigUint`: the copy represents the same natural.
#[verifier::external_body]
pub fn big_clone(a: &num_bigint::BigUint) -> (r: num_bigint::BigUint)
    ensures
        big_val(r) == big_val(*a),
{
    a.clone()
}

} // verus!
