//! Arbitrary-precision counters. A lazy solution tree can stand for
//! astronomically many concrete solutions, so its size is counted in big
//! integers rather than machine words.

use vstd::prelude::*;

verus! {

#[verifier::external_type_specification]
#[verifier::external_body]
pub struct ExBigUint(num_bigint::BigUint);

/// The number a `BigUint` stands for.
pub uninterp spec fn big_nat(b: num_bigint::BigUint) -> nat;

/// Relies on `num_bigint::BigUint::from::<u64>`: the big integer with exactly
/// the given value.
#[verifier::external_body]
pub fn big_from_u64(v: u64) -> (r: num_bigint::BigUint)
    ensures
        big_nat(r) == v,
{
    num_bigint::BigUint::from(v)
}

/// Relies on `Add for &num_bigint::BigUint`: exact arbitrary-precision
/// addition.
#[verifier::external_body]
pub fn big_add(a: &num_bigint::BigUint, b: &num_bigint::BigUint) -> (r: num_bigint::BigUint)
    ensures
        big_nat(r) == big_nat(*a) + big_nat(*b),
{
    a + b
}

/// Relies on `Mul for &num_bigint::BigUint`: exact arbitrary-precision
/// multiplication.
#[verifier::external_body]
pub fn big_mul(a: &num_bigint::BigUint, b: &num_bigint::BigUint) -> (r: num_bigint::BigUint)
    ensures
        big_nat(r) == big_nat(*a) * big_nat(*b),
{
    a * b
}

/// Relies on `PartialEq for num_bigint::BigUint`: exact comparison with one.
#[verifier::external_body]
pub fn big_is_one(a: &num_bigint::BigUint) -> (r: bool)
    ensures
        r == (big_nat(*a) == 1),
{
    *a == num_bigint::BigUint::from(1u64)
}

} // verus!
