//! Arbitrary-precision naturals. The arithmetic on them is done by
//! `num_bigint::BigUint`; this module states what the library relies on.
//! Nothing here is proved: each function below is a single call into
//! `num-bigint` or `num-traits`, with the contract that the crate's
//! documentation and source give it.

use crate::le_bytes::{is_minimal, le_value};
use crate::radix::npow;
use num_bigint::BigUint;
use num_traits::{One, Zero};
use vstd::prelude::*;

verus! {

/// Makes `num_bigint::BigUint` known as a type. Nothing is seen of what a
/// value holds but through the functions below.
#[verifier::external_type_specification]
#[verifier::external_body]
pub struct ExBigUint(BigUint);

/// The bytes that a `BigUint` holds, least significant first, as
/// `BigUint::to_bytes_le` hands them out.
pub uninterp spec fn big_bytes(n: BigUint) -> Seq<u8>;

/// The natural number that a `BigUint` stands for.
pub open spec fn big_value(n: BigUint) -> nat {
    le_value(big_bytes(n))
}

/// `BigUint::to_bytes_le`: the bytes of the number, least significant first.
/// The result is never empty and has no zero byte at its upper end; zero is
/// the single byte `0`.
#[verifier::external_body]
pub(crate) fn big_to_bytes_le(n: &BigUint) -> (r: Vec<u8>)
    ensures
        r@ == big_bytes(*n),
        is_minimal(r@),
{
    n.to_bytes_le()
}

/// `BigUint::from_bytes_le`: the number that the bytes denote, least
/// significant first. The empty slice gives zero.
#[verifier::external_body]
pub(crate) fn big_from_bytes_le(bytes: &[u8]) -> (r: BigUint)
    ensures
        big_value(r) == le_value(bytes@),
{
    BigUint::from_bytes_le(bytes)
}

/// `num_traits::Zero::zero` for `BigUint`: the number 0.
#[verifier::external_body]
pub(crate) fn big_zero() -> (r: BigUint)
    ensures
        big_value(r) == 0,
{
    BigUint::zero()
}

/// `num_traits::One::one` for `BigUint`: the number 1.
#[verifier::external_body]
pub(crate) fn big_one() -> (r: BigUint)
    ensures
        big_value(r) == 1,
{
    BigUint::one()
}

/// `BigUint::from(u64)`: the number `v`.
#[verifier::external_body]
pub(crate) fn big_from_u64(v: u64) -> (r: BigUint)
    ensures
        big_value(r) == v,
{
    BigUint::from(v)
}

/// `Clone::clone` for `BigUint`: a copy that holds the same bytes.
#[verifier::external_body]
pub(crate) fn big_clone(n: &BigUint) -> (r: BigUint)
    ensures
        big_bytes(r) == big_bytes(*n),
{
    n.clone()
}

/// `&BigUint == &BigUint`: whether the two numbers are equal.
#[verifier::external_body]
pub(crate) fn big_eq(a: &BigUint, b: &BigUint) -> (r: bool)
    ensures
        r == (big_value(*a) == big_value(*b)),
{
    a == b
}

/// `&BigUint < &BigUint`: whether the first number is the smaller one.
#[verifier::external_body]
pub(crate) fn big_lt(a: &BigUint, b: &BigUint) -> (r: bool)
    ensures
        r == (big_value(*a) < big_value(*b)),
{
    a < b
}

/// `&BigUint + &BigUint`: the sum.
#[verifier::external_body]
pub(crate) fn big_add(a: &BigUint, b: &BigUint) -> (r: BigUint)
    ensures
        big_value(r) == big_value(*a) + big_value(*b),
{
    a + b
}

/// `&BigUint - &BigUint`: the difference. `num-bigint` panics where the
/// second number is the larger one, so that case is excluded.
#[verifier::external_body]
pub(crate) fn big_sub(a: &BigUint, b: &BigUint) -> (r: BigUint)
    requires
        big_value(*a) >= big_value(*b),
    ensures
        big_value(r) == big_value(*a) - big_value(*b),
{
    a - b
}

/// `&BigUint * &BigUint`: the product.
#[verifier::external_body]
pub(crate) fn big_mul(a: &BigUint, b: &BigUint) -> (r: BigUint)
    ensures
        big_value(r) == big_value(*a) * big_value(*b),
{
    a * b
}

/// `BigUint *= u32`: the product with a machine word.
#[verifier::external_body]
pub(crate) fn big_mul_u32(a: BigUint, k: u32) -> (r: BigUint)
    ensures
        big_value(r) == big_value(a) * k,
{
    let mut product = a;
    product *= k;
    product
}

/// `BigUint << usize`: the number times `2^bits`.
#[verifier::external_body]
pub(crate) fn big_shl(a: BigUint, bits: usize) -> (r: BigUint)
    ensures
        big_value(r) == big_value(a) * npow(2, bits as nat),
{
    a << bits
}

/// `&BigUint / &BigUint`: the quotient, rounded down. `num-bigint` panics on
/// a zero divisor, so that case is excluded.
#[verifier::external_body]
pub(crate) fn big_div(a: &BigUint, b: &BigUint) -> (r: BigUint)
    requires
        big_value(*b) > 0,
    ensures
        big_value(r) == big_value(*a) / big_value(*b),
{
    a / b
}

/// `&BigUint % &BigUint`: the remainder. `num-bigint` panics on a zero
/// divisor, so that case is excluded.
#[verifier::external_body]
pub(crate) fn big_rem(a: &BigUint, b: &BigUint) -> (r: BigUint)
    requires
        big_value(*b) > 0,
    ensures
        big_value(r) == big_value(*a) % big_value(*b),
{
    a % b
}

} // verus!
