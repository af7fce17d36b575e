//! Fixed-point arithmetic that reports a number it cannot hold as
//! `PoolError::Overflow`, and the same arithmetic on views, where a number
//! that cannot be held is `None`.

use crate::decimal::{checked_add, checked_div, checked_mul, checked_sub, div_fixed, is_held, is_produced, mul_fixed, Decimal};
use crate::error::PoolError;
use vstd::prelude::*;

verus! {

/// The view of a result: `None` for a number that could not be held.
pub open spec fn held(r: Result<Decimal, PoolError>) -> Option<int> {
    match r {
        Ok(value) => Some(value@),
        Err(_) => None,
    }
}

/// The sum of two numbers, where both are held and so is the sum.
pub open spec fn sum_of(a: Option<int>, b: Option<int>) -> Option<int> {
    if a.is_some() && b.is_some() && is_held(a.unwrap() + b.unwrap()) {
        Some(a.unwrap() + b.unwrap())
    } else {
        None
    }
}

/// The difference of two numbers, where both are held and so is the
/// difference.
pub open spec fn difference_of(a: Option<int>, b: Option<int>) -> Option<int> {
    if a.is_some() && b.is_some() && is_held(a.unwrap() - b.unwrap()) {
        Some(a.unwrap() - b.unwrap())
    } else {
        None
    }
}

/// The fixed-point product of two numbers, rounded towards zero, where both
/// are held and the product is produced.
pub open spec fn product_of(a: Option<int>, b: Option<int>) -> Option<int> {
    if a.is_some() && b.is_some() && is_produced(mul_fixed(a.unwrap(), b.unwrap())) {
        Some(mul_fixed(a.unwrap(), b.unwrap()))
    } else {
        None
    }
}

/// The fixed-point quotient of two numbers, rounded towards zero, where both
/// are held, the divisor is not zero and the quotient is produced.
pub open spec fn quotient_of(a: Option<int>, b: Option<int>) -> Option<int> {
    if a.is_some() && b.is_some() && b.unwrap() != 0 && is_produced(
        div_fixed(a.unwrap(), b.unwrap()),
    ) {
        Some(div_fixed(a.unwrap(), b.unwrap()))
    } else {
        None
    }
}

/// `a + b`.
pub fn plus(a: Decimal, b: Decimal) -> (r: Result<Decimal, PoolError>)
    ensures
        held(r) == sum_of(Some(a@), Some(b@)),
        r matches Err(e) ==> e == PoolError::Overflow,
{
    match checked_add(a, b) {
        Some(sum) => Ok(sum),
        None => Err(PoolError::Overflow),
    }
}

/// `a - b`.
pub fn minus(a: Decimal, b: Decimal) -> (r: Result<Decimal, PoolError>)
    ensures
        held(r) == difference_of(Some(a@), Some(b@)),
        r matches Err(e) ==> e == PoolError::Overflow,
{
    match checked_sub(a, b) {
        Some(difference) => Ok(difference),
        None => Err(PoolError::Overflow),
    }
}

/// `a * b`, rounded towards zero.
pub fn times(a: Decimal, b: Decimal) -> (r: Result<Decimal, PoolError>)
    ensures
        held(r) == product_of(Some(a@), Some(b@)),
        r matches Err(e) ==> e == PoolError::Overflow,
{
    match checked_mul(a, b) {
        Some(product) => Ok(product),
        None => Err(PoolError::Overflow),
    }
}

/// `a / b`, rounded towards zero; a division by zero counts as a number that
/// cannot be held.
pub fn over(a: Decimal, b: Decimal) -> (r: Result<Decimal, PoolError>)
    ensures
        held(r) == quotient_of(Some(a@), Some(b@)),
        r matches Err(e) ==> e == PoolError::Overflow,
{
    match checked_div(a, b) {
        Some(quotient) => Ok(quotient),
        None => Err(PoolError::Overflow),
    }
}

} // verus!
