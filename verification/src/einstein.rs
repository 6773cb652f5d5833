//! Einstein's bounded product and sum. They suit memberships that are
//! independent: membership in one set has no bearing on membership in another.
use crate::truth::{denoted, finite_or_none, Truth, Value};
use vstd::prelude::*;

verus! {

/// The Einstein product `(a * b) / (1 + (1 - a) * (1 - b))` of two finite
/// numbers, each operation rounded as binary32 arithmetic rounds it. Nothing
/// where an operand or the result is not finite.
pub open spec fn product_of(a: Value, b: Value) -> Option<Value> {
    if a is Finite && b is Finite {
        finite_or_none(
            a.times(b).over(Value::one().plus(Value::one().minus(a).times(Value::one().minus(b)))),
        )
    } else {
        None
    }
}

/// The Einstein sum `(a + b) / (1 + a * b)` of two finite numbers, each
/// operation rounded as binary32 arithmetic rounds it. Nothing where an
/// operand or the result is not finite.
pub open spec fn sum_of(a: Value, b: Value) -> Option<Value> {
    if a is Finite && b is Finite {
        finite_or_none(a.plus(b).over(Value::one().plus(a.times(b))))
    } else {
        None
    }
}

/// The Einstein product of two degrees of truth.
pub fn product(a: Truth, b: Truth) -> (r: Option<Truth>)
    ensures
        denoted(r) == product_of(a@, b@),
{
    if a.is_nan() || b.is_nan() {
        return None;
    }
    if a.is_infinite() || b.is_infinite() {
        return None;
    }
    let one = Truth::one();
    let result = a.times(b).over(one.plus(one.minus(a).times(one.minus(b))));
    if result.is_nan() || result.is_infinite() {
        return None;
    }
    Some(result)
}

/// Another name for [`product`].
#[inline(always)]
pub fn or(a: Truth, b: Truth) -> (r: Option<Truth>)
    ensures
        denoted(r) == product_of(a@, b@),
{
    product(a, b)
}

/// The Einstein sum of two degrees of truth.
pub fn sum(a: Truth, b: Truth) -> (r: Option<Truth>)
    ensures
        denoted(r) == sum_of(a@, b@),
{
    if a.is_nan() || b.is_nan() {
        return None;
    }
    if a.is_infinite() || b.is_infinite() {
        return None;
    }
    let result = a.plus(b).over(Truth::one().plus(a.times(b)));
    if result.is_nan() || result.is_infinite() {
        return None;
    }
    Some(result)
}

/// Another name for [`sum`].
#[inline(always)]
pub fn and(a: Truth, b: Truth) -> (r: Option<Truth>)
    ensures
        denoted(r) == sum_of(a@, b@),
{
    sum(a, b)
}

} // verus!
