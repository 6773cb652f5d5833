//! Werner's "fuzzy and": a blend of the Zadeh minimum and the arithmetic
//! mean of two degrees of truth, balanced by a weight.
use crate::truth::{denoted, finite_or_none, Truth, Value};
use crate::zadeh::{lesser, min};
use vstd::prelude::*;

verus! {

/// The blend `(weight * min(a, b) + (1 - weight) * (a + b)) / 2` of two
/// finite numbers, each operation rounded as binary32 arithmetic rounds it.
/// Nothing where `a` or `b` is not finite, or the result is not. The weight
/// is meant to lie between zero and one, but any weight is taken.
pub open spec fn weighted_min_of(weight: Value, a: Value, b: Value) -> Option<Value> {
    if a is Finite && b is Finite {
        finite_or_none(
            weight.times(lesser(a, b)).plus(Value::one().minus(weight).times(a.plus(b))).over(
                Value::two(),
            ),
        )
    } else {
        None
    }
}

/// Werner's weighted minimum of two degrees of truth.
pub fn weighted_min(weight: Truth, a: Truth, b: Truth) -> (r: Option<Truth>)
    ensures
        denoted(r) == weighted_min_of(weight@, a@, b@),
{
    match min(a, b) {
        Some(x) => {
            let result = weight.times(x).plus(Truth::one().minus(weight).times(a.plus(b))).over(
                Truth::two(),
            );
            if result.is_nan() || result.is_infinite() {
                None
            } else {
                Some(result)
            }
        },
        None => None,
    }
}

/// Another name for [`weighted_min`].
#[inline(always)]
pub fn fuzzy_and(weight: Truth, a: Truth, b: Truth) -> (r: Option<Truth>)
    ensures
        denoted(r) == weighted_min_of(weight@, a@, b@),
{
    weighted_min(weight, a, b)
}

} // verus!
