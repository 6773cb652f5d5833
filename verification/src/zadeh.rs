//! Zadeh's operators select one of the two degrees of truth. They suit
//! memberships that exclude each other: membership in one set implies
//! non-membership in another.
use crate::truth::{Truth, Value};
use vstd::prelude::*;

verus! {

/// Of two numbers, the second where the first is the greater one, else the
/// first.
pub open spec fn lesser(a: Value, b: Value) -> Value {
    if a.gt(b) {
        b
    } else {
        a
    }
}

/// Of two numbers, the first where it is the greater one, else the second.
pub open spec fn greater(a: Value, b: Value) -> Value {
    if a.gt(b) {
        a
    } else {
        b
    }
}

/// The lesser of two finite numbers: `b` where `a` is the greater one, else
/// `a`. Nothing where either is not finite.
pub open spec fn min_of(a: Truth, b: Truth) -> Option<Truth> {
    if a@ is Finite && b@ is Finite {
        if a@.gt(b@) {
            Some(b)
        } else {
            Some(a)
        }
    } else {
        None
    }
}

/// The greater of two finite numbers: `a` where `a` is the greater one, else
/// `b`. Nothing where either is not finite.
pub open spec fn max_of(a: Truth, b: Truth) -> Option<Truth> {
    if a@ is Finite && b@ is Finite {
        if a@.gt(b@) {
            Some(a)
        } else {
            Some(b)
        }
    } else {
        None
    }
}

/// The Zadeh intersection of two degrees of truth.
pub fn min(a: Truth, b: Truth) -> (r: Option<Truth>)
    ensures
        r == min_of(a, b),
{
    if a.is_nan() || b.is_nan() {
        return None;
    }
    if a.is_infinite() || b.is_infinite() {
        return None;
    }
    if a.gt(b) {
        Some(b)
    } else {
        Some(a)
    }
}

/// Another name for [`min`].
#[inline(always)]
pub fn or(a: Truth, b: Truth) -> (r: Option<Truth>)
    ensures
        r == min_of(a, b),
{
    min(a, b)
}

/// The Zadeh union of two degrees of truth.
pub fn max(a: Truth, b: Truth) -> (r: Option<Truth>)
    ensures
        r == max_of(a, b),
{
    if a.is_nan() || b.is_nan() {
        return None;
    }
    if a.is_infinite() || b.is_infinite() {
        return None;
    }
    if a.gt(b) {
        Some(a)
    } else {
        Some(b)
    }
}

/// Another name for [`max`].
#[inline(always)]
pub fn and(a: Truth, b: Truth) -> (r: Option<Truth>)
    ensures
        r == max_of(a, b),
{
    max(a, b)
}

} // verus!
