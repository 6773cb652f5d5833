//! What holds of the operators on all operands.
use crate::arithmetic::lemma_rounded_zero;
use crate::einstein::{product_of, sum_of};
use crate::rounding::{
    binade, lemma_binade_bounds, lemma_binade_unique, lemma_div_below, lemma_pow2_le, rounded,
};
use crate::truth::{lemma_fields, lemma_magnitude_order_iff, lemma_one, Truth, Value, ONE_BITS};
use crate::werner::weighted_min_of;
use crate::zadeh::{greater, lesser, max_of, min_of};
use vstd::arithmetic::div_mod::{
    lemma_fundamental_div_mod, lemma_fundamental_div_mod_converse, lemma_mod_bound,
};
use vstd::arithmetic::mul::lemma_mul_is_commutative;
use vstd::arithmetic::power2::{
    lemma2_to64, lemma_pow2_adds, lemma_pow2_pos, lemma_pow2_strictly_increases,
    lemma_pow2_unfold, pow2,
};
use vstd::prelude::*;

verus! {

/// The Zadeh minimum of two finite numbers is one of the two and exceeds
/// neither; the maximum is one of the two and neither exceeds it.
pub proof fn lemma_min_is_least_and_max_is_greatest(a: Truth, b: Truth)
    requires
        a@ is Finite,
        b@ is Finite,
    ensures
        min_of(a, b) matches Some(m) && (m == a || m == b) && m@ == lesser(a@, b@)
            && m@.signed() <= a@.signed() && m@.signed() <= b@.signed(),
        max_of(a, b) matches Some(m) && (m == a || m == b) && m@ == greater(a@, b@)
            && m@.signed() >= a@.signed() && m@.signed() >= b@.signed(),
{
}

/// The Zadeh operators commute: with the operands exchanged they yield the
/// same number. The bits can differ only between the two zeros.
pub proof fn lemma_zadeh_commutes(a: Truth, b: Truth)
    ensures
        min_of(a, b) is Some <==> min_of(b, a) is Some,
        max_of(a, b) is Some <==> max_of(b, a) is Some,
        min_of(a, b) matches Some(x) ==> min_of(b, a) matches Some(y) && x@.signed() == y@.signed(),
        max_of(a, b) matches Some(x) ==> max_of(b, a) matches Some(y) && x@.signed() == y@.signed(),
        min_of(a, b) matches Some(x) ==> x@.signed() != 0 ==> min_of(b, a) == Some(x),
        max_of(a, b) matches Some(x) ==> x@.signed() != 0 ==> max_of(b, a) == Some(x),
{
    if a@ is Finite && b@ is Finite && a@.signed() == b@.signed() && a@.signed() != 0 {
        lemma_fields(a);
        lemma_fields(b);
        lemma_magnitude_order_iff(a, b);
    }
}

/// Sums do not depend on the order of the terms.
pub proof fn lemma_plus_commutes(a: Value, b: Value)
    ensures
        a.plus(b) == b.plus(a),
{
}

/// Products do not depend on the order of the factors.
pub proof fn lemma_times_commutes(a: Value, b: Value)
    ensures
        a.times(b) == b.times(a),
{
    match (a, b) {
        (Value::Finite { magnitude: m1, .. }, Value::Finite { magnitude: m2, .. }) => {
            lemma_mul_is_commutative(m1 as int, m2 as int);
        },
        _ => {},
    }
}

/// The Einstein operators commute.
pub proof fn lemma_einstein_commutes(a: Value, b: Value)
    ensures
        product_of(a, b) == product_of(b, a),
        sum_of(a, b) == sum_of(b, a),
{
    lemma_times_commutes(a, b);
    lemma_plus_commutes(a, b);
    lemma_times_commutes(Value::one().minus(a), Value::one().minus(b));
}

/// Every operator yields nothing where one of the two degrees of truth is a
/// NaN or infinite, whatever the weight.
pub proof fn lemma_not_finite_gives_nothing(weight: Truth, a: Truth, b: Truth)
    requires
        !(a@ is Finite) || !(b@ is Finite),
    ensures
        min_of(a, b) is None,
        max_of(a, b) is None,
        product_of(a@, b@) is None,
        sum_of(a@, b@) is None,
        weighted_min_of(weight@, a@, b@) is None,
{
}

/// Werner's operator yields nothing wherever the Zadeh minimum does.
pub proof fn lemma_werner_needs_the_minimum(weight: Truth, a: Truth, b: Truth)
    requires
        min_of(a, b) is None,
    ensures
        weighted_min_of(weight@, a@, b@) is None,
{
}

/// A number that a degree of truth holds is not changed by rounding: the
/// quotient of `d` times its magnitude and `d` rounds to the magnitude.
pub proof fn lemma_rounded_exact(t: Truth, negative: bool, d: nat)
    requires
        t@ is Finite,
        d > 0,
    ensures
        rounded(negative, t.magnitude() * d, d) == (Value::Finite {
            negative,
            magnitude: t.magnitude(),
        }),
{
    lemma_fields(t);
    lemma2_to64();
    let k = t.significand();
    let j = t.scale();
    let m = t.magnitude();
    let p = pow2(j);
    let n = m * d;
    let step = d * p;
    lemma_pow2_pos(j);
    lemma_fundamental_div_mod_converse(n as int, d as int, m as int, 0);
    assert(m < 0x100_0000 * p) by (nonlinear_arith)
        requires
            m == k * p,
            k < 0x100_0000,
            p > 0,
    ;
    if j > 0 {
        assert(0x80_0000 * p <= m) by (nonlinear_arith)
            requires
                m == k * p,
                k >= 0x80_0000,
                p > 0,
        ;
    }
    lemma_binade_unique(m, j);
    assert(n == k * step) by (nonlinear_arith)
        requires
            n == m * d,
            m == k * p,
            step == d * p,
    ;
    assert(step > 0) by (nonlinear_arith)
        requires
            step == d * p,
            d > 0,
            p > 0,
    ;
    lemma_fundamental_div_mod_converse(n as int, step as int, k as int, 0);
    lemma_pow2_adds(24, j);
    lemma_pow2_le(24 + j, 277);
}

/// A quotient below the midpoint between the greatest finite number and the
/// power of two above it rounds to a finite number.
pub proof fn lemma_rounded_is_finite(negative: bool, n: nat, d: nat)
    requires
        d > 0,
        2 * n < 0x1ff_ffff * (pow2(253) * d),
    ensures
        rounded(negative, n, d) is Finite,
{
    lemma2_to64();
    let top = pow2(253);
    lemma_pow2_pos(253);
    let q = n / d;
    assert(n < (0x100_0000 * top) * d) by (nonlinear_arith)
        requires
            2 * n < 0x1ff_ffff * (top * d),
            top > 0,
            d > 0,
    ;
    lemma_div_below(n as int, d as int, (0x100_0000 * top) as int);
    let j = binade(q);
    lemma_binade_bounds(q);
    let p = pow2(j);
    lemma_pow2_pos(j);
    if j >= 254 {
        lemma_pow2_le(254, j);
        lemma_pow2_unfold(254);
        assert(false);
    }
    let step = d * p;
    assert(step > 0) by (nonlinear_arith)
        requires
            step == d * p,
            d > 0,
            p > 0,
    ;
    lemma_fundamental_div_mod(n as int, d as int);
    lemma_mod_bound(n as int, d as int);
    assert(n < 0x100_0000 * step) by (nonlinear_arith)
        requires
            n == d * q + n % d,
            n % d < d,
            q < 0x100_0000 * p,
            step == d * p,
            d > 0,
    ;
    lemma_div_below(n as int, step as int, 0x100_0000);
    let k = n / step;
    let r = n % step;
    let nearest = if 2 * r > step || (2 * r == step && k % 2 == 1) {
        k + 1
    } else {
        k
    };
    lemma_pow2_adds(24, j);
    if j < 253 {
        lemma_pow2_le(24 + j, 276);
        lemma_pow2_strictly_increases(276, 277);
        assert(nearest * p <= 0x100_0000 * p) by (nonlinear_arith)
            requires
                nearest <= 0x100_0000,
                p > 0,
        ;
    } else {
        lemma_fundamental_div_mod(n as int, step as int);
        lemma_mod_bound(n as int, step as int);
        assert(step == top * d) by (nonlinear_arith)
            requires
                step == d * p,
                p == top,
        ;
        if k == 0xff_ffff {
            assert(2 * r < step) by (nonlinear_arith)
                requires
                    n == step * k + r,
                    k == 0xff_ffff,
                    2 * n < 0x1ff_ffff * step,
            ;
        }
        assert(nearest <= 0xff_ffff);
        assert(nearest * p < 0x100_0000 * p) by (nonlinear_arith)
            requires
                nearest <= 0xff_ffff,
                p > 0,
        ;
    }
}

/// The Einstein sum of zero and a finite number is that number. A negative
/// zero comes back as the positive zero, which is the same number.
pub proof fn lemma_sum_with_zero(b: Truth)
    requires
        b@ is Finite,
    ensures
        sum_of(Value::Finite { negative: false, magnitude: 0 }, b@) == Some(
            if b@.signed() == 0 {
                Value::Finite { negative: false, magnitude: 0 }
            } else {
                b@
            },
        ),
        sum_of(b@, Value::Finite { negative: false, magnitude: 0 }) == sum_of(
            Value::Finite { negative: false, magnitude: 0 },
            b@,
        ),
{
    let zero = Value::Finite { negative: false, magnitude: 0 };
    let one = Value::one();
    let nb = b.sign();
    let mb = b.magnitude();
    lemma_one();
    lemma_pow2_pos(149);
    let one_bits = Truth { bits: ONE_BITS };
    // 0 + b
    let x = zero.plus(b@);
    assert(mb * 1 == mb) by (nonlinear_arith);
    lemma_rounded_exact(b, nb, 1);
    let x_negative = nb && mb != 0;
    assert(x == Value::Finite { negative: x_negative, magnitude: mb });
    // 0 * b
    assert(0 * mb == 0) by (nonlinear_arith);
    lemma_rounded_zero(nb, pow2(149));
    assert(zero.times(b@) == Value::Finite { negative: nb, magnitude: 0 });
    // 1 + 0 * b
    assert(pow2(149) * 1 == pow2(149)) by (nonlinear_arith);
    lemma_rounded_exact(one_bits, false, 1);
    assert(one.plus(zero.times(b@)) == one);
    // (0 + b) / 1
    lemma_rounded_exact(b, x_negative, pow2(149));
    assert(x.over(one) == Value::Finite { negative: x_negative, magnitude: mb });
    lemma_einstein_commutes(b@, zero);
}

/// The Einstein product of a finite number and the number one is that
/// number: in particular it is finite for every number from zero to one.
pub proof fn lemma_product_with_one(a: Truth)
    requires
        a@ is Finite,
    ensures
        product_of(a@, Value::one()) == Some(a@),
        product_of(Value::one(), a@) == Some(a@),
{
    let one = Value::one();
    let na = a.sign();
    let ma = a.magnitude();
    lemma_one();
    lemma_pow2_pos(149);
    lemma2_to64();
    let one_bits = Truth { bits: ONE_BITS };
    // a * 1
    lemma_rounded_exact(a, na, pow2(149));
    assert(a@.times(one) == a@);
    // 1 - a
    let s: int = pow2(149) - a@.signed();
    let v = one.minus(a@);
    assert(v is Finite) by {
        let n: nat = if s < 0 {
            (-s) as nat
        } else {
            s as nat
        };
        let top = pow2(253);
        lemma_fields(a);
        lemma_pow2_le(a.scale(), 253);
        lemma_pow2_unfold(150);
        lemma_pow2_strictly_increases(150, 253);
        assert(ma <= 0xff_ffff * top) by (nonlinear_arith)
            requires
                ma == a.significand() * pow2(a.scale()),
                a.significand() <= 0xff_ffff,
                0 < pow2(a.scale()) <= top,
        ;
        assert(top * 1 == top) by (nonlinear_arith);
        lemma_rounded_is_finite(s < 0, n, 1);
    }
    // 1 - 1
    let w = one.minus(one);
    assert(w == Value::Finite { negative: false, magnitude: 0 });
    // (1 - a) * (1 - 1)
    let nv = v->Finite_negative;
    let mv = v->Finite_magnitude;
    assert(mv * 0 == 0) by (nonlinear_arith);
    lemma_rounded_zero(nv, pow2(149));
    assert(v.times(w) == Value::Finite { negative: nv, magnitude: 0 });
    // 1 + (1 - a) * (1 - 1)
    assert(pow2(149) * 1 == pow2(149)) by (nonlinear_arith);
    lemma_rounded_exact(one_bits, false, 1);
    assert(one.plus(v.times(w)) == one);
    // (a * 1) / 1
    assert(a@.over(one) == a@);
    lemma_einstein_commutes(a@, one);
}

} // verus!
