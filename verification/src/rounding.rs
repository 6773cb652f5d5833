//! Rounding to the nearest binary32 number, ties to the even significand:
//! what it means, and how it is computed on integers of fixed width.
use crate::truth::{lemma_fields, Truth, Value, HIDDEN_BIT, SIGN_BIT};
use vstd::arithmetic::div_mod::{
    lemma_div_multiples_vanish_quotient, lemma_fundamental_div_mod,
    lemma_fundamental_div_mod_converse, lemma_mod_bound, lemma_multiply_divide_lt,
    lemma_truncate_middle,
};
use vstd::arithmetic::mul::lemma_mul_is_commutative;
use vstd::arithmetic::power2::{
    lemma2_to64, lemma2_to64_rest, lemma_pow2_adds, lemma_pow2_pos,
    lemma_pow2_strictly_increases, lemma_pow2_unfold, pow2,
};
use vstd::prelude::*;

verus! {

/// The power of two that one unit in the last place of a number is worth, in
/// units of 2^-149, given the whole part `q` of the number in those units:
/// zero below 2^24 (the subnormal numbers and the first binade of the normal
/// ones), and one more with each doubling from there.
pub open spec fn binade(q: nat) -> nat
    decreases q,
{
    if q < 0x100_0000 {
        0
    } else {
        1 + binade(q / 2)
    }
}

/// The number of magnitude `k * 2^j` units of 2^-149, or infinity where that
/// is beyond the greatest finite binary32 number.
pub open spec fn packed_value(negative: bool, k: nat, j: nat) -> Value {
    if k * pow2(j) >= pow2(277) {
        Value::Infinite { negative }
    } else {
        Value::Finite { negative, magnitude: k * pow2(j) }
    }
}

/// The binary32 number nearest to the quotient `n / d`, taken in units of
/// 2^-149, with the given sign. Of two numbers equally near, the one with the
/// even significand is taken. A quotient that rounds beyond the greatest
/// finite number gives infinity.
pub open spec fn rounded(negative: bool, n: nat, d: nat) -> Value
    recommends
        d > 0,
{
    let j = binade(n / d);
    let step = d * pow2(j);
    let k = n / step;
    let r = n % step;
    let nearest = if 2 * r > step || (2 * r == step && k % 2 == 1) {
        k + 1
    } else {
        k
    };
    packed_value(negative, nearest, j)
}

/// `e` where it is positive, else zero.
pub open spec fn positive_part(e: int) -> nat {
    if e >= 0 {
        e as nat
    } else {
        0
    }
}

/// The quotient `n / d` lies from `sig * 2^exp` up to, but not at,
/// `(sig + 1) * 2^exp`, and `sticky` tells whether it lies above the lower end.
pub open spec fn brackets(sig: nat, exp: int, sticky: bool, n: nat, d: nat) -> bool {
    let w = pow2(positive_part(exp)) * d;
    let y = n * pow2(positive_part(-exp));
    &&& sig * w <= y < (sig + 1) * w
    &&& sticky == (y != sig * w)
}

/// Powers of two are positive and grow with the exponent.
pub(crate) proof fn lemma_pow2_le(a: nat, b: nat)
    requires
        a <= b,
    ensures
        0 < pow2(a) <= pow2(b),
{
    lemma_pow2_pos(a);
    if a < b {
        lemma_pow2_strictly_increases(a, b);
    }
}

/// A positive factor can be cancelled from both sides of `<`.
pub(crate) proof fn lemma_cancel_lt(a: int, b: int, c: int)
    by (nonlinear_arith)
    requires
        c > 0,
        a * c < b * c,
    ensures
        a < b,
{
}

/// A positive factor can be cancelled from both sides of `<=`.
pub(crate) proof fn lemma_cancel_le(a: int, b: int, c: int)
    by (nonlinear_arith)
    requires
        c > 0,
        a * c <= b * c,
    ensures
        a <= b,
{
}

/// A number below `b * d` has a quotient by `d` below `b`.
pub(crate) proof fn lemma_div_below(n: int, d: int, b: int)
    requires
        d > 0,
        n < b * d,
    ensures
        n / d < b,
{
    lemma_mul_is_commutative(b, d);
    lemma_multiply_divide_lt(n, d, b);
}

/// A number of at least `b * d` has a quotient by `d` of at least `b`.
pub(crate) proof fn lemma_div_at_least(n: int, d: int, b: int)
    requires
        d > 0,
        b * d <= n,
    ensures
        b <= n / d,
{
    lemma_fundamental_div_mod(n, d);
    lemma_mod_bound(n, d);
    let q = n / d;
    if q < b {
        assert(d * q <= b * d - d) by (nonlinear_arith)
            requires
                q <= b - 1,
                d > 0,
        ;
    }
}

/// A number lies below 2^24 times the power of two of its binade, and from
/// the first binade on at or above 2^23 times that power.
pub proof fn lemma_binade_bounds(q: nat)
    ensures
        q < 0x100_0000 * pow2(binade(q)),
        binade(q) > 0 ==> 0x80_0000 * pow2(binade(q)) <= q,
    decreases q,
{
    lemma2_to64();
    if q >= 0x100_0000 {
        let h = q / 2;
        lemma_binade_bounds(h);
        lemma_pow2_unfold(binade(h) + 1);
        assert(binade(q) == binade(h) + 1);
    }
}

/// The binade of a number is settled by the powers of two around it.
pub proof fn lemma_binade_unique(q: nat, j: nat)
    requires
        q < 0x100_0000 * pow2(j),
        j > 0 ==> 0x80_0000 * pow2(j) <= q,
    ensures
        binade(q) == j,
{
    let j0 = binade(q);
    lemma_binade_bounds(q);
    if j0 < j {
        lemma_pow2_unfold(j0 + 1);
        lemma_pow2_le(j0 + 1, j);
        assert(false);
    } else if j0 > j {
        lemma_pow2_unfold(j + 1);
        lemma_pow2_le(j + 1, j0);
        assert(false);
    }
}

/// Where `y / w` lies from `sig` up to `sig + 1`, and `sig` is `k` times an
/// even `2 * h` and `rem` more, the whole part of `y / (w * 2 * h)` is `k`, and
/// the rest compares with one half as `rem` compares with `h`.
proof fn lemma_quotient_in_bracket(y: int, w: int, h: int, sig: int, k: int, rem: int)
    requires
        w > 0,
        h > 0,
        0 <= rem < 2 * h,
        sig == k * (2 * h) + rem,
        sig * w <= y < (sig + 1) * w,
    ensures
        y / (w * (2 * h)) == k,
        (2 * (y % (w * (2 * h))) > w * (2 * h)) == (rem > h || (rem == h && y != sig * w)),
        (2 * (y % (w * (2 * h))) == w * (2 * h)) == (rem == h && y == sig * w),
{
    let t = 2 * h;
    let m = w * t;
    let r = y - k * m;
    assert(sig * w == k * m + rem * w) by (nonlinear_arith)
        requires
            sig == k * t + rem,
            m == w * t,
    ;
    assert((sig + 1) * w == k * m + (rem + 1) * w) by (nonlinear_arith)
        requires
            sig == k * t + rem,
            m == w * t,
    ;
    assert(rem * w >= 0 && (rem + 1) * w <= m) by (nonlinear_arith)
        requires
            0 <= rem < t,
            w > 0,
            m == w * t,
    ;
    assert(m == 2 * (h * w)) by (nonlinear_arith)
        requires
            m == w * t,
            t == 2 * h,
    ;
    lemma_fundamental_div_mod_converse(y, m, k, r);
    if rem > h {
        assert(rem * w >= h * w + w) by (nonlinear_arith)
            requires
                rem >= h + 1,
                w > 0,
        ;
    } else if rem < h {
        assert((rem + 1) * w <= h * w) by (nonlinear_arith)
            requires
                rem + 1 <= h,
                w > 0,
        ;
    } else {
        assert(rem * w == h * w);
    }
}

/// Rounding a quotient of which only a bracket is known: where the lower end
/// `sig` has `len` bits, at least two of them below the last place of the
/// result, those bits and `sticky` settle the result.
proof fn lemma_rounded_in_bracket(
    negative: bool,
    sig: nat,
    exp: int,
    sticky: bool,
    n: nat,
    d: nat,
    len: nat,
)
    requires
        d > 0,
        len >= 26,
        pow2((len - 1) as nat) <= sig < pow2(len),
        brackets(sig, exp, sticky, n, d),
    ensures
        ({
            let j = positive_part(len + exp - 24);
            let sh = (j - exp) as nat;
            let k = sig / pow2(sh);
            let rem = sig % pow2(sh);
            let h = pow2((sh - 1) as nat);
            let nearest = if rem > h || (rem == h && (sticky || k % 2 == 1)) {
                k + 1
            } else {
                k
            };
            &&& j - exp >= len - 24
            &&& k < 0x100_0000
            &&& j > 0 ==> k >= 0x80_0000 && j - exp == len - 24
            &&& rounded(negative, n, d) == packed_value(negative, nearest, j)
        }),
{
    let j = positive_part(len + exp - 24);
    let sh = (j - exp) as nat;
    let ep = positive_part(exp);
    let en = positive_part(-exp);
    assert(j + en == ep + sh);
    let t = pow2(sh);
    let h = pow2((sh - 1) as nat);
    lemma_pow2_unfold(sh);
    lemma_pow2_pos((sh - 1) as nat);
    lemma_pow2_pos(ep);
    lemma_pow2_pos(en);
    lemma_pow2_pos(j);
    lemma2_to64();
    let k = sig / t;
    let rem = sig % t;
    lemma_fundamental_div_mod(sig as int, t as int);
    lemma_mod_bound(sig as int, t as int);
    lemma_mul_is_commutative(t as int, k as int);
    let c = pow2(en);
    let w = pow2(ep) * d;
    let y = n * c;
    assert(w > 0) by (nonlinear_arith)
        requires
            w == pow2(ep) * d,
            pow2(ep) > 0,
            d > 0,
    ;
    lemma_quotient_in_bracket(y as int, w as int, h as int, sig as int, k as int, rem as int);

    // the step of the result, scaled as the bracket is
    let step = d * pow2(j);
    lemma_pow2_adds(j, en);
    lemma_pow2_adds(ep, sh);
    assert(c * step == w * t) by (nonlinear_arith)
        requires
            pow2(j) * c == pow2(ep) * t,
            step == d * pow2(j),
            w == pow2(ep) * d,
    ;
    assert(step > 0) by (nonlinear_arith)
        requires
            step == d * pow2(j),
            pow2(j) > 0,
            d > 0,
    ;
    lemma_mul_is_commutative(c as int, n as int);
    lemma_div_multiples_vanish_quotient(c as int, n as int, step as int);
    lemma_truncate_middle(n as int, c as int, step as int);
    let r = n % step;
    assert(n / step == k);
    assert(y % (w * t) == c * r);
    assert((2 * (c * r) > c * step) == (2 * r > step)) by (nonlinear_arith)
        requires
            c > 0,
    ;
    assert((2 * (c * r) == c * step) == (2 * r == step)) by (nonlinear_arith)
        requires
            c > 0,
    ;

    // the whole part of the quotient lies in the binade `j`
    let p_len = pow2(len);
    let p_low = pow2((len - 1) as nat);
    assert(n < 0x100_0000 * pow2(j) * d) by {
        // y < (sig + 1) * w <= 2^len * 2^ep * d <= 2^(24 + j) * 2^en * d
        lemma_pow2_le(len + ep, 24 + j + en);
        lemma_pow2_adds(len, ep);
        lemma_pow2_adds(24 + j, en);
        lemma_pow2_adds(24, j);
        let top = pow2(24 + j);
        assert((sig + 1) * w <= p_len * w) by (nonlinear_arith)
            requires
                sig + 1 <= p_len,
                w > 0,
        ;
        assert(p_len * w == (p_len * pow2(ep)) * d) by (nonlinear_arith)
            requires
                w == pow2(ep) * d,
        ;
        assert((p_len * pow2(ep)) * d <= (top * c) * d) by (nonlinear_arith)
            requires
                p_len * pow2(ep) <= top * c,
                d > 0,
        ;
        assert((top * c) * d == (top * d) * c) by (nonlinear_arith);
        lemma_cancel_lt(n as int, (top * d) as int, c as int);
    }
    lemma_div_below(n as int, d as int, (0x100_0000 * pow2(j)) as int);
    if j > 0 {
        assert(0x80_0000 * pow2(j) * d <= n) by {
            // 2^(23 + j) * 2^en * d == 2^(len - 1) * 2^ep * d <= sig * w <= y
            lemma_pow2_adds((len - 1) as nat, ep);
            lemma_pow2_adds(23 + j, en);
            lemma_pow2_adds(23, j);
            let bottom = pow2(23 + j);
            assert((len - 1) as nat + ep == 23 + j + en);
            assert(p_low * w <= sig * w) by (nonlinear_arith)
                requires
                    p_low <= sig,
                    w > 0,
            ;
            assert(p_low * w == (p_low * pow2(ep)) * d) by (nonlinear_arith)
                requires
                    w == pow2(ep) * d,
            ;
            assert((bottom * c) * d == (bottom * d) * c) by (nonlinear_arith);
            lemma_cancel_le((bottom * d) as int, n as int, c as int);
        }
        lemma_div_at_least(n as int, d as int, (0x80_0000 * pow2(j)) as int);
    }
    lemma_binade_unique(n / d, j);

    // the bounds of the significand
    assert(k < 0x100_0000) by {
        lemma_pow2_le(len, 24 + sh);
        lemma_pow2_adds(24, sh);
        assert(k * t < 0x100_0000 * t);
        lemma_cancel_lt(k as int, 0x100_0000, t as int);
    }
    if j > 0 {
        assert(k >= 0x80_0000) by {
            lemma_pow2_adds(23, sh);
            assert((len - 1) as nat == 23 + sh);
            assert(0x80_0000 * t < (k + 1) * t) by (nonlinear_arith)
                requires
                    0x80_0000 * t <= sig,
                    sig == k * t + rem,
                    rem < t,
            ;
            lemma_cancel_lt(0x80_0000, (k + 1) as int, t as int);
        }
    }
}

/// The bits that hold the significand `k` at the scale `j` denote the number
/// `k * 2^j`. A significand of 2^24 carries into the exponent.
pub proof fn lemma_view_of_packed(negative: bool, j: nat, k: nat)
    requires
        j <= 253,
        k <= 0x100_0000,
        j > 0 ==> k >= 0x80_0000,
    ensures
        ({
            let sign: nat = if negative {
                0x8000_0000
            } else {
                0
            };
            Truth { bits: (sign + j * 0x80_0000 + k) as u32 }@ == packed_value(negative, k, j)
        }),
{
    let sign: nat = if negative {
        0x8000_0000
    } else {
        0
    };
    let t = Truth { bits: (sign + j * 0x80_0000 + k) as u32 };
    lemma_fields(t);
    lemma2_to64();
    lemma_pow2_pos(j);
    assert(t.sign() == negative);
    if k < 0x80_0000 {
        assert(t.exponent() == 0);
        assert(t.fraction() == k);
        lemma_pow2_strictly_increases(23, 277);
        assert(k * pow2(0) == k) by (nonlinear_arith)
            requires
                pow2(0) == 1,
        ;
    } else if k < 0x100_0000 {
        assert(t.exponent() == j + 1);
        assert(t.fraction() == k - 0x80_0000);
        assert(t.significand() == k);
        assert(t.scale() == j);
        lemma_pow2_adds(24, j);
        lemma_pow2_le(24 + j, 277);
        assert(k * pow2(j) < 0x100_0000 * pow2(j)) by (nonlinear_arith)
            requires
                k < 0x100_0000,
                pow2(j) > 0,
        ;
    } else {
        assert(t.exponent() == j + 2);
        assert(t.fraction() == 0);
        lemma_pow2_adds(24, j);
        if j == 253 {
            assert(k * pow2(j) == pow2(277));
        } else {
            assert(t.significand() == 0x80_0000);
            assert(t.scale() == j + 1);
            lemma_pow2_unfold(j + 1);
            lemma_pow2_strictly_increases(24 + j, 277);
            assert(pow2(j + 1) == 2 * pow2(j));
            assert(t.magnitude() == 0x80_0000 * pow2(j + 1));
            assert(0x80_0000 * pow2(j + 1) == 0x100_0000 * pow2(j)) by (nonlinear_arith)
                requires
                    pow2(j + 1) == 2 * pow2(j),
            ;
        }
    }
}

/// Two to the power `e`.
pub(crate) fn power_of_two(e: u32) -> (p: u128)
    requires
        e < 128,
    ensures
        p == pow2(e as nat),
{
    let mut p: u128 = 1;
    let mut i: u32 = 0;
    proof {
        lemma2_to64();
    }
    while i < e
        invariant
            i <= e,
            e < 128,
            p == pow2(i as nat),
        decreases e - i,
    {
        proof {
            lemma_pow2_unfold((i + 1) as nat);
            lemma_pow2_le((i + 1) as nat, 127);
            lemma_pow2_127();
        }
        p = p * 2;
        i = i + 1;
    }
    p
}

/// The value of 2^127, the greatest power of two that the widest integer holds.
proof fn lemma_pow2_127()
    ensures
        pow2(127) == 0x8000_0000_0000_0000_0000_0000_0000_0000,
{
    lemma2_to64();
    lemma2_to64_rest();
    lemma_pow2_adds(63, 64);
}

/// The number of bits of `x`: the least `len` with `x < 2^len`.
pub(crate) fn bit_length(x: u128) -> (len: u32)
    requires
        0 < x < pow2(127),
    ensures
        1 <= len <= 127,
        pow2((len - 1) as nat) <= x < pow2(len as nat),
{
    let mut len: u32 = 1;
    let mut p: u128 = 2;
    proof {
        lemma2_to64();
        lemma_pow2_127();
    }
    while p <= x
        invariant
            1 <= len <= 127,
            p == pow2(len as nat),
            pow2((len - 1) as nat) <= x < pow2(127),
        decreases 127 - len,
    {
        proof {
            if len == 127 {
                assert(false);
            }
            lemma_pow2_unfold((len + 1) as nat);
            lemma_pow2_le((len + 1) as nat, 127);
            lemma_pow2_127();
        }
        p = p * 2;
        len = len + 1;
    }
    len
}

/// Rounds to the nearest binary32 number a quotient `n / d` that is known by
/// a bracket: it lies from `sig * 2^exp` up to, but not at, `(sig + 1) * 2^exp`,
/// above the lower end where `sticky` is set.
pub(crate) fn round_to_truth(
    negative: bool,
    sig: u128,
    exp: i32,
    sticky: bool,
    Ghost(n): Ghost<nat>,
    Ghost(d): Ghost<nat>,
) -> (t: Truth)
    requires
        d > 0,
        pow2(25) <= sig < pow2(120),
        -1000 <= exp <= 1000,
        brackets(sig as nat, exp as int, sticky, n, d),
    ensures
        t@ == rounded(negative, n, d),
{
    proof {
        lemma_pow2_le(120, 127);
        lemma_pow2_pos(25);
    }
    let len: u32 = bit_length(sig);
    proof {
        if len <= 25 {
            lemma_pow2_le(len as nat, 25);
        }
        if len > 120 {
            lemma_pow2_le(120, (len - 1) as nat);
        }
        lemma_rounded_in_bracket(negative, sig as nat, exp as int, sticky, n, d, len as nat);
    }
    let top: i32 = len as i32 + exp - 24;
    let sign: u32 = if negative {
        SIGN_BIT
    } else {
        0
    };
    if top > 253 {
        proof {
            let j = top as nat;
            let sh = (j - exp) as nat;
            let k = sig as nat / pow2(sh);
            let rem = sig as nat % pow2(sh);
            let h = pow2((sh - 1) as nat);
            let nearest = if rem > h || (rem == h && (sticky || k % 2 == 1)) {
                k + 1
            } else {
                k
            };
            lemma_pow2_le(254, j);
            lemma_pow2_adds(23, 254);
            lemma2_to64();
            assert(nearest * pow2(j) >= 0x80_0000 * pow2(254)) by (nonlinear_arith)
                requires
                    nearest >= 0x80_0000,
                    pow2(j) >= pow2(254),
            ;
            lemma_fields(Truth { bits: (sign + 0x7f80_0000) as u32 });
        }
        return Truth { bits: sign + 0x7f80_0000 };
    }
    let j: u32 = if top > 0 {
        top as u32
    } else {
        0
    };
    let sh: i32 = j as i32 - exp;
    let mut nearest: u32 = 0;
    if sh < 122 {
        let t: u128 = power_of_two(sh as u32);
        proof {
            lemma_pow2_unfold(sh as nat);
            lemma_pow2_pos((sh - 1) as nat);
        }
        let k: u128 = sig / t;
        let rem: u128 = sig % t;
        let h: u128 = t / 2;
        let up: bool = rem > h || (rem == h && (sticky || k % 2 == 1));
        nearest = if up {
            (k + 1) as u32
        } else {
            k as u32
        };
    } else {
        proof {
            let t = pow2(sh as nat);
            lemma_pow2_le(121, (sh - 1) as nat);
            lemma_pow2_strictly_increases(120, 121);
            lemma_pow2_unfold(sh as nat);
            lemma_fundamental_div_mod_converse(sig as int, t as int, 0, sig as int);
        }
    }
    proof {
        lemma_view_of_packed(negative, j as nat, nearest as nat);
    }
    Truth { bits: sign + j * HIDDEN_BIT + nearest }
}

} // verus!
