//! The four operations of binary32 arithmetic: what each one yields, stated
//! on the numbers, and how it is computed on the bits.
use crate::rounding::{
    brackets, lemma_pow2_le, positive_part, power_of_two, round_to_truth, rounded,
};
use crate::truth::{Truth, Value, HIDDEN_BIT, NAN_BITS, SIGN_BIT};
use vstd::arithmetic::div_mod::{
    lemma_fundamental_div_mod, lemma_fundamental_div_mod_converse, lemma_mod_bound,
};
use vstd::arithmetic::power2::{lemma2_to64, lemma2_to64_rest, lemma_pow2_adds, lemma_pow2_pos, pow2};
use vstd::prelude::*;

verus! {

impl Value {
    /// The sum, rounded to the nearest binary32 number. Infinities of
    /// opposite signs have no sum. A sum that is exactly zero is negative
    /// only where both terms are negative zeros.
    pub open spec fn plus(self, rhs: Value) -> Value {
        match (self, rhs) {
            (Value::Nan, _) => Value::Nan,
            (_, Value::Nan) => Value::Nan,
            (Value::Infinite { negative: n1 }, Value::Infinite { negative: n2 }) => if n1 == n2 {
                self
            } else {
                Value::Nan
            },
            (Value::Infinite { .. }, Value::Finite { .. }) => self,
            (Value::Finite { .. }, Value::Infinite { .. }) => rhs,
            (Value::Finite { negative: n1, .. }, Value::Finite { negative: n2, .. }) => {
                let s = self.signed() + rhs.signed();
                if s == 0 {
                    Value::Finite { negative: n1 && n2, magnitude: 0 }
                } else if s < 0 {
                    rounded(true, (-s) as nat, 1)
                } else {
                    rounded(false, s as nat, 1)
                }
            },
        }
    }

    /// The difference: the sum with the negated subtrahend.
    pub open spec fn minus(self, rhs: Value) -> Value {
        self.plus(rhs.negated())
    }

    /// The product, rounded to the nearest binary32 number. Zero times
    /// infinity is not a number. The sign is negative where the signs differ.
    pub open spec fn times(self, rhs: Value) -> Value {
        match (self, rhs) {
            (Value::Nan, _) => Value::Nan,
            (_, Value::Nan) => Value::Nan,
            (Value::Infinite { negative: n1 }, Value::Infinite { negative: n2 }) => Value::Infinite {
                negative: n1 != n2,
            },
            (Value::Infinite { negative: n1 }, Value::Finite { negative: n2, magnitude }) => if magnitude
                == 0 {
                Value::Nan
            } else {
                Value::Infinite { negative: n1 != n2 }
            },
            (Value::Finite { negative: n1, magnitude }, Value::Infinite { negative: n2 }) => if magnitude
                == 0 {
                Value::Nan
            } else {
                Value::Infinite { negative: n1 != n2 }
            },
            (
                Value::Finite { negative: n1, magnitude: m1 },
                Value::Finite { negative: n2, magnitude: m2 },
            ) => rounded(n1 != n2, m1 * m2, pow2(149)),
        }
    }

    /// The quotient, rounded to the nearest binary32 number. Zero over zero
    /// and infinity over infinity are not numbers; another number over zero
    /// is infinite. The sign is negative where the signs differ.
    pub open spec fn over(self, rhs: Value) -> Value {
        match (self, rhs) {
            (Value::Nan, _) => Value::Nan,
            (_, Value::Nan) => Value::Nan,
            (Value::Infinite { .. }, Value::Infinite { .. }) => Value::Nan,
            (Value::Infinite { negative: n1 }, Value::Finite { negative: n2, .. }) => Value::Infinite {
                negative: n1 != n2,
            },
            (Value::Finite { negative: n1, .. }, Value::Infinite { negative: n2 }) => Value::Finite {
                negative: n1 != n2,
                magnitude: 0,
            },
            (
                Value::Finite { negative: n1, magnitude: m1 },
                Value::Finite { negative: n2, magnitude: m2 },
            ) => if m2 == 0 {
                if m1 == 0 {
                    Value::Nan
                } else {
                    Value::Infinite { negative: n1 != n2 }
                }
            } else {
                rounded(n1 != n2, m1 * pow2(149), m2)
            },
        }
    }
}

/// The sign, the significand and the scale of a finite number.
struct Parts {
    negative: bool,
    significand: u32,
    scale: u32,
}

/// The value of 2^120, below which the significands handed to rounding lie.
proof fn lemma_pow2_120()
    ensures
        pow2(120) == 0x100_0000_0000_0000_0000_0000_0000_0000,
{
    lemma2_to64_rest();
    lemma_pow2_adds(60, 60);
}

/// Zero rounds to zero.
pub proof fn lemma_rounded_zero(negative: bool, d: nat)
    requires
        d > 0,
    ensures
        rounded(negative, 0, d) == (Value::Finite { negative, magnitude: 0 }),
{
    lemma2_to64();
    lemma_pow2_pos(277);
    lemma_fundamental_div_mod_converse(0, d as int, 0, 0);
    assert(d * pow2(0) == d) by (nonlinear_arith)
        requires
            pow2(0) == 1,
    ;
    assert(0 * pow2(0) == 0) by (nonlinear_arith);
}

/// The quotient of `m * 2^e` and `2^f` is bracketed, with nothing above the
/// lower end, by `m * 2^g` at the exponent `e - f - g`.
proof fn lemma_exact_bracket(m: nat, e: nat, f: nat, g: nat)
    ensures
        brackets(m * pow2(g), e - f - g, false, m * pow2(e), pow2(f)),
{
    let exp = e - f - g;
    let ep = positive_part(exp);
    let en = positive_part(-exp);
    assert(g + ep + f == e + en);
    lemma_pow2_adds(g, ep);
    lemma_pow2_adds(g + ep, f);
    lemma_pow2_adds(e, en);
    lemma_pow2_pos(ep);
    lemma_pow2_pos(f);
    let (pg, pp, pf, pe, pn) = (pow2(g), pow2(ep), pow2(f), pow2(e), pow2(en));
    let sig = m * pg;
    let w = pp * pf;
    let y = (m * pe) * pn;
    assert(sig * w == m * ((pg * pp) * pf)) by (nonlinear_arith)
        requires
            sig == m * pg,
            w == pp * pf,
    ;
    assert(y == m * (pe * pn)) by (nonlinear_arith)
        requires
            y == (m * pe) * pn,
    ;
    assert(w > 0) by (nonlinear_arith)
        requires
            w == pp * pf,
            pp > 0,
            pf > 0,
    ;
    assert((sig + 1) * w == sig * w + w) by (nonlinear_arith);
}

/// A whole number from `sig * 2^e` up to `(sig + 1) * 2^e` is bracketed so.
proof fn lemma_whole_bracket(sig: nat, e: nat, sticky: bool, n: nat)
    requires
        sig * pow2(e) <= n < (sig + 1) * pow2(e),
        sticky == (n != sig * pow2(e)),
    ensures
        brackets(sig, e as int, sticky, n, 1),
{
    lemma2_to64();
    assert(pow2(e) * 1 == pow2(e)) by (nonlinear_arith);
    assert(n * pow2(0) == n) by (nonlinear_arith)
        requires
            pow2(0) == 1,
    ;
}

/// A bracket of `num / den` by whole numbers is one of `(num * z) / (den * z)`.
proof fn lemma_scaled_bracket(q: int, num: int, den: int, z: int)
    by (nonlinear_arith)
    requires
        z > 0,
        q * den <= num < (q + 1) * den,
    ensures
        q * (den * z) <= num * z < (q + 1) * (den * z),
        (num * z != q * (den * z)) == (num != q * den),
{
}

impl Truth {
    /// Takes a finite number apart.
    fn unpack(self) -> (p: Parts)
        requires
            self@ is Finite,
        ensures
            p.negative == self.sign(),
            p.significand == self.significand(),
            p.scale == self.scale(),
            p.significand < 0x100_0000,
            p.scale <= 253,
            p.scale > 0 ==> p.significand >= 0x80_0000,
            self@ == (Value::Finite {
                negative: p.negative,
                magnitude: p.significand as nat * pow2(p.scale as nat),
            }),
    {
        let exponent: u32 = (self.bits / HIDDEN_BIT) % 0x100;
        let fraction: u32 = self.bits % HIDDEN_BIT;
        if exponent == 0 {
            Parts { negative: self.bits >= SIGN_BIT, significand: fraction, scale: 0 }
        } else {
            Parts {
                negative: self.bits >= SIGN_BIT,
                significand: HIDDEN_BIT + fraction,
                scale: exponent - 1,
            }
        }
    }

    /// The sum of two numbers, as `+` on binary32 yields it.
    pub fn plus(self, rhs: Truth) -> (t: Truth)
        ensures
            t@ == self@.plus(rhs@),
            t@ is Nan ==> t.bits == NAN_BITS,
    {
        if self.is_nan() || rhs.is_nan() {
            return Truth::nan();
        }
        if self.is_infinite() {
            if rhs.is_infinite() && self.is_sign_negative() != rhs.is_sign_negative() {
                return Truth::nan();
            }
            return self;
        }
        if rhs.is_infinite() {
            return rhs;
        }
        let a = self.unpack();
        let b = rhs.unpack();
        if a.scale >= b.scale {
            add_finite(a, b)
        } else {
            add_finite(b, a)
        }
    }

    /// The difference of two numbers, as `-` on binary32 yields it.
    pub fn minus(self, rhs: Truth) -> (t: Truth)
        ensures
            t@ == self@.minus(rhs@),
            t@ is Nan ==> t.bits == NAN_BITS,
    {
        self.plus(rhs.negated())
    }

    /// The product of two numbers, as `*` on binary32 yields it.
    pub fn times(self, rhs: Truth) -> (t: Truth)
        ensures
            t@ == self@.times(rhs@),
            t@ is Nan ==> t.bits == NAN_BITS,
    {
        if self.is_nan() || rhs.is_nan() {
            return Truth::nan();
        }
        let negative: bool = self.is_sign_negative() != rhs.is_sign_negative();
        if self.is_infinite() || rhs.is_infinite() {
            if self.is_zero() || rhs.is_zero() {
                return Truth::nan();
            }
            return Truth::infinity(negative);
        }
        let a = self.unpack();
        let b = rhs.unpack();
        let ghost ma: nat = a.significand as nat * pow2(a.scale as nat);
        let ghost mb: nat = b.significand as nat * pow2(b.scale as nat);
        assert(a.significand * b.significand < 0x100_0000 * 0x100_0000) by (nonlinear_arith)
            requires
                a.significand < 0x100_0000,
                b.significand < 0x100_0000,
        ;
        let product: u64 = (a.significand as u64) * (b.significand as u64);
        proof {
            lemma_pow2_adds(a.scale as nat, b.scale as nat);
            let (x, y) = (pow2(a.scale as nat), pow2(b.scale as nat));
            assert(ma * mb == product * (x * y)) by (nonlinear_arith)
                requires
                    ma == a.significand * x,
                    mb == b.significand * y,
                    product == a.significand * b.significand,
            ;
        }
        if product == 0 {
            proof {
                assert(ma * mb == 0) by (nonlinear_arith)
                    requires
                        ma * mb == product * pow2((a.scale + b.scale) as nat),
                        product == 0,
                ;
                lemma_pow2_pos(149);
                lemma_rounded_zero(negative, pow2(149));
            }
            return Truth::zero(negative);
        }
        proof {
            lemma_exact_bracket(product as nat, (a.scale + b.scale) as nat, 149, 26);
            lemma2_to64();
            lemma_pow2_120();
            lemma_pow2_pos(149);
        }
        let sig: u128 = (product as u128) * 0x400_0000;
        round_to_truth(
            negative,
            sig,
            (a.scale + b.scale) as i32 - 175,
            false,
            Ghost(ma * mb),
            Ghost(pow2(149)),
        )
    }

    /// The quotient of two numbers, as `/` on binary32 yields it.
    pub fn over(self, rhs: Truth) -> (t: Truth)
        ensures
            t@ == self@.over(rhs@),
            t@ is Nan ==> t.bits == NAN_BITS,
    {
        if self.is_nan() || rhs.is_nan() {
            return Truth::nan();
        }
        let negative: bool = self.is_sign_negative() != rhs.is_sign_negative();
        if self.is_infinite() {
            if rhs.is_infinite() {
                return Truth::nan();
            }
            return Truth::infinity(negative);
        }
        if rhs.is_infinite() {
            return Truth::zero(negative);
        }
        let a = self.unpack();
        let b = rhs.unpack();
        let ghost ma: nat = a.significand as nat * pow2(a.scale as nat);
        let ghost mb: nat = b.significand as nat * pow2(b.scale as nat);
        proof {
            lemma_pow2_pos(a.scale as nat);
            lemma_pow2_pos(b.scale as nat);
            assert((mb == 0) == (b.significand == 0)) by (nonlinear_arith)
                requires
                    mb == b.significand * pow2(b.scale as nat),
                    pow2(b.scale as nat) > 0,
            ;
            assert((ma == 0) == (a.significand == 0)) by (nonlinear_arith)
                requires
                    ma == a.significand * pow2(a.scale as nat),
                    pow2(a.scale as nat) > 0,
            ;
        }
        if b.significand == 0 {
            if a.significand == 0 {
                return Truth::nan();
            }
            return Truth::infinity(negative);
        }
        if a.significand == 0 {
            proof {
                assert(ma * pow2(149) == 0) by (nonlinear_arith)
                    requires
                        ma == 0,
                ;
                lemma_rounded_zero(negative, mb);
            }
            return Truth::zero(negative);
        }
        let num: u128 = (a.significand as u128) * 0x4_0000_0000_0000;
        let den: u128 = b.significand as u128;
        let q: u128 = num / den;
        let r: u128 = num % den;
        let exp: i32 = a.scale as i32 - b.scale as i32 + 99;
        proof {
            lemma2_to64();
            lemma2_to64_rest();
            lemma_pow2_120();
            lemma_fundamental_div_mod(num as int, den as int);
            lemma_mod_bound(num as int, den as int);
            assert(q * den == den * q) by (nonlinear_arith);
            assert((q + 1) * den == q * den + den) by (nonlinear_arith);
            assert(q >= 0x400_0000) by (nonlinear_arith)
                requires
                    num == q * den + r,
                    r < den,
                    den < 0x100_0000,
                    num >= 0x4_0000_0000_0000,
                    q >= 0,
            ;
            assert(q <= num) by (nonlinear_arith)
                requires
                    num == q * den + r,
                    r >= 0,
                    den >= 1,
                    q >= 0,
            ;
            // both ends of the quotient, scaled to the units of the bracket
            let ep = positive_part(exp as int);
            let en = positive_part(-(exp as int));
            let z = pow2(ep + b.scale as nat);
            assert(ep + b.scale == a.scale + 99 + en);
            lemma_pow2_pos(ep + b.scale as nat);
            lemma_pow2_adds(ep, b.scale as nat);
            lemma_pow2_adds(a.scale as nat, 149);
            lemma_pow2_adds(a.scale as nat + 149, en);
            lemma_pow2_adds(50, a.scale as nat + 99 + en);
            let w = pow2(ep) * mb;
            let y = (ma * pow2(149)) * pow2(en);
            assert(w == den * z) by (nonlinear_arith)
                requires
                    w == pow2(ep) * mb,
                    mb == den * pow2(b.scale as nat),
                    z == pow2(ep) * pow2(b.scale as nat),
            ;
            assert(y == num * z) by (nonlinear_arith)
                requires
                    y == (ma * pow2(149)) * pow2(en),
                    ma == a.significand * pow2(a.scale as nat),
                    num == a.significand * 0x4_0000_0000_0000,
                    (pow2(a.scale as nat) * pow2(149)) * pow2(en) == 0x4_0000_0000_0000 * z,
            ;
            lemma_scaled_bracket(q as int, num as int, den as int, z as int);
        }
        round_to_truth(negative, q, exp, r != 0, Ghost(ma * pow2(149)), Ghost(mb))
    }
}

/// The sum of two finite numbers, the first of which has the greater scale.
fn add_finite(a: Parts, b: Parts) -> (t: Truth)
    requires
        a.significand < 0x100_0000,
        b.significand < 0x100_0000,
        b.scale <= a.scale <= 253,
        a.scale > 0 ==> a.significand >= 0x80_0000,
    ensures
        t@ == (Value::Finite {
            negative: a.negative,
            magnitude: a.significand as nat * pow2(a.scale as nat),
        }).plus(
            Value::Finite {
                negative: b.negative,
                magnitude: b.significand as nat * pow2(b.scale as nat),
            },
        ),
{
    let diff: u32 = a.scale - b.scale;
    let ghost unit: nat = pow2(b.scale as nat);
    let ghost ma: nat = a.significand as nat * pow2(a.scale as nat);
    let ghost mb: nat = b.significand as nat * unit;
    proof {
        lemma2_to64();
        lemma2_to64_rest();
        lemma_pow2_120();
        lemma_pow2_pos(b.scale as nat);
        lemma_pow2_pos(a.scale as nat);
        assert((mb == 0) == (b.significand == 0)) by (nonlinear_arith)
            requires
                mb == b.significand * unit,
                unit > 0,
        ;
    }
    if diff <= 60 {
        let pd: u128 = power_of_two(diff);
        proof {
            lemma_pow2_le(diff as nat, 60);
            assert(a.significand * pd < 0x100_0000 * 0x1000_0000_0000_0000) by (nonlinear_arith)
                requires
                    a.significand < 0x100_0000,
                    0 < pd <= 0x1000_0000_0000_0000,
            ;
        }
        let a_sig: u128 = (a.significand as u128) * pd;
        let b_sig: u128 = b.significand as u128;
        let negative: bool = if a.negative == b.negative || a_sig >= b_sig {
            a.negative
        } else {
            b.negative
        };
        let mag: u128 = if a.negative == b.negative {
            a_sig + b_sig
        } else if a_sig >= b_sig {
            a_sig - b_sig
        } else {
            b_sig - a_sig
        };
        proof {
            lemma_pow2_adds(diff as nat, b.scale as nat);
            assert(ma == a_sig * unit) by (nonlinear_arith)
                requires
                    ma == a.significand * pow2(a.scale as nat),
                    pow2(a.scale as nat) == pd * unit,
                    a_sig == a.significand * pd,
            ;
            assert((a_sig + b_sig) * unit == ma + mb && (a_sig - b_sig) * unit == ma - mb && (b_sig
                - a_sig) * unit == mb - ma) by (nonlinear_arith)
                requires
                    ma == a_sig * unit,
                    mb == b_sig * unit,
            ;
            assert((mag == 0) == (mag * unit == 0) && mag * unit >= 0) by (nonlinear_arith)
                requires
                    unit > 0,
                    mag >= 0,
            ;
        }
        if mag == 0 {
            return Truth::zero(a.negative && b.negative);
        }
        proof {
            lemma_exact_bracket(mag as nat, b.scale as nat, 0, 26);
        }
        let sig: u128 = mag * 0x400_0000;
        round_to_truth(
            negative,
            sig,
            b.scale as i32 - 26,
            false,
            Ghost(mag as nat * unit),
            Ghost(1),
        )
    } else {
        let a_sig: u128 = (a.significand as u128) * 0x20_0000_0000;
        let exp: i32 = a.scale as i32 - 37;
        let ghost w: nat = pow2(exp as nat);
        proof {
            lemma_pow2_adds(37, exp as nat);
            lemma_pow2_pos(exp as nat);
            assert(ma == a_sig * w) by (nonlinear_arith)
                requires
                    ma == a.significand * pow2(a.scale as nat),
                    pow2(a.scale as nat) == 0x20_0000_0000 * w,
                    a_sig == a.significand * 0x20_0000_0000,
            ;
            lemma_pow2_adds(24, b.scale as nat);
            lemma_pow2_le(24 + b.scale as nat, exp as nat);
            assert(mb < w) by (nonlinear_arith)
                requires
                    mb == b.significand * unit,
                    b.significand < 0x100_0000,
                    unit > 0,
                    0x100_0000 * unit <= w,
            ;
            assert((a_sig + 1) * w == ma + w && (a_sig - 1) * w == ma - w) by (nonlinear_arith)
                requires
                    ma == a_sig * w,
            ;
            assert(ma >= w) by (nonlinear_arith)
                requires
                    ma == a_sig * w,
                    a_sig >= 1,
                    w > 0,
            ;
        }
        if b.significand == 0 || a.negative == b.negative {
            proof {
                lemma_whole_bracket(a_sig as nat, exp as nat, b.significand != 0, ma + mb);
            }
            round_to_truth(a.negative, a_sig, exp, b.significand != 0, Ghost(ma + mb), Ghost(1))
        } else {
            proof {
                lemma_whole_bracket((a_sig - 1) as nat, exp as nat, true, (ma - mb) as nat);
            }
            round_to_truth(a.negative, a_sig - 1, exp, true, Ghost((ma - mb) as nat), Ghost(1))
        }
    }
}

} // verus!
