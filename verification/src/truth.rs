//! The scalar type of the library and the number that each bit pattern denotes.
use vstd::arithmetic::mul::{lemma_mul_inequality, lemma_mul_strict_inequality};
use vstd::arithmetic::power2::{
    lemma2_to64, lemma_pow2_adds, lemma_pow2_pos, lemma_pow2_strictly_increases,
    lemma_pow2_unfold, pow2,
};
use vstd::prelude::*;

verus! {

/// What a binary32 bit pattern stands for.
///
/// A finite number is kept as a sign and a magnitude counted in units of
/// 2^-149, the smallest positive binary32 number, so that every finite
/// binary32 number has a whole magnitude. Zero keeps its sign.
pub enum Value {
    Nan,
    Infinite { negative: bool },
    Finite { negative: bool, magnitude: nat },
}

impl Value {
    /// The number one.
    pub open spec fn one() -> Value {
        Value::Finite { negative: false, magnitude: pow2(149) }
    }

    /// The number two.
    pub open spec fn two() -> Value {
        Value::Finite { negative: false, magnitude: pow2(150) }
    }

    /// The number itself, in units of 2^-149; zero for what is not a number
    /// or not finite.
    pub open spec fn signed(self) -> int {
        match self {
            Value::Finite { negative, magnitude } => if negative {
                -(magnitude as int)
            } else {
                magnitude as int
            },
            _ => 0,
        }
    }

    /// The strict order of the numbers: `self > other`. Nothing is greater
    /// or less than a NaN, and the two zeros are equal.
    pub open spec fn gt(self, other: Value) -> bool {
        match (self, other) {
            (Value::Nan, _) => false,
            (_, Value::Nan) => false,
            (Value::Infinite { negative: n1 }, Value::Infinite { negative: n2 }) => !n1 && n2,
            (Value::Infinite { negative }, Value::Finite { .. }) => !negative,
            (Value::Finite { .. }, Value::Infinite { negative }) => negative,
            (Value::Finite { .. }, Value::Finite { .. }) => self.signed() > other.signed(),
        }
    }

    /// The same number with the opposite sign.
    pub open spec fn negated(self) -> Value {
        match self {
            Value::Nan => Value::Nan,
            Value::Infinite { negative } => Value::Infinite { negative: !negative },
            Value::Finite { negative, magnitude } => Value::Finite { negative: !negative, magnitude },
        }
    }
}

/// A degree of truth: a binary32 number given by its 32 bits, from the top
/// one sign bit, eight exponent bits and twenty-three fraction bits.
///
/// Degrees of truth conventionally lie between zero and one, but no range is
/// enforced: every bit pattern is a `Truth`.
#[derive(Clone, Copy, Debug)]
pub struct Truth {
    pub bits: u32,
}

/// The sign bit alone: the negative zero.
pub const SIGN_BIT: u32 = 0x8000_0000;

/// The leading bit of a normal significand, which the bits do not hold.
pub const HIDDEN_BIT: u32 = 0x80_0000;

/// The bits of positive infinity.
pub const INFINITY_BITS: u32 = 0x7f80_0000;

/// The bits of the NaN that the arithmetic yields.
pub const NAN_BITS: u32 = 0x7fc0_0000;

/// The bits of the number one.
pub const ONE_BITS: u32 = 0x3f80_0000;

/// The bits of the number two.
pub const TWO_BITS: u32 = 0x4000_0000;

impl View for Truth {
    type V = Value;

    open spec fn view(&self) -> Value {
        if self.exponent() == 255 {
            if self.fraction() == 0 {
                Value::Infinite { negative: self.sign() }
            } else {
                Value::Nan
            }
        } else {
            Value::Finite { negative: self.sign(), magnitude: self.magnitude() }
        }
    }
}

impl Truth {
    /// The sign bit.
    pub open spec fn sign(self) -> bool {
        self.bits >= 0x8000_0000
    }

    /// The eight exponent bits, as a number.
    pub open spec fn exponent(self) -> nat {
        ((self.bits / 0x80_0000) % 0x100) as nat
    }

    /// The twenty-three fraction bits, as a number.
    pub open spec fn fraction(self) -> nat {
        (self.bits % 0x80_0000) as nat
    }

    /// The bits without the sign bit.
    pub open spec fn unsigned_bits(self) -> nat {
        (self.bits % 0x8000_0000) as nat
    }

    /// The fraction with the hidden leading bit of a normal number.
    pub open spec fn significand(self) -> nat {
        if self.exponent() == 0 {
            self.fraction()
        } else {
            0x80_0000 + self.fraction()
        }
    }

    /// The power of two by which the significand counts units of 2^-149.
    pub open spec fn scale(self) -> nat {
        if self.exponent() == 0 {
            0
        } else {
            (self.exponent() - 1) as nat
        }
    }

    /// The absolute value in units of 2^-149.
    pub open spec fn magnitude(self) -> nat {
        self.significand() * pow2(self.scale())
    }

    /// The degree of truth with the given bits.
    pub fn from_bits(bits: u32) -> (t: Truth)
        ensures
            t.bits == bits,
    {
        Truth { bits }
    }

    /// The bits of the degree of truth.
    pub fn to_bits(self) -> (bits: u32)
        ensures
            bits == self.bits,
    {
        self.bits
    }

    /// The NaN that the arithmetic yields where there is no number to yield.
    pub fn nan() -> (t: Truth)
        ensures
            t@ is Nan,
            t.bits == NAN_BITS,
    {
        Truth { bits: NAN_BITS }
    }

    /// Infinity with the given sign.
    pub fn infinity(negative: bool) -> (t: Truth)
        ensures
            t@ == (Value::Infinite { negative }),
    {
        if negative {
            Truth { bits: SIGN_BIT + INFINITY_BITS }
        } else {
            Truth { bits: INFINITY_BITS }
        }
    }

    /// Zero with the given sign.
    pub fn zero(negative: bool) -> (t: Truth)
        ensures
            t@ == (Value::Finite { negative, magnitude: 0 }),
    {
        let t = if negative {
            Truth { bits: SIGN_BIT }
        } else {
            Truth { bits: 0 }
        };
        proof {
            lemma_fields(t);
        }
        t
    }

    /// The number one.
    pub fn one() -> (t: Truth)
        ensures
            t@ == Value::one(),
            t.bits == ONE_BITS,
    {
        proof {
            lemma_one();
        }
        Truth { bits: ONE_BITS }
    }

    /// The number two.
    pub fn two() -> (t: Truth)
        ensures
            t@ == Value::two(),
            t.bits == TWO_BITS,
    {
        let t = Truth { bits: TWO_BITS };
        proof {
            lemma2_to64();
            lemma_pow2_adds(23, 127);
            assert(t.exponent() == 128);
            assert(t.fraction() == 0);
        }
        t
    }

    /// Whether the bits denote no number.
    pub fn is_nan(self) -> (r: bool)
        ensures
            r == (self@ is Nan),
    {
        self.bits % SIGN_BIT > INFINITY_BITS
    }

    /// Whether the number is one of the two infinities.
    pub fn is_infinite(self) -> (r: bool)
        ensures
            r == (self@ is Infinite),
    {
        self.bits % SIGN_BIT == INFINITY_BITS
    }

    /// Whether the bits denote a finite number.
    pub fn is_finite(self) -> (r: bool)
        ensures
            r == (self@ is Finite),
    {
        self.bits % SIGN_BIT < INFINITY_BITS
    }

    /// Whether the sign bit is set.
    pub fn is_sign_negative(self) -> (r: bool)
        ensures
            r == self.sign(),
    {
        self.bits >= SIGN_BIT
    }

    /// Whether the number is zero, of either sign.
    pub fn is_zero(self) -> (r: bool)
        ensures
            r == (self@ matches Value::Finite { magnitude, .. } && magnitude == 0),
    {
        proof {
            lemma_fields(self);
            lemma_fields(Truth { bits: 0 });
            lemma_magnitude_order_iff(Truth { bits: 0 }, self);
        }
        self.bits % SIGN_BIT == 0
    }

    /// The same number with the opposite sign: the bits with the sign bit
    /// turned over.
    pub fn negated(self) -> (t: Truth)
        ensures
            t@ == self@.negated(),
            t.unsigned_bits() == self.unsigned_bits(),
            t.sign() != self.sign(),
    {
        if self.bits >= SIGN_BIT {
            Truth { bits: self.bits - SIGN_BIT }
        } else {
            Truth { bits: self.bits + SIGN_BIT }
        }
    }

    /// The number's place in the order of all binary32 numbers: the bits
    /// without the sign, counted downwards from zero for a negative number.
    fn order_key(self) -> (k: i64)
        ensures
            k == if self.sign() {
                -(self.unsigned_bits() as int)
            } else {
                self.unsigned_bits() as int
            },
    {
        let low: u32 = self.bits % SIGN_BIT;
        if self.bits >= SIGN_BIT {
            -(low as i64)
        } else {
            low as i64
        }
    }

    /// Whether `self` is the greater number, as `>` on binary32 decides it.
    pub fn gt(self, other: Truth) -> (r: bool)
        ensures
            r == self@.gt(other@),
    {
        if self.is_nan() || other.is_nan() {
            return false;
        }
        proof {
            lemma_fields(self);
            lemma_fields(other);
            lemma_magnitude_order_iff(self, other);
            lemma_magnitude_order_iff(other, self);
            lemma_magnitude_order_iff(Truth { bits: 0 }, self);
            lemma_magnitude_order_iff(Truth { bits: 0 }, other);
            lemma_fields(Truth { bits: 0 });
        }
        self.order_key() > other.order_key()
    }
}

/// The number that an optional degree of truth denotes, if there is one.
pub open spec fn denoted(r: Option<Truth>) -> Option<Value> {
    match r {
        Some(t) => Some(t@),
        None => None,
    }
}

/// A finite number as it is, and nothing for what is not finite.
pub open spec fn finite_or_none(v: Value) -> Option<Value> {
    if v is Finite {
        Some(v)
    } else {
        None
    }
}

/// A number, with the sign of its zero, has one bit pattern only. Only the
/// NaNs share what they denote.
pub proof fn lemma_view_settles_bits(a: Truth, b: Truth)
    requires
        !(a@ is Nan),
        a@ == b@,
    ensures
        a == b,
{
    lemma_fields(a);
    lemma_fields(b);
    lemma_magnitude_order_iff(a, b);
}

/// How the bits are made of the three fields, and which bits denote what.
pub proof fn lemma_fields(t: Truth)
    ensures
        t.exponent() < 256,
        t.fraction() < 0x80_0000,
        t.unsigned_bits() == t.exponent() * 0x80_0000 + t.fraction(),
        t.bits == t.unsigned_bits() + (if t.sign() {
            0x8000_0000int
        } else {
            0
        }),
        (t@ is Finite) == (t.unsigned_bits() < 0x7f80_0000),
        (t@ is Infinite) == (t.unsigned_bits() == 0x7f80_0000),
        (t@ is Nan) == (t.unsigned_bits() > 0x7f80_0000),
        t.exponent() == 0 && t.fraction() == 0 ==> t.magnitude() == 0,
{
    if t.exponent() == 0 && t.fraction() == 0 {
        assert(t.magnitude() == 0 * pow2(0));
    }
}

/// The bits of the number one denote it.
pub proof fn lemma_one()
    ensures
        (Truth { bits: ONE_BITS })@ == Value::one(),
        (Truth { bits: ONE_BITS }).magnitude() == pow2(149),
{
    let t = Truth { bits: ONE_BITS };
    lemma2_to64();
    lemma_pow2_adds(23, 126);
    assert(t.exponent() == 127);
    assert(t.fraction() == 0);
}

/// Among the bit patterns without a sign, the order of the patterns is the
/// order of the magnitudes.
pub proof fn lemma_magnitude_order_iff(a: Truth, b: Truth)
    ensures
        a.unsigned_bits() < b.unsigned_bits() <==> a.magnitude() < b.magnitude(),
        a.unsigned_bits() == b.unsigned_bits() <==> a.magnitude() == b.magnitude(),
{
    lemma_fields(a);
    lemma_fields(b);
    if a.unsigned_bits() < b.unsigned_bits() {
        lemma_magnitude_order(a, b);
    }
    if b.unsigned_bits() < a.unsigned_bits() {
        lemma_magnitude_order(b, a);
    }
}

/// Among the bit patterns without a sign, a greater pattern has a greater
/// magnitude.
proof fn lemma_magnitude_order(a: Truth, b: Truth)
    requires
        a.unsigned_bits() < b.unsigned_bits(),
    ensures
        a.magnitude() < b.magnitude(),
{
    lemma_fields(a);
    lemma_fields(b);
    let (ea, eb) = (a.exponent(), b.exponent());
    let (fa, fb) = (a.fraction(), b.fraction());
    assert(ea < eb || (ea == eb && fa < fb));
    lemma_scaled_order(a.significand(), a.scale(), b.significand(), b.scale());
}

/// A significand at a scale is less than a greater one at the same scale,
/// and less than any normal one at a greater scale.
proof fn lemma_scaled_order(ka: nat, ja: nat, kb: nat, jb: nat)
    requires
        ka < 0x100_0000,
        ja <= jb,
        ja == jb ==> ka < kb,
        ja < jb ==> kb >= 0x80_0000,
    ensures
        ka * pow2(ja) < kb * pow2(jb),
{
    lemma_pow2_pos(ja);
    lemma_pow2_pos(jb);
    if ja == jb {
        lemma_mul_strict_inequality(ka as int, kb as int, pow2(ja) as int);
    } else {
        lemma_pow2_unfold(ja + 1);
        if ja + 1 < jb {
            lemma_pow2_strictly_increases(ja + 1, jb);
        }
        // ka * 2^ja < 2^24 * 2^ja == 2^23 * 2^(ja+1) <= 2^23 * 2^jb <= kb * 2^jb
        lemma_mul_strict_inequality(ka as int, 0x100_0000, pow2(ja) as int);
        lemma_mul_inequality(pow2(ja + 1) as int, pow2(jb) as int, 0x80_0000);
        lemma_mul_inequality(0x80_0000, kb as int, pow2(jb) as int);
    }
}

} // verus!
