//! Double-precision numbers as bit patterns.
//!
//! A [`Double`] holds the 64 bits of an IEEE 754 binary64 number. Every finite
//! number of that format is a whole multiple of two to the power -1074, the
//! smallest positive one, so a specification can speak of its value as an
//! integer: the number of such steps.
use vstd::arithmetic::power2::*;
use vstd::prelude::*;

verus! {

/// Two to the power 52: the weight of the exponent field's lowest bit.
pub const HIDDEN: u64 = 0x10_0000_0000_0000;

/// The sign bit.
pub const SIGN: u64 = 0x8000_0000_0000_0000;

/// The pattern of positive infinity.
pub const INFINITE: u64 = 0x7ff0_0000_0000_0000;

/// The pattern that stands for every result that is not a number.
pub const QUIET_NAN: u64 = 0x7ff8_0000_0000_0000;

/// How many powers of two the smallest positive number lies below one.
pub const UNIT_SHIFT: u32 = 1074;

/// A double-precision number, held as its bit pattern.
///
/// `==` compares patterns. Use [`Double::equals`] to compare values.
#[derive(Clone, Copy, Debug, PartialEq, Eq, Structural)]
pub struct Double {
    pub bits: u64,
}

/// The significand of an unsigned pattern, with its implicit leading bit.
pub open spec fn pattern_significand(p: nat) -> nat {
    if p < HIDDEN {
        p
    } else {
        (HIDDEN + p % (HIDDEN as nat)) as nat
    }
}

/// The number of steps that one unit of the significand weighs, as a power of two.
pub open spec fn pattern_shift(p: nat) -> nat {
    if p < HIDDEN {
        0
    } else {
        (p / (HIDDEN as nat) - 1) as nat
    }
}

/// The absolute value that an unsigned pattern stands for, in steps of two to
/// the power -1074. The pattern of infinity stands for two to the power 1024.
pub open spec fn pattern_magnitude(p: nat) -> nat {
    pattern_significand(p) * pow2(pattern_shift(p))
}

/// The value one, in steps.
pub open spec fn one_step() -> nat {
    pow2(UNIT_SHIFT as nat)
}

impl Double {
    /// The pattern without its sign bit.
    pub open spec fn pattern(self) -> nat {
        (self.bits % SIGN) as nat
    }

    pub open spec fn negative(self) -> bool {
        self.bits >= SIGN
    }

    pub open spec fn nan(self) -> bool {
        self.pattern() > INFINITE
    }

    pub open spec fn infinite(self) -> bool {
        self.pattern() == INFINITE
    }

    pub open spec fn finite(self) -> bool {
        self.pattern() < INFINITE
    }

    pub open spec fn significand(self) -> nat {
        pattern_significand(self.pattern())
    }

    pub open spec fn shift(self) -> nat {
        pattern_shift(self.pattern())
    }

    /// The absolute value in steps.
    pub open spec fn magnitude(self) -> nat {
        pattern_magnitude(self.pattern())
    }

    /// The value in steps.
    pub open spec fn value(self) -> int {
        if self.negative() {
            -(self.magnitude() as int)
        } else {
            self.magnitude() as int
        }
    }

    /// Numeric equality: a number that is not a number equals nothing, and the
    /// two zeros are equal.
    pub open spec fn same(self, other: Double) -> bool {
        !self.nan() && !other.nan() && self.value() == other.value()
    }

    /// Numeric order; false wherever one side is not a number.
    pub open spec fn less(self, other: Double) -> bool {
        !self.nan() && !other.nan() && self.value() < other.value()
    }

    /// `less` or `same`.
    pub open spec fn at_most(self, other: Double) -> bool {
        !self.nan() && !other.nan() && self.value() <= other.value()
    }
}

/// A larger unsigned pattern stands for a larger number.
pub proof fn lemma_magnitude_increases(p: nat, q: nat)
    requires
        p < q <= INFINITE,
    ensures
        pattern_magnitude(p) < pattern_magnitude(q),
{
    lemma2_to64_rest();
    lemma2_to64();
    let a = pattern_significand(p);
    let b = pattern_significand(q);
    let i = pattern_shift(p);
    let j = pattern_shift(q);
    assert(a < 2 * HIDDEN);
    assert(i <= j);
    lemma_pow2_pos(i);
    lemma_pow2_pos(j);
    if i == j {
        assert(a < b);
        assert(a * pow2(i) < b * pow2(i)) by (nonlinear_arith)
            requires
                a < b,
                pow2(i) > 0,
        ;
    } else {
        assert(b >= HIDDEN);
        lemma_pow2_adds(1, (j - 1) as nat);
        if i < j - 1 {
            lemma_pow2_strictly_increases(i, (j - 1) as nat);
        }
        let u = pow2((j - 1) as nat);
        lemma_pow2_pos((j - 1) as nat);
        assert(a * pow2(i) <= a * u) by (nonlinear_arith)
            requires
                pow2(i) <= u,
        ;
        assert(a * u < b * pow2(j)) by (nonlinear_arith)
            requires
                a < 2 * HIDDEN,
                b >= HIDDEN,
                u > 0,
                pow2(j) == 2 * u,
        ;
    }
}

/// The magnitude is zero for the zero pattern alone.
pub proof fn lemma_magnitude_zero(p: nat)
    requires
        p <= INFINITE,
    ensures
        pattern_magnitude(p) == 0 <==> p == 0,
{
    assert(pattern_magnitude(0) == 0) by (nonlinear_arith)
        requires
            pattern_significand(0) == 0,
            pattern_magnitude(0) == pattern_significand(0) * pow2(pattern_shift(0)),
    ;
    if p > 0 {
        lemma_magnitude_increases(0, p);
    }
}

impl Double {
    /// Two numbers compare by value as their patterns compare.
    pub proof fn lemma_order(self, other: Double)
        requires
            !self.nan(),
            !other.nan(),
        ensures
            self.pattern() < other.pattern() <==> self.magnitude() < other.magnitude(),
            self.pattern() == other.pattern() <==> self.magnitude() == other.magnitude(),
            self.magnitude() == 0 <==> self.pattern() == 0,
            other.magnitude() == 0 <==> other.pattern() == 0,
    {
        lemma_magnitude_zero(self.pattern());
        lemma_magnitude_zero(other.pattern());
        if self.pattern() < other.pattern() {
            lemma_magnitude_increases(self.pattern(), other.pattern());
        } else if other.pattern() < self.pattern() {
            lemma_magnitude_increases(other.pattern(), self.pattern());
        }
    }

    pub fn from_bits(bits: u64) -> (r: Double)
        ensures
            r.bits == bits,
    {
        Double { bits }
    }

    pub fn to_bits(self) -> (r: u64)
        ensures
            r == self.bits,
    {
        self.bits
    }

    pub fn is_nan(self) -> (r: bool)
        ensures
            r == self.nan(),
    {
        self.bits % SIGN > INFINITE
    }

    pub fn is_infinite(self) -> (r: bool)
        ensures
            r == self.infinite(),
    {
        self.bits % SIGN == INFINITE
    }

    pub fn is_negative(self) -> (r: bool)
        ensures
            r == self.negative(),
    {
        self.bits >= SIGN
    }

    /// The significand and the power of two that its lowest digit weighs.
    pub(crate) fn unpack(self) -> (r: (u128, i32))
        requires
            !self.nan(),
        ensures
            r.0 == self.significand(),
            r.1 == self.shift(),
            r.0 < 2 * HIDDEN,
            0 <= r.1 <= 2046,
            self.finite() ==> r.1 <= 2045,
            r.1 > 0 ==> r.0 >= HIDDEN,
    {
        let p: u64 = self.bits % SIGN;
        if p < HIDDEN {
            (p as u128, 0)
        } else {
            ((HIDDEN + p % HIDDEN) as u128, (p / HIDDEN - 1) as i32)
        }
    }

    /// Numeric equality.
    pub fn equals(self, other: Double) -> (r: bool)
        ensures
            r == self.same(other),
    {
        if self.is_nan() || other.is_nan() {
            return false;
        }
        proof {
            self.lemma_order(other);
        }
        let p: u64 = self.bits % SIGN;
        let q: u64 = other.bits % SIGN;
        p == q && (p == 0 || (self.bits >= SIGN) == (other.bits >= SIGN))
    }

    /// Whether this number is less than `other`.
    pub fn is_less(self, other: Double) -> (r: bool)
        ensures
            r == self.less(other),
    {
        if self.is_nan() || other.is_nan() {
            return false;
        }
        proof {
            self.lemma_order(other);
        }
        let p: u64 = self.bits % SIGN;
        let q: u64 = other.bits % SIGN;
        if self.bits >= SIGN {
            if other.bits >= SIGN {
                q < p
            } else {
                p != 0 || q != 0
            }
        } else if other.bits >= SIGN {
            false
        } else {
            p < q
        }
    }

    /// Whether this number is less than or equal to `other`.
    pub fn is_at_most(self, other: Double) -> (r: bool)
        ensures
            r == self.at_most(other),
    {
        self.is_less(other) || self.equals(other)
    }

    /// The number with its sign turned over.
    pub open spec fn opposite(self) -> Double {
        Double {
            bits: if self.bits >= SIGN {
                (self.bits - SIGN) as u64
            } else {
                (self.bits + SIGN) as u64
            },
        }
    }

    pub fn negate(self) -> (r: Double)
        ensures
            r == self.opposite(),
    {
        if self.bits >= SIGN {
            Double { bits: self.bits - SIGN }
        } else {
            Double { bits: self.bits + SIGN }
        }
    }

    /// Negation keeps the absolute value and turns the value over.
    pub proof fn lemma_opposite(self)
        ensures
            self.opposite().pattern() == self.pattern(),
            self.opposite().negative() == !self.negative(),
            self.opposite().value() == -self.value(),
            self.opposite().opposite() == self,
    {
    }
}

} // verus!
