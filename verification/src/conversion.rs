//! Whole numbers and doubles, and the order of doubles.
use crate::double::{lemma_magnitude_zero, one_step, Double, HIDDEN, SIGN, UNIT_SHIFT};
use crate::rounding::{
    lemma_nearest_significand, lemma_pow2_127, lemma_pow2_increases, lemma_rounded_exact,
    lemma_rounded_magnitude, lemma_spacing_exists, nearest_pattern, power_of_two, round_bracketed,
    rounded, spacing,
};
use vstd::arithmetic::div_mod::*;
use vstd::arithmetic::power2::*;
use vstd::prelude::*;

verus! {

/// The double nearest to plus or minus the whole number `k`.
pub open spec fn whole(negative: bool, k: nat) -> Double {
    rounded(negative, k * one_step(), 1)
}

impl Double {
    /// The absolute value with its fraction cut off.
    pub open spec fn floor_magnitude(self) -> nat {
        self.magnitude() / one_step()
    }

    /// Whether the number has a fraction.
    pub open spec fn has_fraction(self) -> bool {
        self.magnitude() % one_step() != 0
    }

    /// Whether the fraction of the absolute value is one half or more.
    pub open spec fn fraction_is_half(self) -> bool {
        2 * (self.magnitude() % one_step()) >= one_step()
    }

    /// The absolute value as a whole number, halves going up.
    pub open spec fn round_magnitude(self) -> nat {
        if self.fraction_is_half() {
            self.floor_magnitude() + 1
        } else {
            self.floor_magnitude()
        }
    }

    /// The whole number nearest to this one, halves going away from zero.
    pub open spec fn rounded_whole(self) -> Double {
        if self.finite() {
            whole(self.negative(), self.round_magnitude())
        } else {
            self
        }
    }

    /// The largest whole number that is not above this one.
    pub open spec fn floor_whole(self) -> Double {
        if !self.finite() {
            self
        } else if self.negative() && self.has_fraction() {
            whole(true, self.floor_magnitude() + 1)
        } else {
            whole(self.negative(), self.floor_magnitude())
        }
    }

    /// The smallest whole number that is not below this one.
    pub open spec fn ceil_whole(self) -> Double {
        if !self.finite() {
            self
        } else if !self.negative() && self.has_fraction() {
            whole(false, self.floor_magnitude() + 1)
        } else {
            whole(self.negative(), self.floor_magnitude())
        }
    }

    /// The number as an unsigned integer no larger than `max`: its fraction is
    /// cut off, a number outside the range gives the nearer end of it, and what
    /// is not a number gives zero.
    pub open spec fn saturated(self, max: nat) -> nat {
        if self.nan() || self.negative() {
            0
        } else if self.floor_magnitude() > max {
            max
        } else {
            self.floor_magnitude()
        }
    }

    /// The number as a signed 64-bit integer, cut off and saturated as
    /// [`Double::saturated`] does.
    pub open spec fn saturated_i64(self) -> int {
        if self.nan() {
            0
        } else if self.negative() {
            if self.floor_magnitude() > 0x8000_0000_0000_0000 {
                -0x8000_0000_0000_0000
            } else {
                -(self.floor_magnitude() as int)
            }
        } else if self.floor_magnitude() > 0x7fff_ffff_ffff_ffff {
            0x7fff_ffff_ffff_ffff
        } else {
            self.floor_magnitude() as int
        }
    }
}

/// Dividing a scaled number by a scaled divisor.
proof fn lemma_scaled_division(m: nat, p: nat, c: nat)
    requires
        p > 0,
        c > 0,
    ensures
        (m * c) / (p * c) == m / p,
        (m * c) % (p * c) == (m % p) * c,
{
    let q = m / p;
    let r = m % p;
    lemma_fundamental_div_mod(m as int, p as int);
    lemma_mod_bound(m as int, p as int);
    assert(m * c == q * (p * c) + r * c) by (nonlinear_arith)
        requires
            m == p * q + r,
    ;
    assert(0 <= r * c < p * c) by (nonlinear_arith)
        requires
            0 <= r < p,
            c > 0,
    ;
    lemma_fundamental_div_mod_converse((m * c) as int, (p * c) as int, q as int, (r * c) as int);
}

/// The whole part and the fraction of a number below two to the power 53.
proof fn lemma_small_parts(x: Double, k: nat)
    requires
        x.shift() + k == UNIT_SHIFT,
    ensures
        x.floor_magnitude() == x.significand() / pow2(k),
        x.has_fraction() == (x.significand() % pow2(k) != 0),
        x.fraction_is_half() == (2 * (x.significand() % pow2(k)) >= pow2(k)),
        pow2(k) > 0,
{
    let p = pow2(k);
    let c = pow2(x.shift());
    lemma_pow2_pos(k);
    lemma_pow2_pos(x.shift());
    lemma_pow2_adds(k, x.shift());
    lemma_scaled_division(x.significand(), p, c);
    let r = x.significand() % p;
    assert((r * c == 0) == (r == 0)) by (nonlinear_arith)
        requires
            c > 0,
    ;
    assert(2 * (r * c) >= p * c <==> 2 * r >= p) by (nonlinear_arith)
        requires
            c > 0,
    ;
}

/// A number from two to the power 53 on is whole.
proof fn lemma_large_parts(x: Double, k: nat)
    requires
        x.shift() == UNIT_SHIFT + k,
    ensures
        x.floor_magnitude() == x.significand() * pow2(k),
        !x.has_fraction(),
        !x.fraction_is_half(),
        x.magnitude() == x.floor_magnitude() * one_step(),
{
    let p = pow2(k);
    let c = one_step();
    lemma_pow2_pos(UNIT_SHIFT as nat);
    lemma_pow2_adds(k, UNIT_SHIFT as nat);
    let m = x.significand();
    assert(m * (p * c) == (m * p) * c) by (nonlinear_arith);
    lemma_fundamental_div_mod_converse(x.magnitude() as int, c as int, (m * p) as int, 0);
}

/// A whole number below two to the power 53 is represented exactly.
pub proof fn lemma_whole_exact(negative: bool, k: nat)
    requires
        k < 2 * HIDDEN,
    ensures
        whole(negative, k).finite(),
        whole(negative, k).magnitude() == k * one_step(),
        whole(negative, k).negative() == negative,
{
    reveal(nearest_pattern);
    let n = k * one_step();
    let s = spacing(n, 1);
    lemma_spacing_exists(n, 1);
    lemma2_to64_rest();
    lemma_pow2_adds(53, UNIT_SHIFT as nat);
    lemma_pow2_pos(UNIT_SHIFT as nat);
    assert(n < pow2(53 + UNIT_SHIFT as nat)) by (nonlinear_arith)
        requires
            n == k * one_step(),
            k < 2 * HIDDEN,
            one_step() > 0,
            pow2(53 + UNIT_SHIFT as nat) == (2 * HIDDEN) * one_step(),
    ;
    if s > UNIT_SHIFT {
        lemma_pow2_increases(53 + UNIT_SHIFT as nat, 52 + s);
        assert(1 * pow2(52 + s) == pow2(52 + s));
    }
    let c = pow2((UNIT_SHIFT - s) as nat);
    lemma_pow2_adds((UNIT_SHIFT - s) as nat, s);
    lemma_pow2_pos(s);
    let v = pow2(s);
    let q = k * c;
    assert(n == q * v) by (nonlinear_arith)
        requires
            n == k * (c * v),
            q == k * c,
    ;
    assert(1 * v == v);
    lemma_fundamental_div_mod_converse(n as int, v as int, q as int, 0);
    lemma_rounded_magnitude(n, 1);
    lemma_nearest_significand(n, 1, s);
}

/// Whole numbers below two to the power 53 keep their value and order.
pub proof fn lemma_whole_parts(negative: bool, k: nat)
    requires
        k < 2 * HIDDEN,
    ensures
        whole(negative, k).floor_magnitude() == k,
        !whole(negative, k).has_fraction(),
        whole(negative, k).round_magnitude() == k,
{
    lemma_whole_exact(negative, k);
    lemma_pow2_pos(UNIT_SHIFT as nat);
    lemma_fundamental_div_mod_converse(
        (k * one_step()) as int,
        one_step() as int,
        k as int,
        0,
    );
}

impl Double {
    /// The double nearest to plus or minus `k`.
    fn from_whole(negative: bool, k: u64) -> (r: Double)
        ensures
            r == whole(negative, k as nat),
    {
        let ghost n = k as nat * one_step();
        if k == 0 {
            proof {
                assert(n == 0) by (nonlinear_arith)
                    requires
                        n == 0 * one_step(),
                ;
                lemma_magnitude_zero(0);
                lemma_rounded_exact(n, 1, 0);
            }
            if negative {
                return Double { bits: SIGN };
            }
            return Double { bits: 0 };
        }
        proof {
            lemma_pow2_127();
            lemma_pow2_pos(UNIT_SHIFT as nat);
            let e = one_step();
            assert((k + 1) * e == k * e + e) by (nonlinear_arith);
            assert(1 * e == e);
        }
        round_bracketed(negative, k as u128, UNIT_SHIFT as i32, false, Ghost(n), Ghost(1))
    }

    /// The double nearest to `k`.
    pub fn from_u64(k: u64) -> (r: Double)
        ensures
            r == whole(false, k as nat),
    {
        Self::from_whole(false, k)
    }

    /// The whole part of the absolute value, whether there is a fraction and
    /// whether that is one half or more. `None` from two to the power 53 on.
    fn small_parts(self) -> (r: Option<(u64, bool, bool)>)
        requires
            self.finite(),
        ensures
            r matches Some(parts) ==> {
                &&& parts.0 == self.floor_magnitude()
                &&& parts.1 == self.has_fraction()
                &&& parts.2 == self.fraction_is_half()
                &&& parts.0 < 2 * HIDDEN
            },
            r is None <==> self.shift() > UNIT_SHIFT,
            r is None ==> {
                &&& self == whole(self.negative(), self.floor_magnitude())
                &&& !self.has_fraction()
                &&& !self.fraction_is_half()
            },
    {
        let (m, e) = self.unpack();
        if e > UNIT_SHIFT as i32 {
            proof {
                lemma_large_parts(self, (e - UNIT_SHIFT) as nat);
                let n = self.floor_magnitude() * one_step();
                assert(n == 1 * self.magnitude());
                lemma_rounded_exact(n, 1, self.pattern());
            }
            return None;
        }
        let k: i32 = UNIT_SHIFT as i32 - e;
        proof {
            lemma_small_parts(self, k as nat);
            lemma2_to64_rest();
            lemma2_to64();
        }
        if k >= 64 {
            proof {
                lemma_pow2_increases(64, k as nat);
                lemma_fundamental_div_mod_converse(m as int, pow2(k as nat) as int, 0, m as int);
            }
            return Some((0, m != 0, false));
        }
        let p: u128 = power_of_two(k as u32);
        proof {
            lemma_pow2_increases(k as nat, 64);
            lemma_fundamental_div_mod(m as int, p as int);
            lemma_mod_bound(m as int, p as int);
            let q = m as int / p as int;
            let r = m as int % p as int;
            assert(q <= m) by (nonlinear_arith)
                requires
                    m == p * q + r,
                    r >= 0,
                    p >= 1,
                    m >= 0,
            ;
        }
        Some(((m / p) as u64, m % p != 0, 2 * (m % p) >= p))
    }

    /// The whole number nearest to this one, halves going away from zero.
    pub fn round(self) -> (r: Double)
        ensures
            r == self.rounded_whole(),
    {
        if self.is_nan() || self.is_infinite() {
            return self;
        }
        match self.small_parts() {
            Some((k, _, half)) => {
                let k: u64 = if half {
                    k + 1
                } else {
                    k
                };
                Self::from_whole(self.is_negative(), k)
            },
            None => self,
        }
    }

    /// The largest whole number that is not above this one.
    pub fn floor(self) -> (r: Double)
        ensures
            r == self.floor_whole(),
    {
        if self.is_nan() || self.is_infinite() {
            return self;
        }
        match self.small_parts() {
            Some((k, fraction, _)) => {
                let negative: bool = self.is_negative();
                let k: u64 = if negative && fraction {
                    k + 1
                } else {
                    k
                };
                Self::from_whole(negative, k)
            },
            None => self,
        }
    }

    /// The smallest whole number that is not below this one.
    pub fn ceil(self) -> (r: Double)
        ensures
            r == self.ceil_whole(),
    {
        if self.is_nan() || self.is_infinite() {
            return self;
        }
        match self.small_parts() {
            Some((k, fraction, _)) => {
                let negative: bool = self.is_negative();
                let k: u64 = if !negative && fraction {
                    k + 1
                } else {
                    k
                };
                Self::from_whole(negative, k)
            },
            None => self,
        }
    }

    /// The whole part of the absolute value, at most `u64::MAX`.
    fn whole_part(self) -> (r: u64)
        requires
            !self.nan(),
        ensures
            r == self.floor_magnitude() || (r == u64::MAX && self.floor_magnitude() > u64::MAX),
    {
        let (m, e) = self.unpack();
        if e > UNIT_SHIFT as i32 {
            let k: i32 = e - UNIT_SHIFT as i32;
            proof {
                lemma_large_parts(self, k as nat);
                lemma2_to64();
                lemma2_to64_rest();
                lemma_pow2_pos(k as nat);
            }
            if k >= 12 {
                proof {
                    lemma_pow2_increases(12, k as nat);
                    let p = pow2(k as nat);
                    assert(m * p > u64::MAX) by (nonlinear_arith)
                        requires
                            m >= HIDDEN,
                            p >= 0x1000,
                    ;
                }
                return u64::MAX;
            }
            proof {
                lemma_pow2_increases(k as nat, 11);
                let p = pow2(k as nat);
                assert(m * p <= u64::MAX) by (nonlinear_arith)
                    requires
                        m < 2 * HIDDEN,
                        0 < p <= 0x800,
                ;
            }
            let p: u128 = power_of_two(k as u32);
            return (m * p) as u64;
        }
        match self.small_parts() {
            Some((k, _, _)) => k,
            None => u64::MAX,
        }
    }

    /// The number as a signed 64-bit integer.
    pub fn to_i64(self) -> (r: i64)
        ensures
            r == self.saturated_i64(),
    {
        if self.is_nan() {
            return 0;
        }
        let k: u64 = self.whole_part();
        if self.is_negative() {
            if k >= 0x8000_0000_0000_0000 {
                i64::MIN
            } else {
                -(k as i64)
            }
        } else if k > 0x7fff_ffff_ffff_ffff {
            i64::MAX
        } else {
            k as i64
        }
    }

    /// The number as an unsigned 16-bit integer.
    pub fn to_u16(self) -> (r: u16)
        ensures
            r == self.saturated(u16::MAX as nat),
    {
        if self.is_nan() || self.is_negative() {
            return 0;
        }
        let k: u64 = self.whole_part();
        if k > 0xffff {
            u16::MAX
        } else {
            k as u16
        }
    }

    /// The number as a size.
    pub fn to_usize(self) -> (r: usize)
        ensures
            r == self.saturated(usize::MAX as nat),
    {
        if self.is_nan() || self.is_negative() {
            return 0;
        }
        let k: u64 = self.whole_part();
        if k > usize::MAX as u64 {
            usize::MAX
        } else {
            k as usize
        }
    }

    /// The larger of two numbers, or the one that is a number.
    pub open spec fn larger(self, other: Double) -> Double {
        if self.nan() || self.less(other) {
            other
        } else {
            self
        }
    }

    /// The smaller of two numbers, or the one that is a number.
    pub open spec fn smaller(self, other: Double) -> Double {
        if self.nan() || other.less(self) {
            other
        } else {
            self
        }
    }

    /// The number held between `low` and `high`.
    pub open spec fn clamped(self, low: Double, high: Double) -> Double {
        if self.less(low) {
            low
        } else if high.less(self) {
            high
        } else {
            self
        }
    }

    /// The number without its sign.
    pub open spec fn absolute(self) -> Double {
        Double { bits: self.bits % SIGN }
    }

    /// Whether two numbers have the same sign; false wherever one side is not a
    /// number.
    pub open spec fn same_sign(self, other: Double) -> bool {
        !self.nan() && !other.nan() && self.negative() == other.negative()
    }

    pub fn abs(self) -> (r: Double)
        ensures
            r == self.absolute(),
    {
        Double { bits: self.bits % SIGN }
    }

    pub fn has_sign_of(self, other: Double) -> (r: bool)
        ensures
            r == self.same_sign(other),
    {
        !self.is_nan() && !other.is_nan() && self.is_negative() == other.is_negative()
    }

    pub fn max(self, other: Double) -> (r: Double)
        ensures
            r == self.larger(other),
    {
        if self.is_nan() || self.is_less(other) {
            other
        } else {
            self
        }
    }

    pub fn min(self, other: Double) -> (r: Double)
        ensures
            r == self.smaller(other),
    {
        if self.is_nan() || other.is_less(self) {
            other
        } else {
            self
        }
    }

    pub fn clamp(self, low: Double, high: Double) -> (r: Double)
        requires
            low.at_most(high),
        ensures
            r == self.clamped(low, high),
    {
        if self.is_less(low) {
            low
        } else if high.is_less(self) {
            high
        } else {
            self
        }
    }
}

} // verus!
