//! Sum, difference, product and quotient of doubles.
use crate::double::{
    lemma_magnitude_zero, one_step, Double, HIDDEN, INFINITE, QUIET_NAN, SIGN, UNIT_SHIFT,
};
use crate::rounding::{
    brackets, lemma_pow2_127, lemma_pow2_increases, lemma_rounded_exact, power_of_two,
    round_bracketed, rounded, with_sign,
};
use vstd::arithmetic::div_mod::*;
use vstd::arithmetic::power2::*;
use vstd::prelude::*;

verus! {

/// The result that is not a number.
pub open spec fn not_a_number() -> Double {
    Double { bits: QUIET_NAN }
}

/// Zero with the given sign.
pub open spec fn zero(negative: bool) -> Double {
    with_sign(negative, 0)
}

/// Infinity with the given sign.
pub open spec fn infinity(negative: bool) -> Double {
    with_sign(negative, INFINITE as nat)
}

/// The absolute value of an integer.
pub open spec fn distance(v: int) -> nat {
    if v < 0 {
        (-v) as nat
    } else {
        v as nat
    }
}

/// The sum `a + b`.
pub open spec fn sum(a: Double, b: Double) -> Double {
    if a.nan() || b.nan() {
        not_a_number()
    } else if a.infinite() {
        if b.infinite() && a.negative() != b.negative() {
            not_a_number()
        } else {
            a
        }
    } else if b.infinite() {
        b
    } else {
        let v = a.value() + b.value();
        if v == 0 {
            zero(a.negative() && b.negative())
        } else {
            rounded(v < 0, distance(v), 1)
        }
    }
}

/// The difference `a - b`.
pub open spec fn difference(a: Double, b: Double) -> Double {
    sum(a, b.opposite())
}

/// The product `a * b`.
pub open spec fn product(a: Double, b: Double) -> Double {
    let negative = a.negative() != b.negative();
    if a.nan() || b.nan() {
        not_a_number()
    } else if a.infinite() || b.infinite() {
        if a.magnitude() == 0 || b.magnitude() == 0 {
            not_a_number()
        } else {
            infinity(negative)
        }
    } else {
        rounded(negative, a.magnitude() * b.magnitude(), one_step())
    }
}

/// The quotient `a / b`.
pub open spec fn quotient(a: Double, b: Double) -> Double {
    let negative = a.negative() != b.negative();
    if a.nan() || b.nan() {
        not_a_number()
    } else if a.infinite() {
        if b.infinite() {
            not_a_number()
        } else {
            infinity(negative)
        }
    } else if b.infinite() {
        zero(negative)
    } else if b.magnitude() == 0 {
        if a.magnitude() == 0 {
            not_a_number()
        } else {
            infinity(negative)
        }
    } else {
        rounded(negative, a.magnitude() * one_step(), b.magnitude())
    }
}

/// An exact number of units brackets itself.
proof fn lemma_exact_bracket(n: nat, sig: nat, t: nat)
    requires
        n == sig * pow2(t),
    ensures
        brackets(n, 1, sig, t as int, false),
{
    lemma_pow2_pos(t);
    let e = pow2(t);
    assert((sig + 1) * e == sig * e + e) by (nonlinear_arith);
    assert(1 * e == e);
}

/// Adds magnitudes that lie so far apart that the smaller one falls below the
/// larger one's last digit.
proof fn lemma_far_bracket(
    ma: nat,
    ea: nat,
    mb: nat,
    eb: nat,
    j: nat,
    part: nat,
    rest: nat,
    subtract: bool,
)
    requires
        ea == eb + 64 + j,
        j > 0,
        mb == part * pow2(j) + rest,
        rest < pow2(j),
        HIDDEN <= ma < 2 * HIDDEN,
        mb < 2 * HIDDEN,
        part <= mb,
    ensures
        subtract ==> ma * pow2(ea) > mb * pow2(eb),
        ({
            let n = if subtract {
                (ma * pow2(ea) - mb * pow2(eb)) as nat
            } else {
                ma * pow2(ea) + mb * pow2(eb)
            };
            let sig = if subtract {
                if rest > 0 {
                    (ma * pow2(64) - part - 1) as nat
                } else {
                    (ma * pow2(64) - part) as nat
                }
            } else {
                ma * pow2(64) + part
            };
            brackets(n, 1, sig, ea - 64, rest > 0)
        }),
{
    lemma2_to64();
    let x = pow2(eb);
    let y = pow2(j);
    let u = pow2((ea - 64) as nat);
    lemma_pow2_pos(eb);
    lemma_pow2_pos(j);
    lemma_pow2_adds(eb, j);
    lemma_pow2_adds((ea - 64) as nat, 64);
    assert(eb + j == ea - 64);
    let big = ma * pow2(64);
    assert(ma * pow2(ea) == big * u) by (nonlinear_arith)
        requires
            pow2(ea) == u * pow2(64),
            big == ma * pow2(64),
    ;
    let small = mb * x;
    let over = rest * x;
    assert(small == part * u + over) by (nonlinear_arith)
        requires
            mb == part * y + rest,
            u == x * y,
            small == mb * x,
            over == rest * x,
    ;
    assert(over < u) by (nonlinear_arith)
        requires
            rest < y,
            u == x * y,
            over == rest * x,
            x > 0,
    ;
    assert(rest > 0 ==> over > 0) by (nonlinear_arith)
        requires
            over == rest * x,
            x > 0,
    ;
    assert(rest == 0 ==> over == 0) by (nonlinear_arith)
        requires
            over == rest * x,
    ;
    assert(1 * u == u);
    if subtract {
        assert(big * u >= (part + 2) * u) by (nonlinear_arith)
            requires
                big >= part + 2,
        ;
        assert((part + 2) * u == part * u + 2 * u) by (nonlinear_arith);
        assert((big - part) * u == big * u - part * u) by (nonlinear_arith);
        assert((big - part - 1) * u == big * u - part * u - u) by (nonlinear_arith);
        assert((big - part + 1) * u == big * u - part * u + u) by (nonlinear_arith);
    } else {
        assert((big + part) * u == big * u + part * u) by (nonlinear_arith);
        assert((big + part + 1) * u == big * u + part * u + u) by (nonlinear_arith);
    }
}

impl Double {
    pub fn nan_value() -> (r: Double)
        ensures
            r == not_a_number(),
    {
        Double { bits: QUIET_NAN }
    }

    fn signed_zero(negative: bool) -> (r: Double)
        ensures
            r == zero(negative),
    {
        if negative {
            Double { bits: SIGN }
        } else {
            Double { bits: 0 }
        }
    }

    fn signed_infinity(negative: bool) -> (r: Double)
        ensures
            r == infinity(negative),
    {
        if negative {
            Double { bits: SIGN + INFINITE }
        } else {
            Double { bits: INFINITE }
        }
    }

    /// The sum of two finite numbers of which the first has the larger exponent.
    fn plus_ordered(self, other: Double) -> (r: Double)
        requires
            self.finite(),
            other.finite(),
            self.shift() >= other.shift(),
        ensures
            r == sum(self, other),
    {
        let (ma, ea) = self.unpack();
        let (mb, eb) = other.unpack();
        let gap: i32 = ea - eb;
        let opposed: bool = self.is_negative() != other.is_negative();
        let ghost v = self.value() + other.value();
        let ghost x = pow2(eb as nat);
        proof {
            lemma2_to64();
            lemma_pow2_pos(eb as nat);
            lemma_pow2_127();
        }
        if gap <= 64 {
            let ghost g = pow2(gap as nat);
            proof {
                lemma_pow2_adds(gap as nat, eb as nat);
                lemma_pow2_increases(gap as nat, 64);
                assert(ma * g <= ma * pow2(64)) by (nonlinear_arith)
                    requires
                        g <= pow2(64),
                ;
                assert(ma * pow2(ea as nat) == (ma * g) * x) by (nonlinear_arith)
                    requires
                        pow2(ea as nat) == g * x,
                ;
            }
            let big: u128 = ma * power_of_two(gap as u32);
            proof {
                assert((big + mb) * x == big * x + mb * x) by (nonlinear_arith);
                assert((big - mb) * x == big * x - mb * x) by (nonlinear_arith);
                assert((mb - big) * x == mb * x - big * x) by (nonlinear_arith);
                assert(big > mb ==> (big - mb) * x > 0) by (nonlinear_arith)
                    requires
                        x > 0,
                ;
                assert(mb > big ==> (mb - big) * x > 0) by (nonlinear_arith)
                    requires
                        x > 0,
                ;
                assert(big + mb > 0 ==> (big + mb) * x > 0) by (nonlinear_arith)
                    requires
                        x > 0,
                ;
            }
            if !opposed {
                let sig: u128 = big + mb;
                if sig == 0 {
                    return Self::signed_zero(self.is_negative());
                }
                let ghost n = distance(v);
                proof {
                    lemma_exact_bracket(n, sig as nat, eb as nat);
                }
                round_bracketed(self.is_negative(), sig, eb, false, Ghost(n), Ghost(1))
            } else if big > mb {
                let sig: u128 = big - mb;
                let ghost n = distance(v);
                proof {
                    lemma_exact_bracket(n, sig as nat, eb as nat);
                }
                round_bracketed(self.is_negative(), sig, eb, false, Ghost(n), Ghost(1))
            } else if mb > big {
                let sig: u128 = mb - big;
                let ghost n = distance(v);
                proof {
                    lemma_exact_bracket(n, sig as nat, eb as nat);
                }
                round_bracketed(other.is_negative(), sig, eb, false, Ghost(n), Ghost(1))
            } else {
                Self::signed_zero(false)
            }
        } else {
            let j: i32 = gap - 64;
            let part: u128;
            let rest: u128;
            if j >= 64 {
                part = 0;
                rest = mb;
                proof {
                    lemma_pow2_increases(64, j as nat);
                }
            } else {
                let e: u128 = power_of_two(j as u32);
                proof {
                    lemma_pow2_pos(j as nat);
                    lemma_fundamental_div_mod(mb as int, e as int);
                    lemma_mod_bound(mb as int, e as int);
                    let q = mb as int / e as int;
                    assert(e * q == q * e) by (nonlinear_arith);
                    assert(q <= e * q) by (nonlinear_arith)
                        requires
                            q >= 0,
                            e >= 1,
                    ;
                }
                part = mb / e;
                rest = mb % e;
            }
            let inexact: bool = rest > 0;
            proof {
                lemma_far_bracket(
                    ma as nat,
                    ea as nat,
                    mb as nat,
                    eb as nat,
                    j as nat,
                    part as nat,
                    rest as nat,
                    opposed,
                );
                let a = ma * pow2(ea as nat);
                let b = mb * x;
                lemma_pow2_pos(ea as nat);
                assert(a > 0) by (nonlinear_arith)
                    requires
                        ma > 0,
                        pow2(ea as nat) > 0,
                        a == ma * pow2(ea as nat),
                ;
                assert(b >= 0) by (nonlinear_arith)
                    requires
                        b == mb * x,
                ;
            }
            let big: u128 = ma * 0x1_0000_0000_0000_0000;
            let sig: u128 = if opposed {
                if inexact {
                    big - part - 1
                } else {
                    big - part
                }
            } else {
                big + part
            };
            round_bracketed(
                self.is_negative(),
                sig,
                ea - 64,
                inexact,
                Ghost(distance(v)),
                Ghost(1),
            )
        }
    }

    /// `self + other`
    pub fn plus(self, other: Double) -> (r: Double)
        ensures
            r == sum(self, other),
    {
        if self.is_nan() || other.is_nan() {
            return Self::nan_value();
        }
        if self.is_infinite() {
            if other.is_infinite() && self.is_negative() != other.is_negative() {
                return Self::nan_value();
            }
            return self;
        }
        if other.is_infinite() {
            return other;
        }
        let (_, ea) = self.unpack();
        let (_, eb) = other.unpack();
        if ea >= eb {
            self.plus_ordered(other)
        } else {
            other.plus_ordered(self)
        }
    }

    /// `self - other`
    pub fn minus(self, other: Double) -> (r: Double)
        ensures
            r == difference(self, other),
    {
        self.plus(other.negate())
    }

    /// `self * other`
    pub fn times(self, other: Double) -> (r: Double)
        ensures
            r == product(self, other),
    {
        let negative: bool = self.is_negative() != other.is_negative();
        if self.is_nan() || other.is_nan() {
            return Self::nan_value();
        }
        proof {
            lemma_magnitude_zero(self.pattern());
            lemma_magnitude_zero(other.pattern());
        }
        if self.is_infinite() || other.is_infinite() {
            if self.bits % SIGN == 0 || other.bits % SIGN == 0 {
                return Self::nan_value();
            }
            return Self::signed_infinity(negative);
        }
        let ghost n = self.magnitude() * other.magnitude();
        let ghost d = one_step();
        proof {
            lemma_pow2_pos(UNIT_SHIFT as nat);
            lemma_pow2_127();
        }
        if self.bits % SIGN == 0 || other.bits % SIGN == 0 {
            proof {
                assert(n == 0) by (nonlinear_arith)
                    requires
                        self.magnitude() == 0 || other.magnitude() == 0,
                        n == self.magnitude() * other.magnitude(),
                ;
                lemma_magnitude_zero(0);
                lemma_rounded_exact(n, d, 0);
            }
            return Self::signed_zero(negative);
        }
        let (ma, ea) = self.unpack();
        let (mb, eb) = other.unpack();
        proof {
            assert(0 < ma * mb < 0x8000_0000_0000_0000_0000_0000_0000_0000) by (nonlinear_arith)
                requires
                    0 < ma < 2 * HIDDEN,
                    0 < mb < 2 * HIDDEN,
            ;
        }
        let sig: u128 = ma * mb;
        let t: i32 = ea + eb - UNIT_SHIFT as i32;
        proof {
            let x = pow2(ea as nat);
            let y = pow2(eb as nat);
            let z = pow2((ea + eb) as nat);
            lemma_pow2_adds(ea as nat, eb as nat);
            assert(n == sig * z) by (nonlinear_arith)
                requires
                    n == (ma * x) * (mb * y),
                    sig == ma * mb,
                    z == x * y,
            ;
            if t >= 0 {
                let e = pow2(t as nat);
                lemma_pow2_pos(t as nat);
                lemma_pow2_adds(UNIT_SHIFT as nat, t as nat);
                assert((sig + 1) * z == sig * z + z) by (nonlinear_arith);
                lemma_pow2_pos((ea + eb) as nat);
            } else {
                let w = (-t) as nat;
                let c = pow2(w);
                lemma_pow2_adds((ea + eb) as nat, w);
                assert(n * c == sig * d) by (nonlinear_arith)
                    requires
                        n == sig * z,
                        d == z * c,
                ;
                assert((sig + 1) * d == sig * d + d) by (nonlinear_arith);
            }
        }
        round_bracketed(negative, sig, t, false, Ghost(n), Ghost(d))
    }

    /// `self / other`
    pub fn over(self, other: Double) -> (r: Double)
        ensures
            r == quotient(self, other),
    {
        let negative: bool = self.is_negative() != other.is_negative();
        if self.is_nan() || other.is_nan() {
            return Self::nan_value();
        }
        if self.is_infinite() {
            if other.is_infinite() {
                return Self::nan_value();
            }
            return Self::signed_infinity(negative);
        }
        if other.is_infinite() {
            return Self::signed_zero(negative);
        }
        proof {
            lemma_magnitude_zero(self.pattern());
            lemma_magnitude_zero(other.pattern());
        }
        if other.bits % SIGN == 0 {
            if self.bits % SIGN == 0 {
                return Self::nan_value();
            }
            return Self::signed_infinity(negative);
        }
        let ghost n = self.magnitude() * one_step();
        let ghost d = other.magnitude();
        if self.bits % SIGN == 0 {
            proof {
                assert(n == 0) by (nonlinear_arith)
                    requires
                        self.magnitude() == 0,
                        n == self.magnitude() * one_step(),
                ;
                lemma_magnitude_zero(0);
                lemma_rounded_exact(n, d, 0);
            }
            return Self::signed_zero(negative);
        }
        let (ma, ea) = self.unpack();
        let (mb, eb) = other.unpack();
        let mut lead: u128 = ma;
        let mut lift: i32 = 0;
        proof {
            lemma2_to64();
            lemma2_to64_rest();
            assert(ma * 1 == ma);
        }
        while lead < HIDDEN as u128
            invariant
                0 < ma < 2 * HIDDEN,
                0 <= lift <= 52,
                0 < lead < 2 * HIDDEN,
                lead == ma * pow2(lift as nat),
                pow2(52) == HIDDEN,
            decreases 2 * HIDDEN - lead,
        {
            proof {
                lemma_pow2_unfold((lift + 1) as nat);
                let e = pow2(lift as nat);
                assert(ma * (2 * e) == 2 * (ma * e)) by (nonlinear_arith);
                if lift == 52 {
                    assert(ma * e >= e) by (nonlinear_arith)
                        requires
                            ma >= 1,
                    ;
                }
            }
            lead = lead * 2;
            lift = lift + 1;
        }
        let top: u128 = lead * 0x400_0000_0000_0000_0000;
        let sig: u128 = top / mb;
        let inexact: bool = top % mb != 0;
        let t: i32 = ea - eb - lift - 74 + UNIT_SHIFT as i32;
        proof {
            lemma_fundamental_div_mod(top as int, mb as int);
            lemma_mod_bound(top as int, mb as int);
            lemma_pow2_127();
            let r = top % mb;
            assert(sig >= 0x40_0000_0000_0000) by (nonlinear_arith)
                requires
                    top == mb * sig + r,
                    r < mb < 2 * HIDDEN,
                    top >= HIDDEN * 0x400_0000_0000_0000_0000,
            ;
            assert(sig <= top) by (nonlinear_arith)
                requires
                    top == mb * sig + r,
                    r >= 0,
                    mb >= 1,
                    sig >= 0,
            ;
            assert(sig * mb == mb * sig) by (nonlinear_arith);
            assert((sig + 1) * mb == mb * sig + mb) by (nonlinear_arith);
            lemma_quotient_bracket(
                ma as nat,
                ea as nat,
                mb as nat,
                eb as nat,
                lift as nat,
                top as nat,
                sig as nat,
            );
        }
        round_bracketed(negative, sig, t, inexact, Ghost(n), Ghost(d))
    }
}

/// The quotient of the significands brackets the quotient of the numbers.
proof fn lemma_quotient_bracket(
    ma: nat,
    ea: nat,
    mb: nat,
    eb: nat,
    lift: nat,
    top: nat,
    sig: nat,
)
    requires
        mb > 0,
        top == (ma * pow2(lift)) * 0x400_0000_0000_0000_0000,
        sig * mb <= top < (sig + 1) * mb,
    ensures
        brackets(
            (ma * pow2(ea)) * one_step(),
            mb * pow2(eb),
            sig,
            ea - eb - lift - 74 + UNIT_SHIFT,
            top != sig * mb,
        ),
{
    lemma2_to64();
    lemma2_to64_rest();
    lemma_pow2_adds(64, 10);
    let t = ea - eb - lift - 74 + UNIT_SHIFT;
    let n = (ma * pow2(ea)) * one_step();
    let d = mb * pow2(eb);
    let l = pow2(lift + 74);
    lemma_pow2_adds(lift, 74);
    assert(top == ma * l) by (nonlinear_arith)
        requires
            top == (ma * pow2(lift)) * pow2(74),
            l == pow2(lift) * pow2(74),
    ;
    let z = pow2(ea + UNIT_SHIFT as nat);
    lemma_pow2_adds(ea, UNIT_SHIFT as nat);
    assert(n == ma * z) by (nonlinear_arith)
        requires
            n == (ma * pow2(ea)) * one_step(),
            z == pow2(ea) * one_step(),
    ;
    let y = pow2(eb);
    if t >= 0 {
        let e = pow2(t as nat);
        let w = pow2(t as nat + eb);
        lemma_pow2_adds(t as nat, eb);
        lemma_pow2_adds(t as nat + eb, lift + 74);
        assert(z == w * l);
        lemma_pow2_pos(t as nat + eb);
        assert(n == top * w) by (nonlinear_arith)
            requires
                n == ma * z,
                z == w * l,
                top == ma * l,
        ;
        assert(d * e == mb * w) by (nonlinear_arith)
            requires
                d == mb * y,
                w == e * y,
        ;
        lemma_scaled_bracket(top, sig, mb, w);
    } else {
        let c = pow2((-t) as nat);
        lemma_pow2_adds(ea + UNIT_SHIFT as nat, (-t) as nat);
        lemma_pow2_adds(eb, lift + 74);
        lemma_pow2_pos(eb);
        assert(z * c == y * l);
        assert(n * c == top * y) by (nonlinear_arith)
            requires
                n == ma * z,
                z * c == y * l,
                top == ma * l,
        ;
        lemma_scaled_bracket(top, sig, mb, y);
    }
}

proof fn lemma_scaled_bracket(top: nat, sig: nat, mb: nat, w: nat)
    requires
        w > 0,
        sig * mb <= top < (sig + 1) * mb,
    ensures
        sig * (mb * w) <= top * w < (sig + 1) * (mb * w),
        (top * w != sig * (mb * w)) == (top != sig * mb),
{
    let a = sig * mb;
    let b = (sig + 1) * mb;
    assert(sig * (mb * w) == a * w) by (nonlinear_arith)
        requires
            a == sig * mb,
    ;
    assert((sig + 1) * (mb * w) == b * w) by (nonlinear_arith)
        requires
            b == (sig + 1) * mb,
    ;
    assert(a * w <= top * w < b * w) by (nonlinear_arith)
        requires
            a <= top < b,
            w > 0,
    ;
    assert(top > a ==> top * w > a * w) by (nonlinear_arith)
        requires
            w > 0,
    ;
}

} // verus!
