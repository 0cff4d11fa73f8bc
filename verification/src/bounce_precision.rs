//! How close the bounces that are drawn come to the line they bounce off.
use crate::arithmetic::{difference, distance, product, quotient, sum};
use crate::bounce::{bounce_outline, BounceFormula};
use crate::bounce_joints::law_followed_bounce_meets_the_next;
use crate::curve::TimeControlBounce;
use crate::double::{
    lemma_magnitude_zero, one_step, pattern_magnitude, Double, HIDDEN, INFINITE, UNIT_SHIFT,
};
use crate::numbers::{
    lemma_number_order, lemma_one, lemma_two, number, ALMOST_ONE, FOUR, HALF, ONE, THOUSANDTH, TWO,
};
use crate::precision::{is_close, largest, law_rounding_error};
use crate::rounding::{
    lemma_pow2_increases, lemma_rounded_at_most, lemma_rounded_magnitude, nearest_pattern,
};
use crate::span_order::lemma_largest;
use vstd::arithmetic::power2::*;
use vstd::prelude::*;

verus! {

/// The number that a finite double stands for.
pub open spec fn exact(v: Double) -> real {
    (v.value() as real) / (one_step() as real)
}

/// The absolute value of a number.
pub open spec fn size(x: real) -> real {
    if x < 0real {
        -x
    } else {
        x
    }
}

/// Two to the power -53: the relative error of a rounding.
pub open spec fn ulp() -> real {
    1real / 9007199254740992real
}

/// Whether a finite double is a number up to one rounding.
pub open spec fn is_rounded(v: Double, x: real) -> bool {
    v.finite() && size(exact(v) - x) <= ulp() * size(x) + ulp() / 2048real
}

/// The product of two whole numbers is that of the same numbers.
pub proof fn lemma_whole_product(a: int, b: int)
    ensures
        (a * b) as real == (a as real) * (b as real),
{
    assert((a * b) as real == (a as real) * (b as real)) by (nonlinear_arith);
}

/// The quotient `n / d` in steps, rounded.
pub proof fn lemma_rounding(n: nat, d: nat, x: real)
    requires
        d > 0,
        nearest_pattern(n, d) < INFINITE || n <= d * (0x1000_0000_0000_0000 * one_step()),
        x * (d as real) * (one_step() as real) == n as real,
    ensures
        nearest_pattern(n, d) < INFINITE,
        ({
            let m = pattern_magnitude(nearest_pattern(n, d));
            size((m as real) / (one_step() as real) - x) <= ulp() * size(x) + ulp() / 2048real
        }),
{
    let one = one_step();
    let top = largest();
    let limit = 0x1000_0000_0000_0000 * one;
    lemma_pow2_pos(UNIT_SHIFT as nat);
    lemma_pow2_increases(64, UNIT_SHIFT as nat);
    lemma2_to64_rest();
    lemma_largest();
    if n <= d * limit {
        assert(d * limit <= d * top) by (nonlinear_arith)
            requires
                limit <= top,
        ;
        lemma_rounded_at_most(n, d, (INFINITE - 1) as nat);
    }
    law_rounding_error(n, d);
    let m = pattern_magnitude(nearest_pattern(n, d));
    let error = distance(m * d - n);
    lemma_whole_product(m as int, d as int);
    lemma_whole_product(error as int, 0x20_0000_0000_0000);
    let u = one as real;
    let w = d as real;
    let r = (m as real) / u;
    assert(r * u == m as real) by (nonlinear_arith)
        requires
            r == (m as real) / u,
            u > 0real,
    ;
    let e = error as real;
    let off = r - x;
    assert(off * (w * u) == (r * u) * w - x * w * u) by (nonlinear_arith)
        requires
            off == r - x,
    ;
    assert(-e <= off * (w * u) <= e);
    assert(w * u > 0real && x >= 0real) by (nonlinear_arith)
        requires
            w > 0real,
            u > 0real,
            x * w * u == n as real,
            n as real >= 0real,
    ;
    if error * 0x20_0000_0000_0000 <= n {
        assert(size(off) <= ulp() * x) by (nonlinear_arith)
            requires
                -e <= off * (w * u) <= e,
                e * 9007199254740992real <= x * w * u,
                w * u > 0real,
        ;
    } else {
        assert(2real * e <= w);
        assert(size(off) <= ulp() / 2048real) by (nonlinear_arith)
            requires
                -e <= off * (w * u) <= e,
                2real * e <= w,
                w > 0real,
                u >= 18446744073709551616real,
        ;
        assert(ulp() * x >= 0real) by (nonlinear_arith)
            requires
                x >= 0real,
        ;
    }
}

/// A whole number of steps that is not too large.
pub proof fn lemma_steps(v: int, x: real)
    requires
        x * (one_step() as real) == v as real,
        size(x) <= 1152921504606846976real,
    ensures
        distance(v) <= 0x1000_0000_0000_0000 * one_step(),
{
    let one = one_step();
    lemma_pow2_pos(UNIT_SHIFT as nat);
    let u = one as real;
    assert(-(1152921504606846976real * u) <= x * u <= 1152921504606846976real * u) by (nonlinear_arith)
        requires
            -1152921504606846976real <= x <= 1152921504606846976real,
            u > 0real,
    ;
    lemma_whole_product(0x1000_0000_0000_0000, one as int);
}

/// A double times the unit.
pub proof fn lemma_exact(v: Double)
    ensures
        exact(v) * (one_step() as real) == v.value() as real,
        v.negative() ==> exact(v) == -((v.magnitude() as real) / (one_step() as real)),
        !v.negative() ==> exact(v) == (v.magnitude() as real) / (one_step() as real),
        size(exact(v)) * (one_step() as real) == v.magnitude() as real,
        v.negative() ==> exact(v) <= 0real,
        !v.negative() ==> exact(v) >= 0real,
        exact(v.opposite()) == -exact(v),
{
    lemma_pow2_pos(UNIT_SHIFT as nat);
    v.lemma_opposite();
    let u = one_step() as real;
    let m = v.magnitude() as real;
    let n = v.value() as real;
    assert((-m) / u == -(m / u) && m / u >= 0real && (m / u) * u == m) by (nonlinear_arith)
        requires
            u > 0real,
            m >= 0real,
    ;
    assert((-n) / u == -(n / u) && (n / u) * u == n) by (nonlinear_arith)
        requires
            u > 0real,
    ;
}

/// A sum, as it is computed.
pub proof fn lemma_sum(a: Double, b: Double)
    requires
        a.finite(),
        b.finite(),
        sum(a, b).finite() || size(exact(a) + exact(b)) <= 1152921504606846976real,
    ensures
        is_rounded(sum(a, b), exact(a) + exact(b)),
{
    let x = exact(a) + exact(b);
    let v = a.value() + b.value();
    let u = one_step() as real;
    lemma_exact(a);
    lemma_exact(b);
    assert(x * u == v as real) by (nonlinear_arith)
        requires
            x == exact(a) + exact(b),
            exact(a) * u == a.value() as real,
            exact(b) * u == b.value() as real,
            v as real == a.value() as real + b.value() as real,
    ;
    if size(x) <= 1152921504606846976real {
        lemma_steps(v, x);
    }
    lemma_pow2_pos(UNIT_SHIFT as nat);
    assert(size(x) * 1real * u == distance(v) as real) by (nonlinear_arith)
        requires
            x * u == v as real,
            u > 0real,
            v < 0 ==> distance(v) as real == -(v as real),
            v >= 0 ==> distance(v) as real == v as real,
    ;
    lemma_rounded_magnitude(distance(v), 1);
    lemma_magnitude_zero(0);
    let r = sum(a, b);
    lemma_exact(r);
    if v == 0 {
        lemma_rounded_at_most(0, 1, 0);
    }
    lemma_rounding(distance(v), 1, size(x));
    if v == 0 {
        assert(r.magnitude() == 0);
        assert(exact(r) == 0real) by (nonlinear_arith)
            requires
                exact(r) * u == 0real,
                u > 0real,
        ;
        assert(x == 0real) by (nonlinear_arith)
            requires
                x * u == 0real,
                u > 0real,
        ;
    } else {
        assert(r.pattern() == nearest_pattern(distance(v), 1));
        assert((v < 0) == (x < 0real)) by (nonlinear_arith)
            requires
                x * u == v as real,
                u > 0real,
        ;
    }
}

/// A difference, as it is computed.
pub proof fn lemma_difference(a: Double, b: Double)
    requires
        a.finite(),
        b.finite(),
        difference(a, b).finite() || size(exact(a) - exact(b)) <= 1152921504606846976real,
    ensures
        is_rounded(difference(a, b), exact(a) - exact(b)),
{
    b.lemma_opposite();
    lemma_exact(b);
    lemma_sum(a, b.opposite());
}

/// A product, as it is computed.
pub proof fn lemma_product(a: Double, b: Double)
    requires
        a.finite(),
        b.finite(),
        product(a, b).finite() || size(exact(a) * exact(b)) <= 1152921504606846976real,
    ensures
        is_rounded(product(a, b), exact(a) * exact(b)),
{
    let one = one_step();
    let u = one as real;
    lemma_pow2_pos(UNIT_SHIFT as nat);
    lemma_exact(a);
    lemma_exact(b);
    let (m, n) = (a.magnitude(), b.magnitude());
    let (f, g) = (size(exact(a)), size(exact(b)));
    let x = f * g;
    lemma_whole_product(m as int, n as int);
    assert(x * u * u == (m * n) as real) by (nonlinear_arith)
        requires
            x == f * g,
            f * u == m as real,
            g * u == n as real,
            (m * n) as real == (m as real) * (n as real),
    ;
    let z = exact(a) * exact(b);
    assert(f >= 0real && g >= 0real && x >= 0real && (a.negative() != b.negative() ==> z == -x) && (
    a.negative() == b.negative() ==> z == x)) by (nonlinear_arith)
        requires
            f == size(exact(a)),
            g == size(exact(b)),
            x == f * g,
            z == exact(a) * exact(b),
            a.negative() ==> exact(a) <= 0real,
            !a.negative() ==> exact(a) >= 0real,
            b.negative() ==> exact(b) <= 0real,
            !b.negative() ==> exact(b) >= 0real,
    ;
    let limit = 0x1000_0000_0000_0000 * one;
    lemma_whole_product(one as int, limit as int);
    lemma_whole_product(0x1000_0000_0000_0000, one as int);
    if x <= 1152921504606846976real {
        assert(x * u * u <= 1152921504606846976real * u * u) by (nonlinear_arith)
            requires
                x <= 1152921504606846976real,
                u > 0real,
        ;
    }
    assert(u * (limit as real) == 1152921504606846976real * u * u) by (nonlinear_arith)
        requires
            limit as real == 1152921504606846976real * u,
    ;
    assert(x <= 1152921504606846976real ==> m * n <= one * limit);
    lemma_rounded_magnitude(m * n, one);
    lemma_rounding(m * n, one, x);
    let r = product(a, b);
    lemma_exact(r);
    assert(r.pattern() == nearest_pattern(m * n, one));
}

/// A quotient, as it is computed.
pub proof fn lemma_quotient(a: Double, b: Double)
    requires
        a.finite(),
        b.finite(),
        exact(b) != 0real,
        quotient(a, b).finite() || size(exact(a) / exact(b)) <= 1152921504606846976real,
    ensures
        is_rounded(quotient(a, b), exact(a) / exact(b)),
{
    let one = one_step();
    let u = one as real;
    lemma_pow2_pos(UNIT_SHIFT as nat);
    lemma_exact(a);
    lemma_exact(b);
    let (m, n) = (a.magnitude(), b.magnitude());
    let (f, g) = (size(exact(a)), size(exact(b)));
    let z = exact(a) / exact(b);
    let x = size(z);
    assert(x * g == f && g > 0real && (a.negative() != b.negative() ==> z <= 0real) && (
    a.negative() == b.negative() ==> z >= 0real)) by (nonlinear_arith)
        requires
            f == size(exact(a)),
            g == size(exact(b)),
            z == exact(a) / exact(b),
            x == size(z),
            exact(b) != 0real,
            a.negative() ==> exact(a) <= 0real,
            !a.negative() ==> exact(a) >= 0real,
            b.negative() ==> exact(b) <= 0real,
            !b.negative() ==> exact(b) >= 0real,
    ;
    assert(n as real > 0real) by (nonlinear_arith)
        requires
            g * u == n as real,
            g > 0real,
            u > 0real,
    ;
    lemma_whole_product(m as int, one as int);
    assert(x * (n as real) * u == (m * one) as real) by (nonlinear_arith)
        requires
            x * g == f,
            f * u == m as real,
            g * u == n as real,
            (m * one) as real == (m as real) * u,
    ;
    let limit = 0x1000_0000_0000_0000 * one;
    lemma_whole_product(n as int, limit as int);
    lemma_whole_product(0x1000_0000_0000_0000, one as int);
    if x <= 1152921504606846976real {
        assert(x * (n as real) * u <= 1152921504606846976real * (n as real) * u) by (nonlinear_arith)
            requires
                x <= 1152921504606846976real,
                u > 0real,
                n as real > 0real,
        ;
    }
    assert((n as real) * (limit as real) == 1152921504606846976real * (n as real) * u) by (nonlinear_arith)
        requires
            limit as real == 1152921504606846976real * u,
    ;
    assert(x <= 1152921504606846976real ==> m * one <= n * limit);
    lemma_rounded_magnitude(m * one, n);
    lemma_rounding(m * one, n, x);
    let r = quotient(a, b);
    lemma_exact(r);
    assert(r.pattern() == nearest_pattern(m * one, n));
}

/// The numbers of the formulas.
pub proof fn lemma_numbers()
    ensures
        number(HALF).finite() && exact(number(HALF)) == 1real / 2real,
        number(ONE).finite() && exact(number(ONE)) == 1real,
        number(TWO).finite() && exact(number(TWO)) == 2real,
        number(FOUR).finite() && exact(number(FOUR)) == 4real,
{
    let one = one_step();
    let u = one as real;
    lemma_pow2_pos(UNIT_SHIFT as nat);
    lemma_one();
    lemma_two();
    lemma2_to64_rest();
    let (h, f) = (number(HALF), number(FOUR));
    assert(h.shift() == 1021 && h.significand() == HIDDEN);
    lemma_pow2_adds(52, 1021);
    lemma_pow2_unfold(1074);
    assert(f.shift() == 1024 && f.significand() == HIDDEN);
    lemma_pow2_adds(52, 1024);
    lemma_pow2_unfold(1075);
    lemma_pow2_unfold(1076);
    assert(2 * h.magnitude() == one && f.magnitude() == 4 * one);
    let m = h.magnitude() as real;
    assert(m / u == 1real / 2real && u / u == 1real && (2real * u) / u == 2real && (4real * u) / u
        == 4real) by (nonlinear_arith)
        requires
            2real * m == u,
            u > 0real,
    ;
}

/// How far a quotient of numbers that are slightly off is off, where the divisor is
/// negative and not too small.
pub proof fn lemma_ratio(a: real, b: real, c: real, d: real, above: real, below: real)
    requires
        size(a - b) <= above <= 1real,
        size(c - d) <= below <= 1real / 1073741824real,
        -2real <= d <= -1real / 1024real,
        size(b) <= 2real,
    ensures
        c != 0real,
        size(a / c - b / d) <= 1025real * above + 2099200real * below,
        size(b / d) <= 2048real,
        size(a / c) <= 4096real,
{
    let x = a / c;
    let y = b / d;
    assert(c <= -1real / 1025real);
    assert(x * c == a && y * d == b) by (nonlinear_arith)
        requires
            x == a / c,
            y == b / d,
            c < 0real,
            d < 0real,
    ;
    assert(-2048real <= y <= 2048real) by (nonlinear_arith)
        requires
            y * d == b,
            -2real <= b <= 2real,
            d <= -1real / 1024real,
    ;
    // The two quotients differ by what is left over.
    let rest = (a - b) - y * (c - d);
    assert((x - y) * c == rest) by (nonlinear_arith)
        requires
            x * c == a,
            y * d == b,
            rest == (a - b) - y * (c - d),
    ;
    let bound = above + 2048real * below;
    assert(-bound <= rest <= bound) by (nonlinear_arith)
        requires
            -above <= a - b <= above,
            -below <= c - d <= below,
            -2048real <= y <= 2048real,
            rest == (a - b) - y * (c - d),
            bound == above + 2048real * below,
    ;
    assert(-(1025real * bound) <= x - y <= 1025real * bound) by (nonlinear_arith)
        requires
            (x - y) * c == rest,
            -bound <= rest <= bound,
            c <= -1real / 1025real,
    ;
}

/// Whether a finite double is at most so many roundings of one away from a number.
pub open spec fn is_off(v: Double, x: real, roundings: real) -> bool {
    v.finite() && size(exact(v) - x) <= roundings * ulp()
}

/// Whether the numbers of a bounce are moderate: it keeps between a 1024th of its
/// speed and all but a 1024th of it, and its period is between a 2048th and two.
pub open spec fn is_moderate_bounce(formula: BounceFormula) -> bool {
    &&& formula.cor.finite()
    &&& 1real / 1024real <= exact(formula.cor) <= 1023real / 1024real
    &&& formula.period.finite()
    &&& 1real / 2048real <= exact(formula.period) <= 2real
}

/// A rounding of a number that is slightly off.
pub proof fn lemma_rounded_off(v: Double, x: real, y: real, bound: real, roundings: real)
    requires
        is_rounded(v, x),
        size(x - y) <= roundings * ulp(),
        size(x) <= bound,
    ensures
        is_off(v, y, roundings + bound + 1real),
{
    let e = ulp();
    assert(e * size(x) <= e * bound && (roundings + bound + 1real) * e == roundings * e + e * bound
        + e) by (nonlinear_arith)
        requires
            size(x) <= bound,
            e >= 0real,
    ;
}

/// A number times the period, divided by it again.
proof fn lemma_there_and_back(t: Double, d: Double)
    requires
        t.finite(),
        1real / 2048real <= exact(t) <= 2real,
        d.finite(),
        size(exact(d)) <= 8192real,
    ensures
        is_off(quotient(product(t, d), t), exact(d), 20000real),
{
    let x = exact(t);
    let y = exact(d);
    assert(size(x * y) <= 16384real) by (nonlinear_arith)
        requires
            0real <= x <= 2real,
            -8192real <= y <= 8192real,
    ;
    lemma_product(t, d);
    let p = product(t, d);
    let z = exact(p);
    let e = ulp();
    let q = z / x;
    assert(q * x == z) by (nonlinear_arith)
        requires
            q == z / x,
            x > 0real,
    ;
    assert(size(q - y) <= 8193real * e) by (nonlinear_arith)
        requires
            q * x == z,
            x >= 1real / 2048real,
            -8192real <= y <= 8192real,
            size(z - x * y) <= e * size(x * y) + e / 2048real,
            e > 0real,
    ;
    lemma_quotient(p, t);
    lemma_rounded_off(quotient(p, t), q, y, 8200real, 8193real);
}

/// When a bounce begins, in periods, given the share of speed that is kept and the
/// power of the bounce.
pub open spec fn begin_in_periods(cor: real, power: real) -> real {
    (power - 1real) / (cor - 1real) - 1real / 2real
}

/// When a bounce is farthest from the line, in periods.
pub open spec fn middle_in_periods(cor: real, power: real) -> real {
    -1real / 2real - 1real / (cor - 1real) + ((cor + 1real) * power) / (2real * (cor - 1real))
}

/// When a bounce begins, in periods, as it is computed.
pub proof fn lemma_begin(formula: BounceFormula, power: Double)
    requires
        is_moderate_bounce(formula),
        power.finite(),
        0real <= exact(power) <= 1real,
    ensures
        is_off(
            quotient(formula.start_of(power), formula.period),
            begin_in_periods(exact(formula.cor), exact(power)),
            5000000real,
        ),
{
    let one = number(ONE);
    let half = number(HALF);
    let cor = formula.cor;
    let c = exact(cor);
    let p = exact(power);
    lemma_numbers();
    lemma_difference(cor, one);
    let fall = difference(cor, one);
    lemma_rounded_off(fall, c - 1real, c - 1real, 1real, 0real);
    lemma_difference(power, one);
    let rise = difference(power, one);
    lemma_rounded_off(rise, p - 1real, p - 1real, 1real, 0real);
    let e = ulp();
    lemma_ratio(exact(rise), p - 1real, exact(fall), c - 1real, 2real * e, 2real * e);
    lemma_quotient(rise, fall);
    let share = quotient(rise, fall);
    let y = (p - 1real) / (c - 1real);
    lemma_rounded_off(share, exact(rise) / exact(fall), y, 4096real, 4300000real);
    lemma_difference(share, half);
    let place = difference(share, half);
    lemma_rounded_off(place, exact(share) - 1real / 2real, y - 1real / 2real, 4097real, 4305000real);
    lemma_there_and_back(formula.period, place);
}

/// The last part of [`middle_in_periods`], as it is computed.
proof fn lemma_middle_share(cor: Double, power: Double)
    requires
        cor.finite(),
        1real / 1024real <= exact(cor) <= 1023real / 1024real,
        power.finite(),
        0real <= exact(power) <= 1real,
    ensures
        ({
            let (c, p) = (exact(cor), exact(power));
            let y = ((c + 1real) * p) / (2real * (c - 1real));
            &&& size(y) <= 2048real
            &&& is_off(
                quotient(
                    product(sum(cor, number(ONE)), power),
                    difference(product(number(TWO), cor), number(TWO)),
                ),
                y,
                18000000real,
            )
        }),
{
    let (one, two) = (number(ONE), number(TWO));
    let c = exact(cor);
    let p = exact(power);
    let e = ulp();
    lemma_numbers();
    lemma_sum(cor, one);
    let more = sum(cor, one);
    lemma_rounded_off(more, c + 1real, c + 1real, 2real, 0real);
    let m = exact(more);
    assert(size(m * p - (c + 1real) * p) <= 3real * e && size(m * p) <= 3real && 0real <= (c + 1real)
        * p <= 2real) by (nonlinear_arith)
        requires
            size(m - (c + 1real)) <= 3real * e,
            0real < e <= 1real / 1024real,
            0real <= c <= 1real,
            c + 1real <= 2real,
            0real <= p <= 1real,
    ;
    lemma_product(more, power);
    let above = product(more, power);
    lemma_rounded_off(above, m * p, (c + 1real) * p, 3real, 3real);
    lemma_product(two, cor);
    let twice = product(two, cor);
    lemma_rounded_off(twice, 2real * c, 2real * c, 2real, 0real);
    lemma_difference(twice, two);
    let below = difference(twice, two);
    let d = 2real * (c - 1real);
    lemma_rounded_off(below, exact(twice) - 2real, d, 3real, 3real);
    lemma_ratio(exact(above), (c + 1real) * p, exact(below), d, 7real * e, 7real * e);
    lemma_quotient(above, below);
    lemma_rounded_off(
        quotient(above, below),
        exact(above) / exact(below),
        ((c + 1real) * p) / d,
        4096real,
        14800000real,
    );
}

/// The first part of [`middle_in_periods`], as it is computed.
proof fn lemma_middle_place(cor: Double)
    requires
        cor.finite(),
        1real / 1024real <= exact(cor) <= 1023real / 1024real,
    ensures
        ({
            let y = -1real / 2real - 1real / (exact(cor) - 1real);
            &&& size(y) <= 2049real
            &&& is_off(
                difference(
                    number(HALF).opposite(),
                    quotient(number(ONE), difference(cor, number(ONE))),
                ),
                y,
                4300000real,
            )
        }),
{
    let one = number(ONE);
    let back = number(HALF).opposite();
    let c = exact(cor);
    let e = ulp();
    lemma_numbers();
    lemma_exact(number(HALF));
    number(HALF).lemma_opposite();
    lemma_difference(cor, one);
    let fall = difference(cor, one);
    lemma_rounded_off(fall, c - 1real, c - 1real, 1real, 0real);
    lemma_ratio(1real, 1real, exact(fall), c - 1real, 0real, 2real * e);
    lemma_quotient(one, fall);
    let share = quotient(one, fall);
    let y = 1real / (c - 1real);
    lemma_rounded_off(share, 1real / exact(fall), y, 4096real, 4200000real);
    lemma_difference(back, share);
    lemma_rounded_off(
        difference(back, share),
        -1real / 2real - exact(share),
        -1real / 2real - y,
        4098real,
        4210000real,
    );
}

/// A sum of two numbers that are off, as it is computed.
proof fn lemma_sum_off(a: Double, b: Double, x: real, y: real, left: real, right: real)
    requires
        is_off(a, x, left),
        is_off(b, y, right),
        0real <= left <= 100000000real,
        0real <= right <= 100000000real,
        size(x) <= 4000real,
        size(y) <= 4000real,
    ensures
        is_off(sum(a, b), x + y, left + right + 8002real),
{
    let e = ulp();
    assert(left * e + right * e == (left + right) * e && left * e <= 1real / 4real && right * e
        <= 1real / 4real) by (nonlinear_arith)
        requires
            0real <= left <= 100000000real,
            0real <= right <= 100000000real,
            e == 1real / 9007199254740992real,
    ;
    lemma_sum(a, b);
    lemma_rounded_off(sum(a, b), exact(a) + exact(b), x + y, 8001real, left + right);
}

/// When a bounce is farthest from the line, in periods, as it is computed.
pub proof fn lemma_middle(formula: BounceFormula, power: Double)
    requires
        is_moderate_bounce(formula),
        power.finite(),
        0real <= exact(power) <= 1real,
    ensures
        is_off(
            quotient(formula.middle_of(power), formula.period),
            middle_in_periods(exact(formula.cor), exact(power)),
            24000000real,
        ),
{
    let one = number(ONE);
    let two = number(TWO);
    let cor = formula.cor;
    let c = exact(cor);
    let p = exact(power);
    let place = difference(number(HALF).opposite(), quotient(one, difference(cor, one)));
    let rest = quotient(product(sum(cor, one), power), difference(product(two, cor), two));
    let y = -1real / 2real - 1real / (c - 1real);
    let z = ((c + 1real) * p) / (2real * (c - 1real));
    lemma_middle_place(cor);
    lemma_middle_share(cor, power);
    lemma_sum_off(place, rest, y, z, 4300000real, 18000000real);
    lemma_whole_middle(formula.period, sum(place, rest), y + z);
}

/// The middle of a bounce, times the period and divided by it again.
proof fn lemma_whole_middle(period: Double, place: Double, x: real)
    requires
        period.finite(),
        1real / 2048real <= exact(period) <= 2real,
        is_off(place, x, 22308002real),
        size(x) <= 4200real,
    ensures
        is_off(quotient(product(period, place), period), x, 24000000real),
{
    lemma_there_and_back(period, place);
}

/// How far a moment is from the middle of a bounce, in periods.
proof fn lemma_from_middle(cor: real, power: real, other: real, off: real)
    requires
        1real / 1024real <= cor <= 1023real / 1024real,
        off == begin_in_periods(cor, other) - middle_in_periods(cor, power),
    ensures
        other == power ==> off == -(power / 2real),
        size(off - power / 2real) <= 1024real * size(other - cor * power),
{
    let z = cor - 1real;
    let w = 1real / z;
    assert(w * z == 1real && -1024real <= w < 0real) by (nonlinear_arith)
        requires
            w == 1real / z,
            z <= -1real / 1024real,
    ;
    let a = (other - 1real) / z;
    let b = ((cor + 1real) * power) / (2real * z);
    assert(a == (other - 1real) * w && 2real * b == ((cor + 1real) * power) * w) by (nonlinear_arith)
        requires
            a == (other - 1real) / z,
            b == ((cor + 1real) * power) / (2real * z),
            w * z == 1real,
            z < 0real,
    ;
    assert(off == a + w - b);
    assert(2real * off == (2real * other - (cor + 1real) * power) * w) by (nonlinear_arith)
        requires
            off == a + w - b,
            a == (other - 1real) * w,
            2real * b == ((cor + 1real) * power) * w,
    ;
    if other == power {
        assert(2real * off == -power) by (nonlinear_arith)
            requires
                2real * off == (2real * other - (cor + 1real) * power) * w,
                other == power,
                w * (cor - 1real) == 1real,
        ;
    }
    let d = other - cor * power;
    assert(off - power / 2real == d * w) by (nonlinear_arith)
        requires
            2real * off == (2real * other - (cor + 1real) * power) * w,
            d == other - cor * power,
            w * (cor - 1real) == 1real,
    ;
    assert(size(d * w) <= 1024real * size(d)) by (nonlinear_arith)
        requires
            -1024real <= w <= 0real,
    ;
}

/// How far a moment is from the middle of a bounce, in periods, as it is computed.
proof fn lemma_offset(formula: BounceFormula, power: Double, other: Double)
    requires
        is_moderate_bounce(formula),
        power.finite(),
        0real <= exact(power) <= 1real,
        other.finite(),
        0real <= exact(other) <= 1real,
        ({
            let c = exact(formula.cor);
            size(
                begin_in_periods(c, exact(other)) - middle_in_periods(c, exact(power)),
            ) <= 1real
        }),
    ensures
        ({
            let c = exact(formula.cor);
            is_off(
                difference(
                    quotient(formula.start_of(other), formula.period),
                    quotient(formula.middle_of(power), formula.period),
                ),
                begin_in_periods(c, exact(other)) - middle_in_periods(c, exact(power)),
                30000000real,
            )
        }),
{
    let c = exact(formula.cor);
    lemma_begin(formula, other);
    lemma_middle(formula, power);
    let a = quotient(formula.start_of(other), formula.period);
    let b = quotient(formula.middle_of(power), formula.period);
    let x = begin_in_periods(c, exact(other));
    let y = middle_in_periods(c, exact(power));
    lemma_difference_off(a, b, x, y);
}

proof fn lemma_difference_off(a: Double, b: Double, x: real, y: real)
    requires
        is_off(a, x, 5000000real),
        is_off(b, y, 24000000real),
        size(x - y) <= 1real,
    ensures
        is_off(difference(a, b), x - y, 30000000real),
{
    lemma_difference(a, b);
    lemma_rounded_off(difference(a, b), exact(a) - exact(b), x - y, 2real, 29000000real);
}

/// The height of a bounce at a moment that far from its middle, as it is computed.
pub proof fn lemma_height(off: Double, squared: Double, x: real)
    requires
        is_off(off, x, 30000000real),
        size(x) <= 1real,
        squared.finite(),
        0real <= exact(squared) <= 2real,
    ensures
        is_off(
            difference(
                sum(number(ONE), product(product(number(FOUR), off), off)),
                squared,
            ),
            1real + 4real * (x * x) - exact(squared),
            400000000real,
        ),
{
    let (one, four) = (number(ONE), number(FOUR));
    let e = ulp();
    let o = exact(off);
    lemma_numbers();
    lemma_product(four, off);
    let slope = product(four, off);
    lemma_rounded_off(slope, 4real * o, 4real * x, 5real, 120000000real);
    let g = exact(slope);
    assert(size(g * o - 4real * (x * x)) <= 300000000real * e && size(g * o) <= 6real) by (
    nonlinear_arith)
        requires
            size(g - 4real * x) <= 120000006real * e,
            size(o - x) <= 30000000real * e,
            -1real <= x <= 1real,
            e == 1real / 9007199254740992real,
    ;
    lemma_product(slope, off);
    let bend = product(slope, off);
    lemma_rounded_off(bend, g * o, 4real * (x * x), 6real, 300000000real);
    lemma_sum(one, bend);
    let raised = sum(one, bend);
    lemma_rounded_off(
        raised,
        1real + exact(bend),
        1real + 4real * (x * x),
        8real,
        300000007real,
    );
    lemma_difference(raised, squared);
    assert(size(exact(raised)) <= 8real);
    lemma_rounded_off(
        difference(raised, squared),
        exact(raised) - exact(squared),
        1real + 4real * (x * x) - exact(squared),
        10real,
        300000016real,
    );
}

/// A double that is nearly one is close to it.
proof fn lemma_close_to_one(v: Double, x: real)
    requires
        is_off(v, x, 400000000real),
        size(x - 1real) <= 1real / 10000000real,
    ensures
        is_close(v, number(ONE)),
{
    let one = one_step();
    let u = one as real;
    lemma_pow2_pos(UNIT_SHIFT as nat);
    lemma_one();
    lemma_exact(v);
    let d = exact(v) - 1real;
    assert(size(d) <= 1real / 4000000real);
    let n = v.value() - one;
    let q = exact(v);
    let k = n as real;
    assert((q - 1real) * u == q * u - u) by (nonlinear_arith);
    assert(d * u == k);
    assert(-u <= 4000000real * k <= u) by (nonlinear_arith)
        requires
            d * u == k,
            -1real / 4000000real <= d <= 1real / 4000000real,
            u > 0real,
    ;
    lemma_whole_product(4000000, n);
    lemma_whole_product(4000000, -n);
}

/// Whether a double is finite and lies between zero and one.
pub open spec fn is_share(v: Double) -> bool {
    v.finite() && 0real <= exact(v) <= 1real
}

/// Whether the powers with which bounce `index` is drawn are nearly those of the share
/// of speed that the ball keeps: that of twice the index is nearly the square of that
/// of the index, and that of the next index nearly the product with the share.
pub open spec fn has_powers(
    formula: BounceFormula,
    powers: spec_fn(nat) -> Double,
    index: nat,
) -> bool {
    let p = exact(powers(index));
    &&& is_share(powers(index))
    &&& is_share(powers(2 * index))
    &&& is_share(powers(index + 1))
    &&& size(exact(powers(2 * index)) - p * p) <= 1real / 1073741824real
    &&& size(exact(powers(index + 1)) - exact(formula.cor) * p) <= 1real / 1099511627776real
}

/// A bounce touches the line where it begins.
proof fn lemma_touches_at_begin(formula: BounceFormula, power: Double, squared: Double)
    requires
        is_moderate_bounce(formula),
        is_share(power),
        is_share(squared),
        size(exact(squared) - exact(power) * exact(power)) <= 1real / 1073741824real,
    ensures
        is_close(formula.state_of(power, squared, formula.start_of(power)).0, number(ONE)),
{
    let c = exact(formula.cor);
    let p = exact(power);
    let x = begin_in_periods(c, p) - middle_in_periods(c, p);
    lemma_from_middle(c, p, p, x);
    lemma_offset(formula, power, power);
    let off = difference(
        quotient(formula.start_of(power), formula.period),
        quotient(formula.middle_of(power), formula.period),
    );
    lemma_height(off, squared, x);
    assert(4real * (x * x) == p * p) by (nonlinear_arith)
        requires
            x == -(p / 2real),
    ;
    lemma_close_to_one(
        formula.state_of(power, squared, formula.start_of(power)).0,
        1real + 4real * (x * x) - exact(squared),
    );
}

/// A bounce touches the line where the next one begins.
proof fn lemma_touches_at_end(formula: BounceFormula, power: Double, squared: Double, next: Double)
    requires
        is_moderate_bounce(formula),
        is_share(power),
        is_share(squared),
        is_share(next),
        size(exact(squared) - exact(power) * exact(power)) <= 1real / 1073741824real,
        size(exact(next) - exact(formula.cor) * exact(power)) <= 1real / 1099511627776real,
    ensures
        is_close(formula.state_of(power, squared, formula.start_of(next)).0, number(ONE)),
{
    let c = exact(formula.cor);
    let p = exact(power);
    let x = begin_in_periods(c, exact(next)) - middle_in_periods(c, p);
    lemma_from_middle(c, p, exact(next), x);
    assert(size(x - p / 2real) <= 1real / 1073741824real);
    lemma_offset(formula, power, next);
    let off = difference(
        quotient(formula.start_of(next), formula.period),
        quotient(formula.middle_of(power), formula.period),
    );
    lemma_height(off, squared, x);
    assert(size(4real * (x * x) - p * p) <= 1real / 100000000real) by (nonlinear_arith)
        requires
            size(x - p / 2real) <= 1real / 1073741824real,
            0real <= p <= 1real,
    ;
    lemma_close_to_one(
        formula.state_of(power, squared, formula.start_of(next)).0,
        1real + 4real * (x * x) - exact(squared),
    );
}

/// Each bounce of a moderate segment touches the line where it begins and where the
/// next one begins: its height there is one, up to a quarter of a millionth, as long
/// as the powers are nearly those they stand for.
pub proof fn law_bounces_touch_the_line(
    formula: BounceFormula,
    powers: spec_fn(nat) -> Double,
    index: nat,
)
    requires
        is_moderate_bounce(formula),
        has_powers(formula, powers, index),
    ensures
        ({
            let (power, squared) = (powers(index), powers(2 * index));
            let begin = formula.start_of(power);
            let end = formula.start_of(powers(index + 1));
            &&& is_close(formula.state_of(power, squared, begin).0, number(ONE))
            &&& is_close(formula.state_of(power, squared, end).0, number(ONE))
        }),
{
    lemma_touches_at_begin(formula, powers(index), powers(2 * index));
    lemma_touches_at_end(formula, powers(index), powers(2 * index), powers(index + 1));
}

/// Neighbouring bounces of a moderate segment meet, up to half a millionth: the one
/// that is drawn after its middle ends at the moment and the height at which the next
/// one begins.
pub proof fn law_followed_bounce_meets_the_next_on_the_line(
    formula: BounceFormula,
    powers: spec_fn(nat) -> Double,
    index: nat,
)
    requires
        is_moderate_bounce(formula),
        has_powers(formula, powers, index),
        has_powers(formula, powers, index + 1),
        formula.goes_on(powers, index),
        formula.is_followed(powers, index),
    ensures
        ({
            let end = formula.drawn_at(powers, index).last().end;
            let start = formula.drawn_at(powers, index + 1)[0].start;
            &&& end.x == start.x
            &&& is_close(end.y, number(ONE))
            &&& is_close(start.y, number(ONE))
            &&& 2_000_000 * distance(end.y.value() - start.y.value()) <= one_step()
        }),
{
    law_followed_bounce_meets_the_next(formula, powers, index);
    law_bounces_touch_the_line(formula, powers, index);
    law_bounces_touch_the_line(formula, powers, index + 1);
    lemma_contact_heights(formula, powers, index);
}

/// The heights at which a bounce ends and the next one begins.
proof fn lemma_contact_heights(formula: BounceFormula, powers: spec_fn(nat) -> Double, index: nat)
    requires
        formula.goes_on(powers, index),
        formula.is_followed(powers, index),
    ensures
        ({
            let contact = formula.start_of(powers(index + 1));
            let end = formula.drawn_at(powers, index).last().end;
            let start = formula.drawn_at(powers, index + 1)[0].start;
            &&& end.y == formula.state_of(powers(index), powers(2 * index), contact).0
            &&& start.y == formula.state_of(powers(index + 1), powers(2 * (index + 1)), contact).0
        }),
{
    law_followed_bounce_meets_the_next(formula, powers, index);
}

/// The bounds of a bounce's numbers.
pub proof fn lemma_bounds()
    ensures
        number(THOUSANDTH).finite() && !number(THOUSANDTH).negative(),
        exact(number(THOUSANDTH)) >= 1real / 1024real,
        number(ALMOST_ONE).finite() && !number(ALMOST_ONE).negative(),
        exact(number(ALMOST_ONE)) <= 1023real / 1024real,
{
    let one = one_step();
    let u = one as real;
    lemma_pow2_pos(UNIT_SHIFT as nat);
    lemma2_to64();
    lemma2_to64_rest();
    let low = number(0x3f50_0000_0000_0000);
    let high = number(0x3fef_f800_0000_0000);
    lemma_number_order(0x3f50_0000_0000_0000, THOUSANDTH);
    lemma_number_order(ALMOST_ONE, 0x3fef_f800_0000_0000);
    assert(low.shift() == 1012 && low.significand() == HIDDEN);
    lemma_pow2_adds(52, 1012);
    lemma_pow2_adds(10, 1064);
    assert(1024 * low.magnitude() == one);
    assert(high.shift() == 1021 && high.significand() == 1023 * 0x800_0000_0000);
    lemma_pow2_adds(43, 1021);
    lemma_pow2_adds(10, 1064);
    let e = pow2(1021);
    assert((1023 * 0x800_0000_0000) * e == 1023 * (0x800_0000_0000 * e)) by (nonlinear_arith);
    assert(1024 * high.magnitude() == 1023 * one);
    let (a, b) = (number(THOUSANDTH), number(ALMOST_ONE));
    lemma_exact(a);
    lemma_exact(b);
    assert(1024 * a.magnitude() >= one && 1024 * b.magnitude() <= 1023 * one);
    assert(exact(a) >= 1real / 1024real && exact(b) <= 1023real / 1024real) by (nonlinear_arith)
        requires
            exact(a) * u == a.magnitude() as real,
            exact(b) * u == b.magnitude() as real,
            1024real * (a.magnitude() as real) >= u,
            1024real * (b.magnitude() as real) <= 1023real * u,
            u > 0real,
    ;
}

/// A number that is held between two others.
pub proof fn lemma_held_between(v: Double, low: Double, high: Double)
    requires
        !v.nan(),
        low.finite(),
        high.finite(),
        low.at_most(high),
    ensures
        v.clamped(low, high).finite(),
        exact(low) <= exact(v.clamped(low, high)) <= exact(high),
{
    let r = v.clamped(low, high);
    let u = one_step() as real;
    lemma_pow2_pos(UNIT_SHIFT as nat);
    lemma_exact(r);
    lemma_exact(low);
    lemma_exact(high);
    if v.infinite() {
        v.lemma_order(low);
        v.lemma_order(high);
    }
    assert(low.value() <= r.value() <= high.value());
    assert(exact(low) <= exact(r) <= exact(high)) by (nonlinear_arith)
        requires
            exact(r) * u == r.value() as real,
            exact(low) * u == low.value() as real,
            exact(high) * u == high.value() as real,
            low.value() as real <= r.value() as real <= high.value() as real,
            u > 0real,
    ;
}

/// A period is moderate.
proof fn lemma_period(x: Double, cor: Double)
    requires
        x.finite(),
        1real / 1024real <= exact(x) <= 1023real / 1024real,
        cor.finite(),
        1real / 1024real <= exact(cor) <= 1023real / 1024real,
    ensures
        ({
            let period = quotient(product(number(TWO), x), sum(cor, number(ONE)));
            period.finite() && 1real / 2048real <= exact(period) <= 2real
        }),
{
    let (one, two) = (number(ONE), number(TWO));
    lemma_numbers();
    lemma_product(two, x);
    let a = product(two, x);
    lemma_rounded_off(a, 2real * exact(x), 2real * exact(x), 2real, 0real);
    lemma_sum(cor, one);
    let b = sum(cor, one);
    lemma_rounded_off(b, exact(cor) + 1real, exact(cor) + 1real, 2real, 0real);
    let (f, g) = (exact(a), exact(b));
    let q = f / g;
    assert(q * g == f && 1real / 1100real <= q <= 1999real / 1000real) by (nonlinear_arith)
        requires
            q == f / g,
            1999real / 1048576real <= f <= 19981real / 10000real,
            10009real / 10000real <= g <= 19991real / 10000real,
    ;
    lemma_quotient(a, b);
    lemma_rounded_off(quotient(a, b), q, q, 2real, 0real);
}

/// The bounce of each segment is moderate, whatever its vertex is, as long as that and
/// the root that is taken are numbers.
pub proof fn law_outlined_bounce_is_moderate(
    bounce: TimeControlBounce,
    root: Double,
    power: Double,
)
    requires
        !bounce.vertex.x.nan(),
        !root.nan(),
    ensures
        is_moderate_bounce(bounce_outline(bounce, root).formula(power)),
{
    lemma_bounds();
    lemma_number_order(THOUSANDTH, ALMOST_ONE);
    let (low, high) = (number(THOUSANDTH), number(ALMOST_ONE));
    lemma_held_between(root, low, high);
    lemma_held_between(bounce.vertex.x, low, high);
    lemma_period(bounce.vertex.x.clamped(low, high), root.clamped(low, high));
}

} // verus!
