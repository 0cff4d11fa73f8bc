//! How close arithmetic and the grid stay to the exact numbers.
use crate::arithmetic::{distance, product, quotient};
use crate::conversion::{lemma_whole_exact, whole};
use crate::double::{
    lemma_magnitude_zero, one_step, pattern_magnitude, pattern_shift, pattern_significand, Double,
    HIDDEN, INFINITE, UNIT_SHIFT,
};
use crate::quantization::{grid_scale, grid_steps, on_grid, HASH_QUANTIZATION_UNIT_INV};
use crate::rounding::{
    lemma_nearest_significand, lemma_pow2_increases, lemma_rounded_at_most, lemma_rounded_exact,
    lemma_rounded_magnitude, lemma_spacing_exists, nearest, nearest_pattern, spacing,
};
use vstd::arithmetic::div_mod::*;
use vstd::arithmetic::power2::*;
use vstd::prelude::*;

verus! {

/// No multiple of `u` is nearer to `n` than the one that `nearest` gives, and
/// that one is at most half of `u` away.
proof fn lemma_nearest_multiple(n: nat, u: nat, k: nat)
    requires
        u > 0,
    ensures
        2 * distance(nearest(n, u) * u - n) <= u,
        distance(nearest(n, u) * u - n) <= distance(k * u - n),
{
    let q = n / u;
    let r = n % u;
    lemma_fundamental_div_mod(n as int, u as int);
    lemma_mod_bound(n as int, u as int);
    assert(u * q == q * u) by (nonlinear_arith);
    assert((q + 1) * u == q * u + u) by (nonlinear_arith);
    if k <= q {
        assert(k * u <= q * u) by (nonlinear_arith)
            requires
                k <= q,
        ;
    } else {
        assert(k * u >= (q + 1) * u) by (nonlinear_arith)
            requires
                k >= q + 1,
        ;
    }
}

/// Rounding gives the nearest double: where the result is finite, no finite
/// double is closer to `n / d` steps.
pub proof fn law_rounding_is_nearest(n: nat, d: nat, other: nat)
    requires
        d > 0,
        nearest_pattern(n, d) < INFINITE,
        other < INFINITE,
    ensures
        distance(pattern_magnitude(nearest_pattern(n, d)) * d - n) <= distance(
            pattern_magnitude(other) * d - n,
        ),
{
    lemma2_to64_rest();
    let s = spacing(n, d);
    let v = pow2(s);
    let u = d * v;
    lemma_spacing_exists(n, d);
    lemma_rounded_magnitude(n, d);
    lemma_pow2_pos(s);
    assert(u > 0) by (nonlinear_arith)
        requires
            d > 0,
            v > 0,
            u == d * v,
    ;
    let near = nearest(n, u);
    let m = pattern_magnitude(nearest_pattern(n, d));
    assert(m * d == near * u) by (nonlinear_arith)
        requires
            m == near * v,
            u == d * v,
    ;
    let i = pattern_shift(other);
    let sig = pattern_significand(other);
    let p = pattern_magnitude(other);
    lemma_pow2_pos(i);
    if i >= s {
        let w = pow2((i - s) as nat);
        lemma_pow2_adds((i - s) as nat, s);
        let k = sig * w;
        assert(p * d == k * u) by (nonlinear_arith)
            requires
                p == sig * (w * v),
                k == sig * w,
                u == d * v,
        ;
        lemma_nearest_multiple(n, u, k);
    } else {
        let h = HIDDEN as nat;
        lemma_pow2_adds(53, i);
        lemma_pow2_adds(52, s);
        lemma_pow2_increases(53 + i, 52 + s);
        let top = pow2(52 + s);
        assert(p <= top) by (nonlinear_arith)
            requires
                p == sig * pow2(i),
                sig < 2 * h,
                (2 * h) * pow2(i) <= top,
        ;
        assert(p * d <= d * top) by (nonlinear_arith)
            requires
                p <= top,
        ;
        assert(d * top == h * u) by (nonlinear_arith)
            requires
                top == h * v,
                u == d * v,
        ;
        lemma_nearest_multiple(n, u, h);
    }
}

/// Rounding moves a number by at most one part in two to the power 53, or by at
/// most half a step.
pub proof fn law_rounding_error(n: nat, d: nat)
    requires
        d > 0,
        nearest_pattern(n, d) < INFINITE,
    ensures
        ({
            let error = distance(pattern_magnitude(nearest_pattern(n, d)) * d - n);
            error * pow2(53) <= n || 2 * error <= d
        }),
{
    let s = spacing(n, d);
    let v = pow2(s);
    let u = d * v;
    lemma_spacing_exists(n, d);
    lemma_rounded_magnitude(n, d);
    lemma_pow2_pos(s);
    assert(u > 0) by (nonlinear_arith)
        requires
            d > 0,
            v > 0,
            u == d * v,
    ;
    let near = nearest(n, u);
    let m = pattern_magnitude(nearest_pattern(n, d));
    assert(m * d == near * u) by (nonlinear_arith)
        requires
            m == near * v,
            u == d * v,
    ;
    lemma_nearest_multiple(n, u, near);
    let error = distance(m * d - n);
    lemma2_to64();
    if s == 0 {
        assert(v == 1);
        assert(d * 1 == d);
    } else {
        lemma_pow2_adds(52, s);
        lemma_pow2_unfold(53);
        let half = pow2(52);
        assert(error * (2 * half) <= n) by (nonlinear_arith)
            requires
                2 * error <= u,
                u == d * v,
                d * (half * v) <= n,
        ;
    }
}

/// The absolute value of the largest finite double, in steps.
pub open spec fn largest() -> nat {
    pattern_magnitude((INFINITE - 1) as nat)
}

/// Rounding to a whole multiple keeps the order.
proof fn lemma_nearest_keeps_order(lower: nat, upper: nat, u: nat)
    requires
        u > 0,
        lower <= upper,
    ensures
        nearest(lower, u) <= nearest(upper, u),
{
    let q = lower / u;
    let t = upper / u;
    lemma_fundamental_div_mod(lower as int, u as int);
    lemma_mod_bound(lower as int, u as int);
    lemma_fundamental_div_mod(upper as int, u as int);
    lemma_mod_bound(upper as int, u as int);
    if t < q {
        assert(u * t + u <= u * q) by (nonlinear_arith)
            requires
                t + 1 <= q,
        ;
    }
}

/// Rounding keeps the order: what is larger is not rounded to less.
pub proof fn law_rounding_keeps_order(lower: nat, upper: nat, d: nat)
    requires
        d > 0,
        lower <= upper,
    ensures
        nearest_pattern(lower, d) <= nearest_pattern(upper, d),
        upper <= d * largest() ==> nearest_pattern(upper, d) < INFINITE,
{
    reveal(nearest_pattern);
    let s = spacing(lower, d);
    let t = spacing(upper, d);
    lemma_spacing_exists(lower, d);
    lemma_spacing_exists(upper, d);
    lemma_nearest_significand(lower, d, s);
    lemma_nearest_significand(upper, d, t);
    if t < s {
        lemma_pow2_increases(53 + t, 52 + s);
        assert(d * pow2(53 + t) <= d * pow2(52 + s)) by (nonlinear_arith)
            requires
                pow2(53 + t) <= pow2(52 + s),
        ;
    } else if s == t {
        lemma_pow2_pos(s);
        let u = d * pow2(s);
        assert(u > 0) by (nonlinear_arith)
            requires
                d > 0,
                pow2(s) > 0,
                u == d * pow2(s),
        ;
        lemma_nearest_keeps_order(lower, upper, u);
    }
    if upper <= d * largest() {
        lemma_rounded_at_most(upper, d, (INFINITE - 1) as nat);
    }
}

/// A quotient that is at least a finite double's absolute value is not rounded
/// below it.
pub proof fn lemma_rounded_at_least(n: nat, d: nat, p: nat)
    requires
        d > 0,
        p < INFINITE,
        d * pattern_magnitude(p) <= n <= d * largest(),
    ensures
        p <= nearest_pattern(n, d) < INFINITE,
{
    law_rounding_keeps_order(d * pattern_magnitude(p), n, d);
    lemma_rounded_exact(d * pattern_magnitude(p), d, p);
}

/// Rounding a number to a whole one moves it by at most one half.
proof fn lemma_round_magnitude(x: Double)
    ensures
        2 * distance(x.round_magnitude() * one_step() - x.magnitude()) <= one_step(),
{
    let one = one_step();
    lemma_pow2_pos(UNIT_SHIFT as nat);
    let m = x.magnitude();
    let q = m / one;
    let r = m % one;
    lemma_fundamental_div_mod(m as int, one as int);
    lemma_mod_bound(m as int, one as int);
    assert(one * q == q * one) by (nonlinear_arith);
    assert((q + 1) * one == q * one + one) by (nonlinear_arith);
}

/// A number less than one half away from a whole one is rounded to it.
proof fn lemma_round_to(x: Double, k: nat)
    requires
        2 * distance(k * one_step() - x.magnitude()) < one_step(),
    ensures
        x.round_magnitude() == k,
{
    let one = one_step();
    lemma_pow2_pos(UNIT_SHIFT as nat);
    lemma_round_magnitude(x);
    let j = x.round_magnitude();
    assert(j == k) by (nonlinear_arith)
        requires
            -one < j * one - k * one < one,
            one > 0,
    ;
}

/// The constant of the grid is one million.
pub proof fn lemma_grid_scale()
    ensures
        grid_scale().finite(),
        !grid_scale().negative(),
        grid_scale().magnitude() == 1_000_000 * one_step(),
{
    lemma2_to64_rest();
    lemma2_to64();
    let scale = grid_scale();
    assert(scale.pattern() == HASH_QUANTIZATION_UNIT_INV);
    assert(scale.shift() == 1041);
    assert(scale.significand() == 1_000_000 * 0x2_0000_0000);
    lemma_pow2_adds(33, 1041);
    let e = pow2(1041);
    assert((1_000_000 * 0x2_0000_0000) * e == 1_000_000 * (0x2_0000_0000 * e)) by (nonlinear_arith);
}

/// The numbers of which the laws of the grid speak: those up to two to the power
/// 30 in size.
pub open spec fn is_moderate(v: Double) -> bool {
    v.finite() && v.magnitude() <= 0x4000_0000 * one_step()
}

/// A million times a number, as it is computed, and as it is exactly.
proof fn lemma_times_million(v: Double)
    requires
        v.finite(),
        v.magnitude() <= 0x4000_0001 * one_step(),
    ensures
        product(v, grid_scale()).finite(),
        product(v, grid_scale()).negative() == v.negative(),
        distance(product(v, grid_scale()).magnitude() - 1_000_000 * v.magnitude()) * 8 < one_step(),
{
    let one = one_step();
    let m = v.magnitude();
    let scale = grid_scale();
    lemma_pow2_pos(UNIT_SHIFT as nat);
    lemma2_to64_rest();
    lemma_grid_scale();
    let n = m * scale.magnitude();
    let x = whole(false, 0x10_0000_0000_0000);
    lemma_whole_exact(false, 0x10_0000_0000_0000);
    assert(m * (1_000_000 * one) <= one * (0x10_0000_0000_0000 * one)) by (nonlinear_arith)
        requires
            0 <= m <= 0x4000_0001 * one,
            one > 0,
    ;
    lemma_rounded_at_most(n, one, x.pattern());
    law_rounding_error(n, one);
    let p = product(v, scale).magnitude();
    let error = distance(p - 1_000_000 * m);
    assert(p * one - n == (p - 1_000_000 * m) * one) by (nonlinear_arith)
        requires
            n == m * (1_000_000 * one),
    ;
    let off = p - 1_000_000 * m;
    assert(distance(off * one) == error * one) by {
        if off >= 0 {
            assert(off * one >= 0) by (nonlinear_arith)
                requires
                    off >= 0,
                    one > 0,
            ;
        } else {
            assert(off * one < 0) by (nonlinear_arith)
                requires
                    off < 0,
                    one > 0,
            ;
            assert((-off) * one == -(off * one)) by (nonlinear_arith);
        }
    }
    let e = pow2(53);
    if (error * one) * e <= n {
        assert(error * 8 < one) by (nonlinear_arith)
            requires
                (error * one) * e <= m * (1_000_000 * one),
                0 <= m <= 0x4000_0001 * one,
                e == 0x20_0000_0000_0000,
                one > 0,
        ;
    } else {
        assert(error == 0) by (nonlinear_arith)
            requires
                2 * (error * one) <= one,
                one > 0,
        ;
    }
}

/// A whole number of millionths, as it is computed, and as it is exactly.
proof fn lemma_over_million(negative: bool, k: nat)
    requires
        k <= 0x4_0000_0000_0000,
    ensures
        quotient(whole(negative, k), grid_scale()).finite(),
        quotient(whole(negative, k), grid_scale()).negative() == negative,
        distance(
            1_000_000 * quotient(whole(negative, k), grid_scale()).magnitude() - k * one_step(),
        ) * 8 <= one_step(),
{
    let one = one_step();
    let scale = grid_scale();
    let w = whole(negative, k);
    lemma_pow2_pos(UNIT_SHIFT as nat);
    lemma2_to64_rest();
    lemma_grid_scale();
    lemma_whole_exact(negative, k);
    let d = scale.magnitude();
    let n = w.magnitude() * one;
    let x = whole(false, 0x10_0000_0000_0000);
    lemma_whole_exact(false, 0x10_0000_0000_0000);
    assert((k * one) * one <= (1_000_000 * one) * (0x10_0000_0000_0000 * one)) by (nonlinear_arith)
        requires
            k <= 0x4_0000_0000_0000,
            one > 0,
    ;
    assert(d > 0);
    lemma_rounded_at_most(n, d, x.pattern());
    law_rounding_error(n, d);
    let q = quotient(w, scale).magnitude();
    let off = 1_000_000 * q - k * one;
    let error = distance(off);
    assert(q * d - n == off * one) by (nonlinear_arith)
        requires
            n == (k * one) * one,
            d == 1_000_000 * one,
            off == 1_000_000 * q - k * one,
    ;
    assert(distance(off * one) == error * one) by {
        if off >= 0 {
            assert(off * one >= 0) by (nonlinear_arith)
                requires
                    off >= 0,
                    one > 0,
            ;
        } else {
            assert(off * one < 0) by (nonlinear_arith)
                requires
                    off < 0,
                    one > 0,
            ;
            assert((-off) * one == -(off * one)) by (nonlinear_arith);
        }
    }
    let e = pow2(53);
    if (error * one) * e <= n {
        assert(error * 8 <= one) by (nonlinear_arith)
            requires
                (error * one) * e <= (k * one) * one,
                k <= 0x4_0000_0000_0000,
                e == 0x20_0000_0000_0000,
                one > 0,
        ;
    } else {
        assert(error <= 500_000) by (nonlinear_arith)
            requires
                2 * (error * one) <= 1_000_000 * one,
                one > 0,
        ;
        lemma_pow2_increases(64, UNIT_SHIFT as nat);
    }
}

/// Where a moderate number comes to lie on the grid: it is a whole number of
/// millionths, as close to it as two roundings allow.
proof fn lemma_grid_place(v: Double)
    requires
        v.finite(),
        v.magnitude() <= 0x4000_0001 * one_step(),
    ensures
        ({
            let k = product(v, grid_scale()).round_magnitude();
            &&& k <= 0x4_0000_0000_0000
            &&& grid_steps(v) == whole(v.negative(), k)
            &&& on_grid(v) == quotient(whole(v.negative(), k), grid_scale())
            &&& distance(k * one_step() - 1_000_000 * v.magnitude()) * 8 < 5 * one_step()
        }),
{
    reveal(on_grid);
    let one = one_step();
    let x = product(v, grid_scale());
    let k = x.round_magnitude();
    lemma_pow2_pos(UNIT_SHIFT as nat);
    lemma_times_million(v);
    lemma_round_magnitude(x);
    assert(k <= 0x4_0000_0000_0000) by (nonlinear_arith)
        requires
            8 * (k * one - 1_000_000 * v.magnitude()) < 5 * one,
            v.magnitude() <= 0x4000_0001 * one,
            one > 0,
    ;
}

/// Moving a moderate number to the grid keeps its sign and moves it by less than
/// a millionth.
pub proof fn law_grid_moves_less_than_a_millionth(v: Double)
    requires
        is_moderate(v),
    ensures
        on_grid(v).finite(),
        on_grid(v).negative() == v.negative(),
        1_000_000 * distance(on_grid(v).value() - v.value()) < one_step(),
{
    let k = product(v, grid_scale()).round_magnitude();
    lemma_pow2_pos(UNIT_SHIFT as nat);
    lemma_grid_place(v);
    lemma_over_million(v.negative(), k);
}

/// A moderate number that lies on the grid stays where it is, so that storing a
/// number again changes nothing.
pub proof fn law_grid_is_stable(v: Double)
    requires
        is_moderate(v),
    ensures
        grid_steps(on_grid(v)) == grid_steps(v),
        on_grid(on_grid(v)) == on_grid(v),
{
    reveal(on_grid);
    let one = one_step();
    let k = product(v, grid_scale()).round_magnitude();
    lemma_pow2_pos(UNIT_SHIFT as nat);
    lemma_grid_place(v);
    lemma_over_million(v.negative(), k);
    let g = on_grid(v);
    let x = product(g, grid_scale());
    assert(g.magnitude() <= 0x4000_0001 * one);
    lemma_times_million(g);
    lemma_round_to(x, k);
}

/// Whether a moderate number lies on the grid.
pub open spec fn is_grid_number(v: Double) -> bool {
    is_moderate(v) && on_grid(v) == v
}

/// Whether a number is at most a quarter of a millionth away from another.
pub open spec fn is_close(v: Double, other: Double) -> bool {
    v.finite() && 4_000_000 * distance(v.value() - other.value()) <= one_step()
}

/// A number close to one on the grid is moved to it.
pub proof fn law_close_number_is_moved_to_the_grid(v: Double, target: Double)
    requires
        is_grid_number(target),
        is_close(v, target),
    ensures
        on_grid(v).same(target),
{
    let one = one_step();
    let k = product(target, grid_scale()).round_magnitude();
    let x = product(v, grid_scale());
    lemma_pow2_pos(UNIT_SHIFT as nat);
    lemma_grid_place(target);
    lemma_over_million(target.negative(), k);
    lemma_times_million(v);
    if k == 0 {
        assert(k * one == 0) by (nonlinear_arith)
            requires
                k == 0,
        ;
    } else {
        assert(k * one >= one) by (nonlinear_arith)
            requires
                k >= 1,
        ;
    }
    lemma_round_to(x, k);
    lemma_grid_place(v);
    lemma_over_million(v.negative(), k);
    lemma_whole_exact(v.negative(), k);
    lemma_whole_exact(target.negative(), k);
    lemma_grid_scale();
    let n = (k * one) * one;
    lemma_rounded_magnitude(n, grid_scale().magnitude());
    assert(on_grid(v).pattern() == nearest_pattern(n, grid_scale().magnitude()));
    assert(target.pattern() == nearest_pattern(n, grid_scale().magnitude()));
    if k == 0 {
        lemma_magnitude_zero(0);
        assert(n == 0) by (nonlinear_arith)
            requires
                k * one == 0,
                n == (k * one) * one,
        ;
        lemma_rounded_exact(0, grid_scale().magnitude(), 0);
    }
}

} // verus!
