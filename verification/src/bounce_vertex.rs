//! Where the ball is farthest from the line after its first bounce.
use crate::arithmetic::{difference, product, quotient, sum};
use crate::bounce::{bounce_outline, kept_energy, BounceFormula};
use crate::bounce_precision::{
    exact, is_moderate_bounce, is_off, is_share, law_outlined_bounce_is_moderate, lemma_bounds,
    lemma_exact, lemma_height, lemma_middle, lemma_numbers, lemma_quotient, middle_in_periods, size,
    ulp,
};
use crate::curve::TimeControlBounce;
use crate::double::{one_step, Double, UNIT_SHIFT};
use crate::elastic_precision::is_between;
use crate::numbers::{number, ALMOST_ONE, ONE, THOUSANDTH, TWO};
use crate::tolerance::{
    is_about, lemma_about_difference, lemma_about_product, lemma_about_quotient, lemma_about_sum,
    lemma_order_product, lemma_size_product,
};
use vstd::arithmetic::power2::*;
use vstd::prelude::*;

verus! {

/// The middle of the first bounce after the fall, in periods.
proof fn lemma_first_middle(cor: real, power: real)
    requires
        1real / 1024real <= cor <= 1023real / 1024real,
        size(power - cor) <= 1real / 1099511627776real,
    ensures
        size(middle_in_periods(cor, power) - (cor + 1real) / 2real) <= 1real / 500000000real,
{
    let z = cor - 1real;
    let w = 1real / z;
    let d = power - cor;
    assert(w * z == 1real && -1024real <= w < 0real) by (nonlinear_arith)
        requires
            w == 1real / z,
            z <= -1real / 1024real,
    ;
    let b = ((cor + 1real) * power) / (2real * z);
    let n = (cor + 1real) * power;
    assert(2real * b == n * w) by (nonlinear_arith)
        requires
            b == n / (2real * z),
            w * z == 1real,
            z < 0real,
    ;
    // With the exact power, twice the middle is one more than the share.
    let m = (cor + 1real) * cor;
    assert(m == z * z + 3real * z + 2real) by (nonlinear_arith)
        requires
            m == (cor + 1real) * cor,
            z == cor - 1real,
    ;
    assert(m * w == z + 3real + 2real * w) by (nonlinear_arith)
        requires
            m == z * z + 3real * z + 2real,
            w * z == 1real,
    ;
    let f = cor + 1real;
    assert(n == m + f * d) by (nonlinear_arith)
        requires
            n == f * power,
            m == f * cor,
            d == power - cor,
    ;
    let g = f * d;
    assert(n * w == m * w + g * w) by (nonlinear_arith)
        requires
            n == m + g,
    ;
    lemma_size_product(f, d);
    lemma_order_product(size(f), 2real, size(d), 1real / 1099511627776real);
    lemma_size_product(g, w);
    lemma_order_product(size(g), 2real / 1099511627776real, size(w), 1024real);
}

/// The period of a bounce, as it is computed.
proof fn lemma_about_period(x: Double, cor: Double)
    requires
        is_between(x, 1real / 1024real, 1023real / 1024real),
        is_between(cor, 1real / 1024real, 1023real / 1024real),
    ensures
        is_about(
            quotient(product(number(TWO), x), sum(cor, number(ONE))),
            (2real * exact(x)) / (exact(cor) + 1real),
            32real * ulp(),
        ),
        size((2real * exact(x)) / (exact(cor) + 1real)) <= 2real,
{
    let (one, two) = (number(ONE), number(TWO));
    let e = ulp();
    let (a, c) = (exact(x), exact(cor));
    lemma_numbers();
    lemma_about_product(two, x, 2real, a, 2real, 1real, 0real, 0real, 2real);
    lemma_about_sum(cor, one, c, 1real, 0real, 0real, 2real);
    let q = (2real * a) / (c + 1real);
    let f = c + 1real;
    assert(q * f == 2real * a) by (nonlinear_arith)
        requires
            q == (2real * a) / f,
            f > 0real,
    ;
    assert(0real <= q <= 2real) by (nonlinear_arith)
        requires
            q * f == 2real * a,
            0real <= a <= 1real,
            f >= 1real,
    ;
    lemma_about_quotient(
        product(two, x),
        sum(cor, one),
        2real * a,
        f,
        1real,
        3real * e,
        3real * e,
        2real,
    );
}

/// A period times the middle in periods.
proof fn lemma_about_vertex(t: real, m: real, x: real, f: real, y: real, error: real)
    requires
        1real <= f <= 2real,
        0real <= x <= 1real,
        t * f == 2real * x,
        size(y - t) <= error,
        size(m - f / 2real) <= 1real / 100000000real,
        error <= 1real / 1000000000real,
        size(t) <= 2real,
    ensures
        size(y * m - x) <= 1real / 30000000real,
{
    let (p, q) = (y - t, m - f / 2real);
    let h = f / 2real;
    assert(y * m == t * h + t * q + p * h + p * q) by (nonlinear_arith)
        requires
            p == y - t,
            q == m - h,
    ;
    assert(t * h == (t * f) / 2real) by (nonlinear_arith)
        requires
            h == f / 2real,
    ;
    lemma_size_product(t, q);
    lemma_order_product(size(t), 2real, size(q), 1real / 100000000real);
    lemma_size_product(p, h);
    lemma_order_product(size(p), 1real / 1000000000real, size(h), 1real);
    lemma_size_product(p, q);
    lemma_order_product(size(p), 1real, size(q), 1real / 100000000real);
}

/// A double from its share of a period.
proof fn lemma_from_periods(v: Double, period: Double, m: real)
    requires
        is_between(period, 1real / 2048real, 2real),
        is_off(quotient(v, period), m, 24000000real),
        size(m) <= 2real,
    ensures
        v.finite(),
        ({
            let z = exact(v) / exact(period);
            &&& z * exact(period) == exact(v)
            &&& size(z - m) <= 1real / 300000000real
        }),
{
    let q = quotient(v, period);
    let (r, t) = (exact(v), exact(period));
    let e = ulp();
    assert(v.finite());
    lemma_quotient(v, period);
    let z = r / t;
    assert(z * t == r) by (nonlinear_arith)
        requires
            z == r / t,
            t > 0real,
    ;
    assert(e * size(z) <= size(z) / 1000000real) by (nonlinear_arith)
        requires
            size(z) >= 0real,
            e == 1real / 9007199254740992real,
    ;
    assert(size(z) <= 3real);
    lemma_order_product(e, e, size(z), 3real);
}

/// The ball is farthest from the line after its first bounce where the vertex of the
/// segment is, at its moment and at its height, up to a millionth: whichever way the
/// segment is drawn, wherever the vertex lies in the square, as long as the root is
/// nearly the square root of what was asked for, and the powers are nearly those of it.
pub proof fn law_first_rebound_has_the_vertex(
    bounce: TimeControlBounce,
    root: Double,
    last: Double,
    power: Double,
    squared: Double,
)
    requires
        number(THOUSANDTH).at_most(bounce.vertex.x) && bounce.vertex.x.at_most(number(ALMOST_ONE)),
        number(THOUSANDTH).at_most(bounce.vertex.y) && bounce.vertex.y.at_most(number(ONE)),
        number(THOUSANDTH).at_most(root) && root.at_most(number(ALMOST_ONE)),
        size(exact(root) * exact(root) - exact(kept_energy(bounce))) <= 1real / 1000000000real,
        is_share(power),
        is_share(squared),
        size(exact(power) - exact(root)) <= 1real / 1099511627776real,
        size(exact(squared) - exact(root) * exact(root)) <= 1real / 1000000000real,
    ensures
        ({
            let formula = bounce_outline(bounce, root).formula(last);
            let moment = formula.middle_of(power);
            let height = formula.state_of(power, squared, moment).0;
            &&& is_about(moment, exact(bounce.vertex.x), 1real / 1000000real)
            &&& is_about(height, exact(bounce.vertex.y), 1real / 1000000real)
        }),
{
    let formula = bounce_outline(bounce, root).formula(last);
    lemma_bounds();
    lemma_numbers();
    lemma_held_range(bounce.vertex.x, THOUSANDTH, ALMOST_ONE);
    lemma_held_range(bounce.vertex.y, THOUSANDTH, ONE);
    lemma_held_range(root, THOUSANDTH, ALMOST_ONE);
    assert(formula.cor == root);
    law_outlined_bounce_is_moderate(bounce, root, last);
    lemma_moment(formula, bounce.vertex.x, power);
    lemma_vertex_height(formula, bounce.vertex.y, power, squared);
}

/// A number between two others is finite.
proof fn lemma_held_range(v: Double, low: u64, high: u64)
    requires
        number(low).at_most(v),
        v.at_most(number(high)),
        number(low).finite() && !number(low).negative(),
        number(high).finite(),
    ensures
        v.finite(),
        exact(number(low)) <= exact(v) <= exact(number(high)),
{
    let u = one_step() as real;
    lemma_pow2_pos(UNIT_SHIFT as nat);
    v.lemma_order(number(high));
    lemma_exact(v);
    lemma_exact(number(low));
    lemma_exact(number(high));
    lemma_quotient_order(number(low).value() as real, v.value() as real, u);
    lemma_quotient_order(v.value() as real, number(high).value() as real, u);
}

proof fn lemma_quotient_order(a: real, b: real, u: real)
    requires
        a <= b,
        u > 0real,
    ensures
        a / u <= b / u,
{
    assert(a / u <= b / u) by (nonlinear_arith)
        requires
            a <= b,
            u > 0real,
    ;
}

/// The moment of the vertex.
proof fn lemma_moment(formula: BounceFormula, x: Double, power: Double)
    requires
        is_moderate_bounce(formula),
        is_between(x, 1real / 1024real, 1023real / 1024real),
        formula.period == quotient(product(number(TWO), x), sum(formula.cor, number(ONE))),
        is_share(power),
        size(exact(power) - exact(formula.cor)) <= 1real / 1099511627776real,
    ensures
        is_about(formula.middle_of(power), exact(x), 1real / 1000000real),
{
    let c = exact(formula.cor);
    let f = c + 1real;
    let m = middle_in_periods(c, exact(power));
    lemma_first_middle(c, exact(power));
    lemma_middle(formula, power);
    lemma_from_periods(formula.middle_of(power), formula.period, m);
    lemma_about_period(x, formula.cor);
    let t = (2real * exact(x)) / f;
    assert(t * f == 2real * exact(x)) by (nonlinear_arith)
        requires
            t == (2real * exact(x)) / f,
            f > 0real,
    ;
    let y = exact(formula.period);
    let z = exact(formula.middle_of(power)) / y;
    lemma_about_vertex(t, z, exact(x), f, y, 32real * ulp());
    assert(y * z == z * y) by (nonlinear_arith);
}

/// The height of the vertex.
proof fn lemma_vertex_height(formula: BounceFormula, y: Double, power: Double, squared: Double)
    requires
        is_moderate_bounce(formula),
        is_between(y, 0real, 1real),
        is_share(power),
        is_share(squared),
        size(
            exact(formula.cor) * exact(formula.cor) - exact(difference(number(ONE), y)),
        ) <= 1real / 1000000000real,
        size(exact(squared) - exact(formula.cor) * exact(formula.cor)) <= 1real / 1000000000real,
    ensures
        ({
            let moment = formula.middle_of(power);
            is_about(
                formula.state_of(power, squared, moment).0,
                exact(y),
                1real / 1000000real,
            )
        }),
{
    let moment = formula.middle_of(power);
    let q = quotient(moment, formula.period);
    let off = difference(q, q);
    lemma_numbers();
    lemma_middle(formula, power);
    lemma_about_difference(q, q, exact(q), exact(q), 0real, 0real, 0real);
    assert(0real * 0real == 0real) by (nonlinear_arith);
    lemma_height(off, squared, 0real);
    lemma_about_difference(number(ONE), y, 1real, exact(y), 0real, 0real, 1real);
}

} // verus!
