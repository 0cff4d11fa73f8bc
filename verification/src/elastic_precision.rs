//! What the curve of an elastic segment is, up to rounding.
use crate::arithmetic::{difference, product, quotient, sum};
use crate::bounce_precision::{exact, lemma_exact, lemma_numbers, size, ulp};
use crate::curve::TimeControlElastic;
use crate::double::{lemma_magnitude_zero, one_step, Double, UNIT_SHIFT};
use crate::elastic::{elastic_outline, ElasticFormula, Wave};
use crate::numbers::{lemma_one, lemma_two, number, HALF, ONE, TWO, ZERO};
use crate::tolerance::{
    is_about, lemma_about_difference, lemma_about_product, lemma_about_quotient, lemma_about_sum,
};
use vstd::arithmetic::power2::*;
use vstd::prelude::*;

verus! {

// The parameters.

/// An amplitude between zero and one is drawn as it is given, and any other number as the
/// nearer of the two. A frequency of at least one half and a decay of at least one are
/// drawn as they are given, and any less as those. Whether the segment is reversed plays
/// no part in it.
pub proof fn law_elastic_parameters_are_held(elastic: TimeControlElastic)
    requires
        !elastic.amplitude.nan(),
        !elastic.frequency.nan(),
        !elastic.decay.nan(),
    ensures
        ({
            let outline = elastic_outline(elastic);
            let (zero, one, half) = (number(ZERO), number(ONE), number(HALF));
            &&& zero.at_most(elastic.amplitude) && elastic.amplitude.at_most(one)
                ==> outline.amplitude == elastic.amplitude
            &&& elastic.amplitude.less(zero) ==> outline.amplitude == zero
            &&& one.less(elastic.amplitude) ==> outline.amplitude == one
            &&& half.at_most(elastic.frequency) ==> outline.frequency == elastic.frequency
            &&& elastic.frequency.less(half) ==> outline.frequency == half
            &&& one.at_most(elastic.decay) ==> outline.decay == elastic.decay
            &&& elastic.decay.less(one) ==> outline.decay == one
        }),
{
    lemma_one();
    lemma_magnitude_zero(0);
}

// The height.

/// The height of an oscillation at full amplitude. `rest` is what is left of it at the
/// end, `power` that to the power of the moment, and `cos` the cosine of the angle.
pub open spec fn full_height(rest: real, power: real, cos: real) -> real {
    1real - ((power - rest) / (1real - rest)) * cos
}

/// The number held between zero and two.
pub open spec fn held_height(y: real) -> real {
    if y < 0real {
        0real
    } else if y > 2real {
        2real
    } else {
        y
    }
}

/// Whether a number is finite and lies between two others.
pub open spec fn is_between(v: Double, low: real, high: real) -> bool {
    v.finite() && low <= exact(v) <= high
}

/// Whether a wave is one of an oscillation that dies down.
pub open spec fn is_wave(wave: Wave) -> bool {
    &&& is_between(wave.power, 0real, 1real)
    &&& is_between(wave.cos, -1real, 1real)
    &&& is_between(wave.sin, -1real, 1real)
}

/// The share of the oscillation that is left.
proof fn lemma_share_left(rest: real, power: real)
    requires
        0real <= rest <= 1real / 2real,
        0real <= power <= 1real,
    ensures
        size((power - rest) / (1real - rest)) <= 1real,
{
    let (x, y) = (power - rest, 1real - rest);
    let q = x / y;
    assert(q * y == x) by (nonlinear_arith)
        requires
            q == x / y,
            y > 0real,
    ;
    assert(-1real <= q <= 1real) by (nonlinear_arith)
        requires
            q * y == x,
            -y <= x <= y,
            y >= 1real / 2real,
    ;
}

/// At full amplitude the height of the curve is that of the oscillation.
pub proof fn law_elastic_height_at_full_amplitude(formula: ElasticFormula, wave: Wave)
    requires
        is_between(formula.exp_k, 0real, 1real / 2real),
        is_wave(wave),
    ensures
        is_about(
            formula.height(wave),
            full_height(exact(formula.exp_k), exact(wave.power), exact(wave.cos)),
            40real * ulp(),
        ),
        size(
            full_height(exact(formula.exp_k), exact(wave.power), exact(wave.cos)) - 1real,
        ) <= 1real,
{
    let one = number(ONE);
    let e = ulp();
    let (k, p, c) = (exact(formula.exp_k), exact(wave.power), exact(wave.cos));
    lemma_numbers();
    lemma_share_left(k, p);
    let above = difference(wave.power, formula.exp_k);
    let below = difference(one, formula.exp_k);
    lemma_about_difference(wave.power, formula.exp_k, p, k, 0real, 0real, 1real);
    lemma_about_difference(one, formula.exp_k, 1real, k, 0real, 0real, 1real);
    let q = (p - k) / (1real - k);
    lemma_about_quotient(
        above,
        below,
        p - k,
        1real - k,
        1real / 2real,
        2real * e,
        2real * e,
        1real,
    );
    let coef = quotient(above, below);
    assert(is_about(coef, q, 19real * e));
    lemma_about_product(coef, wave.cos, q, c, 1real, 1real, 19real * e, 0real, 2real);
    let wavy = product(coef, wave.cos);
    assert(is_about(wavy, q * c, 22real * e));
    lemma_about_difference(one, wavy, 1real, q * c, 0real, 22real * e, 3real);
}

// The slope.

/// The slope of an oscillation at full amplitude, times one minus `rest`: how its height
/// changes when the power falls as fast as the decay and the angle grows as fast as
/// `omega`.
pub open spec fn full_slope(
    decay: real,
    omega: real,
    rest: real,
    power: real,
    cos: real,
    sin: real,
) -> real {
    decay * power * cos + omega * (power - rest) * sin
}

/// The slope of the curve at full amplitude is that of the oscillation, for decays and
/// speeds of the angle up to a million.
pub proof fn law_elastic_slope_at_full_amplitude(formula: ElasticFormula, wave: Wave)
    requires
        is_between(formula.exp_k, 0real, 1real / 2real),
        is_wave(wave),
        is_between(formula.decay, 0real, 1000000real),
        is_between(formula.omega, 0real, 1000000real),
    ensures
        is_about(
            formula.slope(wave),
            full_slope(
                exact(formula.decay),
                exact(formula.omega),
                exact(formula.exp_k),
                exact(wave.power),
                exact(wave.cos),
                exact(wave.sin),
            ),
            24000000real * ulp(),
        ),
        size(
            full_slope(
                exact(formula.decay),
                exact(formula.omega),
                exact(formula.exp_k),
                exact(wave.power),
                exact(wave.cos),
                exact(wave.sin),
            ),
        ) <= 2000000real,
{
    let e = ulp();
    let (d, w, k) = (exact(formula.decay), exact(formula.omega), exact(formula.exp_k));
    let (p, c, s) = (exact(wave.power), exact(wave.cos), exact(wave.sin));
    // The part of the decay.
    lemma_about_product(
        formula.decay,
        wave.power,
        d,
        p,
        1000000real,
        1real,
        0real,
        0real,
        1000000real,
    );
    let fall = product(formula.decay, wave.power);
    assert(is_about(fall, d * p, 2000000real * e));
    lemma_about_product(
        fall,
        wave.cos,
        d * p,
        c,
        1000000real,
        1real,
        2000000real * e,
        0real,
        2000000real,
    );
    let first = product(fall, wave.cos);
    assert(is_about(first, d * p * c, 5000000real * e));
    // The part of the angle.
    lemma_about_difference(wave.power, formula.exp_k, p, k, 0real, 0real, 1real);
    let left = difference(wave.power, formula.exp_k);
    lemma_about_product(
        formula.omega,
        left,
        w,
        p - k,
        1000000real,
        1real,
        0real,
        2real * e,
        2000000real,
    );
    let turn = product(formula.omega, left);
    assert(is_about(turn, w * (p - k), 5000000real * e));
    lemma_about_product(
        turn,
        wave.sin,
        w * (p - k),
        s,
        1000000real,
        1real,
        5000000real * e,
        0real,
        2000000real,
    );
    let second = product(turn, wave.sin);
    assert(is_about(second, w * (p - k) * s, 8000000real * e));
    lemma_about_sum(
        first,
        second,
        d * p * c,
        w * (p - k) * s,
        5000000real * e,
        8000000real * e,
        3000000real,
    );
}

// The amplitude.

/// After the first extremum the curve deviates from the line at height one by the
/// amplitude's share of what the oscillation does.
pub proof fn law_amplitude_scales_the_deviation(
    formula: ElasticFormula,
    progress: Double,
    wave: Wave,
)
    requires
        is_between(formula.amplitude, 0real, 1real),
        is_between(formula.exp_k, 0real, 1real / 2real),
        is_wave(wave),
        !progress.less(formula.first_extremum_t),
    ensures
        ({
            let h = full_height(exact(formula.exp_k), exact(wave.power), exact(wave.cos));
            is_about(
                formula.state(progress, wave).0,
                held_height(1real + exact(formula.amplitude) * (h - 1real)),
                64real * ulp(),
            )
        }),
{
    let one = number(ONE);
    let e = ulp();
    let h = full_height(exact(formula.exp_k), exact(wave.power), exact(wave.cos));
    let a = exact(formula.amplitude);
    lemma_numbers();
    law_elastic_height_at_full_amplitude(formula, wave);
    let value = formula.height(wave);
    lemma_about_difference(value, one, h, 1real, 40real * e, 0real, 2real);
    let off = difference(value, one);
    assert(is_about(off, h - 1real, 43real * e));
    lemma_about_product(
        formula.amplitude,
        off,
        a,
        h - 1real,
        1real,
        1real,
        0real,
        43real * e,
        2real,
    );
    let part = product(formula.amplitude, off);
    assert(is_about(part, a * (h - 1real), 46real * e));
    lemma_about_sum(part, one, a * (h - 1real), 1real, 46real * e, 0real, 3real);
    let y = 1real + a * (h - 1real);
    assert(formula.applied(progress, wave).0 == sum(part, one));
    lemma_held_height(formula.applied(progress, wave).0, y, 50real * e);
    reveal(ElasticFormula::state);
}

/// Holding a number between zero and two.
pub proof fn lemma_held_height(v: Double, y: real, error: real)
    requires
        is_about(v, y, error),
    ensures
        ({
            let (zero, two) = (number(ZERO), number(TWO));
            let r = if zero.at_most(v) && v.at_most(two) {
                v
            } else {
                v.clamped(zero, two)
            };
            is_about(r, held_height(y), error)
        }),
{
    let u = one_step() as real;
    lemma_pow2_pos(UNIT_SHIFT as nat);
    lemma_magnitude_zero(0);
    lemma_two();
    lemma_numbers();
    lemma_exact(v);
    lemma_exact(number(ZERO));
    lemma_exact(number(TWO));
    let (x, n) = (exact(v), v.value());
    let z = exact(number(ZERO));
    assert(z == 0real) by (nonlinear_arith)
        requires
            z * u == 0real,
            u > 0real,
    ;
    lemma_sign(x, u, n as real);
    lemma_sign(x - 2real, u, n as real - 2real * u);
}

/// A number times the unit has the sign of the number.
proof fn lemma_sign(x: real, u: real, n: real)
    requires
        u > 0real,
    ensures
        x * u == n ==> (x < 0real <==> n < 0real) && (x > 0real <==> n > 0real),
        (x + 2real) * u == n + 2real * u ==> x * u == n,
{
    assert((x + 2real) * u == x * u + 2real * u) by (nonlinear_arith);
    if x > 0real {
        assert(x * u > 0real) by (nonlinear_arith)
            requires
                x > 0real,
                u > 0real,
        ;
    }
    if x < 0real {
        assert(x * u < 0real) by (nonlinear_arith)
            requires
                x < 0real,
                u > 0real,
        ;
    }
    assert(0real * u == 0real) by (nonlinear_arith);
}

} // verus!
