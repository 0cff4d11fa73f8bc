//! What an elastic segment is drawn as.
use crate::arithmetic::{difference, product, quotient, sum};
use crate::bounce_precision::{
    exact, is_rounded, lemma_exact, lemma_numbers, lemma_quotient, lemma_whole_product, size, ulp,
};
use crate::bounds::lemma_eight;
use crate::conversion::{lemma_whole_exact, whole};
use crate::curve::{TimeControlElastic, TimeControlSegment};
use crate::double::{lemma_magnitude_zero, one_step, Double, UNIT_SHIFT};
use crate::elastic::{
    coincide, elastic_outline, grid_moment, is_drawable, is_inside, piece_ends, without_repeats,
    Crossing, ElasticFormula, Wave, REFINEMENTS,
};
use crate::elastic_precision::{
    full_height, full_slope, held_height, is_between, is_wave, law_amplitude_scales_the_deviation,
    law_elastic_height_at_full_amplitude, law_elastic_slope_at_full_amplitude, lemma_held_height,
};
use crate::elastic_sampler::{
    complete, extrema, extremum_in, law_elastic_spans_follow_the_curve, narrowed, refined,
    whole_interval,
};
use crate::numbers::{
    lemma_one, number, BILLIONTH, EIGHT, FOUR, HALF, MOST_POINTS, ONE, PI, TWENTIETH, TWO, ZERO,
};
use crate::rounding::lemma_rounded_magnitude;
use crate::sampler::Functions;
use crate::tolerance::{
    is_about, lemma_about_difference, lemma_about_product, lemma_about_quotient, lemma_about_sum,
    lemma_order_product, lemma_size_product,
};
use vstd::arithmetic::div_mod::*;
use vstd::arithmetic::power2::*;
use vstd::prelude::*;

verus! {

/// The amplitude of an elastic segment, held between zero and one.
pub open spec fn amplitude_of(elastic: TimeControlElastic) -> real {
    if elastic.amplitude.less(number(ZERO)) {
        0real
    } else if number(ONE).less(elastic.amplitude) {
        1real
    } else {
        exact(elastic.amplitude)
    }
}

/// The amplitude with which a segment is drawn.
proof fn lemma_amplitude(elastic: TimeControlElastic)
    requires
        !elastic.amplitude.nan(),
    ensures
        is_between(elastic_outline(elastic).amplitude, 0real, 1real),
        exact(elastic_outline(elastic).amplitude) == amplitude_of(elastic),
{
    let v = elastic.amplitude;
    let u = one_step() as real;
    lemma_pow2_pos(UNIT_SHIFT as nat);
    lemma_magnitude_zero(0);
    lemma_one();
    lemma_numbers();
    v.lemma_order(number(ONE));
    lemma_exact(v);
    lemma_exact(number(ZERO));
    let z = exact(number(ZERO));
    assert(z == 0real) by (nonlinear_arith)
        requires
            z * u == 0real,
            u > 0real,
    ;
    if !v.less(number(ZERO)) && !number(ONE).less(v) {
        let (x, n) = (exact(v), v.value() as real);
        assert(0real <= x <= 1real) by (nonlinear_arith)
            requires
                x * u == n,
                0real <= n <= u,
                u > 0real,
        ;
    }
}

/// Finding the first extremum changes nothing else of the formula.
proof fn lemma_refined_keeps(formula: ElasticFormula, waves: spec_fn(Double) -> Wave, n: nat)
    ensures
        ({
            let r = refined(formula, waves, n);
            &&& r.amplitude == formula.amplitude
            &&& r.frequency == formula.frequency
            &&& r.decay == formula.decay
            &&& r.omega == formula.omega
            &&& r.exp_k == formula.exp_k
        }),
    decreases n,
{
    if n > 0 {
        lemma_refined_keeps(formula, waves, (n - 1) as nat);
    }
}

/// The full height of the oscillation of an elastic segment at a moment, with given
/// functions.
pub open spec fn oscillation(
    functions: Functions,
    elastic: TimeControlElastic,
    moment: Double,
) -> real {
    let formula = functions.elastic_formula(elastic);
    full_height(
        exact(formula.exp_k),
        exact((functions.power)(formula.exp_k, moment)),
        exact((functions.cos)(formula.angle_at(moment))),
    )
}

/// Whether the functions give an oscillation that dies down at a moment.
pub open spec fn has_wave(
    functions: Functions,
    elastic: TimeControlElastic,
    moment: Double,
) -> bool {
    let formula = functions.elastic_formula(elastic);
    &&& is_between(formula.exp_k, 0real, 1real / 2real)
    &&& is_wave(functions.wave(formula, moment))
}

/// When an elastic segment first turns back, with given functions.
pub open spec fn first_turn(functions: Functions, elastic: TimeControlElastic) -> Double {
    let formula = functions.elastic_formula(elastic);
    complete(
        formula,
        |progress: Double| functions.wave(formula, progress),
    ).first_extremum_t
}

/// Each end of each span of an elastic segment that is not reversed, from the first turn
/// on, lies as far from the line at height one as the segment's own amplitude has it: at
/// that share of how far the full oscillation is from there. The height is held between
/// zero and two.
pub proof fn law_elastic_segment_swings_with_its_amplitude(
    functions: Functions,
    elastic: TimeControlElastic,
    limit: nat,
    k: int,
)
    requires
        !elastic.reversed,
        !elastic.amplitude.nan(),
        functions.segment(TimeControlSegment::Elastic(elastic), limit) matches Some(Ok(spans))
            && 0 <= k < spans.len() && has_wave(functions, elastic, spans[k].start.x) && has_wave(
            functions,
            elastic,
            spans[k].end.x,
        ),
    ensures
        ({
            let span = functions.segment(
                TimeControlSegment::Elastic(elastic),
                limit,
            )->0->Ok_0[k];
            let turn = first_turn(functions, elastic);
            let a = amplitude_of(elastic);
            let (x, y) = (span.start.x, span.end.x);
            &&& !x.less(turn) ==> is_about(
                span.start.y,
                held_height(1real + a * (oscillation(functions, elastic, x) - 1real)),
                64real * ulp(),
            )
            &&& !y.less(turn) ==> is_about(
                span.end.y,
                held_height(1real + a * (oscillation(functions, elastic, y) - 1real)),
                64real * ulp(),
            )
        }),
{
    reveal(Functions::segment);
    let formula = functions.elastic_formula(elastic);
    let waves = |progress: Double| functions.wave(formula, progress);
    let done = complete(formula, waves);
    lemma_refined_keeps(formula, waves, REFINEMENTS as nat);
    lemma_amplitude(elastic);
    law_elastic_spans_follow_the_curve(formula, waves, k);
    let span = functions.segment(TimeControlSegment::Elastic(elastic), limit)->0->Ok_0[k];
    let (x, y) = (span.start.x, span.end.x);
    if !x.less(done.first_extremum_t) {
        law_amplitude_scales_the_deviation(done, x, waves(x));
    }
    if !y.less(done.first_extremum_t) {
        law_amplitude_scales_the_deviation(done, y, waves(y));
    }
}

/// The ratio of a circle's circumference to its diameter, as a double.
proof fn lemma_pi()
    ensures
        number(PI).finite(),
        exact(number(PI)) == 7074237752028440real / 2251799813685248real,
{
    let v = number(PI);
    let u = one_step() as real;
    lemma_pow2_pos(UNIT_SHIFT as nat);
    lemma2_to64_rest();
    assert(v.shift() == 1023 && v.significand() == 7074237752028440);
    lemma_pow2_adds(51, 1023);
    let e = pow2(1023);
    assert(0x8_0000_0000_0000 * e == one_step());
    let n = 7074237752028440 * e;
    assert(v.magnitude() == n);
    assert(2251799813685248 * n == 7074237752028440 * one_step());
    lemma_exact(v);
    let x = exact(v);
    assert(x * 2251799813685248real == 7074237752028440real) by (nonlinear_arith)
        requires
            x * u == n as real,
            2251799813685248real * (n as real) == 7074237752028440real * u,
            u > 0real,
    ;
}

/// The oscillation runs through as many whole turns as the frequency says: the angle at a
/// moment is the moment times the frequency times a whole turn.
pub proof fn law_frequency_counts_the_turns(
    functions: Functions,
    elastic: TimeControlElastic,
    moment: Double,
)
    requires
        is_between(elastic_outline(elastic).frequency, 0real, 20000real),
        is_between(moment, 0real, 1real),
    ensures
        is_about(
            functions.elastic_formula(elastic).angle_at(moment),
            (6283185307179586real / 1000000000000000real * exact(
                elastic_outline(elastic).frequency,
            )) * exact(moment),
            1real / 1000000000real,
        ),
{
    let e = ulp();
    let f = elastic_outline(elastic).frequency;
    let x = exact(f);
    lemma_numbers();
    lemma_pi();
    let p = exact(number(PI));
    lemma_about_product(number(TWO), number(PI), 2real, p, 2real, 4real, 0real, 0real, 8real);
    let turn = product(number(TWO), number(PI));
    let t = 6283185307179586real / 1000000000000000real;
    assert(is_about(turn, t, 20real * e));
    lemma_about_product(turn, f, t, x, 7real, 20000real, 20real * e, 0real, 150000real);
    let omega = product(turn, f);
    assert(is_about(omega, t * x, 600000real * e));
    lemma_about_product(
        omega,
        moment,
        t * x,
        exact(moment),
        140000real,
        1real,
        600000real * e,
        0real,
        150000real,
    );
}

// Up to the first turn.

/// The height of the curve at its first turn is that of the full oscillation there, and it
/// is the one by which the curve is scaled up to it.
pub proof fn law_first_turn_is_on_the_oscillation(
    functions: Functions,
    elastic: TimeControlElastic,
)
    requires
        has_wave(functions, elastic, first_turn(functions, elastic)),
    ensures
        ({
            let formula = functions.elastic_formula(elastic);
            let done = complete(
                formula,
                |progress: Double| functions.wave(formula, progress),
            );
            is_about(
                done.first_extremum_value,
                oscillation(functions, elastic, first_turn(functions, elastic)),
                40real * ulp(),
            )
        }),
{
    let formula = functions.elastic_formula(elastic);
    let waves = |progress: Double| functions.wave(formula, progress);
    let last = refined(formula, waves, REFINEMENTS as nat);
    lemma_refined_keeps(formula, waves, REFINEMENTS as nat);
    law_elastic_height_at_full_amplitude(last, waves(last.first_extremum_t));
}

/// How the curve is scaled up to its first turn: so that it is there where the amplitude
/// has it.
proof fn lemma_scale(amplitude: Double, top: Double)
    requires
        is_between(amplitude, 0real, 1real),
        is_between(top, 1real / 2real, 3real),
    ensures
        ({
            let (a, v) = (exact(amplitude), exact(top));
            let s = (a * (v - 1real) + 1real) / v;
            let one = number(ONE);
            &&& size(s) <= 6real
            &&& is_about(
                quotient(sum(product(amplitude, difference(top, one)), one), top),
                s,
                120real * ulp(),
            )
        }),
{
    let one = number(ONE);
    let e = ulp();
    let (a, v) = (exact(amplitude), exact(top));
    lemma_numbers();
    lemma_about_difference(top, one, v, 1real, 0real, 0real, 2real);
    let off = difference(top, one);
    lemma_about_product(amplitude, off, a, v - 1real, 1real, 2real, 0real, 3real * e, 3real);
    let part = product(amplitude, off);
    assert(is_about(part, a * (v - 1real), 7real * e));
    lemma_about_sum(part, one, a * (v - 1real), 1real, 7real * e, 0real, 4real);
    let height = sum(part, one);
    let y = a * (v - 1real) + 1real;
    let s = y / v;
    assert(s * v == y) by (nonlinear_arith)
        requires
            s == y / v,
            v > 0real,
    ;
    assert(-6real <= s <= 6real) by (nonlinear_arith)
        requires
            s * v == y,
            -3real <= y <= 3real,
            v >= 1real / 2real,
    ;
    lemma_about_quotient(height, top, y, v, 1real / 2real, 12real * e, 0real, 6real);
}

/// Up to the first turn the curve is the full oscillation, scaled so that it arrives at
/// the turn where the amplitude has it.
pub proof fn law_amplitude_scales_the_rise(formula: ElasticFormula, progress: Double, wave: Wave)
    requires
        is_between(formula.amplitude, 0real, 1real),
        is_between(formula.exp_k, 0real, 1real / 2real),
        is_between(formula.first_extremum_value, 1real / 2real, 3real),
        is_wave(wave),
        progress.less(formula.first_extremum_t),
    ensures
        ({
            let h = full_height(exact(formula.exp_k), exact(wave.power), exact(wave.cos));
            let (a, v) = (exact(formula.amplitude), exact(formula.first_extremum_value));
            is_about(
                formula.state(progress, wave).0,
                held_height(((a * (v - 1real) + 1real) / v) * h),
                1000real * ulp(),
            )
        }),
{
    let one = number(ONE);
    let e = ulp();
    let h = full_height(exact(formula.exp_k), exact(wave.power), exact(wave.cos));
    let (a, v) = (exact(formula.amplitude), exact(formula.first_extremum_value));
    let s = (a * (v - 1real) + 1real) / v;
    law_elastic_height_at_full_amplitude(formula, wave);
    lemma_scale(formula.amplitude, formula.first_extremum_value);
    let value = formula.height(wave);
    let scale = quotient(
        sum(product(formula.amplitude, difference(formula.first_extremum_value, one)), one),
        formula.first_extremum_value,
    );
    lemma_about_product(scale, value, s, h, 6real, 2real, 120real * e, 40real * e, 13real);
    let r = product(scale, value);
    assert(formula.applied(progress, wave).0 == r);
    assert(is_about(r, s * h, 1000real * e));
    lemma_held_height(r, s * h, 1000real * e);
    reveal(ElasticFormula::state);
}

// The search for the turns.

/// Whether a moment was found by halving an interval in which the slope changes its sign:
/// it is the middle of an interval at whose ends the slope has different signs.
#[verifier::opaque]
pub open spec fn is_at_a_change(
    formula: ElasticFormula,
    waves: spec_fn(Double) -> Wave,
    moment: Double,
    interval: Crossing,
) -> bool {
    &&& interval.left == 0
    &&& moment == interval.middle()
    &&& !formula.slope(waves(interval.min_t)).same_sign(formula.slope(waves(interval.max_t)))
}

/// The slope at a moment.
#[verifier::opaque]
spec fn steepness(
    formula: ElasticFormula,
    waves: spec_fn(Double) -> Wave,
    moment: Double,
) -> Double {
    formula.slope(waves(moment))
}

/// One halving.
proof fn lemma_narrowed(formula: ElasticFormula, waves: spec_fn(Double) -> Wave, crossing: Crossing)
    ensures
        crossing.left == 0 ==> narrowed(formula, waves, crossing) == crossing.middle(),
        crossing.left > 0 ==> narrowed(formula, waves, crossing) == narrowed(
            formula,
            waves,
            crossing.halved(steepness(formula, waves, crossing.middle())),
        ),
{
    reveal(narrowed);
    reveal(steepness);
}

/// Halving keeps an interval at whose ends the slope has different signs.
proof fn lemma_halving_keeps_the_change(
    formula: ElasticFormula,
    waves: spec_fn(Double) -> Wave,
    crossing: Crossing,
)
    requires
        crossing.min_derivative == steepness(formula, waves, crossing.min_t),
        !crossing.min_derivative.same_sign(steepness(formula, waves, crossing.max_t)),
    ensures
        exists|interval: Crossing|
            #![trigger interval.middle()]
            interval.left == 0 && narrowed(formula, waves, crossing) == interval.middle()
                && !steepness(formula, waves, interval.min_t).same_sign(
                steepness(formula, waves, interval.max_t),
            ),
    decreases crossing.left,
{
    lemma_narrowed(formula, waves, crossing);
    if crossing.left == 0 {
        assert(crossing.middle() == narrowed(formula, waves, crossing));
    } else {
        let slope = steepness(formula, waves, crossing.middle());
        lemma_halving_keeps_the_change(formula, waves, crossing.halved(slope));
    }
}

/// Such an interval is one at which the slope changes its sign.
proof fn lemma_change_is_found(
    formula: ElasticFormula,
    waves: spec_fn(Double) -> Wave,
    crossing: Crossing,
)
    requires
        crossing.min_derivative == formula.slope(waves(crossing.min_t)),
        !crossing.min_derivative.same_sign(formula.slope(waves(crossing.max_t))),
    ensures
        exists|interval: Crossing|
            is_at_a_change(formula, waves, narrowed(formula, waves, crossing), interval),
{
    assert(forall|t: Double| steepness(formula, waves, t) == formula.slope(waves(t))) by {
        reveal(steepness);
    }
    lemma_halving_keeps_the_change(formula, waves, crossing);
    let interval = choose|interval: Crossing|
        #![trigger interval.middle()]
        interval.left == 0 && narrowed(formula, waves, crossing) == interval.middle()
            && !steepness(formula, waves, interval.min_t).same_sign(
            steepness(formula, waves, interval.max_t),
        );
    reveal(is_at_a_change);
    assert(is_at_a_change(formula, waves, narrowed(formula, waves, crossing), interval));
}

/// Where the slope has the same sign at the two ends of an interval of the grid, and is not
/// zero at its beginning, no turn is found in it. Where it is zero at a beginning after the
/// segment's own, a turn is found there.
#[verifier::rlimit(60)]
pub proof fn law_no_turn_without_a_change(
    formula: ElasticFormula,
    waves: spec_fn(Double) -> Wave,
    index: nat,
)
    requires
        index >= 1,
    ensures
        ({
            let n = formula.interval_count();
            let t = grid_moment((index - 1) as nat, n);
            let before = formula.slope(waves(t));
            let after = formula.slope(waves(grid_moment(index, n)));
            let zero = number(ZERO);
            &&& !before.same(zero) && before.same_sign(after) ==> extremum_in(
                formula,
                waves,
                index,
            ) is None
            &&& before.same(zero) && zero.less(t) ==> extremum_in(formula, waves, index) == Some(t)
        }),
{
}

/// Where the slope has different signs at the two ends of an interval of the grid, and is
/// not zero at its beginning, a turn is found in it at which the slope changes its sign.
#[verifier::rlimit(60)]
pub proof fn law_turns_are_where_the_slope_changes(
    formula: ElasticFormula,
    waves: spec_fn(Double) -> Wave,
    index: nat,
)
    requires
        index >= 1,
        ({
            let n = formula.interval_count();
            let before = formula.slope(waves(grid_moment((index - 1) as nat, n)));
            let after = formula.slope(waves(grid_moment(index, n)));
            !before.same(number(ZERO)) && !before.same_sign(after)
        }),
    ensures
        extremum_in(formula, waves, index) is Some,
        exists|interval: Crossing|
            is_at_a_change(formula, waves, extremum_in(formula, waves, index)->0, interval),
{
    let n = formula.interval_count();
    let crossing = whole_interval(
        n,
        index,
        formula.slope(waves(grid_moment((index - 1) as nat, n))),
    );
    lemma_extremum_is_narrowed(formula, waves, index, crossing);
    lemma_change_is_found(formula, waves, crossing);
    let found = narrowed(formula, waves, crossing);
    let interval = choose|interval: Crossing| is_at_a_change(formula, waves, found, interval);
    assert(is_at_a_change(formula, waves, extremum_in(formula, waves, index)->0, interval));
}

/// What is found where the slope changes its sign.
proof fn lemma_extremum_is_narrowed(
    formula: ElasticFormula,
    waves: spec_fn(Double) -> Wave,
    index: nat,
    crossing: Crossing,
)
    requires
        index >= 1,
        ({
            let n = formula.interval_count();
            let before = formula.slope(waves(grid_moment((index - 1) as nat, n)));
            let after = formula.slope(waves(grid_moment(index, n)));
            &&& !before.same(number(ZERO)) && !before.same_sign(after)
            &&& crossing == whole_interval(n, index, before)
        }),
    ensures
        extremum_in(formula, waves, index) == Some(narrowed(formula, waves, crossing)),
{
}

/// Every turn that is found in an interval of the grid is among those that the curve is
/// divided at, and no others are.
pub proof fn law_all_turns_are_found(
    formula: ElasticFormula,
    waves: spec_fn(Double) -> Wave,
    n: nat,
    moment: Double,
)
    ensures
        extrema(formula, waves, n).contains(moment) <==> exists|index: nat|
            1 <= index <= n && #[trigger] extremum_in(formula, waves, index) == Some(moment),
    decreases n,
{
    if n > 0 {
        law_all_turns_are_found(formula, waves, (n - 1) as nat, moment);
        let before = extrema(formula, waves, (n - 1) as nat);
        let after = extrema(formula, waves, n);
        if after.contains(moment) {
            let i = choose|i: int| 0 <= i < after.len() && after[i] == moment;
            if i < before.len() {
                assert(before[i] == moment);
                assert(before.contains(moment));
            } else {
                assert(extremum_in(formula, waves, n) == Some(moment));
            }
        }
        if exists|index: nat|
            1 <= index <= n && #[trigger] extremum_in(formula, waves, index) == Some(moment) {
            let index = choose|index: nat|
                1 <= index <= n && #[trigger] extremum_in(formula, waves, index) == Some(moment);
            if index < n {
                assert(before.contains(moment));
                let i = choose|i: int| 0 <= i < before.len() && before[i] == moment;
                assert(after[i] == moment);
            } else {
                assert(after.last() == moment);
                assert(after[after.len() - 1] == moment);
            }
        }
    }
}

// How the oscillation is set up.

/// The oscillation dies down to the exponential of minus the decay. Where it first turns
/// back is guessed from the root of the decay over the frequency: at half a turn, less a
/// twentieth of that root.
pub proof fn law_first_turn_is_guessed(elastic: TimeControlElastic, exp_k: Double, root: Double)
    requires
        is_between(elastic_outline(elastic).decay, 1real, 1000000real),
        is_between(elastic_outline(elastic).frequency, 1real / 2real, 20000real),
        is_between(root, 0real, 2000real),
    ensures
        ({
            let outline = elastic_outline(elastic);
            let (d, f) = (exact(outline.decay), exact(outline.frequency));
            let formula = outline.formula(exp_k, root);
            &&& exact(outline.exponent_of()) == -d
            &&& is_about(outline.root_argument_of(), d / f, 1real / 1000000000real)
            &&& formula.exp_k == exp_k
            &&& is_about(
                formula.first_extremum_t,
                (1real / 2real - exact(root) / 20real) / f,
                1real / 1000000000real,
            )
        }),
{
    let outline = elastic_outline(elastic);
    let e = ulp();
    let (d, f, r) = (exact(outline.decay), exact(outline.frequency), exact(root));
    lemma_numbers();
    lemma_exact(outline.decay);
    lemma_bounded_quotient(d, f, 1000000real);
    lemma_about_quotient(
        outline.decay,
        outline.frequency,
        d,
        f,
        1real / 2real,
        0real,
        0real,
        2000000real,
    );
    lemma_twentieth();
    let part = product(root, number(TWENTIETH));
    lemma_about_product(
        root,
        number(TWENTIETH),
        r,
        1real / 20real,
        2000real,
        1real,
        0real,
        e,
        3000real,
    );
    assert(is_about(part, r / 20real, 6000real * e));
    let rest = difference(number(HALF), part);
    lemma_about_difference(
        number(HALF),
        part,
        1real / 2real,
        r / 20real,
        0real,
        6000real * e,
        200real,
    );
    assert(is_about(rest, 1real / 2real - r / 20real, 7000real * e));
    lemma_bounded_quotient(1real / 2real - r / 20real, f, 200real);
    lemma_about_quotient(
        rest,
        outline.frequency,
        1real / 2real - r / 20real,
        f,
        1real / 2real,
        7000real * e,
        0real,
        400real,
    );
}

/// A quotient by a number that is at least one half.
proof fn lemma_bounded_quotient(x: real, y: real, bound: real)
    requires
        size(x) <= bound,
        y >= 1real / 2real,
    ensures
        size(x / y) <= 2real * bound,
{
    let q = x / y;
    assert(q * y == x) by (nonlinear_arith)
        requires
            q == x / y,
            y > 0real,
    ;
    lemma_size_product(q, y);
    lemma_order_product(size(q), size(q), 1real / 2real, size(y));
    assert(size(q) * (1real / 2real) == size(q) / 2real) by (nonlinear_arith);
}

/// A twentieth, as a double.
proof fn lemma_twentieth()
    ensures
        is_about(number(TWENTIETH), 1real / 20real, ulp()),
{
    let v = number(TWENTIETH);
    let u = one_step() as real;
    lemma_pow2_pos(UNIT_SHIFT as nat);
    lemma2_to64();
    lemma2_to64_rest();
    assert(v.shift() == 1017 && v.significand() == 7205759403792794);
    lemma_pow2_adds(57, 1017);
    let e = pow2(1017);
    assert(144115188075855872 * e == one_step());
    let n = 7205759403792794 * e;
    assert(v.magnitude() == n);
    assert(144115188075855872 * n == 7205759403792794 * one_step());
    lemma_exact(v);
    let x = exact(v);
    assert(x * 144115188075855872real == 7205759403792794real) by (nonlinear_arith)
        requires
            x * u == n as real,
            144115188075855872real * (n as real) == 7205759403792794real * u,
            u > 0real,
    ;
}

/// The moments of the grid divide the segment in equal parts.
pub proof fn law_grid_moments_are_even(index: nat, divisions: nat)
    requires
        0 < divisions < 0x10_0000_0000_0000,
        0 < index <= divisions,
    ensures
        is_rounded(grid_moment(index, divisions), (index as real) / (divisions as real)),
{
    let u = one_step() as real;
    lemma_pow2_pos(UNIT_SHIFT as nat);
    lemma_whole_exact(false, index);
    lemma_whole_exact(false, divisions);
    let (a, b) = (whole(false, index), whole(false, divisions));
    lemma_exact(a);
    lemma_exact(b);
    lemma_whole_product(index as int, one_step() as int);
    lemma_whole_product(divisions as int, one_step() as int);
    let (x, y) = (index as real, divisions as real);
    assert((x * u) / u == x && (y * u) / u == y) by (nonlinear_arith)
        requires
            u > 0real,
    ;
    assert(exact(a) == x && exact(b) == y);
    assert(0real <= x / y <= 1real) by (nonlinear_arith)
        requires
            0real <= x <= y,
            y > 0real,
    ;
    lemma_quotient(a, b);
}

/// The smallest whole number that is not below another one.
proof fn lemma_ceiling(v: Double) -> (k: nat)
    requires
        is_between(v, 0real, 1000000000real),
        !v.negative(),
    ensures
        v.ceil_whole() == whole(false, k),
        k as real - 1real < exact(v) <= k as real,
        k <= 1000000001,
{
    let one = one_step();
    let u = one as real;
    lemma_pow2_pos(UNIT_SHIFT as nat);
    lemma_exact(v);
    let m = v.magnitude();
    let q = m / one;
    let r = m % one;
    lemma_fundamental_div_mod(m as int, one as int);
    lemma_mod_bound(m as int, one as int);
    lemma_whole_product(one as int, q as int);
    let x = exact(v);
    let (a, b) = (q as real, r as real);
    assert(x * u == u * a + b);
    assert(a <= x < a + 1real && (b == 0real ==> x == a) && (b > 0real ==> a < x)) by (nonlinear_arith)
        requires
            x * u == u * a + b,
            0real <= b < u,
            u > 0real,
    ;
    if v.has_fraction() {
        (q + 1) as nat
    } else {
        q
    }
}

/// The slope is searched in eight intervals for each whole turn.
pub proof fn law_turns_are_searched_in_eighths(formula: ElasticFormula)
    requires
        is_between(formula.frequency, 1real / 2real, 20000real),
        !formula.frequency.negative(),
    ensures
        ({
            let n = formula.interval_count() as real;
            let f = exact(formula.frequency);
            8real * f - 1real / 1000000real <= n <= 8real * f + 1real + 1real / 1000000real
        }),
{
    let f = exact(formula.frequency);
    lemma_number_eight();
    lemma_about_product(
        formula.frequency,
        number(EIGHT),
        f,
        8real,
        20000real,
        8real,
        0real,
        0real,
        160000real,
    );
    let v = product(formula.frequency, number(EIGHT));
    lemma_pow2_pos(UNIT_SHIFT as nat);
    lemma_rounded_magnitude(
        formula.frequency.magnitude() * number(EIGHT).magnitude(),
        one_step(),
    );
    assert(!v.negative());
    let k = lemma_ceiling(v);
    lemma_whole_exact(false, k);
    assert(whole(false, k).floor_magnitude() == k) by {
        lemma_div_multiples_vanish(k as int, one_step() as int);
        assert(k * one_step() == one_step() * k) by (nonlinear_arith);
    }
}

pub proof fn lemma_number_eight()
    ensures
        number(EIGHT).finite() && !number(EIGHT).negative() && exact(number(EIGHT)) == 8real,
{
    let u = one_step() as real;
    lemma_pow2_pos(UNIT_SHIFT as nat);
    lemma_eight();
    lemma_exact(number(EIGHT));
    assert((8real * u) / u == 8real) by (nonlinear_arith)
        requires
            u > 0real,
    ;
}

/// After the first turn the curve has the amplitude's share of the slope of the
/// oscillation, unless its height is held at zero or two, where it may be level.
pub proof fn law_amplitude_scales_the_slope(
    formula: ElasticFormula,
    progress: Double,
    wave: Wave,
)
    requires
        is_between(formula.amplitude, 0real, 1real),
        is_between(formula.exp_k, 0real, 1real / 2real),
        is_between(formula.decay, 0real, 1000000real),
        is_between(formula.omega, 0real, 1000000real),
        is_wave(wave),
        !progress.less(formula.first_extremum_t),
    ensures
        ({
            let s = full_slope(
                exact(formula.decay),
                exact(formula.omega),
                exact(formula.exp_k),
                exact(wave.power),
                exact(wave.cos),
                exact(wave.sin),
            );
            let (height, slope) = formula.state(progress, wave);
            &&& number(ZERO).less(height) && height.less(number(TWO)) ==> is_about(
                slope,
                exact(formula.amplitude) * (s / (1real - exact(formula.exp_k))),
                160000000real * ulp(),
            )
            &&& slope == number(ZERO) || is_about(
                slope,
                exact(formula.amplitude) * (s / (1real - exact(formula.exp_k))),
                160000000real * ulp(),
            )
        }),
{
    let one = number(ONE);
    let e = ulp();
    let k = exact(formula.exp_k);
    let s = full_slope(
        exact(formula.decay),
        exact(formula.omega),
        k,
        exact(wave.power),
        exact(wave.cos),
        exact(wave.sin),
    );
    lemma_numbers();
    law_elastic_slope_at_full_amplitude(formula, wave);
    lemma_about_difference(one, formula.exp_k, 1real, k, 0real, 0real, 1real);
    lemma_bounded_quotient(s, 1real - k, 2000000real);
    let below = difference(one, formula.exp_k);
    lemma_about_quotient(
        formula.slope(wave),
        below,
        s,
        1real - k,
        1real / 2real,
        24000000real * e,
        2real * e,
        4000000real,
    );
    let steep = quotient(formula.slope(wave), below);
    let q = s / (1real - k);
    assert(is_about(steep, q, 140000000real * e));
    lemma_about_product(
        formula.amplitude,
        steep,
        exact(formula.amplitude),
        q,
        1real,
        4000000real,
        0real,
        140000000real * e,
        5000000real,
    );
    assert(formula.applied(progress, wave).1 == product(formula.amplitude, steep));
    reveal(ElasticFormula::state);
}

/// An elastic segment can be drawn exactly if its frequency is at most 16383: then there
/// are at most 65535 control points for it, four to a turn.
pub proof fn law_drawable_frequencies(elastic: TimeControlElastic)
    requires
        is_between(elastic_outline(elastic).frequency, 1real / 2real, 1000000000real),
        !elastic_outline(elastic).frequency.negative(),
    ensures
        is_drawable(elastic) <==> exact(elastic_outline(elastic).frequency) <= 16383real,
{
    let f = elastic_outline(elastic).frequency;
    let u = one_step() as real;
    lemma_pow2_pos(UNIT_SHIFT as nat);
    let k = lemma_ceiling(f);
    let turns = whole(false, k);
    lemma_whole_exact(false, k);
    lemma_exact(turns);
    lemma_whole_product(k as int, one_step() as int);
    let x = k as real;
    assert((x * u) / u == x) by (nonlinear_arith)
        requires
            u > 0real,
    ;
    assert(exact(turns) == x);
    lemma_numbers();
    lemma_about_product(
        turns,
        number(FOUR),
        x,
        4real,
        2000000000real,
        4real,
        0real,
        0real,
        8000000000real,
    );
    let v = product(turns, number(FOUR));
    assert(is_about(v, 4real * x, 1real / 1000real));
    lemma_most_points();
    lemma_exact(v);
    lemma_exact(number(MOST_POINTS));
    lemma_sign_of_difference(exact(v), 65535real, u);
}

proof fn lemma_sign_of_difference(x: real, y: real, u: real)
    requires
        u > 0real,
    ensures
        x <= y <==> x * u <= y * u,
{
    if x <= y {
        assert(x * u <= y * u) by (nonlinear_arith)
            requires
                x <= y,
                u > 0real,
        ;
    } else {
        assert(x * u > y * u) by (nonlinear_arith)
            requires
                x > y,
                u > 0real,
        ;
    }
}

proof fn lemma_most_points()
    ensures
        number(MOST_POINTS).finite(),
        exact(number(MOST_POINTS)) == 65535real,
{
    let v = number(MOST_POINTS);
    let u = one_step() as real;
    lemma_pow2_pos(UNIT_SHIFT as nat);
    lemma2_to64();
    lemma2_to64_rest();
    assert(v.shift() == 1037 && v.significand() == 65535 * 0x20_0000_0000);
    lemma_pow2_adds(37, 1037);
    let e = pow2(1037);
    assert((65535 * 0x20_0000_0000) * e == 65535 * (0x20_0000_0000 * e)) by (nonlinear_arith);
    assert(v.magnitude() == 65535 * one_step());
    lemma_exact(v);
    assert((65535real * u) / u == 65535real) by (nonlinear_arith)
        requires
            u > 0real,
    ;
}

// Where the pieces meet.

/// The pieces of the curve meet at zero, at one, and in between at turns that were found,
/// inside the segment.
pub proof fn law_pieces_meet_at_turns(found: Seq<Double>, i: int)
    requires
        0 <= i < piece_ends(found).len(),
    ensures
        ({
            let ends = piece_ends(found);
            let (zero, one) = (number(ZERO), number(ONE));
            &&& ends.len() >= 2
            &&& i == 0 ==> ends[i] == zero
            &&& i == ends.len() - 1 ==> ends[i] == one
            &&& 0 < i < ends.len() - 1 ==> found.contains(ends[i]) && zero.less(ends[i])
                && ends[i].less(one)
        }),
{
    let inside = |t: Double| is_inside(t);
    let kept = without_repeats(found);
    let middle = kept.filter(inside);
    let ends = piece_ends(found);
    if 0 < i < ends.len() - 1 {
        assert(ends[i] == middle[i - 1]);
        kept.lemma_filter_pred(inside, i - 1);
        assert(middle.contains(middle[i - 1]));
        kept.lemma_filter_contains_rev(inside, middle[i - 1]);
        lemma_kept_are_found(found, middle[i - 1]);
    }
}

/// What is kept was found.
proof fn lemma_kept_are_found(found: Seq<Double>, moment: Double)
    requires
        without_repeats(found).contains(moment),
    ensures
        found.contains(moment),
    decreases found.len(),
{
    if found.len() > 0 {
        let before = without_repeats(found.drop_last());
        let all = without_repeats(found);
        let i = choose|i: int| 0 <= i < all.len() && all[i] == moment;
        if i < before.len() {
            assert(before[i] == moment);
            assert(before.contains(moment));
            lemma_kept_are_found(found.drop_last(), moment);
            let j = choose|j: int| 0 <= j < found.len() - 1 && found.drop_last()[j] == moment;
            assert(found[j] == moment);
        } else {
            assert(found[found.len() - 1] == moment);
        }
    }
}

/// Every turn that was found is one at which pieces meet, or less than a billionth after one
/// that was kept.
pub proof fn law_every_turn_is_kept_or_repeats(found: Seq<Double>, i: int)
    requires
        0 <= i < found.len(),
    ensures
        without_repeats(found).contains(found[i]) || exists|kept: Double|
            without_repeats(found).contains(kept) && #[trigger] difference(
                found[i],
                kept,
            ).absolute().less(number(BILLIONTH)),
    decreases found.len(),
{
    let shorter = found.drop_last();
    let before = without_repeats(shorter);
    let all = without_repeats(found);
    assert forall|t: Double| before.contains(t) implies all.contains(t) by {
        let j = choose|j: int| 0 <= j < before.len() && before[j] == t;
        assert(all[j] == t);
    }
    if i < found.len() - 1 {
        law_every_turn_is_kept_or_repeats(shorter, i);
        assert(shorter[i] == found[i]);
    } else if before.len() > 0 && coincide(found.last(), before.last()) {
        let kept = before.last();
        assert(before[before.len() - 1] == kept);
        assert(all.contains(kept));
        assert(difference(found[i], kept).absolute().less(number(BILLIONTH)));
    } else {
        assert(all[all.len() - 1] == found[i]);
    }
}

} // verus!
