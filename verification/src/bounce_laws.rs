//! What a bounce segment is drawn as.
use crate::arithmetic::{difference, product, quotient, sum};
use crate::bounce::{bounce_outline, held_vertex, BounceFormula, BounceOutline};
use crate::bounce_precision::{
    begin_in_periods, exact, is_moderate_bounce, is_off, lemma_exact, lemma_height, lemma_numbers,
    lemma_whole_product, size, ulp,
};
use crate::bounce_sampler::grid_step;
use crate::curve::TimeControlBounce;
use crate::double::{one_step, Double, UNIT_SHIFT};
use crate::elastic_laws::lemma_number_eight;
use crate::elastic_precision::is_between;
use crate::numbers::{number, ALMOST_ONE, EIGHT, FOUR, HALF, ONE, THOUSANDTH, ZERO};
use crate::precision::lemma_grid_scale;
use crate::quantization::grid_scale;
use crate::spans::CubicBezierSpan;
use crate::tolerance::{
    is_about, lemma_about_difference, lemma_about_product, lemma_about_quotient, lemma_about_sum,
    lemma_order_product, lemma_size_product,
};
use vstd::arithmetic::power2::*;
use vstd::prelude::*;

verus! {

// The parameters.

/// A vertex inside the square is taken as it is given, and any other one at the nearest
/// place: its moment held between a thousandth and all but a thousandth, its height
/// between a thousandth and one. The root is held as the moment is, and is the share of
/// speed that the ball keeps.
pub proof fn law_bounce_parameters_are_held(bounce: TimeControlBounce, root: Double)
    requires
        !bounce.vertex.x.nan(),
        !bounce.vertex.y.nan(),
        !root.nan(),
    ensures
        ({
            let (low, high, one) = (number(THOUSANDTH), number(ALMOST_ONE), number(ONE));
            let (x, y) = (bounce.vertex.x, bounce.vertex.y);
            let held = held_vertex(bounce.vertex);
            let cor = bounce_outline(bounce, root).cor;
            &&& low.at_most(x) && x.at_most(high) ==> held.x == x
            &&& x.less(low) ==> held.x == low
            &&& high.less(x) && !x.less(low) ==> held.x == high
            &&& low.at_most(y) && y.at_most(one) ==> held.y == y
            &&& y.less(low) ==> held.y == low
            &&& one.less(y) && !y.less(low) ==> held.y == one
            &&& low.at_most(root) && root.at_most(high) ==> cor == root
            &&& root.less(low) ==> cor == low
            &&& high.less(root) && !root.less(low) ==> cor == high
        }),
{
}

// When the ball comes to rest.

/// A quotient of one.
proof fn lemma_inverse(y: real, least: real)
    requires
        y >= least,
        least > 0real,
    ensures
        (1real / y) * y == 1real,
        0real < 1real / y <= 1real / least,
{
    let q = 1real / y;
    let r = 1real / least;
    assert(q * y == 1real && r * least == 1real && q > 0real) by (nonlinear_arith)
        requires
            q == 1real / y,
            r == 1real / least,
            y > 0real,
            least > 0real,
    ;
    assert(q <= r) by (nonlinear_arith)
        requires
            q * y == 1real,
            r * least == 1real,
            y >= least,
            least > 0real,
            q > 0real,
    ;
}

/// The ball comes to rest when a bounce without any speed would begin.
pub proof fn law_ball_rests_where_no_speed_is_left(bounce: TimeControlBounce, root: Double)
    requires
        is_between(bounce_outline(bounce, root).cor, 1real / 1024real, 1023real / 1024real),
        is_between(bounce_outline(bounce, root).period, 1real / 2048real, 2real),
    ensures
        ({
            let outline = bounce_outline(bounce, root);
            is_about(
                outline.limit,
                exact(outline.period) * begin_in_periods(exact(outline.cor), 0real),
                1real / 1000000000real,
            )
        }),
{
    let outline = bounce_outline(bounce, root);
    let one = number(ONE);
    let e = ulp();
    let (c, t) = (exact(outline.cor), exact(outline.period));
    lemma_numbers();
    lemma_about_difference(one, outline.cor, 1real, c, 0real, 0real, 1real);
    let left = difference(one, outline.cor);
    let y = 1real - c;
    lemma_inverse(y, 1real / 1024real);
    lemma_about_quotient(one, left, 1real, y, 1real / 1024real, 0real, 2real * e, 1024real);
    let turns = quotient(one, left);
    let q = 1real / y;
    assert(is_about(turns, q, 4300000real * e));
    lemma_about_difference(
        turns,
        number(HALF),
        q,
        1real / 2real,
        4300000real * e,
        0real,
        1025real,
    );
    let place = difference(turns, number(HALF));
    assert(is_about(place, q - 1real / 2real, 4400000real * e));
    lemma_about_product(
        outline.period,
        place,
        t,
        q - 1real / 2real,
        2real,
        1024real,
        0real,
        4400000real * e,
        2049real,
    );
    let z = c - 1real;
    let w = (0real - 1real) / z;
    assert(w == q) by (nonlinear_arith)
        requires
            w == (0real - 1real) / z,
            q == 1real / y,
            z == 0real - y,
            y > 0real,
    ;
}

// The pieces of a bounce.

/// A bounce is drawn in two pieces: from its beginning, or from zero if it begins before
/// that, to its middle; and from there to the beginning of the next one, or to the end of
/// what is drawn if that comes first. A piece that would not lead to the right is left out.
pub proof fn law_bounce_is_drawn_around_its_middle(
    formula: BounceFormula,
    power: Double,
    squared: Double,
    next: Double,
    from: Double,
    to: Double,
)
    requires
        !formula.start_of(power).nan(),
        !formula.start_of(next).nan(),
        formula.start_of(power).less(number(ZERO)) ==> from == number(ZERO),
        !formula.start_of(power).less(number(ZERO)) ==> from == formula.start_of(power),
        formula.active_end.less(formula.start_of(next)) ==> to == formula.active_end,
        !formula.active_end.less(formula.start_of(next)) ==> to == formula.start_of(next),
    ensures
        ({
            let pieces = formula.pieces(power, squared, next);
            let middle = formula.middle_of(power);
            let falls = from.less(middle);
            let rises = middle.less(to);
            &&& pieces.len() == (if falls {
                1int
            } else {
                0int
            }) + (if rises {
                1int
            } else {
                0int
            })
            &&& falls ==> pieces[0].start.x == from && pieces[0].end.x == middle
            &&& rises ==> pieces.last().start.x == middle && pieces.last().end.x == to
        }),
{
    lemma_piece_count(formula, power, squared, next);
}

/// The pieces of a bounce.
proof fn lemma_piece_count(formula: BounceFormula, power: Double, squared: Double, next: Double)
    ensures
        ({
            let pieces = formula.pieces(power, squared, next);
            let (left, middle, right) = (
                formula.left_of(power),
                formula.middle_of(power),
                formula.right_of(next),
            );
            &&& pieces.len() == (if left.less(middle) {
                1int
            } else {
                0int
            }) + (if middle.less(right) {
                1int
            } else {
                0int
            })
            &&& left.less(middle) ==> pieces[0].start.x == left && pieces[0].end.x == middle
            &&& middle.less(right) ==> pieces.last().start.x == middle && pieces.last().end.x
                == right
        }),
{
}

/// What is drawn ends where the last whole bounce does if the ball is still bouncing at the
/// end of the segment, and else where it comes to rest; never outside the unit interval.
pub proof fn law_drawing_ends_with_a_whole_bounce(outline: BounceOutline, power: Double)
    requires
        !outline.limit.nan(),
        !outline.formula(power).start_of(power).nan(),
    ensures
        ({
            let formula = outline.formula(power);
            let (zero, one) = (number(ZERO), number(ONE));
            let end = if one.less(outline.limit) {
                formula.start_of(power)
            } else {
                outline.limit
            };
            &&& formula.cor == outline.cor
            &&& formula.period == outline.period
            &&& zero.at_most(end) && end.at_most(one) ==> formula.active_end == end
            &&& end.less(zero) ==> formula.active_end == zero
            &&& one.less(end) && !end.less(zero) ==> formula.active_end == one
        }),
{
}

/// How much speed is left at the end of the segment: what a bounce has that would begin
/// there.
pub proof fn law_speed_left_at_the_end(outline: BounceOutline)
    requires
        is_between(outline.cor, 1real / 1024real, 1023real / 1024real),
        is_between(outline.period, 1real / 2048real, 2real),
    ensures
        is_about(
            outline.last_share(),
            1real + (exact(outline.cor) - 1real) * (1real / exact(outline.period) + 1real / 2real),
            1real / 1000000000real,
        ),
{
    let one = number(ONE);
    let e = ulp();
    let (c, t) = (exact(outline.cor), exact(outline.period));
    lemma_numbers();
    lemma_inverse(t, 1real / 2048real);
    lemma_about_quotient(one, outline.period, 1real, t, 1real / 2048real, 0real, 0real, 2048real);
    let q = 1real / t;
    let often = quotient(one, outline.period);
    assert(is_about(often, q, 4100real * e));
    lemma_about_sum(often, number(HALF), q, 1real / 2real, 4100real * e, 0real, 2050real);
    let more = sum(often, number(HALF));
    assert(is_about(more, q + 1real / 2real, 6200real * e));
    lemma_about_difference(outline.cor, one, c, 1real, 0real, 0real, 1real);
    let fall = difference(outline.cor, one);
    lemma_about_product(
        fall,
        more,
        c - 1real,
        q + 1real / 2real,
        1real,
        2049real,
        2real * e,
        6200real * e,
        2050real,
    );
    let part = product(fall, more);
    let y = (c - 1real) * (q + 1real / 2real);
    assert(is_about(part, y, 20000real * e));
    lemma_about_sum(one, part, 1real, y, 0real, 20000real * e, 2060real);
}

// The parabolas.

/// A bounce is a parabola: a period away from its middle it has moved four times the square
/// of that towards the line, and its slope is eight times that over the period. Its middle
/// is as far from the line as the power of twice its index.
pub proof fn law_bounce_is_a_parabola(
    formula: BounceFormula,
    power: Double,
    squared: Double,
    progress: Double,
    off: real,
)
    requires
        is_moderate_bounce(formula),
        is_between(formula.middle_of(power), -2real, 2real),
        is_between(progress, -2real, 2real),
        is_between(squared, 0real, 1real),
        off * exact(formula.period) == exact(progress) - exact(formula.middle_of(power)),
        size(off) <= 1real,
    ensures
        ({
            let (height, slope) = formula.state_of(power, squared, progress);
            &&& is_about(
                height,
                1real + 4real * (off * off) - exact(squared),
                1real / 1000000real,
            )
            &&& is_about(slope, (8real * off) / exact(formula.period), 1real / 1000000real)
        }),
{
    let t = exact(formula.period);
    let middle = formula.middle_of(power);
    let (x, m) = (exact(progress), exact(middle));
    lemma_periods(progress, formula.period);
    lemma_periods(middle, formula.period);
    assert(x / t - m / t == off) by (nonlinear_arith)
        requires
            off * t == x - m,
            t > 0real,
    ;
    let (a, b) = (quotient(progress, formula.period), quotient(middle, formula.period));
    let e = ulp();
    lemma_about_difference(a, b, x / t, m / t, 8200real * e, 8200real * e, 2real);
    let d = difference(a, b);
    assert(is_off(d, off, 20000real));
    lemma_parabola(d, squared, formula.period, off);
}

/// A number in periods, as it is computed.
proof fn lemma_periods(v: Double, period: Double)
    requires
        is_between(v, -2real, 2real),
        is_between(period, 1real / 2048real, 2real),
    ensures
        is_about(quotient(v, period), exact(v) / exact(period), 8200real * ulp()),
{
    let (x, t) = (exact(v), exact(period));
    lemma_inverse(t, 1real / 2048real);
    let q = x / t;
    let w = 1real / t;
    assert(q == x * w) by (nonlinear_arith)
        requires
            q == x / t,
            w * t == 1real,
            t > 0real,
    ;
    lemma_size_product(x, w);
    lemma_order_product(size(x), 2real, size(w), 2048real);
    lemma_about_quotient(v, period, x, t, 1real / 2048real, 0real, 0real, 4096real);
}

/// The height and the slope that far from the middle, as they are computed.
proof fn lemma_parabola(d: Double, squared: Double, period: Double, off: real)
    requires
        is_off(d, off, 20000real),
        size(off) <= 1real,
        is_between(squared, 0real, 1real),
        is_between(period, 1real / 2048real, 2real),
    ensures
        is_about(
            difference(sum(number(ONE), product(product(number(FOUR), d), d)), squared),
            1real + 4real * (off * off) - exact(squared),
            1real / 1000000real,
        ),
        is_about(
            quotient(product(number(EIGHT), d), period),
            (8real * off) / exact(period),
            1real / 1000000real,
        ),
{
    let e = ulp();
    let t = exact(period);
    lemma_height(d, squared, off);
    lemma_number_eight();
    lemma_about_product(
        number(EIGHT),
        d,
        8real,
        off,
        8real,
        1real,
        0real,
        20000real * e,
        9real,
    );
    let eight = product(number(EIGHT), d);
    assert(is_about(eight, 8real * off, 170000real * e));
    lemma_inverse(t, 1real / 2048real);
    let q = (8real * off) / t;
    let w = 1real / t;
    let f = 8real * off;
    assert(q == f * w) by (nonlinear_arith)
        requires
            q == f / t,
            w * t == 1real,
            t > 0real,
    ;
    lemma_size_product(f, w);
    lemma_order_product(size(f), 8real, size(w), 2048real);
    lemma_about_quotient(
        eight,
        period,
        f,
        t,
        1real / 2048real,
        170000real * e,
        0real,
        16384real,
    );
}

/// The drawing goes on while there is more than a millionth left, in time and in height, and
/// ends where there is less; how little around a millionth is a matter of rounding.
pub proof fn law_drawing_goes_on_while_a_millionth_is_left(
    formula: BounceFormula,
    squared: Double,
    next: Double,
)
    requires
        is_between(formula.active_end, 0real, 1real),
        is_between(formula.right_of(next), -4real, 4real),
        squared.finite(),
    ensures
        ({
            let left = exact(formula.active_end) - exact(formula.right_of(next));
            let (more, less) = (1001real / 1000000000real, 999real / 1000000000real);
            &&& left > more && exact(squared) > more ==> !formula.is_last(squared, next)
            &&& left < less || exact(squared) < less ==> formula.is_last(squared, next)
        }),
{
    let (end, right, step) = (formula.active_end, formula.right_of(next), grid_step());
    let u = one_step() as real;
    lemma_pow2_pos(UNIT_SHIFT as nat);
    lemma_numbers();
    lemma_grid_scale();
    lemma_exact(grid_scale());
    lemma_whole_product(1_000_000, one_step() as int);
    assert((1000000real * u) / u == 1000000real) by (nonlinear_arith)
        requires
            u > 0real,
    ;
    assert(exact(grid_scale()) == 1000000real);
    lemma_about_quotient(
        number(ONE),
        grid_scale(),
        1real,
        1000000real,
        1000000real,
        0real,
        0real,
        1real,
    );
    assert(is_about(step, 1real / 1000000real, 1real / 1000000000000real));
    lemma_about_difference(end, right, exact(end), exact(right), 0real, 0real, 5real);
    lemma_exact_order(end, right);
    lemma_exact_order(difference(end, right), step);
    lemma_exact_order(step, squared);
    lemma_exact_order(squared, step);
}

/// Finite numbers are ordered as the numbers they stand for.
proof fn lemma_exact_order(a: Double, b: Double)
    requires
        a.finite(),
        b.finite(),
    ensures
        a.at_most(b) <==> exact(a) <= exact(b),
        b.less(a) <==> exact(b) < exact(a),
{
    let u = one_step() as real;
    let (x, y) = (exact(a), exact(b));
    lemma_pow2_pos(UNIT_SHIFT as nat);
    lemma_exact(a);
    lemma_exact(b);
    if x <= y {
        assert(x * u <= y * u) by (nonlinear_arith)
            requires
                x <= y,
                u > 0real,
        ;
    } else {
        assert(x * u > y * u) by (nonlinear_arith)
            requires
                x > y,
                u > 0real,
        ;
    }
}

/// A drawing is too long only if its pieces have more than 65535 control points, two each;
/// one that is not has no more than those.
pub proof fn law_only_long_drawings_are_too_long(
    formula: BounceFormula,
    powers: spec_fn(nat) -> Double,
    index: nat,
    limit: nat,
    spans: Seq<CubicBezierSpan>,
)
    requires
        spans.len() <= 32767,
    ensures
        ({
            let drawn = formula.bounces(powers, index, limit, spans);
            &&& drawn is Some && drawn->0 is Ok ==> spans.len() <= drawn->0->Ok_0.len() <= 32767
            &&& drawn is Some && drawn->0 is Err ==> drawn->0->Err_0 is BounceTooLong
                && spans.len() + 2 * (limit - index) > 32767
        }),
    decreases limit - index,
{
    if index < limit {
        let squared = powers(2 * index);
        let next = powers(index + 1);
        let pieces = formula.pieces(powers(index), squared, next);
        let grown = spans + pieces;
        assert(pieces.len() <= 2);
        if grown.len() <= 32767 {
            law_only_long_drawings_are_too_long(formula, powers, index + 1, limit, grown);
        }
    }
}

} // verus!
