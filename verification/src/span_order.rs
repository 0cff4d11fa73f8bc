//! The order of the spans of a drawn segment.
use crate::arithmetic::{difference, quotient, sum};
use crate::bounce::BounceFormula;
use crate::bounce_sampler::{bounce_curve, closed};
use crate::conversion::whole;
use crate::double::{
    lemma_magnitude_increases, lemma_magnitude_zero, one_step, pattern_magnitude, pattern_shift,
    pattern_significand, Double, HIDDEN, INFINITE, UNIT_SHIFT,
};
use crate::elastic::{grid_moment, is_inside, without_repeats, Crossing, ElasticFormula, Wave};
use crate::elastic_sampler::{
    complete, elastic_curve, extrema, extremum_in, lemma_turned_ends, narrowed, slope_at,
    vertices_of, whole_interval,
};
use crate::numbers::{lemma_one, lemma_two, number, HALF, ONE, TWO, ZERO};
use crate::precision::{largest, law_rounding_keeps_order, lemma_rounded_at_least};
use crate::rounding::{
    lemma_pow2_increases, lemma_rounded_at_most, lemma_rounded_exact, lemma_rounded_magnitude,
    nearest_pattern,
};
use crate::spans::CubicBezierSpan;
use vstd::arithmetic::div_mod::*;
use vstd::arithmetic::power2::*;
use vstd::prelude::*;

verus! {

// Numbers of the unit interval.

/// Whether a number lies between zero and one.
pub open spec fn is_unit(v: Double) -> bool {
    v.finite() && !v.negative() && v.magnitude() <= one_step()
}

/// The pattern of twice a number.
spec fn twice(p: nat) -> nat {
    if p < HIDDEN {
        2 * p
    } else {
        (p + HIDDEN) as nat
    }
}

proof fn lemma_twice(p: nat)
    requires
        p < INFINITE - HIDDEN,
    ensures
        twice(p) < INFINITE,
        pattern_magnitude(twice(p)) == 2 * pattern_magnitude(p),
{
    lemma2_to64();
    let h = HIDDEN as nat;
    if p < HIDDEN {
        assert(pattern_shift(p) == 0);
        assert(pattern_magnitude(p) == p * 1);
        if twice(p) >= HIDDEN {
            lemma_fundamental_div_mod_converse(twice(p) as int, h as int, 1, twice(p) - h);
        }
        assert(pattern_shift(twice(p)) == 0);
        assert(pattern_significand(twice(p)) == twice(p));
        assert(pattern_magnitude(twice(p)) == twice(p) * 1);
    } else {
        let q = p / h;
        let r = p % h;
        lemma_fundamental_div_mod(p as int, h as int);
        lemma_fundamental_div_mod_converse(twice(p) as int, h as int, (q + 1) as int, r as int);
        let s = pattern_shift(p);
        assert(pattern_shift(twice(p)) == s + 1);
        lemma_pow2_unfold(s + 1);
        let m = pattern_significand(p);
        let v = pow2(s);
        assert(m * (2 * v) == 2 * (m * v)) by (nonlinear_arith);
    }
}

/// The largest finite double is far above one.
pub proof fn lemma_largest()
    ensures
        0x1_0000_0000_0000_0000 * one_step() <= largest(),
{
    lemma2_to64_rest();
    let top = (INFINITE - 1) as nat;
    assert(pattern_shift(top) == 2045);
    assert(pattern_significand(top) == 2 * HIDDEN - 1);
    lemma_pow2_adds(64, UNIT_SHIFT as nat);
    lemma_pow2_increases(64 + UNIT_SHIFT as nat, 2045);
    let a = pow2(2045);
    assert(a <= (2 * HIDDEN - 1) * a) by (nonlinear_arith)
        requires
            a > 0,
    ;
}

/// The middle of two numbers of the unit interval, as it is computed, lies between
/// them.
proof fn lemma_middle(a: Double, b: Double)
    requires
        is_unit(a),
        is_unit(b),
        a.value() <= b.value(),
    ensures
        is_unit(quotient(sum(a, b), number(TWO))),
        a.value() <= quotient(sum(a, b), number(TWO)).value() <= b.value(),
{
    let one = one_step();
    let s = sum(a, b);
    lemma_pow2_pos(UNIT_SHIFT as nat);
    lemma_largest();
    lemma_two();
    lemma_one();
    lemma_magnitude_zero(0);
    a.lemma_order(b);
    a.lemma_order(number(ONE));
    b.lemma_order(number(ONE));
    lemma_twice(a.pattern());
    lemma_twice(b.pattern());
    let n = a.magnitude() + b.magnitude();
    lemma_rounded_at_least(n, 1, twice(a.pattern()));
    lemma_rounded_at_most(n, 1, twice(b.pattern()));
    assert(2 * a.magnitude() <= s.magnitude() <= 2 * b.magnitude()) by {
        if n > 0 {
            let t = Double { bits: twice(a.pattern()) as u64 };
            let u = Double { bits: twice(b.pattern()) as u64 };
            assert(s.pattern() == nearest_pattern(n, 1));
            assert(t.pattern() == twice(a.pattern()));
            assert(u.pattern() == twice(b.pattern()));
            t.lemma_order(s);
            s.lemma_order(u);
        }
    }
    let m = s.magnitude() * one;
    let d = 2 * one;
    let x = a.magnitude();
    let y = b.magnitude();
    let z = s.magnitude();
    assert(d * x <= m && m <= d * y) by (nonlinear_arith)
        requires
            2 * x <= z <= 2 * y,
            m == z * one,
            d == 2 * one,
    ;
    let top = largest();
    assert(d * y <= d * top) by (nonlinear_arith)
        requires
            y <= top,
    ;
    lemma_rounded_at_least(m, d, a.pattern());
    lemma_rounded_at_most(m, d, b.pattern());
    let r = quotient(s, number(TWO));
    assert(r.pattern() == nearest_pattern(m, d));
    a.lemma_order(r);
    r.lemma_order(b);
}

/// A whole number that a machine counts to is finite and at least one, and whole
/// numbers keep their order.
proof fn lemma_whole_order(i: nat, j: nat)
    requires
        1 <= i <= j <= 0xffff_ffff_ffff_ffff,
    ensures
        whole(false, i).finite(),
        !whole(false, i).negative(),
        whole(false, j).finite(),
        !whole(false, j).negative(),
        one_step() <= whole(false, i).magnitude() <= whole(false, j).magnitude(),
{
    let one = one_step();
    lemma_pow2_pos(UNIT_SHIFT as nat);
    lemma_largest();
    lemma_one();
    assert(one <= i * one && i * one <= j * one && j * one <= 0x1_0000_0000_0000_0000 * one)
        by (nonlinear_arith)
        requires
            1 <= i <= j <= 0xffff_ffff_ffff_ffff,
            one > 0,
    ;
    lemma_rounded_at_least(i * one, 1, ONE as nat);
    law_rounding_keeps_order(i * one, j * one, 1);
    number(ONE).lemma_order(whole(false, i));
    whole(false, i).lemma_order(whole(false, j));
}

/// The moments at which intervals end are in order, and lie in the unit interval.
proof fn lemma_grid_moments(i: nat, j: nat, divisions: nat)
    requires
        i <= j <= divisions <= usize::MAX,
    ensures
        is_unit(grid_moment(i, divisions)),
        is_unit(grid_moment(j, divisions)),
        grid_moment(i, divisions).value() <= grid_moment(j, divisions).value(),
{
    let one = one_step();
    lemma_magnitude_zero(0);
    lemma_pow2_pos(UNIT_SHIFT as nat);
    if j > 0 {
        lemma_largest();
        lemma_one();
        lemma_whole_order(j, divisions);
        let y = whole(false, j).magnitude();
        let d = whole(false, divisions).magnitude();
        let top = largest();
        assert(y * one <= d * one) by (nonlinear_arith)
            requires
                y <= d,
        ;
        assert(d * one <= d * top) by (nonlinear_arith)
            requires
                one <= top,
        ;
        lemma_rounded_at_most(y * one, d, ONE as nat);
        let b = grid_moment(j, divisions);
        b.lemma_order(number(ONE));
        if i > 0 {
            lemma_whole_order(i, j);
            lemma_whole_order(i, divisions);
            let x = whole(false, i).magnitude();
            assert(x * one <= y * one) by (nonlinear_arith)
                requires
                    x <= y,
            ;
            law_rounding_keeps_order(x * one, y * one, d);
            let a = grid_moment(i, divisions);
            a.lemma_order(number(ONE));
            a.lemma_order(b);
        }
    }
}

// Elastic segments.

/// Whether moments are in order.
pub open spec fn is_ordered(moments: Seq<Double>) -> bool {
    forall|i: int, j: int|
        0 <= i <= j < moments.len() ==> (#[trigger] moments[i]).at_most(#[trigger] moments[j])
}

/// Halving an interval does not leave it.
proof fn lemma_narrowed_stays(
    formula: ElasticFormula,
    waves: spec_fn(Double) -> Wave,
    crossing: Crossing,
)
    requires
        is_unit(crossing.min_t),
        is_unit(crossing.max_t),
        crossing.min_t.value() <= crossing.max_t.value(),
    ensures
        is_unit(narrowed(formula, waves, crossing)),
        crossing.min_t.value() <= narrowed(formula, waves, crossing).value()
            <= crossing.max_t.value(),
    decreases crossing.left,
{
    reveal(narrowed);
    lemma_middle(crossing.min_t, crossing.max_t);
    if crossing.left > 0 {
        lemma_narrowed_stays(
            formula,
            waves,
            crossing.halved(formula.slope(waves(crossing.middle()))),
        );
    }
}

/// The extremum of an interval lies in the interval.
proof fn lemma_extremum_in(
    formula: ElasticFormula,
    waves: spec_fn(Double) -> Wave,
    index: nat,
)
    requires
        0 < index <= formula.interval_count(),
    ensures
        extremum_in(formula, waves, index) matches Some(moment) ==> {
            &&& is_unit(moment)
            &&& grid_moment((index - 1) as nat, formula.interval_count()).value() <= moment.value()
            &&& moment.value() <= grid_moment(index, formula.interval_count()).value()
        },
{
    let divisions = formula.interval_count();
    lemma_grid_moments((index - 1) as nat, index, divisions);
    lemma_narrowed_stays(
        formula,
        waves,
        whole_interval(divisions, index, slope_at(formula, waves, (index - 1) as nat)),
    );
}

/// The extrema of the first intervals are in order.
proof fn lemma_extrema_are_ordered(
    formula: ElasticFormula,
    waves: spec_fn(Double) -> Wave,
    n: nat,
)
    requires
        n <= formula.interval_count(),
    ensures
        is_ordered(extrema(formula, waves, n)),
        forall|i: int|
            0 <= i < extrema(formula, waves, n).len() ==> {
                let moment = #[trigger] extrema(formula, waves, n)[i];
                &&& is_unit(moment)
                &&& moment.value() <= grid_moment(n, formula.interval_count()).value()
            },
    decreases n,
{
    if n > 0 {
        let m = (n - 1) as nat;
        lemma_extrema_are_ordered(formula, waves, m);
        lemma_extremum_in(formula, waves, n);
        lemma_grid_moments(m, n, formula.interval_count());
        let before = extrema(formula, waves, m);
        let all = extrema(formula, waves, n);
        assert forall|i: int| 0 <= i < all.len() implies is_unit(#[trigger] all[i])
            && all[i].value() <= grid_moment(n, formula.interval_count()).value() by {
            if i < before.len() {
                assert(all[i] == before[i]);
            }
        }
        assert forall|i: int, j: int| 0 <= i <= j < all.len() implies (
        #[trigger] all[i]).at_most(#[trigger] all[j]) by {
            if j < before.len() {
                assert(all[i] == before[i] && all[j] == before[j]);
            } else if i < before.len() {
                assert(all[i] == before[i]);
            }
        }
    }
}

/// What is left without repeats was there before, in the same order.
proof fn lemma_without_repeats_is_ordered(moments: Seq<Double>)
    requires
        is_ordered(moments),
    ensures
        is_ordered(without_repeats(moments)),
        forall|i: int|
            0 <= i < without_repeats(moments).len() ==> moments.contains(
                #[trigger] without_repeats(moments)[i],
            ),
    decreases moments.len(),
{
    if moments.len() > 0 {
        let rest = moments.drop_last();
        assert forall|i: int, j: int| 0 <= i <= j < rest.len() implies (
        #[trigger] rest[i]).at_most(#[trigger] rest[j]) by {
            assert(moments[i].at_most(moments[j]));
        }
        lemma_without_repeats_is_ordered(rest);
        let before = without_repeats(rest);
        let all = without_repeats(moments);
        let last = moments.last();
        assert forall|i: int| 0 <= i < all.len() implies moments.contains(#[trigger] all[i]) by {
            if i < before.len() {
                assert(all[i] == before[i]);
                let k = choose|k: int| 0 <= k < rest.len() && rest[k] == before[i];
                assert(moments[k] == all[i]);
            } else {
                assert(moments[moments.len() - 1] == all[i]);
            }
        }
        assert forall|i: int, j: int| 0 <= i <= j < all.len() implies (
        #[trigger] all[i]).at_most(#[trigger] all[j]) by {
            if j < before.len() {
                assert(all[i] == before[i] && all[j] == before[j]);
            } else {
                assert(moments.contains(all[i]));
                let k = choose|k: int| 0 <= k < moments.len() && moments[k] == all[i];
                assert(moments[k].at_most(moments[moments.len() - 1]));
            }
        }
    }
}

/// What a filter keeps was there before, in the same order, and fulfils it.
proof fn lemma_filter_is_ordered(moments: Seq<Double>, keep: spec_fn(Double) -> bool)
    requires
        is_ordered(moments),
    ensures
        is_ordered(moments.filter(keep)),
        forall|i: int|
            0 <= i < moments.filter(keep).len() ==> keep(#[trigger] moments.filter(keep)[i])
                && moments.contains(moments.filter(keep)[i]),
    decreases moments.len(),
{
    reveal_with_fuel(Seq::filter, 2);
    if moments.len() > 0 {
        let rest = moments.drop_last();
        assert forall|i: int, j: int| 0 <= i <= j < rest.len() implies (
        #[trigger] rest[i]).at_most(#[trigger] rest[j]) by {
            assert(moments[i].at_most(moments[j]));
        }
        lemma_filter_is_ordered(rest, keep);
        let before = rest.filter(keep);
        let all = moments.filter(keep);
        assert forall|i: int| 0 <= i < all.len() implies keep(#[trigger] all[i])
            && moments.contains(all[i]) by {
            if i < before.len() {
                assert(all[i] == before[i]);
                let k = choose|k: int| 0 <= k < rest.len() && rest[k] == before[i];
                assert(moments[k] == all[i]);
            } else {
                assert(moments[moments.len() - 1] == all[i]);
            }
        }
        assert forall|i: int, j: int| 0 <= i <= j < all.len() implies (
        #[trigger] all[i]).at_most(#[trigger] all[j]) by {
            if j < before.len() {
                assert(all[i] == before[i] && all[j] == before[j]);
            } else {
                assert(moments.contains(all[i]));
                let k = choose|k: int| 0 <= k < moments.len() && moments[k] == all[i];
                assert(moments[k].at_most(moments[moments.len() - 1]));
            }
        }
    }
}

/// The moments at which the pieces of an elastic segment meet are in order, and lie
/// in the unit interval.
proof fn lemma_vertices_are_ordered(formula: ElasticFormula, waves: spec_fn(Double) -> Wave)
    ensures
        is_ordered(vertices_of(formula, waves)),
        forall|i: int|
            0 <= i < vertices_of(formula, waves).len() ==> is_unit(
                #[trigger] vertices_of(formula, waves)[i],
            ),
{
    let found = extrema(formula, waves, formula.interval_count());
    let once = without_repeats(found);
    let keep = |t: Double| is_inside(t);
    let inside = once.filter(keep);
    let all = vertices_of(formula, waves);
    lemma_extrema_are_ordered(formula, waves, formula.interval_count());
    lemma_without_repeats_is_ordered(found);
    lemma_filter_is_ordered(once, keep);
    lemma_one();
    lemma_magnitude_zero(0);
    lemma_pow2_pos(UNIT_SHIFT as nat);
    assert(all == seq![number(ZERO)] + inside + seq![number(ONE)]);
    assert forall|i: int| 0 <= i < all.len() implies is_unit(#[trigger] all[i]) && (0 < i
        < all.len() - 1 ==> all[i] == inside[i - 1] && is_inside(all[i])) by {
        if 0 < i < all.len() - 1 {
            assert(all[i] == inside[i - 1]);
            assert(once.contains(inside[i - 1]));
            let k = choose|k: int| 0 <= k < once.len() && once[k] == inside[i - 1];
            assert(found.contains(once[k]));
            let l = choose|l: int| 0 <= l < found.len() && found[l] == once[k];
            assert(is_unit(found[l]));
        }
    }
    assert forall|i: int, j: int| 0 <= i <= j < all.len() implies (
    #[trigger] all[i]).at_most(#[trigger] all[j]) by {
        if 0 < i && j < all.len() - 1 {
            assert(inside[i - 1].at_most(inside[j - 1]));
        }
    }
}

/// Turning half round reverses the order.
proof fn lemma_turned_order(a: Double, b: Double)
    requires
        a.at_most(b),
    ensures
        difference(number(ONE), b).at_most(difference(number(ONE), a)),
{
    let one = one_step();
    lemma_one();
    lemma_largest();
    lemma_magnitude_zero(0);
    lemma_pow2_pos(UNIT_SHIFT as nat);
    a.lemma_opposite();
    b.lemma_opposite();
    let u = difference(number(ONE), b);
    let v = difference(number(ONE), a);
    let x = one - b.value();
    let y = one - a.value();
    lemma_difference_from_one(a);
    lemma_difference_from_one(b);
    if a.finite() && b.finite() {
        u.lemma_order(v);
        if x >= 0 {
            law_rounding_keeps_order(x as nat, y as nat, 1);
        } else if y < 0 {
            law_rounding_keeps_order((-y) as nat, (-x) as nat, 1);
        }
    } else {
        lemma_infinite_is_largest(a);
        lemma_infinite_is_largest(b);
        lemma_infinite_is_largest(u);
        lemma_infinite_is_largest(v);
    }
}

/// No number is beyond infinity.
proof fn lemma_infinite_is_largest(v: Double)
    requires
        !v.nan(),
    ensures
        v.magnitude() <= pattern_magnitude(INFINITE as nat),
        v.magnitude() == pattern_magnitude(INFINITE as nat) ==> v.infinite(),
{
    if v.finite() {
        lemma_magnitude_increases(v.pattern(), INFINITE as nat);
    }
}

/// The sign and the pattern of one minus a number.
proof fn lemma_difference_from_one(v: Double)
    requires
        !v.nan(),
    ensures
        ({
            let r = difference(number(ONE), v);
            let exact = one_step() - v.value();
            &&& !r.nan()
            &&& v.infinite() ==> r == v.opposite()
            &&& v.finite() && exact >= 0 ==> !r.negative() && r.pattern() == nearest_pattern(
                exact as nat,
                1,
            )
            &&& v.finite() && exact < 0 ==> r.negative() && r.pattern() == nearest_pattern(
                (-exact) as nat,
                1,
            )
        }),
{
    lemma_one();
    v.lemma_opposite();
    let exact = one_step() - v.value();
    lemma_magnitude_zero(0);
    lemma_rounded_exact(0, 1, 0);
    lemma_rounded_magnitude(
        if exact >= 0 {
            exact as nat
        } else {
            (-exact) as nat
        },
        1,
    );
}

/// The spans of an elastic segment run from left to right, whatever the waves are.
pub proof fn law_elastic_spans_run_to_the_right(
    reversed: bool,
    formula: ElasticFormula,
    waves: spec_fn(Double) -> Wave,
    k: int,
)
    requires
        0 <= k < elastic_curve(reversed, formula, waves).len(),
    ensures
        elastic_curve(reversed, formula, waves)[k].start.x.at_most(
            elastic_curve(reversed, formula, waves)[k].end.x,
        ),
{
    let done = complete(formula, waves);
    let vertices = vertices_of(done, waves);
    lemma_vertices_are_ordered(done, waves);
    let n = vertices.len() - 1;
    let i = if reversed {
        n - 1 - k
    } else {
        k
    };
    let from = vertices[i];
    let to = vertices[i + 1];
    assert(from.at_most(to));
    lemma_turned_order(from, to);
}

// Bounce segments.

/// The two spans of one bounce meet where it is farthest from the line.
pub proof fn law_bounce_pieces_share_the_vertex(
    formula: BounceFormula,
    power: Double,
    squared: Double,
    next: Double,
)
    requires
        formula.pieces(power, squared, next).len() == 2,
    ensures
        ({
            let pieces = formula.pieces(power, squared, next);
            &&& pieces[0].end == pieces[1].start
            &&& pieces[0].end.x == formula.middle_of(power)
        }),
{
}

/// Drawing adds spans that run to the right, and keeps those before them.
proof fn lemma_bounces_extend(
    formula: BounceFormula,
    powers: spec_fn(nat) -> Double,
    index: nat,
    limit: nat,
    spans: Seq<CubicBezierSpan>,
)
    ensures
        formula.bounces(powers, index, limit, spans) matches Some(Ok(all)) ==> {
            &&& spans.len() <= all.len()
            &&& forall|i: int| 0 <= i < spans.len() ==> all[i] == spans[i]
            &&& forall|i: int|
                spans.len() <= i < all.len() ==> (#[trigger] all[i]).start.x.less(all[i].end.x)
        },
    decreases limit - index,
{
    let pieces = formula.pieces(powers(index), powers(2 * index), powers(index + 1));
    let grown = spans + pieces;
    assert forall|i: int| spans.len() <= i < grown.len() implies (
    #[trigger] grown[i]).start.x.less(grown[i].end.x) by {
        assert(grown[i] == pieces[i - spans.len()]);
    }
    if index < limit {
        lemma_bounces_extend(formula, powers, index + 1, limit, grown);
        assert forall|i: int| 0 <= i < spans.len() implies grown[i] == spans[i] by {}
    }
}

/// The spans of a bounce segment run from left to right, whatever the powers are.
pub proof fn law_bounce_spans_run_to_the_right(
    reversed: bool,
    formula: BounceFormula,
    powers: spec_fn(nat) -> Double,
    limit: nat,
    k: int,
)
    requires
        bounce_curve(reversed, formula, powers, limit) matches Some(Ok(spans)) && 0 <= k
            < spans.len(),
    ensures
        ({
            let spans = bounce_curve(reversed, formula, powers, limit)->0->Ok_0;
            spans[k].start.x.at_most(spans[k].end.x)
        }),
{
    lemma_bounces_extend(formula, powers, 0, limit, Seq::empty());
    let drawn = formula.bounces(powers, 0, limit, Seq::empty())->0->Ok_0;
    let whole = closed(false, drawn)->Ok_0;
    let i = if reversed {
        whole.len() - 1 - k
    } else {
        k
    };
    if i < drawn.len() {
        assert(whole[i] == drawn[i]);
        assert(drawn[i].start.x.less(drawn[i].end.x));
    }
    assert(whole[i].start.x.at_most(whole[i].end.x));
    lemma_turned_order(whole[i].start.x, whole[i].end.x);
}

/// The spans of a bounce segment reach the right end of the unit square.
pub proof fn law_bounce_curve_reaches_the_end(
    formula: BounceFormula,
    powers: spec_fn(nat) -> Double,
    limit: nat,
)
    requires
        bounce_curve(false, formula, powers, limit) matches Some(Ok(_)),
    ensures
        ({
            let spans = bounce_curve(false, formula, powers, limit)->0->Ok_0;
            spans.len() > 0 && number(ONE).at_most(spans.last().end.x)
        }),
{
    lemma_bounces_extend(formula, powers, 0, limit, Seq::empty());
    let drawn = formula.bounces(powers, 0, limit, Seq::empty())->0->Ok_0;
    assert(drawn[drawn.len() - 1].start.x.less(drawn[drawn.len() - 1].end.x));
    lemma_one();
}

/// The first bounce begins at zero.
proof fn lemma_first_bounce(formula: BounceFormula)
    requires
        is_unit(formula.cor),
        formula.cor.less(number(ONE)),
        !formula.period.nan(),
        !formula.period.negative(),
    ensures
        formula.left_of(number(ONE)).same(number(ZERO)),
{
    let one = number(ONE);
    let half = number(HALF);
    lemma_turned_ends();
    lemma_one();
    lemma_magnitude_zero(0);
    lemma_pow2_pos(UNIT_SHIFT as nat);
    one.lemma_opposite();
    half.lemma_opposite();
    lemma_magnitude_zero(HALF as nat);
    lemma_magnitude_zero(formula.period.pattern());
    let fall = difference(formula.cor, one);
    let exact = (one_step() - formula.cor.magnitude()) as nat;
    lemma_largest();
    lemma2_to64();
    assert(pattern_significand(1) == 1 && pattern_shift(1) == 0);
    assert(1 * pow2(0) == 1);
    lemma_rounded_at_least(exact, 1, 1);
    assert(fall.negative() && fall.finite() && fall.pattern() >= 1);
    lemma_magnitude_zero(fall.pattern());
    let share = quotient(number(ZERO), fall);
    let nothing = number(ZERO).magnitude() * one_step();
    assert(nothing == 0) by (nonlinear_arith)
        requires
            number(ZERO).magnitude() == 0,
            nothing == number(ZERO).magnitude() * one_step(),
    ;
    lemma_rounded_exact(0, fall.magnitude(), 0);
    assert(share.negative() && share.pattern() == 0);
    lemma_rounded_exact(half.magnitude(), 1, HALF as nat);
    let place = difference(share, half);
    assert(place.negative() && place.pattern() == HALF);
    let start = formula.start_of(one);
    lemma_rounded_magnitude(formula.period.magnitude() * place.magnitude(), one_step());
    assert(start.negative() && !start.nan());
}

/// Where the power of exponent zero is one and the first bounce is drawn at all,
/// the spans of a bounce segment begin at zero, or at the vertex of the first
/// bounce where that is not after zero. They begin at zero wherever that vertex is
/// not before zero.
pub proof fn law_bounce_curve_begins_at_zero(
    formula: BounceFormula,
    powers: spec_fn(nat) -> Double,
    limit: nat,
)
    requires
        is_unit(formula.cor),
        formula.cor.less(number(ONE)),
        !formula.period.nan(),
        !formula.period.negative(),
        powers(0) == number(ONE),
        formula.pieces(powers(0), powers(0), powers(1)).len() > 0,
        bounce_curve(false, formula, powers, limit) matches Some(Ok(_)),
    ensures
        ({
            let start = bounce_curve(false, formula, powers, limit)->0->Ok_0[0].start.x;
            &&& start.at_most(number(ZERO))
            &&& start.same(number(ZERO)) || start == formula.middle_of(number(ONE))
            &&& !formula.middle_of(number(ONE)).less(number(ZERO)) ==> start.same(number(ZERO))
        }),
{
    lemma_first_bounce(formula);
    let pieces = formula.pieces(powers(0), powers(0), powers(1));
    let drawn = formula.bounces(powers, 0, limit, Seq::empty())->0->Ok_0;
    let grown = Seq::<CubicBezierSpan>::empty() + pieces;
    lemma_bounces_extend(formula, powers, 0, limit, Seq::empty());
    lemma_bounces_extend(formula, powers, 1, limit, grown);
    assert(grown =~= pieces);
    assert(drawn[0] == pieces[0]);
}

} // verus!
