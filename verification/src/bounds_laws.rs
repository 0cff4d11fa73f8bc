//! What the operations on the bounds of a view give.
use crate::arithmetic::{quotient, sum};
use crate::bounce_precision::{
    exact, is_rounded, lemma_difference, lemma_numbers, lemma_sum, size, ulp,
};
use crate::bounds::TimeControlVerticalBounds;
use crate::bounds_precision::is_bounded;
use crate::double::Double;
use crate::numbers::{number, TWO};
use crate::tolerance::{
    is_about, is_held, lemma_about_difference, lemma_about_quotient, lemma_about_sum,
};
use vstd::prelude::*;

verus! {

/// The height of a view is the way from its lower to its upper end, and moving it moves
/// both ends by as much, up to one rounding.
pub proof fn law_view_is_measured_and_moved(view: TimeControlVerticalBounds, delta: Double)
    requires
        is_bounded(view),
        delta.finite(),
    ensures
        view.extent().finite() ==> is_rounded(
            view.extent(),
            exact(view.max_y) - exact(view.min_y),
        ),
        is_bounded(view.moved(delta)) ==> is_rounded(
            view.moved(delta).min_y,
            exact(view.min_y) + exact(delta),
        ) && is_rounded(view.moved(delta).max_y, exact(view.max_y) + exact(delta)),
{
    if view.extent().finite() {
        lemma_difference(view.max_y, view.min_y);
    }
    if is_bounded(view.moved(delta)) {
        lemma_sum(view.min_y, delta);
        lemma_sum(view.max_y, delta);
    }
}

/// Half of a number, as it is computed.
proof fn lemma_half_of(v: Double, x: real, error: real, bound: real)
    requires
        is_about(v, x, error),
        size(x) <= 2real * bound,
        error <= bound,
        bound >= 1real,
        quotient(v, number(TWO)).finite(),
    ensures
        is_about(quotient(v, number(TWO)), x / 2real, error + (2real * bound + 1real) * ulp()),
{
    lemma_numbers();
    assert(bound * 0real == 0real) by (nonlinear_arith);
    lemma_about_quotient(v, number(TWO), x, 2real, 2real, error, 0real, bound);
}

/// The middle of a view is half way between its ends, up to rounding.
pub proof fn law_view_has_a_middle(view: TimeControlVerticalBounds, bound: real)
    requires
        is_held(view.min_y, bound),
        is_held(view.max_y, bound),
        bound >= 1real,
        view.middle().finite(),
    ensures
        is_about(
            view.middle(),
            (exact(view.min_y) + exact(view.max_y)) / 2real,
            6real * bound * ulp(),
        ),
{
    let e = ulp();
    let (x, y) = (exact(view.min_y), exact(view.max_y));
    let v = sum(view.min_y, view.max_y);
    lemma_numbers();
    assert(v.finite());
    lemma_about_sum(view.min_y, view.max_y, x, y, 0real, 0real, 2real * bound);
    let error = (2real * bound + 1real) * e;
    assert(error <= bound && error + error <= 6real * bound * e) by (nonlinear_arith)
        requires
            error == (2real * bound + 1real) * e,
            bound >= 1real,
            e == 1real / 9007199254740992real,
    ;
    lemma_half_of(v, x + y, error, bound);
}

/// A view around a middle reaches half of its height up and down from there, up to
/// rounding.
pub proof fn law_view_around_a_middle(center: Double, range: Double, bound: real)
    requires
        is_held(center, bound),
        is_held(range, bound),
        bound >= 1real,
        is_bounded(TimeControlVerticalBounds::around(center, range)),
    ensures
        ({
            let view = TimeControlVerticalBounds::around(center, range);
            let (c, h) = (exact(center), exact(range) / 2real);
            &&& is_about(view.min_y, c - h, 8real * bound * ulp())
            &&& is_about(view.max_y, c + h, 8real * bound * ulp())
        }),
{
    let e = ulp();
    let half = quotient(range, number(TWO));
    half.lemma_opposite();
    assert(half.finite());
    lemma_half_of(range, exact(range), 0real, bound);
    let error = (2real * bound + 1real) * e;
    assert(error <= bound / 4real && error + (2real * bound + 1real) * e <= 8real * bound * e) by (
    nonlinear_arith)
        requires
            error == (2real * bound + 1real) * e,
            bound >= 1real,
            e == 1real / 9007199254740992real,
    ;
    let h = exact(range) / 2real;
    lemma_about_difference(center, half, exact(center), h, 0real, error, 2real * bound);
    lemma_about_sum(center, half, exact(center), h, 0real, error, 2real * bound);
}

/// The view around two others ends where one of them does, at each side, and holds the ends
/// of both.
pub proof fn law_union_is_the_smallest(a: TimeControlVerticalBounds, b: TimeControlVerticalBounds)
    requires
        is_bounded(a),
        is_bounded(b),
    ensures
        ({
            let r = a.joined(b);
            &&& r.min_y == a.min_y || r.min_y == b.min_y
            &&& r.min_y.at_most(a.min_y) && r.min_y.at_most(b.min_y)
            &&& r.max_y == a.max_y || r.max_y == b.max_y
            &&& a.max_y.at_most(r.max_y) && b.max_y.at_most(r.max_y)
        }),
{
}

} // verus!
