//! How close the bounds of a view stay to what they are meant to be.
//!
//! The view that is meant is one of exact numbers: as high as the given one, but
//! no higher than the content and no lower than an eighth of it, with the same
//! middle as far as the content allows. All its heights are whole numbers of
//! sixteenths of a step.
use crate::arithmetic::{difference, distance, product, quotient, sum};
use crate::bounds::{lemma_eight, lemma_eighth, lemma_millionth, TimeControlVerticalBounds};
use crate::double::{
    lemma_magnitude_zero, one_step, pattern_magnitude, Double, INFINITE, UNIT_SHIFT,
};
use crate::numbers::{lemma_two, number, EIGHT, MILLIONTH, TWO};
use crate::precision::{largest, law_rounding_error};
use crate::rounding::{lemma_rounded_at_most, lemma_rounded_magnitude, nearest_pattern};
use vstd::arithmetic::div_mod::*;
use vstd::arithmetic::power2::*;
use vstd::prelude::*;

verus! {

/// The number held between two others.
pub open spec fn held(v: int, low: int, high: int) -> int {
    if v < low {
        low
    } else if high < v {
        high
    } else {
        v
    }
}

/// Half the height of the view that is meant, in sixteenths.
pub open spec fn meant_half(a: int, b: int, p: int, q: int) -> int {
    held(8 * (b - a), q - p, 8 * (q - p))
}

/// The lower end of the view that is meant when `a` and `b` are the ends of the
/// given view and `p` and `q` those of the content, in sixteenths.
pub open spec fn meant_min(a: int, b: int, p: int, q: int) -> int {
    let half = meant_half(a, b, p, q);
    held(8 * (a + b) - half, 16 * p, 16 * q - 2 * half)
}

/// The upper end of the view that is meant, in sixteenths.
pub open spec fn meant_max(a: int, b: int, p: int, q: int) -> int {
    meant_min(a, b, p, q) + 2 * meant_half(a, b, p, q)
}

/// The view that is meant lies in the content, and its height is that of the given
/// view, held between an eighth of the content's and all of it. A view at least
/// as high as the content becomes the content. A view inside the content that is
/// high enough stays as it is. So the view that is meant stays as it is.
pub proof fn law_meant_view(a: int, b: int, p: int, q: int)
    requires
        p < q,
    ensures
        16 * p <= meant_min(a, b, p, q),
        meant_max(a, b, p, q) <= 16 * q,
        meant_max(a, b, p, q) - meant_min(a, b, p, q) == held(
            16 * (b - a),
            2 * (q - p),
            16 * (q - p),
        ),
        b - a >= q - p ==> meant_min(a, b, p, q) == 16 * p && meant_max(a, b, p, q) == 16 * q,
        p <= a && b <= q && 8 * (b - a) >= q - p ==> meant_min(a, b, p, q) == 16 * a && meant_max(
            a,
            b,
            p,
            q,
        ) == 16 * b,
        ({
            let c = meant_min(a, b, p, q);
            let d = meant_max(a, b, p, q);
            meant_min(c, d, 16 * p, 16 * q) == 16 * c && meant_max(c, d, 16 * p, 16 * q) == 16 * d
        }),
{
}

/// How far one rounding moves a number whose size is at most sixteen times
/// `size`.
pub open spec fn one_error(size: nat) -> nat {
    16 * size / 0x20_0000_0000_0000 + 4
}

/// How far the bounds that are computed may be from those that are meant where no
/// height is larger than `size`: sixteen roundings.
pub open spec fn slack(size: nat) -> nat {
    16 * one_error(size)
}

/// Whether a number is finite and its size at most `size`.
pub open spec fn is_within(v: Double, size: nat) -> bool {
    v.finite() && v.magnitude() <= size
}

/// Whether both ends of a view are finite.
pub open spec fn is_bounded(view: TimeControlVerticalBounds) -> bool {
    view.min_y.finite() && view.max_y.finite()
}

/// Whether a finite number is at most `error` away from an exact one.
pub open spec fn is_near(v: Double, exact: int, error: int) -> bool {
    v.finite() && -error <= v.value() - exact <= error
}

/// The error of one rounding.
proof fn lemma_one_error(n: nat, d: nat, size: nat)
    requires
        d > 0,
        n <= d * (16 * size),
        nearest_pattern(n, d) < INFINITE || 16 * size <= largest(),
    ensures
        nearest_pattern(n, d) < INFINITE,
        ({
            let error = distance(pattern_magnitude(nearest_pattern(n, d)) * d - n);
            error <= d * one_error(size)
        }),
{
    let limit = 16 * size;
    let top = largest();
    if limit <= top {
        assert(d * limit <= d * top) by (nonlinear_arith)
            requires
                limit <= top,
        ;
        lemma_rounded_at_most(n, d, (INFINITE - 1) as nat);
    }
    law_rounding_error(n, d);
    lemma2_to64_rest();
    let error = distance(pattern_magnitude(nearest_pattern(n, d)) * d - n);
    let e = 0x20_0000_0000_0000;
    lemma_fundamental_div_mod(limit as int, e);
    lemma_mod_bound(limit as int, e);
    let k = one_error(size);
    assert(limit <= e * k);
    if error * pow2(53) <= n {
        assert(error <= d * k) by (nonlinear_arith)
            requires
                error * e <= n,
                n <= d * limit,
                limit <= e * k,
                e > 0,
                d > 0,
        ;
    } else {
        assert(error <= d * k) by (nonlinear_arith)
            requires
                2 * error <= d,
                k >= 4,
                d > 0,
                error >= 0,
        ;
    }
}

/// A sum, as it is computed.
pub proof fn lemma_near_sum(a: Double, b: Double, size: nat)
    requires
        a.finite(),
        b.finite(),
        -(16 * size) <= a.value() + b.value() <= 16 * size,
        sum(a, b).finite() || 16 * size <= largest(),
    ensures
        is_near(sum(a, b), a.value() + b.value(), one_error(size) as int),
{
    let v = a.value() + b.value();
    let n = distance(v);
    lemma_magnitude_zero(0);
    if v != 0 {
        lemma_rounded_magnitude(n, 1);
        assert(sum(a, b).pattern() == nearest_pattern(n, 1));
        lemma_one_error(n, 1, size);
    }
}

/// A difference, as it is computed.
pub proof fn lemma_near_difference(a: Double, b: Double, size: nat)
    requires
        a.finite(),
        b.finite(),
        -(16 * size) <= a.value() - b.value() <= 16 * size,
        difference(a, b).finite() || 16 * size <= largest(),
    ensures
        is_near(difference(a, b), a.value() - b.value(), one_error(size) as int),
{
    b.lemma_opposite();
    lemma_near_sum(a, b.opposite(), size);
}

/// A product, as it is computed.
pub proof fn lemma_near_product(a: Double, b: Double, size: nat)
    requires
        a.finite(),
        b.finite(),
        a.magnitude() * b.magnitude() <= one_step() * (16 * size),
        16 * size <= largest(),
    ensures
        product(a, b).finite(),
        ({
            let off = product(a, b).value() * one_step() - a.value() * b.value();
            -(one_step() * one_error(size)) <= off <= one_step() * one_error(size)
        }),
{
    let one = one_step();
    let x = a.magnitude() as int;
    let y = b.magnitude() as int;
    lemma_pow2_pos(UNIT_SHIFT as nat);
    lemma_one_error((x * y) as nat, one, size);
    let r = product(a, b);
    let m = r.magnitude() as int;
    assert((-m) * one == -(m * one)) by (nonlinear_arith);
    assert((-x) * y == -(x * y)) by (nonlinear_arith);
    assert(x * (-y) == -(x * y)) by (nonlinear_arith);
    assert((-x) * (-y) == x * y) by (nonlinear_arith);
}

/// A quotient by a whole number, as it is computed.
proof fn lemma_near_quotient(a: Double, b: Double, k: nat, size: nat)
    requires
        k > 0,
        is_within(a, 16 * size),
        b.finite(),
        !b.negative(),
        b.magnitude() == k * one_step(),
    ensures
        ({
            let r = quotient(a, b);
            &&& r.finite()
            &&& r.negative() == a.negative()
            &&& distance(k * r.magnitude() - a.magnitude()) <= k * one_error(size)
        }),
{
    let one = one_step();
    let m = a.magnitude();
    let n = m * one;
    let d = k * one;
    let limit = 16 * size;
    lemma_pow2_pos(UNIT_SHIFT as nat);
    assert(d > 0 && n <= d * limit) by (nonlinear_arith)
        requires
            k > 0,
            one > 0,
            m <= limit,
            n == m * one,
            d == k * one,
    ;
    assert(n <= d * m) by (nonlinear_arith)
        requires
            k > 0,
            n == m * one,
            d == k * one,
    ;
    lemma_rounded_at_most(n, d, a.pattern());
    lemma_one_error(n, d, size);
    let r = quotient(a, b);
    let x = r.magnitude();
    let off = k * x - m;
    let e = one_error(size);
    assert(x * d - n == off * one) by (nonlinear_arith)
        requires
            n == m * one,
            d == k * one,
            off == k * x - m,
    ;
    assert(d * e == (k * e) * one) by (nonlinear_arith)
        requires
            d == k * one,
    ;
    let bound = k * e;
    assert(-bound <= off <= bound) by (nonlinear_arith)
        requires
            -(bound * one) <= off * one <= bound * one,
            one > 0,
    ;
}

/// Half a number, as it is computed.
proof fn lemma_near_half(a: Double, size: nat)
    requires
        is_within(a, 16 * size),
    ensures
        ({
            let r = quotient(a, number(TWO));
            let e = one_error(size);
            r.finite() && -(2 * e) <= 2 * r.value() - a.value() <= 2 * e
        }),
{
    lemma_two();
    lemma_near_quotient(a, number(TWO), 2, size);
}

/// An eighth of a number, as it is computed.
proof fn lemma_near_eighth(a: Double, size: nat)
    requires
        is_within(a, 16 * size),
    ensures
        ({
            let r = quotient(a, number(EIGHT));
            let e = one_error(size);
            &&& r.finite()
            &&& r.negative() == a.negative()
            &&& -(8 * e) <= 8 * r.value() - a.value() <= 8 * e
        }),
{
    lemma_eight();
    lemma_near_quotient(a, number(EIGHT), 8, size);
}

/// The view around its middle, before it is moved into the content, as it is
/// computed.
proof fn lemma_near_around(view: TimeControlVerticalBounds, range: Double, size: nat)
    requires
        is_within(view.min_y, size),
        is_within(view.max_y, size),
        is_within(range, 3 * size),
        one_error(size) * 16 <= size,
        is_bounded(TimeControlVerticalBounds::around(view.middle(), range)),
    ensures
        ({
            let around = TimeControlVerticalBounds::around(view.middle(), range);
            let middle = view.min_y.value() + view.max_y.value();
            let e = one_error(size);
            &&& -(8 * e) <= 2 * around.min_y.value() - (middle - range.value()) <= 8 * e
            &&& -(8 * e) <= 2 * around.max_y.value() - (middle + range.value()) <= 8 * e
        }),
{
    let a = view.min_y;
    let b = view.max_y;
    lemma_near_sum(a, b, size);
    lemma_near_half(sum(a, b), size);
    let m = view.middle();
    lemma_near_half(range, size);
    let h = quotient(range, number(TWO));
    lemma_near_difference(m, h, size);
    lemma_near_sum(m, h, size);
}

/// A view that is finite after it was moved was so before.
proof fn lemma_moved_is_finite(view: TimeControlVerticalBounds, delta: Double)
    requires
        is_bounded(view.moved(delta)),
    ensures
        is_bounded(view),
        delta.finite(),
{
}

/// A view that is moved, as it is computed.
proof fn lemma_near_moved(view: TimeControlVerticalBounds, from: Double, to: Double, size: nat)
    requires
        is_within(view.min_y, 6 * size),
        is_within(view.max_y, 6 * size),
        is_within(from, 6 * size),
        is_within(to, size),
        one_error(size) * 16 <= size,
        is_bounded(view.moved(difference(to, from))),
    ensures
        ({
            let r = view.moved(difference(to, from));
            let e = one_error(size);
            let way = to.value() - from.value();
            &&& is_near(r.min_y, view.min_y.value() + way, 2 * e as int)
            &&& is_near(r.max_y, view.max_y.value() + way, 2 * e as int)
        }),
{
    lemma_near_difference(to, from, size);
    let delta = difference(to, from);
    lemma_near_sum(view.min_y, delta, size);
    lemma_near_sum(view.max_y, delta, size);
}

/// The height of a view as it is computed, or as it is where that is infinite.
pub open spec fn height(view: TimeControlVerticalBounds) -> int {
    if view.extent().finite() {
        view.extent().value()
    } else {
        view.max_y.value() - view.min_y.value()
    }
}

/// A view whose height is computed as infinite is higher than any finite number, or
/// its ends are as far apart the other way round.
proof fn lemma_endless_extent(view: TimeControlVerticalBounds, other: Double)
    requires
        is_bounded(view),
        !view.extent().finite(),
        other.finite(),
    ensures
        view.extent().infinite(),
        view.extent().negative() == (height(view) < 0),
        other.magnitude() < distance(height(view)),
        other.magnitude() < view.extent().magnitude(),
{
    let v = view.max_y.value() - view.min_y.value();
    let n = distance(v);
    view.min_y.lemma_opposite();
    lemma_magnitude_zero(0);
    assert(v != 0);
    lemma_rounded_magnitude(n, 1);
    assert(view.extent().pattern() == nearest_pattern(n, 1));
    if n <= other.magnitude() {
        lemma_rounded_at_most(n, 1, other.pattern());
    }
    other.lemma_order(view.extent());
}

/// The height to which a view is held, as it is computed.
proof fn lemma_held_extent(view: TimeControlVerticalBounds, content: TimeControlVerticalBounds)
    requires
        is_bounded(view),
        number(MILLIONTH).at_most(content.extent()),
        content.extent().finite(),
        quotient(content.extent(), number(EIGHT)).finite(),
    ensures
        ({
            let c = content.extent();
            let l = quotient(c, number(EIGHT));
            let r = view.held_extent(content);
            &&& TimeControlVerticalBounds::content_extent(content) == c
            &&& l.value() <= c.value()
            &&& r.finite()
            &&& r.value() == held(height(view), l.value(), c.value())
        }),
{
    let c = content.extent();
    let l = quotient(c, number(EIGHT));
    lemma_eighth(c);
    lemma_millionth();
    if !view.extent().finite() {
        lemma_endless_extent(view, c);
        lemma_endless_extent(view, l);
    }
}

/// The heights of the content and of the view, as they are computed.
proof fn lemma_near_heights(
    view: TimeControlVerticalBounds,
    content: TimeControlVerticalBounds,
    size: nat,
)
    requires
        is_within(view.min_y, size),
        is_within(view.max_y, size),
        is_within(content.min_y, size),
        is_within(content.max_y, size),
        content.extent().finite(),
        number(MILLIONTH).at_most(content.extent()),
    ensures
        ({
            let e = one_error(size) as int;
            let c = content.extent();
            let l = quotient(c, number(EIGHT));
            let r = view.held_extent(content);
            &&& one_error(size) * 16 <= size
            &&& content.min_y.value() < content.max_y.value()
            &&& TimeControlVerticalBounds::content_extent(content) == c
            &&& is_near(c, content.max_y.value() - content.min_y.value(), e)
            &&& -e <= height(view) - (view.max_y.value() - view.min_y.value()) <= e
            &&& -(8 * e) <= 8 * l.value() - c.value() <= 8 * e
            &&& 0 <= l.value() <= c.value()
            &&& is_within(r, 3 * size)
            &&& r.value() == held(height(view), l.value(), c.value())
            &&& c.at_most(r) <==> c.value() <= r.value()
        }),
{
    lemma_size(content, size);
    lemma_near_difference(content.max_y, content.min_y, size);
    let whole = content.extent();
    lemma_near_eighth(whole, size);
    lemma_held_extent(view, content);
    lemma_millionth();
    if view.extent().finite() {
        lemma_near_difference(view.max_y, view.min_y, size);
    }
}

/// The steps in which a view of the given height is moved into the content, as they
/// are computed.
proof fn lemma_near_places(
    view: TimeControlVerticalBounds,
    content: TimeControlVerticalBounds,
    range: Double,
    size: nat,
)
    requires
        is_within(view.min_y, size),
        is_within(view.max_y, size),
        is_within(content.min_y, size),
        is_within(content.max_y, size),
        is_within(range, 3 * size),
        one_error(size) * 16 <= size,
        is_bounded(
            TimeControlVerticalBounds::around(view.middle(), range).lifted(content).lowered(content),
        ),
    ensures
        ({
            let e = one_error(size) as int;
            let p = content.min_y.value();
            let q = content.max_y.value();
            let middle = view.min_y.value() + view.max_y.value();
            let around = TimeControlVerticalBounds::around(view.middle(), range);
            let lifted = around.lifted(content);
            let lowered = lifted.lowered(content);
            let (u, v) = (around.min_y.value(), around.max_y.value());
            let (x, y) = (lifted.min_y.value(), lifted.max_y.value());
            let (s, t) = (lowered.min_y.value(), lowered.max_y.value());
            &&& -(8 * e) <= 2 * u - (middle - range.value()) <= 8 * e
            &&& -(8 * e) <= 2 * v - (middle + range.value()) <= 8 * e
            &&& u < p ==> -(2 * e) <= x - p <= 2 * e && -(2 * e) <= y - (v + p - u) <= 2 * e
            &&& u >= p ==> x == u && y == v
            &&& y > q ==> -(2 * e) <= t - q <= 2 * e && -(2 * e) <= s - (x + q - y) <= 2 * e
            &&& y <= q ==> s == x && t == y
        }),
{
    let around = TimeControlVerticalBounds::around(view.middle(), range);
    let lifted = around.lifted(content);
    let lowered = lifted.lowered(content);
    if content.max_y.less(lifted.max_y) {
        lemma_moved_is_finite(lifted, difference(content.max_y, lifted.max_y));
    }
    assert(is_bounded(lifted));
    if around.min_y.less(content.min_y) {
        lemma_moved_is_finite(around, difference(content.min_y, around.min_y));
    }
    assert(is_bounded(around));
    lemma_near_around(view, range, size);
    if around.min_y.less(content.min_y) {
        lemma_near_moved(around, around.min_y, content.min_y, size);
    }
    if content.max_y.less(lifted.max_y) {
        lemma_near_moved(lifted, lifted.max_y, content.max_y, size);
    }
}

/// The bounds that are computed are those that are meant, up to rounding: where no
/// height is larger than `size`, they differ by at most sixteen roundings.
///
/// It holds of a content at least a millionth high wherever no sum on the way is
/// infinite: a result of finite bounds is one in which none was.
pub proof fn law_clamped_view_is_the_one_that_is_meant(
    view: TimeControlVerticalBounds,
    content: TimeControlVerticalBounds,
    size: nat,
)
    requires
        is_within(view.min_y, size),
        is_within(view.max_y, size),
        is_within(content.min_y, size),
        is_within(content.max_y, size),
        number(MILLIONTH).at_most(content.extent()),
        content.extent().finite(),
        is_bounded(view.inside(content)),
    ensures
        ({
            let r = view.inside(content);
            let a = view.min_y.value();
            let b = view.max_y.value();
            let p = content.min_y.value();
            let q = content.max_y.value();
            let e = slack(size);
            &&& p < q
            &&& -(16 * e) <= 16 * r.min_y.value() - meant_min(a, b, p, q) <= 16 * e
            &&& -(16 * e) <= 16 * r.max_y.value() - meant_max(a, b, p, q) <= 16 * e
        }),
{
    let a = view.min_y.value();
    let b = view.max_y.value();
    let p = content.min_y.value();
    let q = content.max_y.value();
    let e = one_error(size) as int;
    lemma_near_heights(view, content, size);
    let c = content.extent().value();
    let x = height(view);
    let l = quotient(content.extent(), number(EIGHT)).value();
    let range = view.held_extent(content);
    if content.extent().at_most(range) {
        lemma_meant_content(a, b, p, q, c, x, l, e);
    } else {
        lemma_near_places(view, content, range, size);
        let around = TimeControlVerticalBounds::around(view.middle(), range);
        let lifted = around.lifted(content);
        let lowered = lifted.lowered(content);
        lemma_meant_steps(
            a,
            b,
            p,
            q,
            c,
            x,
            l,
            (around.min_y.value(), around.max_y.value()),
            (lifted.min_y.value(), lifted.max_y.value()),
            (lowered.min_y.value(), lowered.max_y.value()),
            e,
        );
    }
}

/// A view that is computed as high as the content is meant to be nearly so.
proof fn lemma_meant_content(
    a: int,
    b: int,
    p: int,
    q: int,
    c: int,
    x: int,
    l: int,
    e: int,
)
    requires
        p < q,
        e >= 0,
        -e <= c - (q - p) <= e,
        -e <= x - (b - a) <= e,
        -(8 * e) <= 8 * l - c <= 8 * e,
        l <= c,
        c <= held(x, l, c),
    ensures
        -(256 * e) <= 16 * p - meant_min(a, b, p, q) <= 256 * e,
        -(256 * e) <= 16 * q - meant_max(a, b, p, q) <= 256 * e,
{
}

/// The steps in which a view is moved into the content, each with its error.
proof fn lemma_meant_steps(
    a: int,
    b: int,
    p: int,
    q: int,
    c: int,
    x: int,
    l: int,
    around: (int, int),
    lifted: (int, int),
    lowered: (int, int),
    e: int,
)
    requires
        p < q,
        e >= 0,
        -e <= c - (q - p) <= e,
        -e <= x - (b - a) <= e,
        -(8 * e) <= 8 * l - c <= 8 * e,
        l <= c,
        held(x, l, c) < c,
        -(8 * e) <= 2 * around.0 - (a + b - held(x, l, c)) <= 8 * e,
        -(8 * e) <= 2 * around.1 - (a + b + held(x, l, c)) <= 8 * e,
        around.0 < p ==> -(2 * e) <= lifted.0 - p <= 2 * e && -(2 * e) <= lifted.1 - (around.1 + p
            - around.0) <= 2 * e,
        around.0 >= p ==> lifted == around,
        lifted.1 > q ==> -(2 * e) <= lowered.1 - q <= 2 * e && -(2 * e) <= lowered.0 - (lifted.0 + q
            - lifted.1) <= 2 * e,
        lifted.1 <= q ==> lowered == lifted,
    ensures
        -(256 * e) <= 16 * lowered.0 - meant_min(a, b, p, q) <= 256 * e,
        -(256 * e) <= 16 * lowered.1 - meant_max(a, b, p, q) <= 256 * e,
{
}

/// A content that is not flat has a size far above one rounding.
proof fn lemma_size(content: TimeControlVerticalBounds, size: nat)
    requires
        is_within(content.min_y, size),
        is_within(content.max_y, size),
        content.extent().finite(),
        number(MILLIONTH).at_most(content.extent()),
    ensures
        one_error(size) * 16 <= size,
        content.min_y.value() < content.max_y.value(),
{
    lemma_near_difference(content.max_y, content.min_y, size);
    lemma_millionth();
    content.min_y.lemma_opposite();
    if content.max_y.value() <= content.min_y.value() {
        assert(content.extent().value() <= 0) by {
            let v = content.max_y.value() - content.min_y.value();
            lemma_magnitude_zero(0);
            lemma_rounded_magnitude(distance(v), 1);
        }
    }
    lemma_pow2_pos(64);
    lemma2_to64_rest();
}

/// The bounds lie in the content, and have the height that is meant, up to
/// rounding. A view that is at least as high as the content becomes the content
/// exactly. A view inside the content that is high enough is kept, up to rounding.
///
/// It holds of a content at least a millionth high wherever no sum on the way is
/// infinite: a result of finite bounds is one in which none was.
pub proof fn law_clamped_view_lies_in_the_content(
    view: TimeControlVerticalBounds,
    content: TimeControlVerticalBounds,
    size: nat,
)
    requires
        is_within(view.min_y, size),
        is_within(view.max_y, size),
        is_within(content.min_y, size),
        is_within(content.max_y, size),
        number(MILLIONTH).at_most(content.extent()),
        content.extent().finite(),
        is_bounded(view.inside(content)),
    ensures
        ({
            let r = view.inside(content);
            let a = view.min_y.value();
            let b = view.max_y.value();
            let p = content.min_y.value();
            let q = content.max_y.value();
            let e = slack(size);
            let height = held(16 * (b - a), 2 * (q - p), 16 * (q - p));
            &&& p - e <= r.min_y.value()
            &&& r.max_y.value() <= q + e
            &&& -(32 * e) <= 16 * (r.max_y.value() - r.min_y.value()) - height <= 32 * e
            &&& content.extent().at_most(view.extent()) ==> r == content
            &&& p <= a && b <= q && 8 * (b - a) >= q - p ==> is_near(r.min_y, a, e as int)
                && is_near(r.max_y, b, e as int)
        }),
{
    let a = view.min_y.value();
    let b = view.max_y.value();
    let p = content.min_y.value();
    let q = content.max_y.value();
    law_clamped_view_is_the_one_that_is_meant(view, content, size);
    law_meant_view(a, b, p, q);
    lemma_eighth(content.extent());
}

/// A small change of the given view changes the one that is meant little.
proof fn lemma_meant_change(a: int, b: int, c: int, d: int, p: int, q: int, change: int)
    requires
        p < q,
        -change <= a - c <= change,
        -change <= b - d <= change,
    ensures
        -(48 * change) <= meant_min(a, b, p, q) - meant_min(c, d, p, q) <= 48 * change,
        -(48 * change) <= meant_max(a, b, p, q) - meant_max(c, d, p, q) <= 48 * change,
{
}

/// The view that is meant grows with all its numbers.
proof fn lemma_meant_scaled(c: int, d: int, p: int, q: int)
    ensures
        meant_min(16 * c, 16 * d, 16 * p, 16 * q) == 16 * meant_min(c, d, p, q),
        meant_max(16 * c, 16 * d, 16 * p, 16 * q) == 16 * meant_max(c, d, p, q),
{
}

/// A view close to one that is meant is itself meant to stay about where it is.
proof fn lemma_meant_again(a: int, b: int, c: int, d: int, p: int, q: int, e: int)
    requires
        p < q,
        -(16 * e) <= 16 * c - meant_min(a, b, p, q) <= 16 * e,
        -(16 * e) <= 16 * d - meant_max(a, b, p, q) <= 16 * e,
    ensures
        -(64 * e) <= meant_min(c, d, p, q) - 16 * c <= 64 * e,
        -(64 * e) <= meant_max(c, d, p, q) - 16 * d <= 64 * e,
{
    let low = meant_min(a, b, p, q);
    let high = meant_max(a, b, p, q);
    law_meant_view(a, b, p, q);
    lemma_meant_change(16 * c, 16 * d, low, high, 16 * p, 16 * q, 16 * e);
    lemma_meant_scaled(c, d, p, q);
}

/// The bounds are no more than twice as large as the given ones and the content.
proof fn lemma_clamped_size(
    view: TimeControlVerticalBounds,
    content: TimeControlVerticalBounds,
    size: nat,
)
    requires
        is_within(view.min_y, size),
        is_within(view.max_y, size),
        is_within(content.min_y, size),
        is_within(content.max_y, size),
        number(MILLIONTH).at_most(content.extent()),
        content.extent().finite(),
        is_bounded(view.inside(content)),
    ensures
        is_within(view.inside(content).min_y, 2 * size),
        is_within(view.inside(content).max_y, 2 * size),
{
    let a = view.min_y.value();
    let b = view.max_y.value();
    let p = content.min_y.value();
    let q = content.max_y.value();
    lemma_size(content, size);
    law_clamped_view_is_the_one_that_is_meant(view, content, size);
    law_meant_view(a, b, p, q);
}

/// Holding a view inside the content again changes nothing, up to rounding.
///
/// It holds of a content at least a millionth high wherever no sum on the way is
/// infinite, the first time or the second.
pub proof fn law_clamped_view_is_stable(
    view: TimeControlVerticalBounds,
    content: TimeControlVerticalBounds,
    size: nat,
)
    requires
        is_within(view.min_y, size),
        is_within(view.max_y, size),
        is_within(content.min_y, size),
        is_within(content.max_y, size),
        number(MILLIONTH).at_most(content.extent()),
        content.extent().finite(),
        is_bounded(view.inside(content)),
        is_bounded(view.inside(content).inside(content)),
    ensures
        ({
            let once = view.inside(content);
            let twice = once.inside(content);
            &&& is_near(twice.min_y, once.min_y.value(), 5 * slack(2 * size) as int)
            &&& is_near(twice.max_y, once.max_y.value(), 5 * slack(2 * size) as int)
        }),
{
    let a = view.min_y.value();
    let b = view.max_y.value();
    let p = content.min_y.value();
    let q = content.max_y.value();
    let once = view.inside(content);
    let c = once.min_y.value();
    let d = once.max_y.value();
    lemma_clamped_size(view, content, size);
    law_clamped_view_is_the_one_that_is_meant(view, content, size);
    law_clamped_view_is_the_one_that_is_meant(once, content, 2 * size);
    lemma_meant_again(a, b, c, d, p, q, slack(size) as int);
}

// Where no sum overflows.

/// A sum that is not too large for a double is finite.
proof fn lemma_finite_sum(a: Double, b: Double)
    requires
        a.finite(),
        b.finite(),
        -(largest() as int) <= a.value() + b.value() <= largest(),
    ensures
        sum(a, b).finite(),
{
    let n = distance(a.value() + b.value());
    lemma_rounded_at_most(n, 1, (INFINITE - 1) as nat);
}

/// A difference that is not too large for a double is finite.
proof fn lemma_finite_difference(a: Double, b: Double)
    requires
        a.finite(),
        b.finite(),
        -(largest() as int) <= a.value() - b.value() <= largest(),
    ensures
        difference(a, b).finite(),
{
    b.lemma_opposite();
    lemma_finite_sum(a, b.opposite());
}

/// The view around its middle is finite.
proof fn lemma_around_is_finite(view: TimeControlVerticalBounds, range: Double, size: nat)
    requires
        is_within(view.min_y, size),
        is_within(view.max_y, size),
        is_within(range, 2 * size + one_error(size)),
        one_error(size) * 16 <= size,
        2 * size + slack(size) <= largest(),
    ensures
        is_bounded(TimeControlVerticalBounds::around(view.middle(), range)),
{
    let a = view.min_y;
    let b = view.max_y;
    lemma_finite_sum(a, b);
    lemma_near_sum(a, b, size);
    lemma_near_half(sum(a, b), size);
    lemma_near_half(range, size);
    let m = view.middle();
    let h = quotient(range, number(TWO));
    lemma_finite_difference(m, h);
    lemma_finite_sum(m, h);
}

/// A view is finite after it was moved.
proof fn lemma_move_is_finite(view: TimeControlVerticalBounds, from: Double, to: Double, size: nat)
    requires
        is_bounded(view),
        from == view.min_y || from == view.max_y,
        is_within(to, size),
        one_error(size) * 16 <= size,
        2 * size + slack(size) <= largest(),
        ({
            let way = to.value() - from.value();
            let bound = 2 * size + 8 * one_error(size);
            &&& -bound <= way <= bound
            &&& -bound <= view.min_y.value() + way <= bound
            &&& -bound <= view.max_y.value() + way <= bound
        }),
    ensures
        is_bounded(view.moved(difference(to, from))),
{
    lemma_finite_difference(to, from);
    lemma_near_difference(to, from, size);
    let delta = difference(to, from);
    lemma_finite_sum(view.min_y, delta);
    lemma_finite_sum(view.max_y, delta);
}

/// The steps in which a view is moved into the content are finite.
proof fn lemma_places_are_finite(
    view: TimeControlVerticalBounds,
    content: TimeControlVerticalBounds,
    range: Double,
    size: nat,
)
    requires
        is_within(view.min_y, size),
        is_within(view.max_y, size),
        is_within(content.min_y, size),
        is_within(content.max_y, size),
        range.finite(),
        0 <= range.value() <= content.max_y.value() - content.min_y.value() + one_error(size),
        one_error(size) * 16 <= size,
        2 * size + slack(size) <= largest(),
    ensures
        is_bounded(
            TimeControlVerticalBounds::around(view.middle(), range).lifted(content).lowered(content),
        ),
{
    let around = TimeControlVerticalBounds::around(view.middle(), range);
    lemma_around_is_finite(view, range, size);
    lemma_near_around(view, range, size);
    if around.min_y.less(content.min_y) {
        lemma_move_is_finite(around, around.min_y, content.min_y, size);
        lemma_near_moved(around, around.min_y, content.min_y, size);
    }
    let lifted = around.lifted(content);
    if content.max_y.less(lifted.max_y) {
        lemma_move_is_finite(lifted, lifted.max_y, content.max_y, size);
    }
}

/// No sum is infinite, and so the result has finite bounds, wherever twice the size
/// of the given bounds is finite with room for sixteen roundings.
pub proof fn law_clamped_view_is_finite(
    view: TimeControlVerticalBounds,
    content: TimeControlVerticalBounds,
    size: nat,
)
    requires
        is_within(view.min_y, size),
        is_within(view.max_y, size),
        is_within(content.min_y, size),
        is_within(content.max_y, size),
        2 * size + slack(size) <= largest(),
        number(MILLIONTH).at_most(content.extent()),
    ensures
        content.extent().finite(),
        is_bounded(view.inside(content)),
{
    lemma_finite_difference(content.max_y, content.min_y);
    lemma_near_heights(view, content, size);
    let range = view.held_extent(content);
    lemma_millionth();
    if !content.extent().at_most(range) {
        lemma_places_are_finite(view, content, range, size);
    }
}

} // verus!
