//! What the points of spans are, up to rounding.
use crate::arithmetic::{difference, product, quotient, sum};
use crate::bounce_precision::{
    exact, is_rounded, lemma_difference, lemma_exact, lemma_product, lemma_sum, size, ulp,
};
use crate::curve::Position;
use crate::double::{one_step, Double, UNIT_SHIFT};
use crate::numbers::{number, THREE};
use crate::spans::{hermite, offset, scaled, span_points, CubicBezierSpan};
use crate::tolerance::{
    is_about, is_held, lemma_about_difference, lemma_about_product, lemma_about_quotient,
    lemma_about_sum, lemma_order_product, product_error,
};
use vstd::arithmetic::power2::*;
use vstd::prelude::*;

verus! {

/// Whether both coordinates of a position are finite and their sizes at most `bound`.
pub open spec fn is_position_held(p: Position, bound: real) -> bool {
    is_held(p.x, bound) && is_held(p.y, bound)
}

/// Whether the four Bezier points of a span are finite and their sizes at most `bound`.
pub open spec fn is_span_held(span: CubicBezierSpan, bound: real) -> bool {
    &&& is_position_held(span.start, bound)
    &&& is_position_held(span.start_handle, bound)
    &&& is_position_held(span.end_handle, bound)
    &&& is_position_held(span.end, bound)
}

/// Whether both coordinates of a position are finite.
pub open spec fn is_position_finite(p: Position) -> bool {
    p.x.finite() && p.y.finite()
}

/// Whether the four Bezier points of a span are finite.
pub open spec fn is_span_finite(span: CubicBezierSpan) -> bool {
    &&& is_position_finite(span.start)
    &&& is_position_finite(span.start_handle)
    &&& is_position_finite(span.end_handle)
    &&& is_position_finite(span.end)
}

// Spans in a rectangle.

/// How far a point may be from where it is meant to be, if the corners of the rectangle
/// are no larger than `reach` and the points no larger than `far`.
pub open spec fn image_error(reach: real, far: real) -> real {
    (8real * (reach * far) + far) * ulp()
}

/// Whether a position lies in the rectangle from `start` to `end` where another one
/// lies in the unit square.
pub open spec fn is_image(
    q: Position,
    p: Position,
    start: Position,
    end: Position,
    error: real,
) -> bool {
    &&& is_about(q.x, exact(start.x) + (exact(end.x) - exact(start.x)) * exact(p.x), error)
    &&& is_about(q.y, exact(start.y) + (exact(end.y) - exact(start.y)) * exact(p.y), error)
}

proof fn lemma_share_of_way(a: Double, b: Double, t: Double, reach: real, far: real)
    requires
        is_held(a, reach),
        is_held(b, reach),
        is_held(t, far),
        far >= 1real,
        sum(a, product(difference(b, a), t)).finite(),
    ensures
        is_about(
            sum(a, product(difference(b, a), t)),
            exact(a) + (exact(b) - exact(a)) * exact(t),
            image_error(reach, far),
        ),
{
    let e = ulp();
    let (x, y, z) = (exact(a), exact(b), exact(t));
    let way = difference(b, a);
    let part = product(way, t);
    let r = sum(a, part);
    assert(part.finite() && way.finite());
    lemma_difference(b, a);
    lemma_product(way, t);
    lemma_sum(a, part);
    let (w, q) = (exact(way), exact(part));
    let m = reach * far;
    let d = y - x;
    assert(reach <= m && 0real <= m) by (nonlinear_arith)
        requires
            reach >= 0real,
            far >= 1real,
            m == reach * far,
    ;
    let first = (2real * reach + 1real / 2048real) * e;
    assert(e * size(d) <= e * (2real * reach)) by (nonlinear_arith)
        requires
            size(d) <= 2real * reach,
            e >= 0real,
    ;
    assert(first == e * (2real * reach) + e / 2048real) by (nonlinear_arith)
        requires
            first == (2real * reach + 1real / 2048real) * e,
    ;
    assert(size(w - d) <= first);
    let second = (2real * m + far / 2048real) * e;
    assert(size(w * z - d * z) <= second && size(d * z) <= 2real * m) by (nonlinear_arith)
        requires
            size(w - d) <= first,
            size(d) <= 2real * reach,
            size(z) <= far,
            first == (2real * reach + 1real / 2048real) * e,
            second == (2real * m + far / 2048real) * e,
            m == reach * far,
            reach >= 0real,
            far >= 1real,
            e >= 0real,
    ;
    let u = d * z;
    let v = w * z;
    // One rounding of each of the product and the sum.
    assert(e * size(v) <= e * (2real * m) + e * second) by (nonlinear_arith)
        requires
            size(v - u) <= second,
            size(u) <= 2real * m,
            e >= 0real,
    ;
    let third = second + e * (2real * m) + e * second + e / 2048real;
    assert(size(q - u) <= third);
    assert(e * size(x + q) <= e * (reach + 2real * m + third)) by (nonlinear_arith)
        requires
            size(x) <= reach,
            size(u) <= 2real * m,
            size(q - u) <= third,
            e >= 0real,
    ;
    let last = third + e * (reach + 2real * m + third) + e / 2048real;
    assert(size(exact(r) - (x + u)) <= last);
    assert(last <= (8real * m + far) * e) by (nonlinear_arith)
        requires
            last == third + e * (reach + 2real * m + third) + e / 2048real,
            third == second + e * (2real * m) + e * second + e / 2048real,
            second == (2real * m + far / 2048real) * e,
            reach <= m,
            far >= 1real,
            m >= 0real,
            0real <= e <= 1real / 4096real,
    ;
}

/// Each of the four Bezier points of a span that is moved to the rectangle between two
/// corners lies there where the same point of the span lies in the unit square, up to
/// rounding, wherever the two corners are.
pub proof fn law_scaled_span_is_the_image(
    span: CubicBezierSpan,
    start: Position,
    end: Position,
    reach: real,
    far: real,
)
    requires
        is_position_held(start, reach),
        is_position_held(end, reach),
        is_span_held(span, far),
        far >= 1real,
        is_span_finite(scaled(span, start, end)),
    ensures
        ({
            let r = scaled(span, start, end);
            let error = image_error(reach, far);
            &&& is_image(r.start, span.start, start, end, error)
            &&& is_image(r.start_handle, span.start_handle, start, end, error)
            &&& is_image(r.end_handle, span.end_handle, start, end, error)
            &&& is_image(r.end, span.end, start, end, error)
        }),
{
    lemma_share_of_way(start.x, end.x, span.start.x, reach, far);
    lemma_share_of_way(start.y, end.y, span.start.y, reach, far);
    lemma_share_of_way(start.x, end.x, span.start_handle.x, reach, far);
    lemma_share_of_way(start.y, end.y, span.start_handle.y, reach, far);
    lemma_share_of_way(start.x, end.x, span.end_handle.x, reach, far);
    lemma_share_of_way(start.y, end.y, span.end_handle.y, reach, far);
    lemma_share_of_way(start.x, end.x, span.end.x, reach, far);
    lemma_share_of_way(start.y, end.y, span.end.y, reach, far);
}

/// The four Bezier points of a span are moved alike: where a point comes to lie does not
/// depend on which of the four it is, nor on where the others are.
pub proof fn law_points_are_scaled_alike(
    span: CubicBezierSpan,
    other: CubicBezierSpan,
    start: Position,
    end: Position,
)
    ensures
        ({
            let (r, s) = (scaled(span, start, end), scaled(other, start, end));
            &&& span.start == other.start ==> r.start == s.start
            &&& span.start == other.start_handle ==> r.start == s.start_handle
            &&& span.start == other.end_handle ==> r.start == s.end_handle
            &&& span.start == other.end ==> r.start == s.end
            &&& span.start_handle == other.start_handle ==> r.start_handle == s.start_handle
            &&& span.end_handle == other.end_handle ==> r.end_handle == s.end_handle
            &&& span.end == other.end ==> r.end == s.end
        }),
{
}

// Spans with given slopes.

proof fn lemma_three()
    ensures
        number(THREE).finite() && exact(number(THREE)) == 3real,
{
    let v = number(THREE);
    let u = one_step() as real;
    lemma_pow2_pos(UNIT_SHIFT as nat);
    lemma2_to64_rest();
    assert(v.shift() == 1023 && v.significand() == 3 * 0x8_0000_0000_0000);
    lemma_pow2_adds(51, 1023);
    let e = pow2(1023);
    assert((3 * 0x8_0000_0000_0000) * e == 3 * (0x8_0000_0000_0000 * e)) by (nonlinear_arith);
    assert(v.magnitude() == 3 * one_step());
    lemma_exact(v);
    assert((3real * u) / u == 3real) by (nonlinear_arith)
        requires
            u > 0real,
    ;
}

/// How far a handle may be from where it is meant to be, if the coordinates of the ends
/// are no larger than `reach` and the slopes no larger than `steep`.
pub open spec fn handle_error(reach: real, steep: real) -> real {
    12real * (reach * steep) * ulp()
}

/// A third of the width of a span.
proof fn lemma_third_of_width(from: Double, to: Double, reach: real)
    requires
        is_held(from, reach),
        is_held(to, reach),
        reach >= 1real,
        quotient(difference(to, from), number(THREE)).finite(),
    ensures
        is_about(
            quotient(difference(to, from), number(THREE)),
            (exact(to) - exact(from)) / 3real,
            5real * reach * ulp(),
        ),
        is_about(difference(to, from), exact(to) - exact(from), 3real * reach * ulp()),
        size(exact(to) - exact(from)) <= 2real * reach,
{
    let three = number(THREE);
    let e = ulp();
    let (x, y) = (exact(from), exact(to));
    lemma_three();
    let width = difference(to, from);
    assert(width.finite());
    lemma_about_difference(to, from, y, x, 0real, 0real, 2real * reach);
    assert((2real * reach + 1real) * e <= 3real * reach * e && 6real * reach * e <= reach && (2real * (
    3real * reach * e + reach * 0real)) / 3real + (2real * reach + 1real) * e <= 5real * reach * e
        && 2real * (3real * reach * e + reach * 0real) <= reach * 3real) by (nonlinear_arith)
        requires
            reach >= 1real,
            e == 1real / 9007199254740992real,
    ;
    lemma_about_quotient(width, three, y - x, 3real, 3real, 3real * reach * e, 0real, reach);
}

/// A third of the height that a slope gives over the width of a span.
proof fn lemma_third_of_rise(from: Double, to: Double, slope: Double, reach: real, steep: real)
    requires
        is_held(from, reach),
        is_held(to, reach),
        is_held(slope, steep),
        reach >= 1real,
        steep >= 1real,
        quotient(product(slope, difference(to, from)), number(THREE)).finite(),
    ensures
        is_about(
            quotient(product(slope, difference(to, from)), number(THREE)),
            (exact(slope) * (exact(to) - exact(from))) / 3real,
            8real * (reach * steep) * ulp(),
        ),
        size((exact(slope) * (exact(to) - exact(from))) / 3real) <= reach * steep,
{
    let three = number(THREE);
    let e = ulp();
    let m = reach * steep;
    let (x, y, d) = (exact(from), exact(to), exact(slope));
    lemma_three();
    let width = difference(to, from);
    let rise = product(slope, width);
    assert(rise.finite() && width.finite());
    lemma_about_difference(to, from, y, x, 0real, 0real, 2real * reach);
    let w = y - x;
    let off = (2real * reach + 1real) * e;
    let first = product_error(steep, 2real * reach, 0real, off);
    lemma_order_product(1real, reach, 1real, steep);
    lemma_order_product(1real, 1real, steep, steep);
    lemma_order_product(1real, reach, steep, steep);
    assert(first <= 3real * m * e && steep * (2real * reach) == 2real * m) by (nonlinear_arith)
        requires
            first == 0real * (2real * reach) + steep * off + 0real * off,
            off == (2real * reach + 1real) * e,
            m == reach * steep,
            steep <= m,
            e == 1real / 9007199254740992real,
    ;
    let bound = 2real * m + 3real * m * e;
    lemma_about_product(slope, width, d, w, steep, 2real * reach, 0real, off, bound);
    let second = first + (bound + 1real) * e;
    assert(second <= 7real * m * e && 2real * (second + m * 0real) <= m * 3real && (2real * (second + m
        * 0real)) / 3real + (2real * m + 1real) * e <= 8real * m * e) by (nonlinear_arith)
        requires
            second == first + (bound + 1real) * e,
            first <= 3real * m * e,
            bound == 2real * m + 3real * m * e,
            m >= 1real,
            e == 1real / 9007199254740992real,
    ;
    lemma_about_quotient(rise, three, d * w, 3real, 3real, second, 0real, m);
}

proof fn lemma_handle_sum(a: Double, b: Double, y: real, reach: real, steep: real)
    requires
        is_held(a, reach),
        is_about(b, y, 8real * (reach * steep) * ulp()),
        size(y) <= reach * steep,
        reach >= 1real,
        steep >= 1real,
    ensures
        sum(a, b).finite() ==> is_about(sum(a, b), exact(a) + y, handle_error(reach, steep)),
        difference(a, b).finite() ==> is_about(
            difference(a, b),
            exact(a) - y,
            handle_error(reach, steep),
        ),
{
    let e = ulp();
    let m = reach * steep;
    lemma_order_product(1real, reach, 1real, steep);
    lemma_order_product(reach, reach, 1real, steep);
    assert(8real * m * e + reach + m <= 5real / 2real * m && 8real * m * e + (5real / 2real * m + 1real)
        * e <= 12real * m * e) by (nonlinear_arith)
        requires
            reach <= m,
            m >= 1real,
            e == 1real / 9007199254740992real,
    ;
    let bound = 5real / 2real * m;
    if sum(a, b).finite() {
        lemma_about_sum(a, b, exact(a), y, 0real, 8real * m * e, bound);
    }
    if difference(a, b).finite() {
        lemma_about_difference(a, b, exact(a), y, 0real, 8real * m * e, bound);
    }
}

/// A third of the width away from an end.
proof fn lemma_handle_x(at: Double, from: Double, to: Double, reach: real, steep: real)
    requires
        is_held(at, reach),
        is_held(from, reach),
        is_held(to, reach),
        reach >= 1real,
        steep >= 1real,
    ensures
        ({
            let third = quotient(difference(to, from), number(THREE));
            let x = (exact(to) - exact(from)) / 3real;
            &&& sum(at, third).finite() ==> is_about(
                sum(at, third),
                exact(at) + x,
                handle_error(reach, steep),
            )
            &&& difference(at, third).finite() ==> is_about(
                difference(at, third),
                exact(at) - x,
                handle_error(reach, steep),
            )
        }),
{
    let e = ulp();
    let m = reach * steep;
    let third = quotient(difference(to, from), number(THREE));
    third.lemma_opposite();
    if third.finite() {
        lemma_order_product(reach, reach, 1real, steep);
        lemma_third_of_width(from, to, reach);
        assert(5real * reach * e <= 8real * m * e) by (nonlinear_arith)
            requires
                0real <= reach <= m,
                e == 1real / 9007199254740992real,
        ;
        lemma_handle_sum(at, third, (exact(to) - exact(from)) / 3real, reach, steep);
    } else {
        assert(!sum(at, third).finite() && !difference(at, third).finite());
    }
}

/// A third of the rise away from an end.
proof fn lemma_handle_y(
    at: Double,
    from: Double,
    to: Double,
    slope: Double,
    reach: real,
    steep: real,
)
    requires
        is_held(at, reach),
        is_held(from, reach),
        is_held(to, reach),
        is_held(slope, steep),
        reach >= 1real,
        steep >= 1real,
    ensures
        ({
            let third = quotient(product(slope, difference(to, from)), number(THREE));
            let y = (exact(slope) * (exact(to) - exact(from))) / 3real;
            &&& sum(at, third).finite() ==> is_about(
                sum(at, third),
                exact(at) + y,
                handle_error(reach, steep),
            )
            &&& difference(at, third).finite() ==> is_about(
                difference(at, third),
                exact(at) - y,
                handle_error(reach, steep),
            )
        }),
{
    let third = quotient(product(slope, difference(to, from)), number(THREE));
    third.lemma_opposite();
    if third.finite() {
        lemma_third_of_rise(from, to, slope, reach, steep);
        lemma_handle_sum(
            at,
            third,
            (exact(slope) * (exact(to) - exact(from))) / 3real,
            reach,
            steep,
        );
    } else {
        assert(!sum(at, third).finite() && !difference(at, third).finite());
    }
}

/// A span that is drawn with given slopes has its ends where they are given. Its handles
/// divide its width in thirds, and lie on the lines that leave the ends with the slopes.
pub proof fn law_span_follows_its_slopes(
    start: Position,
    start_slope: Double,
    end: Position,
    end_slope: Double,
    reach: real,
    steep: real,
)
    requires
        is_position_held(start, reach),
        is_position_held(end, reach),
        is_held(start_slope, steep),
        is_held(end_slope, steep),
        reach >= 1real,
        steep >= 1real,
        is_span_finite(hermite(start, start_slope, end, end_slope)),
    ensures
        ({
            let span = hermite(start, start_slope, end, end_slope);
            let width = exact(end.x) - exact(start.x);
            let error = handle_error(reach, steep);
            &&& span.start == start
            &&& span.end == end
            &&& is_about(span.start_handle.x, exact(start.x) + width / 3real, error)
            &&& is_about(
                span.start_handle.y,
                exact(start.y) + (exact(start_slope) * width) / 3real,
                error,
            )
            &&& is_about(span.end_handle.x, exact(end.x) - width / 3real, error)
            &&& is_about(
                span.end_handle.y,
                exact(end.y) - (exact(end_slope) * width) / 3real,
                error,
            )
        }),
{
    lemma_handle_x(start.x, start.x, end.x, reach, steep);
    lemma_handle_x(end.x, start.x, end.x, reach, steep);
    lemma_handle_y(start.y, start.x, end.x, start_slope, reach, steep);
    lemma_handle_y(end.y, start.x, end.x, end_slope, reach, steep);
}

// The control points of spans.

/// Whether a position is the difference of two others, up to one rounding of each
/// coordinate. It says nothing of coordinates that are not finite.
pub open spec fn is_way(way: Position, from: Position, to: Position) -> bool {
    &&& from.x.finite() && to.x.finite() && way.x.finite() ==> is_rounded(
        way.x,
        exact(to.x) - exact(from.x),
    )
    &&& from.y.finite() && to.y.finite() && way.y.finite() ==> is_rounded(
        way.y,
        exact(to.y) - exact(from.y),
    )
}

/// Each span is stored as two control points: one at its start, whose handle leads to
/// the span's first handle, and one at its end, whose handle leads there from the span's
/// second handle.
pub proof fn law_control_points_hold_the_spans(spans: Seq<CubicBezierSpan>, k: int)
    requires
        0 <= k < spans.len(),
    ensures
        span_points(spans).len() == 2 * spans.len(),
        ({
            let leaving = span_points(spans)[2 * k];
            let arriving = span_points(spans)[2 * k + 1];
            &&& leaving.coordinate == spans[k].start
            &&& is_way(leaving.handle_offset, spans[k].start, spans[k].start_handle)
            &&& arriving.coordinate == spans[k].end
            &&& is_way(arriving.handle_offset, spans[k].end_handle, spans[k].end)
        }),
{
    let span = spans[k];
    assert((2 * k) % 2 == 0 && (2 * k) / 2 == k);
    assert((2 * k + 1) % 2 == 1 && (2 * k + 1) / 2 == k);
    lemma_way(span.start, span.start_handle);
    lemma_way(span.end_handle, span.end);
}

proof fn lemma_way(from: Position, to: Position)
    ensures
        is_way(offset(to, from), from, to),
{
    let way = offset(to, from);
    if from.x.finite() && to.x.finite() && way.x.finite() {
        lemma_difference(to.x, from.x);
    }
    if from.y.finite() && to.y.finite() && way.y.finite() {
        lemma_difference(to.y, from.y);
    }
}

} // verus!
