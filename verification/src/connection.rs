//! When the segments of a stored curve meet.
use crate::arithmetic::{difference, distance, product, sum};
use crate::bounds_precision::{
    lemma_near_difference, lemma_near_product, lemma_near_sum, one_error,
};
use crate::curve::{Curve, Position};
use crate::curve_io::{read_curve, segment_points, segment_spans, store_curve};
use crate::double::{lemma_magnitude_zero, one_step, Double, UNIT_SHIFT};
use crate::elastic::{ElasticFormula, Wave};
use crate::elastic_sampler::{elastic_curve, law_elastic_curve_fills_the_segment};
use crate::error::CurveError;
use crate::numbers::{lemma_one, number, ONE, ZERO};
use crate::precision::{is_close, is_grid_number, law_close_number_is_moved_to_the_grid};
use crate::quantization::points_hash;
use crate::round_trip::{
    drawn, drawn_end, drawn_start, is_connected, is_joined, kept, law_stored_curve_is_read_back,
};
use crate::rounding::{lemma_pow2_increases, lemma_rounded_exact};
use crate::span_order::lemma_largest;
use crate::spans::{scaled, span_points, ControlPoint, CubicBezierSpan};
use vstd::arithmetic::power2::*;
use vstd::prelude::*;

verus! {

/// Whether both coordinates of a position are close to those of another.
pub open spec fn is_position_close(p: Position, other: Position) -> bool {
    is_close(p.x, other.x) && is_close(p.y, other.y)
}

/// Whether both coordinates of a position lie on the grid.
pub open spec fn is_grid_position(p: Position) -> bool {
    is_grid_number(p.x) && is_grid_number(p.y)
}

/// Whether segment `i` of a curve is drawn from close to its left point to close to
/// its right point.
pub open spec fn is_drawn_closely(
    curve: Curve,
    sampled: Seq<Result<Seq<CubicBezierSpan>, CurveError>>,
    i: int,
) -> bool {
    &&& is_position_close(drawn(curve, sampled, i)[0].coordinate, curve.points[i].position)
    &&& is_position_close(
        drawn(curve, sampled, i).last().coordinate,
        curve.points[i + 1].position,
    )
}

/// A curve whose points lie on the grid, and whose segments are drawn closely to
/// them, is connected, and what is kept of its points is where they are.
pub proof fn law_closely_drawn_curve_is_connected(
    curve: Curve,
    sampled: Seq<Result<Seq<CubicBezierSpan>, CurveError>>,
)
    requires
        curve.well_formed(),
        forall|i: int|
            0 <= i < curve.points.len() ==> is_grid_position((#[trigger] curve.points[i]).position),
        forall|i: int|
            0 <= i < curve.segments.len() ==> #[trigger] is_drawn_closely(curve, sampled, i),
    ensures
        is_connected(curve, sampled, curve.segments.len()),
        forall|i: int|
            0 <= i < curve.points.len() ==> (#[trigger] kept(
                curve,
                sampled,
                curve.segments.len(),
            ).points[i]).position.same(curve.points[i].position),
{
    let n = curve.segments.len();
    assert forall|i: int| 0 <= i < n implies #[trigger] drawn_start(curve, sampled, i).same(
        curve.points[i].position,
    ) && drawn_end(curve, sampled, i).same(curve.points[i + 1].position) by {
        assert(is_drawn_closely(curve, sampled, i));
        let first = drawn(curve, sampled, i)[0].coordinate;
        let last = drawn(curve, sampled, i).last().coordinate;
        let left = curve.points[i].position;
        let right = curve.points[i + 1].position;
        law_close_number_is_moved_to_the_grid(first.x, left.x);
        law_close_number_is_moved_to_the_grid(first.y, left.y);
        law_close_number_is_moved_to_the_grid(last.x, right.x);
        law_close_number_is_moved_to_the_grid(last.y, right.y);
    }
    assert forall|i: int| 0 < i < n implies #[trigger] is_joined(curve, sampled, i) by {
        assert(drawn_start(curve, sampled, i).same(curve.points[i].position));
        assert(drawn_start(curve, sampled, i - 1).same(curve.points[i - 1].position));
    }
    assert forall|i: int| 0 <= i < curve.points.len() implies (#[trigger] kept(
        curve,
        sampled,
        n,
    ).points[i]).position.same(curve.points[i].position) by {
        if i == 0 {
            assert(drawn_start(curve, sampled, 0).same(curve.points[0].position));
        } else {
            assert(drawn_start(curve, sampled, i - 1).same(curve.points[i - 1].position));
        }
    }
}

/// A stored curve whose points lie on the grid, and whose segments are drawn closely
/// to them, is read back with its points where they were.
pub proof fn law_closely_drawn_curve_is_read_back(
    curve: Curve,
    sampled: Seq<Result<Seq<CubicBezierSpan>, CurveError>>,
    points: Seq<ControlPoint>,
)
    requires
        sampled.len() == curve.segments.len(),
        store_curve(curve, sampled) == Ok::<Seq<ControlPoint>, CurveError>(points),
        points.len() <= usize::MAX,
        forall|i: int|
            0 <= i < curve.points.len() ==> is_grid_position((#[trigger] curve.points[i]).position),
        forall|i: int|
            0 <= i < curve.segments.len() ==> #[trigger] is_drawn_closely(curve, sampled, i),
    ensures
        ({
            let found = read_curve(points, points_hash(points.skip(3)));
            &&& found is Ok
            &&& found->Ok_0.points.len() == curve.points.len()
            &&& forall|i: int|
                0 <= i < curve.points.len() ==> (
                #[trigger] found->Ok_0.points[i]).position.same(curve.points[i].position)
        }),
{
    assert(curve.well_formed());
    law_closely_drawn_curve_is_connected(curve, sampled);
    law_stored_curve_is_read_back(curve, sampled, points);
}

/// Whether a number is at most two to the power 28 in size.
pub open spec fn is_small(v: Double) -> bool {
    v.finite() && v.magnitude() <= 0x1000_0000 * one_step()
}

/// Whether both coordinates of a position are small.
pub open spec fn is_position_small(p: Position) -> bool {
    is_small(p.x) && is_small(p.y)
}

/// A coordinate at the beginning of the unit interval is drawn at the beginning of
/// the segment, exactly.
proof fn lemma_drawn_at_start(start: Double, end: Double, t: Double)
    requires
        is_small(start),
        is_small(end),
        t.same(number(ZERO)),
    ensures
        is_close(sum(start, product(difference(end, start), t)), start),
{
    let one = one_step();
    lemma_pow2_pos(UNIT_SHIFT as nat);
    lemma_largest();
    lemma_near_difference(end, start, 0x200_0000 * one);
    lemma_magnitude_zero(0);
    lemma_magnitude_zero(t.pattern());
    let way = difference(end, start);
    let m = way.magnitude();
    assert(m * 0 == 0);
    lemma_rounded_exact(0, one, 0);
    let moved = product(way, t);
    assert(moved.pattern() == 0);
    assert(moved.value() == 0);
    lemma_rounded_exact(start.magnitude(), 1, start.pattern());
}

/// A coordinate at the end of the unit interval is drawn closely to the end of the
/// segment.
proof fn lemma_drawn_at_end(start: Double, end: Double, t: Double)
    requires
        is_small(start),
        is_small(end),
        t.same(number(ONE)),
    ensures
        is_close(sum(start, product(difference(end, start), t)), end),
{
    let one = one_step();
    let size = 0x200_0000 * one;
    lemma_pow2_pos(UNIT_SHIFT as nat);
    lemma_pow2_increases(64, UNIT_SHIFT as nat);
    lemma2_to64_rest();
    lemma_largest();
    lemma_one();
    t.lemma_order(number(ONE));
    assert(t == number(ONE));
    let way = difference(end, start);
    lemma_near_difference(end, start, size);
    let m = way.magnitude();
    assert(m * one == one * m) by (nonlinear_arith);
    lemma_rounded_exact(m * one, one, way.pattern());
    let moved = product(way, t);
    assert(moved == way);
    lemma_near_sum(start, way, size);
    assert(one_error(size) <= one / 0x100_0000 + 4);
}

/// Whether spans are drawn from the lower left corner of the unit square to its
/// upper right corner.
pub open spec fn fills_the_square(spans: Seq<CubicBezierSpan>) -> bool {
    &&& spans.len() > 0
    &&& spans[0].start.same(Position { x: number(ZERO), y: number(ZERO) })
    &&& spans.last().end.same(Position { x: number(ONE), y: number(ONE) })
}

/// A segment is drawn from the start of its first span to the end of its last one.
proof fn lemma_drawn_ends(
    curve: Curve,
    sampled: Seq<Result<Seq<CubicBezierSpan>, CurveError>>,
    i: int,
)
    requires
        curve.well_formed(),
        0 <= i < curve.segments.len(),
        segment_points(
            curve.segments[i],
            curve.points[i].position,
            curve.points[i + 1].position,
            sampled[i],
        ) is Ok,
        curve.segments[i] is Bezier || sampled[i]->Ok_0.len() > 0,
    ensures
        ({
            let left = curve.points[i].position;
            let right = curve.points[i + 1].position;
            let spans = segment_spans(curve.segments[i], left, right, sampled[i]->Ok_0);
            let unit = sampled[i]->Ok_0;
            &&& drawn(curve, sampled, i)[0].coordinate == spans[0].start
            &&& drawn(curve, sampled, i).last().coordinate == spans.last().end
            &&& !(curve.segments[i] is Bezier) ==> spans[0] == scaled(unit[0], left, right)
                && spans.last() == scaled(unit.last(), left, right)
        }),
{
    let left = curve.points[i].position;
    let right = curve.points[i + 1].position;
    let spans = segment_spans(curve.segments[i], left, right, sampled[i]->Ok_0);
    let points = drawn(curve, sampled, i);
    assert(points == span_points(spans));
    let n = spans.len();
    assert(points[0].coordinate == spans[0].start);
    assert((2 * n - 1) % 2 == 1 && (2 * n - 1) / 2 == n - 1);
    assert(points.last().coordinate == spans.last().end);
}

/// A segment between points of small coordinates is drawn closely to them if it is
/// a Bezier segment, or if its spans go from corner to corner of the unit square.
pub proof fn law_segment_is_drawn_closely(
    curve: Curve,
    sampled: Seq<Result<Seq<CubicBezierSpan>, CurveError>>,
    i: int,
)
    requires
        curve.well_formed(),
        0 <= i < curve.segments.len(),
        is_position_small(curve.points[i].position),
        is_position_small(curve.points[i + 1].position),
        segment_points(
            curve.segments[i],
            curve.points[i].position,
            curve.points[i + 1].position,
            sampled[i],
        ) is Ok,
        curve.segments[i] is Bezier || fills_the_square(sampled[i]->Ok_0),
    ensures
        is_drawn_closely(curve, sampled, i),
{
    let left = curve.points[i].position;
    let right = curve.points[i + 1].position;
    lemma_drawn_ends(curve, sampled, i);
    if !(curve.segments[i] is Bezier) {
        let unit = sampled[i]->Ok_0;
        lemma_drawn_at_start(left.x, right.x, unit[0].start.x);
        lemma_drawn_at_start(left.y, right.y, unit[0].start.y);
        lemma_drawn_at_end(left.x, right.x, unit.last().end.x);
        lemma_drawn_at_end(left.y, right.y, unit.last().end.y);
    }
}

/// The spans of an elastic segment go from corner to corner of the unit square if
/// they begin at height zero and end at height one.
pub proof fn law_elastic_curve_fills_the_square(
    reversed: bool,
    formula: ElasticFormula,
    waves: spec_fn(Double) -> Wave,
)
    requires
        elastic_curve(reversed, formula, waves)[0].start.y.same(number(ZERO)),
        elastic_curve(reversed, formula, waves).last().end.y.same(number(ONE)),
    ensures
        fills_the_square(elastic_curve(reversed, formula, waves)),
{
    law_elastic_curve_fills_the_segment(reversed, formula, waves);
    lemma_one();
}

// Spans that miss the corners by little.

/// Whether a number is at most 256 in size.
pub open spec fn is_modest(v: Double) -> bool {
    v.finite() && v.magnitude() <= 256 * one_step()
}

/// Whether both coordinates of a position are modest.
pub open spec fn is_position_modest(p: Position) -> bool {
    is_modest(p.x) && is_modest(p.y)
}

/// Whether a number is at most two to the power -32 away from a whole one.
pub open spec fn is_almost(v: Double, whole: int) -> bool {
    v.finite() && 0x1_0000_0000 * distance(v.value() - whole * one_step()) <= one_step()
}

/// Whether spans are drawn from the lower left corner of the unit square to its
/// upper right corner, or miss them by little.
pub open spec fn almost_fills_the_square(spans: Seq<CubicBezierSpan>) -> bool {
    &&& spans.len() > 0
    &&& is_almost(spans[0].start.x, 0)
    &&& is_almost(spans[0].start.y, 0)
    &&& is_almost(spans.last().end.x, 1)
    &&& is_almost(spans.last().end.y, 1)
}

/// The part of a way that is almost none or all of it, as it is computed.
proof fn lemma_part_of_way(way: Double, t: Double, whole: int)
    requires
        way.finite(),
        way.magnitude() <= 513 * one_step(),
        is_almost(t, whole),
        whole == 0 || whole == 1,
    ensures
        product(way, t).finite(),
        ({
            let off = product(way, t).value() - whole * way.value();
            let error = one_step() / 0x40_0000 + one_error(256 * one_step());
            -error <= off <= error
        }),
{
    let one = one_step() as int;
    let size = 256 * one_step();
    let e = one_error(size) as int;
    lemma_pow2_pos(UNIT_SHIFT as nat);
    lemma_pow2_increases(64, UNIT_SHIFT as nat);
    lemma2_to64_rest();
    lemma_largest();
    let w = way.value();
    let m = way.magnitude() as int;
    let n = t.magnitude() as int;
    let d = t.value() - whole * one;
    assert(n <= 2 * one);
    assert(m * n <= one * (16 * size)) by (nonlinear_arith)
        requires
            0 <= m <= 513 * one,
            0 <= n <= 2 * one,
            size == 256 * one,
            one > 0,
    ;
    lemma_near_product(way, t, size);
    let moved = product(way, t).value();
    let off = moved - whole * w;
    let step = one / 0x40_0000;
    assert(one < 0x40_0000 * (step + 1));
    assert(off * one == (moved * one - w * t.value()) + w * d) by (nonlinear_arith)
        requires
            d == t.value() - whole * one,
            off == moved - whole * w,
    ;
    assert(0x1_0000_0000 * (w * d) <= 513 * one * one && 0x1_0000_0000 * (w * d) >= -(513 * one
        * one)) by (nonlinear_arith)
        requires
            -(513 * one) <= w <= 513 * one,
            -one <= 0x1_0000_0000 * d <= one,
            one > 0,
    ;
    let bound = step + e;
    assert(-(bound * one) <= off * one <= bound * one) by {
        assert(0x1_0000_0000 * (w * d) <= 0x1_0000_0000 * (step * one)) by (nonlinear_arith)
            requires
                0x1_0000_0000 * (w * d) <= 513 * one * one,
                one < 0x40_0000 * (step + 1),
                0x800_0000 <= one,
        ;
        assert(0x1_0000_0000 * (w * d) >= -(0x1_0000_0000 * (step * one))) by (nonlinear_arith)
            requires
                0x1_0000_0000 * (w * d) >= -(513 * one * one),
                one < 0x40_0000 * (step + 1),
                0x800_0000 <= one,
        ;
        assert(bound * one == step * one + one * e) by (nonlinear_arith)
            requires
                bound == step + e,
        ;
    }
    assert(-bound <= off <= bound) by (nonlinear_arith)
        requires
            -(bound * one) <= off * one <= bound * one,
            one > 0,
    ;
}

/// A coordinate almost at an end of the unit interval is drawn closely to that end
/// of the segment.
proof fn lemma_drawn_almost(start: Double, end: Double, t: Double, whole: int)
    requires
        is_modest(start),
        is_modest(end),
        is_almost(t, whole),
        whole == 0 || whole == 1,
    ensures
        is_close(
            sum(start, product(difference(end, start), t)),
            if whole == 0 {
                start
            } else {
                end
            },
        ),
{
    let one = one_step();
    let size = 256 * one;
    lemma_pow2_pos(UNIT_SHIFT as nat);
    lemma_pow2_increases(64, UNIT_SHIFT as nat);
    lemma2_to64_rest();
    lemma_largest();
    assert(one_error(size) <= one / 0x100_0000_0000 + 4);
    lemma_near_difference(end, start, size);
    let way = difference(end, start);
    lemma_part_of_way(way, t, whole);
    lemma_near_sum(start, product(way, t), size);
}

/// A segment between points of modest coordinates is drawn closely to them if its
/// spans almost go from corner to corner of the unit square.
pub proof fn law_almost_filling_segment_is_drawn_closely(
    curve: Curve,
    sampled: Seq<Result<Seq<CubicBezierSpan>, CurveError>>,
    i: int,
)
    requires
        curve.well_formed(),
        0 <= i < curve.segments.len(),
        !(curve.segments[i] is Bezier),
        is_position_modest(curve.points[i].position),
        is_position_modest(curve.points[i + 1].position),
        segment_points(
            curve.segments[i],
            curve.points[i].position,
            curve.points[i + 1].position,
            sampled[i],
        ) is Ok,
        almost_fills_the_square(sampled[i]->Ok_0),
    ensures
        is_drawn_closely(curve, sampled, i),
{
    let left = curve.points[i].position;
    let right = curve.points[i + 1].position;
    let unit = sampled[i]->Ok_0;
    lemma_drawn_ends(curve, sampled, i);
    lemma_drawn_almost(left.x, right.x, unit[0].start.x, 0);
    lemma_drawn_almost(left.y, right.y, unit[0].start.y, 0);
    lemma_drawn_almost(left.x, right.x, unit.last().end.x, 1);
    lemma_drawn_almost(left.y, right.y, unit.last().end.y, 1);
}

} // verus!
