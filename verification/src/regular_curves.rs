//! What a curve that is read from plain control points is.
use crate::arithmetic::{difference, sum};
use crate::bounce_precision::{exact, is_rounded, lemma_difference, lemma_sum, ulp};
use crate::curve::{Curve, Position};
use crate::curve_io::{is_marked, origin, read_curve, read_regular, segment_points};
use crate::double::{lemma_magnitude_zero, Double};
use crate::error::CurveError;
use crate::spans::{offset, shifted, ControlPoint, CubicBezierSpan};
use crate::spans_precision::is_position_held;
use crate::tolerance::{is_about, is_held, lemma_about_difference, lemma_about_sum};
use vstd::prelude::*;

verus! {

/// Whether a position is the sum of two others, up to one rounding of each coordinate.
/// It says nothing of coordinates that are not finite.
pub open spec fn is_moved_by(to: Position, from: Position, way: Position) -> bool {
    &&& from.x.finite() && way.x.finite() && to.x.finite() ==> is_rounded(
        to.x,
        exact(from.x) + exact(way.x),
    )
    &&& from.y.finite() && way.y.finite() && to.y.finite() ==> is_rounded(
        to.y,
        exact(from.y) + exact(way.y),
    )
}

/// Whether a position is the difference of two others, up to one rounding of each
/// coordinate. It says nothing of coordinates that are not finite.
pub open spec fn is_moved_back_by(to: Position, from: Position, way: Position) -> bool {
    &&& from.x.finite() && way.x.finite() && to.x.finite() ==> is_rounded(
        to.x,
        exact(from.x) - exact(way.x),
    )
    &&& from.y.finite() && way.y.finite() && to.y.finite() ==> is_rounded(
        to.y,
        exact(from.y) - exact(way.y),
    )
}

proof fn lemma_moved(from: Position, way: Position)
    ensures
        is_moved_by(shifted(from, way), from, way),
        is_moved_back_by(offset(from, way), from, way),
{
    let (a, b) = (shifted(from, way), offset(from, way));
    if from.x.finite() && way.x.finite() {
        if a.x.finite() {
            lemma_sum(from.x, way.x);
        }
        if b.x.finite() {
            lemma_difference(from.x, way.x);
        }
    }
    if from.y.finite() && way.y.finite() {
        if a.y.finite() {
            lemma_sum(from.y, way.y);
        }
        if b.y.finite() {
            lemma_difference(from.y, way.y);
        }
    }
}

/// A curve that is read from plain control points has a point with linked handles where
/// each of them is, and a Bezier segment between each two neighbours. The segment leaves
/// the first towards its handle, and arrives at the second from the side opposite to its
/// handle. Fewer than two control points are no curve.
pub proof fn law_regular_segments_have_the_handles(points: Seq<ControlPoint>, i: int)
    requires
        0 <= i < points.len(),
    ensures
        points.len() == 1 ==> read_regular(points) == Err::<Curve, CurveError>(
            CurveError::RegularTooShort,
        ),
        points.len() >= 2 ==> read_regular(points) is Ok && {
            let curve = read_regular(points)->Ok_0;
            &&& curve.points.len() == points.len()
            &&& curve.segments.len() == points.len() - 1
            &&& curve.points[i].position == points[i].coordinate
            &&& !curve.points[i].handles_separated
            &&& i + 1 < points.len() ==> {
                &&& curve.segments[i] is Bezier
                &&& is_moved_by(
                    curve.segments[i]->Bezier_0.start_handle,
                    points[i].coordinate,
                    points[i].handle_offset,
                )
                &&& is_moved_back_by(
                    curve.segments[i]->Bezier_0.end_handle,
                    points[i + 1].coordinate,
                    points[i + 1].handle_offset,
                )
            }
        },
{
    lemma_moved(points[i].coordinate, points[i].handle_offset);
    if i + 1 < points.len() {
        lemma_moved(points[i + 1].coordinate, points[i + 1].handle_offset);
    }
}

/// How a segment is read does not depend on the other control points: it is the same in
/// every row in which its two control points are neighbours.
pub proof fn law_regular_segments_are_read_alike(
    points: Seq<ControlPoint>,
    others: Seq<ControlPoint>,
    i: int,
    j: int,
)
    requires
        0 <= i < points.len() - 1,
        0 <= j < others.len() - 1,
        points[i] == others[j],
        points[i + 1] == others[j + 1],
    ensures
        read_regular(points)->Ok_0.segments[i] == read_regular(others)->Ok_0.segments[j],
{
}

/// Control points are read as a stored curve exactly where the first three are at the
/// origin, and else as a regular one.
pub proof fn law_other_points_are_a_regular_curve(points: Seq<ControlPoint>, hash: u32)
    requires
        points.len() < 3 || exists|k: int|
            0 <= k < 3 && !((#[trigger] points[k]).coordinate.x.magnitude() == 0
                && points[k].coordinate.y.magnitude() == 0),
    ensures
        read_curve(points, hash) == read_regular(points),
{
    assert(!is_marked(points)) by {
        lemma_magnitude_zero(0);
        let zero = Double { bits: 0 };
        assert(zero.value() == 0);
        if points.len() >= 3 {
            let k = choose|k: int|
                0 <= k < 3 && !((#[trigger] points[k]).coordinate.x.magnitude() == 0
                    && points[k].coordinate.y.magnitude() == 0);
            assert(!points[k].coordinate.same(origin()));
        }
    }
}

/// There and back again.
proof fn lemma_way_is_kept(c: Double, o: Double, bound: real)
    requires
        is_held(c, bound),
        is_held(o, bound),
        bound >= 1real,
    ensures
        difference(sum(c, o), c).finite() ==> is_about(
            difference(sum(c, o), c),
            exact(o),
            8real * bound * ulp(),
        ),
        difference(c, difference(c, o)).finite() ==> is_about(
            difference(c, difference(c, o)),
            exact(o),
            8real * bound * ulp(),
        ),
{
    let e = ulp();
    let (x, y) = (exact(c), exact(o));
    let h = sum(c, o);
    let g = difference(c, o);
    c.lemma_opposite();
    g.lemma_opposite();
    let first = (2real * bound + 1real) * e;
    let wide = 2real * bound;
    assert(first <= bound && first + (wide + 1real) * e <= 8real * bound * e) by (nonlinear_arith)
        requires
            first == (2real * bound + 1real) * e,
            wide == 2real * bound,
            bound >= 1real,
            e == 1real / 9007199254740992real,
    ;
    if h.finite() {
        lemma_about_sum(c, o, x, y, 0real, 0real, wide);
        if difference(h, c).finite() {
            lemma_about_difference(h, c, x + y, x, first, 0real, wide);
        }
    }
    if g.finite() {
        lemma_about_difference(c, o, x, y, 0real, 0real, wide);
        if difference(c, g).finite() {
            lemma_about_difference(c, g, x, x - y, 0real, first, wide);
        }
    }
}

/// Whether a way is another one, up to rounding. It says nothing of coordinates that
/// are not finite.
pub open spec fn is_way_kept(r: Position, way: Position, bound: real) -> bool {
    &&& r.x.finite() ==> is_about(r.x, exact(way.x), 8real * bound * ulp())
    &&& r.y.finite() ==> is_about(r.y, exact(way.y), 8real * bound * ulp())
}

/// The segments that are read from plain control points are drawn with the same control
/// points again: at the same places, and with the same handles up to rounding.
pub proof fn law_regular_segments_are_drawn_as_they_were(
    points: Seq<ControlPoint>,
    i: int,
    sampled: Result<Seq<CubicBezierSpan>, CurveError>,
    bound: real,
)
    requires
        0 <= i < points.len() - 1,
        is_position_held(points[i].coordinate, bound),
        is_position_held(points[i].handle_offset, bound),
        is_position_held(points[i + 1].coordinate, bound),
        is_position_held(points[i + 1].handle_offset, bound),
        bound >= 1real,
    ensures
        ({
            let curve = read_regular(points)->Ok_0;
            let drawn = segment_points(
                curve.segments[i],
                curve.points[i].position,
                curve.points[i + 1].position,
                sampled,
            );
            &&& drawn is Ok
            &&& drawn->Ok_0.len() == 2
            &&& drawn->Ok_0[0].coordinate == points[i].coordinate
            &&& drawn->Ok_0[1].coordinate == points[i + 1].coordinate
            &&& is_way_kept(drawn->Ok_0[0].handle_offset, points[i].handle_offset, bound)
            &&& is_way_kept(drawn->Ok_0[1].handle_offset, points[i + 1].handle_offset, bound)
        }),
{
    let (p, q) = (points[i], points[i + 1]);
    lemma_way_is_kept(p.coordinate.x, p.handle_offset.x, bound);
    lemma_way_is_kept(p.coordinate.y, p.handle_offset.y, bound);
    lemma_way_is_kept(q.coordinate.x, q.handle_offset.x, bound);
    lemma_way_is_kept(q.coordinate.y, q.handle_offset.y, bound);
}

} // verus!
