//! Where the data of a curve are among the control points that hold it.
use crate::conversion::{lemma_whole_exact, whole};
use crate::curve::{Curve, TimeControlPoint, TimeControlSegment};
use crate::curve_io::{
    segment_flags, segment_head, segment_points, store_curve, store_payload, store_segments,
};
use crate::double::{lemma_magnitude_zero, one_step, Double};
use crate::error::CurveError;
use crate::numbers::lemma_one;
use crate::quantization::{on_grid, point_on_grid, points_hash, points_on_grid};
use crate::round_trip::{drawn, lemma_count_on_grid, lemma_stored_piece};
use crate::spans::{scaled, span_points, ControlPoint, CubicBezierSpan};
use vstd::prelude::*;

verus! {

/// Whether a number is a whole one that is not negative.
pub open spec fn is_number(v: Double, n: nat) -> bool {
    v.finite() && !v.negative() && v.magnitude() == n * one_step()
}

/// Where segment `m` of a stored curve begins among the control points: after the three
/// that mark the curve, and those of the segments before it.
pub open spec fn place_of(
    curve: Curve,
    sampled: Seq<Result<Seq<CubicBezierSpan>, CurveError>>,
    m: nat,
) -> int {
    3 + store_segments(curve, sampled, m)->Ok_0.len() as int
}

/// The first three control points of a stored curve are at the origin. The first handle is
/// one to the right, the second and third hold the upper and the lower half of the hash of
/// the control points after them.
pub proof fn law_marking_points_hold_the_hash(
    curve: Curve,
    sampled: Seq<Result<Seq<CubicBezierSpan>, CurveError>>,
    points: Seq<ControlPoint>,
)
    requires
        store_curve(curve, sampled) == Ok::<Seq<ControlPoint>, CurveError>(points),
    ensures
        points.len() >= 3,
        forall|i: int|
            0 <= i < 3 ==> is_number((#[trigger] points[i]).coordinate.x, 0) && is_number(
                points[i].coordinate.y,
                0,
            ) && is_number(points[i].handle_offset.y, 0),
        is_number(points[0].handle_offset.x, 1),
        ({
            let hash = points_hash(points.skip(3)) as nat;
            &&& is_number(points[1].handle_offset.x, hash / 0x10000)
            &&& is_number(points[2].handle_offset.x, hash % 0x10000)
        }),
{
    let payload = store_payload(curve, sampled)->Ok_0;
    let hash = points_hash(payload);
    assert(points.skip(3) =~= payload);
    lemma_magnitude_zero(0);
    lemma_one();
    lemma_whole_exact(false, (hash / 0x10000) as nat);
    lemma_whole_exact(false, (hash % 0x10000) as nat);
    assert(0 * one_step() == 0);
    assert(points[1].handle_offset.x == whole(false, (hash / 0x10000) as nat));
    assert(points[2].handle_offset.x == whole(false, (hash % 0x10000) as nat));
}

/// How a segment's own numbers are stored: after the number of its drawn points and its
/// flags come the handles of a Bezier segment, first to last and each `x` before `y`; the
/// amplitude, the frequency and the decay of an elastic one; or the vertex of a bounce. All
/// of them are rounded to the grid.
pub open spec fn holds_segment(
    points: Seq<ControlPoint>,
    at: int,
    segment: TimeControlSegment,
    separated: bool,
    count: nat,
) -> bool {
    let value = |i: int| points[at + i].handle_offset.x;
    &&& is_number(value(0), count)
    &&& match segment {
        TimeControlSegment::Bezier(bezier) => {
            &&& is_number(value(1), if separated { 4 } else { 0 })
            &&& value(2) == on_grid(bezier.start_handle.x)
            &&& value(3) == on_grid(bezier.start_handle.y)
            &&& value(4) == on_grid(bezier.end_handle.x)
            &&& value(5) == on_grid(bezier.end_handle.y)
        },
        TimeControlSegment::Elastic(elastic) => {
            &&& is_number(value(1), if elastic.reversed { 5 } else { 1 })
            &&& value(2) == on_grid(elastic.amplitude)
            &&& value(3) == on_grid(elastic.frequency)
            &&& value(4) == on_grid(elastic.decay)
        },
        TimeControlSegment::Bounce(bounce) => {
            &&& is_number(value(1), if bounce.reversed { 6 } else { 2 })
            &&& value(2) == on_grid(bounce.vertex.x)
            &&& value(3) == on_grid(bounce.vertex.y)
        },
    }
}

/// How many control points come before those that draw a segment.
pub open spec fn head_size(segment: TimeControlSegment) -> int {
    match segment {
        TimeControlSegment::Bezier(_) => 6,
        TimeControlSegment::Elastic(_) => 5,
        TimeControlSegment::Bounce(_) => 4,
    }
}

/// Each segment of a stored curve is held by its own numbers, followed by the control
/// points that draw it, all rounded to the grid, and the next one follows after these.
pub proof fn law_stored_segment_is_laid_out(
    curve: Curve,
    sampled: Seq<Result<Seq<CubicBezierSpan>, CurveError>>,
    points: Seq<ControlPoint>,
    m: nat,
    k: int,
)
    requires
        sampled.len() == curve.segments.len(),
        store_curve(curve, sampled) == Ok::<Seq<ControlPoint>, CurveError>(points),
        m < curve.segments.len(),
        0 <= k < drawn(curve, sampled, m as int).len(),
    ensures
        ({
            let segment = curve.segments[m as int];
            let at = place_of(curve, sampled, m);
            let count = drawn(curve, sampled, m as int).len();
            let separated = curve.points[m as int].handles_separated;
            &&& place_of(curve, sampled, 0) == 3
            &&& place_of(curve, sampled, m + 1) == at + head_size(segment) + count
            &&& at + head_size(segment) + count <= points.len()
            &&& holds_segment(points, at, segment, separated, count)
            &&& points[at + head_size(segment) + k] == point_on_grid(
                drawn(curve, sampled, m as int)[k],
            )
        }),
{
    let segment = curve.segments[m as int];
    let left = curve.points[m as int];
    let samples = drawn(curve, sampled, m as int);
    let head = segment_head(segment, left, samples.len());
    let at = place_of(curve, sampled, m);
    lemma_piece_on_grid(curve, sampled, points, m);
    assert(head.len() == head_size(segment));
    assert forall|i: int| 0 <= i < head.len() implies #[trigger] points[at + i] == point_on_grid(
        head[i],
    ) by {
        assert(points[at + i] == point_on_grid((head + samples)[i]));
    }
    lemma_head_holds(points, at, segment, left, samples.len());
    let i = head.len() + k;
    assert(points[at + i] == point_on_grid((head + samples)[i]));
}

/// The control points of a stored segment.
proof fn lemma_piece_on_grid(
    curve: Curve,
    sampled: Seq<Result<Seq<CubicBezierSpan>, CurveError>>,
    points: Seq<ControlPoint>,
    m: nat,
)
    requires
        sampled.len() == curve.segments.len(),
        store_curve(curve, sampled) == Ok::<Seq<ControlPoint>, CurveError>(points),
        m < curve.segments.len(),
    ensures
        ({
            let samples = drawn(curve, sampled, m as int);
            let head = segment_head(
                curve.segments[m as int],
                curve.points[m as int],
                samples.len(),
            );
            let piece = head + samples;
            let at = place_of(curve, sampled, m);
            &&& 2 <= samples.len() <= u16::MAX
            &&& place_of(curve, sampled, m + 1) == at + piece.len()
            &&& at + piece.len() <= points.len()
            &&& forall|i: int|
                0 <= i < piece.len() ==> #[trigger] points[at + i] == point_on_grid(piece[i])
        }),
{
    let payload = store_payload(curve, sampled)->Ok_0;
    assert(points.skip(3) =~= payload);
    lemma_stored_piece(curve, sampled, points, m);
    let samples = drawn(curve, sampled, m as int);
    let piece = segment_head(curve.segments[m as int], curve.points[m as int], samples.len())
        + samples;
    let at = place_of(curve, sampled, m);
    let rest = points.skip(at);
    assert forall|i: int| 0 <= i < piece.len() implies #[trigger] points[at + i] == point_on_grid(
        piece[i],
    ) by {
        assert(rest.take(piece.len() as int)[i] == points_on_grid(piece)[i]);
        assert(rest[i] == points[at + i]);
    }
}

/// The numbers of a stored segment.
proof fn lemma_head_holds(
    points: Seq<ControlPoint>,
    at: int,
    segment: TimeControlSegment,
    left: TimeControlPoint,
    count: nat,
)
    requires
        count <= u16::MAX,
        forall|i: int|
            0 <= i < segment_head(segment, left, count).len() ==> #[trigger] points[at + i]
                == point_on_grid(segment_head(segment, left, count)[i]),
    ensures
        holds_segment(points, at, segment, left.handles_separated, count),
{
    let head = segment_head(segment, left, count);
    let flags = segment_flags(segment, left.handles_separated);
    lemma_count_on_grid(count);
    lemma_count_on_grid(flags);
    lemma_whole_exact(false, count);
    lemma_whole_exact(false, flags);
    assert(points[at + 0] == point_on_grid(head[0]));
    assert(points[at + 1] == point_on_grid(head[1]));
    assert(points[at + 2] == point_on_grid(head[2]));
    assert(points[at + 3] == point_on_grid(head[3]));
    if head.len() > 4 {
        assert(points[at + 4] == point_on_grid(head[4]));
    }
    if head.len() > 5 {
        assert(points[at + 5] == point_on_grid(head[5]));
    }
}

/// The control points that draw a segment are those of its spans: of the one span with the
/// handles of a Bezier segment, or of the sampled ones, each moved to the rectangle between
/// the two points.
pub proof fn law_segment_is_drawn_with_its_spans(
    curve: Curve,
    sampled: Seq<Result<Seq<CubicBezierSpan>, CurveError>>,
    m: int,
    k: int,
)
    requires
        0 <= m < curve.segments.len(),
        segment_points(
            curve.segments[m],
            curve.points[m].position,
            curve.points[m + 1].position,
            sampled[m],
        ) is Ok,
        0 <= k,
        curve.segments[m] is Bezier ==> k == 0,
        !(curve.segments[m] is Bezier) ==> k < sampled[m]->Ok_0.len(),
    ensures
        ({
            let (start, end) = (curve.points[m].position, curve.points[m + 1].position);
            let span = match curve.segments[m] {
                TimeControlSegment::Bezier(bezier) => CubicBezierSpan {
                    start,
                    start_handle: bezier.start_handle,
                    end_handle: bezier.end_handle,
                    end,
                },
                _ => scaled(sampled[m]->Ok_0[k], start, end),
            };
            let points = drawn(curve, sampled, m);
            &&& points.len() == if curve.segments[m] is Bezier {
                2
            } else {
                2 * sampled[m]->Ok_0.len()
            }
            &&& points[2 * k] == span_points(seq![span])[0]
            &&& points[2 * k + 1] == span_points(seq![span])[1]
        }),
{
    assert((2 * k) % 2 == 0 && (2 * k) / 2 == k);
    assert((2 * k + 1) % 2 == 1 && (2 * k + 1) / 2 == k);
}

} // verus!
