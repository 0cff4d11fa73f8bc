//! What reading gives back of a stored curve.
use crate::arithmetic::product;
use crate::conversion::{lemma_whole_exact, lemma_whole_parts, whole};
use crate::curve::{
    segment_mode, Curve, Position, TimeControlBezier, TimeControlBounce, TimeControlElastic,
    TimeControlPoint, TimeControlSegment,
};
use crate::curve_io::{
    extended_points, hidden, hidden_count, is_marked, marked, origin, read_curve, read_data,
    read_segment, read_segments, read_stored, regular_curve, segment_data, segment_flags,
    segment_head, segment_points, store_curve, store_payload, store_segments, stored_count,
    stored_hash, stored_u16, StoredSegment,
};
use crate::double::{lemma_magnitude_zero, one_step, Double, UNIT_SHIFT};
use crate::error::CurveError;
use crate::precision::{is_moderate, law_grid_is_stable, lemma_grid_scale};
use crate::quantization::{
    grid_scale, grid_steps, hash_input, on_grid, point_on_grid, points_hash, points_on_grid,
    position_on_grid,
};
use crate::rounding::{lemma_rounded_exact, lemma_rounded_magnitude};
use crate::spans::{ControlPoint, CubicBezierSpan};
use vstd::arithmetic::power2::*;
use vstd::prelude::*;

verus! {

/// A whole number of 16 bits lies on the grid.
pub proof fn lemma_count_on_grid(c: nat)
    requires
        c <= u16::MAX,
    ensures
        on_grid(whole(false, c)) == whole(false, c),
{
    reveal(on_grid);
    let one = one_step();
    let k = c * 1_000_000;
    lemma_pow2_pos(UNIT_SHIFT as nat);
    lemma_grid_scale();
    lemma_whole_exact(false, c);
    lemma_whole_exact(false, k);
    lemma_whole_parts(false, k);
    let x = whole(false, c);
    let y = whole(false, k);
    let scale = grid_scale();
    assert((c * one) * (1_000_000 * one) == one * ((c * 1_000_000) * one)) by (nonlinear_arith);
    lemma_rounded_exact(x.magnitude() * scale.magnitude(), one, y.pattern());
    assert(product(x, scale) == y);
    assert(((c * 1_000_000) * one) * one == (1_000_000 * one) * (c * one)) by (nonlinear_arith);
    assert(1_000_000 * one > 0);
    lemma_rounded_exact(y.magnitude() * one, scale.magnitude(), x.pattern());
}

/// A whole number of 16 bits is read back as it was stored.
pub proof fn lemma_count_read_back(c: nat)
    requires
        c <= u16::MAX,
    ensures
        whole(false, c).rounded_whole().saturated(u16::MAX as nat) == c,
        whole(false, c).rounded_whole().saturated(usize::MAX as nat) == c,
{
    lemma_whole_exact(false, c);
    lemma_whole_parts(false, c);
}

/// A number stays a number on the grid.
pub proof fn lemma_grid_keeps_numbers(v: Double)
    ensures
        on_grid(v).nan() == v.nan(),
{
    reveal(on_grid);
    let scale = grid_scale();
    lemma_grid_scale();
    lemma_pow2_pos(UNIT_SHIFT as nat);
    if !v.nan() {
        lemma_magnitude_zero(v.pattern());
    }
    let n = v.magnitude() * scale.magnitude();
    lemma_rounded_magnitude(n, one_step());
    let w = product(v, scale);
    assert(w.nan() == v.nan());
    let m = w.round_magnitude() * one_step();
    lemma_rounded_magnitude(m, 1);
    let g = grid_steps(v);
    assert(g.nan() == v.nan());
    lemma_rounded_magnitude(g.magnitude() * one_step(), scale.magnitude());
}

/// A position without a coordinate that is not a number equals itself on the grid.
pub proof fn lemma_grid_position(p: Position)
    requires
        !p.x.nan(),
        !p.y.nan(),
    ensures
        position_on_grid(p).same(position_on_grid(p)),
{
    lemma_grid_keeps_numbers(p.x);
    lemma_grid_keeps_numbers(p.y);
}

/// The segment with its parameters moved to the grid.
pub open spec fn segment_on_grid(segment: TimeControlSegment) -> TimeControlSegment {
    match segment {
        TimeControlSegment::Bezier(bezier) => TimeControlSegment::Bezier(
            TimeControlBezier {
                start_handle: position_on_grid(bezier.start_handle),
                end_handle: position_on_grid(bezier.end_handle),
            },
        ),
        TimeControlSegment::Elastic(elastic) => TimeControlSegment::Elastic(
            TimeControlElastic {
                reversed: elastic.reversed,
                amplitude: on_grid(elastic.amplitude),
                frequency: on_grid(elastic.frequency),
                decay: on_grid(elastic.decay),
            },
        ),
        TimeControlSegment::Bounce(bounce) => TimeControlSegment::Bounce(
            TimeControlBounce {
                reversed: bounce.reversed,
                vertex: position_on_grid(bounce.vertex),
            },
        ),
    }
}

/// The control points that draw segment `i` of a curve.
pub open spec fn drawn(
    curve: Curve,
    sampled: Seq<Result<Seq<CubicBezierSpan>, CurveError>>,
    i: int,
) -> Seq<ControlPoint> {
    segment_points(
        curve.segments[i],
        curve.points[i].position,
        curve.points[i + 1].position,
        sampled[i],
    )->Ok_0
}

/// Where segment `i` of a curve begins on the grid.
pub open spec fn drawn_start(
    curve: Curve,
    sampled: Seq<Result<Seq<CubicBezierSpan>, CurveError>>,
    i: int,
) -> Position {
    position_on_grid(drawn(curve, sampled, i)[0].coordinate)
}

/// Where segment `i` of a curve ends on the grid.
pub open spec fn drawn_end(
    curve: Curve,
    sampled: Seq<Result<Seq<CubicBezierSpan>, CurveError>>,
    i: int,
) -> Position {
    position_on_grid(drawn(curve, sampled, i).last().coordinate)
}

/// Whether segment `i` of a curve is drawn from where the one before it ends.
pub open spec fn is_joined(
    curve: Curve,
    sampled: Seq<Result<Seq<CubicBezierSpan>, CurveError>>,
    i: int,
) -> bool {
    drawn_end(curve, sampled, i - 1).same(drawn_start(curve, sampled, i))
}

/// Whether each of the first `n` segments is drawn from where the one before it
/// ends.
pub open spec fn is_connected(
    curve: Curve,
    sampled: Seq<Result<Seq<CubicBezierSpan>, CurveError>>,
    n: nat,
) -> bool {
    forall|i: int| 0 < i < n ==> #[trigger] is_joined(curve, sampled, i)
}

/// What reading gives back of the first `n` segments of a stored curve: the
/// segments, and the ends that were drawn, all on the grid. Only a Bezier
/// segment keeps the separation of its left point's handles.
pub open spec fn kept(
    curve: Curve,
    sampled: Seq<Result<Seq<CubicBezierSpan>, CurveError>>,
    n: nat,
) -> Curve {
    Curve {
        points: if n == 0 {
            Seq::empty()
        } else {
            Seq::new(
                n + 1,
                |i: int|
                    TimeControlPoint {
                        position: if i == 0 {
                            drawn_start(curve, sampled, 0)
                        } else {
                            drawn_end(curve, sampled, i - 1)
                        },
                        handles_separated: i < n && curve.segments[i] is Bezier
                            && curve.points[i].handles_separated,
                    },
            )
        },
        segments: Seq::new(n, |i: int| segment_on_grid(curve.segments[i])),
    }
}

/// A stored segment is read back.
proof fn lemma_read_segment(
    rest: Seq<ControlPoint>,
    at: nat,
    segment: TimeControlSegment,
    left: TimeControlPoint,
    points: Seq<ControlPoint>,
)
    requires
        2 <= points.len() <= u16::MAX,
        ({
            let stored = points_on_grid(segment_head(segment, left, points.len()) + points);
            &&& stored.len() <= rest.len()
            &&& rest.take(stored.len() as int) == stored
        }),
        at + rest.len() <= usize::MAX,
    ensures
        ({
            let hidden = hidden_count(segment_mode(segment));
            read_segment(rest, at) == Ok::<StoredSegment, CurveError>(
                StoredSegment {
                    segment: segment_on_grid(segment),
                    separated: segment is Bezier && left.handles_separated,
                    start: position_on_grid(points[0].coordinate),
                    end: position_on_grid(points.last().coordinate),
                    size: (hidden + points.len()) as usize,
                },
            )
        }),
        segment_head(segment, left, points.len()).len() == hidden_count(segment_mode(segment)),
{
    reveal(read_segment);
    let head = segment_head(segment, left, points.len());
    let all = head + points;
    let stored = points_on_grid(all);
    let hidden = hidden_count(segment_mode(segment));
    let flags = segment_flags(segment, left.handles_separated);
    assert(head.len() == hidden);
    assert forall|i: int| 0 <= i < all.len() implies rest[i] == point_on_grid(all[i]) by {
        assert(rest.take(stored.len() as int)[i] == stored[i]);
    }
    lemma_count_on_grid(points.len());
    lemma_count_read_back(points.len());
    lemma_count_on_grid(flags);
    lemma_count_read_back(flags);
    assert(all[0] == head[0]);
    assert(all[1] == head[1]);
    assert(stored_count(rest[0]) == points.len());
    assert(stored_u16(rest[1]) == flags);
    let data = rest.skip(2);
    assert forall|i: int| 0 <= i < hidden - 2 implies data[i] == point_on_grid(
        segment_data(segment, left.position)[i],
    ) by {
        assert(data[i] == rest[i + 2]);
        assert(all[i + 2] == head[i + 2]);
    }
    let third = flags / 4 % 2 == 1;
    match segment {
        TimeControlSegment::Bezier(bezier) => {
            assert(data[0] == point_on_grid(segment_data(segment, left.position)[0]));
            assert(data[1] == point_on_grid(segment_data(segment, left.position)[1]));
            assert(data[2] == point_on_grid(segment_data(segment, left.position)[2]));
            assert(data[3] == point_on_grid(segment_data(segment, left.position)[3]));
        },
        TimeControlSegment::Elastic(elastic) => {
            assert(data[0] == point_on_grid(segment_data(segment, left.position)[0]));
            assert(data[1] == point_on_grid(segment_data(segment, left.position)[1]));
            assert(data[2] == point_on_grid(segment_data(segment, left.position)[2]));
        },
        TimeControlSegment::Bounce(bounce) => {
            assert(data[0] == point_on_grid(segment_data(segment, left.position)[0]));
            assert(data[1] == point_on_grid(segment_data(segment, left.position)[1]));
        },
    }
    assert(read_data(data, flags % 4, third) == Ok::<TimeControlSegment, CurveError>(
        segment_on_grid(segment),
    ));
    assert(rest[hidden as int] == point_on_grid(points[0])) by {
        assert(all[hidden as int] == points[0]);
    }
    assert(rest[hidden + points.len() - 1] == point_on_grid(points.last())) by {
        assert(all[hidden + points.len() - 1] == points.last());
    }
}

/// The first segments of a stored curve are a prefix of it.
proof fn lemma_store_prefix(
    curve: Curve,
    sampled: Seq<Result<Seq<CubicBezierSpan>, CurveError>>,
    m: nat,
    n: nat,
)
    requires
        m <= n,
        store_segments(curve, sampled, n) is Ok,
    ensures
        store_segments(curve, sampled, m) is Ok,
        store_segments(curve, sampled, m)->Ok_0.len() <= store_segments(
            curve,
            sampled,
            n,
        )->Ok_0.len(),
        store_segments(curve, sampled, n)->Ok_0.take(
            store_segments(curve, sampled, m)->Ok_0.len() as int,
        ) == store_segments(curve, sampled, m)->Ok_0,
    decreases n,
{
    if m < n {
        lemma_store_prefix(curve, sampled, m, (n - 1) as nat);
        let a = store_segments(curve, sampled, m)->Ok_0;
        let b = store_segments(curve, sampled, (n - 1) as nat)->Ok_0;
        let c = store_segments(curve, sampled, n)->Ok_0;
        assert(c.take(b.len() as int) =~= b);
        assert(c.take(a.len() as int) =~= b.take(a.len() as int));
    } else {
        let a = store_segments(curve, sampled, m)->Ok_0;
        assert(a.take(a.len() as int) =~= a);
    }
}

/// Where a stored segment lies among the control points.
pub proof fn lemma_stored_piece(
    curve: Curve,
    sampled: Seq<Result<Seq<CubicBezierSpan>, CurveError>>,
    points: Seq<ControlPoint>,
    m: nat,
)
    requires
        m < curve.segments.len(),
        store_segments(curve, sampled, curve.segments.len()) is Ok,
        points.len() >= 3,
        points.skip(3) == points_on_grid(
            store_segments(curve, sampled, curve.segments.len())->Ok_0,
        ),
    ensures
        ({
            let before = store_segments(curve, sampled, m)->Ok_0;
            let after = store_segments(curve, sampled, m + 1)->Ok_0;
            let samples = drawn(curve, sampled, m as int);
            let piece = segment_head(
                curve.segments[m as int],
                curve.points[m as int],
                samples.len(),
            ) + samples;
            let rest = points.skip((3 + before.len()) as int);
            &&& 2 <= samples.len() <= u16::MAX
            &&& after == before + piece
            &&& 3 + after.len() <= points.len()
            &&& piece.len() <= rest.len()
            &&& rest.take(piece.len() as int) == points_on_grid(piece)
        }),
{
    let all = store_segments(curve, sampled, curve.segments.len())->Ok_0;
    lemma_store_prefix(curve, sampled, m + 1, curve.segments.len());
    lemma_store_prefix(curve, sampled, m, m + 1);
    let before = store_segments(curve, sampled, m)->Ok_0;
    let after = store_segments(curve, sampled, m + 1)->Ok_0;
    let samples = drawn(curve, sampled, m as int);
    let piece = segment_head(curve.segments[m as int], curve.points[m as int], samples.len())
        + samples;
    assert(after == before + piece);
    let rest = points.skip((3 + before.len()) as int);
    let stored = points_on_grid(piece);
    assert(points.skip(3).len() == all.len());
    assert forall|i: int| 0 <= i < stored.len() implies rest[i] == stored[i] by {
        assert(rest[i] == points.skip(3)[before.len() + i]);
        assert(all.take(after.len() as int)[before.len() + i] == all[before.len() + i]);
        assert(after[before.len() + i] == piece[i]);
    }
    assert(rest.take(stored.len() as int) =~= stored);
}

/// Adding a stored segment to what is kept of those before it.
proof fn lemma_kept_grows(
    curve: Curve,
    sampled: Seq<Result<Seq<CubicBezierSpan>, CurveError>>,
    m: nat,
    found: StoredSegment,
)
    requires
        m < curve.segments.len(),
        found.segment == segment_on_grid(curve.segments[m as int]),
        found.separated == (curve.segments[m as int] is Bezier
            && curve.points[m as int].handles_separated),
        found.start == drawn_start(curve, sampled, m as int),
        found.end == drawn_end(curve, sampled, m as int),
    ensures
        (Curve {
            points: extended_points(kept(curve, sampled, m).points, found),
            segments: kept(curve, sampled, m).segments.push(found.segment),
        }) == kept(curve, sampled, m + 1),
{
    let c = kept(curve, sampled, m);
    let next = kept(curve, sampled, m + 1);
    let grown = extended_points(c.points, found);
    assert(c.segments.push(found.segment) =~= next.segments);
    if m == 0 {
        assert(grown =~= next.points);
    } else {
        assert(grown.len() == next.points.len());
        assert forall|i: int| 0 <= i < grown.len() implies grown[i] == next.points[i] by {
            if i < m {
                assert(grown[i] == c.points[i]);
            } else if i == m {
                assert(c.points.last().position == drawn_end(curve, sampled, m - 1));
            }
        }
        assert(grown =~= next.points);
    }
}

/// Reading arrives at what is kept of the first `n` segments.
proof fn lemma_read_stored_segments(
    curve: Curve,
    sampled: Seq<Result<Seq<CubicBezierSpan>, CurveError>>,
    points: Seq<ControlPoint>,
    n: nat,
)
    requires
        curve.well_formed(),
        store_segments(curve, sampled, curve.segments.len()) is Ok,
        is_connected(curve, sampled, n),
        points.len() <= usize::MAX,
        points.len() >= 3,
        points.skip(3) == points_on_grid(
            store_segments(curve, sampled, curve.segments.len())->Ok_0,
        ),
        n <= curve.segments.len(),
    ensures
        read_segments(Curve::blank(), points, 3) == read_segments(
            kept(curve, sampled, n),
            points,
            3 + store_segments(curve, sampled, n)->Ok_0.len(),
        ),
    decreases n,
{
    if n == 0 {
        assert(kept(curve, sampled, 0) =~= Curve::blank());
    } else {
        let m = (n - 1) as nat;
        lemma_read_stored_segments(curve, sampled, points, m);
        lemma_stored_piece(curve, sampled, points, m);
        let segment = curve.segments[m as int];
        let left = curve.points[m as int];
        let samples = drawn(curve, sampled, m as int);
        let at = 3 + store_segments(curve, sampled, m)->Ok_0.len();
        let rest = points.skip(at as int);
        lemma_read_segment(rest, at, segment, left, samples);
        let found = read_segment(rest, at)->Ok_0;
        lemma_kept_grows(curve, sampled, m, found);
        let c = kept(curve, sampled, m);
        if m > 0 {
            assert(is_joined(curve, sampled, m as int));
            assert(c.points.last().position == drawn_end(curve, sampled, m - 1));
        }
        assert(at + found.size == 3 + store_segments(curve, sampled, n)->Ok_0.len());
        assert(read_segments(c, points, at) == read_segments(
            kept(curve, sampled, n),
            points,
            (at + found.size) as nat,
        ));
    }
}

/// Reading stops where a segment is not drawn from where the one before it ends.
proof fn lemma_gap_stops_reading(
    curve: Curve,
    sampled: Seq<Result<Seq<CubicBezierSpan>, CurveError>>,
    points: Seq<ControlPoint>,
    m: nat,
)
    requires
        curve.well_formed(),
        store_segments(curve, sampled, curve.segments.len()) is Ok,
        points.len() <= usize::MAX,
        points.len() >= 3,
        points.skip(3) == points_on_grid(
            store_segments(curve, sampled, curve.segments.len())->Ok_0,
        ),
        0 < m < curve.segments.len(),
        is_connected(curve, sampled, m),
        !is_joined(curve, sampled, m as int),
    ensures
        read_segments(Curve::blank(), points, 3) == Err::<Curve, CurveError>(
            CurveError::Disconnected,
        ),
{
    lemma_read_stored_segments(curve, sampled, points, m);
    lemma_stored_piece(curve, sampled, points, m);
    let at = 3 + store_segments(curve, sampled, m)->Ok_0.len();
    let rest = points.skip(at as int);
    lemma_read_segment(
        rest,
        at,
        curve.segments[m as int],
        curve.points[m as int],
        drawn(curve, sampled, m as int),
    );
    let c = kept(curve, sampled, m);
    assert(c.points.last().position == drawn_end(curve, sampled, m - 1));
}

/// The first segment that is not drawn from where the one before it ends.
proof fn lemma_first_gap(
    curve: Curve,
    sampled: Seq<Result<Seq<CubicBezierSpan>, CurveError>>,
    n: nat,
) -> (m: nat)
    requires
        !is_connected(curve, sampled, n),
    ensures
        0 < m < n,
        is_connected(curve, sampled, m),
        !is_joined(curve, sampled, m as int),
    decreases n,
{
    let last = (n - 1) as nat;
    if is_connected(curve, sampled, last) {
        last
    } else {
        lemma_first_gap(curve, sampled, last)
    }
}

/// A stored curve is read back with all its numbers on the grid, if its segments
/// are drawn end to end; if they are not, it is refused as disconnected.
///
/// It holds as long as the control points can be counted. What is read back of
/// the points is where the segments were drawn. Of the separation of handles,
/// what is kept is that of the points that a Bezier segment leaves.
pub proof fn law_stored_curve_is_read_back(
    curve: Curve,
    sampled: Seq<Result<Seq<CubicBezierSpan>, CurveError>>,
    points: Seq<ControlPoint>,
)
    requires
        sampled.len() == curve.segments.len(),
        store_curve(curve, sampled) == Ok::<Seq<ControlPoint>, CurveError>(points),
        points.len() <= usize::MAX,
    ensures
        read_curve(points, points_hash(points.skip(3))) == if is_connected(
            curve,
            sampled,
            curve.segments.len(),
        ) {
            Ok::<Curve, CurveError>(kept(curve, sampled, curve.segments.len()))
        } else {
            Err(CurveError::Disconnected)
        },
        is_marked(points),
{
    let n = curve.segments.len();
    let payload = store_payload(curve, sampled)->Ok_0;
    let hash = points_hash(payload);
    assert(points.skip(3) =~= payload);
    lemma_marked(payload, hash);
    if is_connected(curve, sampled, n) {
        lemma_read_stored_segments(curve, sampled, points, n);
    } else {
        let m = lemma_first_gap(curve, sampled, n);
        lemma_gap_stops_reading(curve, sampled, points, m);
    }
}

/// Whether all segments of a curve are Bezier segments.
pub open spec fn is_all_bezier(curve: Curve) -> bool {
    forall|i: int| 0 <= i < curve.segments.len() ==> (#[trigger] curve.segments[i]) is Bezier
}

/// Whether all points of a curve have numbers for coordinates.
pub open spec fn has_positions(curve: Curve) -> bool {
    forall|i: int|
        0 <= i < curve.points.len() ==> !(#[trigger] curve.points[i]).position.x.nan()
            && !curve.points[i].position.y.nan()
}

/// The curve with its points and the parameters of its segments moved to the
/// grid, and linked handles at its last point.
pub open spec fn curve_on_grid(curve: Curve) -> Curve {
    Curve {
        points: Seq::new(
            curve.points.len(),
            |i: int|
                TimeControlPoint {
                    position: position_on_grid(curve.points[i].position),
                    handles_separated: i < curve.points.len() - 1
                        && curve.points[i].handles_separated,
                },
        ),
        segments: curve.segments.map_values(|segment: TimeControlSegment| segment_on_grid(segment)),
    }
}

/// Storing the first segments of a curve of Bezier segments.
proof fn lemma_bezier_segments(
    curve: Curve,
    sampled: Seq<Result<Seq<CubicBezierSpan>, CurveError>>,
    n: nat,
)
    requires
        curve.well_formed(),
        is_all_bezier(curve),
        n <= curve.segments.len(),
    ensures
        store_segments(curve, sampled, n) is Ok,
        store_segments(curve, sampled, n)->Ok_0.len() == 8 * n,
        forall|i: int|
            0 <= i < n ==> {
                &&& #[trigger] drawn_start(curve, sampled, i) == position_on_grid(
                    curve.points[i].position,
                )
                &&& drawn_end(curve, sampled, i) == position_on_grid(curve.points[i + 1].position)
            },
    decreases n,
{
    if n > 0 {
        let m = n - 1;
        lemma_bezier_segments(curve, sampled, m as nat);
        assert(curve.segments[m] is Bezier);
        let points = segment_points(
            curve.segments[m],
            curve.points[m].position,
            curve.points[m + 1].position,
            sampled[m],
        );
        assert(points is Ok && points->Ok_0.len() == 2);
    }
}

/// Bezier segments are drawn end to end.
proof fn lemma_bezier_segments_are_joined(
    curve: Curve,
    sampled: Seq<Result<Seq<CubicBezierSpan>, CurveError>>,
)
    requires
        curve.well_formed(),
        is_all_bezier(curve),
        has_positions(curve),
    ensures
        is_connected(curve, sampled, curve.segments.len()),
{
    let n = curve.segments.len();
    lemma_bezier_segments(curve, sampled, n);
    assert forall|i: int| 0 < i < n implies #[trigger] is_joined(curve, sampled, i) by {
        let at = position_on_grid(curve.points[i].position);
        assert(drawn_start(curve, sampled, i - 1) == position_on_grid(
            curve.points[i - 1].position,
        ));
        assert(drawn_end(curve, sampled, i - 1) == at);
        assert(drawn_start(curve, sampled, i) == at);
        assert(!curve.points[i].position.x.nan());
        lemma_grid_position(curve.points[i].position);
    }
}

/// What is kept of a curve of Bezier segments is all of it.
proof fn lemma_bezier_curve_is_kept(
    curve: Curve,
    sampled: Seq<Result<Seq<CubicBezierSpan>, CurveError>>,
)
    requires
        curve.well_formed(),
        is_all_bezier(curve),
    ensures
        kept(curve, sampled, curve.segments.len()) == curve_on_grid(curve),
{
    let n = curve.segments.len();
    lemma_bezier_segments(curve, sampled, n);
    let found = kept(curve, sampled, n);
    let target = curve_on_grid(curve);
    assert forall|i: int| 0 <= i < n + 1 implies found.points[i] == target.points[i] by {
        if i == 0 {
            assert(drawn_start(curve, sampled, 0) == position_on_grid(curve.points[0].position));
        } else {
            assert(drawn_start(curve, sampled, i - 1) == position_on_grid(
                curve.points[i - 1].position,
            ));
        }
        if i < n {
            assert(curve.segments[i] is Bezier);
        }
    }
    assert(found.points =~= target.points);
    assert(found.segments =~= target.segments);
}

/// A curve of Bezier segments can be stored.
proof fn lemma_bezier_curve_is_stored(
    curve: Curve,
    sampled: Seq<Result<Seq<CubicBezierSpan>, CurveError>>,
)
    requires
        curve.well_formed(),
        is_all_bezier(curve),
    ensures
        store_curve(curve, sampled) is Ok,
        store_curve(curve, sampled)->Ok_0.len() == 3 + 8 * curve.segments.len(),
{
    lemma_bezier_segments(curve, sampled, curve.segments.len());
}

/// Every well-formed curve of Bezier segments can be stored, and it is read back
/// with all its numbers on the grid.
///
/// It holds as long as the control points can be counted. A point that has a
/// coordinate which is not a number equals nothing, so that the segments on both
/// sides of it do not meet.
pub proof fn law_bezier_curve_is_read_back(
    curve: Curve,
    sampled: Seq<Result<Seq<CubicBezierSpan>, CurveError>>,
)
    requires
        curve.well_formed(),
        sampled.len() == curve.segments.len(),
        is_all_bezier(curve),
        has_positions(curve),
        3 + 8 * curve.segments.len() <= usize::MAX,
    ensures
        store_curve(curve, sampled) is Ok,
        ({
            let points = store_curve(curve, sampled)->Ok_0;
            &&& points.len() == 3 + 8 * curve.segments.len()
            &&& read_curve(points, points_hash(points.skip(3))) == Ok::<Curve, CurveError>(
                curve_on_grid(curve),
            )
        }),
{
    lemma_bezier_curve_is_stored(curve, sampled);
    let points = store_curve(curve, sampled)->Ok_0;
    lemma_bezier_segments_are_joined(curve, sampled);
    law_stored_curve_is_read_back(curve, sampled, points);
    lemma_bezier_curve_is_kept(curve, sampled);
}

/// A regular curve that is stored as a curve of this library is read back with all
/// its numbers on the grid.
///
/// It holds as long as the control points can be counted, and of points that have
/// numbers for coordinates.
pub proof fn law_regular_curve_is_read_back(
    points: Seq<ControlPoint>,
    sampled: Seq<Result<Seq<CubicBezierSpan>, CurveError>>,
)
    requires
        points.len() >= 2,
        sampled.len() == points.len() - 1,
        forall|i: int|
            0 <= i < points.len() ==> !(#[trigger] points[i]).coordinate.x.nan()
                && !points[i].coordinate.y.nan(),
        8 * points.len() - 5 <= usize::MAX,
    ensures
        ({
            let curve = regular_curve(points);
            let stored = store_curve(curve, sampled);
            &&& stored is Ok
            &&& read_curve(stored->Ok_0, points_hash(stored->Ok_0.skip(3))) == Ok::<
                Curve,
                CurveError,
            >(curve_on_grid(curve))
        }),
{
    let curve = regular_curve(points);
    assert forall|i: int| 0 <= i < curve.points.len() implies !(
    #[trigger] curve.points[i]).position.x.nan() && !curve.points[i].position.y.nan() by {
        assert(!points[i].coordinate.x.nan());
    }
    law_bezier_curve_is_read_back(curve, sampled);
}

/// The points that hold a stored curve's own data have no vertical handle, and
/// stand where their segment begins.
pub proof fn law_hidden_points_draw_nothing(
    curve: Curve,
    sampled: Seq<Result<Seq<CubicBezierSpan>, CurveError>>,
    points: Seq<ControlPoint>,
    m: nat,
    j: nat,
)
    requires
        sampled.len() == curve.segments.len(),
        store_curve(curve, sampled) == Ok::<Seq<ControlPoint>, CurveError>(points),
        m < curve.segments.len(),
        j < hidden_count(segment_mode(curve.segments[m as int])),
    ensures
        ({
            let at = 3 + store_segments(curve, sampled, m)->Ok_0.len() + j;
            &&& at < points.len()
            &&& points[at as int].handle_offset.y == Double { bits: 0 }
            &&& points[at as int].coordinate == position_on_grid(curve.points[m as int].position)
        }),
{
    let payload = store_payload(curve, sampled)->Ok_0;
    assert(points.skip(3) =~= payload);
    lemma_stored_piece(curve, sampled, points, m);
    let before = store_segments(curve, sampled, m)->Ok_0;
    let samples = drawn(curve, sampled, m as int);
    let head = segment_head(curve.segments[m as int], curve.points[m as int], samples.len());
    let piece = head + samples;
    let rest = points.skip((3 + before.len()) as int);
    let i = j as int;
    assert(head.len() == hidden_count(segment_mode(curve.segments[m as int])));
    assert(rest.take(piece.len() as int)[i] == points_on_grid(piece)[i]);
    assert(rest[i] == point_on_grid(head[i]));
    assert(head[i].handle_offset.y == Double { bits: 0 });
    lemma_count_on_grid(0);
    assert(whole(false, 0) == Double { bits: 0 }) by {
        assert(0 * one_step() == 0);
        lemma_magnitude_zero(0);
        lemma_rounded_exact(0, 1, 0);
    }
}

/// Control points whose payload was changed are refused, unless the change keeps
/// the hash.
pub proof fn law_changed_points_are_refused(
    payload: Seq<ControlPoint>,
    changed: Seq<ControlPoint>,
)
    requires
        points_hash(changed) != points_hash(payload),
    ensures
        ({
            let points = marked(payload, points_hash(payload)).take(3) + changed;
            read_curve(points, points_hash(points.skip(3))) == Err::<Curve, CurveError>(
                CurveError::HashMismatch {
                    expected: points_hash(payload),
                    actual: points_hash(changed),
                },
            )
        }),
{
    let whole = marked(payload, points_hash(payload));
    let points = whole.take(3) + changed;
    lemma_marked(payload, points_hash(payload));
    assert(points.skip(3) =~= changed);
    assert(points[0] == whole[0] && points[1] == whole[1] && points[2] == whole[2]);
}

/// Reading adds a point with each segment.
proof fn lemma_read_well_formed(curve: Curve, points: Seq<ControlPoint>, at: nat)
    requires
        curve == Curve::blank() || curve.well_formed(),
        read_segments(curve, points, at) is Ok,
    ensures
        read_segments(curve, points, at)->Ok_0.well_formed(),
    decreases points.len() - at,
{
    if at < points.len() {
        reveal(read_segment);
        let stored = read_segment(points.skip(at as int), at)->Ok_0;
        let next = Curve {
            points: extended_points(curve.points, stored),
            segments: curve.segments.push(stored.segment),
        };
        lemma_read_well_formed(next, points, (at + stored.size) as nat);
    }
}

/// Every curve that is read has at least one segment, and one more point than
/// segments.
pub proof fn law_read_curve_is_well_formed(points: Seq<ControlPoint>, hash: u32)
    requires
        read_curve(points, hash) is Ok,
    ensures
        read_curve(points, hash)->Ok_0.well_formed(),
{
    if is_marked(points) {
        lemma_read_well_formed(Curve::blank(), points, 3);
    }
}

/// Whether all numbers of a curve are moderate.
pub open spec fn is_curve_moderate(curve: Curve) -> bool {
    &&& forall|i: int|
        0 <= i < curve.points.len() ==> is_position_moderate(
            (#[trigger] curve.points[i]).position,
        )
    &&& forall|i: int|
        0 <= i < curve.segments.len() ==> match #[trigger] curve.segments[i] {
            TimeControlSegment::Bezier(bezier) => is_position_moderate(bezier.start_handle)
                && is_position_moderate(bezier.end_handle),
            TimeControlSegment::Elastic(elastic) => is_moderate(elastic.amplitude) && is_moderate(
                elastic.frequency,
            ) && is_moderate(elastic.decay),
            TimeControlSegment::Bounce(bounce) => is_position_moderate(bounce.vertex),
        }
}

/// Whether both coordinates of a position are moderate.
pub open spec fn is_position_moderate(p: Position) -> bool {
    is_moderate(p.x) && is_moderate(p.y)
}

/// A position that lies on the grid stays where it is.
proof fn lemma_position_is_stable(p: Position)
    requires
        is_position_moderate(p),
    ensures
        position_on_grid(position_on_grid(p)) == position_on_grid(p),
{
    law_grid_is_stable(p.x);
    law_grid_is_stable(p.y);
}

/// A curve of moderate numbers that was moved to the grid stays as it is, so that
/// storing and reading it again changes nothing.
pub proof fn law_curve_on_grid_is_stable(curve: Curve)
    requires
        is_curve_moderate(curve),
    ensures
        curve_on_grid(curve_on_grid(curve)) == curve_on_grid(curve),
{
    let once = curve_on_grid(curve);
    let twice = curve_on_grid(once);
    assert forall|i: int| 0 <= i < once.points.len() implies twice.points[i] == once.points[i] by {
        assert(is_position_moderate(curve.points[i].position));
        lemma_position_is_stable(curve.points[i].position);
    }
    assert(twice.points =~= once.points);
    assert forall|i: int| 0 <= i < once.segments.len() implies twice.segments[i]
        == once.segments[i] by {
        match curve.segments[i] {
            TimeControlSegment::Bezier(bezier) => {
                lemma_position_is_stable(bezier.start_handle);
                lemma_position_is_stable(bezier.end_handle);
            },
            TimeControlSegment::Elastic(elastic) => {
                law_grid_is_stable(elastic.amplitude);
                law_grid_is_stable(elastic.frequency);
                law_grid_is_stable(elastic.decay);
            },
            TimeControlSegment::Bounce(bounce) => {
                lemma_position_is_stable(bounce.vertex);
            },
        }
    }
    assert(twice.segments =~= once.segments);
}

/// The marking points mark a curve and hold its hash.
pub proof fn lemma_marked(payload: Seq<ControlPoint>, hash: u32)
    ensures
        is_marked(marked(payload, hash)),
        stored_hash(marked(payload, hash)) == hash,
        marked(payload, hash).skip(3) == payload,
{
    let points = marked(payload, hash);
    lemma_count_read_back((hash / 0x10000) as nat);
    lemma_count_read_back((hash % 0x10000) as nat);
    assert(points.skip(3) =~= payload);
    assert(points[1] == hidden(origin(), whole(false, (hash / 0x10000) as nat)));
    assert(points[2] == hidden(origin(), whole(false, (hash % 0x10000) as nat)));
}

/// Whether all numbers of a control point are moderate.
pub open spec fn is_point_moderate(p: ControlPoint) -> bool {
    is_position_moderate(p.coordinate) && is_position_moderate(p.handle_offset)
}

/// Moving control points of moderate numbers to the grid does not change the input
/// of their hash.
proof fn lemma_grid_keeps_hash_input(points: Seq<ControlPoint>)
    requires
        forall|i: int| 0 <= i < points.len() ==> is_point_moderate(#[trigger] points[i]),
    ensures
        hash_input(points_on_grid(points)) == hash_input(points),
    decreases points.len(),
{
    if points.len() > 0 {
        let p = points.last();
        lemma_grid_keeps_hash_input(points.drop_last());
        assert(points_on_grid(points).drop_last() =~= points_on_grid(points.drop_last()));
        assert(is_point_moderate(points[points.len() - 1]));
        law_grid_is_stable(p.coordinate.x);
        law_grid_is_stable(p.coordinate.y);
        law_grid_is_stable(p.handle_offset.x);
        law_grid_is_stable(p.handle_offset.y);
    }
}

/// Moving control points of moderate numbers to the grid does not change their
/// hash.
pub proof fn law_grid_keeps_the_hash(points: Seq<ControlPoint>)
    requires
        forall|i: int| 0 <= i < points.len() ==> is_point_moderate(#[trigger] points[i]),
    ensures
        points_hash(points_on_grid(points)) == points_hash(points),
{
    lemma_grid_keeps_hash_input(points);
}

/// Three points at the origin are never read as a regular curve, and nothing else
/// is looked at to recognise a stored one.
pub proof fn law_origin_marks_a_stored_curve(points: Seq<ControlPoint>, hash: u32)
    ensures
        read_stored(points, hash) == Ok::<Option<Curve>, CurveError>(None) <==> !(points.len() >= 3
            && points[0].coordinate.same(origin()) && points[1].coordinate.same(origin())
            && points[2].coordinate.same(origin())),
{
}

} // verus!
