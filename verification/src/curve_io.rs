//! Reading curves from the control points of a track, and storing them there.
//!
//! A track's control points describe a plain Bezier curve. A curve of this
//! library is stored as such control points too, with its own data hidden in
//! points that draw nothing:
//!
//! - Three points at the origin mark the curve, whatever their handles are: no
//!   curve that is drawn by hand begins with them. The handle of the first is
//!   written as `(1, 0)` and is not read. The horizontal handles of the second
//!   and third hold the upper and the lower half of the hash of all points that
//!   follow.
//! - Each segment follows with a header of two points, two to four data points,
//!   and its sampled points. The horizontal handles of the header hold the
//!   number of sampled points and the flags. The lowest two bits of the flags
//!   name the kind of segment; the next one says whether the handles of a Bezier
//!   segment's left point are separated, or whether another segment is reversed.
//!   The horizontal handles of the data points hold the segment's parameters.
//!   The first and the last sampled point are the ends of the segment.
use crate::curve::{
    segment_mode, Curve, Position, TimeControl, TimeControlBezier, TimeControlBounce,
    TimeControlElastic, TimeControlMode, TimeControlPoint, TimeControlSegment,
};
use crate::conversion::whole;
use crate::double::Double;
use crate::error::CurveError;
use crate::numbers::ONE;
use crate::quantization::{curve_hash, points_hash, points_on_grid, round_curve_points};
use crate::spans::{
    offset, scale_span, scaled, shifted, span_points, spans_to_points, ControlPoint,
    CubicBezierSpan,
};
use vstd::prelude::*;
use vstd::slice::*;

verus! {

/// What reading a curve gives, with the curve's contents in place of the curve.
pub open spec fn read_view(r: Result<TimeControl, CurveError>) -> Result<Curve, CurveError> {
    match r {
        Ok(curve) => Ok(curve@),
        Err(e) => Err(e),
    }
}

/// What looking for a stored curve gives, with the curve's contents in place of
/// the curve.
pub open spec fn stored_view(r: Result<Option<TimeControl>, CurveError>) -> Result<
    Option<Curve>,
    CurveError,
> {
    match r {
        Ok(Some(curve)) => Ok(Some(curve@)),
        Ok(None) => Ok(None),
        Err(e) => Err(e),
    }
}

// Regular curves.

/// The segment between two neighbouring control points.
pub open spec fn regular_segment(start: ControlPoint, end: ControlPoint) -> TimeControlSegment {
    TimeControlSegment::Bezier(
        TimeControlBezier {
            start_handle: shifted(start.coordinate, start.handle_offset),
            end_handle: offset(end.coordinate, end.handle_offset),
        },
    )
}

/// The curve that control points describe by themselves: a point for each, with
/// linked handles, and Bezier segments between them.
pub open spec fn regular_curve(points: Seq<ControlPoint>) -> Curve {
    Curve {
        points: points.map_values(
            |p: ControlPoint|
                TimeControlPoint { position: p.coordinate, handles_separated: false },
        ),
        segments: Seq::new(
            (points.len() - 1) as nat,
            |i: int| regular_segment(points[i], points[i + 1]),
        ),
    }
}

/// The result of reading control points as a regular curve.
pub open spec fn read_regular(points: Seq<ControlPoint>) -> Result<Curve, CurveError> {
    if points.len() < 2 {
        Err(CurveError::RegularTooShort)
    } else {
        Ok(regular_curve(points))
    }
}

pub fn load_regular_curve_from_points(points: &[ControlPoint]) -> (r: Result<
    TimeControl,
    CurveError,
>)
    ensures
        read_view(r) == read_regular(points@),
{
    if points.len() < 2 {
        return Err(CurveError::RegularTooShort);
    }
    let mut curve_points: Vec<TimeControlPoint> = Vec::new();
    let mut segments: Vec<TimeControlSegment> = Vec::new();
    let ghost target = regular_curve(points@);
    let mut i: usize = 0;
    while i < points.len()
        invariant
            i <= points.len(),
            points.len() >= 2,
            target == regular_curve(points@),
            curve_points@ == target.points.take(i as int),
            segments@ == target.segments.take(
                if i == 0 {
                    0
                } else {
                    i - 1
                },
            ),
        decreases points.len() - i,
    {
        let end = points[i];
        if i > 0 {
            let start = points[i - 1];
            segments.push(
                TimeControlSegment::Bezier(
                    TimeControlBezier {
                        start_handle: start.coordinate.plus(start.handle_offset),
                        end_handle: end.coordinate.minus(end.handle_offset),
                    },
                ),
            );
        }
        curve_points.push(TimeControlPoint { position: end.coordinate, handles_separated: false });
        i = i + 1;
    }
    let curve = TimeControl { points: curve_points, segments };
    assert(curve@ =~= target);
    Ok(curve)
}

// Stored curves.

/// The origin.
pub open spec fn origin() -> Position {
    Position { x: Double { bits: 0 }, y: Double { bits: 0 } }
}

/// The handle that the first marking point is written with.
pub open spec fn mark() -> Position {
    Position { x: Double { bits: ONE }, y: Double { bits: 0 } }
}

/// Whether control points hold a stored curve: the first three are at the origin.
pub open spec fn is_marked(points: Seq<ControlPoint>) -> bool {
    &&& points.len() >= 3
    &&& points[0].coordinate.same(origin())
    &&& points[1].coordinate.same(origin())
    &&& points[2].coordinate.same(origin())
}

/// The 16-bit number in a point's horizontal handle.
pub open spec fn stored_u16(p: ControlPoint) -> nat {
    p.handle_offset.x.rounded_whole().saturated(u16::MAX as nat)
}

/// The count in a point's horizontal handle.
pub open spec fn stored_count(p: ControlPoint) -> nat {
    p.handle_offset.x.rounded_whole().saturated(usize::MAX as nat)
}

/// The hash that the marking points hold.
pub open spec fn stored_hash(points: Seq<ControlPoint>) -> u32 {
    (stored_u16(points[1]) * 0x10000 + stored_u16(points[2])) as u32
}

/// The segment that the data points hold.
pub open spec fn read_data(data: Seq<ControlPoint>, mode: nat, third_bit: bool) -> Result<
    TimeControlSegment,
    CurveError,
> {
    if mode == 0 {
        if data.len() < 1 {
            Err(CurveError::MissingBezierStartHandleX)
        } else if data.len() < 2 {
            Err(CurveError::MissingBezierStartHandleY)
        } else if data.len() < 3 {
            Err(CurveError::MissingBezierEndHandleX)
        } else if data.len() < 4 {
            Err(CurveError::MissingBezierEndHandleY)
        } else {
            Ok(
                TimeControlSegment::Bezier(
                    TimeControlBezier {
                        start_handle: Position {
                            x: data[0].handle_offset.x,
                            y: data[1].handle_offset.x,
                        },
                        end_handle: Position {
                            x: data[2].handle_offset.x,
                            y: data[3].handle_offset.x,
                        },
                    },
                ),
            )
        }
    } else if mode == 1 {
        if data.len() < 1 {
            Err(CurveError::MissingElasticAmplitude)
        } else if data.len() < 2 {
            Err(CurveError::MissingElasticFrequency)
        } else if data.len() < 3 {
            Err(CurveError::MissingElasticDecay)
        } else {
            Ok(
                TimeControlSegment::Elastic(
                    TimeControlElastic {
                        reversed: third_bit,
                        amplitude: data[0].handle_offset.x,
                        frequency: data[1].handle_offset.x,
                        decay: data[2].handle_offset.x,
                    },
                ),
            )
        }
    } else if mode == 2 {
        if data.len() < 1 {
            Err(CurveError::MissingBounceVertexX)
        } else if data.len() < 2 {
            Err(CurveError::MissingBounceVertexY)
        } else {
            Ok(
                TimeControlSegment::Bounce(
                    TimeControlBounce {
                        reversed: third_bit,
                        vertex: Position {
                            x: data[0].handle_offset.x,
                            y: data[1].handle_offset.x,
                        },
                    },
                ),
            )
        }
    } else {
        Err(CurveError::InvalidHandleType)
    }
}

/// The number of header and data points of a kind of segment.
pub open spec fn hidden_count(mode: TimeControlMode) -> nat {
    match mode {
        TimeControlMode::Bezier => 6,
        TimeControlMode::Elastic => 5,
        TimeControlMode::Bounce => 4,
    }
}

/// A segment as it is stored.
#[derive(Clone, Copy, Debug, PartialEq, Eq, Structural)]
pub struct StoredSegment {
    pub segment: TimeControlSegment,
    /// Whether the handles of the point that the segment leaves are separated.
    pub separated: bool,
    pub start: Position,
    pub end: Position,
    /// How many control points hold the segment.
    pub size: usize,
}

/// Reads the segment that `rest` begins with, `at` points into the track.
#[verifier::opaque]
pub open spec fn read_segment(rest: Seq<ControlPoint>, at: nat) -> Result<
    StoredSegment,
    CurveError,
> {
    if rest.len() < 2 {
        Err(CurveError::MissingFlags)
    } else {
        let count = stored_count(rest[0]);
        let flags = stored_u16(rest[1]);
        let third_bit = flags / 4 % 2 == 1;
        match read_data(rest.skip(2), flags % 4, third_bit) {
            Err(e) => Err(e),
            Ok(segment) => {
                let hidden = hidden_count(segment_mode(segment));
                if count < 2 {
                    Err(CurveError::TooFewSampledPoints)
                } else if at + hidden + count > usize::MAX {
                    Err(CurveError::PointCountOverflow)
                } else if hidden + count > rest.len() {
                    Err(CurveError::TruncatedSampledPoints)
                } else {
                    Ok(
                        StoredSegment {
                            segment,
                            separated: segment is Bezier && third_bit,
                            start: rest[hidden as int].coordinate,
                            end: rest[hidden + count - 1].coordinate,
                            size: (hidden + count) as usize,
                        },
                    )
                }
            },
        }
    }
}

/// The points of a curve to which a segment is added on the right.
pub open spec fn extended_points(
    points: Seq<TimeControlPoint>,
    stored: StoredSegment,
) -> Seq<TimeControlPoint> {
    let left = if points.len() == 0 {
        seq![TimeControlPoint { position: stored.start, handles_separated: stored.separated }]
    } else {
        points.drop_last().push(
            TimeControlPoint {
                position: points.last().position,
                handles_separated: stored.separated,
            },
        )
    };
    left.push(TimeControlPoint { position: stored.end, handles_separated: false })
}

/// Adds the segments that the points from `at` on hold to a curve.
pub open spec fn read_segments(curve: Curve, points: Seq<ControlPoint>, at: nat) -> Result<
    Curve,
    CurveError,
>
    decreases points.len() - at,
{
    if at >= points.len() {
        if curve.segments.len() == 0 {
            Err(CurveError::NoStoredSegments)
        } else {
            Ok(curve)
        }
    } else {
        proof {
            reveal(read_segment);
        }
        match read_segment(points.skip(at as int), at) {
            Err(e) => Err(e),
            Ok(stored) => if curve.points.len() > 0 && !curve.points.last().position.same(
                stored.start,
            ) {
                Err(CurveError::Disconnected)
            } else {
                read_segments(
                    Curve {
                        points: extended_points(curve.points, stored),
                        segments: curve.segments.push(stored.segment),
                    },
                    points,
                    (at + stored.size) as nat,
                )
            },
        }
    }
}

/// The result of looking for a stored curve in control points whose hash, from
/// the fourth on, is `hash`.
pub open spec fn read_stored(points: Seq<ControlPoint>, hash: u32) -> Result<
    Option<Curve>,
    CurveError,
> {
    if !is_marked(points) {
        Ok(None)
    } else if hash != stored_hash(points) {
        Err(CurveError::HashMismatch { expected: stored_hash(points), actual: hash })
    } else {
        match read_segments(Curve::blank(), points, 3) {
            Ok(curve) => Ok(Some(curve)),
            Err(e) => Err(e),
        }
    }
}

fn read_data_points(
    points: &[ControlPoint],
    cursor: usize,
    mode: u16,
    third_bit: bool,
) -> (r: Result<TimeControlSegment, CurveError>)
    requires
        cursor <= points.len(),
    ensures
        r == read_data(points@.skip(cursor as int), mode as nat, third_bit),
{
    let left: usize = points.len() - cursor;
    let ghost data = points@.skip(cursor as int);
    assert(forall|i: int| 0 <= i < left ==> data[i] == points@[cursor + i]);
    if mode == 0 {
        if left < 1 {
            Err(CurveError::MissingBezierStartHandleX)
        } else if left < 2 {
            Err(CurveError::MissingBezierStartHandleY)
        } else if left < 3 {
            Err(CurveError::MissingBezierEndHandleX)
        } else if left < 4 {
            Err(CurveError::MissingBezierEndHandleY)
        } else {
            Ok(
                TimeControlSegment::Bezier(
                    TimeControlBezier {
                        start_handle: Position {
                            x: points[cursor].handle_offset.x,
                            y: points[cursor + 1].handle_offset.x,
                        },
                        end_handle: Position {
                            x: points[cursor + 2].handle_offset.x,
                            y: points[cursor + 3].handle_offset.x,
                        },
                    },
                ),
            )
        }
    } else if mode == 1 {
        if left < 1 {
            Err(CurveError::MissingElasticAmplitude)
        } else if left < 2 {
            Err(CurveError::MissingElasticFrequency)
        } else if left < 3 {
            Err(CurveError::MissingElasticDecay)
        } else {
            Ok(
                TimeControlSegment::Elastic(
                    TimeControlElastic {
                        reversed: third_bit,
                        amplitude: points[cursor].handle_offset.x,
                        frequency: points[cursor + 1].handle_offset.x,
                        decay: points[cursor + 2].handle_offset.x,
                    },
                ),
            )
        }
    } else if mode == 2 {
        if left < 1 {
            Err(CurveError::MissingBounceVertexX)
        } else if left < 2 {
            Err(CurveError::MissingBounceVertexY)
        } else {
            Ok(
                TimeControlSegment::Bounce(
                    TimeControlBounce {
                        reversed: third_bit,
                        vertex: Position {
                            x: points[cursor].handle_offset.x,
                            y: points[cursor + 1].handle_offset.x,
                        },
                    },
                ),
            )
        }
    } else {
        Err(CurveError::InvalidHandleType)
    }
}

fn is_stored_curve(points: &[ControlPoint]) -> (r: bool)
    ensures
        r == is_marked(points@),
{
    let zero = Double::from_bits(0);
    let corner = Position { x: zero, y: zero };
    points.len() >= 3 && points[0].coordinate.equals(corner) && points[1].coordinate.equals(corner)
        && points[2].coordinate.equals(corner)
}

/// Reads the segment that begins at `cursor`.
fn read_stored_segment(points: &[ControlPoint], cursor: usize) -> (r: Result<
    StoredSegment,
    CurveError,
>)
    requires
        cursor <= points.len(),
    ensures
        r == read_segment(points@.skip(cursor as int), cursor as nat),
        r matches Ok(stored) ==> 0 < stored.size <= points.len() - cursor,
{
    proof {
        reveal(read_segment);
    }
    let ghost rest = points@.skip(cursor as int);
    if points.len() - cursor < 2 {
        return Err(CurveError::MissingFlags);
    }
    let point_count: usize = points[cursor].handle_offset.x.round().to_usize();
    let bitflags: u16 = points[cursor + 1].handle_offset.x.round().to_u16();
    let third_bit: bool = bitflags / 4 % 2 == 1;
    assert(points@.skip(cursor + 2) =~= rest.skip(2));
    let segment = match read_data_points(points, cursor + 2, bitflags % 4, third_bit) {
        Ok(segment) => segment,
        Err(e) => {
            return Err(e);
        },
    };
    let (hidden, is_bezier): (usize, bool) = match segment {
        TimeControlSegment::Bezier(_) => (6, true),
        TimeControlSegment::Elastic(_) => (5, false),
        TimeControlSegment::Bounce(_) => (4, false),
    };
    if point_count < 2 {
        return Err(CurveError::TooFewSampledPoints);
    }
    let first: usize = cursor + hidden;
    if point_count > usize::MAX - first {
        return Err(CurveError::PointCountOverflow);
    }
    if point_count > points.len() - first {
        return Err(CurveError::TruncatedSampledPoints);
    }
    Ok(
        StoredSegment {
            segment,
            separated: is_bezier && third_bit,
            start: points[first].coordinate,
            end: points[first + point_count - 1].coordinate,
            size: hidden + point_count,
        },
    )
}

/// Looks for a stored curve in control points whose hash, from the fourth on, is
/// `hash`.
pub fn load_hashed_curve_from_points(points: &[ControlPoint], hash: u32) -> (r: Result<
    Option<TimeControl>,
    CurveError,
>)
    ensures
        stored_view(r) == read_stored(points@, hash),
{
    if !is_stored_curve(points) {
        return Ok(None);
    }
    let upper: u16 = points[1].handle_offset.x.round().to_u16();
    let lower: u16 = points[2].handle_offset.x.round().to_u16();
    let expected: u32 = upper as u32 * 0x10000 + lower as u32;
    if hash != expected {
        return Err(CurveError::HashMismatch { expected, actual: hash });
    }
    let mut curve = TimeControl { points: Vec::new(), segments: Vec::new() };
    let mut cursor: usize = 3;
    let ghost target = read_segments(Curve::blank(), points@, 3);
    assert(curve@ =~= Curve::blank());
    while cursor < points.len()
        invariant
            cursor <= points.len(),
            is_marked(points@),
            hash == stored_hash(points@),
            target == read_segments(Curve::blank(), points@, 3),
            target == read_segments(curve@, points@, cursor as nat),
        decreases points.len() - cursor,
    {
        let ghost before = curve@;
        let stored = match read_stored_segment(points, cursor) {
            Ok(stored) => stored,
            Err(e) => {
                return Err(e);
            },
        };
        let known: usize = curve.points.len();
        if known > 0 {
            let last = curve.points[known - 1];
            if !last.position.equals(stored.start) {
                return Err(CurveError::Disconnected);
            }
            curve.points.set(
                known - 1,
                TimeControlPoint {
                    position: last.position,
                    handles_separated: stored.separated,
                },
            );
        } else {
            curve.points.push(
                TimeControlPoint {
                    position: stored.start,
                    handles_separated: stored.separated,
                },
            );
        }
        curve.points.push(TimeControlPoint { position: stored.end, handles_separated: false });
        curve.segments.push(stored.segment);
        cursor = cursor + stored.size;
        assert(curve@ =~= Curve {
            points: extended_points(before.points, stored),
            segments: before.segments.push(stored.segment),
        });
    }
    if curve.segments.len() == 0 {
        return Err(CurveError::NoStoredSegments);
    }
    Ok(Some(curve))
}

pub fn load_customized_curve_from_points(points: &[ControlPoint]) -> (r: Result<
    Option<TimeControl>,
    CurveError,
>)
    ensures
        stored_view(r) == read_stored(points@, points_hash(points@.skip(3))),
{
    if points.len() < 3 {
        return Ok(None);
    }
    let payload = slice_subrange(points, 3, points.len());
    assert(payload@ =~= points@.skip(3));
    load_hashed_curve_from_points(points, curve_hash(payload))
}

/// The result of reading a curve from control points of which the hash, from the
/// fourth on, is `hash`: the stored curve, or else the regular one.
pub open spec fn read_curve(points: Seq<ControlPoint>, hash: u32) -> Result<Curve, CurveError> {
    match read_stored(points, hash) {
        Ok(Some(curve)) => Ok(curve),
        Ok(None) => read_regular(points),
        Err(e) => Err(e),
    }
}

pub fn parse_curve_from_track(points: &[ControlPoint]) -> (r: Result<TimeControl, CurveError>)
    ensures
        read_view(r) == read_curve(points@, points_hash(points@.skip(3))),
{
    match load_customized_curve_from_points(points) {
        Ok(Some(curve)) => Ok(curve),
        Ok(None) => load_regular_curve_from_points(points),
        Err(e) => Err(e),
    }
}

// Storing curves.

/// A point that draws nothing and holds a number in its horizontal handle.
pub open spec fn hidden(at: Position, value: Double) -> ControlPoint {
    ControlPoint { coordinate: at, handle_offset: Position { x: value, y: Double { bits: 0 } } }
}

pub fn hidden_point(x: Double, y: Double, value: Double) -> (r: ControlPoint)
    ensures
        r == hidden(Position { x, y }, value),
{
    ControlPoint {
        coordinate: Position { x, y },
        handle_offset: Position { x: value, y: Double::from_bits(0) },
    }
}

pub fn encode_u16(value: u16) -> (r: Double)
    ensures
        r == whole(false, value as nat),
{
    Double::from_u64(value as u64)
}

/// The spans of a sampled segment, or why it has none.
pub open spec fn spans_view(r: Result<Vec<CubicBezierSpan>, CurveError>) -> Result<
    Seq<CubicBezierSpan>,
    CurveError,
> {
    match r {
        Ok(spans) => Ok(spans@),
        Err(e) => Err(e),
    }
}

/// The spans of each sampled segment.
pub open spec fn sampled_view(sampled: Seq<Result<Vec<CubicBezierSpan>, CurveError>>) -> Seq<
    Result<Seq<CubicBezierSpan>, CurveError>,
> {
    sampled.map_values(|r: Result<Vec<CubicBezierSpan>, CurveError>| spans_view(r))
}

/// The spans of a segment between two points. `sampled` are the spans of an
/// elastic or bounce segment in the unit square.
pub open spec fn segment_spans(
    segment: TimeControlSegment,
    start: Position,
    end: Position,
    sampled: Seq<CubicBezierSpan>,
) -> Seq<CubicBezierSpan> {
    match segment {
        TimeControlSegment::Bezier(bezier) => seq![
            CubicBezierSpan {
                start,
                start_handle: bezier.start_handle,
                end_handle: bezier.end_handle,
                end,
            },
        ],
        _ => sampled.map_values(|span: CubicBezierSpan| scaled(span, start, end)),
    }
}

/// The control points that draw a segment between two points.
pub open spec fn segment_points(
    segment: TimeControlSegment,
    start: Position,
    end: Position,
    sampled: Result<Seq<CubicBezierSpan>, CurveError>,
) -> Result<Seq<ControlPoint>, CurveError> {
    if !(segment is Bezier) && sampled is Err {
        Err(sampled->Err_0)
    } else {
        let points = span_points(segment_spans(segment, start, end, sampled->Ok_0));
        if 2 <= points.len() <= u16::MAX {
            Ok(points)
        } else {
            Err(CurveError::PointCountOutOfRange)
        }
    }
}

/// What making control points gives, with a sequence in place of the vector.
pub open spec fn points_view(r: Result<Vec<ControlPoint>, CurveError>) -> Result<
    Seq<ControlPoint>,
    CurveError,
> {
    match r {
        Ok(points) => Ok(points@),
        Err(e) => Err(e),
    }
}

/// The control points that draw a segment between two points. `sampled` are the
/// spans of an elastic or bounce segment in the unit square, or the reason why
/// it could not be sampled; a Bezier segment does not read them.
pub fn serialize_segment_curve_points(
    segment: &TimeControlSegment,
    start: Position,
    end: Position,
    sampled: &Result<Vec<CubicBezierSpan>, CurveError>,
) -> (r: Result<Vec<ControlPoint>, CurveError>)
    ensures
        points_view(r) == segment_points(*segment, start, end, spans_view(*sampled)),
{
    let mut spans: Vec<CubicBezierSpan> = Vec::new();
    match segment {
        TimeControlSegment::Bezier(bezier) => {
            spans.push(
                CubicBezierSpan {
                    start,
                    start_handle: bezier.start_handle,
                    end_handle: bezier.end_handle,
                    end,
                },
            );
            assert(spans@ =~= segment_spans(*segment, start, end, spans_view(*sampled)->Ok_0));
        },
        _ => match sampled {
            Err(e) => {
                return Err(*e);
            },
            Ok(unit) => {
                let mut i: usize = 0;
                while i < unit.len()
                    invariant
                        i <= unit.len(),
                        spans@ == unit@.map_values(
                            |span: CubicBezierSpan| scaled(span, start, end),
                        ).take(i as int),
                    decreases unit.len() - i,
                {
                    spans.push(scale_span(unit[i], start, end));
                    i = i + 1;
                }
                assert(spans@ =~= segment_spans(*segment, start, end, unit@));
            },
        },
    }
    let points = spans_to_points(spans);
    if points.len() >= 2 && points.len() <= u16::MAX as usize {
        Ok(points)
    } else {
        Err(CurveError::PointCountOutOfRange)
    }
}

/// The flags of a segment that leaves a point with the given handles.
pub open spec fn segment_flags(segment: TimeControlSegment, separated: bool) -> nat {
    let (mode, third_bit) = match segment {
        TimeControlSegment::Bezier(_) => (0nat, separated),
        TimeControlSegment::Elastic(elastic) => (1nat, elastic.reversed),
        TimeControlSegment::Bounce(bounce) => (2nat, bounce.reversed),
    };
    if third_bit {
        mode + 4
    } else {
        mode
    }
}

/// The data points of a segment.
pub open spec fn segment_data(segment: TimeControlSegment, at: Position) -> Seq<ControlPoint> {
    match segment {
        TimeControlSegment::Bezier(bezier) => seq![
            hidden(at, bezier.start_handle.x),
            hidden(at, bezier.start_handle.y),
            hidden(at, bezier.end_handle.x),
            hidden(at, bezier.end_handle.y),
        ],
        TimeControlSegment::Elastic(elastic) => seq![
            hidden(at, elastic.amplitude),
            hidden(at, elastic.frequency),
            hidden(at, elastic.decay),
        ],
        TimeControlSegment::Bounce(bounce) => seq![
            hidden(at, bounce.vertex.x),
            hidden(at, bounce.vertex.y),
        ],
    }
}

/// The header and data points of a segment that has `count` sampled points.
pub open spec fn segment_head(
    segment: TimeControlSegment,
    left: TimeControlPoint,
    count: nat,
) -> Seq<ControlPoint> {
    seq![
        hidden(left.position, whole(false, count)),
        hidden(left.position, whole(false, segment_flags(segment, left.handles_separated))),
    ] + segment_data(segment, left.position)
}

/// The control points that hold a segment from one point to another.
pub open spec fn store_segment(
    segment: TimeControlSegment,
    left: TimeControlPoint,
    right: TimeControlPoint,
    sampled: Result<Seq<CubicBezierSpan>, CurveError>,
) -> Result<Seq<ControlPoint>, CurveError> {
    match segment_points(segment, left.position, right.position, sampled) {
        Err(e) => Err(e),
        Ok(points) => Ok(segment_head(segment, left, points.len()) + points),
    }
}

/// The control points that hold the first `n` segments of a curve.
pub open spec fn store_segments(
    curve: Curve,
    sampled: Seq<Result<Seq<CubicBezierSpan>, CurveError>>,
    n: nat,
) -> Result<Seq<ControlPoint>, CurveError>
    decreases n,
{
    if n == 0 {
        Ok(Seq::empty())
    } else {
        let i = n - 1;
        match store_segments(curve, sampled, (n - 1) as nat) {
            Err(e) => Err(e),
            Ok(before) => match store_segment(
                curve.segments[i],
                curve.points[i],
                curve.points[i + 1],
                sampled[i],
            ) {
                Err(e) => Err(e),
                Ok(points) => Ok(before + points),
            },
        }
    }
}

/// The control points that hold a curve, from the fourth on.
pub open spec fn store_payload(
    curve: Curve,
    sampled: Seq<Result<Seq<CubicBezierSpan>, CurveError>>,
) -> Result<Seq<ControlPoint>, CurveError> {
    if curve.segments.len() == 0 {
        Err(CurveError::NothingToStore)
    } else if curve.points.len() != curve.segments.len() + 1 {
        Err(CurveError::Inconsistent)
    } else {
        match store_segments(curve, sampled, curve.segments.len()) {
            Err(e) => Err(e),
            Ok(payload) => Ok(points_on_grid(payload)),
        }
    }
}

/// The control points with the marking points before them.
pub open spec fn marked(payload: Seq<ControlPoint>, hash: u32) -> Seq<ControlPoint> {
    seq![
        ControlPoint { coordinate: origin(), handle_offset: mark() },
        hidden(origin(), whole(false, (hash / 0x10000) as nat)),
        hidden(origin(), whole(false, (hash % 0x10000) as nat)),
    ] + payload
}

/// The control points that hold a curve.
pub open spec fn store_curve(
    curve: Curve,
    sampled: Seq<Result<Seq<CubicBezierSpan>, CurveError>>,
) -> Result<Seq<ControlPoint>, CurveError> {
    match store_payload(curve, sampled) {
        Err(e) => Err(e),
        Ok(payload) => Ok(marked(payload, points_hash(payload))),
    }
}

/// Adds the header and data points of a segment to the payload.
fn push_head(
    payload: &mut Vec<ControlPoint>,
    segment: &TimeControlSegment,
    left: TimeControlPoint,
    count: u16,
)
    ensures
        final(payload)@ == old(payload)@ + segment_head(*segment, left, count as nat),
{
    let x = left.position.x;
    let y = left.position.y;
    let (mode_bits, third_bit): (u16, bool) = match segment {
        TimeControlSegment::Bezier(_) => (0, left.handles_separated),
        TimeControlSegment::Elastic(elastic) => (1, elastic.reversed),
        TimeControlSegment::Bounce(bounce) => (2, bounce.reversed),
    };
    let bitflags: u16 = if third_bit {
        mode_bits + 4
    } else {
        mode_bits
    };
    let ghost before = payload@;
    payload.push(hidden_point(x, y, encode_u16(count)));
    payload.push(hidden_point(x, y, encode_u16(bitflags)));
    match segment {
        TimeControlSegment::Bezier(bezier) => {
            payload.push(hidden_point(x, y, bezier.start_handle.x));
            payload.push(hidden_point(x, y, bezier.start_handle.y));
            payload.push(hidden_point(x, y, bezier.end_handle.x));
            payload.push(hidden_point(x, y, bezier.end_handle.y));
        },
        TimeControlSegment::Elastic(elastic) => {
            payload.push(hidden_point(x, y, elastic.amplitude));
            payload.push(hidden_point(x, y, elastic.frequency));
            payload.push(hidden_point(x, y, elastic.decay));
        },
        TimeControlSegment::Bounce(bounce) => {
            payload.push(hidden_point(x, y, bounce.vertex.x));
            payload.push(hidden_point(x, y, bounce.vertex.y));
        },
    }
    assert(payload@ =~= before + segment_head(*segment, left, count as nat));
}

/// The control points that hold a curve, from the fourth on. `sampled` holds,
/// for each elastic or bounce segment, its spans in the unit square, or the
/// reason why it could not be sampled.
pub fn serialize_curve_payload(
    curve: &TimeControl,
    sampled: &Vec<Result<Vec<CubicBezierSpan>, CurveError>>,
) -> (r: Result<Vec<ControlPoint>, CurveError>)
    requires
        sampled.len() == curve.segments.len(),
    ensures
        points_view(r) == store_payload(curve@, sampled_view(sampled@)),
{
    if curve.segments.len() == 0 {
        return Err(CurveError::NothingToStore);
    }
    if curve.points.len() == 0 || curve.points.len() - 1 != curve.segments.len() {
        return Err(CurveError::Inconsistent);
    }
    let ghost target = store_segments(curve@, sampled_view(sampled@), curve@.segments.len());
    let mut payload: Vec<ControlPoint> = Vec::new();
    let mut i: usize = 0;
    while i < curve.segments.len()
        invariant
            i <= curve.segments.len(),
            sampled.len() == curve.segments.len(),
            curve.points.len() == curve.segments.len() + 1,
            store_segments(curve@, sampled_view(sampled@), i as nat) == Ok::<
                Seq<ControlPoint>,
                CurveError,
            >(payload@),
            curve@.segments.len() > 0,
        decreases curve.segments.len() - i,
    {
        let segment = curve.segments[i];
        let left = curve.points[i];
        let right = curve.points[i + 1];
        let mut curve_points = match serialize_segment_curve_points(
            &segment,
            left.position,
            right.position,
            &sampled[i],
        ) {
            Ok(points) => points,
            Err(e) => {
                proof {
                    assert(store_segments(curve@, sampled_view(sampled@), (i + 1) as nat) == Err::<
                        Seq<ControlPoint>,
                        CurveError,
                    >(e));
                    lemma_store_error(
                        curve@,
                        sampled_view(sampled@),
                        (i + 1) as nat,
                        curve@.segments.len(),
                    );
                }
                return Err(e);
            },
        };
        let ghost before = payload@;
        let ghost points = curve_points@;
        push_head(&mut payload, &segment, left, curve_points.len() as u16);
        payload.append(&mut curve_points);
        assert(payload@ =~= before + (segment_head(segment, left, points.len()) + points));
        i = i + 1;
    }
    round_curve_points(&mut payload);
    Ok(payload)
}

/// What stops the first segments stops the whole curve.
pub proof fn lemma_store_error(
    curve: Curve,
    sampled: Seq<Result<Seq<CubicBezierSpan>, CurveError>>,
    m: nat,
    n: nat,
)
    requires
        m <= n,
        store_segments(curve, sampled, m) is Err,
    ensures
        store_segments(curve, sampled, n) == store_segments(curve, sampled, m),
    decreases n,
{
    if m < n {
        lemma_store_error(curve, sampled, m, (n - 1) as nat);
    }
}

/// Puts the marking points, which hold the hash, before the payload.
pub fn mark_payload(payload: Vec<ControlPoint>, hash: u32) -> (points: Vec<ControlPoint>)
    ensures
        points@ == marked(payload@, hash),
{
    let zero = Double::from_bits(0);
    let mut points: Vec<ControlPoint> = Vec::new();
    points.push(
        ControlPoint {
            coordinate: Position { x: zero, y: zero },
            handle_offset: Position { x: Double::from_bits(ONE), y: zero },
        },
    );
    points.push(hidden_point(zero, zero, encode_u16((hash / 0x10000) as u16)));
    points.push(hidden_point(zero, zero, encode_u16((hash % 0x10000) as u16)));
    let mut rest = payload;
    points.append(&mut rest);
    assert(points@ =~= marked(payload@, hash));
    points
}

pub fn serialize_curve_to_points(
    curve: &TimeControl,
    sampled: &Vec<Result<Vec<CubicBezierSpan>, CurveError>>,
) -> (r: Result<Vec<ControlPoint>, CurveError>)
    requires
        sampled.len() == curve.segments.len(),
    ensures
        points_view(r) == store_curve(curve@, sampled_view(sampled@)),
{
    match serialize_curve_payload(curve, sampled) {
        Err(e) => Err(e),
        Ok(payload) => {
            let hash: u32 = curve_hash(payload.as_slice());
            Ok(mark_payload(payload, hash))
        },
    }
}

} // verus!
