//! Cubic Bezier spans and the control points that a track stores for them.
use crate::arithmetic::{difference, product, quotient, sum};
use crate::curve::Position;
use crate::double::Double;
use crate::numbers::{ONE, THREE};
use vstd::prelude::*;

verus! {

/// A piece of a curve, given by its four Bezier points.
#[derive(Clone, Copy, Debug, PartialEq, Eq, Structural)]
pub struct CubicBezierSpan {
    pub start: Position,
    pub start_handle: Position,
    pub end_handle: Position,
    pub end: Position,
}

/// A control point of a track: where it is, and where its handle lies from there.
#[derive(Clone, Copy, Debug, PartialEq, Eq, Structural)]
pub struct ControlPoint {
    pub coordinate: Position,
    pub handle_offset: Position,
}

/// `a + b`, coordinate by coordinate.
pub open spec fn shifted(a: Position, b: Position) -> Position {
    Position { x: sum(a.x, b.x), y: sum(a.y, b.y) }
}

/// `a - b`, coordinate by coordinate.
pub open spec fn offset(a: Position, b: Position) -> Position {
    Position { x: difference(a.x, b.x), y: difference(a.y, b.y) }
}

impl Position {
    pub fn plus(self, other: Position) -> (r: Position)
        ensures
            r == shifted(self, other),
    {
        Position { x: self.x.plus(other.x), y: self.y.plus(other.y) }
    }

    pub fn minus(self, other: Position) -> (r: Position)
        ensures
            r == offset(self, other),
    {
        Position { x: self.x.minus(other.x), y: self.y.minus(other.y) }
    }
}

/// The span from one point to another that leaves and arrives with the given slopes.
pub open spec fn hermite(
    start: Position,
    start_derivative: Double,
    end: Position,
    end_derivative: Double,
) -> CubicBezierSpan {
    let three = Double { bits: THREE };
    let width = difference(end.x, start.x);
    CubicBezierSpan {
        start,
        start_handle: Position {
            x: sum(start.x, quotient(width, three)),
            y: sum(start.y, quotient(product(start_derivative, width), three)),
        },
        end_handle: Position {
            x: difference(end.x, quotient(width, three)),
            y: difference(end.y, quotient(product(end_derivative, width), three)),
        },
        end,
    }
}

pub fn hermite_span(
    start_x: Double,
    start_y: Double,
    start_derivative: Double,
    end_x: Double,
    end_y: Double,
    end_derivative: Double,
) -> (r: CubicBezierSpan)
    ensures
        r == hermite(
            Position { x: start_x, y: start_y },
            start_derivative,
            Position { x: end_x, y: end_y },
            end_derivative,
        ),
{
    let three = Double::from_bits(THREE);
    let width = end_x.minus(start_x);
    CubicBezierSpan {
        start: Position { x: start_x, y: start_y },
        start_handle: Position {
            x: start_x.plus(width.over(three)),
            y: start_y.plus(start_derivative.times(width).over(three)),
        },
        end_handle: Position {
            x: end_x.minus(width.over(three)),
            y: end_y.minus(end_derivative.times(width).over(three)),
        },
        end: Position { x: end_x, y: end_y },
    }
}

/// The point turned half round the middle of the unit square.
pub open spec fn turned_point(point: Position) -> Position {
    let one = Double { bits: ONE };
    Position { x: difference(one, point.x), y: difference(one, point.y) }
}

/// The span turned half round the middle of the unit square.
pub open spec fn turned(span: CubicBezierSpan) -> CubicBezierSpan {
    CubicBezierSpan {
        start: turned_point(span.end),
        start_handle: turned_point(span.end_handle),
        end_handle: turned_point(span.start_handle),
        end: turned_point(span.start),
    }
}

/// The whole row of spans turned half round: each span turned, in reverse order.
pub open spec fn turned_spans(spans: Seq<CubicBezierSpan>) -> Seq<CubicBezierSpan> {
    Seq::new(spans.len(), |i: int| turned(spans[spans.len() - 1 - i]))
}

fn turn_point(point: Position) -> (r: Position)
    ensures
        r == turned_point(point),
{
    let one = Double::from_bits(ONE);
    Position { x: one.minus(point.x), y: one.minus(point.y) }
}

pub fn reverse_spans(spans: Vec<CubicBezierSpan>) -> (r: Vec<CubicBezierSpan>)
    ensures
        r@ == turned_spans(spans@),
{
    let mut r: Vec<CubicBezierSpan> = Vec::new();
    let mut i: usize = spans.len();
    while i > 0
        invariant
            i <= spans.len(),
            r@ == turned_spans(spans@).take(spans.len() - i),
        decreases i,
    {
        i = i - 1;
        let span = spans[i];
        r.push(
            CubicBezierSpan {
                start: turn_point(span.end),
                start_handle: turn_point(span.end_handle),
                end_handle: turn_point(span.start_handle),
                end: turn_point(span.start),
            },
        );
    }
    r
}

/// A point of the unit square moved to the rectangle between two corners.
pub open spec fn scaled_point(point: Position, start: Position, end: Position) -> Position {
    Position {
        x: sum(start.x, product(difference(end.x, start.x), point.x)),
        y: sum(start.y, product(difference(end.y, start.y), point.y)),
    }
}

/// A span of the unit square moved to the rectangle between two corners.
pub open spec fn scaled(span: CubicBezierSpan, start: Position, end: Position) -> CubicBezierSpan {
    CubicBezierSpan {
        start: scaled_point(span.start, start, end),
        start_handle: scaled_point(span.start_handle, start, end),
        end_handle: scaled_point(span.end_handle, start, end),
        end: scaled_point(span.end, start, end),
    }
}

fn scale_point(point: Position, start: Position, end: Position) -> (r: Position)
    ensures
        r == scaled_point(point, start, end),
{
    Position {
        x: start.x.plus(end.x.minus(start.x).times(point.x)),
        y: start.y.plus(end.y.minus(start.y).times(point.y)),
    }
}

pub fn scale_span(span: CubicBezierSpan, segment_start: Position, segment_end: Position) -> (r:
    CubicBezierSpan)
    ensures
        r == scaled(span, segment_start, segment_end),
{
    CubicBezierSpan {
        start: scale_point(span.start, segment_start, segment_end),
        start_handle: scale_point(span.start_handle, segment_start, segment_end),
        end_handle: scale_point(span.end_handle, segment_start, segment_end),
        end: scale_point(span.end, segment_start, segment_end),
    }
}

/// The control point at which a span begins.
pub open spec fn leaving_point(span: CubicBezierSpan) -> ControlPoint {
    ControlPoint {
        coordinate: span.start,
        handle_offset: offset(span.start_handle, span.start),
    }
}

/// The control point at which a span ends.
pub open spec fn arriving_point(span: CubicBezierSpan) -> ControlPoint {
    ControlPoint { coordinate: span.end, handle_offset: offset(span.end, span.end_handle) }
}

/// The control points of a row of spans: two for each span.
pub open spec fn span_points(spans: Seq<CubicBezierSpan>) -> Seq<ControlPoint> {
    Seq::new(
        2 * spans.len(),
        |i: int|
            if i % 2 == 0 {
                leaving_point(spans[i / 2])
            } else {
                arriving_point(spans[i / 2])
            },
    )
}

pub fn spans_to_points(spans: Vec<CubicBezierSpan>) -> (r: Vec<ControlPoint>)
    ensures
        r@ == span_points(spans@),
{
    let mut r: Vec<ControlPoint> = Vec::new();
    let mut i: usize = 0;
    while i < spans.len()
        invariant
            i <= spans.len(),
            r@ == span_points(spans@).take(2 * i),
        decreases spans.len() - i,
    {
        let span = spans[i];
        r.push(
            ControlPoint {
                coordinate: span.start,
                handle_offset: span.start_handle.minus(span.start),
            },
        );
        r.push(
            ControlPoint {
                coordinate: span.end,
                handle_offset: span.end.minus(span.end_handle),
            },
        );
        i = i + 1;
    }
    r
}

} // verus!
