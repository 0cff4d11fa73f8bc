//! Time control curves.
use crate::double::Double;
use vstd::prelude::*;

verus! {

/// A point of the plane in which curves are drawn.
#[derive(Clone, Copy, Debug, PartialEq, Eq, Structural)]
pub struct Position {
    pub x: Double,
    pub y: Double,
}

impl Position {
    /// Numeric equality of both coordinates.
    pub open spec fn same(self, other: Position) -> bool {
        self.x.same(other.x) && self.y.same(other.y)
    }

    pub fn new(x: Double, y: Double) -> (r: Position)
        ensures
            r == (Position { x, y }),
    {
        Position { x, y }
    }

    /// Whether both coordinates are numerically equal.
    pub fn equals(self, other: Position) -> (r: bool)
        ensures
            r == self.same(other),
    {
        self.x.equals(other.x) && self.y.equals(other.y)
    }
}

/// A point that a curve passes through.
#[derive(Clone, Copy, Debug, PartialEq, Eq, Structural)]
pub struct TimeControlPoint {
    pub position: Position,
    /// Whether the handles on the two sides of the point move on their own.
    pub handles_separated: bool,
}

/// A cubic Bezier segment.
#[derive(Clone, Copy, Debug, PartialEq, Eq, Structural)]
pub struct TimeControlBezier {
    pub start_handle: Position,
    pub end_handle: Position,
}

/// A damped oscillation.
#[derive(Clone, Copy, Debug, PartialEq, Eq, Structural)]
pub struct TimeControlElastic {
    pub reversed: bool,
    pub amplitude: Double,
    pub frequency: Double,
    pub decay: Double,
}

/// A bouncing ball.
#[derive(Clone, Copy, Debug, PartialEq, Eq, Structural)]
pub struct TimeControlBounce {
    pub reversed: bool,
    pub vertex: Position,
}

/// The curve between two neighbouring points.
#[derive(Clone, Copy, Debug, PartialEq, Eq, Structural)]
pub enum TimeControlSegment {
    Bezier(TimeControlBezier),
    Elastic(TimeControlElastic),
    Bounce(TimeControlBounce),
}

/// The kinds of segment.
#[derive(Clone, Copy, Debug, PartialEq, Eq, Structural)]
pub enum TimeControlMode {
    Bezier,
    Elastic,
    Bounce,
}

/// The kind of a segment.
pub open spec fn segment_mode(segment: TimeControlSegment) -> TimeControlMode {
    match segment {
        TimeControlSegment::Bezier(_) => TimeControlMode::Bezier,
        TimeControlSegment::Elastic(_) => TimeControlMode::Elastic,
        TimeControlSegment::Bounce(_) => TimeControlMode::Bounce,
    }
}

impl TimeControlSegment {
    pub fn mode(&self) -> (r: TimeControlMode)
        ensures
            r == segment_mode(*self),
    {
        match self {
            TimeControlSegment::Bezier(_) => TimeControlMode::Bezier,
            TimeControlSegment::Elastic(_) => TimeControlMode::Elastic,
            TimeControlSegment::Bounce(_) => TimeControlMode::Bounce,
        }
    }
}

/// A curve: points from left to right, and a segment between each two neighbours.
#[derive(Debug)]
pub struct TimeControl {
    pub points: Vec<TimeControlPoint>,
    pub segments: Vec<TimeControlSegment>,
}

/// The contents of a [`TimeControl`].
#[verifier::ext_equal]
pub struct Curve {
    pub points: Seq<TimeControlPoint>,
    pub segments: Seq<TimeControlSegment>,
}

impl View for TimeControl {
    type V = Curve;

    open spec fn view(&self) -> Curve {
        Curve { points: self.points@, segments: self.segments@ }
    }
}

impl Curve {
    /// The curve without points and segments.
    pub open spec fn blank() -> Curve {
        Curve { points: Seq::empty(), segments: Seq::empty() }
    }

    /// Whether each two neighbouring points have a segment between them, and
    /// there is at least one.
    pub open spec fn well_formed(self) -> bool {
        self.segments.len() > 0 && self.points.len() == self.segments.len() + 1
    }
}

impl Clone for TimeControl {
    fn clone(&self) -> (r: Self)
        ensures
            r@ == self@,
    {
        TimeControl { points: self.points.clone(), segments: self.segments.clone() }
    }
}

impl TimeControl {
    /// The Bezier segment at `index`, if there is one.
    pub fn segment_bezier(&self, index: usize) -> (r: Option<TimeControlBezier>)
        ensures
            r == if index < self@.segments.len() {
                match self@.segments[index as int] {
                    TimeControlSegment::Bezier(bezier) => Some(bezier),
                    _ => None,
                }
            } else {
                None
            },
    {
        if index < self.segments.len() {
            match self.segments[index] {
                TimeControlSegment::Bezier(bezier) => Some(bezier),
                _ => None,
            }
        } else {
            None
        }
    }
}

} // verus!
