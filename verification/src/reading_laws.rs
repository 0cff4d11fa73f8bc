//! What is read from the control points that hold a curve.
use crate::curve::{Curve, TimeControlSegment};
use crate::curve_io::{read_segment, read_segments};
use crate::spans::ControlPoint;
use vstd::prelude::*;

verus! {

/// A stored segment that is cut short is refused, and what follows it does not change how it
/// is read.
pub proof fn law_segment_cut_short_is_refused(rest: Seq<ControlPoint>, at: nat, n: nat)
    requires
        read_segment(rest, at) is Ok,
        n <= rest.len(),
    ensures
        ({
            let stored = read_segment(rest, at)->Ok_0;
            let cut = read_segment(rest.take(n as int), at);
            &&& stored.size <= rest.len()
            &&& n < stored.size ==> cut is Err
            &&& n >= stored.size ==> cut == read_segment(rest, at)
        }),
{
    reveal(read_segment);
    let part = rest.take(n as int);
    if n >= 2 {
        assert(part[0] == rest[0] && part[1] == rest[1]);
        let (whole_data, data) = (rest.skip(2), part.skip(2));
        assert forall|i: int| 0 <= i < data.len() implies data[i] == whole_data[i] by {}
    }
}

/// A stored segment runs from the first of the points that are drawn to the last one of those
/// that hold it. It needs two of them, after its count, its flags and its parameters.
pub proof fn law_segment_runs_between_its_points(rest: Seq<ControlPoint>, at: nat)
    requires
        read_segment(rest, at) is Ok,
    ensures
        ({
            let stored = read_segment(rest, at)->Ok_0;
            let parameters: nat = match stored.segment {
                TimeControlSegment::Bezier(_) => 4,
                TimeControlSegment::Elastic(_) => 3,
                TimeControlSegment::Bounce(_) => 2,
            };
            &&& 4 + parameters <= stored.size <= rest.len()
            &&& stored.start == rest[2 + parameters as int].coordinate
            &&& stored.end == rest[stored.size - 1].coordinate
            &&& stored.separated ==> stored.segment is Bezier
        }),
{
    reveal(read_segment);
}

/// Segments that do not meet are refused.
pub proof fn law_segments_that_do_not_meet_are_refused(
    curve: Curve,
    points: Seq<ControlPoint>,
    at: nat,
)
    requires
        curve.points.len() > 0,
        at < points.len(),
        read_segments(curve, points, at) is Ok,
    ensures
        ({
            let stored = read_segment(points.skip(at as int), at);
            let meeting = curve.points.last().position;
            &&& stored is Ok
            &&& meeting.x.value() == stored->Ok_0.start.x.value()
            &&& meeting.y.value() == stored->Ok_0.start.y.value()
        }),
{
}

} // verus!
