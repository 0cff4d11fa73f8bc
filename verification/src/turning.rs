//! Reversed segments.
use crate::bounce_precision::{exact, is_rounded, lemma_difference, lemma_numbers};
use crate::curve::{Position, TimeControlBounce, TimeControlElastic, TimeControlSegment};
use crate::error::CurveError;
use crate::numbers::{number, ONE};
use crate::sampler::Functions;
use crate::spans::{turned_point, turned_spans, CubicBezierSpan};
use vstd::prelude::*;

verus! {

/// Whether two positions lie opposite to each other: the middle of the unit square is
/// half way between them, up to rounding. It says nothing of coordinates that are not
/// finite.
pub open spec fn are_opposite(p: Position, q: Position) -> bool {
    &&& p.x.finite() && q.x.finite() ==> is_rounded(q.x, 1real - exact(p.x))
    &&& p.y.finite() && q.y.finite() ==> is_rounded(q.y, 1real - exact(p.y))
}

/// The row of spans that is turned half round runs through the same points in the
/// opposite order, each of them moved to the opposite side of the middle of the unit
/// square. What was the start of a span is the end of one, and its handles are
/// exchanged.
pub proof fn law_turned_spans_lie_opposite(spans: Seq<CubicBezierSpan>, k: int)
    requires
        0 <= k < spans.len(),
    ensures
        turned_spans(spans).len() == spans.len(),
        ({
            let other = turned_spans(spans)[spans.len() - 1 - k];
            &&& are_opposite(spans[k].start, other.end)
            &&& are_opposite(spans[k].start_handle, other.end_handle)
            &&& are_opposite(spans[k].end_handle, other.start_handle)
            &&& are_opposite(spans[k].end, other.start)
        }),
{
    lemma_opposite_point(spans[k].start);
    lemma_opposite_point(spans[k].start_handle);
    lemma_opposite_point(spans[k].end_handle);
    lemma_opposite_point(spans[k].end);
}

proof fn lemma_opposite_point(p: Position)
    ensures
        are_opposite(p, turned_point(p)),
{
    lemma_numbers();
    let one = number(ONE);
    let q = turned_point(p);
    if p.x.finite() && q.x.finite() {
        lemma_difference(one, p.x);
    }
    if p.y.finite() && q.y.finite() {
        lemma_difference(one, p.y);
    }
}

/// What drawing a segment gives when the spans are turned half round.
pub open spec fn turned_drawing(drawn: Option<Result<Seq<CubicBezierSpan>, CurveError>>) -> Option<
    Result<Seq<CubicBezierSpan>, CurveError>,
> {
    match drawn {
        Some(Ok(spans)) => Some(Ok(turned_spans(spans))),
        other => other,
    }
}

/// With whatever functions an elastic segment is drawn: reversed, it is drawn as the
/// same segment that is not reversed, turned half round, and cannot be drawn exactly
/// where that one cannot.
pub proof fn law_reversed_elastic_segment_is_turned(
    functions: Functions,
    elastic: TimeControlElastic,
    limit: nat,
)
    requires
        elastic.reversed,
    ensures
        ({
            let forward = TimeControlElastic {
                reversed: false,
                amplitude: elastic.amplitude,
                frequency: elastic.frequency,
                decay: elastic.decay,
            };
            functions.segment(TimeControlSegment::Elastic(elastic), limit) == turned_drawing(
                functions.segment(TimeControlSegment::Elastic(forward), limit),
            )
        }),
{
    reveal(Functions::segment);
}

/// With whatever functions a bounce segment is drawn: reversed, it is drawn as the
/// same segment that is not reversed, turned half round, and cannot be drawn exactly
/// where that one cannot.
pub proof fn law_reversed_bounce_segment_is_turned(
    functions: Functions,
    bounce: TimeControlBounce,
    limit: nat,
)
    requires
        bounce.reversed,
    ensures
        ({
            let forward = TimeControlBounce { reversed: false, vertex: bounce.vertex };
            functions.segment(TimeControlSegment::Bounce(bounce), limit) == turned_drawing(
                functions.segment(TimeControlSegment::Bounce(forward), limit),
            )
        }),
{
    reveal(Functions::segment);
}

} // verus!
