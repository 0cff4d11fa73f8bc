//! How the bounces of a segment follow each other.
use crate::bounce::BounceFormula;
use crate::bounce_sampler::{bounce_curve, closed};
use crate::curve::Position;
use crate::double::Double;
use crate::numbers::{lemma_one, number, ONE, ZERO};
use crate::spans::{turned, CubicBezierSpan};
use vstd::prelude::*;

verus! {

impl BounceFormula {
    /// Whether bounce `index` begins before the end of what is drawn.
    pub open spec fn is_begun(self, powers: spec_fn(nat) -> Double, index: nat) -> bool {
        !self.active_end.at_most(self.left_of(powers(index)))
    }

    /// Whether another bounce may be drawn after bounce `index`.
    pub open spec fn goes_on(self, powers: spec_fn(nat) -> Double, index: nat) -> bool {
        !self.is_last(powers(2 * index), powers(index + 1))
    }

    /// The spans of bounce `index`.
    pub open spec fn drawn_at(self, powers: spec_fn(nat) -> Double, index: nat) -> Seq<
        CubicBezierSpan,
    > {
        self.pieces(powers(index), powers(2 * index), powers(index + 1))
    }

    /// Whether bounce `index` is drawn after its middle, and the next one before its
    /// middle.
    pub open spec fn is_followed(self, powers: spec_fn(nat) -> Double, index: nat) -> bool {
        let next = powers(index + 1);
        &&& self.middle_of(powers(index)).less(self.right_of(next))
        &&& self.left_of(next).less(self.middle_of(next))
        &&& number(ZERO).at_most(self.right_of(next))
    }

    /// Whether each bounce from `index` on that is drawn is followed by the next one.
    pub open spec fn are_followed(
        self,
        powers: spec_fn(nat) -> Double,
        index: nat,
        limit: nat,
    ) -> bool
        decreases limit - index,
    {
        index < limit && self.is_begun(powers, index) && self.goes_on(powers, index) ==> {
            &&& self.is_followed(powers, index)
            &&& self.are_followed(powers, index + 1, limit)
        }
    }

    /// Whether each bounce from `index` on that is drawn ends not before zero, its
    /// middle lies before the end of what is drawn, and that of all but the first not
    /// before zero.
    pub open spec fn are_placed(
        self,
        powers: spec_fn(nat) -> Double,
        index: nat,
        limit: nat,
    ) -> bool
        decreases limit - index,
    {
        index < limit && self.is_begun(powers, index) ==> {
            &&& number(ZERO).at_most(self.right_of(powers(index + 1)))
            &&& self.middle_of(powers(index)).at_most(self.active_end)
            &&& index > 0 ==> number(ZERO).at_most(self.middle_of(powers(index)))
            &&& self.goes_on(powers, index) ==> self.are_placed(powers, index + 1, limit)
        }
    }
}

/// A bounce that is drawn after its middle ends where the next one begins, if that
/// one is drawn before its middle.
pub proof fn law_followed_bounce_meets_the_next(
    formula: BounceFormula,
    powers: spec_fn(nat) -> Double,
    index: nat,
)
    requires
        formula.goes_on(powers, index),
        formula.is_followed(powers, index),
    ensures
        ({
            let start = formula.start_of(powers(index + 1));
            &&& formula.drawn_at(powers, index).len() > 0
            &&& formula.drawn_at(powers, index).last().end.x == start
            &&& formula.drawn_at(powers, index + 1).len() > 0
            &&& formula.drawn_at(powers, index + 1)[0].start.x == start
        }),
{
}

/// A bounce that is drawn before and after its middle begins before its middle and
/// ends after it.
proof fn lemma_both_pieces(formula: BounceFormula, power: Double, squared: Double, next: Double)
    requires
        formula.pieces(power, squared, next).len() == 2,
    ensures
        formula.left_of(power).less(formula.middle_of(power)),
        formula.middle_of(power).less(formula.right_of(next)),
{
}

/// A bounce that does not begin before zero ends after it.
proof fn lemma_begins_after_zero(start: Double, middle: Double, right: Double)
    requires
        start.larger(number(ZERO)).less(middle),
        middle.less(right),
    ensures
        number(ZERO).at_most(right),
{
    lemma_one();
}

/// Two neighbouring bounces that are both drawn before and after their middles meet:
/// the first ends where the second begins.
pub proof fn law_neighbouring_bounces_meet(
    formula: BounceFormula,
    powers: spec_fn(nat) -> Double,
    index: nat,
)
    requires
        formula.goes_on(powers, index),
        formula.drawn_at(powers, index).len() == 2,
        formula.drawn_at(powers, index + 1).len() == 2,
    ensures
        formula.drawn_at(powers, index)[1].end.x == formula.start_of(powers(index + 1)),
        formula.drawn_at(powers, index + 1)[0].start.x == formula.start_of(powers(index + 1)),
{
    let (power, next) = (powers(index), powers(index + 1));
    lemma_both_pieces(formula, power, powers(2 * index), next);
    lemma_both_pieces(formula, next, powers(2 * (index + 1)), powers(index + 1 + 1));
    lemma_begins_after_zero(
        formula.start_of(power),
        formula.middle_of(power),
        formula.right_of(next),
    );
    law_followed_bounce_meets_the_next(formula, powers, index);
}

/// Whether each span of a row but the last one ends where the next one begins.
pub open spec fn has_no_gap(spans: Seq<CubicBezierSpan>) -> bool {
    forall|k: int|
        #![trigger spans[k]]
        0 <= k < spans.len() - 1 ==> spans[k].end.x == spans[k + 1].start.x
}

/// Drawing the bounces from `index` on leaves no gap.
proof fn lemma_no_gap(
    formula: BounceFormula,
    powers: spec_fn(nat) -> Double,
    index: nat,
    limit: nat,
    spans: Seq<CubicBezierSpan>,
)
    requires
        formula.are_followed(powers, index, limit),
        has_no_gap(spans),
        spans.len() > 0 ==> formula.drawn_at(powers, index).len() > 0 && spans.last().end.x
            == formula.drawn_at(powers, index)[0].start.x,
    ensures
        formula.bounces(powers, index, limit, spans) matches Some(Ok(all)) ==> has_no_gap(all),
    decreases limit - index,
{
    let pieces = formula.drawn_at(powers, index);
    let grown = spans + pieces;
    assert forall|k: int| 0 <= k < grown.len() - 1 implies (#[trigger] grown[k]).end.x == grown[k
        + 1].start.x by {
        if k < spans.len() - 1 {
            assert(spans[k].end.x == spans[k + 1].start.x);
        } else if k >= spans.len() {
            assert(grown[k] == pieces[k - spans.len()]);
            assert(grown[k + 1] == pieces[k + 1 - spans.len()]);
        }
    }
    if index < limit && formula.is_begun(powers, index) && formula.goes_on(powers, index) {
        law_followed_bounce_meets_the_next(formula, powers, index);
        assert(grown.last() == pieces.last());
        lemma_no_gap(formula, powers, index + 1, limit, grown);
    }
}

/// The spans of a bounce segment leave no gap if each bounce is followed by the
/// next one: each span ends where the next one begins, and the level line at the end
/// begins where the last bounce ends.
pub proof fn law_followed_bounces_leave_no_gap(
    reversed: bool,
    formula: BounceFormula,
    powers: spec_fn(nat) -> Double,
    limit: nat,
)
    requires
        formula.are_followed(powers, 0, limit),
        bounce_curve(reversed, formula, powers, limit) matches Some(Ok(_)),
    ensures
        has_no_gap(bounce_curve(reversed, formula, powers, limit)->0->Ok_0),
{
    lemma_no_gap(formula, powers, 0, limit, Seq::empty());
    let drawn = formula.bounces(powers, 0, limit, Seq::empty())->0->Ok_0;
    let whole = closed(false, drawn)->Ok_0;
    assert forall|k: int| 0 <= k < whole.len() - 1 implies (#[trigger] whole[k]).end.x == whole[k
        + 1].start.x by {
        if k < drawn.len() - 1 {
            assert(whole[k] == drawn[k]);
            assert(whole[k + 1] == drawn[k + 1]);
        } else {
            assert(whole[k] == drawn.last());
        }
    }
    if reversed {
        let all = closed(true, drawn)->Ok_0;
        let n = whole.len();
        assert forall|k: int| 0 <= k < all.len() - 1 implies (#[trigger] all[k]).end.x == all[k
            + 1].start.x by {
            let i = n - 2 - k;
            assert(whole[i].end.x == whole[i + 1].start.x);
            assert(all[k] == turned(whole[i + 1]));
            assert(all[k + 1] == turned(whole[i]));
        }
    }
}

/// Whether a span lies in the unit interval. The first one may begin at the vertex of
/// the first bounce.
pub open spec fn is_span_placed(
    formula: BounceFormula,
    powers: spec_fn(nat) -> Double,
    span: CubicBezierSpan,
    k: int,
) -> bool {
    &&& number(ZERO).at_most(span.end.x) && span.end.x.at_most(number(ONE))
    &&& number(ZERO).at_most(span.start.x) || (k == 0 && span.start.x == formula.middle_of(
        powers(0),
    ))
}

/// Drawing the bounces from `index` on adds spans of the unit interval.
proof fn lemma_placed(
    formula: BounceFormula,
    powers: spec_fn(nat) -> Double,
    index: nat,
    limit: nat,
    spans: Seq<CubicBezierSpan>,
)
    requires
        formula.active_end.at_most(number(ONE)),
        formula.are_placed(powers, index, limit),
        index == 0 ==> spans.len() == 0,
        forall|k: int|
            0 <= k < spans.len() ==> is_span_placed(formula, powers, #[trigger] spans[k], k),
    ensures
        formula.bounces(powers, index, limit, spans) matches Some(Ok(all)) ==> forall|k: int|
            0 <= k < all.len() ==> is_span_placed(formula, powers, #[trigger] all[k], k),
    decreases limit - index,
{
    let pieces = formula.drawn_at(powers, index);
    let grown = spans + pieces;
    if index < limit && formula.is_begun(powers, index) {
        assert forall|k: int| 0 <= k < grown.len() implies is_span_placed(
            formula,
            powers,
            #[trigger] grown[k],
            k,
        ) by {
            if k < spans.len() {
                assert(grown[k] == spans[k]);
            } else {
                assert(grown[k] == pieces[k - spans.len()]);
            }
        }
        if formula.goes_on(powers, index) {
            lemma_placed(formula, powers, index + 1, limit, grown);
        }
    }
}

/// The spans of a bounce segment stay in the unit interval if the middles of its
/// bounces do. The first one may begin at the vertex of the first bounce.
pub proof fn law_placed_bounces_stay_in_the_unit(
    formula: BounceFormula,
    powers: spec_fn(nat) -> Double,
    limit: nat,
    k: int,
)
    requires
        formula.active_end.at_most(number(ONE)),
        formula.are_placed(powers, 0, limit),
        bounce_curve(false, formula, powers, limit) matches Some(Ok(spans)) && 0 <= k < spans.len(),
    ensures
        is_span_placed(
            formula,
            powers,
            bounce_curve(false, formula, powers, limit)->0->Ok_0[k],
            k,
        ),
{
    lemma_placed(formula, powers, 0, limit, Seq::empty());
    let drawn = formula.bounces(powers, 0, limit, Seq::empty())->0->Ok_0;
    let whole = closed(false, drawn)->Ok_0;
    lemma_one();
    if k < drawn.len() {
        assert(whole[k] == drawn[k]);
    } else {
        assert(whole[k].start.x == drawn.last().end.x);
        assert(is_span_placed(formula, powers, drawn.last(), drawn.len() - 1));
        assert(whole[k].end.x == number(ONE));
    }
}

/// Whether a span is a piece of bounce `index`: its ends lie on the curve of the
/// bounce, and its handles along the slopes there.
pub open spec fn is_piece_of(
    formula: BounceFormula,
    powers: spec_fn(nat) -> Double,
    span: CubicBezierSpan,
    index: nat,
) -> bool {
    span == formula.piece(powers(index), powers(2 * index), span.start.x, span.end.x)
}

/// Whether a span is a piece of some bounce.
pub open spec fn is_on_a_bounce(
    formula: BounceFormula,
    powers: spec_fn(nat) -> Double,
    span: CubicBezierSpan,
) -> bool {
    exists|index: nat| is_piece_of(formula, powers, span, index)
}

/// Drawing the bounces from `index` on adds pieces of bounces.
proof fn lemma_on_bounces(
    formula: BounceFormula,
    powers: spec_fn(nat) -> Double,
    index: nat,
    limit: nat,
    spans: Seq<CubicBezierSpan>,
)
    requires
        forall|k: int|
            0 <= k < spans.len() ==> is_on_a_bounce(formula, powers, #[trigger] spans[k]),
    ensures
        formula.bounces(powers, index, limit, spans) matches Some(Ok(all)) ==> forall|k: int|
            0 <= k < all.len() ==> is_on_a_bounce(formula, powers, #[trigger] all[k]),
    decreases limit - index,
{
    let pieces = formula.drawn_at(powers, index);
    let grown = spans + pieces;
    assert forall|k: int| 0 <= k < grown.len() implies is_on_a_bounce(
        formula,
        powers,
        #[trigger] grown[k],
    ) by {
        if k < spans.len() {
            assert(grown[k] == spans[k]);
        } else {
            assert(grown[k] == pieces[k - spans.len()]);
            assert(is_piece_of(formula, powers, grown[k], index));
        }
    }
    if index < limit {
        lemma_on_bounces(formula, powers, index + 1, limit, grown);
    }
}

/// Each span of a bounce segment is a piece of one of its bounces, but for the level
/// line at height one with which the segment may end.
pub proof fn law_bounce_spans_follow_the_bounces(
    formula: BounceFormula,
    powers: spec_fn(nat) -> Double,
    limit: nat,
    k: int,
)
    requires
        bounce_curve(false, formula, powers, limit) matches Some(Ok(spans)) && 0 <= k < spans.len(),
    ensures
        ({
            let spans = bounce_curve(false, formula, powers, limit)->0->Ok_0;
            ||| is_on_a_bounce(formula, powers, spans[k])
            ||| k == spans.len() - 1 && spans[k].start.y == number(ONE) && spans[k].end == (
            Position { x: number(ONE), y: number(ONE) })
        }),
{
    lemma_on_bounces(formula, powers, 0, limit, Seq::empty());
    let drawn = formula.bounces(powers, 0, limit, Seq::empty())->0->Ok_0;
    let whole = closed(false, drawn)->Ok_0;
    if k < drawn.len() {
        assert(whole[k] == drawn[k]);
    }
}

} // verus!
