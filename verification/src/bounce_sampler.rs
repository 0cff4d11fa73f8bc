//! Sampling a bounce segment.
//!
//! The sampler asks for one power of the share of its speed that the ball keeps
//! after the other, and draws the bounces from the answers.
use crate::arithmetic::{difference, quotient};
use crate::bounce::BounceFormula;
use crate::curve::{Position, TimeControlBounce};
use crate::curve_io::spans_view;
use crate::double::Double;
use crate::error::CurveError;
use crate::numbers::{number, ONE, ZERO};
use crate::quantization::{grid_scale, HASH_QUANTIZATION_UNIT_INV};
use crate::spans::{hermite, hermite_span, reverse_spans, turned_spans, CubicBezierSpan};
use vstd::prelude::*;

verus! {

/// The most bounces that can be counted: twice their number is an exponent of
/// 31 bits.
pub const MOST_BOUNCES: u32 = 0x3fff_ffff;

// What the sampler draws when the powers are given by a function.

impl BounceFormula {
    /// When a bounce begins, not before the segment. `power` is that of its index.
    pub open spec fn left_of(self, power: Double) -> Double {
        self.start_of(power).larger(number(ZERO))
    }

    /// When a bounce ends, not after the last one that is drawn. `next` is the
    /// power of the index after its own.
    pub open spec fn right_of(self, next: Double) -> Double {
        self.start_of(next).smaller(self.active_end)
    }

    /// The spans of a bounce: one before its middle and one after it, as far as
    /// each of them has a width.
    pub open spec fn pieces(self, power: Double, squared: Double, next: Double) -> Seq<
        CubicBezierSpan,
    > {
        let left = self.left_of(power);
        let middle = self.middle_of(power);
        let right = self.right_of(next);
        let falling = if left.less(middle) {
            seq![self.piece(power, squared, left, middle)]
        } else {
            Seq::empty()
        };
        if middle.less(right) {
            falling.push(self.piece(power, squared, middle, right))
        } else {
            falling
        }
    }

    /// Whether nothing is drawn after a bounce: it is the last one, or what is
    /// left is shorter or lower than a step of the grid.
    pub open spec fn is_last(self, squared: Double, next: Double) -> bool {
        let step = grid_step();
        let right = self.right_of(next);
        ||| self.active_end.at_most(right)
        ||| difference(self.active_end, right).at_most(step)
        ||| squared.less(step)
    }

    /// The spans of the bounces from `index` on, after those in `spans`, where
    /// `powers` gives the powers of `cor`. `None` where the drawing does not end
    /// before bounce `limit`.
    pub open spec fn bounces(
        self,
        powers: spec_fn(nat) -> Double,
        index: nat,
        limit: nat,
        spans: Seq<CubicBezierSpan>,
    ) -> Option<Result<Seq<CubicBezierSpan>, CurveError>>
        decreases limit - index,
    {
        if index >= limit {
            None
        } else if self.active_end.at_most(self.left_of(powers(index))) {
            Some(Ok(spans))
        } else {
            let squared = powers(2 * index);
            let next = powers(index + 1);
            let grown = spans + self.pieces(powers(index), squared, next);
            if grown.len() * 2 > u16::MAX {
                Some(Err(CurveError::BounceTooLong))
            } else if self.is_last(squared, next) {
                Some(Ok(grown))
            } else {
                self.bounces(powers, index + 1, limit, grown)
            }
        }
    }
}

/// A step of the grid.
pub open spec fn grid_step() -> Double {
    quotient(number(ONE), grid_scale())
}

/// The spans of a bounce segment, given those of its bounces: they are followed
/// by a level line to the end, and all is turned half round where the segment is
/// reversed.
pub open spec fn closed(reversed: bool, spans: Seq<CubicBezierSpan>) -> Result<
    Seq<CubicBezierSpan>,
    CurveError,
> {
    if spans.len() == 0 {
        Err(CurveError::BounceEmpty)
    } else {
        let one = number(ONE);
        let zero = number(ZERO);
        let end = spans.last().end.x;
        let whole = if end.less(one) {
            spans.push(
                hermite(Position { x: end, y: one }, zero, Position { x: one, y: one }, zero),
            )
        } else {
            spans
        };
        Ok(
            if reversed {
                turned_spans(whole)
            } else {
                whole
            },
        )
    }
}

/// The spans of a bounce segment in the unit square. `None` where the drawing does
/// not end before bounce `limit`.
pub open spec fn bounce_curve(
    reversed: bool,
    formula: BounceFormula,
    powers: spec_fn(nat) -> Double,
    limit: nat,
) -> Option<Result<Seq<CubicBezierSpan>, CurveError>> {
    match formula.bounces(powers, 0, limit, Seq::empty()) {
        None => None,
        Some(Err(e)) => Some(Err(e)),
        Some(Ok(spans)) => Some(closed(reversed, spans)),
    }
}

// The sampler.

/// How far a sampler has come with a bounce.
#[derive(Clone, Copy, Debug, PartialEq, Eq, Structural)]
pub enum BounceStage {
    /// The power of the index is to be taken.
    Begin,
    /// The power of twice the index is to be taken.
    Square { power: Double },
    /// The power of the next index is to be taken.
    Next { power: Double, squared: Double },
    /// All bounces are drawn.
    Drawn,
    /// There are too many bounces.
    Failed,
}

/// A bounce segment being sampled.
#[derive(Debug)]
pub struct BounceSampler {
    pub reversed: bool,
    pub formula: BounceFormula,
    pub index: u32,
    pub stage: BounceStage,
    /// The spans of the bounces before `index`, or of all bounces.
    pub spans: Vec<CubicBezierSpan>,
}

impl BounceSampler {
    pub open spec fn well_formed(self) -> bool {
        &&& self.index <= MOST_BOUNCES
        &&& !(self.stage is Failed) ==> self.spans.len() * 2 <= u16::MAX
    }

    pub open spec fn finished(self) -> bool {
        self.stage is Drawn || self.stage is Failed
    }

    /// The exponent whose power is needed next.
    pub open spec fn asked(self) -> nat {
        match self.stage {
            BounceStage::Square { .. } => 2 * self.index as nat,
            BounceStage::Next { .. } => self.index as nat + 1,
            _ => self.index as nat,
        }
    }

    /// Whether all that the sampler knows is what `powers` gives.
    pub open spec fn follows(self, powers: spec_fn(nat) -> Double) -> bool {
        &&& match self.stage {
            BounceStage::Begin => true,
            BounceStage::Square { power } => power == powers(self.index as nat),
            BounceStage::Next { power, squared } => power == powers(self.index as nat) && squared
                == powers(2 * self.index as nat),
            BounceStage::Drawn => true,
            BounceStage::Failed => true,
        }
        &&& forall|limit: nat|
            limit > self.index ==> #[trigger] self.formula.bounces(
                powers,
                0,
                limit,
                Seq::empty(),
            ) == match self.stage {
                BounceStage::Drawn => Some(Ok(self.spans@)),
                BounceStage::Failed => Some(Err(CurveError::BounceTooLong)),
                _ => self.formula.bounces(powers, self.index as nat, limit, self.spans@),
            }
    }

    /// What the sampler knows after it was told that the power it asked for is
    /// `power`: the index, the stage and the spans.
    pub open spec fn after(self, power: Double) -> (int, BounceStage, Seq<CubicBezierSpan>) {
        match self.stage {
            BounceStage::Begin => (self.index as int, BounceStage::Square { power }, self.spans@),
            BounceStage::Square { power: first } => (
                self.index as int,
                BounceStage::Next { power: first, squared: power },
                self.spans@,
            ),
            BounceStage::Next { power: first, squared } => {
                let grown = self.spans@ + self.formula.pieces(first, squared, power);
                if self.formula.active_end.at_most(self.formula.left_of(first)) {
                    (self.index as int, BounceStage::Drawn, self.spans@)
                } else if grown.len() * 2 > u16::MAX {
                    (self.index as int, BounceStage::Failed, grown)
                } else if self.formula.is_last(squared, power) {
                    (self.index as int, BounceStage::Drawn, grown)
                } else {
                    (self.index + 1, BounceStage::Square { power }, grown)
                }
            },
            BounceStage::Drawn | BounceStage::Failed => (
                self.index as int,
                self.stage,
                self.spans@,
            ),
        }
    }

    /// Whether the sampler is the one that `before` becomes when it is told the
    /// power that it asked for.
    pub open spec fn comes_after(self, before: Self, power: Double) -> bool {
        &&& self.reversed == before.reversed
        &&& self.formula == before.formula
        &&& (self.index as int, self.stage, self.spans@) == before.after(power)
    }

    /// Whether the drawing ends with the power that the sampler asked for, and
    /// with which spans.
    pub open spec fn ends_after(
        self,
        power: Double,
        result: Result<Seq<CubicBezierSpan>, CurveError>,
    ) -> bool {
        let (_, stage, spans) = self.after(power);
        ||| stage is Drawn && result == closed(self.reversed, spans)
        ||| stage is Failed && result == Err::<Seq<CubicBezierSpan>, CurveError>(
            CurveError::BounceTooLong,
        )
    }

    /// Whether nothing of a segment is drawn yet.
    pub open spec fn is_begun(self, reversed: bool, formula: BounceFormula) -> bool {
        &&& self.reversed == reversed
        &&& self.formula == formula
        &&& self.index == 0
        &&& self.stage == BounceStage::Begin
        &&& self.spans@ == Seq::<CubicBezierSpan>::empty()
    }

    /// A sampler of a bounce segment.
    pub fn new(bounce: &TimeControlBounce, formula: BounceFormula) -> (r: BounceSampler)
        ensures
            r.well_formed(),
            r.is_begun(bounce.reversed, formula),
            forall|powers: spec_fn(nat) -> Double| #[trigger] r.follows(powers),
    {
        BounceSampler {
            reversed: bounce.reversed,
            formula,
            index: 0,
            stage: BounceStage::Begin,
            spans: Vec::new(),
        }
    }

    /// The exponent whose power of `cor` is needed next, if any is.
    pub fn question(&self) -> (r: Option<u32>)
        requires
            self.well_formed(),
        ensures
            match r {
                Some(exponent) => !self.finished() && exponent == self.asked(),
                None => self.finished(),
            },
    {
        match self.stage {
            BounceStage::Begin => Some(self.index),
            BounceStage::Square { .. } => Some(2 * self.index),
            BounceStage::Next { .. } => Some(self.index + 1),
            BounceStage::Drawn | BounceStage::Failed => None,
        }
    }

    /// Draws bounce `index`.
    fn draw(&mut self, power: Double, squared: Double, next: Double)
        requires
            old(self).well_formed(),
            old(self).index < MOST_BOUNCES,
            old(self).stage == (BounceStage::Next { power, squared }),
        ensures
            final(self).well_formed(),
            final(self).comes_after(*old(self), next),
    {
        let one = Double::from_bits(ONE);
        let step = one.over(Double::from_bits(HASH_QUANTIZATION_UNIT_INV));
        let left = self.formula.boundary(power).max(Double::from_bits(ZERO));
        if self.formula.active_end.is_at_most(left) {
            self.stage = BounceStage::Drawn;
            return;
        }
        let ghost before = self.spans@;
        let middle = self.formula.vertex(power);
        let right = self.formula.boundary(next).min(self.formula.active_end);
        if left.is_less(middle) {
            self.spans.push(self.formula.bounce_span(power, squared, left, middle));
        }
        if middle.is_less(right) {
            self.spans.push(self.formula.bounce_span(power, squared, middle, right));
        }
        let ghost grown = before + self.formula.pieces(power, squared, next);
        assert(self.spans@ =~= grown);
        if self.spans.len() * 2 > u16::MAX as usize {
            self.stage = BounceStage::Failed;
            return;
        }
        if self.formula.active_end.is_at_most(right) || self.formula.active_end.minus(
            right,
        ).is_at_most(step) || squared.is_less(step) {
            self.stage = BounceStage::Drawn;
            return;
        }
        self.index = self.index + 1;
        self.stage = BounceStage::Square { power: next };
    }

    /// Takes the power of the exponent that [`BounceSampler::question`] gave.
    pub fn answer(&mut self, power: Double)
        requires
            old(self).well_formed(),
            !old(self).finished(),
            old(self).index < MOST_BOUNCES,
        ensures
            final(self).well_formed(),
            final(self).comes_after(*old(self), power),
            forall|powers: spec_fn(nat) -> Double|
                old(self).follows(powers) && power == powers(old(self).asked())
                    ==> #[trigger] final(self).follows(powers),
    {
        match self.stage {
            BounceStage::Begin => {
                self.stage = BounceStage::Square { power };
            },
            BounceStage::Square { power: first } => {
                self.stage = BounceStage::Next { power: first, squared: power };
            },
            BounceStage::Next { power: first, squared } => {
                self.draw(first, squared, power);
            },
            BounceStage::Drawn | BounceStage::Failed => {},
        }
        assert forall|powers: spec_fn(nat) -> Double|
            old(self).follows(powers) && power == powers(
                old(self).asked(),
            ) implies #[trigger] self.follows(powers) by {
            lemma_step_follows(*old(self), *self, power, powers);
        }
    }

    /// The spans of the segment in the unit square.
    pub fn finish(self) -> (r: Result<Vec<CubicBezierSpan>, CurveError>)
        requires
            self.well_formed(),
            self.finished(),
        ensures
            spans_view(r) == if self.stage is Failed {
                Err(CurveError::BounceTooLong)
            } else {
                closed(self.reversed, self.spans@)
            },
            forall|powers: spec_fn(nat) -> Double, limit: nat|
                self.follows(powers) && limit > self.index ==> #[trigger] bounce_curve(
                    self.reversed,
                    self.formula,
                    powers,
                    limit,
                ) == Some(spans_view(r)),
    {
        if let BounceStage::Failed = self.stage {
            return Err(CurveError::BounceTooLong);
        }
        let one = Double::from_bits(ONE);
        let zero = Double::from_bits(ZERO);
        let mut spans = self.spans;
        if spans.len() == 0 {
            return Err(CurveError::BounceEmpty);
        }
        let end = spans[spans.len() - 1].end.x;
        if end.is_less(one) {
            spans.push(hermite_span(end, one, zero, one, one, zero));
        }
        if self.reversed {
            Ok(reverse_spans(spans))
        } else {
            Ok(spans)
        }
    }
}

/// A sampler that follows given powers still does so after it was told the next one.
proof fn lemma_step_follows(
    before: BounceSampler,
    after: BounceSampler,
    power: Double,
    powers: spec_fn(nat) -> Double,
)
    requires
        before.follows(powers),
        power == powers(before.asked()),
        after.comes_after(before, power),
    ensures
        after.follows(powers),
{
    let formula = before.formula;
    let index = before.index as nat;
    if before.stage is Next {
        assert forall|limit: nat| limit > after.index implies #[trigger] formula.bounces(
            powers,
            0,
            limit,
            Seq::empty(),
        ) == match after.stage {
            BounceStage::Drawn => Some(Ok(after.spans@)),
            BounceStage::Failed => Some(Err(CurveError::BounceTooLong)),
            _ => formula.bounces(powers, after.index as nat, limit, after.spans@),
        } by {
            assert(formula.bounces(powers, 0, limit, Seq::empty()) == formula.bounces(
                powers,
                index,
                limit,
                before.spans@,
            ));
        }
    }
}

/// A reversed bounce segment is drawn as the same segment turned half round.
pub proof fn law_reversed_bounce_is_turned(
    formula: BounceFormula,
    powers: spec_fn(nat) -> Double,
    limit: nat,
)
    ensures
        bounce_curve(true, formula, powers, limit) == match bounce_curve(
            false,
            formula,
            powers,
            limit,
        ) {
            Some(Ok(spans)) => Some(Ok(turned_spans(spans))),
            failed => failed,
        },
{
}

/// Drawing a bounce segment does not depend on how far it is followed, once its
/// end is reached.
pub proof fn law_bounce_curve_ends_once(
    reversed: bool,
    formula: BounceFormula,
    powers: spec_fn(nat) -> Double,
    limit: nat,
    farther: nat,
)
    requires
        limit <= farther,
        bounce_curve(reversed, formula, powers, limit) is Some,
    ensures
        bounce_curve(reversed, formula, powers, farther) == bounce_curve(
            reversed,
            formula,
            powers,
            limit,
        ),
{
    lemma_bounces_end_once(formula, powers, 0, limit, farther, Seq::empty());
}

proof fn lemma_bounces_end_once(
    formula: BounceFormula,
    powers: spec_fn(nat) -> Double,
    index: nat,
    limit: nat,
    farther: nat,
    spans: Seq<CubicBezierSpan>,
)
    requires
        limit <= farther,
        formula.bounces(powers, index, limit, spans) is Some,
    ensures
        formula.bounces(powers, index, farther, spans) == formula.bounces(
            powers,
            index,
            limit,
            spans,
        ),
    decreases limit - index,
{
    let grown = spans + formula.pieces(powers(index), powers(2 * index), powers(index + 1));
    if formula.bounces(powers, index + 1, limit, grown) is Some {
        lemma_bounces_end_once(formula, powers, index + 1, limit, farther, grown);
    }
}

} // verus!
