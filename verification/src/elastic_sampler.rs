//! Sampling an elastic segment.
//!
//! The sampler asks for the wave at one moment after the other. From the answers
//! it finds where the curve turns back, and draws a span from each turn to the
//! next.
use crate::arithmetic::difference;
use crate::curve::TimeControlElastic;
use crate::double::{lemma_magnitude_zero, one_step, Double, UNIT_SHIFT};
use crate::elastic::{
    elastic_drawing, elastic_spans, elastic_vertices, grid_moment, grid_progress, is_inside,
    piece_ends, without_repeats, Crossing, ElasticFormula, Wave, HALVINGS, REFINEMENTS,
};
use crate::error::CurveError;
use crate::numbers::{lemma_one, number, ONE, ZERO};
use crate::rounding::lemma_rounded_exact;
use crate::spans::{hermite, CubicBezierSpan};
use vstd::arithmetic::power2::*;
use vstd::prelude::*;

verus! {

// What the sampler finds when the wave at each moment is given by a function.

/// The formula after `n` refinements.
pub open spec fn refined(
    formula: ElasticFormula,
    waves: spec_fn(Double) -> Wave,
    n: nat,
) -> ElasticFormula
    decreases n,
{
    if n == 0 {
        formula
    } else {
        let before = refined(formula, waves, (n - 1) as nat);
        before.refined(waves(before.first_extremum_t))
    }
}

/// The formula with its first extremum found.
pub open spec fn complete(
    formula: ElasticFormula,
    waves: spec_fn(Double) -> Wave,
) -> ElasticFormula {
    let last = refined(formula, waves, REFINEMENTS as nat);
    last.settled(waves(last.first_extremum_t))
}

/// The slope at the end of interval `index`.
pub open spec fn slope_at(
    formula: ElasticFormula,
    waves: spec_fn(Double) -> Wave,
    index: nat,
) -> Double {
    formula.slope(waves(grid_moment(index, formula.interval_count())))
}

/// The moment at which halving an interval to the end arrives.
#[verifier::opaque]
pub open spec fn narrowed(
    formula: ElasticFormula,
    waves: spec_fn(Double) -> Wave,
    crossing: Crossing,
) -> Double
    decreases crossing.left,
{
    if crossing.left == 0 {
        crossing.middle()
    } else {
        narrowed(formula, waves, crossing.halved(formula.slope(waves(crossing.middle()))))
    }
}

/// The interval that ends at `index`, before it is halved.
pub open spec fn whole_interval(divisions: nat, index: nat, previous: Double) -> Crossing {
    Crossing {
        min_t: grid_moment((index - 1) as nat, divisions),
        max_t: grid_moment(index, divisions),
        min_derivative: previous,
        left: HALVINGS,
    }
}

/// The extremum in the interval that ends at `index`: at its beginning where the
/// slope there is zero, or else inside it where the slope changes its sign.
pub open spec fn extremum_in(
    formula: ElasticFormula,
    waves: spec_fn(Double) -> Wave,
    index: nat,
) -> Option<Double> {
    let divisions = formula.interval_count();
    let previous_t = grid_moment((index - 1) as nat, divisions);
    let previous = slope_at(formula, waves, (index - 1) as nat);
    if previous.same(number(ZERO)) && number(ZERO).less(previous_t) {
        Some(previous_t)
    } else if !previous.same_sign(slope_at(formula, waves, index)) {
        Some(narrowed(formula, waves, whole_interval(divisions, index, previous)))
    } else {
        None
    }
}

/// The extrema in the first `n` intervals.
pub open spec fn extrema(
    formula: ElasticFormula,
    waves: spec_fn(Double) -> Wave,
    n: nat,
) -> Seq<Double>
    decreases n,
{
    if n == 0 {
        Seq::empty()
    } else {
        let before = extrema(formula, waves, (n - 1) as nat);
        match extremum_in(formula, waves, n) {
            Some(moment) => before.push(moment),
            None => before,
        }
    }
}

/// The moments at which the pieces of the curve meet.
pub open spec fn vertices_of(
    formula: ElasticFormula,
    waves: spec_fn(Double) -> Wave,
) -> Seq<Double> {
    piece_ends(extrema(formula, waves, formula.interval_count()))
}

/// The spans of an elastic segment in the unit square. `formula` is the one that
/// [`ElasticFormula::new`] gives, and `waves` gives the wave at each moment.
pub open spec fn elastic_curve(
    reversed: bool,
    formula: ElasticFormula,
    waves: spec_fn(Double) -> Wave,
) -> Seq<CubicBezierSpan> {
    let done = complete(formula, waves);
    let vertices = vertices_of(done, waves);
    elastic_drawing(reversed, done, vertices, vertices.map_values(waves))
}

// The sampler.

/// How far a sampler has come.
#[derive(Clone, Copy, Debug, PartialEq, Eq, Structural)]
pub enum ElasticStage {
    /// The guess at the first extremum is to be refined.
    Refine { left: u32 },
    /// The height at the first extremum is to be taken.
    Settle,
    /// The slope at the end of interval `index` is to be taken; `previous` is the
    /// slope at its beginning.
    Search { index: usize, previous: Double },
    /// Interval `index`, with slope `current` at its end, is being halved.
    Halve { index: usize, current: Double, crossing: Crossing },
    /// The waves at the vertices are to be taken.
    Draw,
}

/// An elastic segment being sampled.
#[derive(Debug)]
pub struct ElasticSampler {
    pub reversed: bool,
    pub formula: ElasticFormula,
    pub divisions: usize,
    pub stage: ElasticStage,
    /// The extrema found so far.
    pub found: Vec<Double>,
    pub vertices: Vec<Double>,
    /// The waves at the first vertices.
    pub waves: Vec<Wave>,
}

impl ElasticSampler {
    pub open spec fn well_formed(self) -> bool {
        &&& self.divisions == self.formula.interval_count()
        &&& !(self.stage is Draw) ==> self.waves.len() == 0
        &&& match self.stage {
            ElasticStage::Refine { left } => 0 < left <= REFINEMENTS && self.found.len() == 0,
            ElasticStage::Settle => self.found.len() == 0,
            ElasticStage::Search { index, .. } => index <= self.divisions && self.found.len()
                <= index && (index > 0 ==> self.found.len() < index),
            ElasticStage::Halve { index, crossing, .. } => 0 < index <= self.divisions
                && self.found.len() < index && 0 < crossing.left <= HALVINGS,
            ElasticStage::Draw => self.waves.len() <= self.vertices.len() <= self.divisions + 2
                && self.vertices.len() > 0,
        }
    }

    /// Whether all that the sampler knows is what `waves` and the formula `start`
    /// give.
    pub open spec fn follows(
        self,
        start: ElasticFormula,
        waves: spec_fn(Double) -> Wave,
    ) -> bool {
        let done = complete(start, waves);
        match self.stage {
            ElasticStage::Refine { left } => self.formula == refined(
                start,
                waves,
                (REFINEMENTS - left) as nat,
            ) && self.found@ == Seq::<Double>::empty(),
            ElasticStage::Settle => self.formula == refined(start, waves, REFINEMENTS as nat)
                && self.found@ == Seq::<Double>::empty(),
            ElasticStage::Search { index, previous } => {
                &&& self.formula == done
                &&& index == 0 ==> self.found@ == Seq::<Double>::empty()
                &&& index > 0 ==> self.found@ == extrema(done, waves, (index - 1) as nat)
                    && previous == slope_at(done, waves, (index - 1) as nat)
            },
            ElasticStage::Halve { index, current, crossing } => {
                &&& self.formula == done
                &&& self.found@ == extrema(done, waves, (index - 1) as nat)
                &&& current == slope_at(done, waves, index as nat)
                &&& extremum_in(done, waves, index as nat) == Some(
                    narrowed(done, waves, crossing),
                )
            },
            ElasticStage::Draw => {
                &&& self.formula == done
                &&& self.vertices@ == vertices_of(done, waves)
                &&& self.waves@ == self.vertices@.map_values(waves).take(self.waves.len() as int)
            },
        }
    }

    /// Whether nothing is left to ask.
    pub open spec fn finished(self) -> bool {
        self.stage is Draw && self.waves.len() == self.vertices.len()
    }

    /// The moment whose wave is needed next.
    pub open spec fn asked(self) -> Double {
        match self.stage {
            ElasticStage::Refine { .. } | ElasticStage::Settle => self.formula.first_extremum_t,
            ElasticStage::Search { index, .. } => grid_moment(
                index as nat,
                self.divisions as nat,
            ),
            ElasticStage::Halve { crossing, .. } => crossing.middle(),
            ElasticStage::Draw => self.vertices@[self.waves.len() as int],
        }
    }

    /// A bound on the number of questions from interval `index` on.
    pub open spec fn questions_from(self, index: int) -> int {
        (self.divisions + 1 - index) * (HALVINGS + 1) + self.divisions + 2
    }

    /// A bound on the number of questions that are left.
    pub open spec fn questions_left(self) -> int {
        match self.stage {
            ElasticStage::Refine { left } => left + 1 + self.questions_from(0),
            ElasticStage::Settle => 1 + self.questions_from(0),
            ElasticStage::Search { index, .. } => self.questions_from(index as int),
            ElasticStage::Halve { index, crossing, .. } => self.questions_from(index + 1)
                + crossing.left,
            ElasticStage::Draw => self.vertices.len() - self.waves.len(),
        }
    }

    /// What the sampler knows after interval `index`, at whose end the slope is
    /// `current`, with the given extrema found: the stage and the vertices.
    pub open spec fn advanced(self, index: nat, current: Double, found: Seq<Double>) -> (
        ElasticStage,
        Seq<Double>,
    ) {
        if index == self.divisions {
            (ElasticStage::Draw, piece_ends(found))
        } else {
            (
                ElasticStage::Search { index: (index + 1) as usize, previous: current },
                self.vertices@,
            )
        }
    }

    /// What the sampler knows after it was told the wave that it asked for: the
    /// stage, the extrema found and the vertices.
    pub open spec fn after(self, wave: Wave) -> (ElasticStage, Seq<Double>, Seq<Double>) {
        let slope = self.formula.slope(wave);
        match self.stage {
            ElasticStage::Refine { left } => (
                if left == 1 {
                    ElasticStage::Settle
                } else {
                    ElasticStage::Refine { left: (left - 1) as u32 }
                },
                self.found@,
                self.vertices@,
            ),
            ElasticStage::Settle => (
                ElasticStage::Search { index: 0, previous: number(ZERO) },
                self.found@,
                self.vertices@,
            ),
            ElasticStage::Search { index, previous } => {
                let before = grid_moment((index - 1) as nat, self.divisions as nat);
                if index > 0 && previous.same(number(ZERO)) && number(ZERO).less(before) {
                    let found = self.found@.push(before);
                    let (stage, vertices) = self.advanced(index as nat, slope, found);
                    (stage, found, vertices)
                } else if index > 0 && !previous.same_sign(slope) {
                    (
                        ElasticStage::Halve {
                            index,
                            current: slope,
                            crossing: whole_interval(
                                self.divisions as nat,
                                index as nat,
                                previous,
                            ),
                        },
                        self.found@,
                        self.vertices@,
                    )
                } else {
                    let (stage, vertices) = self.advanced(index as nat, slope, self.found@);
                    (stage, self.found@, vertices)
                }
            },
            ElasticStage::Halve { index, current, crossing } => {
                let half = crossing.halved(slope);
                if half.left == 0 {
                    let found = self.found@.push(half.middle());
                    let (stage, vertices) = self.advanced(index as nat, current, found);
                    (stage, found, vertices)
                } else {
                    (
                        ElasticStage::Halve { index, current, crossing: half },
                        self.found@,
                        self.vertices@,
                    )
                }
            },
            ElasticStage::Draw => (self.stage, self.found@, self.vertices@),
        }
    }

    /// The formula after the sampler was told the wave that it asked for.
    pub open spec fn formula_after(self, wave: Wave) -> ElasticFormula {
        match self.stage {
            ElasticStage::Refine { .. } => self.formula.refined(wave),
            ElasticStage::Settle => self.formula.settled(wave),
            _ => self.formula,
        }
    }

    /// The waves at the vertices after the sampler was told the one it asked for.
    pub open spec fn waves_after(self, wave: Wave) -> Seq<Wave> {
        if self.stage is Draw {
            self.waves@.push(wave)
        } else {
            self.waves@
        }
    }

    /// Whether the sampler is the one that `before` becomes when it is told the
    /// wave that it asked for.
    pub open spec fn comes_after(self, before: Self, wave: Wave) -> bool {
        &&& self.reversed == before.reversed
        &&& self.divisions == before.divisions
        &&& self.formula == before.formula_after(wave)
        &&& (self.stage, self.found@, self.vertices@) == before.after(wave)
        &&& self.waves@ == before.waves_after(wave)
    }

    /// Whether the last wave is the one that the sampler asked for, and which
    /// spans are then drawn.
    pub open spec fn ends_after(
        self,
        wave: Wave,
        result: Result<Seq<CubicBezierSpan>, CurveError>,
    ) -> bool {
        let (stage, _, vertices) = self.after(wave);
        let waves = self.waves_after(wave);
        &&& stage is Draw
        &&& waves.len() == vertices.len()
        &&& result == Ok::<Seq<CubicBezierSpan>, CurveError>(
            elastic_drawing(self.reversed, self.formula_after(wave), vertices, waves),
        )
    }

    /// Whether nothing of a segment is sampled yet.
    pub open spec fn is_begun(self, reversed: bool, formula: ElasticFormula) -> bool {
        &&& self.reversed == reversed
        &&& self.formula == formula
        &&& self.stage == (ElasticStage::Refine { left: REFINEMENTS })
    }

    /// A sampler of an elastic segment. `formula` is the segment's formula with
    /// the first guess at its first extremum.
    pub fn new(elastic: &TimeControlElastic, formula: ElasticFormula) -> (r: ElasticSampler)
        ensures
            r.well_formed(),
            r.is_begun(elastic.reversed, formula),
            forall|waves: spec_fn(Double) -> Wave| #[trigger] r.follows(formula, waves),
    {
        ElasticSampler {
            reversed: elastic.reversed,
            formula,
            divisions: formula.divisions(),
            stage: ElasticStage::Refine { left: REFINEMENTS },
            found: Vec::new(),
            vertices: Vec::new(),
            waves: Vec::new(),
        }
    }

    /// The moment whose wave is needed next, if any is.
    pub fn question(&self) -> (r: Option<Double>)
        requires
            self.well_formed(),
        ensures
            r == if self.finished() {
                None
            } else {
                Some(self.asked())
            },
    {
        match self.stage {
            ElasticStage::Refine { .. } | ElasticStage::Settle => Some(
                self.formula.first_extremum_t,
            ),
            ElasticStage::Search { index, .. } => Some(grid_progress(index, self.divisions)),
            ElasticStage::Halve { crossing, .. } => Some(crossing.middle_t()),
            ElasticStage::Draw => if self.waves.len() < self.vertices.len() {
                Some(self.vertices[self.waves.len()])
            } else {
                None
            },
        }
    }

    /// Goes on after interval `index`, at whose end the slope is `current`.
    fn advance(&mut self, index: usize, current: Double)
        requires
            index <= old(self).divisions,
            old(self).found.len() <= index,
            old(self).divisions == old(self).formula.interval_count(),
            old(self).waves.len() == 0,
        ensures
            final(self).well_formed(),
            final(self).reversed == old(self).reversed,
            final(self).divisions == old(self).divisions,
            final(self).formula == old(self).formula,
            final(self).found@ == old(self).found@,
            final(self).waves@ == old(self).waves@,
            (final(self).stage, final(self).vertices@) == old(self).advanced(
                index as nat,
                current,
                old(self).found@,
            ),
            final(self).questions_left() < old(self).questions_from(index as int),
            final(self).questions_left() <= old(self).questions_from(index + 1),
            forall|start: ElasticFormula, waves: spec_fn(Double) -> Wave|
                {
                    let done = #[trigger] complete(start, waves);
                    &&& old(self).formula == done
                    &&& old(self).found@ == extrema(done, waves, index as nat)
                    &&& current == slope_at(done, waves, index as nat)
                } ==> final(self).follows(start, waves),
    {
        if index == self.divisions {
            proof {
                lemma_piece_ends(self.found@);
            }
            self.vertices = elastic_vertices(&self.found);
            self.stage = ElasticStage::Draw;
            assert forall|start: ElasticFormula, waves: spec_fn(Double) -> Wave|
                {
                    let done = #[trigger] complete(start, waves);
                    &&& old(self).formula == done
                    &&& old(self).found@ == extrema(done, waves, index as nat)
                    &&& current == slope_at(done, waves, index as nat)
                } implies self.follows(start, waves) by {
                assert(self.waves@ =~= self.vertices@.map_values(waves).take(0));
            }
        } else {
            self.stage = ElasticStage::Search { index: index + 1, previous: current };
        }
    }

    /// Takes the wave at the guess at the first extremum.
    fn refine(&mut self, left: u32, wave: Wave)
        requires
            old(self).well_formed(),
            old(self).stage == (ElasticStage::Refine { left }),
        ensures
            final(self).well_formed(),
            final(self).comes_after(*old(self), wave),
            final(self).questions_left() < old(self).questions_left(),
            forall|start: ElasticFormula, waves: spec_fn(Double) -> Wave|
                old(self).follows(start, waves) && wave == waves(old(self).asked())
                    ==> #[trigger] final(self).follows(start, waves),
    {
        self.formula.refine(wave);
        self.stage =
        if left == 1 {
            ElasticStage::Settle
        } else {
            ElasticStage::Refine { left: left - 1 }
        };
    }

    /// Takes the wave at the first extremum.
    fn settle(&mut self, wave: Wave)
        requires
            old(self).well_formed(),
            old(self).stage is Settle,
        ensures
            final(self).well_formed(),
            final(self).comes_after(*old(self), wave),
            final(self).questions_left() < old(self).questions_left(),
            forall|start: ElasticFormula, waves: spec_fn(Double) -> Wave|
                old(self).follows(start, waves) && wave == waves(old(self).asked())
                    ==> #[trigger] final(self).follows(start, waves),
    {
        self.formula.settle(wave);
        self.stage = ElasticStage::Search { index: 0, previous: Double::from_bits(ZERO) };
    }

    /// Takes the wave at the next vertex.
    fn draw(&mut self, wave: Wave)
        requires
            old(self).well_formed(),
            old(self).stage is Draw,
            !old(self).finished(),
        ensures
            final(self).well_formed(),
            final(self).comes_after(*old(self), wave),
            final(self).questions_left() < old(self).questions_left(),
            forall|start: ElasticFormula, waves: spec_fn(Double) -> Wave|
                old(self).follows(start, waves) && wave == waves(old(self).asked())
                    ==> #[trigger] final(self).follows(start, waves),
    {
        self.waves.push(wave);
        assert forall|start: ElasticFormula, waves: spec_fn(Double) -> Wave|
            old(self).follows(start, waves) && wave == waves(
                old(self).asked(),
            ) implies #[trigger] self.follows(start, waves) by {
            let all = self.vertices@.map_values(waves);
            let n = old(self).waves.len() as int;
            assert(self.waves@ == old(self).waves@.push(wave));
            assert(all.take(n + 1) =~= all.take(n).push(all[n]));
        }
    }

    /// Takes the wave at the end of interval `index`.
    fn search(&mut self, index: usize, previous: Double, wave: Wave)
        requires
            old(self).well_formed(),
            old(self).stage == (ElasticStage::Search { index, previous }),
        ensures
            final(self).well_formed(),
            final(self).comes_after(*old(self), wave),
            final(self).questions_left() < old(self).questions_left(),
            forall|start: ElasticFormula, waves: spec_fn(Double) -> Wave|
                old(self).follows(start, waves) && wave == waves(old(self).asked())
                    ==> #[trigger] final(self).follows(start, waves),
    {
        let zero = Double::from_bits(ZERO);
        let current = self.formula.base_derivative_numerator(wave);
        if index == 0 {
            self.advance(0, current);
            return;
        }
        let previous_t = grid_progress(index - 1, self.divisions);
        if previous.equals(zero) && zero.is_less(previous_t) {
            self.found.push(previous_t);
            self.advance(index, current);
        } else if !previous.has_sign_of(current) {
            let crossing = Crossing {
                min_t: previous_t,
                max_t: grid_progress(index, self.divisions),
                min_derivative: previous,
                left: HALVINGS,
            };
            self.stage = ElasticStage::Halve { index, current, crossing };
        } else {
            self.advance(index, current);
        }
    }

    /// Takes the wave at the middle of what is left of interval `index`.
    fn halve(&mut self, index: usize, current: Double, crossing: Crossing, wave: Wave)
        requires
            old(self).well_formed(),
            old(self).stage == (ElasticStage::Halve { index, current, crossing }),
        ensures
            final(self).well_formed(),
            final(self).comes_after(*old(self), wave),
            final(self).questions_left() < old(self).questions_left(),
            forall|start: ElasticFormula, waves: spec_fn(Double) -> Wave|
                old(self).follows(start, waves) && wave == waves(old(self).asked())
                    ==> #[trigger] final(self).follows(start, waves),
    {
        let slope = self.formula.base_derivative_numerator(wave);
        let mut half = crossing;
        half.halve(slope);
        assert forall|start: ElasticFormula, waves: spec_fn(Double) -> Wave| #[trigger]
            old(self).follows(start, waves) && wave == waves(old(self).asked()) implies ({
            let done = complete(start, waves);
            &&& self.formula == done
            &&& self.found@ == extrema(done, waves, (index - 1) as nat)
            &&& current == slope_at(done, waves, index as nat)
            &&& extremum_in(done, waves, index as nat) == Some(narrowed(done, waves, half))
        }) by {
            lemma_narrowed(complete(start, waves), waves, crossing);
        }
        if half.left == 0 {
            let moment = half.middle_t();
            assert forall|start: ElasticFormula, waves: spec_fn(Double) -> Wave| #[trigger]
                old(self).follows(start, waves) && wave == waves(old(self).asked()) implies ({
                let done = complete(start, waves);
                &&& self.formula == done
                &&& self.found@.push(moment) == extrema(done, waves, index as nat)
                &&& current == slope_at(done, waves, index as nat)
            }) by {
                lemma_narrowed(complete(start, waves), waves, half);
            }
            self.found.push(moment);
            self.advance(index, current);
        } else {
            self.stage = ElasticStage::Halve { index, current, crossing: half };
        }
    }

    /// Takes the wave at the moment that [`ElasticSampler::question`] gave.
    pub fn answer(&mut self, wave: Wave)
        requires
            old(self).well_formed(),
            !old(self).finished(),
        ensures
            final(self).well_formed(),
            final(self).comes_after(*old(self), wave),
            final(self).questions_left() < old(self).questions_left(),
            forall|start: ElasticFormula, waves: spec_fn(Double) -> Wave|
                old(self).follows(start, waves) && wave == waves(old(self).asked())
                    ==> #[trigger] final(self).follows(start, waves),
    {
        match self.stage {
            ElasticStage::Refine { left } => {
                self.refine(left, wave);
            },
            ElasticStage::Settle => {
                self.settle(wave);
            },
            ElasticStage::Search { index, previous } => {
                self.search(index, previous, wave);
            },
            ElasticStage::Halve { index, current, crossing } => {
                self.halve(index, current, crossing, wave);
            },
            ElasticStage::Draw => {
                self.draw(wave);
            },
        }
    }

    /// The spans of the segment in the unit square.
    pub fn finish(&self) -> (r: Vec<CubicBezierSpan>)
        requires
            self.well_formed(),
            self.finished(),
        ensures
            r@ == elastic_drawing(self.reversed, self.formula, self.vertices@, self.waves@),
            forall|start: ElasticFormula, waves: spec_fn(Double) -> Wave| #[trigger]
                self.follows(start, waves) ==> r@ == elastic_curve(self.reversed, start, waves),
    {
        elastic_spans(self.reversed, &self.formula, &self.vertices, &self.waves)
    }
}

/// One step of halving an interval to the end.
proof fn lemma_narrowed(
    formula: ElasticFormula,
    waves: spec_fn(Double) -> Wave,
    crossing: Crossing,
)
    ensures
        narrowed(formula, waves, crossing) == if crossing.left == 0 {
            crossing.middle()
        } else {
            narrowed(formula, waves, crossing.halved(formula.slope(waves(crossing.middle()))))
        },
{
    reveal(narrowed);
}

/// There are at most two vertices more than extrema, and at least two.
proof fn lemma_piece_ends(found: Seq<Double>)
    ensures
        2 <= piece_ends(found).len() <= found.len() + 2,
{
    lemma_without_repeats(found);
    lemma_filter_len(without_repeats(found), |t: Double| is_inside(t));
}

proof fn lemma_without_repeats(moments: Seq<Double>)
    ensures
        without_repeats(moments).len() <= moments.len(),
    decreases moments.len(),
{
    if moments.len() > 0 {
        lemma_without_repeats(moments.drop_last());
    }
}

proof fn lemma_filter_len(moments: Seq<Double>, keep: spec_fn(Double) -> bool)
    ensures
        moments.filter(keep).len() <= moments.len(),
    decreases moments.len(),
{
    reveal_with_fuel(Seq::filter, 2);
    if moments.len() > 0 {
        lemma_filter_len(moments.drop_last(), keep);
    }
}

/// Turning half round exchanges the ends of the unit interval.
pub proof fn lemma_turned_ends()
    ensures
        difference(number(ONE), number(ONE)) == number(ZERO),
        difference(number(ONE), number(ZERO)) == number(ONE),
{
    lemma_one();
    lemma_magnitude_zero(0);
    number(ONE).lemma_opposite();
    number(ZERO).lemma_opposite();
    assert(number(ZERO).pattern() == 0);
    assert(number(ONE).pattern() == ONE);
    lemma_pow2_pos(UNIT_SHIFT as nat);
    lemma_rounded_exact(one_step(), 1, ONE as nat);
}

/// The spans of an elastic segment reach from the left end of the unit square to
/// its right end.
pub proof fn law_elastic_curve_fills_the_segment(
    reversed: bool,
    formula: ElasticFormula,
    waves: spec_fn(Double) -> Wave,
)
    ensures
        elastic_curve(reversed, formula, waves).len() > 0,
        elastic_curve(reversed, formula, waves)[0].start.x == number(ZERO),
        elastic_curve(reversed, formula, waves).last().end.x == number(ONE),
{
    let done = complete(formula, waves);
    let vertices = vertices_of(done, waves);
    lemma_piece_ends(extrema(done, waves, done.interval_count()));
    lemma_turned_ends();
    assert(vertices[0] == number(ZERO));
    assert(vertices.last() == number(ONE));
}

/// Each span of an elastic segment has its ends on the curve, and its handles along
/// the slopes there.
pub proof fn law_elastic_spans_follow_the_curve(
    formula: ElasticFormula,
    waves: spec_fn(Double) -> Wave,
    k: int,
)
    requires
        0 <= k < elastic_curve(false, formula, waves).len(),
    ensures
        ({
            let span = elastic_curve(false, formula, waves)[k];
            let done = complete(formula, waves);
            let (start_y, start_slope) = done.state(span.start.x, waves(span.start.x));
            let (end_y, end_slope) = done.state(span.end.x, waves(span.end.x));
            &&& span.start.y == start_y
            &&& span.end.y == end_y
            &&& span == hermite(span.start, start_slope, span.end, end_slope)
        }),
{
}

} // verus!
