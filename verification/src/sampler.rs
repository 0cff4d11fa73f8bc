//! Sampling the segments of a curve.
//!
//! Elastic and bounce segments are drawn with functions that are computed
//! elsewhere: exponentials, roots, logarithms, powers, sines and cosines. The
//! sampler asks for the value of one such function after the other.
use crate::bounce::{
    bounce_count, bounce_outline, bounce_root_argument, kept_energy, last_bounce, BounceFormula,
    BounceOutline,
};
use crate::bounce_sampler::{bounce_curve, BounceSampler, MOST_BOUNCES};
use crate::curve::{Curve, TimeControl, TimeControlBounce, TimeControlElastic, TimeControlSegment};
use crate::curve_io::{
    lemma_store_error, sampled_view, spans_view, store_curve, store_segments,
};
use crate::double::Double;
use crate::elastic::{elastic_outline, is_drawable, ElasticFormula, ElasticOutline, Wave};
use crate::elastic_sampler::{elastic_curve, ElasticSampler};
use crate::error::CurveError;
use crate::spans::CubicBezierSpan;
use vstd::prelude::*;

verus! {

// What the sampler draws with given functions.

/// The functions that curves are drawn with.
pub struct Functions {
    pub exp: spec_fn(Double) -> Double,
    pub sqrt: spec_fn(Double) -> Double,
    pub ln: spec_fn(Double) -> Double,
    pub cos: spec_fn(Double) -> Double,
    pub sin: spec_fn(Double) -> Double,
    pub power: spec_fn(Double, Double) -> Double,
    pub whole_power: spec_fn(Double, nat) -> Double,
}

impl Functions {
    /// The wave of an elastic segment at a moment.
    pub open spec fn wave(self, formula: ElasticFormula, progress: Double) -> Wave {
        let angle = formula.angle_at(progress);
        Wave {
            power: (self.power)(formula.exp_k, progress),
            cos: (self.cos)(angle),
            sin: (self.sin)(angle),
        }
    }

    /// The formula of an elastic segment, before its first extremum is found.
    pub open spec fn elastic_formula(self, elastic: TimeControlElastic) -> ElasticFormula {
        let outline = elastic_outline(elastic);
        outline.formula(
            (self.exp)(outline.exponent_of()),
            (self.sqrt)(outline.root_argument_of()),
        )
    }

    /// The spans of an elastic segment in the unit square.
    pub open spec fn elastic(self, elastic: TimeControlElastic) -> Result<
        Seq<CubicBezierSpan>,
        CurveError,
    > {
        if is_drawable(elastic) {
            let formula = self.elastic_formula(elastic);
            Ok(
                elastic_curve(
                    elastic.reversed,
                    formula,
                    |progress: Double| self.wave(formula, progress),
                ),
            )
        } else {
            Err(CurveError::ElasticTooLong)
        }
    }

    /// The outline of a bounce segment.
    pub open spec fn bounce_outline(self, bounce: TimeControlBounce) -> BounceOutline {
        bounce_outline(bounce, (self.sqrt)(kept_energy(bounce)))
    }

    /// The formula of a bounce segment.
    pub open spec fn bounce_formula(self, bounce: TimeControlBounce) -> BounceFormula {
        let outline = self.bounce_outline(bounce);
        let count = bounce_count(
            (self.ln)(outline.last_share()),
            (self.ln)(outline.cor),
        );
        outline.formula((self.power)(outline.cor, count))
    }

    /// The spans of a bounce segment in the unit square. `None` where the drawing
    /// does not end before bounce `limit`.
    pub open spec fn bounce(self, bounce: TimeControlBounce, limit: nat) -> Option<
        Result<Seq<CubicBezierSpan>, CurveError>,
    > {
        let formula = self.bounce_formula(bounce);
        bounce_curve(
            bounce.reversed,
            formula,
            |exponent: nat| (self.whole_power)(formula.cor, exponent),
            limit,
        )
    }

    /// The spans of a segment in the unit square. A Bezier segment needs none.
    #[verifier::opaque]
    pub open spec fn segment(self, segment: TimeControlSegment, limit: nat) -> Option<
        Result<Seq<CubicBezierSpan>, CurveError>,
    > {
        match segment {
            TimeControlSegment::Bezier(_) => Some(Ok(Seq::empty())),
            TimeControlSegment::Elastic(elastic) => Some(self.elastic(elastic)),
            TimeControlSegment::Bounce(bounce) => self.bounce(bounce, limit),
        }
    }
}

// The sampler.

/// A function whose value the sampler asks for.
#[derive(Clone, Copy, Debug, PartialEq, Eq, Structural)]
pub enum Question {
    Exp(Double),
    Sqrt(Double),
    Ln(Double),
    Power { base: Double, exponent: Double },
    WholePower { base: Double, whole: u32 },
    /// `base` to the power `exponent`, and the cosine and the sine of `angle`.
    Wave { base: Double, exponent: Double, angle: Double },
}

/// The value of a function.
#[derive(Clone, Copy, Debug, PartialEq, Eq, Structural)]
pub enum Answer {
    Number(Double),
    Wave(Wave),
}

impl Question {
    /// The answer with the given functions.
    pub open spec fn answer(self, functions: Functions) -> Answer {
        match self {
            Question::Exp(x) => Answer::Number((functions.exp)(x)),
            Question::Sqrt(x) => Answer::Number((functions.sqrt)(x)),
            Question::Ln(x) => Answer::Number((functions.ln)(x)),
            Question::Power { base, exponent } => Answer::Number((functions.power)(base, exponent)),
            Question::WholePower { base, whole } => Answer::Number(
                (functions.whole_power)(base, whole as nat),
            ),
            Question::Wave { base, exponent, angle } => Answer::Wave(
                Wave {
                    power: (functions.power)(base, exponent),
                    cos: (functions.cos)(angle),
                    sin: (functions.sin)(angle),
                },
            ),
        }
    }
}

/// A segment being sampled.
#[derive(Debug)]
#[allow(inconsistent_fields)]
pub enum SegmentSampler {
    /// The exponential of an elastic segment's decay is to be taken.
    ElasticExponent { elastic: TimeControlElastic, outline: ElasticOutline },
    /// The root that places an elastic segment's first extremum is to be taken.
    ElasticRoot { elastic: TimeControlElastic, outline: ElasticOutline, exp_k: Double },
    /// The waves of an elastic segment are to be taken.
    Elastic(ElasticSampler),
    /// The root of the energy that a ball keeps is to be taken.
    BounceRoot { bounce: TimeControlBounce },
    /// The logarithm of a ball's last share of speed is to be taken.
    BounceShare { bounce: TimeControlBounce, outline: BounceOutline },
    /// The logarithm of the share of speed that a ball keeps is to be taken.
    BounceCor { bounce: TimeControlBounce, outline: BounceOutline, log_share: Double },
    /// The power that ends a ball's last whole bounce is to be taken.
    BouncePower { bounce: TimeControlBounce, outline: BounceOutline, count: Double },
    /// The powers of a bounce segment are to be taken.
    Bounce(BounceSampler),
    Finished(Result<Vec<CubicBezierSpan>, CurveError>),
}

impl SegmentSampler {
    pub open spec fn well_formed(self) -> bool {
        match self {
            SegmentSampler::Elastic(sampler) => sampler.well_formed() && !sampler.finished(),
            SegmentSampler::Bounce(sampler) => sampler.well_formed() && !sampler.finished(),
            _ => true,
        }
    }

    /// Whether an answer is one to the question that was asked.
    pub open spec fn fits(self, answer: Answer) -> bool {
        match self {
            SegmentSampler::Finished(_) => false,
            SegmentSampler::Elastic(_) => answer is Wave,
            _ => answer is Number,
        }
    }

    /// Whether a ball bounces more often than can be counted.
    pub open spec fn exhausted(self) -> bool {
        self matches SegmentSampler::Bounce(sampler) && sampler.index >= MOST_BOUNCES
    }

    /// What is asked next.
    pub open spec fn asked(self) -> Option<Question> {
        match self {
            SegmentSampler::ElasticExponent { outline, .. } => Some(
                Question::Exp(outline.exponent_of()),
            ),
            SegmentSampler::ElasticRoot { outline, .. } => Some(
                Question::Sqrt(outline.root_argument_of()),
            ),
            SegmentSampler::Elastic(sampler) => Some(
                Question::Wave {
                    base: sampler.formula.exp_k,
                    exponent: sampler.asked(),
                    angle: sampler.formula.angle_at(sampler.asked()),
                },
            ),
            SegmentSampler::BounceRoot { bounce } => Some(Question::Sqrt(kept_energy(bounce))),
            SegmentSampler::BounceShare { outline, .. } => Some(
                Question::Ln(outline.last_share()),
            ),
            SegmentSampler::BounceCor { outline, .. } => Some(Question::Ln(outline.cor)),
            SegmentSampler::BouncePower { outline, count, .. } => Some(
                Question::Power { base: outline.cor, exponent: count },
            ),
            SegmentSampler::Bounce(sampler) => Some(
                Question::WholePower {
                    base: sampler.formula.cor,
                    whole: sampler.asked() as u32,
                },
            ),
            SegmentSampler::Finished(_) => None,
        }
    }

    /// Whether all that the sampler knows of a segment is what the functions give.
    #[verifier::opaque]
    pub open spec fn follows(self, segment: TimeControlSegment, functions: Functions) -> bool {
        match self {
            SegmentSampler::ElasticExponent { elastic, outline } => segment
                == TimeControlSegment::Elastic(elastic) && is_drawable(elastic) && outline
                == elastic_outline(elastic),
            SegmentSampler::ElasticRoot { elastic, outline, exp_k } => segment
                == TimeControlSegment::Elastic(elastic) && is_drawable(elastic) && outline
                == elastic_outline(elastic) && exp_k == (functions.exp)(
                outline.exponent_of(),
            ),
            SegmentSampler::Elastic(sampler) => segment matches TimeControlSegment::Elastic(elastic)
                && is_drawable(elastic) && sampler.reversed == elastic.reversed && {
                let formula = functions.elastic_formula(elastic);
                &&& sampler.formula.exp_k == formula.exp_k
                &&& sampler.formula.omega == formula.omega
                &&& sampler.follows(
                    formula,
                    |progress: Double| functions.wave(formula, progress),
                )
            },
            SegmentSampler::BounceRoot { bounce } => segment == TimeControlSegment::Bounce(bounce),
            SegmentSampler::BounceShare { bounce, outline } => segment
                == TimeControlSegment::Bounce(bounce) && outline == functions.bounce_outline(
                bounce,
            ),
            SegmentSampler::BounceCor { bounce, outline, log_share } => segment
                == TimeControlSegment::Bounce(bounce) && outline == functions.bounce_outline(
                bounce,
            ) && log_share == (functions.ln)(outline.last_share()),
            SegmentSampler::BouncePower { bounce, outline, count } => segment
                == TimeControlSegment::Bounce(bounce) && outline == functions.bounce_outline(
                bounce,
            ) && count == bounce_count(
                (functions.ln)(outline.last_share()),
                (functions.ln)(outline.cor),
            ),
            SegmentSampler::Bounce(sampler) => segment matches TimeControlSegment::Bounce(bounce)
                && sampler.reversed == bounce.reversed && {
                let formula = functions.bounce_formula(bounce);
                &&& sampler.formula == formula
                &&& sampler.follows(
                    |exponent: nat| (functions.whole_power)(formula.cor, exponent),
                )
            },
            SegmentSampler::Finished(result) => forall|limit: nat|
                limit > MOST_BOUNCES ==> #[trigger] functions.segment(segment, limit) == Some(
                    spans_view(result),
                ),
        }
    }

    /// Whether the sampler is the one that `before` becomes when it is told the
    /// number that it asked for.
    pub open spec fn comes_after_number(self, before: Self, number: Double) -> bool {
        match before {
            SegmentSampler::ElasticExponent { elastic, outline } => self
                == (SegmentSampler::ElasticRoot { elastic, outline, exp_k: number }),
            SegmentSampler::ElasticRoot { elastic, outline, exp_k } => {
                &&& self matches SegmentSampler::Elastic(sampler)
                &&& sampler.is_begun(elastic.reversed, outline.formula(exp_k, number))
            },
            SegmentSampler::BounceRoot { bounce } => {
                let outline = bounce_outline(bounce, number);
                if outline.cut_off() {
                    self == (SegmentSampler::BounceShare { bounce, outline })
                } else {
                    &&& self matches SegmentSampler::Bounce(sampler)
                    &&& sampler.is_begun(bounce.reversed, outline.formula(number))
                }
            },
            SegmentSampler::BounceShare { bounce, outline } => self == (SegmentSampler::BounceCor {
                bounce,
                outline,
                log_share: number,
            }),
            SegmentSampler::BounceCor { bounce, outline, log_share } => self
                == (SegmentSampler::BouncePower {
                bounce,
                outline,
                count: bounce_count(log_share, number),
            }),
            SegmentSampler::BouncePower { bounce, outline, count } => {
                &&& self matches SegmentSampler::Bounce(sampler)
                &&& sampler.is_begun(bounce.reversed, outline.formula(number))
            },
            SegmentSampler::Bounce(old_sampler) => match self {
                SegmentSampler::Bounce(sampler) => !sampler.finished() && sampler.comes_after(
                    old_sampler,
                    number,
                ),
                SegmentSampler::Finished(result) => old_sampler.ends_after(
                    number,
                    spans_view(result),
                ),
                _ => false,
            },
            _ => false,
        }
    }

    /// Whether the sampler is the one that `before` becomes when it is told the
    /// wave that it asked for.
    pub open spec fn comes_after_wave(self, before: Self, wave: Wave) -> bool {
        match (before, self) {
            (SegmentSampler::Elastic(old_sampler), SegmentSampler::Elastic(sampler)) =>
                !sampler.finished() && sampler.comes_after(old_sampler, wave),
            (SegmentSampler::Elastic(old_sampler), SegmentSampler::Finished(result)) =>
                old_sampler.ends_after(wave, spans_view(result)),
            _ => false,
        }
    }

    /// A sampler of a segment.
    pub fn new(segment: &TimeControlSegment) -> (r: SegmentSampler)
        ensures
            r.well_formed(),
            match *segment {
                TimeControlSegment::Bezier(_) => r matches SegmentSampler::Finished(result)
                    && spans_view(result) == Ok::<Seq<CubicBezierSpan>, CurveError>(Seq::empty()),
                TimeControlSegment::Elastic(elastic) => if is_drawable(elastic) {
                    r == (SegmentSampler::ElasticExponent {
                        elastic,
                        outline: elastic_outline(elastic),
                    })
                } else {
                    r matches SegmentSampler::Finished(result) && spans_view(result) == Err::<
                        Seq<CubicBezierSpan>,
                        CurveError,
                    >(CurveError::ElasticTooLong)
                },
                TimeControlSegment::Bounce(bounce) => r == (SegmentSampler::BounceRoot { bounce }),
            },
            forall|functions: Functions| #[trigger] r.follows(*segment, functions),
    {
        proof {
            reveal(SegmentSampler::follows);
            reveal(Functions::segment);
        }
        match segment {
            TimeControlSegment::Bezier(_) => {
                let none: Vec<CubicBezierSpan> = Vec::new();
                assert(none@ =~= Seq::<CubicBezierSpan>::empty());
                SegmentSampler::Finished(Ok(none))
            },
            TimeControlSegment::Elastic(elastic) => match ElasticOutline::new(elastic) {
                Ok(outline) => SegmentSampler::ElasticExponent { elastic: *elastic, outline },
                Err(e) => SegmentSampler::Finished(Err(e)),
            },
            TimeControlSegment::Bounce(bounce) => SegmentSampler::BounceRoot { bounce: *bounce },
        }
    }

    /// The function whose value is needed next, if any is.
    pub fn question(&self) -> (r: Option<Question>)
        requires
            self.well_formed(),
        ensures
            r == self.asked(),
    {
        match self {
            SegmentSampler::ElasticExponent { outline, .. } => Some(
                Question::Exp(outline.exponent()),
            ),
            SegmentSampler::ElasticRoot { outline, .. } => Some(
                Question::Sqrt(outline.root_argument()),
            ),
            SegmentSampler::Elastic(sampler) => match sampler.question() {
                Some(progress) => Some(
                    Question::Wave {
                        base: sampler.formula.exp_k,
                        exponent: progress,
                        angle: sampler.formula.angle(progress),
                    },
                ),
                None => None,
            },
            SegmentSampler::BounceRoot { bounce } => Some(
                Question::Sqrt(bounce_root_argument(bounce)),
            ),
            SegmentSampler::BounceShare { outline, .. } => Some(
                Question::Ln(outline.log_argument()),
            ),
            SegmentSampler::BounceCor { outline, .. } => Some(Question::Ln(outline.cor)),
            SegmentSampler::BouncePower { outline, count, .. } => Some(
                Question::Power { base: outline.cor, exponent: *count },
            ),
            SegmentSampler::Bounce(sampler) => match sampler.question() {
                Some(whole) => Some(
                    Question::WholePower { base: sampler.formula.cor, whole },
                ),
                None => None,
            },
            SegmentSampler::Finished(_) => None,
        }
    }

    /// Whether a ball bounces more often than can be counted.
    pub fn is_exhausted(&self) -> (r: bool)
        ensures
            r == self.exhausted(),
    {
        match self {
            SegmentSampler::Bounce(sampler) => sampler.index >= MOST_BOUNCES,
            _ => false,
        }
    }

    /// Takes the wave that was asked for.
    fn take_wave(sampler: ElasticSampler, wave: Wave) -> (r: SegmentSampler)
        requires
            sampler.well_formed(),
            !sampler.finished(),
        ensures
            r.well_formed(),
            r.comes_after_wave(SegmentSampler::Elastic(sampler), wave),
            forall|segment: TimeControlSegment, functions: Functions|
                {
                    let before = SegmentSampler::Elastic(sampler);
                    &&& before.follows(segment, functions)
                    &&& Answer::Wave(wave) == before.asked()->0.answer(functions)
                } ==> #[trigger] r.follows(segment, functions),
    {
        proof {
            reveal(SegmentSampler::follows);
            reveal(Functions::segment);
        }
        let ghost before = SegmentSampler::Elastic(sampler);
        let mut next = sampler;
        next.answer(wave);
        assert forall|segment: TimeControlSegment, functions: Functions|
            #[trigger] before.follows(segment, functions) && Answer::Wave(wave)
                == before.asked()->0.answer(functions) implies SegmentSampler::Elastic(
            next,
        ).follows(segment, functions) by {
            let elastic = segment->Elastic_0;
            let formula = functions.elastic_formula(elastic);
            let waves = |progress: Double| functions.wave(formula, progress);
            assert(sampler.follows(formula, waves));
            assert(wave == waves(sampler.asked()));
            assert(next.follows(formula, waves));
        }
        if next.question().is_some() {
            SegmentSampler::Elastic(next)
        } else {
            let spans = next.finish();
            assert forall|segment: TimeControlSegment, functions: Functions|
                #[trigger] before.follows(segment, functions) && Answer::Wave(wave)
                    == before.asked()->0.answer(functions) implies functions.segment(
                segment,
                0,
            ) == Some(Ok::<Seq<CubicBezierSpan>, CurveError>(spans@)) by {
                assert(SegmentSampler::Elastic(next).follows(segment, functions));
                let elastic = segment->Elastic_0;
                let formula = functions.elastic_formula(elastic);
                let waves = |progress: Double| functions.wave(formula, progress);
                assert(next.follows(formula, waves));
            }
            SegmentSampler::Finished(Ok(spans))
        }
    }

    /// Takes the power that was asked for.
    fn take_power(sampler: BounceSampler, power: Double) -> (r: SegmentSampler)
        requires
            sampler.well_formed(),
            !sampler.finished(),
            sampler.index < MOST_BOUNCES,
        ensures
            r.well_formed(),
            r.comes_after_number(SegmentSampler::Bounce(sampler), power),
            forall|segment: TimeControlSegment, functions: Functions|
                {
                    let before = SegmentSampler::Bounce(sampler);
                    &&& before.follows(segment, functions)
                    &&& Answer::Number(power) == before.asked()->0.answer(functions)
                } ==> #[trigger] r.follows(segment, functions),
    {
        proof {
            reveal(SegmentSampler::follows);
            reveal(Functions::segment);
        }
        let ghost before = SegmentSampler::Bounce(sampler);
        let mut next = sampler;
        next.answer(power);
        assert forall|segment: TimeControlSegment, functions: Functions|
            #[trigger] before.follows(segment, functions) && Answer::Number(power)
                == before.asked()->0.answer(functions) implies SegmentSampler::Bounce(
            next,
        ).follows(segment, functions) by {
            let bounce = segment->Bounce_0;
            let formula = functions.bounce_formula(bounce);
            let powers = |exponent: nat| (functions.whole_power)(formula.cor, exponent);
            assert(sampler.follows(powers));
            assert(power == powers(sampler.asked()));
            assert(next.follows(powers));
        }
        if next.question().is_some() {
            SegmentSampler::Bounce(next)
        } else {
            let ghost last = next;
            let result = next.finish();
            assert forall|segment: TimeControlSegment, functions: Functions, limit: nat|
                before.follows(segment, functions) && Answer::Number(power)
                    == before.asked()->0.answer(functions) && limit
                    > MOST_BOUNCES implies #[trigger] functions.segment(segment, limit) == Some(
                spans_view(result),
            ) by {
                assert(SegmentSampler::Bounce(last).follows(segment, functions));
                let bounce = segment->Bounce_0;
                let formula = functions.bounce_formula(bounce);
                let powers = |exponent: nat| (functions.whole_power)(formula.cor, exponent);
                assert(last.follows(powers));
                assert(bounce_curve(last.reversed, last.formula, powers, limit) == Some(
                    spans_view(result),
                ));
            }
            SegmentSampler::Finished(result)
        }
    }

    /// Takes the number that was asked for.
    fn take_number(self, number: Double) -> (r: SegmentSampler)
        requires
            self.well_formed(),
            self.fits(Answer::Number(number)),
            !self.exhausted(),
        ensures
            r.well_formed(),
            r.comes_after_number(self, number),
            forall|segment: TimeControlSegment, functions: Functions|
                self.follows(segment, functions) && Answer::Number(number)
                    == self.asked()->0.answer(functions) ==> #[trigger] r.follows(
                    segment,
                    functions,
                ),
    {
        proof {
            reveal(SegmentSampler::follows);
            reveal(Functions::segment);
        }
        match self {
            SegmentSampler::ElasticExponent { elastic, outline } => SegmentSampler::ElasticRoot {
                elastic,
                outline,
                exp_k: number,
            },
            SegmentSampler::ElasticRoot { elastic, outline, exp_k } => SegmentSampler::Elastic(
                ElasticSampler::new(&elastic, ElasticFormula::new(outline, exp_k, number)),
            ),
            SegmentSampler::BounceRoot { bounce } => {
                let outline = BounceOutline::new(&bounce, number);
                if outline.is_cut_off() {
                    SegmentSampler::BounceShare { bounce, outline }
                } else {
                    SegmentSampler::Bounce(
                        BounceSampler::new(&bounce, BounceFormula::new(outline, number)),
                    )
                }
            },
            SegmentSampler::BounceShare { bounce, outline } => SegmentSampler::BounceCor {
                bounce,
                outline,
                log_share: number,
            },
            SegmentSampler::BounceCor { bounce, outline, log_share } => {
                SegmentSampler::BouncePower {
                    bounce,
                    outline,
                    count: last_bounce(log_share, number),
                }
            },
            SegmentSampler::BouncePower { bounce, outline, count } => SegmentSampler::Bounce(
                BounceSampler::new(&bounce, BounceFormula::new(outline, number)),
            ),
            SegmentSampler::Bounce(sampler) => Self::take_power(sampler, number),
            other => other,
        }
    }

    /// Takes the answer to the question that was asked.
    pub fn answer(self, answer: Answer) -> (r: SegmentSampler)
        requires
            self.well_formed(),
            self.fits(answer),
            !self.exhausted(),
        ensures
            r.well_formed(),
            is_step(self, answer, r),
            forall|segment: TimeControlSegment, functions: Functions|
                self.follows(segment, functions) && answer == self.asked()->0.answer(functions)
                    ==> #[trigger] r.follows(segment, functions),
    {
        proof {
            reveal(is_step);
        }
        match answer {
            Answer::Number(number) => self.take_number(number),
            Answer::Wave(wave) => match self {
                SegmentSampler::Elastic(sampler) => Self::take_wave(sampler, wave),
                other => other,
            },
        }
    }
}

/// Whether one state of a sampler comes after another with the given answer.
#[verifier::opaque]
pub open spec fn is_step(before: SegmentSampler, answer: Answer, after: SegmentSampler) -> bool {
    match answer {
        Answer::Number(number) => after.comes_after_number(before, number),
        Answer::Wave(wave) => after.comes_after_wave(before, wave),
    }
}

/// A curve whose segments are being sampled. Sampling stops at the first segment
/// that cannot be drawn, and does not begin where the curve has not one point more
/// than segments.
#[derive(Debug)]
pub struct CurveSampler {
    pub segments: Vec<TimeControlSegment>,
    /// The spans of the first segments.
    pub sampled: Vec<Result<Vec<CubicBezierSpan>, CurveError>>,
    /// The next segment, being sampled.
    pub current: SegmentSampler,
    /// Why sampling stopped.
    pub failure: Option<CurveError>,
}

impl CurveSampler {
    pub open spec fn finished(self) -> bool {
        self.failure is Some || self.sampled.len() == self.segments.len()
    }

    pub open spec fn well_formed(self) -> bool {
        &&& self.sampled.len() <= self.segments.len()
        &&& self.current.well_formed()
        &&& !self.finished() ==> !(self.current is Finished)
        &&& self.is_stopped_rightly()
    }

    /// Whether only the last of the segments sampled so far can have failed, and
    /// sampling has stopped if it has.
    pub open spec fn is_stopped_rightly(self) -> bool {
        let n = self.sampled.len() as int;
        &&& forall|i: int| 0 <= i < n - 1 ==> (#[trigger] self.sampled@[i]) is Ok
        &&& n > 0 ==> match self.failure {
            None => self.sampled@[n - 1] is Ok,
            Some(e) => spans_view(self.sampled@[n - 1]) == Err::<Seq<CubicBezierSpan>, CurveError>(
                e,
            ),
        }
    }

    /// Whether the first segments are sampled as the functions give it.
    pub open spec fn sampled_follow(self, functions: Functions) -> bool {
        forall|i: int, limit: nat|
            0 <= i < self.sampled.len() && limit > MOST_BOUNCES ==> #[trigger] functions.segment(
                self.segments@[i],
                limit,
            ) == Some(spans_view(self.sampled@[i]))
    }

    /// Whether all that the sampler knows is what the functions give.
    pub open spec fn follows(self, functions: Functions) -> bool {
        &&& self.sampled_follow(functions)
        &&& !self.finished() ==> self.current.follows(
            self.segments@[self.sampled.len() as int],
            functions,
        )
    }

    /// Takes the spans of a finished segment, and begins the next one.
    fn take_segment(&mut self, result: Result<Vec<CubicBezierSpan>, CurveError>)
        requires
            !old(self).finished(),
            old(self).sampled.len() <= old(self).segments.len(),
            old(self).is_stopped_rightly(),
        ensures
            final(self).sampled.len() <= final(self).segments.len(),
            final(self).current.well_formed(),
            final(self).is_stopped_rightly(),
            final(self).segments == old(self).segments,
            final(self).sampled@ == old(self).sampled@.push(result),
            forall|functions: Functions|
                old(self).sampled_follow(functions) && SegmentSampler::Finished(result).follows(
                    old(self).segments@[old(self).sampled.len() as int],
                    functions,
                ) ==> #[trigger] final(self).follows(functions),
    {
        let n = self.sampled.len();
        let failure: Option<CurveError> = match &result {
            Ok(_) => None,
            Err(e) => Some(*e),
        };
        self.failure = failure;
        self.sampled.push(result);
        self.current =
        if n + 1 < self.segments.len() {
            SegmentSampler::new(&self.segments[n + 1])
        } else {
            SegmentSampler::Finished(Ok(Vec::new()))
        };
        assert forall|i: int| 0 <= i < n implies (#[trigger] self.sampled@[i]) is Ok by {
            assert(self.sampled@[i] == old(self).sampled@[i]);
        }
        assert forall|functions: Functions|
            old(self).sampled_follow(functions) && SegmentSampler::Finished(result).follows(
                old(self).segments@[n as int],
                functions,
            ) implies #[trigger] self.follows(functions) by {
            reveal(SegmentSampler::follows);
            assert forall|i: int, limit: nat|
                0 <= i < self.sampled.len() && limit
                    > MOST_BOUNCES implies #[trigger] functions.segment(
                self.segments@[i],
                limit,
            ) == Some(spans_view(self.sampled@[i])) by {
                if i < n {
                    assert(functions.segment(old(self).segments@[i], limit) == Some(
                        spans_view(old(self).sampled@[i]),
                    ));
                }
            }
        }
    }

    /// Takes the spans of the segments that are finished, and begins the next one.
    fn settle(&mut self)
        requires
            old(self).sampled.len() <= old(self).segments.len(),
            old(self).current.well_formed(),
            old(self).is_stopped_rightly(),
        ensures
            final(self).well_formed(),
            final(self).segments == old(self).segments,
            old(self).sampled.len() <= final(self).sampled.len(),
            final(self).sampled@.take(old(self).sampled.len() as int) == old(self).sampled@,
            !old(self).finished() && old(self).current is Finished ==> final(self).sampled.len()
                > old(self).sampled.len() && final(self).sampled@[old(self).sampled.len() as int]
                == old(self).current->Finished_0,
            old(self).finished() || !(old(self).current is Finished) ==> *final(self) == *old(self),
            final(self).sampled.len() == old(self).sampled.len() ==> final(self).failure == old(
                self,
            ).failure,
            forall|functions: Functions| #[trigger]
                old(self).follows(functions) ==> final(self).follows(functions),
    {
        let ghost start = *self;
        assert(self.sampled@.take(start.sampled.len() as int) =~= start.sampled@);
        loop
            invariant
                start == *old(self),
                self.sampled.len() <= self.segments.len(),
                self.current.well_formed(),
                self.is_stopped_rightly(),
                self.segments == start.segments,
                start.sampled.len() <= self.sampled.len(),
                self.sampled@.take(start.sampled.len() as int) == start.sampled@,
                self.sampled.len() == start.sampled.len() ==> *self == start,
                self.sampled.len() > start.sampled.len() ==> !start.finished()
                    && start.current is Finished && self.sampled@[start.sampled.len() as int]
                    == start.current->Finished_0,
                forall|functions: Functions| #[trigger]
                    start.follows(functions) ==> self.follows(functions),
            ensures
                self.finished() || !(self.current is Finished),
            decreases self.segments.len() - self.sampled.len(),
        {
            if self.failure.is_some() || self.sampled.len() == self.segments.len() {
                break ;
            }
            let ghost before = *self;
            let mut next = SegmentSampler::Finished(Ok(Vec::new()));
            std::mem::swap(&mut self.current, &mut next);
            match next {
                SegmentSampler::Finished(result) => {
                    self.take_segment(result);
                    assert(self.sampled@.take(start.sampled.len() as int)
                        =~= before.sampled@.take(start.sampled.len() as int));
                    assert forall|functions: Functions| #[trigger]
                        start.follows(functions) implies self.follows(functions) by {
                        assert(before.follows(functions));
                    }
                },
                other => {
                    self.current = other;
                    break ;
                },
            }
        }
    }

    /// A sampler of all segments of a curve.
    pub fn new(curve: &TimeControl) -> (r: CurveSampler)
        ensures
            r.well_formed(),
            r.segments@ == curve@.segments,
            !curve@.well_formed() ==> r.sampled.len() == 0 && r.failure == Some(
                if curve@.segments.len() == 0 {
                    CurveError::NothingToStore
                } else {
                    CurveError::Inconsistent
                },
            ),
            curve@.well_formed() && r.failure is Some ==> r.sampled.len() > 0,
            forall|functions: Functions| #[trigger] r.follows(functions),
    {
        let segments = curve.segments.clone();
        let failure: Option<CurveError> = if segments.len() == 0 {
            Some(CurveError::NothingToStore)
        } else if curve.points.len() == 0 || curve.points.len() - 1 != segments.len() {
            Some(CurveError::Inconsistent)
        } else {
            None
        };
        let current = if segments.len() > 0 {
            SegmentSampler::new(&segments[0])
        } else {
            SegmentSampler::Finished(Ok(Vec::new()))
        };
        let mut r = CurveSampler { segments, sampled: Vec::new(), current, failure };
        let ghost before = r;
        r.settle();
        assert forall|functions: Functions| #[trigger] r.follows(functions) by {
            assert(before.follows(functions));
        }
        r
    }

    /// The function whose value is needed next, if any is.
    pub fn question(&self) -> (r: Option<Question>)
        requires
            self.well_formed(),
        ensures
            r == if self.finished() {
                None
            } else {
                self.current.asked()
            },
            r is None <==> self.finished(),
    {
        if self.failure.is_some() || self.sampled.len() == self.segments.len() {
            None
        } else {
            self.current.question()
        }
    }

    /// Takes the answer to the question that was asked.
    pub fn answer(&mut self, answer: Answer)
        requires
            old(self).well_formed(),
            !old(self).finished(),
            old(self).current.fits(answer),
            !old(self).current.exhausted(),
        ensures
            final(self).well_formed(),
            final(self).segments == old(self).segments,
            final(self).sampled@.take(old(self).sampled.len() as int) == old(self).sampled@,
            if final(self).sampled.len() == old(self).sampled.len() {
                final(self).failure is None && is_step(
                    old(self).current,
                    answer,
                    final(self).current,
                )
            } else {
                is_step(
                    old(self).current,
                    answer,
                    SegmentSampler::Finished(
                        final(self).sampled@[old(self).sampled.len() as int],
                    ),
                )
            },
            forall|functions: Functions|
                old(self).follows(functions) && answer == old(self).current.asked()->0.answer(
                    functions,
                ) ==> #[trigger] final(self).follows(functions),
    {
        let mut current = SegmentSampler::Finished(Ok(Vec::new()));
        std::mem::swap(&mut self.current, &mut current);
        self.current = current.answer(answer);
        let ghost before = *self;
        assert forall|functions: Functions|
            old(self).follows(functions) && answer == old(self).current.asked()->0.answer(
                functions,
            ) implies #[trigger] before.follows(functions) by {
            let segment = self.segments@[self.sampled.len() as int];
            assert(old(self).current.follows(segment, functions));
            assert(self.current.follows(segment, functions));
            assert forall|i: int, limit: nat|
                0 <= i < before.sampled.len() && limit
                    > MOST_BOUNCES implies #[trigger] functions.segment(
                before.segments@[i],
                limit,
            ) == Some(spans_view(before.sampled@[i])) by {
                assert(functions.segment(old(self).segments@[i], limit) == Some(
                    spans_view(old(self).sampled@[i]),
                ));
            }
        }
        self.settle();
        assert forall|functions: Functions|
            old(self).follows(functions) && answer == old(self).current.asked()->0.answer(
                functions,
            ) implies #[trigger] self.follows(functions) by {
            assert(before.follows(functions));
        }
    }

    /// The spans of all segments. Where sampling stopped, those of the segments
    /// that were not sampled are given as the failure that stopped it.
    pub fn finish(self) -> (r: Vec<Result<Vec<CubicBezierSpan>, CurveError>>)
        requires
            self.well_formed(),
            self.finished(),
        ensures
            r.len() == self.segments.len(),
            forall|i: int| 0 <= i < self.sampled.len() ==> r@[i] == self.sampled@[i],
            forall|i: int|
                self.sampled.len() <= i < r.len() ==> spans_view(#[trigger] r@[i]) == Err::<
                    Seq<CubicBezierSpan>,
                    CurveError,
                >(self.failure->0),
            forall|functions: Functions, i: int, limit: nat|
                self.follows(functions) && 0 <= i < self.sampled.len() && limit > MOST_BOUNCES
                    ==> Some(sampled_view(r@)[i]) == #[trigger] functions.segment(
                    self.segments@[i],
                    limit,
                ),
    {
        let mut r = self.sampled;
        let ghost n = r.len() as int;
        if let Some(e) = self.failure {
            while r.len() < self.segments.len()
                invariant
                    self.failure == Some(e),
                    n == self.sampled.len(),
                    n <= r.len() <= self.segments.len(),
                    forall|i: int| 0 <= i < n ==> r@[i] == self.sampled@[i],
                    forall|i: int|
                        n <= i < r.len() ==> spans_view(#[trigger] r@[i]) == Err::<
                            Seq<CubicBezierSpan>,
                            CurveError,
                        >(e),
                decreases self.segments.len() - r.len(),
            {
                r.push(Err(e));
            }
        }
        assert forall|functions: Functions, i: int, limit: nat|
            self.follows(functions) && 0 <= i < self.sampled.len() && limit
                > MOST_BOUNCES implies Some(sampled_view(r@)[i]) == #[trigger] functions.segment(
            self.segments@[i],
            limit,
        ) by {
            assert(r@[i] == self.sampled@[i]);
        }
        r
    }
}

/// Storing the first segments reads only their own spans.
proof fn lemma_store_reads_first_spans(
    curve: Curve,
    a: Seq<Result<Seq<CubicBezierSpan>, CurveError>>,
    b: Seq<Result<Seq<CubicBezierSpan>, CurveError>>,
    n: nat,
)
    requires
        forall|i: int| 0 <= i < n ==> a[i] == b[i],
    ensures
        store_segments(curve, a, n) == store_segments(curve, b, n),
    decreases n,
{
    if n > 0 {
        lemma_store_reads_first_spans(curve, a, b, (n - 1) as nat);
    }
}

/// What is stored of a curve does not depend on the spans after a segment that
/// could not be drawn, so that sampling may stop there.
pub proof fn law_sampling_may_stop_at_a_failure(
    curve: Curve,
    a: Seq<Result<Seq<CubicBezierSpan>, CurveError>>,
    b: Seq<Result<Seq<CubicBezierSpan>, CurveError>>,
    k: int,
)
    requires
        0 <= k < curve.segments.len(),
        !(curve.segments[k] is Bezier),
        a[k] is Err,
        forall|i: int| 0 <= i <= k ==> a[i] == b[i],
    ensures
        store_curve(curve, a) == store_curve(curve, b),
{
    let n = (k + 1) as nat;
    lemma_store_reads_first_spans(curve, a, b, n);
    assert(store_segments(curve, a, n) is Err);
    lemma_store_error(curve, a, n, curve.segments.len());
    lemma_store_error(curve, b, n, curve.segments.len());
}

/// What is stored of a curve that is not well formed does not depend on spans at
/// all.
pub proof fn law_nothing_is_sampled_of_an_inconsistent_curve(
    curve: Curve,
    a: Seq<Result<Seq<CubicBezierSpan>, CurveError>>,
    b: Seq<Result<Seq<CubicBezierSpan>, CurveError>>,
)
    requires
        !curve.well_formed(),
    ensures
        store_curve(curve, a) == store_curve(curve, b),
{
}

} // verus!
