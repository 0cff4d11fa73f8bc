//! Elastic segments: an oscillation that dies down to the line at height one.
//!
//! Exponentials, powers, sines and cosines are computed elsewhere. Where a
//! formula needs one, a function gives its argument and another one takes its
//! value.
use crate::arithmetic::{difference, product, quotient, sum};
use crate::conversion::whole;
use crate::curve::{Position, TimeControlElastic};
use crate::double::Double;
use crate::error::CurveError;
use crate::numbers::{
    lemma_number_order, number, BILLIONTH, EIGHT, FOUR, HALF, MOST_POINTS, ONE, PI, TWENTIETH, TWO,
    ZERO,
};
use crate::spans::{hermite, hermite_span, reverse_spans, turned_spans, CubicBezierSpan};
use vstd::prelude::*;

verus! {

/// How often an interval is halved in the search for an extremum.
pub const HALVINGS: u32 = 48;

/// How often the guess at the first extremum is refined.
pub const REFINEMENTS: u32 = 3;

/// The parameters of an elastic segment, held in their ranges.
#[derive(Clone, Copy, Debug, PartialEq, Eq, Structural)]
pub struct ElasticOutline {
    pub amplitude: Double,
    pub frequency: Double,
    pub decay: Double,
    /// The angle through which the oscillation runs.
    pub omega: Double,
}

/// The outline of an elastic segment.
pub open spec fn elastic_outline(elastic: TimeControlElastic) -> ElasticOutline {
    let frequency = elastic.frequency.larger(number(HALF));
    ElasticOutline {
        amplitude: elastic.amplitude.clamped(number(ZERO), number(ONE)),
        frequency,
        decay: elastic.decay.larger(number(ONE)),
        omega: product(product(number(TWO), number(PI)), frequency),
    }
}

/// Whether the curve of an elastic segment has few enough points to be stored.
pub open spec fn is_drawable(elastic: TimeControlElastic) -> bool {
    let turns = elastic_outline(elastic).frequency.ceil_whole();
    product(turns, number(FOUR)).at_most(number(MOST_POINTS))
}

impl ElasticOutline {
    pub fn new(elastic: &TimeControlElastic) -> (r: Result<ElasticOutline, CurveError>)
        ensures
            r == if is_drawable(*elastic) {
                Ok(elastic_outline(*elastic))
            } else {
                Err(CurveError::ElasticTooLong)
            },
    {
        proof {
            lemma_number_order(ZERO, ONE);
        }
        let amplitude = elastic.amplitude.clamp(Double::from_bits(ZERO), Double::from_bits(ONE));
        let frequency = elastic.frequency.max(Double::from_bits(HALF));
        let decay = elastic.decay.max(Double::from_bits(ONE));
        if !frequency.ceil().times(Double::from_bits(FOUR)).is_at_most(
            Double::from_bits(MOST_POINTS),
        ) {
            return Err(CurveError::ElasticTooLong);
        }
        let omega = Double::from_bits(TWO).times(Double::from_bits(PI)).times(frequency);
        Ok(ElasticOutline { amplitude, frequency, decay, omega })
    }

    /// The number whose exponential the formula is made with.
    pub open spec fn exponent_of(self) -> Double {
        self.decay.opposite()
    }

    pub fn exponent(&self) -> (r: Double)
        ensures
            r == self.exponent_of(),
    {
        self.decay.negate()
    }

    /// The number whose square root the formula is made with.
    pub open spec fn root_argument_of(self) -> Double {
        quotient(self.decay, self.frequency)
    }

    pub fn root_argument(&self) -> (r: Double)
        ensures
            r == self.root_argument_of(),
    {
        self.decay.over(self.frequency)
    }

    /// The formula, with a first guess at the first extremum. `exp_k` is the
    /// exponential of [`ElasticOutline::exponent_of`], `root` the square root of
    /// [`ElasticOutline::root_argument_of`].
    pub open spec fn formula(self, exp_k: Double, root: Double) -> ElasticFormula {
        ElasticFormula {
            amplitude: self.amplitude,
            frequency: self.frequency,
            decay: self.decay,
            omega: self.omega,
            exp_k,
            first_extremum_t: quotient(
                difference(number(HALF), product(root, number(TWENTIETH))),
                self.frequency,
            ),
            first_extremum_value: number(ZERO),
        }
    }
}

/// What the formula needs to know of a moment: `exp_k` to the power of the
/// moment, and the cosine and the sine of its angle.
#[derive(Clone, Copy, Debug, PartialEq, Eq, Structural)]
pub struct Wave {
    pub power: Double,
    pub cos: Double,
    pub sin: Double,
}

/// The curve of an elastic segment.
#[derive(Clone, Copy, Debug, PartialEq, Eq, Structural)]
pub struct ElasticFormula {
    pub amplitude: Double,
    pub frequency: Double,
    pub decay: Double,
    pub omega: Double,
    /// What is left of the oscillation at the end.
    pub exp_k: Double,
    /// When the curve first turns back.
    pub first_extremum_t: Double,
    /// How high it is then, at full amplitude.
    pub first_extremum_value: Double,
}

impl ElasticFormula {
    /// The formula of an outlined segment, with a first guess at the first
    /// extremum.
    pub fn new(outline: ElasticOutline, exp_k: Double, root: Double) -> (r: ElasticFormula)
        ensures
            r == outline.formula(exp_k, root),
    {
        ElasticFormula {
            amplitude: outline.amplitude,
            frequency: outline.frequency,
            decay: outline.decay,
            omega: outline.omega,
            exp_k,
            first_extremum_t: Double::from_bits(HALF).minus(
                root.times(Double::from_bits(TWENTIETH)),
            ).over(outline.frequency),
            first_extremum_value: Double::from_bits(ZERO),
        }
    }

    /// The angle at a moment.
    pub open spec fn angle_at(self, progress: Double) -> Double {
        product(self.omega, progress)
    }

    pub fn angle(&self, progress: Double) -> (r: Double)
        ensures
            r == self.angle_at(progress),
    {
        self.omega.times(progress)
    }

    /// The height at full amplitude.
    pub open spec fn height(self, wave: Wave) -> Double {
        let one = number(ONE);
        let coef = quotient(difference(wave.power, self.exp_k), difference(one, self.exp_k));
        difference(one, product(coef, wave.cos))
    }

    pub fn base_value(&self, wave: Wave) -> (r: Double)
        ensures
            r == self.height(wave),
    {
        let one = Double::from_bits(ONE);
        let coef = wave.power.minus(self.exp_k).over(one.minus(self.exp_k));
        one.minus(coef.times(wave.cos))
    }

    /// The slope at full amplitude, times `1 - exp_k`.
    pub open spec fn slope(self, wave: Wave) -> Double {
        sum(
            product(product(self.decay, wave.power), wave.cos),
            product(product(self.omega, difference(wave.power, self.exp_k)), wave.sin),
        )
    }

    pub fn base_derivative_numerator(&self, wave: Wave) -> (r: Double)
        ensures
            r == self.slope(wave),
    {
        self.decay.times(wave.power).times(wave.cos).plus(
            self.omega.times(wave.power.minus(self.exp_k)).times(wave.sin),
        )
    }

    /// The slope of the slope at full amplitude, times `1 - exp_k`.
    pub open spec fn bend(self, wave: Wave) -> Double {
        let omega_sq = product(self.omega, self.omega);
        difference(
            product(
                difference(
                    product(
                        difference(omega_sq, product(self.decay, self.decay)),
                        wave.power,
                    ),
                    product(omega_sq, self.exp_k),
                ),
                wave.cos,
            ),
            product(
                product(
                    product(product(number(TWO), self.omega), self.decay),
                    wave.power,
                ),
                wave.sin,
            ),
        )
    }

    pub fn base_second_derivative_numerator(&self, wave: Wave) -> (r: Double)
        ensures
            r == self.bend(wave),
    {
        let omega_sq = self.omega.times(self.omega);
        omega_sq.minus(self.decay.times(self.decay)).times(wave.power).minus(
            omega_sq.times(self.exp_k),
        ).times(wave.cos).minus(
            Double::from_bits(TWO).times(self.omega).times(self.decay).times(wave.power).times(
                wave.sin,
            ),
        )
    }

    /// The formula with its guess at the first extremum refined by one Newton
    /// step. `wave` is that of the guess.
    pub open spec fn refined(self, wave: Wave) -> ElasticFormula {
        ElasticFormula {
            first_extremum_t: difference(
                self.first_extremum_t,
                quotient(self.slope(wave), self.bend(wave)),
            ),
            ..self
        }
    }

    pub fn refine(&mut self, wave: Wave)
        ensures
            *final(self) == old(self).refined(wave),
    {
        let step = self.base_derivative_numerator(wave).over(
            self.base_second_derivative_numerator(wave),
        );
        self.first_extremum_t = self.first_extremum_t.minus(step);
    }

    /// The formula with the height at its first extremum. `wave` is that of the
    /// extremum.
    pub open spec fn settled(self, wave: Wave) -> ElasticFormula {
        ElasticFormula { first_extremum_value: self.height(wave), ..self }
    }

    pub fn settle(&mut self, wave: Wave)
        ensures
            *final(self) == old(self).settled(wave),
    {
        self.first_extremum_value = self.base_value(wave);
    }

    /// The height and the slope with the amplitude applied. Up to the first
    /// extremum the whole height is scaled, so that the curve begins at zero;
    /// after it, the deviation from one.
    pub open spec fn applied(self, progress: Double, wave: Wave) -> (Double, Double) {
        let one = number(ONE);
        let value = self.height(wave);
        let derivative = quotient(self.slope(wave), difference(one, self.exp_k));
        if progress.less(self.first_extremum_t) {
            let scale = quotient(
                sum(product(self.amplitude, difference(self.first_extremum_value, one)), one),
                self.first_extremum_value,
            );
            (product(scale, value), product(scale, derivative))
        } else {
            (
                sum(product(self.amplitude, difference(value, one)), one),
                product(self.amplitude, derivative),
            )
        }
    }

    /// The height and the slope of the curve. Where the height leaves the range
    /// from zero to two, it stays at the range's end and the curve is level.
    #[verifier::opaque]
    pub open spec fn state(self, progress: Double, wave: Wave) -> (Double, Double) {
        let (value, derivative) = self.applied(progress, wave);
        if number(ZERO).at_most(value) && value.at_most(number(TWO)) {
            (value, derivative)
        } else {
            (value.clamped(number(ZERO), number(TWO)), number(ZERO))
        }
    }

    pub fn value_and_derivative(&self, progress: Double, wave: Wave) -> (r: (Double, Double))
        ensures
            r == self.state(progress, wave),
    {
        proof {
            reveal(ElasticFormula::state);
            lemma_number_order(ZERO, TWO);
        }
        let one = Double::from_bits(ONE);
        let zero = Double::from_bits(ZERO);
        let two = Double::from_bits(TWO);
        let base = self.base_value(wave);
        let slope = self.base_derivative_numerator(wave).over(one.minus(self.exp_k));
        let (value, derivative) = if progress.is_less(self.first_extremum_t) {
            let scale = self.amplitude.times(self.first_extremum_value.minus(one)).plus(one).over(
                self.first_extremum_value,
            );
            (scale.times(base), scale.times(slope))
        } else {
            (self.amplitude.times(base.minus(one)).plus(one), self.amplitude.times(slope))
        };
        if zero.is_at_most(value) && value.is_at_most(two) {
            (value, derivative)
        } else {
            (value.clamp(zero, two), zero)
        }
    }

    /// The number of equal intervals that are searched for extrema.
    pub open spec fn interval_count(self) -> nat {
        product(self.frequency, number(EIGHT)).ceil_whole().saturated(usize::MAX as nat)
    }

    pub fn divisions(&self) -> (r: usize)
        ensures
            r == self.interval_count(),
    {
        self.frequency.times(Double::from_bits(EIGHT)).ceil().to_usize()
    }
}

/// The moment at which interval `index` of `divisions` ends. The first interval
/// begins at zero.
pub open spec fn grid_moment(index: nat, divisions: nat) -> Double {
    if index == 0 {
        number(ZERO)
    } else {
        quotient(whole(false, index), whole(false, divisions))
    }
}

pub fn grid_progress(index: usize, divisions: usize) -> (r: Double)
    ensures
        r == grid_moment(index as nat, divisions as nat),
{
    if index == 0 {
        Double::from_bits(ZERO)
    } else {
        Double::from_u64(index as u64).over(Double::from_u64(divisions as u64))
    }
}

/// An interval in which the slope changes its sign, being halved.
#[derive(Clone, Copy, Debug, PartialEq, Eq, Structural)]
pub struct Crossing {
    pub min_t: Double,
    pub max_t: Double,
    /// The slope at `min_t`.
    pub min_derivative: Double,
    /// How often the interval is still to be halved.
    pub left: u32,
}

impl Crossing {
    /// The middle of the interval.
    pub open spec fn middle(self) -> Double {
        quotient(sum(self.min_t, self.max_t), number(TWO))
    }

    pub fn middle_t(&self) -> (r: Double)
        ensures
            r == self.middle(),
    {
        self.min_t.plus(self.max_t).over(Double::from_bits(TWO))
    }

    /// The half in which the sign changes, given the slope at the middle.
    pub open spec fn halved(self, slope: Double) -> Crossing {
        if self.min_derivative.same_sign(slope) {
            Crossing {
                min_t: self.middle(),
                max_t: self.max_t,
                min_derivative: slope,
                left: (self.left - 1) as u32,
            }
        } else {
            Crossing {
                min_t: self.min_t,
                max_t: self.middle(),
                min_derivative: self.min_derivative,
                left: (self.left - 1) as u32,
            }
        }
    }

    /// Halves the interval, given the slope at its middle.
    pub fn halve(&mut self, slope: Double)
        requires
            old(self).left > 0,
        ensures
            *final(self) == old(self).halved(slope),
    {
        let middle = self.middle_t();
        if self.min_derivative.has_sign_of(slope) {
            self.min_t = middle;
            self.min_derivative = slope;
        } else {
            self.max_t = middle;
        }
        self.left = self.left - 1;
    }
}

/// Whether two moments are the same extremum found twice.
pub open spec fn coincide(later: Double, earlier: Double) -> bool {
    difference(later, earlier).absolute().less(number(BILLIONTH))
}

/// The moments without those that coincide with the one kept before them.
pub open spec fn without_repeats(moments: Seq<Double>) -> Seq<Double>
    decreases moments.len(),
{
    if moments.len() == 0 {
        Seq::empty()
    } else {
        let before = without_repeats(moments.drop_last());
        if before.len() > 0 && coincide(moments.last(), before.last()) {
            before
        } else {
            before.push(moments.last())
        }
    }
}

/// Whether a moment lies inside the segment.
pub open spec fn is_inside(moment: Double) -> bool {
    number(ZERO).less(moment) && moment.less(number(ONE))
}

/// The moments at which the pieces of the curve meet: its extrema between its ends.
pub open spec fn piece_ends(found: Seq<Double>) -> Seq<Double> {
    seq![number(ZERO)] + without_repeats(found).filter(|t: Double| is_inside(t)) + seq![
        number(ONE),
    ]
}

fn drop_repeats(found: &Vec<Double>) -> (r: Vec<Double>)
    ensures
        r@ == without_repeats(found@),
{
    let mut r: Vec<Double> = Vec::new();
    let mut i: usize = 0;
    while i < found.len()
        invariant
            i <= found.len(),
            r@ == without_repeats(found@.take(i as int)),
        decreases found.len() - i,
    {
        let moment = found[i];
        assert(found@.take(i + 1).drop_last() =~= found@.take(i as int));
        let repeated: bool = r.len() > 0 && moment.minus(r[r.len() - 1]).abs().is_less(
            Double::from_bits(BILLIONTH),
        );
        if !repeated {
            r.push(moment);
        }
        i = i + 1;
    }
    assert(found@.take(i as int) =~= found@);
    r
}

/// The moments at which the pieces of the curve meet, given the extrema that the
/// search found.
pub fn elastic_vertices(found: &Vec<Double>) -> (r: Vec<Double>)
    ensures
        r@ == piece_ends(found@),
{
    let zero = Double::from_bits(ZERO);
    let one = Double::from_bits(ONE);
    let once = drop_repeats(found);
    let ghost inside = |t: Double| is_inside(t);
    let mut r: Vec<Double> = Vec::new();
    r.push(zero);
    let mut i: usize = 0;
    while i < once.len()
        invariant
            i <= once.len(),
            zero == number(ZERO),
            one == number(ONE),
            inside == (|t: Double| is_inside(t)),
            r@ == seq![number(ZERO)] + once@.take(i as int).filter(inside),
        decreases once.len() - i,
    {
        let t = once[i];
        proof {
            reveal_with_fuel(Seq::filter, 2);
            assert(once@.take(i + 1).drop_last() =~= once@.take(i as int));
        }
        if zero.is_less(t) && t.is_less(one) {
            r.push(t);
        }
        i = i + 1;
    }
    assert(once@.take(i as int) =~= once@);
    r.push(one);
    r
}

/// The pieces of the curve between the moments at which they meet.
pub open spec fn pieces(formula: ElasticFormula, vertices: Seq<Double>, waves: Seq<Wave>) -> Seq<
    CubicBezierSpan,
> {
    Seq::new(
        (vertices.len() - 1) as nat,
        |i: int|
            {
                let (start_y, start_slope) = formula.state(vertices[i], waves[i]);
                let (end_y, end_slope) = formula.state(vertices[i + 1], waves[i + 1]);
                hermite(
                    Position { x: vertices[i], y: start_y },
                    start_slope,
                    Position { x: vertices[i + 1], y: end_y },
                    end_slope,
                )
            },
    )
}

/// The spans of an elastic segment in the unit square, turned half round where
/// it is reversed.
pub open spec fn elastic_drawing(
    reversed: bool,
    formula: ElasticFormula,
    vertices: Seq<Double>,
    waves: Seq<Wave>,
) -> Seq<CubicBezierSpan> {
    let spans = pieces(formula, vertices, waves);
    if reversed {
        turned_spans(spans)
    } else {
        spans
    }
}

/// The spans of an elastic segment in the unit square. `vertices` are the moments
/// of [`elastic_vertices`], and `waves` holds the wave of each of them.
pub fn elastic_spans(
    reversed: bool,
    formula: &ElasticFormula,
    vertices: &Vec<Double>,
    waves: &Vec<Wave>,
) -> (r: Vec<CubicBezierSpan>)
    requires
        vertices.len() > 0,
        waves.len() == vertices.len(),
    ensures
        r@ == elastic_drawing(reversed, *formula, vertices@, waves@),
{
    let mut spans: Vec<CubicBezierSpan> = Vec::new();
    let mut i: usize = 1;
    while i < vertices.len()
        invariant
            1 <= i <= vertices.len(),
            waves.len() == vertices.len(),
            spans@ == pieces(*formula, vertices@, waves@).take(i - 1),
        decreases vertices.len() - i,
    {
        let start = vertices[i - 1];
        let end = vertices[i];
        let (start_y, start_slope) = formula.value_and_derivative(start, waves[i - 1]);
        let (end_y, end_slope) = formula.value_and_derivative(end, waves[i]);
        spans.push(hermite_span(start, start_y, start_slope, end, end_y, end_slope));
        i = i + 1;
    }
    assert(spans@ =~= pieces(*formula, vertices@, waves@));
    if reversed {
        reverse_spans(spans)
    } else {
        spans
    }
}

/// Each span of an elastic segment begins where the one before it ends.
pub proof fn law_elastic_spans_are_joined(
    reversed: bool,
    formula: ElasticFormula,
    vertices: Seq<Double>,
    waves: Seq<Wave>,
    i: int,
)
    requires
        0 < i < elastic_drawing(reversed, formula, vertices, waves).len(),
    ensures
        elastic_drawing(reversed, formula, vertices, waves)[i].start == elastic_drawing(
            reversed,
            formula,
            vertices,
            waves,
        )[i - 1].end,
{
    let spans = pieces(formula, vertices, waves);
    let j = if reversed {
        spans.len() - i
    } else {
        i
    };
    assert(spans[j - 1].end == spans[j].start);
}

/// A reversed elastic segment is drawn as the same segment turned half round.
pub proof fn law_reversed_elastic_is_turned(
    formula: ElasticFormula,
    vertices: Seq<Double>,
    waves: Seq<Wave>,
)
    ensures
        elastic_drawing(true, formula, vertices, waves) == turned_spans(
            elastic_drawing(false, formula, vertices, waves),
        ),
{
}

} // verus!
