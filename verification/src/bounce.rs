//! Bounce segments: the path of a ball that bounces off the line at height one.
//!
//! Square roots, logarithms and powers are computed elsewhere. Where a formula
//! needs one, a function gives its argument and another one takes its value.
use crate::arithmetic::{difference, product, quotient, sum};
use crate::curve::{Position, TimeControlBounce};
use crate::double::Double;
use crate::numbers::{
    lemma_number_order, number, ALMOST_ONE, EIGHT, FOUR, HALF, ONE, THOUSANDTH, TWO, ZERO,
};
use crate::spans::{hermite, hermite_span, CubicBezierSpan};
use vstd::prelude::*;

verus! {

/// The vertex of the first bounce, held inside the unit square.
pub open spec fn held_vertex(vertex: Position) -> Position {
    Position {
        x: vertex.x.clamped(number(THOUSANDTH), number(ALMOST_ONE)),
        y: vertex.y.clamped(number(THOUSANDTH), number(ONE)),
    }
}

fn hold_vertex(vertex: Position) -> (r: Position)
    ensures
        r == held_vertex(vertex),
{
    proof {
        lemma_number_order(THOUSANDTH, ALMOST_ONE);
        lemma_number_order(THOUSANDTH, ONE);
    }
    let low = Double::from_bits(THOUSANDTH);
    Position {
        x: vertex.x.clamp(low, Double::from_bits(ALMOST_ONE)),
        y: vertex.y.clamp(low, Double::from_bits(ONE)),
    }
}

/// The square of the share of its speed that the ball keeps at a bounce.
pub open spec fn kept_energy(bounce: TimeControlBounce) -> Double {
    difference(number(ONE), held_vertex(bounce.vertex).y)
}

pub fn bounce_root_argument(bounce: &TimeControlBounce) -> (r: Double)
    ensures
        r == kept_energy(*bounce),
{
    Double::from_bits(ONE).minus(hold_vertex(bounce.vertex).y)
}

/// What is known of a bounce before it is known where it comes to rest.
#[derive(Clone, Copy, Debug, PartialEq, Eq, Structural)]
pub struct BounceOutline {
    /// The share of its speed that the ball keeps at a bounce.
    pub cor: Double,
    /// The time from the ball's start at full height to its second return there,
    /// as the first bounce would have it.
    pub period: Double,
    /// When the ball comes to rest.
    pub limit: Double,
}

/// The outline of a bounce, given the square root of [`kept_energy`].
pub open spec fn bounce_outline(bounce: TimeControlBounce, root: Double) -> BounceOutline {
    let one = number(ONE);
    let cor = root.clamped(number(THOUSANDTH), number(ALMOST_ONE));
    let period = quotient(product(number(TWO), held_vertex(bounce.vertex).x), sum(cor, one));
    BounceOutline {
        cor,
        period,
        limit: product(
            period,
            difference(quotient(one, difference(one, cor)), number(HALF)),
        ),
    }
}

impl BounceOutline {
    /// The outline of a bounce. `root` is the square root of [`kept_energy`].
    pub fn new(bounce: &TimeControlBounce, root: Double) -> (r: BounceOutline)
        ensures
            r == bounce_outline(*bounce, root),
    {
        proof {
            lemma_number_order(THOUSANDTH, ALMOST_ONE);
        }
        let one = Double::from_bits(ONE);
        let cor = root.clamp(Double::from_bits(THOUSANDTH), Double::from_bits(ALMOST_ONE));
        let period = Double::from_bits(TWO).times(hold_vertex(bounce.vertex).x).over(cor.plus(one));
        let limit = period.times(one.over(one.minus(cor)).minus(Double::from_bits(HALF)));
        BounceOutline { cor, period, limit }
    }

    /// Whether the ball is still bouncing at the end of the segment.
    pub open spec fn cut_off(self) -> bool {
        number(ONE).less(self.limit)
    }

    /// The share of its speed that the ball has left at the end of the segment.
    pub open spec fn last_share(self) -> Double {
        let one = number(ONE);
        sum(
            one,
            product(
                difference(self.cor, one),
                sum(quotient(one, self.period), number(HALF)),
            ),
        )
    }

    pub fn is_cut_off(&self) -> (r: bool)
        ensures
            r == self.cut_off(),
    {
        Double::from_bits(ONE).is_less(self.limit)
    }

    /// The number whose natural logarithm, beside that of `cor`, counts the
    /// bounces of a ball that is still bouncing at the end of the segment.
    pub fn log_argument(&self) -> (r: Double)
        ensures
            r == self.last_share(),
    {
        let one = Double::from_bits(ONE);
        one.plus(
            self.cor.minus(one).times(one.over(self.period).plus(Double::from_bits(HALF))),
        )
    }

    /// When the bounce begins before which `cor` was multiplied to `power`.
    pub open spec fn begin(cor: Double, period: Double, power: Double) -> Double {
        let one = number(ONE);
        product(
            period,
            difference(
                quotient(difference(power, one), difference(cor, one)),
                number(HALF),
            ),
        )
    }

    /// When the ball's last whole bounce ends, held inside the segment. `power`
    /// is `cor` to the power of the number of whole bounces.
    pub open spec fn formula(self, power: Double) -> BounceFormula {
        let end = if self.cut_off() {
            BounceOutline::begin(self.cor, self.period, power)
        } else {
            self.limit
        };
        BounceFormula {
            cor: self.cor,
            period: self.period,
            active_end: end.clamped(number(ZERO), number(ONE)),
        }
    }
}

/// The number of whole bounces, given the two logarithms that count them.
pub open spec fn bounce_count(log_share: Double, log_cor: Double) -> Double {
    quotient(log_share, log_cor).floor_whole()
}

pub fn last_bounce(log_share: Double, log_cor: Double) -> (r: Double)
    ensures
        r == bounce_count(log_share, log_cor),
{
    log_share.over(log_cor).floor()
}

/// The curve of a bounce.
#[derive(Clone, Copy, Debug, PartialEq, Eq, Structural)]
pub struct BounceFormula {
    pub cor: Double,
    pub period: Double,
    /// When the last bounce that is drawn ends.
    pub active_end: Double,
}

impl BounceFormula {
    /// The curve of an outlined bounce. `power` is `cor` to the power of
    /// [`last_bounce`]; it is read only where the ball is still bouncing at the
    /// end of the segment.
    pub fn new(outline: BounceOutline, power: Double) -> (r: BounceFormula)
        ensures
            r == outline.formula(power),
    {
        proof {
            lemma_number_order(ZERO, ONE);
        }
        let one = Double::from_bits(ONE);
        let end = if outline.is_cut_off() {
            outline.period.times(
                power.minus(one).over(outline.cor.minus(one)).minus(Double::from_bits(HALF)),
            )
        } else {
            outline.limit
        };
        BounceFormula {
            cor: outline.cor,
            period: outline.period,
            active_end: end.clamp(Double::from_bits(ZERO), one),
        }
    }

    /// When a bounce begins. `power` is `cor` to the power of its index.
    pub open spec fn start_of(self, power: Double) -> Double {
        BounceOutline::begin(self.cor, self.period, power)
    }

    pub fn boundary(&self, power: Double) -> (r: Double)
        ensures
            r == self.start_of(power),
    {
        let one = Double::from_bits(ONE);
        self.period.times(power.minus(one).over(self.cor.minus(one)).minus(Double::from_bits(HALF)))
    }

    /// When a bounce is farthest from the line.
    pub open spec fn middle_of(self, power: Double) -> Double {
        let one = number(ONE);
        let two = number(TWO);
        product(
            self.period,
            sum(
                difference(
                    number(HALF).opposite(),
                    quotient(one, difference(self.cor, one)),
                ),
                quotient(
                    product(sum(self.cor, one), power),
                    difference(product(two, self.cor), two),
                ),
            ),
        )
    }

    pub fn vertex(&self, power: Double) -> (r: Double)
        ensures
            r == self.middle_of(power),
    {
        let one = Double::from_bits(ONE);
        let two = Double::from_bits(TWO);
        self.period.times(
            Double::from_bits(HALF).negate().minus(one.over(self.cor.minus(one))).plus(
                self.cor.plus(one).times(power).over(two.times(self.cor).minus(two)),
            ),
        )
    }

    /// The height and the slope of a bounce. `power` and `squared` are `cor` to
    /// the power of its index and of twice its index.
    pub open spec fn state_of(self, power: Double, squared: Double, progress: Double) -> (
        Double,
        Double,
    ) {
        let off = difference(
            quotient(progress, self.period),
            quotient(self.middle_of(power), self.period),
        );
        (
            difference(sum(number(ONE), product(product(number(FOUR), off), off)), squared),
            quotient(product(number(EIGHT), off), self.period),
        )
    }

    pub fn value_and_derivative(&self, power: Double, squared: Double, progress: Double) -> (r: (
        Double,
        Double,
    ))
        ensures
            r == self.state_of(power, squared, progress),
    {
        let off = progress.over(self.period).minus(self.vertex(power).over(self.period));
        (
            Double::from_bits(ONE).plus(Double::from_bits(FOUR).times(off).times(off)).minus(
                squared,
            ),
            Double::from_bits(EIGHT).times(off).over(self.period),
        )
    }

    /// The span of one bounce between two moments.
    pub open spec fn piece(
        self,
        power: Double,
        squared: Double,
        from: Double,
        to: Double,
    ) -> CubicBezierSpan {
        let (from_y, from_slope) = self.state_of(power, squared, from);
        let (to_y, to_slope) = self.state_of(power, squared, to);
        hermite(Position { x: from, y: from_y }, from_slope, Position { x: to, y: to_y }, to_slope)
    }

    pub fn bounce_span(&self, power: Double, squared: Double, from: Double, to: Double) -> (r:
        CubicBezierSpan)
        ensures
            r == self.piece(power, squared, from, to),
    {
        let (from_y, from_slope) = self.value_and_derivative(power, squared, from);
        let (to_y, to_slope) = self.value_and_derivative(power, squared, to);
        hermite_span(from, from_y, from_slope, to, to_y, to_slope)
    }
}

} // verus!
