//! The part of the plane that the editor shows.
use crate::arithmetic::{difference, product, quotient, sum};
use crate::double::{lemma_magnitude_zero, one_step, Double, INFINITE, UNIT_SHIFT};
use crate::numbers::{lemma_number_order, number, EIGHT, MILLIONTH, TWO};
use crate::rounding::{
    lemma_pow2_increases, lemma_rounded_at_most, lemma_rounded_magnitude, nearest_pattern,
};
use vstd::arithmetic::power2::*;
use vstd::prelude::*;

verus! {

/// The heights between which a curve is shown.
#[derive(Clone, Copy, Debug, PartialEq, Eq, Structural)]
pub struct TimeControlVerticalBounds {
    pub min_y: Double,
    pub max_y: Double,
}

impl TimeControlVerticalBounds {
    /// How high the bounds are.
    pub open spec fn extent(self) -> Double {
        difference(self.max_y, self.min_y)
    }

    pub fn y_range(self) -> (r: Double)
        ensures
            r == self.extent(),
    {
        self.max_y.minus(self.min_y)
    }

    /// The height in the middle of the bounds.
    pub open spec fn middle(self) -> Double {
        quotient(sum(self.min_y, self.max_y), number(TWO))
    }

    pub fn center(self) -> (r: Double)
        ensures
            r == self.middle(),
    {
        self.min_y.plus(self.max_y).over(Double::from_bits(TWO))
    }

    /// The bounds moved up by `delta`.
    pub open spec fn moved(self, delta: Double) -> TimeControlVerticalBounds {
        TimeControlVerticalBounds { min_y: sum(self.min_y, delta), max_y: sum(self.max_y, delta) }
    }

    pub fn translate(self, delta: Double) -> (r: Self)
        ensures
            r == self.moved(delta),
    {
        TimeControlVerticalBounds { min_y: self.min_y.plus(delta), max_y: self.max_y.plus(delta) }
    }

    /// The bounds around both.
    pub open spec fn joined(self, other: Self) -> Self {
        TimeControlVerticalBounds {
            min_y: self.min_y.smaller(other.min_y),
            max_y: self.max_y.larger(other.max_y),
        }
    }

    pub fn union(self, other: Self) -> (r: Self)
        ensures
            r == self.joined(other),
    {
        TimeControlVerticalBounds {
            min_y: self.min_y.min(other.min_y),
            max_y: self.max_y.max(other.max_y),
        }
    }

    /// The bounds of the given height around a middle.
    pub open spec fn around(center: Double, range: Double) -> TimeControlVerticalBounds {
        let half_range = quotient(range, number(TWO));
        TimeControlVerticalBounds {
            min_y: difference(center, half_range),
            max_y: sum(center, half_range),
        }
    }

    pub fn with_center_and_range(center: Double, range: Double) -> (r: Self)
        ensures
            r == Self::around(center, range),
    {
        let half_range = range.over(Double::from_bits(TWO));
        TimeControlVerticalBounds {
            min_y: center.minus(half_range),
            max_y: center.plus(half_range),
        }
    }

    /// The bounds of the given height in which `anchor_y` lies `anchor_ratio` of
    /// the way up.
    pub fn with_anchor_and_range(anchor_y: Double, anchor_ratio: Double, range: Double) -> (r: Self)
        ensures
            r.min_y == difference(anchor_y, product(anchor_ratio, range)),
            r.max_y == sum(r.min_y, range),
    {
        let min_y = anchor_y.minus(anchor_ratio.times(range));
        TimeControlVerticalBounds { min_y, max_y: min_y.plus(range) }
    }

    /// The height of the content, at least a millionth.
    pub open spec fn content_extent(content: Self) -> Double {
        content.extent().larger(number(MILLIONTH))
    }

    /// The height of the bounds, held between an eighth of the content's and
    /// all of it.
    pub open spec fn held_extent(self, content: Self) -> Double {
        let whole = Self::content_extent(content);
        self.extent().clamped(quotient(whole, number(EIGHT)), whole)
    }

    /// The bounds moved up so that they do not reach below the content.
    pub open spec fn lifted(self, content: Self) -> Self {
        if self.min_y.less(content.min_y) {
            self.moved(difference(content.min_y, self.min_y))
        } else {
            self
        }
    }

    /// The bounds moved down so that they do not reach above the content.
    pub open spec fn lowered(self, content: Self) -> Self {
        if content.max_y.less(self.max_y) {
            self.moved(difference(content.max_y, self.max_y))
        } else {
            self
        }
    }

    /// The bounds moved inside the content and held to its size.
    pub open spec fn inside(self, content: Self) -> Self {
        let range = self.held_extent(content);
        if Self::content_extent(content).at_most(range) {
            content
        } else {
            Self::around(self.middle(), range).lifted(content).lowered(content)
        }
    }

    pub fn clamp_to_content(self, content: Self) -> (r: Self)
        ensures
            r == self.inside(content),
    {
        let content_range = content.y_range().max(Double::from_bits(MILLIONTH));
        proof {
            lemma_number_order(MILLIONTH, INFINITE);
            lemma_eighth(content_range);
        }
        let range = self.y_range().clamp(
            content_range.over(Double::from_bits(EIGHT)),
            content_range,
        );
        if content_range.is_at_most(range) {
            return content;
        }
        let mut bounds = Self::with_center_and_range(self.center(), range);
        if bounds.min_y.is_less(content.min_y) {
            bounds = bounds.translate(content.min_y.minus(bounds.min_y));
        }
        if content.max_y.is_less(bounds.max_y) {
            bounds = bounds.translate(content.max_y.minus(bounds.max_y));
        }
        bounds
    }
}

/// Eight is eight units.
pub proof fn lemma_eight()
    ensures
        number(EIGHT).finite(),
        !number(EIGHT).negative(),
        number(EIGHT).magnitude() == 8 * one_step(),
{
    lemma2_to64();
    lemma2_to64_rest();
    assert(number(EIGHT).significand() == 0x10_0000_0000_0000);
    assert(number(EIGHT).shift() == 1025);
    lemma_pow2_adds(52, 1025);
    lemma_pow2_adds(3, 1074);
}

/// A millionth is far above one step.
pub proof fn lemma_millionth()
    ensures
        number(MILLIONTH).finite(),
        !number(MILLIONTH).negative(),
        number(MILLIONTH).magnitude() >= 0x1_0000_0000_0000_0000,
{
    lemma2_to64_rest();
    let v = number(MILLIONTH);
    assert(v.significand() >= 1);
    assert(v.shift() == 1002);
    lemma_pow2_increases(64, 1002);
    let m = v.significand();
    let e = pow2(1002);
    assert(m * e >= e) by (nonlinear_arith)
        requires
            m >= 1,
            e > 0,
    ;
}

/// An eighth of a positive number is not above it.
pub proof fn lemma_eighth(v: Double)
    requires
        number(MILLIONTH).at_most(v),
    ensures
        quotient(v, number(EIGHT)).at_most(v),
{
    let eight = number(EIGHT);
    let one = one_step();
    lemma_eight();
    lemma_magnitude_zero(v.pattern());
    lemma_magnitude_zero(MILLIONTH as nat);
    assert(!v.negative());
    lemma_pow2_pos(UNIT_SHIFT as nat);
    if v.finite() {
        let m = v.magnitude();
        assert(m * one <= (8 * one) * m) by (nonlinear_arith)
            requires
                one > 0,
                m >= 0,
        ;
        lemma_rounded_at_most(m * one, 8 * one, v.pattern());
        lemma_rounded_magnitude(m * one, 8 * one);
        let q = quotient(v, eight);
        assert(q.pattern() == nearest_pattern(m * one, 8 * one));
        q.lemma_order(v);
    }
}

/// The bounds around two others hold each height that one of them holds.
pub proof fn law_union_holds_both(
    a: TimeControlVerticalBounds,
    b: TimeControlVerticalBounds,
    y: Double,
)
    requires
        !a.min_y.nan(),
        !a.max_y.nan(),
        !b.min_y.nan(),
        !b.max_y.nan(),
        (a.min_y.at_most(y) && y.at_most(a.max_y)) || (b.min_y.at_most(y) && y.at_most(b.max_y)),
    ensures
        a.joined(b).min_y.at_most(y),
        y.at_most(a.joined(b).max_y),
{
}

} // verus!
