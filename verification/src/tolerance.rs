//! Computing with numbers that are known up to an error.
use crate::arithmetic::{difference, product, quotient, sum};
use crate::bounce_precision::{
    exact, is_rounded, lemma_difference, lemma_product, lemma_quotient, lemma_sum, size, ulp,
};
use crate::double::Double;
use vstd::prelude::*;

verus! {

/// Whether a number is finite and its size at most `bound`.
pub open spec fn is_held(v: Double, bound: real) -> bool {
    v.finite() && size(exact(v)) <= bound
}

/// Whether a finite number is `x`, up to an error.
pub open spec fn is_about(v: Double, x: real, error: real) -> bool {
    v.finite() && size(exact(v) - x) <= error
}

// Each operation gives the number nearest to the exact result.

/// The sum of two numbers is their exact sum, up to one rounding.
pub proof fn law_sum_is_rounded(a: Double, b: Double)
    requires
        a.finite(),
        b.finite(),
        sum(a, b).finite(),
    ensures
        is_rounded(sum(a, b), exact(a) + exact(b)),
{
    lemma_sum(a, b);
}

/// The difference of two numbers is their exact difference, up to one rounding.
pub proof fn law_difference_is_rounded(a: Double, b: Double)
    requires
        a.finite(),
        b.finite(),
        difference(a, b).finite(),
    ensures
        is_rounded(difference(a, b), exact(a) - exact(b)),
{
    lemma_difference(a, b);
}

/// The product of two numbers is their exact product, up to one rounding.
pub proof fn law_product_is_rounded(a: Double, b: Double)
    requires
        a.finite(),
        b.finite(),
        product(a, b).finite(),
    ensures
        is_rounded(product(a, b), exact(a) * exact(b)),
{
    lemma_product(a, b);
}

/// The quotient of two numbers is their exact quotient, up to one rounding.
pub proof fn law_quotient_is_rounded(a: Double, b: Double)
    requires
        a.finite(),
        b.finite(),
        exact(b) != 0real,
        quotient(a, b).finite(),
    ensures
        is_rounded(quotient(a, b), exact(a) / exact(b)),
{
    lemma_quotient(a, b);
}

// How errors grow.

/// The size of a product.
pub proof fn lemma_size_product(a: real, b: real)
    ensures
        size(a * b) == size(a) * size(b),
{
    assert((-a) * b == -(a * b) && a * (-b) == -(a * b) && (-a) * (-b) == a * b) by (nonlinear_arith);
    if a >= 0real && b >= 0real {
        lemma_order_product(0real, a, 0real, b);
    } else if a >= 0real {
        lemma_order_product(0real, a, 0real, -b);
    } else if b >= 0real {
        lemma_order_product(0real, -a, 0real, b);
    } else {
        lemma_order_product(0real, -a, 0real, -b);
    }
}

/// Products of numbers that are not negative keep their order.
pub proof fn lemma_order_product(a: real, b: real, c: real, d: real)
    requires
        0real <= a <= b,
        0real <= c <= d,
    ensures
        0real <= a * c <= b * d,
{
    assert(0real <= a * c) by (nonlinear_arith)
        requires
            0real <= a,
            0real <= c,
    ;
    assert(a * c <= b * c) by (nonlinear_arith)
        requires
            a <= b,
            0real <= c,
    ;
    assert(b * c <= b * d) by (nonlinear_arith)
        requires
            c <= d,
            0real <= b,
    ;
}

/// One rounding of a number that is known up to an error.
proof fn lemma_about_rounded(v: Double, y: real, x: real, error: real, bound: real)
    requires
        is_rounded(v, y),
        size(y - x) <= error,
        size(y) <= bound,
    ensures
        is_about(v, x, error + (bound + 1real) * ulp()),
{
    let e = ulp();
    lemma_order_product(e, e, size(y), bound);
    assert((bound + 1real) * e == e * bound + e) by (nonlinear_arith);
}

pub proof fn lemma_about_sum(
    a: Double,
    b: Double,
    x: real,
    y: real,
    left: real,
    right: real,
    bound: real,
)
    requires
        is_about(a, x, left),
        is_about(b, y, right),
        sum(a, b).finite() || bound <= 1152921504606846976real,
        size(x + y) + left + right <= bound,
    ensures
        is_about(sum(a, b), x + y, left + right + (bound + 1real) * ulp()),
{
    lemma_sum(a, b);
    lemma_about_rounded(sum(a, b), exact(a) + exact(b), x + y, left + right, bound);
}

pub proof fn lemma_about_difference(
    a: Double,
    b: Double,
    x: real,
    y: real,
    left: real,
    right: real,
    bound: real,
)
    requires
        is_about(a, x, left),
        is_about(b, y, right),
        difference(a, b).finite() || bound <= 1152921504606846976real,
        size(x - y) + left + right <= bound,
    ensures
        is_about(difference(a, b), x - y, left + right + (bound + 1real) * ulp()),
{
    lemma_difference(a, b);
    lemma_about_rounded(difference(a, b), exact(a) - exact(b), x - y, left + right, bound);
}

/// How far a product is off where its factors are no larger than `first` and `second`.
pub open spec fn product_error(first: real, second: real, left: real, right: real) -> real {
    left * second + first * right + left * right
}

pub proof fn lemma_about_product(
    a: Double,
    b: Double,
    x: real,
    y: real,
    first: real,
    second: real,
    left: real,
    right: real,
    bound: real,
)
    requires
        is_about(a, x, left),
        is_about(b, y, right),
        size(x) <= first,
        size(y) <= second,
        product(a, b).finite() || bound <= 1152921504606846976real,
        first * second + product_error(first, second, left, right) <= bound,
    ensures
        is_about(
            product(a, b),
            x * y,
            product_error(first, second, left, right) + (bound + 1real) * ulp(),
        ),
        size(x * y) <= first * second,
{
    let (f, g) = (exact(a), exact(b));
    let error = product_error(first, second, left, right);
    let (p, q) = (f - x, g - y);
    assert(f * g - x * y == p * y + x * q + p * q) by (nonlinear_arith)
        requires
            p == f - x,
            q == g - y,
    ;
    lemma_size_product(p, y);
    lemma_order_product(size(p), left, size(y), second);
    lemma_size_product(x, q);
    lemma_order_product(size(x), first, size(q), right);
    lemma_size_product(p, q);
    lemma_order_product(size(p), left, size(q), right);
    lemma_size_product(x, y);
    lemma_order_product(size(x), first, size(y), second);
    lemma_product(a, b);
    lemma_about_rounded(product(a, b), f * g, x * y, error, bound);
}

/// The divisor is at least `least` in size, and known up to at most half of that.
pub proof fn lemma_about_quotient(
    a: Double,
    b: Double,
    x: real,
    y: real,
    least: real,
    left: real,
    right: real,
    bound: real,
)
    requires
        is_about(a, x, left),
        is_about(b, y, right),
        size(y) >= least,
        least > 0real,
        2real * right <= least,
        quotient(a, b).finite() || 2real * bound <= 1152921504606846976real,
        size(x / y) <= bound,
        2real * (left + bound * right) <= bound * least,
    ensures
        exact(b) != 0real,
        is_about(
            quotient(a, b),
            x / y,
            (2real * (left + bound * right)) / least + (2real * bound + 1real) * ulp(),
        ),
{
    let (f, g) = (exact(a), exact(b));
    let q = f / g;
    let z = x / y;
    assert(2real * size(g) >= least && g != 0real);
    assert(q * g == f && z * y == x) by (nonlinear_arith)
        requires
            q == f / g,
            z == x / y,
            g != 0real,
            y != 0real,
    ;
    let rest = (f - x) - z * (g - y);
    assert((q - z) * g == rest) by (nonlinear_arith)
        requires
            q * g == f,
            z * y == x,
            rest == (f - x) - z * (g - y),
    ;
    let miss = left + bound * right;
    lemma_size_product(z, g - y);
    lemma_order_product(size(z), bound, size(g - y), right);
    let error = (2real * miss) / least;
    assert(error * least == 2real * miss) by (nonlinear_arith)
        requires
            error == (2real * miss) / least,
            least > 0real,
    ;
    lemma_size_product(q - z, g);
    let (m, h) = (size(q - z), size(g));
    lemma_order_product(m, m, least / 2real, h);
    assert(m * (least / 2real) == (m * least) / 2real) by (nonlinear_arith);
    assert(m <= error) by (nonlinear_arith)
        requires
            m * least <= error * least,
            least > 0real,
    ;
    assert(error <= bound) by (nonlinear_arith)
        requires
            error * least == 2real * miss,
            2real * miss <= bound * least,
            least > 0real,
    ;
    lemma_quotient(a, b);
    lemma_about_rounded(quotient(a, b), q, z, error, 2real * bound);
}

} // verus!
