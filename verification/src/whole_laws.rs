//! What the conversions to whole numbers give.
use crate::arithmetic::quotient;
use crate::bounce::bounce_count;
use crate::bounce_precision::{
    exact, is_rounded, lemma_exact, lemma_quotient, lemma_whole_product, size, ulp,
};
use crate::conversion::{lemma_whole_exact, whole};
use crate::double::{one_step, Double, UNIT_SHIFT};
use vstd::arithmetic::div_mod::*;
use vstd::arithmetic::power2::*;
use vstd::prelude::*;

verus! {

/// Whether a number stands for a given whole one.
pub open spec fn stands_for(v: Double, k: int) -> bool {
    exact(v) == k as real
}

/// Whether a number stands for a whole one.
pub open spec fn is_whole(v: Double) -> bool {
    v.finite() && exists|k: int| stands_for(v, k)
}

/// The whole part of the size of a number, and whether there is more.
proof fn lemma_parts(v: Double)
    requires
        v.finite(),
    ensures
        ({
            let x = size(exact(v));
            let a = v.floor_magnitude() as real;
            &&& a <= x < a + 1real
            &&& v.has_fraction() <==> a < x
            &&& v.fraction_is_half() <==> a + 1real / 2real <= x
        }),
{
    let one = one_step();
    let u = one as real;
    lemma_pow2_pos(UNIT_SHIFT as nat);
    lemma_exact(v);
    let m = v.magnitude();
    let q = m / one;
    let r = m % one;
    lemma_fundamental_div_mod(m as int, one as int);
    lemma_mod_bound(m as int, one as int);
    lemma_whole_product(one as int, q as int);
    let x = size(exact(v));
    let (a, b) = (q as real, r as real);
    let d = x - a;
    assert(x * u == u * a + b);
    assert(d * u == b) by (nonlinear_arith)
        requires
            x * u == u * a + b,
            d == x - a,
    ;
    assert(0real <= d < 1real && (b > 0real <==> d > 0real)) by (nonlinear_arith)
        requires
            d * u == b,
            0real <= b < u,
            u > 0real,
    ;
    assert(2real * b >= u <==> d >= 1real / 2real) by (nonlinear_arith)
        requires
            d * u == b,
            u > 0real,
    ;
}

/// A whole number that is not too large to be held as it is.
proof fn lemma_held_whole(negative: bool, k: nat)
    requires
        k <= 0x10_0000_0000_0000,
    ensures
        is_whole(whole(negative, k)),
        exact(whole(negative, k)) == if negative {
            -(k as real)
        } else {
            k as real
        },
{
    let v = whole(negative, k);
    let u = one_step() as real;
    let x = k as real;
    lemma_pow2_pos(UNIT_SHIFT as nat);
    lemma_whole_exact(negative, k);
    lemma_exact(v);
    lemma_whole_product(k as int, one_step() as int);
    assert((x * u) / u == x) by (nonlinear_arith)
        requires
            u > 0real,
    ;
    if negative {
        assert(stands_for(v, -(k as int)));
    } else {
        assert(stands_for(v, k as int));
    }
}

/// The floor of a number is the whole number at most one below it, and the ceiling the one
/// at most one above it.
pub proof fn law_floor_and_ceiling_enclose(v: Double)
    requires
        v.finite(),
        size(exact(v)) <= 4000000000000000real,
    ensures
        is_whole(v.floor_whole()),
        exact(v.floor_whole()) <= exact(v) < exact(v.floor_whole()) + 1real,
        is_whole(v.ceil_whole()),
        exact(v.ceil_whole()) - 1real < exact(v) <= exact(v.ceil_whole()),
{
    let k = v.floor_magnitude();
    lemma_parts(v);
    lemma_exact(v);
    lemma_held_whole(v.negative(), k);
    lemma_held_whole(v.negative(), k + 1);
}

/// Rounding gives a whole number at most one half away, and of two such numbers the one
/// further from zero.
pub proof fn law_rounding_gives_the_nearest(v: Double)
    requires
        v.finite(),
        size(exact(v)) <= 4000000000000000real,
    ensures
        is_whole(v.rounded_whole()),
        size(exact(v.rounded_whole()) - exact(v)) <= 1real / 2real,
        size(exact(v.rounded_whole()) - exact(v)) == 1real / 2real ==> size(exact(v)) < size(
            exact(v.rounded_whole()),
        ),
{
    let k = v.floor_magnitude();
    lemma_parts(v);
    lemma_exact(v);
    lemma_held_whole(v.negative(), k);
    lemma_held_whole(v.negative(), k + 1);
}

/// A number as an unsigned integer is its whole part, held between zero and the largest one;
/// as a signed integer it is cut off towards zero.
pub proof fn law_integers_are_cut_off(v: Double, max: nat)
    requires
        v.finite(),
    ensures
        v.saturated(max) <= max,
        exact(v) <= 0real ==> v.saturated(max) == 0,
        exact(v) >= 0real ==> v.saturated(max) as real <= exact(v),
        v.saturated(max) < max ==> exact(v) < v.saturated(max) as real + 1real,
        size(exact(v)) < 9000000000000000000real ==> {
            let cut = v.saturated_i64() as real;
            &&& size(cut) <= size(exact(v)) < size(cut) + 1real
            &&& cut > 0real ==> exact(v) > 0real
            &&& cut < 0real ==> exact(v) < 0real
        },
{
    lemma_parts(v);
    lemma_exact(v);
}

/// As many bounces are whole as the share of speed that is left at the end holds powers of
/// the share that the ball keeps: the ratio of the logarithms, cut off.
pub proof fn law_whole_bounces_are_counted(log_share: Double, log_cor: Double)
    requires
        log_share.finite(),
        log_cor.finite(),
        exact(log_cor) != 0real,
        size(exact(log_share) / exact(log_cor)) <= 2000000000000000real,
    ensures
        is_whole(bounce_count(log_share, log_cor)),
        exists|ratio: Double| #[trigger]
            is_rounded(ratio, exact(log_share) / exact(log_cor)) && exact(
                bounce_count(log_share, log_cor),
            ) <= exact(ratio) < exact(bounce_count(log_share, log_cor)) + 1real,
{
    let ratio = quotient(log_share, log_cor);
    lemma_quotient(log_share, log_cor);
    assert(is_rounded(ratio, exact(log_share) / exact(log_cor)));
    lemma_rounded_size(ratio, exact(log_share) / exact(log_cor));
    law_floor_and_ceiling_enclose(ratio);
}

proof fn lemma_rounded_size(v: Double, x: real)
    requires
        is_rounded(v, x),
        size(x) <= 2000000000000000real,
    ensures
        v.finite(),
        size(exact(v)) <= 4000000000000000real,
{
    let (e, z) = (ulp(), size(x));
    assert(e * z <= 1real) by (nonlinear_arith)
        requires
            e == 1real / 9007199254740992real,
            0real <= z <= 2000000000000000real,
    ;
}

} // verus!
