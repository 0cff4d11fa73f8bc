//! Rounding of an exact quotient to the nearest double.
use crate::double::{
    lemma_magnitude_increases, pattern_magnitude, pattern_shift, pattern_significand, Double,
    HIDDEN, INFINITE, SIGN,
};
use vstd::arithmetic::div_mod::*;
use vstd::arithmetic::power2::*;
use vstd::prelude::*;

verus! {

/// The integer nearest to `n / d`, the even one of two that are equally near.
pub open spec fn nearest(n: nat, d: nat) -> nat {
    let q = n / d;
    let r = n % d;
    if 2 * r > d || (2 * r == d && q % 2 == 1) {
        q + 1
    } else {
        q
    }
}

/// Whether doubles close to `n / d` steps lie two to the power `s` steps apart:
/// `s` is the least power for which 53 bits reach up to `n / d`.
pub open spec fn is_spacing(n: nat, d: nat, s: nat) -> bool {
    &&& n < d * pow2(53 + s)
    &&& s > 0 ==> n >= d * pow2(52 + s)
}

/// The power of two that is the distance between doubles close to `n / d` steps.
pub open spec fn spacing(n: nat, d: nat) -> nat {
    choose|s: nat| is_spacing(n, d, s)
}

/// The unsigned pattern of the double nearest to `n / d` steps, ties going to
/// the even significand; infinity where no finite double is near enough.
#[verifier::opaque]
pub open spec fn nearest_pattern(n: nat, d: nat) -> nat {
    let s = spacing(n, d);
    let p = s * HIDDEN + nearest(n, d * pow2(s));
    if p < INFINITE {
        p as nat
    } else {
        INFINITE as nat
    }
}

/// The double nearest to plus or minus `n / d` steps.
pub open spec fn rounded(negative: bool, n: nat, d: nat) -> Double {
    with_sign(negative, nearest_pattern(n, d))
}

/// The double with the given sign and unsigned pattern.
pub open spec fn with_sign(negative: bool, pattern: nat) -> Double {
    Double {
        bits: if negative {
            (SIGN + pattern) as u64
        } else {
            pattern as u64
        },
    }
}

/// There is only one spacing.
pub proof fn lemma_spacing_unique(n: nat, d: nat, s: nat)
    requires
        d > 0,
        is_spacing(n, d, s),
    ensures
        spacing(n, d) == s,
{
    let t = spacing(n, d);
    assert(is_spacing(n, d, t));
    if s < t {
        lemma_pow2_increases(53 + s, 52 + t);
        assert(d * pow2(53 + s) <= d * pow2(52 + t)) by (nonlinear_arith)
            requires
                pow2(53 + s) <= pow2(52 + t),
        ;
    } else if t < s {
        lemma_pow2_increases(53 + t, 52 + s);
        assert(d * pow2(53 + t) <= d * pow2(52 + s)) by (nonlinear_arith)
            requires
                pow2(53 + t) <= pow2(52 + s),
        ;
    }
}

/// Powers of two grow with the exponent.
pub proof fn lemma_pow2_increases(a: nat, b: nat)
    requires
        a <= b,
    ensures
        0 < pow2(a) <= pow2(b),
{
    lemma_pow2_pos(a);
    if a < b {
        lemma_pow2_strictly_increases(a, b);
    }
}

/// Every quotient has a spacing.
pub proof fn lemma_spacing_exists(n: nat, d: nat)
    requires
        d > 0,
    ensures
        is_spacing(n, d, spacing(n, d)),
{
    lemma_spacing_below(n, d, n);
}

proof fn lemma_spacing_below(n: nat, d: nat, top: nat)
    requires
        d > 0,
        n < d * pow2(53 + top) || top == n,
    ensures
        exists|s: nat| is_spacing(n, d, s),
    decreases top,
{
    if !(n < d * pow2(53 + top)) {
        lemma_pow2_above(53 + top);
        let p = pow2(53 + top);
        assert(n < d * p) by (nonlinear_arith)
            requires
                n < p,
                d > 0,
        ;
    }
    if top == 0 || n >= d * pow2(52 + top) {
        assert(is_spacing(n, d, top));
    } else {
        let lower = (top - 1) as nat;
        assert(52 + top == 53 + lower);
        lemma_spacing_below(n, d, lower);
    }
}

proof fn lemma_pow2_above(e: nat)
    ensures
        e < pow2(e),
    decreases e,
{
    lemma2_to64();
    if e > 0 {
        lemma_pow2_above((e - 1) as nat);
        lemma_pow2_unfold(e);
    }
}

/// The nearest integer depends on the quotient alone.
pub proof fn lemma_nearest_scaled(n: nat, d: nat, c: nat)
    requires
        d > 0,
        c > 0,
    ensures
        nearest(n * c, d * c) == nearest(n, d),
        d * c > 0,
{
    let q = n / d;
    let r = n % d;
    lemma_fundamental_div_mod(n as int, d as int);
    lemma_mod_bound(n as int, d as int);
    assert(n * c == q * (d * c) + r * c) by (nonlinear_arith)
        requires
            n == d * q + r,
    ;
    assert(0 <= r * c < d * c) by (nonlinear_arith)
        requires
            0 <= r < d,
            c > 0,
    ;
    lemma_fundamental_div_mod_converse((n * c) as int, (d * c) as int, q as int, (r * c) as int);
    assert(2 * (r * c) > d * c <==> 2 * r > d) by (nonlinear_arith)
        requires
            c > 0,
    ;
    assert(2 * (r * c) == d * c <==> 2 * r == d) by (nonlinear_arith)
        requires
            c > 0,
    ;
}

/// The pattern with significand `q` at spacing `s` stands for `q` times that spacing.
pub proof fn lemma_pattern_decodes(s: nat, q: nat)
    requires
        q <= 2 * HIDDEN,
        s > 0 ==> q >= HIDDEN,
    ensures
        pattern_magnitude((s * HIDDEN + q) as nat) == q * pow2(s),
{
    let h = HIDDEN as nat;
    let p = (s * HIDDEN + q) as nat;
    if q < HIDDEN {
        assert(s == 0);
    } else if q < 2 * HIDDEN {
        lemma_fundamental_div_mod_converse(p as int, h as int, (s + 1) as int, q - h);
    } else {
        lemma_fundamental_div_mod_converse(p as int, h as int, (s + 2) as int, 0);
        lemma_pow2_unfold(s + 1);
        assert(h * pow2(s + 1) == q * pow2(s)) by (nonlinear_arith)
            requires
                q == 2 * h,
                pow2(s + 1) == 2 * pow2(s),
        ;
    }
}

/// The significand that a quotient is rounded to has at most 53 bits, or is
/// two to the power 53.
pub proof fn lemma_nearest_significand(n: nat, d: nat, s: nat)
    requires
        d > 0,
        is_spacing(n, d, s),
    ensures
        nearest(n, d * pow2(s)) <= 2 * HIDDEN,
        s > 0 ==> nearest(n, d * pow2(s)) >= HIDDEN,
{
    lemma2_to64_rest();
    lemma_pow2_pos(s);
    lemma_pow2_adds(53, s);
    lemma_pow2_adds(52, s);
    let u = d * pow2(s);
    let h = HIDDEN as nat;
    assert(u > 0) by (nonlinear_arith)
        requires
            d > 0,
            pow2(s) > 0,
            u == d * pow2(s),
    ;
    let q = n / u;
    lemma_fundamental_div_mod(n as int, u as int);
    lemma_mod_bound(n as int, u as int);
    assert(d * pow2(53 + s) == (2 * h) * u) by (nonlinear_arith)
        requires
            pow2(53 + s) == (2 * h) * pow2(s),
            u == d * pow2(s),
    ;
    assert(d * pow2(52 + s) == h * u) by (nonlinear_arith)
        requires
            pow2(52 + s) == h * pow2(s),
            u == d * pow2(s),
    ;
    let r = n % u;
    assert(q < 2 * h) by (nonlinear_arith)
        requires
            n == u * q + r,
            0 <= r,
            n < (2 * h) * u,
            u > 0,
    ;
    if s > 0 {
        assert(q >= h) by (nonlinear_arith)
            requires
                n == u * q + r,
                r < u,
                n >= h * u,
                u > 0,
        ;
    }
}

/// What a quotient is rounded to, unless it is too large: the nearest multiple
/// of the spacing.
pub proof fn lemma_rounded_magnitude(n: nat, d: nat)
    requires
        d > 0,
    ensures
        nearest_pattern(n, d) <= INFINITE,
        nearest_pattern(n, d) < INFINITE ==> pattern_magnitude(nearest_pattern(n, d)) == nearest(
            n,
            d * pow2(spacing(n, d)),
        ) * pow2(spacing(n, d)),
{
    reveal(nearest_pattern);
    let s = spacing(n, d);
    lemma_spacing_exists(n, d);
    lemma_nearest_significand(n, d, s);
    lemma_pattern_decodes(s, nearest(n, d * pow2(s)));
}

/// A quotient that is a finite double's absolute value is rounded to it.
pub proof fn lemma_rounded_exact(n: nat, d: nat, p: nat)
    requires
        d > 0,
        p < INFINITE,
        n == d * pattern_magnitude(p),
    ensures
        nearest_pattern(n, d) == p,
{
    reveal(nearest_pattern);
    lemma2_to64_rest();
    let s = pattern_shift(p);
    let q = pattern_significand(p);
    let h = HIDDEN as nat;
    lemma_pow2_pos(s);
    lemma_pow2_adds(53, s);
    lemma_pow2_adds(52, s);
    let u = d * pow2(s);
    assert(u > 0) by (nonlinear_arith)
        requires
            d > 0,
            pow2(s) > 0,
            u == d * pow2(s),
    ;
    assert(n == q * u) by (nonlinear_arith)
        requires
            n == d * (q * pow2(s)),
            u == d * pow2(s),
    ;
    assert(d * pow2(53 + s) == (2 * h) * u) by (nonlinear_arith)
        requires
            pow2(53 + s) == (2 * h) * pow2(s),
            u == d * pow2(s),
    ;
    assert(d * pow2(52 + s) == h * u) by (nonlinear_arith)
        requires
            pow2(52 + s) == h * pow2(s),
            u == d * pow2(s),
    ;
    assert(q < 2 * h);
    assert(q * u < (2 * h) * u) by (nonlinear_arith)
        requires
            q < 2 * h,
            u > 0,
    ;
    if s > 0 {
        assert(q >= h);
        assert(q * u >= h * u) by (nonlinear_arith)
            requires
                q >= h,
                u > 0,
        ;
    }
    assert(is_spacing(n, d, s));
    lemma_spacing_unique(n, d, s);
    lemma_fundamental_div_mod_converse(n as int, u as int, q as int, 0);
    assert(nearest(n, u) == q);
    lemma_fundamental_div_mod(p as int, h as int);
}

/// A quotient that is at most a finite double's absolute value is not rounded
/// beyond it.
pub proof fn lemma_rounded_at_most(n: nat, d: nat, p: nat)
    requires
        d > 0,
        p < INFINITE,
        n <= d * pattern_magnitude(p),
    ensures
        nearest_pattern(n, d) <= p,
{
    reveal(nearest_pattern);
    lemma2_to64_rest();
    let s = spacing(n, d);
    let i = pattern_shift(p);
    let m = pattern_significand(p);
    let magnitude = pattern_magnitude(p);
    let v = pow2(s);
    let u = d * v;
    lemma_spacing_exists(n, d);
    lemma_pow2_pos(s);
    lemma_pow2_pos(i);
    if i < s {
        lemma_pow2_adds(53, i);
        lemma_pow2_increases(53 + i, 52 + s);
        let top = pow2(52 + s);
        assert(magnitude < top) by (nonlinear_arith)
            requires
                magnitude == m * pow2(i),
                m < 2 * HIDDEN,
                pow2(i) > 0,
                (2 * HIDDEN) * pow2(i) <= top,
        ;
        assert(d * magnitude < d * top) by (nonlinear_arith)
            requires
                magnitude < top,
                d > 0,
        ;
        assert(false);
    }
    let w = pow2((i - s) as nat);
    lemma_pow2_adds((i - s) as nat, s);
    let k = m * w;
    assert(magnitude == k * v) by (nonlinear_arith)
        requires
            magnitude == m * (w * v),
            k == m * w,
    ;
    assert(u > 0) by (nonlinear_arith)
        requires
            d > 0,
            v > 0,
            u == d * v,
    ;
    assert(n <= k * u) by (nonlinear_arith)
        requires
            n <= d * magnitude,
            magnitude == k * v,
            u == d * v,
    ;
    let q = n / u;
    let r = n % u;
    lemma_fundamental_div_mod(n as int, u as int);
    lemma_mod_bound(n as int, u as int);
    assert(q <= k && (r > 0 ==> q < k)) by (nonlinear_arith)
        requires
            n == u * q + r,
            0 <= r < u,
            n <= k * u,
    ;
    assert(nearest(n, u) <= k);
    lemma_nearest_significand(n, d, s);
    lemma_pattern_decodes(s, nearest(n, u));
    let near = nearest(n, u);
    assert(near * v <= k * v) by (nonlinear_arith)
        requires
            near <= k,
    ;
    lemma_rounded_magnitude(n, d);
    let full = (s * HIDDEN + near) as nat;
    if full > p {
        if full <= INFINITE {
            lemma_magnitude_increases(p, full);
        } else {
            lemma_pattern_too_large(s, near, p);
        }
    }
}

/// A significand at a spacing stands for more than a finite double where its
/// pattern is above infinity.
proof fn lemma_pattern_too_large(s: nat, q: nat, p: nat)
    requires
        q <= 2 * HIDDEN,
        s > 0 ==> q >= HIDDEN,
        s * HIDDEN + q > INFINITE,
        p < INFINITE,
    ensures
        pattern_magnitude(p) < q * pow2(s),
{
    lemma2_to64_rest();
    let limit = INFINITE as nat;
    lemma_magnitude_increases(p, limit);
    assert(s >= 2046);
    assert(pattern_shift(limit) == 2046);
    assert(pattern_significand(limit) == HIDDEN);
    lemma_pow2_increases(2046, s);
    let a = pow2(2046);
    let b = pow2(s);
    assert(HIDDEN * a <= q * b) by (nonlinear_arith)
        requires
            HIDDEN <= q,
            0 < a <= b,
    ;
}

/// Whether `n / d` steps lie between `sig` and `sig + 1` units of two to the
/// power `t` steps, strictly above `sig` of them where `inexact`.
pub open spec fn brackets(n: nat, d: nat, sig: nat, t: int, inexact: bool) -> bool {
    let m = if t >= 0 {
        n
    } else {
        n * pow2((-t) as nat)
    };
    let u = if t >= 0 {
        d * pow2(t as nat)
    } else {
        d
    };
    &&& sig * u <= m < (sig + 1) * u
    &&& inexact == (m != sig * u)
}

/// The spacing at a bracketed quotient follows from the length of its leading part.
proof fn lemma_bracket_spacing(n: nat, d: nat, sig: nat, t: int, inexact: bool, len: nat, s: nat)
    requires
        d > 0,
        brackets(n, d, sig, t, inexact),
        len > 0,
        pow2((len - 1) as nat) <= sig < pow2(len),
        s == if len + t > 53 {
            len + t - 53
        } else {
            0
        },
    ensures
        is_spacing(n, d, s),
{
    let low = pow2((len - 1) as nat);
    let high = pow2(len);
    if t >= 0 {
        let e = pow2(t as nat);
        let u = d * e;
        lemma_pow2_adds(len, t as nat);
        lemma_pow2_adds((len - 1) as nat, t as nat);
        lemma_pow2_increases((len + t) as nat, 53 + s);
        let top = pow2(53 + s);
        assert(n < d * top) by (nonlinear_arith)
            requires
                n < (sig + 1) * u,
                sig + 1 <= high,
                u == d * e,
                high * e <= top,
        ;
        if s > 0 {
            assert(52 + s == len - 1 + t);
            let bottom = pow2(52 + s);
            assert(n >= d * bottom) by (nonlinear_arith)
                requires
                    n >= sig * u,
                    sig >= low,
                    u == d * e,
                    bottom == low * e,
            ;
        }
    } else {
        let w = (-t) as nat;
        let c = pow2(w);
        lemma_pow2_pos(w);
        lemma_pow2_adds(53 + s, w);
        lemma_pow2_increases(len, 53 + s + w);
        let top = pow2(53 + s);
        assert(n < d * top) by (nonlinear_arith)
            requires
                n * c < (sig + 1) * d,
                sig + 1 <= high,
                high <= top * c,
                c > 0,
        ;
        if s > 0 {
            lemma_pow2_adds(52 + s, w);
            assert(52 + s + w == len - 1);
            let bottom = pow2(52 + s);
            assert(n >= d * bottom) by (nonlinear_arith)
                requires
                    n * c >= sig * d,
                    sig >= low,
                    low == bottom * c,
                    c > 0,
            ;
        }
    }
}

/// Rounding a bracketed number to a multiple of `2 * half` units.
proof fn lemma_bracket_nearest(m: nat, u: nat, sig: nat, half: nat, inexact: bool)
    requires
        u > 0,
        half > 0,
        sig * u <= m < (sig + 1) * u,
        inexact == (m != sig * u),
    ensures
        ({
            let q = sig / (2 * half);
            let rem = sig % (2 * half);
            nearest(m, u * (2 * half)) == if rem > half || (rem == half && (inexact || q % 2 == 1)) {
                q + 1
            } else {
                q
            }
        }),
{
    let p = 2 * half;
    let q = sig / p;
    let rem = sig % p;
    lemma_fundamental_div_mod(sig as int, p as int);
    lemma_mod_bound(sig as int, p as int);
    let r = m - q * (u * p);
    assert(sig * u == q * (u * p) + rem * u) by (nonlinear_arith)
        requires
            sig == p * q + rem,
    ;
    assert((sig + 1) * u == sig * u + u) by (nonlinear_arith);
    assert(rem * u <= r < rem * u + u);
    assert(rem * u + u <= u * p) by (nonlinear_arith)
        requires
            rem + 1 <= p,
    ;
    assert(rem * u >= 0) by (nonlinear_arith);
    assert(u * p > 0) by (nonlinear_arith)
        requires
            u > 0,
            p > 0,
    ;
    lemma_fundamental_div_mod_converse(m as int, (u * p) as int, q as int, r);
    assert(u * p == 2 * (half * u)) by (nonlinear_arith)
        requires
            p == 2 * half,
    ;
    if rem > half {
        assert(rem * u >= half * u + u) by (nonlinear_arith)
            requires
                rem >= half + 1,
        ;
    } else if rem < half {
        assert(rem * u + u <= half * u) by (nonlinear_arith)
            requires
                rem + 1 <= half,
        ;
    }
}

/// The significand at spacing `s` of a bracketed quotient, where the spacing is
/// wider than the bracket's unit.
proof fn lemma_bracket_wide(n: nat, d: nat, sig: nat, t: int, inexact: bool, s: nat, half: nat)
    requires
        d > 0,
        brackets(n, d, sig, t, inexact),
        s > t,
        half == pow2((s - t - 1) as nat),
    ensures
        half > 0,
        ({
            let q = sig / (2 * half);
            let rem = sig % (2 * half);
            nearest(n, d * pow2(s)) == if rem > half || (rem == half && (inexact || q % 2 == 1)) {
                q + 1
            } else {
                q
            }
        }),
{
    let k = (s - t) as nat;
    lemma_pow2_pos((k - 1) as nat);
    lemma_pow2_unfold(k);
    let p = pow2(k);
    if t >= 0 {
        let e = pow2(t as nat);
        let u = d * e;
        lemma_pow2_pos(t as nat);
        lemma_pow2_adds(t as nat, k);
        assert(u > 0) by (nonlinear_arith)
            requires
                d > 0,
                e > 0,
                u == d * e,
        ;
        lemma_bracket_nearest(n, u, sig, half, inexact);
        assert(d * (e * p) == u * p) by (nonlinear_arith)
            requires
                u == d * e,
        ;
    } else {
        let w = (-t) as nat;
        let c = pow2(w);
        lemma_pow2_pos(w);
        lemma_pow2_pos(s);
        lemma_pow2_adds(s, w);
        let v = pow2(s);
        assert(d * v > 0) by (nonlinear_arith)
            requires
                d > 0,
                v > 0,
        ;
        lemma_bracket_nearest(n * c, d, sig, half, inexact);
        lemma_nearest_scaled(n, d * v, c);
        assert((d * v) * c == d * p) by (nonlinear_arith)
            requires
                p == v * c,
        ;
    }
}

/// The significand at spacing `s` of an exact quotient, where the spacing is no
/// wider than the bracket's unit.
proof fn lemma_bracket_narrow(n: nat, d: nat, sig: nat, t: int, s: nat)
    requires
        d > 0,
        brackets(n, d, sig, t, false),
        s <= t,
    ensures
        nearest(n, d * pow2(s)) == sig * pow2((t - s) as nat),
{
    let e = pow2((t - s) as nat);
    let v = pow2(s);
    lemma_pow2_adds((t - s) as nat, s);
    lemma_pow2_pos(s);
    let q = sig * e;
    assert(n == q * (d * v)) by (nonlinear_arith)
        requires
            n == sig * (d * (e * v)),
            q == sig * e,
    ;
    assert(d * v > 0) by (nonlinear_arith)
        requires
            d > 0,
            v > 0,
    ;
    lemma_fundamental_div_mod_converse(n as int, (d * v) as int, q as int, 0);
}

/// Two to the power `e`.
pub(crate) fn power_of_two(e: u32) -> (r: u128)
    requires
        e < 128,
    ensures
        r == pow2(e as nat),
{
    let mut i: u32 = 0;
    let mut r: u128 = 1;
    proof {
        lemma2_to64();
    }
    while i < e
        invariant
            i <= e < 128,
            r == pow2(i as nat),
        decreases e - i,
    {
        proof {
            lemma_pow2_unfold((i + 1) as nat);
            lemma_pow2_increases((i + 1) as nat, 127);
            lemma_pow2_127();
        }
        r = r * 2;
        i = i + 1;
    }
    r
}

pub(crate) proof fn lemma_pow2_127()
    ensures
        pow2(127) == 0x8000_0000_0000_0000_0000_0000_0000_0000,
{
    lemma2_to64();
    lemma2_to64_rest();
    lemma_pow2_adds(63, 64);
}

/// The number of binary digits of `sig`.
fn bit_length(sig: u128) -> (len: u32)
    requires
        0 < sig < 0x8000_0000_0000_0000_0000_0000_0000_0000,
    ensures
        0 < len <= 127,
        pow2((len - 1) as nat) <= sig < pow2(len as nat),
{
    let mut len: u32 = 0;
    let mut top: u128 = 1;
    proof {
        lemma2_to64();
        lemma_pow2_127();
    }
    while top <= sig
        invariant
            0 < sig < 0x8000_0000_0000_0000_0000_0000_0000_0000,
            pow2(127) == 0x8000_0000_0000_0000_0000_0000_0000_0000,
            len <= 127,
            top == pow2(len as nat),
            len > 0 ==> pow2((len - 1) as nat) <= sig,
            len == 0 ==> top == 1,
        decreases 127 - len,
    {
        proof {
            lemma_pow2_unfold((len + 1) as nat);
        }
        top = top * 2;
        len = len + 1;
    }
    len
}

/// The double nearest to plus or minus the quotient that `sig` units of two to
/// the power `t` steps bracket.
pub(crate) fn round_bracketed(
    negative: bool,
    sig: u128,
    t: i32,
    inexact: bool,
    Ghost(n): Ghost<nat>,
    Ghost(d): Ghost<nat>,
) -> (r: Double)
    requires
        d > 0,
        0 < sig < 0x8000_0000_0000_0000_0000_0000_0000_0000,
        -4000 <= t <= 4000,
        inexact ==> sig >= 0x40_0000_0000_0000,
        brackets(n, d, sig as nat, t as int, inexact),
    ensures
        r == rounded(negative, n, d),
{
    let len: i32 = bit_length(sig) as i32;
    let s: i32 = if len + t > 53 {
        len + t - 53
    } else {
        0
    };
    proof {
        reveal(nearest_pattern);
        lemma2_to64_rest();
        lemma_pow2_127();
        lemma_bracket_spacing(n, d, sig as nat, t as int, inexact, len as nat, s as nat);
        lemma_spacing_unique(n, d, s as nat);
        lemma_nearest_significand(n, d, s as nat);
    }
    let ghost target = nearest(n, d * pow2(s as nat));
    let k: i32 = s - t;
    let q: u64;
    if k <= 0 {
        proof {
            if inexact {
                if len <= 53 {
                    lemma_pow2_increases(len as nat, 53);
                }
                assert(false);
            }
            lemma_bracket_narrow(n, d, sig as nat, t as int, s as nat);
            lemma_pow2_pos((-k) as nat);
            let e = pow2((-k) as nat);
            assert(sig * e >= e) by (nonlinear_arith)
                requires
                    sig >= 1,
            ;
            if -k >= 54 {
                lemma_pow2_increases(54, (-k) as nat);
            }
        }
        let e: u128 = power_of_two((-k) as u32);
        q = (sig * e) as u64;
    } else if k >= 128 {
        proof {
            let half = pow2((k - 1) as nat);
            lemma_pow2_increases(127, (k - 1) as nat);
            lemma_bracket_wide(n, d, sig as nat, t as int, inexact, s as nat, half);
            lemma_fundamental_div_mod_converse(sig as int, 2 * half as int, 0, sig as int);
        }
        q = 0;
    } else {
        let half: u128 = power_of_two((k - 1) as u32);
        proof {
            lemma_pow2_increases((k - 1) as nat, 126);
            lemma_pow2_unfold(127);
            lemma_bracket_wide(n, d, sig as nat, t as int, inexact, s as nat, half as nat);
        }
        let below: u128 = sig / (2 * half);
        let rem: u128 = sig % (2 * half);
        if rem > half || (rem == half && (inexact || below % 2 == 1)) {
            q = (below + 1) as u64;
        } else {
            q = below as u64;
        }
    }
    assert(q == target);
    let p: u64 = if s >= 2046 {
        INFINITE
    } else {
        let p: u64 = s as u64 * HIDDEN + q;
        if p < INFINITE {
            p
        } else {
            INFINITE
        }
    };
    if negative {
        Double { bits: SIGN + p }
    } else {
        Double { bits: p }
    }
}

} // verus!
