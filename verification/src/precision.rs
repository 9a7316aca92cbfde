//! How near binary32 results are to the exact ones.
//!
//! Magnitudes are counted in units of 2^-149. Below 1024 a rounded result is
//! off by at most 2^-15, or `slack()` units; about one it is off by at most
//! 2^-22, or `fine()` units. Whole numbers up to 2^24 are not off at all.

use crate::number;
use crate::number::Number;
use crate::rounding;
use vstd::arithmetic::div_mod;
use vstd::arithmetic::power2;
use vstd::prelude::*;

verus! {

/// The units in one.
#[verifier::inline]
pub open spec fn one() -> int {
    0x20_0000_0000_0000_0000_0000_0000_0000_0000_0000int
}

/// The units in 2^-15.
#[verifier::inline]
pub open spec fn slack() -> int {
    0x40_0000_0000_0000_0000_0000_0000_0000_0000int
}

/// The units in 2^-22.
#[verifier::inline]
pub open spec fn fine() -> int {
    0x8000_0000_0000_0000_0000_0000_0000_0000int
}

pub proof fn lemma_one()
    ensures
        power2::pow2(149) == one(),
        power2::pow2(134) == slack(),
        power2::pow2(159) == 1024 * one(),
        power2::pow2(277) > 1024 * one(),
{
    power2::lemma2_to64();
    power2::lemma2_to64_rest();
    power2::lemma_pow2_adds(64, 64);
    power2::lemma_pow2_adds(128, 6);
    power2::lemma_pow2_adds(134, 15);
    power2::lemma_pow2_adds(149, 10);
    power2::lemma_pow2_strictly_increases(159, 277);
}

pub proof fn lemma_half_even_close(n: nat, d: nat)
    requires
        d > 0,
    ensures
        2 * (rounding::half_even(n, d) * d - n) <= d,
        2 * (n - rounding::half_even(n, d) * d) <= d,
{
    let q = n / d;
    let r = n % d;
    div_mod::lemma_fundamental_div_mod(n as int, d as int);
    assert(d * q == q * d) by (nonlinear_arith);
    assert((q + 1) * d == q * d + d) by (nonlinear_arith);
}

/// A quotient below 1024 is rounded by at most the slack.
pub proof fn lemma_rounded_close(n: nat, d: nat)
    requires
        d > 0,
        n < d * (1024 * one()),
    ensures
        rounding::rounded(n, d) * d - n <= d * slack(),
        n - rounding::rounded(n, d) * d <= d * slack(),
        rounding::rounded(n, d) < power2::pow2(277),
{
    lemma_one();
    let q = n / d;
    let e = rounding::surplus_bits(q);
    let p = power2::pow2(e);
    power2::lemma_pow2_pos(e);
    assert(q < 1024 * one()) by (nonlinear_arith)
        requires
            d > 0,
            n < d * (1024 * one()),
            q == n / d,
    ;
    assert(e <= 135) by {
        if e > 135 {
            rounding::lemma_surplus_bounds(q);
            if e > 136 {
                power2::lemma_pow2_strictly_increases(136, e);
            }
            power2::lemma2_to64();
            power2::lemma_pow2_adds(23, 136);
        }
    }
    power2::lemma_pow2_unfold(135);
    if e < 135 {
        power2::lemma_pow2_strictly_increases(e, 135);
    }
    let w = d * p;
    assert(w > 0) by (nonlinear_arith)
        requires
            w == d * p,
            d > 0,
            p > 0,
    ;
    lemma_half_even_close(n, w);
    let h = rounding::half_even(n, w);
    let result = h * p;
    assert(h * w == result * d) by (nonlinear_arith)
        requires
            result == h * p,
            w == d * p,
    ;
    let s = slack();
    assert(w <= 2 * (d * s)) by (nonlinear_arith)
        requires
            w == d * p,
            p <= 2 * s,
            d > 0,
    ;
    assert(result <= 1024 * one() + s) by (nonlinear_arith)
        requires
            result * d - n <= d * s,
            n < d * (1024 * one()),
            d > 0,
    ;
    power2::lemma_pow2_unfold(160);
    power2::lemma_pow2_strictly_increases(160, 277);
}

/// A quotient of at least 2^23 units is rounded by at most one part in 2^24.
pub proof fn lemma_rounded_relative(n: nat, d: nat)
    requires
        d > 0,
        n / d >= 0x80_0000,
    ensures
        0x100_0000 * (rounding::rounded(n, d) * d - n) <= n,
        0x100_0000 * (n - rounding::rounded(n, d) * d) <= n,
{
    let q = n / d;
    let e = rounding::surplus_bits(q);
    let p = power2::pow2(e);
    power2::lemma_pow2_pos(e);
    if q >= 0x100_0000 {
        rounding::lemma_surplus_bounds(q);
    } else {
        power2::lemma2_to64();
    }
    let w = d * p;
    assert(w > 0) by (nonlinear_arith)
        requires
            w == d * p,
            d > 0,
            p > 0,
    ;
    div_mod::lemma_fundamental_div_mod(n as int, d as int);
    assert(0x80_0000 * w <= n) by (nonlinear_arith)
        requires
            n >= d * q,
            q >= 0x80_0000 * p,
            w == d * p,
            d > 0,
    ;
    lemma_half_even_close(n, w);
    let h = rounding::half_even(n, w);
    let result = h * p;
    assert(h * w == result * d) by (nonlinear_arith)
        requires
            result == h * p,
            w == d * p,
    ;
}

/// Any quotient is rounded by at most one part in 2^24 and half a unit.
pub proof fn lemma_rounded_fine(n: nat, d: nat)
    requires
        d > 0,
    ensures
        0x100_0000 * (rounding::rounded(n, d) * d - n) <= n + 0x80_0000 * d,
        0x100_0000 * (n - rounding::rounded(n, d) * d) <= n + 0x80_0000 * d,
{
    let q = n / d;
    if q >= 0x80_0000 {
        lemma_rounded_relative(n, d);
    } else {
        power2::lemma2_to64();
        let h = rounding::half_even(n, d);
        assert(rounding::surplus_bits(q) == 0);
        assert(d * 1 == d && h * 1 == h);
        lemma_half_even_close(n, d);
    }
}

/// A magnitude with at most 24 significant bits is kept as it is.
pub proof fn lemma_rounded_exact(m: nat, e: nat)
    requires
        m < 0x100_0000,
    ensures
        rounding::rounded(m * power2::pow2(e), 1) == m * power2::pow2(e),
{
    let p = power2::pow2(e);
    power2::lemma_pow2_pos(e);
    let q = m * p;
    assert(q / 1 == q);
    let s = rounding::surplus_bits(q);
    div_mod::lemma_div_by_multiple(m as int, p as int);
    rounding::lemma_surplus_of_quotient(q, e);
    assert(s <= e);
    let rest = power2::pow2((e - s) as nat);
    let cut = power2::pow2(s);
    power2::lemma_pow2_pos(s);
    power2::lemma_pow2_adds((e - s) as nat, s);
    assert(q == (m * rest) * cut) by (nonlinear_arith)
        requires
            q == m * (rest * cut),
    ;
    div_mod::lemma_div_by_multiple((m * rest) as int, cut as int);
    div_mod::lemma_mod_multiples_basic((m * rest) as int, cut as int);
    assert(1 * cut == cut);
}

/// What a pattern stands for is not changed by rounding.
pub proof fn lemma_pattern_exact(bits: u32)
    ensures
        Number::of_bits(bits) matches Number::Finite { negative, units } ==> rounding::rounded(
            units,
            1,
        ) == units && units < power2::pow2(277),
{
    let pattern = bits as nat % 0x8000_0000;
    if pattern < 0x7f80_0000 {
        let exponent = pattern / 0x80_0000;
        let fraction = pattern % 0x80_0000;
        if exponent == 0 {
            power2::lemma2_to64();
            assert(fraction * 1 == fraction);
            lemma_rounded_exact(fraction, 0);
            number::lemma_pattern_overflows(0, fraction);
        } else {
            lemma_rounded_exact(0x80_0000 + fraction, (exponent - 1) as nat);
            number::lemma_pattern_overflows((exponent - 1) as nat, 0x80_0000 + fraction);
        }
    }
}

/// Whole numbers below 2^24 stand for themselves.
pub proof fn lemma_whole(n: nat)
    requires
        n < 0x100_0000,
    ensures
        Number::whole(n) == (Number::Finite { negative: false, units: (n * one()) as nat }),
{
    lemma_one();
    lemma_rounded_exact(n, 149);
    power2::lemma_pow2_adds(24, 149);
    power2::lemma2_to64();
    power2::lemma_pow2_strictly_increases(173, 277);
    assert(n * power2::pow2(149) < 0x100_0000 * power2::pow2(149)) by (nonlinear_arith)
        requires
            n < 0x100_0000,
            power2::pow2(149) > 0,
    ;
}

/// The pattern of the nearest number to `n / d`, where 24 significant bits of
/// the ratio reach down to `2^-j`.
pub proof fn lemma_ratio_pattern(n: nat, d: nat, j: nat, bits: u32)
    requires
        d > 0,
        j <= 148,
        0x80_0000 <= n * power2::pow2(j) / d < 0x100_0000,
        bits == (149 - j) * 0x80_0000 + rounding::half_even(n * power2::pow2(j), d),
        rounding::half_even(n * power2::pow2(j), d) < 0x100_0000,
    ensures
        Number::of_bits(bits) == Number::ratio(n, d),
{
    let e = (149 - j) as nat;
    let p = power2::pow2(e);
    let pj = power2::pow2(j);
    let top = n * power2::pow2(149);
    let q = top / d;
    let m = rounding::half_even(n * pj, d);
    power2::lemma_pow2_pos(e);
    power2::lemma_pow2_pos((e - 1) as nat);
    power2::lemma_pow2_adds(j, e);
    assert(top == (n * pj) * p) by (nonlinear_arith)
        requires
            top == n * (pj * p),
    ;
    // The quotient has exactly `e` surplus bits.
    div_mod::lemma_div_denominator(top as int, d as int, p as int);
    div_mod::lemma_div_denominator(top as int, p as int, d as int);
    div_mod::lemma_div_by_multiple((n * pj) as int, p as int);
    assert(d * p == p * d) by (nonlinear_arith);
    assert(q / p == n * pj / d);
    rounding::lemma_surplus_of_quotient(q, e);
    let half = power2::pow2((e - 1) as nat);
    power2::lemma_pow2_unfold(e);
    assert(q / half >= 0x100_0000) by {
        div_mod::lemma_div_denominator(q as int, half as int, 2);
        assert(half * 2 == p);
        assert((q / half) / 2 == q / p);
    }
    rounding::lemma_surplus_of_quotient(q, (e - 1) as nat);
    assert(rounding::surplus_bits(q / half) >= 1);
    assert(rounding::surplus_bits(q) == e);
    rounding::lemma_half_even_scales(n * pj, d, p);
    // And the pattern stands for that many units.
    number::lemma_pattern_units(e, m);
    number::lemma_pattern_overflows(e, m);
}

/// The nearest number to a ratio below 1024.
pub proof fn lemma_ratio_close(n: nat, d: nat)
    requires
        d > 0,
        n < 1024 * d,
    ensures
        Number::ratio(n, d) matches Number::Finite { negative, units } && !negative && units * d
            - n * one() <= d * slack() && n * one() - units * d <= d * slack(),
{
    lemma_one();
    assert(n * one() < d * (1024 * one()));
    lemma_rounded_close((n * one()) as nat, d);
}

/// The nearest number to a ratio of at most 3.
pub proof fn lemma_ratio_fine(n: nat, d: nat)
    requires
        d > 0,
        n <= 3 * d,
    ensures
        Number::ratio(n, d) matches Number::Finite { negative, units } && !negative && units * d
            - n * one() <= d * fine() && n * one() - units * d <= d * fine(),
{
    lemma_one();
    lemma_ratio_close(n, d);
    lemma_rounded_fine((n * one()) as nat, d);
}

pub proof fn lemma_times_close(a: Number, b: Number)
    requires
        a is Finite,
        b is Finite,
        a->units * b->units < 1024 * one() * one(),
    ensures
        a.times(b) is Finite,
        a.times(b).signed() * one() - a.signed() * b.signed() <= slack() * one(),
        a.signed() * b.signed() - a.times(b).signed() * one() <= slack() * one(),
{
    lemma_one();
    let ua = a->units;
    let ub = b->units;
    lemma_rounded_close(ua * ub, one() as nat);
    assert(a.signed() * b.signed() == if a.is_negative() != b.is_negative() {
        -(ua * ub)
    } else {
        ua * ub as int
    }) by (nonlinear_arith)
        requires
            a.signed() == if a.is_negative() {
                -(ua as int)
            } else {
                ua as int
            },
            b.signed() == if b.is_negative() {
                -(ub as int)
            } else {
                ub as int
            },
    ;
}

pub proof fn lemma_times_fine(a: Number, b: Number)
    requires
        a is Finite,
        b is Finite,
        a->units * b->units <= 2 * one() * one(),
    ensures
        a.times(b) is Finite,
        a.times(b).signed() * one() - a.signed() * b.signed() <= fine() * one(),
        a.signed() * b.signed() - a.times(b).signed() * one() <= fine() * one(),
{
    lemma_one();
    lemma_times_close(a, b);
    let ua = a->units;
    let ub = b->units;
    lemma_rounded_fine(ua * ub, one() as nat);
    assert(a.signed() * b.signed() == if a.is_negative() != b.is_negative() {
        -(ua * ub)
    } else {
        ua * ub as int
    }) by (nonlinear_arith)
        requires
            a.signed() == if a.is_negative() {
                -(ua as int)
            } else {
                ua as int
            },
            b.signed() == if b.is_negative() {
                -(ub as int)
            } else {
                ub as int
            },
    ;
}

pub proof fn lemma_times_commutes(a: Number, b: Number)
    ensures
        a.times(b) == b.times(a),
{
    if a is Finite && b is Finite {
        let ua = a->units;
        let ub = b->units;
        assert(ua * ub == ub * ua) by (nonlinear_arith);
    }
}

pub proof fn lemma_plus_close(a: Number, b: Number)
    requires
        a is Finite,
        b is Finite,
        -1024 * one() < a.signed() + b.signed() < 1024 * one(),
    ensures
        a.plus(b) is Finite,
        a.plus(b).signed() - (a.signed() + b.signed()) <= slack(),
        (a.signed() + b.signed()) - a.plus(b).signed() <= slack(),
{
    lemma_one();
    let sum = a.signed() + b.signed();
    if sum > 0 {
        lemma_rounded_close(sum as nat, 1);
    } else if sum < 0 {
        lemma_rounded_close((-sum) as nat, 1);
    }
}

pub proof fn lemma_plus_fine(a: Number, b: Number)
    requires
        a is Finite,
        b is Finite,
        -3 * one() <= a.signed() + b.signed() <= 3 * one(),
    ensures
        a.plus(b) is Finite,
        a.plus(b).signed() - (a.signed() + b.signed()) <= fine(),
        (a.signed() + b.signed()) - a.plus(b).signed() <= fine(),
{
    lemma_one();
    lemma_plus_close(a, b);
    let sum = a.signed() + b.signed();
    if sum > 0 {
        lemma_rounded_fine(sum as nat, 1);
    } else if sum < 0 {
        lemma_rounded_fine((-sum) as nat, 1);
    }
}

/// Sums of whole numbers are exact.
pub proof fn lemma_plus_whole(a: Number, b: Number, n: int)
    requires
        a is Finite,
        b is Finite,
        a.signed() + b.signed() == n * one(),
        -0x100_0000 < n < 0x100_0000,
    ensures
        a.plus(b) is Finite,
        a.plus(b).signed() == n * one(),
{
    lemma_one();
    if n > 0 {
        lemma_whole(n as nat);
    } else if n < 0 {
        lemma_whole((-n) as nat);
    }
}

/// Rounding to a byte, of a number that is within `off` of the whole number
/// `n`, where `off` is below one half.
pub proof fn lemma_nearest_byte(a: Number, n: int)
    requires
        a is Finite,
        0 <= n <= 255,
        -one() < 2 * (a.signed() - n * one()) < one(),
    ensures
        a.nearest_byte() == n,
{
    lemma_nearest_byte_close(a);
}

/// A byte is the nearest one to the number it is rounded from.
pub proof fn lemma_nearest_byte_close(a: Number)
    requires
        a is Finite,
    ensures
        a.nearest_byte() <= 255,
        a.nearest_byte() < 255 ==> 2 * a.signed() < (2 * a.nearest_byte() + 1) * one(),
        a.nearest_byte() > 0 ==> 2 * a.signed() >= (2 * a.nearest_byte() - 1) * one(),
{
    lemma_one();
    power2::lemma_pow2_unfold(150);
    assert(power2::pow2(150) == 2 * one());
}

/// The whole part, the number of ones that cover, and the cut number are what
/// they should be: they stay within one of the number, on the right side of it.
/// Beyond the range of the result they are its ends.
pub proof fn law_whole_parts(a: Number)
    requires
        a is Finite,
    ensures
        a.signed() < 0 ==> a.floor_word() == 0 && a.ceil_word() == 0,
        0 <= a.signed() < 0x1_0000_0000 * one() ==> a.floor_word() * one() <= a.signed() < (
        a.floor_word() + 1) * one(),
        0 <= a.signed() <= 0xffff_ffff * one() ==> (a.ceil_word() - 1) * one() < a.signed()
            <= a.ceil_word() * one(),
        a.signed() >= 0xffff_ffff * one() ==> a.floor_word() == 0xffff_ffff && a.ceil_word()
            == 0xffff_ffff,
        0 <= a.signed() < 0x8000_0000_0000_0000 * one() ==> a.whole_long() * one() <= a.signed()
            < (a.whole_long() + 1) * one(),
        -0x8000_0000_0000_0000 * one() < a.signed() <= 0 ==> (a.whole_long() - 1) * one()
            < a.signed() <= a.whole_long() * one(),
        a.signed() >= 0x8000_0000_0000_0000 * one() ==> a.whole_long() == i64::MAX,
        a.signed() <= -0x8000_0000_0000_0000 * one() ==> a.whole_long() == i64::MIN,
{
    lemma_one();
    let units = a->units as int;
    let q = units / one();
    div_mod::lemma_fundamental_div_mod(units, one());
    div_mod::lemma_mod_bound(units, one());
    let up = units + one() - 1;
    let c = up / one();
    div_mod::lemma_fundamental_div_mod(up, one());
    div_mod::lemma_mod_bound(up, one());
    assert(one() * q <= units < one() * q + one());
    assert(one() * c <= up < one() * c + one());
}

/// Rounding picks the nearest of the numbers that are left once the digits beyond
/// the first 24 are dropped. Of two that are equally near it picks the one whose
/// last digit is even.
pub proof fn law_rounding_is_nearest(n: nat, d: nat)
    requires
        d > 0,
    ensures
        ({
            let e = rounding::surplus_bits(n / d);
            let step = power2::pow2(e) as int;
            let r = rounding::rounded(n, d) as int;
            &&& step > 0
            &&& r % step == 0
            &&& 2 * (r * d - n) <= step * d
            &&& 2 * (n - r * d) <= step * d
            &&& 2 * (r * d - n) == step * d || 2 * (n - r * d) == step * d ==> (r / step) % 2 == 0
            &&& n / d < 0x100_0000 * step
            &&& step > 1 ==> 0x80_0000 * step <= n / d
        }),
{
    let q = n / d;
    let e = rounding::surplus_bits(q);
    let p = power2::pow2(e);
    power2::lemma_pow2_pos(e);
    power2::lemma2_to64();
    if q >= 0x100_0000 {
        rounding::lemma_surplus_bounds(q);
    }
    let w = d * p;
    assert(w > 0) by (nonlinear_arith)
        requires
            w == d * p,
            d > 0,
            p > 0,
    ;
    let h = rounding::half_even(n, w);
    let r = h * p;
    lemma_half_even_tie(n, w);
    assert(r * d == h * w) by (nonlinear_arith)
        requires
            r == h * p,
            w == d * p,
    ;
    assert(p * d == w) by (nonlinear_arith)
        requires
            w == d * p,
    ;
    assert(h * p == p * h) by (nonlinear_arith);
    div_mod::lemma_fundamental_div_mod_converse(r as int, p as int, h as int, 0);
}

proof fn lemma_half_even_tie(n: nat, w: nat)
    requires
        w > 0,
    ensures
        ({
            let h = rounding::half_even(n, w);
            &&& 2 * (h * w - n) <= w
            &&& 2 * (n - h * w) <= w
            &&& 2 * (h * w - n) == w || 2 * (n - h * w) == w ==> h % 2 == 0
        }),
{
    let q = n / w;
    let r = n % w;
    div_mod::lemma_fundamental_div_mod(n as int, w as int);
    assert(w * q == q * w) by (nonlinear_arith);
    assert((q + 1) * w == q * w + w) by (nonlinear_arith);
    let h = rounding::half_even(n, w);
    if h == q {
        assert(h * w == q * w);
    } else {
        assert(h * w == (q + 1) * w);
    }
}

/// Sums and products do not depend on the order, a sign goes through a product,
/// a number less itself is nothing, and a NaN spreads.
pub proof fn law_arithmetic_is_symmetric(a: Number, b: Number)
    ensures
        a.plus(b) == b.plus(a),
        a.times(b) == b.times(a),
        a.negated().times(b) == a.times(b).negated(),
        a.negated().negated() == a,
        a is Finite ==> a.minus(a).is_zero(),
        a is Infinite ==> a.minus(a) is Nan,
        a is Nan || b is Nan ==> a.plus(b) is Nan && a.times(b) is Nan && a.over(b) is Nan,
{
    lemma_times_commutes(a, b);
    if a is Finite && b is Finite {
        assert(a.signed() + b.signed() == b.signed() + a.signed());
    }
}

} // verus!
