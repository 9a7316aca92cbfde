//! Rounding to 24 significant bits, the precision of binary32 arithmetic.
//!
//! A magnitude is counted in units of 2^-149, the smallest positive binary32
//! value, so that every finite magnitude is a natural number and the exact
//! result of an operation is a quotient of two of them.

use vstd::arithmetic::div_mod;
use vstd::arithmetic::power2;
use vstd::prelude::*;

verus! {

/// The integer nearest to `n / d`; of two equally near ones, the even one.
pub open spec fn half_even(n: nat, d: nat) -> nat {
    let q = n / d;
    let r = n % d;
    if 2 * r < d || (2 * r == d && q % 2 == 0) {
        q
    } else {
        q + 1
    }
}

/// How many low bits of `q` lie beyond its 24 leading ones.
pub open spec fn surplus_bits(q: nat) -> nat
    decreases q,
{
    if q < 0x100_0000 {
        0
    } else {
        1 + surplus_bits(q / 2)
    }
}

/// `n / d` rounded to 24 significant bits, and to whole units where it is
/// smaller than that; ties go to the even neighbour.
pub open spec fn rounded(n: nat, d: nat) -> nat {
    let e = surplus_bits(n / d);
    half_even(n, d * power2::pow2(e)) * power2::pow2(e)
}

/// `rounded` applied to `n / d * 2^g`.
pub open spec fn rounded_scaled(n: nat, d: nat, g: int) -> nat {
    if g >= 0 {
        rounded(n * power2::pow2(g as nat), d)
    } else {
        rounded(n, d * power2::pow2((-g) as nat))
    }
}

pub proof fn lemma_surplus_of_quotient(q: nat, j: nat)
    ensures
        power2::pow2(j) > 0,
        surplus_bits(q / power2::pow2(j)) == if surplus_bits(q) >= j {
            (surplus_bits(q) - j) as nat
        } else {
            0
        },
    decreases j,
{
    power2::lemma_pow2_pos(j);
    if j == 0 {
        power2::lemma2_to64();
        assert(q / 1 == q);
    } else {
        let p = power2::pow2((j - 1) as nat);
        power2::lemma_pow2_pos((j - 1) as nat);
        power2::lemma_pow2_unfold(j);
        div_mod::lemma_div_denominator(q as int, 2, p as int);
        assert(q / power2::pow2(j) == (q / 2) / p);
        lemma_surplus_of_quotient(q / 2, (j - 1) as nat);
    }
}

pub proof fn lemma_surplus_bounds(q: nat)
    requires
        q >= 0x100_0000,
    ensures
        surplus_bits(q) >= 1,
        0x80_0000 * power2::pow2(surplus_bits(q)) <= q < 0x100_0000 * power2::pow2(
            surplus_bits(q),
        ),
    decreases q,
{
    let s = surplus_bits(q);
    power2::lemma_pow2_unfold(s);
    if q / 2 < 0x100_0000 {
        assert(surplus_bits(q / 2) == 0);
        power2::lemma2_to64();
    } else {
        lemma_surplus_bounds(q / 2);
    }
}

pub proof fn lemma_half_even_scales(n: nat, d: nat, k: nat)
    requires
        d > 0,
        k > 0,
    ensures
        d * k > 0,
        half_even(n * k, d * k) == half_even(n, d),
{
    let q = n / d;
    let r = n % d;
    assert(d * k > 0) by (nonlinear_arith)
        requires
            d > 0,
            k > 0,
    ;
    div_mod::lemma_fundamental_div_mod(n as int, d as int);
    assert(n * k == (d * k) * q + r * k && 0 <= r * k < d * k) by (nonlinear_arith)
        requires
            n == d * q + r,
            0 <= r < d,
            k > 0,
    ;
    assert((d * k) * q == q * (d * k)) by (nonlinear_arith);
    div_mod::lemma_fundamental_div_mod_converse(
        (n * k) as int,
        (d * k) as int,
        q as int,
        (r * k) as int,
    );
    assert(2 * r < d <==> 2 * (r * k) < d * k) by (nonlinear_arith)
        requires
            k > 0,
    ;
    assert(2 * r == d <==> 2 * (r * k) == d * k) by (nonlinear_arith)
        requires
            k > 0,
    ;
}

pub proof fn lemma_rounded_scales(n: nat, d: nat, k: nat)
    requires
        d > 0,
        k > 0,
    ensures
        d * k > 0,
        rounded(n * k, d * k) == rounded(n, d),
{
    assert(d * k > 0) by (nonlinear_arith)
        requires
            d > 0,
            k > 0,
    ;
    div_mod::lemma_div_denominator((n * k) as int, k as int, d as int);
    div_mod::lemma_div_by_multiple(n as int, k as int);
    assert(d * k == k * d) by (nonlinear_arith);
    assert((n * k) / (d * k) == n / d);
    let e = surplus_bits(n / d);
    let p = power2::pow2(e);
    power2::lemma_pow2_pos(e);
    assert(d * p > 0) by (nonlinear_arith)
        requires
            d > 0,
            p > 0,
    ;
    assert((d * k) * p == (d * p) * k) by (nonlinear_arith);
    lemma_half_even_scales(n, d * p, k);
}

/// The remainder of a division matters to rounding only by whether it is zero.
pub proof fn lemma_half_even_sticky(n: nat, d: nat, s: nat)
    requires
        d > 0,
        s >= 1,
    ensures
        half_even(n, d * power2::pow2(s)) == half_even(
            2 * (n / d) + if n % d == 0 {
                0nat
            } else {
                1nat
            },
            power2::pow2(s + 1),
        ),
{
    let p = power2::pow2(s);
    let h = power2::pow2((s - 1) as nat);
    power2::lemma_pow2_pos(s);
    power2::lemma_pow2_unfold(s);
    power2::lemma_pow2_unfold(s + 1);
    let f = n / d;
    let r0 = n % d;
    let sticky: nat = if r0 == 0 {
        0
    } else {
        1
    };
    let q = f / p;
    let t = f % p;
    div_mod::lemma_fundamental_div_mod(n as int, d as int);
    div_mod::lemma_fundamental_div_mod(f as int, p as int);
    assert(n == q * (d * p) + (d * t + r0) && 0 <= d * t + r0 < d * p) by (nonlinear_arith)
        requires
            n == d * f + r0,
            0 <= r0 < d,
            f == p * q + t,
            0 <= t < p,
    ;
    div_mod::lemma_fundamental_div_mod_converse(
        n as int,
        (d * p) as int,
        q as int,
        (d * t + r0) as int,
    );
    assert(2 * f + sticky == q * (2 * p) + (2 * t + sticky) && 0 <= 2 * t + sticky < 2 * p)
        by (nonlinear_arith)
        requires
            f == p * q + t,
            0 <= t < p,
            0 <= sticky <= 1,
    ;
    div_mod::lemma_fundamental_div_mod_converse(
        (2 * f + sticky) as int,
        (2 * p) as int,
        q as int,
        (2 * t + sticky) as int,
    );
    assert(p == 2 * h);
    if r0 == 0 {
        assert(2 * (d * t) < d * p <==> 2 * t < p) by (nonlinear_arith)
            requires
                d > 0,
        ;
        assert(2 * (d * t) == d * p <==> 2 * t == p) by (nonlinear_arith)
            requires
                d > 0,
        ;
    } else if t < h {
        assert(2 * (d * t + r0) < d * p) by (nonlinear_arith)
            requires
                p == 2 * h,
                t + 1 <= h,
                0 < r0 < d,
        ;
    } else {
        assert(2 * (d * t + r0) > d * p) by (nonlinear_arith)
            requires
                p == 2 * h,
                t >= h,
                0 < r0,
                d > 0,
        ;
    }
}

/// Where the unscaled quotient has surplus bits, scaling only moves the place
/// at which it is cut.
pub proof fn lemma_rounded_scaled(n: nat, d: nat, g: int)
    requires
        d > 0,
        n / d >= 0x100_0000,
    ensures
        ({
            let s = surplus_bits(n / d);
            let t: nat = if s + g >= 0 {
                (s + g) as nat
            } else {
                0
            };
            &&& s >= 1
            &&& t - g >= 1
            &&& rounded_scaled(n, d, g) == half_even(n, d * power2::pow2((t - g) as nat))
                * power2::pow2(t)
        }),
{
    let f = n / d;
    let s = surplus_bits(f);
    lemma_surplus_bounds(f);
    if g >= 0 {
        let p = power2::pow2(g as nat);
        power2::lemma_pow2_pos(g as nat);
        div_mod::lemma_fundamental_div_mod(n as int, d as int);
        let q = (n * p) / d;
        // (n * p / d) / p == n / d
        div_mod::lemma_div_denominator((n * p) as int, d as int, p as int);
        div_mod::lemma_div_denominator((n * p) as int, p as int, d as int);
        div_mod::lemma_div_by_multiple(n as int, p as int);
        assert(d * p == p * d) by (nonlinear_arith);
        assert(q / p == f);
        lemma_surplus_of_quotient(q, g as nat);
        assert(surplus_bits(q) == s + g);
        let t = (s + g) as nat;
        power2::lemma_pow2_adds(s, g as nat);
        power2::lemma_pow2_pos(s);
        let ps = power2::pow2(s);
        assert(d * ps > 0) by (nonlinear_arith)
            requires
                d > 0,
                ps > 0,
        ;
        assert(d * (ps * p) == (d * ps) * p) by (nonlinear_arith);
        lemma_half_even_scales(n, d * ps, p);
    } else {
        let j = (-g) as nat;
        let p = power2::pow2(j);
        power2::lemma_pow2_pos(j);
        div_mod::lemma_div_denominator(n as int, d as int, p as int);
        lemma_surplus_of_quotient(f, j);
        let t = surplus_bits(n / (d * p));
        power2::lemma_pow2_adds(j, t);
        let pt = power2::pow2(t);
        assert((d * p) * pt == d * (p * pt)) by (nonlinear_arith);
    }
}

/// A quotient with surplus bits rounds as its integer part with one more bit,
/// which tells whether anything was cut off.
pub proof fn lemma_rounded_sticky(n: nat, d: nat, g: int)
    requires
        d > 0,
        n / d >= 0x100_0000,
    ensures
        rounded_scaled(n, d, g) == rounded_scaled(
            2 * (n / d) + if n % d == 0 {
                0nat
            } else {
                1nat
            },
            1,
            g - 1,
        ),
{
    let f = n / d;
    let m = 2 * f + if n % d == 0 {
        0nat
    } else {
        1nat
    };
    let s = surplus_bits(f);
    lemma_rounded_scaled(n, d, g);
    assert(m / 1 == m);
    lemma_rounded_scaled(m, 1, g - 1);
    assert(m / 2 == f);
    assert(surplus_bits(m) == s + 1);
    let t: nat = if s + g >= 0 {
        (s + g) as nat
    } else {
        0
    };
    lemma_half_even_sticky(n, d, (t - g) as nat);
}

/// Rounding keeps the order.
pub proof fn lemma_half_even_ordered(a: nat, b: nat, d: nat)
    requires
        d > 0,
        a <= b,
    ensures
        half_even(a, d) <= half_even(b, d),
        b / d <= half_even(b, d) <= b / d + 1,
{
    let q = a / d;
    let r = b / d;
    div_mod::lemma_div_is_ordered(a as int, b as int, d as int);
    if q == r {
        div_mod::lemma_fundamental_div_mod(a as int, d as int);
        div_mod::lemma_fundamental_div_mod(b as int, d as int);
    }
}

proof fn lemma_surplus_ordered(a: nat, b: nat)
    requires
        a <= b,
    ensures
        surplus_bits(a) <= surplus_bits(b),
    decreases a,
{
    if a >= 0x100_0000 {
        lemma_surplus_ordered(a / 2, b / 2);
    }
}

/// A larger quotient does not round to less.
pub proof fn lemma_rounded_ordered(a: nat, b: nat, d: nat)
    requires
        d > 0,
        a <= b,
    ensures
        rounded(a, d) <= rounded(b, d),
{
    let q = a / d;
    let r = b / d;
    let e = surplus_bits(q);
    let f = surplus_bits(r);
    let x = power2::pow2(e);
    let y = power2::pow2(f);
    power2::lemma_pow2_pos(e);
    power2::lemma_pow2_pos(f);
    div_mod::lemma_div_is_ordered(a as int, b as int, d as int);
    lemma_surplus_ordered(q, r);
    let v = d * x;
    let w = d * y;
    assert(v > 0 && w > 0) by (nonlinear_arith)
        requires
            v == d * x,
            w == d * y,
            d > 0,
            x > 0,
            y > 0,
    ;
    lemma_half_even_ordered(a, b, v);
    if e == f {
        let g = half_even(a, v);
        let h = half_even(b, v);
        assert(g * x <= h * x) by (nonlinear_arith)
            requires
                g <= h,
                x > 0,
        ;
    } else {
        // The smaller one is at most 2^24 of its steps, the larger one at least
        // 2^23 of its own, which are at least twice as long.
        lemma_surplus_bounds(r);
        if e == 0 {
            power2::lemma2_to64();
        } else {
            lemma_surplus_bounds(q);
        }
        div_mod::lemma_div_denominator(a as int, d as int, x as int);
        div_mod::lemma_div_denominator(b as int, d as int, y as int);
        lemma_half_even_ordered(a, a, v);
        lemma_half_even_ordered(b, b, w);
        let g = half_even(a, v);
        let h = half_even(b, w);
        assert(q / x < 0x100_0000) by (nonlinear_arith)
            requires
                q < 0x100_0000 * x,
                x > 0,
        ;
        assert(r / y >= 0x80_0000) by (nonlinear_arith)
            requires
                r >= 0x80_0000 * y,
                y > 0,
        ;
        power2::lemma_pow2_unfold((e + 1) as nat);
        if e + 1 < f {
            power2::lemma_pow2_strictly_increases((e + 1) as nat, f);
        }
        assert(g * x <= h * y) by (nonlinear_arith)
            requires
                g <= 0x100_0000,
                h >= 0x80_0000,
                2 * x <= y,
                x > 0,
        ;
    }
}

} // verus!
