//! Rounding a magnitude into a binary32 pattern.

use crate::number;
use crate::number::Number;
use crate::rounding;
use crate::single::Single;
use vstd::arithmetic::div_mod;
use vstd::arithmetic::power2;
use vstd::prelude::*;

verus! {

pub proof fn lemma_one_shifted(k: u128)
    requires
        k < 127,
    ensures
        (1u128 << k) == power2::pow2(k as nat),
    decreases k,
{
    if k == 0 {
        power2::lemma2_to64();
        assert(1u128 << 0u128 == 1u128) by (bit_vector);
    } else {
        let j: u128 = (k - 1) as u128;
        lemma_one_shifted(j);
        power2::lemma_pow2_unfold(k as nat);
        assert((1u128 << k) == 2 * (1u128 << j)) by (bit_vector)
            requires
                1 <= k < 127,
                j == k - 1,
        ;
    }
}

proof fn lemma_shifted(m: nat, e: int, k: nat)
    ensures
        rounding::rounded_scaled(m * power2::pow2(k), 1, e - k) == rounding::rounded_scaled(
            m,
            1,
            e,
        ),
    decreases k,
{
    let p = power2::pow2(k);
    power2::lemma_pow2_pos(k);
    if e >= k {
        power2::lemma_pow2_adds(k, (e - k) as nat);
        let q = power2::pow2((e - k) as nat);
        assert((m * p) * q == m * (p * q)) by (nonlinear_arith);
    } else if e >= 0 {
        power2::lemma_pow2_adds(e as nat, (k - e) as nat);
        let a = power2::pow2(e as nat);
        let b = power2::pow2((k - e) as nat);
        power2::lemma_pow2_pos((k - e) as nat);
        rounding::lemma_rounded_scales(m * a, 1, b);
        assert(m * (a * b) == (m * a) * b) by (nonlinear_arith);
    } else {
        let j = (-e) as nat;
        power2::lemma_pow2_adds(j, k);
        power2::lemma_pow2_pos(j);
        let a = power2::pow2(j);
        rounding::lemma_rounded_scales(m, a, p);
    }
}

/// Where a number has at least `k` surplus bits, they are counted after `k` of
/// them are cut off.
proof fn lemma_surplus_step(m: nat, k: nat)
    requires
        k >= 1,
    ensures
        m >= power2::pow2(23 + k) <==> rounding::surplus_bits(m) >= k,
        m >= power2::pow2(23 + k) ==> rounding::surplus_bits(m / power2::pow2(k))
            == rounding::surplus_bits(m) - k,
{
    let s = rounding::surplus_bits(m);
    rounding::lemma_surplus_of_quotient(m, k);
    assert(power2::pow2(23) == 0x80_0000 && power2::pow2(24) == 0x100_0000) by {
        power2::lemma2_to64();
    }
    power2::lemma_pow2_adds(23, k);
    if s >= k {
        rounding::lemma_surplus_bounds(m);
        if s > k {
            power2::lemma_pow2_strictly_increases(k, s);
        }
    } else {
        power2::lemma_pow2_pos(k);
        if m >= 0x100_0000 {
            rounding::lemma_surplus_bounds(m);
            power2::lemma_pow2_adds(24, s);
            if 24 + s < 23 + k {
                power2::lemma_pow2_strictly_increases(24 + s, 23 + k);
            }
        } else {
            if k > 1 {
                power2::lemma_pow2_strictly_increases(24, 23 + k);
            }
        }
    }
}

/// Cuts `k` surplus bits off, if there are that many.
fn cut_surplus(m: u128, k: u32, limit: u128) -> (r: (u128, u32))
    requires
        1 <= k <= 64,
        limit == power2::pow2(23 + k as nat),
    ensures
        rounding::surplus_bits(m as nat) == rounding::surplus_bits(r.0 as nat) + r.1,
        r.1 == 0 || r.1 == k,
        rounding::surplus_bits(m as nat) < 2 * k ==> rounding::surplus_bits(r.0 as nat) < k,
{
    proof {
        lemma_surplus_step(m as nat, k as nat);
    }
    if m >= limit {
        proof {
            vstd::bits::lemma_u128_shr_is_div(m, k as u128);
        }
        (m >> (k as u128), k)
    } else {
        (m, 0)
    }
}

/// The number of bits of `m` beyond its 24 leading ones.
fn surplus(m: u128) -> (s: i32)
    requires
        m < 0x10_0000_0000_0000_0000_0000_0000,
    ensures
        s == rounding::surplus_bits(m as nat),
        0 <= s <= 76,
{
    proof {
        if m >= 0x100_0000 {
            rounding::lemma_surplus_bounds(m as nat);
        }
        power2::lemma2_to64();
        power2::lemma2_to64_rest();
        power2::lemma_pow2_adds(38, 39);
        power2::lemma_pow2_adds(43, 44);
        let total = rounding::surplus_bits(m as nat);
        if m >= 0x100_0000 && total > 77 {
            power2::lemma_pow2_strictly_increases(77, total);
        }
    }
    let (m, a) = cut_surplus(m, 64, 0x80_0000_0000_0000_0000_0000);
    let (m, b) = cut_surplus(m, 32, 0x80_0000_0000_0000);
    let (m, c) = cut_surplus(m, 16, 0x80_0000_0000);
    let (m, d) = cut_surplus(m, 8, 0x8000_0000);
    let (m, e) = cut_surplus(m, 4, 0x800_0000);
    let (m, f) = cut_surplus(m, 2, 0x200_0000);
    let (_m, g) = cut_surplus(m, 1, 0x100_0000);
    (a + b + c + d + e + f + g) as i32
}

/// `m / 2^shift`, rounded to the nearest integer, ties to even.
fn cut(m: u128, shift: u32) -> (r: u128)
    requires
        m < 0x10_0000_0000_0000_0000_0000_0000,
    ensures
        r == rounding::half_even(m as nat, power2::pow2(shift as nat)),
{
    if shift >= 102 {
        proof {
            power2::lemma2_to64();
            power2::lemma2_to64_rest();
            power2::lemma_pow2_adds(51, 51);
            if shift > 102 {
                power2::lemma_pow2_strictly_increases(102, shift as nat);
            }
            let p = power2::pow2(shift as nat);
            div_mod::lemma_fundamental_div_mod_converse(m as int, p as int, 0, m as int);
        }
        return 0;
    }
    let unit: u128 = 1u128 << (shift as u128);
    proof {
        lemma_one_shifted(shift as u128);
        power2::lemma_pow2_pos(shift as nat);
        vstd::bits::lemma_u128_shr_is_div(m, shift as u128);
        div_mod::lemma_fundamental_div_mod(m as int, unit as int);
    }
    let q: u128 = m >> (shift as u128);
    proof {
        assert(q * unit == unit * q) by (nonlinear_arith);
    }
    let rest: u128 = m - q * unit;
    if rest < unit - rest || (rest == unit - rest && q % 2 == 0) {
        q
    } else {
        q + 1
    }
}

/// `r * 2^t` units.
fn encode(negative: bool, t: u32, r: u32) -> (out: Single)
    requires
        t <= 2000,
        r <= 0x100_0000,
        t == 0 || r >= 0x80_0000,
    ensures
        out@ == Number::bounded(negative, r as nat * power2::pow2(t as nat)),
{
    let sign: u32 = if negative {
        0x8000_0000
    } else {
        0
    };
    proof {
        number::lemma_pattern_overflows(t as nat, r as nat);
        number::lemma_pattern_units(t as nat, r as nat);
    }
    if t >= 254 || t * 0x80_0000 + r >= 0x7f80_0000 {
        Single { bits: sign + 0x7f80_0000 }
    } else {
        Single { bits: sign + (t * 0x80_0000 + r) }
    }
}

/// `m * 2^e` units, rounded.
pub(crate) fn pack(negative: bool, m: u128, e: i32) -> (r: Single)
    requires
        m < 0x10_0000_0000_0000_0000_0000_0000,
        -1000 <= e <= 1000,
    ensures
        r@ == Number::bounded(negative, rounding::rounded_scaled(m as nat, 1, e as int)),
{
    if m == 0 {
        proof {
            if e >= 0 {
                number::lemma_rounded_zero(1);
                assert(0nat * power2::pow2(e as nat) == 0);
            } else {
                power2::lemma_pow2_pos((-e) as nat);
                number::lemma_rounded_zero(1 * power2::pow2((-e) as nat));
            }
        }
        return encode(negative, 0, 0);
    }
    let ghost wanted = rounding::rounded_scaled(m as nat, 1, e as int);
    let mut m = m;
    let mut e = e;
    if m < 0x100_0000 {
        proof {
            assert(power2::pow2(24) == 0x100_0000) by {
                power2::lemma2_to64();
            }
            lemma_shifted(m as nat, e as int, 24);
        }
        m = m * 0x100_0000;
        e = e - 24;
    }
    let s = surplus(m);
    let t: i32 = if s + e >= 0 {
        s + e
    } else {
        0
    };
    let r = cut(m, (t - e) as u32);
    proof {
        assert(m as nat / 1 == m);
        rounding::lemma_rounded_scaled(m as nat, 1, e as int);
        lemma_cut_bounds(m as nat, s as nat, (t - e) as nat);
    }
    encode(negative, t as u32, r as u32)
}

/// Cutting at or beyond the surplus bits leaves at most 24 bits, and exactly
/// 24 when it is just the surplus that goes.
proof fn lemma_cut_bounds(m: nat, s: nat, shift: nat)
    requires
        m >= 0x100_0000,
        s == rounding::surplus_bits(m),
        shift >= s,
    ensures
        rounding::half_even(m, power2::pow2(shift)) <= 0x100_0000,
        shift == s ==> rounding::half_even(m, power2::pow2(shift)) >= 0x80_0000,
{
    rounding::lemma_surplus_bounds(m);
    let p = power2::pow2(s);
    let w = power2::pow2(shift);
    power2::lemma_pow2_pos(s);
    power2::lemma_pow2_pos(shift);
    if shift > s {
        power2::lemma_pow2_strictly_increases(s, shift);
    }
    assert(m < 0x100_0000 * w) by (nonlinear_arith)
        requires
            m < 0x100_0000 * p,
            p <= w,
    ;
    assert(m / w < 0x100_0000) by (nonlinear_arith)
        requires
            0 <= m < 0x100_0000 * w,
            w > 0,
    ;
    if shift == s {
        assert(m / w >= 0x80_0000) by (nonlinear_arith)
            requires
                m >= 0x80_0000 * w,
                w > 0,
        ;
    }
}

} // verus!
