//! Whole numbers out of binary32 numbers.

use crate::packing;
use crate::single::Single;
use vstd::arithmetic::div_mod;
use vstd::arithmetic::power2;
use vstd::prelude::*;

verus! {

impl Single {
    /// Rounds to the nearest whole number, halves away from zero, and brings
    /// it into the range of a byte. NaN becomes 0.
    pub fn nearest_byte(self) -> (r: u8)
        ensures
            r == self@.nearest_byte(),
    {
        if self.is_nan() || self.sign_bit() {
            return 0;
        }
        if self.is_infinite() {
            return 255;
        }
        let (m, e) = self.parts();
        proof {
            lemma_nearest(m as nat, e as nat);
        }
        if e >= 134 {
            return 255;
        }
        let k: u32 = 149 - e;
        if k > 25 {
            return 0;
        }
        let half: u128 = 1u128 << ((k - 1) as u128);
        proof {
            packing::lemma_one_shifted((k - 1) as u128);
            power2::lemma_pow2_unfold(k as nat);
            power2::lemma_pow2_pos((k - 1) as nat);
            assert(half <= 0x100_0000) by {
                power2::lemma2_to64();
                if k < 25 {
                    power2::lemma_pow2_strictly_increases((k - 1) as nat, 24);
                }
            }
        }
        let whole: u128 = ((m as u128) + half) / (2 * half);
        if whole > 255 {
            255
        } else {
            whole as u8
        }
    }

    /// Rounds down, and brings the result into the range of a `u32`.
    pub fn floor_word(self) -> (r: u32)
        ensures
            r == self@.floor_word(),
    {
        if self.is_nan() || self.sign_bit() {
            return 0;
        }
        if self.is_infinite() {
            return 0xffff_ffff;
        }
        let (m, e) = self.parts();
        proof {
            lemma_whole_part(m as nat, e as nat);
        }
        if e >= 158 {
            return 0xffff_ffff;
        }
        if e >= 149 {
            let unit: u128 = 1u128 << ((e - 149) as u128);
            proof {
                lemma_small_unit((e - 149) as u32);
                assert(m * unit <= 0x100_0000 * 256) by (nonlinear_arith)
                    requires
                        m < 0x100_0000,
                        unit <= 256,
                ;
            }
            let whole: u128 = (m as u128) * unit;
            if whole > 0xffff_ffff {
                0xffff_ffff
            } else {
                whole as u32
            }
        } else {
            let k: u32 = 149 - e;
            if k >= 24 {
                return 0;
            }
            let unit: u128 = 1u128 << (k as u128);
            proof {
                packing::lemma_one_shifted(k as u128);
                power2::lemma_pow2_pos(k as nat);
            }
            ((m as u128) / unit) as u32
        }
    }

    /// Cuts off what follows the point, and brings the result into the range of
    /// an `i64`. NaN becomes 0.
    pub fn whole_long(self) -> (r: i64)
        ensures
            r == self@.whole_long(),
    {
        if self.is_nan() {
            return 0;
        }
        let negative = self.sign_bit();
        let limit = if negative {
            i64::MIN
        } else {
            i64::MAX
        };
        if self.is_infinite() {
            return limit;
        }
        let (m, e) = self.parts();
        proof {
            lemma_whole_part(m as nat, e as nat);
        }
        if e >= 189 {
            proof {
                lemma_far_beyond(m as nat, e as nat);
            }
            return limit;
        }
        let whole: i64 = if e >= 149 {
            let unit: u128 = 1u128 << ((e - 149) as u128);
            proof {
                packing::lemma_one_shifted((e - 149) as u128);
                power2::lemma2_to64();
                power2::lemma2_to64_rest();
                if e < 188 {
                    power2::lemma_pow2_strictly_increases((e - 149) as nat, 39);
                }
                assert(m * unit < 0x8000_0000_0000_0000) by (nonlinear_arith)
                    requires
                        m < 0x100_0000,
                        0 <= unit <= 0x80_0000_0000,
                ;
            }
            ((m as u128) * unit) as i64
        } else if 149 - e >= 24 {
            0
        } else {
            let unit: u128 = 1u128 << ((149 - e) as u128);
            proof {
                packing::lemma_one_shifted((149 - e) as u128);
                power2::lemma_pow2_pos((149 - e) as nat);
            }
            ((m as u128) / unit) as i64
        };
        if negative {
            -whole
        } else {
            whole
        }
    }

    /// Rounds up, and brings the result into the range of a `u32`.
    pub fn ceil_word(self) -> (r: u32)
        ensures
            r == self@.ceil_word(),
    {
        if self.is_nan() || self.sign_bit() {
            return 0;
        }
        if self.is_infinite() {
            return 0xffff_ffff;
        }
        let (m, e) = self.parts();
        let low = self.floor_word();
        proof {
            lemma_ceiling(m as nat, e as nat);
        }
        let exact = if e >= 149 {
            true
        } else if m == 0 {
            true
        } else {
            let k: u32 = 149 - e;
            if k >= 24 {
                false
            } else {
                let unit: u128 = 1u128 << (k as u128);
                proof {
                    packing::lemma_one_shifted(k as u128);
                    power2::lemma_pow2_pos(k as nat);
                }
                (m as u128) % unit == 0
            }
        };
        if exact || low == 0xffff_ffff {
            low
        } else {
            low + 1
        }
    }
}

proof fn lemma_small_unit(k: u32)
    requires
        k <= 8,
    ensures
        (1u128 << (k as u128)) == power2::pow2(k as nat),
        0 < power2::pow2(k as nat) <= 256,
{
    packing::lemma_one_shifted(k as u128);
    power2::lemma_pow2_pos(k as nat);
    power2::lemma2_to64();
    if k < 8 {
        power2::lemma_pow2_strictly_increases(k as nat, 8);
    }
}

/// How significand and exponent give the nearest whole number.
proof fn lemma_nearest(m: nat, e: nat)
    requires
        m < 0x100_0000,
        e == 0 || m >= 0x80_0000,
    ensures
        ({
            let whole = (2 * (m * power2::pow2(e)) + power2::pow2(149)) / power2::pow2(150);
            &&& e >= 134 ==> whole > 255
            &&& e < 124 ==> whole == 0
            &&& e < 149 ==> whole == (m + power2::pow2((148 - e) as nat)) / power2::pow2(
                (149 - e) as nat,
            )
        }),
{
    let units = m * power2::pow2(e);
    let whole = (2 * units + power2::pow2(149)) / power2::pow2(150);
    power2::lemma_pow2_pos(150);
    power2::lemma_pow2_pos(149);
    power2::lemma_pow2_unfold(150);
    power2::lemma_pow2_pos(e);
    assert(power2::pow2(8) == 256 && power2::pow2(23) == 0x80_0000 && power2::pow2(24)
        == 0x100_0000) by {
        power2::lemma2_to64();
    }
    if e < 149 {
        let k = (149 - e) as nat;
        let h = power2::pow2((k - 1) as nat);
        power2::lemma_pow2_pos((k - 1) as nat);
        power2::lemma_pow2_unfold(k);
        let s = power2::pow2(e + 1);
        power2::lemma_pow2_pos(e + 1);
        power2::lemma_pow2_unfold(e + 1);
        power2::lemma_pow2_adds((k - 1) as nat, e + 1);
        power2::lemma_pow2_adds(k, e + 1);
        let p = power2::pow2(e);
        assert(2 * (m * p) + h * s == s * (m + h)) by (nonlinear_arith)
            requires
                s == 2 * p,
        ;
        div_mod::lemma_div_denominator((s * (m + h)) as int, s as int, (2 * h) as int);
        div_mod::lemma_div_multiples_vanish((m + h) as int, s as int);
        assert(s * (2 * h) == (2 * h) * s) by (nonlinear_arith);
        assert(whole == (m + h) / (2 * h));
        if e < 124 {
            if k - 1 > 24 {
                power2::lemma_pow2_strictly_increases(24, (k - 1) as nat);
            }
            assert((m + h) / (2 * h) == 0) by (nonlinear_arith)
                requires
                    0 <= m < h,
                    h > 0,
            ;
        }
    }
    if e >= 134 {
        // units >= 2^157
        let p = power2::pow2(e);
        if e > 134 {
            power2::lemma_pow2_strictly_increases(134, e);
        }
        power2::lemma_pow2_adds(23, 134);
        power2::lemma_pow2_adds(8, 149);
        let q = power2::pow2(134);
        assert(m * p >= 0x80_0000 * q) by (nonlinear_arith)
            requires
                m >= 0x80_0000,
                p >= q,
        ;
        let t = power2::pow2(149);
        assert(units >= 256 * t);
        assert((2 * units + t) / (2 * t) > 255) by (nonlinear_arith)
            requires
                units >= 256 * t,
                t > 0,
        ;
    }
}

/// How significand and exponent give the whole part.
proof fn lemma_whole_part(m: nat, e: nat)
    requires
        m < 0x100_0000,
        e == 0 || m >= 0x80_0000,
    ensures
        ({
            let whole = (m * power2::pow2(e)) / power2::pow2(149);
            &&& e >= 158 ==> whole > 0xffff_ffff
            &&& e >= 149 ==> whole == m * power2::pow2((e - 149) as nat)
            &&& e < 149 ==> whole == m / power2::pow2((149 - e) as nat)
            &&& e <= 125 ==> whole == 0
        }),
{
    let p = power2::pow2(e);
    let t = power2::pow2(149);
    power2::lemma_pow2_pos(149);
    power2::lemma_pow2_pos(e);
    assert(power2::pow2(9) == 512 && power2::pow2(24) == 0x100_0000) by {
        power2::lemma2_to64();
    }
    if e >= 149 {
        let u = power2::pow2((e - 149) as nat);
        power2::lemma_pow2_adds((e - 149) as nat, 149);
        assert(m * (u * t) == (m * u) * t) by (nonlinear_arith);
        div_mod::lemma_div_by_multiple((m * u) as int, t as int);
        if e >= 158 {
            if e > 158 {
                power2::lemma_pow2_strictly_increases(9, (e - 149) as nat);
            }
            assert(m * u > 0xffff_ffff) by (nonlinear_arith)
                requires
                    m >= 0x80_0000,
                    u >= 512,
            ;
        }
    } else {
        let k = (149 - e) as nat;
        let w = power2::pow2(k);
        power2::lemma_pow2_pos(k);
        power2::lemma_pow2_adds(e, k);
        div_mod::lemma_div_denominator((m * p) as int, p as int, w as int);
        div_mod::lemma_div_by_multiple(m as int, p as int);
        if e <= 125 {
            if k > 24 {
                power2::lemma_pow2_strictly_increases(24, k);
            }
            assert(m / w == 0) by (nonlinear_arith)
                requires
                    0 <= m < w,
            ;
        }
    }
}

proof fn lemma_far_beyond(m: nat, e: nat)
    requires
        m >= 0x80_0000,
        e >= 189,
    ensures
        m * power2::pow2((e - 149) as nat) >= 0x8000_0000_0000_0000,
{
    let p = power2::pow2((e - 149) as nat);
    power2::lemma2_to64();
    power2::lemma2_to64_rest();
    if e > 189 {
        power2::lemma_pow2_strictly_increases(40, (e - 149) as nat);
    }
    assert(m * p >= 0x80_0000 * 0x100_0000_0000) by (nonlinear_arith)
        requires
            m >= 0x80_0000,
            p >= 0x100_0000_0000,
    ;
}

/// Rounding up is rounding down, and one more where anything was cut off.
proof fn lemma_ceiling(m: nat, e: nat)
    requires
        m < 0x100_0000,
        e == 0 || m >= 0x80_0000,
    ensures
        ({
            let units = m * power2::pow2(e);
            let low = units / power2::pow2(149);
            let high = (units + power2::pow2(149) - 1) as nat / power2::pow2(149);
            let exact = e >= 149 || m == 0 || (e > 125 && m % power2::pow2((149 - e) as nat) == 0);
            high == if exact {
                low
            } else {
                low + 1
            }
        }),
{
    let p = power2::pow2(e);
    let t = power2::pow2(149);
    let units = m * p;
    power2::lemma_pow2_pos(149);
    power2::lemma_pow2_pos(e);
    let low = units / t;
    let rest = units % t;
    div_mod::lemma_fundamental_div_mod(units as int, t as int);
    assert(t * low == low * t) by (nonlinear_arith);
    if rest == 0 {
        div_mod::lemma_fundamental_div_mod_converse(
            units + t - 1,
            t as int,
            low as int,
            t - 1,
        );
    } else {
        assert(units + t - 1 == (low + 1) * t + (rest - 1)) by (nonlinear_arith)
            requires
                units == low * t + rest,
        ;
        div_mod::lemma_fundamental_div_mod_converse(
            units + t - 1,
            t as int,
            low as int + 1,
            rest - 1,
        );
    }
    // The remainder, in terms of significand and exponent.
    if e >= 149 {
        let u = power2::pow2((e - 149) as nat);
        power2::lemma_pow2_adds((e - 149) as nat, 149);
        assert(m * (u * t) == (m * u) * t) by (nonlinear_arith);
        div_mod::lemma_mod_multiples_basic((m * u) as int, t as int);
    } else if m == 0 {
        assert(units == 0) by (nonlinear_arith)
            requires
                units == m * p,
                m == 0,
        ;
    } else {
        let k = (149 - e) as nat;
        let w = power2::pow2(k);
        power2::lemma_pow2_pos(k);
        power2::lemma_pow2_adds(e, k);
        let q = m / w;
        let r = m % w;
        div_mod::lemma_fundamental_div_mod(m as int, w as int);
        assert(m * p == q * (p * w) + r * p && 0 <= r * p < p * w) by (nonlinear_arith)
            requires
                m == w * q + r,
                0 <= r < w,
                p > 0,
        ;
        div_mod::lemma_fundamental_div_mod_converse(
            units as int,
            t as int,
            q as int,
            (r * p) as int,
        );
        assert(r * p == 0 <==> r == 0) by (nonlinear_arith)
            requires
                p > 0,
        ;
        if e <= 125 {
            assert(power2::pow2(24) == 0x100_0000) by {
                power2::lemma2_to64();
            }
            if k > 24 {
                power2::lemma_pow2_strictly_increases(24, k);
            }
            div_mod::lemma_small_mod(m, w);
        }
    }
}

} // verus!
