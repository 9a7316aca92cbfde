//! Binary32 numbers and the arithmetic the pixel pipeline does on them.
//!
//! A number is held as its bit pattern. What it stands for is a `Number`.

use crate::number;
use crate::number::Number;
use crate::packing::{self, pack};
use crate::rounding;
use vstd::arithmetic::div_mod;
use vstd::arithmetic::power2;
use vstd::prelude::*;

verus! {

/// A binary32 number, held as its bit pattern.
#[derive(Clone, Copy, Debug)]
pub struct Single {
    pub bits: u32,
}

impl View for Single {
    type V = Number;

    open spec fn view(&self) -> Number {
        Number::of_bits(self.bits)
    }
}

impl PartialEq for Single {
    fn eq(&self, other: &Single) -> (r: bool) {
        !self.is_nan() && !other.is_nan() && !self.exceeds(*other) && !other.exceeds(*self)
    }
}

impl vstd::std_specs::cmp::PartialEqSpecImpl for Single {
    open spec fn obeys_eq_spec() -> bool {
        true
    }

    open spec fn eq_spec(&self, other: &Single) -> bool {
        self@.equals(other@)
    }
}

impl Single {
    pub fn from_bits(bits: u32) -> (r: Single)
        ensures
            r.bits == bits,
    {
        Single { bits }
    }

    pub fn to_bits(self) -> (r: u32)
        ensures
            r == self.bits,
    {
        self.bits
    }

    pub(crate) fn is_nan(self) -> (r: bool)
        ensures
            r == (self@ is Nan),
    {
        self.bits % 0x8000_0000 > 0x7f80_0000
    }

    pub(crate) fn is_infinite(self) -> (r: bool)
        ensures
            r == (self@ is Infinite),
    {
        self.bits % 0x8000_0000 == 0x7f80_0000
    }

    pub(crate) fn sign_bit(self) -> (r: bool)
        ensures
            !(self@ is Nan) ==> r == self@.is_negative(),
    {
        self.bits >= 0x8000_0000
    }

    /// Significand and exponent of a finite number.
    pub(crate) fn parts(self) -> (r: (u32, u32))
        requires
            self@ is Finite,
        ensures
            r.0 < 0x100_0000,
            r.1 <= 253,
            r.1 == 0 || r.0 >= 0x80_0000,
            self@->units == r.0 as nat * power2::pow2(r.1 as nat),
    {
        let pattern = self.bits % 0x8000_0000;
        let exponent = pattern / 0x80_0000;
        let fraction = pattern % 0x80_0000;
        if exponent == 0 {
            proof {
                power2::lemma2_to64();
                assert(fraction as nat * 1 == fraction);
            }
            (fraction, 0)
        } else {
            (0x80_0000 + fraction, exponent - 1)
        }
    }

    fn nan() -> (r: Single)
        ensures
            r@ == Number::Nan,
    {
        Single { bits: 0x7fc0_0000 }
    }

    fn infinite(negative: bool) -> (r: Single)
        ensures
            r@ == (Number::Infinite { negative }),
    {
        if negative {
            Single { bits: 0xff80_0000 }
        } else {
            Single { bits: 0x7f80_0000 }
        }
    }

    fn signed_zero(negative: bool) -> (r: Single)
        ensures
            r@ == (Number::Finite { negative, units: 0 }),
    {
        if negative {
            Single { bits: 0x8000_0000 }
        } else {
            Single { bits: 0 }
        }
    }

    /// The nearest number to `n`.
    pub fn from_u32(n: u32) -> (r: Single)
        ensures
            r@ == Number::whole(n as nat),
    {
        pack(false, n as u128, 149)
    }

    pub fn neg(self) -> (r: Single)
        ensures
            r@ == self@.negated(),
    {
        if self.bits >= 0x8000_0000 {
            Single { bits: self.bits - 0x8000_0000 }
        } else {
            Single { bits: self.bits + 0x8000_0000 }
        }
    }

    pub fn plus(self, other: Single) -> (r: Single)
        ensures
            r@ == self@.plus(other@),
    {
        if self.is_nan() || other.is_nan() {
            return Single::nan();
        }
        if self.is_infinite() {
            if other.is_infinite() && self.sign_bit() != other.sign_bit() {
                return Single::nan();
            }
            return Single::infinite(self.sign_bit());
        }
        if other.is_infinite() {
            return Single::infinite(other.sign_bit());
        }
        let (ma, ea) = self.parts();
        let (mb, eb) = other.parts();
        if ea >= eb {
            sum(self.sign_bit(), ma, ea, other.sign_bit(), mb, eb)
        } else {
            sum(other.sign_bit(), mb, eb, self.sign_bit(), ma, ea)
        }
    }

    pub fn minus(self, other: Single) -> (r: Single)
        ensures
            r@ == self@.minus(other@),
    {
        self.plus(other.neg())
    }

    pub fn times(self, other: Single) -> (r: Single)
        ensures
            r@ == self@.times(other@),
    {
        if self.is_nan() || other.is_nan() {
            return Single::nan();
        }
        let negative = self.sign_bit() != other.sign_bit();
        if self.is_infinite() {
            if !other.is_infinite() && other.bits % 0x8000_0000 == 0 {
                return Single::nan();
            }
            proof {
                number::lemma_zero_pattern(other.bits);
            }
            return Single::infinite(negative);
        }
        if other.is_infinite() {
            if self.bits % 0x8000_0000 == 0 {
                return Single::nan();
            }
            proof {
                number::lemma_zero_pattern(self.bits);
            }
            return Single::infinite(negative);
        }
        let (ma, ea) = self.parts();
        let (mb, eb) = other.parts();
        proof {
            lemma_product(ma as nat, ea as nat, mb as nat, eb as nat);
            assert(ma * mb < 0x100_0000 * 0x100_0000) by (nonlinear_arith)
                requires
                    ma < 0x100_0000,
                    mb < 0x100_0000,
            ;
        }
        pack(negative, (ma as u128) * (mb as u128), (ea as i32) + (eb as i32) - 149)
    }

    pub fn over(self, other: Single) -> (r: Single)
        ensures
            r@ == self@.over(other@),
    {
        if self.is_nan() || other.is_nan() {
            return Single::nan();
        }
        let negative = self.sign_bit() != other.sign_bit();
        if self.is_infinite() {
            if other.is_infinite() {
                return Single::nan();
            }
            return Single::infinite(negative);
        }
        if other.is_infinite() {
            return Single::signed_zero(negative);
        }
        proof {
            number::lemma_zero_pattern(self.bits);
            number::lemma_zero_pattern(other.bits);
        }
        if other.bits % 0x8000_0000 == 0 {
            if self.bits % 0x8000_0000 == 0 {
                return Single::nan();
            }
            return Single::infinite(negative);
        }
        let (ma, ea) = self.parts();
        let (mb, eb) = other.parts();
        proof {
            power2::lemma_pow2_pos(eb as nat);
            if mb == 0 {
                assert(0 * power2::pow2(eb as nat) == 0);
            }
        }
        if ma == 0 {
            proof {
                assert(0 * power2::pow2(ea as nat) == 0);
                assert(0 * power2::pow2(149) == 0);
                number::lemma_rounded_zero(other@->units);
                power2::lemma_pow2_pos(277);
            }
            return Single::signed_zero(negative);
        }
        let n: u128 = (ma as u128) * 0x400_0000_0000_0000_0000;
        let quotient = n / (mb as u128);
        let last: u128 = if n % (mb as u128) == 0 {
            0
        } else {
            1
        };
        proof {
            lemma_quotient(ma as nat, ea as nat, mb as nat, eb as nat);
            assert(0x400_0000_0000_0000_0000 == power2::pow2(74)) by {
                power2::lemma2_to64();
                power2::lemma2_to64_rest();
                power2::lemma_pow2_adds(37, 37);
            }
            assert(0x4_0000_0000_0000 <= quotient <= n) by (nonlinear_arith)
                requires
                    quotient == n / (mb as u128),
                    0 < mb < 0x100_0000,
                    n >= 0x400_0000_0000_0000_0000,
            ;
        }
        pack(negative, 2 * quotient + last, (ea as i32) - (eb as i32) + 74)
    }
}

impl Single {
    pub fn magnitude(self) -> (r: Single)
        ensures
            r@ == self@.magnitude(),
    {
        if self.bits >= 0x8000_0000 {
            Single { bits: self.bits - 0x8000_0000 }
        } else {
            self
        }
    }

    /// Whether this is greater than `other`; never where either is NaN.
    pub fn exceeds(self, other: Single) -> (r: bool)
        ensures
            r == self@.exceeds(other@),
    {
        proof {
            number::lemma_positions(self.bits, other.bits);
        }
        if self.is_nan() || other.is_nan() {
            return false;
        }
        let a = self.bits % 0x8000_0000;
        let b = other.bits % 0x8000_0000;
        if !self.sign_bit() {
            if !other.sign_bit() {
                a > b
            } else {
                a > 0 || b > 0
            }
        } else {
            other.sign_bit() && a < b
        }
    }

    pub fn larger(self, other: Single) -> (r: Single)
        ensures
            r@ == self@.larger(other@),
    {
        if self.is_nan() || other.exceeds(self) {
            other
        } else {
            self
        }
    }

    pub fn smaller(self, other: Single) -> (r: Single)
        ensures
            r@ == self@.smaller(other@),
    {
        if self.is_nan() || self.exceeds(other) {
            other
        } else {
            self
        }
    }
}

proof fn lemma_product(ma: nat, ea: nat, mb: nat, eb: nat)
    ensures
        rounding::rounded(
            (ma * power2::pow2(ea)) * (mb * power2::pow2(eb)),
            power2::pow2(149),
        ) == rounding::rounded_scaled(ma * mb, 1, ea + eb - 149),
{
    let pa = power2::pow2(ea);
    let pb = power2::pow2(eb);
    let m = ma * mb;
    power2::lemma_pow2_adds(ea, eb);
    assert((ma * pa) * (mb * pb) == m * (pa * pb)) by (nonlinear_arith)
        requires
            m == ma * mb,
    ;
    let g = ea + eb - 149;
    if g >= 0 {
        let pg = power2::pow2(g as nat);
        power2::lemma_pow2_adds(g as nat, 149);
        power2::lemma_pow2_pos(149);
        let k = power2::pow2(149);
        rounding::lemma_rounded_scales(m * pg, 1, k);
        assert(m * (pg * k) == (m * pg) * k) by (nonlinear_arith);
    } else {
        let j = (-g) as nat;
        let k = pa * pb;
        power2::lemma_pow2_adds(j, ea + eb);
        power2::lemma_pow2_pos(j);
        power2::lemma_pow2_pos(ea + eb);
        rounding::lemma_rounded_scales(m, power2::pow2(j), k);
    }
}

proof fn lemma_quotient(ma: nat, ea: nat, mb: nat, eb: nat)
    requires
        ma >= 1,
        0 < mb < 0x100_0000,
    ensures
        ({
            let n = ma * power2::pow2(74);
            rounding::rounded(
                (ma * power2::pow2(ea)) * power2::pow2(149),
                mb * power2::pow2(eb),
            ) == rounding::rounded_scaled(
                2 * (n / mb) + if n % mb == 0 {
                    0nat
                } else {
                    1nat
                },
                1,
                ea - eb + 74,
            )
        }),
{
    let p74 = power2::pow2(74);
    let n = ma * p74;
    let g = ea - eb + 75;
    assert(p74 == 0x400_0000_0000_0000_0000) by {
        power2::lemma2_to64();
        power2::lemma2_to64_rest();
        power2::lemma_pow2_adds(37, 37);
    }
    assert(n / mb >= 0x100_0000) by (nonlinear_arith)
        requires
            n >= 0x400_0000_0000_0000_0000,
            0 < mb < 0x100_0000,
    ;
    rounding::lemma_rounded_sticky(n, mb, g);
    let pa = power2::pow2(ea);
    let pb = power2::pow2(eb);
    let top = power2::pow2(149);
    power2::lemma_pow2_adds(ea, 149);
    assert((ma * pa) * top == ma * (pa * top)) by (nonlinear_arith);
    power2::lemma_pow2_pos(eb);
    if g >= 0 {
        let pg = power2::pow2(g as nat);
        power2::lemma_pow2_adds(74, g as nat);
        power2::lemma_pow2_adds((74 + g) as nat, eb);
        rounding::lemma_rounded_scales(n * pg, mb, pb);
        assert((n * pg) * pb == ma * ((p74 * pg) * pb)) by (nonlinear_arith)
            requires
                n == ma * p74,
        ;
    } else {
        let j = (-g) as nat;
        let k = power2::pow2(ea + 75);
        let pj = power2::pow2(j);
        power2::lemma_pow2_pos(ea + 75);
        power2::lemma_pow2_pos(j);
        power2::lemma_pow2_adds(74, ea + 75);
        power2::lemma_pow2_adds(j, ea + 75);
        assert(mb * pj > 0) by (nonlinear_arith)
            requires
                mb > 0,
                pj > 0,
        ;
        rounding::lemma_rounded_scales(n, mb * pj, k);
        assert(n * k == ma * (p74 * k)) by (nonlinear_arith)
            requires
                n == ma * p74,
        ;
        assert((mb * pj) * k == mb * (pj * k)) by (nonlinear_arith);
    }
}

/// `m * 2^e` units with a sign, or the given zero where `m` is zero.
fn signed_pack(negative: bool, m: u128, e: u32, zero: bool) -> (r: Single)
    requires
        m < 0x10_0000_0000_0000_0000_0000_0000,
        e <= 253,
    ensures
        r@ == (if m == 0 {
            Number::Finite { negative: zero, units: 0 }
        } else {
            Number::bounded(
                negative,
                rounding::rounded(m as nat * power2::pow2(e as nat), 1),
            )
        }),
{
    if m == 0 {
        Single::signed_zero(zero)
    } else {
        pack(negative, m, e as i32)
    }
}

/// The sum of two finite numbers, the one with the larger exponent first.
fn sum(na: bool, ma: u32, ea: u32, nb: bool, mb: u32, eb: u32) -> (r: Single)
    requires
        ma < 0x100_0000,
        mb < 0x100_0000,
        eb <= ea <= 253,
        ea == 0 || ma >= 0x80_0000,
    ensures
        r@ == (Number::Finite {
            negative: na,
            units: ma as nat * power2::pow2(ea as nat),
        }).plus(
            (Number::Finite { negative: nb, units: mb as nat * power2::pow2(eb as nat) }),
        ),
{
    let ghost a = ma as nat * power2::pow2(ea as nat);
    let ghost b = mb as nat * power2::pow2(eb as nat);
    if ea - eb <= 75 {
        let gap = ea - eb;
        let unit: u128 = 1u128 << (gap as u128);
        let ghost pb = power2::pow2(eb as nat);
        proof {
            packing::lemma_one_shifted(gap as u128);
            power2::lemma_pow2_pos(gap as nat);
            power2::lemma_pow2_pos(eb as nat);
            power2::lemma_pow2_adds(gap as nat, eb as nat);
            assert(unit <= 0x800_0000_0000_0000_0000) by {
                power2::lemma2_to64();
                power2::lemma2_to64_rest();
                power2::lemma_pow2_adds(37, 38);
                if gap < 75 {
                    power2::lemma_pow2_strictly_increases(gap as nat, 75);
                }
            }
            assert(ma * unit < 0x8_0000_0000_0000_0000_0000_0000) by (nonlinear_arith)
                requires
                    ma < 0x100_0000,
                    0 < unit <= 0x800_0000_0000_0000_0000,
            ;
        }
        let wide: u128 = (ma as u128) * unit;
        let narrow: u128 = mb as u128;
        proof {
            assert(a == wide * pb) by (nonlinear_arith)
                requires
                    a == ma as nat * (unit as nat * pb),
                    wide == ma * unit,
            ;
        }
        if na == nb {
            proof {
                assert((wide + narrow) * pb == a + b) by (nonlinear_arith)
                    requires
                        a == wide * pb,
                        b == narrow * pb,
                ;
                assert(a + b == 0 <==> wide + narrow == 0) by (nonlinear_arith)
                    requires
                        a + b == (wide + narrow) * pb,
                        pb > 0,
                ;
            }
            signed_pack(na, wide + narrow, eb, na)
        } else if wide >= narrow {
            proof {
                assert((wide - narrow) * pb == a - b) by (nonlinear_arith)
                    requires
                        a == wide * pb,
                        b == narrow * pb,
                ;
                assert(a - b >= 0 && (a - b == 0 <==> wide - narrow == 0)) by (nonlinear_arith)
                    requires
                        a - b == (wide - narrow) * pb,
                        wide >= narrow,
                        pb > 0,
                ;
            }
            signed_pack(na, wide - narrow, eb, false)
        } else {
            proof {
                assert((narrow - wide) * pb == b - a) by (nonlinear_arith)
                    requires
                        a == wide * pb,
                        b == narrow * pb,
                ;
                assert(b - a > 0) by (nonlinear_arith)
                    requires
                        b - a == (narrow - wide) * pb,
                        wide < narrow,
                        pb > 0,
                ;
            }
            signed_pack(nb, narrow - wide, eb, false)
        }
    } else if mb == 0 {
        proof {
            assert(b == 0);
            lemma_apart(ma as nat, ea as nat, 1, (ea - 76) as nat);
        }
        pack(na, ma as u128, ea as i32)
    } else {
        let scaled: u128 = (ma as u128) * 0x10_0000_0000_0000;
        proof {
            lemma_apart(ma as nat, ea as nat, mb as nat, eb as nat);
        }
        if na == nb {
            pack(na, 2 * scaled + 1, (ea as i32) - 53)
        } else {
            pack(na, 2 * scaled - 1, (ea as i32) - 53)
        }
    }
}

/// A summand far below the last bit of the other one rounds as if it were a
/// small fraction of that bit.
proof fn lemma_apart(ma: nat, ea: nat, mb: nat, eb: nat)
    requires
        0x80_0000 <= ma < 0x100_0000,
        0 < mb < 0x100_0000,
        ea - eb > 75,
    ensures
        ({
            let a = ma * power2::pow2(ea);
            let b = mb * power2::pow2(eb);
            let scaled = ma * 0x10_0000_0000_0000;
            &&& 0 < b < a
            &&& rounding::rounded(a + b, 1) == rounding::rounded_scaled(
                (2 * scaled + 1) as nat,
                1,
                ea - 53,
            )
            &&& rounding::rounded((a - b) as nat, 1) == rounding::rounded_scaled(
                (2 * scaled - 1) as nat,
                1,
                ea - 53,
            )
        }),
{
    let a = ma * power2::pow2(ea);
    let b = mb * power2::pow2(eb);
    let scaled = ma * 0x10_0000_0000_0000;
    let g = (ea - 52) as nat;
    let d = power2::pow2(g);
    let pb = power2::pow2(eb);
    power2::lemma_pow2_pos(eb);
    power2::lemma_pow2_pos(g);
    assert(power2::pow2(52) == 0x10_0000_0000_0000 && power2::pow2(24) == 0x100_0000) by {
        power2::lemma2_to64();
        power2::lemma2_to64_rest();
    }
    power2::lemma_pow2_adds(52, g);
    power2::lemma_pow2_adds(24, eb);
    if eb + 24 < g {
        power2::lemma_pow2_strictly_increases(eb + 24, g);
    }
    assert(0 < b && b < 0x100_0000 * pb) by (nonlinear_arith)
        requires
            b == mb * pb,
            0 < mb < 0x100_0000,
            pb > 0,
    ;
    assert(a == scaled * d) by (nonlinear_arith)
        requires
            a == ma * (0x10_0000_0000_0000 * d),
            scaled == ma * 0x10_0000_0000_0000,
    ;
    assert(a >= d) by (nonlinear_arith)
        requires
            a == scaled * d,
            scaled >= 1,
            d > 0,
    ;
    let more = a + b;
    let less = (a - b) as nat;
    div_mod::lemma_fundamental_div_mod_converse(more as int, d as int, scaled as int, b as int);
    assert(less == (scaled - 1) * d + (d - b)) by (nonlinear_arith)
        requires
            less == a - b,
            a == scaled * d,
    ;
    div_mod::lemma_fundamental_div_mod_converse(
        less as int,
        d as int,
        scaled - 1,
        d - b,
    );
    rounding::lemma_rounded_sticky(more, d, g as int);
    rounding::lemma_rounded_sticky(less, d, g as int);
    rounding::lemma_rounded_scales(more, 1, d);
    rounding::lemma_rounded_scales(less, 1, d);
}

} // verus!
