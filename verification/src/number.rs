//! What binary32 patterns stand for, and what arithmetic on them comes to.
//!
//! Every operation is stated on `Number`: the exact result, rounded to nearest
//! with ties to even. All NaN patterns stand for the one `Number::Nan`.

use crate::rounding;
use vstd::arithmetic::div_mod;
use vstd::arithmetic::power2;
use vstd::prelude::*;

verus! {

/// What a bit pattern stands for. A finite magnitude counts units of 2^-149.
pub enum Number {
    Nan,
    Infinite { negative: bool },
    Finite { negative: bool, units: nat },
}

/// The units of a finite pattern, sign bit taken away.
pub open spec fn unit_count(pattern: nat) -> nat {
    let exponent = pattern / 0x80_0000;
    let fraction = pattern % 0x80_0000;
    if exponent == 0 {
        fraction
    } else {
        (0x80_0000 + fraction) * power2::pow2((exponent - 1) as nat)
    }
}

impl Number {
    pub open spec fn of_bits(bits: u32) -> Number {
        let negative = bits >= 0x8000_0000;
        let pattern = bits as nat % 0x8000_0000;
        if pattern > 0x7f80_0000 {
            Number::Nan
        } else if pattern == 0x7f80_0000 {
            Number::Infinite { negative }
        } else {
            Number::Finite { negative, units: unit_count(pattern) }
        }
    }

    pub open spec fn zero() -> Number {
        Number::Finite { negative: false, units: 0 }
    }

    /// The nearest number to `n / d`.
    pub open spec fn ratio(n: nat, d: nat) -> Number {
        Number::bounded(false, rounding::rounded(n * power2::pow2(149), d))
    }

    /// The nearest number to `n`.
    pub open spec fn whole(n: nat) -> Number {
        Number::ratio(n, 1)
    }

    pub open spec fn is_negative(self) -> bool {
        match self {
            Number::Nan => false,
            Number::Infinite { negative } => negative,
            Number::Finite { negative, .. } => negative,
        }
    }

    /// The units of a finite number, with its sign.
    pub open spec fn signed(self) -> int {
        match self {
            Number::Finite { negative, units } => if negative {
                -(units as int)
            } else {
                units as int
            },
            _ => 0,
        }
    }

    /// Whether this is a zero, of either sign.
    pub open spec fn is_zero(self) -> bool {
        self is Finite && self->units == 0
    }

    pub open spec fn negated(self) -> Number {
        match self {
            Number::Nan => Number::Nan,
            Number::Infinite { negative } => Number::Infinite { negative: !negative },
            Number::Finite { negative, units } => Number::Finite { negative: !negative, units },
        }
    }

    pub open spec fn plus(self, other: Number) -> Number {
        if self is Nan || other is Nan {
            Number::Nan
        } else if self is Infinite {
            if other is Infinite && self.is_negative() != other.is_negative() {
                Number::Nan
            } else {
                self
            }
        } else if other is Infinite {
            other
        } else {
            let sum = self.signed() + other.signed();
            if sum == 0 {
                Number::Finite {
                    negative: self.is_negative() && other.is_negative(),
                    units: 0,
                }
            } else if sum > 0 {
                Number::bounded(false, rounding::rounded(sum as nat, 1))
            } else {
                Number::bounded(true, rounding::rounded((-sum) as nat, 1))
            }
        }
    }

    pub open spec fn minus(self, other: Number) -> Number {
        self.plus(other.negated())
    }

    pub open spec fn times(self, other: Number) -> Number {
        let negative = self.is_negative() != other.is_negative();
        if self is Nan || other is Nan {
            Number::Nan
        } else if self is Infinite || other is Infinite {
            if self.is_zero() || other.is_zero() {
                Number::Nan
            } else {
                Number::Infinite { negative }
            }
        } else {
            Number::bounded(
                negative,
                rounding::rounded(self->units * other->units, power2::pow2(149)),
            )
        }
    }

    pub open spec fn over(self, other: Number) -> Number {
        let negative = self.is_negative() != other.is_negative();
        if self is Nan || other is Nan {
            Number::Nan
        } else if self is Infinite {
            if other is Infinite {
                Number::Nan
            } else {
                Number::Infinite { negative }
            }
        } else if other is Infinite {
            Number::Finite { negative, units: 0 }
        } else if other.is_zero() {
            if self.is_zero() {
                Number::Nan
            } else {
                Number::Infinite { negative }
            }
        } else {
            Number::bounded(
                negative,
                rounding::rounded(self->units * power2::pow2(149), other->units),
            )
        }
    }

    /// The number of whole ones, halves rounded away from zero, brought into
    /// the range of a byte.
    pub open spec fn nearest_byte(self) -> nat {
        match self {
            Number::Nan => 0,
            Number::Infinite { negative } => if negative {
                0
            } else {
                255
            },
            Number::Finite { negative, units } => {
                let whole = (2 * units + power2::pow2(149)) / power2::pow2(150);
                if negative {
                    0
                } else if whole > 255 {
                    255
                } else {
                    whole
                }
            },
        }
    }

    /// The number of whole ones, brought into the range of a `u32`.
    pub open spec fn floor_word(self) -> nat {
        match self {
            Number::Nan => 0,
            Number::Infinite { negative } => if negative {
                0
            } else {
                0xffff_ffff
            },
            Number::Finite { negative, units } => {
                let whole = units / power2::pow2(149);
                if negative {
                    0
                } else if whole > 0xffff_ffff {
                    0xffff_ffff
                } else {
                    whole
                }
            },
        }
    }

    /// The number cut to a whole one, brought into the range of an `i64`.
    pub open spec fn whole_long(self) -> int {
        match self {
            Number::Nan => 0,
            Number::Infinite { negative } => if negative {
                i64::MIN as int
            } else {
                i64::MAX as int
            },
            Number::Finite { negative, units } => {
                let whole = (units / power2::pow2(149)) as int;
                if negative {
                    if whole > 0x8000_0000_0000_0000 {
                        i64::MIN as int
                    } else {
                        -whole
                    }
                } else if whole > i64::MAX {
                    i64::MAX as int
                } else {
                    whole
                }
            },
        }
    }

    /// The number of ones that it takes to cover this, brought into the range
    /// of a `u32`.
    pub open spec fn ceil_word(self) -> nat {
        match self {
            Number::Nan => 0,
            Number::Infinite { negative } => if negative {
                0
            } else {
                0xffff_ffff
            },
            Number::Finite { negative, units } => {
                let whole = (units + power2::pow2(149) - 1) as nat / power2::pow2(149);
                if negative {
                    0
                } else if whole > 0xffff_ffff {
                    0xffff_ffff
                } else {
                    whole
                }
            },
        }
    }

    /// The position on the number line, infinities beyond all finite numbers.
    pub open spec fn position(self) -> int {
        match self {
            Number::Nan => 0,
            Number::Infinite { negative } => if negative {
                -(power2::pow2(277) as int)
            } else {
                power2::pow2(277) as int
            },
            Number::Finite { .. } => self.signed(),
        }
    }

    pub open spec fn exceeds(self, other: Number) -> bool {
        !(self is Nan) && !(other is Nan) && self.position() > other.position()
    }

    /// Whether the two are equal: zeros are, whatever their signs, and a NaN
    /// equals nothing.
    pub open spec fn equals(self, other: Number) -> bool {
        !(self is Nan) && !(other is Nan) && self.position() == other.position()
    }

    pub open spec fn magnitude(self) -> Number {
        if self.is_negative() {
            self.negated()
        } else {
            self
        }
    }

    /// The larger of the two; a NaN gives way to the other one.
    pub open spec fn larger(self, other: Number) -> Number {
        if self is Nan || other.exceeds(self) {
            other
        } else {
            self
        }
    }

    /// The smaller of the two; a NaN gives way to the other one.
    pub open spec fn smaller(self, other: Number) -> Number {
        if self is Nan || self.exceeds(other) {
            other
        } else {
            self
        }
    }

    /// A magnitude that has been rounded, or the infinity that 2^128 and
    /// everything above it overflow to.
    pub open spec fn bounded(negative: bool, units: nat) -> Number {
        if units >= power2::pow2(277) {
            Number::Infinite { negative }
        } else {
            Number::Finite { negative, units }
        }
    }
}

/// A larger pattern, sign bits taken away, stands for a larger magnitude.
proof fn lemma_unit_count_increases(a: nat, b: nat)
    requires
        a < b <= 0x7f80_0000,
    ensures
        unit_count(a) < unit_count(b),
{
    let ea = a / 0x80_0000;
    let eb = b / 0x80_0000;
    let fa = a % 0x80_0000;
    let fb = b % 0x80_0000;
    assert(power2::pow2(0) == 1) by {
        power2::lemma2_to64();
    }
    if ea == eb {
        if ea > 0 {
            let p = power2::pow2((ea - 1) as nat);
            power2::lemma_pow2_pos((ea - 1) as nat);
            assert((0x80_0000 + fa) * p < (0x80_0000 + fb) * p) by (nonlinear_arith)
                requires
                    fa < fb,
                    p > 0,
            ;
        }
    } else {
        let pb = power2::pow2((eb - 1) as nat);
        power2::lemma_pow2_pos((eb - 1) as nat);
        assert((0x80_0000 + fb) * pb >= 0x80_0000 * pb) by (nonlinear_arith)
            requires
                fb >= 0,
                pb > 0,
        ;
        if ea > 0 {
            let pa = power2::pow2((ea - 1) as nat);
            power2::lemma_pow2_pos((ea - 1) as nat);
            power2::lemma_pow2_unfold(ea);
            if eb - 1 > ea {
                power2::lemma_pow2_strictly_increases(ea, (eb - 1) as nat);
            }
            assert((0x80_0000 + fa) * pa < 0x100_0000 * pa) by (nonlinear_arith)
                requires
                    fa < 0x80_0000,
                    pa > 0,
            ;
        } else {
            assert(0x80_0000 * pb >= 0x80_0000);
        }
    }
}

pub proof fn lemma_positions(a: u32, b: u32)
    ensures
        ({
            let pa = a as nat % 0x8000_0000;
            let pb = b as nat % 0x8000_0000;
            let na = Number::of_bits(a).magnitude().position();
            let nb = Number::of_bits(b).magnitude().position();
            pa <= 0x7f80_0000 && pb <= 0x7f80_0000 ==> (pa > pb <==> na > nb) && (pa < pb <==> na
                < nb) && na >= 0 && nb >= 0 && (na == 0 <==> pa == 0) && (nb == 0 <==> pb == 0)
        }),
{
    let pa = a as nat % 0x8000_0000;
    let pb = b as nat % 0x8000_0000;
    power2::lemma_pow2_pos(277);
    if pa <= 0x7f80_0000 && pb <= 0x7f80_0000 {
        assert(unit_count(0x7f80_0000) == power2::pow2(277)) by {
            lemma_pattern_units(254, 0x80_0000);
            power2::lemma2_to64();
            power2::lemma_pow2_adds(23, 254);
        }
        if pa < pb {
            lemma_unit_count_increases(pa, pb);
        }
        if pb < pa {
            lemma_unit_count_increases(pb, pa);
        }
        assert(unit_count(0) == 0);
        if pa > 0 {
            lemma_unit_count_increases(0, pa);
        }
        if pb > 0 {
            lemma_unit_count_increases(0, pb);
        }
    }
}

/// A finite pattern stands for zero only where all its bits but the sign are zero.
pub proof fn lemma_zero_pattern(bits: u32)
    ensures
        Number::of_bits(bits).is_zero() <==> bits % 0x8000_0000 == 0,
{
    let pattern = bits as nat % 0x8000_0000;
    let exponent = pattern / 0x80_0000;
    if exponent > 0 {
        let p = power2::pow2((exponent - 1) as nat);
        power2::lemma_pow2_pos((exponent - 1) as nat);
        let f = pattern % 0x80_0000;
        assert((0x80_0000 + f) * p > 0) by (nonlinear_arith)
            requires
                p > 0,
                f >= 0,
        ;
    }
}

pub proof fn lemma_rounded_zero(d: nat)
    requires
        d > 0,
    ensures
        rounding::rounded(0, d) == 0,
{
    let p = power2::pow2(rounding::surplus_bits(0nat / d));
    power2::lemma_pow2_pos(rounding::surplus_bits(0nat / d));
    assert(d * p > 0) by (nonlinear_arith)
        requires
            d > 0,
            p > 0,
    ;
    div_mod::lemma_small_mod(0, d * p);
    div_mod::lemma_div_of0((d * p) as int);
    assert(rounding::half_even(0, d * p) == 0);
    assert(0 * p == 0);
}

/// A pattern made of `t` binades and `r` units of the last of them.
pub proof fn lemma_pattern_units(t: nat, r: nat)
    requires
        r <= 0x100_0000,
        t == 0 || r >= 0x80_0000,
    ensures
        unit_count(t * 0x80_0000 + r) == r * power2::pow2(t),
{
    let pattern = t * 0x80_0000 + r;
    power2::lemma2_to64();
    if r < 0x80_0000 {
        assert(pattern == r);
        assert(r * 1 == r);
    } else if r < 0x100_0000 {
        assert(pattern / 0x80_0000 == t + 1);
        assert(pattern % 0x80_0000 == r - 0x80_0000);
    } else {
        assert(pattern / 0x80_0000 == t + 2);
        assert(pattern % 0x80_0000 == 0);
        power2::lemma_pow2_unfold(t + 1);
        let p = power2::pow2(t);
        assert(0x80_0000 * (2 * p) == 0x100_0000 * p);
    }
}

pub proof fn lemma_pattern_overflows(t: nat, r: nat)
    requires
        r <= 0x100_0000,
        t == 0 || r >= 0x80_0000,
    ensures
        t * 0x80_0000 + r >= 0x7f80_0000 <==> r * power2::pow2(t) >= power2::pow2(277),
{
    power2::lemma2_to64();
    power2::lemma_pow2_adds(23, 254);
    power2::lemma_pow2_adds(24, 253);
    let p = power2::pow2(t);
    power2::lemma_pow2_pos(t);
    if t >= 254 {
        if t > 254 {
            power2::lemma_pow2_strictly_increases(254, t);
        }
        let p0 = power2::pow2(254);
        assert(r * p >= 0x80_0000 * p0) by (nonlinear_arith)
            requires
                r >= 0x80_0000,
                p >= p0,
        ;
    } else {
        if t < 253 {
            power2::lemma_pow2_unfold(253);
            if t < 252 {
                power2::lemma_pow2_strictly_increases(t, 252);
            }
        }
        let p0 = power2::pow2(253);
        if t == 253 {
            if r < 0x100_0000 {
                assert(r * p < 0x100_0000 * p) by (nonlinear_arith)
                    requires
                        r < 0x100_0000,
                        p > 0,
                ;
            }
        } else {
            assert(r * p < 0x100_0000 * p0) by (nonlinear_arith)
                requires
                    r <= 0x100_0000,
                    0 < p,
                    2 * p <= p0,
            ;
        }
    }
}

/// The larger and the smaller of two numbers that are not NaN are these two, one
/// each, or the first one where they are equal. A NaN gives way.
pub proof fn law_larger_and_smaller(a: Number, b: Number)
    ensures
        !(a is Nan) && !(b is Nan) ==> {
            let high = a.larger(b);
            let low = a.smaller(b);
            &&& high == a || high == b
            &&& low == a || low == b
            &&& !a.exceeds(high) && !b.exceeds(high)
            &&& !low.exceeds(a) && !low.exceeds(b)
        },
        a is Nan ==> a.larger(b) == b && a.smaller(b) == b,
        b is Nan ==> a.larger(b) == a && a.smaller(b) == a,
{
}

} // verus!
