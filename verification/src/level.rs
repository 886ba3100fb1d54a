//! Single-precision numbers: samples as they are handed on, and powers, signal-to-noise
//! ratios and speeds as the receiver compares them.
//!
//! A sample's number is kept bit by bit. A level stands for one single-precision number by an integer that sorts as the number
//! does, so that thresholds, maxima and medians can be taken without floating point.

use vstd::arithmetic::power2::*;
use vstd::prelude::*;

verus! {

/// A number as it stands, bit by bit.
#[derive(Debug, Clone, Copy, PartialEq, Eq, Structural)]
pub struct Single {
    pub bits: u32,
}

impl Single {
    /// The number is zero, of either sign.
    pub open spec fn zero(self) -> bool {
        self.bits == 0 || self.bits == 0x8000_0000
    }

    /// The number is zero, of either sign.
    pub fn is_zero(&self) -> (yes: bool)
        ensures
            yes == self.zero(),
    {
        self.bits == 0 || self.bits == 0x8000_0000
    }
}

/// A number that is not NaN, by its place in the order of all such numbers. Both zeros
/// are the level 0.
#[derive(Debug, Clone, Copy, PartialEq, Eq, Structural)]
pub struct Level {
    pub code: i32,
}

/// The exact value of a finite single-precision bit pattern, in units of the smallest
/// positive number.
pub open spec fn single_value(bits: u32) -> int {
    let magnitude = (bits as int) % 0x8000_0000;
    let exponent = magnitude / 0x80_0000;
    let fraction = magnitude % 0x80_0000;
    let size = if exponent == 0 {
        fraction
    } else {
        (0x80_0000 + fraction) * pow2((exponent - 1) as nat)
    };
    if bits < 0x8000_0000 {
        size
    } else {
        -size
    }
}

/// The bit pattern is that of a finite number.
pub open spec fn single_is_finite(bits: u32) -> bool {
    (bits as int) % 0x8000_0000 < 0x7F80_0000
}

impl Level {
    pub open spec fn spec_from_bits(bits: u32) -> Level {
        Level {
            code: if bits < 0x8000_0000 {
                bits as i32
            } else {
                (0x8000_0000 - bits) as i32
            },
        }
    }

    /// The level of a single-precision number, given by its bit pattern.
    pub fn from_bits(bits: u32) -> (level: Level)
        ensures
            level == Level::spec_from_bits(bits),
            level.code > i32::MIN,
    {
        if bits < 0x8000_0000 {
            Level { code: bits as i32 }
        } else {
            let size: u32 = bits - 0x8000_0000;
            Level { code: -(size as i32) }
        }
    }

    /// The bit pattern of the number that the level stands for, zero being positive.
    pub fn to_bits(self) -> (bits: u32)
        requires
            self.code > i32::MIN,
        ensures
            Level::spec_from_bits(bits) == self,
            bits != 0x8000_0000,
    {
        if self.code >= 0 {
            self.code as u32
        } else {
            0x8000_0000 + (-self.code) as u32
        }
    }

    /// The larger of two levels.
    pub fn max(self, other: Level) -> (level: Level)
        ensures
            level == (if self.code >= other.code { self } else { other }),
    {
        if self.code >= other.code {
            self
        } else {
            other
        }
    }
}

proof fn lemma_magnitudes_grow_with_value(a: int, b: int)
    requires
        0 <= a < b < 0x7F80_0000,
    ensures
        single_value(a as u32) < single_value(b as u32),
{
    let (ea, fa) = (a / 0x80_0000, a % 0x80_0000);
    let (eb, fb) = (b / 0x80_0000, b % 0x80_0000);
    assert(a % 0x8000_0000 == a && b % 0x8000_0000 == b);
    if ea == eb {
        if ea > 0 {
            let p = pow2((ea - 1) as nat) as int;
            lemma_pow2_pos((ea - 1) as nat);
            assert((0x80_0000 + fa) * p < (0x80_0000 + fb) * p) by (nonlinear_arith)
                requires
                    fa < fb,
                    p > 0,
            ;
        }
    } else {
        assert(ea < eb);
        let pb = pow2((eb - 1) as nat) as int;
        lemma_pow2_pos((eb - 1) as nat);
        assert((0x80_0000 + fb) * pb >= 0x80_0000 * pb) by (nonlinear_arith)
            requires
                fb >= 0,
                pb > 0,
        ;
        if ea > 0 {
            let pa = pow2((ea - 1) as nat) as int;
            lemma_pow2_pos((ea - 1) as nat);
            lemma_pow2_unfold(ea as nat);
            if ea < eb - 1 {
                lemma_pow2_strictly_increases(ea as nat, (eb - 1) as nat);
            }
            assert(pb >= 2 * pa);
            assert((0x80_0000 + fa) * pa < 0x100_0000 * pa) by (nonlinear_arith)
                requires
                    fa < 0x80_0000,
                    pa > 0,
            ;
        }
    }
}

/// Levels compare as the finite numbers that they stand for.
pub proof fn law_levels_compare_as_numbers(a: u32, b: u32)
    requires
        single_is_finite(a),
        single_is_finite(b),
    ensures
        Level::spec_from_bits(a).code <= Level::spec_from_bits(b).code <==> single_value(a)
            <= single_value(b),
{
    let ma = (a as int) % 0x8000_0000;
    let mb = (b as int) % 0x8000_0000;
    if ma < mb {
        lemma_magnitudes_grow_with_value(ma, mb);
    } else if mb < ma {
        lemma_magnitudes_grow_with_value(mb, ma);
    }
    if ma > 0 {
        lemma_magnitudes_grow_with_value(0, ma);
    }
    if mb > 0 {
        lemma_magnitudes_grow_with_value(0, mb);
    }
}

/// The two zeros are the numbers whose value is zero.
pub proof fn law_zero_has_two_signs(x: Single)
    requires
        single_is_finite(x.bits),
    ensures
        x.zero() <==> single_value(x.bits) == 0,
{
    let m = (x.bits as int) % 0x8000_0000;
    if m > 0 {
        lemma_magnitudes_grow_with_value(0, m);
    }
}

/// A level gives back the bit pattern that it came from, but for negative zero.
pub proof fn law_levels_keep_their_number(a: u32, b: u32)
    requires
        Level::spec_from_bits(a) == Level::spec_from_bits(b),
        a != 0x8000_0000,
        b != 0x8000_0000,
    ensures
        a == b,
{
}

} // verus!
