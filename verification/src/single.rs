//! Single-precision numbers, as the model gives and the configuration takes them.
use crate::double::{from_units, lemma_pow2_ordered, Double};
use crate::number::{lemma_rounded_exact, Number};
use vstd::arithmetic::power2::{
    lemma2_to64, lemma_pow2_adds, lemma_pow2_pos, lemma_pow2_unfold, pow2,
};
use vstd::prelude::*;

verus! {

/// A single-precision number, held by its bit pattern: the sign, eight bits of
/// exponent, 23 bits of fraction.
#[derive(Debug, Clone, Copy)]
pub struct Single {
    pub bits: u32,
}

/// The units of the finite number with the pattern `magnitude` and no sign: the
/// smallest positive one is 2^-149, which is 2^925 units.
pub open spec fn single_units(magnitude: nat) -> nat {
    let exponent: nat = magnitude / 0x80_0000;
    let fraction: nat = magnitude % 0x80_0000;
    if exponent == 0 {
        fraction * pow2(925)
    } else {
        (0x80_0000 + fraction) * pow2((exponent - 1 + 925) as nat)
    }
}

impl View for Single {
    type V = Number;

    open spec fn view(&self) -> Number {
        let negative: bool = self.bits >= 0x8000_0000;
        let magnitude: nat = (self.bits % 0x8000_0000) as nat;
        if magnitude > 0x7f80_0000 {
            Number::NotANumber
        } else if magnitude == 0x7f80_0000 {
            Number::Infinite { negative }
        } else {
            Number::Finite { negative, units: single_units(magnitude) }
        }
    }
}

/// What a single counts for fits a double.
proof fn lemma_single_fits(significand: nat, shift: nat)
    requires
        significand < 0x100_0000,
        shift <= 253,
    ensures
        crate::number::rounded(significand * pow2(925 + shift), 1) == significand * pow2(925 + shift),
        significand * pow2(925 + shift) < pow2(2098),
{
    let k: nat = 925 + shift;
    lemma2_to64();
    lemma_rounded_exact(significand, k, 0);
    lemma_pow2_pos(k);
    lemma_pow2_adds(24, k);
    lemma_pow2_ordered(24 + k, 2098);
    assert(significand * pow2(k) < 0x100_0000 * pow2(k)) by (nonlinear_arith)
        requires
            significand < 0x100_0000,
            pow2(k) > 0,
    ;
}

impl Single {
    /// The same number in double precision.
    pub fn to_double(self) -> (double: Double)
        ensures
            double@ == self@,
    {
        let negative: bool = self.bits >= 0x8000_0000;
        let magnitude: u32 = self.bits % 0x8000_0000;
        if magnitude > 0x7f80_0000 {
            return Double::not_a_number();
        }
        if magnitude == 0x7f80_0000 {
            return Double::infinity(negative);
        }
        let exponent: u32 = magnitude / 0x80_0000;
        let fraction: u32 = magnitude % 0x80_0000;
        let (significand, shift): (u32, u32) = if exponent == 0 {
            (fraction, 0)
        } else {
            (0x80_0000 + fraction, exponent - 1)
        };
        proof {
            lemma2_to64();
            lemma_pow2_ordered(64, 120);
            lemma_single_fits(significand as nat, shift as nat);
        }
        from_units(negative, significand as u128, 925 + shift)
    }

    /// Whether the number is neither infinite nor no number at all.
    pub fn is_finite(self) -> (finite: bool)
        ensures
            finite == (self@ is Finite),
    {
        self.bits % 0x8000_0000 < 0x7f80_0000
    }

    /// Whether the number is below the other.
    pub fn below(self, other: Single) -> (less: bool)
        ensures
            less == self@.below(other@),
    {
        self.to_double().below(other.to_double())
    }
}

/// From one bit pattern to the next the number grows by 2^-149, and by twice as much
/// with every further exponent.
pub proof fn law_single_steps(magnitude: nat)
    ensures
        single_units(0) == 0,
        ({
            let exponent: nat = magnitude / 0x80_0000;
            single_units(magnitude + 1) - single_units(magnitude) == pow2(
                if exponent == 0 {
                    925
                } else {
                    (exponent + 924) as nat
                },
            )
        }),
{
    let exponent: nat = magnitude / 0x80_0000;
    let fraction: nat = magnitude % 0x80_0000;
    let p: nat = if exponent == 0 {
        pow2(925)
    } else {
        pow2((exponent + 924) as nat)
    };
    let m: nat = if exponent == 0 {
        fraction
    } else {
        0x80_0000 + fraction
    };
    assert(0 * pow2(925) == 0 && (m + 1) * p == m * p + p) by (nonlinear_arith);
    if fraction == 0x7f_ffff {
        assert((magnitude + 1) / 0x80_0000 == exponent + 1);
        assert((magnitude + 1) % 0x80_0000 == 0);
        if exponent > 0 {
            lemma_pow2_unfold((exponent + 925) as nat);
            assert((m + 1) * p == 0x80_0000 * (2 * p)) by (nonlinear_arith)
                requires
                    m == 0xff_ffff,
            ;
        }
    } else {
        assert((magnitude + 1) / 0x80_0000 == exponent);
        assert((magnitude + 1) % 0x80_0000 == fraction + 1);
    }
}

/// The highest bit is the sign. Without it, a pattern below that of infinity is a
/// finite number, and one above it is not a number.
pub proof fn law_single_patterns(bits: u32)
    ensures
        ({
            let negative: bool = bits >= 0x8000_0000;
            let magnitude: nat = if negative {
                (bits - 0x8000_0000) as nat
            } else {
                bits as nat
            };
            (Single { bits })@ == if magnitude < 0x7f80_0000 {
                Number::Finite { negative, units: single_units(magnitude) }
            } else if magnitude == 0x7f80_0000 {
                Number::Infinite { negative }
            } else {
                Number::NotANumber
            }
        }),
{
}

} // verus!
