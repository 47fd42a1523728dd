//! Products of two 128-bit numbers, held exactly in 256 bits.
use vstd::prelude::*;

verus! {

/// Two to the power of 64.
pub const LIMB: u128 = 0x1_0000_0000_0000_0000;

/// Two to the power of 128.
pub open spec fn span() -> int {
    0x1_0000_0000_0000_0000_0000_0000_0000_0000int
}

/// A number below two to the power of 256, in two halves.
#[derive(Clone, Copy, Debug, PartialEq, Eq, Structural)]
pub struct Wide {
    /// The upper 128 bits.
    pub high: u128,
    /// The lower 128 bits.
    pub low: u128,
}

impl Wide {
    /// The number that the two halves stand for.
    pub open spec fn value(self) -> int {
        self.high * span() + self.low
    }

    /// The product of `a` and `b`.
    pub fn product(a: u128, b: u128) -> (wide: Wide)
        ensures
            wide.value() == a * b,
    {
        let limb: u128 = LIMB;
        let a0: u128 = a % limb;
        let a1: u128 = a / limb;
        let b0: u128 = b % limb;
        let b1: u128 = b / limb;
        proof {
            lemma_limb_product(a0, b0);
            lemma_limb_product(a0, b1);
            lemma_limb_product(a1, b0);
            lemma_limb_product(a1, b1);
        }
        let p00: u128 = a0 * b0;
        let p01: u128 = a0 * b1;
        let p10: u128 = a1 * b0;
        let p11: u128 = a1 * b1;
        let mid: u128 = p00 / limb + p01 % limb + p10 % limb;
        let low: u128 = p00 % limb + (mid % limb) * limb;
        proof {
            lemma_by_limbs(a as int, a1 as int, a0 as int, b as int, b1 as int, b0 as int);
            let high = p11 + p01 / limb + p10 / limb + mid / limb;
            assert(high * span() + low == a * b);
            assert(a * b < span() * span()) by (nonlinear_arith)
                requires
                    0 <= a < span(),
                    0 <= b < span(),
            ;
        }
        let high: u128 = p11 + p01 / limb + p10 / limb + mid / limb;
        Wide { high, low }
    }

    /// Whether `self` is more than `other`.
    pub fn exceeds(&self, other: &Wide) -> (more: bool)
        ensures
            more == (self.value() > other.value()),
    {
        self.high > other.high || (self.high == other.high && self.low > other.low)
    }
}

/// The product of two numbers below `LIMB` fits in 128 bits.
proof fn lemma_limb_product(x: u128, y: u128)
    by (nonlinear_arith)
    requires
        x < LIMB,
        y < LIMB,
    ensures
        x * y <= (LIMB - 1) * (LIMB - 1),
{
}

/// A product, written out by the halves of its factors.
proof fn lemma_by_limbs(a: int, a1: int, a0: int, b: int, b1: int, b0: int)
    by (nonlinear_arith)
    requires
        a == a1 * LIMB + a0,
        b == b1 * LIMB + b0,
    ensures
        a * b == (a1 * b1) * span() + (a1 * b0 + a0 * b1) * LIMB + a0 * b0,
{
}

} // verus!
