//! Fixed-point scalar arithmetic: world quantities are held as integer
//! thousandths of a unit, so every operation has an exact integer meaning.

use vstd::prelude::*;

verus! {

/// Number of raw fixed-point units per world unit.
pub const SCALE: i64 = 1000;

/// A scalar world quantity, stored as `raw` thousandths of a unit.
#[derive(Clone, Copy, Debug, PartialEq, Eq, Structural)]
pub struct Fixed {
    pub raw: i64,
}

/// Truncating (round-toward-zero) division of a raw value by `SCALE`.
pub open spec fn scale_down(a: int) -> int {
    if a >= 0 {
        a / (SCALE as int)
    } else {
        -((-a) / (SCALE as int))
    }
}

/// Mathematical product of two fixed-point values, in raw units.
pub open spec fn fmul(a: int, b: int) -> int {
    scale_down(a * b)
}

/// Whether a mathematical raw value is representable in the stored type.
pub open spec fn fits_raw(a: int) -> bool {
    i64::MIN <= a <= i64::MAX
}

proof fn lemma_mul_magnitude(a: int, b: int, am: int, bm: int)
    by (nonlinear_arith)
    requires
        am == if a >= 0 { a } else { -a },
        bm == if b >= 0 { b } else { -b },
    ensures
        a * b == if (a >= 0) == (b >= 0) { am * bm } else { -(am * bm) },
        am * bm >= 0,
{
}

impl Fixed {
    /// The mathematical value of this scalar, in raw thousandths.
    pub open spec fn v(self) -> int {
        self.raw as int
    }

    pub fn from_raw(raw: i64) -> (r: Fixed)
        ensures
            r.v() == raw as int,
    {
        Fixed { raw }
    }

    pub fn zero() -> (r: Fixed)
        ensures
            r.v() == 0,
    {
        Fixed { raw: 0 }
    }

    pub fn add(self, other: Fixed) -> (r: Fixed)
        requires
            fits_raw(self.v() + other.v()),
        ensures
            r.v() == self.v() + other.v(),
    {
        Fixed { raw: self.raw + other.raw }
    }

    pub fn sub(self, other: Fixed) -> (r: Fixed)
        requires
            fits_raw(self.v() - other.v()),
        ensures
            r.v() == self.v() - other.v(),
    {
        Fixed { raw: self.raw - other.raw }
    }

    /// Fixed-point product: the raw values are multiplied exactly and the
    /// result is scaled back down with truncation toward zero.
    pub fn mul(self, other: Fixed) -> (r: Fixed)
        requires
            fits_raw(fmul(self.v(), other.v())),
        ensures
            r.v() == fmul(self.v(), other.v()),
    {
        let a: i128 = self.raw as i128;
        let b: i128 = other.raw as i128;
        let neg: bool = (a < 0) != (b < 0);
        let am: u128 = if a < 0 { (-a) as u128 } else { a as u128 };
        let bm: u128 = if b < 0 { (-b) as u128 } else { b as u128 };
        proof {
            lemma_mul_magnitude(a as int, b as int, am as int, bm as int);
            assert(am * bm <= 0x8000_0000_0000_0000u128 * 0x8000_0000_0000_0000u128)
                by (nonlinear_arith)
                requires
                    am <= 0x8000_0000_0000_0000u128,
                    bm <= 0x8000_0000_0000_0000u128,
            ;
        }
        let p: u128 = am * bm;
        let q: u128 = p / 1000;
        proof {
            assert(q as int == (am as int * bm as int) / 1000);
            if neg {
                assert(a as int * b as int == -(am as int * bm as int));
                if am as int * bm as int == 0 {
                    assert(fmul(self.v(), other.v()) == 0);
                } else {
                    assert(fmul(self.v(), other.v()) == -(q as int));
                }
            } else {
                assert(a as int * b as int == am as int * bm as int);
                assert(fmul(self.v(), other.v()) == q as int);
            }
        }
        if neg {
            let r: i128 = -(q as i128);
            Fixed { raw: r as i64 }
        } else {
            Fixed { raw: q as i64 }
        }
    }
}

} // verus!
