//! Exact rational distance values.

use vstd::prelude::*;

verus! {

/// An exact non-negative rational number, used for every distance that is a
/// real number in `[0, 1]`.
///
/// The value is `num / den`. Every distance produced by this library is
/// well-formed ([`Ratio::wf`]): the denominator is positive and the numerator
/// does not exceed it, so the value lies in `[0, 1]`.
#[derive(Debug, Clone, Copy, PartialEq, Eq, Hash, Structural)]
pub struct Ratio {
    pub num: u64,
    pub den: u64,
}

impl Ratio {
    /// Well-formed: a value in `[0, 1]` with a positive denominator.
    pub open spec fn wf(self) -> bool {
        1 <= self.den && self.num <= self.den
    }

    /// The exact value `self.num / self.den` equals `n / d`.
    pub open spec fn is(self, n: int, d: int) -> bool {
        self.num * d == n * self.den
    }

    pub fn new(num: u64, den: u64) -> (r: Ratio)
        requires
            1 <= den,
            num <= den,
        ensures
            r.num == num,
            r.den == den,
            r.wf(),
    {
        Ratio { num, den }
    }

    /// The rational zero, `0 / 1`.
    pub fn zero() -> (r: Ratio)
        ensures
            r.num == 0,
            r.den == 1,
            r.wf(),
    {
        Ratio { num: 0, den: 1 }
    }

    /// The rational one, `1 / 1`.
    pub fn one() -> (r: Ratio)
        ensures
            r.num == 1,
            r.den == 1,
            r.wf(),
    {
        Ratio { num: 1, den: 1 }
    }

    /// Exact comparison: `self <= other` as rational numbers.
    pub fn le(&self, other: &Ratio) -> (r: bool)
        requires
            self.wf(),
            other.wf(),
        ensures
            r == (self.num * other.den <= other.num * self.den),
    {
        proof {
            lemma_u64_mul_fits(self.num, other.den);
            lemma_u64_mul_fits(other.num, self.den);
        }
        (self.num as u128) * (other.den as u128) <= (other.num as u128) * (self.den as u128)
    }

    /// Exact comparison: `self < other` as rational numbers.
    pub fn lt(&self, other: &Ratio) -> (r: bool)
        requires
            self.wf(),
            other.wf(),
        ensures
            r == (self.num * other.den < other.num * self.den),
    {
        proof {
            lemma_u64_mul_fits(self.num, other.den);
            lemma_u64_mul_fits(other.num, self.den);
        }
        (self.num as u128) * (other.den as u128) < (other.num as u128) * (self.den as u128)
    }
}

/// The rational `a` is less than or equal to the rational `b`.
pub open spec fn rat_le(a: Ratio, b: Ratio) -> bool {
    a.num * b.den <= b.num * a.den
}

/// The product of two `u64` values fits in a `u128`.
pub proof fn lemma_u64_mul_fits(a: u64, b: u64)
    ensures
        a * b <= u128::MAX,
{
    assert(a * b <= u128::MAX) by (nonlinear_arith)
        requires
            a <= u64::MAX,
            b <= u64::MAX,
    {};
}

} // verus!
