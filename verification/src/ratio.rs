//! Exact rational query results.

use vstd::prelude::*;

verus! {

/// An exact rational number `num / den`, not necessarily in lowest terms.
///
/// Queries that need not be integers (a mean, a variance, a median midpoint)
/// return their result in this form, so that the library stays exact; a
/// caller that wants a floating approximation divides the two fields itself.
#[derive(Clone, Copy, PartialEq, Eq, Structural, Debug)]
pub struct Ratio {
    /// Numerator.
    pub num: i128,
    /// Denominator; always positive.
    pub den: i128,
}

impl Ratio {
    /// Does this ratio equal the rational `n / d`?
    pub open spec fn is_frac(&self, n: int, d: int) -> bool {
        self.den > 0 && d != 0 && self.num * d == n * self.den
    }

    /// Builds the ratio `num / den`.
    pub fn new(num: i128, den: i128) -> (r: Ratio)
        requires
            den > 0,
        ensures
            r.num == num,
            r.den == den,
    {
        Ratio { num, den }
    }
}

} // verus!
