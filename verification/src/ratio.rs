//! Exact quotients. Durations and note densities are quotients of the
//! fixed-point quantities the pipeline works with; carrying them as
//! numerator/denominator pairs keeps every derived figure exact.

use vstd::prelude::*;

verus! {

/// An exact non-negative quotient `num / den`.
///
/// A zero denominator with a positive numerator stands for an unbounded
/// rate (a non-empty note sequence whose notes all share one beat).
#[derive(Clone, Copy, Debug, PartialEq, Eq, Structural)]
pub struct Ratio {
    pub num: u64,
    pub den: u64,
}

/// The two quotients denote the same value (cross multiplication).
pub open spec fn ratio_eq(a: Ratio, b: Ratio) -> bool {
    a.num * b.den == b.num * a.den
}

/// The first quotient is at most the second (cross multiplication;
/// meaningful when both denominators are positive).
pub open spec fn ratio_le(a: Ratio, b: Ratio) -> bool {
    a.num * b.den <= b.num * a.den
}

impl Ratio {
    /// Whether this quotient is at most `other`.
    pub fn le(&self, other: &Ratio) -> (r: bool)
        ensures
            r == ratio_le(*self, *other),
    {
        proof {
            vstd::arithmetic::mul::lemma_mul_upper_bound(
                self.num as int,
                u64::MAX as int,
                other.den as int,
                u64::MAX as int,
            );
            vstd::arithmetic::mul::lemma_mul_upper_bound(
                other.num as int,
                u64::MAX as int,
                self.den as int,
                u64::MAX as int,
            );
        }
        (self.num as u128) * (other.den as u128) <= (other.num as u128) * (self.den as u128)
    }

    /// The whole number of units in the quotient, rounded down.
    pub fn floor(&self) -> (r: u64)
        requires
            self.den > 0,
        ensures
            r == self.num as int / self.den as int,
    {
        self.num / self.den
    }
}

/// Minutes and whole seconds of a duration given in seconds, rounded down:
/// how the report writer renders a duration column.
pub fn duration_minutes_seconds(d: &Ratio) -> (r: (u64, u64))
    requires
        d.den > 0,
    ensures
        r.0 == d.num as int / d.den as int / 60,
        r.1 == d.num as int / d.den as int % 60,
{
    let total = d.num / d.den;
    (total / 60, total % 60)
}

} // verus!
