//! Lengths measured in millipoints (1/1000 of a typographic point).

use vstd::prelude::*;
use core::cmp::Ordering;

verus! {

/// A length in millipoints; 1000 millipoints make one point (1/72 inch).
#[derive(Debug, Clone, Copy, PartialEq, Eq, Structural)]
pub struct Length {
    /// The value in millipoints.
    pub mp: i32,
}

/// Millipoints per point.
pub const MILLIPOINTS_PER_POINT: i32 = 1000;

/// Rounds the quotient `num / den` (den > 0) half away from zero.
pub open spec fn round_div(num: int, den: int) -> int {
    if num >= 0 {
        (2 * num + den) / (2 * den)
    } else {
        -((2 * (-num) + den) / (2 * den))
    }
}

/// Millipoints of `mm` millimetres: mm * 72 / 25.4 points, rounded to the nearest millipoint.
pub open spec fn mm_to_millipoints(mm: int) -> int {
    round_div(mm * 720000, 254)
}

impl Length {
    /// The zero length.
    pub fn zero() -> (r: Length)
        ensures
            r.mp() == 0,
    {
        Length { mp: 0 }
    }

    /// The value in millipoints as a mathematical integer.
    pub open spec fn mp(self) -> int {
        self.mp as int
    }

    /// Builds a length from a whole number of millipoints.
    pub fn from_millipoints(mp: i32) -> (r: Length)
        ensures
            r.mp() == mp,
    {
        Length { mp }
    }

    /// Builds a length from a whole number of points.
    pub fn from_pt(pt: i32) -> (r: Length)
        requires
            i32::MIN <= pt * 1000 <= i32::MAX,
        ensures
            r.mp() == pt * 1000,
    {
        Length { mp: pt * 1000 }
    }

    /// Builds a length from a whole number of millimetres, rounded to the nearest millipoint.
    pub fn from_mm(mm: i32) -> (r: Length)
        requires
            i32::MIN <= mm_to_millipoints(mm as int) <= i32::MAX,
        ensures
            r.mp() == mm_to_millipoints(mm as int),
    {
        let num: i64 = (mm as i64) * 720000;
        proof {
            assert(-2147483648 * 720000 <= num <= 2147483647 * 720000) by (nonlinear_arith)
                requires num == mm * 720000, -2147483648 <= mm <= 2147483647;
        }
        let v = div_round(num, 254);
        Length { mp: v as i32 }
    }

    /// Builds a length from a number of tenths of a millimetre, rounded to the nearest millipoint.
    pub fn from_tenths_mm(tenths: i32) -> (r: Length)
        requires
            i32::MIN <= round_div(tenths * 72000, 254) <= i32::MAX,
        ensures
            r.mp() == round_div(tenths * 72000, 254),
    {
        let num: i64 = (tenths as i64) * 72000;
        proof {
            assert(-2147483648 * 72000 <= num <= 2147483647 * 72000) by (nonlinear_arith)
                requires num == tenths * 72000, -2147483648 <= tenths <= 2147483647;
        }
        let v = div_round(num, 254);
        Length { mp: v as i32 }
    }

    /// The value in millipoints.
    pub fn millipoints(&self) -> (r: i32)
        ensures
            r == self.mp(),
    {
        self.mp
    }

    /// Sum of two lengths.
    pub fn plus(self, other: Length) -> (r: Length)
        requires
            i32::MIN <= self.mp() + other.mp() <= i32::MAX,
        ensures
            r.mp() == self.mp() + other.mp(),
    {
        Length { mp: self.mp + other.mp }
    }

    /// Difference of two lengths.
    pub fn minus(self, other: Length) -> (r: Length)
        requires
            i32::MIN <= self.mp() - other.mp() <= i32::MAX,
        ensures
            r.mp() == self.mp() - other.mp(),
    {
        Length { mp: self.mp - other.mp }
    }

    /// The larger of two lengths.
    pub fn max(self, other: Length) -> (r: Length)
        ensures
            r.mp() == if self.mp() >= other.mp() { self.mp() } else { other.mp() },
    {
        if self.mp >= other.mp { self } else { other }
    }

    /// Whether `self` is strictly shorter than `other`.
    pub fn is_less(&self, other: &Length) -> (r: bool)
        ensures
            r == (self.mp() < other.mp()),
    {
        self.mp < other.mp
    }

    /// Whether `self` is at most `other`.
    pub fn is_at_most(&self, other: &Length) -> (r: bool)
        ensures
            r == (self.mp() <= other.mp()),
    {
        self.mp <= other.mp
    }
}

/// `num / den` rounded to the nearest integer, halves away from zero.
pub fn div_round(num: i64, den: i64) -> (r: i64)
    requires
        0 < den <= 1000000,
        -1000000000000000000 <= num <= 1000000000000000000,
    ensures
        r == round_div(num as int, den as int),
{
    if num >= 0 {
        (2 * num + den) / (2 * den)
    } else {
        -((2 * (-num) + den) / (2 * den))
    }
}

/// The ordering of two lengths by their millipoint values.
pub open spec fn length_order(a: Length, b: Length) -> Ordering {
    if a.mp() < b.mp() {
        Ordering::Less
    } else if a.mp() == b.mp() {
        Ordering::Equal
    } else {
        Ordering::Greater
    }
}

impl PartialOrd for Length {
    fn partial_cmp(&self, other: &Length) -> (r: Option<Ordering>) {
        if self.mp < other.mp {
            Some(Ordering::Less)
        } else if self.mp == other.mp {
            Some(Ordering::Equal)
        } else {
            Some(Ordering::Greater)
        }
    }
}

impl vstd::std_specs::cmp::PartialOrdSpecImpl for Length {
    open spec fn obeys_partial_cmp_spec() -> bool {
        true
    }

    open spec fn partial_cmp_spec(&self, other: &Length) -> Option<Ordering> {
        Some(length_order(*self, *other))
    }
}

} // verus!
