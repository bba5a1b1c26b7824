//! Single-precision numbers, held by their bit patterns.
//!
//! A [`Scalar`] is one IEEE 754 binary32 number. Everything that depends only
//! on its bits (order, sign, the choice between two numbers) is computed here
//! and proved against the number that the bits stand for. Rounded arithmetic
//! is left to an implementation of [`crate::math::Math`].

use vstd::prelude::*;
use vstd::arithmetic::power2::{lemma_pow2_adds, lemma_pow2_pos, lemma_pow2_strictly_increases, lemma2_to64, pow2};

verus! {

/// A binary32 number, as its bit pattern.
#[derive(Clone, Copy, PartialEq, Eq, Structural, Debug)]
pub struct Scalar(pub u32);

/// Bits of 0.
pub const ZERO: u32 = 0x0000_0000;

/// Bits of -1.
pub const MINUS_ONE: u32 = 0xbf80_0000;

/// Bits of 1.
pub const ONE: u32 = 0x3f80_0000;

/// Bits of 3.
pub const THREE: u32 = 0x4040_0000;

/// Bits of 8.
pub const EIGHT: u32 = 0x4100_0000;

/// Bits of 10.
pub const TEN: u32 = 0x4120_0000;

/// Bits of 20.
pub const TWENTY: u32 = 0x41a0_0000;

/// Bits of 0.5.
pub const HALF: u32 = 0x3f00_0000;

/// Bits of 0.3, rounded.
pub const THREE_TENTHS: u32 = 0x3e99_999a;

/// Bits of 0.01, rounded.
pub const HUNDREDTH: u32 = 0x3c23_d70a;

/// Bits of 0.001, rounded.
pub const THOUSANDTH: u32 = 0x3a83_126f;

/// Bits of 10^-6, rounded.
pub const MILLIONTH: u32 = 0x3586_37bd;

/// Bits of 0.99, rounded.
pub const NEARLY_ONE: u32 = 0x3f7d_70a4;

/// Bits of half a turn, in radians.
pub const PI: u32 = 0x4049_0fdb;

/// Bits of a full turn, in radians.
pub const TAU: u32 = 0x40c9_0fdb;

/// Bits of a quarter of a turn, in radians.
pub const FRAC_PI_2: u32 = 0x3fc9_0fdb;

/// Bits of a sixth of a turn, in radians.
pub const FRAC_PI_3: u32 = 0x3f86_0a92;

/// The number whose sign-free bit pattern is `bits`, counted in units of
/// 2^-149, the least positive number. Infinity counts as 2^277, one step past
/// the greatest finite number.
pub open spec fn units_of(bits: int) -> int {
    let exponent = bits / 0x80_0000;
    let fraction = bits % 0x80_0000;
    if exponent == 0 {
        fraction
    } else {
        (0x80_0000 + fraction) * pow2((exponent - 1) as nat)
    }
}

impl Scalar {
    /// The sign bit is set.
    pub open spec fn negative(self) -> bool {
        self.0 >= 0x8000_0000
    }

    /// The bit pattern without its sign.
    pub open spec fn unsigned(self) -> int {
        if self.negative() {
            self.0 - 0x8000_0000
        } else {
            self.0 as int
        }
    }

    /// Not a number.
    pub open spec fn nan(self) -> bool {
        self.unsigned() > 0x7f80_0000
    }

    /// A number, and not an infinite one.
    pub open spec fn finite(self) -> bool {
        self.unsigned() < 0x7f80_0000
    }

    /// The number itself, in units of 2^-149.
    pub open spec fn units(self) -> int {
        if self.negative() {
            -units_of(self.unsigned())
        } else {
            units_of(self.unsigned())
        }
    }

    /// Where the number stands in the order of all numbers: its sign-free bit
    /// pattern, with the sign put back.
    pub open spec fn ranked(self) -> int {
        if self.negative() {
            -self.unsigned()
        } else {
            self.unsigned()
        }
    }

    /// `self < other`: never true where one of them is not a number.
    pub open spec fn below(self, other: Scalar) -> bool {
        !self.nan() && !other.nan() && self.units() < other.units()
    }

    /// `self <= other`: never true where one of them is not a number.
    pub open spec fn at_most(self, other: Scalar) -> bool {
        !self.nan() && !other.nan() && self.units() <= other.units()
    }

    /// The number with its sign bit cleared.
    pub open spec fn absolute(self) -> Scalar {
        Scalar(self.unsigned() as u32)
    }

    /// The number with its sign bit flipped.
    pub open spec fn negated(self) -> Scalar {
        if self.negative() {
            Scalar((self.0 - 0x8000_0000) as u32)
        } else {
            Scalar((self.0 + 0x8000_0000) as u32)
        }
    }

    /// The lesser of two numbers. Where one of them is not a number it is the
    /// other one, and where they are equal it is `self`.
    pub open spec fn lesser(self, other: Scalar) -> Scalar {
        if self.nan() || other.below(self) {
            other
        } else {
            self
        }
    }

    /// The number moved into the range from `low` to `high`; what is not a
    /// number stays as it is.
    pub open spec fn clamped(self, low: Scalar, high: Scalar) -> Scalar {
        if self.below(low) {
            low
        } else if high.below(self) {
            high
        } else {
            self
        }
    }

    /// Where the number stands in the order of all numbers.
    fn rank(self) -> (r: i64)
        ensures
            r == self.ranked(),
    {
        if self.0 >= 0x8000_0000 {
            -((self.0 - 0x8000_0000) as i64)
        } else {
            self.0 as i64
        }
    }

    /// Is this not a number?
    pub fn is_nan(self) -> (r: bool)
        ensures
            r == self.nan(),
    {
        if self.0 >= 0x8000_0000 {
            self.0 - 0x8000_0000 > 0x7f80_0000
        } else {
            self.0 > 0x7f80_0000
        }
    }

    /// `self < other`
    pub fn lt(self, other: Scalar) -> (r: bool)
        ensures
            r == self.below(other),
    {
        proof {
            lemma_rank_orders(self, other);
        }
        !self.is_nan() && !other.is_nan() && self.rank() < other.rank()
    }

    /// `self <= other`
    pub fn le(self, other: Scalar) -> (r: bool)
        ensures
            r == self.at_most(other),
    {
        proof {
            lemma_rank_orders(other, self);
        }
        !self.is_nan() && !other.is_nan() && self.rank() <= other.rank()
    }

    /// The magnitude of the number.
    pub fn abs(self) -> (r: Scalar)
        ensures
            r == self.absolute(),
    {
        if self.0 >= 0x8000_0000 {
            Scalar(self.0 - 0x8000_0000)
        } else {
            self
        }
    }

    /// `-self`
    pub fn neg(self) -> (r: Scalar)
        ensures
            r == self.negated(),
    {
        if self.0 >= 0x8000_0000 {
            Scalar(self.0 - 0x8000_0000)
        } else {
            Scalar(self.0 + 0x8000_0000)
        }
    }

    /// The lesser of two numbers.
    pub fn min(self, other: Scalar) -> (r: Scalar)
        ensures
            r == self.lesser(other),
    {
        if self.is_nan() || other.lt(self) {
            other
        } else {
            self
        }
    }

    /// The number moved into the range from `low` to `high`.
    pub fn clamp(self, low: Scalar, high: Scalar) -> (r: Scalar)
        requires
            low.at_most(high),
        ensures
            r == self.clamped(low, high),
    {
        if self.lt(low) {
            low
        } else if high.lt(self) {
            high
        } else {
            self
        }
    }
}

/// Sign-free bit patterns are in the order of the numbers they stand for.
pub(crate) proof fn lemma_units_increase(low: int, high: int)
    requires
        0 <= low < high,
    ensures
        0 <= units_of(low) < units_of(high),
{
    let (e, f) = (low / 0x80_0000, low % 0x80_0000);
    let (g, h) = (high / 0x80_0000, high % 0x80_0000);
    assert(0 <= e <= g);
    if e == g {
        assert(f < h);
        if e > 0 {
            let scale = pow2((e - 1) as nat);
            lemma_pow2_pos((e - 1) as nat);
            assert((0x80_0000 + f) * scale < (0x80_0000 + h) * scale) by (nonlinear_arith)
                requires
                    f < h,
                    scale > 0,
            ;
            assert(0 <= (0x80_0000 + f) * scale) by (nonlinear_arith)
                requires
                    f >= 0,
                    scale > 0,
            ;
        }
    } else {
        let scale = pow2((g - 1) as nat);
        lemma_pow2_pos((g - 1) as nat);
        assert(0x80_0000 * scale <= (0x80_0000 + h) * scale) by (nonlinear_arith)
            requires
                h >= 0,
                scale > 0,
        ;
        if e > 0 {
            let lesser = pow2((e - 1) as nat);
            lemma_pow2_pos((e - 1) as nat);
            lemma_pow2_adds((e - 1) as nat, 1);
            lemma2_to64();
            assert(pow2(e as nat) == 2 * lesser);
            if e < g - 1 {
                lemma_pow2_strictly_increases(e as nat, (g - 1) as nat);
            }
            assert(0 <= (0x80_0000 + f) * lesser < 0x80_0000 * scale) by (nonlinear_arith)
                requires
                    0 <= f < 0x80_0000,
                    0 < lesser,
                    2 * lesser <= scale,
            ;
        } else {
            assert(0x80_0000 <= 0x80_0000 * scale);
        }
    }
}

/// Signed bit patterns are in the order of the numbers they stand for.
pub(crate) proof fn lemma_rank_orders(a: Scalar, b: Scalar)
    ensures
        a.ranked() < b.ranked() <==> a.units() < b.units(),
{
    let (p, q) = (a.unsigned(), b.unsigned());
    assert(units_of(0) == 0);
    if 0 < p {
        lemma_units_increase(0, p);
    }
    if 0 < q {
        lemma_units_increase(0, q);
    }
    if p < q {
        lemma_units_increase(p, q);
    }
    if q < p {
        lemma_units_increase(q, p);
    }
}

/// Flipping the sign of a number negates it, and a second flip restores its bits.
pub proof fn negation_negates(a: Scalar)
    ensures
        a.negated().units() == -a.units(),
        a.negated().negated() == a,
        a.negated().nan() == a.nan(),
{
}

/// Clearing the sign of a number gives its magnitude.
pub proof fn absolute_is_magnitude(a: Scalar)
    ensures
        a.absolute().units() == if a.units() < 0 { -a.units() } else { a.units() },
        a.absolute().nan() == a.nan(),
{
    if 0 < a.unsigned() {
        lemma_units_increase(0, a.unsigned());
    }
}

/// The lesser of a number and a bound never exceeds the bound, provided the
/// bound is a number.
pub proof fn lesser_is_bounded(a: Scalar, bound: Scalar)
    requires
        !bound.nan(),
    ensures
        a.lesser(bound).at_most(bound),
{
}

/// A number that was moved into a range lies in it.
pub proof fn clamped_is_within(a: Scalar, low: Scalar, high: Scalar)
    requires
        !a.nan(),
        low.at_most(high),
    ensures
        low.at_most(a.clamped(low, high)),
        a.clamped(low, high).at_most(high),
{
}

/// The lesser of two numbers is one of them, and no greater than either; a
/// number is taken in place of what is none.
pub proof fn lesser_is_one_of_both(a: Scalar, b: Scalar)
    ensures
        a.lesser(b) == a || a.lesser(b) == b,
        !a.nan() && !b.nan() ==> a.lesser(b).at_most(a) && a.lesser(b).at_most(b),
        a.nan() ==> a.lesser(b) == b,
        b.nan() && !a.nan() ==> a.lesser(b) == a,
        a.at_most(b) ==> a.lesser(b) == a,
        b.below(a) ==> a.lesser(b) == b,
{
}

/// A number that lies in a range already is not moved, and one that does not is
/// moved to the nearer end.
pub proof fn clamped_moves_to_nearer_end(a: Scalar, low: Scalar, high: Scalar)
    requires
        low.at_most(high),
    ensures
        low.at_most(a) && a.at_most(high) ==> a.clamped(low, high) == a,
        a.below(low) ==> a.clamped(low, high) == low,
        high.below(a) ==> a.clamped(low, high) == high,
        a.nan() ==> a.clamped(low, high) == a,
{
}

} // verus!
