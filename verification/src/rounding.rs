//! Correctly rounded arithmetic.
//!
//! The four basic operations of single-precision arithmetic give the number
//! nearest to the exact result, and of two that are as near, the even one.
//! [`correctly_rounded`] says so of an [`Arithmetic`]. It says nothing of the
//! sine, the cosine, the exponential or the roots. Laws that hold of machine
//! numbers for reasons of rounding alone are proved from it.

use vstd::prelude::*;
use vstd::arithmetic::power2::{
    lemma2_to64, lemma_pow2_adds, lemma_pow2_pos, lemma_pow2_strictly_increases, lemma_pow2_unfold, pow2,
};
use crate::math::Arithmetic;
use crate::scalar::{
    lemma_rank_orders, lemma_units_increase, units_of, Scalar, EIGHT, FRAC_PI_2, FRAC_PI_3, HALF, HUNDREDTH, MILLIONTH,
    MINUS_ONE, NEARLY_ONE, ONE, PI, TAU, TEN, THOUSANDTH, THREE, THREE_TENTHS, TWENTY, ZERO,
};

verus! {

/// The number one, in units of 2^-149.
pub open spec fn one_in_units() -> int {
    pow2(149) as int
}

/// How far two integers are apart.
pub open spec fn apart(a: int, b: int) -> int {
    if a <= b {
        b - a
    } else {
        a - b
    }
}

/// The number is nearest to `num / den` units, and even where another is as
/// near. Infinity counts as the number one step past the greatest finite one,
/// which is how results that are too great are rounded.
pub open spec fn nearest(r: Scalar, num: int, den: int) -> bool {
    &&& !r.nan()
    &&& forall|c: Scalar|
        #![trigger c.units()]
        !c.nan() ==> apart(r.units() * den, num) <= apart(c.units() * den, num)
    &&& forall|c: Scalar|
        #![trigger c.units()]
        !c.nan() && c.units() != r.units() && apart(r.units() * den, num) == apart(c.units() * den, num) ==> r.0 % 2
            == 0
}

/// The sum of two numbers is rounded correctly. A sum of zero is positive,
/// unless both numbers are negative.
pub open spec fn sum_is_rounded(on: Arithmetic, a: Scalar, b: Scalar) -> bool {
    let exact = a.units() + b.units();
    &&& nearest(on.sum(a, b), exact, 1)
    &&& exact == 0 ==> (on.sum(a, b).negative() <==> a.negative() && b.negative())
}

/// The product of two numbers is rounded correctly, with the sign of a product.
pub open spec fn product_is_rounded(on: Arithmetic, a: Scalar, b: Scalar) -> bool {
    &&& nearest(on.product(a, b), a.units() * b.units(), one_in_units())
    &&& on.product(a, b).negative() <==> a.negative() != b.negative()
}

/// The quotient of two numbers is rounded correctly, with the sign of a
/// quotient.
pub open spec fn quotient_is_rounded(on: Arithmetic, a: Scalar, b: Scalar) -> bool {
    &&& b.units() > 0 ==> nearest(on.quotient(a, b), a.units() * one_in_units(), b.units())
    &&& b.units() < 0 ==> nearest(on.quotient(a, b), -a.units() * one_in_units(), -b.units())
    &&& on.quotient(a, b).negative() <==> a.negative() != b.negative()
}

/// The four basic operations are rounded correctly on finite numbers, what is
/// not a number stays none, and an infinite number times a positive one stays
/// as it is.
pub open spec fn correctly_rounded(on: Arithmetic) -> bool {
    &&& forall|a: Scalar, b: Scalar|
        #![trigger on.sum(a, b)]
        a.finite() && b.finite() ==> sum_is_rounded(on, a, b)
    &&& forall|a: Scalar, b: Scalar|
        #![trigger on.difference(a, b)]
        b.finite() ==> on.difference(a, b) == on.sum(a, b.negated())
    &&& forall|a: Scalar, b: Scalar|
        #![trigger on.product(a, b)]
        a.finite() && b.finite() ==> product_is_rounded(on, a, b)
    &&& forall|a: Scalar, b: Scalar|
        #![trigger on.quotient(a, b)]
        a.finite() && b.finite() && b.units() != 0 ==> quotient_is_rounded(on, a, b)
    &&& forall|a: Scalar, b: Scalar|
        #![trigger on.sum(a, b)]
        a.nan() || b.nan() ==> on.sum(a, b).nan()
    &&& forall|a: Scalar, b: Scalar|
        #![trigger on.difference(a, b)]
        a.nan() || b.nan() ==> on.difference(a, b).nan()
    &&& forall|a: Scalar, b: Scalar|
        #![trigger on.product(a, b)]
        a.nan() || b.nan() ==> on.product(a, b).nan()
    &&& forall|a: Scalar, b: Scalar|
        #![trigger on.quotient(a, b)]
        a.nan() || b.nan() ==> on.quotient(a, b).nan()
    &&& forall|a: Scalar, b: Scalar|
        #![trigger on.product(a, b)]
        !a.nan() && !a.finite() && b.finite() && b.units() > 0 ==> on.product(a, b) == a
}

/// The same, as a fact to be handed on and not looked into.
#[verifier::opaque]
pub open spec fn rounds(on: Arithmetic) -> bool {
    correctly_rounded(on)
}

/// The number at a place in the order of all numbers.
pub open spec fn at_rank(rank: int) -> Scalar {
    if rank < 0 {
        Scalar((0x8000_0000 - rank) as u32)
    } else {
        Scalar(rank as u32)
    }
}

/// Multiplying by a positive number keeps the order.
proof fn lemma_scaled_order(a: int, b: int, d: int)
    by (nonlinear_arith)
    requires
        d > 0,
    ensures
        a < b <==> a * d < b * d,
        a == b <==> a * d == b * d,
{
}

/// Multiplication distributes over addition.
proof fn lemma_distribute(a: int, b: int, d: int)
    by (nonlinear_arith)
    ensures
        (a + b) * d == a * d + b * d,
        (a - b) * d == a * d - b * d,
{
}

/// Finite and infinite numbers are fixed by what they stand for and by their
/// sign.
pub proof fn units_and_sign_fix_bits(a: Scalar, b: Scalar)
    requires
        a.units() == b.units(),
        a.negative() == b.negative(),
    ensures
        a == b,
{
    lemma_rank_orders(a, b);
    lemma_rank_orders(b, a);
}

/// A number that is not zero has the sign of what it stands for.
pub proof fn sign_of_units(a: Scalar)
    ensures
        a.units() > 0 ==> !a.negative(),
        a.units() < 0 ==> a.negative(),
        a.units() == 0 <==> a.unsigned() == 0,
{
    assert(units_of(0) == 0);
    if 0 < a.unsigned() {
        lemma_units_increase(0, a.unsigned());
    }
}

/// What lies between two numbers is rounded to between them.
pub proof fn rounding_stays_between(r: Scalar, num: int, den: int, low: Scalar, high: Scalar)
    requires
        nearest(r, num, den),
        den > 0,
        !low.nan(),
        !high.nan(),
        low.units() * den <= num <= high.units() * den,
    ensures
        low.units() <= r.units() <= high.units(),
{
    lemma_scaled_order(r.units(), low.units(), den);
    lemma_scaled_order(high.units(), r.units(), den);
}

/// What is no less than a number is not rounded to below it.
pub proof fn rounding_stays_above(r: Scalar, num: int, den: int, low: Scalar)
    requires
        nearest(r, num, den),
        den > 0,
        !low.nan(),
        low.units() * den <= num,
    ensures
        low.units() <= r.units(),
{
    if r.units() < low.units() {
        assert(r.units() * den < low.units() * den) by (nonlinear_arith)
            requires
                r.units() < low.units(),
                den > 0,
        ;
    }
}

/// What is a number already is not changed by rounding.
pub proof fn rounding_keeps_numbers(r: Scalar, num: int, den: int, c: Scalar)
    requires
        nearest(r, num, den),
        den > 0,
        !c.nan(),
        c.units() * den == num,
    ensures
        r.units() == c.units(),
{
    lemma_scaled_order(r.units(), c.units(), den);
}

/// Rounding keeps the order.
pub proof fn rounding_keeps_order(r: Scalar, num: int, den: int, s: Scalar, num2: int, den2: int)
    requires
        nearest(r, num, den),
        nearest(s, num2, den2),
        den > 0,
        den2 > 0,
        num * den2 <= num2 * den,
    ensures
        r.units() <= s.units(),
{
    if s.units() < r.units() {
        let (p, q) = (r.units(), s.units());
        lemma_scaled_order(q, p, den);
        lemma_scaled_order(q, p, den2);
        lemma_distribute(p, q, den);
        lemma_distribute(p, q, den2);
        assert(2 * num >= (p + q) * den);
        assert(2 * num2 <= (p + q) * den2);
        assert(2 * num == (p + q) * den && 2 * num2 == (p + q) * den2) by {
            let m = p + q;
            assert(2 * num * den2 >= m * den * den2) by (nonlinear_arith)
                requires
                    2 * num >= m * den,
                    den2 > 0,
            ;
            assert(2 * num2 * den <= m * den2 * den) by (nonlinear_arith)
                requires
                    2 * num2 <= m * den2,
                    den > 0,
            ;
            assert(m * den2 * den == m * den * den2) by (nonlinear_arith);
            assert(2 * num * den2 == 2 * (num * den2)) by (nonlinear_arith);
            assert(2 * num2 * den == 2 * (num2 * den)) by (nonlinear_arith);
            assert(2 * num * den2 == m * den * den2);
            lemma_scaled_order(2 * num, m * den, den2);
            lemma_scaled_order(2 * num2, m * den2, den);
        }
        lemma_rank_orders(s, r);
        assert(r.0 % 2 == 0 && s.0 % 2 == 0);
        let c = at_rank(s.ranked() + 1);
        assert(s.ranked() + 2 <= r.ranked());
        assert(c.ranked() == s.ranked() + 1);
        assert(!c.nan());
        lemma_rank_orders(s, c);
        lemma_rank_orders(c, r);
        lemma_scaled_order(q, c.units(), den);
        lemma_scaled_order(c.units(), p, den);
        assert(apart(c.units() * den, num) < apart(p * den, num));
    }
}

/// One result is nearest.
pub proof fn rounding_is_unique(r: Scalar, s: Scalar, num: int, den: int)
    requires
        nearest(r, num, den),
        nearest(s, num, den),
        den > 0,
    ensures
        r.units() == s.units(),
{
    rounding_keeps_order(r, num, den, s, num, den);
    rounding_keeps_order(s, num, den, r, num, den);
}

/// Neighbouring numbers are one unit apart, or closer than one in 2^23.
proof fn lemma_spacing(bits: int)
    requires
        0 <= bits,
    ensures
        ({
            let gap = units_of(bits + 1) - units_of(bits);
            gap == 1 || 0x80_0000 * gap <= units_of(bits)
        }),
{
    let (e, f) = (bits / 0x80_0000, bits % 0x80_0000);
    lemma2_to64();
    if e > 0 {
        let scale = pow2((e - 1) as nat);
        lemma_pow2_pos((e - 1) as nat);
        if f + 1 < 0x80_0000 {
            assert((bits + 1) / 0x80_0000 == e && (bits + 1) % 0x80_0000 == f + 1);
        } else {
            assert((bits + 1) / 0x80_0000 == e + 1 && (bits + 1) % 0x80_0000 == 0);
            lemma_pow2_unfold(e as nat);
            assert(units_of(bits + 1) == 0x80_0000 * pow2(e as nat));
            assert((0x80_0000 + f + 1) * scale == 0x80_0000 * (2 * scale)) by (nonlinear_arith)
                requires
                    f + 1 == 0x80_0000,
            ;
        }
        assert(units_of(bits + 1) == (0x80_0000 + f + 1) * scale);
        assert((0x80_0000 + f + 1) * scale - (0x80_0000 + f) * scale == scale) by (nonlinear_arith);
        assert(0x80_0000 * scale <= (0x80_0000 + f) * scale) by (nonlinear_arith)
            requires
                f >= 0,
                scale > 0,
        ;
    } else if f + 1 == 0x80_0000 {
        assert((bits + 1) / 0x80_0000 == 1 && (bits + 1) % 0x80_0000 == 0);
        assert(units_of(bits + 1) == 0x80_0000 * pow2(0));
    } else {
        assert((bits + 1) / 0x80_0000 == 0);
    }
}

/// The greatest number that does not exceed `num / den` units, by its bits.
proof fn lemma_floor(num: int, den: int, top: int) -> (bits: int)
    requires
        0 <= num,
        den > 0,
        0 <= top <= 0x7f80_0000,
        num < units_of(top) * den,
    ensures
        0 <= bits < top,
        units_of(bits) * den <= num < units_of(bits + 1) * den,
    decreases top,
{
    assert(units_of(0) == 0);
    assert(top == 0 ==> units_of(top) * den == 0) by (nonlinear_arith)
        requires
            units_of(0) == 0,
    ;
    if units_of(top - 1) * den <= num {
        top - 1
    } else {
        lemma_floor(num, den, top - 1)
    }
}

/// A result that is not too great is off by less than one unit, or by no more
/// than one in 2^23.
pub proof fn rounding_error(r: Scalar, num: int, den: int)
    requires
        nearest(r, num, den),
        den > 0,
        0 <= num < units_of(0x7f80_0000) * den,
    ensures
        apart(r.units() * den, num) < den || 0x80_0000 * apart(r.units() * den, num) <= num,
{
    let bits = lemma_floor(num, den, 0x7f80_0000);
    let c = Scalar(bits as u32);
    assert(c.units() == units_of(bits));
    let gap = units_of(bits + 1) - units_of(bits);
    lemma_spacing(bits);
    lemma_distribute(units_of(bits), gap, den);
    let off = num - c.units() * den;
    assert(apart(r.units() * den, num) <= off < gap * den);
    if gap != 1 {
        assert(0x80_0000 * (gap * den) <= units_of(bits) * den) by (nonlinear_arith)
            requires
                0x80_0000 * gap <= units_of(bits),
                den > 0,
        ;
    }
}

/// A sum, and a result that is not too small, is off by no more than one in
/// 2^24.
pub proof fn relative_error(r: Scalar, num: int, den: int)
    requires
        nearest(r, num, den),
        r.finite(),
        den > 0,
        0 <= num,
        den == 1 || 0x100_0000 <= r.unsigned(),
    ensures
        0x100_0000 * apart(r.units() * den, num) <= num,
        0 <= r.units(),
{
    let infinity = Scalar(0x7f80_0000);
    let floor = Scalar(0x80_0000);
    assert(units_of(0) == 0);
    assert(Scalar(ZERO).units() * den == 0) by (nonlinear_arith)
        requires
            Scalar(ZERO).units() == 0,
    ;
    rounding_stays_above(r, num, den, Scalar(ZERO));
    assert(num < units_of(0x7f80_0000) * den) by {
        if infinity.units() * den <= num {
            rounding_stays_above(r, num, den, infinity);
            lemma_rank_orders(r, infinity);
        }
    }
    let bits = lemma_floor(num, den, 0x7f80_0000);
    let (c, d) = (Scalar(bits as u32), Scalar((bits + 1) as u32));
    assert(c.units() == units_of(bits) && d.units() == units_of(bits + 1));
    let gap = units_of(bits + 1) - units_of(bits);
    let off = apart(r.units() * den, num);
    lemma_spacing(bits);
    lemma_distribute(units_of(bits), gap, den);
    assert(off <= apart(c.units() * den, num) && off <= apart(d.units() * den, num));
    assert(2 * off <= gap * den);
    if gap == 1 {
        if den != 1 {
            lemma_small_units(0x80_0000);
            lemma_small_units(0x100_0000 - 1);
            assert(0x80_0000 * den <= num) by {
                if num < floor.units() * den {
                    rounding_stays_between(r, num, den, Scalar(ZERO), floor);
                    lemma_rank_orders(floor, r);
                    sign_of_units(r);
                }
            }
            let least = units_of(bits);
            assert(least >= 0x80_0000) by (nonlinear_arith)
                requires
                    0x80_0000 * den <= num,
                    num < (least + 1) * den,
                    den > 0,
            ;
            assert(0x80_0000 * den <= least * den) by (nonlinear_arith)
                requires
                    least >= 0x80_0000,
                    den > 0,
            ;
        }
    } else {
        assert(0x80_0000 * (gap * den) <= units_of(bits) * den) by (nonlinear_arith)
            requires
                0x80_0000 * gap <= units_of(bits),
                den > 0,
        ;
    }
}

/// A sum of numbers that are not negative is off by no more than half a step of
/// the numbers of its size.
pub proof fn half_step_error(r: Scalar, num: int, e: nat)
    requires
        nearest(r, num, 1),
        r.finite(),
        0 <= num < pow2(e + 24),
    ensures
        2 * apart(r.units(), num) <= pow2(e),
{
    let infinity = Scalar(0x7f80_0000);
    assert(r.units() * 1 == r.units());
    assert(num < units_of(0x7f80_0000) * 1) by {
        if infinity.units() * 1 <= num {
            rounding_stays_above(r, num, 1, infinity);
            lemma_rank_orders(r, infinity);
        }
    }
    let bits = lemma_floor(num, 1, 0x7f80_0000);
    let (c, d) = (Scalar(bits as u32), Scalar((bits + 1) as u32));
    assert(c.units() == units_of(bits) && d.units() == units_of(bits + 1));
    let gap = units_of(bits + 1) - units_of(bits);
    assert(apart(r.units() * 1, num) <= apart(c.units() * 1, num));
    assert(apart(r.units() * 1, num) <= apart(d.units() * 1, num));
    assert(2 * apart(r.units(), num) <= gap);
    lemma_gap(bits, e);
}

/// Below 2^(e + 24) units, neighbouring numbers are at most 2^e apart.
proof fn lemma_gap(bits: int, e: nat)
    requires
        0 <= bits,
        units_of(bits) < pow2(e + 24),
    ensures
        units_of(bits + 1) - units_of(bits) <= pow2(e),
{
    let (x, f) = (bits / 0x80_0000, bits % 0x80_0000);
    lemma2_to64();
    lemma_pow2_pos(e);
    if x > 0 {
        let scale = pow2((x - 1) as nat);
        lemma_pow2_pos((x - 1) as nat);
        lemma_pow2_adds(23, (x - 1) as nat);
        assert(0x80_0000 * scale <= (0x80_0000 + f) * scale) by (nonlinear_arith)
            requires
                f >= 0,
                scale > 0,
        ;
        assert(pow2((x + 22) as nat) < pow2(e + 24));
        if x + 22 >= e + 24 {
            if x + 22 > e + 24 {
                lemma_pow2_strictly_increases(e + 24, (x + 22) as nat);
            }
            assert(false);
        }
        if x - 1 < e {
            lemma_pow2_strictly_increases((x - 1) as nat, e);
        }
        assert(scale <= pow2(e));
        if f + 1 < 0x80_0000 {
            assert((bits + 1) / 0x80_0000 == x && (bits + 1) % 0x80_0000 == f + 1);
        } else {
            assert((bits + 1) / 0x80_0000 == x + 1 && (bits + 1) % 0x80_0000 == 0);
            lemma_pow2_unfold(x as nat);
            assert(units_of(bits + 1) == 0x80_0000 * pow2(x as nat));
            assert((0x80_0000 + f + 1) * scale == 0x80_0000 * (2 * scale)) by (nonlinear_arith)
                requires
                    f + 1 == 0x80_0000,
            ;
        }
        assert(units_of(bits + 1) == (0x80_0000 + f + 1) * scale);
        assert((0x80_0000 + f + 1) * scale - (0x80_0000 + f) * scale == scale) by (nonlinear_arith);
    } else if f + 1 == 0x80_0000 {
        assert((bits + 1) / 0x80_0000 == 1 && (bits + 1) % 0x80_0000 == 0);
        assert(units_of(bits + 1) == 0x80_0000 * pow2(0));
    } else {
        assert((bits + 1) / 0x80_0000 == 0);
    }
}

/// Half of a number that is not small stands for half as much.
pub proof fn halved_is_half(a: Scalar)
    requires
        0x100_0000 <= a.unsigned() <= 0x7f80_0000,
        !a.negative(),
    ensures
        2 * halved(a).units() == a.units(),
        halved(a).finite(),
        !halved(a).negative(),
{
    let h = halved(a);
    assert(h.unsigned() == a.unsigned() - 0x80_0000);
    twice_is_double(h);
    assert(twice(h) == a);
}

/// What some of the constants stand for.
pub proof fn constants_in_units()
    ensures
        Scalar(ZERO).units() == 0,
        Scalar(ONE).units() == one_in_units(),
        2 * Scalar(HALF).units() == one_in_units(),
        Scalar(FRAC_PI_2).units() == 0xc9_0fdb * pow2(126),
        one_in_units() == 0x80_0000 * pow2(126),
        one_in_units() > 0,
{
    lemma2_to64();
    lemma_pow2_adds(23, 126);
    lemma_pow2_adds(23, 125);
    lemma_pow2_unfold(149);
    lemma_pow2_pos(149);
    assert(Scalar(ONE).unsigned() / 0x80_0000 == 127 && Scalar(ONE).unsigned() % 0x80_0000 == 0);
    assert(Scalar(HALF).unsigned() / 0x80_0000 == 126 && Scalar(HALF).unsigned() % 0x80_0000 == 0);
    assert(Scalar(FRAC_PI_2).unsigned() / 0x80_0000 == 127 && Scalar(FRAC_PI_2).unsigned() % 0x80_0000 == 0x49_0fdb);
}

/// A finite number that is not zero, divided by itself, is one.
pub proof fn quotient_by_itself(on: Arithmetic, a: Scalar)
    requires
        correctly_rounded(on),
        a.finite(),
        a.units() > 0,
    ensures
        on.quotient(a, a) == Scalar(ONE),
{
    constants_in_units();
    assert(quotient_is_rounded(on, a, a));
    assert(Scalar(ONE).units() * a.units() == a.units() * one_in_units()) by (nonlinear_arith)
        requires
            Scalar(ONE).units() == one_in_units(),
    ;
    rounding_keeps_numbers(on.quotient(a, a), a.units() * one_in_units(), a.units(), Scalar(ONE));
    units_and_sign_fix_bits(on.quotient(a, a), Scalar(ONE));
}

/// Multiplying by one changes no number.
pub proof fn product_with_one(on: Arithmetic, a: Scalar)
    requires
        correctly_rounded(on),
        !a.nan(),
    ensures
        on.product(a, Scalar(ONE)) == a,
{
    constants_in_units();
    if a.finite() {
        assert(product_is_rounded(on, a, Scalar(ONE)));
        rounding_keeps_numbers(on.product(a, Scalar(ONE)), a.units() * one_in_units(), one_in_units(), a);
        units_and_sign_fix_bits(on.product(a, Scalar(ONE)), a);
    }
}

/// Twice a number, by its bits. Meant for numbers below half of infinity.
pub open spec fn twice(a: Scalar) -> Scalar {
    let double = if a.unsigned() < 0x80_0000 {
        2 * a.unsigned()
    } else {
        a.unsigned() + 0x80_0000
    };
    if a.negative() {
        Scalar((0x8000_0000 + double) as u32)
    } else {
        Scalar(double as u32)
    }
}

/// Half of a number, by its bits. Meant for numbers of at least 2^24 units.
pub open spec fn halved(a: Scalar) -> Scalar {
    Scalar((a.0 - 0x80_0000) as u32)
}

/// Twice a number stands for twice as much, and keeps its sign.
pub proof fn twice_is_double(a: Scalar)
    requires
        a.unsigned() <= 0x7f00_0000,
    ensures
        twice(a).units() == 2 * a.units(),
        twice(a).negative() == a.negative(),
        !twice(a).nan(),
        a.unsigned() < 0x7f00_0000 ==> twice(a).finite(),
{
    let (e, f) = (a.unsigned() / 0x80_0000, a.unsigned() % 0x80_0000);
    lemma2_to64();
    let double = twice(a).unsigned();
    if e == 0 {
        assert(double == 2 * f);
        if 2 * f >= 0x80_0000 {
            assert(double / 0x80_0000 == 1 && double % 0x80_0000 == 2 * f - 0x80_0000);
            assert(units_of(double) == (2 * f) * pow2(0));
            assert((2 * f) * pow2(0) == 2 * f) by (nonlinear_arith)
                requires
                    pow2(0) == 1,
            ;
        }
        assert(units_of(double) == 2 * units_of(a.unsigned()));
    } else {
        assert(double / 0x80_0000 == e + 1 && double % 0x80_0000 == f);
        lemma_pow2_unfold(e as nat);
        let scale = pow2((e - 1) as nat);
        assert((0x80_0000 + f) * (2 * scale) == 2 * ((0x80_0000 + f) * scale)) by (nonlinear_arith);
        assert(units_of(double) == (0x80_0000 + f) * pow2(e as nat));
    }
}

/// Flipping the sign of what is rounded flips the sign of the result.
pub(crate) proof fn lemma_negated_nearest(r: Scalar, num: int, den: int)
    requires
        nearest(r, num, den),
    ensures
        nearest(r.negated(), -num, den),
{
    let s = r.negated();
    assert(s.units() * den == -(r.units() * den)) by (nonlinear_arith)
        requires
            s.units() == -r.units(),
    ;
    assert forall|c: Scalar| !c.nan() implies ({
        &&& apart(s.units() * den, -num) <= apart(#[trigger] c.units() * den, -num)
        &&& c.units() != s.units() && apart(s.units() * den, -num) == apart(c.units() * den, -num) ==> s.0 % 2 == 0
    }) by {
        let d = c.negated();
        assert(c.units() * den == -(d.units() * den)) by (nonlinear_arith)
            requires
                c.units() == -d.units(),
        ;
    }
}

/// Small bit patterns count units.
proof fn lemma_small_units(bits: int)
    requires
        0 <= bits < 0x100_0000,
    ensures
        units_of(bits) == bits,
{
    lemma2_to64();
    if bits >= 0x80_0000 {
        let f = bits % 0x80_0000;
        assert(bits / 0x80_0000 == 1 && 0x80_0000 + f == bits);
        assert((0x80_0000 + f) * pow2(0) == 0x80_0000 + f) by (nonlinear_arith)
            requires
                pow2(0) == 1,
        ;
    }
}

/// Twice a positive result of some size is the result for twice as much.
proof fn lemma_twice_nearest_positive(r: Scalar, num: int, den: int)
    requires
        nearest(r, num, den),
        den > 0,
        !r.negative(),
        0x100_0000 <= r.unsigned() < 0x7f00_0000,
    ensures
        nearest(twice(r), 2 * num, den),
{
    let s = twice(r);
    twice_is_double(r);
    let p = r.units();
    assert(s.units() * den == 2 * (p * den)) by (nonlinear_arith)
        requires
            s.units() == 2 * p,
    ;
    let (floor, below) = (Scalar(0x80_0000), Scalar(0xff_ffff));
    lemma_small_units(0x80_0000);
    lemma_small_units(0xff_ffff);
    lemma_rank_orders(below, r);
    assert(floor.units() == 0x80_0000 && below.units() == 0xff_ffff && below.units() < p);
    lemma_scaled_order(below.units(), p, den);
    assert(apart(p * den, num) <= apart(below.units() * den, num));
    assert(p * den >= 0x100_0000 * den) by (nonlinear_arith)
        requires
            p >= 0x100_0000,
            den > 0,
    ;
    assert(below.units() * den == 0xff_ffff * den && floor.units() * den == 0x80_0000 * den);
    assert(2 * num >= 0x1ff_ffff * den);
    assert(apart(p * den, num) <= apart(floor.units() * den, num));
    assert forall|c: Scalar| !c.nan() implies ({
        &&& apart(s.units() * den, 2 * num) <= apart(#[trigger] c.units() * den, 2 * num)
        &&& c.units() != s.units() && apart(s.units() * den, 2 * num) == apart(c.units() * den, 2 * num) ==> s.0 % 2
            == 0
    }) by {
        if c.unsigned() >= 0x100_0000 {
            let h = halved(c);
            assert(h.unsigned() == c.unsigned() - 0x80_0000);
            twice_is_double(h);
            assert(twice(h) == c);
            assert(c.units() * den == 2 * (h.units() * den)) by (nonlinear_arith)
                requires
                    c.units() == 2 * h.units(),
            ;
            assert(apart(p * den, num) <= apart(h.units() * den, num));
        } else {
            lemma_small_units(c.unsigned());
            assert(c.units() * den < 0x100_0000 * den) by (nonlinear_arith)
                requires
                    c.units() < 0x100_0000,
                    den > 0,
            ;
        }
    }
}

/// Twice a result of some size is the result for twice as much.
proof fn lemma_twice_nearest(r: Scalar, num: int, den: int)
    requires
        nearest(r, num, den),
        den > 0,
        0x100_0000 <= r.unsigned() < 0x7f00_0000,
    ensures
        nearest(twice(r), 2 * num, den),
{
    if r.negative() {
        lemma_negated_nearest(r, num, den);
        lemma_twice_nearest_positive(r.negated(), -num, den);
        lemma_negated_nearest(twice(r.negated()), 2 * -num, den);
        assert(twice(r.negated()).negated() == twice(r));
        assert(-(2 * -num) == 2 * num);
    } else {
        lemma_twice_nearest_positive(r, num, den);
    }
}

/// The result for twice as much is twice the result, where the result is of
/// some size or nothing was rounded to zero.
proof fn lemma_twice_result(r: Scalar, s: Scalar, num: int, den: int)
    requires
        nearest(r, num, den),
        nearest(s, 2 * num, den),
        den > 0,
        r.negative() == s.negative(),
        num == 0 || 0x100_0000 <= r.unsigned() < 0x7f00_0000,
    ensures
        s == twice(r),
{
    if num == 0 {
        assert(units_of(0) == 0);
        let zero = Scalar(ZERO);
        assert(zero.units() * den == 0) by (nonlinear_arith)
            requires
                zero.units() == 0,
        ;
        rounding_keeps_numbers(r, num, den, zero);
        rounding_keeps_numbers(s, 2 * num, den, zero);
        sign_of_units(r);
        twice_is_double(r);
    } else {
        lemma_twice_nearest(r, num, den);
        rounding_is_unique(s, twice(r), 2 * num, den);
        twice_is_double(r);
    }
    units_and_sign_fix_bits(s, twice(r));
}

/// Twice two numbers have twice their sum, unless it overflows.
pub proof fn sum_of_twice(on: Arithmetic, a: Scalar, b: Scalar)
    requires
        correctly_rounded(on),
        a.unsigned() < 0x7f00_0000,
        b.unsigned() < 0x7f00_0000,
        on.sum(a, b).units() == 0 || 0x100_0000 <= on.sum(a, b).unsigned() < 0x7f00_0000,
    ensures
        on.sum(twice(a), twice(b)) == twice(on.sum(a, b)),
{
    twice_is_double(a);
    twice_is_double(b);
    let (r, s) = (on.sum(a, b), on.sum(twice(a), twice(b)));
    let exact = a.units() + b.units();
    assert(sum_is_rounded(on, a, b));
    assert(sum_is_rounded(on, twice(a), twice(b)));
    sign_of_units(r);
    sign_of_units(s);
    if r.units() == 0 && exact != 0 {
        let c = if exact > 0 {
            Scalar(1)
        } else {
            Scalar(0x8000_0001)
        };
        lemma_small_units(1);
        assert(c.units() == 1 || c.units() == -1);
        assert(false);
    }
    if exact != 0 {
        lemma_twice_nearest(r, exact, 1);
        rounding_is_unique(s, twice(r), 2 * exact, 1);
        twice_is_double(r);
    }
    lemma_twice_result(r, s, exact, 1);
}

/// The product with twice a number is twice the product, unless it overflows
/// or underflows.
pub proof fn product_of_twice(on: Arithmetic, a: Scalar, b: Scalar)
    requires
        correctly_rounded(on),
        a.unsigned() < 0x7f00_0000,
        b.unsigned() < 0x7f00_0000,
        a.units() == 0 || b.units() == 0 || 0x100_0000 <= on.product(a, b).unsigned() < 0x7f00_0000,
    ensures
        on.product(twice(a), b) == twice(on.product(a, b)),
        on.product(a, twice(b)) == twice(on.product(a, b)),
{
    constants_in_units();
    twice_is_double(a);
    twice_is_double(b);
    let exact = a.units() * b.units();
    assert((2 * a.units()) * b.units() == 2 * exact && a.units() * (2 * b.units()) == 2 * exact) by (nonlinear_arith)
        requires
            exact == a.units() * b.units(),
    ;
    assert(a.units() == 0 || b.units() == 0 ==> exact == 0) by (nonlinear_arith)
        requires
            exact == a.units() * b.units(),
    ;
    assert(product_is_rounded(on, a, b));
    assert(product_is_rounded(on, twice(a), b));
    assert(product_is_rounded(on, a, twice(b)));
    lemma_twice_result(on.product(a, b), on.product(twice(a), b), exact, one_in_units());
    lemma_twice_result(on.product(a, b), on.product(a, twice(b)), exact, one_in_units());
}

/// The quotient of twice a number is twice the quotient, unless it overflows
/// or underflows.
pub proof fn quotient_of_twice(on: Arithmetic, a: Scalar, b: Scalar)
    requires
        correctly_rounded(on),
        a.unsigned() < 0x7f00_0000,
        b.finite(),
        b.units() > 0,
        a.units() == 0 || 0x100_0000 <= on.quotient(a, b).unsigned() < 0x7f00_0000,
    ensures
        on.quotient(twice(a), b) == twice(on.quotient(a, b)),
{
    twice_is_double(a);
    let exact = a.units() * one_in_units();
    assert((2 * a.units()) * one_in_units() == 2 * exact) by (nonlinear_arith)
        requires
            exact == a.units() * one_in_units(),
    ;
    assert(a.units() == 0 ==> exact == 0) by (nonlinear_arith)
        requires
            exact == a.units() * one_in_units(),
    ;
    assert(quotient_is_rounded(on, a, b));
    assert(quotient_is_rounded(on, twice(a), b));
    lemma_twice_result(on.quotient(a, b), on.quotient(twice(a), b), exact, b.units());
}

/// Zero, divided by a positive number, is zero.
pub proof fn quotient_of_zero(on: Arithmetic, a: Scalar, b: Scalar)
    requires
        correctly_rounded(on),
        a.finite(),
        a.units() == 0,
        b.finite(),
        b.units() > 0,
    ensures
        on.quotient(a, b).units() == 0,
{
    assert(quotient_is_rounded(on, a, b));
    assert(units_of(0) == 0);
    let zero = Scalar(ZERO);
    assert(zero.units() * b.units() == 0 && a.units() * one_in_units() == 0) by (nonlinear_arith)
        requires
            zero.units() == 0,
            a.units() == 0,
    ;
    rounding_keeps_numbers(on.quotient(a, b), a.units() * one_in_units(), b.units(), zero);
}

/// A product with zero is zero.
pub proof fn product_of_zero(on: Arithmetic, a: Scalar, b: Scalar)
    requires
        correctly_rounded(on),
        a.finite(),
        b.finite(),
        a.units() == 0 || b.units() == 0,
    ensures
        on.product(a, b).units() == 0,
{
    constants_in_units();
    assert(product_is_rounded(on, a, b));
    let zero = Scalar(ZERO);
    assert(zero.units() * one_in_units() == 0 && a.units() * b.units() == 0) by (nonlinear_arith)
        requires
            zero.units() == 0,
            a.units() == 0 || b.units() == 0,
    ;
    rounding_keeps_numbers(on.product(a, b), a.units() * b.units(), one_in_units(), zero);
}

/// What a constant stands for, in units of 2^-43, by its exponent and fraction.
proof fn lemma_constant(bits: u32, exponent: nat, fraction: int, scale: int, u: int, k: int)
    requires
        bits < 0x7f80_0000,
        bits as int / 0x80_0000 == exponent + 107,
        bits as int % 0x80_0000 == fraction,
        exponent <= 24,
        pow2(exponent) == scale,
        pow2(106) == u,
        (0x80_0000 + fraction) * scale == k,
    ensures
        Scalar(bits).units() == k * u,
{
    lemma_pow2_adds(exponent, 106);
    let g = 0x80_0000 + fraction;
    assert(Scalar(bits).units() == g * pow2(exponent + 106));
    assert(g * (scale * u) == (g * scale) * u) by (nonlinear_arith);
}

/// The constants are what their names say, but for one part in ten million where
/// a number cannot be held exactly.
pub proof fn constants_are_what_they_say()
    ensures
        Scalar(ZERO).units() == 0,
        Scalar(ONE).units() == one_in_units(),
        Scalar(MINUS_ONE).units() == -one_in_units(),
        Scalar(THREE).units() == 3 * one_in_units(),
        Scalar(EIGHT).units() == 8 * one_in_units(),
        Scalar(TEN).units() == 10 * one_in_units(),
        Scalar(TWENTY).units() == 20 * one_in_units(),
        2 * Scalar(HALF).units() == one_in_units(),
        10_000_000 * apart(10 * Scalar(THREE_TENTHS).units(), 3 * one_in_units()) <= 3 * one_in_units(),
        10_000_000 * apart(100 * Scalar(HUNDREDTH).units(), one_in_units()) <= one_in_units(),
        10_000_000 * apart(1000 * Scalar(THOUSANDTH).units(), one_in_units()) <= one_in_units(),
        10_000_000 * apart(1_000_000 * Scalar(MILLIONTH).units(), one_in_units()) <= one_in_units(),
        10_000_000 * apart(100 * Scalar(NEARLY_ONE).units(), 99 * one_in_units()) <= 99 * one_in_units(),
        31_415_926 * one_in_units() <= 10_000_000 * Scalar(PI).units() <= 31_415_928 * one_in_units(),
        Scalar(TAU).units() == 2 * Scalar(PI).units(),
        2 * Scalar(FRAC_PI_2).units() == Scalar(PI).units(),
        10_000_000 * apart(3 * Scalar(FRAC_PI_3).units(), Scalar(PI).units()) <= Scalar(PI).units(),
{
    constants_in_units();
    lemma2_to64();
    lemma_pow2_pos(106);
    let u = pow2(106) as int;
    lemma_constant(ONE, 20, 0, 0x10_0000, u, 0x800_0000_0000);
    lemma_constant(THREE, 21, 0x40_0000, 0x20_0000, u, 0x1800_0000_0000);
    lemma_constant(EIGHT, 23, 0, 0x80_0000, u, 0x4000_0000_0000);
    lemma_constant(TEN, 23, 0x20_0000, 0x80_0000, u, 0x5000_0000_0000);
    lemma_constant(TWENTY, 24, 0x20_0000, 0x100_0000, u, 0xa000_0000_0000);
    lemma_constant(THREE_TENTHS, 18, 0x19_999a, 0x4_0000, u, 0x266_6668_0000);
    lemma_constant(HUNDREDTH, 13, 0x23_d70a, 0x2000, u, 0x14_7ae1_4000);
    lemma_constant(THOUSANDTH, 10, 0x3_126f, 0x400, u, 0x2_0c49_bc00);
    lemma_constant(MILLIONTH, 0, 0x6_37bd, 1, u, 0x86_37bd);
    lemma_constant(NEARLY_ONE, 19, 0x7d_70a4, 0x8_0000, u, 0x7eb_8520_0000);
    lemma_constant(PI, 21, 0x49_0fdb, 0x20_0000, u, 0x1921_fb60_0000);
    lemma_constant(TAU, 22, 0x49_0fdb, 0x40_0000, u, 0x3243_f6c0_0000);
    lemma_constant(FRAC_PI_2, 20, 0x49_0fdb, 0x10_0000, u, 0xc90_fdb0_0000);
    lemma_constant(FRAC_PI_3, 20, 0x6_0a92, 0x10_0000, u, 0x860_a920_0000);
    assert(Scalar(MINUS_ONE).units() == -one_in_units());
}

} // verus!
