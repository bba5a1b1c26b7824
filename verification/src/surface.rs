//! Where the surface of a blob lies: heights follow the angle to each bump.

use vstd::prelude::*;
use crate::bend::weight;
use crate::blob::{alignment, height, radius};
use crate::bump::{on_sphere, BumpParams};
use crate::math::{Arithmetic, Vector};
use crate::ordering::{
    exponential_rises, products_are_ordered, quotients_are_ordered, radius_is_finite, rises_towards, sums_are_ordered,
};
use crate::perpendicular::{dot, lemma_magnitude, lemma_mean_of_squares, sized};
use crate::rounding::{
    constants_in_units, correctly_rounded, lemma_negated_nearest, nearest, one_in_units, product_is_rounded,
    quotient_is_rounded, relative_error, rounding_error, rounding_keeps_numbers, rounding_stays_between, rounds,
    sign_of_units, sum_is_rounded,
};
use crate::scalar::{lemma_rank_orders, negation_negates, units_of, Scalar, MINUS_ONE, ONE, ZERO};
use crate::tolerance::{lemma_signed, magnitude, nearly_unit, squared_length, PARTS};

verus! {

/// A result of either sign is finite and off by less than one unit, or by no
/// more than one in 2^23, unless it is great.
pub(crate) proof fn lemma_any_result(r: Scalar, num: int, den: int, bound: Scalar)
    requires
        nearest(r, num, den),
        den > 0,
        bound.finite(),
        magnitude(num) <= bound.units() * den,
    ensures
        r.finite(),
        magnitude(r.units()) <= bound.units(),
        PARTS * magnitude(r.units() * den - num) <= 2048 * magnitude(num) + PARTS * den,
        num >= 0 ==> r.units() >= 0,
        num <= 0 ==> r.units() <= 0,
{
    if num < 0 {
        negation_negates(r);
        lemma_negated_nearest(r, num, den);
        lemma_positive_result(r.negated(), -num, den, bound);
        assert(r.negated().units() * den == -(r.units() * den)) by (nonlinear_arith)
            requires
                r.negated().units() == -r.units(),
        ;
    } else {
        lemma_positive_result(r, num, den, bound);
        if num == 0 {
            assert(units_of(0) == 0);
            assert(Scalar(ZERO).units() * den == 0) by (nonlinear_arith)
                requires
                    Scalar(ZERO).units() == 0,
            ;
            rounding_keeps_numbers(r, num, den, Scalar(ZERO));
        }
    }
}

/// The same of a result that is not negative.
proof fn lemma_positive_result(r: Scalar, num: int, den: int, bound: Scalar)
    requires
        nearest(r, num, den),
        den > 0,
        bound.finite(),
        0 <= num <= bound.units() * den,
    ensures
        r.finite(),
        0 <= r.units() <= bound.units(),
        PARTS * magnitude(r.units() * den - num) <= 2048 * num + PARTS * den,
{
    let infinity = Scalar(0x7f80_0000);
    assert(units_of(0) == 0);
    assert(Scalar(ZERO).units() * den == 0) by (nonlinear_arith)
        requires
            Scalar(ZERO).units() == 0,
    ;
    rounding_stays_between(r, num, den, Scalar(ZERO), bound);
    lemma_rank_orders(bound, r);
    lemma_rank_orders(bound, infinity);
    sign_of_units(r);
    assert(bound.units() * den < infinity.units() * den) by (nonlinear_arith)
        requires
            bound.units() < infinity.units(),
            den > 0,
    ;
    assert(infinity.units() == units_of(0x7f80_0000));
    rounding_error(r, num, den);
}

/// The number four.
proof fn lemma_four()
    ensures
        Scalar(0x4080_0000).finite(),
        Scalar(0x4080_0000).units() == 4 * one_in_units(),
{
    constants_in_units();
    vstd::arithmetic::power2::lemma2_to64();
    vstd::arithmetic::power2::lemma_pow2_unfold(127);
    vstd::arithmetic::power2::lemma_pow2_unfold(128);
    assert(Scalar(0x4080_0000).unsigned() / 0x80_0000 == 129 && Scalar(0x4080_0000).unsigned() % 0x80_0000 == 0);
}

/// A product of no more than four.
pub(crate) proof fn lemma_any_product(on: Arithmetic, a: Scalar, b: Scalar)
    requires
        rounds(on),
        a.finite(),
        b.finite(),
        magnitude(a.units() * b.units()) <= 4 * (one_in_units() * one_in_units()),
    ensures
        ({
            let (r, n) = (on.product(a, b), one_in_units());
            &&& r.finite()
            &&& magnitude(r.units()) <= 4 * n
            &&& PARTS * magnitude(r.units() * n - a.units() * b.units()) <= 2048 * magnitude(a.units() * b.units())
                + PARTS * n
        }),
{
    reveal(rounds);
    constants_in_units();
    lemma_four();
    let n = one_in_units();
    assert(product_is_rounded(on, a, b));
    assert((4 * n) * n == 4 * (n * n)) by (nonlinear_arith);
    lemma_any_result(on.product(a, b), a.units() * b.units(), n, Scalar(0x4080_0000));
}

/// A sum of no more than four.
proof fn lemma_any_sum(on: Arithmetic, a: Scalar, b: Scalar)
    requires
        rounds(on),
        a.finite(),
        b.finite(),
        magnitude(a.units() + b.units()) <= 4 * one_in_units(),
    ensures
        on.sum(a, b).finite(),
        0x100_0000 * magnitude(on.sum(a, b).units() - (a.units() + b.units())) <= magnitude(a.units() + b.units()),
{
    reveal(rounds);
    constants_in_units();
    lemma_four();
    let (r, total) = (on.sum(a, b), a.units() + b.units());
    assert(sum_is_rounded(on, a, b));
    assert((4 * one_in_units()) * 1 == 4 * one_in_units());
    lemma_any_result(r, total, 1, Scalar(0x4080_0000));
    lemma_signed(r, total, 1);
    assert(r.units() * 1 == r.units());
}

/// An integer moved into a range.
pub open spec fn clamp(x: int, low: int, high: int) -> int {
    if x < low {
        low
    } else if x > high {
        high
    } else {
        x
    }
}

/// The sum of two of the three rounded products of a scalar product.
proof fn lemma_partial_sum(on: Arithmetic, a: Scalar, b: Scalar)
    requires
        rounds(on),
        a.finite(),
        b.finite(),
        magnitude(a.units() + b.units()) <= 4 * one_in_units(),
    ensures
        ({
            let n = one_in_units();
            let (x, y) = (a.units() * n, b.units() * n);
            &&& on.sum(a, b).finite()
            &&& 0x100_0000 * magnitude(on.sum(a, b).units() * n - (x + y)) <= magnitude(x + y)
        }),
{
    constants_in_units();
    let n = one_in_units();
    lemma_any_sum(on, a, b);
    let total = a.units() + b.units();
    let off = on.sum(a, b).units() - total;
    lemma_magnitude(off, n);
    lemma_magnitude(total, n);
    assert(0x100_0000 * (magnitude(off) * n) <= magnitude(total) * n) by (nonlinear_arith)
        requires
            0x100_0000 * magnitude(off) <= magnitude(total),
            0 < n,
    ;
    assert(total * n == a.units() * n + b.units() * n) by (nonlinear_arith)
        requires
            total == a.units() + b.units(),
    ;
    assert(off * n == on.sum(a, b).units() * n - total * n) by (nonlinear_arith)
        requires
            off == on.sum(a, b).units() - total,
    ;
}

/// A magnitude, once it is multiplied by a whole that it is a part of.
proof fn lemma_below_four(x: int, n: int)
    requires
        0 < n,
        magnitude(x * n) <= 4 * (n * n),
    ensures
        magnitude(x) <= 4 * n,
{
    lemma_magnitude(x, n);
    let m = magnitude(x);
    assert(m <= 4 * n) by (nonlinear_arith)
        requires
            m * n <= 4 * (n * n),
            0 < n,
    ;
}

/// One is small next to its square.
pub(crate) proof fn lemma_unit_size()
    ensures
        0x1_0000_0000 < one_in_units(),
        0x100_0000_0000 * one_in_units() <= one_in_units() * one_in_units(),
{
    constants_in_units();
    let n = one_in_units();
    vstd::arithmetic::power2::lemma2_to64();
    vstd::arithmetic::power2::lemma_pow2_strictly_increases(64, 149);
    assert(0x100_0000_0000 * n <= n * n) by (nonlinear_arith)
        requires
            0x100_0000_0000 <= n,
    ;
}

/// The products of the components of two vectors that are not long.
proof fn lemma_three_products(a: Vector, b: Vector)
    requires
        sized(a),
        sized(b),
    ensures
        ({
            let h = one_in_units() * one_in_units();
            let (p, q, r) = (a[0].units() * b[0].units(), a[1].units() * b[1].units(), a[2].units() * b[2].units());
            1000 * (magnitude(p) + magnitude(q) + magnitude(r)) <= 1002 * h
        }),
{
    lemma_mean_of_squares(a[0].units(), b[0].units());
    lemma_mean_of_squares(a[1].units(), b[1].units());
    lemma_mean_of_squares(a[2].units(), b[2].units());
}

/// The scalar product, as it is computed.
pub open spec fn rounded_dot(on: Arithmetic, a: Vector, b: Vector) -> Scalar {
    on.sum(on.sum(on.product(a[0], b[0]), on.product(a[1], b[1])), on.product(a[2], b[2]))
}

/// The scalar product of two directions is off by less than one part in a
/// million.
proof fn lemma_rounded_dot(on: Arithmetic, a: Vector, b: Vector)
    requires
        rounds(on),
        sized(a),
        sized(b),
        forall|i: int| 0 <= i < 3 ==> (#[trigger] a[i]).finite() && b[i].finite(),
    ensures
        rounded_dot(on, a, b).finite(),
        1_000_000 * magnitude(rounded_dot(on, a, b).units() * one_in_units() - dot(a, b)) <= one_in_units()
            * one_in_units(),
{
    let n = one_in_units();
    let h = n * n;
    lemma_unit_size();
    lemma_three_products(a, b);
    assert(a[0].finite() && a[1].finite() && a[2].finite());
    let (u, v, w) = (on.product(a[0], b[0]), on.product(a[1], b[1]), on.product(a[2], b[2]));
    lemma_any_product(on, a[0], b[0]);
    lemma_any_product(on, a[1], b[1]);
    lemma_any_product(on, a[2], b[2]);
    let (p, q, r) = (a[0].units() * b[0].units(), a[1].units() * b[1].units(), a[2].units() * b[2].units());
    lemma_sum_of_three(on, u, v, w, p, q, r);
}

/// Three rounded products, added up.
proof fn lemma_sum_of_three(on: Arithmetic, u: Scalar, v: Scalar, w: Scalar, p: int, q: int, r: int)
    requires
        rounds(on),
        u.finite(),
        v.finite(),
        w.finite(),
        ({
            let (n, h) = (one_in_units(), one_in_units() * one_in_units());
            &&& 1000 * (magnitude(p) + magnitude(q) + magnitude(r)) <= 1002 * h
            &&& PARTS * magnitude(u.units() * n - p) <= 2048 * magnitude(p) + PARTS * n
            &&& PARTS * magnitude(v.units() * n - q) <= 2048 * magnitude(q) + PARTS * n
            &&& PARTS * magnitude(w.units() * n - r) <= 2048 * magnitude(r) + PARTS * n
        }),
    ensures
        on.sum(on.sum(u, v), w).finite(),
        1_000_000 * magnitude(on.sum(on.sum(u, v), w).units() * one_in_units() - (p + q + r)) <= one_in_units()
            * one_in_units(),
{
    let n = one_in_units();
    let h = n * n;
    lemma_unit_size();
    let (x, y, z) = (u.units() * n, v.units() * n, w.units() * n);
    let first = on.sum(u, v);
    assert((u.units() + v.units()) * n == x + y) by (nonlinear_arith)
        requires
            x == u.units() * n,
            y == v.units() * n,
    ;
    lemma_near_products(p, q, r, x, y, z, h, n);
    lemma_below_four(u.units() + v.units(), n);
    lemma_partial_sum(on, u, v);
    let f = first.units() * n;
    assert((first.units() + w.units()) * n == f + z) by (nonlinear_arith)
        requires
            z == w.units() * n,
            f == first.units() * n,
    ;
    lemma_first_sum(x + y, z, f, h);
    lemma_below_four(first.units() + w.units(), n);
    lemma_partial_sum(on, first, w);
    let t = on.sum(first, w).units() * n;
    lemma_dot_error(x + y, z, f, t, h);
    lemma_errors_add(t, x + y + z, p + q + r, h);
}

/// A sum of two of three products leaves room for the third.
proof fn lemma_first_sum(x: int, z: int, f: int, h: int)
    requires
        0 < h,
        1000 * (magnitude(x) + magnitude(z)) <= 1003 * h,
        0x100_0000 * magnitude(f - x) <= magnitude(x),
    ensures
        magnitude(f + z) <= 4 * h,
{
}

/// Two errors, one on top of the other.
proof fn lemma_errors_add(t: int, x: int, p: int, h: int)
    requires
        0 < h,
        PARTS * magnitude(t - x) <= 2060 * h,
        PARTS * magnitude(x - p) <= 2060 * h,
    ensures
        1_000_000 * magnitude(t - p) <= h,
{
    assert(magnitude(t - p) <= magnitude(t - x) + magnitude(x - p));
}

/// Three products that are off by little add up to a sum that is off by little.
proof fn lemma_near_products(p: int, q: int, r: int, x: int, y: int, z: int, h: int, n: int)
    requires
        0x100_0000_0000 * n <= h,
        0 < n,
        1000 * (magnitude(p) + magnitude(q) + magnitude(r)) <= 1002 * h,
        PARTS * magnitude(x - p) <= 2048 * magnitude(p) + PARTS * n,
        PARTS * magnitude(y - q) <= 2048 * magnitude(q) + PARTS * n,
        PARTS * magnitude(z - r) <= 2048 * magnitude(r) + PARTS * n,
    ensures
        magnitude(x + y) <= 2 * h,
        magnitude(z) <= 2 * h,
        1000 * (magnitude(x + y) + magnitude(z)) <= 1003 * h,
        PARTS * magnitude(x + y + z - (p + q + r)) <= 2060 * h,
{
    let (a, b, c) = (magnitude(x - p), magnitude(y - q), magnitude(z - r));
    assert(17_179_869_184 * (a + b + c) <= 2060 * h);
    assert(magnitude(x + y + z - (p + q + r)) <= a + b + c);
    assert(magnitude(x + y) <= magnitude(p) + magnitude(q) + a + b);
    assert(magnitude(z) <= magnitude(r) + c);
}

/// Two sums in turn are off by little.
proof fn lemma_dot_error(x: int, z: int, f: int, t: int, h: int)
    requires
        0 < h,
        1000 * (magnitude(x) + magnitude(z)) <= 1003 * h,
        0x100_0000 * magnitude(f - x) <= magnitude(x),
        0x100_0000 * magnitude(t - (f + z)) <= magnitude(f + z),
    ensures
        PARTS * magnitude(t - (x + z)) <= 2060 * h,
{
    let (a, b) = (magnitude(f - x), magnitude(t - (f + z)));
    assert(magnitude(f + z) <= magnitude(x) + magnitude(z) + a);
    assert(magnitude(t - (x + z)) <= a + b);
}

/// Clamping a number is clamping what it stands for.
proof fn lemma_clamped(total: Scalar)
    requires
        total.finite(),
    ensures
        ({
            let (n, h) = (one_in_units(), one_in_units() * one_in_units());
            let s = total.clamped(Scalar(MINUS_ONE), Scalar(ONE));
            &&& s.finite()
            &&& -n <= s.units() <= n
            &&& s.units() * n == clamp(total.units() * n, -h, h)
        }),
{
    constants_in_units();
    let n = one_in_units();
    let (h, t) = (n * n, total.units() * n);
    assert(Scalar(MINUS_ONE).units() == -n);
    assert(t < -h <==> total.units() < -n) by (nonlinear_arith)
        requires
            t == total.units() * n,
            h == n * n,
            0 < n,
    ;
    assert(t > h <==> total.units() > n) by (nonlinear_arith)
        requires
            t == total.units() * n,
            h == n * n,
            0 < n,
    ;
    assert((-n) * n == -h) by (nonlinear_arith)
        requires
            h == n * n,
    ;
}

/// Two directions are aligned by their scalar product, but for one part in a
/// million.
pub proof fn alignment_is_scalar_product(on: Arithmetic, a: Vector, b: Vector)
    requires
        correctly_rounded(on),
        sized(a),
        sized(b),
        forall|i: int| 0 <= i < 3 ==> (#[trigger] a[i]).finite() && b[i].finite(),
    ensures
        ({
            let (n, h) = (one_in_units(), one_in_units() * one_in_units());
            let aligned = alignment(on, a, b);
            &&& aligned.finite()
            &&& -n <= aligned.units() <= n
            &&& 1_000_000 * magnitude(aligned.units() * n - clamp(dot(a, b), -h, h)) <= h
        }),
{
    assert(rounds(on)) by {
        reveal(rounds);
    }
    lemma_rounded_dot(on, a, b);
    lemma_clamped(rounded_dot(on, a, b));
    assert(alignment(on, a, b) == rounded_dot(on, a, b).clamped(Scalar(MINUS_ONE), Scalar(ONE)));
}

/// Every bump raises the surface by its amplitude times the share that belongs
/// to the angle between the direction and the bump: the exponential of the
/// concentration times the cosine of that angle, over that of the concentration.
/// The cosine is the scalar product of the two directions, but for one part in
/// a million.
pub proof fn bump_rises_by_angle(
    on: Arithmetic,
    r_min: Scalar,
    bumps: Seq<BumpParams>,
    bump: BumpParams,
    direction: Vector,
) -> (cosine: Scalar)
    requires
        correctly_rounded(on),
        sized(direction),
        sized(bump.points_along(on)),
        forall|i: int| 0 <= i < 3 ==> (#[trigger] direction[i]).finite() && bump.points_along(on)[i].finite(),
    ensures
        ({
            let (n, h) = (one_in_units(), one_in_units() * one_in_units());
            let (a, k) = (bump.amplitude, bump.concentration);
            let share = on.quotient(on.exponential(on.product(k, cosine)), on.exponential(k));
            &&& cosine.finite()
            &&& -n <= cosine.units() <= n
            &&& 1_000_000 * magnitude(cosine.units() * n - clamp(dot(direction, bump.points_along(on)), -h, h)) <= h
            &&& radius(on, r_min, bumps.push(bump), direction) == on.sum(
                radius(on, r_min, bumps, direction),
                on.product(a, share),
            )
        }),
{
    alignment_is_scalar_product(on, direction, bump.points_along(on));
    assert(bumps.push(bump).drop_last() =~= bumps);
    alignment(on, direction, bump.points_along(on))
}

/// On a blob with one bump, whose amplitude and concentration are not negative,
/// the surface is no lower in a direction that is clearly closer to the bump.
#[verifier::spinoff_prover]
#[verifier::rlimit(60)]
pub proof fn closer_is_no_lower(on: Arithmetic, r_min: Scalar, bump: BumpParams, closer: Vector, farther: Vector)
    requires
        correctly_rounded(on),
        exponential_rises(on),
        sized(closer),
        sized(farther),
        sized(bump.points_along(on)),
        forall|i: int| 0 <= i < 3 ==> (#[trigger] closer[i]).finite() && bump.points_along(on)[i].finite(),
        forall|i: int| 0 <= i < 3 ==> (#[trigger] farther[i]).finite(),
        rises_towards(on, bump, closer),
        rises_towards(on, bump, farther),
        radius_is_finite(on, r_min, seq![bump], closer),
        radius_is_finite(on, r_min, seq![bump], farther),
        ({
            let h = one_in_units() * one_in_units();
            1_000_000 * dot(closer, bump.points_along(on)) >= 1_000_000 * dot(farther, bump.points_along(on)) + 2 * h
        }),
    ensures
        radius(on, r_min, seq![bump], farther).at_most(radius(on, r_min, seq![bump], closer)),
{
    let d = bump.points_along(on);
    assert(rounds(on)) by {
        reveal(rounds);
    }
    lemma_alignment_order(on, closer, farther, d);
    lemma_heights_ordered(on, r_min, bump, closer, farther);
}

/// Of two directions, the one that is clearly closer to a third is aligned with
/// it no less.
proof fn lemma_alignment_order(on: Arithmetic, closer: Vector, farther: Vector, d: Vector)
    requires
        rounds(on),
        sized(closer),
        sized(farther),
        sized(d),
        forall|i: int| 0 <= i < 3 ==> (#[trigger] closer[i]).finite() && d[i].finite(),
        forall|i: int| 0 <= i < 3 ==> (#[trigger] farther[i]).finite(),
        ({
            let h = one_in_units() * one_in_units();
            1_000_000 * dot(closer, d) >= 1_000_000 * dot(farther, d) + 2 * h
        }),
    ensures
        alignment(on, closer, d).finite(),
        alignment(on, farther, d).finite(),
        alignment(on, farther, d).units() <= alignment(on, closer, d).units(),
{
    let n = one_in_units();
    lemma_unit_size();
    assert forall|i: int| 0 <= i < 3 implies (#[trigger] farther[i]).finite() && d[i].finite() by {
        assert(closer[i].finite());
    }
    lemma_rounded_dot(on, closer, d);
    lemma_rounded_dot(on, farther, d);
    let (p, q) = (rounded_dot(on, closer, d), rounded_dot(on, farther, d));
    assert(q.units() <= p.units()) by (nonlinear_arith)
        requires
            q.units() * n <= p.units() * n,
            0 < n,
    ;
    lemma_clamped(p);
    lemma_clamped(q);
    constants_in_units();
    assert(Scalar(MINUS_ONE).units() == -n);
}

/// Where the alignment is no less, the surface is no lower.
proof fn lemma_heights_ordered(on: Arithmetic, r_min: Scalar, bump: BumpParams, closer: Vector, farther: Vector)
    requires
        correctly_rounded(on),
        exponential_rises(on),
        rises_towards(on, bump, closer),
        rises_towards(on, bump, farther),
        radius_is_finite(on, r_min, seq![bump], closer),
        radius_is_finite(on, r_min, seq![bump], farther),
        alignment(on, closer, bump.points_along(on)).finite(),
        alignment(on, farther, bump.points_along(on)).finite(),
        alignment(on, farther, bump.points_along(on)).units() <= alignment(
            on,
            closer,
            bump.points_along(on),
        ).units(),
    ensures
        radius(on, r_min, seq![bump], farther).at_most(radius(on, r_min, seq![bump], closer)),
{
    constants_in_units();
    let (p, q) = (alignment(on, closer, bump.points_along(on)), alignment(on, farther, bump.points_along(on)));
    let (a, k) = (bump.amplitude, bump.concentration);
    assert(k.units() * q.units() <= k.units() * p.units()) by (nonlinear_arith)
        requires
            k.units() >= 0,
            q.units() <= p.units(),
    ;
    products_are_ordered(on, k, q, k, p);
    let peak = on.exponential(k);
    assert(on.exponential(on.product(k, q)).at_most(on.exponential(on.product(k, p))));
    quotients_are_ordered(on, on.exponential(on.product(k, q)), on.exponential(on.product(k, p)), peak);
    let (v, w) = (weight(on, k, p), weight(on, k, q));
    assert(a.units() * w.units() <= a.units() * v.units()) by (nonlinear_arith)
        requires
            a.units() >= 0,
            w.units() <= v.units(),
    ;
    products_are_ordered(on, a, w, a, v);
    let one = seq![bump];
    let none = one.drop_last();
    assert(one.last() == bump && none.len() == 0);
    assert(radius_is_finite(on, r_min, none, closer));
    assert(radius(on, r_min, none, closer) == r_min && radius(on, r_min, none, farther) == r_min);
    assert(radius(on, r_min, one, closer) == on.sum(r_min, height(on, bump, closer)));
    assert(radius(on, r_min, one, farther) == on.sum(r_min, height(on, bump, farther)));
    sums_are_ordered(on, r_min, height(on, bump, farther), r_min, height(on, bump, closer));
}

/// The exponential of a number that is a little less is only a little less: it
/// falls by no more than twice the difference, but for one part in 2^20.
pub open spec fn exponential_is_steady(on: Arithmetic) -> bool {
    let n = one_in_units();
    forall|a: Scalar, b: Scalar|
        #![trigger on.exponential(a), on.exponential(b)]
        a.finite() && b.finite() && a.units() <= b.units() <= 32 * n && 1024 * (b.units() - a.units()) <= n
            && on.exponential(b).finite() && on.exponential(b).units() > 0 ==> {
            let (e, f) = (on.exponential(a).units(), on.exponential(b).units());
            0x10_0000 * (f * (n - 2 * (b.units() - a.units())) - e * n) <= f * n
        }
}

/// The product of a concentration with a cosine that is close to one.
proof fn lemma_nearly_all(on: Arithmetic, k: Scalar, x: Scalar)
    requires
        rounds(on),
        k.finite(),
        0 <= k.units() <= 20 * one_in_units(),
        x.finite(),
        1_000_000 * (one_in_units() - x.units()) <= 2 * one_in_units(),
        0 <= x.units() <= one_in_units(),
    ensures
        on.product(k, x).finite(),
        on.product(k, x).units() <= k.units(),
        25_000 * (k.units() - on.product(k, x).units()) <= 2 * one_in_units(),
{
    reveal(rounds);
    let n = one_in_units();
    let (r, kx) = (on.product(k, x), k.units() * x.units());
    lemma_unit_size();
    assert(product_is_rounded(on, k, x));
    let kn = k.units() * n;
    assert(0 <= kx <= kn) by (nonlinear_arith)
        requires
            0 <= k.units(),
            0 <= x.units() <= n,
            kx == k.units() * x.units(),
            kn == k.units() * n,
    ;
    lemma_any_result(r, kx, n, k);
    assert(1_000_000 * (kn - kx) <= 2 * kn) by (nonlinear_arith)
        requires
            1_000_000 * (n - x.units()) <= 2 * n,
            0 <= k.units(),
            kx == k.units() * x.units(),
            kn == k.units() * n,
    ;
    let (rn, h) = (r.units() * n, n * n);
    assert(kn <= 20 * h) by (nonlinear_arith)
        requires
            k.units() <= 20 * n,
            0 < n,
            kn == k.units() * n,
            h == n * n,
    ;
    assert(25_000 * (kn - rn) <= 2 * h);
    let off = k.units() - r.units();
    assert(kn - rn == off * n) by (nonlinear_arith)
        requires
            off == k.units() - r.units(),
            kn == k.units() * n,
            rn == r.units() * n,
    ;
    assert(25_000 * off <= 2 * n) by (nonlinear_arith)
        requires
            25_000 * (kn - rn) <= 2 * h,
            kn - rn == off * n,
            h == n * n,
            0 < n,
    {
        assert(25_000 * (off * n) <= 2 * (n * n));
    }
}

/// A share that is close to one, once it is rounded.
proof fn lemma_share(on: Arithmetic, f: Scalar, e: Scalar)
    requires
        rounds(on),
        f.finite(),
        e.finite(),
        0 <= f.units() <= e.units(),
        0 < e.units(),
        10_000 * (e.units() - f.units()) <= 2 * e.units(),
    ensures
        on.quotient(f, e).finite(),
        0 <= on.quotient(f, e).units() <= one_in_units(),
        10_000 * (one_in_units() - on.quotient(f, e).units()) <= 3 * one_in_units(),
{
    reveal(rounds);
    let n = one_in_units();
    let (r, den) = (on.quotient(f, e), e.units());
    lemma_unit_size();
    constants_in_units();
    assert(quotient_is_rounded(on, f, e));
    let num = f.units() * n;
    assert(0 <= num <= n * den) by (nonlinear_arith)
        requires
            num == f.units() * n,
            0 <= f.units() <= den,
            0 < n,
    ;
    lemma_any_result(r, num, den, Scalar(ONE));
    let (whole, got) = (n * den, r.units() * den);
    assert(10_000 * (whole - num) <= 2 * whole) by (nonlinear_arith)
        requires
            10_000 * (den - f.units()) <= 2 * den,
            whole == n * den,
            num == f.units() * n,
            0 < n,
    ;
    assert(0x1_0000_0000 * den <= whole) by (nonlinear_arith)
        requires
            0x1_0000_0000 <= n,
            whole == n * den,
            0 < den,
    ;
    assert(10_000 * (whole - got) <= 3 * whole);
    let off = n - r.units();
    assert(whole - got == off * den) by (nonlinear_arith)
        requires
            off == n - r.units(),
            whole == n * den,
            got == r.units() * den,
    ;
    assert(10_000 * off <= 3 * n) by (nonlinear_arith)
        requires
            10_000 * (whole - got) <= 3 * whole,
            whole - got == off * den,
            whole == n * den,
            0 < den,
    {
        assert(10_000 * (off * den) <= 3 * (n * den));
    }
}

/// The height of a bump whose share is close to one.
proof fn lemma_peak_height(on: Arithmetic, a: Scalar, w: Scalar)
    requires
        rounds(on),
        a.finite(),
        0x100_0000 <= a.units(),
        w.finite(),
        0 <= w.units() <= one_in_units(),
        10_000 * (one_in_units() - w.units()) <= 3 * one_in_units(),
    ensures
        on.product(a, w).finite(),
        0 <= on.product(a, w).units() <= a.units(),
        2000 * (a.units() - on.product(a, w).units()) <= a.units(),
{
    reveal(rounds);
    let n = one_in_units();
    let (r, aw, an) = (on.product(a, w), a.units() * w.units(), a.units() * n);
    lemma_unit_size();
    assert(product_is_rounded(on, a, w));
    assert(0 <= aw <= an) by (nonlinear_arith)
        requires
            0 <= a.units(),
            0 <= w.units() <= n,
            aw == a.units() * w.units(),
            an == a.units() * n,
    ;
    lemma_any_result(r, aw, n, a);
    assert(10_000 * (an - aw) <= 3 * an) by (nonlinear_arith)
        requires
            10_000 * (n - w.units()) <= 3 * n,
            0 <= a.units(),
            aw == a.units() * w.units(),
            an == a.units() * n,
    ;
    assert(0x100_0000 * n <= an) by (nonlinear_arith)
        requires
            0x100_0000 <= a.units(),
            0 < n,
            an == a.units() * n,
    ;
    let rn = r.units() * n;
    assert(2000 * (an - rn) <= an);
    let off = a.units() - r.units();
    assert(an - rn == off * n) by (nonlinear_arith)
        requires
            off == a.units() - r.units(),
            an == a.units() * n,
            rn == r.units() * n,
    ;
    assert(2000 * off <= a.units()) by (nonlinear_arith)
        requires
            2000 * (off * n) <= an,
            an == a.units() * n,
            0 < n,
    {
        assert((2000 * off) * n <= a.units() * n);
    }
}

/// The exponential at the peak of a bump, and next to it.
proof fn lemma_next_to_peak(on: Arithmetic, m: Scalar, k: Scalar)
    requires
        exponential_is_steady(on),
        m.finite(),
        k.finite(),
        0 < one_in_units(),
        m.units() <= k.units() <= 20 * one_in_units(),
        25_000 * (k.units() - m.units()) <= 2 * one_in_units(),
        on.exponential(k).finite(),
        on.exponential(k).units() > 0,
    ensures
        10_000 * (on.exponential(k).units() - on.exponential(m).units()) <= 2 * on.exponential(k).units(),
{
    let n = one_in_units();
    let (e, f, off) = (on.exponential(m).units(), on.exponential(k).units(), k.units() - m.units());
    assert(0x10_0000 * (f * (n - 2 * off) - e * n) <= f * n);
    let (fn_, en, fo) = (f * n, e * n, f * off);
    assert(f * (n - 2 * off) == fn_ - 2 * fo) by (nonlinear_arith)
        requires
            fn_ == f * n,
            fo == f * off,
    ;
    assert(25_000 * fo <= 2 * fn_) by (nonlinear_arith)
        requires
            25_000 * off <= 2 * n,
            0 < f,
            fn_ == f * n,
            fo == f * off,
    ;
    assert(10_000 * (fn_ - en) <= 2 * fn_);
    assert(10_000 * (f - e) <= 2 * f) by (nonlinear_arith)
        requires
            10_000 * (f * n - e * n) <= 2 * (f * n),
            0 < n,
    {
        assert((10_000 * (f - e)) * n <= (2 * f) * n);
    }
}

/// A vector of length one is aligned with itself by one.
proof fn lemma_aligned_with_itself(on: Arithmetic, d: Vector)
    requires
        correctly_rounded(on),
        nearly_unit(d),
        forall|i: int| 0 <= i < 3 ==> (#[trigger] d[i]).finite(),
    ensures
        alignment(on, d, d).finite(),
        0 <= alignment(on, d, d).units() <= one_in_units(),
        1_000_000 * (one_in_units() - alignment(on, d, d).units()) <= 2 * one_in_units(),
{
    let n = one_in_units();
    let h = n * n;
    lemma_unit_size();
    assert(sized(d));
    alignment_is_scalar_product(on, d, d);
    assert(dot(d, d) == squared_length(d));
    let x = alignment(on, d, d).units();
    let (xn, off) = (x * n, n - x);
    assert(1_000_000 * (h - xn) <= 2 * h);
    assert(h - xn == off * n) by (nonlinear_arith)
        requires
            h == n * n,
            xn == x * n,
            off == n - x,
    ;
    assert(1_000_000 * off <= 2 * n) by (nonlinear_arith)
        requires
            1_000_000 * (off * n) <= 2 * (n * n),
            0 < n,
    {
        assert((1_000_000 * off) * n <= (2 * n) * n);
    }
}

/// A bump is as high as its amplitude in the direction that it points in,
/// wherever that is: the radius there is that of the sphere and the amplitude,
/// but for one part in a thousand.
pub proof fn bump_peaks_where_it_points(on: Arithmetic, r_min: Scalar, bump: BumpParams)
    requires
        correctly_rounded(on),
        exponential_is_steady(on),
        exponential_rises(on),
        nearly_unit(on_sphere(on, bump.theta, bump.phi)),
        forall|i: int| 0 <= i < 3 ==> (#[trigger] on_sphere(on, bump.theta, bump.phi)[i]).finite(),
        bump.amplitude.finite(),
        0x100_0000 <= bump.amplitude.units(),
        bump.concentration.finite(),
        0 <= bump.concentration.units() <= 20 * one_in_units(),
        on.exponential(bump.concentration).finite(),
        on.exponential(bump.concentration).units() > 0,
        forall|k: Scalar| k.finite() ==> 0 <= (#[trigger] on.exponential(k)).units(),
        r_min.finite(),
        0 <= r_min.units(),
        radius(on, r_min, seq![bump], on_sphere(on, bump.theta, bump.phi)).finite(),
    ensures
        ({
            let full = r_min.units() + bump.amplitude.units();
            let there = radius(on, r_min, seq![bump], on_sphere(on, bump.theta, bump.phi));
            1000 * magnitude(there.units() - full) <= full
        }),
{
    let d = on_sphere(on, bump.theta, bump.phi);
    lemma_aligned_with_itself(on, d);
    assert(rounds(on)) by {
        reveal(rounds);
    }
    let one = seq![bump];
    assert(one.last() == bump && one.drop_last().len() == 0);
    assert(radius(on, r_min, one.drop_last(), d) == r_min);
    assert(bump.points_along(on) == d);
    lemma_peak(on, r_min, bump, alignment(on, d, d));
}

/// The radius where the cosine is close to one.
proof fn lemma_peak(on: Arithmetic, r_min: Scalar, bump: BumpParams, x: Scalar)
    requires
        rounds(on),
        exponential_is_steady(on),
        exponential_rises(on),
        x.finite(),
        0 <= x.units() <= one_in_units(),
        1_000_000 * (one_in_units() - x.units()) <= 2 * one_in_units(),
        bump.amplitude.finite(),
        0x100_0000 <= bump.amplitude.units(),
        bump.concentration.finite(),
        0 <= bump.concentration.units() <= 20 * one_in_units(),
        on.exponential(bump.concentration).finite(),
        on.exponential(bump.concentration).units() > 0,
        forall|k: Scalar| k.finite() ==> 0 <= (#[trigger] on.exponential(k)).units(),
        r_min.finite(),
        0 <= r_min.units(),
        on.sum(r_min, on.product(bump.amplitude, weight(on, bump.concentration, x))).finite(),
    ensures
        ({
            let full = r_min.units() + bump.amplitude.units();
            let there = on.sum(r_min, on.product(bump.amplitude, weight(on, bump.concentration, x)));
            1000 * magnitude(there.units() - full) <= full
        }),
{
    let (a, k) = (bump.amplitude, bump.concentration);
    lemma_unit_size();
    lemma_nearly_all(on, k, x);
    let m = on.product(k, x);
    lemma_next_to_peak(on, m, k);
    let (e, f) = (on.exponential(m), on.exponential(k));
    assert(e.at_most(f));
    lemma_rank_orders(f, e);
    sign_of_units(e);
    lemma_share(on, e, f);
    let w = weight(on, k, x);
    lemma_peak_height(on, a, w);
    lemma_peak_sum(on, r_min, on.product(a, w), a.units());
}

/// The radius at a height that is close to the amplitude.
proof fn lemma_peak_sum(on: Arithmetic, r: Scalar, h: Scalar, a: int)
    requires
        rounds(on),
        r.finite(),
        0 <= r.units(),
        h.finite(),
        0 <= h.units() <= a,
        2000 * (a - h.units()) <= a,
        on.sum(r, h).finite(),
    ensures
        1000 * magnitude(on.sum(r, h).units() - (r.units() + a)) <= r.units() + a,
{
    reveal(rounds);
    assert(sum_is_rounded(on, r, h));
    relative_error(on.sum(r, h), r.units() + h.units(), 1);
    assert(on.sum(r, h).units() * 1 == on.sum(r, h).units());
}

} // verus!
