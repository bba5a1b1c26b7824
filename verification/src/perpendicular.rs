//! How close to perpendicular, and to length one, the axis of a bump comes out.
//!
//! The laws ask that cross products are computed component by component, that
//! the first direction of the tangent plane is of length one and perpendicular,
//! and that nothing overflows or underflows. The rest is rounding. Where vectors
//! are normalized by dividing them by their length, that first direction is as
//! it is asked to be ([`divided_tangent_is_sound`]).

use vstd::prelude::*;
use vstd::arithmetic::power2::{lemma2_to64, lemma_pow2_pos, lemma_pow2_unfold, pow2};
use crate::bump::{axis_along, blend, lean_axis_at, length, reference_up, tangent_direction, BumpParams};
use crate::math::{Arithmetic, Vector};
use crate::ordering::exact_at_zero;
use crate::rounding::{
    constants_in_units, correctly_rounded, one_in_units, product_is_rounded, product_of_zero, quotient_is_rounded,
    quotient_of_zero, rounding_keeps_numbers, sign_of_units, sum_is_rounded,
};
use crate::scalar::{
    absolute_is_magnitude, lemma_rank_orders, negation_negates, Scalar, FRAC_PI_2, HALF, MILLIONTH, NEARLY_ONE, ZERO,
};
use crate::tolerance::{
    axis_is_unit, direction_is_unit, lemma_length_near, lemma_signed, lemma_squares, lemma_three, length_is_sound,
    magnitude, near, nearly_unit, on_unit_circle, product_is_held, ratio_is_held, squared_length, PARTS,
};

verus! {

/// An error of no more than `k` parts of a whole.
pub open spec fn within(x: int, k: int, whole: int) -> bool {
    PARTS * magnitude(x) <= k * whole
}

/// The squared length of a vector is one, but for `k` parts.
pub open spec fn unit_within(v: Vector, k: int) -> bool {
    let h = one_in_units() * one_in_units();
    within(squared_length(v) - h, k, h)
}

/// A vector is no longer than one, but for one part in a thousand.
pub open spec fn sized(v: Vector) -> bool {
    1000 * squared_length(v) <= 1002 * (one_in_units() * one_in_units())
}

/// A number is no greater than one, but for one part in a hundred.
pub open spec fn modest(a: Scalar) -> bool {
    100 * magnitude(a.units()) <= 101 * one_in_units()
}

/// The magnitude of a multiple.
pub(crate) proof fn lemma_magnitude(x: int, n: int)
    by (nonlinear_arith)
    requires
        0 <= n,
    ensures
        magnitude(x * n) == magnitude(x) * n,
{
}

/// The product of two numbers is off by one rounding.
proof fn lemma_held_product(on: Arithmetic, a: Scalar, b: Scalar)
    requires
        correctly_rounded(on),
        product_is_held(on, a, b),
    ensures
        on.product(a, b).finite(),
        0x100_0000 * magnitude(on.product(a, b).units() * one_in_units() - a.units() * b.units()) <= magnitude(
            a.units() * b.units(),
        ),
{
    constants_in_units();
    let (r, n) = (on.product(a, b), one_in_units());
    let exact = a.units() * b.units();
    assert(product_is_rounded(on, a, b));
    assert(exact == 0 <==> a.units() == 0 || b.units() == 0) by (nonlinear_arith)
        requires
            exact == a.units() * b.units(),
    ;
    if exact == 0 {
        product_of_zero(on, a, b);
        sign_of_units(r);
    }
    lemma_signed(r, exact, n);
}

/// A sum of two rounded products is off by two roundings.
proof fn lemma_held_sum(on: Arithmetic, p: Scalar, q: Scalar, exact_p: int, exact_q: int)
    requires
        correctly_rounded(on),
        p.finite(),
        q.finite(),
        on.sum(p, q).finite(),
        0x100_0000 * magnitude(p.units() * one_in_units() - exact_p) <= magnitude(exact_p),
        0x100_0000 * magnitude(q.units() * one_in_units() - exact_q) <= magnitude(exact_q),
    ensures
        within(
            on.sum(p, q).units() * one_in_units() - (exact_p + exact_q),
            2049,
            magnitude(exact_p) + magnitude(exact_q),
        ),
{
    constants_in_units();
    let (r, n) = (on.sum(p, q), one_in_units());
    assert(sum_is_rounded(on, p, q));
    let total = p.units() + q.units();
    if total == 0 {
        rounding_keeps_numbers(r, 0, 1, Scalar(ZERO));
    }
    lemma_signed(r, total, 1);
    let off = r.units() - total;
    assert(r.units() * 1 == r.units());
    assert(0x100_0000 * magnitude(off) <= magnitude(total));
    lemma_magnitude(off, n);
    lemma_magnitude(total, n);
    assert(0x100_0000 * magnitude(off * n) <= magnitude(total * n)) by (nonlinear_arith)
        requires
            0x100_0000 * magnitude(off) <= magnitude(total),
            magnitude(off * n) == magnitude(off) * n,
            magnitude(total * n) == magnitude(total) * n,
            0 < n,
    ;
    assert(total * n == p.units() * n + q.units() * n) by (nonlinear_arith)
        requires
            total == p.units() + q.units(),
    ;
    assert(off * n == r.units() * n - total * n) by (nonlinear_arith)
        requires
            off == r.units() - total,
    ;
}

/// The product of two numbers is no greater than the mean of their squares.
pub(crate) proof fn lemma_mean_of_squares(a: int, b: int)
    ensures
        2 * magnitude(a * b) <= a * a + b * b,
{
    let (p, q) = (magnitude(a), magnitude(b));
    assert(magnitude(a * b) == p * q && p * p == a * a && q * q == b * b) by (nonlinear_arith)
        requires
            p == magnitude(a),
            q == magnitude(b),
    ;
    assert(2 * (p * q) <= p * p + q * q) by (nonlinear_arith) {
        assert((p - q) * (p - q) >= 0);
    }
}

/// The difference of two products is off by two roundings.
proof fn lemma_held_difference(on: Arithmetic, a: Scalar, b: Scalar, c: Scalar, d: Scalar)
    requires
        correctly_rounded(on),
        product_is_held(on, a, b),
        product_is_held(on, c, d),
        on.difference(on.product(a, b), on.product(c, d)).finite(),
    ensures
        within(
            on.difference(on.product(a, b), on.product(c, d)).units() * one_in_units() - (a.units() * b.units()
                - c.units() * d.units()),
            2049,
            magnitude(a.units() * b.units()) + magnitude(c.units() * d.units()),
        ),
{
    let n = one_in_units();
    let (p, q) = (on.product(a, b), on.product(c, d));
    lemma_held_product(on, a, b);
    lemma_held_product(on, c, d);
    negation_negates(q);
    assert(q.negated().units() * n == -(q.units() * n)) by (nonlinear_arith)
        requires
            q.negated().units() == -q.units(),
    ;
    lemma_held_sum(on, p, q.negated(), a.units() * b.units(), -(c.units() * d.units()));
}

/// The cross product of two vectors, component by component.
pub open spec fn cross_formula(on: Arithmetic, v: Vector, w: Vector) -> Vector {
    [
        on.difference(on.product(v[1], w[2]), on.product(v[2], w[1])),
        on.difference(on.product(v[2], w[0]), on.product(v[0], w[2])),
        on.difference(on.product(v[0], w[1]), on.product(v[1], w[0])),
    ]
}

/// The exact cross product of two vectors, in squared units.
pub open spec fn exact_cross(v: Vector, w: Vector) -> (int, int, int) {
    (
        v[1].units() * w[2].units() - v[2].units() * w[1].units(),
        v[2].units() * w[0].units() - v[0].units() * w[2].units(),
        v[0].units() * w[1].units() - v[1].units() * w[0].units(),
    )
}

/// The exact scalar product of two vectors, in squared units.
pub open spec fn dot(v: Vector, w: Vector) -> int {
    v[0].units() * w[0].units() + v[1].units() * w[1].units() + v[2].units() * w[2].units()
}

/// All components of a vector are modest.
pub open spec fn modest_vector(v: Vector) -> bool {
    modest(v[0]) && modest(v[1]) && modest(v[2])
}

/// The cross product of two vectors is what its formula gives, and nothing in
/// it overflows or underflows.
#[verifier::opaque]
pub open spec fn cross_is_held(on: Arithmetic, v: Vector, w: Vector) -> bool {
    let c = cross_formula(on, v, w);
    &&& on.cross_product(v, w) == c
    &&& product_is_held(on, v[1], w[2])
    &&& product_is_held(on, v[2], w[1])
    &&& product_is_held(on, v[2], w[0])
    &&& product_is_held(on, v[0], w[2])
    &&& product_is_held(on, v[0], w[1])
    &&& product_is_held(on, v[1], w[0])
    &&& c[0].finite()
    &&& c[1].finite()
    &&& c[2].finite()
}

/// The exact cross product of vectors that are not long.
pub(crate) proof fn lemma_exact_cross(v: Vector, w: Vector)
    requires
        sized(v),
        sized(w),
    ensures
        ({
            let (e, h) = (exact_cross(v, w), one_in_units() * one_in_units());
            let (a, b, c) = (v[0].units(), v[1].units(), v[2].units());
            let (x, y, z) = (w[0].units(), w[1].units(), w[2].units());
            &&& 1000 * (magnitude(b * z) + magnitude(c * y)) <= 1002 * h
            &&& 1000 * (magnitude(c * x) + magnitude(a * z)) <= 1002 * h
            &&& 1000 * (magnitude(a * y) + magnitude(b * x)) <= 1002 * h
            &&& 1000 * magnitude(e.0) <= 1002 * h
            &&& 1000 * magnitude(e.1) <= 1002 * h
            &&& 1000 * magnitude(e.2) <= 1002 * h
        }),
{
    let (a, b, c) = (v[0].units(), v[1].units(), v[2].units());
    let (x, y, z) = (w[0].units(), w[1].units(), w[2].units());
    lemma_squares(a, b);
    lemma_squares(c, x);
    lemma_squares(y, z);
    lemma_mean_of_squares(b, z);
    lemma_mean_of_squares(c, y);
    lemma_mean_of_squares(c, x);
    lemma_mean_of_squares(a, z);
    lemma_mean_of_squares(a, y);
    lemma_mean_of_squares(b, x);
}

/// The components of a cross product of vectors that are not long are off by
/// two roundings.
pub(crate) proof fn lemma_cross(on: Arithmetic, v: Vector, w: Vector)
    requires
        correctly_rounded(on),
        cross_is_held(on, v, w),
        sized(v),
        sized(w),
    ensures
        ({
            let (c, e) = (on.cross_product(v, w), exact_cross(v, w));
            let (n, nn) = (one_in_units(), one_in_units() * one_in_units());
            &&& within(c[0].units() * n - e.0, 2060, nn)
            &&& within(c[1].units() * n - e.1, 2060, nn)
            &&& within(c[2].units() * n - e.2, 2060, nn)
        }),
{
    reveal(cross_is_held);
    let c = cross_formula(on, v, w);
    lemma_held_difference(on, v[1], w[2], v[2], w[1]);
    lemma_held_difference(on, v[2], w[0], v[0], w[2]);
    lemma_held_difference(on, v[0], w[1], v[1], w[0]);
    lemma_exact_cross(v, w);
    lemma_squares(one_in_units(), one_in_units());
    assert(c[0] == on.difference(on.product(v[1], w[2]), on.product(v[2], w[1])));
    assert(c[1] == on.difference(on.product(v[2], w[0]), on.product(v[0], w[2])));
    assert(c[2] == on.difference(on.product(v[0], w[1]), on.product(v[1], w[0])));
}

/// A modest number times an error.
pub(crate) proof fn lemma_weighed(a: int, x: int, k: int, n: int, nn: int)
    requires
        100 * magnitude(a) <= 101 * n,
        PARTS * magnitude(x) <= k * nn,
        0 <= k,
        0 <= n,
        0 <= nn,
    ensures
        100 * PARTS * magnitude(a * x) <= 101 * k * (n * nn),
{
    let (p, q, m) = (magnitude(a), magnitude(x), PARTS as int);
    assert(magnitude(a * x) == p * q) by (nonlinear_arith)
        requires
            p == magnitude(a),
            q == magnitude(x),
    ;
    assert((100 * p) * (m * q) <= (101 * n) * (k * nn)) by (nonlinear_arith)
        requires
            0 <= 100 * p,
            0 <= m * q,
            100 * p <= 101 * n,
            m * q <= k * nn,
    ;
    assert((100 * p) * (m * q) == 100 * m * (p * q)) by (nonlinear_arith);
    assert((101 * n) * (k * nn) == 101 * k * (n * nn)) by (nonlinear_arith);
}

/// A cross product is exactly perpendicular to what it is made of, before it
/// is rounded.
proof fn lemma_triple(a: int, b: int, c: int, x: int, y: int, z: int)
    by (nonlinear_arith)
    ensures
        a * (b * z - c * y) + b * (c * x - a * z) + c * (a * y - b * x) == 0,
{
}

/// Errors of three terms, each weighed by a component.
proof fn lemma_weighed_sum(v: Vector, x: int, y: int, z: int, k: int)
    requires
        modest_vector(v),
        0 <= k,
        within(x, k, one_in_units() * one_in_units()),
        within(y, k, one_in_units() * one_in_units()),
        within(z, k, one_in_units() * one_in_units()),
    ensures
        100 * PARTS * magnitude(v[0].units() * x + v[1].units() * y + v[2].units() * z) <= 303 * k * (one_in_units() * (
        one_in_units() * one_in_units())),
{
    constants_in_units();
    let n = one_in_units();
    let nn = n * n;
    lemma_squares(n, n);
    lemma_weighed(v[0].units(), x, k, n, nn);
    lemma_weighed(v[1].units(), y, k, n, nn);
    lemma_weighed(v[2].units(), z, k, n, nn);
    let whole = n * nn;
    assert(303 * k * whole == 3 * (101 * k * whole)) by (nonlinear_arith);
}

/// A component times a difference of two products.
proof fn lemma_term(a: int, x: int, n: int, y: int, m: int)
    by (nonlinear_arith)
    ensures
        a * (x * n - y * m) == (a * x) * n - (a * y) * m,
{
}

/// A cross product is perpendicular to both of the vectors, but for the rounding
/// of its components.
proof fn lemma_cross_perpendicular(on: Arithmetic, v: Vector, w: Vector)
    requires
        correctly_rounded(on),
        cross_is_held(on, v, w),
        sized(v),
        sized(w),
    ensures
        100 * PARTS * magnitude(dot(v, on.cross_product(v, w))) <= 624_180 * (one_in_units() * one_in_units()),
        100 * PARTS * magnitude(dot(w, on.cross_product(v, w))) <= 624_180 * (one_in_units() * one_in_units()),
{
    let e = exact_cross(v, w);
    lemma_cross(on, v, w);
    let (a, b, c) = (v[0].units(), v[1].units(), v[2].units());
    let (x, y, z) = (w[0].units(), w[1].units(), w[2].units());
    lemma_triple(a, b, c, x, y, z);
    lemma_triple(x, y, z, a, b, c);
    lemma_flipped(x, b, z, c, y);
    lemma_flipped(y, c, x, a, z);
    lemma_flipped(z, a, y, b, x);
    lemma_sized_is_modest(v);
    lemma_sized_is_modest(w);
    lemma_perpendicular_to(v, on.cross_product(v, w), e.0, e.1, e.2);
    lemma_perpendicular_to(w, on.cross_product(v, w), e.0, e.1, e.2);
}

/// A vector that is near an exact one is perpendicular to what that one is
/// perpendicular to.
proof fn lemma_perpendicular_to(v: Vector, c: Vector, e: int, f: int, g: int)
    requires
        modest_vector(v),
        within(c[0].units() * one_in_units() - e, 2060, one_in_units() * one_in_units()),
        within(c[1].units() * one_in_units() - f, 2060, one_in_units() * one_in_units()),
        within(c[2].units() * one_in_units() - g, 2060, one_in_units() * one_in_units()),
        v[0].units() * e + v[1].units() * f + v[2].units() * g == 0,
    ensures
        100 * PARTS * magnitude(dot(v, c)) <= 624_180 * (one_in_units() * one_in_units()),
{
    constants_in_units();
    let n = one_in_units();
    let (a, b, d) = (v[0].units(), v[1].units(), v[2].units());
    let (x, y, z) = (c[0].units(), c[1].units(), c[2].units());
    lemma_weighed_sum(v, x * n - e, y * n - f, z * n - g, 2060);
    let all = dot(v, c);
    lemma_term(a, x, n, e, 1);
    lemma_term(b, y, n, f, 1);
    lemma_term(d, z, n, g, 1);
    lemma_three(a * x, b * y, d * z, n);
    lemma_magnitude(all, n);
    let (m, nn) = (magnitude(all), n * n);
    assert(100 * PARTS * m <= 624_180 * nn) by (nonlinear_arith)
        requires
            100 * PARTS * (m * n) <= 624_180 * (n * nn),
            0 < n,
    ;
}

/// A component divided by the length is off by one rounding.
pub(crate) proof fn lemma_ratio(on: Arithmetic, a: Scalar, len: Scalar, e: int)
    requires
        correctly_rounded(on),
        a.finite(),
        len.finite(),
        len.units() > 0,
        ratio_is_held(on, a, len),
        within(a.units() * one_in_units() - e, 2060, one_in_units() * one_in_units()),
        1000 * magnitude(e) <= 1002 * (one_in_units() * one_in_units()),
    ensures
        within(
            on.quotient(a, len).units() * len.units() - a.units() * one_in_units(),
            1030,
            one_in_units() * one_in_units(),
        ),
{
    constants_in_units();
    let (r, n) = (on.quotient(a, len), one_in_units());
    let exact = a.units() * n;
    assert(quotient_is_rounded(on, a, len));
    assert(exact == 0 <==> a.units() == 0) by (nonlinear_arith)
        requires
            exact == a.units() * n,
            0 < n,
    ;
    if exact == 0 {
        quotient_of_zero(on, a, len);
        sign_of_units(r);
    }
    lemma_signed(r, exact, len.units());
    lemma_squares(n, n);
}

/// The axis along a cross product that is not short is perpendicular to both of
/// the vectors, but for less than one part in a hundred thousand.
proof fn lemma_axis_perpendicular(on: Arithmetic, v: Vector, w: Vector)
    requires
        correctly_rounded(on),
        cross_is_held(on, v, w),
        sized(v),
        sized(w),
        forall|i: int|
            0 <= i < 3 ==> ratio_is_held(
                on,
                #[trigger] on.cross_product(v, w)[i],
                length(on, on.cross_product(v, w)),
            ),
        length(on, on.cross_product(v, w)).finite(),
        8 * length(on, on.cross_product(v, w)).units() >= one_in_units(),
        Scalar(MILLIONTH).below(length(on, on.cross_product(v, w))),
    ensures
        100_000 * magnitude(dot(v, axis_along(on, on.cross_product(v, w)))) <= one_in_units() * one_in_units(),
        100_000 * magnitude(dot(w, axis_along(on, on.cross_product(v, w)))) <= one_in_units() * one_in_units(),
{
    constants_in_units();
    let (c, e) = (on.cross_product(v, w), exact_cross(v, w));
    let len = length(on, c);
    let axis = axis_along(on, c);
    lemma_sized_is_modest(v);
    lemma_sized_is_modest(w);
    lemma_exact_cross(v, w);
    lemma_cross(on, v, w);
    lemma_cross_finite(on, v, w);
    lemma_cross_perpendicular(on, v, w);
    assert(ratio_is_held(on, c[0], len) && ratio_is_held(on, c[1], len) && ratio_is_held(on, c[2], len));
    lemma_ratio(on, c[0], len, e.0);
    lemma_ratio(on, c[1], len, e.1);
    lemma_ratio(on, c[2], len, e.2);
    lemma_divided_dot(v, c, axis, len.units());
    lemma_divided_dot(w, c, axis, len.units());
}

/// What is nearly perpendicular to a vector is so to the vector divided by its
/// length.
proof fn lemma_divided_dot(v: Vector, c: Vector, axis: Vector, l: int)
    requires
        modest_vector(v),
        one_in_units() <= 8 * l,
        100 * PARTS * magnitude(dot(v, c)) <= 624_180 * (one_in_units() * one_in_units()),
        ({
            let (n, h) = (one_in_units(), one_in_units() * one_in_units());
            &&& within(axis[0].units() * l - c[0].units() * n, 1030, h)
            &&& within(axis[1].units() * l - c[1].units() * n, 1030, h)
            &&& within(axis[2].units() * l - c[2].units() * n, 1030, h)
        }),
    ensures
        100_000 * magnitude(dot(v, axis)) <= one_in_units() * one_in_units(),
{
    constants_in_units();
    let n = one_in_units();
    let (a, b, d) = (v[0].units(), v[1].units(), v[2].units());
    let (x, y, z) = (c[0].units(), c[1].units(), c[2].units());
    let (p, q, r) = (axis[0].units(), axis[1].units(), axis[2].units());
    lemma_weighed_sum(v, p * l - x * n, q * l - y * n, r * l - z * n, 1030);
    lemma_term(a, p, l, x, n);
    lemma_term(b, q, l, y, n);
    lemma_term(d, r, l, z, n);
    lemma_three(a * p, b * q, d * r, l);
    lemma_three(a * x, b * y, d * z, n);
    lemma_quotient_bound(dot(v, axis), l, dot(v, c), n);
}

/// The parts, and a hundred times the parts, as numbers.
pub(crate) proof fn lemma_hundredfold(x: int)
    by (nonlinear_arith)
    ensures
        100 * PARTS * x == 1_717_986_918_400 * x,
        PARTS * x == 17_179_869_184 * x,
{
}

/// What a bound on the scalar product with a vector says of that with its axis.
proof fn lemma_quotient_bound(all: int, l: int, rest: int, n: int)
    requires
        0 < n,
        n <= 8 * l,
        100 * PARTS * magnitude(rest) <= 624_180 * (n * n),
        100 * PARTS * magnitude(all * l - rest * n) <= 312_090 * (n * (n * n)),
    ensures
        100_000 * magnitude(all) <= n * n,
{
    lemma_magnitude(all, l);
    lemma_magnitude(rest, n);
    let (m, k, nn, nnn) = (magnitude(all), magnitude(rest), n * n, n * (n * n));
    assert(100 * PARTS * (k * n) <= 624_180 * nnn) by (nonlinear_arith)
        requires
            100 * PARTS * k <= 624_180 * nn,
            nn == n * n,
            nnn == n * (n * n),
            0 < n,
    ;
    let ml = m * l;
    lemma_hundredfold(magnitude(all * l - rest * n));
    lemma_hundredfold(k * n);
    lemma_hundredfold(ml);
    assert(100 * PARTS * ml <= 936_270 * nnn);
    let mn = m * n;
    assert(mn <= 8 * ml) by (nonlinear_arith)
        requires
            mn == m * n,
            ml == m * l,
            n <= 8 * l,
            0 <= m,
    ;
    assert(100_000 * mn <= nnn);
    assert(100_000 * m <= nn) by (nonlinear_arith)
        requires
            100_000 * mn <= nnn,
            mn == m * n,
            nnn == n * nn,
            0 < n,
    ;
}

/// The square of a number that is a little off is a little off.
proof fn lemma_square_off(x: int, e: int, k: int, h: int)
    requires
        0 <= h,
        0 < k <= 4000,
        PARTS * magnitude(x - e) <= k * h,
    ensures
        28_000 * (PARTS * magnitude(x * x - e * e)) <= 49_000 * (k * (e * e)) + 16_001 * (k * (h * h)),
{
    let (d, p) = (x - e, PARTS as int);
    let (m, a) = (magnitude(d), magnitude(e));
    let (ee, hh, am, mm) = (e * e, h * h, a * m, m * m);
    assert(x * x - ee == 2 * (e * d) + d * d) by (nonlinear_arith)
        requires
            d == x - e,
            ee == e * e,
    ;
    assert(magnitude(e * d) == am && d * d == mm && a * a == ee) by (nonlinear_arith)
        requires
            m == magnitude(d),
            a == magnitude(e),
            am == a * m,
            mm == m * m,
            ee == e * e,
    ;
    assert(0 <= mm && 0 <= am) by (nonlinear_arith)
        requires
            0 <= m,
            0 <= a,
            am == a * m,
            mm == m * m,
    ;
    assert((p * m) * (p * m) <= (k * h) * (k * h)) by (nonlinear_arith)
        requires
            0 <= p * m <= k * h,
    ;
    assert((p * m) * (p * m) == p * (p * mm)) by (nonlinear_arith)
        requires
            mm == m * m,
    ;
    assert((k * h) * (k * h) == k * (k * hh)) by (nonlinear_arith)
        requires
            hh == h * h,
    ;
    assert(56 * (k * (p * am)) <= 49 * (k * (k * ee)) + 16 * (k * (k * hh))) by {
        let (r, s) = (7 * (k * a), 4 * (p * m));
        lemma_mean_of_squares(r, s);
        assert(r * s == 28 * (k * (p * am))) by (nonlinear_arith)
            requires
                r == 7 * (k * a),
                s == 4 * (p * m),
                am == a * m,
        ;
        assert(r * r == 49 * (k * (k * ee))) by (nonlinear_arith)
            requires
                r == 7 * (k * a),
                a * a == ee,
        ;
        assert(s * s == 16 * ((p * m) * (p * m))) by (nonlinear_arith)
            requires
                s == 4 * (p * m),
        ;
    }
    let (u, v, w) = (p * am, k * ee, k * hh);
    assert(56 * u <= 49 * v + 16 * w) by (nonlinear_arith)
        requires
            56 * (k * u) <= 49 * (k * v) + 16 * (k * w),
            0 < k,
    ;
    let z = p * mm;
    assert(0 <= w) by (nonlinear_arith)
        requires
            w == k * hh,
            hh == h * h,
            0 < k,
    ;
    assert(28_000 * z <= w) by (nonlinear_arith)
        requires
            p * z <= k * w,
            28_000 * k <= p,
            0 < p,
            0 <= w,
    {
        assert(p * (28_000 * z) <= (28_000 * k) * w);
        assert((28_000 * k) * w <= p * w);
    }
    let off = magnitude(x * x - ee);
    assert(off <= 2 * am + mm);
    assert(p * off <= 2 * u + z) by (nonlinear_arith)
        requires
            off <= 2 * am + mm,
            u == p * am,
            z == p * mm,
            0 < p,
    ;
}

/// The squared length of a vector that is near an exact one.
proof fn lemma_length_off(c: Vector, e: int, f: int, g: int, k: int)
    requires
        within(c[0].units() * one_in_units() - e, k, one_in_units() * one_in_units()),
        within(c[1].units() * one_in_units() - f, k, one_in_units() * one_in_units()),
        within(c[2].units() * one_in_units() - g, k, one_in_units() * one_in_units()),
        0 < k <= 4000,
        ({
            let h = one_in_units() * one_in_units();
            1000 * (e * e + f * f + g * g) <= 1005 * (h * h)
        }),
    ensures
        ({
            let h = one_in_units() * one_in_units();
            2 * (PARTS * magnitude(squared_length(c) * h - (e * e + f * f + g * g))) <= 7 * (k * (h * h))
        }),
{
    let n = one_in_units();
    let h = n * n;
    let (x, y, z) = (c[0].units(), c[1].units(), c[2].units());
    lemma_squares(n, n);
    lemma_square_off(x * n, e, k, h);
    lemma_square_off(y * n, f, k, h);
    lemma_square_off(z * n, g, k, h);
    lemma_three(e * e, f * f, g * g, k);
    let (all, hh) = (e * e + f * f + g * g, h * h);
    assert(1000 * (all * k) <= 1005 * (k * hh)) by (nonlinear_arith)
        requires
            1000 * all <= 1005 * hh,
            0 < k,
    ;
    assert(k * (e * e) == e * e * k && k * (f * f) == f * f * k && k * (g * g) == g * g * k) by (nonlinear_arith);
    assert(0 <= k * hh) by (nonlinear_arith)
        requires
            0 < k,
            hh == h * h,
    ;
    lemma_grouped(x, n);
    lemma_grouped(y, n);
    lemma_grouped(z, n);
    lemma_three(x * x, y * y, z * z, h);
}

/// The square of a product.
proof fn lemma_grouped(x: int, n: int)
    by (nonlinear_arith)
    ensures
        (x * n) * (x * n) == (x * x) * (n * n),
{
}

/// A product with a difference of products, the other way round.
proof fn lemma_flipped(x: int, b: int, z: int, c: int, y: int)
    by (nonlinear_arith)
    ensures
        x * (b * z - c * y) == -(x * (y * c - z * b)),
{
}

/// The square of a difference of two products.
proof fn lemma_difference_squared(b: int, z: int, c: int, y: int)
    ensures
        (b * z - c * y) * (b * z - c * y) == (b * b) * (z * z) + (c * c) * (y * y) - 2 * ((b * y) * (c * z)),
{
    let (p, q) = (b * z, c * y);
    assert((p - q) * (p - q) == p * p + q * q - 2 * (p * q)) by (nonlinear_arith);
    lemma_grouped(b, z);
    lemma_grouped(c, y);
    assert((b * z) * (c * y) == (b * y) * (c * z)) by (nonlinear_arith);
}

/// The squared length of a cross product, from those of the vectors and from
/// their scalar product.
proof fn lemma_lagrange(a: int, b: int, c: int, x: int, y: int, z: int)
    ensures
        (a * a + b * b + c * c) * (x * x + y * y + z * z) - (a * x + b * y + c * z) * (a * x + b * y + c * z) == (b * z
            - c * y) * (b * z - c * y) + (c * x - a * z) * (c * x - a * z) + (a * y - b * x) * (a * y - b * x),
{
    lemma_difference_squared(b, z, c, y);
    lemma_difference_squared(c, x, a, z);
    lemma_difference_squared(a, y, b, x);
    lemma_grouped(a, x);
    lemma_grouped(b, y);
    lemma_grouped(c, z);
    let (p, q, r) = (a * x, b * y, c * z);
    assert((p + q + r) * (p + q + r) == p * p + q * q + r * r + 2 * (p * q) + 2 * (q * r) + 2 * (r * p))
        by (nonlinear_arith);
    lemma_three(a * a, b * b, c * c, x * x + y * y + z * z);
    lemma_spread(a * a, x * x, y * y, z * z);
    lemma_spread(b * b, x * x, y * y, z * z);
    lemma_spread(c * c, x * x, y * y, z * z);
}

/// Multiplication distributes over a sum of three.
proof fn lemma_spread(d: int, a: int, b: int, c: int)
    by (nonlinear_arith)
    ensures
        d * (a + b + c) == d * a + d * b + d * c,
{
}

/// The squared length of a rounded cross product.
pub(crate) proof fn lemma_cross_length(on: Arithmetic, v: Vector, w: Vector)
    requires
        correctly_rounded(on),
        cross_is_held(on, v, w),
        sized(v),
        sized(w),
    ensures
        ({
            let h = one_in_units() * one_in_units();
            let exact = squared_length(v) * squared_length(w) - dot(v, w) * dot(v, w);
            2 * (PARTS * magnitude(squared_length(on.cross_product(v, w)) * h - exact)) <= 14_420 * (h * h)
        }),
{
    let e = exact_cross(v, w);
    let h = one_in_units() * one_in_units();
    let (p, q) = (squared_length(v), squared_length(w));
    lemma_cross(on, v, w);
    lemma_squares(one_in_units(), one_in_units());
    lemma_lagrange(v[0].units(), v[1].units(), v[2].units(), w[0].units(), w[1].units(), w[2].units());
    lemma_squares(dot(v, w), h);
    lemma_length_positive(v);
    lemma_length_positive(w);
    assert(1000 * (p * q) <= 1005 * (h * h)) by (nonlinear_arith)
        requires
            0 <= 1000 * p <= 1002 * h,
            0 <= 1000 * q <= 1002 * h,
    {
        assert((1000 * p) * (1000 * q) <= (1002 * h) * (1002 * h));
    }
    lemma_length_off(on.cross_product(v, w), e.0, e.1, e.2, 2060);
}

/// A squared length is not negative.
proof fn lemma_length_positive(v: Vector)
    ensures
        0 <= squared_length(v),
{
    lemma_squares(v[0].units(), v[1].units());
    lemma_squares(v[2].units(), v[2].units());
}

/// Bounds of a product of two numbers that are near a third.
proof fn lemma_both_near(p: int, q: int, h: int, k: int, j: int)
    requires
        0 <= h,
        0 <= k <= 100_000,
        0 <= j <= 100_000,
        within(p - h, k, h),
        within(q - h, j, h),
    ensures
        within(p * q - h * h, k + j + 1, h * h),
{
    let m = PARTS as int;
    let (d, e) = (p - h, q - h);
    let (x, y, hh) = (magnitude(d), magnitude(e), h * h);
    assert(p * q - h * h == d * h + e * h + d * e) by (nonlinear_arith)
        requires
            d == p - h,
            e == q - h,
    ;
    assert(magnitude(d * h) == x * h && magnitude(e * h) == y * h && magnitude(d * e) == x * y) by (nonlinear_arith)
        requires
            x == magnitude(d),
            y == magnitude(e),
            0 <= h,
    ;
    assert(m * (x * h) <= k * hh && m * (y * h) <= j * hh) by (nonlinear_arith)
        requires
            m * x <= k * h,
            m * y <= j * h,
            0 <= h,
            hh == h * h,
    ;
    assert(100_000 * x <= h && 100_000 * y <= h) by (nonlinear_arith)
        requires
            m * x <= k * h,
            m * y <= j * h,
            k <= 100_000,
            j <= 100_000,
            m == 0x4_0000_0000,
            0 <= h,
    {
        assert(m * x <= 100_000 * h);
        assert(m * y <= 100_000 * h);
    }
    assert(m * (x * y) <= hh) by {
        assert((m * x) * (100_000 * y) <= (100_000 * h) * h) by (nonlinear_arith)
            requires
                0 <= m * x <= k * h,
                0 <= 100_000 * y <= h,
                k <= 100_000,
                0 <= h,
        {
            assert(k * h <= 100_000 * h);
        }
        assert((m * x) * (100_000 * y) == 100_000 * (m * (x * y))) by (nonlinear_arith);
        assert((100_000 * h) * h == 100_000 * hh) by (nonlinear_arith)
            requires
                hh == h * h,
        ;
    }
    assert((k + j + 1) * hh == k * hh + j * hh + hh) by (nonlinear_arith);
}

/// The cross product of two vectors that are nearly of length one and nearly
/// perpendicular is nearly of length one.
proof fn lemma_cross_unit(on: Arithmetic, v: Vector, w: Vector, k: int, j: int)
    requires
        correctly_rounded(on),
        cross_is_held(on, v, w),
        0 <= k <= 100_000,
        0 <= j <= 100_000,
        unit_within(v, k),
        unit_within(w, j),
        10_000 * magnitude(dot(v, w)) <= one_in_units() * one_in_units(),
    ensures
        unit_within(on.cross_product(v, w), k + j + 7400),
{
    constants_in_units();
    let n = one_in_units();
    let h = n * n;
    let hh = h * h;
    let (p, q, d, c) = (squared_length(v), squared_length(w), dot(v, w), squared_length(on.cross_product(v, w)));
    assert(0 < h) by (nonlinear_arith)
        requires
            h == n * n,
            0 < n,
    ;
    lemma_unit_is_sized(v, k);
    lemma_unit_is_sized(w, j);
    lemma_cross_length(on, v, w);
    lemma_both_near(p, q, h, k, j);
    let m = magnitude(d);
    assert(d * d == m * m) by (nonlinear_arith)
        requires
            m == magnitude(d),
    ;
    assert(100_000_000 * (m * m) <= hh) by (nonlinear_arith)
        requires
            0 <= m,
            10_000 * m <= h,
            hh == h * h,
    ;
    lemma_squares(m, h);
    let x = c - h;
    assert(c * h - hh == x * h) by (nonlinear_arith)
        requires
            x == c - h,
            hh == h * h,
    ;
    lemma_magnitude(x, h);
    let (y, t) = (magnitude(x), k + j + 7400);
    assert(t * hh == (k + j + 1) * hh + 7399 * hh) by (nonlinear_arith)
        requires
            t == k + j + 7400,
    ;
    assert(PARTS * (y * h) <= t * hh);
    assert(PARTS * y <= t * h) by (nonlinear_arith)
        requires
            PARTS * (y * h) <= t * hh,
            hh == h * h,
            0 < h,
    ;
}

/// A vector that is nearly of length one is not long.
pub(crate) proof fn lemma_unit_is_sized(v: Vector, k: int)
    requires
        0 <= k <= 100_000,
        unit_within(v, k),
    ensures
        sized(v),
        modest_vector(v),
{
    let h = one_in_units() * one_in_units();
    lemma_squares(one_in_units(), one_in_units());
    assert(k * h <= 100_000 * h) by (nonlinear_arith)
        requires
            k <= 100_000,
            0 <= h,
    ;
    lemma_sized_is_modest(v);
}

/// The components of a vector that is not long are modest.
pub(crate) proof fn lemma_sized_is_modest(v: Vector)
    requires
        sized(v),
    ensures
        modest_vector(v),
{
    let (x, y, z) = (v[0].units(), v[1].units(), v[2].units());
    lemma_squares(x, y);
    lemma_squares(z, z);
    lemma_component(x, squared_length(v));
    lemma_component(y, squared_length(v));
    lemma_component(z, squared_length(v));
}

/// What has a square of about one at most is modest.
pub(crate) proof fn lemma_component(x: int, total: int)
    requires
        x * x <= total,
        1000 * total <= 1002 * (one_in_units() * one_in_units()),
    ensures
        100 * magnitude(x) <= 101 * one_in_units(),
{
    constants_in_units();
    let (m, n) = (magnitude(x), one_in_units());
    assert(m * m == x * x) by (nonlinear_arith)
        requires
            m == magnitude(x),
    ;
    if 100 * m > 101 * n {
        assert(10_000 * (m * m) > 10_201 * (n * n)) by (nonlinear_arith)
            requires
                100 * m > 101 * n,
                0 < n,
        ;
    }
}

/// A sum of two products is off by two roundings.
proof fn lemma_blend(on: Arithmetic, a: Scalar, x: Scalar, b: Scalar, y: Scalar)
    requires
        correctly_rounded(on),
        blend_is_held(on, a, x, b, y),
    ensures
        within(
            blend(on, a, x, b, y).units() * one_in_units() - (a.units() * x.units() + b.units() * y.units()),
            2049,
            magnitude(a.units() * x.units()) + magnitude(b.units() * y.units()),
        ),
{
    reveal(blend_is_held);
    lemma_held_product(on, a, x);
    lemma_held_product(on, b, y);
    lemma_held_sum(on, on.product(a, x), on.product(b, y), a.units() * x.units(), b.units() * y.units());
}

/// Nothing overflows or underflows in a sum of two products.
#[verifier::opaque]
pub open spec fn blend_is_held(on: Arithmetic, a: Scalar, x: Scalar, b: Scalar, y: Scalar) -> bool {
    product_is_held(on, a, x) && product_is_held(on, b, y) && blend(on, a, x, b, y).finite()
}

/// The first direction of the tangent plane.
pub open spec fn tangent(on: Arithmetic, d: Vector) -> Vector {
    on.unit(on.cross_product(reference_up(d), d))
}

/// The second direction of the tangent plane.
pub open spec fn bitangent(on: Arithmetic, d: Vector) -> Vector {
    on.cross_product(d, tangent(on, d))
}

/// The square of a blend of two numbers.
proof fn lemma_blend_squared(t: int, c: int, b: int, s: int)
    ensures
        (t * c + b * s) * (t * c + b * s) == (t * t) * (c * c) + (b * b) * (s * s) + (t * b) * (2 * (c * s)),
{
    let (p, q) = (t * c, b * s);
    assert((p + q) * (p + q) == p * p + q * q + 2 * (p * q)) by (nonlinear_arith);
    lemma_grouped(t, c);
    lemma_grouped(b, s);
    assert(2 * ((t * c) * (b * s)) == (t * b) * (2 * (c * s))) by (nonlinear_arith);
}

/// An error, weighed by a number.
proof fn lemma_error_weighed(x: int, w: int, k: int, h: int)
    requires
        0 <= w,
        within(x, k, h),
    ensures
        PARTS * magnitude(x * w) <= k * (h * w),
{
    let p = magnitude(x);
    lemma_magnitude(x, w);
    assert(PARTS * (p * w) <= k * (h * w)) by (nonlinear_arith)
        requires
            PARTS * p <= k * h,
            0 <= w,
    ;
}

/// The exact squared length of a blend of two vectors that are nearly of length
/// one and nearly perpendicular.
proof fn lemma_blend_exact(t: int, b: int, k: int, c: int, s: int, h: int)
    requires
        0 < h,
        within(t - h, 28_018, h),
        within(b - h, 28_018, h),
        within(k, 6242, h),
        near(s * s + c * c, h, 4096),
    ensures
        within(t * (c * c) + b * (s * s) + k * (2 * (c * s)) - h * h, 38_400, h * h),
{
    let hh = h * h;
    let (cc, ss, cs) = (c * c, s * s, 2 * (c * s));
    lemma_squares(c, s);
    lemma_squares(h, h);
    lemma_error_weighed(t - h, cc, 28_018, h);
    lemma_error_weighed(b - h, ss, 28_018, h);
    lemma_mean_of_squares(c, s);
    let m = magnitude(cs);
    assert(m <= cc + ss);
    lemma_error_weighed(k, m, 6242, h);
    assert(magnitude(k * cs) == magnitude(k * m)) by (nonlinear_arith)
        requires
            m == magnitude(cs),
    ;
    assert((t - h) * cc == t * cc - h * cc && (b - h) * ss == b * ss - h * ss) by (nonlinear_arith);
    let off = ss + cc - h;
    lemma_error_weighed(off, h, 4096, h);
    assert(off * h == h * ss + h * cc - hh) by (nonlinear_arith)
        requires
            off == ss + cc - h,
            hh == h * h,
    ;
    let all = h * cc + h * ss;
    assert(1000 * all <= 1001 * hh) by (nonlinear_arith)
        requires
            1000 * (ss + cc) <= 1001 * h,
            all == h * cc + h * ss,
            hh == h * h,
            0 < h,
    ;
    assert(h * m <= all) by (nonlinear_arith)
        requires
            m <= cc + ss,
            all == h * cc + h * ss,
            0 < h,
    ;
}

/// The squared length of such a blend, once it is rounded.
proof fn lemma_blend_length(total: int, exact: int, h: int)
    requires
        0 < h,
        within(exact - h * h, 38_400, h * h),
        2 * (PARTS * magnitude(total * h - exact)) <= 21_560 * (h * h),
    ensures
        within(total - h, 49_200, h),
{
    let (hh, x) = (h * h, total - h);
    assert(x * h == total * h - hh) by (nonlinear_arith)
        requires
            x == total - h,
            hh == h * h,
    ;
    lemma_magnitude(x, h);
    lemma_squares(h, h);
    let y = magnitude(x);
    assert(PARTS * (y * h) <= 49_200 * hh);
    assert(PARTS * y <= 49_200 * h) by (nonlinear_arith)
        requires
            PARTS * (y * h) <= 49_200 * hh,
            hh == h * h,
            0 < h,
    ;
}

/// Nothing overflows or underflows where the lean axis at an angle is found,
/// cross products are what their formula gives, and lengths are sound.
pub open spec fn lean_is_held(on: Arithmetic, d: Vector, phi: Scalar) -> bool {
    let (t, b) = (tangent(on, d), bitangent(on, d));
    let (c, s) = (on.cosine(phi), on.sine(phi));
    let w = tangent_direction(on, d, phi);
    let v = on.cross_product(d, w);
    &&& cross_is_held(on, d, t)
    &&& blend_is_held(on, t[0], c, b[0], s)
    &&& blend_is_held(on, t[1], c, b[1], s)
    &&& blend_is_held(on, t[2], c, b[2], s)
    &&& cross_is_held(on, d, w)
    &&& length_is_sound(on, v)
    &&& forall|i: int| 0 <= i < 3 ==> ratio_is_held(on, #[trigger] v[i], length(on, v))
}

/// The first direction of the tangent plane is of length one, but for six parts
/// in ten million, and perpendicular, but for one part in a hundred thousand.
pub open spec fn tangent_is_sound(on: Arithmetic, d: Vector) -> bool {
    let h = one_in_units() * one_in_units();
    nearly_unit(tangent(on, d)) && 100_000 * magnitude(dot(d, tangent(on, d))) <= h
}

/// Cosine and sine of an angle are modest.
pub(crate) proof fn lemma_circle_is_modest(on: Arithmetic, phi: Scalar)
    requires
        on_unit_circle(on, phi),
    ensures
        modest(on.cosine(phi)),
        modest(on.sine(phi)),
{
    let (s, c) = (on.sine(phi).units(), on.cosine(phi).units());
    lemma_squares(s, c);
    lemma_squares(one_in_units(), one_in_units());
    lemma_component(c, s * s + c * c);
    lemma_component(s, s * s + c * c);
}

/// The reference direction is of length one, and clearly not parallel to a
/// direction of length one.
pub(crate) proof fn lemma_reference(d: Vector)
    requires
        nearly_unit(d),
        !d[1].nan(),
    ensures
        ({
            let (up, h) = (reference_up(d), one_in_units() * one_in_units());
            &&& squared_length(up) == h
            &&& 1000 * (squared_length(up) * squared_length(d) - dot(up, d) * dot(up, d)) >= 19 * (h * h)
        }),
{
    constants_in_units();
    let n = one_in_units();
    let h = n * n;
    let up = reference_up(d);
    let (x, y, z) = (d[0].units(), d[1].units(), d[2].units());
    let bound = Scalar(NEARLY_ONE).units();
    lemma2_to64();
    lemma_pow2_unfold(126);
    lemma_pow2_pos(125);
    assert(Scalar(NEARLY_ONE).unsigned() / 0x80_0000 == 126 && Scalar(NEARLY_ONE).unsigned() % 0x80_0000 == 0x7d_70a4);
    assert(bound == 0xfd_70a4 * pow2(125));
    absolute_is_magnitude(d[1]);
    lemma_squares(x, y);
    lemma_squares(z, n);
    lemma_squares(h, h);
    let (q, m) = (squared_length(d), magnitude(y));
    assert(m * m == y * y) by (nonlinear_arith)
        requires
            m == magnitude(y),
    ;
    let k = if d[1].absolute().below(Scalar(NEARLY_ONE)) {
        y
    } else {
        x
    };
    if d[1].absolute().below(Scalar(NEARLY_ONE)) {
        assert(1_000_000 * m <= 990_001 * n);
        assert(10_000 * (m * m) <= 9802 * h) by (nonlinear_arith)
            requires
                0 <= 1_000_000 * m <= 990_001 * n,
                h == n * n,
        {
            assert((1_000_000 * m) * (1_000_000 * m) <= (990_001 * n) * (990_001 * n));
        }
    } else {
        assert(1_000_000 * m >= 989_999 * n);
        assert(100 * (m * m) >= 98 * h) by (nonlinear_arith)
            requires
                1_000_000 * m >= 989_999 * n,
                0 < n,
                h == n * n,
        {
            assert((1_000_000 * m) * (1_000_000 * m) >= (989_999 * n) * (989_999 * n));
        }
    }
    assert(1000 * (q - k * k) >= 19 * h);
    assert(0 * x == 0 && 0 * y == 0 && 0 * z == 0 && 0int * 0 == 0);
    assert(up[0].units() * up[0].units() + up[1].units() * up[1].units() + up[2].units() * up[2].units() == h);
    assert(dot(up, d) == n * k);
    let rest = q - k * k;
    assert(h * q - (n * k) * (n * k) == h * rest) by (nonlinear_arith)
        requires
            rest == q - k * k,
            h == n * n,
    ;
    assert(1000 * (h * rest) >= 19 * (h * h)) by (nonlinear_arith)
        requires
            1000 * rest >= 19 * h,
            0 <= h,
    ;
}

/// The cross product with the reference direction is not short.
pub(crate) proof fn lemma_reference_cross(on: Arithmetic, d: Vector)
    requires
        correctly_rounded(on),
        nearly_unit(d),
        !d[1].nan(),
        cross_is_held(on, reference_up(d), d),
        length_is_sound(on, on.cross_product(reference_up(d), d)),
    ensures
        sized(d),
        sized(reference_up(d)),
        8 * length(on, on.cross_product(reference_up(d), d)).units() >= one_in_units(),
        Scalar(MILLIONTH).below(length(on, on.cross_product(reference_up(d), d))),
{
    constants_in_units();
    let (n, up) = (one_in_units(), reference_up(d));
    let h = n * n;
    let c = on.cross_product(up, d);
    let len = length(on, c);
    let l = len.units();
    let (total, ll) = (squared_length(c), l * l);
    assert(0 < h) by (nonlinear_arith)
        requires
            h == n * n,
            0 < n,
    ;
    lemma_reference(d);
    lemma_unit_is_sized(d, 10_309);
    lemma_cross_length(on, up, d);
    lemma_length_near(on, c);
    lemma_squares(l, h);
    assert(10_000 * (total * h) >= 180 * (h * h));
    assert(10_000 * total >= 180 * h) by (nonlinear_arith)
        requires
            10_000 * (total * h) >= 180 * (h * h),
            0 < h,
    ;
    assert(h <= 64 * ll);
    if 8 * l < n {
        assert(64 * (l * l) < n * n) by (nonlinear_arith)
            requires
                0 <= 8 * l < n,
        ;
    }
    let eighth = Scalar(0x3e00_0000);
    lemma2_to64();
    lemma_pow2_unfold(126);
    lemma_pow2_unfold(125);
    lemma_pow2_unfold(124);
    assert(eighth.unsigned() / 0x80_0000 == 124 && eighth.unsigned() % 0x80_0000 == 0);
    assert(8 * eighth.units() == n);
    lemma_rank_orders(Scalar(MILLIONTH), eighth);
}

/// Where vectors are normalized by dividing them by their length, the first
/// direction of the tangent plane is as it is asked to be.
pub proof fn divided_tangent_is_sound(on: Arithmetic, d: Vector)
    requires
        correctly_rounded(on),
        nearly_unit(d),
        !d[1].nan(),
        ({
            let c = on.cross_product(reference_up(d), d);
            &&& cross_is_held(on, reference_up(d), d)
            &&& length_is_sound(on, c)
            &&& forall|i: int| 0 <= i < 3 ==> ratio_is_held(on, #[trigger] c[i], length(on, c))
            &&& on.unit(c) == axis_along(on, c)
        }),
    ensures
        tangent_is_sound(on, d),
{
    lemma_reference_cross(on, d);
    lemma_axis_perpendicular(on, reference_up(d), d);
    axis_is_unit(on, on.cross_product(reference_up(d), d));
}

/// What the parts of the tangent plane are like.
proof fn lemma_plane(on: Arithmetic, d: Vector, t: Vector)
    requires
        correctly_rounded(on),
        nearly_unit(d),
        nearly_unit(t),
        100_000 * magnitude(dot(d, t)) <= one_in_units() * one_in_units(),
        cross_is_held(on, d, t),
    ensures
        sized(d),
        sized(t),
        sized(on.cross_product(d, t)),
        unit_within(d, 10_309),
        unit_within(t, 10_309),
        unit_within(on.cross_product(d, t), 28_018),
        within(dot(d, on.cross_product(d, t)), 6242, one_in_units() * one_in_units()),
        within(dot(t, on.cross_product(d, t)), 6242, one_in_units() * one_in_units()),
{
    let b = on.cross_product(d, t);
    lemma_squares(one_in_units(), one_in_units());
    lemma_unit_is_sized(d, 10_309);
    lemma_unit_is_sized(t, 10_309);
    lemma_cross_unit(on, d, t, 10_309, 10_309);
    lemma_unit_is_sized(b, 28_018);
    lemma_cross_perpendicular(on, d, t);
    lemma_hundredfold(magnitude(dot(d, b)));
    lemma_hundredfold(magnitude(dot(t, b)));
}

/// The scalar product with a blend of two vectors.
proof fn lemma_blend_dot(a: int, t: int, c: int, b: int, s: int)
    by (nonlinear_arith)
    ensures
        a * (t * c + b * s) == (a * t) * c + (a * b) * s,
{
}

/// The scalar product with a blend is small where those with its parts are.
proof fn lemma_blend_dot_bound(all: int, off: int, p: int, q: int, c: int, s: int, n: int)
    requires
        0 < n,
        100 * magnitude(c) <= 101 * n,
        100 * magnitude(s) <= 101 * n,
        100_000 * magnitude(p) <= n * n,
        within(q, 6242, n * n),
        100 * PARTS * magnitude(off) <= 933_240 * (n * (n * n)),
        all * n == off + (p * c + q * s),
    ensures
        10_000 * magnitude(all) <= n * n,
{
    let (h, nnn) = (n * n, n * (n * n));
    lemma_hundredfold(magnitude(off));
    assert(0 < h) by (nonlinear_arith)
        requires
            h == n * n,
            0 < n,
    ;
    let (mp, mq, mc, ms) = (magnitude(p), magnitude(q), magnitude(c), magnitude(s));
    assert(magnitude(p * c) == mp * mc && magnitude(q * s) == mq * ms) by (nonlinear_arith)
        requires
            mp == magnitude(p),
            mq == magnitude(q),
            mc == magnitude(c),
            ms == magnitude(s),
    ;
    assert((100_000 * mp) * (100 * mc) <= h * (101 * n)) by (nonlinear_arith)
        requires
            0 <= mp,
            0 <= mc,
            100_000 * mp <= h,
            100 * mc <= 101 * n,
            0 < h,
    ;
    assert((100_000 * mq) * (100 * ms) <= h * (101 * n)) by (nonlinear_arith)
        requires
            0 <= mq,
            0 <= ms,
            100_000 * mq <= h,
            100 * ms <= 101 * n,
            0 < h,
    ;
    assert((100_000 * mp) * (100 * mc) == 10_000_000 * (mp * mc)) by (nonlinear_arith);
    assert((100_000 * mq) * (100 * ms) == 10_000_000 * (mq * ms)) by (nonlinear_arith);
    assert(h * (101 * n) == 101 * nnn) by (nonlinear_arith)
        requires
            nnn == n * h,
    ;
    assert(0 < nnn) by (nonlinear_arith)
        requires
            nnn == n * h,
            0 < n,
            0 < h,
    ;
    lemma_magnitude(all, n);
    let m = magnitude(all);
    assert(10_000 * (m * n) <= nnn);
    assert(10_000 * m <= h) by (nonlinear_arith)
        requires
            10_000 * (m * n) <= nnn,
            nnn == n * h,
            0 < n,
    ;
}

/// A vector is a blend of two others, but for little.
pub open spec fn is_blend(w: Vector, t: Vector, c: int, b: Vector, s: int) -> bool {
    let (n, h) = (one_in_units(), one_in_units() * one_in_units());
    &&& within(w[0].units() * n - (t[0].units() * c + b[0].units() * s), 3080, h)
    &&& within(w[1].units() * n - (t[1].units() * c + b[1].units() * s), 3080, h)
    &&& within(w[2].units() * n - (t[2].units() * c + b[2].units() * s), 3080, h)
}

/// A blend of two vectors that are nearly of length one and nearly
/// perpendicular is nearly of length one.
proof fn lemma_blend_is_unit(w: Vector, t: Vector, c: int, b: Vector, s: int)
    requires
        is_blend(w, t, c, b, s),
        unit_within(t, 10_309),
        unit_within(b, 28_018),
        within(dot(t, b), 6242, one_in_units() * one_in_units()),
        near(s * s + c * c, one_in_units() * one_in_units(), 4096),
    ensures
        unit_within(w, 49_200),
{
    constants_in_units();
    let n = one_in_units();
    let h = n * n;
    let (t0, t1, t2) = (t[0].units(), t[1].units(), t[2].units());
    let (b0, b1, b2) = (b[0].units(), b[1].units(), b[2].units());
    let (e, f, g) = (t0 * c + b0 * s, t1 * c + b1 * s, t2 * c + b2 * s);
    assert(0 < h) by (nonlinear_arith)
        requires
            h == n * n,
            0 < n,
    ;
    lemma_squares(h, h);
    lemma_blend_squared(t0, c, b0, s);
    lemma_blend_squared(t1, c, b1, s);
    lemma_blend_squared(t2, c, b2, s);
    lemma_three(t0 * t0, t1 * t1, t2 * t2, c * c);
    lemma_three(b0 * b0, b1 * b1, b2 * b2, s * s);
    lemma_three(t0 * b0, t1 * b1, t2 * b2, 2 * (c * s));
    lemma_blend_exact(squared_length(t), squared_length(b), dot(t, b), c, s, h);
    lemma_length_off(w, e, f, g, 3080);
    lemma_blend_length(squared_length(w), e * e + f * f + g * g, h);
}

/// A blend of two vectors that are nearly perpendicular to a third is nearly
/// perpendicular to it.
proof fn lemma_blend_is_perpendicular(d: Vector, w: Vector, t: Vector, c: int, b: Vector, s: int)
    requires
        is_blend(w, t, c, b, s),
        modest_vector(d),
        ({
            let (n, h) = (one_in_units(), one_in_units() * one_in_units());
            &&& 100_000 * magnitude(dot(d, t)) <= h
            &&& within(dot(d, b), 6242, h)
            &&& 100 * magnitude(c) <= 101 * n
            &&& 100 * magnitude(s) <= 101 * n
        }),
    ensures
        10_000 * magnitude(dot(d, w)) <= one_in_units() * one_in_units(),
{
    constants_in_units();
    let n = one_in_units();
    let (t0, t1, t2) = (t[0].units(), t[1].units(), t[2].units());
    let (b0, b1, b2) = (b[0].units(), b[1].units(), b[2].units());
    let (d0, d1, d2) = (d[0].units(), d[1].units(), d[2].units());
    let (x, y, z) = (w[0].units(), w[1].units(), w[2].units());
    let (e, f, g) = (t0 * c + b0 * s, t1 * c + b1 * s, t2 * c + b2 * s);
    lemma_weighed_sum(d, x * n - e, y * n - f, z * n - g, 3080);
    lemma_term(d0, x, n, e, 1);
    lemma_term(d1, y, n, f, 1);
    lemma_term(d2, z, n, g, 1);
    lemma_three(d0 * x, d1 * y, d2 * z, n);
    lemma_blend_dot(d0, t0, c, b0, s);
    lemma_blend_dot(d1, t1, c, b1, s);
    lemma_blend_dot(d2, t2, c, b2, s);
    lemma_three(d0 * t0, d1 * t1, d2 * t2, c);
    lemma_three(d0 * b0, d1 * b1, d2 * b2, s);
    let off = d0 * (x * n - e) + d1 * (y * n - f) + d2 * (z * n - g);
    lemma_blend_dot_bound(dot(d, w), off, dot(d, t), dot(d, b), c, s, n);
}

/// One component of a blend of vectors that are not long.
proof fn lemma_blend_component(r: int, t: int, c: int, b: int, s: int, h: int)
    requires
        0 <= h,
        within(r - (t * c + b * s), 2049, magnitude(t * c) + magnitude(b * s)),
        1000 * (t * t) <= 1002 * h,
        1000 * (b * b) <= 1002 * h,
        near(s * s + c * c, h, 4096),
    ensures
        within(r - (t * c + b * s), 3080, h),
{
    lemma_mean_of_squares(t, c);
    lemma_mean_of_squares(b, s);
}

/// The squares of the components of a vector that is not long.
proof fn lemma_component_squares(v: Vector)
    requires
        sized(v),
    ensures
        ({
            let h = one_in_units() * one_in_units();
            &&& 1000 * (v[0].units() * v[0].units()) <= 1002 * h
            &&& 1000 * (v[1].units() * v[1].units()) <= 1002 * h
            &&& 1000 * (v[2].units() * v[2].units()) <= 1002 * h
        }),
{
    lemma_squares(v[0].units(), v[1].units());
    lemma_squares(v[2].units(), v[2].units());
}

/// The direction in the tangent plane at an angle is a blend of the two
/// directions of the plane.
proof fn lemma_tangent_blend(on: Arithmetic, d: Vector, phi: Scalar)
    requires
        correctly_rounded(on),
        sized(tangent(on, d)),
        sized(bitangent(on, d)),
        on_unit_circle(on, phi),
        lean_is_held(on, d, phi),
    ensures
        is_blend(
            tangent_direction(on, d, phi),
            tangent(on, d),
            on.cosine(phi).units(),
            bitangent(on, d),
            on.sine(phi).units(),
        ),
{
    let n = one_in_units();
    let (t, b) = (tangent(on, d), bitangent(on, d));
    let (c, s) = (on.cosine(phi), on.sine(phi));
    let w = tangent_direction(on, d, phi);
    lemma_squares(n, n);
    lemma_component_squares(t);
    lemma_component_squares(b);
    lemma_blend(on, t[0], c, b[0], s);
    lemma_blend(on, t[1], c, b[1], s);
    lemma_blend(on, t[2], c, b[2], s);
    assert(w[0] == blend(on, t[0], c, b[0], s));
    assert(w[1] == blend(on, t[1], c, b[1], s));
    assert(w[2] == blend(on, t[2], c, b[2], s));
    lemma_blend_component(w[0].units() * n, t[0].units(), c.units(), b[0].units(), s.units(), n * n);
    lemma_blend_component(w[1].units() * n, t[1].units(), c.units(), b[1].units(), s.units(), n * n);
    lemma_blend_component(w[2].units() * n, t[2].units(), c.units(), b[2].units(), s.units(), n * n);
}

/// A length whose square is near one is near one.
proof fn lemma_not_short(total: int, len: Scalar)
    requires
        near(total, len.units() * len.units(), 5140),
        len.finite(),
        0 <= len.units(),
        within(total - one_in_units() * one_in_units(), 66_909, one_in_units() * one_in_units()),
    ensures
        2 * len.units() >= one_in_units(),
        Scalar(MILLIONTH).below(len),
        within(len.units() - one_in_units(), 36_200, one_in_units()),
{
    constants_in_units();
    let (n, l) = (one_in_units(), len.units());
    let (h, ll) = (n * n, l * l);
    lemma_squares(n, l);
    assert(within(ll - h, 72_200, h));
    if 2 * l < n {
        assert(4 * (l * l) <= n * n) by (nonlinear_arith)
            requires
                0 <= 2 * l < n,
        ;
        assert(0 < h) by (nonlinear_arith)
            requires
                h == n * n,
                0 < n,
        ;
    }
    lemma_rank_orders(Scalar(MILLIONTH), Scalar(HALF));
    let (x, y) = (l - n, l + n);
    let m = magnitude(x);
    assert(magnitude(ll - h) == m * y) by (nonlinear_arith)
        requires
            m == magnitude(x),
            x == l - n,
            y == l + n,
            0 <= y,
            ll == l * l,
            h == n * n,
    ;
    assert(m * n <= m * y) by (nonlinear_arith)
        requires
            n <= y,
            0 <= m,
    ;
    assert(PARTS * m <= 72_200 * n) by (nonlinear_arith)
        requires
            PARTS * (m * n) <= 72_200 * (n * n),
            0 < n,
    ;
    assert(1999 * (m * n) <= 1000 * (m * y)) by (nonlinear_arith)
        requires
            1999 * n <= 1000 * y,
            0 <= m,
    ;
    assert(PARTS * m <= 36_200 * n) by (nonlinear_arith)
        requires
            1999 * (PARTS * (m * n)) <= 72_200_000 * (n * n),
            0 < n,
    ;
}

/// The axis along the cross product with a vector that is nearly of length one
/// and nearly perpendicular.
proof fn lemma_axis_of_cross(on: Arithmetic, d: Vector, w: Vector)
    requires
        correctly_rounded(on),
        cross_is_held(on, d, w),
        length_is_sound(on, on.cross_product(d, w)),
        forall|i: int|
            0 <= i < 3 ==> ratio_is_held(
                on,
                #[trigger] on.cross_product(d, w)[i],
                length(on, on.cross_product(d, w)),
            ),
        unit_within(d, 10_309),
        unit_within(w, 49_200),
        10_000 * magnitude(dot(d, w)) <= one_in_units() * one_in_units(),
    ensures
        nearly_unit(axis_along(on, on.cross_product(d, w))),
        100_000 * magnitude(dot(d, axis_along(on, on.cross_product(d, w)))) <= one_in_units() * one_in_units(),
{
    let v = on.cross_product(d, w);
    lemma_unit_is_sized(d, 10_309);
    lemma_unit_is_sized(w, 49_200);
    lemma_cross_unit(on, d, w, 10_309, 49_200);
    lemma_length_near(on, v);
    lemma_not_short(squared_length(v), length(on, v));
    lemma_axis_perpendicular(on, d, w);
    axis_is_unit(on, v);
}

/// A vector of the tangent plane, from what it is blended of.
proof fn lemma_in_plane(on: Arithmetic, d: Vector, t: Vector, w: Vector, c: int, s: int)
    requires
        correctly_rounded(on),
        nearly_unit(d),
        nearly_unit(t),
        cross_is_held(on, d, t),
        is_blend(w, t, c, on.cross_product(d, t), s),
        ({
            let (n, h) = (one_in_units(), one_in_units() * one_in_units());
            &&& 100_000 * magnitude(dot(d, t)) <= h
            &&& near(s * s + c * c, h, 4096)
            &&& 100 * magnitude(c) <= 101 * n
            &&& 100 * magnitude(s) <= 101 * n
        }),
    ensures
        unit_within(d, 10_309),
        unit_within(w, 49_200),
        10_000 * magnitude(dot(d, w)) <= one_in_units() * one_in_units(),
{
    let b = on.cross_product(d, t);
    lemma_squares(one_in_units(), one_in_units());
    lemma_plane(on, d, t);
    lemma_sized_is_modest(d);
    lemma_blend_is_unit(w, t, c, b, s);
    lemma_blend_is_perpendicular(d, w, t, c, b, s);
}

/// The axis that a bump leans about is a unit vector, and perpendicular to the
/// direction of the bump, but for one part in a hundred thousand.
pub proof fn lean_axis_is_perpendicular(on: Arithmetic, d: Vector, phi: Scalar)
    requires
        correctly_rounded(on),
        nearly_unit(d),
        tangent_is_sound(on, d),
        on_unit_circle(on, phi),
        lean_is_held(on, d, phi),
    ensures
        nearly_unit(lean_axis_at(on, d, phi)),
        100_000 * magnitude(dot(d, lean_axis_at(on, d, phi))) <= one_in_units() * one_in_units(),
{
    let t = tangent(on, d);
    let w = tangent_direction(on, d, phi);
    lemma_plane(on, d, t);
    lemma_circle_is_modest(on, phi);
    lemma_tangent_blend(on, d, phi);
    lemma_in_plane(on, d, t, w, on.cosine(phi).units(), on.sine(phi).units());
    lemma_axis_of_cross(on, d, w);
}

/// The shader is handed a direction that is a unit vector, and a lean axis that
/// is a unit vector perpendicular to it.
pub proof fn packed_vectors_are_perpendicular(on: Arithmetic, bump: BumpParams)
    requires
        correctly_rounded(on),
        on_unit_circle(on, bump.theta),
        on_unit_circle(on, bump.phi),
        on_unit_circle(on, bump.lean_direction_phi),
        product_is_held(on, on.sine(bump.theta), on.cosine(bump.phi)),
        product_is_held(on, on.sine(bump.theta), on.sine(bump.phi)),
        tangent_is_sound(on, bump.points_along(on)),
        lean_is_held(on, bump.points_along(on), bump.lean_direction_phi),
    ensures
        ({
            let (d, a) = (bump.packed(on).direction_amplitude, bump.packed(on).lean_axis_amount);
            let (direction, axis) = ([d[0], d[1], d[2]], [a[0], a[1], a[2]]);
            &&& nearly_unit(direction)
            &&& nearly_unit(axis)
            &&& 100_000 * magnitude(dot(direction, axis)) <= one_in_units() * one_in_units()
        }),
{
    direction_is_unit(on, bump.theta, bump.phi);
    lean_axis_is_perpendicular(on, bump.points_along(on), bump.lean_direction_phi);
}

/// A component of an axis, from the exact cross product.
proof fn lemma_axis_component(a: int, l: int, x: int, e: int, n: int)
    requires
        0 < n,
        100 * magnitude(a) <= 101 * n,
        within(l - n, 36_200, n),
        within(a * l - x * n, 1030, n * n),
        within(x * n - e, 2060, n * n),
    ensures
        within(a * n - e, 39_700, n * n),
{
    let h = n * n;
    let (m, d) = (magnitude(a), l - n);
    let k = magnitude(d);
    assert(a * l - a * n == a * d) by (nonlinear_arith)
        requires
            d == l - n,
    ;
    assert(magnitude(a * d) == m * k) by (nonlinear_arith)
        requires
            m == magnitude(a),
            k == magnitude(d),
    ;
    let p = PARTS as int;
    assert((100 * m) * (p * k) <= (101 * n) * (36_200 * n)) by (nonlinear_arith)
        requires
            0 <= 100 * m <= 101 * n,
            0 <= p * k <= 36_200 * n,
    ;
    assert((100 * m) * (p * k) == 100 * (p * (m * k))) by (nonlinear_arith);
    assert((101 * n) * (36_200 * n) == 3_656_200 * h) by (nonlinear_arith)
        requires
            h == n * n,
    ;
    lemma_squares(n, n);
}

/// The axis along a cross product that is nearly of length one is near the
/// exact cross product.
proof fn lemma_axis_near(on: Arithmetic, d: Vector, w: Vector)
    requires
        correctly_rounded(on),
        cross_is_held(on, d, w),
        length_is_sound(on, on.cross_product(d, w)),
        forall|i: int|
            0 <= i < 3 ==> ratio_is_held(
                on,
                #[trigger] on.cross_product(d, w)[i],
                length(on, on.cross_product(d, w)),
            ),
        unit_within(d, 10_309),
        unit_within(w, 49_200),
        10_000 * magnitude(dot(d, w)) <= one_in_units() * one_in_units(),
    ensures
        ({
            let (n, h) = (one_in_units(), one_in_units() * one_in_units());
            let (a, e) = (axis_along(on, on.cross_product(d, w)), exact_cross(d, w));
            &&& within(a[0].units() * n - e.0, 39_700, h)
            &&& within(a[1].units() * n - e.1, 39_700, h)
            &&& within(a[2].units() * n - e.2, 39_700, h)
        }),
{
    constants_in_units();
    let n = one_in_units();
    let (v, e) = (on.cross_product(d, w), exact_cross(d, w));
    let len = length(on, v);
    let a = axis_along(on, v);
    lemma_squares(n, n);
    lemma_axis_of_cross(on, d, w);
    lemma_unit_is_sized(a, 10_309);
    lemma_unit_is_sized(d, 10_309);
    lemma_unit_is_sized(w, 49_200);
    lemma_cross_unit(on, d, w, 10_309, 49_200);
    lemma_length_near(on, v);
    lemma_not_short(squared_length(v), len);
    lemma_exact_cross(d, w);
    lemma_cross(on, d, w);
    lemma_cross_finite(on, d, w);
    assert(ratio_is_held(on, v[0], len) && ratio_is_held(on, v[1], len) && ratio_is_held(on, v[2], len));
    lemma_ratio(on, v[0], len, e.0);
    lemma_ratio(on, v[1], len, e.1);
    lemma_ratio(on, v[2], len, e.2);
    lemma_axis_component(a[0].units(), len.units(), v[0].units(), e.0, n);
    lemma_axis_component(a[1].units(), len.units(), v[1].units(), e.1, n);
    lemma_axis_component(a[2].units(), len.units(), v[2].units(), e.2, n);
}

/// The components of a cross product that is held are finite.
pub(crate) proof fn lemma_cross_finite(on: Arithmetic, v: Vector, w: Vector)
    requires
        cross_is_held(on, v, w),
    ensures
        on.cross_product(v, w)[0].finite(),
        on.cross_product(v, w)[1].finite(),
        on.cross_product(v, w)[2].finite(),
{
    reveal(cross_is_held);
}

/// One component of a cross product with a blend, `a * y - b * x`.
proof fn lemma_cross_blend(a: int, b: int, x: int, y: int, t: int, u: int, p: int, q: int, c: int, s: int, n: int)
    requires
        0 < n,
        100 * magnitude(a) <= 101 * n,
        100 * magnitude(b) <= 101 * n,
        within(x * n - (t * c + p * s), 3080, n * n),
        within(y * n - (u * c + q * s), 3080, n * n),
    ensures
        within((a * y - b * x) * n - ((a * u - b * t) * c + (a * q - b * p) * s), 6300, n * (n * n)),
{
    let (e, f) = (t * c + p * s, u * c + q * s);
    let (g, k) = (x * n - e, y * n - f);
    lemma_squares(n, n);
    lemma_weighed(a, k, 3080, n, n * n);
    lemma_weighed(b, g, 3080, n, n * n);
    lemma_hundredfold(magnitude(a * k));
    lemma_hundredfold(magnitude(b * g));
    lemma_term(a, y, n, f, 1);
    lemma_term(b, x, n, e, 1);
    lemma_blend_dot(a, u, c, q, s);
    lemma_blend_dot(b, t, c, p, s);
    assert((a * y - b * x) * n == (a * y) * n - (b * x) * n) by (nonlinear_arith);
    assert((a * u - b * t) * c == (a * u) * c - (b * t) * c) by (nonlinear_arith);
    assert((a * q - b * p) * s == (a * q) * s - (b * p) * s) by (nonlinear_arith);
    let off = (a * y - b * x) * n - ((a * u - b * t) * c + (a * q - b * p) * s);
    assert(off == a * k - b * g);
    lemma_hundredfold(magnitude(off));
    let w = n * (n * n);
    assert(1_717_986_918_400 * magnitude(a * k) <= 311_080 * w);
    assert(1_717_986_918_400 * magnitude(b * g) <= 311_080 * w);
    assert(1_717_986_918_400 * magnitude(off) <= 622_160 * w);
    assert(17_179_869_184 * magnitude(off) <= 6300 * w);
    assert(0 <= n * (n * n)) by (nonlinear_arith)
        requires
            0 < n,
    ;
}

/// What is near something near.
proof fn lemma_composed(a: int, e: int, z: int, n: int)
    requires
        0 < n,
        within(a * n - e, 39_700, n * n),
        within(e * n - z, 6300, n * (n * n)),
    ensures
        within(a * n * n - z, 46_000, n * (n * n)),
{
    let (d, h) = (a * n - e, n * n);
    lemma_magnitude(d, n);
    let m = magnitude(d);
    assert(d * n == a * n * n - e * n) by (nonlinear_arith)
        requires
            d == a * n - e,
    ;
    assert(PARTS * (m * n) <= 39_700 * (n * h)) by (nonlinear_arith)
        requires
            PARTS * m <= 39_700 * h,
            0 < n,
    ;
}

/// A vector is a blend of two exact cross products, but for little.
pub open spec fn is_cross_blend(a: Vector, x: (int, int, int), c: int, y: (int, int, int), s: int) -> bool {
    let n = one_in_units();
    &&& within(a[0].units() * n * n - (x.0 * c + y.0 * s), 46_000, n * (n * n))
    &&& within(a[1].units() * n * n - (x.1 * c + y.1 * s), 46_000, n * (n * n))
    &&& within(a[2].units() * n * n - (x.2 * c + y.2 * s), 46_000, n * (n * n))
}

/// An axis that is near the exact cross product with a blend.
proof fn lemma_axis_blend(a: Vector, d: Vector, w: Vector, t: Vector, c: int, b: Vector, s: int)
    requires
        sized(d),
        is_blend(w, t, c, b, s),
        ({
            let (n, h) = (one_in_units(), one_in_units() * one_in_units());
            let e = exact_cross(d, w);
            &&& within(a[0].units() * n - e.0, 39_700, h)
            &&& within(a[1].units() * n - e.1, 39_700, h)
            &&& within(a[2].units() * n - e.2, 39_700, h)
        }),
    ensures
        is_cross_blend(a, exact_cross(d, t), c, exact_cross(d, b), s),
{
    constants_in_units();
    let n = one_in_units();
    lemma_sized_is_modest(d);
    let (d0, d1, d2) = (d[0].units(), d[1].units(), d[2].units());
    let (w0, w1, w2) = (w[0].units(), w[1].units(), w[2].units());
    let (t0, t1, t2) = (t[0].units(), t[1].units(), t[2].units());
    let (b0, b1, b2) = (b[0].units(), b[1].units(), b[2].units());
    let (e, x, y) = (exact_cross(d, w), exact_cross(d, t), exact_cross(d, b));
    lemma_cross_blend(d1, d2, w1, w2, t1, t2, b1, b2, c, s, n);
    lemma_cross_blend(d2, d0, w2, w0, t2, t0, b2, b0, c, s, n);
    lemma_cross_blend(d0, d1, w0, w1, t0, t1, b0, b1, c, s, n);
    lemma_composed(a[0].units(), e.0, x.0 * c + y.0 * s, n);
    lemma_composed(a[1].units(), e.1, x.1 * c + y.1 * s, n);
    lemma_composed(a[2].units(), e.2, x.2 * c + y.2 * s, n);
}

/// The lean axis at an angle is a blend of two vectors that do not depend on
/// the angle.
pub(crate) proof fn lemma_lean_blend(on: Arithmetic, d: Vector, phi: Scalar)
    requires
        correctly_rounded(on),
        nearly_unit(d),
        tangent_is_sound(on, d),
        on_unit_circle(on, phi),
        lean_is_held(on, d, phi),
    ensures
        is_cross_blend(
            lean_axis_at(on, d, phi),
            exact_cross(d, tangent(on, d)),
            on.cosine(phi).units(),
            exact_cross(d, bitangent(on, d)),
            on.sine(phi).units(),
        ),
{
    let (t, b) = (tangent(on, d), bitangent(on, d));
    let (c, s) = (on.cosine(phi).units(), on.sine(phi).units());
    let w = tangent_direction(on, d, phi);
    lemma_plane(on, d, t);
    lemma_circle_is_modest(on, phi);
    lemma_tangent_blend(on, d, phi);
    lemma_in_plane(on, d, t, w, c, s);
    lemma_axis_near(on, d, w);
    lemma_axis_blend(lean_axis_at(on, d, phi), d, w, t, c, b, s);
}

/// Sine and cosine of a quarter of a turn are one and zero, but for one part in
/// ten million.
pub open spec fn quarter_is_near(on: Arithmetic) -> bool {
    let n = one_in_units();
    &&& 10_000_000 * magnitude(on.cosine(Scalar(FRAC_PI_2)).units()) <= n
    &&& 10_000_000 * magnitude(on.sine(Scalar(FRAC_PI_2)).units() - n) <= n
}

/// One component of an axis that turns: `a` at the angle, `f` at zero and `g` at
/// a quarter of a turn.
proof fn lemma_turning(a: int, f: int, g: int, x: int, y: int, c: int, s: int, cq: int, sq: int, n: int)
    requires
        0 < n,
        within(a * n * n - (x * c + y * s), 46_000, n * (n * n)),
        within(f * n * n - (x * n + y * 0), 46_000, n * (n * n)),
        within(g * n * n - (x * cq + y * sq), 46_000, n * (n * n)),
        1000 * magnitude(x) <= 1002 * (n * n),
        1000 * magnitude(y) <= 1002 * (n * n),
        100 * magnitude(c) <= 101 * n,
        100 * magnitude(s) <= 101 * n,
        10_000_000 * magnitude(cq) <= n,
        10_000_000 * magnitude(sq - n) <= n,
    ensures
        100_000 * magnitude(a * n - (c * f + s * g)) <= n * n,
{
    let (h, w) = (n * n, n * (n * n));
    let d = sq - n;
    lemma_squares(n, n);
    lemma_third_power(x, cq, 10_000_000, n);
    lemma_third_power(y, d, 10_000_000, n);
    assert(y * sq == y * n + y * d) by (nonlinear_arith)
        requires
            d == sq - n,
    ;
    let (k, l) = (f * n - x, g * n - y);
    assert(k * n == f * n * n - x * n && l * n == g * n * n - y * n && y * 0 == 0) by (nonlinear_arith)
        requires
            k == f * n - x,
            l == g * n - y,
    ;
    lemma_magnitude(k, n);
    lemma_magnitude(l, n);
    let (mk, ml) = (magnitude(k), magnitude(l));
    assert(PARTS * (mk * n) <= 49_500 * w && PARTS * (ml * n) <= 49_500 * w);
    assert(PARTS * mk <= 49_500 * h && PARTS * ml <= 49_500 * h) by (nonlinear_arith)
        requires
            PARTS * (mk * n) <= 49_500 * (n * h),
            PARTS * (ml * n) <= 49_500 * (n * h),
            0 < n,
    ;
    lemma_weighed(c, k, 49_500, n, h);
    lemma_weighed(s, l, 49_500, n, h);
    lemma_hundredfold(magnitude(c * k));
    lemma_hundredfold(magnitude(s * l));
    let z = a * n - (c * f + s * g);
    assert(z * n == (a * n * n - (x * c + y * s)) - c * k - s * l) by {
        assert(z * n == a * n * n - (c * f) * n - (s * g) * n) by (nonlinear_arith)
            requires
                z == a * n - (c * f + s * g),
        ;
        assert(c * k == (c * f) * n - x * c && s * l == (s * g) * n - y * s) by (nonlinear_arith)
            requires
                k == f * n - x,
                l == g * n - y,
        ;
    }
    lemma_magnitude(z, n);
    let m = magnitude(z);
    lemma_hundredfold(magnitude(a * n * n - (x * c + y * s)));
    assert(1_717_986_918_400 * magnitude(c * k) <= 4_999_500 * w);
    assert(1_717_986_918_400 * magnitude(s * l) <= 4_999_500 * w);
    assert(100_000 * (m * n) <= w);
    assert(100_000 * m <= h) by (nonlinear_arith)
        requires
            100_000 * (m * n) <= n * h,
            0 < n,
    ;
}

/// A component of a cross product times a small number.
proof fn lemma_third_power(x: int, d: int, k: int, n: int)
    requires
        0 < n,
        1000 * magnitude(x) <= 1002 * (n * n),
        k * magnitude(d) <= n,
        0 < k,
    ensures
        1000 * (k * magnitude(x * d)) <= 1002 * (n * (n * n)),
        0 <= n * (n * n),
{
    let (p, q, h) = (magnitude(x), magnitude(d), n * n);
    assert(magnitude(x * d) == p * q) by (nonlinear_arith)
        requires
            p == magnitude(x),
            q == magnitude(d),
    ;
    assert(0 <= k * q) by (nonlinear_arith)
        requires
            0 < k,
            0 <= q,
    ;
    assert((1000 * p) * (k * q) <= (1002 * h) * n) by (nonlinear_arith)
        requires
            0 <= 1000 * p <= 1002 * h,
            0 <= k * q <= n,
    ;
    assert((1000 * p) * (k * q) == 1000 * (k * (p * q))) by (nonlinear_arith);
    assert((1002 * h) * n == 1002 * (n * h)) by (nonlinear_arith);
    assert(0 <= n * h) by (nonlinear_arith)
        requires
            0 < n,
            h == n * n,
    ;
}

/// Three axes that are blends of the same two vectors.
proof fn lemma_axes_turn(
    a: Vector,
    f: Vector,
    g: Vector,
    x: (int, int, int),
    y: (int, int, int),
    c: int,
    s: int,
    cq: int,
    sq: int,
)
    requires
        is_cross_blend(a, x, c, y, s),
        is_cross_blend(f, x, one_in_units(), y, 0),
        is_cross_blend(g, x, cq, y, sq),
        ({
            let (n, h) = (one_in_units(), one_in_units() * one_in_units());
            &&& 1000 * magnitude(x.0) <= 1002 * h
            &&& 1000 * magnitude(x.1) <= 1002 * h
            &&& 1000 * magnitude(x.2) <= 1002 * h
            &&& 1000 * magnitude(y.0) <= 1002 * h
            &&& 1000 * magnitude(y.1) <= 1002 * h
            &&& 1000 * magnitude(y.2) <= 1002 * h
            &&& 100 * magnitude(c) <= 101 * n
            &&& 100 * magnitude(s) <= 101 * n
            &&& 10_000_000 * magnitude(cq) <= n
            &&& 10_000_000 * magnitude(sq - n) <= n
        }),
    ensures
        forall|i: int|
            0 <= i < 3 ==> 100_000 * magnitude(
                (#[trigger] a[i]).units() * one_in_units() - (c * f[i].units() + s * g[i].units()),
            ) <= one_in_units() * one_in_units(),
{
    constants_in_units();
    let n = one_in_units();
    lemma_turning(a[0].units(), f[0].units(), g[0].units(), x.0, y.0, c, s, cq, sq, n);
    lemma_turning(a[1].units(), f[1].units(), g[1].units(), x.1, y.1, c, s, cq, sq, n);
    lemma_turning(a[2].units(), f[2].units(), g[2].units(), x.2, y.2, c, s, cq, sq, n);
    assert forall|i: int| 0 <= i < 3 implies 100_000 * magnitude(
        (#[trigger] a[i]).units() * n - (c * f[i].units() + s * g[i].units()),
    ) <= n * n by {
        assert(i == 0 || i == 1 || i == 2);
    }
}

/// The lean axis turns with its angle: it is that at the angle zero times the
/// cosine and that at a quarter of a turn times the sine, but for one part in a
/// hundred thousand in each component.
pub proof fn lean_axis_turns(on: Arithmetic, d: Vector, phi: Scalar)
    requires
        correctly_rounded(on),
        exact_at_zero(on),
        quarter_is_near(on),
        nearly_unit(d),
        tangent_is_sound(on, d),
        on_unit_circle(on, phi),
        on_unit_circle(on, Scalar(ZERO)),
        on_unit_circle(on, Scalar(FRAC_PI_2)),
        lean_is_held(on, d, phi),
        lean_is_held(on, d, Scalar(ZERO)),
        lean_is_held(on, d, Scalar(FRAC_PI_2)),
    ensures
        forall|i: int|
            0 <= i < 3 ==> 100_000 * magnitude(
                (#[trigger] lean_axis_at(on, d, phi)[i]).units() * one_in_units() - (on.cosine(phi).units()
                    * lean_axis_at(on, d, Scalar(ZERO))[i].units() + on.sine(phi).units() * lean_axis_at(
                    on,
                    d,
                    Scalar(FRAC_PI_2),
                )[i].units()),
            ) <= one_in_units() * one_in_units(),
{
    constants_in_units();
    let (t, b) = (tangent(on, d), bitangent(on, d));
    let quarter = Scalar(FRAC_PI_2);
    lemma_plane(on, d, t);
    lemma_circle_is_modest(on, phi);
    lemma_exact_cross(d, t);
    lemma_exact_cross(d, b);
    lemma_lean_blend(on, d, phi);
    lemma_lean_blend(on, d, Scalar(ZERO));
    lemma_lean_blend(on, d, quarter);
    lemma_axes_turn(
        lean_axis_at(on, d, phi),
        lean_axis_at(on, d, Scalar(ZERO)),
        lean_axis_at(on, d, quarter),
        exact_cross(d, t),
        exact_cross(d, b),
        on.cosine(phi).units(),
        on.sine(phi).units(),
        on.cosine(quarter).units(),
        on.sine(quarter).units(),
    );
}

/// Two angles are half a turn apart: their sines and their cosines are opposite,
/// but for one part in a million.
pub open spec fn half_a_turn_apart(on: Arithmetic, phi: Scalar, psi: Scalar) -> bool {
    let n = one_in_units();
    &&& 1_000_000 * magnitude(on.cosine(phi).units() + on.cosine(psi).units()) <= n
    &&& 1_000_000 * magnitude(on.sine(phi).units() + on.sine(psi).units()) <= n
}

/// One component of an axis that flips.
proof fn lemma_flipping(a: int, f: int, x: int, y: int, c: int, s: int, c2: int, s2: int, n: int)
    requires
        0 < n,
        within(a * n * n - (x * c + y * s), 46_000, n * (n * n)),
        within(f * n * n - (x * c2 + y * s2), 46_000, n * (n * n)),
        1000 * magnitude(x) <= 1002 * (n * n),
        1000 * magnitude(y) <= 1002 * (n * n),
        1_000_000 * magnitude(c + c2) <= n,
        1_000_000 * magnitude(s + s2) <= n,
    ensures
        100_000 * magnitude(a + f) <= n,
{
    let (h, w) = (n * n, n * (n * n));
    lemma_squares(n, n);
    lemma_third_power(x, c + c2, 1_000_000, n);
    lemma_third_power(y, s + s2, 1_000_000, n);
    assert(x * (c + c2) == x * c + x * c2 && y * (s + s2) == y * s + y * s2) by (nonlinear_arith);
    let z = a + f;
    assert(z * h == a * n * n + f * n * n) by (nonlinear_arith)
        requires
            z == a + f,
            h == n * n,
    ;
    lemma_magnitude(z, h);
    let m = magnitude(z);
    assert(100_000 * (m * h) <= w);
    assert(0 < h) by (nonlinear_arith)
        requires
            h == n * n,
            0 < n,
    ;
    assert(100_000 * m <= n) by (nonlinear_arith)
        requires
            100_000 * (m * h) <= n * h,
            0 < h,
    ;
}

/// Two axes that are opposite blends of the same two vectors.
proof fn lemma_axes_flip(
    a: Vector,
    f: Vector,
    x: (int, int, int),
    y: (int, int, int),
    c: int,
    s: int,
    c2: int,
    s2: int,
)
    requires
        is_cross_blend(a, x, c, y, s),
        is_cross_blend(f, x, c2, y, s2),
        ({
            let (n, h) = (one_in_units(), one_in_units() * one_in_units());
            &&& 1000 * magnitude(x.0) <= 1002 * h
            &&& 1000 * magnitude(x.1) <= 1002 * h
            &&& 1000 * magnitude(x.2) <= 1002 * h
            &&& 1000 * magnitude(y.0) <= 1002 * h
            &&& 1000 * magnitude(y.1) <= 1002 * h
            &&& 1000 * magnitude(y.2) <= 1002 * h
            &&& 1_000_000 * magnitude(c + c2) <= n
            &&& 1_000_000 * magnitude(s + s2) <= n
        }),
    ensures
        forall|i: int|
            0 <= i < 3 ==> 100_000 * magnitude((#[trigger] a[i]).units() + f[i].units()) <= one_in_units(),
{
    constants_in_units();
    let n = one_in_units();
    lemma_flipping(a[0].units(), f[0].units(), x.0, y.0, c, s, c2, s2, n);
    lemma_flipping(a[1].units(), f[1].units(), x.1, y.1, c, s, c2, s2, n);
    lemma_flipping(a[2].units(), f[2].units(), x.2, y.2, c, s, c2, s2, n);
    assert forall|i: int| 0 <= i < 3 implies 100_000 * magnitude((#[trigger] a[i]).units() + f[i].units()) <= n by {
        assert(i == 0 || i == 1 || i == 2);
    }
}

/// Half a turn of its angle flips the lean axis: it points the opposite way, but
/// for one part in a hundred thousand in each component.
pub proof fn lean_axis_flips(on: Arithmetic, d: Vector, phi: Scalar, psi: Scalar)
    requires
        correctly_rounded(on),
        nearly_unit(d),
        tangent_is_sound(on, d),
        half_a_turn_apart(on, phi, psi),
        on_unit_circle(on, phi),
        on_unit_circle(on, psi),
        lean_is_held(on, d, phi),
        lean_is_held(on, d, psi),
    ensures
        forall|i: int|
            0 <= i < 3 ==> 100_000 * magnitude(
                (#[trigger] lean_axis_at(on, d, phi)[i]).units() + lean_axis_at(on, d, psi)[i].units(),
            ) <= one_in_units(),
{
    let (t, b) = (tangent(on, d), bitangent(on, d));
    lemma_plane(on, d, t);
    lemma_exact_cross(d, t);
    lemma_exact_cross(d, b);
    lemma_lean_blend(on, d, phi);
    lemma_lean_blend(on, d, psi);
    lemma_axes_flip(
        lean_axis_at(on, d, phi),
        lean_axis_at(on, d, psi),
        exact_cross(d, t),
        exact_cross(d, b),
        on.cosine(phi).units(),
        on.sine(phi).units(),
        on.cosine(psi).units(),
        on.sine(psi).units(),
    );
}

/// One component of a vector that is near an exact one, divided by `n`.
pub(crate) proof fn lemma_undivided(a: int, x: int, y: int, n: int)
    requires
        0 < n,
        within(a * n * n - (x * n + y * 0), 46_000, n * (n * n)),
    ensures
        within(a * n - x, 46_000, n * n),
{
    let k = a * n - x;
    assert(k * n == a * n * n - x * n && y * 0 == 0) by (nonlinear_arith)
        requires
            k == a * n - x,
    ;
    lemma_magnitude(k, n);
    let (m, h) = (magnitude(k), n * n);
    assert(PARTS * m <= 46_000 * h) by (nonlinear_arith)
        requires
            PARTS * (m * n) <= 46_000 * (n * h),
            0 < n,
    ;
}

/// Bounds on three terms bound their sum.
pub(crate) proof fn lemma_triangle(x: int, y: int, z: int, a: int, b: int, c: int)
    requires
        1_717_986_918_400 * magnitude(x) <= a,
        1_717_986_918_400 * magnitude(y) <= b,
        1_717_986_918_400 * magnitude(z) <= c,
    ensures
        1_717_986_918_400 * magnitude(x + y + z) <= a + b + c,
{
    assert(magnitude(x + y + z) <= magnitude(x) + magnitude(y) + magnitude(z));
}

/// One component of a cross product, `a * y - b * x`, with a vector that is near
/// another.
pub(crate) proof fn lemma_cross_moved(a: int, b: int, x: int, y: int, p: int, q: int, k: int, n: int)
    requires
        0 < n,
        0 <= k,
        100 * magnitude(a) <= 101 * n,
        100 * magnitude(b) <= 101 * n,
        within(x - p, k, n * n),
        within(y - q, k, n * n),
    ensures
        100 * PARTS * magnitude((a * y - b * x) - (a * q - b * p)) <= 202 * k * (n * (n * n)),
{
    lemma_squares(n, n);
    lemma_weighed(a, y - q, k, n, n * n);
    lemma_weighed(b, x - p, k, n, n * n);
    assert(a * (y - q) == a * y - a * q && b * (x - p) == b * x - b * p) by (nonlinear_arith);
    let (f, g, w) = (a * (y - q), b * (x - p), n * (n * n));
    lemma_hundredfold(magnitude(f));
    lemma_hundredfold(magnitude(g));
    lemma_hundredfold(magnitude((a * y - b * x) - (a * q - b * p)));
    let kw = 101 * k * w;
    assert(202 * k * w == 2 * kw) by (nonlinear_arith)
        requires
            kw == 101 * k * w,
    ;
    let off = (a * y - b * x) - (a * q - b * p);
    assert(off == f - g);
    assert(1_717_986_918_400 * magnitude(f) <= kw && 1_717_986_918_400 * magnitude(g) <= kw);
    lemma_triangle(f, -g, 0, kw, kw, 0);
}

/// One component of the axis at an angle, from the axis at the angle zero and
/// from the cross product of the direction with that.
proof fn lemma_goes_round(a: int, f: int, x: int, y: int, z: int, c: int, s: int, n: int)
    requires
        0 < n,
        within(a * n * n - (x * c + y * s), 46_000, n * (n * n)),
        within(f * n - x, 46_000, n * n),
        within(z - y, 97_200, n * n),
        100 * magnitude(c) <= 101 * n,
        100 * magnitude(s) <= 101 * n,
    ensures
        50_000 * magnitude(a * n * n - (c * (f * n) + s * z)) <= n * (n * n),
{
    let (h, w) = (n * n, n * (n * n));
    lemma_squares(n, n);
    lemma_weighed(c, f * n - x, 46_000, n, h);
    lemma_weighed(s, z - y, 97_200, n, h);
    let (k, l, m) = (c * (f * n - x), s * (z - y), a * n * n - (x * c + y * s));
    lemma_hundredfold(magnitude(k));
    lemma_hundredfold(magnitude(l));
    lemma_hundredfold(magnitude(m));
    assert(k == c * (f * n) - x * c && l == s * z - y * s) by (nonlinear_arith)
        requires
            k == c * (f * n - x),
            l == s * (z - y),
    ;
    assert(1_717_986_918_400 * magnitude(k) <= 4_646_000 * w);
    assert(1_717_986_918_400 * magnitude(l) <= 9_817_200 * w);
    assert(17_179_869_184 * magnitude(m) <= 46_000 * w);
    let off = a * n * n - (c * (f * n) + s * z);
    assert(off == m - k - l);
    lemma_triangle(m, -k, -l, 4_600_000 * w, 4_646_000 * w, 9_817_200 * w);
    assert(0 <= w) by (nonlinear_arith)
        requires
            w == n * h,
            0 < n,
            0 <= h,
    ;
}

/// One component of the cross product with the axis at the angle zero, which is
/// near that with the second direction of the plane.
proof fn lemma_second_component(a: int, b: int, x: int, y: int, p: int, q: int, u: int, v: int, n: int)
    requires
        0 < n,
        100 * magnitude(a) <= 101 * n,
        100 * magnitude(b) <= 101 * n,
        within(x * n - p, 46_000, n * n),
        within(y * n - q, 46_000, n * n),
        within(u * n - p, 2060, n * n),
        within(v * n - q, 2060, n * n),
    ensures
        within((a * y - b * x) - (a * v - b * u), 97_200, n * n),
{
    let (h, w) = (n * n, n * (n * n));
    lemma_squares(n, n);
    lemma_cross_moved(a, b, x * n, y * n, u * n, v * n, 48_060, n);
    let off = (a * y - b * x) - (a * v - b * u);
    assert(off * n == (a * (y * n) - b * (x * n)) - (a * (v * n) - b * (u * n))) by {
        assert((a * y - b * x) * n == a * (y * n) - b * (x * n)) by (nonlinear_arith);
        assert((a * v - b * u) * n == a * (v * n) - b * (u * n)) by (nonlinear_arith);
        assert(off * n == (a * y - b * x) * n - (a * v - b * u) * n) by (nonlinear_arith)
            requires
                off == (a * y - b * x) - (a * v - b * u),
        ;
    }
    lemma_magnitude(off, n);
    let m = magnitude(off);
    lemma_hundredfold(m * n);
    lemma_hundredfold(m);
    assert(17_179_869_184 * (m * n) <= 97_200 * w) by {
        assert(1_717_986_918_400 * (m * n) <= 9_708_120 * w);
        assert(0 <= w) by (nonlinear_arith)
            requires
                w == n * h,
                0 < n,
                0 <= h,
        ;
    }
    assert(17_179_869_184 * m <= 97_200 * h) by (nonlinear_arith)
        requires
            17_179_869_184 * (m * n) <= 97_200 * (n * h),
            0 < n,
    ;
}

/// An axis and the axis at the angle zero, both near blends of two vectors.
proof fn lemma_round(a: Vector, f: Vector, d: Vector, t: Vector, b: Vector, c: int, s: int)
    requires
        modest_vector(d),
        is_cross_blend(a, exact_cross(d, t), c, exact_cross(d, b), s),
        is_cross_blend(f, exact_cross(d, t), one_in_units(), exact_cross(d, b), 0),
        ({
            let (n, h, x) = (one_in_units(), one_in_units() * one_in_units(), exact_cross(d, t));
            &&& within(b[0].units() * n - x.0, 2060, h)
            &&& within(b[1].units() * n - x.1, 2060, h)
            &&& within(b[2].units() * n - x.2, 2060, h)
            &&& 100 * magnitude(c) <= 101 * n
            &&& 100 * magnitude(s) <= 101 * n
        }),
    ensures
        ({
            let (n, z) = (one_in_units(), exact_cross(d, f));
            let w = n * (n * n);
            &&& 50_000 * magnitude(a[0].units() * n * n - (c * (f[0].units() * n) + s * z.0)) <= w
            &&& 50_000 * magnitude(a[1].units() * n * n - (c * (f[1].units() * n) + s * z.1)) <= w
            &&& 50_000 * magnitude(a[2].units() * n * n - (c * (f[2].units() * n) + s * z.2)) <= w
        }),
{
    constants_in_units();
    let n = one_in_units();
    let (x, y, z) = (exact_cross(d, t), exact_cross(d, b), exact_cross(d, f));
    let (d0, d1, d2) = (d[0].units(), d[1].units(), d[2].units());
    let (f0, f1, f2) = (f[0].units(), f[1].units(), f[2].units());
    let (b0, b1, b2) = (b[0].units(), b[1].units(), b[2].units());
    lemma_undivided(f0, x.0, y.0, n);
    lemma_undivided(f1, x.1, y.1, n);
    lemma_undivided(f2, x.2, y.2, n);
    lemma_second_component(d1, d2, f1, f2, x.1, x.2, b1, b2, n);
    lemma_second_component(d2, d0, f2, f0, x.2, x.0, b2, b0, n);
    lemma_second_component(d0, d1, f0, f1, x.0, x.1, b0, b1, n);
    lemma_goes_round(a[0].units(), f0, x.0, y.0, z.0, c, s, n);
    lemma_goes_round(a[1].units(), f1, x.1, y.1, z.1, c, s, n);
    lemma_goes_round(a[2].units(), f2, x.2, y.2, z.2, c, s, n);
}

/// The axis of a bump goes round its direction with the lean direction, the
/// right-handed way: it is the axis of the same bump at the lean direction zero
/// times the cosine, and the cross product of the direction with that axis times
/// the sine, but for one part in fifty thousand.
pub proof fn bump_axis_goes_round(on: Arithmetic, bump: BumpParams)
    requires
        correctly_rounded(on),
        exact_at_zero(on),
        nearly_unit(bump.points_along(on)),
        tangent_is_sound(on, bump.points_along(on)),
        on_unit_circle(on, bump.lean_direction_phi),
        on_unit_circle(on, Scalar(ZERO)),
        lean_is_held(on, bump.points_along(on), bump.lean_direction_phi),
        lean_is_held(on, bump.points_along(on), Scalar(ZERO)),
    ensures
        ({
            let start = BumpParams { lean_direction_phi: Scalar(ZERO), ..bump };
            let (a, f, d) = (bump.leans_about(on), start.leans_about(on), bump.points_along(on));
            let (c, s) = (on.cosine(bump.lean_direction_phi).units(), on.sine(bump.lean_direction_phi).units());
            let (n, z) = (one_in_units(), exact_cross(d, f));
            let w = n * (n * n);
            &&& 50_000 * magnitude(a[0].units() * n * n - (c * (f[0].units() * n) + s * z.0)) <= w
            &&& 50_000 * magnitude(a[1].units() * n * n - (c * (f[1].units() * n) + s * z.1)) <= w
            &&& 50_000 * magnitude(a[2].units() * n * n - (c * (f[2].units() * n) + s * z.2)) <= w
        }),
{
    constants_in_units();
    let start = BumpParams { lean_direction_phi: Scalar(ZERO), ..bump };
    let d = bump.points_along(on);
    assert(start.points_along(on) == d);
    let (t, b) = (tangent(on, d), bitangent(on, d));
    lemma_plane(on, d, t);
    lemma_sized_is_modest(d);
    lemma_cross(on, d, t);
    lemma_circle_is_modest(on, bump.lean_direction_phi);
    lemma_lean_blend(on, d, bump.lean_direction_phi);
    lemma_lean_blend(on, d, Scalar(ZERO));
    lemma_round(
        bump.leans_about(on),
        start.leans_about(on),
        d,
        t,
        b,
        on.cosine(bump.lean_direction_phi).units(),
        on.sine(bump.lean_direction_phi).units(),
    );
}

} // verus!
