//! How far rounding can take the geometry from what is exact.
//!
//! Errors are counted relative to what they are errors of, in parts of 2^34.
//! One rounding is off by up to [`ROUNDING`] of these.

use vstd::prelude::*;
use crate::blob::{
    cell, cells, column_angle, correction, height, radius, row_angle, scaled, volume, BlobParams, GRID,
};
use crate::bump::{axis_along, length, on_sphere, BumpParams};
use crate::math::{Arithmetic, Vector};
use crate::rounding::{
    apart, constants_in_units, correctly_rounded, lemma_negated_nearest, nearest, one_in_units, product_is_rounded,
    product_of_zero, quotient_is_rounded, quotient_of_zero, relative_error, sign_of_units, sum_is_rounded,
};
use crate::scalar::{negation_negates, Scalar, MILLIONTH, PI, TAU, THREE, ZERO};
use crate::scaling::share;

verus! {

/// The parts that relative errors are counted in.
pub const PARTS: u64 = 0x4_0000_0000;

/// The error of one rounding.
pub const ROUNDING: u64 = 1024;

/// Two numbers that are not negative differ by no more than `k` parts of the
/// second.
pub open spec fn near(a: int, b: int, k: int) -> bool {
    &&& 0 <= a
    &&& 0 <= b
    &&& 0 <= k
    &&& PARTS * apart(a, b) <= k * b
}

/// The two bounds that nearness sets.
proof fn lemma_bounds(a: int, b: int, k: int)
    by (nonlinear_arith)
    requires
        0 <= a,
        0 <= b,
        0 <= k,
    ensures
        near(a, b, k) <==> (PARTS - k) * b <= PARTS * a <= (PARTS + k) * b,
{
}

/// What is near stays near by a greater measure.
pub(crate) proof fn lemma_widened(a: int, b: int, k: int, m: int)
    requires
        near(a, b, k),
        k <= m,
    ensures
        near(a, b, m),
{
    assert(k * b <= m * b) by (nonlinear_arith)
        requires
            k <= m,
            0 <= b,
    ;
}

/// Multiplying both by a number changes no relative error.
pub(crate) proof fn lemma_multiplied(a: int, b: int, k: int, c: int)
    requires
        near(a, b, k),
        0 <= c,
    ensures
        near(a * c, b * c, k),
{
    let m = PARTS as int;
    lemma_bounds(a, b, k);
    assert(0 <= a * c && 0 <= b * c) by (nonlinear_arith)
        requires
            0 <= a,
            0 <= b,
            0 <= c,
    ;
    assert((m - k) * (b * c) <= m * (a * c) && m * (a * c) <= (m + k) * (b * c)) by (nonlinear_arith)
        requires
            (m - k) * b <= m * a,
            m * a <= (m + k) * b,
            0 <= c,
    ;
    lemma_bounds(a * c, b * c, k);
}

/// A common factor can be taken out.
proof fn lemma_divided(a: int, b: int, k: int, c: int)
    requires
        near(a * c, b * c, k),
        0 < c,
    ensures
        near(a, b, k),
{
    let m = PARTS as int;
    lemma_bounds(a * c, b * c, k);
    assert(0 <= a && 0 <= b) by (nonlinear_arith)
        requires
            0 <= a * c,
            0 <= b * c,
            0 < c,
    ;
    let (low, mid, high) = ((m - k) * b, m * a, (m + k) * b);
    assert(low * c <= mid * c && mid * c <= high * c) by (nonlinear_arith)
        requires
            (m - k) * (b * c) <= m * (a * c),
            m * (a * c) <= (m + k) * (b * c),
            low == (m - k) * b,
            mid == m * a,
            high == (m + k) * b,
    ;
    assert(low <= mid && mid <= high) by (nonlinear_arith)
        requires
            low * c <= mid * c,
            mid * c <= high * c,
            0 < c,
    ;
    lemma_bounds(a, b, k);
}

/// Sums of numbers that are near are near.
pub(crate) proof fn lemma_added(a: int, b: int, c: int, d: int, k: int)
    requires
        near(a, b, k),
        near(c, d, k),
    ensures
        near(a + c, b + d, k),
{
    assert(k * (b + d) == k * b + k * d) by (nonlinear_arith);
}

/// Relative errors add up in a product of bounds.
proof fn lemma_compounded(k: int, j: int, t: int, x: int)
    by (nonlinear_arith)
    requires
        0 <= x,
        0 <= k,
        0 <= j,
        k * j <= (t - k - j) * PARTS,
    ensures
        (PARTS + k) * (PARTS + j) * x <= PARTS * (PARTS + t) * x,
        (PARTS - t) * PARTS * x <= (PARTS - k) * (PARTS - j) * x,
{
    assert((PARTS + k) * (PARTS + j) <= PARTS * (PARTS + t));
    assert(k * j >= 0);
    assert((PARTS - t) * PARTS <= (PARTS - k) * (PARTS - j));
}

/// What is near something near is near: the errors add up.
pub(crate) proof fn lemma_chained(a: int, b: int, c: int, k: int, j: int, t: int)
    requires
        near(a, b, k),
        near(b, c, j),
        k <= PARTS,
        k * j <= (t - k - j) * PARTS,
    ensures
        near(a, c, t),
{
    let m = PARTS as int;
    lemma_bounds(a, b, k);
    lemma_bounds(b, c, j);
    lemma_compounded(k, j, t, c);
    assert(m * (m * a) <= (m + k) * (m * b) && (m - k) * (m * b) <= m * (m * a)) by (nonlinear_arith)
        requires
            m * a <= (m + k) * b,
            (m - k) * b <= m * a,
            m > 0,
    ;
    assert((m + k) * (m * b) <= (m + k) * (m + j) * c) by (nonlinear_arith)
        requires
            m * b <= (m + j) * c,
            0 <= m + k,
    ;
    assert((m - k) * (m - j) * c <= (m - k) * (m * b)) by (nonlinear_arith)
        requires
            (m - j) * c <= m * b,
            0 <= m - k,
    ;
    let (low, mid, high) = ((m - t) * c, m * a, (m + t) * c);
    assert((m - t) * m * c == m * low && m * (m + t) * c == m * high) by (nonlinear_arith)
        requires
            low == (m - t) * c,
            high == (m + t) * c,
    ;
    assert(low <= mid && mid <= high) by (nonlinear_arith)
        requires
            m * low <= m * mid,
            m * mid <= m * high,
            m > 0,
    ;
    assert(0 <= t) by (nonlinear_arith)
        requires
            0 <= k,
            0 <= j,
            k * j <= (t - k - j) * m,
            m > 0,
    ;
    lemma_bounds(a, c, t);
}

/// What is near can be measured by the other of the two.
proof fn lemma_turned_round(a: int, b: int, k: int)
    requires
        near(a, b, k),
        k <= 4096,
    ensures
        near(b, a, k + 1),
{
    let m = PARTS as int;
    lemma_bounds(a, b, k);
    let t = k + 1;
    assert((m - t) * a <= m * b && m * b <= (m + t) * a) by (nonlinear_arith)
        requires
            m == 0x4_0000_0000,
            0 <= k <= 4096,
            t == k + 1,
            0 <= a,
            0 <= b,
            (m - k) * b <= m * a,
            m * a <= (m + k) * b,
    {
        assert((m - k) * (m * b) <= (m - k) * ((m + t) * a));
    }
    lemma_bounds(b, a, t);
}

/// Products of numbers that are near are near: the errors add up.
pub(crate) proof fn lemma_combined(a: int, b: int, c: int, d: int, k: int, j: int, t: int)
    requires
        near(a, b, k),
        near(c, d, j),
        k <= PARTS,
        k * j <= (t - k - j) * PARTS,
    ensures
        near(a * c, b * d, t),
{
    lemma_multiplied(a, b, k, c);
    lemma_multiplied(c, d, j, b);
    assert(c * b == b * c && d * b == b * d) by (nonlinear_arith);
    lemma_chained(a * c, b * c, b * d, k, j, t);
}

/// Finite, and not below zero.
pub open spec fn plain(a: Scalar) -> bool {
    a.finite() && 0 <= a.units()
}

/// Finite, and great enough to be held at full precision.
pub open spec fn full(a: Scalar) -> bool {
    0x100_0000 <= a.unsigned() < 0x7f80_0000
}

/// The product of two numbers neither overflows nor underflows.
pub open spec fn product_is_full(on: Arithmetic, a: Scalar, b: Scalar) -> bool {
    plain(a) && plain(b) && (a.units() == 0 || b.units() == 0 || full(on.product(a, b)))
}

/// The quotient of two numbers neither overflows nor underflows.
pub open spec fn quotient_is_full(on: Arithmetic, a: Scalar, b: Scalar) -> bool {
    plain(a) && plain(b) && b.units() > 0 && (a.units() == 0 || full(on.quotient(a, b)))
}

/// A relative error of one in 2^24 is that of one rounding.
proof fn lemma_rounded(a: int, b: int)
    requires
        0 <= a,
        0 <= b,
        0x100_0000 * apart(a, b) <= b,
    ensures
        near(a, b, ROUNDING as int),
        near(b, a, ROUNDING + 1),
{
    assert(PARTS * apart(a, b) <= ROUNDING * b);
    lemma_turned_round(a, b, ROUNDING as int);
}

/// A sum of numbers that are not negative is off by one rounding.
pub proof fn sum_is_near(on: Arithmetic, a: Scalar, b: Scalar)
    requires
        correctly_rounded(on),
        plain(a),
        plain(b),
        on.sum(a, b).finite(),
    ensures
        plain(on.sum(a, b)),
        near(on.sum(a, b).units(), a.units() + b.units(), ROUNDING as int),
        near(a.units() + b.units(), on.sum(a, b).units(), ROUNDING + 1),
{
    assert(sum_is_rounded(on, a, b));
    let r = on.sum(a, b);
    relative_error(r, a.units() + b.units(), 1);
    assert(r.units() * 1 == r.units());
    lemma_rounded(r.units(), a.units() + b.units());
}

/// A product that neither overflows nor underflows is off by one rounding.
pub proof fn product_is_near(on: Arithmetic, a: Scalar, b: Scalar)
    requires
        correctly_rounded(on),
        product_is_full(on, a, b),
    ensures
        plain(on.product(a, b)),
        near(on.product(a, b).units() * one_in_units(), a.units() * b.units(), ROUNDING as int),
        near(a.units() * b.units(), on.product(a, b).units() * one_in_units(), ROUNDING + 1),
{
    constants_in_units();
    let (r, n) = (on.product(a, b), one_in_units());
    let exact = a.units() * b.units();
    assert(product_is_rounded(on, a, b));
    assert(0 <= exact && (a.units() == 0 || b.units() == 0 ==> exact == 0)) by (nonlinear_arith)
        requires
            exact == a.units() * b.units(),
            0 <= a.units(),
            0 <= b.units(),
    ;
    if a.units() == 0 || b.units() == 0 {
        product_of_zero(on, a, b);
        sign_of_units(r);
        assert(r.units() * n == 0) by (nonlinear_arith)
            requires
                r.units() == 0,
        ;
    } else {
        relative_error(r, exact, n);
        assert(0 <= r.units() * n) by (nonlinear_arith)
            requires
                0 <= r.units(),
                0 < n,
        ;
    }
    lemma_rounded(r.units() * n, exact);
}

/// A quotient that neither overflows nor underflows is off by one rounding.
pub proof fn quotient_is_near(on: Arithmetic, a: Scalar, b: Scalar)
    requires
        correctly_rounded(on),
        quotient_is_full(on, a, b),
    ensures
        plain(on.quotient(a, b)),
        near(on.quotient(a, b).units() * b.units(), a.units() * one_in_units(), ROUNDING as int),
        near(a.units() * one_in_units(), on.quotient(a, b).units() * b.units(), ROUNDING + 1),
{
    constants_in_units();
    let (r, n) = (on.quotient(a, b), one_in_units());
    let exact = a.units() * n;
    assert(quotient_is_rounded(on, a, b));
    assert(0 <= exact && (a.units() == 0 ==> exact == 0)) by (nonlinear_arith)
        requires
            exact == a.units() * n,
            0 <= a.units(),
            0 < n,
    ;
    if a.units() == 0 {
        quotient_of_zero(on, a, b);
        sign_of_units(r);
        assert(r.units() * b.units() == 0) by (nonlinear_arith)
            requires
                r.units() == 0,
        ;
    } else {
        relative_error(r, exact, b.units());
        assert(0 <= r.units() * b.units()) by (nonlinear_arith)
            requires
                0 <= r.units(),
                0 < b.units(),
        ;
    }
    lemma_rounded(r.units() * b.units(), exact);
}

/// `c` is `a` times `q / p`, but for `k` parts.
pub open spec fn follows(c: Scalar, a: Scalar, p: int, q: int, k: int) -> bool {
    near(c.units() * p, a.units() * q, k)
}

/// What two roundings and their second-order terms add to an error.
proof fn lemma_rounded_twice(a: int, b: int, c: int, d: int, k: int, t: int)
    requires
        near(a, b, ROUNDING as int),
        near(b, c, k),
        near(c, d, ROUNDING + 1),
        0 <= k <= 0x180_0000,
        t >= k + 2 * ROUNDING + 5,
    ensures
        near(a, d, t),
{
    lemma_chained(a, b, c, ROUNDING as int, k, k + ROUNDING + 2);
    let (j, one) = (k + ROUNDING + 2, ROUNDING + 1);
    assert(j * one <= 2 * PARTS) by (nonlinear_arith)
        requires
            0 <= j <= 0x180_0402,
            one == 1025,
    ;
    lemma_chained(a, c, d, j, one, k + 2 * ROUNDING + 5);
    lemma_widened(a, d, k + 2 * ROUNDING + 5, t);
}

/// Sums follow what is summed.
proof fn lemma_sum_follows(on: Arithmetic, a: Scalar, b: Scalar, c: Scalar, d: Scalar, p: int, q: int, k: int)
    requires
        correctly_rounded(on),
        plain(a),
        plain(b),
        plain(c),
        plain(d),
        on.sum(a, b).finite(),
        on.sum(c, d).finite(),
        0 <= p,
        0 <= q,
        0 <= k <= 0x180_0000,
        follows(c, a, p, q, k),
        follows(d, b, p, q, k),
    ensures
        follows(on.sum(c, d), on.sum(a, b), p, q, k + 2 * ROUNDING + 5),
{
    let (r, s) = (on.sum(a, b), on.sum(c, d));
    sum_is_near(on, a, b);
    sum_is_near(on, c, d);
    lemma_multiplied(s.units(), c.units() + d.units(), ROUNDING as int, p);
    lemma_multiplied(a.units() + b.units(), r.units(), ROUNDING + 1, q);
    lemma_added(c.units() * p, a.units() * q, d.units() * p, b.units() * q, k);
    assert((c.units() + d.units()) * p == c.units() * p + d.units() * p) by (nonlinear_arith);
    assert((a.units() + b.units()) * q == a.units() * q + b.units() * q) by (nonlinear_arith);
    lemma_rounded_twice(
        s.units() * p,
        (c.units() + d.units()) * p,
        (a.units() + b.units()) * q,
        r.units() * q,
        k,
        k + 2 * ROUNDING + 5,
    );
}

/// Products follow what is multiplied.
proof fn lemma_product_follows(
    on: Arithmetic,
    a: Scalar,
    b: Scalar,
    c: Scalar,
    d: Scalar,
    p: int,
    q: int,
    v: int,
    w: int,
    k: int,
    j: int,
    t: int,
)
    requires
        correctly_rounded(on),
        product_is_full(on, a, b),
        product_is_full(on, c, d),
        0 <= p,
        0 <= q,
        0 <= v,
        0 <= w,
        0 <= k,
        0 <= j,
        k + j <= 0x17f_0000,
        k * j <= 4000 * PARTS,
        follows(c, a, p, q, k),
        follows(d, b, v, w, j),
        t >= k + j + 7000,
    ensures
        follows(on.product(c, d), on.product(a, b), p * v, q * w, t),
{
    constants_in_units();
    let n = one_in_units();
    let (r, s) = (on.product(a, b), on.product(c, d));
    let (pv, qw) = (p * v, q * w);
    product_is_near(on, a, b);
    product_is_near(on, c, d);
    assert(0 <= pv && 0 <= qw) by (nonlinear_arith)
        requires
            pv == p * v,
            qw == q * w,
            0 <= p,
            0 <= q,
            0 <= v,
            0 <= w,
    ;
    lemma_multiplied(s.units() * n, c.units() * d.units(), ROUNDING as int, pv);
    lemma_multiplied(a.units() * b.units(), r.units() * n, ROUNDING + 1, qw);
    lemma_combined(c.units() * p, a.units() * q, d.units() * v, b.units() * w, k, j, k + j + 4000);
    lemma_regrouped(c.units(), d.units(), p, v);
    lemma_regrouped(a.units(), b.units(), q, w);
    lemma_rounded_twice(
        s.units() * n * pv,
        c.units() * d.units() * pv,
        a.units() * b.units() * qw,
        r.units() * n * qw,
        k + j + 4000,
        t,
    );
    assert(s.units() * n * pv == s.units() * pv * n && r.units() * n * qw == r.units() * qw * n) by (nonlinear_arith);
    lemma_divided(s.units() * pv, r.units() * qw, t, n);
}

/// The factors of a product can be grouped anew.
proof fn lemma_regrouped(a: int, b: int, p: int, q: int)
    by (nonlinear_arith)
    ensures
        (a * p) * (b * q) == a * b * (p * q),
{
}

/// Quotients by one number follow what is divided.
proof fn lemma_quotient_follows(on: Arithmetic, a: Scalar, c: Scalar, b: Scalar, p: int, q: int, k: int, t: int)
    requires
        correctly_rounded(on),
        quotient_is_full(on, a, b),
        quotient_is_full(on, c, b),
        0 <= p,
        0 <= q,
        0 <= k <= 0x180_0000,
        follows(c, a, p, q, k),
        t >= k + 7000,
    ensures
        follows(on.quotient(c, b), on.quotient(a, b), p, q, t),
{
    constants_in_units();
    let (n, d) = (one_in_units(), b.units());
    let (r, s) = (on.quotient(a, b), on.quotient(c, b));
    quotient_is_near(on, a, b);
    quotient_is_near(on, c, b);
    lemma_multiplied(s.units() * d, c.units() * n, ROUNDING as int, p);
    lemma_multiplied(a.units() * n, r.units() * d, ROUNDING + 1, q);
    lemma_multiplied(c.units() * p, a.units() * q, k, n);
    assert(c.units() * n * p == c.units() * p * n && a.units() * n * q == a.units() * q * n) by (nonlinear_arith);
    lemma_rounded_twice(s.units() * d * p, c.units() * n * p, a.units() * n * q, r.units() * d * q, k, t);
    assert(s.units() * d * p == s.units() * p * d && r.units() * d * q == r.units() * q * d) by (nonlinear_arith);
    lemma_divided(s.units() * p, r.units() * q, t, d);
}

/// Nothing overflows or underflows where the radius in a direction is found,
/// and nothing is negative.
pub open spec fn radius_is_full(on: Arithmetic, r_min: Scalar, bumps: Seq<BumpParams>, direction: Vector) -> bool
    decreases bumps.len(),
{
    &&& plain(r_min)
    &&& radius(on, r_min, bumps, direction).finite()
    &&& bumps.len() > 0 ==> {
        &&& product_is_full(on, bumps.last().amplitude, share(on, bumps.last(), direction))
        &&& radius_is_full(on, r_min, bumps.drop_last(), direction)
    }
}

/// Nothing overflows or underflows in a cell of the volume integral, and
/// nothing is negative.
#[verifier::opaque]
pub open spec fn cell_is_full(on: Arithmetic, r_min: Scalar, bumps: Seq<BumpParams>, i: int, j: int) -> bool {
    let theta = row_angle(on, i);
    let direction = on_sphere(on, theta, column_angle(on, j));
    let r = radius(on, r_min, bumps, direction);
    let square = on.product(r, r);
    &&& radius_is_full(on, r_min, bumps, direction)
    &&& product_is_full(on, r, r)
    &&& product_is_full(on, square, r)
    &&& product_is_full(on, on.product(square, r), on.sine(theta))
}

/// Nothing overflows or underflows where the volume of a blob is found, and
/// nothing is negative.
pub open spec fn volume_is_full(on: Arithmetic, r_min: Scalar, bumps: Seq<BumpParams>) -> bool {
    let d_theta = on.quotient(Scalar(PI), on.integer(GRID));
    let d_phi = on.quotient(Scalar(TAU), on.integer(GRID));
    let total = cells(on, r_min, bumps, (GRID * GRID) as nat);
    &&& forall|i: int, j: int| 0 <= i < GRID && 0 <= j < GRID ==> #[trigger] cell_is_full(on, r_min, bumps, i, j)
    &&& forall|n: nat| n <= GRID * GRID ==> #[trigger] cells(on, r_min, bumps, n).finite()
    &&& product_is_full(on, total, d_theta)
    &&& product_is_full(on, on.product(total, d_theta), d_phi)
    &&& quotient_is_full(on, on.product(on.product(total, d_theta), d_phi), Scalar(THREE))
}

/// Multiplying the sphere and the bumps by a factor neither overflows nor
/// underflows.
pub open spec fn scaling_is_full(on: Arithmetic, r_min: Scalar, bumps: Seq<BumpParams>, factor: Scalar) -> bool {
    &&& product_is_full(on, r_min, factor)
    &&& forall|i: int| 0 <= i < bumps.len() ==> product_is_full(on, (#[trigger] bumps[i]).amplitude, factor)
}

/// The radius of the scaled blob is the radius times the factor, but for a few
/// roundings for each bump.
proof fn lemma_radius_follows(on: Arithmetic, r_min: Scalar, bumps: Seq<BumpParams>, factor: Scalar, direction: Vector)
    requires
        correctly_rounded(on),
        bumps.len() <= 1000,
        scaling_is_full(on, r_min, bumps, factor),
        radius_is_full(on, r_min, bumps, direction),
        radius_is_full(on, on.product(r_min, factor), scaled(on, bumps, factor), direction),
    ensures
        plain(radius(on, r_min, bumps, direction)),
        plain(radius(on, on.product(r_min, factor), scaled(on, bumps, factor), direction)),
        follows(
            radius(on, on.product(r_min, factor), scaled(on, bumps, factor), direction),
            radius(on, r_min, bumps, direction),
            one_in_units(),
            factor.units(),
            9100 + 2060 * (bumps.len() as int),
        ),
    decreases bumps.len(),
{
    constants_in_units();
    let (n, f) = (one_in_units(), factor.units());
    let up = on.product(r_min, factor);
    let more = scaled(on, bumps, factor);
    product_is_near(on, r_min, factor);
    if bumps.len() == 0 {
        lemma_widened(up.units() * n, r_min.units() * f, ROUNDING as int, 9100);
    } else {
        let (fewer, bump) = (bumps.drop_last(), bumps.last());
        let raised = more.last();
        assert(more.drop_last() =~= scaled(on, fewer, factor));
        assert forall|i: int| 0 <= i < fewer.len() implies product_is_full(
            on,
            (#[trigger] fewer[i]).amplitude,
            factor,
        ) by {
            assert(fewer[i] == bumps[i]);
        }
        lemma_radius_follows(on, r_min, fewer, factor, direction);
        assert(bumps[bumps.len() - 1] == bump);
        product_is_near(on, bump.amplitude, factor);
        let w = share(on, bump, direction);
        assert(share(on, raised, direction) == w);
        assert(w.units() * 1 == w.units());
        assert(follows(w, w, 1, 1, 0));
        lemma_product_follows(
            on,
            bump.amplitude,
            w,
            raised.amplitude,
            w,
            n,
            f,
            1,
            1,
            ROUNDING as int,
            0,
            9100,
        );
        assert(n * 1 == n && f * 1 == f);
        product_is_near(on, bump.amplitude, w);
        product_is_near(on, raised.amplitude, w);
        let (h, g) = (height(on, bump, direction), height(on, raised, direction));
        assert(h == on.product(bump.amplitude, w) && g == on.product(raised.amplitude, w));
        let (r, s) = (radius(on, r_min, fewer, direction), radius(on, up, scaled(on, fewer, factor), direction));
        lemma_term_follows(on, r, h, s, g, n, f, 9100, 9100 + 2060 * (fewer.len() as int));
    }
}

/// A cell of the scaled blob is the cell times the third power of the factor.
proof fn lemma_cell_follows(on: Arithmetic, r_min: Scalar, bumps: Seq<BumpParams>, factor: Scalar, i: int, j: int)
    requires
        correctly_rounded(on),
        bumps.len() <= 1000,
        scaling_is_full(on, r_min, bumps, factor),
        cell_is_full(on, r_min, bumps, i, j),
        cell_is_full(on, on.product(r_min, factor), scaled(on, bumps, factor), i, j),
    ensures
        plain(cell(on, r_min, bumps, i, j)),
        plain(cell(on, on.product(r_min, factor), scaled(on, bumps, factor), i, j)),
        follows(
            cell(on, on.product(r_min, factor), scaled(on, bumps, factor), i, j),
            cell(on, r_min, bumps, i, j),
            one_in_units() * one_in_units() * one_in_units(),
            factor.units() * factor.units() * factor.units(),
            6_228_300,
        ),
{
    reveal(cell_is_full);
    constants_in_units();
    let (n, f) = (one_in_units(), factor.units());
    let (up, more) = (on.product(r_min, factor), scaled(on, bumps, factor));
    let theta = row_angle(on, i);
    let direction = on_sphere(on, theta, column_angle(on, j));
    let (r, s) = (radius(on, r_min, bumps, direction), radius(on, up, more, direction));
    lemma_radius_follows(on, r_min, bumps, factor, direction);
    lemma_widened(s.units() * n, r.units() * f, 9100 + 2060 * (bumps.len() as int), 2_069_100);
    assert(0 <= n * n && 0 <= f * f && 0 <= n * n * n && 0 <= f * f * f) by (nonlinear_arith)
        requires
            0 <= n,
            0 <= f,
    ;
    let (rr, ss) = (on.product(r, r), on.product(s, s));
    lemma_product_follows(on, r, r, s, s, n, f, n, f, 2_069_100, 2_069_100, 4_145_200);
    let (rrr, sss) = (on.product(rr, r), on.product(ss, s));
    lemma_product_follows(on, rr, r, ss, s, n * n, f * f, n, f, 4_145_200, 2_069_100, 6_221_300);
    let w = on.sine(theta);
    assert(w.units() * 1 == w.units());
    assert(follows(w, w, 1, 1, 0));
    lemma_product_follows(on, rrr, w, sss, w, n * n * n, f * f * f, 1, 1, 6_221_300, 0, 6_228_300);
    assert(n * n * n * 1 == n * n * n && f * f * f * 1 == f * f * f);
    product_is_near(on, rrr, w);
    product_is_near(on, sss, w);
}

/// One more term of two sums that follow each other.
proof fn lemma_term_follows(on: Arithmetic, a: Scalar, b: Scalar, c: Scalar, d: Scalar, p: int, q: int, k: int, m: int)
    requires
        correctly_rounded(on),
        plain(a),
        plain(b),
        plain(c),
        plain(d),
        on.sum(a, b).finite(),
        on.sum(c, d).finite(),
        0 <= p,
        0 <= q,
        0 <= k <= m <= 0x180_0000,
        follows(c, a, p, q, m),
        follows(d, b, p, q, k),
    ensures
        plain(on.sum(a, b)),
        plain(on.sum(c, d)),
        follows(on.sum(c, d), on.sum(a, b), p, q, m + 2060),
{
    lemma_widened(d.units() * p, b.units() * q, k, m);
    lemma_sum_follows(on, a, b, c, d, p, q, m);
    sum_is_near(on, a, b);
    sum_is_near(on, c, d);
    lemma_widened(on.sum(c, d).units() * p, on.sum(a, b).units() * q, m + 2 * ROUNDING + 5, m + 2060);
}

/// So is a sum of cells.
#[verifier::spinoff_prover]
proof fn lemma_cells_follow(on: Arithmetic, r_min: Scalar, bumps: Seq<BumpParams>, factor: Scalar, count: nat)
    requires
        correctly_rounded(on),
        bumps.len() <= 1000,
        scaling_is_full(on, r_min, bumps, factor),
        volume_is_full(on, r_min, bumps),
        volume_is_full(on, on.product(r_min, factor), scaled(on, bumps, factor)),
        count <= GRID * GRID,
    ensures
        plain(cells(on, r_min, bumps, count)),
        plain(cells(on, on.product(r_min, factor), scaled(on, bumps, factor), count)),
        follows(
            cells(on, on.product(r_min, factor), scaled(on, bumps, factor), count),
            cells(on, r_min, bumps, count),
            one_in_units() * one_in_units() * one_in_units(),
            factor.units() * factor.units() * factor.units(),
            6_228_300 + 2060 * (count as int),
        ),
    decreases count,
{
    constants_in_units();
    let (n, f) = (one_in_units(), factor.units());
    let (p, q) = (n * n * n, f * f * f);
    let (up, more) = (on.product(r_min, factor), scaled(on, bumps, factor));
    assert(0 <= p && 0 <= q) by (nonlinear_arith)
        requires
            p == n * n * n,
            q == f * f * f,
            0 <= n,
            0 <= f,
    ;
    if count == 0 {
        let zero = Scalar(ZERO);
        assert(zero.units() * p == 0 && zero.units() * q == 0) by (nonlinear_arith)
            requires
                zero.units() == 0,
        ;
    } else {
        let k = (count - 1) as nat;
        let (i, j) = (k as int / GRID as int, k as int % GRID as int);
        assert(0 <= i < GRID && 0 <= j < GRID);
        assert(cell_is_full(on, r_min, bumps, i, j));
        assert(cell_is_full(on, up, more, i, j));
        lemma_cells_follow(on, r_min, bumps, factor, k);
        lemma_cell_follows(on, r_min, bumps, factor, i, j);
        let (a, b) = (cells(on, r_min, bumps, k), cell(on, r_min, bumps, i, j));
        let (c, d) = (cells(on, up, more, k), cell(on, up, more, i, j));
        assert(cells(on, r_min, bumps, count) == on.sum(a, b) && cells(on, up, more, count) == on.sum(c, d));
        assert(on.sum(a, b).finite() && on.sum(c, d).finite());
        lemma_term_follows(on, a, b, c, d, p, q, 6_228_300, 6_228_300 + 2060 * (k as int));
    }
}

/// The volume of the scaled blob is the volume times the third power of the
/// factor, but for one part in a thousand.
proof fn lemma_volume_follows(on: Arithmetic, r_min: Scalar, bumps: Seq<BumpParams>, factor: Scalar)
    requires
        correctly_rounded(on),
        bumps.len() <= 1000,
        scaling_is_full(on, r_min, bumps, factor),
        volume_is_full(on, r_min, bumps),
        volume_is_full(on, on.product(r_min, factor), scaled(on, bumps, factor)),
    ensures
        plain(volume(on, r_min, bumps)),
        follows(
            volume(on, on.product(r_min, factor), scaled(on, bumps, factor)),
            volume(on, r_min, bumps),
            one_in_units() * one_in_units() * one_in_units(),
            factor.units() * factor.units() * factor.units(),
            14_687_060,
        ),
{
    constants_in_units();
    let (n, f) = (one_in_units(), factor.units());
    let (p, q) = (n * n * n, f * f * f);
    let (up, more) = (on.product(r_min, factor), scaled(on, bumps, factor));
    assert(0 <= p && 0 <= q) by (nonlinear_arith)
        requires
            p == n * n * n,
            q == f * f * f,
            0 <= n,
            0 <= f,
    ;
    let all = (GRID * GRID) as nat;
    lemma_cells_follow(on, r_min, bumps, factor, all);
    let (a, c) = (cells(on, r_min, bumps, all), cells(on, up, more, all));
    let d_theta = on.quotient(Scalar(PI), on.integer(GRID));
    let d_phi = on.quotient(Scalar(TAU), on.integer(GRID));
    assert(d_theta.units() * 1 == d_theta.units() && d_phi.units() * 1 == d_phi.units());
    assert(follows(d_theta, d_theta, 1, 1, 0));
    assert(follows(d_phi, d_phi, 1, 1, 0));
    assert(p * 1 == p && q * 1 == q);
    lemma_product_follows(on, a, d_theta, c, d_theta, p, q, 1, 1, 14_666_060, 0, 14_673_060);
    let (a2, c2) = (on.product(a, d_theta), on.product(c, d_theta));
    lemma_product_follows(on, a2, d_phi, c2, d_phi, p, q, 1, 1, 14_673_060, 0, 14_680_060);
    let (a3, c3) = (on.product(a2, d_phi), on.product(c2, d_phi));
    lemma_quotient_follows(on, a3, c3, Scalar(THREE), p, q, 14_680_060, 14_687_060);
    quotient_is_near(on, a3, Scalar(THREE));
}

/// The third power of the cube root of a number is that number, but for one
/// part in 2^20.
pub open spec fn cube_root_is_near(on: Arithmetic, a: Scalar) -> bool {
    let root = on.cube_root(a);
    &&& plain(root)
    &&& near(
        root.units() * root.units() * root.units(),
        a.units() * one_in_units() * one_in_units(),
        0x4000,
    )
}

/// Conserving the volume of a blob of up to a thousand bumps brings it to the
/// volume it is to keep, but for one part in a thousand, where nothing
/// overflows, underflows or is negative.
pub proof fn conserved_volume_is_near_target(on: Arithmetic, before: BlobParams, after: BlobParams)
    requires
        correctly_rounded(on),
        after.conserved_from(on, before),
        before.bumps@.len() <= 1000,
        volume_is_full(on, before.r_min, before.bumps@),
        volume_is_full(on, after.r_min, after.bumps@),
        ({
            let current = volume(on, before.r_min, before.bumps@);
            let quotient = on.quotient(before.target_volume, current);
            &&& quotient_is_full(on, before.target_volume, current)
            &&& cube_root_is_near(on, quotient)
            &&& scaling_is_full(on, before.r_min, before.bumps@, on.cube_root(quotient))
        }),
    ensures
        1000 * apart(volume(on, after.r_min, after.bumps@).units(), before.target_volume.units())
            <= before.target_volume.units(),
{
    constants_in_units();
    let n = one_in_units();
    let current = volume(on, before.r_min, before.bumps@);
    let quotient = on.quotient(before.target_volume, current);
    let factor = correction(on, before.target_volume, current);
    let reached = volume(on, after.r_min, after.bumps@);
    let (f, v, w, t) = (factor.units(), current.units(), reached.units(), before.target_volume.units());
    let q = quotient.units();
    let (nn, nnn, fff) = (n * n, n * n * n, f * f * f);
    lemma_volume_follows(on, before.r_min, before.bumps@, factor);
    quotient_is_near(on, before.target_volume, current);
    assert(0 <= nn && 0 < nnn) by (nonlinear_arith)
        requires
            nn == n * n,
            nnn == n * n * n,
            0 < n,
    ;
    assert(near(w * nnn, v * fff, 14_687_060));
    lemma_multiplied(fff, q * n * n, 0x4000, v);
    assert(fff * v == v * fff && q * n * n * v == q * v * nn) by (nonlinear_arith)
        requires
            nn == n * n,
    ;
    lemma_chained(w * nnn, v * fff, q * v * nn, 14_687_060, 0x4000, 14_704_000);
    lemma_multiplied(q * v, t * n, ROUNDING as int, nn);
    assert(t * n * nn == t * nnn) by (nonlinear_arith)
        requires
            nn == n * n,
            nnn == n * n * n,
    ;
    lemma_chained(w * nnn, q * v * nn, t * nnn, 14_704_000, ROUNDING as int, 14_706_000);
    lemma_divided(w, t, 14_706_000, nnn);
}

/// The magnitude of an integer.
pub open spec fn magnitude(x: int) -> int {
    apart(x, 0)
}

/// A result of either sign is off by one rounding, and keeps the sign.
pub(crate) proof fn lemma_signed(r: Scalar, num: int, den: int)
    requires
        nearest(r, num, den),
        r.finite(),
        den > 0,
        num == 0 ==> r.units() == 0,
        num == 0 || den == 1 || 0x100_0000 <= r.unsigned(),
    ensures
        0x100_0000 * apart(r.units() * den, num) <= magnitude(num),
        num >= 0 ==> r.units() * den >= 0,
        num <= 0 ==> r.units() * den <= 0,
{
    let x = r.units() * den;
    if num < 0 {
        let s = r.negated();
        negation_negates(r);
        lemma_negated_nearest(r, num, den);
        relative_error(s, -num, den);
        assert(s.units() * den == -x) by (nonlinear_arith)
            requires
                s.units() == -r.units(),
                x == r.units() * den,
        ;
        assert(0 <= -x) by (nonlinear_arith)
            requires
                s.units() * den == -x,
                0 <= s.units(),
                0 < den,
        ;
    } else if num == 0 {
        assert(x == 0) by (nonlinear_arith)
            requires
                r.units() == 0,
                x == r.units() * den,
        ;
    } else {
        relative_error(r, num, den);
        assert(0 <= x) by (nonlinear_arith)
            requires
                0 <= r.units(),
                0 < den,
                x == r.units() * den,
        ;
    }
}

/// The square of a result of either sign is off by two roundings.
proof fn lemma_square_rounded(r: Scalar, num: int, den: int)
    requires
        nearest(r, num, den),
        r.finite(),
        den > 0,
        num == 0 ==> r.units() == 0,
        num == 0 || 0x100_0000 <= r.unsigned(),
    ensures
        near((r.units() * den) * (r.units() * den), num * num, 2 * ROUNDING + 1),
{
    let x = r.units() * den;
    let (a, b) = (magnitude(x), magnitude(num));
    lemma_signed(r, num, den);
    lemma_rounded(a, b);
    lemma_combined(a, b, a, b, ROUNDING as int, ROUNDING as int, 2 * ROUNDING + 1);
    assert(a * a == x * x && b * b == num * num) by (nonlinear_arith)
        requires
            a == x || a == -x,
            b == num || b == -num,
    ;
}

/// The product of two finite numbers of either sign neither overflows nor
/// underflows.
pub open spec fn product_is_held(on: Arithmetic, a: Scalar, b: Scalar) -> bool {
    a.finite() && b.finite() && (a.units() == 0 || b.units() == 0 || full(on.product(a, b)))
}

/// The square of such a product is off by two roundings.
proof fn lemma_product_squared(on: Arithmetic, a: Scalar, b: Scalar)
    requires
        correctly_rounded(on),
        product_is_held(on, a, b),
    ensures
        ({
            let (r, n) = (on.product(a, b).units(), one_in_units());
            near((r * r) * (n * n), (a.units() * a.units()) * (b.units() * b.units()), 2 * ROUNDING + 1)
        }),
{
    constants_in_units();
    let (r, n) = (on.product(a, b), one_in_units());
    let exact = a.units() * b.units();
    assert(product_is_rounded(on, a, b));
    assert(exact == 0 <==> a.units() == 0 || b.units() == 0) by (nonlinear_arith)
        requires
            exact == a.units() * b.units(),
    ;
    if exact == 0 {
        product_of_zero(on, a, b);
        sign_of_units(r);
    }
    lemma_square_rounded(r, exact, n);
    lemma_regrouped(r.units(), r.units(), n, n);
    lemma_regrouped(a.units(), a.units(), b.units(), b.units());
}

/// The squares of the sine and the cosine of an angle sum up to one, but for one
/// part in 2^22.
pub open spec fn on_unit_circle(on: Arithmetic, angle: Scalar) -> bool {
    let (s, c) = (on.sine(angle).units(), on.cosine(angle).units());
    near(s * s + c * c, one_in_units() * one_in_units(), 4096)
}

/// The squared length of a vector, in squared units.
pub open spec fn squared_length(v: Vector) -> int {
    v[0].units() * v[0].units() + v[1].units() * v[1].units() + v[2].units() * v[2].units()
}

/// The squared length of a vector is one, but for six parts in ten million.
pub open spec fn nearly_unit(v: Vector) -> bool {
    let whole = one_in_units() * one_in_units();
    10_000_000 * apart(squared_length(v), whole) <= 6 * whole
}

/// The direction at two angles is a unit vector, and its height is the cosine
/// of the first angle, whatever the second is.
pub proof fn direction_is_unit(on: Arithmetic, theta: Scalar, phi: Scalar)
    requires
        correctly_rounded(on),
        on_unit_circle(on, theta),
        on_unit_circle(on, phi),
        product_is_held(on, on.sine(theta), on.cosine(phi)),
        product_is_held(on, on.sine(theta), on.sine(phi)),
    ensures
        nearly_unit(on_sphere(on, theta, phi)),
        on_sphere(on, theta, phi)[1] == on.cosine(theta),
{
    constants_in_units();
    let n = one_in_units();
    let d = on_sphere(on, theta, phi);
    let (x, y, z) = (d[0].units(), d[1].units(), d[2].units());
    let (s, c, t) = (on.sine(theta).units(), on.cosine(phi).units(), on.sine(phi).units());
    let nn = n * n;
    let (xx, yy, zz, ss, cc, tt) = (x * x, y * y, z * z, s * s, c * c, t * t);
    lemma_squares(x, y);
    lemma_squares(z, s);
    lemma_squares(n, n);
    lemma_product_squared(on, on.sine(theta), on.cosine(phi));
    lemma_product_squared(on, on.sine(theta), on.sine(phi));
    lemma_added(xx * nn, ss * cc, zz * nn, ss * tt, 2 * ROUNDING + 1);
    lemma_multiplied(tt + cc, nn, 4096, ss);
    assert(xx * nn + zz * nn == (xx + zz) * nn) by (nonlinear_arith);
    assert(ss * cc + ss * tt == (tt + cc) * ss) by (nonlinear_arith);
    assert(nn * ss == ss * nn) by (nonlinear_arith);
    lemma_chained((xx + zz) * nn, (tt + cc) * ss, nn * ss, 2 * ROUNDING + 1, 4096, 6146);
    assert(0 < nn) by (nonlinear_arith)
        requires
            nn == n * n,
            0 < n,
    ;
    lemma_divided(xx + zz, ss, 6146, nn);
    assert(near(yy, yy, 6146)) by {
        assert(0 <= 6146 * yy) by (nonlinear_arith)
            requires
                0 <= yy,
        ;
    }
    lemma_added(xx + zz, ss, yy, yy, 6146);
    lemma_chained(xx + zz + yy, ss + yy, nn, 6146, 4096, 10_250);
}

/// Squares are not negative.
pub(crate) proof fn lemma_squares(a: int, b: int)
    by (nonlinear_arith)
    ensures
        0 <= a * a,
        0 <= b * b,
{
}

/// Adding the same number to both keeps them near.
proof fn lemma_joined(a: int, b: int, c: int, k: int)
    requires
        near(a, b, k),
        0 <= c,
    ensures
        near(a + c, b + c, k),
{
    assert(k * (b + c) == k * b + k * c && 0 <= k * c) by (nonlinear_arith)
        requires
            0 <= k,
            0 <= c,
    ;
}

/// The square of a number is not negative and off by one rounding.
proof fn lemma_own_square(on: Arithmetic, a: Scalar)
    requires
        correctly_rounded(on),
        product_is_held(on, a, a),
    ensures
        plain(on.product(a, a)),
        near(a.units() * a.units(), on.product(a, a).units() * one_in_units(), ROUNDING + 1),
{
    constants_in_units();
    let (r, n) = (on.product(a, a), one_in_units());
    let exact = a.units() * a.units();
    assert(product_is_rounded(on, a, a));
    assert(0 <= exact && (exact == 0 <==> a.units() == 0)) by (nonlinear_arith)
        requires
            exact == a.units() * a.units(),
    ;
    if exact == 0 {
        product_of_zero(on, a, a);
        sign_of_units(r);
        assert(r.units() * n == 0) by (nonlinear_arith)
            requires
                r.units() == 0,
        ;
    } else {
        relative_error(r, exact, n);
        assert(0 <= r.units() * n) by (nonlinear_arith)
            requires
                0 <= r.units(),
                0 < n,
        ;
    }
    lemma_rounded(r.units() * n, exact);
}

/// The sum of the squares that the length of a vector is the root of.
pub open spec fn sum_of_squares(on: Arithmetic, v: Vector) -> Scalar {
    on.sum(on.sum(on.squared(v[0]), on.squared(v[1])), on.squared(v[2]))
}

/// The length of a vector is found without overflow or underflow: the squares
/// are products, and the square of the root is off by two roundings.
pub open spec fn length_is_sound(on: Arithmetic, v: Vector) -> bool {
    let len = length(on, v);
    &&& forall|i: int| 0 <= i < 3 ==> #[trigger] on.squared(v[i]) == on.product(v[i], v[i])
    &&& forall|i: int| 0 <= i < 3 ==> product_is_held(on, #[trigger] v[i], v[i])
    &&& on.sum(on.squared(v[0]), on.squared(v[1])).finite()
    &&& sum_of_squares(on, v).finite()
    &&& plain(len)
    &&& near(len.units() * len.units(), sum_of_squares(on, v).units() * one_in_units(), 2 * ROUNDING + 1)
}

/// The squared length of a vector is the square of the length that is found,
/// but for a few roundings.
pub(crate) proof fn lemma_length_near(on: Arithmetic, v: Vector)
    requires
        correctly_rounded(on),
        length_is_sound(on, v),
    ensures
        near(squared_length(v), length(on, v).units() * length(on, v).units(), 5140),
{
    constants_in_units();
    let n = one_in_units();
    let l = length(on, v).units();
    let (x, y, z) = (v[0].units(), v[1].units(), v[2].units());
    let (a, b, c) = (on.product(v[0], v[0]), on.product(v[1], v[1]), on.product(v[2], v[2]));
    assert(a == on.squared(v[0]) && b == on.squared(v[1]) && c == on.squared(v[2]));
    assert(product_is_held(on, v[0], v[0]) && product_is_held(on, v[1], v[1]) && product_is_held(on, v[2], v[2]));
    lemma_own_square(on, v[0]);
    lemma_own_square(on, v[1]);
    lemma_own_square(on, v[2]);
    let one = ROUNDING + 1;
    lemma_added(x * x, a.units() * n, y * y, b.units() * n, one);
    lemma_added(x * x + y * y, a.units() * n + b.units() * n, z * z, c.units() * n, one);
    let (t, u) = (on.sum(a, b), sum_of_squares(on, v));
    sum_is_near(on, a, b);
    sum_is_near(on, t, c);
    lemma_joined(a.units() + b.units(), t.units(), c.units(), one);
    let all = a.units() + b.units() + c.units();
    lemma_chained(all, t.units() + c.units(), u.units(), one, one, 2 * ROUNDING + 3);
    lemma_multiplied(all, u.units(), 2 * ROUNDING + 3, n);
    assert(a.units() * n + b.units() * n + c.units() * n == all * n) by (nonlinear_arith)
        requires
            all == a.units() + b.units() + c.units(),
    ;
    lemma_chained(squared_length(v), all * n, u.units() * n, one, 2 * ROUNDING + 3, 3 * ROUNDING + 8);
    lemma_turned_round(l * l, u.units() * n, 2 * ROUNDING + 1);
    lemma_chained(squared_length(v), u.units() * n, l * l, 3 * ROUNDING + 8, 2 * ROUNDING + 2, 5140);
}

/// A component divided by the length neither overflows nor underflows.
pub open spec fn ratio_is_held(on: Arithmetic, a: Scalar, len: Scalar) -> bool {
    a.units() == 0 || full(on.quotient(a, len))
}

/// The square of a component divided by the length is off by two roundings.
proof fn lemma_ratio_squared(on: Arithmetic, a: Scalar, len: Scalar)
    requires
        correctly_rounded(on),
        a.finite(),
        plain(len),
        len.units() > 0,
        ratio_is_held(on, a, len),
    ensures
        ({
            let (r, l, n) = (on.quotient(a, len).units(), len.units(), one_in_units());
            near((r * r) * (l * l), (a.units() * a.units()) * (n * n), 2 * ROUNDING + 1)
        }),
{
    constants_in_units();
    let (r, n) = (on.quotient(a, len), one_in_units());
    let exact = a.units() * n;
    assert(quotient_is_rounded(on, a, len));
    assert(exact == 0 <==> a.units() == 0) by (nonlinear_arith)
        requires
            exact == a.units() * n,
            0 < n,
    ;
    if exact == 0 {
        quotient_of_zero(on, a, len);
        sign_of_units(r);
    }
    lemma_square_rounded(r, exact, len.units());
    lemma_regrouped(r.units(), r.units(), len.units(), len.units());
    lemma_regrouped(a.units(), a.units(), n, n);
}

/// An axis along a vector is a unit vector.
pub proof fn axis_is_unit(on: Arithmetic, v: Vector)
    requires
        correctly_rounded(on),
        length_is_sound(on, v),
        forall|i: int| 0 <= i < 3 ==> ratio_is_held(on, #[trigger] v[i], length(on, v)),
    ensures
        nearly_unit(axis_along(on, v)),
{
    constants_in_units();
    let n = one_in_units();
    let len = length(on, v);
    let axis = axis_along(on, v);
    let (x, y, z) = (v[0].units(), v[1].units(), v[2].units());
    let (a, b, c) = (axis[0].units(), axis[1].units(), axis[2].units());
    if Scalar(MILLIONTH).below(len) {
        sign_of_units(Scalar(MILLIONTH));
        let l = len.units();
        let (ll, nn) = (l * l, n * n);
        lemma_squares(n, l);
        assert(0 < ll) by (nonlinear_arith)
            requires
                ll == l * l,
                0 < l,
        ;
        assert(product_is_held(on, v[0], v[0]) && product_is_held(on, v[1], v[1]) && product_is_held(on, v[2], v[2]));
        assert(ratio_is_held(on, v[0], len) && ratio_is_held(on, v[1], len) && ratio_is_held(on, v[2], len));
        lemma_ratio_squared(on, v[0], len);
        lemma_ratio_squared(on, v[1], len);
        lemma_ratio_squared(on, v[2], len);
        let k = 2 * ROUNDING + 1;
        lemma_added((a * a) * ll, (x * x) * nn, (b * b) * ll, (y * y) * nn, k);
        lemma_added((a * a) * ll + (b * b) * ll, (x * x) * nn + (y * y) * nn, (c * c) * ll, (z * z) * nn, k);
        lemma_three(a * a, b * b, c * c, ll);
        lemma_three(x * x, y * y, z * z, nn);
        lemma_length_near(on, v);
        lemma_multiplied(squared_length(v), ll, 5140, nn);
        lemma_chained(squared_length(axis) * ll, squared_length(v) * nn, ll * nn, k, 5140, 7200);
        assert(ll * nn == nn * ll) by (nonlinear_arith);
        lemma_divided(squared_length(axis), nn, 7200, ll);
    } else {
        assert(a * a == 0 && b * b == 0 && c * c == n * n) by (nonlinear_arith)
            requires
                a == 0,
                b == 0,
                c == n,
        ;
        lemma_squares(n, n);
    }
}

/// A factor of three terms can be taken out.
pub(crate) proof fn lemma_three(a: int, b: int, c: int, d: int)
    by (nonlinear_arith)
    ensures
        a * d + b * d + c * d == (a + b + c) * d,
{
}

/// Conserving the volume keeps the proportions of a blob: each amplitude is to the
/// radius as it was, but for two roundings.
pub proof fn conserving_keeps_proportions(on: Arithmetic, before: BlobParams, after: BlobParams, i: int)
    requires
        correctly_rounded(on),
        after.conserved_from(on, before),
        0 <= i < before.bumps@.len(),
        plain(before.r_min),
        plain(before.bumps@[i].amplitude),
        ({
            let factor = correction(on, before.target_volume, volume(on, before.r_min, before.bumps@));
            &&& product_is_full(on, before.r_min, factor)
            &&& product_is_full(on, before.bumps@[i].amplitude, factor)
        }),
    ensures
        after.bumps@.len() == before.bumps@.len(),
        ({
            let (a, r) = (before.bumps@[i].amplitude.units(), before.r_min.units());
            let (b, s) = (after.bumps@[i].amplitude.units(), after.r_min.units());
            near(b * r, a * s, 2052)
        }),
{
    constants_in_units();
    let n = one_in_units();
    let (p, q) = (before.r_min, before.bumps@[i].amplitude);
    let (r, a) = (p.units(), q.units());
    let current = volume(on, p, before.bumps@);
    assert(r * a == a * r) by (nonlinear_arith);
    assert(0 <= a * r) by (nonlinear_arith)
        requires
            0 <= a,
            0 <= r,
    ;
    if current.at_most(Scalar(ZERO)) {
        assert(after.bumps@[i] == before.bumps@[i]);
    } else {
        let factor = correction(on, before.target_volume, current);
        let f = factor.units();
        product_is_near(on, p, factor);
        product_is_near(on, q, factor);
        let (s, b) = (on.product(p, factor).units(), on.product(q, factor).units());
        lemma_multiplied(b * n, a * f, ROUNDING as int, r);
        lemma_multiplied(r * f, s * n, ROUNDING + 1, a);
        assert((a * f) * r == (r * f) * a) by (nonlinear_arith);
        lemma_chained((b * n) * r, (a * f) * r, (s * n) * a, ROUNDING as int, ROUNDING + 1, 2052);
        assert((b * n) * r == (b * r) * n && (s * n) * a == (a * s) * n) by (nonlinear_arith);
        lemma_divided(b * r, a * s, 2052, n);
        assert(after.r_min == on.product(p, factor));
        assert(after.bumps@[i].amplitude == on.product(q, factor));
    }
}

} // verus!
