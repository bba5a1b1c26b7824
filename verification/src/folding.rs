//! When a bend folds the outline of a bump over.

use vstd::prelude::*;
use vstd::arithmetic::power2::{
    lemma2_to64, lemma_pow2_adds, lemma_pow2_pos, lemma_pow2_unfold, pow2,
};
use crate::bend::{sample_angle, weight, SAMPLES};
use crate::bump::BumpParams;
use crate::math::Arithmetic;
use crate::ordering::exponential_rises;
use crate::perpendicular::lemma_magnitude;
use crate::rounding::{
    constants_in_units, correctly_rounded, one_in_units, product_is_rounded, quotient_is_rounded, rounds,
    sign_of_units, sum_is_rounded,
};
use crate::scalar::{lemma_rank_orders, negation_negates, units_of, Scalar, ONE, PI, THOUSANDTH, ZERO};
use crate::surface::{lemma_any_result, lemma_unit_size};
use crate::tolerance::{lemma_signed, magnitude, PARTS};

verus! {

/// A number is finite, and not so small that a product of two like it vanishes.
pub open spec fn is_clear(a: Scalar) -> bool {
    a.finite() && a.units() * a.units() >= one_in_units()
}

/// The ghost point is clearly off the tangent at an angle.
pub open spec fn clear_at(on: Arithmetic, bump: BumpParams, r_min: Scalar, theta: Scalar, bend_angle: Scalar) -> bool {
    is_clear(bump.side(on, r_min, theta, bend_angle))
}

/// The product of two numbers of different signs is negative, if both are clear.
proof fn lemma_opposite(on: Arithmetic, a: Scalar, b: Scalar)
    requires
        correctly_rounded(on),
        is_clear(a),
        is_clear(b),
        (a.units() < 0) != (b.units() < 0),
    ensures
        on.product(a, b).below(Scalar(ZERO)),
{
    constants_in_units();
    let (n, r) = (one_in_units(), on.product(a, b));
    let (x, y) = (magnitude(a.units()), magnitude(b.units()));
    let exact = a.units() * b.units();
    assert(product_is_rounded(on, a, b));
    assert(x * x == a.units() * a.units() && y * y == b.units() * b.units() && exact == -(x * y)) by (nonlinear_arith)
        requires
            x == magnitude(a.units()),
            y == magnitude(b.units()),
            exact == a.units() * b.units(),
            (a.units() < 0) != (b.units() < 0),
    ;
    assert(x * y >= n) by (nonlinear_arith)
        requires
            x * x >= n,
            y * y >= n,
            0 <= x,
            0 <= y,
    {
        if x <= y {
            assert(x * x <= x * y);
        } else {
            assert(y * y <= x * y);
        }
    }
    let least = Scalar(0x8000_0001);
    assert(units_of(1) == 1);
    assert(least.units() == -1);
    lemma_rank_orders(least, Scalar(ZERO));
    if r.units() >= 0 {
        assert(r.units() * n >= 0) by (nonlinear_arith)
            requires
                r.units() >= 0,
                n > 0,
        ;
        assert(least.units() * n == -n);
        assert(false);
    }
    lemma_rank_orders(r, Scalar(ZERO));
}

/// The product of two numbers of one sign is not negative.
proof fn lemma_alike(on: Arithmetic, a: Scalar, b: Scalar)
    requires
        correctly_rounded(on),
        a.finite(),
        b.finite(),
        (a.units() <= 0 && b.units() <= 0) || (a.units() >= 0 && b.units() >= 0),
    ensures
        !on.product(a, b).below(Scalar(ZERO)),
{
    constants_in_units();
    let (n, r) = (one_in_units(), on.product(a, b));
    let exact = a.units() * b.units();
    assert(product_is_rounded(on, a, b));
    assert(exact >= 0) by (nonlinear_arith)
        requires
            exact == a.units() * b.units(),
            (a.units() <= 0 && b.units() <= 0) || (a.units() >= 0 && b.units() >= 0),
    ;
    if r.units() < 0 {
        assert(r.units() * n < 0) by (nonlinear_arith)
            requires
                r.units() < 0,
                n > 0,
        ;
        assert(Scalar(ZERO).units() * n == 0);
        assert(false);
    }
}

/// Between two samples on different sides there is a step that changes sides.
proof fn lemma_step(on: Arithmetic, bump: BumpParams, r_min: Scalar, bend_angle: Scalar, i: int, j: int) -> (k: int)
    requires
        0 <= i <= j <= 128,
        (bump.side(on, r_min, sample_angle(on, i), bend_angle).units() < 0) != (bump.side(
            on,
            r_min,
            sample_angle(on, j),
            bend_angle,
        ).units() < 0),
    ensures
        i < k <= j,
        (bump.side(on, r_min, sample_angle(on, k - 1), bend_angle).units() < 0) != (bump.side(
            on,
            r_min,
            sample_angle(on, k),
            bend_angle,
        ).units() < 0),
    decreases j - i,
{
    let first = bump.side(on, r_min, sample_angle(on, i), bend_angle).units() < 0;
    let before = bump.side(on, r_min, sample_angle(on, j - 1), bend_angle).units() < 0;
    if first == before {
        j
    } else {
        lemma_step(on, bump, r_min, bend_angle, i, j - 1)
    }
}

/// A bend folds the outline over if the ghost point lies on different sides of
/// the tangents at any two of the samples, and clearly off the tangents at all.
pub proof fn bend_folds_between_sides(
    on: Arithmetic,
    bump: BumpParams,
    r_min: Scalar,
    bend_angle: Scalar,
    i: int,
    j: int,
)
    requires
        correctly_rounded(on),
        0 <= i <= j <= 128,
        forall|k: int| i <= k <= j ==> #[trigger] clear_at(on, bump, r_min, sample_angle(on, k), bend_angle),
        (bump.side(on, r_min, sample_angle(on, i), bend_angle).units() < 0) != (bump.side(
            on,
            r_min,
            sample_angle(on, j),
            bend_angle,
        ).units() < 0),
    ensures
        bump.folds(on, r_min, bend_angle),
{
    let k = lemma_step(on, bump, r_min, bend_angle, i, j);
    assert(clear_at(on, bump, r_min, sample_angle(on, k - 1), bend_angle));
    assert(clear_at(on, bump, r_min, sample_angle(on, k), bend_angle));
    lemma_opposite(
        on,
        bump.side(on, r_min, sample_angle(on, k - 1), bend_angle),
        bump.side(on, r_min, sample_angle(on, k), bend_angle),
    );
    assert(bump.crosses(on, r_min, bend_angle, k));
}

/// A bend does not fold the outline over if the ghost point lies on one side of
/// the tangents at all samples.
pub proof fn bend_is_safe_on_one_side(on: Arithmetic, bump: BumpParams, r_min: Scalar, bend_angle: Scalar)
    requires
        correctly_rounded(on),
        forall|k: int|
            0 <= k <= 128 ==> (#[trigger] bump.side(on, r_min, sample_angle(on, k), bend_angle)).finite(),
        ({
            ||| forall|k: int|
                0 <= k <= 128 ==> (#[trigger] bump.side(on, r_min, sample_angle(on, k), bend_angle)).units() <= 0
            ||| forall|k: int|
                0 <= k <= 128 ==> (#[trigger] bump.side(on, r_min, sample_angle(on, k), bend_angle)).units() >= 0
        }),
    ensures
        !bump.folds(on, r_min, bend_angle),
{
    assert forall|k: int| 1 <= k <= SAMPLES implies !#[trigger] bump.crosses(on, r_min, bend_angle, k) by {
        lemma_alike(
            on,
            bump.side(on, r_min, sample_angle(on, k - 1), bend_angle),
            bump.side(on, r_min, sample_angle(on, k), bend_angle),
        );
    }
}

/// The number 2^64.
proof fn lemma_great()
    ensures
        Scalar(0x5f80_0000).finite(),
        Scalar(0x5f80_0000).units() == 0x1_0000_0000_0000_0000 * one_in_units(),
{
    constants_in_units();
    lemma2_to64();
    lemma_pow2_adds(64, 126);
    assert(Scalar(0x5f80_0000).unsigned() / 0x80_0000 == 191 && Scalar(0x5f80_0000).unsigned() % 0x80_0000 == 0);
}

/// A product of no more than 2^64.
pub(crate) proof fn lemma_fair_product(on: Arithmetic, a: Scalar, b: Scalar)
    requires
        rounds(on),
        a.finite(),
        b.finite(),
        magnitude(a.units() * b.units()) <= 0x1_0000_0000_0000_0000 * (one_in_units() * one_in_units()),
    ensures
        ({
            let (r, n) = (on.product(a, b), one_in_units());
            &&& r.finite()
            &&& PARTS * magnitude(r.units() * n - a.units() * b.units()) <= 2048 * magnitude(a.units() * b.units())
                + PARTS * n
        }),
{
    reveal(rounds);
    constants_in_units();
    lemma_great();
    let n = one_in_units();
    assert(product_is_rounded(on, a, b));
    assert((0x1_0000_0000_0000_0000 * n) * n == 0x1_0000_0000_0000_0000 * (n * n)) by (nonlinear_arith);
    lemma_any_result(on.product(a, b), a.units() * b.units(), n, Scalar(0x5f80_0000));
}

/// A quotient of no more than 2^64.
pub(crate) proof fn lemma_fair_quotient(on: Arithmetic, a: Scalar, b: Scalar)
    requires
        rounds(on),
        a.finite(),
        b.finite(),
        0 < b.units(),
        magnitude(a.units()) <= 0x1_0000_0000_0000_0000 * b.units(),
    ensures
        ({
            let (r, n) = (on.quotient(a, b), one_in_units());
            &&& r.finite()
            &&& PARTS * magnitude(r.units() * b.units() - a.units() * n) <= 2048 * magnitude(a.units() * n)
                + PARTS * b.units()
        }),
{
    reveal(rounds);
    constants_in_units();
    lemma_great();
    let n = one_in_units();
    assert(quotient_is_rounded(on, a, b));
    lemma_magnitude(a.units(), n);
    assert(magnitude(a.units()) * n <= (0x1_0000_0000_0000_0000 * n) * b.units()) by (nonlinear_arith)
        requires
            magnitude(a.units()) <= 0x1_0000_0000_0000_0000 * b.units(),
            0 < n,
    {
        assert(magnitude(a.units()) * n <= (0x1_0000_0000_0000_0000 * b.units()) * n);
    }
    lemma_any_result(on.quotient(a, b), a.units() * n, b.units(), Scalar(0x5f80_0000));
}

/// A sum of no more than 2^64.
pub(crate) proof fn lemma_fair_sum(on: Arithmetic, a: Scalar, b: Scalar)
    requires
        rounds(on),
        a.finite(),
        b.finite(),
        magnitude(a.units() + b.units()) <= 0x1_0000_0000_0000_0000 * one_in_units(),
    ensures
        on.sum(a, b).finite(),
        0x100_0000 * magnitude(on.sum(a, b).units() - (a.units() + b.units())) <= magnitude(a.units() + b.units()),
{
    reveal(rounds);
    lemma_great();
    let (r, total) = (on.sum(a, b), a.units() + b.units());
    assert(sum_is_rounded(on, a, b));
    assert((0x1_0000_0000_0000_0000 * one_in_units()) * 1 == 0x1_0000_0000_0000_0000 * one_in_units());
    lemma_any_result(r, total, 1, Scalar(0x5f80_0000));
    lemma_signed(r, total, 1);
    assert(r.units() * 1 == r.units());
}

/// A difference of no more than 2^64.
pub(crate) proof fn lemma_fair_difference(on: Arithmetic, a: Scalar, b: Scalar)
    requires
        rounds(on),
        a.finite(),
        b.finite(),
        magnitude(a.units() - b.units()) <= 0x1_0000_0000_0000_0000 * one_in_units(),
    ensures
        on.difference(a, b).finite(),
        0x100_0000 * magnitude(on.difference(a, b).units() - (a.units() - b.units())) <= magnitude(
            a.units() - b.units(),
        ),
{
    negation_negates(b);
    assert(on.difference(a, b) == on.sum(a, b.negated())) by {
        reveal(rounds);
    }
    lemma_fair_sum(on, a, b.negated());
}

/// Small counts are held exactly.
pub open spec fn counts_exactly(on: Arithmetic) -> bool {
    forall|k: usize|
        k <= 128 ==> (#[trigger] on.integer(k)).finite() && on.integer(k).units() == k * one_in_units()
}

/// What the first and the last angle stand for.
pub(crate) proof fn lemma_ends()
    ensures
        Scalar(THOUSANDTH).finite(),
        Scalar(PI).finite(),
        ({
            let u = pow2(116) as int;
            &&& 0 < u
            &&& one_in_units() == 0x2_0000_0000 * u
            &&& Scalar(THOUSANDTH).units() == 0x83_126f * u
            &&& Scalar(PI).units() == 0x6_487e_d800 * u
        }),
{
    constants_in_units();
    lemma2_to64();
    lemma_pow2_pos(116);
    lemma_pow2_adds(116, 11);
    lemma_pow2_adds(116, 32);
    lemma_pow2_unfold(149);
    assert(Scalar(THOUSANDTH).unsigned() / 0x80_0000 == 117 && Scalar(THOUSANDTH).unsigned() % 0x80_0000 == 0x3_126f);
    assert(Scalar(PI).unsigned() / 0x80_0000 == 128 && Scalar(PI).unsigned() % 0x80_0000 == 0x49_0fdb);
    let u = pow2(116) as int;
    assert(0xc9_0fdb * (2048 * u) == 0x6_487e_d800 * u);
}

/// Roundings on the way to a sample, added up.
proof fn lemma_sample_errors(t: int, p: int, d: int, di: int, reach: int, q: int, s: int, pi: int, i: int, n: int)
    requires
        1 <= i <= 128,
        0x1_0000_0000 < n,
        0 <= t,
        999 * t <= n,
        0 <= p <= 4 * n,
        0x100_0000 * magnitude(d - p) <= p,
        di == d * i,
        pi == p * i,
        PARTS * magnitude(reach - di) <= 2048 * di + PARTS,
        PARTS * magnitude(128 * q - reach) <= 2048 * magnitude(reach) + 128 * PARTS,
        0x100_0000 * magnitude(s - (t + q)) <= magnitude(t + q),
    ensures
        500_000 * magnitude(128 * s - (128 * t + pi)) <= 128 * n,
{
    let off = d - p;
    assert(di - pi == off * i) by (nonlinear_arith)
        requires
            di == d * i,
            pi == p * i,
            off == d - p,
    ;
    lemma_magnitude(off, i);
    let m = magnitude(off);
    assert(m * i <= 128 * m) by (nonlinear_arith)
        requires
            0 <= m,
            i <= 128,
    ;
    assert(0 <= pi <= 128 * p) by (nonlinear_arith)
        requires
            0 <= p,
            1 <= i <= 128,
            pi == p * i,
    ;
    assert(magnitude(di - pi) <= 128 * m);
    assert(di <= 513 * n);
    assert(0 <= di) by (nonlinear_arith)
        requires
            di == d * i,
            0 <= d,
            1 <= i,
    ;
    lemma_sample_linear(t, p, di, reach, q, s, pi, m, n);
}

/// The same, without products.
proof fn lemma_sample_linear(t: int, p: int, di: int, reach: int, q: int, s: int, pi: int, m: int, n: int)
    requires
        0x1_0000_0000 < n,
        0 <= t,
        999 * t <= n,
        0 <= p <= 4 * n,
        0 <= m,
        0x100_0000 * m <= p,
        0 <= di <= 513 * n,
        magnitude(di - pi) <= 128 * m,
        17_179_869_184 * magnitude(reach - di) <= 2048 * di + 17_179_869_184,
        17_179_869_184 * magnitude(128 * q - reach) <= 2048 * magnitude(reach) + 128 * 17_179_869_184,
        0x100_0000 * magnitude(s - (t + q)) <= magnitude(t + q),
    ensures
        500_000 * magnitude(128 * s - (128 * t + pi)) <= 128 * n,
{
    let (a, b, c) = (magnitude(reach - di), magnitude(128 * q - reach), magnitude(s - (t + q)));
    assert(10_000 * a <= n);
    assert(magnitude(reach) <= 514 * n);
    assert(10_000 * b <= n);
    assert(128 * magnitude(t + q) <= 515 * n);
    assert(magnitude(128 * s - (128 * t + pi)) <= 128 * c + b + a + 128 * m);
}

/// The samples are spread evenly, in 128 steps, from one in a thousand to half a
/// turn: each is where it belongs, but for two parts in a million of one.
pub proof fn samples_are_spread_evenly(on: Arithmetic, i: int)
    requires
        correctly_rounded(on),
        counts_exactly(on),
        0 <= i <= 128,
    ensures
        sample_angle(on, i).finite(),
        ({
            let (first, last) = (Scalar(THOUSANDTH).units(), Scalar(PI).units());
            500_000 * magnitude(128 * sample_angle(on, i).units() - (128 * first + i * (last - first))) <= 128
                * one_in_units()
        }),
{
    constants_in_units();
    lemma_ends();
    lemma_unit_size();
    assert(rounds(on)) by {
        reveal(rounds);
    }
    let (first, last) = (Scalar(THOUSANDTH), Scalar(PI));
    if i == 0 {
        assert(i * (last.units() - first.units()) == 0) by (nonlinear_arith)
            requires
                i == 0,
        ;
    } else {
        lemma_inner_sample(on, i);
    }
}

/// The samples after the first.
proof fn lemma_inner_sample(on: Arithmetic, i: int)
    requires
        rounds(on),
        counts_exactly(on),
        1 <= i <= 128,
    ensures
        sample_angle(on, i).finite(),
        ({
            let (first, last) = (Scalar(THOUSANDTH).units(), Scalar(PI).units());
            500_000 * magnitude(128 * sample_angle(on, i).units() - (128 * first + i * (last - first))) <= 128
                * one_in_units()
        }),
{
    lemma_ends();
    lemma_unit_size();
    let n = one_in_units();
    let (first, last) = (Scalar(THOUSANDTH), Scalar(PI));
    let (t, p) = (first.units(), last.units() - first.units());
    let wide = on.difference(last, first);
    lemma_fair_difference(on, last, first);
    let (k, all) = (on.integer(i as usize), on.integer(128));
    assert(k.units() == i * n && all.units() == 128 * n);
    let d = wide.units();
    let di = d * i;
    assert(0 <= d <= 4 * n);
    assert(0 <= di <= 512 * n) by (nonlinear_arith)
        requires
            di == d * i,
            0 <= d <= 4 * n,
            1 <= i <= 128,
    ;
    assert(d * (i * n) == di * n && 0 <= di * n <= 512 * (n * n)) by (nonlinear_arith)
        requires
            di == d * i,
            0 <= di <= 512 * n,
            0 < n,
    ;
    lemma_fair_product(on, wide, k);
    let reach = on.product(wide, k);
    lemma_cancelled(reach.units(), di, n);
    assert(magnitude(reach.units()) <= 514 * n);
    lemma_fair_quotient(on, reach, all);
    let q = on.quotient(reach, all);
    assert(q.units() * (128 * n) == (128 * q.units()) * n) by (nonlinear_arith);
    lemma_cancelled_count(128 * q.units(), reach.units(), n);
    assert(128 * magnitude(q.units()) <= 515 * n);
    lemma_fair_sum(on, first, q);
    let s = on.sum(first, q);
    assert(p * i == i * p) by (nonlinear_arith);
    lemma_sample_errors(t, p, d, di, reach.units(), q.units(), s.units(), p * i, i, n);
}

/// An error of a product, without the unit that it is counted in.
pub(crate) proof fn lemma_cancelled(x: int, y: int, n: int)
    requires
        0 < n,
        0 <= y,
        PARTS * magnitude(x * n - y * n) <= 2048 * magnitude(y * n) + PARTS * n,
    ensures
        PARTS * magnitude(x - y) <= 2048 * y + PARTS,
{
    let d = x - y;
    assert(x * n - y * n == d * n) by (nonlinear_arith)
        requires
            d == x - y,
    ;
    lemma_magnitude(d, n);
    lemma_magnitude(y, n);
    let (m, p) = (magnitude(d), PARTS as int);
    assert(p * m <= 2048 * y + p) by (nonlinear_arith)
        requires
            p * (m * n) <= 2048 * (y * n) + p * n,
            0 < n,
    {
        assert((p * m) * n <= (2048 * y + p) * n);
    }
}

/// The same of a quotient by a count.
pub(crate) proof fn lemma_cancelled_count(x: int, y: int, n: int)
    requires
        0 < n,
        PARTS * magnitude(x * n - y * n) <= 2048 * magnitude(y * n) + PARTS * (128 * n),
    ensures
        PARTS * magnitude(x - y) <= 2048 * magnitude(y) + 128 * PARTS,
{
    let d = x - y;
    assert(x * n - y * n == d * n) by (nonlinear_arith)
        requires
            d == x - y,
    ;
    lemma_magnitude(d, n);
    lemma_magnitude(y, n);
    let (m, p, z) = (magnitude(d), PARTS as int, magnitude(y));
    assert(p * m <= 2048 * z + 128 * p) by (nonlinear_arith)
        requires
            p * (m * n) <= 2048 * (z * n) + p * (128 * n),
            0 < n,
    {
        assert((p * m) * n <= (2048 * z + 128 * p) * n);
    }
}

/// A product whose factors have bounds of their own.
proof fn lemma_bounded_exact(on: Arithmetic, x: Scalar, y: Scalar, p: int, q: int, d: int, e: int, b: int)
    requires
        rounds(on),
        x.finite(),
        y.finite(),
        0 < d,
        0 < e,
        0 <= b <= 0x1_0000_0000_0000 * one_in_units(),
        0 <= p,
        0 <= q,
        magnitude(x.units() * y.units()) == p * q,
        d * p <= one_in_units(),
        e * q <= b,
        0x200_0000 * (d * e) <= b,
    ensures
        on.product(x, y).finite(),
        1_000_000 * (d * e * magnitude(on.product(x, y).units())) <= 1_000_001 * b,
{
    lemma_unit_size();
    let n = one_in_units();
    let de = d * e;
    assert(de * (p * q) <= b * n) by (nonlinear_arith)
        requires
            0 <= p,
            0 <= q,
            0 < d,
            0 < e,
            d * p <= n,
            e * q <= b,
            de == d * e,
                {
        assert(0 <= d * p && 0 <= e * q);
        assert((d * p) * (e * q) <= n * b);
        assert((d * p) * (e * q) == de * (p * q));
        assert(n * b == b * n);
    }
    assert(0 < de) by (nonlinear_arith)
        requires
            de == d * e,
            0 < d,
            0 < e,
    ;
    let pq = p * q;
    assert(0 <= pq) by (nonlinear_arith)
        requires
            pq == p * q,
            0 <= p,
            0 <= q,
    ;
    assert(pq <= 0x1_0000_0000_0000 * (n * n)) by (nonlinear_arith)
        requires
            de * pq <= b * n,
            b <= 0x1_0000_0000_0000 * n,
            0 <= pq,
            0 < de,
            0 < n,
    {
        assert(pq <= de * pq);
        assert(b * n <= (0x1_0000_0000_0000 * n) * n);
    }
    lemma_fair_product(on, x, y);
    let r = on.product(x, y).units();
    lemma_magnitude(r, n);
    let m = magnitude(r);
    assert(17_179_869_184 * (m * n) <= 17_179_871_232 * pq + 17_179_869_184 * n);
    assert(17_179_869_184 * (de * m) <= 17_179_871_232 * b + 17_179_869_184 * de) by (nonlinear_arith)
        requires
            17_179_869_184 * (m * n) <= 17_179_871_232 * pq + 17_179_869_184 * n,
            de * pq <= b * n,
            0 < de,
            0 < n,
    {
        assert(de * (17_179_869_184 * (m * n)) <= de * (17_179_871_232 * pq + 17_179_869_184 * n));
        assert(de * (17_179_869_184 * (m * n)) == (17_179_869_184 * (de * m)) * n);
        assert(de * (17_179_871_232 * pq) == 17_179_871_232 * (de * pq));
        assert(de * (17_179_869_184 * n) == (17_179_869_184 * de) * n);
        assert((17_179_869_184 * (de * m)) * n <= (17_179_871_232 * b + 17_179_869_184 * de) * n);
    }
    assert(d * e * m == de * m);
}

/// A product of two numbers, each with a bound of its own.
proof fn lemma_bounded(on: Arithmetic, x: Scalar, y: Scalar, d: int, e: int, b: int)
    requires
        rounds(on),
        x.finite(),
        y.finite(),
        0 < d,
        0 < e,
        0 <= b <= 0x1_0000_0000_0000 * one_in_units(),
        d * magnitude(x.units()) <= one_in_units(),
        e * magnitude(y.units()) <= b,
        0x200_0000 * (d * e) <= b,
    ensures
        on.product(x, y).finite(),
        1_000_000 * (d * e * magnitude(on.product(x, y).units())) <= 1_000_001 * b,
{
    let (p, q) = (magnitude(x.units()), magnitude(y.units()));
    assert(magnitude(x.units() * y.units()) == p * q) by (nonlinear_arith)
        requires
            p == magnitude(x.units()),
            q == magnitude(y.units()),
    ;
    lemma_bounded_exact(on, x, y, p, q, d, e, b);
}

/// The same, with the bounds the other way round.
proof fn lemma_bounded_right(on: Arithmetic, x: Scalar, y: Scalar, d: int, e: int, b: int)
    requires
        rounds(on),
        x.finite(),
        y.finite(),
        0 < d,
        0 < e,
        0 <= b <= 0x1_0000_0000_0000 * one_in_units(),
        d * magnitude(y.units()) <= one_in_units(),
        e * magnitude(x.units()) <= b,
        0x200_0000 * (d * e) <= b,
    ensures
        on.product(x, y).finite(),
        1_000_000 * (d * e * magnitude(on.product(x, y).units())) <= 1_000_001 * b,
{
    let (p, q) = (magnitude(y.units()), magnitude(x.units()));
    assert(magnitude(x.units() * y.units()) == p * q) by (nonlinear_arith)
        requires
            p == magnitude(y.units()),
            q == magnitude(x.units()),
    ;
    lemma_bounded_exact(on, x, y, p, q, d, e, b);
}

/// A positive number times one that is nearly one, or nearly minus one.
proof fn lemma_nearly_kept(on: Arithmetic, x: Scalar, y: Scalar, sign: int)
    requires
        rounds(on),
        x.finite(),
        y.finite(),
        sign == 1 || sign == -1,
        1_000_000 * magnitude(x.units() - sign * one_in_units()) <= one_in_units(),
        0x200_0000 <= y.units() <= 0x1_0000_0000_0000 * one_in_units(),
    ensures
        on.product(x, y).finite(),
        500_000 * magnitude(on.product(x, y).units() - sign * y.units()) <= y.units(),
{
    lemma_unit_size();
    let n = one_in_units();
    let (a, b, exact) = (x.units(), y.units(), x.units() * y.units());
    let off = a - sign * n;
    assert(exact - (sign * b) * n == off * b) by (nonlinear_arith)
        requires
            exact == a * b,
            off == a - sign * n,
    ;
    lemma_magnitude(off, b);
    let (m, h) = (magnitude(off), b * n);
    assert(1_000_000 * (m * b) <= h) by (nonlinear_arith)
        requires
            1_000_000 * m <= n,
            0 <= b,
            h == b * n,
    ;
    assert(magnitude((sign * b) * n) == h) by (nonlinear_arith)
        requires
            sign == 1 || sign == -1,
            0 <= b,
            0 < n,
            h == b * n,
    ;
    assert(h <= 0x1_0000_0000_0000 * (n * n) && 0x200_0000 * n <= h) by (nonlinear_arith)
        requires
            0x200_0000 <= b <= 0x1_0000_0000_0000 * n,
            0 < n,
            h == b * n,
    ;
    lemma_kept_error(exact, (sign * b) * n, m * b, h);
    lemma_fair_product(on, x, y);
    let r = on.product(x, y).units();
    lemma_kept_total(r * n, exact, (sign * b) * n, h, n);
    let z = r - sign * b;
    assert(r * n - (sign * b) * n == z * n) by (nonlinear_arith)
        requires
            z == r - sign * b,
    ;
    lemma_magnitude(z, n);
    let w = magnitude(z);
    assert(500_000 * w <= b) by (nonlinear_arith)
        requires
            500_000 * (w * n) <= b * n,
            0 < n,
    {
        assert((500_000 * w) * n <= b * n);
    }
}

/// What is near something of a size is not much greater.
proof fn lemma_kept_error(exact: int, whole: int, off: int, h: int)
    requires
        magnitude(exact - whole) == off,
        1_000_000 * off <= h,
        magnitude(whole) == h,
        0 <= h,
    ensures
        magnitude(exact) <= 2 * h,
        1_000_000 * magnitude(exact) <= 1_000_001 * h,
        1_000_000 * magnitude(exact - whole) <= h,
{
}

/// Two errors, one on top of the other.
proof fn lemma_kept_total(r: int, exact: int, whole: int, h: int, n: int)
    requires
        0 < n,
        0x200_0000 * n <= h,
        1_000_000 * magnitude(exact) <= 1_000_001 * h,
        1_000_000 * magnitude(exact - whole) <= h,
        PARTS * magnitude(r - exact) <= 2048 * magnitude(exact) + PARTS * n,
    ensures
        500_000 * magnitude(r - whole) <= h,
{
    assert(magnitude(r - whole) <= magnitude(r - exact) + magnitude(exact - whole));
}

/// One is a great number of units.
pub(crate) proof fn lemma_many_units()
    ensures
        0x1_0000_0000_0000_0000_0000_0000_0000_0000 <= one_in_units(),
{
    lemma_ends();
    lemma2_to64();
    lemma_pow2_adds(64, 32);
    lemma_pow2_adds(96, 20);
}

/// A radius that is neither tiny nor great, and an amplitude that is greater, but
/// no more than a hundred times.
pub open spec fn outgrown(r_min: Scalar, amplitude: Scalar) -> bool {
    let n = one_in_units();
    &&& r_min.finite()
    &&& amplitude.finite()
    &&& n <= 0x4000_0000 * r_min.units()
    &&& r_min.units() <= 0x10_0000 * n
    &&& 101 * r_min.units() <= 100 * amplitude.units()
    &&& amplitude.units() <= 100 * r_min.units()
}

/// The slope of the turn near the axis of a bump.
proof fn lemma_slope(on: Arithmetic, k: Scalar, s: Scalar, f: Scalar, b: Scalar)
    requires
        rounds(on),
        k.finite(),
        0 <= k.units() <= 20 * one_in_units(),
        s.finite(),
        900 * magnitude(s.units()) <= one_in_units(),
        f.finite(),
        0 <= f.units() <= one_in_units(),
        b.finite(),
        999 * magnitude(b.units()) <= one_in_units(),
    ensures
        ({
            let slope = on.product(b, on.product(on.product(k.negated(), s), f));
            slope.finite() && 42_000 * magnitude(slope.units()) <= one_in_units()
        }),
{
    lemma_many_units();
    let n = one_in_units();
    negation_negates(k);
    lemma_bounded_right(on, k.negated(), s, 900, 1, 20 * n);
    let x = on.product(k.negated(), s);
    assert(44 * magnitude(x.units()) <= n);
    lemma_bounded(on, x, f, 44, 1, n);
    let y = on.product(x, f);
    assert(43 * magnitude(y.units()) <= n);
    lemma_bounded(on, b, y, 999, 43, n);
}

/// The point of the outline as seen from the ghost point, and the slope there:
/// the components that are small near the axis of a bump.
proof fn lemma_small_parts(on: Arithmetic, r: Scalar, a: Scalar, s: Scalar, p: Scalar, g: Scalar, slope: Scalar)
    requires
        rounds(on),
        r.finite(),
        a.finite(),
        one_in_units() <= 0x4000_0000 * r.units(),
        r.units() <= 0x10_0000 * one_in_units(),
        magnitude(a.units()) <= 100 * r.units(),
        s.finite(),
        p.finite(),
        g.finite(),
        slope.finite(),
        900 * magnitude(s.units()) <= one_in_units(),
        900 * magnitude(p.units()) <= one_in_units(),
        900 * magnitude(g.units()) <= one_in_units(),
        42_000 * magnitude(slope.units()) <= one_in_units(),
    ensures
        ({
            let x = on.difference(on.sum(on.product(s, r), on.product(p, a)), on.product(g.negated(), r));
            let y = on.difference(on.product(s.negated(), r), on.product(on.product(p, a), slope));
            &&& x.finite()
            &&& y.finite()
            &&& 8 * magnitude(x.units()) <= r.units()
            &&& 800 * magnitude(y.units()) <= r.units()
        }),
{
    lemma_many_units();
    let n = one_in_units();
    let rr = r.units();
    negation_negates(s);
    negation_negates(g);
    lemma_bounded(on, s, r, 900, 1, rr);
    lemma_bounded(on, s.negated(), r, 900, 1, rr);
    lemma_bounded(on, g.negated(), r, 900, 1, rr);
    lemma_bounded(on, p, a, 900, 1, 100 * rr);
    let (u, v, w, t) = (on.product(s, r), on.product(p, a), on.product(g.negated(), r), on.product(s.negated(), r));
    assert(899 * magnitude(u.units()) <= rr && 899 * magnitude(w.units()) <= rr && 899 * magnitude(t.units()) <= rr);
    assert(899 * magnitude(v.units()) <= 100 * rr);
    lemma_fair_sum(on, u, v);
    let z = on.sum(u, v);
    assert(880 * magnitude(z.units()) <= 101 * rr);
    lemma_fair_difference(on, z, w);
    lemma_bounded_right(on, v, slope, 42_000, 8, rr);
    let q = on.product(v, slope);
    assert(300_000 * magnitude(q.units()) <= rr);
    lemma_fair_difference(on, t, q);
}

/// The components that are not small near the axis.
proof fn lemma_great_parts(
    on: Arithmetic,
    r: Scalar,
    a: Scalar,
    c: Scalar,
    q: Scalar,
    g: Scalar,
    slope: Scalar,
    sign: int,
)
    requires
        rounds(on),
        outgrown(r, a),
        c.finite(),
        q.finite(),
        g.finite(),
        slope.finite(),
        sign == 1 || sign == -1,
        1_000_000 * magnitude(c.units() - sign * one_in_units()) <= one_in_units(),
        1_000_000 * magnitude(q.units() - one_in_units()) <= one_in_units(),
        1_000_000 * magnitude(g.units() - one_in_units()) <= one_in_units(),
        42_000 * magnitude(slope.units()) <= one_in_units(),
    ensures
        ({
            let x = on.difference(
                on.sum(on.product(c, r), on.product(q, a)),
                on.product(r, on.difference(Scalar(ONE), g)),
            );
            let y = on.sum(on.product(c, r), on.product(on.product(q, a), slope));
            &&& x.finite()
            &&& y.finite()
            &&& 100_000 * magnitude(x.units() - (sign * r.units() + a.units())) <= r.units() + a.units()
            &&& 400 * magnitude(y.units() - sign * r.units()) <= r.units()
        }),
{
    constants_in_units();
    lemma_many_units();
    let n = one_in_units();
    let (rr, aa) = (r.units(), a.units());
    let sr = sign * rr;
    assert(sr == rr || sr == -rr) by (nonlinear_arith)
        requires
            sr == sign * rr,
            sign == 1 || sign == -1,
    ;
    assert(1 * n == n);
    lemma_nearly_kept(on, c, r, sign);
    lemma_nearly_kept(on, q, a, 1);
    let (u, v) = (on.product(c, r), on.product(q, a));
    assert(500_000 * magnitude(u.units() - sr) <= rr);
    assert(500_000 * magnitude(v.units() - aa) <= aa);
    lemma_fair_sum(on, u, v);
    let z = on.sum(u, v);
    lemma_total(u.units(), v.units(), z.units(), sr, rr, aa);
    lemma_fair_difference(on, Scalar(ONE), g);
    let low = on.difference(Scalar(ONE), g);
    assert(900_000 * magnitude(low.units()) <= n);
    lemma_bounded_right(on, r, low, 900_000, 1, rr);
    let w = on.product(r, low);
    assert(800_000 * magnitude(w.units()) <= rr);
    lemma_fair_difference(on, z, w);
    lemma_lowered(z.units(), w.units(), on.difference(z, w).units(), sr, rr, aa);
    assert(magnitude(v.units()) <= 101 * rr);
    lemma_bounded_right(on, v, slope, 42_000, 1, 101 * rr);
    let k = on.product(v, slope);
    assert(412 * magnitude(k.units()) <= rr);
    lemma_fair_sum(on, u, k);
}

/// A sum of two numbers that are near what they stand for.
proof fn lemma_total(u: int, v: int, z: int, sr: int, r: int, a: int)
    requires
        0 < r,
        0 < a,
        sr == r || sr == -r,
        500_000 * magnitude(u - sr) <= r,
        500_000 * magnitude(v - a) <= a,
        0x100_0000 * magnitude(z - (u + v)) <= magnitude(u + v),
    ensures
        400_000 * magnitude(z - (sr + a)) <= r + a,
{
    assert(magnitude(u + v) <= 2 * (r + a));
}

/// The same, less a little.
proof fn lemma_lowered(z: int, w: int, x: int, sr: int, r: int, a: int)
    requires
        0 < r,
        0 < a,
        sr == r || sr == -r,
        400_000 * magnitude(z - (sr + a)) <= r + a,
        800_000 * magnitude(w) <= r,
        0x100_0000 * magnitude(x - (z - w)) <= magnitude(z - w),
    ensures
        100_000 * magnitude(x - (sr + a)) <= r + a,
{
    assert(magnitude(z - w) <= 2 * (r + a));
}

/// The product of the two small components is small.
proof fn lemma_small_product(on: Arithmetic, x: Scalar, y: Scalar, r: int)
    requires
        rounds(on),
        x.finite(),
        y.finite(),
        one_in_units() <= 0x4000_0000 * r,
        r <= 0x10_0000 * one_in_units(),
        8 * magnitude(x.units()) <= r,
        800 * magnitude(y.units()) <= r,
    ensures
        on.product(x, y).finite(),
        6000 * magnitude(on.product(x, y).units() * one_in_units()) <= r * r,
        0x100_0000_0000 * one_in_units() <= r * r,
        r * r <= 0x100_0000_0000 * (one_in_units() * one_in_units()),
{
    lemma_many_units();
    let n = one_in_units();
    let (p, q, rr) = (magnitude(x.units()), magnitude(y.units()), r * r);
    let exact = x.units() * y.units();
    assert(magnitude(exact) == p * q) by (nonlinear_arith)
        requires
            exact == x.units() * y.units(),
            p == magnitude(x.units()),
            q == magnitude(y.units()),
    ;
    assert(6400 * (p * q) <= rr) by (nonlinear_arith)
        requires
            0 <= 8 * p <= r,
            0 <= 800 * q <= r,
            rr == r * r,
    {
        assert((8 * p) * (800 * q) <= r * r);
    }
    assert(rr <= 0x100_0000_0000 * (n * n)) by (nonlinear_arith)
        requires
            0 <= r <= 0x10_0000 * n,
            rr == r * r,
    ;
    assert(0x100_0000_0000 * n <= rr) by (nonlinear_arith)
        requires
            n <= 0x4000_0000 * r,
            0x100_0000_0000 * 0x4000_0000 <= r,
            rr == r * r,
    {
        assert((0x100_0000_0000 * 0x4000_0000) * r <= r * r);
    }
    lemma_fair_product(on, x, y);
}

/// The sign of a product of two numbers, of which one is about `r` in size.
proof fn lemma_great_product(on: Arithmetic, x: Scalar, y: Scalar, r: int, sign: int)
    requires
        rounds(on),
        x.finite(),
        y.finite(),
        one_in_units() <= 0x4000_0000 * r,
        r <= 0x10_0000 * one_in_units(),
        0x100_0000_0000 * one_in_units() <= r * r,
        sign == 1 || sign == -1,
        1000 * x.units() >= 8 * r,
        x.units() <= 0x1000_0000 * one_in_units(),
        400 * magnitude(y.units() - sign * r) <= r,
    ensures
        on.product(x, y).finite(),
        magnitude(on.product(x, y).units()) <= 0x4_0000_0000_0000 * one_in_units(),
        sign == 1 ==> 1000 * (on.product(x, y).units() * one_in_units()) >= 7 * (r * r),
        sign == -1 ==> 1000 * (on.product(x, y).units() * one_in_units()) <= -7 * (r * r),
{
    lemma_many_units();
    let n = one_in_units();
    let (a, rr, z) = (x.units(), r * r, sign * y.units());
    assert(z == y.units() || z == -y.units()) by (nonlinear_arith)
        requires
            z == sign * y.units(),
            sign == 1 || sign == -1,
    ;
    assert(400 * magnitude(z - r) <= r) by (nonlinear_arith)
        requires
            400 * magnitude(y.units() - sign * r) <= r,
            z == sign * y.units(),
            sign == 1 || sign == -1,
    ;
    let az = a * z;
    assert(x.units() * y.units() == sign * az) by (nonlinear_arith)
        requires
            az == a * z,
            a == x.units(),
            z == sign * y.units(),
            sign == 1 || sign == -1,
    ;
    assert(400_000 * az >= 3192 * rr) by (nonlinear_arith)
        requires
            1000 * a >= 8 * r,
            400 * z >= 399 * r,
            0 < r,
            az == a * z,
            rr == r * r,
    {
        assert((1000 * a) * (400 * z) >= (8 * r) * (399 * r));
    }
    assert(az <= 0x2_0000_0000_0000 * (n * n)) by (nonlinear_arith)
        requires
            0 <= a <= 0x1000_0000 * n,
            0 <= z <= 0x20_0000 * n,
            az == a * z,
    ;
    assert(sign == 1 ==> sign * az == az);
    assert(sign == -1 ==> sign * az == -az);
    lemma_fair_product(on, x, y);
    let m = on.product(x, y).units();
    lemma_magnitude(m, n);
    let k = magnitude(m);
    assert(k * n <= 0x4_0000_0000_0000 * (n * n)) by {
        assert(0x1_0000_0000 * n <= n * n) by (nonlinear_arith)
            requires
                0x1_0000_0000 <= n,
        ;
    }
    assert(k <= 0x4_0000_0000_0000 * n) by (nonlinear_arith)
        requires
            k * n <= 0x4_0000_0000_0000 * (n * n),
            0 < n,
    ;
}

/// On which side of the tangent the ghost point lies, near the axis of a bump.
proof fn lemma_side_sign(
    on: Arithmetic,
    x: Scalar,
    dy: Scalar,
    y: Scalar,
    dx: Scalar,
    r: int,
    a: int,
    sign: int,
)
    requires
        rounds(on),
        x.finite(),
        dy.finite(),
        y.finite(),
        dx.finite(),
        one_in_units() <= 0x4000_0000 * r,
        r <= 0x10_0000 * one_in_units(),
        101 * r <= 100 * a,
        a <= 100 * r,
        sign == 1 || sign == -1,
        8 * magnitude(x.units()) <= r,
        800 * magnitude(dy.units()) <= r,
        100_000 * magnitude(y.units() - (sign * r + a)) <= r + a,
        400 * magnitude(dx.units() - sign * r) <= r,
    ensures
        ({
            let side = on.difference(on.product(x, dy), on.product(y, dx)).units();
            &&& sign == 1 ==> side < 0
            &&& sign == -1 ==> side > 0
        }),
{
    lemma_many_units();
    let n = one_in_units();
    lemma_small_product(on, x, dy, r);
    assert(sign == 1 ==> sign * r == r);
    assert(sign == -1 ==> sign * r == -r);
    assert(1000 * y.units() >= 8 * r && y.units() <= 0x1000_0000 * n);
    lemma_great_product(on, y, dx, r, sign);
    let (p, q, rr) = (on.product(x, dy).units(), on.product(y, dx).units(), r * r);
    lemma_magnitude(p, n);
    let k = magnitude(p);
    assert(k <= 0x100_0000_0000 * n) by (nonlinear_arith)
        requires
            6000 * (k * n) <= rr,
            rr <= 0x100_0000_0000 * (n * n),
            0 < n,
            0 <= k,
    {
        assert(k * n <= 0x100_0000_0000 * (n * n));
    }
    lemma_fair_difference(on, on.product(x, dy), on.product(y, dx));
    let (pn, qn) = (p * n, q * n);
    assert(pn < qn ==> p < q) by (nonlinear_arith)
        requires
            pn == p * n,
            qn == q * n,
            0 < n,
    ;
    assert(pn > qn ==> p > q) by (nonlinear_arith)
        requires
            pn == p * n,
            qn == q * n,
            0 < n,
    ;
}

/// The sine of an angle is small, and its cosine is one or minus one, but for one
/// part in a million.
pub open spec fn on_axis(on: Arithmetic, angle: Scalar, sign: int) -> bool {
    let (n, s, c) = (one_in_units(), on.sine(angle), on.cosine(angle));
    &&& s.finite()
    &&& c.finite()
    &&& 900 * magnitude(s.units()) <= n
    &&& -n <= c.units() <= n
    &&& 1_000_000 * magnitude(c.units() - sign * n) <= n
}

/// Sine and cosine are what they should be at angles that are close to zero.
pub open spec fn sound_near_zero(on: Arithmetic) -> bool {
    forall|x: Scalar|
        #![trigger on.sine(x)]
        #![trigger on.cosine(x)]
        x.finite() && 0 <= x.units() && 900 * x.units() <= one_in_units() ==> on_axis(on, x, 1)
}

/// Sine and cosine are what they should be at angles that are close to half a
/// turn.
pub open spec fn sound_near_half_turn(on: Arithmetic) -> bool {
    forall|x: Scalar|
        #![trigger on.sine(x)]
        #![trigger on.cosine(x)]
        x.finite() && 100_000 * magnitude(x.units() - Scalar(PI).units()) <= one_in_units() ==> on_axis(on, x, -1)
}

/// The exponential of a concentration is positive and finite, those of lesser
/// numbers are no greater, and none is negative.
pub open spec fn exponential_is_sound(on: Arithmetic, k: Scalar) -> bool {
    &&& exponential_rises(on)
    &&& on.exponential(k).finite()
    &&& on.exponential(k).units() > 0
    &&& forall|x: Scalar| x.finite() ==> 0 <= (#[trigger] on.exponential(x)).units()
}

/// The weight of a bump is between zero and one.
proof fn lemma_weight_in_range(on: Arithmetic, k: Scalar, c: Scalar)
    requires
        rounds(on),
        exponential_is_sound(on, k),
        k.finite(),
        0 <= k.units(),
        c.finite(),
        -one_in_units() <= c.units() <= one_in_units(),
    ensures
        weight(on, k, c).finite(),
        0 <= weight(on, k, c).units() <= one_in_units(),
{
    reveal(rounds);
    constants_in_units();
    let n = one_in_units();
    let (m, exact) = (on.product(k, c), k.units() * c.units());
    assert(product_is_rounded(on, k, c));
    assert(magnitude(exact) <= k.units() * n) by (nonlinear_arith)
        requires
            exact == k.units() * c.units(),
            0 <= k.units(),
            -n <= c.units() <= n,
    ;
    lemma_any_result(m, exact, n, k);
    lemma_rank_orders(k, m);
    let (e, f) = (on.exponential(m), on.exponential(k));
    assert(m.at_most(k));
    assert(e.at_most(f));
    lemma_rank_orders(f, e);
    sign_of_units(e);
    assert(e.finite());
    assert(quotient_is_rounded(on, e, f));
    let (num, den) = (e.units() * n, f.units());
    assert(0 <= num <= n * den) by (nonlinear_arith)
        requires
            num == e.units() * n,
            0 <= e.units() <= den,
            0 < n,
    ;
    lemma_any_result(on.quotient(e, f), num, den, Scalar(ONE));
}

/// A turn that is a share of a bend is no greater than the bend.
proof fn lemma_turn(on: Arithmetic, b: Scalar, f: Scalar)
    requires
        rounds(on),
        b.finite(),
        0 <= b.units(),
        f.finite(),
        0 <= f.units() <= one_in_units(),
    ensures
        on.product(b, f).finite(),
        0 <= on.product(b, f).units() <= b.units(),
{
    reveal(rounds);
    constants_in_units();
    let n = one_in_units();
    let exact = b.units() * f.units();
    assert(product_is_rounded(on, b, f));
    assert(0 <= exact <= b.units() * n) by (nonlinear_arith)
        requires
            exact == b.units() * f.units(),
            0 <= b.units(),
            0 <= f.units() <= n,
    ;
    lemma_any_result(on.product(b, f), exact, n, b);
}

/// On which side of the tangents on the axis of a bump the ghost point lies.
proof fn lemma_side_on_axis(on: Arithmetic, bump: BumpParams, r_min: Scalar, theta: Scalar, sign: int)
    requires
        rounds(on),
        sound_near_zero(on),
        exponential_is_sound(on, bump.concentration),
        bump.concentration.finite(),
        0 <= bump.concentration.units() <= 20 * one_in_units(),
        outgrown(r_min, bump.amplitude),
        sign == 1 || sign == -1,
        on_axis(on, theta, sign),
    ensures
        sign == 1 ==> bump.side(on, r_min, theta, Scalar(THOUSANDTH)).units() < 0,
        sign == -1 ==> bump.side(on, r_min, theta, Scalar(THOUSANDTH)).units() > 0,
{
    lemma_ends();
    let (k, a, b) = (bump.concentration, bump.amplitude, Scalar(THOUSANDTH));
    let (s, c) = (on.sine(theta), on.cosine(theta));
    lemma_weight_in_range(on, k, c);
    let f = weight(on, k, c);
    lemma_turn(on, b, f);
    let turn = on.product(b, f);
    let (p, q, g, h) = (on.sine(turn), on.cosine(turn), on.sine(b), on.cosine(b));
    assert(on_axis(on, turn, 1) && on_axis(on, b, 1));
    assert(1 * one_in_units() == one_in_units());
    lemma_slope(on, k, s, f, b);
    let slope = on.product(b, on.product(on.product(k.negated(), s), f));
    lemma_small_parts(on, r_min, a, s, p, g, slope);
    lemma_great_parts(on, r_min, a, c, q, h, slope, sign);
    let x = on.difference(on.sum(on.product(s, r_min), on.product(p, a)), on.product(g.negated(), r_min));
    let dy = on.difference(on.product(s.negated(), r_min), on.product(on.product(p, a), slope));
    let y = on.difference(
        on.sum(on.product(c, r_min), on.product(q, a)),
        on.product(r_min, on.difference(Scalar(ONE), h)),
    );
    let dx = on.sum(on.product(c, r_min), on.product(on.product(q, a), slope));
    lemma_side_sign(on, x, dy, y, dx, r_min.units(), a.units(), sign);
    assert(bump.side(on, r_min, theta, b) == on.difference(on.product(x, dy), on.product(y, dx)));
}

/// A bump that is higher than the sphere is wide folds at once: where its
/// amplitude exceeds the radius by one part in a hundred, but not a hundred
/// times, no bend is allowed. The sine, the cosine and the exponential are to be
/// sound, and the ghost point is to lie clearly off the tangents at the samples.
pub proof fn outgrown_bump_must_not_bend(on: Arithmetic, bump: BumpParams, r_min: Scalar)
    requires
        correctly_rounded(on),
        counts_exactly(on),
        sound_near_zero(on),
        sound_near_half_turn(on),
        exponential_is_sound(on, bump.concentration),
        bump.concentration.finite(),
        0 <= bump.concentration.units() <= 20 * one_in_units(),
        outgrown(r_min, bump.amplitude),
        forall|k: int|
            0 <= k <= 128 ==> #[trigger] clear_at(on, bump, r_min, sample_angle(on, k), Scalar(THOUSANDTH)),
    ensures
        bump.folds(on, r_min, Scalar(THOUSANDTH)),
        bump.bend_limit(on, r_min) == Scalar(ZERO),
{
    let (first, last) = (sample_angle(on, 0), sample_angle(on, 128));
    lemma_ends();
    samples_are_spread_evenly(on, 128);
    assert(rounds(on)) by {
        reveal(rounds);
    }
    assert(on_axis(on, first, 1));
    assert(on_axis(on, last, -1)) by {
        let _ = on.sine(last);
        assert(100_000 * magnitude(last.units() - Scalar(PI).units()) <= one_in_units());
    }
    lemma_side_on_axis(on, bump, r_min, first, 1);
    lemma_side_on_axis(on, bump, r_min, last, -1);
    bend_folds_between_sides(on, bump, r_min, Scalar(THOUSANDTH), 0, 128);
}

} // verus!
