//! The outline of a bent bump, and the ghost point: where they lie, and how far
//! the centre of a bump moves.

use vstd::prelude::*;
use crate::bend::{ghost_point, weight};
use crate::bump::{blend, ghost_distance, length, BumpParams};
use crate::folding::{lemma_fair_difference, lemma_fair_product, lemma_fair_sum, lemma_many_units};
use crate::math::{Arithmetic, Vector};
use crate::perpendicular::{
    dot, lemma_circle_is_modest, lemma_magnitude, lemma_mean_of_squares, lemma_sized_is_modest, modest, modest_vector,
    sized,
};
use crate::rounding::{constants_in_units, correctly_rounded, one_in_units, rounds};
use crate::scalar::{negation_negates, Scalar, ONE};
use crate::tolerance::{
    lemma_length_near, lemma_squares, lemma_three, length_is_sound, magnitude, near, nearly_unit, on_unit_circle,
    squared_length, PARTS,
};

verus! {

/// The magnitude of a product.
proof fn lemma_size(x: int, y: int)
    by (nonlinear_arith)
    ensures
        magnitude(x * y) == magnitude(x) * magnitude(y),
{
}

/// A modest number times one that is no greater than `m`.
proof fn lemma_part(on: Arithmetic, x: Scalar, y: Scalar, m: int)
    requires
        rounds(on),
        x.finite(),
        y.finite(),
        modest(x),
        magnitude(y.units()) <= m,
        0x400_0000 <= m <= 0x1_0000_0000_0000 * one_in_units(),
    ensures
        on.product(x, y).finite(),
        on.product(y, x).finite(),
        5_000_000 * magnitude(on.product(x, y).units() * one_in_units() - x.units() * y.units()) <= m * one_in_units(),
        5_000_000 * magnitude(on.product(y, x).units() * one_in_units() - x.units() * y.units()) <= m * one_in_units(),
        100 * magnitude(on.product(x, y).units()) <= 102 * m,
        100 * magnitude(on.product(y, x).units()) <= 102 * m,
{
    lemma_many_units();
    let n = one_in_units();
    let (p, q) = (magnitude(x.units()), magnitude(y.units()));
    let (exact, mn) = (x.units() * y.units(), m * n);
    lemma_size(x.units(), y.units());
    assert(y.units() * x.units() == exact) by (nonlinear_arith)
        requires
            exact == x.units() * y.units(),
    ;
    assert(100 * (p * q) <= 101 * mn) by (nonlinear_arith)
        requires
            0 <= 100 * p <= 101 * n,
            0 <= q <= m,
            mn == m * n,
    {
        assert((100 * p) * q <= (101 * n) * m);
    }
    assert(mn <= 0x1_0000_0000_0000 * (n * n) && 0x400_0000 * n <= mn) by (nonlinear_arith)
        requires
            mn == m * n,
            0x400_0000 <= m <= 0x1_0000_0000_0000 * n,
            0 < n,
    ;
    lemma_fair_product(on, x, y);
    lemma_fair_product(on, y, x);
    lemma_part_size(on.product(x, y).units(), exact, m, n);
    lemma_part_size(on.product(y, x).units(), exact, m, n);
}

/// The size of such a product.
proof fn lemma_part_size(r: int, exact: int, m: int, n: int)
    requires
        0 < n,
        100 * magnitude(exact) <= 101 * (m * n),
        0x400_0000 * n <= m * n,
        PARTS * magnitude(r * n - exact) <= 2048 * magnitude(exact) + PARTS * n,
    ensures
        5_000_000 * magnitude(r * n - exact) <= m * n,
        100 * magnitude(r) <= 102 * m,
{
    lemma_magnitude(r, n);
    let (k, mn) = (magnitude(r), m * n);
    assert(100 * (k * n) <= 102 * mn);
    assert(100 * k <= 102 * m) by (nonlinear_arith)
        requires
            100 * (k * n) <= 102 * (m * n),
            0 < n,
    {
        assert((100 * k) * n <= (102 * m) * n);
    }
}

/// A sum of two such products.
proof fn lemma_two_parts(on: Arithmetic, x: Scalar, r: Scalar, y: Scalar, a: Scalar, m: int)
    requires
        rounds(on),
        x.finite(),
        r.finite(),
        y.finite(),
        a.finite(),
        modest(x),
        modest(y),
        magnitude(r.units()) <= m,
        magnitude(a.units()) <= m,
        0x400_0000 <= m <= 0x1_0000_0000_0000 * one_in_units(),
    ensures
        blend(on, x, r, y, a).finite(),
        1_500_000 * magnitude(
            blend(on, x, r, y, a).units() * one_in_units() - (x.units() * r.units() + y.units() * a.units()),
        ) <= m * one_in_units(),
{
    lemma_many_units();
    let n = one_in_units();
    lemma_part(on, x, r, m);
    lemma_part(on, y, a, m);
    let (u, v) = (on.product(x, r), on.product(y, a));
    lemma_fair_sum(on, u, v);
    let z = on.sum(u, v).units();
    lemma_parts_add(u.units(), v.units(), z, x.units() * r.units(), y.units() * a.units(), m, n);
}

/// The errors of two products and of their sum.
proof fn lemma_parts_add(u: int, v: int, z: int, p: int, q: int, m: int, n: int)
    requires
        0 < n,
        0 <= m,
        5_000_000 * magnitude(u * n - p) <= m * n,
        5_000_000 * magnitude(v * n - q) <= m * n,
        100 * magnitude(u) <= 102 * m,
        100 * magnitude(v) <= 102 * m,
        0x100_0000 * magnitude(z - (u + v)) <= magnitude(u + v),
    ensures
        1_500_000 * magnitude(z * n - (p + q)) <= m * n,
{
    let off = z - (u + v);
    assert(z * n == off * n + u * n + v * n) by (nonlinear_arith)
        requires
            off == z - (u + v),
    ;
    lemma_magnitude(off, n);
    let (k, mn) = (magnitude(off), m * n);
    assert(100 * (0x100_0000 * k) <= 204 * m);
    assert(100 * (0x100_0000 * (k * n)) <= 204 * mn) by (nonlinear_arith)
        requires
            100 * (0x100_0000 * k) <= 204 * m,
            0 < n,
            mn == m * n,
    ;
    assert(0 <= mn) by (nonlinear_arith)
        requires
            mn == m * n,
            0 <= m,
            0 < n,
    ;
}

/// A radius and an amplitude that are not negative, neither both tiny nor great.
pub open spec fn ordinary(r_min: Scalar, amplitude: Scalar) -> bool {
    &&& r_min.finite()
    &&& amplitude.finite()
    &&& 0 <= r_min.units()
    &&& 0 <= amplitude.units()
    &&& 0x400_0000 <= r_min.units() + amplitude.units() <= 0x1_0000_0000 * one_in_units()
}

/// The sine and the cosine of an angle are finite, and their squares sum up to
/// one.
pub open spec fn is_angle(on: Arithmetic, angle: Scalar) -> bool {
    on.sine(angle).finite() && on.cosine(angle).finite() && on_unit_circle(on, angle)
}

/// The angle by which the outline of a bump is turned at an angle from its
/// direction, when its tip is bent by another.
pub open spec fn turn(on: Arithmetic, bump: BumpParams, theta: Scalar, bend_angle: Scalar) -> Scalar {
    let k = bump.concentration;
    on.product(bend_angle, on.quotient(on.exponential(on.product(k, on.cosine(theta))), on.exponential(k)))
}

/// The ghost point lies one radius back from the foot of the bump, against the
/// direction in which the bent tip points, but for one part in a million.
pub proof fn ghost_point_is_behind_foot(on: Arithmetic, r_min: Scalar, bend_angle: Scalar)
    requires
        correctly_rounded(on),
        is_angle(on, bend_angle),
        r_min.finite(),
        0x400_0000 <= r_min.units() <= 0x1_0000_0000 * one_in_units(),
    ensures
        ({
            let (n, r, g) = (one_in_units(), r_min.units(), ghost_point(on, r_min, bend_angle));
            let (s, c) = (on.sine(bend_angle).units(), on.cosine(bend_angle).units());
            &&& g.0.finite()
            &&& g.1.finite()
            &&& 1_000_000 * magnitude((0 - g.0.units()) * n - r * s) <= r * n
            &&& 1_000_000 * magnitude((r - g.1.units()) * n - r * c) <= r * n
        }),
{
    constants_in_units();
    lemma_many_units();
    assert(rounds(on)) by {
        reveal(rounds);
    }
    let (n, r) = (one_in_units(), r_min.units());
    let (s, c) = (on.sine(bend_angle), on.cosine(bend_angle));
    lemma_circle_is_modest(on, bend_angle);
    negation_negates(s);
    lemma_part(on, s.negated(), r_min, r);
    let x = on.product(s.negated(), r_min).units();
    assert(s.negated().units() * r == -(r * s.units())) by (nonlinear_arith)
        requires
            s.negated().units() == -s.units(),
    ;
    assert((0 - x) * n == -(x * n)) by (nonlinear_arith);
    lemma_fair_difference(on, Scalar(ONE), c);
    let low = on.difference(Scalar(ONE), c);
    let (w, e) = (low.units(), n - c.units());
    lemma_size(r, w);
    assert(100 * magnitude(e) <= 201 * n);
    assert(100 * magnitude(w) <= 202 * n);
    let mw = magnitude(w);
    assert(100 * (r * mw) <= 202 * (r * n)) by (nonlinear_arith)
        requires
            100 * mw <= 202 * n,
            0 <= r,
    ;
    assert(r * n <= 0x1_0000_0000 * (n * n) && 0x400_0000 * n <= r * n) by (nonlinear_arith)
        requires
            0x400_0000 <= r <= 0x1_0000_0000 * n,
            0 < n,
    ;
    lemma_fair_product(on, r_min, low);
    let y = on.product(r_min, low).units();
    let off = w - e;
    assert(r * w - r * e == off * r) by (nonlinear_arith)
        requires
            off == w - e,
    ;
    lemma_magnitude(off, r);
    let k = magnitude(off);
    assert(100 * (0x100_0000 * (k * r)) <= 201 * (r * n)) by (nonlinear_arith)
        requires
            100 * (0x100_0000 * k) <= 201 * n,
            0 <= r,
    ;
    lemma_height(y * n, r * w, r * e, r * n, n);
    assert((r - y) * n == r * n - y * n) by (nonlinear_arith);
    assert(r * e == r * n - r * c.units()) by (nonlinear_arith)
        requires
            e == n - c.units(),
    ;
}

/// Two errors, one on top of the other.
proof fn lemma_height(yn: int, rw: int, re: int, rn: int, n: int)
    requires
        0 < n,
        0x400_0000 * n <= rn,
        100 * magnitude(rw) <= 202 * rn,
        PARTS * magnitude(yn - rw) <= 2048 * magnitude(rw) + PARTS * n,
        100 * (0x100_0000 * magnitude(rw - re)) <= 201 * rn,
    ensures
        1_000_000 * magnitude(yn - re) <= rn,
{
    assert(magnitude(yn - re) <= magnitude(yn - rw) + magnitude(rw - re));
}

/// Two numbers seen along and across an angle.
proof fn lemma_lever(e: int, f: int, p: int, q: int, a: int, m: int, n: int)
    requires
        0 < n,
        0 <= a <= m,
        100 * magnitude(p) <= 101 * n,
        100 * magnitude(q) <= 101 * n,
        1_500_000 * magnitude(e - p * a) <= m * n,
        1_500_000 * magnitude(f - q * a) <= m * n,
        near(p * p + q * q, n * n, 4096),
    ensures
        600_000 * magnitude(e * p + f * q - a * (n * n)) <= m * (n * n),
        600_000 * magnitude(e * q - f * p) <= m * (n * n),
{
    let (h, w) = (n * n, m * (n * n));
    let (x, y, g) = (e - p * a, f - q * a, p * p + q * q - h);
    lemma_squares(n, n);
    lemma_term_size(p, x, m, n);
    lemma_term_size(q, y, m, n);
    lemma_term_size(q, x, m, n);
    lemma_term_size(p, y, m, n);
    lemma_size(a, g);
    let (mg, k) = (magnitude(g), magnitude(a));
    assert(17_179_869_184 * (k * mg) <= 4096 * w) by (nonlinear_arith)
        requires
            17_179_869_184 * mg <= 4096 * h,
            0 <= k <= m,
            0 <= mg,
            w == m * h,
            0 <= h,
    {
        assert(17_179_869_184 * (k * mg) <= k * (4096 * h));
        assert(k * (4096 * h) <= m * (4096 * h));
    }
    let (px, qy, qx, py, ag) = (p * x, q * y, q * x, p * y, a * g);
    assert(p * (e - p * a) == e * p - a * (p * p)) by (nonlinear_arith);
    assert(q * (f - q * a) == f * q - a * (q * q)) by (nonlinear_arith);
    assert(q * (e - p * a) == e * q - a * (p * q)) by (nonlinear_arith);
    assert(p * (f - q * a) == f * p - a * (p * q)) by (nonlinear_arith);
    assert(a * (p * p + q * q - h) == a * (p * p) + a * (q * q) - a * h) by (nonlinear_arith);
    lemma_lever_linear(px, qy, ag, e * p + f * q - a * h, w);
    assert(e * q - f * p == qx - py);
    lemma_lever_linear(qx, -py, 0, e * q - f * p, w);
}

/// A modest number times a small one.
proof fn lemma_term_size(p: int, x: int, m: int, n: int)
    requires
        0 < n,
        0 <= m,
        100 * magnitude(p) <= 101 * n,
        1_500_000 * magnitude(x) <= m * n,
    ensures
        1_485_000 * magnitude(p * x) <= m * (n * n),
{
    lemma_size(p, x);
    let (a, b, w, mn) = (magnitude(p), magnitude(x), m * (n * n), m * n);
    assert((100 * a) * (1_500_000 * b) <= 101 * w) by (nonlinear_arith)
        requires
            0 <= 100 * a <= 101 * n,
            0 <= 1_500_000 * b <= mn,
            mn == m * n,
            w == m * (n * n),
    {
        assert((100 * a) * (1_500_000 * b) <= (101 * n) * mn);
        assert((101 * n) * mn == 101 * w);
    }
    assert((100 * a) * (1_500_000 * b) == 150_000_000 * (a * b)) by (nonlinear_arith);
    assert(0 <= w) by (nonlinear_arith)
        requires
            w == m * (n * n),
            0 <= m,
    ;
}

/// Three errors, added up.
proof fn lemma_lever_linear(x: int, y: int, z: int, total: int, w: int)
    requires
        0 <= w,
        total == x + y + z,
        1_485_000 * magnitude(x) <= w,
        1_485_000 * magnitude(y) <= w,
        17_179_869_184 * magnitude(z) <= 4096 * w,
    ensures
        600_000 * magnitude(total) <= w,
{
    assert(magnitude(total) <= magnitude(x) + magnitude(y) + magnitude(z));
}

/// The outline of a bent bump, less the point of the sphere at the same angle, is
/// a lever as long as the amplitude, which is turned by the bend times the share
/// of the amplitude that the bump has there, but for two parts in a million of the
/// radius and the amplitude.
pub proof fn outline_is_turned_lever(on: Arithmetic, bump: BumpParams, r_min: Scalar, theta: Scalar, bend_angle: Scalar)
    requires
        correctly_rounded(on),
        ordinary(r_min, bump.amplitude),
        is_angle(on, theta),
        is_angle(on, turn(on, bump, theta, bend_angle)),
    ensures
        ({
            let (n, r, a) = (one_in_units(), r_min.units(), bump.amplitude.units());
            let (point, t) = (bump.outline(on, r_min, theta, bend_angle), turn(on, bump, theta, bend_angle));
            let (x, y) = (
                point.0.units() * n - on.sine(theta).units() * r,
                point.1.units() * n - on.cosine(theta).units() * r,
            );
            let (s, c) = (on.sine(t).units(), on.cosine(t).units());
            &&& point.0.finite()
            &&& point.1.finite()
            &&& 600_000 * magnitude(x * s + y * c - a * (n * n)) <= (r + a) * (n * n)
            &&& 600_000 * magnitude(x * c - y * s) <= (r + a) * (n * n)
        }),
{
    constants_in_units();
    assert(rounds(on)) by {
        reveal(rounds);
    }
    let (n, r, a) = (one_in_units(), r_min.units(), bump.amplitude.units());
    let t = turn(on, bump, theta, bend_angle);
    assert(t == on.product(bend_angle, weight(on, bump.concentration, on.cosine(theta))));
    let (s, c, p, q) = (on.sine(theta), on.cosine(theta), on.sine(t), on.cosine(t));
    lemma_circle_is_modest(on, theta);
    lemma_circle_is_modest(on, t);
    lemma_two_parts(on, s, r_min, p, bump.amplitude, r + a);
    lemma_two_parts(on, c, r_min, q, bump.amplitude, r + a);
    let (x, y) = (
        blend(on, s, r_min, p, bump.amplitude).units() * n - s.units() * r,
        blend(on, c, r_min, q, bump.amplitude).units() * n - c.units() * r,
    );
    lemma_lever(x, y, p.units(), q.units(), a, r + a, n);
}

/// A modest number times an amplitude, times a slope.
proof fn lemma_levered(on: Arithmetic, q: Scalar, a: Scalar, d: Scalar, m: int)
    requires
        rounds(on),
        q.finite(),
        a.finite(),
        d.finite(),
        modest(q),
        magnitude(a.units()) <= m,
        0x400_0000 <= m <= 0x1_0000_0000 * one_in_units(),
        magnitude(d.units()) <= 33 * one_in_units(),
    ensures
        ({
            let (n, w) = (one_in_units(), on.product(on.product(q, a), d));
            &&& w.finite()
            &&& magnitude(w.units()) <= 35 * m
            &&& 85_000 * magnitude(w.units() * (n * n) - q.units() * a.units() * d.units()) <= m * (n * n)
        }),
{
    lemma_many_units();
    let n = one_in_units();
    lemma_part(on, q, a, m);
    let v = on.product(q, a);
    let (x, y, mn) = (v.units(), d.units(), m * n);
    lemma_size(x, y);
    let (p, k) = (magnitude(x), magnitude(y));
    assert(100 * (p * k) <= 3366 * mn) by (nonlinear_arith)
        requires
            0 <= 100 * p <= 102 * m,
            0 <= k <= 33 * n,
            mn == m * n,
    {
        assert((100 * p) * k <= (102 * m) * (33 * n));
    }
    assert(mn <= 0x1_0000_0000 * (n * n) && 0x400_0000 * n <= mn) by (nonlinear_arith)
        requires
            mn == m * n,
            0x400_0000 <= m <= 0x1_0000_0000 * n,
            0 < n,
    ;
    lemma_fair_product(on, v, d);
    let (w, exact) = (on.product(v, d).units(), x * y);
    lemma_magnitude(w, n);
    let g = magnitude(w);
    assert(g * n <= 35 * mn);
    assert(g <= 35 * m) by (nonlinear_arith)
        requires
            g * n <= 35 * (m * n),
            0 < n,
    {
        assert(g * n <= (35 * m) * n);
    }
    let (e, f, mh) = (w * n - exact, x * n - q.units() * a.units(), m * (n * n));
    assert(200_000 * magnitude(e) <= mn);
    lemma_magnitude(e, n);
    let me = magnitude(e);
    assert(200_000 * (me * n) <= mh) by (nonlinear_arith)
        requires
            200_000 * me <= mn,
            mn == m * n,
            mh == m * (n * n),
            0 < n,
    {
        assert(200_000 * (me * n) <= mn * n);
    }
    lemma_size(f, y);
    let mf = magnitude(f);
    assert(5_000_000 * (mf * k) <= 33 * mh) by (nonlinear_arith)
        requires
            0 <= 5_000_000 * mf <= mn,
            0 <= k <= 33 * n,
            mn == m * n,
            mh == m * (n * n),
    {
        assert((5_000_000 * mf) * k <= mn * (33 * n));
    }
    let z = w * (n * n) - q.units() * a.units() * y;
    assert(z == e * n + f * y) by {
        assert(e * n == w * (n * n) - exact * n) by (nonlinear_arith)
            requires
                e == w * n - exact,
        ;
        assert(f * y == exact * n - q.units() * a.units() * y) by (nonlinear_arith)
            requires
                f == x * n - q.units() * a.units(),
                exact == x * y,
        ;
    }
    lemma_two_errors(e * n, f * y, z, mh);
}

/// Two errors, added up.
proof fn lemma_two_errors(x: int, y: int, z: int, w: int)
    requires
        z == x + y,
        0 <= 200_000 * magnitude(x) <= w,
        5_000_000 * magnitude(y) <= 33 * w,
    ensures
        85_000 * magnitude(z) <= w,
{
    assert(magnitude(z) <= magnitude(x) + magnitude(y));
}

/// A sum of what runs along the sphere and of what runs along the lever.
proof fn lemma_run(u: int, w: int, z: int, cr: int, qad: int, m: int, n: int)
    requires
        0 < n,
        0 <= m,
        5_000_000 * magnitude(u * n - cr) <= m * n,
        100 * magnitude(u) <= 102 * m,
        magnitude(w) <= 35 * m,
        85_000 * magnitude(w * (n * n) - qad) <= m * (n * n),
        0x100_0000 * magnitude(z - (u + w)) <= magnitude(u + w),
    ensures
        70_000 * magnitude(z * (n * n) - (cr * n + qad)) <= m * (n * n),
{
    let (h, mh) = (n * n, m * (n * n));
    let (off, e) = (z - (u + w), u * n - cr);
    lemma_squares(n, n);
    lemma_magnitude(off, h);
    lemma_magnitude(e, n);
    let (k, l) = (magnitude(off), magnitude(e));
    assert(0x100_0000 * k <= 37 * m);
    assert(0x100_0000 * (k * h) <= 37 * mh) by (nonlinear_arith)
        requires
            0x100_0000 * k <= 37 * m,
            0 <= h,
            mh == m * h,
    ;
    assert(5_000_000 * (l * n) <= mh) by (nonlinear_arith)
        requires
            5_000_000 * l <= m * n,
            0 < n,
            mh == m * (n * n),
    {
        assert(5_000_000 * (l * n) <= (m * n) * n);
    }
    assert(0 <= mh) by (nonlinear_arith)
        requires
            mh == m * h,
            0 <= m,
            0 <= h,
    ;
    let (a, b, c) = (off * h, e * n, w * h - qad);
    assert(z * h - (cr * n + qad) == a + b + c) by {
        assert(off * h == z * h - u * h - w * h) by (nonlinear_arith)
            requires
                off == z - (u + w),
        ;
        assert(e * n == u * h - cr * n) by (nonlinear_arith)
            requires
                e == u * n - cr,
                h == n * n,
        ;
    }
    assert(magnitude(a + b + c) <= magnitude(a) + magnitude(b) + magnitude(c));
}

/// A slope, seen along and across the sphere.
proof fn lemma_slope_turned(x: int, y: int, s: int, c: int, r: int, d: int, p: int, q: int, m: int, n: int)
    requires
        0 < n,
        0 <= r <= m,
        100 * magnitude(s) <= 101 * n,
        100 * magnitude(c) <= 101 * n,
        70_000 * magnitude(x * (n * n) - (c * r * n + q * d)) <= m * (n * n),
        70_000 * magnitude(y * (n * n) - (-(s * r * n) - p * d)) <= m * (n * n),
        near(s * s + c * c, n * n, 4096),
    ensures
        30_000 * magnitude((x * c - y * s) * (n * n) - (r * (n * (n * n)) + d * (q * c + p * s))) <= m * (n * (n * n)),
        30_000 * magnitude((x * s + y * c) * (n * n) - d * (q * s - p * c)) <= m * (n * (n * n)),
{
    let (h, w) = (n * n, m * (n * (n * n)));
    let (e, f) = (x * h - (c * r * n + q * d), y * h - (-(s * r * n) - p * d));
    let g = s * s + c * c - h;
    lemma_squares(n, n);
    lemma_slope_term(c, e, m, n);
    lemma_slope_term(s, f, m, n);
    lemma_slope_term(s, e, m, n);
    lemma_slope_term(c, f, m, n);
    let rn = r * n;
    lemma_size(rn, g);
    let mg = magnitude(g);
    assert(0 <= rn <= m * n) by (nonlinear_arith)
        requires
            rn == r * n,
            0 <= r <= m,
            0 < n,
    ;
    assert(17_179_869_184 * (rn * mg) <= 4096 * w) by (nonlinear_arith)
        requires
            17_179_869_184 * mg <= 4096 * h,
            0 <= rn <= m * n,
            0 <= mg,
            w == m * (n * h),
            0 <= h,
    {
        assert(17_179_869_184 * (rn * mg) <= rn * (4096 * h));
        assert(rn * (4096 * h) <= (m * n) * (4096 * h));
        assert((m * n) * (4096 * h) == 4096 * w);
    }
    let (ce, sf, se, cf, rg) = (c * e, s * f, s * e, c * f, rn * g);
    lemma_spread_term(c, x, h, c * r * n, q * d);
    lemma_spread_term(s, x, h, c * r * n, q * d);
    lemma_spread_term(s, y, h, -(s * r * n), -(p * d));
    lemma_spread_term(c, y, h, -(s * r * n), -(p * d));
    lemma_regrouped(c, c, r, n);
    lemma_regrouped(s, c, r, n);
    lemma_regrouped(s, s, r, n);
    lemma_regrouped(c, s, r, n);
    lemma_flipped_terms(s, s * r * n, p * d);
    lemma_flipped_terms(c, s * r * n, p * d);
    assert(s * c == c * s) by (nonlinear_arith);
    assert(c * (q * d) == d * (q * c) && s * (q * d) == d * (q * s)) by (nonlinear_arith);
    assert(c * (p * d) == d * (p * c) && s * (p * d) == d * (p * s)) by (nonlinear_arith);
    assert(rn * (s * s + c * c - h) == rn * (s * s) + rn * (c * c) - r * (n * h)) by (nonlinear_arith)
        requires
            rn == r * n,
    ;
    assert((x * c - y * s) * h == (x * c) * h - (y * s) * h) by (nonlinear_arith);
    assert((x * s + y * c) * h == (x * s) * h + (y * c) * h) by (nonlinear_arith);
    assert(d * (q * c + p * s) == d * (q * c) + d * (p * s)) by (nonlinear_arith);
    assert(d * (q * s - p * c) == d * (q * s) - d * (p * c)) by (nonlinear_arith);
    assert(0 <= w) by (nonlinear_arith)
        requires
            w == m * (n * h),
            0 <= m,
            0 < n,
            0 <= h,
    ;
    lemma_slope_linear(ce, -sf, rg, (x * c - y * s) * h - (r * (n * h) + d * (q * c + p * s)), w);
    lemma_slope_linear(se, cf, 0, (x * s + y * c) * h - d * (q * s - p * c), w);
}

/// A number times a difference.
proof fn lemma_spread_term(c: int, x: int, h: int, u: int, v: int)
    by (nonlinear_arith)
    ensures
        c * (x * h - (u + v)) == (x * c) * h - c * u - c * v,
{
}

/// A product of four, put together otherwise.
proof fn lemma_regrouped(c: int, d: int, r: int, n: int)
    by (nonlinear_arith)
    ensures
        c * (d * r * n) == (r * n) * (c * d),
{
}

/// A number times two others with their signs flipped.
proof fn lemma_flipped_terms(c: int, u: int, v: int)
    by (nonlinear_arith)
    ensures
        c * (-u) == -(c * u),
        c * (-v) == -(c * v),
{
}

/// A modest number times a small one.
proof fn lemma_slope_term(p: int, x: int, m: int, n: int)
    requires
        0 < n,
        0 <= m,
        100 * magnitude(p) <= 101 * n,
        70_000 * magnitude(x) <= m * (n * n),
    ensures
        69_000 * magnitude(p * x) <= m * (n * (n * n)),
{
    lemma_size(p, x);
    let (a, b, w, mh) = (magnitude(p), magnitude(x), m * (n * (n * n)), m * (n * n));
    assert((100 * a) * (70_000 * b) <= 101 * w) by (nonlinear_arith)
        requires
            0 <= 100 * a <= 101 * n,
            0 <= 70_000 * b <= mh,
            mh == m * (n * n),
            w == m * (n * (n * n)),
    {
        assert((100 * a) * (70_000 * b) <= (101 * n) * mh);
        assert((101 * n) * mh == 101 * w);
    }
    assert((100 * a) * (70_000 * b) == 7_000_000 * (a * b)) by (nonlinear_arith);
    assert(0 <= w) by (nonlinear_arith)
        requires
            w == m * (n * (n * n)),
            0 <= m,
            0 < n,
    ;
}

/// Three errors, added up.
proof fn lemma_slope_linear(x: int, y: int, z: int, total: int, w: int)
    requires
        0 <= w,
        total == x + y + z,
        69_000 * magnitude(x) <= w,
        69_000 * magnitude(y) <= w,
        17_179_869_184 * magnitude(z) <= 4096 * w,
    ensures
        30_000 * magnitude(total) <= w,
{
    assert(magnitude(total) <= magnitude(x) + magnitude(y) + magnitude(z));
}

/// How fast the outline is turned along the angle from the direction of a bump:
/// as fast as the share of the amplitude falls, times the bend.
pub open spec fn turning(on: Arithmetic, bump: BumpParams, theta: Scalar, bend_angle: Scalar) -> Scalar {
    let k = bump.concentration;
    let share = on.quotient(on.exponential(on.product(k, on.cosine(theta))), on.exponential(k));
    on.product(bend_angle, on.product(on.product(k.negated(), on.sine(theta)), share))
}

/// The outline of a bent bump runs along the sphere as fast as the radius is
/// long, and at right angles to its lever as fast as that is turned, times the
/// amplitude: the first of the two statements is on what runs along the sphere,
/// and the second on what runs away from it, both but for one part in thirty
/// thousand.
pub proof fn outline_runs_along_sphere_and_lever(
    on: Arithmetic,
    bump: BumpParams,
    r_min: Scalar,
    theta: Scalar,
    bend_angle: Scalar,
)
    requires
        correctly_rounded(on),
        ordinary(r_min, bump.amplitude),
        is_angle(on, theta),
        is_angle(on, turn(on, bump, theta, bend_angle)),
        turning(on, bump, theta, bend_angle).finite(),
        magnitude(turning(on, bump, theta, bend_angle).units()) <= 33 * one_in_units(),
    ensures
        ({
            let (n, r, a) = (one_in_units(), r_min.units(), bump.amplitude.units());
            let (run, t) = (bump.outline_slope(on, r_min, theta, bend_angle), turn(on, bump, theta, bend_angle));
            let (x, y) = (run.0.units(), run.1.units());
            let (s, c) = (on.sine(theta).units(), on.cosine(theta).units());
            let (p, q) = (on.sine(t).units(), on.cosine(t).units());
            let d = a * turning(on, bump, theta, bend_angle).units();
            &&& run.0.finite()
            &&& run.1.finite()
            &&& 30_000 * magnitude((x * c - y * s) * (n * n) - (r * (n * (n * n)) + d * (q * c + p * s)))
                <= (r + a) * (n * (n * n))
            &&& 30_000 * magnitude((x * s + y * c) * (n * n) - d * (q * s - p * c)) <= (r + a) * (n * (n * n))
        }),
{
    constants_in_units();
    assert(rounds(on)) by {
        reveal(rounds);
    }
    let (t, d) = (turn(on, bump, theta, bend_angle), turning(on, bump, theta, bend_angle));
    let (s, c, p, q) = (on.sine(theta), on.cosine(theta), on.sine(t), on.cosine(t));
    assert(t == on.product(bend_angle, weight(on, bump.concentration, c)));
    lemma_circle_is_modest(on, theta);
    lemma_circle_is_modest(on, t);
    lemma_runs(on, r_min, bump.amplitude, d, s, c, p, q);
}

/// The slope of the outline, from what it is made of.
proof fn lemma_runs(on: Arithmetic, r: Scalar, a: Scalar, d: Scalar, s: Scalar, c: Scalar, p: Scalar, q: Scalar)
    requires
        rounds(on),
        ordinary(r, a),
        d.finite(),
        magnitude(d.units()) <= 33 * one_in_units(),
        s.finite() && c.finite() && p.finite() && q.finite(),
        modest(s) && modest(c) && modest(p) && modest(q),
        near(
            s.units() * s.units() + c.units() * c.units(),
            one_in_units() * one_in_units(),
            4096,
        ),
    ensures
        ({
            let (n, m, e) = (one_in_units(), r.units() + a.units(), a.units() * d.units());
            let x = on.sum(on.product(c, r), on.product(on.product(q, a), d));
            let y = on.difference(on.product(s.negated(), r), on.product(on.product(p, a), d));
            let (i, j) = (s.units(), c.units());
            &&& x.finite()
            &&& y.finite()
            &&& 30_000 * magnitude(
                (x.units() * j - y.units() * i) * (n * n) - (r.units() * (n * (n * n)) + e * (q.units() * j + p.units()
                    * i)),
            ) <= m * (n * (n * n))
            &&& 30_000 * magnitude(
                (x.units() * i + y.units() * j) * (n * n) - e * (q.units() * i - p.units() * j),
            ) <= m * (n * (n * n))
        }),
{
    lemma_many_units();
    let n = one_in_units();
    let m = r.units() + a.units();
    negation_negates(s);
    lemma_part(on, c, r, m);
    lemma_part(on, s.negated(), r, m);
    lemma_levered(on, q, a, d, m);
    lemma_levered(on, p, a, d, m);
    let (u, v) = (on.product(c, r), on.product(s.negated(), r));
    let (w, z) = (on.product(on.product(q, a), d), on.product(on.product(p, a), d));
    lemma_fair_sum(on, u, w);
    lemma_fair_difference(on, v, z);
    let (x, y) = (on.sum(u, w).units(), on.difference(v, z).units());
    let (rr, ad) = (r.units(), a.units() * d.units());
    assert(q.units() * a.units() * d.units() == q.units() * ad) by (nonlinear_arith)
        requires
            ad == a.units() * d.units(),
    ;
    assert(p.units() * a.units() * d.units() == p.units() * ad) by (nonlinear_arith)
        requires
            ad == a.units() * d.units(),
    ;
    assert(s.negated().units() * rr == -(s.units() * rr)) by (nonlinear_arith)
        requires
            s.negated().units() == -s.units(),
    ;
    lemma_run(u.units(), w.units(), x, c.units() * rr, q.units() * ad, m, n);
    assert((-z.units()) * (n * n) == -(z.units() * (n * n))) by (nonlinear_arith);
    lemma_run(v.units(), -z.units(), y, -(s.units() * rr), -(p.units() * ad), m, n);
    assert((-(s.units() * rr)) * n == -(s.units() * rr * n)) by (nonlinear_arith);
    lemma_slope_turned(x, y, s.units(), c.units(), rr, ad, p.units(), q.units(), m, n);
}

/// A product of two numbers that are a little off.
proof fn lemma_off_product(on: Arithmetic, x: Scalar, y: Scalar, e: int)
    requires
        rounds(on),
        x.finite(),
        y.finite(),
        0x100_0000 * magnitude(x.units() - e) <= magnitude(e),
        magnitude(e * y.units()) <= 0x1000_0000_0000_0000 * (one_in_units() * one_in_units()),
    ensures
        on.product(x, y).finite(),
        magnitude(on.product(x, y).units()) <= 0x4000_0000_0000_0000 * one_in_units(),
        5_000_000 * magnitude(on.product(x, y).units() * one_in_units() - e * y.units()) <= magnitude(e * y.units())
            + 5_000_000 * one_in_units(),
{
    lemma_many_units();
    let n = one_in_units();
    let (a, b) = (x.units(), y.units());
    let (off, ey, exact) = (a - e, e * b, a * b);
    assert(exact == ey + off * b) by (nonlinear_arith)
        requires
            exact == a * b,
            ey == e * b,
            off == a - e,
    ;
    lemma_size(off, b);
    lemma_size(e, b);
    let (p, q, k) = (magnitude(off), magnitude(e), magnitude(b));
    assert(0x100_0000 * (p * k) <= q * k) by (nonlinear_arith)
        requires
            0x100_0000 * p <= q,
            0 <= k,
    ;
    assert(magnitude(exact) <= 0x2000_0000_0000_0000 * (n * n)) by {
        assert(0 <= n * n) by (nonlinear_arith);
    }
    lemma_fair_product(on, x, y);
    let r = on.product(x, y).units();
    lemma_magnitude(r, n);
    let g = magnitude(r);
    assert(g * n <= 0x4000_0000_0000_0000 * (n * n)) by {
        assert(0x1_0000_0000 * n <= n * n) by (nonlinear_arith)
            requires
                0x1_0000_0000 <= n,
        ;
    }
    assert(g <= 0x4000_0000_0000_0000 * n) by (nonlinear_arith)
        requires
            g * n <= 0x4000_0000_0000_0000 * (n * n),
            0 < n,
    ;
}

/// The side of the tangent on which the ghost point lies is the cross product of
/// the way from the ghost point to the outline with the direction in which the
/// outline runs, but for one part in a million of what is subtracted: it is
/// positive where the outline runs to the left as seen from the ghost point.
pub proof fn side_is_cross_product(on: Arithmetic, bump: BumpParams, r_min: Scalar, theta: Scalar, bend_angle: Scalar)
    requires
        correctly_rounded(on),
        ({
            let (point, run) = (
                bump.outline(on, r_min, theta, bend_angle),
                bump.outline_slope(on, r_min, theta, bend_angle),
            );
            let g = ghost_point(on, r_min, bend_angle);
            let (n, h) = (one_in_units(), one_in_units() * one_in_units());
            let (x, y) = (point.0.units() - g.0.units(), point.1.units() - g.1.units());
            &&& point.0.finite() && point.1.finite()
            &&& g.0.finite() && g.1.finite()
            &&& run.0.finite() && run.1.finite()
            &&& magnitude(x) <= 0x1000_0000_0000_0000 * n && magnitude(y) <= 0x1000_0000_0000_0000 * n
            &&& magnitude(x * run.1.units()) <= 0x1000_0000_0000_0000 * h
            &&& magnitude(y * run.0.units()) <= 0x1000_0000_0000_0000 * h
        }),
    ensures
        ({
            let (point, run) = (
                bump.outline(on, r_min, theta, bend_angle),
                bump.outline_slope(on, r_min, theta, bend_angle),
            );
            let (g, n) = (ghost_point(on, r_min, bend_angle), one_in_units());
            let (x, y) = (point.0.units() - g.0.units(), point.1.units() - g.1.units());
            let (p, q) = (x * run.1.units(), y * run.0.units());
            let side = bump.side(on, r_min, theta, bend_angle);
            &&& side.finite()
            &&& 1_000_000 * magnitude(side.units() * n - (p - q)) <= magnitude(p) + magnitude(q) + 10_000_000 * n
        }),
{
    lemma_many_units();
    assert(rounds(on)) by {
        reveal(rounds);
    }
    let n = one_in_units();
    let (px, py) = bump.outline(on, r_min, theta, bend_angle);
    let (dx, dy) = bump.outline_slope(on, r_min, theta, bend_angle);
    let (gx, gy) = ghost_point(on, r_min, bend_angle);
    lemma_fair_difference(on, px, gx);
    lemma_fair_difference(on, py, gy);
    let (x, y) = (px.units() - gx.units(), py.units() - gy.units());
    lemma_off_product(on, on.difference(px, gx), dy, x);
    lemma_off_product(on, on.difference(py, gy), dx, y);
    let (u, v) = (on.product(on.difference(px, gx), dy), on.product(on.difference(py, gy), dx));
    lemma_fair_difference(on, u, v);
    let side = on.difference(u, v);
    assert(bump.side(on, r_min, theta, bend_angle) == side);
    lemma_cross_errors(u.units(), v.units(), side.units(), x * dy.units(), y * dx.units(), n);
}

/// The errors of two products and of their difference.
proof fn lemma_cross_errors(u: int, v: int, z: int, p: int, q: int, n: int)
    requires
        0 < n,
        5_000_000 * magnitude(u * n - p) <= magnitude(p) + 5_000_000 * n,
        5_000_000 * magnitude(v * n - q) <= magnitude(q) + 5_000_000 * n,
        0x100_0000 * magnitude(z - (u - v)) <= magnitude(u - v),
    ensures
        1_000_000 * magnitude(z * n - (p - q)) <= magnitude(p) + magnitude(q) + 10_000_000 * n,
{
    let (off, d) = (z - (u - v), u - v);
    assert(z * n == off * n + u * n - v * n) by (nonlinear_arith)
        requires
            off == z - (u - v),
    ;
    assert(d * n == u * n - v * n) by (nonlinear_arith)
        requires
            d == u - v,
    ;
    lemma_magnitude(off, n);
    lemma_magnitude(d, n);
    let (k, l) = (magnitude(off), magnitude(d));
    assert(0x100_0000 * (k * n) <= l * n) by (nonlinear_arith)
        requires
            0x100_0000 * k <= l,
            0 < n,
    ;
}

/// One component of the way between two points at one distance.
proof fn lemma_chord_component(on: Arithmetic, d: Scalar, e: Scalar, r: Scalar)
    requires
        rounds(on),
        d.finite(),
        e.finite(),
        r.finite(),
        modest(d),
        modest(e),
        0x400_0000 <= r.units() <= 0x1_0000_0000 * one_in_units(),
    ensures
        ({
            let (n, z) = (one_in_units(), on.difference(on.product(d, r), on.product(e, r)));
            &&& z.finite()
            &&& 1_500_000 * magnitude(z.units() * n - (d.units() - e.units()) * r.units()) <= r.units() * n
        }),
{
    lemma_many_units();
    let (n, m) = (one_in_units(), r.units());
    lemma_part(on, d, r, m);
    lemma_part(on, e, r, m);
    let (u, v) = (on.product(d, r), on.product(e, r));
    lemma_fair_difference(on, u, v);
    let z = on.difference(u, v).units();
    assert((-v.units()) * n == -(v.units() * n)) by (nonlinear_arith);
    lemma_parts_add(u.units(), -v.units(), z, d.units() * m, -(e.units() * m), m, n);
    assert((d.units() - e.units()) * m == d.units() * m - e.units() * m) by (nonlinear_arith);
}

/// The square of such a component.
proof fn lemma_chord_square(z: int, f: int, r: int, n: int)
    requires
        0 < n,
        0 < r,
        100 * magnitude(f) <= 202 * n,
        1_500_000 * magnitude(z * n - f * r) <= r * n,
    ensures
        300_000 * magnitude((z * z) * (n * n) - (f * f) * (r * r)) <= (r * r) * (n * n),
{
    let (a, b) = (z * n, f * r);
    let (d, rn, w) = (a - b, r * n, (r * r) * (n * n));
    assert((z * z) * (n * n) == a * a && (f * f) * (r * r) == b * b) by (nonlinear_arith)
        requires
            a == z * n,
            b == f * r,
    ;
    assert(a * a - b * b == (2 * b) * d + d * d) by (nonlinear_arith)
        requires
            d == a - b,
    ;
    lemma_size(2 * b, d);
    lemma_size(d, d);
    lemma_magnitude(f, r);
    let (p, q) = (magnitude(d), magnitude(b));
    assert(magnitude(2 * b) == 2 * q);
    let k = magnitude(f);
    assert(100 * q <= 202 * rn) by (nonlinear_arith)
        requires
            q == k * r,
            100 * k <= 202 * n,
            0 < r,
            rn == r * n,
    ;
    assert(rn * rn == w) by (nonlinear_arith)
        requires
            rn == r * n,
            w == (r * r) * (n * n),
    ;
    assert(1_500_000 * (100 * (q * p)) <= 202 * w) by (nonlinear_arith)
        requires
            0 <= 1_500_000 * p <= rn,
            0 <= 100 * q <= 202 * rn,
            rn * rn == w,
    {
        assert((1_500_000 * p) * (100 * q) <= rn * (202 * rn));
    }
    assert((2 * q) * p == 2 * (q * p)) by (nonlinear_arith);
    assert(100_000_000 * (p * p) <= w) by (nonlinear_arith)
        requires
            0 <= 1_500_000 * p <= rn,
            rn * rn == w,
    {
        assert((1_500_000 * p) * (1_500_000 * p) <= rn * rn);
    }
}

/// From the squared components to the distance.
proof fn lemma_chord_total(l: int, total: int, x: int, y: int, z: int, f: int, g: int, k: int, w: int, h: int, rr: int)
    requires
        0 < rr,
        0 < h,
        w == rr * h,
        near(total, l, 5140),
        total * h == x + y + z,
        300_000 * magnitude(x - f) <= w,
        300_000 * magnitude(y - g) <= w,
        300_000 * magnitude(z - k) <= w,
        0 <= f + g + k <= 5 * w,
    ensures
        50_000 * magnitude(l * h - (f + g + k)) <= w,
{
    let off = total - l;
    assert(off * h == total * h - l * h) by (nonlinear_arith)
        requires
            off == total - l,
    ;
    lemma_magnitude(off, h);
    let (m, lh) = (magnitude(off), l * h);
    assert(17_179_869_184 * (m * h) <= 5140 * lh) by (nonlinear_arith)
        requires
            17_179_869_184 * m <= 5140 * l,
            0 < h,
            lh == l * h,
    ;
    assert(0 <= w) by (nonlinear_arith)
        requires
            w == rr * h,
            0 < rr,
            0 < h,
    ;
    lemma_chord_linear(lh, total * h, x, y, z, f, g, k, w);
}

/// The same, without products.
proof fn lemma_chord_linear(lh: int, th: int, x: int, y: int, z: int, f: int, g: int, k: int, w: int)
    requires
        0 <= w,
        17_179_869_184 * magnitude(th - lh) <= 5140 * lh,
        th == x + y + z,
        300_000 * magnitude(x - f) <= w,
        300_000 * magnitude(y - g) <= w,
        300_000 * magnitude(z - k) <= w,
        0 <= f + g + k <= 5 * w,
    ensures
        50_000 * magnitude(lh - (f + g + k)) <= w,
{
    assert(magnitude(th - (f + g + k)) <= magnitude(x - f) + magnitude(y - g) + magnitude(z - k));
    assert(100_000 * magnitude(th - (f + g + k)) <= w);
    assert(lh <= 6 * w);
    assert(100_000 * magnitude(th - lh) <= w);
}

/// The components of two directions of length one, less each other.
proof fn lemma_chord_sizes(d: Vector, e: Vector, r: int)
    requires
        nearly_unit(d),
        nearly_unit(e),
        0 < r,
    ensures
        ({
            let h = one_in_units() * one_in_units();
            let (x, y, z) = (d[0].units() - e[0].units(), d[1].units() - e[1].units(), d[2].units() - e[2].units());
            let sum = (x * x) * (r * r) + (y * y) * (r * r) + (z * z) * (r * r);
            &&& modest_vector(d)
            &&& modest_vector(e)
            &&& 0 <= sum <= 5 * ((r * r) * h)
            &&& 500_000 * magnitude(sum - (r * r) * (2 * h - 2 * dot(d, e))) <= (r * r) * h
        }),
{
    let h = one_in_units() * one_in_units();
    let rr = r * r;
    let (x, y, z) = (d[0].units() - e[0].units(), d[1].units() - e[1].units(), d[2].units() - e[2].units());
    lemma_squares(one_in_units(), one_in_units());
    assert(sized(d) && sized(e));
    lemma_sized_is_modest(d);
    lemma_sized_is_modest(e);
    lemma_square_of_difference(d[0].units(), e[0].units());
    lemma_square_of_difference(d[1].units(), e[1].units());
    lemma_square_of_difference(d[2].units(), e[2].units());
    lemma_three(x * x, y * y, z * z, rr);
    let (total, chord) = (x * x + y * y + z * z, 2 * h - 2 * dot(d, e));
    assert(total == squared_length(d) + squared_length(e) - 2 * dot(d, e));
    lemma_mean_of_squares(d[0].units(), e[0].units());
    lemma_mean_of_squares(d[1].units(), e[1].units());
    lemma_mean_of_squares(d[2].units(), e[2].units());
    lemma_squares(x, y);
    lemma_squares(z, z);
    assert(0 <= total <= 5 * h);
    assert(0 <= rr) by (nonlinear_arith)
        requires
            rr == r * r,
    ;
    assert(0 <= total * rr <= 5 * (rr * h)) by (nonlinear_arith)
        requires
            0 <= total <= 5 * h,
            0 <= rr,
    ;
    let off = total - chord;
    assert(total * rr - rr * chord == off * rr) by (nonlinear_arith)
        requires
            off == total - chord,
    ;
    lemma_magnitude(off, rr);
    let m = magnitude(off);
    assert(500_000 * m <= h);
    assert(500_000 * (m * rr) <= rr * h) by (nonlinear_arith)
        requires
            500_000 * m <= h,
            0 <= rr,
    ;
}

/// The square of a difference.
proof fn lemma_square_of_difference(a: int, b: int)
    by (nonlinear_arith)
    ensures
        (a - b) * (a - b) == a * a + b * b - 2 * (a * b),
{
}

/// Vectors are scaled and subtracted component by component.
pub open spec fn vectors_are_plain(on: Arithmetic) -> bool {
    &&& forall|v: Vector, a: Scalar|
        #![trigger on.multiple(v, a)]
        on.multiple(v, a) == [on.product(v[0], a), on.product(v[1], a), on.product(v[2], a)]
    &&& forall|v: Vector, w: Vector|
        #![trigger on.offset(v, w)]
        on.offset(v, w) == [on.difference(v[0], w[0]), on.difference(v[1], w[1]), on.difference(v[2], w[2])]
}

/// The centre of a bump moves along a chord of its sphere: if `e` is the direction
/// of the turned tip, the square of the way is twice the square of the radius,
/// times one less the cosine between the direction of the bump and `e`, but for
/// one part in forty thousand of the square of the radius.
pub proof fn ghost_moves_along_chord(
    on: Arithmetic,
    bump_dir: Vector,
    amplitude: Scalar,
    lean_axis: Vector,
    total_angle: Scalar,
    r_min: Scalar,
)
    requires
        correctly_rounded(on),
        vectors_are_plain(on),
        r_min.finite(),
        0x400_0000 <= r_min.units() <= 0x1_0000_0000 * one_in_units(),
        nearly_unit(bump_dir),
        forall|i: int| 0 <= i < 3 ==> (#[trigger] bump_dir[i]).finite(),
        ({
            let e = on.unit(on.turned(on.multiple(bump_dir, amplitude), lean_axis, total_angle));
            let way = on.offset(on.multiple(bump_dir, r_min), on.multiple(e, r_min));
            &&& nearly_unit(e)
            &&& forall|i: int| 0 <= i < 3 ==> (#[trigger] e[i]).finite()
            &&& length_is_sound(on, way)
        }),
    ensures
        ({
            let (r, h) = (r_min.units(), one_in_units() * one_in_units());
            let e = on.unit(on.turned(on.multiple(bump_dir, amplitude), lean_axis, total_angle));
            let l = ghost_distance(on, bump_dir, amplitude, lean_axis, total_angle, r_min).units();
            40_000 * magnitude((l * l) * h - (r * r) * (2 * h - 2 * dot(bump_dir, e))) <= (r * r) * h
        }),
{
    let e = on.unit(on.turned(on.multiple(bump_dir, amplitude), lean_axis, total_angle));
    let way = on.offset(on.multiple(bump_dir, r_min), on.multiple(e, r_min));
    lemma_length_near(on, way);
    assert(rounds(on)) by {
        reveal(rounds);
    }
    let (f, g) = (on.multiple(bump_dir, r_min), on.multiple(e, r_min));
    assert(way[0] == on.difference(on.product(bump_dir[0], r_min), on.product(e[0], r_min)));
    assert(way[1] == on.difference(on.product(bump_dir[1], r_min), on.product(e[1], r_min)));
    assert(way[2] == on.difference(on.product(bump_dir[2], r_min), on.product(e[2], r_min)));
    assert(bump_dir[0].finite() && bump_dir[1].finite() && bump_dir[2].finite());
    assert(e[0].finite() && e[1].finite() && e[2].finite());
    lemma_chord(on, bump_dir, e, way, r_min, length(on, way).units());
}

/// The length of the way between two points at one distance.
proof fn lemma_chord(on: Arithmetic, d: Vector, e: Vector, way: Vector, r: Scalar, l: int)
    requires
        rounds(on),
        r.finite(),
        0x400_0000 <= r.units() <= 0x1_0000_0000 * one_in_units(),
        nearly_unit(d),
        nearly_unit(e),
        d[0].finite() && d[1].finite() && d[2].finite(),
        e[0].finite() && e[1].finite() && e[2].finite(),
        way[0] == on.difference(on.product(d[0], r), on.product(e[0], r)),
        way[1] == on.difference(on.product(d[1], r), on.product(e[1], r)),
        way[2] == on.difference(on.product(d[2], r), on.product(e[2], r)),
        near(squared_length(way), l * l, 5140),
    ensures
        ({
            let (rr, h) = (r.units() * r.units(), one_in_units() * one_in_units());
            40_000 * magnitude((l * l) * h - rr * (2 * h - 2 * dot(d, e))) <= rr * h
        }),
{
    constants_in_units();
    let (n, m) = (one_in_units(), r.units());
    let (h, rr) = (n * n, m * m);
    lemma_chord_sizes(d, e, m);
    lemma_chord_component(on, d[0], e[0], r);
    lemma_chord_component(on, d[1], e[1], r);
    lemma_chord_component(on, d[2], e[2], r);
    let (x, y, z) = (way[0].units(), way[1].units(), way[2].units());
    let (f, g, k) = (d[0].units() - e[0].units(), d[1].units() - e[1].units(), d[2].units() - e[2].units());
    lemma_chord_square(x, f, m, n);
    lemma_chord_square(y, g, m, n);
    lemma_chord_square(z, k, m, n);
    lemma_three(x * x, y * y, z * z, h);
    assert(0 < h && 0 < rr) by (nonlinear_arith)
        requires
            h == n * n,
            rr == m * m,
            0 < n,
            0 < m,
    ;
    lemma_chord_total(
        l * l,
        squared_length(way),
        (x * x) * h,
        (y * y) * h,
        (z * z) * h,
        (f * f) * rr,
        (g * g) * rr,
        (k * k) * rr,
        rr * h,
        h,
        rr,
    );
    let (a, b, c) = ((l * l) * h, (f * f) * rr + (g * g) * rr + (k * k) * rr, rr * (2 * h - 2 * dot(d, e)));
    assert(magnitude(a - c) <= magnitude(a - b) + magnitude(b - c));
}

} // verus!
