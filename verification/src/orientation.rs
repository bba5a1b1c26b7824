//! Which way round the axis of a bump points.

use vstd::prelude::*;
use crate::bump::{axis_along, length, reference_up, BumpParams};
use crate::math::{Arithmetic, Vector};
use crate::ordering::exact_at_zero;
use crate::perpendicular::{
    bitangent, cross_is_held, divided_tangent_is_sound, dot, exact_cross, lean_axis_is_perpendicular, lean_is_held,
    lemma_circle_is_modest, lemma_component, lemma_cross, lemma_cross_finite, lemma_cross_length, lemma_cross_moved,
    lemma_exact_cross, lemma_hundredfold, lemma_lean_blend, lemma_magnitude, lemma_ratio, lemma_reference,
    lemma_reference_cross, lemma_triangle, lemma_undivided, lemma_unit_is_sized, lemma_weighed, modest, tangent,
    within,
};
use crate::rounding::{constants_in_units, correctly_rounded, one_in_units, rounds};
use crate::scalar::{Scalar, NEARLY_ONE, ZERO};
use crate::surface::{lemma_any_product, lemma_unit_size};
use crate::tolerance::{
    lemma_length_near, lemma_squares, length_is_sound, magnitude, near, nearly_unit, on_unit_circle, ratio_is_held,
    squared_length, PARTS,
};

verus! {

/// A number that gives a square when it is multiplied with the root of it.
proof fn lemma_root(a: int, l: int, m: int, h: int, n: int)
    requires
        0 < n,
        h == n * n,
        0 < l,
        1000 * m >= 19 * h,
        1000 * m <= 1002 * h,
        100 * magnitude(a) <= 101 * n,
        within(a * l - m, 53_000, h),
        within(l * l - m, 12_500, h),
    ensures
        0 < a,
        20_000 * magnitude(a * a - m) <= h,
{
    let (al, ll, aa) = (a * l, l * l, a * a);
    let (p, q) = (al - m, ll - m);
    assert(0 < h) by (nonlinear_arith)
        requires
            h == n * n,
            0 < n,
    ;
    lemma_hundredfold(magnitude(p));
    lemma_hundredfold(magnitude(q));
    assert(0 < al);
    assert(0 < a) by (nonlinear_arith)
        requires
            0 < al,
            al == a * l,
            0 < l,
    ;
    assert(100 * aa <= 103 * h) by (nonlinear_arith)
        requires
            0 <= 100 * a <= 101 * n,
            aa == a * a,
            h == n * n,
    {
        assert((100 * a) * (100 * a) <= (101 * n) * (101 * n));
    }
    // (m + p)^2 == a^2 (m + q)
    let d = aa - m;
    assert(m * d == 2 * (m * p) + p * p - aa * q) by {
        assert(al * al == aa * ll) by (nonlinear_arith)
            requires
                al == a * l,
                aa == a * a,
                ll == l * l,
        ;
        assert(al * al == m * m + 2 * (m * p) + p * p) by (nonlinear_arith)
            requires
                al == m + p,
        ;
        assert(aa * ll == aa * m + aa * q) by (nonlinear_arith)
            requires
                ll == m + q,
        ;
        assert(m * d == aa * m - m * m) by (nonlinear_arith)
            requires
                d == aa - m,
        ;
    }
    let (x, y, z) = (magnitude(p), magnitude(q), magnitude(d));
    assert(300_000 * x <= h && 1_300_000 * y <= h);
    assert(magnitude(m * p) == m * x && p * p == x * x && magnitude(aa * q) == aa * y && magnitude(m * d) == m * z)
        by (nonlinear_arith)
        requires
            x == magnitude(p),
            y == magnitude(q),
            z == magnitude(d),
            0 <= m,
            0 <= aa,
    ;
    let hm = h * m;
    assert(300_000 * (m * x) <= hm) by (nonlinear_arith)
        requires
            300_000 * x <= h,
            0 <= m,
            hm == h * m,
    ;
    // x <= h / 300000 and h <= 53 m
    assert(h <= 53 * m);
    assert(300_000 * (x * x) <= x * h) by (nonlinear_arith)
        requires
            300_000 * x <= h,
            0 <= x,
    ;
    assert(x * h <= 53 * (m * x)) by (nonlinear_arith)
        requires
            h <= 53 * m,
            0 <= x,
    ;
    assert(100 * (aa * y) <= 103 * (h * y)) by (nonlinear_arith)
        requires
            100 * aa <= 103 * h,
            0 <= y,
    ;
    assert(1_300_000 * (h * y) <= 53 * hm) by {
        assert(1_300_000 * (h * y) <= h * h) by (nonlinear_arith)
            requires
                1_300_000 * y <= h,
                0 < h,
        ;
        assert(h * h <= 53 * hm) by (nonlinear_arith)
            requires
                h <= 53 * m,
                hm == h * m,
                0 < h,
        ;
    }
    assert(m * z <= 2 * (m * x) + x * x + aa * y);
    assert(20_000 * (m * z) <= hm);
    assert(20_000 * z <= h) by (nonlinear_arith)
        requires
            20_000 * (m * z) <= h * m,
            0 < m,
    ;
}

/// Two shares of a whole, added up.
proof fn lemma_shares(pl: int, hl: int, w: int, e: int, qn: int)
    requires
        17_179_869_184 * pl <= 46_000 * hl,
        100 * hl <= 101 * w,
        1_717_986_918_400 * e <= 624_180 * w,
        qn <= pl + e,
        0 <= w,
    ensures
        1_717_986_918_400 * qn <= 5_300_000 * w,
{
}

/// A component of the axis, times the length that the tangent was divided by.
proof fn lemma_times_length(a: int, x: int, l: int, m: int, n: int)
    requires
        0 < n,
        0 < l,
        100 * l <= 101 * n,
        within(a * n - x, 46_000, n * n),
        100 * PARTS * magnitude(x * l - n * m) <= 624_180 * (n * (n * n)),
    ensures
        within(a * l - m, 53_000, n * n),
{
    let (h, w) = (n * n, n * (n * n));
    let (d, e, z) = (a * n - x, x * l - n * m, a * l - m);
    assert(z * n == d * l + e) by {
        assert(z * n == (a * l) * n - m * n) by (nonlinear_arith)
            requires
                z == a * l - m,
        ;
        assert(d * l == (a * n) * l - x * l) by (nonlinear_arith)
            requires
                d == a * n - x,
        ;
        assert((a * l) * n == (a * n) * l && m * n == n * m) by (nonlinear_arith);
    }
    lemma_magnitude(d, l);
    lemma_magnitude(z, n);
    let (p, q) = (magnitude(d), magnitude(z));
    lemma_hundredfold(magnitude(e));
    lemma_hundredfold(p);
    lemma_hundredfold(q);
    lemma_squares(n, n);
    assert(17_179_869_184 * (p * l) <= 46_000 * (h * l)) by (nonlinear_arith)
        requires
            17_179_869_184 * p <= 46_000 * h,
            0 < l,
    ;
    assert(100 * (h * l) <= 101 * w) by (nonlinear_arith)
        requires
            100 * l <= 101 * n,
            0 <= h,
            w == n * h,
    ;
    assert(0 <= w) by (nonlinear_arith)
        requires
            w == n * h,
            0 < n,
            0 <= h,
    ;
    assert(q * n <= p * l + magnitude(e));
    lemma_shares(p * l, h * l, w, magnitude(e), q * n);
    assert(17_179_869_184 * q <= 53_000 * h) by (nonlinear_arith)
        requires
            1_717_986_918_400 * (q * n) <= 5_300_000 * (n * h),
            0 < n,
    {
        assert((1_717_986_918_400 * q) * n <= (5_300_000 * h) * n);
    }
}

/// The exact cross product of a direction with the tangent, times the length
/// that the tangent was divided by: one component, `a * y - b * x`.
proof fn lemma_second_cross(a: int, b: int, x: int, y: int, l: int, p: int, q: int, m: int, n: int)
    requires
        0 < n,
        100 * magnitude(a) <= 101 * n,
        100 * magnitude(b) <= 101 * n,
        within(x * l - p, 3090, n * n),
        within(y * l - q, 3090, n * n),
        a * q - b * p == n * m,
    ensures
        100 * PARTS * magnitude((a * y - b * x) * l - n * m) <= 624_180 * (n * (n * n)),
{
    lemma_cross_moved(a, b, x * l, y * l, p, q, 3090, n);
    assert((a * y - b * x) * l == a * (y * l) - b * (x * l)) by (nonlinear_arith);
}

/// A component of the tangent, times the length that it was divided by.
proof fn lemma_tangent_component(on: Arithmetic, c: Scalar, len: Scalar, e: int)
    requires
        correctly_rounded(on),
        c.finite(),
        len.finite(),
        len.units() > 0,
        ratio_is_held(on, c, len),
        within(c.units() * one_in_units() - e, 2060, one_in_units() * one_in_units()),
        1000 * magnitude(e) <= 1002 * (one_in_units() * one_in_units()),
    ensures
        within(on.quotient(c, len).units() * len.units() - e, 3090, one_in_units() * one_in_units()),
{
    let n = one_in_units();
    lemma_ratio(on, c, len, e);
    let (x, y) = (on.quotient(c, len).units() * len.units() - c.units() * n, c.units() * n - e);
    lemma_two(x, y, n * n);
}

/// Two errors, one on top of the other.
proof fn lemma_two(x: int, y: int, h: int)
    requires
        within(x, 1030, h),
        within(y, 2060, h),
    ensures
        within(x + y, 3090, h),
{
    assert(magnitude(x + y) <= magnitude(x) + magnitude(y));
}

/// The squared length of the cross product with the reference direction.
proof fn lemma_squared_root(total: int, l: int, m: int, h: int)
    requires
        0 < h,
        0 <= m,
        1000 * m <= 1001 * h,
        near(total, l * l, 5140),
        2 * (PARTS * magnitude(total * h - h * m)) <= 14_420 * (h * h),
    ensures
        within(l * l - m, 12_500, h),
{
    let d = total - m;
    assert(d * h == total * h - h * m) by (nonlinear_arith)
        requires
            d == total - m,
    ;
    lemma_magnitude(d, h);
    let k = magnitude(d);
    lemma_hundredfold(k * h);
    assert(17_179_869_184 * k <= 7210 * h) by (nonlinear_arith)
        requires
            2 * (17_179_869_184 * (k * h)) <= 14_420 * (h * h),
            0 < h,
    {
        assert((17_179_869_184 * k) * h <= (7210 * h) * h);
    }
    lemma_hundredfold(k);
    let ll = l * l;
    assert(17_179_869_184 * magnitude(total - ll) <= 5140 * ll);
    assert(1000 * total <= 1002 * h);
    assert(1000 * ll <= 1003 * h);
    assert(magnitude(ll - m) <= k + magnitude(total - ll));
}

/// What is left of a direction of length one without one of its components.
proof fn lemma_rest(d: Vector)
    requires
        nearly_unit(d),
    ensures
        ({
            let h = one_in_units() * one_in_units();
            let (x, y, z) = (d[0].units(), d[1].units(), d[2].units());
            &&& 0 <= x * x + z * z && 1000 * (x * x + z * z) <= 1001 * h
            &&& 0 <= y * y + z * z && 1000 * (y * y + z * z) <= 1001 * h
        }),
{
    lemma_squares(d[0].units(), d[1].units());
    lemma_squares(d[2].units(), one_in_units());
}

/// The reference direction, what is left of the direction without its component
/// along it, and the exact cross product of the two.
proof fn lemma_up(d: Vector)
    requires
        nearly_unit(d),
        !d[1].nan(),
    ensures
        ({
            let (n, h) = (one_in_units(), one_in_units() * one_in_units());
            let (up, e) = (reference_up(d), exact_cross(reference_up(d), d));
            let (x, y, z) = (d[0].units(), d[1].units(), d[2].units());
            let exact = squared_length(up) * squared_length(d) - dot(up, d) * dot(up, d);
            if d[1].absolute().below(Scalar(NEARLY_ONE)) {
                &&& exact == h * (x * x + z * z)
                &&& 1000 * (x * x + z * z) >= 19 * h
                &&& z * e.0 - x * e.2 == n * (x * x + z * z)
            } else {
                &&& exact == h * (y * y + z * z)
                &&& 1000 * (y * y + z * z) >= 19 * h
                &&& y * e.2 - z * e.1 == n * (y * y + z * z)
            }
        }),
{
    constants_in_units();
    lemma_reference(d);
    let n = one_in_units();
    let h = n * n;
    let (up, e) = (reference_up(d), exact_cross(reference_up(d), d));
    let (x, y, z) = (d[0].units(), d[1].units(), d[2].units());
    let q = squared_length(d);
    assert(0 * x == 0 && 0 * y == 0 && 0 * z == 0);
    assert(0 < h) by (nonlinear_arith)
        requires
            h == n * n,
            0 < n,
    ;
    let (k, m) = if d[1].absolute().below(Scalar(NEARLY_ONE)) {
        (y, x * x + z * z)
    } else {
        (x, y * y + z * z)
    };
    assert(dot(up, d) == n * k);
    assert(h * q - (n * k) * (n * k) == h * m) by (nonlinear_arith)
        requires
            q == m + k * k,
            h == n * n,
    ;
    assert(1000 * m >= 19 * h) by (nonlinear_arith)
        requires
            1000 * (h * m) >= 19 * (h * h),
            0 < h,
    ;
    if d[1].absolute().below(Scalar(NEARLY_ONE)) {
        assert(e.0 == n * z && e.2 == -(n * x));
        assert(z * (n * z) - x * (-(n * x)) == n * (x * x + z * z)) by (nonlinear_arith);
    } else {
        assert(e.2 == n * y && e.1 == -(n * z));
        assert(y * (n * y) - z * (-(n * z)) == n * (y * y + z * z)) by (nonlinear_arith);
    }
}

/// One component of the axis at the angle zero.
proof fn lemma_upright_component(
    on: Arithmetic,
    d: Vector,
    axis: int,
    a: int,
    b: int,
    x: int,
    y: int,
    p: int,
    q: int,
    m: int,
)
    requires
        correctly_rounded(on),
        ({
            let (n, h) = (one_in_units(), one_in_units() * one_in_units());
            let c = on.cross_product(reference_up(d), d);
            let l = length(on, c).units();
            &&& 0 < l
            &&& length_is_sound(on, c)
            &&& 100 * magnitude(axis) <= 101 * n
            &&& 100 * magnitude(a) <= 101 * n
            &&& 100 * magnitude(b) <= 101 * n
            &&& within(x * l - p, 3090, h)
            &&& within(y * l - q, 3090, h)
            &&& a * q - b * p == n * m
            &&& 1000 * m >= 19 * h
            &&& 1000 * m <= 1001 * h
            &&& within(axis * n - (a * y - b * x), 46_000, h)
            &&& 2 * (PARTS * magnitude(squared_length(c) * h - h * m)) <= 14_420 * (h * h)
        }),
    ensures
        0 < axis,
        20_000 * magnitude(axis * axis - m) <= one_in_units() * one_in_units(),
{
    constants_in_units();
    let n = one_in_units();
    let h = n * n;
    let c = on.cross_product(reference_up(d), d);
    let l = length(on, c).units();
    assert(0 < h) by (nonlinear_arith)
        requires
            h == n * n,
            0 < n,
    ;
    lemma_length_near(on, c);
    lemma_squared_root(squared_length(c), l, m, h);
    assert(1000 * (l * l) <= 1002 * h);
    lemma_component(l, l * l);
    lemma_second_cross(a, b, x, y, l, p, q, m, n);
    lemma_times_length(axis, a * y - b * x, l, m, n);
    lemma_root(axis, l, m, h, n);
}

/// A bump whose lean direction is zero leans about the upward direction, as far
/// as that is perpendicular to the bump: of all directions of length one in the
/// tangent plane its axis is the one that points upwards most. The component of
/// the axis along the reference direction is positive, and its square is one
/// less the square of that of the bump's direction, but for one part in twenty
/// thousand.
pub proof fn bump_starts_out_leaning_about_up(on: Arithmetic, bump: BumpParams)
    requires
        correctly_rounded(on),
        exact_at_zero(on),
        bump.lean_direction_phi == Scalar(ZERO),
        on_unit_circle(on, Scalar(ZERO)),
        nearly_unit(bump.points_along(on)),
        !bump.points_along(on)[1].nan(),
        lean_is_held(on, bump.points_along(on), Scalar(ZERO)),
        ({
            let d = bump.points_along(on);
            let c = on.cross_product(reference_up(d), d);
            &&& cross_is_held(on, reference_up(d), d)
            &&& length_is_sound(on, c)
            &&& forall|i: int| 0 <= i < 3 ==> ratio_is_held(on, #[trigger] c[i], length(on, c))
            &&& on.unit(c) == axis_along(on, c)
        }),
    ensures
        ({
            let h = one_in_units() * one_in_units();
            let (d, axis) = (bump.points_along(on), bump.leans_about(on));
            let (x, y, z) = (d[0].units(), d[1].units(), d[2].units());
            let (u, v) = (axis[0].units(), axis[1].units());
            if d[1].absolute().below(Scalar(NEARLY_ONE)) {
                0 < v && 20_000 * magnitude(v * v - (x * x + z * z)) <= h
            } else {
                0 < u && 20_000 * magnitude(u * u - (y * y + z * z)) <= h
            }
        }),
{
    constants_in_units();
    let n = one_in_units();
    let d = bump.points_along(on);
    let (up, axis, t) = (reference_up(d), bump.leans_about(on), tangent(on, d));
    let (c, e) = (on.cross_product(up, d), exact_cross(up, d));
    let len = length(on, c);
    divided_tangent_is_sound(on, d);
    lean_axis_is_perpendicular(on, d, Scalar(ZERO));
    lemma_unit_is_sized(d, 10_309);
    lemma_unit_is_sized(axis, 10_309);
    lemma_reference_cross(on, d);
    lemma_rest(d);
    lemma_up(d);
    lemma_cross_length(on, up, d);
    lemma_cross(on, up, d);
    lemma_exact_cross(up, d);
    lemma_cross_finite(on, up, d);
    assert(ratio_is_held(on, c[0], len) && ratio_is_held(on, c[1], len) && ratio_is_held(on, c[2], len));
    lemma_tangent_component(on, c[0], len, e.0);
    lemma_tangent_component(on, c[1], len, e.1);
    lemma_tangent_component(on, c[2], len, e.2);
    lemma_lean_blend(on, d, Scalar(ZERO));
    let (x, y, z) = (d[0].units(), d[1].units(), d[2].units());
    let (t0, t1, t2) = (t[0].units(), t[1].units(), t[2].units());
    let (f, g) = (exact_cross(d, t), exact_cross(d, bitangent(on, d)));
    if d[1].absolute().below(Scalar(NEARLY_ONE)) {
        lemma_undivided(axis[1].units(), f.1, g.1, n);
        lemma_upright_component(on, d, axis[1].units(), z, x, t2, t0, e.2, e.0, x * x + z * z);
    } else {
        lemma_undivided(axis[0].units(), f.0, g.0, n);
        lemma_upright_component(on, d, axis[0].units(), y, z, t1, t2, e.1, e.2, y * y + z * z);
    }
}

/// The product of two modest numbers is off by little.
proof fn lemma_modest_product(on: Arithmetic, a: Scalar, b: Scalar)
    requires
        rounds(on),
        a.finite(),
        b.finite(),
        modest(a),
        modest(b),
    ensures
        on.product(a, b).finite(),
        within(
            on.product(a, b).units() * one_in_units() - a.units() * b.units(),
            2100,
            one_in_units() * one_in_units(),
        ),
{
    lemma_unit_size();
    let n = one_in_units();
    let (p, q, exact) = (magnitude(a.units()), magnitude(b.units()), a.units() * b.units());
    assert(magnitude(exact) == p * q) by (nonlinear_arith)
        requires
            p == magnitude(a.units()),
            q == magnitude(b.units()),
            exact == a.units() * b.units(),
    ;
    assert(10_000 * (p * q) <= 10_201 * (n * n)) by (nonlinear_arith)
        requires
            0 <= 100 * p <= 101 * n,
            0 <= 100 * q <= 101 * n,
    {
        assert((100 * p) * (100 * q) <= (101 * n) * (101 * n));
    }
    lemma_any_product(on, a, b);
}

/// Two products, seen along and across the angle of one factor.
proof fn lemma_turned_back(x: int, z: int, s: int, c: int, t: int, n: int)
    requires
        0 < n,
        100 * magnitude(s) <= 101 * n,
        100 * magnitude(c) <= 101 * n,
        100 * magnitude(t) <= 101 * n,
        within(x * n - s * c, 2100, n * n),
        within(z * n - s * t, 2100, n * n),
        near(t * t + c * c, n * n, 4096),
    ensures
        1_000_000 * magnitude(x * c + z * t - s * n) <= n * n,
        1_000_000 * magnitude(x * t - z * c) <= n * n,
{
    let (h, w) = (n * n, n * (n * n));
    let (e, f, g) = (x * n - s * c, z * n - s * t, t * t + c * c - h);
    lemma_squares(n, n);
    lemma_weighed(c, e, 2100, n, h);
    lemma_weighed(t, f, 2100, n, h);
    lemma_weighed(t, e, 2100, n, h);
    lemma_weighed(c, f, 2100, n, h);
    lemma_weighed(s, g, 4096, n, h);
    let (ce, tf, te, cf, sg) = (c * e, t * f, t * e, c * f, s * g);
    lemma_hundredfold(magnitude(ce));
    lemma_hundredfold(magnitude(tf));
    lemma_hundredfold(magnitude(te));
    lemma_hundredfold(magnitude(cf));
    lemma_hundredfold(magnitude(sg));
    let (along, across) = (x * c + z * t - s * n, x * t - z * c);
    assert(c * (x * n - s * c) == (x * c) * n - s * (c * c)) by (nonlinear_arith);
    assert(t * (z * n - s * t) == (z * t) * n - s * (t * t)) by (nonlinear_arith);
    assert(t * (x * n - s * c) == (x * t) * n - s * (c * t)) by (nonlinear_arith);
    assert(c * (z * n - s * t) == (z * c) * n - s * (c * t)) by (nonlinear_arith);
    assert(s * (t * t + c * c - h) == s * (t * t) + s * (c * c) - s * h) by (nonlinear_arith);
    assert(s * h == (s * n) * n) by (nonlinear_arith)
        requires
            h == n * n,
    ;
    assert((x * c + z * t - s * n) * n == (x * c) * n + (z * t) * n - (s * n) * n) by (nonlinear_arith);
    assert((x * t - z * c) * n == (x * t) * n - (z * c) * n) by (nonlinear_arith);
    assert(along * n == ce + tf + sg);
    assert(across * n == te - cf);
    assert(0 <= w) by (nonlinear_arith)
        requires
            w == n * h,
            0 < n,
            0 <= h,
    ;
    lemma_triangle(ce, tf, sg, 212_100 * w, 212_100 * w, 413_696 * w);
    lemma_triangle(te, -cf, 0, 212_100 * w, 212_100 * w, 0);
    lemma_taken_out(along, n);
    lemma_taken_out(across, n);
}

/// A bound on a multiple, without the factor.
proof fn lemma_taken_out(x: int, n: int)
    requires
        0 < n,
        1_717_986_918_400 * magnitude(x * n) <= 837_896 * (n * (n * n)),
    ensures
        1_000_000 * magnitude(x) <= n * n,
{
    lemma_magnitude(x, n);
    let (m, h) = (magnitude(x), n * n);
    assert(1_000_000 * (m * n) <= n * h) by {
        assert(0 <= n * h) by (nonlinear_arith)
            requires
                0 < n,
                h == n * n,
        ;
    }
    assert(1_000_000 * m <= h) by (nonlinear_arith)
        requires
            1_000_000 * (m * n) <= n * h,
            0 < n,
    {
        assert((1_000_000 * m) * n <= h * n);
    }
}

/// A bump points as its two angles say: as high as the cosine of the angle from
/// the vertical, and as far out as its sine, in the horizontal direction that lies
/// at the angle around the vertical, the first axis at zero and the third at a
/// quarter of a turn.
pub proof fn bump_points_by_its_angles(on: Arithmetic, bump: BumpParams)
    requires
        correctly_rounded(on),
        on.sine(bump.theta).finite(),
        modest(on.sine(bump.theta)),
        on.sine(bump.phi).finite(),
        on.cosine(bump.phi).finite(),
        on_unit_circle(on, bump.phi),
    ensures
        ({
            let (n, d) = (one_in_units(), bump.points_along(on));
            let (x, z, s) = (d[0].units(), d[2].units(), on.sine(bump.theta).units());
            let (c, t) = (on.cosine(bump.phi).units(), on.sine(bump.phi).units());
            &&& d[1] == on.cosine(bump.theta)
            &&& 1_000_000 * magnitude(x * c + z * t - s * n) <= n * n
            &&& 1_000_000 * magnitude(x * t - z * c) <= n * n
        }),
{
    constants_in_units();
    assert(rounds(on)) by {
        reveal(rounds);
    }
    let n = one_in_units();
    let (s, c, t) = (on.sine(bump.theta), on.cosine(bump.phi), on.sine(bump.phi));
    lemma_circle_is_modest(on, bump.phi);
    lemma_modest_product(on, s, c);
    lemma_modest_product(on, s, t);
    lemma_turned_back(on.product(s, c).units(), on.product(s, t).units(), s.units(), c.units(), t.units(), n);
}

} // verus!
