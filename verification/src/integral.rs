//! The volume of a blob as an integral: what it adds up, and where.

use vstd::prelude::*;
use vstd::arithmetic::power2::{lemma2_to64, lemma_pow2_adds, lemma_pow2_unfold, pow2};
use crate::blob::{cell, cells, column_angle, radius, row_angle, volume};
use crate::bump::{on_sphere, BumpParams};
use crate::folding::{
    counts_exactly, lemma_cancelled, lemma_cancelled_count, lemma_ends, lemma_fair_product, lemma_fair_quotient,
    lemma_fair_sum, lemma_many_units,
};
use crate::math::Arithmetic;
use crate::perpendicular::lemma_magnitude;
use crate::rounding::{constants_in_units, correctly_rounded, one_in_units, rounds};
use crate::scalar::{Scalar, HALF, PI, TAU, THREE, ZERO};
use crate::tolerance::{
    cell_is_full, lemma_added, lemma_chained, lemma_combined, lemma_multiplied, lemma_widened, magnitude, near, plain,
    product_is_near, quotient_is_near, sum_is_near, volume_is_full, PARTS, ROUNDING,
};

verus! {

/// What the point of the surface at row `i` and column `j` adds to the integral:
/// the third power of its distance, times the sine of its angle from the
/// vertical.
pub open spec fn exact_cell(on: Arithmetic, r_min: Scalar, bumps: Seq<BumpParams>, i: int, j: int) -> int {
    let theta = row_angle(on, i);
    let r = radius(on, r_min, bumps, on_sphere(on, theta, column_angle(on, j))).units();
    (r * r * r) * on.sine(theta).units()
}

/// What the first points add up to, 64 in each row.
pub open spec fn exact_cells(on: Arithmetic, r_min: Scalar, bumps: Seq<BumpParams>, count: nat) -> int
    decreases count,
{
    if count == 0 {
        0
    } else {
        let k = count - 1;
        exact_cells(on, r_min, bumps, k as nat) + exact_cell(on, r_min, bumps, k / 64, k % 64)
    }
}

/// A cell is off by three roundings.
proof fn lemma_cell(on: Arithmetic, r_min: Scalar, bumps: Seq<BumpParams>, i: int, j: int)
    requires
        correctly_rounded(on),
        cell_is_full(on, r_min, bumps, i, j),
    ensures
        plain(cell(on, r_min, bumps, i, j)),
        ({
            let n = one_in_units();
            near(cell(on, r_min, bumps, i, j).units() * (n * n * n), exact_cell(on, r_min, bumps, i, j), 3080)
        }),
{
    reveal(cell_is_full);
    constants_in_units();
    let n = one_in_units();
    let theta = row_angle(on, i);
    let r = radius(on, r_min, bumps, on_sphere(on, theta, column_angle(on, j)));
    let (square, s) = (on.product(r, r), on.sine(theta));
    let cube = on.product(square, r);
    product_is_near(on, r, r);
    product_is_near(on, square, r);
    product_is_near(on, cube, s);
    lemma_three_powers(r.units(), square.units(), cube.units(), s.units(), cell(on, r_min, bumps, i, j).units(), n);
}

/// Three products, one on top of the other.
proof fn lemma_three_powers(r: int, q: int, c: int, s: int, t: int, n: int)
    requires
        0 < n,
        0 <= r,
        0 <= s,
        near(q * n, r * r, ROUNDING as int),
        near(c * n, q * r, ROUNDING as int),
        near(t * n, c * s, ROUNDING as int),
    ensures
        near(t * (n * n * n), (r * r * r) * s, 3080),
{
    lemma_multiplied(c * n, q * r, ROUNDING as int, n);
    lemma_multiplied(q * n, r * r, ROUNDING as int, r);
    assert((q * r) * n == (q * n) * r) by (nonlinear_arith);
    lemma_chained((c * n) * n, (q * n) * r, (r * r) * r, ROUNDING as int, ROUNDING as int, 2049);
    lemma_multiplied((c * n) * n, (r * r) * r, 2049, s);
    assert(0 <= n * n) by (nonlinear_arith);
    lemma_multiplied(t * n, c * s, ROUNDING as int, n * n);
    assert((c * s) * (n * n) == ((c * n) * n) * s) by (nonlinear_arith);
    assert((t * n) * (n * n) == t * (n * n * n)) by (nonlinear_arith);
    lemma_chained((t * n) * (n * n), ((c * n) * n) * s, ((r * r) * r) * s, ROUNDING as int, 2049, 3080);
}

/// One more term.
proof fn lemma_one_more(on: Arithmetic, a: Scalar, b: Scalar, p: int, q: int, x: int, k: int)
    requires
        correctly_rounded(on),
        plain(a),
        plain(b),
        on.sum(a, b).finite(),
        0 <= x,
        3080 <= k <= 0x180_0000,
        near(a.units() * x, p, k),
        near(b.units() * x, q, 3080),
    ensures
        plain(on.sum(a, b)),
        near(on.sum(a, b).units() * x, p + q, k + 1030),
{
    sum_is_near(on, a, b);
    lemma_widened(b.units() * x, q, 3080, k);
    lemma_added(a.units() * x, p, b.units() * x, q, k);
    let (s, both) = (on.sum(a, b).units(), a.units() + b.units());
    lemma_multiplied(s, both, ROUNDING as int, x);
    assert(both * x == a.units() * x + b.units() * x) by (nonlinear_arith)
        requires
            both == a.units() + b.units(),
    ;
    lemma_chained(s * x, both * x, p + q, ROUNDING as int, k, k + 1030);
}

/// The sum of the cells is off by a rounding for each, and a few.
proof fn lemma_cells(on: Arithmetic, r_min: Scalar, bumps: Seq<BumpParams>, count: nat)
    requires
        correctly_rounded(on),
        volume_is_full(on, r_min, bumps),
        count <= 4096,
    ensures
        plain(cells(on, r_min, bumps, count)),
        ({
            let n = one_in_units();
            near(
                cells(on, r_min, bumps, count).units() * (n * n * n),
                exact_cells(on, r_min, bumps, count),
                3080 + 1030 * (count as int),
            )
        }),
    decreases count,
{
    constants_in_units();
    let n = one_in_units();
    let x = n * n * n;
    assert(0 <= x) by (nonlinear_arith)
        requires
            x == n * n * n,
            0 <= n,
    ;
    if count == 0 {
        assert(Scalar(ZERO).units() * x == 0) by (nonlinear_arith)
            requires
                Scalar(ZERO).units() == 0,
        ;
    } else {
        let k = (count - 1) as nat;
        let (i, j) = (k as int / 64, k as int % 64);
        assert(cell_is_full(on, r_min, bumps, i, j));
        lemma_cells(on, r_min, bumps, k);
        lemma_cell(on, r_min, bumps, i, j);
        assert(cells(on, r_min, bumps, count).finite());
        lemma_one_more(
            on,
            cells(on, r_min, bumps, k),
            cell(on, r_min, bumps, i, j),
            exact_cells(on, r_min, bumps, k),
            exact_cell(on, r_min, bumps, i, j),
            x,
            3080 + 1030 * (k as int),
        );
    }
}

/// What the constants of the integral stand for.
proof fn lemma_turns()
    ensures
        Scalar(PI).finite(),
        Scalar(TAU).finite(),
        Scalar(THREE).finite(),
        Scalar(THREE).units() == 3 * one_in_units(),
        Scalar(TAU).units() == 2 * Scalar(PI).units(),
        314_159 * one_in_units() <= 100_000 * Scalar(PI).units(),
        100_000 * Scalar(PI).units() <= 314_160 * one_in_units(),
{
    lemma_ends();
    lemma2_to64();
    lemma_pow2_unfold(128);
    lemma_pow2_adds(22, 127);
    assert(Scalar(PI).unsigned() / 0x80_0000 == 128 && Scalar(PI).unsigned() % 0x80_0000 == 0x49_0fdb);
    assert(Scalar(TAU).unsigned() / 0x80_0000 == 129 && Scalar(TAU).unsigned() % 0x80_0000 == 0x49_0fdb);
    assert(Scalar(THREE).unsigned() / 0x80_0000 == 128 && Scalar(THREE).unsigned() % 0x80_0000 == 0x40_0000);
    assert(Scalar(PI).units() == 0xc9_0fdb * pow2(127));
    assert(Scalar(TAU).units() == 0xc9_0fdb * pow2(128));
    assert(Scalar(THREE).units() == 0xc0_0000 * pow2(127));
}

/// A step of the grid, times the number of steps.
proof fn lemma_grid_step(on: Arithmetic, whole: Scalar)
    requires
        rounds(on),
        counts_exactly(on),
        whole.finite(),
        one_in_units() <= whole.units() <= 8 * one_in_units(),
    ensures
        on.quotient(whole, on.integer(64)).finite(),
        near(64 * on.quotient(whole, on.integer(64)).units(), whole.units(), 2049),
{
    lemma_many_units();
    let n = one_in_units();
    let all = on.integer(64);
    assert(all.finite() && all.units() == 64 * n);
    lemma_fair_quotient(on, whole, all);
    let q = on.quotient(whole, all).units();
    assert(q * (64 * n) == (64 * q) * n) by (nonlinear_arith);
    lemma_cancelled_count(64 * q, whole.units(), n);
}

/// Two steps of the grid and a third, taken from the sum of the cells.
proof fn lemma_scaled_sum(v: int, a: int, b: int, t: int, x: int, y: int, e: int, p: int, q: int, n: int)
    requires
        0 < n,
        0 <= t,
        0 <= x,
        0 <= y,
        near(v * (3 * n), b * n, ROUNDING as int),
        near(b * n, a * y, ROUNDING as int),
        near(a * n, t * x, ROUNDING as int),
        near(64 * x, p, 2049),
        near(64 * y, q, 2049),
        near(t * (n * n * n), e, 4_221_960),
    ensures
        near(v * (12_288 * (n * n * (n * n * n))), e * (p * q), 5_000_000),
{
    let (n2, n3) = (n * n, n * n * n);
    assert(0 < n2 && 0 < n3) by (nonlinear_arith)
        requires
            n2 == n * n,
            n3 == n * n * n,
            0 < n,
    ;
    assert(v * (3 * n) == (3 * v) * n) by (nonlinear_arith);
    lemma_chained((3 * v) * n, b * n, a * y, ROUNDING as int, ROUNDING as int, 2049);
    lemma_multiplied((3 * v) * n, a * y, 2049, n);
    lemma_multiplied(a * n, t * x, ROUNDING as int, y);
    assert((a * y) * n == (a * n) * y) by (nonlinear_arith);
    lemma_chained(((3 * v) * n) * n, (a * n) * y, (t * x) * y, 2049, ROUNDING as int, 3074);
    lemma_combined(64 * x, p, 64 * y, q, 2049, 2049, 4099);
    lemma_combined(t * n3, e, (64 * x) * (64 * y), p * q, 4_221_960, 4099, 4_226_061);
    lemma_multiplied(((3 * v) * n) * n, (t * x) * y, 3074, 4096 * n3);
    assert(((t * x) * y) * (4096 * n3) == (t * n3) * ((64 * x) * (64 * y))) by (nonlinear_arith);
    assert((((3 * v) * n) * n) * (4096 * n3) == v * (12_288 * (n2 * n3))) by (nonlinear_arith)
        requires
            n2 == n * n,
    ;
    lemma_chained(v * (12_288 * (n2 * n3)), (t * n3) * ((64 * x) * (64 * y)), e * (p * q), 3074, 4_226_061, 5_000_000);
}

/// The volume is the integral of a third of the third power of the radius over
/// all directions, as the sum over a grid of 64 rows and 64 columns gives it: each
/// point of the grid counts, with the sine of its row and with a share of half a
/// turn by a full turn, but for three parts in ten thousand of the whole.
pub proof fn volume_adds_up_grid(on: Arithmetic, r_min: Scalar, bumps: Seq<BumpParams>)
    requires
        correctly_rounded(on),
        counts_exactly(on),
        volume_is_full(on, r_min, bumps),
    ensures
        ({
            let n = one_in_units();
            let (p, q) = (Scalar(PI).units(), Scalar(TAU).units());
            near(
                volume(on, r_min, bumps).units() * (12_288 * (n * n * (n * n * n))),
                exact_cells(on, r_min, bumps, 4096) * (p * q),
                5_000_000,
            )
        }),
{
    constants_in_units();
    lemma_turns();
    let n = one_in_units();
    assert(rounds(on)) by {
        reveal(rounds);
    }
    lemma_grid_step(on, Scalar(PI));
    lemma_grid_step(on, Scalar(TAU));
    lemma_cells(on, r_min, bumps, 4096);
    let (x, y) = (on.quotient(Scalar(PI), on.integer(64)), on.quotient(Scalar(TAU), on.integer(64)));
    let t = cells(on, r_min, bumps, 4096);
    product_is_near(on, t, x);
    let a = on.product(t, x);
    product_is_near(on, a, y);
    let b = on.product(a, y);
    quotient_is_near(on, b, Scalar(THREE));
    lemma_scaled_sum(
        volume(on, r_min, bumps).units(),
        a.units(),
        b.units(),
        t.units(),
        x.units(),
        y.units(),
        exact_cells(on, r_min, bumps, 4096),
        Scalar(PI).units(),
        Scalar(TAU).units(),
        n,
    );
}

/// A product and a quotient by a count, one on top of the other.
proof fn lemma_grid_errors(wi: int, reach: int, q: int, n: int)
    requires
        0x1_0000_0000_0000_0000 <= n,
        0 <= wi <= 512 * n,
        PARTS * magnitude(reach - wi) <= 2050 * wi + 2 * PARTS,
        PARTS * magnitude(64 * q - reach) <= 2048 * magnitude(reach) + 128 * PARTS,
    ensures
        500_000 * magnitude(64 * q - wi) <= 64 * n,
{
    let (a, b) = (magnitude(reach - wi), magnitude(64 * q - reach));
    assert(magnitude(64 * q - wi) <= a + b);
    assert(magnitude(reach) <= wi + a);
    assert(17_179_869_184 * a <= 2050 * wi + 34_359_738_368);
}

/// The columns are spread evenly, in 64 steps, over a full turn: each is where it
/// belongs, but for two parts in a million of one.
pub proof fn columns_are_spread_evenly(on: Arithmetic, j: int)
    requires
        correctly_rounded(on),
        counts_exactly(on),
        0 <= j < 64,
    ensures
        column_angle(on, j).finite(),
        500_000 * magnitude(64 * column_angle(on, j).units() - j * Scalar(TAU).units()) <= 64 * one_in_units(),
{
    lemma_turns();
    lemma_many_units();
    assert(rounds(on)) by {
        reveal(rounds);
    }
    let n = one_in_units();
    let (whole, k, all) = (Scalar(TAU), on.integer(j as usize), on.integer(64));
    assert(k.units() == j * n && all.units() == 64 * n);
    let w = whole.units();
    let wi = w * j;
    assert(0 <= wi <= 448 * n) by (nonlinear_arith)
        requires
            wi == w * j,
            0 <= w <= 7 * n,
            0 <= j < 64,
    ;
    assert(w * (j * n) == wi * n && 0 <= wi * n <= 448 * (n * n)) by (nonlinear_arith)
        requires
            wi == w * j,
            0 <= wi <= 448 * n,
            0 < n,
    ;
    lemma_fair_product(on, whole, k);
    let reach = on.product(whole, k);
    lemma_cancelled(reach.units(), wi, n);
    assert(magnitude(reach.units()) <= 500 * n);
    lemma_fair_quotient(on, reach, all);
    let q = on.quotient(reach, all);
    assert(q.units() * (64 * n) == (64 * q.units()) * n) by (nonlinear_arith);
    lemma_cancelled_count(64 * q.units(), reach.units(), n);
    lemma_grid_errors(wi, reach.units(), q.units(), n);
    assert(wi == j * w) by (nonlinear_arith)
        requires
            wi == w * j,
    ;
}

/// The rows are spread evenly, in 64 steps, over half a turn, each in the middle
/// of its step: each is where it belongs, but for two parts in a million of one.
pub proof fn rows_are_spread_evenly(on: Arithmetic, i: int)
    requires
        correctly_rounded(on),
        counts_exactly(on),
        0 <= i < 64,
    ensures
        row_angle(on, i).finite(),
        500_000 * magnitude(128 * row_angle(on, i).units() - (2 * i + 1) * Scalar(PI).units()) <= 128
            * one_in_units(),
{
    constants_in_units();
    lemma_turns();
    lemma_many_units();
    assert(rounds(on)) by {
        reveal(rounds);
    }
    let n = one_in_units();
    let (whole, k, all) = (Scalar(PI), on.integer(i as usize), on.integer(64));
    assert(k.units() == i * n && all.units() == 64 * n);
    let h = Scalar(HALF).units();
    assert(2 * h == n);
    assert(0 <= i * n <= 63 * n) by (nonlinear_arith)
        requires
            0 <= i <= 63,
            0 < n,
    ;
    lemma_fair_sum(on, k, Scalar(HALF));
    let m = on.sum(k, Scalar(HALF));
    let (w, exact) = (whole.units(), i * n + h);
    let (x, wm) = (m.units(), w * m.units());
    assert(0x100_0000 * magnitude(x - exact) <= exact);
    lemma_row_product(w, x, exact, n);
    lemma_fair_product(on, whole, m);
    let reach = on.product(whole, m);
    let (r, rn) = (reach.units(), reach.units() * n);
    let wi = w * (2 * i + 1);
    assert(2 * (w * exact) == wi * n) by (nonlinear_arith)
        requires
            exact == i * n + h,
            2 * h == n,
            wi == w * (2 * i + 1),
    ;
    lemma_row_reach(r, rn, wm, w * exact, wi, n);
    assert(0 <= wi <= 508 * n) by (nonlinear_arith)
        requires
            wi == w * (2 * i + 1),
            0 <= w <= 4 * n,
            0 <= i <= 63,
    ;
    lemma_fair_quotient(on, reach, all);
    let q = on.quotient(reach, all).units();
    assert(q * (64 * n) == (64 * q) * n) by (nonlinear_arith);
    lemma_cancelled_count(64 * q, r, n);
    lemma_row_errors(wi, r, q, n);
    assert(wi == (2 * i + 1) * w) by (nonlinear_arith)
        requires
            wi == w * (2 * i + 1),
    ;
}

/// The size of the product that a row is found by.
proof fn lemma_row_product(w: int, x: int, exact: int, n: int)
    requires
        0 < n,
        0 <= w <= 4 * n,
        0 <= exact <= 64 * n,
        0x100_0000 * magnitude(x - exact) <= exact,
    ensures
        0 <= w * x <= 260 * (n * n),
        0x100_0000 * magnitude(w * x - w * exact) <= w * exact,
{
    let off = x - exact;
    assert(w * x - w * exact == off * w) by (nonlinear_arith)
        requires
            off == x - exact,
    ;
    lemma_magnitude(off, w);
    let m = magnitude(off);
    assert(0x100_0000 * (m * w) <= w * exact) by (nonlinear_arith)
        requires
            0x100_0000 * m <= exact,
            0 <= w,
    ;
    assert(0 <= x <= 65 * n);
    assert(0 <= w * x <= 260 * (n * n)) by (nonlinear_arith)
        requires
            0 <= x <= 65 * n,
            0 <= w <= 4 * n,
    ;
}

/// The product that a row is found by, once it is rounded.
proof fn lemma_row_reach(r: int, rn: int, wm: int, exact: int, wi: int, n: int)
    requires
        0 < n,
        rn == r * n,
        0 <= wm,
        0 <= exact,
        2 * exact == wi * n,
        0x100_0000 * magnitude(wm - exact) <= exact,
        PARTS * magnitude(rn - wm) <= 2048 * magnitude(wm) + PARTS * n,
    ensures
        PARTS * magnitude(2 * r - wi) <= 3080 * wi + 2 * PARTS,
{
    assert(17_179_869_184 * magnitude(rn - exact) <= 3080 * exact + 17_179_869_184 * n) by {
        assert(magnitude(rn - exact) <= magnitude(rn - wm) + magnitude(wm - exact));
    }
    let d = 2 * r - wi;
    assert(2 * rn - 2 * exact == d * n) by (nonlinear_arith)
        requires
            rn == r * n,
            2 * exact == wi * n,
            d == 2 * r - wi,
    ;
    lemma_magnitude(d, n);
    let m = magnitude(d);
    assert(m * n <= 2 * magnitude(rn - exact));
    assert(17_179_869_184 * m <= 3080 * wi + 34_359_738_368) by (nonlinear_arith)
        requires
            17_179_869_184 * (m * n) <= 3080 * (wi * n) + 34_359_738_368 * n,
            0 < n,
    {
        assert((17_179_869_184 * m) * n <= (3080 * wi + 34_359_738_368) * n);
    }
}

/// The roundings on the way to a row, added up.
proof fn lemma_row_errors(wi: int, r: int, q: int, n: int)
    requires
        0x1_0000_0000_0000_0000 <= n,
        0 <= wi <= 508 * n,
        PARTS * magnitude(2 * r - wi) <= 3080 * wi + 2 * PARTS,
        PARTS * magnitude(64 * q - r) <= 2048 * magnitude(r) + 128 * PARTS,
    ensures
        500_000 * magnitude(128 * q - wi) <= 128 * n,
{
    let (a, b) = (magnitude(2 * r - wi), magnitude(64 * q - r));
    assert(magnitude(128 * q - wi) <= a + 2 * b);
    assert(2 * magnitude(r) <= wi + a);
    assert(17_179_869_184 * a <= 3080 * wi + 34_359_738_368);
}

/// The sines of some angles, added up.
pub open spec fn sum_of_sines(on: Arithmetic, angles: Seq<Scalar>) -> int
    decreases angles.len(),
{
    if angles.len() == 0 {
        0
    } else {
        sum_of_sines(on, angles.drop_last()) + on.sine(angles.last()).units()
    }
}

/// An angle is in the middle of step `i` of 64 over half a turn, but for little.
pub open spec fn is_mid_step(angle: Scalar, i: int) -> bool {
    let n = one_in_units();
    angle.finite() && 500_000 * magnitude(128 * angle.units() - (2 * i + 1) * Scalar(PI).units()) <= 128 * n
}

/// The sines in the middle of 64 even steps over half a turn add up to what they
/// should: to one over the sine of half a step, which is between 40.74 and 40.76.
pub open spec fn sines_add_up(on: Arithmetic) -> bool {
    forall|angles: Seq<Scalar>|
        #![trigger sum_of_sines(on, angles)]
        angles.len() == 64 && (forall|i: int| 0 <= i < 64 ==> is_mid_step(#[trigger] angles[i], i)) ==> 4074
            * one_in_units() <= 100 * sum_of_sines(on, angles) <= 4076 * one_in_units()
}

/// The first rows of the grid.
spec fn rows(on: Arithmetic, count: nat) -> Seq<Scalar> {
    Seq::new(count, |i: int| row_angle(on, i))
}

/// What the grid adds up over a sphere.
proof fn lemma_sphere_cells(on: Arithmetic, r_min: Scalar, count: nat)
    requires
        count <= 4096,
    ensures
        ({
            let r = r_min.units();
            let (i, j) = (count as int / 64, count as int % 64);
            exact_cells(on, r_min, Seq::empty(), count) == (r * r * r) * (64 * sum_of_sines(on, rows(on, i as nat)) + j
                * on.sine(row_angle(on, i)).units())
        }),
    decreases count,
{
    let r = r_min.units();
    let cube = r * r * r;
    if count == 0 {
        assert(rows(on, 0) =~= Seq::empty());
        assert(cube * (64 * 0 + 0 * on.sine(row_angle(on, 0)).units()) == 0) by (nonlinear_arith);
    } else {
        let k = (count - 1) as nat;
        lemma_sphere_cells(on, r_min, k);
        let (i, j) = (k as int / 64, k as int % 64);
        let (s, x) = (on.sine(row_angle(on, i)).units(), sum_of_sines(on, rows(on, i as nat)));
        assert(exact_cell(on, r_min, Seq::empty(), i, j) == cube * s);
        assert(cube * (64 * x + j * s) + cube * s == cube * (64 * x + (j + 1) * s)) by (nonlinear_arith);
        if j < 63 {
            assert(count as int / 64 == i && count as int % 64 == j + 1);
        } else {
            assert(count as int / 64 == i + 1 && count as int % 64 == 0);
            let more = rows(on, (i + 1) as nat);
            assert(more.drop_last() =~= rows(on, i as nat));
            assert(more.last() == row_angle(on, i));
            let next = on.sine(row_angle(on, i + 1)).units();
            assert(64 * x + 64 * s == 64 * (x + s) + 0 * next) by (nonlinear_arith);
        }
    }
}

/// From the sum over the grid to the volume of a sphere.
proof fn lemma_sphere(v: int, cube: int, s: int, p: int, n: int)
    requires
        0 < n,
        0 <= cube,
        4074 * n <= 100 * s,
        100 * s <= 4076 * n,
        314_159 * n <= 100_000 * p,
        100_000 * p <= 314_160 * n,
        near(v * (12_288 * (n * n * (n * n * n))), (cube * (64 * s)) * (p * (2 * p)), 5_000_000),
    ensures
        100 * magnitude(3 * (v * (n * n * n)) - 4 * (p * cube)) <= 4 * (p * cube),
{
    let (h, z, y, sp) = (n * n, v * (n * n * n), p * cube, s * p);
    assert(v * (12_288 * (n * n * (n * n * n))) == 12_288 * (z * h)) by (nonlinear_arith)
        requires
            z == v * (n * n * n),
            h == n * n,
    ;
    assert((cube * (64 * s)) * (p * (2 * p)) == 128 * (y * sp)) by (nonlinear_arith)
        requires
            y == p * cube,
            sp == s * p,
    ;
    assert(0 <= y) by (nonlinear_arith)
        requires
            y == p * cube,
            0 <= p,
            0 <= cube,
    ;
    assert(1_279_883_766 * h <= 10_000_000 * sp && 10_000_000 * sp <= 1_280_516_160 * h) by (nonlinear_arith)
        requires
            4074 * n <= 100 * s,
            100 * s <= 4076 * n,
            314_159 * n <= 100_000 * p,
            100_000 * p <= 314_160 * n,
            0 < n,
            h == n * n,
            sp == s * p,
    {
        assert((4074 * n) * (314_159 * n) <= (100 * s) * (100_000 * p));
        assert((100 * s) * (100_000 * p) <= (4076 * n) * (314_160 * n));
    }
    let (zh, yh, ysp) = (z * h, y * h, y * sp);
    assert(1_279_883_766 * yh <= 10_000_000 * ysp && 10_000_000 * ysp <= 1_280_516_160 * yh) by (nonlinear_arith)
        requires
            1_279_883_766 * h <= 10_000_000 * sp,
            10_000_000 * sp <= 1_280_516_160 * h,
            0 <= y,
            yh == y * h,
            ysp == y * sp,
    ;
    assert(0 <= yh) by (nonlinear_arith)
        requires
            yh == y * h,
            h == n * n,
            0 <= y,
    ;
    let off = 3 * z - 4 * y;
    assert(off * h == 3 * zh - 4 * yh) by (nonlinear_arith)
        requires
            off == 3 * z - 4 * y,
            zh == z * h,
            yh == y * h,
    ;
    lemma_sphere_linear(zh, yh, ysp, off * h);
    lemma_magnitude(off, h);
    let m = magnitude(off);
    assert(100 * m <= 4 * y) by (nonlinear_arith)
        requires
            100 * (m * h) <= 4 * (y * h),
            h == n * n,
            0 < n,
    {
        assert(0 < h);
        assert((100 * m) * h <= (4 * y) * h);
    }
}

/// The same, without products.
proof fn lemma_sphere_linear(zh: int, yh: int, ysp: int, off: int)
    requires
        0 <= yh,
        1_279_883_766 * yh <= 10_000_000 * ysp,
        10_000_000 * ysp <= 1_280_516_160 * yh,
        near(12_288 * zh, 128 * ysp, 5_000_000),
        off == 3 * zh - 4 * yh,
    ensures
        100 * magnitude(off) <= 4 * yh,
{
}

/// A blob without bumps has the volume of a sphere, four thirds of half a turn
/// times the third power of its radius, but for one part in a hundred.
pub proof fn sphere_has_its_volume(on: Arithmetic, r_min: Scalar)
    requires
        correctly_rounded(on),
        counts_exactly(on),
        sines_add_up(on),
        r_min.finite(),
        0 <= r_min.units(),
        volume_is_full(on, r_min, Seq::empty()),
    ensures
        ({
            let (n, r, p) = (one_in_units(), r_min.units(), Scalar(PI).units());
            let v = volume(on, r_min, Seq::empty()).units();
            100 * magnitude(3 * (v * (n * n * n)) - 4 * (p * (r * r * r))) <= 4 * (p * (r * r * r))
        }),
{
    constants_in_units();
    lemma_turns();
    let (n, r, p) = (one_in_units(), r_min.units(), Scalar(PI).units());
    let all = rows(on, 64);
    assert forall|i: int| 0 <= i < 64 implies is_mid_step(#[trigger] all[i], i) by {
        rows_are_spread_evenly(on, i);
    }
    let s = sum_of_sines(on, all);
    volume_adds_up_grid(on, r_min, Seq::empty());
    lemma_sphere_cells(on, r_min, 4096);
    let (cube, next) = (r * r * r, on.sine(row_angle(on, 64)).units());
    assert(64 * s + 0 * next == 64 * s) by (nonlinear_arith);
    assert(0 <= cube) by (nonlinear_arith)
        requires
            cube == r * r * r,
            0 <= r,
    ;
    lemma_sphere(volume(on, r_min, Seq::empty()).units(), cube, s, p, n);
}

} // verus!
