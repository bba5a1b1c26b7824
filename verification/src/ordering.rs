//! How radius and volume are ordered: what grows with what, and what does not
//! depend on what.
//!
//! Correct rounding keeps order, so that these laws hold of machine numbers as
//! they do of exact ones. Of the sine, the cosine and the exponential each law
//! asks for what it needs.

use vstd::prelude::*;
use crate::bend::weight;
use crate::blob::{alignment, cell, cells, column_angle, height, radius, row_angle, volume, GRID};
use crate::bump::{on_sphere, BumpParams};
use crate::math::{Arithmetic, Vector};
use crate::rounding::{
    constants_in_units, correctly_rounded, one_in_units, product_is_rounded, product_of_zero, product_with_one,
    quotient_by_itself, quotient_is_rounded, rounding_keeps_numbers, rounding_keeps_order, rounding_stays_above,
    sign_of_units, sum_is_rounded, units_and_sign_fix_bits,
};
use crate::scalar::{lemma_rank_orders, Scalar, MINUS_ONE, ONE, PI, TAU, THREE, ZERO};

verus! {

/// Sums are in the order of what is summed.
pub proof fn sums_are_ordered(on: Arithmetic, a: Scalar, b: Scalar, c: Scalar, d: Scalar)
    requires
        correctly_rounded(on),
        a.finite(),
        b.finite(),
        c.finite(),
        d.finite(),
        a.units() + b.units() <= c.units() + d.units(),
    ensures
        on.sum(a, b).at_most(on.sum(c, d)),
{
    assert(sum_is_rounded(on, a, b));
    assert(sum_is_rounded(on, c, d));
    rounding_keeps_order(on.sum(a, b), a.units() + b.units(), 1, on.sum(c, d), c.units() + d.units(), 1);
}

/// Products are in the order of the exact products.
pub proof fn products_are_ordered(on: Arithmetic, a: Scalar, b: Scalar, c: Scalar, d: Scalar)
    requires
        correctly_rounded(on),
        a.finite(),
        b.finite(),
        c.finite(),
        d.finite(),
        a.units() * b.units() <= c.units() * d.units(),
    ensures
        on.product(a, b).at_most(on.product(c, d)),
{
    constants_in_units();
    assert(product_is_rounded(on, a, b));
    assert(product_is_rounded(on, c, d));
    let one = one_in_units();
    let (x, y) = (a.units() * b.units(), c.units() * d.units());
    assert(x * one <= y * one) by (nonlinear_arith)
        requires
            x <= y,
            one > 0,
    ;
    rounding_keeps_order(on.product(a, b), x, one, on.product(c, d), y, one);
}

/// Quotients by one positive number are in the order of what is divided.
pub proof fn quotients_are_ordered(on: Arithmetic, a: Scalar, c: Scalar, b: Scalar)
    requires
        correctly_rounded(on),
        a.finite(),
        c.finite(),
        b.finite(),
        b.units() > 0,
        a.units() <= c.units(),
    ensures
        on.quotient(a, b).at_most(on.quotient(c, b)),
{
    constants_in_units();
    assert(quotient_is_rounded(on, a, b));
    assert(quotient_is_rounded(on, c, b));
    let (one, den) = (one_in_units(), b.units());
    let (x, y) = (a.units() * one, c.units() * one);
    assert(x <= y) by (nonlinear_arith)
        requires
            x == a.units() * one,
            y == c.units() * one,
            a.units() <= c.units(),
            one > 0,
    ;
    assert(x * den <= y * den) by (nonlinear_arith)
        requires
            x <= y,
            den > 0,
    ;
    rounding_keeps_order(on.quotient(a, b), x, den, on.quotient(c, b), y, den);
}

/// A product of two numbers that are not negative is not negative.
proof fn lemma_product_positive(on: Arithmetic, a: Scalar, b: Scalar)
    requires
        correctly_rounded(on),
        a.finite(),
        b.finite(),
        a.units() >= 0,
        b.units() >= 0,
    ensures
        Scalar(ZERO).at_most(on.product(a, b)),
{
    constants_in_units();
    let zero = Scalar(ZERO);
    product_of_zero(on, zero, zero);
    assert(zero.units() * zero.units() <= a.units() * b.units()) by (nonlinear_arith)
        requires
            zero.units() == 0,
            a.units() >= 0,
            b.units() >= 0,
    ;
    products_are_ordered(on, zero, zero, a, b);
}

/// The square and the cube of a number are finite.
pub open spec fn cube_is_finite(on: Arithmetic, r: Scalar) -> bool {
    &&& r.finite()
    &&& on.product(r, r).finite()
    &&& on.product(on.product(r, r), r).finite()
}

/// Cubes are in the order of the numbers, negative ones too.
pub proof fn cubes_are_ordered(on: Arithmetic, r: Scalar, s: Scalar)
    requires
        correctly_rounded(on),
        cube_is_finite(on, r),
        cube_is_finite(on, s),
        r.units() <= s.units(),
    ensures
        on.product(on.product(r, r), r).at_most(on.product(on.product(s, s), s)),
{
    constants_in_units();
    let zero = Scalar(ZERO);
    let (p, q) = (r.units(), s.units());
    let (rr, ss) = (on.product(r, r), on.product(s, s));
    product_of_zero(on, zero, zero);
    assert(zero.units() * zero.units() == 0 && p * p >= 0 && q * q >= 0) by (nonlinear_arith)
        requires
            zero.units() == 0,
    ;
    products_are_ordered(on, zero, zero, r, r);
    products_are_ordered(on, zero, zero, s, s);
    if p >= 0 {
        assert(p * p <= q * q) by (nonlinear_arith)
            requires
                0 <= p <= q,
        ;
        products_are_ordered(on, r, r, s, s);
    } else if q <= 0 {
        assert(q * q <= p * p) by (nonlinear_arith)
            requires
                p <= q <= 0,
        ;
        products_are_ordered(on, s, s, r, r);
    }
    let (x, y) = (rr.units(), ss.units());
    assert(x >= 0 && y >= 0);
    assert(x * p <= y * q) by (nonlinear_arith)
        requires
            x >= 0,
            y >= 0,
            p <= q,
            p >= 0 ==> x <= y,
            p < 0 && q <= 0 ==> y <= x,
    ;
    products_are_ordered(on, rr, r, ss, s);
}

/// Nothing overflows where the radius in a direction is found.
pub open spec fn radius_is_finite(on: Arithmetic, r_min: Scalar, bumps: Seq<BumpParams>, direction: Vector) -> bool
    decreases bumps.len(),
{
    &&& radius(on, r_min, bumps, direction).finite()
    &&& bumps.len() > 0 ==> {
        &&& height(on, bumps.last(), direction).finite()
        &&& radius_is_finite(on, r_min, bumps.drop_last(), direction)
    }
}

/// Nothing overflows in a cell of the volume integral, and the width of the
/// sphere there is not negative.
pub open spec fn cell_is_finite(on: Arithmetic, r_min: Scalar, bumps: Seq<BumpParams>, i: int, j: int) -> bool {
    let width = on.sine(row_angle(on, i));
    &&& radius_is_finite(on, r_min, bumps, cell_direction(on, i, j))
    &&& cube_is_finite(on, radius(on, r_min, bumps, cell_direction(on, i, j)))
    &&& width.finite()
    &&& width.units() >= 0
    &&& cell(on, r_min, bumps, i, j).finite()
}

/// The direction of a cell of the volume integral.
pub open spec fn cell_direction(on: Arithmetic, i: int, j: int) -> Vector {
    on_sphere(on, row_angle(on, i), column_angle(on, j))
}

/// Nothing overflows where the volume of a blob is found, up to the last
/// division, and the steps in the two angles are not negative.
pub open spec fn volume_is_finite(on: Arithmetic, r_min: Scalar, bumps: Seq<BumpParams>) -> bool {
    let d_theta = on.quotient(Scalar(PI), on.integer(GRID));
    let d_phi = on.quotient(Scalar(TAU), on.integer(GRID));
    let total = cells(on, r_min, bumps, (GRID * GRID) as nat);
    &&& forall|i: int, j: int| 0 <= i < GRID && 0 <= j < GRID ==> #[trigger] cell_is_finite(on, r_min, bumps, i, j)
    &&& forall|n: nat| n <= GRID * GRID ==> #[trigger] cells(on, r_min, bumps, n).finite()
    &&& d_theta.finite()
    &&& d_theta.units() >= 0
    &&& d_phi.finite()
    &&& d_phi.units() >= 0
    &&& on.product(total, d_theta).finite()
    &&& on.product(on.product(total, d_theta), d_phi).finite()
}

/// The cell of a blob whose radius is nowhere less is no less.
proof fn lemma_cell_order(
    on: Arithmetic,
    r: Scalar,
    bumps: Seq<BumpParams>,
    s: Scalar,
    more: Seq<BumpParams>,
    i: int,
    j: int,
)
    requires
        correctly_rounded(on),
        cell_is_finite(on, r, bumps, i, j),
        cell_is_finite(on, s, more, i, j),
        radius(on, r, bumps, cell_direction(on, i, j)).units() <= radius(on, s, more, cell_direction(on, i, j)).units(),
    ensures
        cell(on, r, bumps, i, j).units() <= cell(on, s, more, i, j).units(),
{
    let (a, b) = (radius(on, r, bumps, cell_direction(on, i, j)), radius(on, s, more, cell_direction(on, i, j)));
    let width = on.sine(row_angle(on, i));
    cubes_are_ordered(on, a, b);
    let (x, y) = (on.product(on.product(a, a), a), on.product(on.product(b, b), b));
    assert(x.units() * width.units() <= y.units() * width.units()) by (nonlinear_arith)
        requires
            x.units() <= y.units(),
            width.units() >= 0,
    ;
    products_are_ordered(on, x, width, y, width);
}

/// The radius of one blob is nowhere greater than that of another, in the
/// directions of the volume integral.
pub open spec fn nowhere_greater(
    on: Arithmetic,
    r: Scalar,
    bumps: Seq<BumpParams>,
    s: Scalar,
    more: Seq<BumpParams>,
) -> bool {
    forall|i: int, j: int|
        0 <= i < GRID && 0 <= j < GRID ==> radius(on, r, bumps, #[trigger] cell_direction(on, i, j)).units() <= radius(
            on,
            s,
            more,
            cell_direction(on, i, j),
        ).units()
}

/// Sums of cells are in the order of the cells.
proof fn lemma_cells_order(on: Arithmetic, r: Scalar, bumps: Seq<BumpParams>, s: Scalar, more: Seq<BumpParams>, n: nat)
    requires
        correctly_rounded(on),
        volume_is_finite(on, r, bumps),
        volume_is_finite(on, s, more),
        nowhere_greater(on, r, bumps, s, more),
        n <= GRID * GRID,
    ensures
        cells(on, r, bumps, n).units() <= cells(on, s, more, n).units(),
    decreases n,
{
    if n > 0 {
        let k = (n - 1) as nat;
        let (i, j) = (k as int / GRID as int, k as int % GRID as int);
        lemma_cells_order(on, r, bumps, s, more, k);
        assert(0 <= i < GRID && 0 <= j < GRID);
        assert(cell_is_finite(on, r, bumps, i, j));
        assert(cell_is_finite(on, s, more, i, j));
        lemma_cell_order(on, r, bumps, s, more, i, j);
        assert(cells(on, r, bumps, k).finite() && cells(on, s, more, k).finite());
        sums_are_ordered(
            on,
            cells(on, r, bumps, k),
            cell(on, r, bumps, i, j),
            cells(on, s, more, k),
            cell(on, s, more, i, j),
        );
    }
}

/// A blob whose radius is nowhere less has no less volume.
pub proof fn volume_follows_radius(
    on: Arithmetic,
    r: Scalar,
    bumps: Seq<BumpParams>,
    s: Scalar,
    more: Seq<BumpParams>,
)
    requires
        correctly_rounded(on),
        volume_is_finite(on, r, bumps),
        volume_is_finite(on, s, more),
        nowhere_greater(on, r, bumps, s, more),
    ensures
        volume(on, r, bumps).at_most(volume(on, s, more)),
{
    let all = (GRID * GRID) as nat;
    lemma_cells_order(on, r, bumps, s, more, all);
    let (a, b) = (cells(on, r, bumps, all), cells(on, s, more, all));
    assert(a.finite() && b.finite());
    let d_theta = on.quotient(Scalar(PI), on.integer(GRID));
    let d_phi = on.quotient(Scalar(TAU), on.integer(GRID));
    assert(a.units() * d_theta.units() <= b.units() * d_theta.units()) by (nonlinear_arith)
        requires
            a.units() <= b.units(),
            d_theta.units() >= 0,
    ;
    products_are_ordered(on, a, d_theta, b, d_theta);
    let (x, y) = (on.product(a, d_theta), on.product(b, d_theta));
    assert(x.units() * d_phi.units() <= y.units() * d_phi.units()) by (nonlinear_arith)
        requires
            x.units() <= y.units(),
            d_phi.units() >= 0,
    ;
    products_are_ordered(on, x, d_phi, y, d_phi);
    assert(Scalar(THREE).units() > 0) by {
        sign_of_units(Scalar(THREE));
    }
    quotients_are_ordered(on, on.product(x, d_phi), on.product(y, d_phi), Scalar(THREE));
}

/// The radius in every direction grows with that of the sphere.
pub proof fn radius_grows_with_sphere(on: Arithmetic, r: Scalar, s: Scalar, bumps: Seq<BumpParams>, direction: Vector)
    requires
        correctly_rounded(on),
        r.at_most(s),
        radius_is_finite(on, r, bumps, direction),
        radius_is_finite(on, s, bumps, direction),
    ensures
        radius(on, r, bumps, direction).at_most(radius(on, s, bumps, direction)),
    decreases bumps.len(),
{
    if bumps.len() > 0 {
        let others = bumps.drop_last();
        radius_grows_with_sphere(on, r, s, others, direction);
        let h = height(on, bumps.last(), direction);
        assert(radius_is_finite(on, r, others, direction));
        assert(radius_is_finite(on, s, others, direction));
        sums_are_ordered(on, radius(on, r, others, direction), h, radius(on, s, others, direction), h);
    }
}

/// The volume grows with the radius of the sphere.
pub proof fn volume_grows_with_sphere(on: Arithmetic, r: Scalar, s: Scalar, bumps: Seq<BumpParams>)
    requires
        correctly_rounded(on),
        r.at_most(s),
        volume_is_finite(on, r, bumps),
        volume_is_finite(on, s, bumps),
    ensures
        volume(on, r, bumps).at_most(volume(on, s, bumps)),
{
    assert forall|i: int, j: int| 0 <= i < GRID && 0 <= j < GRID implies radius(
        on,
        r,
        bumps,
        #[trigger] cell_direction(on, i, j),
    ).units() <= radius(on, s, bumps, cell_direction(on, i, j)).units() by {
        assert(cell_is_finite(on, r, bumps, i, j));
        assert(cell_is_finite(on, s, bumps, i, j));
        radius_grows_with_sphere(on, r, s, bumps, cell_direction(on, i, j));
    }
    volume_follows_radius(on, r, bumps, s, bumps);
}

/// The exponentials that weigh a bump in a direction are finite and of the sign
/// that exponentials have.
pub open spec fn weight_is_sound(on: Arithmetic, bump: BumpParams, direction: Vector) -> bool {
    let aligned = alignment(on, direction, bump.points_along(on));
    let (here, peak) = (on.exponential(on.product(bump.concentration, aligned)), on.exponential(bump.concentration));
    &&& here.finite()
    &&& here.units() >= 0
    &&& peak.finite()
    &&& peak.units() > 0
    &&& weight(on, bump.concentration, aligned).finite()
}

/// A bump of an amplitude that is not negative lowers the surface nowhere.
pub proof fn height_is_positive(on: Arithmetic, bump: BumpParams, direction: Vector)
    requires
        correctly_rounded(on),
        bump.amplitude.finite(),
        Scalar(ZERO).at_most(bump.amplitude),
        weight_is_sound(on, bump, direction),
    ensures
        Scalar(ZERO).at_most(height(on, bump, direction)),
{
    constants_in_units();
    let aligned = alignment(on, direction, bump.points_along(on));
    let (here, peak) = (on.exponential(on.product(bump.concentration, aligned)), on.exponential(bump.concentration));
    assert(quotient_is_rounded(on, here, peak));
    assert(Scalar(ZERO).units() * peak.units() <= here.units() * one_in_units()) by (nonlinear_arith)
        requires
            Scalar(ZERO).units() == 0,
            here.units() >= 0,
            one_in_units() > 0,
    ;
    rounding_stays_above(on.quotient(here, peak), here.units() * one_in_units(), peak.units(), Scalar(ZERO));
    lemma_product_positive(on, bump.amplitude, weight(on, bump.concentration, aligned));
}

/// A bump of an amplitude that is not negative raises the surface nowhere by
/// more than its amplitude.
pub proof fn height_is_at_most_amplitude(on: Arithmetic, bump: BumpParams, direction: Vector)
    requires
        correctly_rounded(on),
        exponential_rises(on),
        rises_towards(on, bump, direction),
    ensures
        height(on, bump, direction).at_most(bump.amplitude),
{
    constants_in_units();
    let one = Scalar(ONE);
    let (a, k) = (bump.amplitude, bump.concentration);
    let aligned = alignment(on, direction, bump.points_along(on));
    sign_of_units(Scalar(MINUS_ONE));
    assert(aligned.at_most(one));
    assert(k.units() * aligned.units() <= k.units() * one.units()) by (nonlinear_arith)
        requires
            k.units() >= 0,
            aligned.units() <= one.units(),
    ;
    assert(aligned.finite()) by {
        lemma_rank_orders(one, aligned);
        lemma_rank_orders(aligned, Scalar(MINUS_ONE));
    }
    products_are_ordered(on, k, aligned, k, one);
    product_with_one(on, k);
    let (here, peak) = (on.exponential(on.product(k, aligned)), on.exponential(k));
    assert(here.at_most(peak));
    quotients_are_ordered(on, here, peak, peak);
    quotient_by_itself(on, peak);
    let share = weight(on, k, aligned);
    assert(a.units() * share.units() <= a.units() * one.units()) by (nonlinear_arith)
        requires
            a.units() >= 0,
            share.units() <= one.units(),
    ;
    products_are_ordered(on, a, share, a, one);
    product_with_one(on, a);
}

/// Putting a bump of an amplitude that is not negative on a blob never shrinks
/// its radius.
pub proof fn bump_never_shrinks_radius(
    on: Arithmetic,
    r_min: Scalar,
    bumps: Seq<BumpParams>,
    bump: BumpParams,
    direction: Vector,
)
    requires
        correctly_rounded(on),
        bump.amplitude.finite(),
        Scalar(ZERO).at_most(bump.amplitude),
        weight_is_sound(on, bump, direction),
        radius_is_finite(on, r_min, bumps.push(bump), direction),
    ensures
        radius(on, r_min, bumps, direction).at_most(radius(on, r_min, bumps.push(bump), direction)),
{
    constants_in_units();
    assert(bumps.push(bump).drop_last() =~= bumps);
    assert(radius_is_finite(on, r_min, bumps, direction));
    height_is_positive(on, bump, direction);
    let (r, h) = (radius(on, r_min, bumps, direction), height(on, bump, direction));
    assert(sum_is_rounded(on, r, h));
    rounding_stays_above(on.sum(r, h), r.units() + h.units(), 1, r);
}

/// The radius of the sphere, raised by the amplitude of each bump in turn.
pub open spec fn peaks(on: Arithmetic, r_min: Scalar, bumps: Seq<BumpParams>) -> Scalar
    decreases bumps.len(),
{
    if bumps.len() == 0 {
        r_min
    } else {
        on.sum(peaks(on, r_min, bumps.drop_last()), bumps.last().amplitude)
    }
}

/// Nothing overflows where the amplitudes are added up.
pub open spec fn peaks_are_finite(on: Arithmetic, r_min: Scalar, bumps: Seq<BumpParams>) -> bool
    decreases bumps.len(),
{
    &&& peaks(on, r_min, bumps).finite()
    &&& bumps.len() > 0 ==> peaks_are_finite(on, r_min, bumps.drop_last())
}

/// A bump has an amplitude and a concentration that are not negative, and its
/// alignment with a direction is a number.
pub open spec fn rises_towards(on: Arithmetic, bump: BumpParams, direction: Vector) -> bool {
    &&& bump.amplitude.finite()
    &&& Scalar(ZERO).at_most(bump.amplitude)
    &&& bump.concentration.finite()
    &&& Scalar(ZERO).at_most(bump.concentration)
    &&& !alignment(on, direction, bump.points_along(on)).nan()
    &&& weight_is_sound(on, bump, direction)
}

/// The surface is nowhere higher than the sphere with all amplitudes on it.
pub proof fn radius_is_at_most_peaks(on: Arithmetic, r_min: Scalar, bumps: Seq<BumpParams>, direction: Vector)
    requires
        correctly_rounded(on),
        exponential_rises(on),
        forall|i: int| 0 <= i < bumps.len() ==> rises_towards(on, #[trigger] bumps[i], direction),
        radius_is_finite(on, r_min, bumps, direction),
        peaks_are_finite(on, r_min, bumps),
    ensures
        radius(on, r_min, bumps, direction).at_most(peaks(on, r_min, bumps)),
    decreases bumps.len(),
{
    if bumps.len() > 0 {
        let (others, last) = (bumps.drop_last(), bumps.last());
        assert forall|i: int| 0 <= i < others.len() implies rises_towards(on, #[trigger] others[i], direction) by {
            assert(others[i] == bumps[i]);
        }
        assert(bumps[bumps.len() - 1] == last);
        radius_is_at_most_peaks(on, r_min, others, direction);
        height_is_at_most_amplitude(on, last, direction);
        assert(radius_is_finite(on, r_min, others, direction));
        assert(peaks_are_finite(on, r_min, others));
        sums_are_ordered(
            on,
            radius(on, r_min, others, direction),
            height(on, last, direction),
            peaks(on, r_min, others),
            last.amplitude,
        );
    }
}

/// Bumps of amplitudes that are not negative leave the surface nowhere below
/// the sphere.
pub proof fn radius_is_at_least_sphere(on: Arithmetic, r_min: Scalar, bumps: Seq<BumpParams>, direction: Vector)
    requires
        correctly_rounded(on),
        forall|i: int|
            0 <= i < bumps.len() ==> {
                &&& (#[trigger] bumps[i]).amplitude.finite()
                &&& Scalar(ZERO).at_most(bumps[i].amplitude)
                &&& weight_is_sound(on, bumps[i], direction)
            },
        radius_is_finite(on, r_min, bumps, direction),
    ensures
        r_min.at_most(radius(on, r_min, bumps, direction)),
    decreases bumps.len(),
{
    if bumps.len() > 0 {
        let (others, last) = (bumps.drop_last(), bumps.last());
        assert(others.push(last) =~= bumps);
        assert forall|i: int| 0 <= i < others.len() implies {
            &&& (#[trigger] others[i]).amplitude.finite()
            &&& Scalar(ZERO).at_most(others[i].amplitude)
            &&& weight_is_sound(on, others[i], direction)
        } by {
            assert(others[i] == bumps[i]);
        }
        assert(bumps[bumps.len() - 1] == last);
        radius_is_at_least_sphere(on, r_min, others, direction);
        bump_never_shrinks_radius(on, r_min, others, last, direction);
    }
}

/// Putting a bump of an amplitude that is not negative on a blob never shrinks
/// its volume.
pub proof fn bump_never_shrinks_volume(on: Arithmetic, r_min: Scalar, bumps: Seq<BumpParams>, bump: BumpParams)
    requires
        correctly_rounded(on),
        bump.amplitude.finite(),
        Scalar(ZERO).at_most(bump.amplitude),
        forall|i: int, j: int|
            0 <= i < GRID && 0 <= j < GRID ==> weight_is_sound(on, bump, #[trigger] cell_direction(on, i, j)),
        volume_is_finite(on, r_min, bumps),
        volume_is_finite(on, r_min, bumps.push(bump)),
    ensures
        volume(on, r_min, bumps).at_most(volume(on, r_min, bumps.push(bump))),
{
    assert forall|i: int, j: int| 0 <= i < GRID && 0 <= j < GRID implies radius(
        on,
        r_min,
        bumps,
        #[trigger] cell_direction(on, i, j),
    ).units() <= radius(on, r_min, bumps.push(bump), cell_direction(on, i, j)).units() by {
        assert(cell_is_finite(on, r_min, bumps.push(bump), i, j));
        bump_never_shrinks_radius(on, r_min, bumps, bump, cell_direction(on, i, j));
    }
    volume_follows_radius(on, r_min, bumps, r_min, bumps.push(bump));
}

/// Sine and cosine are exact at zero.
pub open spec fn exact_at_zero(on: Arithmetic) -> bool {
    &&& on.sine(Scalar(ZERO)) == Scalar(ZERO)
    &&& on.cosine(Scalar(ZERO)) == Scalar(ONE)
}

/// Sine and cosine of an angle are finite, and the cosine is not the zero with
/// a negative sign.
pub open spec fn angle_is_sound(on: Arithmetic, angle: Scalar) -> bool {
    &&& on.sine(angle).finite()
    &&& on.cosine(angle).finite()
    &&& on.cosine(angle).units() == 0 ==> !on.cosine(angle).negative()
}

/// Adding a zero to a number that is not the negative zero changes nothing.
proof fn lemma_zero_adds_nothing(on: Arithmetic, zero: Scalar, a: Scalar)
    requires
        correctly_rounded(on),
        zero.finite(),
        zero.units() == 0,
        a.finite(),
        a.units() == 0 ==> !a.negative(),
    ensures
        on.sum(zero, a) == a,
        on.sum(a, zero) == a,
{
    assert(sum_is_rounded(on, zero, a));
    assert(sum_is_rounded(on, a, zero));
    rounding_keeps_numbers(on.sum(zero, a), a.units(), 1, a);
    rounding_keeps_numbers(on.sum(a, zero), a.units(), 1, a);
    sign_of_units(a);
    sign_of_units(on.sum(zero, a));
    sign_of_units(on.sum(a, zero));
    units_and_sign_fix_bits(on.sum(zero, a), a);
    units_and_sign_fix_bits(on.sum(a, zero), a);
}

/// A direction and the vertical axis are aligned by the cosine of the angle
/// between them.
pub proof fn alignment_with_vertical(on: Arithmetic, bump: BumpParams, theta: Scalar, phi: Scalar)
    requires
        correctly_rounded(on),
        exact_at_zero(on),
        bump.theta == Scalar(ZERO),
        angle_is_sound(on, bump.phi),
        angle_is_sound(on, theta),
        angle_is_sound(on, phi),
        on_sphere(on, theta, phi)[0].finite(),
        on_sphere(on, theta, phi)[2].finite(),
    ensures
        alignment(on, on_sphere(on, theta, phi), bump.points_along(on)) == on.cosine(theta).clamped(
            Scalar(MINUS_ONE),
            Scalar(ONE),
        ),
{
    constants_in_units();
    let (a, b) = (on_sphere(on, theta, phi), bump.points_along(on));
    let y = on.cosine(theta);
    product_of_zero(on, Scalar(ZERO), on.cosine(bump.phi));
    product_of_zero(on, Scalar(ZERO), on.sine(bump.phi));
    sign_of_units(b[0]);
    sign_of_units(b[2]);
    assert(b[1] == Scalar(ONE) && a[1] == y);
    product_of_zero(on, a[0], b[0]);
    product_of_zero(on, a[2], b[2]);
    sign_of_units(on.product(a[0], b[0]));
    sign_of_units(on.product(a[2], b[2]));
    product_with_one(on, y);
    lemma_zero_adds_nothing(on, on.product(a[0], b[0]), y);
    lemma_zero_adds_nothing(on, on.product(a[2], b[2]), y);
}

/// A blob whose bumps all point along the vertical axis is round about it: its
/// radius does not depend on the angle around the axis.
pub proof fn vertical_bumps_are_round(
    on: Arithmetic,
    r_min: Scalar,
    bumps: Seq<BumpParams>,
    theta: Scalar,
    phi: Scalar,
    psi: Scalar,
)
    requires
        correctly_rounded(on),
        exact_at_zero(on),
        forall|i: int| 0 <= i < bumps.len() ==> (#[trigger] bumps[i]).theta == Scalar(ZERO),
        forall|i: int| 0 <= i < bumps.len() ==> angle_is_sound(on, (#[trigger] bumps[i]).phi),
        angle_is_sound(on, theta),
        angle_is_sound(on, phi),
        angle_is_sound(on, psi),
        on_sphere(on, theta, phi)[0].finite(),
        on_sphere(on, theta, phi)[2].finite(),
        on_sphere(on, theta, psi)[0].finite(),
        on_sphere(on, theta, psi)[2].finite(),
    ensures
        radius(on, r_min, bumps, on_sphere(on, theta, phi)) == radius(on, r_min, bumps, on_sphere(on, theta, psi)),
    decreases bumps.len(),
{
    if bumps.len() > 0 {
        let others = bumps.drop_last();
        assert forall|i: int| 0 <= i < others.len() implies (#[trigger] others[i]).theta == Scalar(ZERO)
            && angle_is_sound(on, others[i].phi) by {
            assert(others[i] == bumps[i]);
        }
        vertical_bumps_are_round(on, r_min, others, theta, phi, psi);
        assert(bumps.last() == bumps[bumps.len() - 1]);
        alignment_with_vertical(on, bumps.last(), theta, phi);
        alignment_with_vertical(on, bumps.last(), theta, psi);
    }
}

/// The cosine falls from zero to half a turn.
pub open spec fn cosine_falls(on: Arithmetic) -> bool {
    forall|a: Scalar, b: Scalar|
        #![trigger on.cosine(a), on.cosine(b)]
        Scalar(ZERO).at_most(a) && a.at_most(b) && b.at_most(Scalar(PI)) ==> on.cosine(b).at_most(on.cosine(a))
}

/// The exponential never falls.
pub open spec fn exponential_rises(on: Arithmetic) -> bool {
    forall|a: Scalar, b: Scalar|
        #![trigger on.exponential(a), on.exponential(b)]
        a.at_most(b) ==> on.exponential(a).at_most(on.exponential(b))
}

/// On a blob with one bump, which points along the vertical axis and has an
/// amplitude that is not negative, the radius never grows on the way from the
/// bump to the point opposite.
pub proof fn radius_falls_away_from_bump(
    on: Arithmetic,
    r_min: Scalar,
    bump: BumpParams,
    near: Scalar,
    far: Scalar,
    phi: Scalar,
)
    requires
        correctly_rounded(on),
        exact_at_zero(on),
        cosine_falls(on),
        exponential_rises(on),
        bump.theta == Scalar(ZERO),
        bump.amplitude.finite(),
        Scalar(ZERO).at_most(bump.amplitude),
        bump.concentration.finite(),
        Scalar(ZERO).at_most(bump.concentration),
        Scalar(ZERO).at_most(near),
        near.at_most(far),
        far.at_most(Scalar(PI)),
        angle_is_sound(on, bump.phi),
        angle_is_sound(on, near),
        angle_is_sound(on, far),
        angle_is_sound(on, phi),
        on_sphere(on, near, phi)[0].finite(),
        on_sphere(on, near, phi)[2].finite(),
        on_sphere(on, far, phi)[0].finite(),
        on_sphere(on, far, phi)[2].finite(),
        weight_is_sound(on, bump, on_sphere(on, near, phi)),
        weight_is_sound(on, bump, on_sphere(on, far, phi)),
        radius_is_finite(on, r_min, seq![bump], on_sphere(on, near, phi)),
        radius_is_finite(on, r_min, seq![bump], on_sphere(on, far, phi)),
    ensures
        radius(on, r_min, seq![bump], on_sphere(on, far, phi)).at_most(
            radius(on, r_min, seq![bump], on_sphere(on, near, phi)),
        ),
{
    constants_in_units();
    let (d, e) = (on_sphere(on, near, phi), on_sphere(on, far, phi));
    let (low, high) = (Scalar(MINUS_ONE), Scalar(ONE));
    alignment_with_vertical(on, bump, near, phi);
    alignment_with_vertical(on, bump, far, phi);
    let (p, q) = (on.cosine(near).clamped(low, high), on.cosine(far).clamped(low, high));
    assert(on.cosine(far).at_most(on.cosine(near)));
    sign_of_units(low);
    assert(q.at_most(p));
    assert(p.finite() && q.finite());
    let k = bump.concentration;
    assert(k.units() * q.units() <= k.units() * p.units()) by (nonlinear_arith)
        requires
            k.units() >= 0,
            q.units() <= p.units(),
    ;
    products_are_ordered(on, k, q, k, p);
    let peak = on.exponential(k);
    assert(on.exponential(on.product(k, q)).at_most(on.exponential(on.product(k, p))));
    quotients_are_ordered(on, on.exponential(on.product(k, q)), on.exponential(on.product(k, p)), peak);
    let (v, w) = (weight(on, k, p), weight(on, k, q));
    let a = bump.amplitude;
    assert(a.units() * w.units() <= a.units() * v.units()) by (nonlinear_arith)
        requires
            a.units() >= 0,
            w.units() <= v.units(),
    ;
    products_are_ordered(on, a, w, a, v);
    let one = seq![bump];
    let none = one.drop_last();
    assert(one.last() == bump && none.len() == 0);
    assert(radius_is_finite(on, r_min, none, d));
    assert(radius(on, r_min, none, d) == r_min && radius(on, r_min, none, e) == r_min);
    assert(radius(on, r_min, one, d) == on.sum(r_min, height(on, bump, d)));
    assert(radius(on, r_min, one, e) == on.sum(r_min, height(on, bump, e)));
    sums_are_ordered(on, r_min, height(on, bump, e), r_min, height(on, bump, d));
}

} // verus!
