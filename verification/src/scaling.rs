//! How the blob behaves when all its lengths are scaled.
//!
//! Scaling the radius and the amplitudes scales every radius alike, the volume
//! by the third power, and leaves the bend limit as it is. Rounded arithmetic
//! follows suit wherever scaling commutes with the operations that occur. By
//! two it does, as far as nothing overflows or underflows.

use vstd::prelude::*;
use crate::bend::{ghost_point, sample_angle, weight, HALVINGS, SAMPLES};
use crate::blob::{
    alignment, cell, cells, column_angle, correction, height, radius, row_angle, scaled, volume, BlobParams, GRID,
};
use crate::bump::{on_sphere, BumpParams};
use crate::math::{Arithmetic, Vector};
use crate::rounding::{
    correctly_rounded, product_of_twice, product_of_zero, product_with_one, quotient_by_itself, quotient_of_twice,
    quotient_of_zero, sign_of_units, sum_of_twice, twice, twice_is_double,
};
use crate::scalar::{Scalar, FRAC_PI_2, HALF, ONE, PI, TAU, THOUSANDTH, THREE, ZERO};

verus! {

/// The bumps with their amplitudes scaled.
pub open spec fn raised(up: spec_fn(Scalar) -> Scalar, bumps: Seq<BumpParams>) -> Seq<BumpParams> {
    Seq::new(bumps.len(), |i: int| BumpParams { amplitude: up(bumps[i].amplitude), ..bumps[i] })
}

/// A number scaled three times over.
pub open spec fn cubed(up: spec_fn(Scalar) -> Scalar, a: Scalar) -> Scalar {
    up(up(up(a)))
}

/// How high a bump is in a direction, as a share of its amplitude.
pub open spec fn share(on: Arithmetic, bump: BumpParams, direction: Vector) -> Scalar {
    weight(on, bump.concentration, alignment(on, direction, bump.points_along(on)))
}

/// Scaling commutes with the operations that make up the radius in a direction.
pub open spec fn radius_carries(
    on: Arithmetic,
    up: spec_fn(Scalar) -> Scalar,
    r_min: Scalar,
    bumps: Seq<BumpParams>,
    direction: Vector,
) -> bool {
    forall|i: int|
        0 <= i < bumps.len() ==> {
            let bump = #[trigger] bumps[i];
            let below = radius(on, r_min, bumps.take(i), direction);
            let rise = height(on, bump, direction);
            &&& on.product(up(bump.amplitude), share(on, bump, direction)) == up(rise)
            &&& on.sum(up(below), up(rise)) == up(on.sum(below, rise))
        }
}

/// Scaling commutes with the operations that make up a cell of the volume.
pub open spec fn cell_carries(
    on: Arithmetic,
    up: spec_fn(Scalar) -> Scalar,
    r_min: Scalar,
    bumps: Seq<BumpParams>,
    i: int,
    j: int,
) -> bool {
    let theta = row_angle(on, i);
    let direction = on_sphere(on, theta, column_angle(on, j));
    let r = radius(on, r_min, bumps, direction);
    let square = on.product(r, r);
    let cube = on.product(square, r);
    &&& radius_carries(on, up, r_min, bumps, direction)
    &&& on.product(up(r), up(r)) == up(up(square))
    &&& on.product(up(up(square)), up(r)) == cubed(up, cube)
    &&& on.product(cubed(up, cube), on.sine(theta)) == cubed(up, on.product(cube, on.sine(theta)))
}

/// Scaling commutes with adding one more cell to those before it.
pub open spec fn cells_carry(
    on: Arithmetic,
    up: spec_fn(Scalar) -> Scalar,
    r_min: Scalar,
    bumps: Seq<BumpParams>,
    n: int,
) -> bool {
    let before = cells(on, r_min, bumps, n as nat);
    let next = cell(on, r_min, bumps, n / GRID as int, n % GRID as int);
    on.sum(cubed(up, before), cubed(up, next)) == cubed(up, on.sum(before, next))
}

/// Scaling commutes with the operations that make up the volume.
pub open spec fn volume_carries(
    on: Arithmetic,
    up: spec_fn(Scalar) -> Scalar,
    r_min: Scalar,
    bumps: Seq<BumpParams>,
) -> bool {
    let total = cells(on, r_min, bumps, (GRID * GRID) as nat);
    let d_theta = on.quotient(Scalar(PI), on.integer(GRID));
    let d_phi = on.quotient(Scalar(TAU), on.integer(GRID));
    let strip = on.product(total, d_theta);
    let solid = on.product(strip, d_phi);
    &&& cubed(up, Scalar(ZERO)) == Scalar(ZERO)
    &&& forall|i: int, j: int|
        0 <= i < GRID && 0 <= j < GRID ==> #[trigger] cell_carries(on, up, r_min, bumps, i, j)
    &&& forall|n: int| 0 <= n < GRID * GRID ==> #[trigger] cells_carry(on, up, r_min, bumps, n)
    &&& on.product(cubed(up, total), d_theta) == cubed(up, strip)
    &&& on.product(cubed(up, strip), d_phi) == cubed(up, solid)
    &&& on.quotient(cubed(up, solid), Scalar(THREE)) == cubed(up, on.quotient(solid, Scalar(THREE)))
}

/// Where scaling commutes with what occurs, the radius of the scaled blob is
/// the scaled radius.
pub proof fn radius_scales(
    on: Arithmetic,
    up: spec_fn(Scalar) -> Scalar,
    r_min: Scalar,
    bumps: Seq<BumpParams>,
    direction: Vector,
)
    requires
        radius_carries(on, up, r_min, bumps, direction),
    ensures
        radius(on, up(r_min), raised(up, bumps), direction) == up(radius(on, r_min, bumps, direction)),
    decreases bumps.len(),
{
    if bumps.len() > 0 {
        let k = bumps.len() - 1;
        let fewer = bumps.drop_last();
        assert forall|i: int| 0 <= i < fewer.len() implies ({
            let bump = #[trigger] fewer[i];
            let below = radius(on, r_min, fewer.take(i), direction);
            let rise = height(on, bump, direction);
            &&& on.product(up(bump.amplitude), share(on, bump, direction)) == up(rise)
            &&& on.sum(up(below), up(rise)) == up(on.sum(below, rise))
        }) by {
            assert(bumps[i] == fewer[i]);
            assert(bumps.take(i) =~= fewer.take(i));
        }
        radius_scales(on, up, r_min, fewer, direction);
        assert(raised(up, bumps).drop_last() =~= raised(up, fewer));
        assert(bumps.take(k) =~= fewer);
        assert(bumps[k] == bumps.last());
        let high = raised(up, bumps).last();
        assert(high == BumpParams { amplitude: up(bumps[k].amplitude), ..bumps[k] });
        assert(height(on, high, direction) == on.product(up(bumps[k].amplitude), share(on, bumps[k], direction)));
    }
}

/// Where scaling commutes with what occurs, the cells scale by the third power.
proof fn lemma_cells_scale(
    on: Arithmetic,
    up: spec_fn(Scalar) -> Scalar,
    r_min: Scalar,
    bumps: Seq<BumpParams>,
    n: nat,
)
    requires
        volume_carries(on, up, r_min, bumps),
        n <= GRID * GRID,
    ensures
        cells(on, up(r_min), raised(up, bumps), n) == cubed(up, cells(on, r_min, bumps, n)),
    decreases n,
{
    if n > 0 {
        let k = n - 1;
        lemma_cells_scale(on, up, r_min, bumps, k as nat);
        let (i, j) = (k / GRID as int, k % GRID as int);
        assert(cell_carries(on, up, r_min, bumps, i, j));
        assert(cells_carry(on, up, r_min, bumps, k));
        let direction = on_sphere(on, row_angle(on, i), column_angle(on, j));
        radius_scales(on, up, r_min, bumps, direction);
    }
}

/// Where scaling commutes with what occurs, the volume of the scaled blob is
/// the volume, scaled by the third power.
pub proof fn volume_scales(on: Arithmetic, up: spec_fn(Scalar) -> Scalar, r_min: Scalar, bumps: Seq<BumpParams>)
    requires
        volume_carries(on, up, r_min, bumps),
    ensures
        volume(on, up(r_min), raised(up, bumps)) == cubed(up, volume(on, r_min, bumps)),
{
    lemma_cells_scale(on, up, r_min, bumps, (GRID * GRID) as nat);
}

/// Conserving the volume gives the blob the volume it is to keep, as far as the
/// arithmetic is exact on it: multiplying by the factor commutes with the
/// operations that occur, and its third power takes the volume to the target.
pub proof fn conserved_volume_is_target(on: Arithmetic, before: BlobParams, after: BlobParams)
    requires
        after.conserved_from(on, before),
        !volume(on, before.r_min, before.bumps@).at_most(Scalar(ZERO)),
        ({
            let current = volume(on, before.r_min, before.bumps@);
            let factor = correction(on, before.target_volume, current);
            let up = |a: Scalar| on.product(a, factor);
            &&& volume_carries(on, up, before.r_min, before.bumps@)
            &&& cubed(up, current) == before.target_volume
        }),
    ensures
        volume(on, after.r_min, after.bumps@) == after.target_volume,
        after.target_volume == before.target_volume,
{
    let current = volume(on, before.r_min, before.bumps@);
    let factor = correction(on, before.target_volume, current);
    let up = |a: Scalar| on.product(a, factor);
    volume_scales(on, up, before.r_min, before.bumps@);
    assert(raised(up, before.bumps@) =~= scaled(on, before.bumps@, factor));
}

/// A radius that is not a number, or an amplitude, makes the radius in every
/// direction none.
proof fn lemma_radius_not_a_number(on: Arithmetic, r_min: Scalar, bumps: Seq<BumpParams>, direction: Vector)
    requires
        correctly_rounded(on),
        r_min.nan() || exists|i: int| 0 <= i < bumps.len() && (#[trigger] bumps[i]).amplitude.nan(),
    ensures
        radius(on, r_min, bumps, direction).nan(),
    decreases bumps.len(),
{
    if bumps.len() > 0 {
        let fewer = bumps.drop_last();
        if bumps.last().amplitude.nan() {
            assert(height(on, bumps.last(), direction).nan());
        } else {
            if !r_min.nan() {
                let i = choose|i: int| 0 <= i < bumps.len() && (#[trigger] bumps[i]).amplitude.nan();
                assert(fewer[i].amplitude.nan());
            }
            lemma_radius_not_a_number(on, r_min, fewer, direction);
        }
    }
}

/// Such a blob has no volume that is a number.
proof fn lemma_volume_not_a_number(on: Arithmetic, r_min: Scalar, bumps: Seq<BumpParams>)
    requires
        correctly_rounded(on),
        r_min.nan() || exists|i: int| 0 <= i < bumps.len() && (#[trigger] bumps[i]).amplitude.nan(),
    ensures
        volume(on, r_min, bumps).nan(),
{
    let k = GRID * GRID - 1;
    let (i, j) = (k / GRID as int, k % GRID as int);
    let direction = on_sphere(on, row_angle(on, i), column_angle(on, j));
    lemma_radius_not_a_number(on, r_min, bumps, direction);
    assert(cell(on, r_min, bumps, i, j).nan());
    assert(cells(on, r_min, bumps, (k + 1) as nat).nan());
}

/// A blob that has just been made keeps its shape, bit for bit, when its volume
/// is conserved, provided that volume is finite: the factor is one.
pub proof fn new_blob_is_settled(on: Arithmetic, before: BlobParams, after: BlobParams)
    requires
        correctly_rounded(on),
        on.cube_root(Scalar(ONE)) == Scalar(ONE),
        before.target_volume == volume(on, before.r_min, before.bumps@),
        before.target_volume.finite(),
        after.conserved_from(on, before),
    ensures
        after.r_min == before.r_min,
        after.bumps@ == before.bumps@,
        after.target_volume == before.target_volume,
        after.bend_mode == before.bend_mode,
{
    let current = before.target_volume;
    let bumps = before.bumps@;
    if !current.at_most(Scalar(ZERO)) {
        sign_of_units(Scalar(ZERO));
        quotient_by_itself(on, current);
        if before.r_min.nan() {
            lemma_volume_not_a_number(on, before.r_min, bumps);
        }
        product_with_one(on, before.r_min);
        assert forall|i: int| 0 <= i < bumps.len() implies on.product(
            (#[trigger] bumps[i]).amplitude,
            Scalar(ONE),
        ) == bumps[i].amplitude by {
            if bumps[i].amplitude.nan() {
                lemma_volume_not_a_number(on, before.r_min, bumps);
            }
            product_with_one(on, bumps[i].amplitude);
        }
        assert(scaled(on, bumps, Scalar(ONE)) =~= bumps);
    }
}

/// Far enough from infinity to be doubled many times.
pub open spec fn mild(a: Scalar) -> bool {
    a.unsigned() < 0x7000_0000
}

/// Mild, and far enough from zero for doubling to be exact.
pub open spec fn ample(a: Scalar) -> bool {
    0x100_0000 <= a.unsigned() < 0x7000_0000
}

/// A sum that neither overflows nor underflows.
pub open spec fn sum_fits(on: Arithmetic, a: Scalar, b: Scalar) -> bool {
    mild(a) && mild(b) && (on.sum(a, b).units() == 0 || ample(on.sum(a, b)))
}

/// A difference that neither overflows nor underflows.
pub open spec fn difference_fits(on: Arithmetic, a: Scalar, b: Scalar) -> bool {
    mild(a) && mild(b) && (on.difference(a, b).units() == 0 || ample(on.difference(a, b)))
}

/// A product that neither overflows nor underflows.
pub open spec fn product_fits(on: Arithmetic, a: Scalar, b: Scalar) -> bool {
    mild(a) && mild(b) && (a.units() == 0 || b.units() == 0 || ample(on.product(a, b)))
}

/// A quotient that neither overflows nor underflows.
pub open spec fn quotient_fits(on: Arithmetic, a: Scalar, b: Scalar) -> bool {
    mild(a) && mild(b) && b.units() > 0 && (a.units() == 0 || ample(on.quotient(a, b)))
}

/// A number doubled `n` times.
pub open spec fn doubled(a: Scalar, n: nat) -> Scalar
    decreases n,
{
    if n == 0 {
        a
    } else {
        twice(doubled(a, (n - 1) as nat))
    }
}

/// What doubling some times does to a number.
proof fn lemma_doubled(a: Scalar, n: nat)
    requires
        mild(a),
        n <= 16,
    ensures
        doubled(a, n).unsigned() < 0x7000_0000 + 0x80_0000 * n,
        a.unsigned() <= doubled(a, n).unsigned(),
        a.units() == 0 <==> doubled(a, n).units() == 0,
        a.units() < 0 <==> doubled(a, n).units() < 0,
        doubled(a, n).negative() == a.negative(),
    decreases n,
{
    if n > 0 {
        lemma_doubled(a, (n - 1) as nat);
        twice_is_double(doubled(a, (n - 1) as nat));
    }
}

/// A zero is a zero after doubling.
proof fn lemma_doubled_zero(a: Scalar, n: nat)
    requires
        a.units() == 0,
    ensures
        doubled(a, n) == a,
    decreases n,
{
    sign_of_units(a);
    if n > 0 {
        lemma_doubled_zero(a, (n - 1) as nat);
    }
}

/// Doubling commutes with a sum that fits.
proof fn lemma_sum_doubled(on: Arithmetic, a: Scalar, b: Scalar, n: nat)
    requires
        correctly_rounded(on),
        sum_fits(on, a, b),
        n <= 16,
    ensures
        on.sum(doubled(a, n), doubled(b, n)) == doubled(on.sum(a, b), n),
    decreases n,
{
    if n > 0 {
        let m = (n - 1) as nat;
        lemma_sum_doubled(on, a, b, m);
        lemma_doubled(a, m);
        lemma_doubled(b, m);
        sign_of_units(on.sum(a, b));
        lemma_doubled(on.sum(a, b), m);
        sum_of_twice(on, doubled(a, m), doubled(b, m));
    }
}

/// Doubling commutes with a difference that fits.
proof fn lemma_difference_doubled(on: Arithmetic, a: Scalar, b: Scalar, n: nat)
    requires
        correctly_rounded(on),
        difference_fits(on, a, b),
        n <= 16,
    ensures
        on.difference(doubled(a, n), doubled(b, n)) == doubled(on.difference(a, b), n),
{
    assert(on.difference(a, b) == on.sum(a, b.negated()));
    lemma_sum_doubled(on, a, b.negated(), n);
    lemma_doubled(b, n);
    lemma_doubled_negated(b, n);
    assert(on.difference(doubled(a, n), doubled(b, n)) == on.sum(doubled(a, n), doubled(b, n).negated()));
}

/// Doubling commutes with a flip of the sign.
proof fn lemma_doubled_negated(a: Scalar, n: nat)
    requires
        mild(a),
        n <= 16,
    ensures
        doubled(a.negated(), n) == doubled(a, n).negated(),
    decreases n,
{
    if n > 0 {
        let m = (n - 1) as nat;
        lemma_doubled_negated(a, m);
        lemma_doubled(a, m);
    }
}

/// The factors of a product that fits can be doubled some times each: the
/// product is doubled as often as both together.
proof fn lemma_product_doubled(on: Arithmetic, a: Scalar, b: Scalar, m: nat, n: nat)
    requires
        correctly_rounded(on),
        product_fits(on, a, b),
        m + n <= 16,
    ensures
        on.product(doubled(a, m), doubled(b, n)) == doubled(on.product(a, b), m + n),
    decreases m + n,
{
    let p = on.product(a, b);
    if m > 0 || n > 0 {
        let (k, l) = if m > 0 {
            ((m - 1) as nat, n)
        } else {
            (m, (n - 1) as nat)
        };
        lemma_product_doubled(on, a, b, k, l);
        lemma_doubled(a, k);
        lemma_doubled(b, l);
        if a.units() != 0 && b.units() != 0 {
            lemma_doubled(p, k + l);
        }
        product_of_twice(on, doubled(a, k), doubled(b, l));
    }
}

/// Doubling commutes with a quotient that fits.
proof fn lemma_quotient_doubled(on: Arithmetic, a: Scalar, b: Scalar, n: nat)
    requires
        correctly_rounded(on),
        quotient_fits(on, a, b),
        n <= 16,
    ensures
        on.quotient(doubled(a, n), b) == doubled(on.quotient(a, b), n),
    decreases n,
{
    if n > 0 {
        let m = (n - 1) as nat;
        lemma_quotient_doubled(on, a, b, m);
        lemma_doubled(a, m);
        if a.units() != 0 {
            lemma_doubled(on.quotient(a, b), m);
        }
        quotient_of_twice(on, doubled(a, m), b);
    }
}

/// Nothing overflows or underflows in the radius in a direction.
pub open spec fn radius_fits(on: Arithmetic, r_min: Scalar, bumps: Seq<BumpParams>, direction: Vector) -> bool {
    forall|i: int|
        0 <= i < bumps.len() ==> {
            let bump = #[trigger] bumps[i];
            &&& product_fits(on, bump.amplitude, share(on, bump, direction))
            &&& sum_fits(on, radius(on, r_min, bumps.take(i), direction), height(on, bump, direction))
        }
}

/// Nothing overflows or underflows in a cell of the volume.
pub open spec fn cell_fits(on: Arithmetic, r_min: Scalar, bumps: Seq<BumpParams>, i: int, j: int) -> bool {
    let theta = row_angle(on, i);
    let direction = on_sphere(on, theta, column_angle(on, j));
    let r = radius(on, r_min, bumps, direction);
    let square = on.product(r, r);
    &&& radius_fits(on, r_min, bumps, direction)
    &&& product_fits(on, r, r)
    &&& product_fits(on, square, r)
    &&& product_fits(on, on.product(square, r), on.sine(theta))
}

/// Adding one more cell neither overflows nor underflows.
pub open spec fn cells_fit(on: Arithmetic, r_min: Scalar, bumps: Seq<BumpParams>, n: int) -> bool {
    sum_fits(
        on,
        cells(on, r_min, bumps, n as nat),
        cell(on, r_min, bumps, n / GRID as int, n % GRID as int),
    )
}

/// Nothing overflows or underflows in the volume.
pub open spec fn volume_fits(on: Arithmetic, r_min: Scalar, bumps: Seq<BumpParams>) -> bool {
    let total = cells(on, r_min, bumps, (GRID * GRID) as nat);
    let d_theta = on.quotient(Scalar(PI), on.integer(GRID));
    let d_phi = on.quotient(Scalar(TAU), on.integer(GRID));
    let strip = on.product(total, d_theta);
    &&& forall|i: int, j: int| 0 <= i < GRID && 0 <= j < GRID ==> #[trigger] cell_fits(on, r_min, bumps, i, j)
    &&& forall|n: int| 0 <= n < GRID * GRID ==> #[trigger] cells_fit(on, r_min, bumps, n)
    &&& product_fits(on, total, d_theta)
    &&& product_fits(on, strip, d_phi)
    &&& quotient_fits(on, on.product(strip, d_phi), Scalar(THREE))
}

/// Doubling, as a scaling.
pub open spec fn doubling() -> spec_fn(Scalar) -> Scalar {
    |a: Scalar| twice(a)
}

/// Doubling three times over.
proof fn lemma_cubed_is_doubled(a: Scalar)
    ensures
        doubled(a, 0) == a,
        doubled(a, 1) == twice(a),
        doubled(a, 2) == twice(twice(a)),
        doubled(a, 3) == cubed(doubling(), a),
{
    reveal_with_fuel(doubled, 4);
}

/// A cell that fits commutes with doubling.
proof fn lemma_cell_carries_twice(on: Arithmetic, r_min: Scalar, bumps: Seq<BumpParams>, i: int, j: int)
    requires
        correctly_rounded(on),
        cell_fits(on, r_min, bumps, i, j),
    ensures
        cell_carries(on, doubling(), r_min, bumps, i, j),
{
    let theta = row_angle(on, i);
    let direction = on_sphere(on, theta, column_angle(on, j));
    let r = radius(on, r_min, bumps, direction);
    let square = on.product(r, r);
    let cube = on.product(square, r);
    lemma_radius_carries_twice(on, r_min, bumps, direction);
    lemma_product_doubled(on, r, r, 1, 1);
    lemma_product_doubled(on, square, r, 2, 1);
    lemma_product_doubled(on, cube, on.sine(theta), 3, 0);
    lemma_cubed_is_doubled(r);
    lemma_cubed_is_doubled(square);
    lemma_cubed_is_doubled(cube);
    lemma_cubed_is_doubled(on.sine(theta));
    lemma_cubed_is_doubled(on.product(cube, on.sine(theta)));
}

/// A radius that fits commutes with doubling.
proof fn lemma_radius_carries_twice(on: Arithmetic, r_min: Scalar, bumps: Seq<BumpParams>, direction: Vector)
    requires
        correctly_rounded(on),
        radius_fits(on, r_min, bumps, direction),
    ensures
        radius_carries(on, doubling(), r_min, bumps, direction),
{
    let up = doubling();
    assert forall|i: int| 0 <= i < bumps.len() implies ({
        let bump = #[trigger] bumps[i];
        let below = radius(on, r_min, bumps.take(i), direction);
        let rise = height(on, bump, direction);
        &&& on.product(up(bump.amplitude), share(on, bump, direction)) == up(rise)
        &&& on.sum(up(below), up(rise)) == up(on.sum(below, rise))
    }) by {
        let bump = bumps[i];
        let below = radius(on, r_min, bumps.take(i), direction);
        let rise = height(on, bump, direction);
        lemma_product_doubled(on, bump.amplitude, share(on, bump, direction), 1, 0);
        lemma_sum_doubled(on, below, rise, 1);
        lemma_cubed_is_doubled(bump.amplitude);
        lemma_cubed_is_doubled(share(on, bump, direction));
        lemma_cubed_is_doubled(below);
        lemma_cubed_is_doubled(rise);
        lemma_cubed_is_doubled(on.sum(below, rise));
    }
}

/// Twice the radius and twice the amplitudes make eight times the volume, bit
/// for bit, provided that nothing overflows or underflows.
pub proof fn doubling_multiplies_volume_by_eight(on: Arithmetic, r_min: Scalar, bumps: Seq<BumpParams>)
    requires
        correctly_rounded(on),
        volume_fits(on, r_min, bumps),
    ensures
        volume(on, twice(r_min), raised(doubling(), bumps)) == twice(twice(twice(volume(on, r_min, bumps)))),
        volume(on, twice(r_min), raised(doubling(), bumps)).units() == 8 * volume(on, r_min, bumps).units(),
{
    let up = doubling();
    let total = cells(on, r_min, bumps, (GRID * GRID) as nat);
    let d_theta = on.quotient(Scalar(PI), on.integer(GRID));
    let d_phi = on.quotient(Scalar(TAU), on.integer(GRID));
    let strip = on.product(total, d_theta);
    let solid = on.product(strip, d_phi);
    let v = on.quotient(solid, Scalar(THREE));
    sign_of_units(Scalar(ZERO));
    lemma_doubled_zero(Scalar(ZERO), 3);
    lemma_cubed_is_doubled(Scalar(ZERO));
    assert forall|i: int, j: int| 0 <= i < GRID && 0 <= j < GRID implies #[trigger] cell_carries(
        on,
        up,
        r_min,
        bumps,
        i,
        j,
    ) by {
        assert(cell_fits(on, r_min, bumps, i, j));
        lemma_cell_carries_twice(on, r_min, bumps, i, j);
    }
    assert forall|n: int| 0 <= n < GRID * GRID implies #[trigger] cells_carry(on, up, r_min, bumps, n) by {
        assert(cells_fit(on, r_min, bumps, n));
        let before = cells(on, r_min, bumps, n as nat);
        let next = cell(on, r_min, bumps, n / GRID as int, n % GRID as int);
        lemma_sum_doubled(on, before, next, 3);
        lemma_cubed_is_doubled(before);
        lemma_cubed_is_doubled(next);
        lemma_cubed_is_doubled(on.sum(before, next));
    }
    lemma_product_doubled(on, total, d_theta, 3, 0);
    lemma_product_doubled(on, strip, d_phi, 3, 0);
    lemma_quotient_doubled(on, solid, Scalar(THREE), 3);
    lemma_cubed_is_doubled(total);
    lemma_cubed_is_doubled(strip);
    lemma_cubed_is_doubled(solid);
    lemma_cubed_is_doubled(v);
    lemma_cubed_is_doubled(d_theta);
    lemma_cubed_is_doubled(d_phi);
    volume_scales(on, up, r_min, bumps);
    lemma_volume_is_mild(on, r_min, bumps);
    twice_is_double(v);
    twice_is_double(twice(v));
    twice_is_double(twice(twice(v)));
}

/// A volume that fits is mild.
proof fn lemma_volume_is_mild(on: Arithmetic, r_min: Scalar, bumps: Seq<BumpParams>)
    requires
        correctly_rounded(on),
        volume_fits(on, r_min, bumps),
    ensures
        mild(volume(on, r_min, bumps)),
{
    let v = volume(on, r_min, bumps);
    let total = cells(on, r_min, bumps, (GRID * GRID) as nat);
    let d_theta = on.quotient(Scalar(PI), on.integer(GRID));
    let d_phi = on.quotient(Scalar(TAU), on.integer(GRID));
    let solid = on.product(on.product(total, d_theta), d_phi);
    if solid.units() == 0 {
        quotient_of_zero(on, solid, Scalar(THREE));
        sign_of_units(v);
    }
}

/// The bump at twice its height.
pub open spec fn heightened(bump: BumpParams) -> BumpParams {
    BumpParams { amplitude: twice(bump.amplitude), ..bump }
}

/// Nothing overflows or underflows where the side of the ghost point is found.
#[verifier::opaque]
pub open spec fn side_fits(on: Arithmetic, bump: BumpParams, r_min: Scalar, theta: Scalar, bend_angle: Scalar) -> bool {
    let a = bump.amplitude;
    let f = weight(on, bump.concentration, on.cosine(theta));
    let turn = on.product(bend_angle, f);
    let fall = on.product(on.product(bump.concentration.negated(), on.sine(theta)), f);
    let turn_slope = on.product(bend_angle, fall);
    let (foot_x, foot_y) = (on.product(on.sine(theta), r_min), on.product(on.cosine(theta), r_min));
    let (tip_x, tip_y) = (on.product(on.sine(turn), a), on.product(on.cosine(turn), a));
    let back = on.product(on.sine(theta).negated(), r_min);
    let (px, py) = bump.outline(on, r_min, theta, bend_angle);
    let (dpx, dpy) = bump.outline_slope(on, r_min, theta, bend_angle);
    let (gx, gy) = ghost_point(on, r_min, bend_angle);
    let (x, y) = (on.difference(px, gx), on.difference(py, gy));
    &&& product_fits(on, on.sine(theta), r_min)
    &&& product_fits(on, on.cosine(theta), r_min)
    &&& product_fits(on, on.sine(theta).negated(), r_min)
    &&& product_fits(on, on.sine(turn), a)
    &&& product_fits(on, on.cosine(turn), a)
    &&& sum_fits(on, foot_x, tip_x)
    &&& sum_fits(on, foot_y, tip_y)
    &&& product_fits(on, tip_y, turn_slope)
    &&& product_fits(on, tip_x, turn_slope)
    &&& sum_fits(on, foot_y, on.product(tip_y, turn_slope))
    &&& difference_fits(on, back, on.product(tip_x, turn_slope))
    &&& product_fits(on, on.sine(bend_angle).negated(), r_min)
    &&& product_fits(on, r_min, on.difference(Scalar(ONE), on.cosine(bend_angle)))
    &&& difference_fits(on, px, gx)
    &&& difference_fits(on, py, gy)
    &&& product_fits(on, x, dpy)
    &&& product_fits(on, y, dpx)
    &&& difference_fits(on, on.product(x, dpy), on.product(y, dpx))
}

/// A blob of twice the size has four times the side.
proof fn lemma_side_doubled(on: Arithmetic, bump: BumpParams, r_min: Scalar, theta: Scalar, bend_angle: Scalar)
    requires
        correctly_rounded(on),
        side_fits(on, bump, r_min, theta, bend_angle),
    ensures
        heightened(bump).side(on, twice(r_min), theta, bend_angle) == doubled(
            bump.side(on, r_min, theta, bend_angle),
            2,
        ),
{
    reveal(side_fits);
    let a = bump.amplitude;
    let f = weight(on, bump.concentration, on.cosine(theta));
    let turn = on.product(bend_angle, f);
    let fall = on.product(on.product(bump.concentration.negated(), on.sine(theta)), f);
    let turn_slope = on.product(bend_angle, fall);
    let (foot_x, foot_y) = (on.product(on.sine(theta), r_min), on.product(on.cosine(theta), r_min));
    let (tip_x, tip_y) = (on.product(on.sine(turn), a), on.product(on.cosine(turn), a));
    let back = on.product(on.sine(theta).negated(), r_min);
    let (px, py) = bump.outline(on, r_min, theta, bend_angle);
    let (dpx, dpy) = bump.outline_slope(on, r_min, theta, bend_angle);
    let (gx, gy) = ghost_point(on, r_min, bend_angle);
    let (x, y) = (on.difference(px, gx), on.difference(py, gy));
    assert forall|c: Scalar| #[trigger] doubled(c, 0) == c && doubled(c, 1) == twice(c) by {
        lemma_cubed_is_doubled(c);
    }
    let opening = on.difference(Scalar(ONE), on.cosine(bend_angle));
    lemma_product_doubled(on, on.sine(theta), r_min, 0, 1);
    lemma_product_doubled(on, on.cosine(theta), r_min, 0, 1);
    lemma_product_doubled(on, on.sine(theta).negated(), r_min, 0, 1);
    lemma_product_doubled(on, on.sine(turn), a, 0, 1);
    lemma_product_doubled(on, on.cosine(turn), a, 0, 1);
    lemma_sum_doubled(on, foot_x, tip_x, 1);
    lemma_sum_doubled(on, foot_y, tip_y, 1);
    lemma_product_doubled(on, tip_y, turn_slope, 1, 0);
    lemma_product_doubled(on, tip_x, turn_slope, 1, 0);
    lemma_sum_doubled(on, foot_y, on.product(tip_y, turn_slope), 1);
    lemma_difference_doubled(on, back, on.product(tip_x, turn_slope), 1);
    lemma_product_doubled(on, on.sine(bend_angle).negated(), r_min, 0, 1);
    lemma_product_doubled(on, r_min, opening, 1, 0);
    lemma_difference_doubled(on, px, gx, 1);
    lemma_difference_doubled(on, py, gy, 1);
    lemma_product_doubled(on, x, dpy, 1, 1);
    lemma_product_doubled(on, y, dpx, 1, 1);
    lemma_difference_doubled(on, on.product(x, dpy), on.product(y, dpx), 2);
    let big = heightened(bump);
    let large = twice(r_min);
    assert(doubled(on.sine(theta), 0) == on.sine(theta));
    assert(doubled(on.cosine(theta), 0) == on.cosine(theta));
    assert(doubled(on.sine(theta).negated(), 0) == on.sine(theta).negated());
    assert(doubled(on.sine(turn), 0) == on.sine(turn));
    assert(doubled(on.cosine(turn), 0) == on.cosine(turn));
    assert(doubled(turn_slope, 0) == turn_slope);
    assert(doubled(on.sine(bend_angle).negated(), 0) == on.sine(bend_angle).negated());
    assert(doubled(opening, 0) == opening);
    assert(doubled(r_min, 1) == twice(r_min) && doubled(a, 1) == twice(a)) by {
        lemma_cubed_is_doubled(r_min);
        lemma_cubed_is_doubled(a);
    }
    assert(big.outline(on, large, theta, bend_angle) == (doubled(px, 1), doubled(py, 1)));
    assert(big.outline_slope(on, large, theta, bend_angle) == (doubled(dpx, 1), doubled(dpy, 1)));
    assert(ghost_point(on, large, bend_angle) == (doubled(gx, 1), doubled(gy, 1)));
}

/// A bend that the search for the limit tries out.
pub open spec fn tried(on: Arithmetic, bump: BumpParams, r_min: Scalar, bend_angle: Scalar) -> bool {
    ||| bend_angle == Scalar(THOUSANDTH)
    ||| bend_angle == Scalar(FRAC_PI_2)
    ||| exists|steps: nat|
        {
            let (lo, hi) = #[trigger] bump.bracket(on, r_min, steps);
            steps < HALVINGS && bend_angle == on.product(on.sum(lo, hi), Scalar(HALF))
        }
}

/// Nothing overflows or underflows at a sample.
#[verifier::opaque]
pub open spec fn sample_fits(on: Arithmetic, bump: BumpParams, r_min: Scalar, bend_angle: Scalar, i: int) -> bool {
    side_fits(on, bump, r_min, sample_angle(on, i), bend_angle)
}

/// Nothing overflows or underflows where two samples are held together.
#[verifier::opaque]
pub open spec fn step_fits(on: Arithmetic, bump: BumpParams, r_min: Scalar, bend_angle: Scalar, i: int) -> bool {
    product_fits(
        on,
        bump.side(on, r_min, sample_angle(on, i - 1), bend_angle),
        bump.side(on, r_min, sample_angle(on, i), bend_angle),
    )
}

/// Nothing overflows or underflows where a bend is tried out.
pub open spec fn trial_fits(on: Arithmetic, bump: BumpParams, r_min: Scalar, bend_angle: Scalar) -> bool {
    &&& forall|i: int|
        0 <= i <= SAMPLES ==> #[trigger] sample_fits(on, bump, r_min, bend_angle, i)
    &&& forall|i: int| 1 <= i <= SAMPLES ==> #[trigger] step_fits(on, bump, r_min, bend_angle, i)
}

/// Nothing overflows or underflows in the search for the bend limit.
pub open spec fn bend_fits(on: Arithmetic, bump: BumpParams, r_min: Scalar) -> bool {
    forall|bend_angle: Scalar| #[trigger]
        tried(on, bump, r_min, bend_angle) ==> trial_fits(on, bump, r_min, bend_angle)
}

/// Doubling two numbers twice each keeps the sign of their product.
proof fn lemma_sign_doubled(on: Arithmetic, s: Scalar, t: Scalar)
    requires
        correctly_rounded(on),
        product_fits(on, s, t),
    ensures
        on.product(doubled(s, 2), doubled(t, 2)).below(Scalar(ZERO)) == on.product(s, t).below(Scalar(ZERO)),
{
    let p = on.product(s, t);
    lemma_product_doubled(on, s, t, 2, 2);
    sign_of_units(Scalar(ZERO));
    if s.units() == 0 || t.units() == 0 {
        product_of_zero(on, s, t);
        lemma_doubled_zero(p, 4);
    } else {
        lemma_doubled(p, 4);
    }
}

/// A blob of twice the size has the ghost point change sides at the same
/// samples.
proof fn lemma_crosses_doubled(on: Arithmetic, bump: BumpParams, r_min: Scalar, bend_angle: Scalar, i: int)
    requires
        correctly_rounded(on),
        sample_fits(on, bump, r_min, bend_angle, i - 1),
        sample_fits(on, bump, r_min, bend_angle, i),
        step_fits(on, bump, r_min, bend_angle, i),
    ensures
        heightened(bump).crosses(on, twice(r_min), bend_angle, i) == bump.crosses(on, r_min, bend_angle, i),
{
    reveal(sample_fits);
    let (from, to) = (sample_angle(on, i - 1), sample_angle(on, i));
    lemma_side_doubled(on, bump, r_min, from, bend_angle);
    lemma_side_doubled(on, bump, r_min, to, bend_angle);
    reveal(step_fits);
    lemma_sign_doubled(on, bump.side(on, r_min, from, bend_angle), bump.side(on, r_min, to, bend_angle));
}

/// Two outlines whose ghost points change sides at the same samples fold alike.
proof fn lemma_folds_agree(on: Arithmetic, a: BumpParams, r: Scalar, b: BumpParams, s: Scalar, bend_angle: Scalar)
    requires
        forall|i: int|
            1 <= i <= SAMPLES ==> #[trigger] a.crosses(on, r, bend_angle, i) == b.crosses(on, s, bend_angle, i),
    ensures
        a.folds(on, r, bend_angle) == b.folds(on, s, bend_angle),
{
    if a.folds(on, r, bend_angle) {
        let i = choose|i: int| 1 <= i <= SAMPLES && #[trigger] a.crosses(on, r, bend_angle, i);
        assert(b.crosses(on, s, bend_angle, i));
    }
    if b.folds(on, s, bend_angle) {
        let i = choose|i: int| 1 <= i <= SAMPLES && #[trigger] b.crosses(on, s, bend_angle, i);
        assert(a.crosses(on, r, bend_angle, i));
    }
}

/// A blob of twice the size folds at the same bends.
proof fn lemma_folds_doubled(on: Arithmetic, bump: BumpParams, r_min: Scalar, bend_angle: Scalar)
    requires
        correctly_rounded(on),
        trial_fits(on, bump, r_min, bend_angle),
    ensures
        heightened(bump).folds(on, twice(r_min), bend_angle) == bump.folds(on, r_min, bend_angle),
{
    assert forall|i: int| 1 <= i <= SAMPLES implies #[trigger] heightened(bump).crosses(on, twice(r_min), bend_angle, i)
        == bump.crosses(on, r_min, bend_angle, i) by {
        lemma_crosses_doubled(on, bump, r_min, bend_angle, i);
    }
    lemma_folds_agree(on, heightened(bump), twice(r_min), bump, r_min, bend_angle);
}

/// A blob of twice the size is bisected alike.
proof fn lemma_bracket_doubled(on: Arithmetic, bump: BumpParams, r_min: Scalar, steps: nat)
    requires
        correctly_rounded(on),
        bend_fits(on, bump, r_min),
        steps <= HALVINGS,
    ensures
        heightened(bump).bracket(on, twice(r_min), steps) == bump.bracket(on, r_min, steps),
    decreases steps,
{
    if steps > 0 {
        let before = (steps - 1) as nat;
        lemma_bracket_doubled(on, bump, r_min, before);
        let (lo, hi) = bump.bracket(on, r_min, before);
        let mid = on.product(on.sum(lo, hi), Scalar(HALF));
        assert(tried(on, bump, r_min, mid));
        lemma_folds_doubled(on, bump, r_min, mid);
    }
}

/// The bend limit does not depend on the size of the blob: twice the amplitude
/// on twice the radius may bend as far, provided that nothing overflows or
/// underflows.
pub proof fn bend_limit_ignores_size(on: Arithmetic, bump: BumpParams, r_min: Scalar)
    requires
        correctly_rounded(on),
        bend_fits(on, bump, r_min),
    ensures
        heightened(bump).bend_limit(on, twice(r_min)) == bump.bend_limit(on, r_min),
{
    assert(tried(on, bump, r_min, Scalar(THOUSANDTH)));
    assert(tried(on, bump, r_min, Scalar(FRAC_PI_2)));
    lemma_folds_doubled(on, bump, r_min, Scalar(THOUSANDTH));
    lemma_folds_doubled(on, bump, r_min, Scalar(FRAC_PI_2));
    lemma_bracket_doubled(on, bump, r_min, HALVINGS as nat);
}

} // verus!
