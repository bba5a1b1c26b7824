//! The blob: a sphere with bumps, and the volume that it keeps.

use vstd::prelude::*;
use crate::bend::weight;
use crate::bump::{on_sphere, BumpParams};
use crate::math::{computes, Arithmetic, Math, Vector};
use crate::scalar::{
    Scalar, EIGHT, FRAC_PI_2, HALF, MINUS_ONE, ONE, PI, TAU, THREE, THREE_TENTHS, ZERO,
};

verus! {

/// Steps of the volume integral in each of the two angles.
pub const GRID: usize = 64;

/// The parameters of the blob.
pub struct BlobParams {
    /// Radius of the sphere without bumps.
    pub r_min: Scalar,
    /// The bumps on it.
    pub bumps: Vec<BumpParams>,
    /// The volume that it is to keep.
    pub target_volume: Scalar,
    /// 0 = Ghost Sphere, 1 = Joint Rotation, 2 = Simple Translation
    pub bend_mode: u32,
}

/// The cosine of the angle between two directions, kept from straying out of
/// range by rounding.
pub open spec fn alignment(on: Arithmetic, a: Vector, b: Vector) -> Scalar {
    let dot = on.sum(on.sum(on.product(a[0], b[0]), on.product(a[1], b[1])), on.product(a[2], b[2]));
    dot.clamped(Scalar(MINUS_ONE), Scalar(ONE))
}

/// What a bump adds to the radius in a direction.
pub open spec fn height(on: Arithmetic, bump: BumpParams, direction: Vector) -> Scalar {
    let aligned = alignment(on, direction, bump.points_along(on));
    on.product(bump.amplitude, weight(on, bump.concentration, aligned))
}

/// The radius in a direction: that of the sphere, raised by each bump in turn.
pub open spec fn radius(on: Arithmetic, r_min: Scalar, bumps: Seq<BumpParams>, direction: Vector) -> Scalar
    decreases bumps.len(),
{
    if bumps.len() == 0 {
        r_min
    } else {
        on.sum(radius(on, r_min, bumps.drop_last(), direction), height(on, bumps.last(), direction))
    }
}

/// Row `i` of the volume integral: the middle of the step.
pub open spec fn row_angle(on: Arithmetic, i: int) -> Scalar {
    on.quotient(on.product(Scalar(PI), on.sum(on.integer(i as usize), Scalar(HALF))), on.integer(GRID))
}

/// Column `j` of the volume integral.
pub open spec fn column_angle(on: Arithmetic, j: int) -> Scalar {
    on.quotient(on.product(Scalar(TAU), on.integer(j as usize)), on.integer(GRID))
}

/// The integrand at a row and a column: the cube of the radius, weighed by
/// the width of the sphere there.
pub open spec fn cell(on: Arithmetic, r_min: Scalar, bumps: Seq<BumpParams>, i: int, j: int) -> Scalar {
    let theta = row_angle(on, i);
    let r = radius(on, r_min, bumps, on_sphere(on, theta, column_angle(on, j)));
    on.product(on.product(on.product(r, r), r), on.sine(theta))
}

/// The sum of the first `n` cells, row by row.
pub open spec fn cells(on: Arithmetic, r_min: Scalar, bumps: Seq<BumpParams>, n: nat) -> Scalar
    decreases n,
{
    if n == 0 {
        Scalar(ZERO)
    } else {
        let k = n - 1;
        on.sum(cells(on, r_min, bumps, k as nat), cell(on, r_min, bumps, k / GRID as int, k % GRID as int))
    }
}

/// The volume of a blob, by its integral over the two angles.
pub open spec fn volume(on: Arithmetic, r_min: Scalar, bumps: Seq<BumpParams>) -> Scalar {
    let d_theta = on.quotient(Scalar(PI), on.integer(GRID));
    let d_phi = on.quotient(Scalar(TAU), on.integer(GRID));
    let total = cells(on, r_min, bumps, (GRID * GRID) as nat);
    on.quotient(on.product(on.product(total, d_theta), d_phi), Scalar(THREE))
}

/// The factor that brings a volume back to the one it is to be.
pub open spec fn correction(on: Arithmetic, target: Scalar, current: Scalar) -> Scalar {
    on.cube_root(on.quotient(target, current))
}

/// The bumps with their amplitudes multiplied by a factor.
pub open spec fn scaled(on: Arithmetic, bumps: Seq<BumpParams>, factor: Scalar) -> Seq<BumpParams> {
    Seq::new(
        bumps.len(),
        |i: int| BumpParams { amplitude: on.product(bumps[i].amplitude, factor), ..bumps[i] },
    )
}

/// The radius of the blob in the direction of two angles.
pub fn eval_r_cpu<M: Math>(math: &M, r_min: Scalar, bumps: &[BumpParams], theta: Scalar, phi: Scalar) -> (r: Scalar)
    ensures
        bumps@.len() == 0 ==> r == r_min,
        forall|on: Arithmetic| #[trigger]
            computes(math, on) ==> r == radius(on, r_min, bumps@, on_sphere(on, theta, phi)),
{
    let across = math.sin(theta);
    let x = math.mul(across, math.cos(phi));
    let y = math.cos(theta);
    let z = math.mul(across, math.sin(phi));
    let mut r = r_min;
    let mut i: usize = 0;
    assert(bumps@.take(0) =~= Seq::<BumpParams>::empty());
    while i < bumps.len()
        invariant
            i <= bumps@.len(),
            bumps@.len() == 0 ==> r == r_min,
            forall|on: Arithmetic| #[trigger]
                computes(math, on) ==> [x, y, z] == on_sphere(on, theta, phi),
            forall|on: Arithmetic| #[trigger]
                computes(math, on) ==> r == radius(on, r_min, bumps@.take(i as int), on_sphere(on, theta, phi)),
        decreases bumps@.len() - i,
    {
        let bump = &bumps[i];
        let d = bump.direction(math);
        let dot = math.add(math.add(math.mul(x, d[0]), math.mul(y, d[1])), math.mul(z, d[2]));
        proof {
            lemma_unit_range();
        }
        let aligned = dot.clamp(Scalar(MINUS_ONE), Scalar(ONE));
        let share = math.div(math.exp(math.mul(bump.concentration, aligned)), math.exp(bump.concentration));
        r = math.add(r, math.mul(bump.amplitude, share));
        proof {
            let seen = bumps@.take(i + 1);
            assert(seen.drop_last() =~= bumps@.take(i as int));
            assert(seen.last() == bumps@[i as int]);
            assert([x, y, z][0] == x && [x, y, z][1] == y && [x, y, z][2] == z);
        }
        i = i + 1;
    }
    assert(bumps@.take(i as int) =~= bumps@);
    r
}

/// The clamping range of a cosine is not empty.
proof fn lemma_unit_range()
    ensures
        Scalar(MINUS_ONE).at_most(Scalar(ONE)),
{
    vstd::arithmetic::power2::lemma_pow2_pos(126);
    assert(Scalar(ONE).unsigned() == 0x3f80_0000);
    assert(Scalar(MINUS_ONE).unsigned() == 0x3f80_0000);
}

/// The volume of a blob.
pub fn compute_volume<M: Math>(math: &M, r_min: Scalar, bumps: &[BumpParams]) -> (r: Scalar)
    ensures
        forall|on: Arithmetic| #[trigger] computes(math, on) ==> r == volume(on, r_min, bumps@),
{
    let mut total = Scalar(ZERO);
    let mut i: usize = 0;
    while i < GRID
        invariant
            i <= GRID,
            forall|on: Arithmetic| #[trigger]
                computes(math, on) ==> total == cells(on, r_min, bumps@, (i * GRID) as nat),
        decreases GRID - i,
    {
        let theta = math.div(math.mul(Scalar(PI), math.add(math.whole(i), Scalar(HALF))), math.whole(GRID));
        let mut j: usize = 0;
        while j < GRID
            invariant
                i < GRID,
                j <= GRID,
                forall|on: Arithmetic| #[trigger]
                    computes(math, on) ==> theta == row_angle(on, i as int),
                forall|on: Arithmetic| #[trigger]
                    computes(math, on) ==> total == cells(on, r_min, bumps@, (i * GRID + j) as nat),
            decreases GRID - j,
        {
            let phi = math.div(math.mul(Scalar(TAU), math.whole(j)), math.whole(GRID));
            let r = eval_r_cpu(math, r_min, bumps, theta, phi);
            let cube = math.mul(math.mul(r, r), r);
            total = math.add(total, math.mul(cube, math.sin(theta)));
            proof {
                let k = i * GRID + j;
                assert(k / GRID as int == i && k % GRID as int == j);
            }
            j = j + 1;
        }
        i = i + 1;
    }
    let d_theta = math.div(Scalar(PI), math.whole(GRID));
    let d_phi = math.div(Scalar(TAU), math.whole(GRID));
    math.div(math.mul(math.mul(total, d_theta), d_phi), Scalar(THREE))
}

impl BlobParams {
    /// The blob `before`, scaled so that its volume returns to the one it is to
    /// keep; one without a positive volume stays as it is.
    pub open spec fn conserved_from(self, on: Arithmetic, before: BlobParams) -> bool {
        let current = volume(on, before.r_min, before.bumps@);
        let factor = correction(on, before.target_volume, current);
        if current.at_most(Scalar(ZERO)) {
            self == before
        } else {
            &&& self.r_min == on.product(before.r_min, factor)
            &&& self.bumps@ == scaled(on, before.bumps@, factor)
            &&& self.target_volume == before.target_volume
            &&& self.bend_mode == before.bend_mode
        }
    }

    /// A blob that keeps the volume it has.
    pub fn new<M: Math>(math: &M, r_min: Scalar, bumps: Vec<BumpParams>) -> (r: Self)
        ensures
            r.r_min == r_min,
            r.bumps == bumps,
            r.bend_mode == 0,
            forall|on: Arithmetic| #[trigger]
                computes(math, on) ==> r.target_volume == volume(on, r_min, bumps@),
    {
        let target_volume = compute_volume(math, r_min, bumps.as_slice());
        BlobParams { r_min, bumps, target_volume, bend_mode: 0 }
    }

    /// The blob that is shown first: a sphere with two bumps, left and right.
    pub fn initial<M: Math>(math: &M) -> (r: Self)
        ensures
            r.r_min == Scalar(THREE_TENTHS),
            r.bumps@ == seq![
                BumpParams::upright(Scalar(FRAC_PI_2), Scalar(ZERO), Scalar(THREE_TENTHS), Scalar(EIGHT)),
                BumpParams::upright(Scalar(FRAC_PI_2), Scalar(PI), Scalar(THREE_TENTHS), Scalar(EIGHT)),
            ],
            r.bend_mode == 0,
            forall|on: Arithmetic| #[trigger]
                computes(math, on) ==> r.target_volume == volume(on, r.r_min, r.bumps@),
    {
        let (size, narrow) = (Scalar(THREE_TENTHS), Scalar(EIGHT));
        let right = BumpParams::new(Scalar(FRAC_PI_2), Scalar(ZERO), size, narrow);
        let left = BumpParams::new(Scalar(FRAC_PI_2), Scalar(PI), size, narrow);
        BlobParams::new(math, size, vec![right, left])
    }
}

/// Scales the blob, so that its volume returns to the one it is to keep. A
/// blob without a positive volume stays as it is.
pub fn conserve_volume<M: Math>(math: &M, params: &mut BlobParams)
    ensures
        final(params).target_volume == old(params).target_volume,
        final(params).bend_mode == old(params).bend_mode,
        final(params).bumps@.len() == old(params).bumps@.len(),
        forall|i: int|
            0 <= i < old(params).bumps@.len() ==> #[trigger] final(params).bumps@[i] == (BumpParams {
                amplitude: final(params).bumps@[i].amplitude,
                ..old(params).bumps@[i]
            }),
        forall|on: Arithmetic| #[trigger]
            computes(math, on) ==> final(params).conserved_from(on, *old(params)),
{
    let current = compute_volume(math, params.r_min, params.bumps.as_slice());
    if current.le(Scalar(ZERO)) {
        return;
    }
    let factor = math.cbrt(math.div(params.target_volume, current));
    params.r_min = math.mul(params.r_min, factor);
    let mut i: usize = 0;
    while i < params.bumps.len()
        invariant
            i <= params.bumps@.len(),
            params.target_volume == old(params).target_volume,
            params.bend_mode == old(params).bend_mode,
            params.bumps@.len() == old(params).bumps@.len(),
            forall|on: Arithmetic| #[trigger]
                computes(math, on) ==> params.r_min == on.product(old(params).r_min, factor),
            forall|k: int|
                0 <= k < i ==> #[trigger] params.bumps@[k] == (BumpParams {
                    amplitude: params.bumps@[k].amplitude,
                    ..old(params).bumps@[k]
                }),
            forall|on: Arithmetic| #[trigger] computes(math, on) ==> forall|k: int|
                0 <= k < i ==> #[trigger] params.bumps@[k].amplitude == on.product(
                    old(params).bumps@[k].amplitude,
                    factor,
                ),
            forall|k: int| i <= k < params.bumps@.len() ==> #[trigger] params.bumps@[k] == old(params).bumps@[k],
        decreases params.bumps@.len() - i,
    {
        let amplitude = math.mul(params.bumps[i].amplitude, factor);
        params.bumps[i].amplitude = amplitude;
        i = i + 1;
    }
    assert(forall|on: Arithmetic| #[trigger]
        computes(math, on) ==> params.bumps@ =~= scaled(on, old(params).bumps@, factor));
}

/// A blob without bumps is a sphere.
pub proof fn sphere_without_bumps(on: Arithmetic, r_min: Scalar, direction: Vector)
    ensures
        radius(on, r_min, Seq::empty(), direction) == r_min,
{
}

/// A bump that is put on a blob raises the radius in each direction by the
/// height that the bump has there, whatever the other bumps are.
pub proof fn bump_raises_radius(
    on: Arithmetic,
    r_min: Scalar,
    bumps: Seq<BumpParams>,
    bump: BumpParams,
    direction: Vector,
)
    ensures
        radius(on, r_min, bumps.push(bump), direction) == on.sum(
            radius(on, r_min, bumps, direction),
            height(on, bump, direction),
        ),
{
    assert(bumps.push(bump).drop_last() =~= bumps);
}

/// Bumps can be put on in two lots: the radius over the first lot is what the
/// second lot starts from.
pub proof fn radius_over_both(
    on: Arithmetic,
    r_min: Scalar,
    first: Seq<BumpParams>,
    second: Seq<BumpParams>,
    direction: Vector,
)
    ensures
        radius(on, r_min, first + second, direction) == radius(
            on,
            radius(on, r_min, first, direction),
            second,
            direction,
        ),
    decreases second.len(),
{
    if second.len() == 0 {
        assert(first + second =~= first);
    } else {
        radius_over_both(on, r_min, first, second.drop_last(), direction);
        assert((first + second).drop_last() =~= first + second.drop_last());
        assert((first + second).last() == second.last());
    }
}

/// The bumps point the same ways and have the same shapes.
pub open spec fn same_relief(a: Seq<BumpParams>, b: Seq<BumpParams>) -> bool {
    &&& a.len() == b.len()
    &&& forall|i: int|
        0 <= i < a.len() ==> {
            &&& (#[trigger] a[i]).theta == b[i].theta
            &&& a[i].phi == b[i].phi
            &&& a[i].amplitude == b[i].amplitude
            &&& a[i].concentration == b[i].concentration
        }
}

/// In the direction it points in, a bump is as high as its amplitude, as far
/// as the arithmetic is exact there: the direction is aligned with itself, a
/// number divided by itself is one, and multiplying by one changes nothing.
pub proof fn peak_is_amplitude(on: Arithmetic, bump: BumpParams)
    requires
        alignment(on, bump.points_along(on), bump.points_along(on)) == Scalar(ONE),
        on.product(bump.concentration, Scalar(ONE)) == bump.concentration,
        on.quotient(on.exponential(bump.concentration), on.exponential(bump.concentration)) == Scalar(ONE),
        on.product(bump.amplitude, Scalar(ONE)) == bump.amplitude,
    ensures
        height(on, bump, bump.points_along(on)) == bump.amplitude,
{
}

/// Leaning and bending have no part in the radius.
pub proof fn radius_ignores_lean(
    on: Arithmetic,
    r_min: Scalar,
    a: Seq<BumpParams>,
    b: Seq<BumpParams>,
    direction: Vector,
)
    requires
        same_relief(a, b),
    ensures
        radius(on, r_min, a, direction) == radius(on, r_min, b, direction),
    decreases a.len(),
{
    if a.len() > 0 {
        radius_ignores_lean(on, r_min, a.drop_last(), b.drop_last(), direction);
        assert(a[a.len() - 1] == a.last());
    }
}

/// Blobs of one relief have the same cells.
proof fn lemma_cells_alike(on: Arithmetic, r_min: Scalar, a: Seq<BumpParams>, b: Seq<BumpParams>, n: nat)
    requires
        same_relief(a, b),
    ensures
        cells(on, r_min, a, n) == cells(on, r_min, b, n),
    decreases n,
{
    if n > 0 {
        let k = n - 1;
        lemma_cells_alike(on, r_min, a, b, k as nat);
        let theta = row_angle(on, k / GRID as int);
        let phi = column_angle(on, k % GRID as int);
        radius_ignores_lean(on, r_min, a, b, on_sphere(on, theta, phi));
    }
}

/// Leaning and bending have no part in the volume that is conserved.
pub proof fn volume_ignores_lean(on: Arithmetic, r_min: Scalar, a: Seq<BumpParams>, b: Seq<BumpParams>)
    requires
        same_relief(a, b),
    ensures
        volume(on, r_min, a) == volume(on, r_min, b),
{
    lemma_cells_alike(on, r_min, a, b, (GRID * GRID) as nat);
}

/// A blob that has the volume it is to keep is not scaled, as far as the
/// arithmetic is exact on it: a number divided by itself is one, one is its
/// own cube root, and multiplying by one changes nothing.
pub proof fn settled_blob_stays(on: Arithmetic, r_min: Scalar, bumps: Seq<BumpParams>)
    requires
        on.quotient(volume(on, r_min, bumps), volume(on, r_min, bumps)) == Scalar(ONE),
        on.cube_root(Scalar(ONE)) == Scalar(ONE),
        on.product(r_min, Scalar(ONE)) == r_min,
        forall|i: int|
            0 <= i < bumps.len() ==> on.product((#[trigger] bumps[i]).amplitude, Scalar(ONE)) == bumps[i].amplitude,
    ensures
        ({
            let target = volume(on, r_min, bumps);
            let factor = correction(on, target, target);
            &&& on.product(r_min, factor) == r_min
            &&& scaled(on, bumps, factor) == bumps
        }),
{
    assert(scaled(on, bumps, Scalar(ONE)) =~= bumps);
}

/// A blob without a positive volume is left as it is when its volume is conserved.
pub proof fn blob_without_volume_stays(on: Arithmetic, before: BlobParams, after: BlobParams)
    requires
        after.conserved_from(on, before),
        volume(on, before.r_min, before.bumps@).at_most(Scalar(ZERO)),
    ensures
        after.r_min == before.r_min,
        after.bumps@ == before.bumps@,
        after.target_volume == before.target_volume,
        after.bend_mode == before.bend_mode,
{
}

} // verus!
