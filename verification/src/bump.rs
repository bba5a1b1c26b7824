//! One bump of the blob: where it points and how it leans.

use vstd::prelude::*;
use crate::math::{computes, Arithmetic, Math, Vector};
use crate::scalar::{Scalar, FRAC_PI_3, MILLIONTH, NEARLY_ONE, ONE, ZERO};
use crate::uniforms::GpuBump;

verus! {

/// The parameters of one bump.
#[derive(Clone, Copy, PartialEq, Eq, Structural, Debug)]
pub struct BumpParams {
    /// Angle from the vertical axis.
    pub theta: Scalar,
    /// Angle around the vertical axis.
    pub phi: Scalar,
    /// Height at the peak.
    pub amplitude: Scalar,
    /// How narrow the bump is.
    pub concentration: Scalar,
    /// Angle, around the bump, of the direction it leans in.
    pub lean_direction_phi: Scalar,
    /// How far it leans.
    pub lean_amount: Scalar,
    /// How far it bends towards its peak.
    pub bend_amount: Scalar,
}

/// The point of the unit sphere at two angles.
pub open spec fn on_sphere(on: Arithmetic, theta: Scalar, phi: Scalar) -> Vector {
    [
        on.product(on.sine(theta), on.cosine(phi)),
        on.cosine(theta),
        on.product(on.sine(theta), on.sine(phi)),
    ]
}

/// A direction that `d` is clearly not parallel to: straight up, unless `d`
/// is nearly vertical.
pub open spec fn reference_up(d: Vector) -> Vector {
    if d[1].absolute().below(Scalar(NEARLY_ONE)) {
        [Scalar(ZERO), Scalar(ONE), Scalar(ZERO)]
    } else {
        [Scalar(ONE), Scalar(ZERO), Scalar(ZERO)]
    }
}

/// `a * x + b * y`
pub open spec fn blend(on: Arithmetic, a: Scalar, x: Scalar, b: Scalar, y: Scalar) -> Scalar {
    on.sum(on.product(a, x), on.product(b, y))
}

/// The direction in the tangent plane at `d` that lies at the angle `phi`.
pub open spec fn tangent_direction(on: Arithmetic, d: Vector, phi: Scalar) -> Vector {
    let tangent = on.unit(on.cross_product(reference_up(d), d));
    let bitangent = on.cross_product(d, tangent);
    let (c, s) = (on.cosine(phi), on.sine(phi));
    [
        blend(on, tangent[0], c, bitangent[0], s),
        blend(on, tangent[1], c, bitangent[1], s),
        blend(on, tangent[2], c, bitangent[2], s),
    ]
}

/// The length of a vector.
pub open spec fn length(on: Arithmetic, v: Vector) -> Scalar {
    on.square_root(on.sum(on.sum(on.squared(v[0]), on.squared(v[1])), on.squared(v[2])))
}

/// `v` brought to length one, or the third axis where `v` is all but zero.
pub open spec fn axis_along(on: Arithmetic, v: Vector) -> Vector {
    let len = length(on, v);
    if Scalar(MILLIONTH).below(len) {
        [on.quotient(v[0], len), on.quotient(v[1], len), on.quotient(v[2], len)]
    } else {
        [Scalar(ZERO), Scalar(ZERO), Scalar(ONE)]
    }
}

/// The axis about which a bump that points along `d` is turned, so that it
/// leans towards the angle `phi`.
pub open spec fn lean_axis_at(on: Arithmetic, d: Vector, phi: Scalar) -> Vector {
    axis_along(on, on.cross_product(d, tangent_direction(on, d, phi)))
}

/// How far the centre of the bump moves when its tip is turned by an angle.
pub open spec fn ghost_distance(
    on: Arithmetic,
    bump_dir: Vector,
    amplitude: Scalar,
    lean_axis: Vector,
    total_angle: Scalar,
    r_min: Scalar,
) -> Scalar {
    let lever = on.turned(on.multiple(bump_dir, amplitude), lean_axis, total_angle);
    length(on, on.offset(on.multiple(bump_dir, r_min), on.multiple(on.unit(lever), r_min)))
}

/// The length of a vector.
fn length_of<M: Math>(math: &M, v: Vector) -> (r: Scalar)
    ensures
        forall|on: Arithmetic| #[trigger] computes(math, on) ==> r == length(on, v),
{
    let x = math.square(v[0]);
    let y = math.square(v[1]);
    let z = math.square(v[2]);
    math.sqrt(math.add(math.add(x, y), z))
}

impl BumpParams {
    /// The direction of the bump.
    pub open spec fn points_along(self, on: Arithmetic) -> Vector {
        on_sphere(on, self.theta, self.phi)
    }

    /// The axis it leans about.
    pub open spec fn leans_about(self, on: Arithmetic) -> Vector {
        lean_axis_at(on, self.points_along(on), self.lean_direction_phi)
    }

    /// The bump as the shader reads it.
    pub open spec fn packed(self, on: Arithmetic) -> GpuBump {
        let zero = Scalar(ZERO);
        let d = self.points_along(on);
        let axis = self.leans_about(on);
        GpuBump {
            direction_amplitude: [d[0], d[1], d[2], self.amplitude],
            concentration_pad: [self.concentration, zero, zero, zero],
            lean_axis_amount: [axis[0], axis[1], axis[2], self.lean_amount],
            bend_amount_pad: [self.bend_amount, zero, zero, zero],
        }
    }

    /// A bump that neither leans nor bends.
    pub open spec fn upright(theta: Scalar, phi: Scalar, amplitude: Scalar, concentration: Scalar) -> BumpParams {
        BumpParams {
            theta,
            phi,
            amplitude,
            concentration,
            lean_direction_phi: Scalar(ZERO),
            lean_amount: Scalar(ZERO),
            bend_amount: Scalar(ZERO),
        }
    }

    /// A bump that neither leans nor bends.
    pub fn new(theta: Scalar, phi: Scalar, amplitude: Scalar, concentration: Scalar) -> (r: Self)
        ensures
            r == BumpParams::upright(theta, phi, amplitude, concentration),
    {
        BumpParams {
            theta,
            phi,
            amplitude,
            concentration,
            lean_direction_phi: Scalar(ZERO),
            lean_amount: Scalar(ZERO),
            bend_amount: Scalar(ZERO),
        }
    }

    /// The direction of the bump.
    pub fn direction<M: Math>(&self, math: &M) -> (r: Vector)
        ensures
            forall|on: Arithmetic| #[trigger] computes(math, on) ==> r == self.points_along(on),
    {
        let across = math.sin(self.theta);
        let x = math.mul(across, math.cos(self.phi));
        let y = math.cos(self.theta);
        let z = math.mul(across, math.sin(self.phi));
        [x, y, z]
    }

    /// The axis in world space that the bump leans about, the one that
    /// [`BumpParams::to_gpu`] packs.
    pub fn lean_axis<M: Math>(&self, math: &M) -> (r: Vector)
        ensures
            forall|on: Arithmetic| #[trigger] computes(math, on) ==> r == self.leans_about(on),
    {
        let d = self.direction(math);
        let world_up = if d[1].abs().lt(Scalar(NEARLY_ONE)) {
            [Scalar(ZERO), Scalar(ONE), Scalar(ZERO)]
        } else {
            [Scalar(ONE), Scalar(ZERO), Scalar(ZERO)]
        };
        let tangent = math.normalize(math.cross(world_up, d));
        let bitangent = math.cross(d, tangent);
        let c = math.cos(self.lean_direction_phi);
        let s = math.sin(self.lean_direction_phi);
        let x = math.add(math.mul(tangent[0], c), math.mul(bitangent[0], s));
        let y = math.add(math.mul(tangent[1], c), math.mul(bitangent[1], s));
        let z = math.add(math.mul(tangent[2], c), math.mul(bitangent[2], s));
        let raw = math.cross(d, [x, y, z]);
        let len = length_of(math, raw);
        if Scalar(MILLIONTH).lt(len) {
            [math.div(raw[0], len), math.div(raw[1], len), math.div(raw[2], len)]
        } else {
            [Scalar(ZERO), Scalar(ZERO), Scalar(ONE)]
        }
    }

    /// How far the centre of the bump moves when its tip is turned by a total
    /// angle (lean and bend at the peak).
    pub fn ghost_magnitude<M: Math>(
        math: &M,
        bump_dir: Vector,
        amplitude: Scalar,
        lean_axis: Vector,
        total_angle: Scalar,
        r_min: Scalar,
    ) -> (r: Scalar)
        ensures
            forall|on: Arithmetic| #[trigger]
                computes(math, on) ==> r == ghost_distance(
                    on,
                    bump_dir,
                    amplitude,
                    lean_axis,
                    total_angle,
                    r_min,
                ),
    {
        let lever = math.rotate_around_axis(math.scale(bump_dir, amplitude), lean_axis, total_angle);
        let foot = math.scale(bump_dir, r_min);
        let shift = math.subtract(foot, math.scale(math.normalize(lever), r_min));
        length_of(math, shift)
    }

    /// The greatest lean that is allowed: sixty degrees.
    pub fn max_lean(&self) -> (r: Scalar)
        ensures
            r == Scalar(FRAC_PI_3),
    {
        Scalar(FRAC_PI_3)
    }

    /// The bump as the shader reads it.
    pub fn to_gpu<M: Math>(&self, math: &M) -> (r: GpuBump)
        ensures
            forall|on: Arithmetic| #[trigger] computes(math, on) ==> r == self.packed(on),
            r.direction_amplitude[3] == self.amplitude,
            r.concentration_pad == [self.concentration, Scalar(ZERO), Scalar(ZERO), Scalar(ZERO)],
            r.lean_axis_amount[3] == self.lean_amount,
            r.bend_amount_pad == [self.bend_amount, Scalar(ZERO), Scalar(ZERO), Scalar(ZERO)],
    {
        let zero = Scalar(ZERO);
        let d = self.direction(math);
        let axis = self.lean_axis(math);
        GpuBump {
            direction_amplitude: [d[0], d[1], d[2], self.amplitude],
            concentration_pad: [self.concentration, zero, zero, zero],
            lean_axis_amount: [axis[0], axis[1], axis[2], self.lean_amount],
            bend_amount_pad: [self.bend_amount, zero, zero, zero],
        }
    }
}

/// A new bump points where it is told to, is as high and as narrow as it is told
/// to be, and neither leans nor bends.
pub proof fn new_bump_stands_upright(theta: Scalar, phi: Scalar, amplitude: Scalar, concentration: Scalar)
    ensures
        ({
            let bump = BumpParams::upright(theta, phi, amplitude, concentration);
            &&& bump.theta == theta
            &&& bump.phi == phi
            &&& bump.amplitude == amplitude
            &&& bump.concentration == concentration
            &&& bump.lean_direction_phi == Scalar(ZERO)
            &&& bump.lean_amount == Scalar(ZERO)
            &&& bump.bend_amount == Scalar(ZERO)
        }),
{
}

/// A vector that is all but zero has no axis of its own: the third axis stands
/// in for it. Any other vector has its components divided by its length.
pub proof fn axis_of_nothing_is_third(on: Arithmetic, v: Vector)
    ensures
        length(on, v).nan() || length(on, v).at_most(Scalar(MILLIONTH)) ==> axis_along(on, v) == [
            Scalar(ZERO),
            Scalar(ZERO),
            Scalar(ONE),
        ],
        Scalar(MILLIONTH).below(length(on, v)) ==> forall|i: int|
            0 <= i < 3 ==> #[trigger] axis_along(on, v)[i] == on.quotient(v[i], length(on, v)),
{
}

} // verus!
