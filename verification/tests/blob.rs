//! The geometry, computed in the machine's single-precision arithmetic, comes
//! out as the formulas written in it.

use blob_world::blob::{compute_volume, conserve_volume, eval_r_cpu, BlobParams};
use blob_world::bump::BumpParams;
use blob_world::frame::workgroups_for;
use blob_world::math::{Math, Vector};
use blob_world::panel::{mode_description, Control, Field};
use blob_world::scalar::Scalar;
use blob_world::uniforms::{BlobUniforms, GpuBump};
use std::f32::consts::{FRAC_PI_2, PI, TAU};

struct Machine;

fn s(x: f32) -> Scalar {
    Scalar(if x.is_nan() { f32::NAN.to_bits() } else { x.to_bits() })
}

fn f(x: Scalar) -> f32 {
    f32::from_bits(x.0)
}

fn vector(v: [f32; 3]) -> Vector {
    [s(v[0]), s(v[1]), s(v[2])]
}

fn floats(v: Vector) -> [f32; 3] {
    [f(v[0]), f(v[1]), f(v[2])]
}

fn norm(v: [f32; 3]) -> [f32; 3] {
    let len = (v[0] * v[0] + v[1] * v[1] + v[2] * v[2]).sqrt();
    [v[0] / len, v[1] / len, v[2] / len]
}

fn cross(v: [f32; 3], w: [f32; 3]) -> [f32; 3] {
    [v[1] * w[2] - v[2] * w[1], v[2] * w[0] - v[0] * w[2], v[0] * w[1] - v[1] * w[0]]
}

fn dot(v: [f32; 3], w: [f32; 3]) -> f32 {
    v[0] * w[0] + v[1] * w[1] + v[2] * w[2]
}

fn rotate(v: [f32; 3], axis: [f32; 3], angle: f32) -> [f32; 3] {
    let (sin, cos) = (angle.sin(), angle.cos());
    let (side, along) = (cross(axis, v), dot(axis, v) * (1.0 - angle.cos()));
    [
        v[0] * cos + side[0] * sin + axis[0] * along,
        v[1] * cos + side[1] * sin + axis[1] * along,
        v[2] * cos + side[2] * sin + axis[2] * along,
    ]
}

impl Math for Machine {
    fn add(&self, a: Scalar, b: Scalar) -> Scalar {
        s(f(a) + f(b))
    }
    fn sub(&self, a: Scalar, b: Scalar) -> Scalar {
        s(f(a) - f(b))
    }
    fn mul(&self, a: Scalar, b: Scalar) -> Scalar {
        s(f(a) * f(b))
    }
    fn div(&self, a: Scalar, b: Scalar) -> Scalar {
        s(f(a) / f(b))
    }
    fn sin(&self, a: Scalar) -> Scalar {
        s(f(a).sin())
    }
    fn cos(&self, a: Scalar) -> Scalar {
        s(f(a).cos())
    }
    fn exp(&self, a: Scalar) -> Scalar {
        s(f(a).exp())
    }
    fn sqrt(&self, a: Scalar) -> Scalar {
        s(f(a).sqrt())
    }
    fn cbrt(&self, a: Scalar) -> Scalar {
        s(f(a).cbrt())
    }
    fn square(&self, a: Scalar) -> Scalar {
        s(f(a).powi(2))
    }
    fn whole(&self, n: usize) -> Scalar {
        s(n as f32)
    }
    fn normalize(&self, v: Vector) -> Vector {
        vector(norm(floats(v)))
    }
    fn cross(&self, v: Vector, w: Vector) -> Vector {
        vector(cross(floats(v), floats(w)))
    }
    fn scale(&self, v: Vector, a: Scalar) -> Vector {
        vector(floats(v).map(|x| x * f(a)))
    }
    fn subtract(&self, v: Vector, w: Vector) -> Vector {
        let (v, w) = (floats(v), floats(w));
        vector([v[0] - w[0], v[1] - w[1], v[2] - w[2]])
    }
    fn rotate_around_axis(&self, v: Vector, axis: Vector, angle: Scalar) -> Vector {
        vector(rotate(floats(v), floats(axis), f(angle)))
    }
}

fn bump(theta: f32, phi: f32, amplitude: f32, concentration: f32) -> BumpParams {
    BumpParams::new(s(theta), s(phi), s(amplitude), s(concentration))
}

fn leaning(theta: f32, phi: f32, lean_phi: f32, lean: f32, bend: f32) -> BumpParams {
    let mut b = bump(theta, phi, 0.3, 8.0);
    b.lean_direction_phi = s(lean_phi);
    b.lean_amount = s(lean);
    b.bend_amount = s(bend);
    b
}

fn close(a: f32, b: f32) -> bool {
    (a - b).abs() <= 1e-4 * b.abs().max(1.0)
}

// ── Bumps ──

#[test]
fn a_new_bump_stands_upright() {
    let b = bump(1.0, 2.0, 0.3, 8.0);
    assert_eq!((f(b.theta), f(b.phi), f(b.amplitude), f(b.concentration)), (1.0, 2.0, 0.3, 8.0));
    assert_eq!((b.lean_direction_phi, b.lean_amount, b.bend_amount), (Scalar(0), Scalar(0), Scalar(0)));
}

#[test]
fn directions_are_spherical_coordinates() {
    assert_eq!(floats(bump(0.0, 0.7, 0.3, 8.0).direction(&Machine)), [0.0, 1.0, 0.0]);
    for (theta, phi) in [(FRAC_PI_2, 0.0), (1.1, 2.2), (0.3, 5.0f32)] {
        let d = floats(bump(theta, phi, 0.3, 8.0).direction(&Machine));
        assert_eq!(d, [theta.sin() * phi.cos(), theta.cos(), theta.sin() * phi.sin()]);
    }
}

/// The lean axis, written in machine numbers.
fn lean_axis_by_formula(d: [f32; 3], lean_phi: f32) -> [f32; 3] {
    let world_up = if d[1].abs() < 0.99 { [0.0f32, 1.0, 0.0] } else { [1.0, 0.0, 0.0] };
    let tangent = norm(cross(world_up, d));
    let bitangent = cross(d, tangent);
    let lean_dir = [
        tangent[0] * lean_phi.cos() + bitangent[0] * lean_phi.sin(),
        tangent[1] * lean_phi.cos() + bitangent[1] * lean_phi.sin(),
        tangent[2] * lean_phi.cos() + bitangent[2] * lean_phi.sin(),
    ];
    let raw = cross(d, lean_dir);
    let len = (raw[0].powi(2) + raw[1].powi(2) + raw[2].powi(2)).sqrt();
    if len > 1e-6 {
        [raw[0] / len, raw[1] / len, raw[2] / len]
    } else {
        [0.0, 0.0, 1.0]
    }
}

#[test]
fn lean_axis_follows_its_formula() {
    for (theta, phi, lean_phi) in [(1.0, 2.0, 0.5), (FRAC_PI_2, 0.0, 0.0), (0.01, 0.4, 3.0), (PI, 1.0, 1.0)] {
        let b = leaning(theta, phi, lean_phi, 0.2, 0.0);
        let d = floats(b.direction(&Machine));
        let axis = floats(b.lean_axis(&Machine));
        assert_eq!(axis, lean_axis_by_formula(d, lean_phi));
        assert!(dot(axis, d).abs() < 1e-5);
    }
}

#[test]
fn an_upright_bump_at_the_side_leans_about_a_known_axis() {
    // d = (1, 0, 0): the tangent is up x d = (0, 0, -1), and d x tangent = (0, 1, 0).
    let axis = floats(leaning(FRAC_PI_2, 0.0, 0.0, 0.0, 0.0).lean_axis(&Machine));
    assert!(close(axis[0], 0.0) && close(axis[1], 1.0) && close(axis[2], 0.0));
}

#[test]
fn packing_holds_the_axis_the_bump_leans_about() {
    let b = leaning(1.0, 2.0, 0.5, 0.2, 0.1);
    let (packed, d, axis) = (b.to_gpu(&Machine), b.direction(&Machine), b.lean_axis(&Machine));
    assert_eq!(packed.direction_amplitude, [d[0], d[1], d[2], s(0.3)]);
    assert_eq!(packed.concentration_pad, [s(8.0), s(0.0), s(0.0), s(0.0)]);
    assert_eq!(packed.lean_axis_amount, [axis[0], axis[1], axis[2], s(0.2)]);
    assert_eq!(packed.bend_amount_pad, [s(0.1), s(0.0), s(0.0), s(0.0)]);
}

#[test]
fn ghost_stays_put_without_a_turn() {
    let (up, axis) = (vector([0.0, 1.0, 0.0]), vector([0.0, 0.0, 1.0]));
    assert_eq!(f(BumpParams::ghost_magnitude(&Machine, up, s(0.5), axis, s(0.0), s(0.3))), 0.0);
    let half_turn = f(BumpParams::ghost_magnitude(&Machine, up, s(0.5), axis, s(PI), s(0.3)));
    assert!(close(half_turn, 0.6));
}

#[test]
fn greatest_lean_is_sixty_degrees() {
    assert_eq!(f(bump(0.0, 0.0, 0.1, 1.0).max_lean()), PI / 3.0);
}

// ── Bending ──

fn side_by_formula(c: f32, a: f32, r_min: f32, theta: f32, bend: f32) -> f32 {
    let weight = (c * theta.cos()).exp() / c.exp();
    let slope = -c * theta.sin() * weight;
    let (bf, dbf) = (bend * weight, bend * slope);
    let px = theta.sin() * r_min + bf.sin() * a;
    let py = theta.cos() * r_min + bf.cos() * a;
    let dpx = theta.cos() * r_min + bf.cos() * a * dbf;
    let dpy = -theta.sin() * r_min - bf.sin() * a * dbf;
    let (gx, gy) = (-bend.sin() * r_min, r_min * (1.0 - bend.cos()));
    (px - gx) * dpy - (py - gy) * dpx
}

fn tangent_by_formula(c: f32, a: f32, r_min: f32, bend: f32) -> bool {
    let n = 128usize;
    let mut prev = side_by_formula(c, a, r_min, 0.001, bend);
    for i in 1..=n {
        let theta = 0.001 + (PI - 0.001) * i as f32 / n as f32;
        let curr = side_by_formula(c, a, r_min, theta, bend);
        if prev * curr < 0.0 {
            return true;
        }
        prev = curr;
    }
    false
}

fn max_bend_by_formula(c: f32, a: f32, r_min: f32) -> f32 {
    if tangent_by_formula(c, a, r_min, 0.001) {
        return 0.0;
    }
    if !tangent_by_formula(c, a, r_min, FRAC_PI_2) {
        return FRAC_PI_2;
    }
    let (mut lo, mut hi) = (0.0f32, FRAC_PI_2);
    for _ in 0..24 {
        let mid = (lo + hi) * 0.5;
        if tangent_by_formula(c, a, r_min, mid) {
            hi = mid;
        } else {
            lo = mid;
        }
    }
    lo
}

fn shapes() -> Vec<(f32, f32, f32)> {
    let mut all = Vec::new();
    for c in [0.5f32, 2.0, 8.0, 20.0] {
        for a in [0.0f32, 0.05, 0.3, 1.0] {
            for r_min in [0.1f32, 0.3, 1.0] {
                all.push((c, a, r_min));
            }
        }
    }
    all
}

#[test]
fn bend_limit_follows_its_formula() {
    let mut kinds = [false; 3];
    for (c, a, r_min) in shapes() {
        let b = bump(1.0, 2.0, a, c);
        let limit = f(b.max_bend(&Machine, s(r_min)));
        assert_eq!(limit.to_bits(), max_bend_by_formula(c, a, r_min).to_bits());
        kinds[if limit == 0.0 { 0 } else if limit == FRAC_PI_2 { 1 } else { 2 }] = true;
    }
    assert!(kinds[1] || kinds[2]);
}

#[test]
fn tangents_follow_their_formula() {
    let b = bump(1.0, 2.0, 0.3, 8.0);
    for theta in [0.001f32, 0.5, 1.5, 3.0] {
        for bend in [0.001f32, 0.4, 1.2] {
            let side = f(b.tangent_cross(&Machine, s(0.3), s(theta), s(bend)));
            assert_eq!(side.to_bits(), side_by_formula(8.0, 0.3, 0.3, theta, bend).to_bits());
        }
    }
    for bend in [0.001f32, 0.4, 1.2, FRAC_PI_2] {
        assert_eq!(b.tangent_exists(&Machine, s(0.3), s(bend)), tangent_by_formula(8.0, 0.3, 0.3, bend));
    }
}

#[test]
fn bend_limit_is_zero_or_safe() {
    for (c, a, r_min) in shapes() {
        let b = bump(0.0, 0.0, a, c);
        let limit = b.max_bend(&Machine, s(r_min));
        assert!(f(limit) == 0.0 || !b.tangent_exists(&Machine, s(r_min), limit));
    }
}

#[test]
fn bend_limit_ignores_pointing_and_leaning() {
    let upright = bump(0.0, 0.0, 0.3, 8.0);
    let tilted = leaning(1.0, 2.0, 0.5, 0.7, 0.4);
    assert_eq!(upright.max_bend(&Machine, s(0.3)), tilted.max_bend(&Machine, s(0.3)));
}

// ── Volume ──

fn radius_by_formula(r_min: f32, bumps: &[BumpParams], theta: f32, phi: f32) -> f32 {
    let dir = [theta.sin() * phi.cos(), theta.cos(), theta.sin() * phi.sin()];
    let mut r = r_min;
    for b in bumps {
        let (bt, bp) = (f(b.theta), f(b.phi));
        let d = [bt.sin() * bp.cos(), bt.cos(), bt.sin() * bp.sin()];
        let along = (dir[0] * d[0] + dir[1] * d[1] + dir[2] * d[2]).clamp(-1.0, 1.0);
        let c = f(b.concentration);
        r += f(b.amplitude) * ((c * along).exp() / c.exp());
    }
    r
}

fn volume_by_formula(r_min: f32, bumps: &[BumpParams]) -> f32 {
    let n = 64usize;
    let mut sum = 0.0f32;
    for i in 0..n {
        let theta = PI * (i as f32 + 0.5) / n as f32;
        for j in 0..n {
            let phi = TAU * j as f32 / n as f32;
            let r = radius_by_formula(r_min, bumps, theta, phi);
            sum += r * r * r * theta.sin();
        }
    }
    sum * (PI / n as f32) * (TAU / n as f32) / 3.0
}

#[test]
fn a_blob_without_bumps_is_a_sphere() {
    assert_eq!(f(eval_r_cpu(&Machine, s(0.7), &[], s(1.0), s(2.0))), 0.7);
    let volume = f(compute_volume(&Machine, s(0.7), &[]));
    assert!((volume - 4.0 / 3.0 * PI * 0.343).abs() < 2e-3);
}

#[test]
fn a_bump_raises_the_radius_at_its_peak_by_its_amplitude() {
    let b = bump(1.0, 2.0, 0.25, 8.0);
    assert!(close(f(eval_r_cpu(&Machine, s(0.5), &[b], s(1.0), s(2.0))), 0.75));
    assert!(close(f(eval_r_cpu(&Machine, s(0.5), &[b], s(PI - 1.0), s(2.0 + PI))), 0.5));
}

#[test]
fn one_more_bump_adds_its_own_height() {
    let (a, b) = (bump(1.0, 2.0, 0.25, 8.0), bump(2.0, 1.0, 0.1, 3.0));
    let with_one = f(eval_r_cpu(&Machine, s(0.5), &[a], s(1.5), s(1.5)));
    let alone = f(eval_r_cpu(&Machine, s(0.0), &[b], s(1.5), s(1.5)));
    assert_eq!(f(eval_r_cpu(&Machine, s(0.5), &[a, b], s(1.5), s(1.5))), with_one + alone);
}

#[test]
fn radius_and_volume_follow_their_formulas() {
    let bumps = [bump(FRAC_PI_2, 0.0, 0.3, 8.0), bump(1.0, 2.0, 0.2, 3.0), bump(0.1, 0.0, -0.1, 0.5)];
    for (theta, phi) in [(0.0f32, 0.0f32), (1.0, 2.0), (2.5, 6.0)] {
        let r = f(eval_r_cpu(&Machine, s(0.3), &bumps, s(theta), s(phi)));
        assert_eq!(r.to_bits(), radius_by_formula(0.3, &bumps, theta, phi).to_bits());
    }
    let volume = f(compute_volume(&Machine, s(0.3), &bumps));
    assert_eq!(volume.to_bits(), volume_by_formula(0.3, &bumps).to_bits());
}

#[test]
fn leaning_does_not_change_the_volume() {
    let (upright, tilted) = (leaning(1.0, 2.0, 0.0, 0.0, 0.0), leaning(1.0, 2.0, 0.5, 0.7, 0.4));
    assert_eq!(compute_volume(&Machine, s(0.3), &[upright]), compute_volume(&Machine, s(0.3), &[tilted]));
}

#[test]
fn a_new_blob_keeps_the_volume_it_has() {
    let bumps = vec![bump(FRAC_PI_2, 0.0, 0.3, 8.0)];
    let blob = BlobParams::new(&Machine, s(0.3), bumps.clone());
    assert_eq!(blob.r_min, s(0.3));
    assert_eq!(blob.bumps, bumps);
    assert_eq!(blob.bend_mode, 0);
    assert_eq!(f(blob.target_volume).to_bits(), volume_by_formula(0.3, &bumps).to_bits());
}

#[test]
fn the_first_blob_has_two_bumps_left_and_right() {
    let blob = BlobParams::initial(&Machine);
    assert_eq!(f(blob.r_min), 0.3);
    assert_eq!(blob.bumps, vec![bump(FRAC_PI_2, 0.0, 0.3, 8.0), bump(FRAC_PI_2, PI, 0.3, 8.0)]);
    assert_eq!(blob.target_volume, compute_volume(&Machine, blob.r_min, &blob.bumps));
    assert_eq!(blob.bend_mode, 0);
}

#[test]
fn a_blob_at_its_volume_is_left_alone() {
    let mut blob = BlobParams::initial(&Machine);
    let (bumps, target) = (blob.bumps.clone(), blob.target_volume);
    conserve_volume(&Machine, &mut blob);
    assert_eq!(f(blob.r_min), 0.3);
    assert_eq!(blob.bumps, bumps);
    assert_eq!(blob.target_volume, target);
}

#[test]
fn volume_returns_to_the_one_to_keep() {
    let mut blob = BlobParams::initial(&Machine);
    blob.bumps[0].lean_amount = s(0.4);
    blob.target_volume = s(2.0);
    blob.bend_mode = 2;
    let before = blob.bumps.clone();
    let factor = (2.0 / volume_by_formula(0.3, &before)).cbrt();
    conserve_volume(&Machine, &mut blob);
    assert_eq!(f(blob.r_min), 0.3 * factor);
    for (b, a) in before.iter().zip(blob.bumps.iter()) {
        let mut expected = *b;
        expected.amplitude = s(f(b.amplitude) * factor);
        assert_eq!(*a, expected);
    }
    assert_eq!((f(blob.target_volume), blob.bend_mode), (2.0, 2));
    assert!(close(f(compute_volume(&Machine, blob.r_min, &blob.bumps)), 2.0));
}

#[test]
fn a_blob_without_volume_stays_as_it_is() {
    for r_min in [0.0f32, -1.0] {
        let mut blob = BlobParams::new(&Machine, s(r_min), vec![bump(1.0, 2.0, 0.0, 8.0)]);
        blob.target_volume = s(3.0);
        conserve_volume(&Machine, &mut blob);
        assert_eq!(f(blob.r_min), r_min);
        assert_eq!(blob.bumps, vec![bump(1.0, 2.0, 0.0, 8.0)]);
    }
}

// ── Uniforms ──

#[test]
fn a_zeroed_bump_is_all_zero() {
    let zero = [Scalar(0); 4];
    let bump = GpuBump::zeroed();
    assert_eq!(bump.direction_amplitude, zero);
    assert_eq!(bump.concentration_pad, zero);
    assert_eq!(bump.lean_axis_amount, zero);
    assert_eq!(bump.bend_amount_pad, zero);
}

#[test]
fn uniforms_hold_the_bumps_and_zeros_after_them() {
    let mut blob = BlobParams::initial(&Machine);
    blob.bend_mode = 1;
    let block = blob.to_uniforms(&Machine, 5000);
    assert_eq!(block.center_rmin, [s(0.0), s(0.0), s(0.0), s(0.3)]);
    assert_eq!(block.counts, [2, 5000, 1, 0]);
    assert_eq!(block.bumps[0], blob.bumps[0].to_gpu(&Machine));
    assert_eq!(block.bumps[1], blob.bumps[1].to_gpu(&Machine));
    for i in 2..8 {
        assert_eq!(block.bumps[i], GpuBump::zeroed());
    }
}

#[test]
fn uniforms_have_room_for_eight_bumps() {
    let mut bumps: Vec<BumpParams> = (0..10).map(|i| bump(0.1 * i as f32, 0.0, 0.3, 8.0)).collect();
    let block = BlobParams::new(&Machine, s(0.3), bumps.clone()).to_uniforms(&Machine, 1);
    assert_eq!(block.counts[0], 10);
    for i in 0..8 {
        assert_eq!(block.bumps[i], bumps[i].to_gpu(&Machine));
    }
    bumps[9] = bump(3.0, 3.0, 0.9, 1.0);
    assert_eq!(BlobParams::new(&Machine, s(0.3), bumps).to_uniforms(&Machine, 1), block);
}

fn counted_block() -> BlobUniforms {
    let at = |k: u32| [Scalar(k), Scalar(k + 1), Scalar(k + 2), Scalar(k + 3)];
    let mut block = BlobUniforms { center_rmin: at(0), counts: [4, 5, 6, 7], bumps: [GpuBump::zeroed(); 8] };
    for i in 0..8u32 {
        let k = 8 + 16 * i;
        block.bumps[i as usize] = GpuBump {
            direction_amplitude: at(k),
            concentration_pad: at(k + 4),
            lean_axis_amount: at(k + 8),
            bend_amount_pad: at(k + 12),
        };
    }
    block
}

#[test]
fn words_stand_in_the_order_of_the_shader() {
    let words = counted_block().to_words();
    for k in 0..136u32 {
        assert_eq!(words[k as usize], k);
    }
}

#[test]
fn bytes_are_those_of_the_words_in_memory() {
    let block = BlobParams::initial(&Machine).to_uniforms(&Machine, 5000);
    let bytes = block.to_bytes();
    assert_eq!(bytes.len(), 544);
    for (k, word) in block.to_words().iter().enumerate() {
        assert_eq!(bytes[4 * k..4 * k + 4], word.to_ne_bytes());
    }
    assert_eq!(bytes[12..16], 0.3f32.to_ne_bytes());
}

#[test]
fn different_blocks_have_different_bytes() {
    let block = counted_block();
    let mut other = block;
    other.bumps[7].bend_amount_pad[3] = Scalar(0);
    assert_ne!(block.to_bytes(), other.to_bytes());
    assert_eq!(block.to_bytes(), counted_block().to_bytes());
}

// ── Frames ──

#[test]
fn workgroups_cover_the_particles() {
    for (particles, groups) in [(0u32, 0u32), (1, 1), (63, 1), (64, 1), (65, 2), (5000, 79), (u32::MAX - 63, 67108863)] {
        assert_eq!(workgroups_for(particles), groups);
        assert!(groups as u64 * 64 >= particles as u64);
    }
}

#[test]
fn a_frame_shows_the_blob_at_its_volume() {
    let mut blob = BlobParams::initial(&Machine);
    blob.target_volume = s(2.0);
    let mut expected = BlobParams::initial(&Machine);
    expected.target_volume = s(2.0);
    conserve_volume(&Machine, &mut expected);

    let frame = blob.next_frame(&Machine, 5000);
    assert_eq!(blob.r_min, expected.r_min);
    assert_eq!(blob.bumps, expected.bumps);
    assert_eq!(frame.uniforms, expected.to_uniforms(&Machine, 5000).to_bytes());
    assert_eq!(frame.workgroups, [79, 1, 1]);
    assert_eq!((frame.vertices, frame.instances), (6, 5000));
}

// ── Panel ──

fn text_of(control: Option<Control>) -> String {
    match control {
        None => "end".to_string(),
        Some(Control::Separator) => "---".to_string(),
        Some(Control::Label(text)) => text,
        Some(Control::Modes(modes)) => format!("{:?}", modes),
        Some(Control::Note(text)) => format!("({})", text),
        Some(Control::Slider { name, low, high, .. }) => format!("{} {}..={}", name, f(low), f(high)),
    }
}

#[test]
fn the_panel_lists_its_controls_in_order() {
    let mut blob = BlobParams::new(&Machine, s(0.3), vec![bump(1.0, 2.0, 0.3, 8.0)]);
    let limit = f(blob.bumps[0].max_bend(&Machine, s(0.3)));
    let shown: Vec<String> = (0..15).map(|k| text_of(blob.show(&Machine, k))).collect();
    assert_eq!(
        shown,
        vec![
            "volume 0.01..=10".to_string(),
            "---".to_string(),
            "Bend Mode".to_string(),
            "[(0, \"Ghost Sphere\"), (1, \"Joint Rotation\"), (2, \"Translation\")]".to_string(),
            "(Shifted evaluation origin — soft coherent curvature)".to_string(),
            "---".to_string(),
            "Bump 1".to_string(),
            "amplitude 0..=1".to_string(),
            "concentration 0.5..=20".to_string(),
            format!("theta 0..={}", PI),
            format!("phi 0..={}", TAU),
            format!("lean 0..={}", PI / 3.0),
            format!("lean direction 0..={}", TAU),
            format!("bend 0..={}", limit),
            "end".to_string(),
        ]
    );
}

#[test]
fn bumps_are_numbered_from_one() {
    let bumps: Vec<BumpParams> = (0..120).map(|_| bump(1.0, 2.0, 0.3, 8.0)).collect();
    let mut blob = BlobParams { r_min: s(0.3), bumps, target_volume: s(1.0), bend_mode: 0 };
    for i in [0usize, 8, 9, 10, 98, 99, 119] {
        assert_eq!(text_of(blob.show(&Machine, 5 + 9 * i + 1)), format!("Bump {}", i + 1));
    }
    assert_eq!(text_of(blob.show(&Machine, 5 + 9 * 120)), "end");
    assert_eq!(text_of(blob.show(&Machine, usize::MAX)), "end");
}

#[test]
fn each_mode_has_its_description() {
    assert_eq!(mode_description(0), "Shifted evaluation origin — soft coherent curvature");
    assert_eq!(mode_description(1), "Surface point pivots around bump foot — true geometric bend");
    assert_eq!(mode_description(2), "Direction offset — cheap baseline, tends to compress");
    assert_eq!(mode_description(3), "");
    assert_eq!(mode_description(u32::MAX), "");
}

#[test]
fn the_panel_brings_every_bump_within_its_limits() {
    let wild = leaning(1.0, 2.0, 0.5, 9.0, 9.0);
    let mild = leaning(1.0, 2.0, 0.5, 0.01, 0.0);
    let mut blob = BlobParams::new(&Machine, s(0.3), vec![wild, mild]);
    for k in 0..11 {
        blob.show(&Machine, k);
    }
    assert_eq!(blob.bumps, vec![wild, mild]);
    for k in 11..23 {
        blob.show(&Machine, k);
    }
    assert_eq!(blob.bumps[0].lean_amount, wild.max_lean());
    assert_eq!(blob.bumps[0].bend_amount, wild.max_bend(&Machine, s(0.3)));
    assert_eq!(blob.bumps[1], mild);
}

#[test]
fn limits_are_taken_of_the_shape_just_entered() {
    let mut blob = BlobParams::new(&Machine, s(0.3), vec![leaning(1.0, 2.0, 0.5, 0.1, 1.5)]);
    blob.enter(Field::Amplitude(0), s(0.9));
    blob.enter(Field::Concentration(0), s(20.0));
    let limit = f(bump(1.0, 2.0, 0.9, 20.0).max_bend(&Machine, s(0.3)));
    blob.show(&Machine, 11);
    assert_eq!(f(blob.bumps[0].bend_amount), 1.5f32.min(limit));
    assert_eq!(text_of(blob.show(&Machine, 13)), format!("bend 0..={}", limit));
}

#[test]
fn limiting_twice_changes_nothing_more() {
    let mut b = leaning(1.0, 2.0, 0.5, 9.0, 9.0);
    b.limit(&Machine, s(0.3));
    let once = b;
    b.limit(&Machine, s(0.3));
    assert_eq!(b, once);
    let mut odd = leaning(1.0, 2.0, 0.5, f32::NAN, f32::NAN);
    odd.limit(&Machine, s(0.3));
    assert_eq!(odd.lean_amount, odd.max_lean());
    assert_eq!(odd.bend_amount, odd.max_bend(&Machine, s(0.3)));
}

#[test]
fn entering_a_value_changes_one_field() {
    let fields = [
        Field::Volume,
        Field::Amplitude(1),
        Field::Concentration(1),
        Field::Theta(1),
        Field::Phi(1),
        Field::Lean(1),
        Field::LeanDirection(1),
        Field::Bend(1),
    ];
    for field in fields {
        let mut blob = BlobParams::initial(&Machine);
        let before: Vec<Scalar> = fields.iter().map(|other| blob.value(*other)).collect();
        let first = blob.bumps[0];
        blob.enter(field, s(0.125));
        assert_eq!(blob.value(field), s(0.125));
        for (k, other) in fields.iter().enumerate() {
            if *other != field {
                assert_eq!(blob.value(*other), before[k]);
            }
        }
        assert_eq!(blob.bumps[0], first);
        assert_eq!((f(blob.r_min), blob.bend_mode, blob.bumps.len()), (0.3, 0, 2));
    }
}

// ── Laws of the machine's arithmetic ──

/// Shapes that the panel offers, and some that it does not.
fn odd_shapes() -> Vec<(f32, f32, f32)> {
    let mut all = shapes();
    for odd in [f32::NAN, f32::INFINITY, f32::NEG_INFINITY, -0.5, 0.0, 1e-40, f32::MAX] {
        all.push((odd, 0.3, 0.3));
        all.push((8.0, odd, 0.3));
        all.push((8.0, 0.3, odd));
    }
    all
}

#[test]
fn bend_limit_lies_between_zero_and_a_quarter_turn() {
    for (c, a, r_min) in odd_shapes() {
        let limit = f(bump(0.0, 0.0, a, c).max_bend(&Machine, s(r_min)));
        assert!(0.0 <= limit && limit <= FRAC_PI_2, "{} for {:?}", limit, (c, a, r_min));
    }
}

#[test]
fn a_limited_bend_never_exceeds_its_limit() {
    for (c, a, r_min) in odd_shapes() {
        for bend in [0.0, 0.7, 9.0, f32::NAN, f32::INFINITY] {
            let mut b = bump(1.0, 2.0, a, c);
            b.lean_amount = s(bend);
            b.bend_amount = s(bend);
            b.limit(&Machine, s(r_min));
            assert!(f(b.bend_amount) <= f(b.max_bend(&Machine, s(r_min))));
            assert!(f(b.lean_amount) <= f(b.max_lean()));
        }
    }
}

#[test]
fn a_bend_just_past_the_limit_folds() {
    let mut seen = 0;
    for (c, a, r_min) in shapes() {
        let b = bump(0.0, 0.0, a, c);
        let limit = f(b.max_bend(&Machine, s(r_min)));
        if limit == FRAC_PI_2 || b.tangent_exists(&Machine, s(r_min), s(0.001)) {
            continue;
        }
        let mut bend = limit;
        let mut folds = false;
        while !folds && bend as f64 <= limit as f64 + 2.4e-7 {
            bend = f32::from_bits(bend.to_bits() + 1);
            folds = b.tangent_exists(&Machine, s(r_min), s(bend));
        }
        assert!(folds && bend > limit && bend as f64 - limit as f64 <= 2.4e-7, "{:?}", (c, a, r_min));
        seen += 1;
    }
    assert!(seen > 0);
}

#[test]
fn what_is_not_a_number_allows_the_widest_bend() {
    assert_eq!(bump(0.0, 0.0, 0.9, 20.0).max_bend(&Machine, s(f32::NAN)), s(FRAC_PI_2));
    assert_eq!(bump(0.0, 0.0, f32::NAN, 20.0).max_bend(&Machine, s(0.1)), s(FRAC_PI_2));
    assert_ne!(bump(0.0, 0.0, 0.9, 20.0).max_bend(&Machine, s(0.1)), s(FRAC_PI_2));
}

#[test]
fn bend_limit_does_not_depend_on_size() {
    for (c, a, r_min) in [(8.0f32, 0.3f32, 0.3f32), (2.0, 0.9, 0.1), (20.0, 1.0, 0.5), (0.5, 0.2, 0.7)] {
        let limit = bump(0.0, 0.0, a, c).max_bend(&Machine, s(r_min));
        assert_eq!(bump(0.0, 0.0, 2.0 * a, c).max_bend(&Machine, s(2.0 * r_min)), limit);
    }
}

#[test]
fn a_blob_of_twice_the_size_has_eight_times_the_volume() {
    let bumps = [bump(FRAC_PI_2, 0.0, 0.3, 8.0), bump(1.0, 4.0, 0.7, 2.0)];
    let larger = [bump(FRAC_PI_2, 0.0, 0.6, 8.0), bump(1.0, 4.0, 1.4, 2.0)];
    let volume = f(compute_volume(&Machine, s(0.3), &bumps));
    assert_eq!(f(compute_volume(&Machine, s(0.6), &larger)), 8.0 * volume);
}

#[test]
fn volume_is_what_it_was_set_to() {
    for target in [0.01f32, 0.5, 2.0, 10.0] {
        let mut blob = BlobParams::initial(&Machine);
        blob.target_volume = s(target);
        conserve_volume(&Machine, &mut blob);
        let volume = f(compute_volume(&Machine, blob.r_min, &blob.bumps));
        assert!((volume - target).abs() <= 1e-3 * target);
    }
}

#[test]
fn conserving_a_new_blob_changes_nothing() {
    for (c, a, r_min) in [(8.0f32, 0.3f32, 0.3f32), (2.0, 0.9, 0.1), (20.0, 1.0, 0.5)] {
        let bumps = vec![bump(FRAC_PI_2, 0.0, a, c), bump(1.0, 4.0, 0.5, 3.0)];
        let mut blob = BlobParams::new(&Machine, s(r_min), bumps.clone());
        conserve_volume(&Machine, &mut blob);
        assert_eq!((blob.r_min, blob.bumps), (s(r_min), bumps));
    }
}

#[test]
fn bumps_can_be_put_on_in_two_lots() {
    let bumps = [bump(FRAC_PI_2, 0.0, 0.3, 8.0), bump(1.0, 4.0, 0.7, 2.0), bump(2.0, 1.0, 0.4, 5.0)];
    let (theta, phi) = (s(0.8), s(2.5));
    let first = eval_r_cpu(&Machine, s(0.3), &bumps[..1], theta, phi);
    assert_eq!(
        eval_r_cpu(&Machine, first, &bumps[1..], theta, phi),
        eval_r_cpu(&Machine, s(0.3), &bumps, theta, phi)
    );
}

#[test]
fn the_height_of_a_direction_is_the_cosine_of_its_angle() {
    for theta in [0.0f32, 0.4, 1.5, 3.0] {
        for phi in [0.0, 1.0, 4.0] {
            let d = floats(bump(theta, phi, 0.3, 8.0).direction(&Machine));
            assert_eq!(d[1], theta.cos());
            assert!((wide_dot(d, d) - 1.0).abs() <= 6e-7);
        }
    }
}

/// The scalar product, without rounding to single precision.
fn wide_dot(v: [f32; 3], w: [f32; 3]) -> f64 {
    (0..3).map(|i| v[i] as f64 * w[i] as f64).sum()
}

/// Lean directions all over the sphere, near the poles too.
fn leans() -> Vec<BumpParams> {
    let mut all = Vec::new();
    for theta in [0.0f32, 0.05, 0.7, FRAC_PI_2, 2.4, 3.1, PI] {
        for phi in [0.0f32, 1.0, 2.5, 4.0, 6.0] {
            for lean_phi in [0.0f32, 0.3, FRAC_PI_2, 2.0, 5.0] {
                all.push(leaning(theta, phi, lean_phi, 0.4, 0.2));
            }
        }
    }
    all
}

#[test]
fn the_lean_axis_is_a_unit_vector_across_the_bump() {
    for b in leans() {
        let (d, axis) = (floats(b.direction(&Machine)), floats(b.lean_axis(&Machine)));
        assert!((wide_dot(axis, axis) - 1.0).abs() <= 6e-7);
        assert!(wide_dot(d, axis).abs() <= 1e-5);
    }
}

#[test]
fn the_shader_is_handed_unit_vectors_across_each_other() {
    for b in leans() {
        let packed = b.to_gpu(&Machine);
        let (d, a) = (packed.direction_amplitude.map(f), packed.lean_axis_amount.map(f));
        let (d, axis) = ([d[0], d[1], d[2]], [a[0], a[1], a[2]]);
        assert!((wide_dot(d, d) - 1.0).abs() <= 6e-7);
        assert!((wide_dot(axis, axis) - 1.0).abs() <= 6e-7);
        assert!(wide_dot(d, axis).abs() <= 1e-5);
    }
}

#[test]
fn the_lean_axis_turns_with_its_angle() {
    for b in leans() {
        let at = |angle: f32| {
            let mut turned = b;
            turned.lean_direction_phi = s(angle);
            floats(turned.lean_axis(&Machine))
        };
        let (angle, start, quarter) = (f(b.lean_direction_phi), at(0.0), at(FRAC_PI_2));
        for i in 0..3 {
            let blended = angle.cos() * start[i] + angle.sin() * quarter[i];
            assert!((at(angle)[i] - blended).abs() <= 1e-5);
        }
    }
}

#[test]
fn half_a_turn_flips_the_lean_axis() {
    for b in leans() {
        let mut opposite = b;
        opposite.lean_direction_phi = s(f(b.lean_direction_phi) + PI);
        let (here, there) = (floats(b.lean_axis(&Machine)), floats(opposite.lean_axis(&Machine)));
        for i in 0..3 {
            assert!((here[i] + there[i]).abs() <= 1e-5);
        }
    }
}

#[test]
fn a_bump_stays_between_the_sphere_and_its_amplitude() {
    let (r_min, amplitude) = (0.0f32, 0.7f32);
    for concentration in [0.0f32, 0.5, 8.0, 20.0] {
        let one = [bump(1.0, 4.0, amplitude, concentration)];
        let two = [one[0], bump(2.0, 1.0, 0.4, 5.0)];
        for i in 0..50 {
            for j in 0..50 {
                let (theta, phi) = (s(PI * i as f32 / 49.0), s(TAU * j as f32 / 49.0));
                let height = f(eval_r_cpu(&Machine, s(r_min), &one, theta, phi));
                assert!(0.0 <= height && height <= amplitude);
                let radius = f(eval_r_cpu(&Machine, s(0.3), &two, theta, phi));
                assert!(0.3 <= radius && radius <= 0.3 + amplitude + 0.4);
            }
        }
    }
}

#[test]
fn vertical_bumps_make_a_round_blob() {
    let bumps = [bump(0.0, 0.0, 0.3, 8.0), bump(0.0, 2.0, 0.7, 2.0)];
    for theta in [0.0f32, 0.3, 1.0, FRAC_PI_2, 2.0, PI] {
        let radius = eval_r_cpu(&Machine, s(0.3), &bumps, s(theta), s(0.0));
        for phi in [0.5f32, 1.7, 3.0, 5.9] {
            assert_eq!(eval_r_cpu(&Machine, s(0.3), &bumps, s(theta), s(phi)), radius);
        }
    }
}

#[test]
fn radius_falls_from_the_peak_to_the_far_side() {
    let peak = [bump(0.0, 0.0, 0.3, 8.0)];
    let mut last = f(eval_r_cpu(&Machine, s(0.3), &peak, s(0.0), s(1.0)));
    assert_eq!(last, 0.6);
    for k in 1..=100 {
        let radius = f(eval_r_cpu(&Machine, s(0.3), &peak, s(PI * k as f32 / 100.0), s(1.0)));
        assert!(radius <= last);
        last = radius;
    }
}

#[test]
fn volume_grows_with_the_sphere() {
    let bumps = [bump(FRAC_PI_2, 0.0, 0.3, 8.0), bump(1.0, 4.0, 0.7, 2.0)];
    let volume = |r_min: f32| f(compute_volume(&Machine, s(r_min), &bumps));
    assert!(volume(-0.4) <= volume(-0.1));
    assert!(volume(-0.1) <= volume(0.0));
    assert!(volume(0.0) <= volume(0.3));
    assert!(volume(0.3) <= volume(f32::from_bits(0.3f32.to_bits() + 1)));
    assert!(volume(0.3) < volume(0.4));
}

#[test]
fn one_more_bump_never_shrinks_the_volume() {
    let bumps = [bump(FRAC_PI_2, 0.0, 0.3, 8.0), bump(1.0, 4.0, 0.7, 2.0), bump(2.0, 1.0, 0.0, 5.0)];
    let volume = |n: usize| f(compute_volume(&Machine, s(0.3), &bumps[..n]));
    assert!(volume(0) < volume(1));
    assert!(volume(1) < volume(2));
    assert!(volume(2) <= volume(3));
}

#[test]
fn only_the_modes_on_offer_can_be_chosen() {
    let mut blob = BlobParams::initial(&Machine);
    for (mode, expected) in [(2, 2), (1, 1), (3, 1), (u32::MAX, 1), (0, 0)] {
        blob.choose_mode(mode);
        assert_eq!(blob.bend_mode, expected);
    }
    assert_eq!((f(blob.r_min), blob.bumps.len()), (0.3, 2));
}

#[test]
fn a_run_through_the_panel_keeps_every_bump_within_its_limits() {
    for share in [0.0f32, 0.5, 1.0] {
        let mut blob = BlobParams::initial(&Machine);
        for position in 0..23 {
            match blob.show(&Machine, position) {
                Some(Control::Slider { field, low, high, .. }) => {
                    blob.enter(field, s(f(low) + share * (f(high) - f(low))));
                }
                Some(Control::Modes(modes)) => {
                    blob.choose_mode(modes[1].0);
                }
                _ => {}
            }
        }
        assert_eq!((f(blob.r_min), blob.bumps.len(), blob.bend_mode), (0.3, 2, 1));
        for b in &blob.bumps {
            assert!(f(b.lean_amount) <= f(b.max_lean()));
            assert!(f(b.bend_amount) <= f(b.max_bend(&Machine, blob.r_min)));
        }
        let before = blob.bumps.clone();
        blob.next_frame(&Machine, 100);
        assert_eq!((blob.bumps.len(), blob.bend_mode), (2, 1));
        for (b, a) in before.iter().zip(blob.bumps.iter()) {
            let mut expected = *b;
            expected.amplitude = a.amplitude;
            assert_eq!(*a, expected);
        }
    }
}

#[test]
fn the_machine_meets_what_the_laws_ask_of_it() {
    let wide = |x: Scalar| f(x) as f64;
    assert_eq!((Machine.sin(s(0.0)), Machine.cos(s(0.0))), (s(0.0), s(1.0)));
    assert!(wide(Machine.cos(s(FRAC_PI_2))).abs() <= 1e-7);
    assert!((wide(Machine.sin(s(FRAC_PI_2))) - 1.0).abs() <= 1e-7);
    assert_eq!(Machine.cbrt(s(1.0)), s(1.0));
    for k in 0..=1000 {
        let angle = s(TAU * k as f32 / 1000.0);
        let (sine, cosine) = (wide(Machine.sin(angle)), wide(Machine.cos(angle)));
        assert!((sine * sine + cosine * cosine - 1.0).abs() <= 1.0 / 4194304.0);
        let opposite = s(f(angle) + PI);
        assert!((sine + wide(Machine.sin(opposite))).abs() <= 1e-6);
        assert!((cosine + wide(Machine.cos(opposite))).abs() <= 1e-6);
        let ratio = s(0.01 + k as f32 / 10.0);
        let root = wide(Machine.cbrt(ratio));
        assert!((root * root * root / wide(ratio) - 1.0).abs() <= 1.0 / 1048576.0);
        let (low, high) = (s(k as f32 / 50.0 - 20.0), s((k + 1) as f32 / 50.0 - 20.0));
        assert!(f(Machine.exp(low)) <= f(Machine.exp(high)));
        let (near, far) = (s(PI * k as f32 / 1001.0), s(PI * (k + 1) as f32 / 1001.0));
        assert!(f(Machine.cos(far)) <= f(Machine.cos(near)));
    }
    for b in leans() {
        let d = b.direction(&Machine);
        let up = if f(d[1]).abs() < 0.99 { [0.0, 1.0, 0.0] } else { [1.0, 0.0, 0.0] };
        let t = floats(Machine.normalize(Machine.cross(vector(up), d)));
        assert!((wide_dot(t, t) - 1.0).abs() <= 6e-7);
        assert!(wide_dot(floats(d), t).abs() <= 1e-5);
    }
}
