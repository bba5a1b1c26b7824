//! What is handed to the GPU for one frame.

use vstd::prelude::*;
use crate::blob::{conserve_volume, BlobParams};
use crate::bump::BumpParams;
use crate::math::{computes, Arithmetic, Math};
use crate::uniforms::{big_endian_bytes, little_endian_bytes};

verus! {

/// Particles that one workgroup of the compute shader handles.
pub const WORKGROUP_SIZE: u32 = 64;

/// Corners of the two triangles that a particle is drawn with.
pub const PARTICLE_VERTICES: u32 = 6;

/// One frame.
pub struct Frame {
    /// The bytes of the uniform block.
    pub uniforms: Vec<u8>,
    /// Workgroups of the compute pass, in each dimension.
    pub workgroups: [u32; 3],
    /// Vertices of the render pass, from zero.
    pub vertices: u32,
    /// Instances of the render pass, from zero.
    pub instances: u32,
}

/// Workgroups that it takes to handle a number of particles.
pub fn workgroups_for(num_particles: u32) -> (r: u32)
    requires
        num_particles + (WORKGROUP_SIZE - 1) <= u32::MAX,
    ensures
        r == (num_particles + 63) / 64,
{
    (num_particles + (WORKGROUP_SIZE - 1)) / WORKGROUP_SIZE
}

impl BlobParams {
    /// Brings the volume back to the one to keep, and lays out what the GPU
    /// needs to draw the blob with a number of particles.
    pub fn next_frame<M: Math>(&mut self, math: &M, num_particles: u32) -> (r: Frame)
        requires
            num_particles + (WORKGROUP_SIZE - 1) <= u32::MAX,
        ensures
            forall|on: Arithmetic| #[trigger]
                computes(math, on) ==> final(self).conserved_from(on, *old(self)),
            forall|on: Arithmetic| #[trigger] computes(math, on) ==> {
                let words = final(self).uniforms(on, num_particles).words();
                r.uniforms@ == little_endian_bytes(words) || r.uniforms@ == big_endian_bytes(words)
            },
            forall|on: Arithmetic| #[trigger]
                computes(math, on) ==> r.uniforms@ == final(self).uniforms(on, num_particles).bytes(),
            r.uniforms@.len() == 544,
            r.workgroups == [((num_particles + 63) / 64) as u32, 1u32, 1u32],
            r.vertices == PARTICLE_VERTICES,
            r.instances == num_particles,
            final(self).target_volume == old(self).target_volume,
            final(self).bend_mode == old(self).bend_mode,
            final(self).bumps@.len() == old(self).bumps@.len(),
            forall|i: int|
                0 <= i < old(self).bumps@.len() ==> #[trigger] final(self).bumps@[i] == (BumpParams {
                    amplitude: final(self).bumps@[i].amplitude,
                    ..old(self).bumps@[i]
                }),
    {
        conserve_volume(math, self);
        let uniforms = self.to_uniforms(math, num_particles).to_bytes();
        Frame {
            uniforms,
            workgroups: [workgroups_for(num_particles), 1, 1],
            vertices: PARTICLE_VERTICES,
            instances: num_particles,
        }
    }
}

/// The workgroups cover the particles, and none of them is idle: each particle
/// is handled by one lane of one of them, and the last has a particle.
pub proof fn workgroups_cover_particles(num_particles: u32, particle: u32)
    requires
        particle < num_particles,
    ensures
        ({
            let groups = (num_particles + 63) / 64;
            &&& 0 <= particle / 64 < groups
            &&& particle == 64 * (particle / 64) + particle % 64
            &&& 64 * (groups - 1) < num_particles <= 64 * groups
        }),
{
}

} // verus!
