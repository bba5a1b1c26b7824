//! The blob as the compute shader reads it.
//!
//! The shader sees one block of 136 words of 32 bits: the centre and the least
//! radius, four counts, and eight bumps of sixteen words each.

use vstd::prelude::*;
use crate::blob::BlobParams;
use crate::bump::BumpParams;
use crate::math::{computes, Arithmetic, Math};
use crate::scalar::{Scalar, ZERO};

verus! {

/// Bumps that the shader has room for.
pub const SLOTS: usize = 8;

/// Words of one bump.
pub const BUMP_WORDS: usize = 16;

/// Words of the whole block.
pub const WORDS: usize = 136;

/// One bump, as four vectors of four numbers.
#[derive(Clone, Copy, PartialEq, Eq, Debug)]
pub struct GpuBump {
    /// xyz = bump direction, w = amplitude
    pub direction_amplitude: [Scalar; 4],
    /// x = concentration, yzw unused
    pub concentration_pad: [Scalar; 4],
    /// xyz = lean rotation axis, w = lean amount
    pub lean_axis_amount: [Scalar; 4],
    /// x = bend amount, yzw unused
    pub bend_amount_pad: [Scalar; 4],
}

/// The whole block.
#[derive(Clone, Copy, PartialEq, Eq, Debug)]
pub struct BlobUniforms {
    /// xyz = centre, w = least radius
    pub center_rmin: [Scalar; 4],
    /// x = number of bumps, y = number of particles, z = bend mode, w unused
    pub counts: [u32; 4],
    /// The bumps.
    pub bumps: [GpuBump; 8],
}

/// Words that are all zero, by `bytemuck::Zeroable::zeroed`, which makes a
/// value of zero bytes.
#[verifier::external_body]
fn zeroed_words() -> (r: [u32; 16])
    ensures
        forall|i: int| 0 <= i < 16 ==> #[trigger] r@[i] == 0,
{
    bytemuck::Zeroable::zeroed()
}

/// The four bytes of a word, the least significant first.
pub open spec fn little_endian(word: u32) -> Seq<u8> {
    seq![
        (word % 0x100) as u8,
        (word / 0x100 % 0x100) as u8,
        (word / 0x1_0000 % 0x100) as u8,
        (word / 0x100_0000) as u8,
    ]
}

/// The bytes of several words, the least significant byte of each first.
pub open spec fn little_endian_bytes(words: Seq<u32>) -> Seq<u8> {
    Seq::new(4 * words.len(), |i: int| little_endian(words[i / 4])[i % 4])
}

/// The bytes of several words, the most significant byte of each first.
pub open spec fn big_endian_bytes(words: Seq<u32>) -> Seq<u8> {
    Seq::new(4 * words.len(), |i: int| little_endian(words[i / 4])[3 - i % 4])
}

/// Does the machine store the least significant byte of a word first? One
/// answer holds for all words of all blocks; which one it is, is left open.
pub closed spec fn least_byte_first() -> bool {
    arbitrary()
}

/// The bytes of several words as the machine stores them: the words in order,
/// each in the byte order of the machine.
pub open spec fn stored_bytes(words: Seq<u32>) -> Seq<u8> {
    if least_byte_first() {
        little_endian_bytes(words)
    } else {
        big_endian_bytes(words)
    }
}

/// The words in memory, by `bytemuck::bytes_of`, which reads a value as the
/// bytes it is stored in: four for each word, in the order of the words, and
/// in the byte order of the machine, which is the same at every call. Which of
/// the two orders that is, the machine decides; it is left open here.
#[verifier::external_body]
fn bytes_of_words(words: &[u32; 136]) -> (r: Vec<u8>)
    ensures
        r@ == stored_bytes(words@),
{
    bytemuck::bytes_of(words).to_vec()
}

impl GpuBump {
    /// All numbers are zero.
    pub open spec fn zero() -> GpuBump {
        let zero = Scalar(ZERO);
        GpuBump {
            direction_amplitude: [zero, zero, zero, zero],
            concentration_pad: [zero, zero, zero, zero],
            lean_axis_amount: [zero, zero, zero, zero],
            bend_amount_pad: [zero, zero, zero, zero],
        }
    }

    /// The vectors, one after the other.
    pub open spec fn vectors(self) -> Seq<[Scalar; 4]> {
        seq![self.direction_amplitude, self.concentration_pad, self.lean_axis_amount, self.bend_amount_pad]
    }

    /// Word `k` of the bump.
    pub open spec fn word(self, k: int) -> u32 {
        self.vectors()[k / 4][k % 4].0
    }

    /// A bump whose numbers are all zero.
    pub fn zeroed() -> (r: GpuBump)
        ensures
            r == GpuBump::zero(),
    {
        let w = zeroed_words();
        GpuBump {
            direction_amplitude: [Scalar(w[0]), Scalar(w[1]), Scalar(w[2]), Scalar(w[3])],
            concentration_pad: [Scalar(w[4]), Scalar(w[5]), Scalar(w[6]), Scalar(w[7])],
            lean_axis_amount: [Scalar(w[8]), Scalar(w[9]), Scalar(w[10]), Scalar(w[11])],
            bend_amount_pad: [Scalar(w[12]), Scalar(w[13]), Scalar(w[14]), Scalar(w[15])],
        }
    }

    /// Word `k` of the bump.
    fn word_at(&self, k: usize) -> (r: u32)
        requires
            k < BUMP_WORDS,
        ensures
            r == self.word(k as int),
    {
        if k < 4 {
            self.direction_amplitude[k].0
        } else if k < 8 {
            self.concentration_pad[k - 4].0
        } else if k < 12 {
            self.lean_axis_amount[k - 8].0
        } else {
            self.bend_amount_pad[k - 12].0
        }
    }
}

impl BlobUniforms {
    /// Word `k` of the block.
    pub open spec fn word(self, k: int) -> u32 {
        if k < 4 {
            self.center_rmin[k].0
        } else if k < 8 {
            self.counts[k - 4]
        } else {
            self.bumps[(k - 8) / BUMP_WORDS as int].word((k - 8) % BUMP_WORDS as int)
        }
    }

    /// The words of the block, in the order in which they are stored.
    pub open spec fn words(self) -> Seq<u32> {
        Seq::new(WORDS as nat, |k: int| self.word(k))
    }

    /// The words of the block, in the order in which they are stored.
    pub fn to_words(&self) -> (r: [u32; 136])
        ensures
            r@ == self.words(),
    {
        let mut r: [u32; 136] = [0; 136];
        let mut k: usize = 0;
        while k < WORDS
            invariant
                k <= WORDS,
                forall|i: int| 0 <= i < k ==> #[trigger] r@[i] == self.word(i),
            decreases WORDS - k,
        {
            r[k] = if k < 4 {
                self.center_rmin[k].0
            } else if k < 8 {
                self.counts[k - 4]
            } else {
                self.bumps[(k - 8) / BUMP_WORDS].word_at((k - 8) % BUMP_WORDS)
            };
            k = k + 1;
        }
        assert(r@ =~= self.words());
        r
    }

    /// The block as the bytes that go to the shader.
    pub open spec fn bytes(self) -> Seq<u8> {
        stored_bytes(self.words())
    }

    /// The block as the bytes that go to the shader, in the byte order of the
    /// machine, whichever of the two that is.
    pub fn to_bytes(&self) -> (r: Vec<u8>)
        ensures
            r@ == self.bytes(),
            r@ == little_endian_bytes(self.words()) || r@ == big_endian_bytes(self.words()),
    {
        bytes_of_words(&self.to_words())
    }
}

/// What slot `i` of the block holds: bump `i`, or zeros where there is none.
pub open spec fn slot(on: Arithmetic, bumps: Seq<BumpParams>, i: int) -> GpuBump {
    if i < bumps.len() {
        bumps[i].packed(on)
    } else {
        GpuBump::zero()
    }
}

impl BlobParams {
    /// The blob as the shader reads it.
    pub open spec fn uniforms(self, on: Arithmetic, num_particles: u32) -> BlobUniforms {
        let zero = Scalar(ZERO);
        let bumps = self.bumps@;
        BlobUniforms {
            center_rmin: [zero, zero, zero, self.r_min],
            counts: [bumps.len() as u32, num_particles, self.bend_mode, 0],
            bumps: [
                slot(on, bumps, 0),
                slot(on, bumps, 1),
                slot(on, bumps, 2),
                slot(on, bumps, 3),
                slot(on, bumps, 4),
                slot(on, bumps, 5),
                slot(on, bumps, 6),
                slot(on, bumps, 7),
            ],
        }
    }

    /// The blob as the shader reads it, at the origin. The first eight bumps
    /// fill the slots in order; the others are counted and left out.
    pub fn to_uniforms<M: Math>(&self, math: &M, num_particles: u32) -> (r: BlobUniforms)
        ensures
            forall|on: Arithmetic| #[trigger]
                computes(math, on) ==> r == self.uniforms(on, num_particles),
            r.center_rmin == [Scalar(ZERO), Scalar(ZERO), Scalar(ZERO), self.r_min],
            r.counts == [self.bumps@.len() as u32, num_particles, self.bend_mode, 0u32],
            forall|i: int| self.bumps@.len() <= i < SLOTS ==> #[trigger] r.bumps[i] == GpuBump::zero(),
    {
        let mut gpu_bumps: [GpuBump; 8] = [GpuBump::zeroed(); 8];
        let mut i: usize = 0;
        while i < self.bumps.len() && i < SLOTS
            invariant
                i <= self.bumps@.len(),
                i <= SLOTS,
                forall|k: int| i <= k < SLOTS ==> #[trigger] gpu_bumps[k] == GpuBump::zero(),
                forall|on: Arithmetic| #[trigger]
                    computes(math, on) ==> forall|k: int|
                        0 <= k < i ==> #[trigger] gpu_bumps[k] == self.bumps@[k].packed(on),
            decreases SLOTS - i,
        {
            gpu_bumps[i] = self.bumps[i].to_gpu(math);
            i = i + 1;
        }
        let zero = Scalar(ZERO);
        assert(forall|on: Arithmetic| #[trigger]
            computes(math, on) ==> gpu_bumps =~= self.uniforms(on, num_particles).bumps);
        BlobUniforms {
            center_rmin: [zero, zero, zero, self.r_min],
            counts: [self.bumps.len() as u32, num_particles, self.bend_mode, 0],
            bumps: gpu_bumps,
        }
    }
}

/// The axis that a bump is packed with is the one it leans about.
pub proof fn packed_axis_is_lean_axis(bump: BumpParams, on: Arithmetic)
    ensures
        forall|k: int| 0 <= k < 3 ==> #[trigger] bump.packed(on).lean_axis_amount[k] == bump.leans_about(on)[k],
        forall|k: int| 0 <= k < 3 ==> #[trigger] bump.packed(on).direction_amplitude[k] == bump.points_along(on)[k],
{
}

/// The block is made of the first eight bumps and of how many there are: what
/// the others are makes no difference.
pub proof fn uniforms_hold_first_bumps(a: BlobParams, b: BlobParams, on: Arithmetic, num_particles: u32)
    requires
        a.r_min == b.r_min,
        a.bend_mode == b.bend_mode,
        a.bumps@.len() == b.bumps@.len(),
        forall|i: int| 0 <= i < SLOTS && i < a.bumps@.len() ==> #[trigger] a.bumps@[i] == b.bumps@[i],
    ensures
        a.uniforms(on, num_particles) == b.uniforms(on, num_particles),
{
    assert forall|i: int| 0 <= i < SLOTS implies #[trigger] slot(on, a.bumps@, i) == slot(on, b.bumps@, i) by {
        if i < a.bumps@.len() {
            assert(a.bumps@[i] == b.bumps@[i]);
        }
    }
}

/// Bump `i` of the block starts at word `8 + 16 * i`.
pub proof fn bump_starts_at(block: BlobUniforms, i: int, k: int)
    requires
        0 <= i < SLOTS,
        0 <= k < BUMP_WORDS,
    ensures
        block.words()[8 + 16 * i + k] == block.bumps[i].word(k),
{
    assert((16 * i + k) / 16 == i && (16 * i + k) % 16 == k);
}

/// Bumps of the same words are the same.
proof fn lemma_bump_words(a: GpuBump, b: GpuBump)
    requires
        forall|k: int| 0 <= k < BUMP_WORDS ==> #[trigger] a.word(k) == b.word(k),
    ensures
        a == b,
{
    assert forall|v: int, n: int| 0 <= v < 4 && 0 <= n < 4 implies #[trigger] a.vectors()[v][n]
        == b.vectors()[v][n] by {
        let k = 4 * v + n;
        assert(k / 4 == v && k % 4 == n);
        assert(a.word(k) == b.word(k));
    }
    assert forall|v: int| 0 <= v < 4 implies #[trigger] a.vectors()[v] == b.vectors()[v] by {
        assert(a.vectors()[v] =~= b.vectors()[v]) by {
            assert forall|n: int| 0 <= n < 4 implies a.vectors()[v][n] == b.vectors()[v][n] by {}
        }
    }
    assert(a.direction_amplitude == a.vectors()[0] && b.direction_amplitude == b.vectors()[0]);
    assert(a.concentration_pad == a.vectors()[1] && b.concentration_pad == b.vectors()[1]);
    assert(a.lean_axis_amount == a.vectors()[2] && b.lean_axis_amount == b.vectors()[2]);
    assert(a.bend_amount_pad == a.vectors()[3] && b.bend_amount_pad == b.vectors()[3]);
}

/// No number of the block is lost in its words: blocks of the same words are
/// the same.
pub proof fn words_determine_block(a: BlobUniforms, b: BlobUniforms)
    requires
        a.words() == b.words(),
    ensures
        a == b,
{
    assert forall|k: int| 0 <= k < WORDS implies #[trigger] a.word(k) == b.word(k) by {
        assert(a.words()[k] == a.word(k) && b.words()[k] == b.word(k));
    }
    assert forall|k: int| 0 <= k < 4 implies #[trigger] a.center_rmin[k] == b.center_rmin[k] by {
        assert(a.word(k) == b.word(k));
    }
    assert(a.center_rmin =~= b.center_rmin);
    assert forall|k: int| 0 <= k < 4 implies #[trigger] a.counts[k] == b.counts[k] by {
        assert(a.word(4 + k) == b.word(4 + k));
    }
    assert(a.counts =~= b.counts);
    assert forall|i: int| 0 <= i < SLOTS implies #[trigger] a.bumps[i] == b.bumps[i] by {
        assert forall|k: int| 0 <= k < BUMP_WORDS implies #[trigger] a.bumps[i].word(k) == b.bumps[i].word(k) by {
            bump_starts_at(a, i, k);
            bump_starts_at(b, i, k);
        }
        lemma_bump_words(a.bumps[i], b.bumps[i]);
    }
    assert(a.bumps =~= b.bumps);
}

/// The bytes of a word give it back.
proof fn lemma_bytes_of_word(a: u32, b: u32)
    requires
        forall|n: int| 0 <= n < 4 ==> #[trigger] little_endian(a)[n] == little_endian(b)[n],
    ensures
        a == b,
{
    assert(little_endian(a)[0] == little_endian(b)[0]);
    assert(little_endian(a)[1] == little_endian(b)[1]);
    assert(little_endian(a)[2] == little_endian(b)[2]);
    assert(little_endian(a)[3] == little_endian(b)[3]);
}

/// No word is lost in the bytes, whatever the byte order of the machine: as
/// many words with the same bytes are the same words.
pub proof fn bytes_determine_words(a: Seq<u32>, b: Seq<u32>)
    requires
        a.len() == b.len(),
        little_endian_bytes(a) == little_endian_bytes(b) || big_endian_bytes(a) == big_endian_bytes(b),
    ensures
        a == b,
{
    assert forall|i: int| 0 <= i < a.len() implies #[trigger] a[i] == b[i] by {
        assert forall|n: int| 0 <= n < 4 implies #[trigger] little_endian(a[i])[n] == little_endian(b[i])[n] by {
            if little_endian_bytes(a) == little_endian_bytes(b) {
                let k = 4 * i + n;
                assert(k / 4 == i && k % 4 == n);
                assert(little_endian_bytes(a)[k] == little_endian_bytes(b)[k]);
            } else {
                let k = 4 * i + (3 - n);
                assert(k / 4 == i && k % 4 == 3 - n);
                assert(big_endian_bytes(a)[k] == big_endian_bytes(b)[k]);
            }
        }
        lemma_bytes_of_word(a[i], b[i]);
    }
    assert(a =~= b);
}

/// No number of the block is lost in its bytes, whatever the byte order of the
/// machine: blocks of the same bytes are the same.
pub proof fn bytes_determine_block(a: BlobUniforms, b: BlobUniforms)
    requires
        little_endian_bytes(a.words()) == little_endian_bytes(b.words()) || big_endian_bytes(a.words())
            == big_endian_bytes(b.words()),
    ensures
        a == b,
{
    bytes_determine_words(a.words(), b.words());
    words_determine_block(a, b);
}

/// Where each number of a block stands among its words.
pub proof fn words_of_block(block: BlobUniforms)
    ensures
        block.words().len() == 136,
        forall|n: int| 0 <= n < 4 ==> #[trigger] block.words()[n] == block.center_rmin[n].0,
        forall|n: int| 0 <= n < 4 ==> block.words()[4 + n] == #[trigger] block.counts[n],
        forall|i: int, n: int|
            #![trigger block.bumps[i].direction_amplitude[n]]
            0 <= i < 8 && 0 <= n < 4 ==> block.words()[8 + 16 * i + n] == block.bumps[i].direction_amplitude[n].0,
        forall|i: int, n: int|
            #![trigger block.bumps[i].concentration_pad[n]]
            0 <= i < 8 && 0 <= n < 4 ==> block.words()[12 + 16 * i + n] == block.bumps[i].concentration_pad[n].0,
        forall|i: int, n: int|
            #![trigger block.bumps[i].lean_axis_amount[n]]
            0 <= i < 8 && 0 <= n < 4 ==> block.words()[16 + 16 * i + n] == block.bumps[i].lean_axis_amount[n].0,
        forall|i: int, n: int|
            #![trigger block.bumps[i].bend_amount_pad[n]]
            0 <= i < 8 && 0 <= n < 4 ==> block.words()[20 + 16 * i + n] == block.bumps[i].bend_amount_pad[n].0,
{
    assert forall|i: int, n: int|
        #![trigger block.bumps[i].direction_amplitude[n]]
        0 <= i < 8 && 0 <= n < 4 implies block.words()[8 + 16 * i + n] == block.bumps[i].direction_amplitude[n].0 by {
        bump_starts_at(block, i, n);
    }
    assert forall|i: int, n: int|
        #![trigger block.bumps[i].concentration_pad[n]]
        0 <= i < 8 && 0 <= n < 4 implies block.words()[12 + 16 * i + n] == block.bumps[i].concentration_pad[n].0 by {
        bump_starts_at(block, i, 4 + n);
        assert((4 + n) / 4 == 1 && (4 + n) % 4 == n);
    }
    assert forall|i: int, n: int|
        #![trigger block.bumps[i].lean_axis_amount[n]]
        0 <= i < 8 && 0 <= n < 4 implies block.words()[16 + 16 * i + n] == block.bumps[i].lean_axis_amount[n].0 by {
        bump_starts_at(block, i, 8 + n);
        assert((8 + n) / 4 == 2 && (8 + n) % 4 == n);
    }
    assert forall|i: int, n: int|
        #![trigger block.bumps[i].bend_amount_pad[n]]
        0 <= i < 8 && 0 <= n < 4 implies block.words()[20 + 16 * i + n] == block.bumps[i].bend_amount_pad[n].0 by {
        bump_starts_at(block, i, 12 + n);
        assert((12 + n) / 4 == 3 && (12 + n) % 4 == n);
    }
}

/// All blocks are stored in one byte order: if one word of one block has its
/// least significant byte first and its bytes are not the same both ways, every
/// word of every block has its least significant byte first; and likewise with
/// the most significant byte. Whatever the order, the four bytes at `4 * k` make
/// up word `k`, and there are no others.
pub proof fn blocks_share_byte_order(a: BlobUniforms, j: int, b: BlobUniforms, k: int)
    requires
        0 <= j < 136,
        0 <= k < 136,
    ensures
        a.bytes().len() == 544,
        ({
            let (v, w) = (a.words()[j], b.words()[k]);
            let (p, q, r, s) = (a.bytes()[4 * j], a.bytes()[4 * j + 1], a.bytes()[4 * j + 2], a.bytes()[4 * j + 3]);
            let (x, y, z, t) = (b.bytes()[4 * k], b.bytes()[4 * k + 1], b.bytes()[4 * k + 2], b.bytes()[4 * k + 3]);
            ||| v == p + 0x100 * q + 0x1_0000 * r + 0x100_0000 * s && w == x + 0x100 * y + 0x1_0000 * z + 0x100_0000 * t
            ||| v == s + 0x100 * r + 0x1_0000 * q + 0x100_0000 * p && w == t + 0x100 * z + 0x1_0000 * y + 0x100_0000 * x
        }),
{
    lemma_stored_word(a.words(), j);
    lemma_stored_word(b.words(), k);
    lemma_word_of_bytes(a.words()[j]);
    lemma_word_of_bytes(b.words()[k]);
}

/// A word is made up of its bytes.
proof fn lemma_word_of_bytes(w: u32)
    ensures
        ({
            let l = little_endian(w);
            w == l[0] + 0x100 * l[1] + 0x1_0000 * l[2] + 0x100_0000 * l[3]
        }),
{
    let l = little_endian(w);
    let (p, q, r) = (w / 0x100, w / 0x1_0000, w / 0x100_0000);
    assert(w == 0x100 * p + w % 0x100);
    assert(p == 0x100 * q + p % 0x100);
    assert(q == 0x100 * r + q % 0x100);
    assert(l[0] == w % 0x100 && l[1] == p % 0x100 && l[2] == q % 0x100 && l[3] == r);
}

/// The four bytes of one of several words.
proof fn lemma_stored_word(words: Seq<u32>, k: int)
    requires
        0 <= k < words.len(),
    ensures
        ({
            let (bytes, l, i) = (stored_bytes(words), little_endian(words[k]), 4 * k);
            if least_byte_first() {
                bytes[i] == l[0] && bytes[i + 1] == l[1] && bytes[i + 2] == l[2] && bytes[i + 3] == l[3]
            } else {
                bytes[i] == l[3] && bytes[i + 1] == l[2] && bytes[i + 2] == l[1] && bytes[i + 3] == l[0]
            }
        }),
{
    let i = 4 * k;
    assert(i / 4 == k && i % 4 == 0);
    assert((i + 1) / 4 == k && (i + 1) % 4 == 1);
    assert((i + 2) / 4 == k && (i + 2) % 4 == 2);
    assert((i + 3) / 4 == k && (i + 3) % 4 == 3);
}

/// Where each number of a blob stands in the block that is made of it: the
/// origin and the radius, the number of bumps, the number of particles, the
/// mode, and sixteen words for each bump. Words that nothing is put into, and
/// slots that have no bump, are zero.
pub proof fn block_holds_blob(params: BlobParams, on: Arithmetic, num_particles: u32, i: int)
    requires
        0 <= i < 8,
    ensures
        ({
            let words = params.uniforms(on, num_particles).words();
            &&& words[0] == 0 && words[1] == 0 && words[2] == 0
            &&& words[3] == params.r_min.0
            &&& words[4] == params.bumps@.len() as u32
            &&& words[5] == num_particles
            &&& words[6] == params.bend_mode
            &&& words[7] == 0
            &&& i < params.bumps@.len() ==> {
                let (bump, start) = (params.bumps@[i], 8 + 16 * i);
                let (d, axis) = (bump.points_along(on), bump.leans_about(on));
                &&& words[start] == d[0].0 && words[start + 1] == d[1].0 && words[start + 2] == d[2].0
                &&& words[start + 3] == bump.amplitude.0
                &&& words[start + 4] == bump.concentration.0
                &&& words[start + 5] == 0 && words[start + 6] == 0 && words[start + 7] == 0
                &&& words[start + 8] == axis[0].0 && words[start + 9] == axis[1].0 && words[start + 10] == axis[2].0
                &&& words[start + 11] == bump.lean_amount.0
                &&& words[start + 12] == bump.bend_amount.0
                &&& words[start + 13] == 0 && words[start + 14] == 0 && words[start + 15] == 0
            }
            &&& i >= params.bumps@.len() ==> forall|k: int| 8 + 16 * i <= k < 24 + 16 * i ==> #[trigger] words[k] == 0
        }),
{
    let block = params.uniforms(on, num_particles);
    let words = block.words();
    let b = block.bumps[i];
    assert(b == slot(on, params.bumps@, i));
    assert forall|k: int| 0 <= k < 16 implies words[8 + 16 * i + k] == #[trigger] b.word(k) by {
        bump_starts_at(block, i, k);
    }
    assert(b.word(0) == b.direction_amplitude[0].0 && b.word(1) == b.direction_amplitude[1].0);
    assert(b.word(2) == b.direction_amplitude[2].0 && b.word(3) == b.direction_amplitude[3].0);
    assert(b.word(4) == b.concentration_pad[0].0 && b.word(5) == b.concentration_pad[1].0);
    assert(b.word(6) == b.concentration_pad[2].0 && b.word(7) == b.concentration_pad[3].0);
    assert(b.word(8) == b.lean_axis_amount[0].0 && b.word(9) == b.lean_axis_amount[1].0);
    assert(b.word(10) == b.lean_axis_amount[2].0 && b.word(11) == b.lean_axis_amount[3].0);
    assert(b.word(12) == b.bend_amount_pad[0].0 && b.word(13) == b.bend_amount_pad[1].0);
    assert(b.word(14) == b.bend_amount_pad[2].0 && b.word(15) == b.bend_amount_pad[3].0);
    if i >= params.bumps@.len() {
        assert forall|k: int| 8 + 16 * i <= k < 24 + 16 * i implies #[trigger] words[k] == 0 by {
            assert(b.word(k - 8 - 16 * i) == 0);
        }
    }
}

} // verus!
