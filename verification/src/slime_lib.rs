//! Slime-chunk rule of Minecraft Java Edition.
//!
//! A chunk is a slime chunk when a `java.util.Random`, seeded from the world
//! seed and the chunk coordinates, gives a first 31-bit draw divisible by 10.
use vstd::prelude::*;
use crate::int_math::{
    lemma_i32_wrapping_mul, lemma_i64_wrapping_add, lemma_i64_wrapping_mul, wrap_i32, wrap_i64,
    lemma_wrap_i32_mul_left, lemma_wrap_i32_range, lemma_wrap_i64_id, lemma_wrap_i64_add_left,
};
use crate::java_rng::{first_draw, lcg_modulus, lcg_next, top31, lcg_step, top31_bits, scramble, lemma_lcg_next_range};

verus! {

/// The seed that the game derives for chunk `(x, z)`:
/// `world_seed + (long)(x*x*4987142) + (long)(x*5947611) + (long)(z*z)*4392871L
///  + (long)(z*389711) ^ 987234911L`, with `int` and `long` arithmetic wrapping.
pub open spec fn chunk_seed(world_seed: i64, x: i32, z: i32) -> i64 {
    (wrap_i64(
        world_seed + wrap_i32(x * x * 4987142) + wrap_i32(x * 5947611) + wrap_i32(z * z) * 4392871
            + wrap_i32(z * 389711),
    ) as i64) ^ 987234911i64
}

/// Whether chunk `(x, z)` is a slime chunk: the first draw of the chunk's
/// generator, taken modulo 10, is 0.
pub open spec fn slime_at(world_seed: i64, x: i32, z: i32) -> bool {
    first_draw(chunk_seed(world_seed, x, z)) % 10 == 0
}

/// The chunk seed of `(x, z)` in world `world_seed`, computed with wrapping
/// `i32` and `i64` arithmetic.
fn java_chunk_seed(world_seed: i64, chunk_x: i32, chunk_z: i32) -> (r: i64)
    ensures
        r == chunk_seed(world_seed, chunk_x, chunk_z),
{
    let xx = chunk_x.wrapping_mul(chunk_x);
    let part1 = (xx.wrapping_mul(4_987_142)) as i64;
    let part2 = (chunk_x.wrapping_mul(5_947_611)) as i64;
    let zz = (chunk_z.wrapping_mul(chunk_z)) as i64;
    let part3 = zz.wrapping_mul(4_392_871);
    let part4 = (chunk_z.wrapping_mul(389_711)) as i64;
    let s1 = world_seed.wrapping_add(part1);
    let s2 = s1.wrapping_add(part2);
    let s3 = s2.wrapping_add(part3);
    let s4 = s3.wrapping_add(part4);
    proof {
        let x = chunk_x as int;
        let z = chunk_z as int;
        lemma_i32_wrapping_mul(chunk_x, chunk_x);
        lemma_i32_wrapping_mul(xx, 4_987_142);
        lemma_wrap_i32_mul_left(x * x, 4_987_142);
        lemma_i32_wrapping_mul(chunk_x, 5_947_611);
        lemma_i32_wrapping_mul(chunk_z, chunk_z);
        lemma_i64_wrapping_mul(zz, 4_392_871);
        lemma_wrap_i32_range(z * z);
        lemma_wrap_i64_id(wrap_i32(z * z) * 4_392_871);
        lemma_i32_wrapping_mul(chunk_z, 389_711);
        lemma_i64_wrapping_add(world_seed, part1);
        lemma_i64_wrapping_add(s1, part2);
        lemma_i64_wrapping_add(s2, part3);
        lemma_i64_wrapping_add(s3, part4);
        let p1 = part1 as int;
        let p2 = part2 as int;
        let p3 = part3 as int;
        let p4 = part4 as int;
        let w = world_seed as int;
        lemma_wrap_i64_add_left(w + p1, p2);
        lemma_wrap_i64_add_left(w + p1 + p2, p3);
        lemma_wrap_i64_add_left(w + p1 + p2 + p3, p4);
    }
    s4 ^ 987_234_911
}

/// One `next(bits)` call of the generator: advance the state, then return
/// its top `bits` bits.
fn next(seed: &mut i64, bits: i32) -> (r: i32)
    requires
        0 <= *old(seed) < lcg_modulus(),
        bits == 31,
    ensures
        *final(seed) as int == lcg_next(*old(seed) as int),
        r as int == top31(*final(seed) as int),
{
    *seed = lcg_step(*seed);
    proof {
        lemma_lcg_next_range(*old(seed) as int);
    }
    top31_bits(*seed)
}

/// Whether chunk `(chunk_x, chunk_z)` is a slime chunk in world `world_seed`.
pub fn is_slime_chunk(world_seed: i64, chunk_x: i32, chunk_z: i32) -> (r: bool)
    ensures
        r == slime_at(world_seed, chunk_x, chunk_z),
{
    let seed = java_chunk_seed(world_seed, chunk_x, chunk_z);
    let mut rng_seed = scramble(seed);
    let bits = next(&mut rng_seed, 31);
    bits % 10 == 0
}

} // verus!
