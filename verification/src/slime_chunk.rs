//! Slime-chunk checks built for speed: precomputed per-column and per-row
//! seed contributions, the unbiased `nextInt` variant, and lane-wise checks of
//! sixteen consecutive chunks.
use vstd::prelude::*;
use crate::int_math::{
    lemma_i32_wrapping_mul, lemma_i64_wrapping_add, lemma_i64_wrapping_mul, lemma_i32_triple,
    wrap_i32, wrap_i64, lemma_wrap_i32_range, lemma_wrap_i32_id, lemma_wrap_i64_id,
    lemma_wrap_i64_add_left, lemma_wrap_i64_mod_pow2_48,
};
use crate::java_rng::{
    LCG_MULT, LCG_ADD, LCG_MASK, first_draw, lcg_modulus, lcg_next, top31, draw_accepted,
    next_int_10, scrambled, top31_bits, lemma_lcg_next_range, lemma_mask_is_mod,
    lemma_no_double_rejection,
};
use crate::slime_lib::{chunk_seed, slime_at};

verus! {

const C_X2: i32 = 4987142;

const C_X1: i32 = 5947611;

const C_Z2: i32 = 4392871;

const C_Z1: i32 = 389711;

const XOR_MASK: i64 = 987234911;

const BOUND: i32 = 10;

const TARGET: i32 = 0;

/// Contribution of column `x` to a chunk seed: `(long)(x*x*4987142) + (long)(x*5947611)`.
pub open spec fn fx_of(x: i32) -> int {
    wrap_i32(x * x * 4987142) + wrap_i32(x * 5947611)
}

/// Contribution of row `z` to a chunk seed, with `z*z` taken at full 64-bit
/// width: `z*z*4392871 + (long)(z*389711)`, wrapped to 64 bits. Where
/// `|z| > 46340`, `z*z` no longer fits an `int`, and this differs from the
/// row term of [`crate::slime_lib`], which wraps `z*z` at 32 bits.
pub open spec fn fz_of(z: i32) -> int {
    wrap_i64(z * z * 4392871 + wrap_i32(z * 389711))
}

/// Slime test on precomputed column and row contributions.
pub open spec fn slime_fast(fx: i64, fz: i64, world_seed: i64) -> bool {
    first_draw((wrap_i64(world_seed + fx + fz) as i64) ^ 987234911i64) % 10 == 0
}

/// Slime test with the unbiased `nextInt(10)`.
pub open spec fn slime_unbiased(world_seed: i64, x: i32, z: i32) -> bool {
    next_int_10(chunk_seed(world_seed, x, z)) == 0
}

/// Slime test with the biased `next(31) % 10`.
pub open spec fn slime_biased(world_seed: i64, x: i32, z: i32) -> bool {
    first_draw(chunk_seed(world_seed, x, z)) % 10 == 0
}


/// Column contribution `(long)(x*x*4987142) + (long)(x*5947611)`.
pub fn compute_fx(x: i32) -> (r: i64)
    ensures
        r as int == fx_of(x),
{
    let term1 = (x.wrapping_mul(x).wrapping_mul(C_X2)) as i64;
    let term2 = (x.wrapping_mul(C_X1)) as i64;
    proof {
        lemma_i32_triple(x, x, C_X2);
        lemma_i32_wrapping_mul(x, C_X1);
    }
    term1 + term2
}

/// Row contribution `z*z*4392871 + (long)(z*389711)`, with `z*z` at 64-bit
/// width and the sum wrapping at 64 bits.
pub fn compute_fz(z: i32) -> (r: i64)
    ensures
        r as int == fz_of(z),
{
    let zl = z as i64;
    proof {
        assert(0 <= zl * zl <= 0x4000_0000_0000_0000) by (nonlinear_arith)
            requires
                -0x8000_0000 <= zl <= 0x7fff_ffff,
        ;
    }
    let zz = zl * zl;
    let term3 = zz.wrapping_mul(C_Z2 as i64);
    let term4 = (z.wrapping_mul(C_Z1)) as i64;
    proof {
        lemma_i64_wrapping_mul(zz, C_Z2 as i64);
        lemma_i32_wrapping_mul(z, C_Z1);
        lemma_i64_wrapping_add(term3, term4);
        lemma_wrap_i64_add_left(zz * 4392871, term4 as int);
    }
    term3.wrapping_add(term4)
}

/// The chunk seed of `(x, z)`, as [`crate::slime_lib`] derives it: the
/// `x` terms and `z*389711` wrap at 32 bits, `z*z` is taken as an `int`
/// and widened before it is multiplied by 4392871.
pub fn get_random_seed(world_seed: i64, x: i32, z: i32) -> (r: i64)
    ensures
        r == chunk_seed(world_seed, x, z),
{
    let x_sq = (x.wrapping_mul(x).wrapping_mul(C_X2)) as i64;
    let x_lin = (x.wrapping_mul(C_X1)) as i64;
    let zz = (z.wrapping_mul(z)) as i64;
    proof {
        lemma_i32_wrapping_mul(z, z);
        assert(-0x8000_0000 * 4392871 <= zz * 4392871 <= 0x7fff_ffff * 4392871) by (nonlinear_arith)
            requires
                -0x8000_0000 <= zz <= 0x7fff_ffff,
        ;
    }
    let z_sq = zz * (C_Z2 as i64);
    let z_lin = (z.wrapping_mul(C_Z1)) as i64;
    let s1 = world_seed.wrapping_add(x_sq);
    let s2 = s1.wrapping_add(x_lin);
    let s3 = s2.wrapping_add(z_sq);
    let s4 = s3.wrapping_add(z_lin);
    proof {
        lemma_i32_triple(x, x, C_X2);
        lemma_i32_wrapping_mul(x, C_X1);
        lemma_i32_wrapping_mul(z, C_Z1);
        lemma_i64_wrapping_add(world_seed, x_sq);
        lemma_i64_wrapping_add(s1, x_lin);
        lemma_i64_wrapping_add(s2, z_sq);
        lemma_i64_wrapping_add(s3, z_lin);
        let w = world_seed as int;
        lemma_wrap_i64_add_left(w + x_sq, x_lin as int);
        lemma_wrap_i64_add_left(w + x_sq + x_lin, z_sq as int);
        lemma_wrap_i64_add_left(w + x_sq + x_lin + z_sq, z_lin as int);
    }
    s4 ^ XOR_MASK
}

/// The generator step on any `i64` state: multiply, add and keep 48 bits,
/// with the 64-bit arithmetic wrapping.
fn lcg_step_any(s: i64) -> (r: i64)
    ensures
        r as int == lcg_next(s as int),
        0 <= r < lcg_modulus(),
{
    let prod = s.wrapping_mul(LCG_MULT);
    let sum = prod.wrapping_add(LCG_ADD);
    proof {
        lemma_i64_wrapping_mul(s, LCG_MULT);
        lemma_i64_wrapping_add(prod, LCG_ADD);
        lemma_wrap_i64_add_left(s * 0x5DEECE66D, 0xB);
        lemma_wrap_i64_mod_pow2_48(s * 0x5DEECE66D + 0xB);
        lemma_mask_is_mod(sum);
    }
    sum & LCG_MASK
}

/// `next(31)`: advance the generator and return the top 31 bits of its state.
fn next(seed: &mut i64, bits: i32) -> (r: i32)
    requires
        bits == 31,
    ensures
        *final(seed) as int == lcg_next(*old(seed) as int),
        0 <= *final(seed) < lcg_modulus(),
        r as int == top31(*final(seed) as int),
        0 <= r,
{
    *seed = lcg_step_any(*seed);
    top31_bits(*seed)
}

/// `next(31) % bound`, the draw without rejection.
fn next_int_biased(seed: &mut i64, bound: i32) -> (r: i32)
    requires
        bound > 0,
    ensures
        *final(seed) as int == lcg_next(*old(seed) as int),
        r as int == top31(*final(seed) as int) % (bound as int),
{
    let bits = next(seed, 31);
    bits % bound
}

/// `nextInt(10)`: a draw is rejected when `bits - bits % 10 + 9` overflows an
/// `i32`, and another is taken; a second rejection never happens.
fn next_int(seed: &mut i64, bound: i32) -> (r: i32)
    requires
        bound == BOUND,
    ensures
        r as int == (if draw_accepted(top31(lcg_next(*old(seed) as int))) {
            top31(lcg_next(*old(seed) as int)) % 10
        } else {
            top31(lcg_next(lcg_next(*old(seed) as int))) % 10
        }),
{
    let bits = next(seed, 31);
    let val = bits % bound;
    if (bits as i64) - (val as i64) + ((bound - 1) as i64) <= i32::MAX as i64 {
        return val;
    }
    proof {
        lemma_lcg_next_range(*old(seed) as int);
        lemma_no_double_rejection(*seed as int);
    }
    let bits2 = next(seed, 31);
    bits2 % bound
}

/// The 48-bit state reached by scrambling `seed` without the final mask
/// behaves as the masked one under the generator step.
proof fn lemma_unmasked_scramble(seed: i64)
    ensures
        lcg_next((seed ^ LCG_MULT) as int) == lcg_next(scrambled(seed)),
{
    let u = seed ^ LCG_MULT;
    lemma_mask_is_mod(u);
    let m = lcg_modulus();
    vstd::arithmetic::div_mod::lemma_mul_mod_noop_left(u as int, 0x5DEECE66D, m);
    vstd::arithmetic::div_mod::lemma_add_mod_noop(u as int * 0x5DEECE66D, 0xB, m);
    vstd::arithmetic::div_mod::lemma_add_mod_noop((u as int % m) * 0x5DEECE66D, 0xB, m);
}

/// Slime test from precomputed contributions `fx` and `fz`.
pub fn is_slime_chunk_fast(fx: i64, fz: i64, world_seed: i64) -> (r: bool)
    ensures
        r == slime_fast(fx, fz, world_seed),
{
    let s1 = world_seed.wrapping_add(fx);
    let s2 = s1.wrapping_add(fz);
    let seed = s2 ^ XOR_MASK;
    let mut lcg_seed = seed ^ LCG_MULT;
    proof {
        lemma_i64_wrapping_add(world_seed, fx);
        lemma_i64_wrapping_add(s1, fz);
        lemma_wrap_i64_add_left(world_seed + fx, fz as int);
        lemma_unmasked_scramble(seed);
    }
    lcg_seed = lcg_step_any(lcg_seed);
    let bits = top31_bits(lcg_seed);
    let val = bits % BOUND;
    val == TARGET
}

/// Slime test with the unbiased `nextInt(10)`.
pub fn is_slime_chunk(world_seed: i64, x: i32, z: i32) -> (r: bool)
    ensures
        r == slime_unbiased(world_seed, x, z),
{
    let random_seed = get_random_seed(world_seed, x, z);
    let mut lcg_seed = random_seed ^ LCG_MULT;
    proof {
        lemma_unmasked_scramble(random_seed);
    }
    next_int(&mut lcg_seed, BOUND) == TARGET
}

/// Same test as [`is_slime_chunk`].
pub fn is_slime_chunk_scalar(world_seed: i64, x: i32, z: i32) -> (r: bool)
    ensures
        r == slime_unbiased(world_seed, x, z),
{
    is_slime_chunk(world_seed, x, z)
}

/// Slime test with the biased `next(31) % 10`.
pub fn is_slime_chunk_biased(world_seed: i64, x: i32, z: i32) -> (r: bool)
    ensures
        r == slime_biased(world_seed, x, z),
{
    let random_seed = get_random_seed(world_seed, x, z);
    let mut lcg_seed = random_seed ^ LCG_MULT;
    proof {
        lemma_unmasked_scramble(random_seed);
    }
    next_int_biased(&mut lcg_seed, BOUND) == TARGET
}

} // verus!

verus! {

/// Number of chunks that one lane-wise check covers.
pub const LANES: usize = 16;

/// Chunks `(x, z)`, `(x, z + 1)`, ..., `(x, z + 15)` checked with the biased
/// rule of [`crate::slime_lib`]: byte `i` is 1 when chunk `(x, z + i)` is a
/// slime chunk and 0 otherwise; bytes 16 to 63 are 0.
pub fn are_slime_biased(world_seed: i64, x: i32, z: i32) -> (r: [u8; 64])
    requires
        z <= i32::MAX - 15,
    ensures
        forall|i: int|
            0 <= i < 16 ==> #[trigger] r@[i] == (if slime_at(world_seed, x, (z + i) as i32) {
                1u8
            } else {
                0u8
            }),
        forall|i: int| 16 <= i < 64 ==> #[trigger] r@[i] == 0u8,
{
    let mut result_bytes: [u8; 64] = [0u8; 64];
    let mut i: usize = 0;
    while i < LANES
        invariant
            i <= 16,
            z <= i32::MAX - 15,
            result_bytes@.len() == 64,
            forall|j: int|
                0 <= j < i ==> #[trigger] result_bytes@[j] == (if slime_at(
                    world_seed,
                    x,
                    (z + j) as i32,
                ) {
                    1u8
                } else {
                    0u8
                }),
            forall|j: int| i <= j < 64 ==> #[trigger] result_bytes@[j] == 0u8,
        decreases 16 - i,
    {
        let zi = z + i as i32;
        let slime = crate::slime_lib::is_slime_chunk(world_seed, x, zi);
        result_bytes[i] = if slime {
            1
        } else {
            0
        };
        i = i + 1;
    }
    result_bytes
}

/// Within every 16-byte lane, add to each byte the byte `k` places before it
/// in the same lane (bytes with fewer than `k` predecessors keep their value);
/// additions wrap at 256.
pub open spec fn lane_shift_add(v: Seq<u8>, k: int) -> Seq<u8> {
    Seq::new(
        64,
        |i: int|
            if i % 16 >= k {
                ((v[i] + v[i - k]) % 256) as u8
            } else {
                v[i]
            },
    )
}

/// The bytes that [`scan_cell`] returns: lane-wise shifted sums by 8, 4 and
/// 2 places, each byte then increased by `carry`, all wrapping at 256.
pub open spec fn scanned(v: Seq<u8>, carry: u8) -> Seq<u8> {
    let s = lane_shift_add(lane_shift_add(lane_shift_add(v, 8), 4), 2);
    Seq::new(64, |i: int| ((s[i] + carry) % 256) as u8)
}

fn shift_add_step(v: &[u8; 64], k: usize) -> (r: [u8; 64])
    requires
        1 <= k <= 15,
    ensures
        r@ == lane_shift_add(v@, k as int),
{
    let mut out: [u8; 64] = [0u8; 64];
    let mut i: usize = 0;
    while i < 64
        invariant
            i <= 64,
            1 <= k <= 15,
            out@.len() == 64,
            v@.len() == 64,
            forall|j: int| 0 <= j < i ==> #[trigger] out@[j] == lane_shift_add(v@, k as int)[j],
        decreases 64 - i,
    {
        if i % 16 >= k {
            out[i] = v[i].wrapping_add(v[i - k]);
        } else {
            out[i] = v[i];
        }
        i = i + 1;
    }
    proof {
        assert(out@ =~= lane_shift_add(v@, k as int));
    }
    out
}

/// Lane-wise partial prefix sums of `v` plus the running `carry`; `carry`
/// becomes byte 15 of the result.
pub fn scan_cell(v: [u8; 64], carry: &mut u8) -> (r: [u8; 64])
    ensures
        r@ == scanned(v@, *old(carry)),
        *final(carry) == r@[15],
{
    let r1 = shift_add_step(&v, 8);
    let r2 = shift_add_step(&r1, 4);
    let r3 = shift_add_step(&r2, 2);
    let c = *carry;
    let mut out: [u8; 64] = [0u8; 64];
    let mut i: usize = 0;
    while i < 64
        invariant
            i <= 64,
            out@.len() == 64,
            r3@.len() == 64,
            r3@ == lane_shift_add(lane_shift_add(lane_shift_add(v@, 8), 4), 2),
            forall|j: int| 0 <= j < i ==> #[trigger] out@[j] == ((r3@[j] + c) % 256) as u8,
        decreases 64 - i,
    {
        out[i] = r3[i].wrapping_add(c);
        i = i + 1;
    }
    proof {
        assert(out@ =~= scanned(v@, c));
    }
    *carry = out[15];
    out
}

} // verus!

verus! {

/// The fast check on precomputed contributions agrees with the slime-chunk
/// rule of [`crate::slime_lib`] for every world seed and column, on every
/// row with `|z| <= 46340`, where `z * z` still fits an `i32`.
pub proof fn lemma_fast_agrees_with_slime_lib(world_seed: i64, x: i32, z: i32)
    requires
        -46340 <= z <= 46340,
    ensures
        slime_fast(fx_of(x) as i64, fz_of(z) as i64, world_seed) == slime_at(world_seed, x, z),
{
    let xi = x as int;
    let zi = z as int;
    lemma_wrap_i32_range(xi * xi * 4987142);
    lemma_wrap_i32_range(xi * 5947611);
    lemma_wrap_i32_range(zi * 389711);
    assert(0 <= zi * zi <= 46340 * 46340) by (nonlinear_arith)
        requires
            -46340 <= zi <= 46340,
    ;
    lemma_wrap_i32_id(zi * zi);
    assert(0 <= zi * zi * 4392871 <= 46340 * 46340 * 4392871) by (nonlinear_arith)
        requires
            0 <= zi * zi <= 46340 * 46340,
    ;
    lemma_wrap_i64_id(zi * zi * 4392871 + wrap_i32(zi * 389711));
}

/// The biased and the unbiased checks agree whenever the first draw of the
/// chunk's generator is accepted by `nextInt(10)`.
pub proof fn lemma_biased_agrees_when_accepted(world_seed: i64, x: i32, z: i32)
    requires
        draw_accepted(first_draw(chunk_seed(world_seed, x, z))),
    ensures
        slime_biased(world_seed, x, z) == slime_unbiased(world_seed, x, z),
{
}

/// The biased check of this module is the slime-chunk rule of
/// [`crate::slime_lib`], for every world seed and chunk.
pub proof fn lemma_biased_agrees_with_slime_lib(world_seed: i64, x: i32, z: i32)
    ensures
        slime_biased(world_seed, x, z) == slime_at(world_seed, x, z),
{
}

} // verus!
