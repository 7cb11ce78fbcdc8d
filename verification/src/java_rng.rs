//! The linear congruential generator of `java.util.Random`, as a mathematical
//! model, with the executable steps that the slime-chunk rules are built from.
use vstd::prelude::*;
use vstd::arithmetic::div_mod::{lemma_fundamental_div_mod_converse, lemma_mod_mod, lemma_add_mod_noop, lemma_mod_twice};

verus! {

/// Multiplier of the generator.
pub const LCG_MULT: i64 = 0x5DEECE66D;

/// Increment of the generator.
pub const LCG_ADD: i64 = 0xB;

/// The generator keeps 48 bits of state.
pub const LCG_MASK: i64 = 0xFFFF_FFFF_FFFF;

/// 2^48, the number of generator states.
pub open spec fn lcg_modulus() -> int {
    0x1_0000_0000_0000
}

/// The state that `setSeed(seed)` installs: the seed scrambled with the
/// multiplier and cut to 48 bits.
pub open spec fn scrambled(seed: i64) -> int {
    ((seed ^ LCG_MULT) & LCG_MASK) as int
}

/// One step of the generator.
pub open spec fn lcg_next(s: int) -> int {
    (s * 0x5DEECE66D + 0xB) % lcg_modulus()
}

/// `next(31)`: the top 31 bits of a state.
pub open spec fn top31(s: int) -> int {
    s / 0x20000
}

/// `nextInt(10)` keeps a draw only when `bits - bits % 10 + 9` does not
/// overflow an `i32`, that is when the draw lies below 2^31 - 8.
pub open spec fn draw_accepted(bits: int) -> bool {
    bits - bits % 10 + 9 <= i32::MAX
}

/// The first 31-bit draw of a generator seeded with `seed`.
pub open spec fn first_draw(seed: i64) -> int {
    top31(lcg_next(scrambled(seed)))
}

/// `new Random(seed).nextInt(10)`: the first accepted draw modulo 10. A
/// rejected first draw is never followed by a second rejection
/// (`lemma_no_double_rejection`), so the second draw is the answer then.
pub open spec fn next_int_10(seed: i64) -> int {
    let s1 = lcg_next(scrambled(seed));
    if draw_accepted(top31(s1)) {
        top31(s1) % 10
    } else {
        top31(lcg_next(s1)) % 10
    }
}

/// Masking an `i64` to its low 48 bits is the Euclidean remainder modulo 2^48.
pub proof fn lemma_mask_is_mod(v: i64)
    ensures
        (v & LCG_MASK) as int == (v as int) % lcg_modulus(),
        0 <= v & LCG_MASK < lcg_modulus(),
{
    assert(0 <= v & 0xFFFF_FFFF_FFFFi64 <= 0xFFFF_FFFF_FFFFi64) by (bit_vector);
    assert(v == ((v >> 48u64) * 0x1_0000_0000_0000i64) + (v & 0xFFFF_FFFF_FFFFi64)) by (bit_vector);
    let q = (v >> 48u64) as int;
    let r = (v & 0xFFFF_FFFF_FFFFi64) as int;
    assert(v as int == q * lcg_modulus() + r);
    lemma_fundamental_div_mod_converse(v as int, lcg_modulus(), q, r);
}

/// States in the rejection region: those whose top 31 bits are at least
/// 2^31 - 8.
proof fn lemma_rejection_region(s: int)
    requires
        0 <= s < lcg_modulus(),
    ensures
        !draw_accepted(top31(s)) <==> s >= 0xFFFF_FFF0_0000,
{
    let b = top31(s);
    assert(b - b % 10 + 9 <= i32::MAX <==> b <= 2147483639) by {
        assert(0 <= b % 10 < 10);
    }
}

proof fn lemma_step_leaves_region(s: u64)
    by (bit_vector)
    requires
        0xFFFF_FFF0_0000u64 <= s <= 0xFFFF_FFFF_FFFFu64,
    ensures
        ((s * 0x5DEECE66Du64 + 11u64) % 0x1_0000_0000_0000) < 0xFFFF_FFF0_0000,
{
}

/// A rejected draw is always followed by an accepted one, so `nextInt(10)`
/// draws at most twice.
pub proof fn lemma_no_double_rejection(s: int)
    requires
        0 <= s < lcg_modulus(),
        !draw_accepted(top31(s)),
    ensures
        draw_accepted(top31(lcg_next(s))),
        0 <= lcg_next(s) < lcg_modulus(),
{
    lemma_rejection_region(s);
    let su = s as u64;
    lemma_step_leaves_region(su);
    assert(0 <= lcg_next(s) < lcg_modulus());
    lemma_rejection_region(lcg_next(s));
}

/// The generator state stays in range.
pub proof fn lemma_lcg_next_range(s: int)
    ensures
        0 <= lcg_next(s) < lcg_modulus(),
{
}

/// One generator step on a 48-bit state held in an `i64`.
pub fn lcg_step(s: i64) -> (r: i64)
    requires
        0 <= s < lcg_modulus(),
    ensures
        r as int == lcg_next(s as int),
{
    let su = s as u64;
    let prod = su.wrapping_mul(0x5DEECE66Du64);
    let sum = prod.wrapping_add(0xBu64);
    let masked = sum & 0xFFFF_FFFF_FFFFu64;
    proof {
        assert(masked == sum % 0x1_0000_0000_0000u64) by (bit_vector)
            requires
                masked == sum & 0xFFFF_FFFF_FFFFu64,
        ;
        let m = lcg_modulus();
        let big = 0x1_0000_0000_0000_0000int;
        assert(prod as int == (s as int * 0x5DEECE66D) % big);
        assert(sum as int == (prod as int + 0xB) % big);
        assert(big == m * 0x1_0000);
        lemma_mod_mod(prod as int + 0xB, m, 0x1_0000);
        lemma_mod_mod(s as int * 0x5DEECE66D, m, 0x1_0000);
        lemma_add_mod_noop(prod as int, 0xB, m);
        lemma_add_mod_noop(s as int * 0x5DEECE66D, 0xB, m);
        lemma_mod_twice(0xB, m);
    }
    masked as i64
}

/// The top 31 bits of a 48-bit state.
pub fn top31_bits(s: i64) -> (r: i32)
    requires
        0 <= s < lcg_modulus(),
    ensures
        r as int == top31(s as int),
        0 <= r,
{
    let su = s as u64;
    let t = su >> 17u64;
    proof {
        assert(t == su / 0x20000u64) by (bit_vector)
            requires
                t == su >> 17u64,
        ;
    }
    t as i32
}

/// `setSeed`: scramble a seed into a generator state.
pub fn scramble(seed: i64) -> (r: i64)
    ensures
        r as int == scrambled(seed),
        0 <= r < lcg_modulus(),
{
    proof {
        lemma_mask_is_mod(seed ^ LCG_MULT);
    }
    (seed ^ LCG_MULT) & LCG_MASK
}

} // verus!
