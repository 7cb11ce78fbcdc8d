//! Two's-complement wrapping of mathematical integers, and the facts about it
//! that the chunk-seed computations need.
use vstd::prelude::*;
use vstd::arithmetic::div_mod::{lemma_add_mod_noop, lemma_mul_mod_noop_left, lemma_mod_twice};

verus! {

/// 2^32.
pub open spec fn r32() -> int {
    0x1_0000_0000
}

/// 2^64.
pub open spec fn r64() -> int {
    0x1_0000_0000_0000_0000
}

/// The value an `i32` holds after an arithmetic result `v` wraps around.
pub open spec fn wrap_i32(v: int) -> int {
    let r = v % r32();
    if r >= 0x8000_0000 {
        r - r32()
    } else {
        r
    }
}

/// The value an `i64` holds after an arithmetic result `v` wraps around.
pub open spec fn wrap_i64(v: int) -> int {
    let r = v % r64();
    if r >= 0x8000_0000_0000_0000 {
        r - r64()
    } else {
        r
    }
}

pub proof fn lemma_wrap_i32_range(v: int)
    ensures
        i32::MIN <= wrap_i32(v) <= i32::MAX,
        wrap_i32(v) % r32() == v % r32(),
{
    lemma_mod_twice(v, r32());
    let r = v % r32();
    if r >= 0x8000_0000 {
        assert((r - r32()) % r32() == r % r32()) by {
            vstd::arithmetic::div_mod::lemma_mod_sub_multiples_vanish(r, r32());
        }
    }
}

pub proof fn lemma_wrap_i64_range(v: int)
    ensures
        i64::MIN <= wrap_i64(v) <= i64::MAX,
        wrap_i64(v) % r64() == v % r64(),
{
    lemma_mod_twice(v, r64());
    let r = v % r64();
    if r >= 0x8000_0000_0000_0000 {
        assert((r - r64()) % r64() == r % r64()) by {
            vstd::arithmetic::div_mod::lemma_mod_sub_multiples_vanish(r, r64());
        }
    }
}

/// A value that already fits is left as it is.
pub proof fn lemma_wrap_i32_id(v: int)
    requires
        i32::MIN <= v <= i32::MAX,
    ensures
        wrap_i32(v) == v,
{
    if v < 0 {
        assert((v + r32()) % r32() == v % r32()) by {
            vstd::arithmetic::div_mod::lemma_mod_add_multiples_vanish(v, r32());
        }
        assert((v + r32()) % r32() == v + r32()) by {
            vstd::arithmetic::div_mod::lemma_small_mod((v + r32()) as nat, r32() as nat);
        }
    } else {
        vstd::arithmetic::div_mod::lemma_small_mod(v as nat, r32() as nat);
    }
}

pub proof fn lemma_wrap_i64_id(v: int)
    requires
        i64::MIN <= v <= i64::MAX,
    ensures
        wrap_i64(v) == v,
{
    if v < 0 {
        assert((v + r64()) % r64() == v % r64()) by {
            vstd::arithmetic::div_mod::lemma_mod_add_multiples_vanish(v, r64());
        }
        assert((v + r64()) % r64() == v + r64()) by {
            vstd::arithmetic::div_mod::lemma_small_mod((v + r64()) as nat, r64() as nat);
        }
    } else {
        vstd::arithmetic::div_mod::lemma_small_mod(v as nat, r64() as nat);
    }
}

/// Values that agree modulo 2^32 wrap to the same `i32`.
pub proof fn lemma_wrap_i32_congruent(a: int, b: int)
    requires
        a % r32() == b % r32(),
    ensures
        wrap_i32(a) == wrap_i32(b),
{
}

/// Values that agree modulo 2^64 wrap to the same `i64`.
pub proof fn lemma_wrap_i64_congruent(a: int, b: int)
    requires
        a % r64() == b % r64(),
    ensures
        wrap_i64(a) == wrap_i64(b),
{
}

/// Wrapping an intermediate product does not change the wrapped result.
pub proof fn lemma_wrap_i32_mul_left(a: int, b: int)
    ensures
        wrap_i32(wrap_i32(a) * b) == wrap_i32(a * b),
{
    lemma_wrap_i32_range(a);
    lemma_mul_mod_noop_left(wrap_i32(a), b, r32());
    lemma_mul_mod_noop_left(a, b, r32());
    lemma_wrap_i32_congruent(wrap_i32(a) * b, a * b);
}

/// Wrapping an intermediate sum does not change the wrapped result.
pub proof fn lemma_wrap_i64_add_left(a: int, b: int)
    ensures
        wrap_i64(wrap_i64(a) + b) == wrap_i64(a + b),
{
    lemma_wrap_i64_range(a);
    lemma_add_mod_noop(wrap_i64(a), b, r64());
    lemma_add_mod_noop(a, b, r64());
    lemma_wrap_i64_congruent(wrap_i64(a) + b, a + b);
}

/// Wrapping at 64 bits preserves the residue modulo any divisor of 2^64.
pub proof fn lemma_wrap_i64_mod_pow2_48(v: int)
    ensures
        wrap_i64(v) % 0x1_0000_0000_0000 == v % 0x1_0000_0000_0000,
{
    lemma_wrap_i64_range(v);
    let m = 0x1_0000_0000_0000int;
    assert(r64() == m * 0x1_0000);
    vstd::arithmetic::div_mod::lemma_mod_mod(wrap_i64(v), m, 0x1_0000);
    vstd::arithmetic::div_mod::lemma_mod_mod(v, m, 0x1_0000);
}

/// `a.wrapping_mul(b)` on `i32`, as a wrapped product.
pub proof fn lemma_i32_wrapping_mul(a: i32, b: i32)
    ensures
        a.wrapping_mul(b) as int == wrap_i32(a * b),
{
}

/// `a.wrapping_add(b)` on `i64`, as a wrapped sum.
pub proof fn lemma_i64_wrapping_add(a: i64, b: i64)
    ensures
        a.wrapping_add(b) as int == wrap_i64(a + b),
{
    if a + b > i64::MAX {
        vstd::arithmetic::div_mod::lemma_mod_sub_multiples_vanish(a + b, r64());
        lemma_wrap_i64_congruent(a + b, a + b - r64());
        lemma_wrap_i64_id(a + b - r64());
    } else if a + b < i64::MIN {
        vstd::arithmetic::div_mod::lemma_mod_add_multiples_vanish(a + b, r64());
        lemma_wrap_i64_congruent(a + b, a + b + r64());
        lemma_wrap_i64_id(a + b + r64());
    } else {
        lemma_wrap_i64_id(a + b);
    }
}

/// `a.wrapping_mul(b)` on `i64`, as a wrapped product.
pub proof fn lemma_i64_wrapping_mul(a: i64, b: i64)
    ensures
        a.wrapping_mul(b) as int == wrap_i64(a * b),
{
}

/// `i32` product of three factors, wrapping after each multiplication.
pub proof fn lemma_i32_triple(a: i32, b: i32, c: i32)
    ensures
        a.wrapping_mul(b).wrapping_mul(c) as int == wrap_i32(a * b * c),
{
    lemma_i32_wrapping_mul(a, b);
    lemma_i32_wrapping_mul(a.wrapping_mul(b), c);
    lemma_wrap_i32_mul_left(a * b, c as int);
}
} // verus!
