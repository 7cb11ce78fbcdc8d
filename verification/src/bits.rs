//! Single bits of 64-bit masks, and the bit facts that the matcher uses.
use vstd::prelude::*;

verus! {

/// Bit `i` of `v` is set.
pub open spec fn bit_of(v: u64, i: u64) -> bool {
    (v >> i) & 1u64 == 1u64
}

pub proof fn lemma_bit_set_or(c: u64, i: u64, j: u64)
    requires
        i < 64,
        j < 64,
    ensures
        bit_of(c | (1u64 << i), j) == (bit_of(c, j) || j == i),
{
    assert(((c | (1u64 << i)) >> j) & 1u64 == 1u64 <==> ((c >> j) & 1u64 == 1u64 || j == i))
        by (bit_vector)
        requires
            i < 64,
            j < 64,
    ;
}

pub proof fn lemma_bit_zero(j: u64)
    ensures
        !bit_of(0u64, j),
{
    assert((0u64 >> j) & 1u64 != 1u64) by (bit_vector);
}

pub proof fn lemma_bit_ones(j: u64)
    requires
        j < 64,
    ensures
        bit_of(!0u64, j),
{
    assert(((!0u64) >> j) & 1u64 == 1u64) by (bit_vector)
        requires
            j < 64,
    ;
}

pub proof fn lemma_bit_and(a: u64, b: u64, j: u64)
    ensures
        bit_of(a & b, j) == (bit_of(a, j) && bit_of(b, j)),
{
    assert(((a & b) >> j) & 1u64 == 1u64 <==> ((a >> j) & 1u64 == 1u64 && (b >> j) & 1u64 == 1u64))
        by (bit_vector);
}

/// A mask is zero exactly when none of its 64 bits is set.
pub proof fn lemma_zero_iff_no_bits(v: u64)
    ensures
        v == 0 <==> forall|j: u64| j < 64 ==> !#[trigger] bit_of(v, j),
{
    if v == 0 {
        assert forall|j: u64| j < 64 implies !#[trigger] bit_of(v, j) by {
            lemma_bit_zero(j);
        }
    } else {
        let t = v.trailing_zeros();
        vstd::std_specs::bits::axiom_u64_trailing_zeros(v);
        assert(bit_of(v, t as u64));
    }
}

/// Bit `i` of the 64 bits that start `dx` places into the 128-bit map made of
/// `cu` (low half) and `nx` (high half).
pub proof fn lemma_wide_bit(cu: u64, nx: u64, dx: u64, i: u64)
    requires
        dx < 64,
        i < 64,
    ensures
        bit_of(((((nx as u128) << 64u128) | (cu as u128)) >> (dx as u128)) as u64, i) == (if i
            + dx < 64 {
            bit_of(cu, (i + dx) as u64)
        } else {
            bit_of(nx, (i + dx - 64) as u64)
        }),
        bit_of(((!(((nx as u128) << 64u128) | (cu as u128))) >> (dx as u128)) as u64, i) == !(if i
            + dx < 64 {
            bit_of(cu, (i + dx) as u64)
        } else {
            bit_of(nx, (i + dx - 64) as u64)
        }),
{
    let w = ((nx as u128) << 64u128) | (cu as u128);
    if i + dx < 64 {
        let s = (i + dx) as u64;
        assert(((((((nx as u128) << 64u128) | (cu as u128)) >> (dx as u128)) as u64) >> i) & 1u64
            == 1u64 <==> (cu >> s) & 1u64 == 1u64) by (bit_vector)
            requires
                dx < 64,
                i < 64,
                s == i + dx,
                s < 64,
        ;
        assert(((((!(((nx as u128) << 64u128) | (cu as u128))) >> (dx as u128)) as u64) >> i)
            & 1u64 == 1u64 <==> (cu >> s) & 1u64 != 1u64) by (bit_vector)
            requires
                dx < 64,
                i < 64,
                s == i + dx,
                s < 64,
        ;
    } else {
        let s = (i + dx - 64) as u64;
        assert(((((((nx as u128) << 64u128) | (cu as u128)) >> (dx as u128)) as u64) >> i) & 1u64
            == 1u64 <==> (nx >> s) & 1u64 == 1u64) by (bit_vector)
            requires
                dx < 64,
                i < 64,
                s == i + dx - 64,
                i + dx >= 64,
        ;
        assert(((((!(((nx as u128) << 64u128) | (cu as u128))) >> (dx as u128)) as u64) >> i)
            & 1u64 == 1u64 <==> (nx >> s) & 1u64 != 1u64) by (bit_vector)
            requires
                dx < 64,
                i < 64,
                s == i + dx - 64,
                i + dx >= 64,
        ;
    }
}

} // verus!
