//! Pattern search over the scan range, 64 chunks at a time.
//!
//! The slime flags of 64 consecutive chunks of a row are packed into a `u64`;
//! the flags of the next 64 chunks are put above them to form a 128-bit map,
//! so that a pattern cell `dx` places to the right is a shift by `dx`. The
//! rows of the pattern are kept in a ring buffer while the window moves down
//! the z axis, so every row of chunks is computed once per block.
use vstd::prelude::*;
use crate::bits::{bit_of, lemma_bit_set_or, lemma_bit_zero, lemma_bit_ones, lemma_bit_and, lemma_zero_iff_no_bits, lemma_wide_bit};
use crate::slime_lib::{slime_at, is_slime_chunk};
use crate::pattern::Pattern;
use crate::preprocess::Preprocessed;
use rayon::iter::{IndexedParallelIterator, IntoParallelIterator, ParallelIterator};

verus! {

/// Bit `i` of the returned mask tells whether chunk `(x_base + i, z)` is a
/// slime chunk.
pub fn generate_u64_chunk(seed: i64, x_base: i32, z: i32) -> (chunk: u64)
    requires
        x_base <= i32::MAX - 63,
    ensures
        forall|i: u64| i < 64 ==> #[trigger] bit_of(chunk, i) == slime_at(seed, (x_base + i) as i32, z),
{
    let mut chunk = 0u64;
    let mut i: i32 = 0;
    proof {
        assert forall|j: u64| 0 <= j < 64 implies !#[trigger] bit_of(chunk, j) by {
            lemma_bit_zero(j);
        }
    }
    while i < 64
        invariant
            0 <= i <= 64,
            x_base <= i32::MAX - 63,
            forall|j: u64| j < i ==> #[trigger] bit_of(chunk, j) == slime_at(seed, (x_base + j) as i32, z),
            forall|j: u64| i <= j < 64 ==> !#[trigger] bit_of(chunk, j),
        decreases 64 - i,
    {
        let ghost old_chunk = chunk;
        if is_slime_chunk(seed, x_base + i, z) {
            chunk = chunk | (1u64 << (i as u64));
            proof {
                assert forall|j: u64| j < 64 implies #[trigger] bit_of(chunk, j) == (bit_of(old_chunk, j)
                    || j == i as u64) by {
                    lemma_bit_set_or(old_chunk, i as u64, j);
                }
            }
        }
        i = i + 1;
    }
    chunk
}

/// The slime flag that the block starting at `curr_x` sees for chunk `(x, z)`
/// when columns up to `x_end` are read: the true flag inside the block and
/// inside the following block, except that the following block reads as no
/// slime chunks when it starts past `x_end`.
pub open spec fn cell(seed: i64, x_end: int, curr_x: int, x: int, z: int) -> bool {
    if x < curr_x + 64 {
        slime_at(seed, x as i32, z as i32)
    } else if curr_x + 64 <= x_end {
        slime_at(seed, x as i32, z as i32)
    } else {
        false
    }
}

/// Pattern row `dy` is satisfied with its top-left corner at `(x, z)`, as
/// seen from the block starting at `curr_x`.
pub open spec fn row_matches(
    seed: i64,
    pat: Pattern,
    x_end: int,
    curr_x: int,
    x: int,
    z: int,
    dy: int,
) -> bool {
    &&& forall|k: int|
        0 <= k < pat.ones@[dy]@.len() ==> #[trigger] cell(
            seed,
            x_end,
            curr_x,
            x + pat.ones@[dy]@[k],
            z + dy,
        )
    &&& forall|k: int|
        0 <= k < pat.zeros@[dy]@.len() ==> !#[trigger] cell(
            seed,
            x_end,
            curr_x,
            x + pat.zeros@[dy]@[k],
            z + dy,
        )
}

/// The whole pattern is satisfied with its top-left corner at `(x, z)`, as
/// seen from the block starting at `curr_x`.
pub open spec fn window_matches(seed: i64, pat: Pattern, x_end: int, curr_x: int, x: int, z: int) -> bool {
    forall|dy: int| 0 <= dy < pat.height ==> #[trigger] row_matches(seed, pat, x_end, curr_x, x, z, dy)
}

/// Bit `j` of the 128-bit map made of `cu` and, above it, `nx`.
pub open spec fn wide_bit(cu: u64, nx: u64, j: int) -> bool {
    if j < 64 {
        bit_of(cu, j as u64)
    } else {
        bit_of(nx, (j - 64) as u64)
    }
}

/// Pattern row `dy` holds at offset `i` of the map made of `cu` and `nx`.
pub open spec fn row_bits_match(pat: Pattern, dy: int, cu: u64, nx: u64, i: int) -> bool {
    &&& forall|k: int|
        0 <= k < pat.ones@[dy]@.len() ==> #[trigger] wide_bit(cu, nx, i + pat.ones@[dy]@[k])
    &&& forall|k: int|
        0 <= k < pat.zeros@[dy]@.len() ==> !#[trigger] wide_bit(cu, nx, i + pat.zeros@[dy]@[k])
}

/// The offsets at which pattern row `dy` holds in the 128-bit map of `cu`
/// and `nx`: the conditions of the row, tested with shifts.
fn row_mask(pattern: &Pattern, dy: usize, cu: u64, nx: u64) -> (m: u64)
    requires
        pattern.wf(),
        dy < pattern.height,
    ensures
        forall|i: u64| i < 64 ==> #[trigger] bit_of(m, i) == row_bits_match(*pattern, dy as int, cu, nx, i as int),
{
    let wide_map: u128 = ((nx as u128) << 64u128) | (cu as u128);
    let ones = &pattern.ones[dy];
    let zeros = &pattern.zeros[dy];
    let mut row_match_ones = !0u64;
    let mut k: usize = 0;
    proof {
        assert forall|i: u64| i < 64 implies #[trigger] bit_of(row_match_ones, i) by {
            lemma_bit_ones(i);
        }
    }
    while k < ones.len()
        invariant
            pattern.wf(),
            dy < pattern.height,
            ones@ == pattern.ones@[dy as int]@,
            wide_map == ((nx as u128) << 64u128) | (cu as u128),
            k <= ones@.len(),
            forall|i: u64|
                i < 64 ==> #[trigger] bit_of(row_match_ones, i) == (forall|q: int|
                    0 <= q < k ==> #[trigger] wide_bit(cu, nx, i + ones@[q])),
        decreases ones@.len() - k,
    {
        let dx = ones[k];
        proof {
            assert(dx < pattern.width);
        }
        let shifted = #[verifier::truncate] ((wide_map >> (dx as u128)) as u64);
        let ghost prev = row_match_ones;
        row_match_ones = row_match_ones & shifted;
        proof {
            assert forall|i: u64| i < 64 implies #[trigger] bit_of(row_match_ones, i) == (forall|q: int|
                0 <= q < k + 1 ==> #[trigger] wide_bit(cu, nx, i + ones@[q])) by {
                lemma_bit_and(prev, shifted, i);
                lemma_wide_bit(cu, nx, dx as u64, i);
                assert(bit_of(shifted, i) == wide_bit(cu, nx, i + ones@[k as int]));
                if bit_of(row_match_ones, i) {
                    assert forall|q: int| 0 <= q < k + 1 implies #[trigger] wide_bit(cu, nx, i + ones@[q]) by {
                        if q == k {
                        }
                    }
                } else {
                    if bit_of(prev, i) {
                        assert(!wide_bit(cu, nx, i + ones@[k as int]));
                    } else {
                        let q0 = choose|q: int| 0 <= q < k && !(#[trigger] wide_bit(cu, nx, i + ones@[q]));
                        assert(0 <= q0 < k + 1);
                    }
                }
            }
        }
        k = k + 1;
    }
    let mut row_match_zeros = !0u64;
    let mut k: usize = 0;
    proof {
        assert forall|i: u64| i < 64 implies #[trigger] bit_of(row_match_zeros, i) by {
            lemma_bit_ones(i);
        }
    }
    while k < zeros.len()
        invariant
            pattern.wf(),
            dy < pattern.height,
            zeros@ == pattern.zeros@[dy as int]@,
            wide_map == ((nx as u128) << 64u128) | (cu as u128),
            k <= zeros@.len(),
            forall|i: u64|
                i < 64 ==> #[trigger] bit_of(row_match_zeros, i) == (forall|q: int|
                    0 <= q < k ==> !#[trigger] wide_bit(cu, nx, i + zeros@[q])),
        decreases zeros@.len() - k,
    {
        let dx = zeros[k];
        proof {
            assert(dx < pattern.width);
        }
        let shifted = #[verifier::truncate] (((!wide_map) >> (dx as u128)) as u64);
        let ghost prev = row_match_zeros;
        row_match_zeros = row_match_zeros & shifted;
        proof {
            assert forall|i: u64| i < 64 implies #[trigger] bit_of(row_match_zeros, i) == (forall|q: int|
                0 <= q < k + 1 ==> !#[trigger] wide_bit(cu, nx, i + zeros@[q])) by {
                lemma_bit_and(prev, shifted, i);
                lemma_wide_bit(cu, nx, dx as u64, i);
                assert(bit_of(shifted, i) == !wide_bit(cu, nx, i + zeros@[k as int]));
                if bit_of(row_match_zeros, i) {
                    assert forall|q: int| 0 <= q < k + 1 implies !#[trigger] wide_bit(cu, nx, i + zeros@[q]) by {
                        if q == k {
                        }
                    }
                } else {
                    if bit_of(prev, i) {
                        assert(!!wide_bit(cu, nx, i + zeros@[k as int]));
                    } else {
                        let q0 = choose|q: int| 0 <= q < k && !(!#[trigger] wide_bit(cu, nx, i + zeros@[q]));
                        assert(0 <= q0 < k + 1);
                    }
                }
            }
        }
        k = k + 1;
    }
    let m = row_match_ones & row_match_zeros;
    proof {
        assert forall|i: u64| i < 64 implies #[trigger] bit_of(m, i) == row_bits_match(*pattern, dy as int, cu, nx, i as int) by {
            lemma_bit_and(row_match_ones, row_match_zeros, i);
        }
    }
    m
}

} // verus!

verus! {

/// Slot of the ring buffer that holds row `dy` of the window whose top row
/// has index `base`.
pub open spec fn ring_slot(base: int, dy: int, h: int) -> int {
    (base + dy) % h
}

/// The offsets at which every row of the pattern holds, row `dy` being read
/// from ring slot `(base + dy) % height`. Rows are tested in the pattern's row
/// order, and testing stops once no offset is left.
fn window_mask(pattern: &Pattern, curr_rows: &Vec<u64>, next_rows: &Vec<u64>, base: usize) -> (combined: u64)
    requires
        pattern.wf(),
        curr_rows@.len() == pattern.height,
        next_rows@.len() == pattern.height,
        base <= i32::MAX,
    ensures
        forall|i: u64|
            i < 64 ==> #[trigger] bit_of(combined, i) == (forall|dy: int|
                0 <= dy < pattern.height ==> #[trigger] row_bits_match(
                    *pattern,
                    dy,
                    curr_rows@[ring_slot(base as int, dy, pattern.height as int)],
                    next_rows@[ring_slot(base as int, dy, pattern.height as int)],
                    i as int,
                )),
{
    let pat_h = pattern.height;
    let ghost h = pat_h as int;
    let mut combined = !0u64;
    let mut idx: usize = 0;
    proof {
        assert forall|i: u64| i < 64 implies #[trigger] bit_of(combined, i) by {
            lemma_bit_ones(i);
        }
    }
    while idx < pat_h && combined != 0
        invariant
            pattern.wf(),
            pat_h == pattern.height,
            h == pat_h,
            curr_rows@.len() == h,
            next_rows@.len() == h,
            base <= i32::MAX,
            idx <= pat_h,
            forall|i: u64|
                i < 64 ==> #[trigger] bit_of(combined, i) == (forall|q: int|
                    0 <= q < idx ==> #[trigger] row_bits_match(
                        *pattern,
                        pattern.row_order@[q] as int,
                        curr_rows@[ring_slot(base as int, pattern.row_order@[q] as int, h)],
                        next_rows@[ring_slot(base as int, pattern.row_order@[q] as int, h)],
                        i as int,
                    )),
        decreases pat_h - idx,
    {
        let dy_idx = pattern.row_order[idx];
        let actual_dy = (base + dy_idx) % pat_h;
        let m = row_mask(pattern, dy_idx, curr_rows[actual_dy], next_rows[actual_dy]);
        let ghost prev = combined;
        combined = combined & m;
        proof {
            assert forall|i: u64| i < 64 implies #[trigger] bit_of(combined, i) == (forall|q: int|
                0 <= q < idx + 1 ==> #[trigger] row_bits_match(
                    *pattern,
                    pattern.row_order@[q] as int,
                    curr_rows@[ring_slot(base as int, pattern.row_order@[q] as int, h)],
                    next_rows@[ring_slot(base as int, pattern.row_order@[q] as int, h)],
                    i as int,
                )) by {
                lemma_bit_and(prev, m, i);
                if !bit_of(combined, i) && bit_of(prev, i) {
                    assert(!row_bits_match(
                        *pattern,
                        pattern.row_order@[idx as int] as int,
                        curr_rows@[ring_slot(base as int, pattern.row_order@[idx as int] as int, h)],
                        next_rows@[ring_slot(base as int, pattern.row_order@[idx as int] as int, h)],
                        i as int,
                    ));
                }
            }
        }
        idx = idx + 1;
    }
    proof {
        lemma_zero_iff_no_bits(combined);
        assert forall|i: u64| i < 64 implies #[trigger] bit_of(combined, i) == (forall|dy: int|
            0 <= dy < h ==> #[trigger] row_bits_match(
                *pattern,
                dy,
                curr_rows@[ring_slot(base as int, dy, h)],
                next_rows@[ring_slot(base as int, dy, h)],
                i as int,
            )) by {
            if bit_of(combined, i) {
                assert(idx == pat_h);
                assert forall|dy: int| 0 <= dy < h implies #[trigger] row_bits_match(
                    *pattern,
                    dy,
                    curr_rows@[ring_slot(base as int, dy, h)],
                    next_rows@[ring_slot(base as int, dy, h)],
                    i as int,
                ) by {
                    assert(pattern.row_order@.contains(dy as usize));
                    let q = choose|q: int| 0 <= q < h && pattern.row_order@[q] == dy as usize;
                    assert(row_bits_match(
                        *pattern,
                        pattern.row_order@[q] as int,
                        curr_rows@[ring_slot(base as int, pattern.row_order@[q] as int, h)],
                        next_rows@[ring_slot(base as int, pattern.row_order@[q] as int, h)],
                        i as int,
                    ));
                }
            } else {
                let q = choose|q: int|
                    0 <= q < idx && !#[trigger] row_bits_match(
                        *pattern,
                        pattern.row_order@[q] as int,
                        curr_rows@[ring_slot(base as int, pattern.row_order@[q] as int, h)],
                        next_rows@[ring_slot(base as int, pattern.row_order@[q] as int, h)],
                        i as int,
                    );
                assert(pattern.row_order@[q] < h);
            }
        }
    }
    combined
}

} // verus!

verus! {

/// The ring slots `cu` and `nx` hold the flags of chunk row `zz` for the
/// block starting at `curr_x`: `cu` those of the block, `nx` those of the
/// following block when it starts at or before `x_end`, and nothing otherwise.
pub open spec fn row_holds(seed: i64, x_end: int, curr_x: int, cu: u64, nx: u64, zz: int) -> bool {
    forall|i: u64|
        i < 64 ==> (#[trigger] bit_of(cu, i) == slime_at(seed, (curr_x + i) as i32, zz as i32)
            && bit_of(nx, i) == (curr_x + 64 <= x_end && slime_at(
            seed,
            (curr_x + 64 + i) as i32,
            zz as i32,
        )))
}

/// Ring slot of row `dy` of the window at row index `zi` holds chunk row `z + dy`.
pub open spec fn slot_ok(
    seed: i64,
    x_end: int,
    curr_x: int,
    curr_rows: Seq<u64>,
    next_rows: Seq<u64>,
    zi: int,
    z: int,
    dy: int,
    h: int,
) -> bool {
    row_holds(
        seed,
        x_end,
        curr_x,
        curr_rows[ring_slot(zi, dy, h)],
        next_rows[ring_slot(zi, dy, h)],
        z + dy,
    )
}

/// Number of rows at which the window's top row can stand.
pub open spec fn window_rows(z_start: int, z_end: int, h: int) -> int {
    if z_end - h + 1 >= z_start {
        z_end - h + 2 - z_start
    } else {
        0
    }
}

proof fn lemma_row_bits_cells(
    seed: i64,
    pat: Pattern,
    x_end: int,
    curr_x: int,
    cu: u64,
    nx: u64,
    z: int,
    dy: int,
    i: u64,
)
    requires
        pat.wf(),
        0 <= dy < pat.height,
        i < 64,
        row_holds(seed, x_end, curr_x, cu, nx, z + dy),
    ensures
        row_bits_match(pat, dy, cu, nx, i as int) == row_matches(seed, pat, x_end, curr_x, curr_x + i, z, dy),
{
    assert forall|k: int| 0 <= k < pat.ones@[dy]@.len() implies #[trigger] wide_bit(cu, nx, i + pat.ones@[dy]@[k])
        == cell(seed, x_end, curr_x, (curr_x + i) + pat.ones@[dy]@[k], z + dy) by {
        let dx = pat.ones@[dy]@[k];
        assert(dx < 64);
        if i + dx < 64 {
            assert(bit_of(cu, (i + dx) as u64) == slime_at(seed, (curr_x + (i + dx) as u64) as i32, (z + dy) as i32));
        } else {
            assert(bit_of(cu, (i + dx - 64) as u64) == slime_at(seed, (curr_x + (i + dx - 64) as u64) as i32, (z + dy) as i32));
        }
    }
    assert forall|k: int| 0 <= k < pat.zeros@[dy]@.len() implies #[trigger] wide_bit(cu, nx, i + pat.zeros@[dy]@[k])
        == cell(seed, x_end, curr_x, (curr_x + i) + pat.zeros@[dy]@[k], z + dy) by {
        let dx = pat.zeros@[dy]@[k];
        assert(dx < 64);
        if i + dx < 64 {
            assert(bit_of(cu, (i + dx) as u64) == slime_at(seed, (curr_x + (i + dx) as u64) as i32, (z + dy) as i32));
        } else {
            assert(bit_of(cu, (i + dx - 64) as u64) == slime_at(seed, (curr_x + (i + dx - 64) as u64) as i32, (z + dy) as i32));
        }
    }
    if row_bits_match(pat, dy, cu, nx, i as int) {
        assert forall|k: int| 0 <= k < pat.ones@[dy]@.len() implies #[trigger] cell(
            seed,
            x_end,
            curr_x,
            (curr_x + i) + pat.ones@[dy]@[k],
            z + dy,
        ) by {
            assert(wide_bit(cu, nx, i + pat.ones@[dy]@[k]));
        }
        assert forall|k: int| 0 <= k < pat.zeros@[dy]@.len() implies !#[trigger] cell(
            seed,
            x_end,
            curr_x,
            (curr_x + i) + pat.zeros@[dy]@[k],
            z + dy,
        ) by {
            assert(!wide_bit(cu, nx, i + pat.zeros@[dy]@[k]));
        }
    }
    if row_matches(seed, pat, x_end, curr_x, curr_x + i, z, dy) {
        assert forall|k: int| 0 <= k < pat.ones@[dy]@.len() implies #[trigger] wide_bit(cu, nx, i + pat.ones@[dy]@[k]) by {
            assert(cell(seed, x_end, curr_x, (curr_x + i) + pat.ones@[dy]@[k], z + dy));
        }
        assert forall|k: int| 0 <= k < pat.zeros@[dy]@.len() implies !#[trigger] wide_bit(cu, nx, i + pat.zeros@[dy]@[k]) by {
            assert(!cell(seed, x_end, curr_x, (curr_x + i) + pat.zeros@[dy]@[k], z + dy));
        }
    }
}

proof fn lemma_ring_slots(zi: int, h: int)
    requires
        0 <= zi,
        1 <= h,
    ensures
        forall|dy: int| 0 <= dy < h ==> 0 <= #[trigger] ring_slot(zi, dy, h) < h,
        ring_slot(zi, h, h) == ring_slot(zi, 0, h),
        forall|dy: int| 0 < dy < h ==> #[trigger] ring_slot(zi, dy, h) != ring_slot(zi, 0, h),
{
    vstd::arithmetic::div_mod::lemma_mod_add_multiples_vanish(zi, h);
    assert forall|dy: int| 0 < dy < h implies #[trigger] ring_slot(zi, dy, h) != ring_slot(zi, 0, h) by {
        vstd::arithmetic::div_mod::lemma_fundamental_div_mod(zi + dy, h);
        vstd::arithmetic::div_mod::lemma_fundamental_div_mod(zi, h);
        if (zi + dy) % h == zi % h {
            let q1 = (zi + dy) / h;
            let q2 = zi / h;
            assert(dy == h * (q1 - q2)) by (nonlinear_arith)
                requires
                    zi + dy == h * q1 + (zi + dy) % h,
                    zi == h * q2 + zi % h,
                    (zi + dy) % h == zi % h,
            ;
            assert(false) by (nonlinear_arith)
                requires
                    dy == h * (q1 - q2),
                    0 < dy < h,
            ;
        }
    }
}

proof fn lemma_window_from_slots(
    seed: i64,
    pat: Pattern,
    x_end: int,
    curr_x: int,
    curr_rows: Seq<u64>,
    next_rows: Seq<u64>,
    base: int,
    z: int,
    combined: u64,
)
    requires
        pat.wf(),
        curr_rows.len() == pat.height,
        next_rows.len() == pat.height,
        forall|d: int|
            0 <= d < pat.height ==> #[trigger] slot_ok(
                seed,
                x_end,
                curr_x,
                curr_rows,
                next_rows,
                base,
                z,
                d,
                pat.height as int,
            ),
        forall|i: u64|
            i < 64 ==> #[trigger] bit_of(combined, i) == (forall|dy: int|
                0 <= dy < pat.height ==> #[trigger] row_bits_match(
                    pat,
                    dy,
                    curr_rows[ring_slot(base, dy, pat.height as int)],
                    next_rows[ring_slot(base, dy, pat.height as int)],
                    i as int,
                )),
    ensures
        forall|i: u64|
            i < 64 ==> #[trigger] bit_of(combined, i) == window_matches(seed, pat, x_end, curr_x, curr_x + i, z),
{
    let h = pat.height as int;
    assert forall|i: u64| i < 64 implies #[trigger] bit_of(combined, i) == window_matches(
        seed,
        pat,
        x_end,
        curr_x,
        curr_x + i,
        z,
    ) by {
        assert forall|d: int| 0 <= d < h implies #[trigger] row_bits_match(
            pat,
            d,
            curr_rows[ring_slot(base, d, h)],
            next_rows[ring_slot(base, d, h)],
            i as int,
        ) == row_matches(seed, pat, x_end, curr_x, curr_x + i, z, d) by {
            assert(slot_ok(seed, x_end, curr_x, curr_rows, next_rows, base, z, d, h));
            lemma_row_bits_cells(
                seed,
                pat,
                x_end,
                curr_x,
                curr_rows[ring_slot(base, d, h)],
                next_rows[ring_slot(base, d, h)],
                z,
                d,
                i,
            );
        }
        if bit_of(combined, i) {
            assert forall|d: int| 0 <= d < h implies #[trigger] row_matches(seed, pat, x_end, curr_x, curr_x + i, z, d) by {
                assert(row_bits_match(pat, d, curr_rows[ring_slot(base, d, h)], next_rows[ring_slot(base, d, h)], i as int));
            }
        } else {
            let d = choose|d: int| 0 <= d < h && !#[trigger] row_bits_match(
                pat,
                d,
                curr_rows[ring_slot(base, d, h)],
                next_rows[ring_slot(base, d, h)],
                i as int,
            );
            assert(!row_matches(seed, pat, x_end, curr_x, curr_x + i, z, d));
        }
    }
}

proof fn lemma_ring_advance(
    seed: i64,
    x_end: int,
    curr_x: int,
    old_curr: Seq<u64>,
    old_next: Seq<u64>,
    new_curr: Seq<u64>,
    new_next: Seq<u64>,
    zi: int,
    z: int,
    h: int,
    cu: u64,
    nx: u64,
)
    requires
        0 <= zi,
        1 <= h,
        old_curr.len() == h,
        old_next.len() == h,
        new_curr == old_curr.update(zi % h, cu),
        new_next == old_next.update(zi % h, nx),
        row_holds(seed, x_end, curr_x, cu, nx, z + h),
        forall|d: int| 0 <= d < h ==> #[trigger] slot_ok(seed, x_end, curr_x, old_curr, old_next, zi, z, d, h),
    ensures
        forall|d: int| 0 <= d < h ==> #[trigger] slot_ok(seed, x_end, curr_x, new_curr, new_next, zi + 1, z + 1, d, h),
{
    lemma_ring_slots(zi, h);
    assert(ring_slot(zi, 0, h) == zi % h);
    assert forall|d: int| 0 <= d < h implies #[trigger] slot_ok(seed, x_end, curr_x, new_curr, new_next, zi + 1, z + 1, d, h) by {
        assert(ring_slot(zi + 1, d, h) == ring_slot(zi, d + 1, h));
        if d + 1 < h {
            assert(slot_ok(seed, x_end, curr_x, old_curr, old_next, zi, z, d + 1, h));
            assert(ring_slot(zi, d + 1, h) != ring_slot(zi, 0, h));
            assert(0 <= ring_slot(zi, d + 1, h) < h);
        } else {
            assert(ring_slot(zi, d + 1, h) == ring_slot(zi, 0, h));
        }
    }
}

/// The rows that a downward scan of a block computes stay in the `i32`
/// range: the first `h` rows, the first row of the last window, and the row
/// after the last window's bottom row, read when a window is left.
pub open spec fn rows_fit(z_start: int, z_end: int, h: int) -> bool {
    &&& z_start + h - 1 <= i32::MAX
    &&& z_end >= i32::MIN + h
    &&& z_start <= z_end - h + 1 ==> z_end <= i32::MAX - 1
    &&& i32::MIN <= z_end - z_start <= i32::MAX - 1
}

/// As [`rows_fit`], and the upward scan's jump of `h` rows above the first
/// row stays in range too.
pub open spec fn rows_fit_upward(z_start: int, z_end: int, h: int) -> bool {
    &&& rows_fit(z_start, z_end, h)
    &&& z_start <= z_end - h + 1 ==> z_start >= i32::MIN + h
}

/// For every row index `zi` at which the window's top row can stand, the
/// offsets `i` at which the whole pattern matches from the block starting at
/// `curr_x`: bit `i` of mask `zi` is set when the pattern matches with its
/// top-left corner at `(curr_x + i, z_start + zi)`.
fn scan_block(
    seed: i64,
    pattern: &Pattern,
    x_end: i32,
    z_start: i32,
    z_end: i32,
    curr_x: i32,
) -> (masks: Vec<u64>)
    requires
        pattern.wf(),
        curr_x <= i32::MAX - 64,
        x_end <= i32::MAX - 63,
        rows_fit(z_start as int, z_end as int, pattern.height as int),
    ensures
        masks@.len() == window_rows(z_start as int, z_end as int, pattern.height as int),
        forall|zi: int, i: u64|
            0 <= zi < masks@.len() && i < 64 ==> #[trigger] bit_of(masks@[zi], i) == window_matches(
                seed,
                *pattern,
                x_end as int,
                curr_x as int,
                curr_x + i,
                z_start + zi,
            ),
{
    let pat_h = pattern.height;
    let ghost h = pat_h as int;
    let next_x = curr_x + 64;
    let mut curr_rows: Vec<u64> = Vec::new();
    let mut next_rows: Vec<u64> = Vec::new();
    let mut dy: usize = 0;
    while dy < pat_h
        invariant
            pattern.wf(),
            pat_h == pattern.height,
            h == pat_h,
            next_x == curr_x + 64,
            curr_x <= i32::MAX - 64,
            x_end <= i32::MAX - 63,
            z_start + h - 1 <= i32::MAX,
            dy <= pat_h,
            curr_rows@.len() == dy,
            next_rows@.len() == dy,
            forall|d: int|
                0 <= d < dy ==> #[trigger] row_holds(
                    seed,
                    x_end as int,
                    curr_x as int,
                    curr_rows@[d],
                    next_rows@[d],
                    z_start + d,
                ),
        decreases pat_h - dy,
    {
        let z = z_start + dy as i32;
        let cu = generate_u64_chunk(seed, curr_x, z);
        let nx = if next_x <= x_end {
            generate_u64_chunk(seed, next_x, z)
        } else {
            0
        };
        proof {
            assert forall|i: u64| i < 64 implies !#[trigger] bit_of(0u64, i) by {
                lemma_bit_zero(i);
            }
            assert(row_holds(seed, x_end as int, curr_x as int, cu, nx, z_start + dy));
        }
        curr_rows.push(cu);
        next_rows.push(nx);
        dy = dy + 1;
    }
    let z_last = z_end - (pat_h as i32) + 1;
    let mut masks: Vec<u64> = Vec::new();
    let mut z = z_start;
    proof {
        lemma_ring_slots(0, h);
        assert forall|d: int| 0 <= d < h implies #[trigger] slot_ok(
            seed,
            x_end as int,
            curr_x as int,
            curr_rows@,
            next_rows@,
            0,
            z_start as int,
            d,
            h,
        ) by {
            vstd::arithmetic::div_mod::lemma_small_mod(d as nat, h as nat);
        }
    }
    while z <= z_last
        invariant
            pattern.wf(),
            pat_h == pattern.height,
            h == pat_h,
            1 <= h <= 64,
            next_x == curr_x + 64,
            curr_x <= i32::MAX - 64,
            x_end <= i32::MAX - 63,
            z_last == z_end - h + 1,
            z_start <= z_last ==> z_end <= i32::MAX - 1,
            z_end - z_start <= i32::MAX - 1,
            z_start <= z <= z_last + 1 || (z == z_start && z_last < z_start),
            curr_rows@.len() == h,
            next_rows@.len() == h,
            masks@.len() == z - z_start,
            z <= z_last ==> forall|d: int|
                0 <= d < h ==> #[trigger] slot_ok(
                    seed,
                    x_end as int,
                    curr_x as int,
                    curr_rows@,
                    next_rows@,
                    z - z_start,
                    z as int,
                    d,
                    h,
                ),
            forall|zi: int, i: u64|
                0 <= zi < masks@.len() && i < 64 ==> #[trigger] bit_of(masks@[zi], i) == window_matches(
                    seed,
                    *pattern,
                    x_end as int,
                    curr_x as int,
                    curr_x + i,
                    z_start + zi,
                ),
        decreases z_last + 1 - z,
    {
        let base = (z - z_start) as usize;
        let combined = window_mask(pattern, &curr_rows, &next_rows, base);
        proof {
            lemma_window_from_slots(seed, *pattern, x_end as int, curr_x as int, curr_rows@, next_rows@, base as int, z as int, combined);
        }
        let ghost prev_masks = masks@;
        masks.push(combined);
        let new_z = z + pat_h as i32;
        let ghost old_curr = curr_rows@;
        let ghost old_next = next_rows@;
        if new_z <= z_end {
            let overwrite_idx = (z - z_start) as usize % pat_h;
            let cu = generate_u64_chunk(seed, curr_x, new_z);
            let nx = if next_x <= x_end {
                generate_u64_chunk(seed, next_x, new_z)
            } else {
                0
            };
            proof {
                assert forall|i: u64| i < 64 implies !#[trigger] bit_of(0u64, i) by {
                    lemma_bit_zero(i);
                }
                assert(row_holds(seed, x_end as int, curr_x as int, cu, nx, new_z as int));
            }
            curr_rows.set(overwrite_idx, cu);
            next_rows.set(overwrite_idx, nx);
            proof {
                lemma_ring_advance(seed, x_end as int, curr_x as int, old_curr, old_next, curr_rows@, next_rows@, z - z_start, z as int, h, cu, nx);
            }
        }
        proof {
            assert forall|zi: int, i: u64|
                0 <= zi < masks@.len() && i < 64 implies #[trigger] bit_of(masks@[zi], i) == window_matches(
                    seed,
                    *pattern,
                    x_end as int,
                    curr_x as int,
                    curr_x + i,
                    z_start + zi,
                ) by {
                if zi < prev_masks.len() {
                    assert(masks@[zi] == prev_masks[zi]);
                }
            }
        }
        z = z + 1;
    }
    masks
}

} // verus!

verus! {

/// Chunk positions in lexicographic order: by x, then by z.
pub open spec fn pair_lt(a: (i32, i32), b: (i32, i32)) -> bool {
    a.0 < b.0 || (a.0 == b.0 && a.1 < b.1)
}

/// Positions strictly increasing in lexicographic order, hence without repeats.
pub open spec fn strictly_sorted(s: Seq<(i32, i32)>) -> bool {
    forall|k: int, l: int| 0 <= k < l < s.len() ==> pair_lt(#[trigger] s[k], #[trigger] s[l])
}

fn pair_less(a: (i32, i32), b: (i32, i32)) -> (r: bool)
    ensures
        r == pair_lt(a, b),
{
    a.0 < b.0 || (a.0 == b.0 && a.1 < b.1)
}

proof fn lemma_push_contains(s: Seq<(i32, i32)>, x: (i32, i32), e: (i32, i32))
    ensures
        s.push(x).contains(e) == (s.contains(e) || e == x),
{
    if s.contains(e) {
        let k = choose|k: int| 0 <= k < s.len() && s[k] == e;
        assert(s.push(x)[k] == e);
    }
    if e == x {
        assert(s.push(x)[s.len() as int] == e);
    }
    if s.push(x).contains(e) {
        let k = choose|k: int| 0 <= k < s.len() + 1 && s.push(x)[k] == e;
        if k < s.len() {
            assert(s[k] == e);
        }
    }
}

/// Every element of `s` lies below `c` in lexicographic order.
pub open spec fn all_below(s: Seq<(i32, i32)>, c: (i32, i32)) -> bool {
    forall|k: int| 0 <= k < s.len() ==> pair_lt(#[trigger] s[k], c)
}

/// The block at `curr_x` reports a match at `e`: its offset and row are in
/// range and the bit for them is set.
pub open spec fn block_reports(masks: Seq<u64>, curr_x: int, z_start: int, e: (i32, i32)) -> bool {
    &&& curr_x <= e.0 < curr_x + 64
    &&& 0 <= e.1 - z_start < masks.len()
    &&& bit_of(masks[e.1 - z_start], (e.0 - curr_x) as u64)
}

/// Appends the matches of one block, in lexicographic order.
fn push_block_matches(out: &mut Vec<(i32, i32)>, masks: &Vec<u64>, curr_x: i32, z_start: i32)
    requires
        curr_x <= i32::MAX - 64,
        z_start + masks@.len() <= i32::MAX,
        masks@.len() <= i32::MAX,
        strictly_sorted(old(out)@),
        forall|k: int| 0 <= k < old(out)@.len() ==> (#[trigger] old(out)@[k]).0 < curr_x,
    ensures
        strictly_sorted(final(out)@),
        forall|k: int| 0 <= k < final(out)@.len() ==> (#[trigger] final(out)@[k]).0 < curr_x + 64,
        forall|e: (i32, i32)|
            #[trigger] final(out)@.contains(e) == (old(out)@.contains(e) || block_reports(
                masks@,
                curr_x as int,
                z_start as int,
                e,
            )),
{
    let mut off: i32 = 0;
    let ghost start = out@;
    proof {
        assert(all_below(out@, (curr_x, z_start)));
    }
    while off < 64
        invariant
            0 <= off <= 64,
            curr_x <= i32::MAX - 64,
            z_start + masks@.len() <= i32::MAX,
            masks@.len() <= i32::MAX,
            strictly_sorted(out@),
            off < 64 ==> all_below(out@, ((curr_x + off) as i32, z_start)),
            forall|k: int| 0 <= k < out@.len() ==> (#[trigger] out@[k]).0 < curr_x + off || (off == 0 && out@[k].0 < curr_x),
            forall|k: int| 0 <= k < start.len() ==> (#[trigger] start[k]).0 < curr_x,
            forall|e: (i32, i32)|
                #[trigger] out@.contains(e) == (start.contains(e) || (block_reports(
                    masks@,
                    curr_x as int,
                    z_start as int,
                    e,
                ) && e.0 < curr_x + off)),
        decreases 64 - off,
    {
        let mut zi: usize = 0;
        let x = curr_x + off;
        while zi < masks.len()
            invariant
                0 <= off < 64,
                x == curr_x + off,
                curr_x <= i32::MAX - 64,
                z_start + masks@.len() <= i32::MAX,
                masks@.len() <= i32::MAX,
                zi <= masks@.len(),
                strictly_sorted(out@),
                all_below(out@, (x, (z_start + zi) as i32)),
                forall|k: int| 0 <= k < out@.len() ==> (#[trigger] out@[k]).0 <= x,
                forall|k: int| 0 <= k < start.len() ==> (#[trigger] start[k]).0 < curr_x,
                forall|e: (i32, i32)|
                    #[trigger] out@.contains(e) == (start.contains(e) || (block_reports(
                        masks@,
                        curr_x as int,
                        z_start as int,
                        e,
                    ) && (e.0 < x || (e.0 == x && e.1 - z_start < zi)))),
            decreases masks@.len() - zi,
        {
            let z = z_start + zi as i32;
            let ghost before = out@;
            if bit_of_u64(masks[zi], off as u64) {
                out.push((x, z));
                proof {
                    assert(out@ == before.push((x, z)));
                    assert forall|k: int, l: int| 0 <= k < l < out@.len() implies pair_lt(#[trigger] out@[k], #[trigger] out@[l]) by {
                        if l == before.len() {
                            assert(pair_lt(before[k], (x, z)));
                        } else {
                            assert(pair_lt(before[k], before[l]));
                        }
                    }
                    assert(block_reports(masks@, curr_x as int, z_start as int, (x, z)));
                    assert forall|e: (i32, i32)| #[trigger] out@.contains(e) == (start.contains(e) || (block_reports(
                        masks@,
                        curr_x as int,
                        z_start as int,
                        e,
                    ) && (e.0 < x || (e.0 == x && e.1 - z_start < zi + 1)))) by {
                        lemma_push_contains(before, (x, z), e);
                        if start.contains(e) {
                            let k = choose|k: int| 0 <= k < start.len() && start[k] == e;
                            assert(start[k].0 < curr_x);
                        }
                    }
                }
            } else {
                proof {
                    assert forall|e: (i32, i32)| #[trigger] out@.contains(e) == (start.contains(e) || (block_reports(
                        masks@,
                        curr_x as int,
                        z_start as int,
                        e,
                    ) && (e.0 < x || (e.0 == x && e.1 - z_start < zi + 1)))) by {
                        if start.contains(e) {
                            let k = choose|k: int| 0 <= k < start.len() && start[k] == e;
                            assert(start[k].0 < curr_x);
                        }
                    }
                }
            }
            zi = zi + 1;
        }
        proof {
            assert forall|e: (i32, i32)| #[trigger] out@.contains(e) == (start.contains(e) || (block_reports(
                masks@,
                curr_x as int,
                z_start as int,
                e,
            ) && e.0 < curr_x + off + 1)) by {
                if start.contains(e) {
                    let k = choose|k: int| 0 <= k < start.len() && start[k] == e;
                    assert(start[k].0 < curr_x);
                }
            }
        }
        off = off + 1;
    }
    proof {
        assert forall|e: (i32, i32)| #[trigger] out@.contains(e) == (start.contains(e) || block_reports(
            masks@,
            curr_x as int,
            z_start as int,
            e,
        )) by {}
    }
}

/// Bit `i` of `v`.
fn bit_of_u64(v: u64, i: u64) -> (r: bool)
    requires
        i < 64,
    ensures
        r == bit_of(v, i),
{
    (v >> i) & 1u64 == 1u64
}

} // verus!

verus! {

/// Block of a strip, starting at `sx_start`, that holds column `x`.
pub open spec fn block_start(sx_start: int, x: int) -> int {
    sx_start + 64 * ((x - sx_start) / 64)
}

/// The scan of the strip of blocks starting at `sx_start`, 64 columns apart,
/// up to the last block starting at or before `sx_end`, reports a match at
/// `e`: `e` lies in one of these blocks, its row is one at which the window
/// can stand, and the pattern matches there as the block sees the chunks.
pub open spec fn strip_found(
    seed: i64,
    pat: Pattern,
    x_end: int,
    z_start: int,
    z_end: int,
    sx_start: int,
    sx_end: int,
    e: (i32, i32),
) -> bool {
    &&& sx_start <= e.0
    &&& block_start(sx_start, e.0 as int) <= sx_end
    &&& z_start <= e.1
    &&& e.1 - z_start < window_rows(z_start, z_end, pat.height as int)
    &&& window_matches(seed, pat, x_end, block_start(sx_start, e.0 as int), e.0 as int, e.1 as int)
}

proof fn lemma_block_start(sx_start: int, m: int, x: int)
    requires
        0 <= m,
        sx_start + 64 * m <= x < sx_start + 64 * m + 64,
    ensures
        block_start(sx_start, x) == sx_start + 64 * m,
{
    vstd::arithmetic::div_mod::lemma_fundamental_div_mod_converse(x - sx_start, 64, m, x - sx_start - 64 * m);
}

proof fn lemma_block_start_below(sx_start: int, m: int, x: int)
    requires
        0 <= m,
        sx_start <= x < sx_start + 64 * m,
    ensures
        block_start(sx_start, x) < sx_start + 64 * m,
        x < block_start(sx_start, x) + 64,
        block_start(sx_start, x) <= x,
{
    vstd::arithmetic::div_mod::lemma_fundamental_div_mod(x - sx_start, 64);
    let q = (x - sx_start) / 64;
    assert(q < m) by (nonlinear_arith)
        requires
            x - sx_start == 64 * q + (x - sx_start) % 64,
            0 <= (x - sx_start) % 64 < 64,
            x - sx_start < 64 * m,
    ;
}

/// The matches in one strip of blocks, in lexicographic order. Each block
/// is scanned down the z axis with a ring of rows, or, with `reverse_jump`,
/// up the z axis skipping the windows that cover a row matching no pattern
/// row; both give the same masks.
fn scan_strip(
    seed: i64,
    pattern: &Pattern,
    x_end: i32,
    z_start: i32,
    z_end: i32,
    sx_start: i32,
    sx_end: i32,
    reverse_jump: bool,
) -> (r: Vec<(i32, i32)>)
    requires
        pattern.wf(),
        sx_end <= i32::MAX - 64,
        x_end <= i32::MAX - 63,
        rows_fit(z_start as int, z_end as int, pattern.height as int),
        reverse_jump ==> rows_fit_upward(z_start as int, z_end as int, pattern.height as int),
    ensures
        strictly_sorted(r@),
        forall|e: (i32, i32)|
            #[trigger] r@.contains(e) == strip_found(
                seed,
                *pattern,
                x_end as int,
                z_start as int,
                z_end as int,
                sx_start as int,
                sx_end as int,
                e,
            ),
{
    let mut out: Vec<(i32, i32)> = Vec::new();
    let mut curr_x = sx_start;
    let ghost mut m: int = 0;
    while curr_x <= sx_end
        invariant
            pattern.wf(),
            sx_end <= i32::MAX - 64,
            x_end <= i32::MAX - 63,
            rows_fit(z_start as int, z_end as int, pattern.height as int),
            reverse_jump ==> rows_fit_upward(z_start as int, z_end as int, pattern.height as int),
            0 <= m,
            curr_x == sx_start + 64 * m,
            curr_x <= sx_end + 64 || m == 0,
            strictly_sorted(out@),
            forall|k: int| 0 <= k < out@.len() ==> (#[trigger] out@[k]).0 < curr_x,
            forall|e: (i32, i32)|
                #[trigger] out@.contains(e) == (strip_found(
                    seed,
                    *pattern,
                    x_end as int,
                    z_start as int,
                    z_end as int,
                    sx_start as int,
                    sx_end as int,
                    e,
                ) && e.0 < curr_x),
        decreases sx_end + 64 - curr_x,
    {
        let masks = if reverse_jump {
            scan_block_reverse_jump(seed, pattern, x_end, z_start, z_end, curr_x)
        } else {
            scan_block(seed, pattern, x_end, z_start, z_end, curr_x)
        };
        let ghost before = out@;
        push_block_matches(&mut out, &masks, curr_x, z_start);
        proof {
            assert forall|e: (i32, i32)| #[trigger] out@.contains(e) == (strip_found(
                seed,
                *pattern,
                x_end as int,
                z_start as int,
                z_end as int,
                sx_start as int,
                sx_end as int,
                e,
            ) && e.0 < curr_x + 64) by {
                if curr_x <= e.0 < curr_x + 64 {
                    lemma_block_start(sx_start as int, m, e.0 as int);
                    if 0 <= e.1 - z_start < masks@.len() {
                        assert(bit_of(masks@[e.1 - z_start], (e.0 - curr_x) as u64) == window_matches(
                            seed,
                            *pattern,
                            x_end as int,
                            curr_x as int,
                            curr_x + ((e.0 - curr_x) as u64),
                            z_start + (e.1 - z_start),
                        ));
                    }
                    assert(!before.contains(e)) by {
                        if before.contains(e) {
                            let k = choose|k: int| 0 <= k < before.len() && before[k] == e;
                            assert(before[k].0 < curr_x);
                        }
                    }
                } else if e.0 < curr_x && sx_start <= e.0 {
                    lemma_block_start_below(sx_start as int, m, e.0 as int);
                }
            }
        }
        curr_x = curr_x + 64;
        proof {
            m = m + 1;
        }
    }
    proof {
        assert forall|e: (i32, i32)| #[trigger] out@.contains(e) == strip_found(
            seed,
            *pattern,
            x_end as int,
            z_start as int,
            z_end as int,
            sx_start as int,
            sx_end as int,
            e,
        ) by {
            if strip_found(
                seed,
                *pattern,
                x_end as int,
                z_start as int,
                z_end as int,
                sx_start as int,
                sx_end as int,
                e,
            ) && e.0 >= curr_x {
                lemma_block_start(sx_start as int, m, curr_x as int);
                vstd::arithmetic::div_mod::lemma_fundamental_div_mod(e.0 - sx_start, 64);
                assert(block_start(sx_start as int, e.0 as int) >= curr_x) by (nonlinear_arith)
                    requires
                        e.0 - sx_start == 64 * ((e.0 - sx_start) / 64) + (e.0 - sx_start) % 64,
                        0 <= (e.0 - sx_start) % 64 < 64,
                        e.0 >= sx_start + 64 * m,
                        block_start(sx_start as int, e.0 as int) == sx_start + 64 * ((e.0 - sx_start) / 64),
                        curr_x == sx_start + 64 * m,
                ;
            }
        }
    }
    out
}

/// The union of two lists of positions, each in lexicographic order, in
/// lexicographic order and without repeats.
fn merge_matches(a: &Vec<(i32, i32)>, b: &Vec<(i32, i32)>) -> (r: Vec<(i32, i32)>)
    requires
        strictly_sorted(a@),
        strictly_sorted(b@),
    ensures
        strictly_sorted(r@),
        forall|e: (i32, i32)| #[trigger] r@.contains(e) == (a@.contains(e) || b@.contains(e)),
{
    let mut out: Vec<(i32, i32)> = Vec::new();
    let mut i: usize = 0;
    let mut j: usize = 0;
    while i < a.len() || j < b.len()
        invariant
            strictly_sorted(a@),
            strictly_sorted(b@),
            i <= a@.len(),
            j <= b@.len(),
            strictly_sorted(out@),
            i < a@.len() ==> all_below(out@, a@[i as int]),
            j < b@.len() ==> all_below(out@, b@[j as int]),
            forall|e: (i32, i32)|
                #[trigger] out@.contains(e) == (a@.take(i as int).contains(e) || b@.take(j as int).contains(e)),
        decreases a@.len() + b@.len() - i - j,
    {
        let ghost before = out@;
        let take_a: bool;
        let take_b: bool;
        if i < a.len() && j < b.len() {
            let x = a[i];
            let y = b[j];
            if pair_less(x, y) {
                take_a = true;
                take_b = false;
            } else if pair_less(y, x) {
                take_a = false;
                take_b = true;
            } else {
                take_a = true;
                take_b = true;
            }
        } else if i < a.len() {
            take_a = true;
            take_b = false;
        } else {
            take_a = false;
            take_b = true;
        }
        let e = if take_a {
            a[i]
        } else {
            b[j]
        };
        out.push(e);
        proof {
            assert(all_below(before, e));
            assert forall|k: int, l: int| 0 <= k < l < out@.len() implies pair_lt(#[trigger] out@[k], #[trigger] out@[l]) by {
                if l == before.len() {
                    assert(pair_lt(before[k], e));
                } else {
                    assert(pair_lt(before[k], before[l]));
                }
            }
        }
        let ghost oi = i;
        let ghost oj = j;
        if take_a {
            i = i + 1;
        }
        if take_b {
            j = j + 1;
        }
        proof {
            assert(a@.take(i as int) == a@.take(oi as int) || a@.take(i as int) =~= a@.take(oi as int).push(a@[oi as int]));
            assert(b@.take(j as int) == b@.take(oj as int) || b@.take(j as int) =~= b@.take(oj as int).push(b@[oj as int]));
            assert forall|x: (i32, i32)| #[trigger] out@.contains(x) == (a@.take(i as int).contains(x) || b@.take(j as int).contains(x)) by {
                lemma_push_contains(before, e, x);
                if take_a {
                    lemma_push_contains(a@.take(oi as int), a@[oi as int], x);
                }
                if take_b {
                    lemma_push_contains(b@.take(oj as int), b@[oj as int], x);
                }
            }
            if i < a@.len() {
                assert forall|k: int| 0 <= k < out@.len() implies pair_lt(#[trigger] out@[k], a@[i as int]) by {
                    if k < before.len() {
                        assert(pair_lt(before[k], a@[oi as int]));
                        if oi < i {
                            assert(pair_lt(a@[oi as int], a@[i as int]));
                        }
                    } else {
                        if take_a {
                            assert(pair_lt(a@[oi as int], a@[i as int]));
                        } else {
                            assert(pair_lt(b@[oj as int], a@[oi as int]));
                        }
                    }
                }
            }
            if j < b@.len() {
                assert forall|k: int| 0 <= k < out@.len() implies pair_lt(#[trigger] out@[k], b@[j as int]) by {
                    if k < before.len() {
                        assert(pair_lt(before[k], b@[oj as int]));
                        if oj < j {
                            assert(pair_lt(b@[oj as int], b@[j as int]));
                        }
                    } else {
                        if take_b {
                            assert(pair_lt(b@[oj as int], b@[j as int]));
                        } else {
                            assert(pair_lt(a@[oi as int], b@[oj as int]));
                        }
                    }
                }
            }
        }
    }
    proof {
        assert(a@.take(i as int) =~= a@);
        assert(b@.take(j as int) =~= b@);
    }
    out
}

} // verus!

verus! {

/// Whether the search dispatches to the experimental reverse scan.
const EXPERIMENTAL_REVERSE_JUMP_MODE: bool = false;

/// The settings admit a search whose coordinates all stay in the `i32`
/// range: the pattern is well formed, the sizes `x_end - x_start + 1` and
/// `z_end - z_start + 1` of the range are `i32` values, and, where the x
/// range is not empty, the blocks of every strip (which start at most the
/// pattern width less one column past `x_end`) and the step to the next
/// block stay clear of `i32::MAX`, and so do the rows of the downward scan.
pub open spec fn search_fits(pre: &Preprocessed) -> bool {
    &&& pre.pattern.wf()
    &&& pre.pat_h == pre.pattern.height
    &&& pre.pat_w == pre.pattern.width
    &&& i32::MIN <= pre.x_end - pre.x_start < i32::MAX
    &&& i32::MIN <= pre.z_end - pre.z_start < i32::MAX
    &&& pre.x_start <= pre.x_end ==> {
        &&& pre.x_end + pre.pat_w <= i32::MAX - 63
        &&& rows_fit(pre.z_start as int, pre.z_end as int, pre.pattern.height as int)
    }
}

/// As [`search_fits`], for the upward scan, whose jumps go up to a pattern
/// height above the first row.
pub open spec fn search_fits_upward(pre: &Preprocessed) -> bool {
    &&& search_fits(pre)
    &&& pre.x_start <= pre.x_end ==> rows_fit_upward(pre.z_start as int, pre.z_end as int, pre.pattern.height as int)
}

/// A search that fits, over a non-empty x range: the one that scans blocks.
pub open spec fn scan_fits(pre: &Preprocessed) -> bool {
    &&& search_fits(pre)
    &&& pre.x_start <= pre.x_end
}

/// First column of strip `t` of `n`: the x range is cut into `n` strips of
/// `(x_end - x_start + 1) / n` columns.
pub open spec fn strip_start(pre: &Preprocessed, n: int, t: int) -> int {
    pre.x_start + t * ((pre.x_end - pre.x_start + 1) / n)
}

/// Last column at which strip `t` of `n` starts a block: the last strip
/// ends at `x_end`; the others overlap the next strip by the pattern width
/// less one column.
pub open spec fn strip_end(pre: &Preprocessed, n: int, t: int) -> int {
    if t == n - 1 {
        pre.x_end as int
    } else {
        strip_start(pre, n, t) + (pre.x_end - pre.x_start + 1) / n + pre.pattern.width - 1
    }
}

/// The last column that a window with its top-left corner at or before
/// `x_end` reads.
pub open spec fn read_end(pre: &Preprocessed) -> int {
    pre.x_end + pre.pattern.width - 1
}

/// The blocks of a search cut into `n` strips report a match at `e`; the
/// blocks read real chunks up to [`read_end`], and may report corners past
/// `x_end`.
pub open spec fn found_in_strips(pre: &Preprocessed, n: int, e: (i32, i32)) -> bool {
    exists|t: int|
        0 <= t < n && #[trigger] strip_found(
            pre.seed,
            pre.pattern,
            read_end(pre),
            pre.z_start as int,
            pre.z_end as int,
            strip_start(pre, n, t),
            strip_end(pre, n, t),
            e,
        )
}

/// The search reports a match at `e`: its top-left corner lies in
/// `x_start..=x_end` by `z_start..=z_end - h + 1`, and the pattern holds there.
pub open spec fn match_at(pre: &Preprocessed, e: (i32, i32)) -> bool {
    &&& pre.x_start <= e.0 <= pre.x_end
    &&& pre.z_start <= e.1 <= pre.z_end - pre.pattern.height + 1
    &&& pattern_at(pre.seed, pre.pattern, e.0 as int, e.1 as int)
}

/// `r` lists the matches of the search, in lexicographic order: all of them
/// when `limit` is 0, otherwise the first `limit` of them.
pub open spec fn is_match_list(pre: &Preprocessed, limit: int, r: Seq<(i32, i32)>) -> bool {
    &&& strictly_sorted(r)
    &&& forall|k: int| 0 <= k < r.len() ==> match_at(pre, #[trigger] r[k])
    &&& limit == 0 ==> forall|e: (i32, i32)| match_at(pre, e) ==> #[trigger] r.contains(e)
    &&& limit > 0 ==> r.len() <= limit
    &&& limit > 0 ==> forall|e: (i32, i32)|
        match_at(pre, e) && !#[trigger] r.contains(e) ==> r.len() == limit && pair_lt(
            r.last(),
            e,
        )
}

/// Number of chunks in the scan range, as the search reports it.
pub open spec fn scanned_blocks(pre: &Preprocessed) -> u64 {
    ((pre.x_end - pre.x_start + 1) * (pre.z_end - pre.z_start + 1)) as u64
}

proof fn lemma_strip_bounds(pre: &Preprocessed, n: int, t: int)
    requires
        scan_fits(pre),
        1 <= n <= i32::MAX,
        0 <= t < n,
    ensures
        pre.x_start <= strip_start(pre, n, t) <= pre.x_end + 1,
        strip_end(pre, n, t) <= pre.x_end + pre.pattern.width - 1,
        0 <= t * ((pre.x_end - pre.x_start + 1) / n) <= pre.x_end - pre.x_start + 1,
{
    let total = pre.x_end - pre.x_start + 1;
    let c = total / n;
    vstd::arithmetic::div_mod::lemma_fundamental_div_mod(total, n);
    assert(0 <= c);
    assert(t * c <= total) by (nonlinear_arith)
        requires
            total == n * c + total % n,
            0 <= total % n,
            0 <= t < n,
            0 <= c,
    ;
    assert(0 <= t * c) by (nonlinear_arith)
        requires
            0 <= t,
            0 <= c,
    ;
    if t < n - 1 {
        assert((t + 1) * c == t * c + c) by (nonlinear_arith);
        assert((t + 1) * c <= (n - 1) * c) by (nonlinear_arith)
            requires
                0 <= t + 1 <= n - 1,
                0 <= c,
        ;
        assert((n - 1) * c == n * c - c) by (nonlinear_arith);
        assert((t + 1) * c <= total - 1) by {
            if c == 0 {
                assert((t + 1) * c == 0) by (nonlinear_arith)
                    requires
                        c == 0,
                ;
            }
        }
    }
}

/// Strip `t` of a search cut into `n` strips: its matches in lexicographic
/// order, the blocks reading real chunks up to [`read_end`].
fn scan_strip_at(pre: &Preprocessed, n: usize, t: usize, reverse_jump: bool) -> (r: Vec<(i32, i32)>)
    requires
        scan_fits(pre),
        reverse_jump ==> search_fits_upward(pre),
        1 <= n <= i32::MAX,
        t < n,
    ensures
        strictly_sorted(r@),
        forall|e: (i32, i32)|
            #[trigger] r@.contains(e) == strip_found(
                pre.seed,
                pre.pattern,
                read_end(pre),
                pre.z_start as int,
                pre.z_end as int,
                strip_start(pre, n as int, t as int),
                strip_end(pre, n as int, t as int),
                e,
            ),
{
    proof {
        lemma_strip_bounds(pre, n as int, t as int);
    }
    let pattern = &pre.pattern;
    let total_x = pre.x_end - pre.x_start + 1;
    let chunk_x = total_x / n as i32;
    let read_x_end = pre.x_end + (pattern.width as i32) - 1;
    let t_x_start = pre.x_start + (t as i32) * chunk_x;
    let t_x_end = if t == n - 1 {
        pre.x_end
    } else {
        t_x_start + chunk_x + pattern.width as i32 - 1
    };
    scan_strip(pre.seed, pattern, read_x_end, pre.z_start, pre.z_end, t_x_start, t_x_end, reverse_jump)
}

/// `rayon`'s `into_par_iter().map(..).collect_into_vec(..)` over the strip
/// indices `0 .. n`: each strip is scanned by [`scan_strip_at`] on some
/// thread. The contract claims that element `t` of the result is what
/// `scan_strip_at` returns for strip `t`, as rayon documents of
/// `collect_into_vec` on an indexed iterator: the vector holds the items in
/// the order of the indices.
#[verifier::external_body]
fn scan_strips_in_parallel(pre: &Preprocessed, n: usize, reverse_jump: bool) -> (r: Vec<Vec<(i32, i32)>>)
    requires
        scan_fits(pre),
        reverse_jump ==> search_fits_upward(pre),
        1 <= n <= i32::MAX,
    ensures
        r@.len() == n,
        forall|t: int| 0 <= t < n ==> strictly_sorted(#[trigger] r@[t]@),
        forall|t: int, e: (i32, i32)|
            0 <= t < n ==> (#[trigger] r@[t]@.contains(e) == strip_found(
                pre.seed,
                pre.pattern,
                read_end(pre),
                pre.z_start as int,
                pre.z_end as int,
                strip_start(pre, n as int, t),
                strip_end(pre, n as int, t),
                e,
            )),
{
    let mut out = Vec::new();
    (0..n).into_par_iter().map(|t| scan_strip_at(pre, n, t, reverse_jump)).collect_into_vec(&mut out);
    out
}

/// The search cut into `num_threads` strips of the x range, scanned in
/// parallel, each in blocks of 64 columns, with the forward ring scan or,
/// with `reverse_jump`, the upward scan that skips hopeless rows. Returns
/// the matches in lexicographic order, cut to `limit` when `limit` is not
/// 0, and the number of chunks in the scan range.
pub fn search_strips(pre: &Preprocessed, num_threads: usize, reverse_jump: bool) -> (result: (Vec<(i32, i32)>, u64))
    requires
        search_fits(pre),
        reverse_jump ==> search_fits_upward(pre),
        1 <= num_threads <= i32::MAX,
    ensures
        is_match_list(pre, pre.limit as int, result.0@),
        result.1 == scanned_blocks(pre),
{
    let limit = pre.limit;
    let x_start = pre.x_start;
    let x_end = pre.x_end;
    let z_start = pre.z_start;
    let z_end = pre.z_end;
    let x_range = (x_end - x_start + 1) as i64;
    let z_range = (z_end - z_start + 1) as i64;
    proof {
        assert(-0x8000_0000 <= z_range <= 0x8000_0000);
        assert(-0x8000_0000 <= x_range <= 0x8000_0000);
        assert(-0x4000_0000_0000_0000 <= x_range * z_range <= 0x4000_0000_0000_0000) by (nonlinear_arith)
            requires
                -0x8000_0000 <= z_range <= 0x8000_0000,
                -0x8000_0000 <= x_range <= 0x8000_0000,
        ;
    }
    let total_blocks = #[verifier::truncate] ((x_range * z_range) as u64);
    if x_start > x_end {
        // An empty x range: no corner to report.
        return (Vec::new(), total_blocks);
    }
    let ghost n = num_threads as int;
    let strips = scan_strips_in_parallel(pre, num_threads, reverse_jump);
    let mut results: Vec<(i32, i32)> = Vec::new();
    let mut t: usize = 0;
    while t < num_threads
        invariant
            scan_fits(pre),
            1 <= num_threads <= i32::MAX,
            n == num_threads,
            x_end == pre.x_end,
            strips@.len() == n,
            forall|u: int| 0 <= u < n ==> strictly_sorted(#[trigger] strips@[u]@),
            forall|u: int, e: (i32, i32)|
                0 <= u < n ==> (#[trigger] strips@[u]@.contains(e) == strip_found(
                    pre.seed,
                    pre.pattern,
                    read_end(pre),
                    pre.z_start as int,
                    pre.z_end as int,
                    strip_start(pre, n, u),
                    strip_end(pre, n, u),
                    e,
                )),
            t <= num_threads,
            strictly_sorted(results@),
            forall|e: (i32, i32)|
                #[trigger] results@.contains(e) == exists|u: int|
                    0 <= u < t && #[trigger] strip_found(
                        pre.seed,
                        pre.pattern,
                        read_end(pre),
                        pre.z_start as int,
                        pre.z_end as int,
                        strip_start(pre, n, u),
                        strip_end(pre, n, u),
                        e,
                    ),
        decreases num_threads - t,
    {
        let strip = &strips[t];
        assert(strictly_sorted(strips@[t as int]@));
        let ghost before = results@;
        results = merge_matches(&results, strip);
        proof {
            assert forall|e: (i32, i32)| #[trigger] results@.contains(e) == exists|u: int|
                0 <= u < t + 1 && #[trigger] strip_found(
                    pre.seed,
                    pre.pattern,
                    read_end(pre),
                    pre.z_start as int,
                    pre.z_end as int,
                    strip_start(pre, n, u),
                    strip_end(pre, n, u),
                    e,
                ) by {
                assert(strips@[t as int]@.contains(e) == strip_found(
                    pre.seed,
                    pre.pattern,
                    read_end(pre),
                    pre.z_start as int,
                    pre.z_end as int,
                    strip_start(pre, n, t as int),
                    strip_end(pre, n, t as int),
                    e,
                ));
                if exists|u: int|
                    0 <= u < t + 1 && #[trigger] strip_found(
                        pre.seed,
                        pre.pattern,
                        read_end(pre),
                        pre.z_start as int,
                        pre.z_end as int,
                        strip_start(pre, n, u),
                        strip_end(pre, n, u),
                        e,
                    ) {
                    let u = choose|u: int|
                        0 <= u < t + 1 && #[trigger] strip_found(
                            pre.seed,
                            pre.pattern,
                            read_end(pre),
                            pre.z_start as int,
                            pre.z_end as int,
                            strip_start(pre, n, u),
                            strip_end(pre, n, u),
                            e,
                        );
                    if u < t {
                        assert(before.contains(e));
                    }
                }
            }
        }
        t = t + 1;
    }
    let ghost merged = results@;
    // Blocks report corners up to 63 columns past `x_end`; those come last.
    let mut j: usize = 0;
    while j < results.len() && results[j].0 <= x_end
        invariant
            j <= results@.len(),
            results@ == merged,
            x_end == pre.x_end,
            forall|k: int| 0 <= k < j ==> (#[trigger] merged[k]).0 <= x_end,
        decreases results@.len() - j,
    {
        j = j + 1;
    }
    results.truncate(j);
    let ghost full = results@;
    proof {
        assert(full =~= merged.take(j as int));
        assert forall|e: (i32, i32)| #[trigger] full.contains(e) == match_at(pre, e) by {
            lemma_strips_find_matches(pre, n, e);
            if merged.contains(e) && e.0 <= x_end {
                let k = choose|k: int| 0 <= k < merged.len() && merged[k] == e;
                if k >= j {
                    assert(merged[j as int].0 > x_end);
                    if k > j {
                        assert(pair_lt(merged[j as int], merged[k]));
                    }
                }
                assert(full[k] == e);
            }
            if full.contains(e) {
                let k = choose|k: int| 0 <= k < full.len() && full[k] == e;
                assert(merged[k] == e);
            }
        }
    }
    if limit > 0 && results.len() > limit {
        results.truncate(limit);
    }
    proof {
        assert forall|k: int, l: int| 0 <= k < l < results@.len() implies pair_lt(#[trigger] results@[k], #[trigger] results@[l]) by {
            assert(results@[k] == full[k] && results@[l] == full[l]);
        }
        assert forall|k: int| 0 <= k < results@.len() implies match_at(pre, #[trigger] results@[k]) by {
            assert(results@[k] == full[k]);
            assert(full.contains(full[k]));
        }
        if limit > 0 {
            assert forall|e: (i32, i32)| match_at(pre, e) && !#[trigger] results@.contains(e) implies results@.len() == limit && pair_lt(results@.last(), e) by {
                assert(full.contains(e));
                let k = choose|k: int| 0 <= k < full.len() && full[k] == e;
                if k < results@.len() {
                    assert(results@[k] == e);
                }
                assert(results@.last() == full[limit - 1]);
            }
        }
    }
    (results, total_blocks)
}

} // verus!

verus! {

/// The pattern holds with its top-left corner at chunk `(x, z)`: every
/// 1-cell lies on a slime chunk and every 0-cell on a chunk that is not one.
pub open spec fn pattern_at(seed: i64, pat: Pattern, x: int, z: int) -> bool {
    &&& forall|dy: int, k: int|
        0 <= dy < pat.height && 0 <= k < pat.ones@[dy]@.len() ==> #[trigger] slime_at(
            seed,
            (x + pat.ones@[dy]@[k]) as i32,
            (z + dy) as i32,
        )
    &&& forall|dy: int, k: int|
        0 <= dy < pat.height && 0 <= k < pat.zeros@[dy]@.len() ==> !#[trigger] slime_at(
            seed,
            (x + pat.zeros@[dy]@[k]) as i32,
            (z + dy) as i32,
        )
}

/// When the whole pattern lies at or left of `x_end`, every block sees the
/// true slime flags.
proof fn lemma_window_is_pattern(seed: i64, pat: Pattern, x_end: int, curr_x: int, x: int, z: int)
    requires
        pat.wf(),
        x + pat.width - 1 <= x_end,
    ensures
        window_matches(seed, pat, x_end, curr_x, x, z) == pattern_at(seed, pat, x, z),
{
    assert forall|dy: int, k: int| 0 <= dy < pat.height && 0 <= k < pat.ones@[dy]@.len() implies #[trigger] cell(
        seed,
        x_end,
        curr_x,
        x + pat.ones@[dy]@[k],
        z + dy,
    ) == slime_at(seed, (x + pat.ones@[dy]@[k]) as i32, (z + dy) as i32) by {
        assert(pat.ones@[dy]@[k] < pat.width);
    }
    assert forall|dy: int, k: int| 0 <= dy < pat.height && 0 <= k < pat.zeros@[dy]@.len() implies #[trigger] cell(
        seed,
        x_end,
        curr_x,
        x + pat.zeros@[dy]@[k],
        z + dy,
    ) == slime_at(seed, (x + pat.zeros@[dy]@[k]) as i32, (z + dy) as i32) by {
        assert(pat.zeros@[dy]@[k] < pat.width);
    }
    if window_matches(seed, pat, x_end, curr_x, x, z) {
        assert forall|dy: int, k: int| 0 <= dy < pat.height && 0 <= k < pat.ones@[dy]@.len() implies #[trigger] slime_at(
            seed,
            (x + pat.ones@[dy]@[k]) as i32,
            (z + dy) as i32,
        ) by {
            assert(row_matches(seed, pat, x_end, curr_x, x, z, dy));
            assert(cell(seed, x_end, curr_x, x + pat.ones@[dy]@[k], z + dy));
        }
        assert forall|dy: int, k: int| 0 <= dy < pat.height && 0 <= k < pat.zeros@[dy]@.len() implies !#[trigger] slime_at(
            seed,
            (x + pat.zeros@[dy]@[k]) as i32,
            (z + dy) as i32,
        ) by {
            assert(row_matches(seed, pat, x_end, curr_x, x, z, dy));
            assert(!cell(seed, x_end, curr_x, x + pat.zeros@[dy]@[k], z + dy));
        }
    }
    if pattern_at(seed, pat, x, z) {
        assert forall|dy: int| 0 <= dy < pat.height implies #[trigger] row_matches(seed, pat, x_end, curr_x, x, z, dy) by {
            assert forall|k: int| 0 <= k < pat.ones@[dy]@.len() implies #[trigger] cell(
                seed,
                x_end,
                curr_x,
                x + pat.ones@[dy]@[k],
                z + dy,
            ) by {
                assert(slime_at(seed, (x + pat.ones@[dy]@[k]) as i32, (z + dy) as i32));
            }
            assert forall|k: int| 0 <= k < pat.zeros@[dy]@.len() implies !#[trigger] cell(
                seed,
                x_end,
                curr_x,
                x + pat.zeros@[dy]@[k],
                z + dy,
            ) by {
                assert(!slime_at(seed, (x + pat.zeros@[dy]@[k]) as i32, (z + dy) as i32));
            }
        }
    }
}

/// The blocks of the strips, kept to corners at or before `x_end`, report
/// exactly the matches of the search, whatever the number of strips.
proof fn lemma_strips_find_matches(pre: &Preprocessed, n: int, e: (i32, i32))
    requires
        scan_fits(pre),
        1 <= n <= i32::MAX,
    ensures
        (found_in_strips(pre, n, e) && e.0 <= pre.x_end) == match_at(pre, e),
{
    let x = e.0 as int;
    let total = pre.x_end - pre.x_start + 1;
    let c = total / n;
    vstd::arithmetic::div_mod::lemma_fundamental_div_mod(total, n);
    if found_in_strips(pre, n, e) && e.0 <= pre.x_end {
        let t = choose|t: int|
            0 <= t < n && #[trigger] strip_found(
                pre.seed,
                pre.pattern,
                read_end(pre),
                pre.z_start as int,
                pre.z_end as int,
                strip_start(pre, n, t),
                strip_end(pre, n, t),
                e,
            );
        lemma_strip_bounds(pre, n, t);
        lemma_window_is_pattern(
            pre.seed,
            pre.pattern,
            read_end(pre),
            block_start(strip_start(pre, n, t), x),
            x,
            e.1 as int,
        );
    }
    if match_at(pre, e) {
        // The strip that holds column x: the last one starting at or before x.
        let t: int = if c == 0 {
            n - 1
        } else if (x - pre.x_start) / c < n - 1 {
            (x - pre.x_start) / c
        } else {
            n - 1
        };
        lemma_strip_bounds(pre, n, t);
        let s = strip_start(pre, n, t);
        assert(s <= x) by {
            if c > 0 {
                vstd::arithmetic::div_mod::lemma_fundamental_div_mod(x - pre.x_start, c);
                assert(t * c <= x - pre.x_start) by (nonlinear_arith)
                    requires
                        x - pre.x_start == c * ((x - pre.x_start) / c) + (x - pre.x_start) % c,
                        0 <= (x - pre.x_start) % c,
                        0 <= t <= (x - pre.x_start) / c,
                        c > 0,
                ;
            } else {
                assert(t * c == 0) by (nonlinear_arith)
                    requires
                        c == 0,
                ;
            }
        }
        vstd::arithmetic::div_mod::lemma_fundamental_div_mod(x - s, 64);
        let b = block_start(s, x);
        assert(b <= x) by (nonlinear_arith)
            requires
                x - s == 64 * ((x - s) / 64) + (x - s) % 64,
                0 <= (x - s) % 64,
                b == s + 64 * ((x - s) / 64),
        ;
        assert(b <= strip_end(pre, n, t)) by {
            if t < n - 1 {
                vstd::arithmetic::div_mod::lemma_fundamental_div_mod(x - pre.x_start, c);
                assert(x < s + c) by (nonlinear_arith)
                    requires
                        x - pre.x_start == c * ((x - pre.x_start) / c) + (x - pre.x_start) % c,
                        (x - pre.x_start) % c < c,
                        t == (x - pre.x_start) / c,
                        s == pre.x_start + t * c,
                        c > 0,
                ;
            }
        }
        lemma_window_is_pattern(pre.seed, pre.pattern, read_end(pre), b, x, e.1 as int);
        assert(strip_found(
            pre.seed,
            pre.pattern,
            read_end(pre),
            pre.z_start as int,
            pre.z_end as int,
            strip_start(pre, n, t),
            strip_end(pre, n, t),
            e,
        ));
    }
}

} // verus!

verus! {

/// The chunk row held in `cu` and `nx` matches some row of the pattern at
/// some offset.
#[verifier::opaque]
pub open spec fn row_useful(pat: Pattern, cu: u64, nx: u64) -> bool {
    exists|dy: int, i: u64| 0 <= dy < pat.height && i < 64 && #[trigger] row_bits_match(pat, dy, cu, nx, i as int)
}

/// Whether the chunk row held in `cu` and `nx` matches at least one row of
/// the pattern at some offset; a row that matches none rules out every
/// window that covers it.
fn row_matches_any_pattern_row(pattern: &Pattern, cu: u64, nx: u64) -> (r: bool)
    requires
        pattern.wf(),
    ensures
        r == row_useful(*pattern, cu, nx),
{
    reveal(row_useful);
    let pat_h = pattern.height;
    let mut dy: usize = 0;
    while dy < pat_h
        invariant
            pattern.wf(),
            pat_h == pattern.height,
            dy <= pat_h,
            forall|d: int, i: u64| 0 <= d < dy && i < 64 ==> !#[trigger] row_bits_match(*pattern, d, cu, nx, i as int),
        decreases pat_h - dy,
    {
        let m = row_mask(pattern, dy, cu, nx);
        proof {
            lemma_zero_iff_no_bits(m);
        }
        if m != 0 {
            proof {
                let i = choose|i: u64| i < 64 && #[trigger] bit_of(m, i);
                assert(row_bits_match(*pattern, dy as int, cu, nx, i as int));
                assert(row_useful(*pattern, cu, nx)) by {
                    reveal(row_useful);
                    assert(0 <= dy < pattern.height && i < 64 && row_bits_match(*pattern, dy as int, cu, nx, i as int));
                }
            }
            return true;
        }
        proof {
            assert forall|d: int, i: u64| 0 <= d < dy + 1 && i < 64 implies !#[trigger] row_bits_match(
                *pattern,
                d,
                cu,
                nx,
                i as int,
            ) by {
                if d == dy {
                    assert(!bit_of(m, i));
                }
            }
        }
        dy = dy + 1;
    }
    false
}

/// The flags of chunk row `z` for the block starting at `curr_x`, and for
/// the following block when it starts at or before `x_end`.
fn row_flags(seed: i64, x_end: i32, curr_x: i32, z: i32) -> (r: (u64, u64))
    requires
        curr_x <= i32::MAX - 64,
        x_end <= i32::MAX - 63,
    ensures
        row_holds(seed, x_end as int, curr_x as int, r.0, r.1, z as int),
{
    let next_x = curr_x + 64;
    let cu = generate_u64_chunk(seed, curr_x, z);
    let nx = if next_x <= x_end {
        generate_u64_chunk(seed, next_x, z)
    } else {
        0
    };
    proof {
        assert forall|j: u64| j < 64 implies !#[trigger] bit_of(0u64, j) by {
            lemma_bit_zero(j);
        }
    }
    (cu, nx)
}

/// The flags of the `h` chunk rows from `z_top` down, slot `d` holding row
/// `z_top + d`.
fn load_rows(seed: i64, x_end: i32, curr_x: i32, z_top: i32, h: usize) -> (rows: (Vec<u64>, Vec<u64>))
    requires
        curr_x <= i32::MAX - 64,
        x_end <= i32::MAX - 63,
        h <= 64,
        z_top + h <= i32::MAX + 1,
    ensures
        rows.0@.len() == h,
        rows.1@.len() == h,
        forall|d: int|
            0 <= d < h ==> #[trigger] row_holds(seed, x_end as int, curr_x as int, rows.0@[d], rows.1@[d], z_top + d),
{
    let mut curr_rows: Vec<u64> = Vec::new();
    let mut next_rows: Vec<u64> = Vec::new();
    let mut i: usize = 0;
    while i < h
        invariant
            curr_x <= i32::MAX - 64,
            x_end <= i32::MAX - 63,
            h <= 64,
            z_top + h <= i32::MAX + 1,
            i <= h,
            curr_rows@.len() == i,
            next_rows@.len() == i,
            forall|d: int|
                0 <= d < i ==> #[trigger] row_holds(
                    seed,
                    x_end as int,
                    curr_x as int,
                    curr_rows@[d],
                    next_rows@[d],
                    z_top + d,
                ),
        decreases h - i,
    {
        let (cu, nx) = row_flags(seed, x_end, curr_x, z_top + i as i32);
        curr_rows.push(cu);
        next_rows.push(nx);
        i = i + 1;
    }
    (curr_rows, next_rows)
}

/// Moves every slot down by one and puts `cu` and `nx` in slot 0.
fn slide_rows(curr_rows: &mut Vec<u64>, next_rows: &mut Vec<u64>, cu: u64, nx: u64)
    requires
        old(curr_rows)@.len() >= 1,
        old(next_rows)@.len() == old(curr_rows)@.len(),
    ensures
        final(curr_rows)@ == seq![cu] + old(curr_rows)@.drop_last(),
        final(next_rows)@ == seq![nx] + old(next_rows)@.drop_last(),
{
    let ghost old_curr = curr_rows@;
    let ghost old_next = next_rows@;
    let len = curr_rows.len();
    let mut i: usize = len - 1;
    while i > 0
        invariant
            len == old_curr.len(),
            len == old_next.len(),
            i < len,
            curr_rows@.len() == len,
            next_rows@.len() == len,
            forall|d: int| 0 <= d <= i ==> #[trigger] curr_rows@[d] == old_curr[d],
            forall|d: int| 0 <= d <= i ==> #[trigger] next_rows@[d] == old_next[d],
            forall|d: int| i < d < len ==> #[trigger] curr_rows@[d] == old_curr[d - 1],
            forall|d: int| i < d < len ==> #[trigger] next_rows@[d] == old_next[d - 1],
        decreases i,
    {
        let c = curr_rows[i - 1];
        let n = next_rows[i - 1];
        curr_rows.set(i, c);
        next_rows.set(i, n);
        i = i - 1;
    }
    curr_rows.set(0, cu);
    next_rows.set(0, nx);
    proof {
        assert(curr_rows@ =~= seq![cu] + old_curr.drop_last());
        assert(next_rows@ =~= seq![nx] + old_next.drop_last());
    }
}

/// A list of `n` empty masks.
fn zero_masks(n: usize) -> (masks: Vec<u64>)
    ensures
        masks@.len() == n,
        forall|zi: int| 0 <= zi < n ==> #[trigger] masks@[zi] == 0u64,
{
    let mut masks: Vec<u64> = Vec::new();
    let mut k: usize = 0;
    while k < n
        invariant
            k <= n,
            masks@.len() == k,
            forall|zi: int| 0 <= zi < k ==> #[trigger] masks@[zi] == 0u64,
        decreases n - k,
    {
        masks.push(0u64);
        k = k + 1;
    }
    masks
}

/// The window with its top row at `z_top`, read from slots `0 .. h` in
/// order, gives the match mask of that row.
proof fn lemma_top_window(
    seed: i64,
    pat: Pattern,
    x_end: int,
    curr_x: int,
    curr_rows: Seq<u64>,
    next_rows: Seq<u64>,
    z_top: int,
    combined: u64,
)
    requires
        pat.wf(),
        curr_rows.len() == pat.height,
        next_rows.len() == pat.height,
        forall|d: int|
            0 <= d < pat.height ==> #[trigger] row_holds(seed, x_end, curr_x, curr_rows[d], next_rows[d], z_top + d),
        forall|i: u64|
            i < 64 ==> #[trigger] bit_of(combined, i) == (forall|dy: int|
                0 <= dy < pat.height ==> #[trigger] row_bits_match(
                    pat,
                    dy,
                    curr_rows[ring_slot(0, dy, pat.height as int)],
                    next_rows[ring_slot(0, dy, pat.height as int)],
                    i as int,
                )),
    ensures
        forall|i: u64|
            i < 64 ==> #[trigger] bit_of(combined, i) == window_matches(seed, pat, x_end, curr_x, curr_x + i, z_top),
{
    let h = pat.height as int;
    lemma_ring_slots(0, h);
    assert forall|d: int| 0 <= d < h implies #[trigger] slot_ok(seed, x_end, curr_x, curr_rows, next_rows, 0, z_top, d, h) by {
        vstd::arithmetic::div_mod::lemma_small_mod(d as nat, h as nat);
    }
    lemma_window_from_slots(seed, pat, x_end, curr_x, curr_rows, next_rows, 0, z_top, combined);
}

/// The masks of one block while the scan moves up: rows at or above `z_top`
/// are still to be scanned and hold no bit, rows below it hold their match
/// masks.
#[verifier::opaque]
pub open spec fn masks_done(
    seed: i64,
    pat: Pattern,
    x_end: int,
    curr_x: int,
    z_start: int,
    z_top: int,
    masks: Seq<u64>,
) -> bool {
    &&& forall|zi: int, j: u64|
        0 <= zi < masks.len() && z_start + zi <= z_top && j < 64 ==> !#[trigger] bit_of(masks[zi], j)
    &&& forall|zi: int, j: u64|
        0 <= zi < masks.len() && z_start + zi > z_top && j < 64 ==> #[trigger] bit_of(masks[zi], j)
            == window_matches(seed, pat, x_end, curr_x, curr_x + j, z_start + zi)
}

/// Skipping the windows ruled out by a row that matches no pattern row
/// keeps the masks of the rows passed over.
proof fn lemma_masks_after_skip(
    seed: i64,
    pat: Pattern,
    x_end: int,
    curr_x: int,
    z_start: int,
    old_top: int,
    masks: Seq<u64>,
)
    requires
        pat.wf(),
        masks_done(seed, pat, x_end, curr_x, z_start, old_top, masks),
        forall|t: int, j: u64|
            old_top - pat.height < t <= old_top && j < 64 ==> !#[trigger] window_matches(seed, pat, x_end, curr_x, curr_x + j, t),
    ensures
        masks_done(seed, pat, x_end, curr_x, z_start, old_top - pat.height, masks),
{
    reveal(masks_done);
    let new_top = old_top - pat.height;
    assert forall|zi: int, j: u64|
        0 <= zi < masks.len() && z_start + zi > new_top && j < 64 implies #[trigger] bit_of(masks[zi], j)
            == window_matches(seed, pat, x_end, curr_x, curr_x + j, z_start + zi) by {
        if z_start + zi <= old_top {
            assert(!bit_of(masks[zi], j));
            assert(!window_matches(seed, pat, x_end, curr_x, curr_x + j, z_start + zi));
        }
    }
}

/// Storing the mask of the window at `z_top` moves the scan up one row.
proof fn lemma_masks_after_set(
    seed: i64,
    pat: Pattern,
    x_end: int,
    curr_x: int,
    z_start: int,
    z_top: int,
    masks: Seq<u64>,
    combined: u64,
)
    requires
        masks_done(seed, pat, x_end, curr_x, z_start, z_top, masks),
        0 <= z_top - z_start < masks.len(),
        forall|i: u64|
            i < 64 ==> #[trigger] bit_of(combined, i) == window_matches(seed, pat, x_end, curr_x, curr_x + i, z_top),
    ensures
        masks_done(seed, pat, x_end, curr_x, z_start, z_top - 1, masks.update(z_top - z_start, combined)),
{
    reveal(masks_done);
    let idx = z_top - z_start;
    let nm = masks.update(idx, combined);
    assert forall|zi: int, j: u64|
        0 <= zi < nm.len() && z_start + zi > z_top - 1 && j < 64 implies #[trigger] bit_of(nm[zi], j)
            == window_matches(seed, pat, x_end, curr_x, curr_x + j, z_start + zi) by {
        if zi != idx {
            assert(nm[zi] == masks[zi]);
        }
    }
    assert forall|zi: int, j: u64|
        0 <= zi < nm.len() && z_start + zi <= z_top - 1 && j < 64 implies !#[trigger] bit_of(nm[zi], j) by {
        assert(nm[zi] == masks[zi]);
    }
}

/// After sliding the rows down by one and loading row `z_top` into slot 0,
/// slot `d` holds row `z_top + d`.
proof fn lemma_rows_after_slide(
    seed: i64,
    x_end: int,
    curr_x: int,
    z_top: int,
    h: int,
    old_curr: Seq<u64>,
    old_next: Seq<u64>,
    cu: u64,
    nx: u64,
)
    requires
        1 <= h,
        old_curr.len() == h,
        old_next.len() == h,
        forall|d: int|
            0 <= d < h ==> #[trigger] row_holds(seed, x_end, curr_x, old_curr[d], old_next[d], z_top + 1 + d),
        row_holds(seed, x_end, curr_x, cu, nx, z_top),
    ensures
        forall|d: int|
            0 <= d < h ==> #[trigger] row_holds(
                seed,
                x_end,
                curr_x,
                (seq![cu] + old_curr.drop_last())[d],
                (seq![nx] + old_next.drop_last())[d],
                z_top + d,
            ),
{
    assert forall|d: int| 0 <= d < h implies #[trigger] row_holds(
        seed,
        x_end,
        curr_x,
        (seq![cu] + old_curr.drop_last())[d],
        (seq![nx] + old_next.drop_last())[d],
        z_top + d,
    ) by {
        if d > 0 {
            assert((seq![cu] + old_curr.drop_last())[d] == old_curr[d - 1]);
            assert((seq![nx] + old_next.drop_last())[d] == old_next[d - 1]);
            assert(row_holds(seed, x_end, curr_x, old_curr[d - 1], old_next[d - 1], z_top + 1 + (d - 1)));
        }
    }
}

/// The state of the upward scan of one block: the masks of the rows below
/// `z_top` are done, and while rows are left the slots hold the `h` chunk
/// rows from `z_top` down.
#[verifier::opaque]
pub open spec fn reverse_state(
    seed: i64,
    pat: Pattern,
    x_end: int,
    curr_x: int,
    z_start: int,
    z_end: int,
    z_top: int,
    masks: Seq<u64>,
    curr_rows: Seq<u64>,
    next_rows: Seq<u64>,
) -> bool {
    &&& z_top <= z_end - pat.height + 1
    &&& masks.len() == window_rows(z_start, z_end, pat.height as int)
    &&& curr_rows.len() == pat.height
    &&& next_rows.len() == pat.height
    &&& z_top >= z_start ==> forall|d: int|
        0 <= d < pat.height ==> #[trigger] row_holds(seed, x_end, curr_x, curr_rows[d], next_rows[d], z_top + d)
    &&& masks_done(seed, pat, x_end, curr_x, z_start, z_top, masks)
}

/// The step of the upward scan after a top row that matches no pattern
/// row: every window that covers the row is skipped.
fn reverse_skip(
    seed: i64,
    pattern: &Pattern,
    x_end: i32,
    z_start: i32,
    z_end: i32,
    curr_x: i32,
    z_top: &mut i32,
    masks: &Vec<u64>,
    curr_rows: &mut Vec<u64>,
    next_rows: &mut Vec<u64>,
)
    requires
        pattern.wf(),
        curr_x <= i32::MAX - 64,
        x_end <= i32::MAX - 63,
        rows_fit_upward(z_start as int, z_end as int, pattern.height as int),
        *old(z_top) >= z_start,
        !row_useful(*pattern, old(curr_rows)@[0], old(next_rows)@[0]),
        reverse_state(seed, *pattern, x_end as int, curr_x as int, z_start as int, z_end as int, *old(z_top) as int, masks@, old(curr_rows)@, old(next_rows)@),
    ensures
        *final(z_top) == *old(z_top) - pattern.height,
        reverse_state(seed, *pattern, x_end as int, curr_x as int, z_start as int, z_end as int, *final(z_top) as int, masks@, final(curr_rows)@, final(next_rows)@),
{
    reveal(reverse_state);
    let pat_h = pattern.height;
    proof {
        assert(row_holds(seed, x_end as int, curr_x as int, curr_rows@[0], next_rows@[0], *z_top + 0));
        lemma_skip_windows(seed, *pattern, x_end as int, curr_x as int, curr_rows@[0], next_rows@[0], *z_top as int);
        lemma_masks_after_skip(seed, *pattern, x_end as int, curr_x as int, z_start as int, *z_top as int, masks@);
    }
    *z_top = *z_top - pat_h as i32;
    if *z_top >= z_start {
        let rows = load_rows(seed, x_end, curr_x, *z_top, pat_h);
        *curr_rows = rows.0;
        *next_rows = rows.1;
    }
}

/// The step of the upward scan that tests the window at `z_top` and moves
/// up one row.
fn reverse_test(
    seed: i64,
    pattern: &Pattern,
    x_end: i32,
    z_start: i32,
    z_end: i32,
    curr_x: i32,
    z_top: &mut i32,
    masks: &mut Vec<u64>,
    curr_rows: &mut Vec<u64>,
    next_rows: &mut Vec<u64>,
)
    requires
        pattern.wf(),
        curr_x <= i32::MAX - 64,
        x_end <= i32::MAX - 63,
        rows_fit_upward(z_start as int, z_end as int, pattern.height as int),
        *old(z_top) >= z_start,
        reverse_state(seed, *pattern, x_end as int, curr_x as int, z_start as int, z_end as int, *old(z_top) as int, old(masks)@, old(curr_rows)@, old(next_rows)@),
    ensures
        *final(z_top) == *old(z_top) - 1,
        reverse_state(seed, *pattern, x_end as int, curr_x as int, z_start as int, z_end as int, *final(z_top) as int, final(masks)@, final(curr_rows)@, final(next_rows)@),
{
    reveal(reverse_state);
    let ghost h = pattern.height as int;
    let combined = window_mask(pattern, curr_rows, next_rows, 0);
    proof {
        lemma_top_window(seed, *pattern, x_end as int, curr_x as int, curr_rows@, next_rows@, *z_top as int, combined);
        lemma_masks_after_set(seed, *pattern, x_end as int, curr_x as int, z_start as int, *z_top as int, masks@, combined);
    }
    let idx = (*z_top - z_start) as usize;
    masks.set(idx, combined);
    *z_top = *z_top - 1;
    if *z_top >= z_start {
        let ghost old_curr = curr_rows@;
        let ghost old_next = next_rows@;
        let (cu, nx) = row_flags(seed, x_end, curr_x, *z_top);
        slide_rows(curr_rows, next_rows, cu, nx);
        proof {
            lemma_rows_after_slide(seed, x_end as int, curr_x as int, *z_top as int, h, old_curr, old_next, cu, nx);
        }
    }
}

/// The same masks as [`scan_block`], found by moving the window up from the
/// bottom and, after a chunk row that matches no pattern row, jumping past
/// every window that covers that row.
fn scan_block_reverse_jump(
    seed: i64,
    pattern: &Pattern,
    x_end: i32,
    z_start: i32,
    z_end: i32,
    curr_x: i32,
) -> (masks: Vec<u64>)
    requires
        pattern.wf(),
        curr_x <= i32::MAX - 64,
        x_end <= i32::MAX - 63,
        rows_fit_upward(z_start as int, z_end as int, pattern.height as int),
    ensures
        masks@.len() == window_rows(z_start as int, z_end as int, pattern.height as int),
        forall|zi: int, i: u64|
            0 <= zi < masks@.len() && i < 64 ==> #[trigger] bit_of(masks@[zi], i) == window_matches(
                seed,
                *pattern,
                x_end as int,
                curr_x as int,
                curr_x + i,
                z_start + zi,
            ),
{
    let pat_h = pattern.height;
    let mut z_top = z_end - pat_h as i32 + 1;
    let n_rows: usize = if z_top >= z_start {
        (z_top - z_start + 1) as usize
    } else {
        0
    };
    let mut masks = zero_masks(n_rows);
    let (mut curr_rows, mut next_rows) = load_rows(seed, x_end, curr_x, z_top, pat_h);
    proof {
        reveal(masks_done);
        assert forall|zi: int, j: u64| 0 <= zi < masks@.len() && j < 64 implies !#[trigger] bit_of(masks@[zi], j) by {
            lemma_bit_zero(j);
        }
        reveal(reverse_state);
    }
    while z_top >= z_start
        invariant
            pattern.wf(),
            pat_h == pattern.height,
            curr_x <= i32::MAX - 64,
            x_end <= i32::MAX - 63,
            rows_fit_upward(z_start as int, z_end as int, pattern.height as int),
            reverse_state(seed, *pattern, x_end as int, curr_x as int, z_start as int, z_end as int, z_top as int, masks@, curr_rows@, next_rows@),
        decreases z_top - z_start + pat_h,
    {
        proof {
            reveal(reverse_state);
        }
        if row_matches_any_pattern_row(pattern, curr_rows[0], next_rows[0]) {
            reverse_test(seed, pattern, x_end, z_start, z_end, curr_x, &mut z_top, &mut masks, &mut curr_rows, &mut next_rows);
        } else {
            reverse_skip(seed, pattern, x_end, z_start, z_end, curr_x, &mut z_top, &masks, &mut curr_rows, &mut next_rows);
        }
    }
    proof {
        reveal(reverse_state);
        reveal(masks_done);
        assert forall|zi: int, i: u64| 0 <= zi < masks@.len() && i < 64 implies #[trigger] bit_of(masks@[zi], i)
            == window_matches(seed, *pattern, x_end as int, curr_x as int, curr_x + i, z_start + zi) by {
            assert(z_start + zi > z_top);
        }
    }
    masks
}

/// A chunk row that matches no pattern row at any offset rules out every
/// window that covers it.
proof fn lemma_skip_windows(seed: i64, pat: Pattern, x_end: int, curr_x: int, cu: u64, nx: u64, zr: int)
    requires
        pat.wf(),
        row_holds(seed, x_end, curr_x, cu, nx, zr),
        !row_useful(pat, cu, nx),
    ensures
        forall|t: int, j: u64|
            zr - pat.height < t <= zr && j < 64 ==> !#[trigger] window_matches(seed, pat, x_end, curr_x, curr_x + j, t),
{
    reveal(row_useful);
    assert forall|t: int, j: u64| zr - pat.height < t <= zr && j < 64 implies !#[trigger] window_matches(
        seed,
        pat,
        x_end,
        curr_x,
        curr_x + j,
        t,
    ) by {
        let dy = zr - t;
        lemma_row_bits_cells(seed, pat, x_end, curr_x, cu, nx, t, dy, j);
        assert(!row_bits_match(pat, dy, cu, nx, j as int));
        assert(!row_matches(seed, pat, x_end, curr_x, curr_x + j, t, dy));
    }
}

} // verus!

verus! {

/// `num_cpus::get`: the number of CPUs that the process may use. Its
/// documentation promises a result of at least 1; the number itself depends
/// on the machine and is left open.
#[verifier::external_body]
fn available_threads() -> (n: usize)
    ensures
        n >= 1,
{
    num_cpus::get()
}

/// The number of strips the search is cut into: one per available CPU,
/// at most `i32::MAX` so that strip indices fit the coordinate type.
fn strip_count() -> (n: usize)
    ensures
        1 <= n <= i32::MAX,
{
    let n = available_threads();
    if n > 0x7fff_ffffusize {
        0x7fff_ffffusize
    } else {
        n
    }
}

/// The forward ring search, cut into one strip of the x range per
/// available CPU.
pub fn find_matches_swar(pre: &Preprocessed) -> (result: (Vec<(i32, i32)>, u64))
    requires
        search_fits(pre),
    ensures
        is_match_list(pre, pre.limit as int, result.0@),
        result.1 == scanned_blocks(pre),
{
    let n = strip_count();
    search_strips(pre, n, false)
}

/// The upward search that skips rows matching no pattern row, cut into one
/// strip of the x range per available CPU.
pub fn find_matches_reverse_jump(pre: &Preprocessed) -> (result: (Vec<(i32, i32)>, u64))
    requires
        search_fits_upward(pre),
    ensures
        is_match_list(pre, pre.limit as int, result.0@),
        result.1 == scanned_blocks(pre),
{
    let n = strip_count();
    search_strips(pre, n, true)
}

/// The pattern search over the scan range: the forward ring search, or the
/// upward search when the experimental switch is on. The matches come in
/// lexicographic order without repeats, cut to `limit` when it is not 0,
/// with the number of chunks in the scan range.
pub fn find_matches_parallel(pre: &Preprocessed) -> (result: (Vec<(i32, i32)>, u64))
    requires
        search_fits(pre),
    ensures
        is_match_list(pre, pre.limit as int, result.0@),
        result.1 == scanned_blocks(pre),
{
    if EXPERIMENTAL_REVERSE_JUMP_MODE {
        find_matches_reverse_jump(pre)
    } else {
        find_matches_swar(pre)
    }
}

/// Two match lists of the same search that agree before position `j`
/// cannot have the first one smaller than the second at `j`: the smaller
/// element would be a match missing from the second list, below its end.
proof fn lemma_no_smaller_at(pre: &Preprocessed, limit: int, r1: Seq<(i32, i32)>, r2: Seq<(i32, i32)>, j: int)
    requires
        limit >= 0,
        is_match_list(pre, limit, r1),
        is_match_list(pre, limit, r2),
        0 <= j < r1.len(),
        j < r2.len(),
        forall|m: int| 0 <= m < j ==> #[trigger] r1[m] == r2[m],
    ensures
        !pair_lt(r1[j], r2[j]),
{
    let a = r1[j];
    if pair_lt(a, r2[j]) {
        assert(match_at(pre, a));
        assert(!r2.contains(a)) by {
            if r2.contains(a) {
                let m = choose|m: int| 0 <= m < r2.len() && r2[m] == a;
                if m < j {
                    assert(r1[m] == r2[m]);
                    assert(pair_lt(r1[m], r1[j]));
                } else if m > j {
                    assert(pair_lt(r2[j], r2[m]));
                }
            }
        }
        if limit > 0 {
            let last = r2.len() - 1;
            if j < last {
                assert(pair_lt(r2[j], r2[last]));
            }
            assert(pair_lt(r2.last(), a));
        }
    }
}

/// Two match lists of the same search agree on their first `k` elements.
proof fn lemma_lists_agree_upto(pre: &Preprocessed, limit: int, r1: Seq<(i32, i32)>, r2: Seq<(i32, i32)>, k: int)
    requires
        limit >= 0,
        is_match_list(pre, limit, r1),
        is_match_list(pre, limit, r2),
        0 <= k <= r1.len(),
        k <= r2.len(),
    ensures
        forall|m: int| 0 <= m < k ==> #[trigger] r1[m] == r2[m],
    decreases k,
{
    if k > 0 {
        lemma_lists_agree_upto(pre, limit, r1, r2, k - 1);
        lemma_no_smaller_at(pre, limit, r1, r2, k - 1);
        lemma_no_smaller_at(pre, limit, r2, r1, k - 1);
        assert forall|m: int| 0 <= m < k implies #[trigger] r1[m] == r2[m] by {
            if m == k - 1 {
                assert(!pair_lt(r1[m], r2[m]) && !pair_lt(r2[m], r1[m]));
            }
        }
    }
}

/// A match list is no proper prefix of another one of the same search: the
/// next element of the longer list would be a match missing from the
/// shorter one.
proof fn lemma_no_proper_prefix(pre: &Preprocessed, limit: int, r1: Seq<(i32, i32)>, r2: Seq<(i32, i32)>)
    requires
        limit >= 0,
        is_match_list(pre, limit, r1),
        is_match_list(pre, limit, r2),
        forall|m: int| 0 <= m < r1.len() && m < r2.len() ==> #[trigger] r1[m] == r2[m],
    ensures
        r1.len() >= r2.len(),
{
    if r1.len() < r2.len() {
        let e = r2[r1.len() as int];
        assert(match_at(pre, e));
        assert(!r1.contains(e)) by {
            if r1.contains(e) {
                let m = choose|m: int| 0 <= m < r1.len() && r1[m] == e;
                assert(r2[m] == e);
                assert(pair_lt(r2[m], r2[r1.len() as int]));
            }
        }
    }
}

/// A match list is determined by the search: two lists that both list the
/// matches of the same search, under the same limit, are equal. So the
/// forward search and the upward search that skips rows return the same
/// matches, whatever the number of strips each was cut into.
pub proof fn lemma_match_list_unique(pre: &Preprocessed, limit: int, r1: Seq<(i32, i32)>, r2: Seq<(i32, i32)>)
    requires
        limit >= 0,
        is_match_list(pre, limit, r1),
        is_match_list(pre, limit, r2),
    ensures
        r1 == r2,
{
    if r1.len() <= r2.len() {
        lemma_lists_agree_upto(pre, limit, r1, r2, r1.len() as int);
        lemma_no_proper_prefix(pre, limit, r1, r2);
    } else {
        lemma_lists_agree_upto(pre, limit, r1, r2, r2.len() as int);
        assert forall|m: int| 0 <= m < r2.len() implies #[trigger] r2[m] == r1[m] by {
            assert(r1[m] == r2[m]);
        }
        lemma_no_proper_prefix(pre, limit, r2, r1);
    }
    assert(r1 =~= r2);
}

/// The limit keeps the first matches: a list cut to `limit` is the first
/// `limit` matches of the unlimited list, or all of them where there are
/// fewer.
pub proof fn lemma_limit_keeps_first(pre: &Preprocessed, limit: int, r: Seq<(i32, i32)>, all: Seq<(i32, i32)>)
    requires
        limit > 0,
        is_match_list(pre, limit, r),
        is_match_list(pre, 0, all),
    ensures
        r == all.take(if limit < all.len() { limit } else { all.len() as int }),
{
    let m: int = if limit < all.len() { limit } else { all.len() as int };
    let p = all.take(m);
    assert forall|k: int, l: int| 0 <= k < l < p.len() implies pair_lt(#[trigger] p[k], #[trigger] p[l]) by {
        assert(p[k] == all[k] && p[l] == all[l]);
    }
    assert forall|k: int| 0 <= k < p.len() implies match_at(pre, #[trigger] p[k]) by {
        assert(p[k] == all[k]);
    }
    assert forall|e: (i32, i32)| match_at(pre, e) && !#[trigger] p.contains(e) implies p.len() == limit && pair_lt(
        p.last(),
        e,
    ) by {
        assert(all.contains(e));
        let k = choose|k: int| 0 <= k < all.len() && all[k] == e;
        if k < m {
            assert(p[k] == e);
        }
        assert(m == limit);
        assert(p.last() == all[m - 1]);
        if m - 1 < k {
            assert(pair_lt(all[m - 1], all[k]));
        }
    }
    assert(is_match_list(pre, limit, p));
    lemma_match_list_unique(pre, limit, r, p);
}

} // verus!
