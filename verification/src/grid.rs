//! The slime map of a counting run: one byte per chunk, 1 for a slime
//! chunk and 0 otherwise, row after row.
use vstd::prelude::*;
use std::sync::atomic::AtomicUsize;
use rayon::iter::{IndexedParallelIterator, ParallelIterator};
use rayon::slice::ParallelSliceMut;
use crate::preprocess::PreprocessedData;
use crate::slime_chunk::{slime_fast, is_slime_chunk_fast, lemma_fast_agrees_with_slime_lib};
use crate::slime_lib::slime_at;

verus! {

/// The map byte of a slime flag.
pub open spec fn slime_byte(b: bool) -> u8 {
    if b {
        1u8
    } else {
        0u8
    }
}

/// The map byte of the chunk in row `z_idx` and column `x_idx` of the grid.
pub open spec fn grid_cell(prep: PreprocessedData, seed: i64, z_idx: int, x_idx: int) -> u8 {
    slime_byte(slime_fast(prep.fx_arr@[x_idx], prep.fz_arr@[z_idx], seed))
}

/// Rows `z_start .. z_end` of the map, row after row.
pub open spec fn grid_band(prep: PreprocessedData, seed: i64, z_start: int, z_end: int) -> Seq<u8> {
    Seq::new(
        ((z_end - z_start) * prep.x_count) as nat,
        |i: int| grid_cell(prep, seed, z_start + i / (prep.x_count as int), i % (prep.x_count as int)),
    )
}

/// The world seed as the map uses it: the low 64 bits.
pub open spec fn map_seed(world_seed: i128) -> i64 {
    world_seed as i64
}

/// One row of the map.
fn grid_row(prep: &PreprocessedData, seed: i64, z_idx: usize) -> (row: Vec<u8>)
    requires
        prep.wf(),
        z_idx < prep.z_count,
    ensures
        row@ == Seq::new(prep.x_count as nat, |x: int| grid_cell(*prep, seed, z_idx as int, x)),
{
    let fz = prep.fz_arr[z_idx];
    let mut row: Vec<u8> = Vec::new();
    let mut x_idx: usize = 0;
    while x_idx < prep.x_count
        invariant
            prep.wf(),
            z_idx < prep.z_count,
            fz == prep.fz_arr@[z_idx as int],
            x_idx <= prep.x_count,
            row@ == Seq::new(x_idx as nat, |x: int| grid_cell(*prep, seed, z_idx as int, x)),
        decreases prep.x_count - x_idx,
    {
        let fx = prep.fx_arr[x_idx];
        let v: u8 = if is_slime_chunk_fast(fx, fz, seed) {
            1
        } else {
            0
        };
        row.push(v);
        x_idx = x_idx + 1;
        proof {
            assert(row@ =~= Seq::new(x_idx as nat, |x: int| grid_cell(*prep, seed, z_idx as int, x)));
        }
    }
    row
}

/// Appending row `z_end` to rows `z_start .. z_end` gives rows
/// `z_start .. z_end + 1`.
proof fn lemma_band_push(prep: PreprocessedData, seed: i64, z_start: int, z_end: int)
    requires
        prep.x_count >= 1,
        z_start <= z_end,
    ensures
        grid_band(prep, seed, z_start, z_end) + Seq::new(prep.x_count as nat, |x: int| grid_cell(prep, seed, z_end, x))
            =~= grid_band(prep, seed, z_start, z_end + 1),
{
    let w = prep.x_count as int;
    let n = z_end - z_start;
    assert(n * w + w == (n + 1) * w) by (nonlinear_arith);
    assert(0 <= n * w) by (nonlinear_arith)
        requires
            0 <= n,
            1 <= w,
    ;
    let lhs = grid_band(prep, seed, z_start, z_end) + Seq::new(prep.x_count as nat, |x: int| grid_cell(prep, seed, z_end, x));
    let rhs = grid_band(prep, seed, z_start, z_end + 1);
    assert forall|i: int| 0 <= i < lhs.len() implies lhs[i] == rhs[i] by {
        if i < n * w {
            vstd::arithmetic::div_mod::lemma_fundamental_div_mod(i, w);
        } else {
            vstd::arithmetic::div_mod::lemma_fundamental_div_mod_converse(i, w, n, i - n * w);
        }
    }
}

/// The whole map has one byte per chunk.
proof fn lemma_full_band_len(prep: PreprocessedData, seed: i64)
    requires
        prep.wf(),
    ensures
        grid_band(prep, seed, 0, prep.z_count as int).len() == prep.total_blocks,
{
    assert((prep.z_count as int - 0) * prep.x_count == prep.x_count * prep.z_count) by (nonlinear_arith);
}

/// Rows `z_start .. z_end` of the map, and, with a counter, one step of it
/// per row written.
fn grid_rows(prep: &PreprocessedData, seed: i64, z_start: usize, z_end: usize, progress_counter: Option<&AtomicUsize>) -> (grid: Vec<u8>)
    requires
        prep.wf(),
        z_start <= z_end <= prep.z_count,
    ensures
        grid@ == grid_band(*prep, seed, z_start as int, z_end as int),
{
    let mut grid: Vec<u8> = Vec::new();
    let mut z_idx = z_start;
    proof {
        assert(grid@ =~= grid_band(*prep, seed, z_start as int, z_start as int));
    }
    while z_idx < z_end
        invariant
            prep.wf(),
            z_start <= z_idx <= z_end <= prep.z_count,
            grid@ == grid_band(*prep, seed, z_start as int, z_idx as int),
        decreases z_end - z_idx,
    {
        let row = grid_row(prep, seed, z_idx);
        let mut row = row;
        proof {
            lemma_band_push(*prep, seed, z_start as int, z_idx as int);
        }
        grid.append(&mut row);
        count_row(progress_counter);
        z_idx = z_idx + 1;
    }
    grid
}

/// Adds one to the progress counter, when there is one.
fn count_row(progress_counter: Option<&AtomicUsize>) {
    match progress_counter {
        Some(c) => {
            c.fetch_add(1, std::sync::atomic::Ordering::Relaxed);
        },
        None => {},
    }
}

/// Maps of fewer chunks (or bands of fewer rows) than this are filled on
/// one thread.
pub const PARALLEL_THRESHOLD: usize = 10000;

/// Fills `row` with row `z_start + i` of the map, then counts the row.
fn fill_grid_row(
    prep: &PreprocessedData,
    seed: i64,
    z_start: usize,
    i: usize,
    row: &mut [u8],
    progress_counter: Option<&AtomicUsize>,
)
    requires
        prep.wf(),
        z_start + i < prep.z_count,
        old(row)@.len() == prep.x_count,
    ensures
        final(row)@ == Seq::new(prep.x_count as nat, |x: int| grid_cell(*prep, seed, z_start + i, x)),
{
    let z_idx = z_start + i;
    let fz = prep.fz_arr[z_idx];
    let mut x_idx: usize = 0;
    while x_idx < prep.x_count
        invariant
            prep.wf(),
            z_idx < prep.z_count,
            z_idx == z_start + i,
            fz == prep.fz_arr@[z_idx as int],
            x_idx <= prep.x_count,
            row@.len() == prep.x_count,
            forall|k: int| 0 <= k < x_idx ==> #[trigger] row@[k] == grid_cell(*prep, seed, z_idx as int, k),
        decreases prep.x_count - x_idx,
    {
        let fx = prep.fx_arr[x_idx];
        let v: u8 = if is_slime_chunk_fast(fx, fz, seed) {
            1
        } else {
            0
        };
        row[x_idx] = v;
        x_idx = x_idx + 1;
    }
    proof {
        assert(row@ =~= Seq::new(prep.x_count as nat, |x: int| grid_cell(*prep, seed, z_start + i, x)));
    }
    count_row(progress_counter);
}

/// `rayon`'s `par_chunks_mut(x_count).enumerate().for_each(..)` over a
/// buffer of `rows` rows: rayon hands each row, with its index, to
/// [`fill_grid_row`] once, on some thread. The contract claims that after
/// the call every row `i` holds what `fill_grid_row` writes for it, which
/// is what rayon documents of non-overlapping chunks of `x_count` elements
/// and of `enumerate`. `par_chunks_mut` panics on a chunk size of 0; a
/// well-formed map has at least one column.
#[verifier::external_body]
fn fill_rows_in_parallel(
    grid: &mut Vec<u8>,
    prep: &PreprocessedData,
    seed: i64,
    z_start: usize,
    rows: usize,
    progress_counter: Option<&AtomicUsize>,
)
    requires
        prep.wf(),
        old(grid)@.len() == rows * prep.x_count,
        z_start + rows <= prep.z_count,
    ensures
        final(grid)@ == grid_band(*prep, seed, z_start as int, (z_start + rows) as int),
{
    grid.par_chunks_mut(prep.x_count).enumerate().for_each(
        |(i, row)| fill_grid_row(prep, seed, z_start, i, row, progress_counter),
    );
}

/// `n` zero bytes.
fn zeroed(n: usize) -> (v: Vec<u8>)
    ensures
        v@.len() == n,
{
    let mut v: Vec<u8> = Vec::new();
    let mut k: usize = 0;
    while k < n
        invariant
            k <= n,
            v@.len() == k,
        decreases n - k,
    {
        v.push(0u8);
        k = k + 1;
    }
    v
}

/// Rows `z_start .. z_end` of the map, filled on several threads.
fn grid_rows_parallel(
    prep: &PreprocessedData,
    seed: i64,
    z_start: usize,
    z_end: usize,
    progress_counter: Option<&AtomicUsize>,
) -> (grid: Vec<u8>)
    requires
        prep.wf(),
        z_start <= z_end <= prep.z_count,
    ensures
        grid@ == grid_band(*prep, seed, z_start as int, z_end as int),
{
    let rows = z_end - z_start;
    proof {
        assert(rows * prep.x_count <= prep.z_count * prep.x_count) by (nonlinear_arith)
            requires
                rows <= prep.z_count,
        ;
        assert(prep.z_count * prep.x_count == prep.total_blocks) by (nonlinear_arith)
            requires
                prep.total_blocks == prep.x_count * prep.z_count,
        ;
    }
    let mut grid = zeroed(rows * prep.x_count);
    fill_rows_in_parallel(&mut grid, prep, seed, z_start, rows, progress_counter);
    grid
}

/// The whole map: byte `z * x_count + x` is 1 exactly when the chunk in
/// row `z` and column `x` of the grid is a slime chunk.
pub fn generate_grid(world_seed: i128, prep: &PreprocessedData) -> (grid: Vec<u8>)
    requires
        prep.wf(),
    ensures
        grid@ == grid_band(*prep, map_seed(world_seed), 0, prep.z_count as int),
        grid@.len() == prep.total_blocks,
{
    let seed = #[verifier::truncate] (world_seed as i64);
    proof {
        lemma_full_band_len(*prep, seed);
    }
    if prep.total_blocks < PARALLEL_THRESHOLD {
        grid_rows(prep, seed, 0, prep.z_count, None)
    } else {
        grid_rows_parallel(prep, seed, 0, prep.z_count, None)
    }
}

/// The whole map, adding one to `progress_counter` per row.
pub fn generate_grid_with_progress(world_seed: i128, prep: &PreprocessedData, progress_counter: &AtomicUsize) -> (grid: Vec<u8>)
    requires
        prep.wf(),
    ensures
        grid@ == grid_band(*prep, map_seed(world_seed), 0, prep.z_count as int),
        grid@.len() == prep.total_blocks,
{
    let seed = #[verifier::truncate] (world_seed as i64);
    proof {
        lemma_full_band_len(*prep, seed);
    }
    if prep.total_blocks < PARALLEL_THRESHOLD {
        grid_rows(prep, seed, 0, prep.z_count, Some(progress_counter))
    } else {
        grid_rows_parallel(prep, seed, 0, prep.z_count, Some(progress_counter))
    }
}

/// Rows `z_start .. z_end` of the map.
pub fn generate_grid_chunk(world_seed: i128, prep: &PreprocessedData, z_start: usize, z_end: usize) -> (chunk: Vec<u8>)
    requires
        prep.wf(),
        z_start <= z_end <= prep.z_count,
    ensures
        chunk@ == grid_band(*prep, map_seed(world_seed), z_start as int, z_end as int),
{
    let seed = #[verifier::truncate] (world_seed as i64);
    grid_rows(prep, seed, z_start, z_end, None)
}

/// Rows `z_start .. z_end` of the map, adding one to `progress_counter` per
/// row.
pub fn generate_grid_chunk_with_progress(
    world_seed: i128,
    prep: &PreprocessedData,
    z_start: usize,
    z_end: usize,
    progress_counter: &AtomicUsize,
) -> (chunk: Vec<u8>)
    requires
        prep.wf(),
        z_start <= z_end <= prep.z_count,
    ensures
        chunk@ == grid_band(*prep, map_seed(world_seed), z_start as int, z_end as int),
{
    let seed = #[verifier::truncate] (world_seed as i64);
    if z_end - z_start < PARALLEL_THRESHOLD {
        grid_rows(prep, seed, z_start, z_end, Some(progress_counter))
    } else {
        grid_rows_parallel(prep, seed, z_start, z_end, Some(progress_counter))
    }
}

/// The map marks exactly the slime chunks of the reference rule: on rows
/// with `|z| <= 46340`, where the row term of the fast check computes the
/// same chunk seed, the byte of chunk `(min_block_x + x, min_block_z + z)`
/// is 1 exactly when it is a slime chunk.
pub proof fn lemma_map_marks_slime_chunks(prep: PreprocessedData, world_seed: i128, z_idx: int, x_idx: int)
    requires
        prep.wf(),
        0 <= z_idx < prep.z_count,
        0 <= x_idx < prep.x_count,
        -46340 <= prep.min_block_z + z_idx <= 46340,
    ensures
        grid_cell(prep, map_seed(world_seed), z_idx, x_idx) == slime_byte(
            slime_at(map_seed(world_seed), (prep.min_block_x + x_idx) as i32, (prep.min_block_z + z_idx) as i32),
        ),
{
    lemma_fast_agrees_with_slime_lib(
        map_seed(world_seed),
        (prep.min_block_x + x_idx) as i32,
        (prep.min_block_z + z_idx) as i32,
    );
}

/// Rows `z_start .. z_end` of the map are a band of the whole map: byte
/// `k` of the band is byte `z_start * x_count + k` of the map.
pub proof fn lemma_band_of_map(prep: PreprocessedData, seed: i64, z_start: int, z_end: int, k: int)
    requires
        prep.wf(),
        0 <= z_start <= z_end <= prep.z_count,
        0 <= k < (z_end - z_start) * prep.x_count,
    ensures
        grid_band(prep, seed, z_start, z_end)[k] == grid_band(prep, seed, 0, prep.z_count as int)[z_start * prep.x_count + k],
{
    let w = prep.x_count as int;
    vstd::arithmetic::div_mod::lemma_fundamental_div_mod(k, w);
    let q = k / w;
    let r = k % w;
    assert(z_start * w + k == (z_start + q) * w + r) by (nonlinear_arith)
        requires
            k == w * q + r,
    ;
    vstd::arithmetic::div_mod::lemma_fundamental_div_mod_converse(z_start * w + k, w, z_start + q, r);
    assert(q < z_end - z_start) by (nonlinear_arith)
        requires
            k == w * q + r,
            0 <= r,
            k < (z_end - z_start) * w,
            w > 0,
    ;
    assert(z_start * w + k < prep.z_count * w) by (nonlinear_arith)
        requires
            k < (z_end - z_start) * w,
            z_end <= prep.z_count,
            w > 0,
    ;
    assert((prep.z_count as int - 0) * w == prep.z_count * w);
}

} // verus!
