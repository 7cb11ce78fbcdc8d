//! Laws of the slime map's layout: which byte holds which chunk.
use vstd::prelude::*;
use crate::grid::{grid_band, grid_cell, map_seed, slime_byte};
use crate::preprocess::PreprocessedData;
use crate::slime_chunk::lemma_fast_agrees_with_slime_lib;
use crate::slime_lib::slime_at;

verus! {

/// The map holds its rows one after another: byte `z * x_count + x` of the
/// whole map is the byte of the chunk in row `z` and column `x`, and, for
/// rows with `|min_block_z + z| <= 46340`, it is 1 exactly when chunk
/// `(min_block_x + x, min_block_z + z)` is a slime chunk.
pub proof fn lemma_map_byte_of_chunk(prep: PreprocessedData, world_seed: i128, z: int, x: int)
    requires
        prep.wf(),
        0 <= z < prep.z_count,
        0 <= x < prep.x_count,
    ensures
        0 <= z * prep.x_count + x < prep.total_blocks,
        grid_band(prep, map_seed(world_seed), 0, prep.z_count as int)[z * prep.x_count + x] == grid_cell(
            prep,
            map_seed(world_seed),
            z,
            x,
        ),
        -46340 <= prep.min_block_z + z <= 46340 ==> grid_band(prep, map_seed(world_seed), 0, prep.z_count as int)[z
            * prep.x_count + x] == slime_byte(
            slime_at(map_seed(world_seed), (prep.min_block_x + x) as i32, (prep.min_block_z + z) as i32),
        ),
{
    let xc = prep.x_count as int;
    let i = z * xc + x;
    assert(0 <= z * xc) by (nonlinear_arith)
        requires
            0 <= z,
            0 <= xc,
    ;
    assert((z + 1) * xc <= prep.z_count * xc) by (nonlinear_arith)
        requires
            z + 1 <= prep.z_count,
            0 <= xc,
    ;
    assert(z * xc + xc == (z + 1) * xc) by (nonlinear_arith);
    assert(prep.z_count * xc == prep.total_blocks) by (nonlinear_arith)
        requires
            prep.total_blocks == prep.x_count * prep.z_count,
            xc == prep.x_count,
    ;
    vstd::arithmetic::div_mod::lemma_fundamental_div_mod_converse(i, xc, z, x);
    if -46340 <= prep.min_block_z + z <= 46340 {
        lemma_fast_agrees_with_slime_lib(
            map_seed(world_seed),
            (prep.min_block_x + x) as i32,
            (prep.min_block_z + z) as i32,
        );
    }
}

} // verus!
