use slimetools::grid::{generate_grid, generate_grid_chunk, generate_grid_chunk_with_progress, generate_grid_with_progress};
use slimetools::preprocess::PreprocessedData;
use slimetools::slime_lib::is_slime_chunk;
use std::sync::atomic::{AtomicUsize, Ordering};

#[test]
fn test_generate_grid_size() {
    let prep = PreprocessedData::new(0, 0, 2).unwrap();
    let grid = generate_grid(20260627, &prep);
    assert_eq!(grid.len(), prep.total_blocks);
}

#[test]
fn test_generate_grid_values() {
    let prep = PreprocessedData::new(0, 0, 5).unwrap();
    let grid = generate_grid(20260627, &prep);
    for &val in &grid {
        assert!(val == 0 || val == 1);
    }
}

#[test]
fn test_generate_grid_consistency() {
    let prep = PreprocessedData::new(0, 0, 10).unwrap();
    let grid1 = generate_grid(20260627, &prep);
    let grid2 = generate_grid(20260627, &prep);
    assert_eq!(grid1, grid2);
}

#[test]
fn grid_marks_the_slime_chunks_of_the_reference_rule() {
    let prep = PreprocessedData::new(100, -40, 12).unwrap();
    let grid = generate_grid(20260627, &prep);
    for z_idx in 0..prep.z_count {
        for x_idx in 0..prep.x_count {
            let x = prep.min_block_x + x_idx as i32;
            let z = prep.min_block_z + z_idx as i32;
            let expected = if is_slime_chunk(20260627, x, z) { 1u8 } else { 0u8 };
            assert_eq!(grid[z_idx * prep.x_count + x_idx], expected, "x={}, z={}", x, z);
        }
    }
}

#[test]
fn grid_uses_the_low_64_bits_of_the_seed() {
    let prep = PreprocessedData::new(0, 0, 4).unwrap();
    let wide: i128 = (1i128 << 64) + 20260627;
    assert_eq!(generate_grid(wide, &prep), generate_grid(20260627, &prep));
}

#[test]
fn grid_chunk_is_a_band_of_the_grid() {
    let prep = PreprocessedData::new(3, 7, 6).unwrap();
    let grid = generate_grid(42, &prep);
    let chunk = generate_grid_chunk(42, &prep, 4, 9);
    assert_eq!(chunk.len(), 5 * prep.x_count);
    assert_eq!(&chunk[..], &grid[4 * prep.x_count..9 * prep.x_count]);
}

#[test]
fn grid_progress_counts_rows() {
    let prep = PreprocessedData::new(0, 0, 3).unwrap();
    let counter = AtomicUsize::new(0);
    let grid = generate_grid_with_progress(7, &prep, &counter);
    assert_eq!(grid, generate_grid(7, &prep));
    assert_eq!(counter.load(Ordering::Relaxed), prep.z_count);
    let counter2 = AtomicUsize::new(0);
    let chunk = generate_grid_chunk_with_progress(7, &prep, 2, 5, &counter2);
    assert_eq!(chunk, generate_grid_chunk(7, &prep, 2, 5));
    assert_eq!(counter2.load(Ordering::Relaxed), 3);
}

#[test]
fn preprocessed_data_ranges() {
    let prep = PreprocessedData::new(5, -3, 2).unwrap();
    assert_eq!((prep.min_block_x, prep.max_block_x), (3, 7));
    assert_eq!((prep.min_block_z, prep.max_block_z), (-5, -1));
    assert_eq!((prep.x_count, prep.z_count, prep.total_blocks), (5, 5, 25));
    assert!(PreprocessedData::new(0, 0, -1).is_none());
    assert!(PreprocessedData::new(i32::MAX, 0, 1).is_none());
    assert!(PreprocessedData::new(0, i32::MIN, 1).is_none());
}

#[test]
fn large_grid_filled_in_parallel_is_the_same_map() {
    let prep = PreprocessedData::new(-7, 11, 50).unwrap();
    assert!(prep.total_blocks >= 10000);
    let counter = AtomicUsize::new(0);
    let grid = generate_grid_with_progress(20260627, &prep, &counter);
    assert_eq!(counter.load(Ordering::Relaxed), prep.z_count);
    assert_eq!(grid, generate_grid(20260627, &prep));
    for z_idx in (0..prep.z_count).step_by(7) {
        for x_idx in (0..prep.x_count).step_by(5) {
            let x = prep.min_block_x + x_idx as i32;
            let z = prep.min_block_z + z_idx as i32;
            let expected = if is_slime_chunk(20260627, x, z) { 1u8 } else { 0u8 };
            assert_eq!(grid[z_idx * prep.x_count + x_idx], expected);
        }
    }
    let sequential = generate_grid_chunk(20260627, &prep, 0, prep.z_count);
    assert_eq!(grid, sequential);
}
