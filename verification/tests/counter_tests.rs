use slimetools::config::CountShape;
use slimetools::counter::{count_slime_chunks, count_slime_chunks_chunk, count_slime_chunks_chunk_with_progress, CountResult};
use slimetools::preprocess::PreprocessedData;
use std::sync::atomic::{AtomicUsize, Ordering};

fn diagonal_grid() -> Vec<u8> {
    vec![
        1, 0, 0, 0, 0, //
        0, 1, 0, 0, 0, //
        0, 0, 1, 0, 0, //
        0, 0, 0, 0, 0, //
        0, 0, 0, 0, 1, //
    ]
}

fn key(r: &CountResult) -> (i32, i32, i32, i32, usize, i64) {
    (r.block_x, r.block_z, r.world_x, r.world_z, r.slime_count, r.distance_sq)
}

#[test]
fn count_best_two_in_square() {
    let prep = PreprocessedData::new(0, 0, 2).unwrap();
    let grid = diagonal_grid();
    let r = count_slime_chunks(&prep, &grid, CountShape::Square, 3, 2);
    let keys: Vec<_> = r.iter().map(key).collect();
    assert_eq!(keys, vec![(-1, -1, -16, -16, 3, 2), (0, 0, 0, 0, 2, 0)]);
}

#[test]
fn count_full_list_is_ordered() {
    let prep = PreprocessedData::new(0, 0, 2).unwrap();
    let grid = diagonal_grid();
    let r = count_slime_chunks(&prep, &grid, CountShape::Square, 3, 1000);
    assert!(!r.is_empty());
    for w in r.windows(2) {
        let (a, b) = (&w[0], &w[1]);
        assert!(a.slime_count > b.slime_count || (a.slime_count == b.slime_count && a.distance_sq <= b.distance_sq));
    }
    for c in &r {
        assert!(c.slime_count > 0);
        assert_eq!(c.world_x, c.block_x * 16);
        assert_eq!(c.distance_sq, (c.block_x as i64).pow(2) + (c.block_z as i64).pow(2));
    }
    // every chunk with a slime chunk in its window is listed: 25 chunks less
    // those whose 3x3 window misses the diagonal
    let mut expected = 0;
    for bz in -2..=2i32 {
        for bx in -2..=2i32 {
            let mut c = 0;
            for dz in -1..=1i32 {
                for dx in -1..=1i32 {
                    let (x, z) = (bx + dx, bz + dz);
                    if (-2..=2).contains(&x) && (-2..=2).contains(&z) && grid[((z + 2) * 5 + x + 2) as usize] == 1 {
                        c += 1;
                    }
                }
            }
            if c > 0 {
                expected += 1;
                assert!(r.iter().any(|e| e.block_x == bx && e.block_z == bz && e.slime_count == c));
            }
        }
    }
    assert_eq!(r.len(), expected);
}

#[test]
fn count_circle_leaves_out_corners() {
    let prep = PreprocessedData::new(0, 0, 2).unwrap();
    let mut grid = vec![0u8; 25];
    grid[12] = 1;
    let square = count_slime_chunks(&prep, &grid, CountShape::Square, 2, 100);
    let circle = count_slime_chunks(&prep, &grid, CountShape::Circle, 2, 100);
    let wide_circle = count_slime_chunks(&prep, &grid, CountShape::Circle, 3, 100);
    assert_eq!(square.len(), 9);
    assert_eq!(circle.len(), 5);
    assert_eq!(wide_circle.len(), 9);
    assert_eq!(key(&circle[0]), (0, 0, 0, 0, 1, 0));
}

#[test]
fn count_with_target_zero_or_negative_size_is_empty() {
    let prep = PreprocessedData::new(0, 0, 2).unwrap();
    let grid = diagonal_grid();
    assert!(count_slime_chunks(&prep, &grid, CountShape::Square, 3, 0).is_empty());
    assert!(count_slime_chunks(&prep, &grid, CountShape::Square, -3, 10).is_empty());
}

#[test]
fn count_size_one_counts_the_chunk_itself() {
    let prep = PreprocessedData::new(0, 0, 2).unwrap();
    let grid = diagonal_grid();
    let r = count_slime_chunks(&prep, &grid, CountShape::Square, 1, 10);
    let keys: Vec<_> = r.iter().map(|c| (c.block_x, c.block_z, c.slime_count)).collect();
    assert_eq!(keys, vec![(0, 0, 1), (-1, -1, 1), (-2, -2, 1), (2, 2, 1)]);
}

#[test]
fn count_chunk_uses_rows_whose_windows_fit() {
    let prep = PreprocessedData::new(0, 0, 2).unwrap();
    let grid = diagonal_grid();
    let r = count_slime_chunks_chunk(&prep, &grid, 0, 5, CountShape::Square, 3, 100);
    assert!(r.iter().all(|c| -1 <= c.block_z && c.block_z <= 1));
    let keys: Vec<_> = r.iter().take(2).map(key).collect();
    assert_eq!(keys, vec![(-1, -1, -16, -16, 3, 2), (0, 0, 0, 0, 2, 0)]);
    let band = &grid[5..20];
    let r2 = count_slime_chunks_chunk(&prep, band, 1, 4, CountShape::Square, 3, 100);
    assert!(r2.iter().all(|c| c.block_z == 0));
    let counter = AtomicUsize::new(0);
    let r3 = count_slime_chunks_chunk_with_progress(&prep, &grid, 0, 5, CountShape::Square, 3, 100, &counter);
    assert_eq!(r3.len(), r.len());
    assert_eq!(counter.load(Ordering::Relaxed), 15);
}

#[test]
fn band_counts_equal_map_counts() {
    let prep = PreprocessedData::new(0, 0, 6).unwrap();
    let grid = slimetools::grid::generate_grid(99, &prep);
    let full = count_slime_chunks(&prep, &grid, CountShape::Circle, 5, 1000);
    let band = slimetools::grid::generate_grid_chunk(99, &prep, 3, 10);
    let part = count_slime_chunks_chunk(&prep, &band, 3, 10, CountShape::Circle, 5, 1000);
    // the band's centre rows are those whose windows lie within rows 3..10
    let lo = prep.min_block_z + 3 + 2;
    let hi = prep.min_block_z + 10 - 1 - 2;
    let expected: Vec<_> = full.iter().filter(|c| lo <= c.block_z && c.block_z <= hi).map(key).collect();
    let got: Vec<_> = part.iter().map(key).collect();
    assert_eq!(got, expected);
}

#[test]
fn counting_twice_gives_the_same_list() {
    let prep = PreprocessedData::new(3, 3, 5).unwrap();
    let grid = slimetools::grid::generate_grid(5, &prep);
    let a: Vec<_> = count_slime_chunks(&prep, &grid, CountShape::Square, 3, 7).iter().map(key).collect();
    let b: Vec<_> = count_slime_chunks(&prep, &grid, CountShape::Square, 3, 7).iter().map(key).collect();
    assert_eq!(a, b);
    assert_eq!(a.len(), 7);
}

fn result(slime_count: usize, distance_sq: i64) -> CountResult {
    CountResult { block_x: 0, block_z: 0, world_x: 0, world_z: 0, slime_count, distance_sq }
}

#[test]
fn results_compare_by_count_then_nearness() {
    assert!(result(3, 10) == result(3, 10));
    assert!(result(3, 10) != result(3, 11));
    assert_eq!(result(2, 0).cmp(&result(3, 100)), std::cmp::Ordering::Less);
    assert_eq!(result(3, 5).cmp(&result(3, 100)), std::cmp::Ordering::Greater);
    assert_eq!(result(3, 5).partial_cmp(&result(3, 5)), Some(std::cmp::Ordering::Equal));
    assert!(result(4, 100) > result(3, 0));
    assert!(result(3, 1) > result(3, 2));
}

#[test]
fn count_with_the_smallest_size_is_empty() {
    let prep = PreprocessedData::new(0, 0, 2).unwrap();
    let r = count_slime_chunks(&prep, &diagonal_grid(), CountShape::Square, i32::MIN, 5);
    assert!(r.is_empty());
}

#[test]
fn progress_keeps_the_list_on_a_thin_band() {
    let prep = PreprocessedData::new(0, 0, 2).unwrap();
    let grid = diagonal_grid();
    // one row is too thin for windows of size 5: no centre rows
    let band = &grid[10..15];
    let counter = AtomicUsize::new(0);
    let with = count_slime_chunks_chunk_with_progress(&prep, band, 2, 3, CountShape::Square, 5, 10, &counter);
    let without = count_slime_chunks_chunk(&prep, band, 2, 3, CountShape::Square, 5, 10);
    assert!(with.is_empty());
    assert!(without.is_empty());
}
