use slimetools::matcher::{find_matches_parallel, find_matches_reverse_jump, find_matches_swar, generate_u64_chunk, search_strips};
use slimetools::preprocess::{Preprocessed, RawConfig};
use slimetools::slime_lib::is_slime_chunk;

fn prepared(radius: u32, pattern: Vec<Vec<u8>>, limit: usize) -> Preprocessed {
    Preprocessed::from_raw(&RawConfig {
        seed: 20260627,
        center_x: 0,
        center_z: 0,
        radius,
        pattern,
        limit,
        output_mode: "console".to_string(),
        output_path: None,
    })
    .unwrap()
}

fn holds(seed: i64, pattern: &[Vec<u8>], x: i32, z: i32) -> bool {
    for (dy, row) in pattern.iter().enumerate() {
        for (dx, &v) in row.iter().enumerate() {
            let s = is_slime_chunk(seed, x + dx as i32, z + dy as i32);
            if (v == 1 && !s) || (v == 0 && s) {
                return false;
            }
        }
    }
    true
}

#[test]
fn single_cell_pattern_finds_every_slime_chunk() {
    let pre = prepared(20, vec![vec![1]], 0);
    let (found, blocks) = find_matches_parallel(&pre);
    assert_eq!(blocks, 41 * 41);
    let mut expected = Vec::new();
    for x in -20..=20 {
        for z in -20..=20 {
            if is_slime_chunk(20260627, x, z) {
                expected.push((x, z));
            }
        }
    }
    assert_eq!(found, expected);
}

#[test]
fn square_pattern_matches_inside_the_range() {
    let pattern = vec![vec![1, 2], vec![0, 1]];
    let pre = prepared(70, pattern.clone(), 0);
    let (found, _) = find_matches_swar(&pre);
    let mut expected = Vec::new();
    for x in -70..=70 {
        for z in -70..=69 {
            if holds(20260627, &pattern, x, z) {
                expected.push((x, z));
            }
        }
    }
    assert_eq!(found, expected);
    assert!(found.windows(2).all(|w| w[0] < w[1]));
}

#[test]
fn reverse_jump_finds_the_same_matches() {
    let pre = prepared(90, vec![vec![1, 1], vec![1, 1]], 0);
    for n in [1usize, 2, 3, 7] {
        assert_eq!(search_strips(&pre, n, true), search_strips(&pre, n, false));
    }
    let a = find_matches_reverse_jump(&pre);
    let b = find_matches_swar(&pre);
    assert_eq!(a, b);
}

#[test]
fn limit_keeps_the_first_matches() {
    let all = find_matches_swar(&prepared(30, vec![vec![1]], 0)).0;
    let some = find_matches_swar(&prepared(30, vec![vec![1]], 4)).0;
    assert!(all.len() > 4);
    assert_eq!(some, all[..4].to_vec());
}

#[test]
fn strips_do_not_change_the_matches_inside() {
    let pre = prepared(50, vec![vec![1, 0, 1]], 0);
    let one = search_strips(&pre, 1, false).0;
    let many = search_strips(&pre, 5, false).0;
    assert_eq!(one, many);
    for n in [2usize, 3, 64, 101] {
        assert_eq!(search_strips(&pre, n, false), search_strips(&pre, 1, false));
    }
}

#[test]
fn u64_chunk_packs_a_row() {
    let bits = generate_u64_chunk(20260627, -32, 5);
    for i in 0..64 {
        assert_eq!((bits >> i) & 1 == 1, is_slime_chunk(20260627, -32 + i, 5));
    }
}

fn tiny(x_end: i32, pattern: Vec<Vec<u8>>) -> Preprocessed {
    let mut pre = prepared(0, pattern, 0);
    pre.seed = 0;
    pre.x_start = 0;
    pre.x_end = x_end;
    pre.z_start = 0;
    pre.z_end = 0;
    pre
}

#[test]
fn matches_stay_inside_the_scan_range() {
    // a cell that may be anything matches at every corner of the range
    let pre = tiny(0, vec![vec![2]]);
    assert_eq!(search_strips(&pre, 1, false).0, vec![(0, 0)]);
    assert_eq!(find_matches_parallel(&pre).0, vec![(0, 0)]);
}

#[test]
fn windows_read_chunks_past_the_range_end() {
    // the second cell of a corner at x_end lies one column past x_end
    let pre = tiny(63, vec![vec![2, 1]]);
    let expected: Vec<(i32, i32)> = (0..=63).filter(|&x| is_slime_chunk(0, x + 1, 0)).map(|x| (x, 0)).collect();
    for n in [1usize, 2, 3] {
        assert_eq!(search_strips(&pre, n, false).0, expected);
        assert_eq!(search_strips(&pre, n, true).0, expected);
    }
}

#[test]
fn negative_radius_scans_nothing() {
    // radius u32::MAX is -1 as an i32: the x range is empty
    let pre = prepared(u32::MAX, vec![vec![1]], 0);
    assert!(pre.x_start > pre.x_end);
    assert_eq!(find_matches_parallel(&pre), (vec![], 1));
    assert_eq!(find_matches_swar(&pre), (vec![], 1));
    assert_eq!(find_matches_reverse_jump(&pre), (vec![], 1));
    let far = prepared(3221225472, vec![vec![1, 0]], 3);
    let n = (far.x_end as i64 - far.x_start as i64 + 1) * (far.z_end as i64 - far.z_start as i64 + 1);
    assert_eq!(find_matches_parallel(&far), (vec![], n as u64));
}
