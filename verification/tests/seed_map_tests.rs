use slimetools::seed_map::{build_seed_header, num_width, seed_file_text, FastRandom, SeedMapLayout};
use slimetools::slime_lib::is_slime_chunk;

#[test]
fn seed_map_small_square() {
    let l = SeedMapLayout::new(0, 0, 1).unwrap();
    assert_eq!((l.max_width, l.cell_width, l.z_col_width), (2, 3, 3));
    let header = "Seed: 20260627\nX range: [-1, 1]  Z range: [-1, 1]\nDimensions: 3 × 3\nRule: nextInt(10) == 0\n   -1 0  1  \n   ---------\n";
    assert_eq!(build_seed_header(&l, 20260627), header);
    let text = seed_file_text(&l, 20260627);
    let mut expected = String::from(header);
    for z in -1..=1 {
        expected.push_str(&format!("{:<2}|", z));
        for x in -1..=1 {
            expected.push_str(if is_slime_chunk(20260627, x, z) { "1  " } else { "0  " });
        }
        expected.push('\n');
    }
    assert_eq!(text, expected);
}

#[test]
fn seed_map_marks_slime_chunks_far_out() {
    // far from the origin the row products wrap; the map still follows the rule
    let l = SeedMapLayout::new(1_000_000, -999_999, 2).unwrap();
    let text = seed_file_text(&l, 12345);
    let rows: Vec<&str> = text.lines().skip(6).collect();
    assert_eq!(rows.len(), 5);
    for (zi, row) in rows.iter().enumerate() {
        let z = -999_999 - 2 + zi as i32;
        let cells = &row[l.z_col_width..];
        for xi in 0..5 {
            let x = 1_000_000 - 2 + xi as i32;
            let c = cells.as_bytes()[xi * l.cell_width];
            assert_eq!(c == b'1', is_slime_chunk(12345, x, z), "x={}, z={}", x, z);
        }
    }
}

#[test]
fn seed_map_layout_limits() {
    assert!(SeedMapLayout::new(0, 0, -1).is_none());
    assert!(SeedMapLayout::new(i32::MIN + 1, 0, 1).is_none());
    assert!(SeedMapLayout::new(i32::MAX, 0, 0).is_some());
}

#[test]
fn number_widths() {
    assert_eq!(num_width(0), 1);
    assert_eq!(num_width(9), 1);
    assert_eq!(num_width(10), 2);
    assert_eq!(num_width(-10), 3);
    assert_eq!(num_width(i32::MAX), 10);
    assert_eq!(num_width(i32::MIN + 1), 11);
}

#[test]
fn fast_random_matches_java_random() {
    // new Random(42).next(31) == 1170105035 (nextInt() is -1170105035; next(31) drops one bit)
    let mut r = FastRandom::zero();
    r.set_seed(42);
    let first = r.next31();
    assert_eq!(first, (-1170105035i32 as u32) >> 1);
    let mut r2 = FastRandom::zero();
    r2.set_seed(42);
    assert_eq!(r2.next_int_mod(10) as u32, first % 10);
}
