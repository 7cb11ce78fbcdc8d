use slimetools::slime_chunk::{are_slime_biased, scan_cell};
use slimetools::slime_lib::is_slime_chunk;

#[test]
fn lane_check_covers_sixteen_rows() {
    let r = are_slime_biased(20260627, 100, 190);
    for i in 0..16 {
        let expected = if is_slime_chunk(20260627, 100, 190 + i as i32) { 1 } else { 0 };
        assert_eq!(r[i], expected);
    }
    assert!(r[16..].iter().all(|&b| b == 0));
}

#[test]
fn scan_cell_sums_within_lanes() {
    let mut v = [0u8; 64];
    for i in 0..64 {
        v[i] = (i % 16) as u8;
    }
    let mut carry = 5u8;
    let r = scan_cell(v, &mut carry);
    // byte i of a lane gets v[i] + v[i-2] + v[i-4] + ... as far as the
    // shifted sums by 8, 4 and 2 reach, plus the carry
    let mut expected = [0u8; 64];
    let mut s = v;
    for &k in &[8usize, 4, 2] {
        let mut t = s;
        for i in 0..64 {
            if i % 16 >= k {
                t[i] = s[i].wrapping_add(s[i - k]);
            }
        }
        s = t;
    }
    for i in 0..64 {
        expected[i] = s[i].wrapping_add(5);
    }
    assert_eq!(r, expected);
    assert_eq!(carry, r[15]);
    assert_eq!(r[0], 5);
    assert_eq!(r[2], 2 + 0 + 5);
}
