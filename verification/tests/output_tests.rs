use slimetools::info::generate_info;
use slimetools::matcher_output::format_results;
use slimetools::preprocess::{Preprocessed, RawConfig};

#[test]
fn format_results_empty() {
    assert_eq!(format_results(&[], 0, 0), "[Result]\n未找到匹配的图案\n");
}

#[test]
fn format_results_sorts_and_aligns() {
    let s = format_results(&[(3, -1), (0, 1)], 0, 0);
    let expected = String::new()
        + "[Result]\n"
        + "找到 2 个匹配（按距离中心排序）：\n\n"
        + "[序/总数]  (区块X, 区块Z)  =>  x:[世界X, 世界X+) z:[世界Z, 世界Z+)  距离: 距离 区块\n"
        + &"-".repeat(57)
        + "\n"
        + "[1/2]  ( 0,  1)  =>  x:[  0,  16) z:[ 16,  32)  距离: 1 区块\n"
        + "[2/2]  ( 3, -1)  =>  x:[ 48,  64) z:[-16,   0)  距离: 4 区块\n"
        + "\n";
    assert_eq!(s, expected);
}

#[test]
fn format_results_keeps_order_of_equal_distances() {
    let s = format_results(&[(1, 0), (0, -1), (-1, 0)], 0, 0);
    let lines: Vec<&str> = s.lines().collect();
    assert!(lines[5].contains("( 1,  0)"));
    assert!(lines[6].contains("( 0, -1)"));
    assert!(lines[7].contains("(-1,  0)"));
}

#[test]
fn format_results_widens_columns() {
    let s = format_results(&[(12345, 0)], 12345, 0);
    assert!(s.contains("[1/1]  (12345,     0)  =>  x:[197520, 197536) z:[     0,     16)  距离: 0 区块\n"));
    assert!(s.contains("[序/总数]  (  区块X,   区块Z)  =>  x:[   世界X,   世界X+) z:[   世界Z,   世界Z+)  距离: 距离 区块\n"));
}

#[test]
fn info_describes_the_search() {
    let pre = Preprocessed::from_raw(&RawConfig {
        seed: 20260627,
        center_x: 0,
        center_z: 0,
        radius: 10,
        pattern: vec![vec![1, 1], vec![1, 0]],
        limit: 0,
        output_mode: "console".to_string(),
        output_path: None,
    })
    .unwrap();
    let expected = "[Info]\n世界种子: 20260627\n中心区块坐标: (0, 0)\n世界坐标: x:[0, 16) z:[0, 16)\n扫描半径: 10 chunks\n区块坐标范围: x:(-10, 10) z:(-10, 10)\n世界坐标范围: x:[-160, 192) z:[-160, 192)\n图案:\n行 1: 1 1\n行 2: 1 0\n";
    assert_eq!(generate_info(&pre), expected);
}
