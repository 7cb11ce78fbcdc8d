use slimetools::config::CountShape;
use slimetools::counter::CountResult;
use slimetools::pattern::Pattern;
use slimetools::preprocess::{OutputMode, Preprocessed, PreprocessedData};
use slimetools::report::{build_grid_header, count_report, map_file_text, match_report};

#[test]
fn test_build_grid_header() {
    let prep = PreprocessedData::new(0, 0, 2).unwrap();
    let header = build_grid_header(20260627, 2, &prep);
    assert!(header.contains("种子"));
    assert!(header.contains("中心区块"));
    assert!(header.contains("扫描半径"));
}

const GRID_HEADER: &str = "# [Info]\n\
# 种子: 7\n\
# 中心区块: (1, -1)\n\
# 中心世界坐标: x:[16,32) z:[-16,0)\n\
# 扫描半径: 1\n\
# 扫描范围 - 区块: 左上角(0, -2) 右下角(2, 0)\n\
# 扫描范围 - 世界坐标: 左上角x:[0,16) z:[-32,-16) 右下角x:[32,48) z:[0,16)\n\
# 区块总数: 3×3=9\n";

#[test]
fn grid_header_lines() {
    let prep = PreprocessedData::new(1, -1, 1).unwrap();
    assert_eq!(build_grid_header(7, 1, &prep), GRID_HEADER);
}

#[test]
fn map_file_lays_out_cells() {
    let prep = PreprocessedData::new(1, -1, 1).unwrap();
    let grid = vec![1, 0, 0, 0, 1, 0, 0, 0, 1];
    let text = map_file_text(7, 1, &prep, &grid);
    let expected = format!("{}\n   0  1  2  \n-2|1  0  0  \n-1|0  1  0  \n0 |0  0  1  \n", GRID_HEADER);
    assert_eq!(text, expected);
}

#[test]
fn count_report_lines() {
    let prep = PreprocessedData::new(1, -1, 1).unwrap();
    let results = vec![CountResult { block_x: 2, block_z: 0, world_x: 32, world_z: 0, slime_count: 4, distance_sq: 2 }];
    let text = count_report(7, 1, CountShape::Circle, 3, 5, &prep, &results, &[23]);
    let expected = format!(
        "{}计数模式: 圆形\n区域尺寸: 3\n目标数量: 5\n找到数量: 1\n\n[Output]\n中心区块: (2, 0) | 世界坐标: x:[32,48) z:[0,16) | 史莱姆区块数: 4 | 距离中心: 23m\n",
        GRID_HEADER.replace("# ", "")
    );
    assert_eq!(text, expected);
}

#[test]
fn match_report_lines() {
    let pattern = Pattern::new(&[vec![1, 2], vec![0, 1]]).unwrap();
    let pre = Preprocessed {
        seed: -5,
        center_x: 0,
        center_z: 0,
        radius: 1,
        x_start: -1,
        x_end: 1,
        z_start: -1,
        z_end: 1,
        pattern,
        limit: 0,
        pat_h: 2,
        pat_w: 2,
        output_mode: OutputMode::Console,
        output_path: None,
        cache_x0: -1,
        cache_x1: 2,
        cache_z0: -1,
        cache_z1: 2,
    };
    let text = match_report(&pre, &[(1, -1)], &[23]);
    let expected = "[Info]\n种子: -5\n中心区块: (0, 0)\n中心世界坐标: x:[0,16) z:[0,16)\n扫描半径: 1\n\
扫描范围 - 区块: 左上角(-1, -1) 右下角(1, 1)\n\
扫描范围 - 世界坐标: 左上角x:[-16,0) z:[-16,0) 右下角x:[16,32) z:[16,32)\n\
区块总数: 3×3=9\n匹配模式: 2×2\n匹配图案:\n  1, 2\n  0, 1\n匹配目标: 0\n找到数量: 1\n\n[Output]\n\
区块: (1, -1) | 世界坐标: x:[16,32) z:[-16,0) | 距离中心: 23m\n";
    assert_eq!(text, expected);
}
