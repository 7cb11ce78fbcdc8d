use slimetools::pattern::{Pattern, PatternError};
use slimetools::preprocess::{OutputMode, PreprocessError, Preprocessed, RawConfig};

#[test]
fn pattern_splits_cells_and_orders_rows() {
    let grid = vec![vec![2, 1, 2], vec![1, 0, 1], vec![2, 2, 0]];
    let p = Pattern::new(&grid).unwrap();
    assert_eq!((p.width, p.height), (3, 3));
    assert_eq!(p.original, grid);
    assert_eq!(p.ones, vec![vec![1], vec![0, 2], vec![]]);
    assert_eq!(p.zeros, vec![vec![], vec![1], vec![2]]);
    // row 1 has three conditions, rows 0 and 2 one each, kept in row order
    assert_eq!(p.row_order, vec![1, 0, 2]);
}

#[test]
fn pattern_errors() {
    assert_eq!(Pattern::new(&[]).unwrap_err(), PatternError::Empty);
    assert_eq!(Pattern::new(&[vec![]]).unwrap_err(), PatternError::Empty);
    assert_eq!(Pattern::new(&[vec![1u8; 65]]).unwrap_err(), PatternError::TooWide(65));
    assert_eq!(Pattern::new(&vec![vec![1u8]; 65]).unwrap_err(), PatternError::TooTall(65));
    assert_eq!(Pattern::new(&[vec![1, 1], vec![1]]).unwrap_err(), PatternError::RaggedRow(1));
    assert_eq!(Pattern::new(&[vec![1, 3], vec![1]]).unwrap_err(), PatternError::BadValue(3));
    assert!(Pattern::new(&[vec![1u8; 64]]).is_ok());
}

#[test]
fn pattern_error_messages() {
    assert_eq!(PatternError::Empty.message(), "图案矩阵不能为空");
    assert_eq!(PatternError::TooWide(65).message(), "图案宽度不能超过 64，当前为 65");
    assert_eq!(PatternError::TooTall(70).message(), "图案高度不能超过 64，当前为 70");
    assert_eq!(PatternError::RaggedRow(2).message(), "图案第 2 行长度不一致");
    assert_eq!(PatternError::BadValue(9).message(), "图案值只能是 0, 1 或 2，发现 9");
}

fn raw(mode: &str, pattern: Vec<Vec<u8>>) -> RawConfig {
    RawConfig {
        seed: 20260627,
        center_x: 5,
        center_z: -7,
        radius: 10,
        pattern,
        limit: 3,
        output_mode: mode.to_string(),
        output_path: None,
    }
}

#[test]
fn preprocess_ranges_and_output() {
    let pre = Preprocessed::from_raw(&raw(" File ", vec![vec![1, 1], vec![1, 0]])).unwrap();
    assert_eq!((pre.x_start, pre.x_end, pre.z_start, pre.z_end), (-5, 15, -17, 3));
    assert_eq!((pre.pat_w, pre.pat_h), (2, 2));
    assert_eq!((pre.cache_x0, pre.cache_x1, pre.cache_z0, pre.cache_z1), (-5, 16, -17, 4));
    assert_eq!(pre.output_mode, OutputMode::File);
    assert_eq!(pre.output_path.as_deref(), Some("20260627_match_output.txt"));
    assert_eq!(pre.limit, 3);
    let both = Preprocessed::from_raw(&raw("BOTH", vec![vec![1]])).unwrap();
    assert_eq!(both.output_mode, OutputMode::Both);
    let console = Preprocessed::from_raw(&raw("screen", vec![vec![1]])).unwrap();
    assert_eq!(console.output_mode, OutputMode::Console);
    assert_eq!(console.output_path, None);
}

#[test]
fn preprocess_rejects_bad_pattern() {
    let e = Preprocessed::from_raw(&raw("console", vec![vec![1, 5]])).err().unwrap();
    assert_eq!(e, PreprocessError::Pattern(PatternError::BadValue(5)));
}

#[test]
fn output_mode_from_text() {
    assert_eq!(OutputMode::from("file"), OutputMode::File);
    assert_eq!(OutputMode::from("\tBoth\n"), OutputMode::Both);
    assert_eq!(OutputMode::from("console"), OutputMode::Console);
    assert_eq!(OutputMode::from("files"), OutputMode::Console);
}
