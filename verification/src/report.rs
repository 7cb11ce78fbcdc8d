//! Text of the result files: the description of the scanned area, the
//! count report and the match report. The distances in metres are rounded
//! square roots, computed by the caller and passed in.
use vstd::prelude::*;
use crate::config::CountShape;
use crate::counter::CountResult;
use crate::preprocess::{Preprocessed, PreprocessedData};
use crate::text::{int_text, push_str, push_int, spaces, text_len, push_spaces, int_text_length};

verus! {

/// A scanned area as the files describe it.
pub struct AreaInfo {
    pub seed: i128,
    pub radius: i128,
    pub center_x: i32,
    pub center_z: i32,
    /// Top-left and bottom-right chunks of the area.
    pub x0: i32,
    pub z0: i32,
    pub x1: i32,
    pub z1: i32,
    /// Columns, rows and chunks of the area.
    pub x_count: i128,
    pub z_count: i128,
    pub total: i128,
}

/// The numbers of the area can be written: none is `i128::MIN`.
pub open spec fn area_fits(a: AreaInfo) -> bool {
    &&& a.seed > i128::MIN
    &&& a.radius > i128::MIN
    &&& a.x_count > i128::MIN
    &&& a.z_count > i128::MIN
    &&& a.total > i128::MIN
}

/// `x:[w,w+16) z:[v,v+16)`: the world square of a chunk whose north-west
/// corner is `(w, v)`.
pub open spec fn square_text(w: int, v: int) -> Seq<char> {
    "x:["@ + int_text(w) + ","@ + int_text(w + 16) + ") z:["@ + int_text(v) + ","@ + int_text(v + 16) + ")"@
}

/// The first three lines of the description: title, seed and centre chunk.
pub open spec fn head_lines(prefix: Seq<char>, a: AreaInfo) -> Seq<char> {
    prefix + "[Info]\n"@ + prefix + "种子: "@ + int_text(a.seed as int) + "\n"@ + prefix + "中心区块: ("@
        + int_text(a.center_x as int) + ", "@ + int_text(a.center_z as int) + ")\n"@
}

/// The line of the centre chunk's world square.
pub open spec fn center_line(prefix: Seq<char>, a: AreaInfo) -> Seq<char> {
    prefix + "中心世界坐标: "@ + square_text(a.center_x * 16, a.center_z * 16) + "\n"@
}

/// The lines of the radius and of the corner chunks.
pub open spec fn range_lines(prefix: Seq<char>, a: AreaInfo) -> Seq<char> {
    prefix + "扫描半径: "@ + int_text(a.radius as int) + "\n"@ + prefix + "扫描范围 - 区块: 左上角("@ + int_text(
        a.x0 as int,
    ) + ", "@ + int_text(a.z0 as int) + ") 右下角("@ + int_text(a.x1 as int) + ", "@ + int_text(a.z1 as int)
        + ")\n"@
}

/// The line of the corner chunks' world squares.
pub open spec fn corner_line(prefix: Seq<char>, a: AreaInfo) -> Seq<char> {
    prefix + "扫描范围 - 世界坐标: 左上角"@ + square_text(a.x0 * 16, a.z0 * 16) + " 右下角"@ + square_text(
        a.x1 * 16,
        a.z1 * 16,
    ) + "\n"@
}

/// The line of the chunk counts.
pub open spec fn total_line(prefix: Seq<char>, a: AreaInfo) -> Seq<char> {
    prefix + "区块总数: "@ + int_text(a.x_count as int) + "×"@ + int_text(a.z_count as int) + "="@ + int_text(
        a.total as int,
    ) + "\n"@
}

/// The description of an area, each line behind `prefix`: title, seed,
/// centre chunk and its world square, radius, corner chunks and their world
/// squares, and the chunk counts.
pub open spec fn area_text(prefix: Seq<char>, a: AreaInfo) -> Seq<char> {
    head_lines(prefix, a) + center_line(prefix, a) + range_lines(prefix, a) + corner_line(prefix, a) + total_line(
        prefix,
        a,
    )
}

/// Appends the world square of the chunk whose north-west corner is `(w, v)`.
fn push_square(s: &mut String, w: i128, v: i128)
    requires
        i128::MIN < w < i128::MAX - 16,
        i128::MIN < v < i128::MAX - 16,
    ensures
        final(s)@ == old(s)@ + square_text(w as int, v as int),
{
    push_str(s, "x:[");
    push_int(s, w);
    push_str(s, ",");
    push_int(s, w + 16);
    push_str(s, ") z:[");
    push_int(s, v);
    push_str(s, ",");
    push_int(s, v + 16);
    push_str(s, ")");
    proof {
        assert(s@ =~= old(s)@ + square_text(w as int, v as int));
    }
}

fn push_head_lines(s: &mut String, p: &str, a: &AreaInfo)
    requires
        area_fits(*a),
    ensures
        final(s)@ == old(s)@ + head_lines(p@, *a),
{
    push_str(s, p);
    push_str(s, "[Info]\n");
    push_str(s, p);
    push_str(s, "种子: ");
    push_int(s, a.seed);
    push_str(s, "\n");
    push_str(s, p);
    push_str(s, "中心区块: (");
    push_int(s, a.center_x as i128);
    push_str(s, ", ");
    push_int(s, a.center_z as i128);
    push_str(s, ")\n");
    proof {
        assert(s@ =~= old(s)@ + head_lines(p@, *a));
    }
}

fn push_center_line(s: &mut String, p: &str, a: &AreaInfo)
    ensures
        final(s)@ == old(s)@ + center_line(p@, *a),
{
    push_str(s, p);
    push_str(s, "中心世界坐标: ");
    push_square(s, a.center_x as i128 * 16, a.center_z as i128 * 16);
    push_str(s, "\n");
    proof {
        assert(s@ =~= old(s)@ + center_line(p@, *a));
    }
}

#[verifier::rlimit(40)]
fn push_range_lines(s: &mut String, p: &str, a: &AreaInfo)
    requires
        area_fits(*a),
    ensures
        final(s)@ == old(s)@ + range_lines(p@, *a),
{
    push_str(s, p);
    push_str(s, "扫描半径: ");
    push_int(s, a.radius);
    push_str(s, "\n");
    push_str(s, p);
    push_str(s, "扫描范围 - 区块: 左上角(");
    push_int(s, a.x0 as i128);
    push_str(s, ", ");
    push_int(s, a.z0 as i128);
    push_str(s, ") 右下角(");
    push_int(s, a.x1 as i128);
    push_str(s, ", ");
    push_int(s, a.z1 as i128);
    push_str(s, ")\n");
    proof {
        assert(s@ =~= old(s)@ + range_lines(p@, *a));
    }
}

fn push_corner_line(s: &mut String, p: &str, a: &AreaInfo)
    ensures
        final(s)@ == old(s)@ + corner_line(p@, *a),
{
    push_str(s, p);
    push_str(s, "扫描范围 - 世界坐标: 左上角");
    push_square(s, a.x0 as i128 * 16, a.z0 as i128 * 16);
    push_str(s, " 右下角");
    push_square(s, a.x1 as i128 * 16, a.z1 as i128 * 16);
    push_str(s, "\n");
    proof {
        assert(s@ =~= old(s)@ + corner_line(p@, *a));
    }
}

fn push_total_line(s: &mut String, p: &str, a: &AreaInfo)
    requires
        area_fits(*a),
    ensures
        final(s)@ == old(s)@ + total_line(p@, *a),
{
    push_str(s, p);
    push_str(s, "区块总数: ");
    push_int(s, a.x_count);
    push_str(s, "×");
    push_int(s, a.z_count);
    push_str(s, "=");
    push_int(s, a.total);
    push_str(s, "\n");
    proof {
        assert(s@ =~= old(s)@ + total_line(p@, *a));
    }
}

/// Appends the description of an area, each line behind `prefix`.
fn push_area(s: &mut String, prefix: &str, a: &AreaInfo)
    requires
        area_fits(*a),
    ensures
        final(s)@ == old(s)@ + area_text(prefix@, *a),
{
    push_head_lines(s, prefix, a);
    push_center_line(s, prefix, a);
    push_range_lines(s, prefix, a);
    push_corner_line(s, prefix, a);
    push_total_line(s, prefix, a);
    proof {
        assert(s@ =~= old(s)@ + area_text(prefix@, *a));
    }
}

/// The area of a counting grid, with the given seed and radius.
pub open spec fn grid_area(seed: i128, radius: i32, prep: PreprocessedData) -> AreaInfo {
    AreaInfo {
        seed,
        radius: radius as i128,
        center_x: prep.center_block_x,
        center_z: prep.center_block_z,
        x0: prep.min_block_x,
        z0: prep.min_block_z,
        x1: prep.max_block_x,
        z1: prep.max_block_z,
        x_count: prep.x_count as i128,
        z_count: prep.z_count as i128,
        total: prep.total_blocks as i128,
    }
}

fn make_grid_area(seed: i128, radius: i32, prep: &PreprocessedData) -> (a: AreaInfo)
    ensures
        a == grid_area(seed, radius, *prep),
{
    AreaInfo {
        seed,
        radius: radius as i128,
        center_x: prep.center_block_x,
        center_z: prep.center_block_z,
        x0: prep.min_block_x,
        z0: prep.min_block_z,
        x1: prep.max_block_x,
        z1: prep.max_block_z,
        x_count: prep.x_count as i128,
        z_count: prep.z_count as i128,
        total: prep.total_blocks as i128,
    }
}

/// The header of a map file: the description of the grid's area, each line
/// behind `# `.
pub fn build_grid_header(seed: i128, radius: i32, prep: &PreprocessedData) -> (r: String)
    requires
        seed > i128::MIN,
    ensures
        r@ == area_text("# "@, grid_area(seed, radius, *prep)),
{
    let a = make_grid_area(seed, radius, prep);
    let mut s = String::new();
    push_area(&mut s, "# ", &a);
    proof {
        assert(s@ =~= area_text("# "@, grid_area(seed, radius, *prep)));
    }
    s
}

/// The name of a count shape in a report.
pub open spec fn shape_name(shape: CountShape) -> Seq<char> {
    match shape {
        CountShape::Square => "正方形"@,
        CountShape::Circle => "圆形"@,
    }
}

/// The report line of one count result, `d` metres from the centre.
pub open spec fn count_line(r: CountResult, d: i64) -> Seq<char> {
    "中心区块: ("@ + int_text(r.block_x as int) + ", "@ + int_text(r.block_z as int) + ") | 世界坐标: "@
        + square_text(r.world_x as int, r.world_z as int) + " | 史莱姆区块数: "@ + int_text(r.slime_count as int)
        + " | 距离中心: "@ + int_text(d as int) + "m\n"@
}

/// The report lines of the first `n` count results.
pub open spec fn count_lines(results: Seq<CountResult>, dists: Seq<i64>, n: int) -> Seq<char>
    decreases n,
{
    if n <= 0 {
        Seq::empty()
    } else {
        count_lines(results, dists, n - 1) + count_line(results[n - 1], dists[n - 1])
    }
}

/// The settings lines of a count report: shape, size, target and the number
/// of results found.
pub open spec fn count_settings(shape: CountShape, size: i32, target: usize, found: int) -> Seq<char> {
    "计数模式: "@ + shape_name(shape) + "\n"@ + "区域尺寸: "@ + int_text(size as int) + "\n"@ + "目标数量: "@
        + int_text(target as int) + "\n"@ + "找到数量: "@ + int_text(found) + "\n"@
}

/// A count report: the description of the grid's area, the settings, and
/// under `[Output]` a line per result with its distance in metres.
pub open spec fn count_report_text(
    area: AreaInfo,
    shape: CountShape,
    size: i32,
    target: usize,
    results: Seq<CountResult>,
    dists: Seq<i64>,
) -> Seq<char> {
    area_text(""@, area) + count_settings(shape, size, target, results.len() as int) + "\n[Output]\n"@
        + count_lines(results, dists, results.len() as int)
}

fn push_count_line(s: &mut String, r: &CountResult, d: i64)
    ensures
        final(s)@ == old(s)@ + count_line(*r, d),
{
    push_str(s, "中心区块: (");
    push_int(s, r.block_x as i128);
    push_str(s, ", ");
    push_int(s, r.block_z as i128);
    push_str(s, ") | 世界坐标: ");
    push_square(s, r.world_x as i128, r.world_z as i128);
    push_str(s, " | 史莱姆区块数: ");
    push_int(s, r.slime_count as i128);
    push_str(s, " | 距离中心: ");
    push_int(s, d as i128);
    push_str(s, "m\n");
    proof {
        assert(s@ =~= old(s)@ + count_line(*r, d));
    }
}

fn push_count_settings(s: &mut String, shape: CountShape, size: i32, target: usize, found: usize)
    ensures
        final(s)@ == old(s)@ + count_settings(shape, size, target, found as int),
{
    push_str(s, "计数模式: ");
    match shape {
        CountShape::Square => push_str(s, "正方形"),
        CountShape::Circle => push_str(s, "圆形"),
    }
    push_str(s, "\n");
    push_str(s, "区域尺寸: ");
    push_int(s, size as i128);
    push_str(s, "\n");
    push_str(s, "目标数量: ");
    push_int(s, target as i128);
    push_str(s, "\n");
    push_str(s, "找到数量: ");
    push_int(s, found as i128);
    push_str(s, "\n");
    proof {
        assert(s@ =~= old(s)@ + count_settings(shape, size, target, found as int));
    }
}

/// The count report of `results` on the grid `prep`, with `distances_m[i]`
/// the distance of result `i` to the centre in metres.
pub fn count_report(
    seed: i128,
    radius: i32,
    shape: CountShape,
    size: i32,
    target: usize,
    prep: &PreprocessedData,
    results: &[CountResult],
    distances_m: &[i64],
) -> (r: String)
    requires
        seed > i128::MIN,
        distances_m@.len() == results@.len(),
    ensures
        r@ == count_report_text(grid_area(seed, radius, *prep), shape, size, target, results@, distances_m@),
{
    let a = make_grid_area(seed, radius, prep);
    let mut s = String::new();
    push_area(&mut s, "", &a);
    push_count_settings(&mut s, shape, size, target, results.len());
    push_str(&mut s, "\n[Output]\n");
    let ghost head = s@;
    let mut i: usize = 0;
    while i < results.len()
        invariant
            i <= results@.len(),
            distances_m@.len() == results@.len(),
            s@ == head + count_lines(results@, distances_m@, i as int),
        decreases results@.len() - i,
    {
        push_count_line(&mut s, &results[i], distances_m[i]);
        i = i + 1;
    }
    proof {
        assert(s@ =~= count_report_text(grid_area(seed, radius, *prep), shape, size, target, results@, distances_m@));
    }
    s
}

/// The area that a pattern search scans.
pub open spec fn search_area(pre: Preprocessed) -> AreaInfo {
    AreaInfo {
        seed: pre.seed as i128,
        radius: pre.radius as i128,
        center_x: pre.center_x,
        center_z: pre.center_z,
        x0: pre.x_start,
        z0: pre.z_start,
        x1: pre.x_end,
        z1: pre.z_end,
        x_count: (pre.x_end - pre.x_start + 1) as i128,
        z_count: (pre.z_end - pre.z_start + 1) as i128,
        total: ((pre.x_end - pre.x_start + 1) * (pre.z_end - pre.z_start + 1)) as i128,
    }
}

/// The cells of a pattern row, separated by `, `.
pub open spec fn row_list_text(row: Seq<u8>) -> Seq<char>
    decreases row.len(),
{
    if row.len() == 0 {
        Seq::empty()
    } else if row.len() == 1 {
        int_text(row[0] as int)
    } else {
        row_list_text(row.drop_last()) + ", "@ + int_text(row.last() as int)
    }
}

/// The lines of the first `n` pattern rows, each indented by two spaces.
pub open spec fn pattern_rows_text(rows: Seq<Seq<u8>>, n: int) -> Seq<char>
    decreases n,
{
    if n <= 0 {
        Seq::empty()
    } else {
        pattern_rows_text(rows, n - 1) + "  "@ + row_list_text(rows[n - 1]) + "\n"@
    }
}

/// The report line of a match at chunk `e`, `d` metres from the centre.
pub open spec fn match_line(e: (i32, i32), d: i64) -> Seq<char> {
    "区块: ("@ + int_text(e.0 as int) + ", "@ + int_text(e.1 as int) + ") | 世界坐标: "@ + square_text(
        e.0 * 16,
        e.1 * 16,
    ) + " | 距离中心: "@ + int_text(d as int) + "m\n"@
}

/// The report lines of the first `n` matches.
pub open spec fn match_lines(matches: Seq<(i32, i32)>, dists: Seq<i64>, n: int) -> Seq<char>
    decreases n,
{
    if n <= 0 {
        Seq::empty()
    } else {
        match_lines(matches, dists, n - 1) + match_line(matches[n - 1], dists[n - 1])
    }
}

/// The pattern part of a match report: its size, its rows, the limit and
/// the number of matches found.
pub open spec fn pattern_part(pre: Preprocessed, found: int) -> Seq<char> {
    "匹配模式: "@ + int_text(pre.pattern.width as int) + "×"@ + int_text(pre.pattern.height as int) + "\n"@
        + "匹配图案:\n"@ + pattern_rows_text(pre.pattern.original.deep_view(), pre.pattern.original@.len() as int)
        + "匹配目标: "@ + int_text(pre.limit as int) + "\n"@ + "找到数量: "@ + int_text(found) + "\n"@
}

/// The part of a match report before its match lines: the description of
/// the scanned area, the pattern part, and the `[Output]` title.
pub open spec fn match_head(pre: Preprocessed, found: int) -> Seq<char> {
    area_text(""@, search_area(pre)) + pattern_part(pre, found) + "\n[Output]\n"@
}

/// A match report: the description of the scanned area, the pattern, and
/// under `[Output]` a line per match with its distance in metres.
pub open spec fn match_report_text(pre: Preprocessed, matches: Seq<(i32, i32)>, dists: Seq<i64>) -> Seq<char> {
    match_head(pre, matches.len() as int) + match_lines(matches, dists, matches.len() as int)
}

fn push_row_list(s: &mut String, row: &Vec<u8>)
    ensures
        final(s)@ == old(s)@ + row_list_text(row@),
{
    let mut k: usize = 0;
    while k < row.len()
        invariant
            k <= row@.len(),
            s@ == old(s)@ + row_list_text(row@.take(k as int)),
        decreases row@.len() - k,
    {
        if k > 0 {
            push_str(s, ", ");
        }
        push_int(s, row[k] as i128);
        proof {
            let t = row@.take(k + 1);
            assert(t.drop_last() =~= row@.take(k as int));
            assert(t.last() == row@[k as int]);
            if k == 0 {
                assert(row@.take(0) =~= Seq::<u8>::empty());
            }
            assert(s@ =~= old(s)@ + row_list_text(t));
        }
        k = k + 1;
    }
    proof {
        assert(row@.take(row@.len() as int) =~= row@);
    }
}

fn push_pattern_rows(s: &mut String, rows: &Vec<Vec<u8>>)
    ensures
        final(s)@ == old(s)@ + pattern_rows_text(rows.deep_view(), rows@.len() as int),
{
    let mut i: usize = 0;
    proof {
        assert(s@ =~= old(s)@ + pattern_rows_text(rows.deep_view(), 0));
    }
    while i < rows.len()
        invariant
            i <= rows@.len(),
            s@ == old(s)@ + pattern_rows_text(rows.deep_view(), i as int),
        decreases rows@.len() - i,
    {
        push_str(s, "  ");
        push_row_list(s, &rows[i]);
        push_str(s, "\n");
        proof {
            assert(rows.deep_view()[i as int] == rows@[i as int]@);
            assert(s@ =~= old(s)@ + pattern_rows_text(rows.deep_view(), i + 1));
        }
        i = i + 1;
    }
}

fn push_pattern_part(s: &mut String, pre: &Preprocessed, found: usize)
    ensures
        final(s)@ == old(s)@ + pattern_part(*pre, found as int),
{
    push_str(s, "匹配模式: ");
    push_int(s, pre.pattern.width as i128);
    push_str(s, "×");
    push_int(s, pre.pattern.height as i128);
    push_str(s, "\n");
    push_str(s, "匹配图案:\n");
    push_pattern_rows(s, &pre.pattern.original);
    push_str(s, "匹配目标: ");
    push_int(s, pre.limit as i128);
    push_str(s, "\n");
    push_str(s, "找到数量: ");
    push_int(s, found as i128);
    push_str(s, "\n");
    proof {
        assert(s@ =~= old(s)@ + pattern_part(*pre, found as int));
    }
}

fn make_search_area(pre: &Preprocessed) -> (a: AreaInfo)
    ensures
        a == search_area(*pre),
        area_fits(a),
{
    let xc = pre.x_end as i128 - pre.x_start as i128 + 1;
    let zc = pre.z_end as i128 - pre.z_start as i128 + 1;
    proof {
        assert(-0x2_0000_0000 * 0x2_0000_0000 <= xc * zc <= 0x2_0000_0000 * 0x2_0000_0000) by (nonlinear_arith)
            requires
                -0x2_0000_0000 <= xc <= 0x2_0000_0000,
                -0x2_0000_0000 <= zc <= 0x2_0000_0000,
        ;
    }
    AreaInfo {
        seed: pre.seed as i128,
        radius: pre.radius as i128,
        center_x: pre.center_x,
        center_z: pre.center_z,
        x0: pre.x_start,
        z0: pre.z_start,
        x1: pre.x_end,
        z1: pre.z_end,
        x_count: xc,
        z_count: zc,
        total: xc * zc,
    }
}

fn push_match_head(s: &mut String, pre: &Preprocessed, found: usize)
    ensures
        final(s)@ == old(s)@ + match_head(*pre, found as int),
{
    let a = make_search_area(pre);
    push_area(s, "", &a);
    push_pattern_part(s, pre, found);
    push_str(s, "\n[Output]\n");
    proof {
        assert(s@ =~= old(s)@ + match_head(*pre, found as int));
    }
}

fn push_match_line(s: &mut String, e: (i32, i32), d: i64)
    ensures
        final(s)@ == old(s)@ + match_line(e, d),
{
    push_str(s, "区块: (");
    push_int(s, e.0 as i128);
    push_str(s, ", ");
    push_int(s, e.1 as i128);
    push_str(s, ") | 世界坐标: ");
    push_square(s, e.0 as i128 * 16, e.1 as i128 * 16);
    push_str(s, " | 距离中心: ");
    push_int(s, d as i128);
    push_str(s, "m\n");
    proof {
        assert(s@ =~= old(s)@ + match_line(e, d));
    }
}

/// The report of a pattern search that found `matches`, with
/// `distances_m[i]` the distance of match `i` to the centre in metres.
pub fn match_report(pre: &Preprocessed, matches: &[(i32, i32)], distances_m: &[i64]) -> (r: String)
    requires
        distances_m@.len() == matches@.len(),
    ensures
        r@ == match_report_text(*pre, matches@, distances_m@),
{
    let mut s = String::new();
    push_match_head(&mut s, pre, matches.len());
    let ghost head = match_head(*pre, matches@.len() as int);
    proof {
        assert(s@ =~= head);
    }
    let mut i: usize = 0;
    while i < matches.len()
        invariant
            i <= matches@.len(),
            distances_m@.len() == matches@.len(),
            s@ == head + match_lines(matches@, distances_m@, i as int),
        decreases matches@.len() - i,
    {
        push_match_line(&mut s, matches[i], distances_m[i]);
        i = i + 1;
    }
    s
}

/// `t` left-aligned in a field of `width` characters, as `{:<width$}`
/// writes it: spaces behind when `t` is shorter, `t` alone otherwise.
pub open spec fn pad_right(t: Seq<char>, width: int) -> Seq<char> {
    t + spaces(width - t.len())
}

/// The larger of two integers.
pub open spec fn larger(a: int, b: int) -> int {
    if a >= b {
        a
    } else {
        b
    }
}

/// Width of a coordinate in the map: the longest text among the first and
/// last column and row coordinates.
pub open spec fn coord_width(prep: PreprocessedData) -> int {
    larger(
        larger(text_len(prep.min_block_x as int), text_len(prep.max_block_x as int)),
        larger(text_len(prep.min_block_z as int), text_len(prep.max_block_z as int)),
    )
}

/// The column coordinates of the first `n` columns, each in a field of
/// `w + 1` characters.
pub open spec fn column_cells(prep: PreprocessedData, w: int, n: int) -> Seq<char>
    decreases n,
{
    if n <= 0 {
        Seq::empty()
    } else {
        column_cells(prep, w, n - 1) + pad_right(int_text(prep.min_block_x + n - 1), w + 1)
    }
}

/// The cell of a map byte: `1` for a slime chunk, `0` otherwise.
pub open spec fn cell_text(b: u8) -> Seq<char> {
    if b == 1 {
        "1"@
    } else {
        "0"@
    }
}

/// The first `n` cells of row `z_idx` of the map, each in a field of
/// `w + 1` characters.
pub open spec fn row_cells(prep: PreprocessedData, grid: Seq<u8>, w: int, z_idx: int, n: int) -> Seq<char>
    decreases n,
{
    if n <= 0 {
        Seq::empty()
    } else {
        row_cells(prep, grid, w, z_idx, n - 1) + pad_right(cell_text(grid[z_idx * prep.x_count + n - 1]), w + 1)
    }
}

/// Line of row `z_idx`: its coordinate in a field of `w` characters, `|`,
/// and its cells.
pub open spec fn row_line(prep: PreprocessedData, grid: Seq<u8>, w: int, z_idx: int) -> Seq<char> {
    pad_right(int_text(prep.min_block_z + z_idx), w) + "|"@ + row_cells(prep, grid, w, z_idx, prep.x_count as int)
        + "\n"@
}

/// The lines of the first `n` rows of the map.
pub open spec fn row_lines(prep: PreprocessedData, grid: Seq<u8>, w: int, n: int) -> Seq<char>
    decreases n,
{
    if n <= 0 {
        Seq::empty()
    } else {
        row_lines(prep, grid, w, n - 1) + row_line(prep, grid, w, n - 1)
    }
}

/// A map file: the header with an empty line after it, the line of column
/// coordinates behind `w + 1` spaces, and a line per row, `w` being
/// [`coord_width`].
pub open spec fn map_text(seed: i128, radius: i32, prep: PreprocessedData, grid: Seq<u8>) -> Seq<char> {
    let w = coord_width(prep);
    area_text("# "@, grid_area(seed, radius, prep)) + "\n"@ + spaces(w + 1) + column_cells(prep, w, prep.x_count as int)
        + "\n"@ + row_lines(prep, grid, w, prep.z_count as int)
}

/// Appends `t`, then spaces up to `width` characters in all.
fn push_padded(s: &mut String, t: &str, width: usize)
    ensures
        final(s)@ == old(s)@ + pad_right(t@, width as int),
{
    push_str(s, t);
    let n = t.unicode_len();
    if n < width {
        push_spaces(s, width - n);
    } else {
        proof {
            assert(spaces(width - n) =~= Seq::<char>::empty());
        }
    }
    proof {
        assert(s@ =~= old(s)@ + pad_right(t@, width as int));
    }
}

/// Appends the decimal text of `v` in a field of `width` characters.
fn push_padded_int(s: &mut String, v: i32, width: usize)
    ensures
        final(s)@ == old(s)@ + pad_right(int_text(v as int), width as int),
{
    let n = int_text_length(v as i128);
    push_int(s, v as i128);
    if n < width {
        push_spaces(s, width - n);
    } else {
        proof {
            assert(spaces(width - n) =~= Seq::<char>::empty());
        }
    }
    proof {
        assert(s@ =~= old(s)@ + pad_right(int_text(v as int), width as int));
    }
}

fn larger_of(a: usize, b: usize) -> (r: usize)
    ensures
        r as int == larger(a as int, b as int),
{
    if a >= b {
        a
    } else {
        b
    }
}

/// The map file of a grid: its header, the column coordinates, and a line
/// of `0`/`1` cells per row.
pub fn map_file_text(seed: i128, radius: i32, prep: &PreprocessedData, grid: &[u8]) -> (r: String)
    requires
        seed > i128::MIN,
        prep.wf(),
        grid@.len() >= prep.total_blocks,
    ensures
        r@ == map_text(seed, radius, *prep, grid@),
{
    let w = larger_of(
        larger_of(int_text_length(prep.min_block_x as i128), int_text_length(prep.max_block_x as i128)),
        larger_of(int_text_length(prep.min_block_z as i128), int_text_length(prep.max_block_z as i128)),
    );
    proof {
        crate::text::lemma_int_text_len_bound(prep.min_block_x as int);
        crate::text::lemma_int_text_len_bound(prep.max_block_x as int);
        crate::text::lemma_int_text_len_bound(prep.min_block_z as int);
        crate::text::lemma_int_text_len_bound(prep.max_block_z as int);
    }
    let ghost gw = w as int;
    let mut s = build_grid_header(seed, radius, prep);
    push_str(&mut s, "\n");
    push_spaces(&mut s, w + 1);
    let ghost h1 = s@;
    let mut xi: usize = 0;
    while xi < prep.x_count
        invariant
            prep.wf(),
            w <= 40,
            gw == w,
            xi <= prep.x_count,
            s@ == h1 + column_cells(*prep, gw, xi as int),
        decreases prep.x_count - xi,
    {
        let x = (prep.min_block_x as i64 + xi as i64) as i32;
        push_padded_int(&mut s, x, w + 1);
        proof {
            assert(s@ =~= h1 + column_cells(*prep, gw, xi + 1));
        }
        xi = xi + 1;
    }
    push_str(&mut s, "\n");
    let ghost h2 = s@;
    proof {
        assert(h2 =~= area_text("# "@, grid_area(seed, radius, *prep)) + "\n"@ + spaces(gw + 1) + column_cells(
            *prep,
            gw,
            prep.x_count as int,
        ) + "\n"@);
    }
    let mut zi: usize = 0;
    while zi < prep.z_count
        invariant
            prep.wf(),
            grid@.len() >= prep.total_blocks,
            w <= 40,
            gw == w,
            zi <= prep.z_count,
            s@ == h2 + row_lines(*prep, grid@, gw, zi as int),
        decreases prep.z_count - zi,
    {
        let ghost before = s@;
        let z = (prep.min_block_z as i64 + zi as i64) as i32;
        push_padded_int(&mut s, z, w);
        push_str(&mut s, "|");
        let ghost rs = s@;
        proof {
            assert(rs =~= before + pad_right(int_text(prep.min_block_z + zi), gw) + "|"@);
        }
        let mut xi: usize = 0;
        while xi < prep.x_count
            invariant
                prep.wf(),
                grid@.len() >= prep.total_blocks,
                w <= 40,
                gw == w,
                zi < prep.z_count,
                xi <= prep.x_count,
                s@ == rs + row_cells(*prep, grid@, gw, zi as int, xi as int),
            decreases prep.x_count - xi,
        {
            proof {
                assert(zi * prep.x_count + xi < prep.z_count * prep.x_count) by (nonlinear_arith)
                    requires
                        zi < prep.z_count,
                        xi < prep.x_count,
                ;
                assert(prep.z_count * prep.x_count == prep.total_blocks) by (nonlinear_arith)
                    requires
                        prep.total_blocks == prep.x_count * prep.z_count,
                ;
            }
            let b = grid[zi * prep.x_count + xi];
            if b == 1 {
                push_padded(&mut s, "1", w + 1);
            } else {
                push_padded(&mut s, "0", w + 1);
            }
            proof {
                assert(s@ =~= rs + row_cells(*prep, grid@, gw, zi as int, xi + 1));
            }
            xi = xi + 1;
        }
        push_str(&mut s, "\n");
        proof {
            assert(s@ =~= before + row_line(*prep, grid@, gw, zi as int));
            assert(s@ =~= h2 + row_lines(*prep, grid@, gw, zi + 1));
        }
        zi = zi + 1;
    }
    s
}

} // verus!
