//! Laws of the result files: where each coordinate and cell of a map file
//! stands, and what each report line holds.
use vstd::prelude::*;
use crate::config::CountShape;
use crate::counter::CountResult;
use crate::info::{info_text, pattern_lines, row_cells_text};
use crate::preprocess::{Preprocessed, PreprocessedData};
use crate::report::{
    AreaInfo, area_text, cell_text, column_cells, coord_width, count_line, count_lines, count_report_text,
    count_settings, grid_area, map_text, search_area, pattern_part, row_list_text, pattern_rows_text, match_line, match_lines, match_report_text, pad_right, row_cells,
    row_line, row_lines,
};
use crate::text::{int_text, spaces, text_len, lemma_text_len_between};

verus! {

/// Piece `k` of `n` pieces of `c` characters each starts before piece
/// `n - 1` when `k < n - 1`.
proof fn lemma_piece_before(k: int, n: int, c: int, j: int)
    requires
        0 <= k < n - 1,
        0 <= j < c,
    ensures
        0 <= k * c + j < (n - 1) * c,
{
    assert(k * c + j < (k + 1) * c) by (nonlinear_arith)
        requires
            0 <= j < c,
    ;
    assert((k + 1) * c <= (n - 1) * c) by (nonlinear_arith)
        requires
            k + 1 <= n - 1,
            0 <= c,
    ;
    assert(0 <= k * c) by (nonlinear_arith)
        requires
            0 <= k,
            0 <= c,
    ;
}

proof fn lemma_pad_right_len(t: Seq<char>, width: int)
    requires
        t.len() <= width,
    ensures
        pad_right(t, width).len() == width,
        forall|j: int| 0 <= j < t.len() ==> #[trigger] pad_right(t, width)[j] == t[j],
{
}

proof fn lemma_column_cells_layout(prep: PreprocessedData, w: int, n: int)
    requires
        0 <= w,
        0 <= n,
        forall|x: int| 0 <= x < n ==> #[trigger] text_len(prep.min_block_x + x) <= w + 1,
    ensures
        column_cells(prep, w, n).len() == n * (w + 1),
        forall|x: int, j: int|
            0 <= x < n && 0 <= j < text_len(prep.min_block_x + x) ==> column_cells(prep, w, n)[x * (w + 1) + j]
                == #[trigger] int_text(prep.min_block_x + x)[j],
    decreases n,
{
    if n > 0 {
        lemma_column_cells_layout(prep, w, n - 1);
        let last = int_text(prep.min_block_x + n - 1);
        assert(text_len(prep.min_block_x + (n - 1)) <= w + 1);
        lemma_pad_right_len(last, w + 1);
        assert(column_cells(prep, w, n) == column_cells(prep, w, n - 1) + pad_right(last, w + 1));
        assert((n - 1) * (w + 1) + (w + 1) == n * (w + 1)) by (nonlinear_arith);
        assert forall|x: int, j: int|
            0 <= x < n && 0 <= j < text_len(prep.min_block_x + x) implies column_cells(prep, w, n)[x * (w + 1) + j]
                == #[trigger] int_text(prep.min_block_x + x)[j] by {
            assert(text_len(prep.min_block_x + x) <= w + 1);
            if x < n - 1 {
                lemma_piece_before(x, n, w + 1, j);
            }
        }
    } else {
        assert(n * (w + 1) == 0) by (nonlinear_arith)
            requires
                n == 0,
        ;
    }
}

/// The character of a map byte: `1` for a slime chunk, `0` otherwise.
pub open spec fn cell_char(b: u8) -> char {
    if b == 1 {
        '1'
    } else {
        '0'
    }
}

proof fn lemma_row_cells_layout(prep: PreprocessedData, grid: Seq<u8>, w: int, z: int, n: int)
    requires
        0 <= w,
        0 <= n,
    ensures
        row_cells(prep, grid, w, z, n).len() == n * (w + 1),
        forall|x: int|
            0 <= x < n ==> row_cells(prep, grid, w, z, n)[x * (w + 1)] == cell_char(
                #[trigger] grid[z * prep.x_count + x],
            ),
    decreases n,
{
    reveal_strlit("1");
    reveal_strlit("0");
    if n > 0 {
        lemma_row_cells_layout(prep, grid, w, z, n - 1);
        let c = cell_text(grid[z * prep.x_count + n - 1]);
        assert(c.len() == 1 && c[0] == cell_char(grid[z * prep.x_count + (n - 1)]));
        lemma_pad_right_len(c, w + 1);
        assert((n - 1) * (w + 1) + (w + 1) == n * (w + 1)) by (nonlinear_arith);
        assert forall|x: int| 0 <= x < n implies row_cells(prep, grid, w, z, n)[x * (w + 1)] == cell_char(
            #[trigger] grid[z * prep.x_count + x],
        ) by {
            if x < n - 1 {
                lemma_piece_before(x, n, w + 1, 0);
            }
        }
    }
}

/// Length of every line of the map below the header: the column line and
/// each row line.
pub open spec fn map_line_len(prep: PreprocessedData) -> int {
    coord_width(prep) + 2 + (coord_width(prep) + 1) * prep.x_count
}

proof fn lemma_row_line_layout(prep: PreprocessedData, grid: Seq<u8>, w: int, z: int)
    requires
        0 <= w,
        text_len(prep.min_block_z + z) <= w,
    ensures
        row_line(prep, grid, w, z).len() == w + 2 + (w + 1) * prep.x_count,
        row_line(prep, grid, w, z)[w] == '|',
        forall|j: int| 0 <= j < text_len(prep.min_block_z + z) ==> #[trigger] row_line(prep, grid, w, z)[j]
            == int_text(prep.min_block_z + z)[j],
        forall|x: int|
            0 <= x < prep.x_count ==> row_line(prep, grid, w, z)[w + 1 + x * (w + 1)] == cell_char(
                #[trigger] grid[z * prep.x_count + x],
            ),
{
    reveal_strlit("|");
    reveal_strlit("\n");
    let label = pad_right(int_text(prep.min_block_z + z), w);
    lemma_pad_right_len(int_text(prep.min_block_z + z), w);
    lemma_row_cells_layout(prep, grid, w, z, prep.x_count as int);
    assert((w + 1) * prep.x_count == prep.x_count * (w + 1)) by (nonlinear_arith);
    let cells = row_cells(prep, grid, w, z, prep.x_count as int);
    assert(row_line(prep, grid, w, z) == label + "|"@ + cells + "\n"@);
    assert forall|x: int| 0 <= x < prep.x_count implies row_line(prep, grid, w, z)[w + 1 + x * (w + 1)] == cell_char(
        #[trigger] grid[z * prep.x_count + x],
    ) by {
        if prep.x_count >= 1 {
            if x < prep.x_count - 1 {
                lemma_piece_before(x, prep.x_count as int, w + 1, 0);
            } else {
                assert(x * (w + 1) == (prep.x_count - 1) * (w + 1));
            }
            assert((prep.x_count - 1) * (w + 1) + (w + 1) == prep.x_count * (w + 1)) by (nonlinear_arith);
        }
        assert(row_line(prep, grid, w, z)[w + 1 + x * (w + 1)] == cells[x * (w + 1)]);
    }
}

proof fn lemma_row_lines_layout(prep: PreprocessedData, grid: Seq<u8>, w: int, n: int)
    requires
        0 <= w,
        0 <= n,
        forall|z: int| 0 <= z < n ==> #[trigger] text_len(prep.min_block_z + z) <= w,
    ensures
        row_lines(prep, grid, w, n).len() == n * (w + 2 + (w + 1) * prep.x_count),
        forall|z: int, i: int|
            0 <= z < n && 0 <= i < w + 2 + (w + 1) * prep.x_count ==> row_lines(prep, grid, w, n)[z * (w + 2 + (w
                + 1) * prep.x_count) + i] == #[trigger] row_line(prep, grid, w, z)[i],
    decreases n,
{
    let len = w + 2 + (w + 1) * prep.x_count;
    assert(0 <= (w + 1) * prep.x_count) by (nonlinear_arith)
        requires
            0 <= w,
    ;
    if n > 0 {
        lemma_row_lines_layout(prep, grid, w, n - 1);
        assert(text_len(prep.min_block_z + (n - 1)) <= w);
        lemma_row_line_layout(prep, grid, w, n - 1);
        assert((n - 1) * len + len == n * len) by (nonlinear_arith);
        assert forall|z: int, i: int| 0 <= z < n && 0 <= i < len implies row_lines(prep, grid, w, n)[z * len + i]
            == #[trigger] row_line(prep, grid, w, z)[i] by {
            if z < n - 1 {
                lemma_piece_before(z, n, len, i);
            }
        }
    }
}

/// Where the line of row `z` of a map text of `t_len` characters starts:
/// the rows are the last lines, each [`map_line_len`] long, and the column
/// line is the one before them (`z == -1`).
pub open spec fn map_row_start(t_len: int, prep: PreprocessedData, z: int) -> int {
    t_len - (prep.z_count - z) * map_line_len(prep)
}

/// Where the cell of column `x` stands on the line of row `z`, or the
/// coordinate of column `x` on the column line (`z == -1`).
pub open spec fn map_cell_pos(t_len: int, prep: PreprocessedData, z: int, x: int) -> int {
    map_row_start(t_len, prep, z) + coord_width(prep) + 1 + x * (coord_width(prep) + 1)
}

/// The coordinates of the map's columns and rows fit in [`coord_width`].
proof fn lemma_coords_fit(prep: PreprocessedData)
    requires
        prep.wf(),
    ensures
        0 <= coord_width(prep),
        forall|x: int| 0 <= x < prep.x_count ==> #[trigger] text_len(prep.min_block_x + x) <= coord_width(prep),
        forall|z: int| 0 <= z < prep.z_count ==> #[trigger] text_len(prep.min_block_z + z) <= coord_width(prep),
{
    assert forall|x: int| 0 <= x < prep.x_count implies #[trigger] text_len(prep.min_block_x + x) <= coord_width(prep) by {
        lemma_text_len_between(prep.min_block_x as int, prep.min_block_x + x, prep.max_block_x as int);
    }
    assert forall|z: int| 0 <= z < prep.z_count implies #[trigger] text_len(prep.min_block_z + z) <= coord_width(prep) by {
        lemma_text_len_between(prep.min_block_z as int, prep.min_block_z + z, prep.max_block_z as int);
    }
}

/// The parts of a map text below its header `head`: the column line, then
/// the row lines.
pub open spec fn map_body_parts(prep: PreprocessedData, grid: Seq<u8>, head: Seq<char>, t: Seq<char>) -> bool {
    let w = coord_width(prep);
    t == head + (spaces(w + 1) + column_cells(prep, w, prep.x_count as int) + "\n"@) + row_lines(
        prep,
        grid,
        w,
        prep.z_count as int,
    )
}

proof fn lemma_body_lengths(prep: PreprocessedData, grid: Seq<u8>, head: Seq<char>, t: Seq<char>)
    requires
        prep.wf(),
        map_body_parts(prep, grid, head, t),
    ensures
        t.len() == head.len() + (prep.z_count + 1) * map_line_len(prep),
        forall|z: int| -1 <= z < prep.z_count ==> #[trigger] map_row_start(t.len() as int, prep, z) == head.len() + (z + 1)
            * map_line_len(prep),
        0 <= map_line_len(prep),
{
    let w = coord_width(prep);
    let len = map_line_len(prep);
    let xc = prep.x_count as int;
    let zc = prep.z_count as int;
    lemma_coords_fit(prep);
    lemma_column_cells_layout(prep, w, xc);
    lemma_row_lines_layout(prep, grid, w, zc);
    reveal_strlit("\n");
    assert(xc * (w + 1) == (w + 1) * xc) by (nonlinear_arith);
    assert(0 <= (w + 1) * xc) by (nonlinear_arith)
        requires
            0 <= w,
            0 <= xc,
    ;
    assert((zc + 1) * len == zc * len + len) by (nonlinear_arith);
    assert forall|z: int| -1 <= z < zc implies #[trigger] map_row_start(t.len() as int, prep, z) == head.len() + (z + 1)
        * len by {
        assert((zc - z) * len == (zc + 1) * len - (z + 1) * len) by (nonlinear_arith);
    }
}

proof fn lemma_body_cells(prep: PreprocessedData, grid: Seq<u8>, head: Seq<char>, t: Seq<char>, z: int, x: int)
    requires
        prep.wf(),
        map_body_parts(prep, grid, head, t),
        0 <= z < prep.z_count,
        0 <= x < prep.x_count,
    ensures
        t[map_cell_pos(t.len() as int, prep, z, x)] == cell_char(grid[z * prep.x_count + x]),
        t[map_row_start(t.len() as int, prep, z) + coord_width(prep)] == '|',
        forall|j: int| 0 <= j < text_len(prep.min_block_z + z) ==> t[map_row_start(t.len() as int, prep, z) + j]
            == #[trigger] int_text(prep.min_block_z + z)[j],
{
    let w = coord_width(prep);
    let len = map_line_len(prep);
    let xc = prep.x_count as int;
    let zc = prep.z_count as int;
    lemma_body_lengths(prep, grid, head, t);
    lemma_coords_fit(prep);
    lemma_row_lines_layout(prep, grid, w, zc);
    lemma_row_line_layout(prep, grid, w, z);
    lemma_column_cells_layout(prep, w, xc);
    reveal_strlit("\n");
    assert(xc * (w + 1) == (w + 1) * xc) by (nonlinear_arith);
    let cols = spaces(w + 1) + column_cells(prep, w, xc) + "\n"@;
    let rows = row_lines(prep, grid, w, zc);
    assert(cols.len() == len);
    let start = map_row_start(t.len() as int, prep, z);
    assert(start == head.len() + len + z * len) by {
        assert((z + 1) * len == z * len + len) by (nonlinear_arith);
    }
    assert(0 <= z * len) by (nonlinear_arith)
        requires
            0 <= z,
            0 <= len,
    ;
    let i = w + 1 + x * (w + 1);
    assert(0 <= x * (w + 1)) by (nonlinear_arith)
        requires
            0 <= x,
            0 <= w,
    ;
    assert(i < len) by {
        assert((x + 1) * (w + 1) <= xc * (w + 1)) by (nonlinear_arith)
            requires
                x + 1 <= xc,
                0 <= w,
        ;
        assert(x * (w + 1) + (w + 1) == (x + 1) * (w + 1)) by (nonlinear_arith);
        assert(xc * (w + 1) == (w + 1) * xc) by (nonlinear_arith);
    }
    assert(0 <= w < len);
    assert(z * len + len <= zc * len) by (nonlinear_arith)
        requires
            z + 1 <= zc,
            0 <= len,
    ;
    assert(t == (head + cols) + rows);
    assert((head + cols).len() == head.len() + len);
    assert(rows[z * len + i] == row_line(prep, grid, w, z)[i]);
    assert(t[start + i] == rows[z * len + i]);
    assert(rows[z * len + w] == row_line(prep, grid, w, z)[w]);
    assert(t[start + w] == rows[z * len + w]);
    assert forall|j: int| 0 <= j < text_len(prep.min_block_z + z) implies t[start + j] == #[trigger] int_text(
        prep.min_block_z + z,
    )[j] by {
        assert(j < len);
        assert(rows[z * len + j] == row_line(prep, grid, w, z)[j]);
        assert(t[start + j] == rows[z * len + j]);
    }
}

proof fn lemma_body_columns(prep: PreprocessedData, grid: Seq<u8>, head: Seq<char>, t: Seq<char>, x: int)
    requires
        prep.wf(),
        map_body_parts(prep, grid, head, t),
        0 <= x < prep.x_count,
    ensures
        forall|j: int| 0 <= j < text_len(prep.min_block_x + x) ==> t[map_cell_pos(t.len() as int, prep, -1, x) + j]
            == #[trigger] int_text(prep.min_block_x + x)[j],
{
    let w = coord_width(prep);
    let xc = prep.x_count as int;
    lemma_body_lengths(prep, grid, head, t);
    lemma_coords_fit(prep);
    lemma_column_cells_layout(prep, w, xc);
    let cc = column_cells(prep, w, xc);
    let cols = spaces(w + 1) + cc + "\n"@;
    assert(map_row_start(t.len() as int, prep, -1) == head.len());
    assert(0 <= x * (w + 1)) by (nonlinear_arith)
        requires
            0 <= x,
            0 <= w,
    ;
    assert forall|j: int| 0 <= j < text_len(prep.min_block_x + x) implies t[map_cell_pos(t.len() as int, prep, -1, x) + j]
        == #[trigger] int_text(prep.min_block_x + x)[j] by {
        assert(x * (w + 1) + j < xc * (w + 1)) by {
            if x < xc - 1 {
                lemma_piece_before(x, xc, w + 1, j);
                assert((xc - 1) * (w + 1) <= xc * (w + 1)) by (nonlinear_arith)
                    requires
                        0 <= w,
                ;
            } else {
                assert((xc - 1) * (w + 1) + (w + 1) == xc * (w + 1)) by (nonlinear_arith);
            }
        }
        assert(cols[w + 1 + x * (w + 1) + j] == cc[x * (w + 1) + j]);
    }
}

/// The layout of a map file: below the header, a line of column
/// coordinates and a line per row, all [`map_line_len`] long. On the line
/// of row `z`, which starts with the coordinate `min_block_z + z` and a
/// `|`, the cell under column `x` is `1` exactly when byte
/// `z * x_count + x` of the map is 1, and the column line holds the
/// coordinate `min_block_x + x` above it.
pub proof fn lemma_map_layout(seed: i128, radius: i32, prep: PreprocessedData, grid: Seq<u8>)
    requires
        prep.wf(),
    ensures
        map_text(seed, radius, prep, grid).len() == (area_text("# "@, grid_area(seed, radius, prep)) + "\n"@).len() + (
        prep.z_count + 1) * map_line_len(prep),
        map_text(seed, radius, prep, grid).take((area_text("# "@, grid_area(seed, radius, prep)) + "\n"@).len() as int)
            == area_text("# "@, grid_area(seed, radius, prep)) + "\n"@,
        forall|z: int, x: int|
            0 <= z < prep.z_count && 0 <= x < prep.x_count ==> map_text(seed, radius, prep, grid)[map_cell_pos(
                map_text(seed, radius, prep, grid).len() as int,
                prep,
                z,
                x,
            )] == cell_char(#[trigger] grid[z * prep.x_count + x]),
        forall|z: int|
            0 <= z < prep.z_count ==> map_text(seed, radius, prep, grid)[#[trigger] map_row_start(
                map_text(seed, radius, prep, grid).len() as int,
                prep,
                z,
            ) + coord_width(prep)] == '|',
        forall|z: int, j: int|
            0 <= z < prep.z_count && 0 <= j < text_len(prep.min_block_z + z) ==> map_text(seed, radius, prep, grid)[
            map_row_start(map_text(seed, radius, prep, grid).len() as int, prep, z) + j]
                == #[trigger] int_text(prep.min_block_z + z)[j],
        forall|x: int, j: int|
            0 <= x < prep.x_count && 0 <= j < text_len(prep.min_block_x + x) ==> map_text(seed, radius, prep, grid)[
            map_cell_pos(map_text(seed, radius, prep, grid).len() as int, prep, -1, x) + j]
                == #[trigger] int_text(prep.min_block_x + x)[j],
{
    let t = map_text(seed, radius, prep, grid);
    let head = area_text("# "@, grid_area(seed, radius, prep)) + "\n"@;
    let w = coord_width(prep);
    assert(t =~= head + (spaces(w + 1) + column_cells(prep, w, prep.x_count as int) + "\n"@) + row_lines(
        prep,
        grid,
        w,
        prep.z_count as int,
    ));
    assert(map_body_parts(prep, grid, head, t));
    lemma_body_lengths(prep, grid, head, t);
    assert(t.take(head.len() as int) =~= head);
    assert forall|z: int, x: int| 0 <= z < prep.z_count && 0 <= x < prep.x_count implies t[map_cell_pos(
        t.len() as int,
        prep,
        z,
        x,
    )] == cell_char(#[trigger] grid[z * prep.x_count + x]) by {
        lemma_body_cells(prep, grid, head, t, z, x);
    }
    assert forall|z: int| 0 <= z < prep.z_count implies t[#[trigger] map_row_start(t.len() as int, prep, z) + coord_width(
        prep,
    )] == '|' by {
        lemma_body_cells(prep, grid, head, t, z, 0);
    }
    assert forall|z: int, j: int|
        0 <= z < prep.z_count && 0 <= j < text_len(prep.min_block_z + z) implies t[map_row_start(t.len() as int, prep, z)
        + j] == #[trigger] int_text(prep.min_block_z + z)[j] by {
        lemma_body_cells(prep, grid, head, t, z, 0);
    }
    assert forall|x: int, j: int|
        0 <= x < prep.x_count && 0 <= j < text_len(prep.min_block_x + x) implies t[map_cell_pos(t.len() as int, prep, -1, x)
        + j] == #[trigger] int_text(prep.min_block_x + x)[j] by {
        lemma_body_columns(prep, grid, head, t, x);
    }
}

proof fn lemma_count_lines_flat(results: Seq<CountResult>, dists: Seq<i64>, n: int)
    requires
        0 <= n <= results.len(),
        n <= dists.len(),
    ensures
        count_lines(results, dists, n) == Seq::new(n as nat, |i: int| count_line(results[i], dists[i])).flatten_alt(),
    decreases n,
{
    let s = Seq::new(n as nat, |i: int| count_line(results[i], dists[i]));
    if n > 0 {
        lemma_count_lines_flat(results, dists, n - 1);
        assert(s.drop_last() =~= Seq::new((n - 1) as nat, |i: int| count_line(results[i], dists[i])));
    } else {
        assert(s.flatten_alt() =~= Seq::<char>::empty());
    }
}

/// The count report is the description of the area, the settings, the
/// `[Output]` title, and then line `i` for every result `i` in order: the
/// centre chunk of `results[i]`, its world square, its slime count, and its
/// distance `dists[i]`.
#[verifier::rlimit(30)]
pub proof fn lemma_count_report_lines(
    area: AreaInfo,
    shape: CountShape,
    size: i32,
    target: usize,
    results: Seq<CountResult>,
    dists: Seq<i64>,
)
    requires
        dists.len() == results.len(),
    ensures
        count_report_text(area, shape, size, target, results, dists) == area_text(""@, area) + count_settings(
            shape,
            size,
            target,
            results.len() as int,
        ) + "\n[Output]\n"@ + Seq::new(results.len(), |i: int| count_line(results[i], dists[i])).flatten(),
        forall|r: CountResult, d: i64|
            #[trigger] count_line(r, d) == "中心区块: ("@ + int_text(r.block_x as int) + ", "@ + int_text(r.block_z as int)
                + ") | 世界坐标: "@ + "x:["@ + int_text(r.world_x as int) + ","@ + int_text(r.world_x + 16) + ") z:["@
                + int_text(r.world_z as int) + ","@ + int_text(r.world_z + 16) + ")"@ + " | 史莱姆区块数: "@ + int_text(
                r.slime_count as int,
            ) + " | 距离中心: "@ + int_text(d as int) + "m\n"@,
{
    let s = Seq::new(results.len(), |i: int| count_line(results[i], dists[i]));
    lemma_count_lines_flat(results, dists, results.len() as int);
    s.lemma_flatten_and_flatten_alt_are_equivalent();
    assert forall|r: CountResult, d: i64| #[trigger] count_line(r, d) == "中心区块: ("@ + int_text(r.block_x as int)
        + ", "@ + int_text(r.block_z as int) + ") | 世界坐标: "@ + "x:["@ + int_text(r.world_x as int) + ","@ + int_text(
        r.world_x + 16,
    ) + ") z:["@ + int_text(r.world_z as int) + ","@ + int_text(r.world_z + 16) + ")"@ + " | 史莱姆区块数: "@ + int_text(
        r.slime_count as int,
    ) + " | 距离中心: "@ + int_text(d as int) + "m\n"@ by {
        assert(count_line(r, d) =~= "中心区块: ("@ + int_text(r.block_x as int) + ", "@ + int_text(r.block_z as int)
            + ") | 世界坐标: "@ + "x:["@ + int_text(r.world_x as int) + ","@ + int_text(r.world_x + 16) + ") z:["@
            + int_text(r.world_z as int) + ","@ + int_text(r.world_z + 16) + ")"@ + " | 史莱姆区块数: "@ + int_text(
            r.slime_count as int,
        ) + " | 距离中心: "@ + int_text(d as int) + "m\n"@);
    }
}

proof fn lemma_match_lines_flat(matches: Seq<(i32, i32)>, dists: Seq<i64>, n: int)
    requires
        0 <= n <= matches.len(),
        n <= dists.len(),
    ensures
        match_lines(matches, dists, n) == Seq::new(n as nat, |i: int| match_line(matches[i], dists[i])).flatten_alt(),
    decreases n,
{
    let s = Seq::new(n as nat, |i: int| match_line(matches[i], dists[i]));
    if n > 0 {
        lemma_match_lines_flat(matches, dists, n - 1);
        assert(s.drop_last() =~= Seq::new((n - 1) as nat, |i: int| match_line(matches[i], dists[i])));
    } else {
        assert(s.flatten_alt() =~= Seq::<char>::empty());
    }
}

/// The match report is the description of the scan range, the pattern
/// part, the `[Output]` title, and then line `i` for every match `i` in
/// order: the chunk `matches[i]`, its world square, and its distance
/// `dists[i]`.
#[verifier::rlimit(30)]
pub proof fn lemma_match_report_lines(pre: Preprocessed, matches: Seq<(i32, i32)>, dists: Seq<i64>)
    requires
        dists.len() == matches.len(),
    ensures
        match_report_text(pre, matches, dists) == area_text(""@, search_area(pre)) + pattern_part(
            pre,
            matches.len() as int,
        ) + "\n[Output]\n"@ + Seq::new(
            matches.len(),
            |i: int| match_line(matches[i], dists[i]),
        ).flatten(),
        forall|e: (i32, i32), d: i64|
            #[trigger] match_line(e, d) == "区块: ("@ + int_text(e.0 as int) + ", "@ + int_text(e.1 as int)
                + ") | 世界坐标: "@ + "x:["@ + int_text(e.0 * 16) + ","@ + int_text(e.0 * 16 + 16) + ") z:["@ + int_text(
                e.1 * 16,
            ) + ","@ + int_text(e.1 * 16 + 16) + ")"@ + " | 距离中心: "@ + int_text(d as int) + "m\n"@,
{
    let s = Seq::new(matches.len(), |i: int| match_line(matches[i], dists[i]));
    lemma_match_lines_flat(matches, dists, matches.len() as int);
    s.lemma_flatten_and_flatten_alt_are_equivalent();
    assert forall|e: (i32, i32), d: i64| #[trigger] match_line(e, d) == "区块: ("@ + int_text(e.0 as int) + ", "@
        + int_text(e.1 as int) + ") | 世界坐标: "@ + "x:["@ + int_text(e.0 * 16) + ","@ + int_text(e.0 * 16 + 16) + ") z:["@
        + int_text(e.1 * 16) + ","@ + int_text(e.1 * 16 + 16) + ")"@ + " | 距离中心: "@ + int_text(d as int) + "m\n"@ by {
        assert(match_line(e, d) =~= "区块: ("@ + int_text(e.0 as int) + ", "@ + int_text(e.1 as int)
            + ") | 世界坐标: "@ + "x:["@ + int_text(e.0 * 16) + ","@ + int_text(e.0 * 16 + 16) + ") z:["@ + int_text(
            e.1 * 16,
        ) + ","@ + int_text(e.1 * 16 + 16) + ")"@ + " | 距离中心: "@ + int_text(d as int) + "m\n"@);
    }
}

/// The first lines of a search description: the title, the seed, the
/// centre chunk, and the centre chunk's world square, whose x part is
/// `[16 * center_x, 16 * center_x + 16)` and whose z part is
/// `[16 * center_z, 16 * center_z + 16)`.
pub open spec fn info_head(pre: Preprocessed) -> Seq<char> {
    "[Info]\n"@ + "世界种子: "@ + int_text(pre.seed as int) + "\n"@ + "中心区块坐标: ("@ + int_text(pre.center_x as int)
        + ", "@ + int_text(pre.center_z as int) + ")\n"@ + "世界坐标: x:["@ + int_text(16 * pre.center_x) + ", "@
        + int_text(16 * pre.center_x + 16) + ") z:["@ + int_text(16 * pre.center_z) + ", "@ + int_text(
        16 * pre.center_z + 16,
    ) + ")\n"@
}

/// A search description starts with [`info_head`]: the centre chunk and
/// its world square, each axis taken from its own centre coordinate.
pub proof fn lemma_info_starts_with_centre(pre: Preprocessed)
    ensures
        info_text(pre).len() >= info_head(pre).len(),
        info_text(pre).take(info_head(pre).len() as int) == info_head(pre),
{
    let h = info_head(pre);
    let cx = pre.center_x as int;
    let cz = pre.center_z as int;
    assert(cx * 16 == 16 * cx && cz * 16 == 16 * cz);
    let rest = info_text(pre).skip(h.len() as int);
    assert(info_text(pre) =~= h + rest);
    assert(info_text(pre).take(h.len() as int) =~= h);
}

/// The description of an area, written out: each line behind `p`, the
/// seed, the centre chunk `(cx, cz)` and its world square, the radius, the
/// corner chunks `(x0, z0)` and `(x1, z1)` and their world squares, and
/// the counts `xc × zc = total`.
pub open spec fn area_lines(
    p: Seq<char>,
    seed: int,
    radius: int,
    cx: int,
    cz: int,
    x0: int,
    z0: int,
    x1: int,
    z1: int,
    xc: int,
    zc: int,
    total: int,
) -> Seq<char> {
    (p + "[Info]\n"@ + p + "种子: "@ + int_text(seed) + "\n"@ + p + "中心区块: ("@ + int_text(cx) + ", "@ + int_text(cz)
        + ")\n"@) + (p + "中心世界坐标: "@ + ("x:["@ + int_text(16 * cx) + ","@ + int_text(16 * cx + 16) + ") z:["@
        + int_text(16 * cz) + ","@ + int_text(16 * cz + 16) + ")"@) + "\n"@) + (p + "扫描半径: "@ + int_text(radius)
        + "\n"@ + p + "扫描范围 - 区块: 左上角("@ + int_text(x0) + ", "@ + int_text(z0) + ") 右下角("@ + int_text(x1)
        + ", "@ + int_text(z1) + ")\n"@) + (p + "扫描范围 - 世界坐标: 左上角"@ + ("x:["@ + int_text(16 * x0) + ","@
        + int_text(16 * x0 + 16) + ") z:["@ + int_text(16 * z0) + ","@ + int_text(16 * z0 + 16) + ")"@) + " 右下角"@
        + ("x:["@ + int_text(16 * x1) + ","@ + int_text(16 * x1 + 16) + ") z:["@ + int_text(16 * z1) + ","@ + int_text(
        16 * z1 + 16,
    ) + ")"@) + "\n"@) + (p + "区块总数: "@ + int_text(xc) + "×"@ + int_text(zc) + "="@ + int_text(total) + "\n"@)
}

proof fn lemma_area_text_lines(p: Seq<char>, a: AreaInfo)
    ensures
        area_text(p, a) == area_lines(
            p,
            a.seed as int,
            a.radius as int,
            a.center_x as int,
            a.center_z as int,
            a.x0 as int,
            a.z0 as int,
            a.x1 as int,
            a.z1 as int,
            a.x_count as int,
            a.z_count as int,
            a.total as int,
        ),
{
    assert(a.center_x * 16 == 16 * a.center_x && a.center_z * 16 == 16 * a.center_z);
    assert(a.x0 * 16 == 16 * a.x0 && a.z0 * 16 == 16 * a.z0 && a.x1 * 16 == 16 * a.x1 && a.z1 * 16 == 16 * a.z1);
}

/// The header of a map file, and the description at the top of a count
/// report, describe the grid: its centre chunk, radius, corner chunks
/// `(min_block_x, min_block_z)` and `(max_block_x, max_block_z)` with their
/// world squares, and its column, row and chunk counts.
pub proof fn lemma_grid_area_lines(p: Seq<char>, seed: i128, radius: i32, prep: PreprocessedData)
    ensures
        area_text(p, grid_area(seed, radius, prep)) == area_lines(
            p,
            seed as int,
            radius as int,
            prep.center_block_x as int,
            prep.center_block_z as int,
            prep.min_block_x as int,
            prep.min_block_z as int,
            prep.max_block_x as int,
            prep.max_block_z as int,
            prep.x_count as int,
            prep.z_count as int,
            prep.total_blocks as int,
        ),
{
    lemma_area_text_lines(p, grid_area(seed, radius, prep));
}

/// The description at the top of a match report describes the scan range:
/// its centre, radius, corners `(x_start, z_start)` and `(x_end, z_end)`
/// with their world squares, and `x_end - x_start + 1` columns by
/// `z_end - z_start + 1` rows.
pub proof fn lemma_search_area_lines(pre: Preprocessed)
    ensures
        area_text(""@, search_area(pre)) == area_lines(
            ""@,
            pre.seed as int,
            pre.radius as int,
            pre.center_x as int,
            pre.center_z as int,
            pre.x_start as int,
            pre.z_start as int,
            pre.x_end as int,
            pre.z_end as int,
            pre.x_end - pre.x_start + 1,
            pre.z_end - pre.z_start + 1,
            (pre.x_end - pre.x_start + 1) * (pre.z_end - pre.z_start + 1),
        ),
{
    let a = search_area(pre);
    let xs = pre.x_end - pre.x_start + 1;
    let zs = pre.z_end - pre.z_start + 1;
    assert(-0x2_0000_0000 <= xs <= 0x2_0000_0000);
    assert(-0x2_0000_0000 <= zs <= 0x2_0000_0000);
    assert(-0x10_0000_0000_0000_0000 <= xs * zs <= 0x10_0000_0000_0000_0000) by (nonlinear_arith)
        requires
            -0x2_0000_0000 <= xs <= 0x2_0000_0000,
            -0x2_0000_0000 <= zs <= 0x2_0000_0000,
    ;
    assert(a.x_count as int == xs);
    assert(a.z_count as int == zs);
    assert(a.total as int == xs * zs);
    lemma_area_text_lines(""@, a);
}

/// The settings lines of a count report name the shape (square or circle)
/// and give the size, the target and the number of results found.
pub proof fn lemma_count_settings_lines(shape: CountShape, size: i32, target: usize, found: int)
    ensures
        count_settings(shape, size, target, found) == "计数模式: "@ + (match shape {
            CountShape::Square => "正方形"@,
            CountShape::Circle => "圆形"@,
        }) + "\n"@ + "区域尺寸: "@ + int_text(size as int) + "\n"@ + "目标数量: "@ + int_text(target as int) + "\n"@
            + "找到数量: "@ + int_text(found) + "\n"@,
{
}

/// The cells of a pattern row after the first, each behind `sep`.
pub open spec fn cells_after_first(row: Seq<u8>, sep: Seq<char>) -> Seq<Seq<char>> {
    Seq::new((row.len() - 1) as nat, |k: int| sep + int_text(row[k + 1] as int))
}

proof fn lemma_list_text_joined(row: Seq<u8>)
    requires
        row.len() >= 1,
    ensures
        row_list_text(row) == int_text(row[0] as int) + cells_after_first(row, ", "@).flatten_alt(),
    decreases row.len(),
{
    let f = cells_after_first(row, ", "@);
    if row.len() == 1 {
        assert(f.flatten_alt() =~= Seq::<char>::empty());
        assert(row_list_text(row) =~= int_text(row[0] as int) + f.flatten_alt());
    } else {
        let d = row.drop_last();
        lemma_list_text_joined(d);
        assert(f.drop_last() =~= cells_after_first(d, ", "@));
        assert(f.last() == ", "@ + int_text(row.last() as int));
        assert(row_list_text(row) =~= int_text(row[0] as int) + f.flatten_alt());
    }
}

proof fn lemma_cells_text_joined(row: Seq<u8>)
    requires
        row.len() >= 1,
    ensures
        row_cells_text(row) == int_text(row[0] as int) + cells_after_first(row, " "@).flatten_alt(),
    decreases row.len(),
{
    let f = cells_after_first(row, " "@);
    if row.len() == 1 {
        assert(f.flatten_alt() =~= Seq::<char>::empty());
        assert(row_cells_text(row) =~= int_text(row[0] as int) + f.flatten_alt());
    } else {
        let d = row.drop_last();
        lemma_cells_text_joined(d);
        assert(f.drop_last() =~= cells_after_first(d, " "@));
        assert(f.last() == " "@ + int_text(row.last() as int));
        assert(row_cells_text(row) =~= int_text(row[0] as int) + f.flatten_alt());
    }
}

/// The cells of a pattern row as text: the first cell's value, then every
/// further cell's value behind `sep`, in row order.
pub open spec fn joined_cells(row: Seq<u8>, sep: Seq<char>) -> Seq<char> {
    if row.len() == 0 {
        Seq::empty()
    } else {
        int_text(row[0] as int) + cells_after_first(row, sep).flatten()
    }
}

/// The pattern rows of a match report, each behind two spaces, with the
/// values of its cells separated by `, `, in row order.
pub open spec fn report_pattern_rows(rows: Seq<Seq<u8>>) -> Seq<char> {
    Seq::new(rows.len(), |i: int| "  "@ + joined_cells(rows[i], ", "@) + "\n"@).flatten()
}

proof fn lemma_report_rows_flat(rows: Seq<Seq<u8>>, n: int)
    requires
        0 <= n <= rows.len(),
    ensures
        pattern_rows_text(rows, n) == Seq::new(n as nat, |i: int| "  "@ + joined_cells(rows[i], ", "@) + "\n"@).flatten_alt(),
    decreases n,
{
    let f = Seq::new(n as nat, |i: int| "  "@ + joined_cells(rows[i], ", "@) + "\n"@);
    if n > 0 {
        lemma_report_rows_flat(rows, n - 1);
        assert(f.drop_last() =~= Seq::new((n - 1) as nat, |i: int| "  "@ + joined_cells(rows[i], ", "@) + "\n"@));
        let row = rows[n - 1];
        if row.len() >= 1 {
            lemma_list_text_joined(row);
            cells_after_first(row, ", "@).lemma_flatten_and_flatten_alt_are_equivalent();
        } else {
            assert(row_list_text(row) =~= Seq::<char>::empty());
        }
        assert(joined_cells(row, ", "@) == row_list_text(row));
    } else {
        assert(f.flatten_alt() =~= Seq::<char>::empty());
    }
}

/// The pattern part of a match report: the pattern's width and height,
/// every row of the grid as given, in order, with its cells' values, then
/// the match limit and the number of matches found.
pub proof fn lemma_pattern_part_lines(pre: Preprocessed, found: int)
    ensures
        pattern_part(pre, found) == "匹配模式: "@ + int_text(pre.pattern.width as int) + "×"@ + int_text(
            pre.pattern.height as int,
        ) + "\n"@ + "匹配图案:\n"@ + report_pattern_rows(pre.pattern.original.deep_view()) + "匹配目标: "@
            + int_text(pre.limit as int) + "\n"@ + "找到数量: "@ + int_text(found) + "\n"@,
{
    let rows = pre.pattern.original.deep_view();
    assert(rows.len() == pre.pattern.original@.len());
    lemma_report_rows_flat(rows, rows.len() as int);
    Seq::new(rows.len(), |i: int| "  "@ + joined_cells(rows[i], ", "@) + "\n"@).lemma_flatten_and_flatten_alt_are_equivalent();
}

/// The pattern lines of a search description, `行 <i>: <cells>` for every
/// row `i` from 1, the values of its cells separated by spaces.
pub open spec fn info_pattern_rows(rows: Seq<Seq<u8>>) -> Seq<char> {
    Seq::new(rows.len(), |i: int| "行 "@ + int_text(i + 1) + ": "@ + joined_cells(rows[i], " "@) + "\n"@).flatten()
}

proof fn lemma_info_rows_flat(rows: Seq<Seq<u8>>, n: int)
    requires
        0 <= n <= rows.len(),
    ensures
        pattern_lines(rows, n) == Seq::new(
            n as nat,
            |i: int| "行 "@ + int_text(i + 1) + ": "@ + joined_cells(rows[i], " "@) + "\n"@,
        ).flatten_alt(),
    decreases n,
{
    let f = Seq::new(n as nat, |i: int| "行 "@ + int_text(i + 1) + ": "@ + joined_cells(rows[i], " "@) + "\n"@);
    if n > 0 {
        lemma_info_rows_flat(rows, n - 1);
        assert(f.drop_last() =~= Seq::new(
            (n - 1) as nat,
            |i: int| "行 "@ + int_text(i + 1) + ": "@ + joined_cells(rows[i], " "@) + "\n"@,
        ));
        let row = rows[n - 1];
        if row.len() >= 1 {
            lemma_cells_text_joined(row);
            cells_after_first(row, " "@).lemma_flatten_and_flatten_alt_are_equivalent();
        } else {
            assert(row_cells_text(row) =~= Seq::<char>::empty());
        }
        assert(joined_cells(row, " "@) == row_cells_text(row));
    } else {
        assert(f.flatten_alt() =~= Seq::<char>::empty());
    }
}

/// A search description, written out: [`info_head`], the radius, the scan
/// range `x:(x_start, x_end) z:(z_start, z_end)`, the world range that the
/// pattern reaches, `x:[16 * cache_x0, 16 * (cache_x1 + 1)) z:[16 *
/// cache_z0, 16 * (cache_z1 + 1))`, and the pattern's rows in order.
pub proof fn lemma_info_lines(pre: Preprocessed)
    ensures
        info_text(pre) == info_head(pre) + "扫描半径: "@ + int_text(pre.radius as int) + " chunks\n"@
            + "区块坐标范围: x:("@ + int_text(pre.x_start as int) + ", "@ + int_text(pre.x_end as int) + ") z:("@
            + int_text(pre.z_start as int) + ", "@ + int_text(pre.z_end as int) + ")\n"@ + "世界坐标范围: x:["@
            + int_text(16 * pre.cache_x0) + ", "@ + int_text(16 * (pre.cache_x1 + 1)) + ") z:["@ + int_text(
            16 * pre.cache_z0,
        ) + ", "@ + int_text(16 * (pre.cache_z1 + 1)) + ")\n"@ + "图案:\n"@ + info_pattern_rows(
            pre.pattern.original.deep_view(),
        ),
{
    let rows = pre.pattern.original.deep_view();
    assert(rows.len() == pre.pattern.original@.len());
    lemma_info_rows_flat(rows, rows.len() as int);
    Seq::new(
        rows.len(),
        |i: int| "行 "@ + int_text(i + 1) + ": "@ + joined_cells(rows[i], " "@) + "\n"@,
    ).lemma_flatten_and_flatten_alt_are_equivalent();
    assert(pre.cache_x0 * 16 == 16 * pre.cache_x0 && (pre.cache_x1 + 1) * 16 == 16 * (pre.cache_x1 + 1));
    assert(pre.cache_z0 * 16 == 16 * pre.cache_z0 && (pre.cache_z1 + 1) * 16 == 16 * (pre.cache_z1 + 1));
    assert(pre.center_x * 16 == 16 * pre.center_x && pre.center_z * 16 == 16 * pre.center_z);
    assert(info_text(pre) =~= info_head(pre) + "扫描半径: "@ + int_text(pre.radius as int) + " chunks\n"@
        + "区块坐标范围: x:("@ + int_text(pre.x_start as int) + ", "@ + int_text(pre.x_end as int) + ") z:("@
        + int_text(pre.z_start as int) + ", "@ + int_text(pre.z_end as int) + ")\n"@ + "世界坐标范围: x:["@
        + int_text(16 * pre.cache_x0) + ", "@ + int_text(16 * (pre.cache_x1 + 1)) + ") z:["@ + int_text(
        16 * pre.cache_z0,
    ) + ", "@ + int_text(16 * (pre.cache_z1 + 1)) + ")\n"@ + "图案:\n"@ + info_pattern_rows(rows));
}

} // verus!
