//! Laws of the seed map: where each column coordinate, row coordinate and
//! cell stands, and which chunk each cell is about.
use vstd::prelude::*;
use crate::seed_map::{
    SeedMapLayout, cell_text, column_headers, map_row, map_rows, pad_right, row_cells, seed_file, seed_header, widest,
};
use crate::slime_lib::slime_at;
use crate::text::{int_text, text_len};

verus! {

/// Every text among the `n` integers from `lo` is at most [`widest`] long.
proof fn lemma_widest_bound(lo: int, n: int, k: int)
    requires
        0 <= k < n,
    ensures
        text_len(lo + k) <= widest(lo, n),
    decreases n,
{
    if k < n - 1 {
        lemma_widest_bound(lo, n - 1, k);
    }
}

proof fn lemma_piece_before(k: int, n: int, c: int, j: int)
    requires
        0 <= k < n - 1,
        0 <= j < c,
    ensures
        0 <= k * c + j < (n - 1) * c,
{
    assert(k * c + j < (k + 1) * c) by (nonlinear_arith)
        requires
            0 <= j < c,
    ;
    assert((k + 1) * c <= (n - 1) * c) by (nonlinear_arith)
        requires
            k + 1 <= n - 1,
            0 <= c,
    ;
    assert(0 <= k * c) by (nonlinear_arith)
        requires
            0 <= k,
            0 <= c,
    ;
}

proof fn lemma_column_headers_layout(lo: int, n: int, w: int)
    requires
        0 <= n,
        0 <= w,
        forall|k: int| 0 <= k < n ==> #[trigger] text_len(lo + k) <= w,
    ensures
        column_headers(lo, n, w).len() == n * w,
        forall|k: int, j: int|
            0 <= k < n && 0 <= j < text_len(lo + k) ==> column_headers(lo, n, w)[k * w + j] == #[trigger] int_text(
                lo + k,
            )[j],
    decreases n,
{
    if n > 0 {
        lemma_column_headers_layout(lo, n - 1, w);
        assert(text_len(lo + (n - 1)) <= w);
        assert((n - 1) * w + w == n * w) by (nonlinear_arith);
        assert forall|k: int, j: int| 0 <= k < n && 0 <= j < text_len(lo + k) implies column_headers(lo, n, w)[k * w + j]
            == #[trigger] int_text(lo + k)[j] by {
            assert(text_len(lo + k) <= w);
            if k < n - 1 {
                lemma_piece_before(k, n, w, j);
            }
        }
    } else {
        assert(n * w == 0) by (nonlinear_arith)
            requires
                n == 0,
        ;
    }
}

/// The character of a cell: `1` for a slime chunk, `0` otherwise.
pub open spec fn slime_char(b: bool) -> char {
    if b {
        '1'
    } else {
        '0'
    }
}

proof fn lemma_row_cells_layout(seed: i64, min_x: int, n: int, z: i32, w: int)
    requires
        0 <= n,
        1 <= w,
    ensures
        row_cells(seed, min_x, n, z, w).len() == n * w,
        forall|k: int|
            0 <= k < n ==> row_cells(seed, min_x, n, z, w)[k * w] == slime_char(
                slime_at(seed, #[trigger] ((min_x + k) as i32), z),
            ),
    decreases n,
{
    if n > 0 {
        lemma_row_cells_layout(seed, min_x, n - 1, z, w);
        let c = cell_text(slime_at(seed, (min_x + n - 1) as i32, z), w);
        assert(c.len() == w);
        assert((n - 1) * w + w == n * w) by (nonlinear_arith);
        assert forall|k: int| 0 <= k < n implies row_cells(seed, min_x, n, z, w)[k * w] == slime_char(
            slime_at(seed, #[trigger] ((min_x + k) as i32), z),
        ) by {
            if k < n - 1 {
                lemma_piece_before(k, n, w, 0);
            }
        }
    } else {
        assert(n * w == 0) by (nonlinear_arith)
            requires
                n == 0,
        ;
    }
}

/// Length of the column line, of the rule under it and of every row line.
pub open spec fn seed_line_len(l: SeedMapLayout) -> int {
    l.z_col_width + l.x_count * l.cell_width + 1
}

/// Where the coordinate of column `k` stands in a seed header of `h_len`
/// characters: on the column line, the last line but one.
pub open spec fn seed_column_pos(h_len: int, l: SeedMapLayout, k: int) -> int {
    h_len - 2 * seed_line_len(l) + l.z_col_width + k * l.cell_width
}

/// The column line of a seed map: for every column `k`, the coordinate
/// `min_x + k` of its chunks stands at [`seed_column_pos`], above the
/// cells of that column.
pub proof fn lemma_seed_header_columns(seed: i64, l: SeedMapLayout)
    requires
        l.wf(),
    ensures
        seed_header(seed, l).len() >= 2 * seed_line_len(l),
        forall|k: int, j: int|
            0 <= k < l.x_count && 0 <= j < text_len(l.min_x + k) ==> seed_header(seed, l)[seed_column_pos(
                seed_header(seed, l).len() as int,
                l,
                k,
            ) + j] == #[trigger] int_text(l.min_x + k)[j],
{
    let h = seed_header(seed, l);
    let w = l.cell_width as int;
    let xc = l.x_count as int;
    assert forall|k: int| 0 <= k < xc implies #[trigger] text_len(l.min_x + k) <= w by {
        lemma_widest_bound(l.min_x as int, xc, k);
    }
    lemma_column_headers_layout(l.min_x as int, xc, w);
    let cols = crate::text::spaces(l.z_col_width as int) + column_headers(l.min_x as int, xc, w) + "\n"@;
    let rule = crate::text::spaces(l.z_col_width as int) + crate::seed_map::dash_run(l.x_count * l.cell_width) + "\n"@;
    reveal_strlit("\n");
    assert(xc * w == l.x_count * l.cell_width);
    assert(cols.len() == seed_line_len(l));
    assert(rule.len() == seed_line_len(l));
    let top = h.subrange(0, h.len() - cols.len() - rule.len());
    assert(h =~= top + cols + rule);
    assert forall|k: int, j: int| 0 <= k < xc && 0 <= j < text_len(l.min_x + k) implies h[seed_column_pos(
        h.len() as int,
        l,
        k,
    ) + j] == #[trigger] int_text(l.min_x + k)[j] by {
        assert(0 <= k * w) by (nonlinear_arith)
            requires
                0 <= k,
                0 <= w,
        ;
        assert(k * w + j < xc * w) by {
            if k < xc - 1 {
                lemma_piece_before(k, xc, w, j);
                assert((xc - 1) * w <= xc * w) by (nonlinear_arith)
                    requires
                        0 <= w,
                ;
            } else {
                assert((xc - 1) * w + w == xc * w) by (nonlinear_arith);
            }
        }
        assert(cols[l.z_col_width + k * w + j] == column_headers(l.min_x as int, xc, w)[k * w + j]);
    }
}

proof fn lemma_map_row_layout(seed: i64, l: SeedMapLayout, zi: int)
    requires
        l.wf(),
        0 <= zi < l.z_count,
    ensures
        map_row(seed, l, zi).len() == seed_line_len(l),
        map_row(seed, l, zi)[l.max_width as int] == '|',
        forall|j: int| 0 <= j < text_len(l.min_z + zi) ==> #[trigger] map_row(seed, l, zi)[j] == int_text(l.min_z + zi)[j],
        forall|k: int|
            0 <= k < l.x_count ==> map_row(seed, l, zi)[l.z_col_width + k * l.cell_width] == slime_char(
                slime_at(seed, #[trigger] ((l.min_x + k) as i32), (l.min_z + zi) as i32),
            ),
{
    reveal_strlit("|");
    reveal_strlit("\n");
    let w = l.cell_width as int;
    let xc = l.x_count as int;
    lemma_widest_bound(l.min_z as int, l.z_count as int, zi);
    let label = pad_right(int_text(l.min_z + zi), l.max_width as int);
    assert(label.len() == l.max_width);
    lemma_row_cells_layout(seed, l.min_x as int, xc, (l.min_z + zi) as i32, w);
    let cells = row_cells(seed, l.min_x as int, xc, (l.min_z + zi) as i32, w);
    assert(xc * w == l.x_count * l.cell_width);
    assert(map_row(seed, l, zi) == label + "|"@ + cells + "\n"@);
    assert forall|k: int| 0 <= k < xc implies map_row(seed, l, zi)[l.z_col_width + k * l.cell_width] == slime_char(
        slime_at(seed, #[trigger] ((l.min_x + k) as i32), (l.min_z + zi) as i32),
    ) by {
        assert(0 <= k * w) by (nonlinear_arith)
            requires
                0 <= k,
                0 <= w,
        ;
        assert(k * w < xc * w) by (nonlinear_arith)
            requires
                k < xc,
                1 <= w,
        ;
        assert(map_row(seed, l, zi)[l.z_col_width + k * w] == cells[k * w]);
    }
}

proof fn lemma_map_rows_layout(seed: i64, l: SeedMapLayout, n: int)
    requires
        l.wf(),
        0 <= n <= l.z_count,
    ensures
        map_rows(seed, l, n).len() == n * seed_line_len(l),
        forall|z: int, i: int|
            0 <= z < n && 0 <= i < seed_line_len(l) ==> map_rows(seed, l, n)[z * seed_line_len(l) + i]
                == #[trigger] map_row(seed, l, z)[i],
    decreases n,
{
    let d = seed_line_len(l);
    if n > 0 {
        lemma_map_rows_layout(seed, l, n - 1);
        lemma_map_row_layout(seed, l, n - 1);
        assert(map_rows(seed, l, n) =~= map_rows(seed, l, n - 1) + map_row(seed, l, n - 1));
        assert((n - 1) * d + d == n * d) by (nonlinear_arith);
        assert forall|z: int, i: int| 0 <= z < n && 0 <= i < d implies map_rows(seed, l, n)[z * d + i]
            == #[trigger] map_row(seed, l, z)[i] by {
            if z < n - 1 {
                lemma_piece_before(z, n, d, i);
            }
        }
    } else {
        assert(n * d == 0) by (nonlinear_arith)
            requires
                n == 0,
        ;
    }
}

/// Where the line of row `z` starts in a seed map whose header has `h_len`
/// characters.
pub open spec fn seed_row_start(h_len: int, l: SeedMapLayout, z: int) -> int {
    h_len + z * seed_line_len(l)
}

/// The rows of a seed map: below the header comes a line per row, each
/// [`seed_line_len`] long, starting with the row coordinate `min_z + z` and
/// a `|`; the cell under column `k` on the line of row `z` is `1` exactly
/// when chunk `(min_x + k, min_z + z)` is a slime chunk.
pub proof fn lemma_seed_file_rows(seed: i64, l: SeedMapLayout)
    requires
        l.wf(),
    ensures
        seed_file(seed, l).len() == seed_header(seed, l).len() + l.z_count * seed_line_len(l),
        forall|z: int, k: int|
            0 <= z < l.z_count && 0 <= k < l.x_count ==> seed_file(seed, l)[seed_row_start(
                seed_header(seed, l).len() as int,
                l,
                z,
            ) + l.z_col_width + k * l.cell_width] == slime_char(
                slime_at(seed, #[trigger] ((l.min_x + k) as i32), #[trigger] ((l.min_z + z) as i32)),
            ),
        forall|z: int|
            0 <= z < l.z_count ==> seed_file(seed, l)[#[trigger] seed_row_start(seed_header(seed, l).len() as int, l, z)
                + l.max_width] == '|',
        forall|z: int, j: int|
            0 <= z < l.z_count && 0 <= j < text_len(l.min_z + z) ==> seed_file(seed, l)[seed_row_start(
                seed_header(seed, l).len() as int,
                l,
                z,
            ) + j] == #[trigger] int_text(l.min_z + z)[j],
{
    let h = seed_header(seed, l);
    let rows = map_rows(seed, l, l.z_count as int);
    let d = seed_line_len(l);
    let zc = l.z_count as int;
    lemma_map_rows_layout(seed, l, zc);
    assert(seed_file(seed, l) == h + rows);
    assert forall|z: int, k: int| 0 <= z < zc && 0 <= k < l.x_count implies seed_file(seed, l)[seed_row_start(
        h.len() as int,
        l,
        z,
    ) + l.z_col_width + k * l.cell_width] == slime_char(
        slime_at(seed, #[trigger] ((l.min_x + k) as i32), #[trigger] ((l.min_z + z) as i32)),
    ) by {
        lemma_map_row_layout(seed, l, z);
        let i = l.z_col_width + k * l.cell_width;
        assert(i < d) by {
            assert(k * l.cell_width < l.x_count * l.cell_width) by (nonlinear_arith)
                requires
                    k < l.x_count,
                    1 <= l.cell_width,
            ;
        }
        assert(0 <= k * l.cell_width) by (nonlinear_arith)
            requires
                0 <= k,
        ;
        assert(z * d + d <= zc * d) by (nonlinear_arith)
            requires
                z + 1 <= zc,
                0 <= d,
        ;
        assert(0 <= z * d) by (nonlinear_arith)
            requires
                0 <= z,
                0 <= d,
        ;
        assert(rows[z * d + i] == map_row(seed, l, z)[i]);
    }
    assert forall|z: int| 0 <= z < zc implies seed_file(seed, l)[#[trigger] seed_row_start(h.len() as int, l, z)
        + l.max_width] == '|' by {
        lemma_map_row_layout(seed, l, z);
        assert(z * d + d <= zc * d) by (nonlinear_arith)
            requires
                z + 1 <= zc,
                0 <= d,
        ;
        assert(0 <= z * d) by (nonlinear_arith)
            requires
                0 <= z,
                0 <= d,
        ;
        assert(rows[z * d + l.max_width] == map_row(seed, l, z)[l.max_width as int]);
    }
    assert forall|z: int, j: int| 0 <= z < zc && 0 <= j < text_len(l.min_z + z) implies seed_file(seed, l)[seed_row_start(
        h.len() as int,
        l,
        z,
    ) + j] == #[trigger] int_text(l.min_z + z)[j] by {
        lemma_map_row_layout(seed, l, z);
        lemma_widest_bound(l.min_z as int, zc, z);
        assert(z * d + d <= zc * d) by (nonlinear_arith)
            requires
                z + 1 <= zc,
                0 <= d,
        ;
        assert(0 <= z * d) by (nonlinear_arith)
            requires
                0 <= z,
                0 <= d,
        ;
        assert(rows[z * d + j] == map_row(seed, l, z)[j]);
    }
}

/// The first lines of a seed map: the seed, the x range `[min_x, max_x]`
/// and the z range `[min_z, max_z]`, the dimensions `x_count × z_count`,
/// and the rule `nextInt(10) == 0`.
pub open spec fn seed_header_top(seed: i64, l: SeedMapLayout) -> Seq<char> {
    "Seed: "@ + int_text(seed as int) + "\nX range: ["@ + int_text(l.min_x as int) + ", "@ + int_text(l.max_x as int)
        + "]  Z range: ["@ + int_text(l.min_z as int) + ", "@ + int_text(l.max_z as int) + "]\nDimensions: "@
        + int_text(l.x_count as int) + " × "@ + int_text(l.z_count as int) + "\nRule: nextInt("@ + int_text(10)
        + ") == "@ + int_text(0) + "\n"@
}

/// A seed map starts with [`seed_header_top`].
pub proof fn lemma_seed_header_top(seed: i64, l: SeedMapLayout)
    ensures
        seed_header(seed, l).len() >= seed_header_top(seed, l).len(),
        seed_header(seed, l).take(seed_header_top(seed, l).len() as int) == seed_header_top(seed, l),
{
    let t = seed_header_top(seed, l);
    let h = seed_header(seed, l);
    assert(h =~= t + h.skip(t.len() as int));
    assert(h.take(t.len() as int) =~= t);
}

} // verus!
