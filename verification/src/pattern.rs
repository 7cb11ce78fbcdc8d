//! Patterns of chunks to search for.
//!
//! A pattern is a grid of cells: 1 asks for a slime chunk, 0 for a chunk that
//! is not one, and 2 accepts either. Each row is split into the offsets that
//! must be 1 and those that must be 0, and the rows are ordered so that the
//! rows with the most conditions are tested first.
use vstd::prelude::*;
use crate::text::{int_text, push_str, push_int};

verus! {

/// Largest width and height a pattern may have.
pub const MAX_PATTERN_SIDE: usize = 64;

/// Why a grid is not a valid pattern.
#[derive(Debug, Clone, Copy, PartialEq, Eq)]
pub enum PatternError {
    /// The grid has no rows, or its first row has no cells.
    Empty,
    /// The first row is wider than 64 cells; the width is attached.
    TooWide(usize),
    /// The grid has more than 64 rows; the height is attached.
    TooTall(usize),
    /// The row with this index is not as long as the first row.
    RaggedRow(usize),
    /// A cell holds this value, which is not 0, 1 or 2.
    BadValue(u8),
}

/// A validated pattern, prepared for matching.
#[derive(Debug, Clone)]
pub struct Pattern {
    pub width: usize,
    pub height: usize,
    /// The grid as given.
    pub original: Vec<Vec<u8>>,
    /// For each row, the offsets of its cells that must be slime chunks.
    pub ones: Vec<Vec<usize>>,
    /// For each row, the offsets of its cells that must not be slime chunks.
    pub zeros: Vec<Vec<usize>>,
    /// The row indices, rows with more conditions first, ties in row order.
    pub row_order: Vec<usize>,
}

/// The offsets in `row` of the cells holding `v`, in increasing order.
pub open spec fn positions(row: Seq<u8>, v: u8) -> Seq<usize>
    decreases row.len(),
{
    if row.len() == 0 {
        Seq::empty()
    } else {
        let p = positions(row.drop_last(), v);
        if row.last() == v {
            p.push((row.len() - 1) as usize)
        } else {
            p
        }
    }
}

/// Number of conditions in a row: its cells that are not 2.
pub open spec fn condition_count(row: Seq<u8>) -> int {
    (positions(row, 1).len() + positions(row, 0).len()) as int
}

/// Row `a` is tested before row `b`: it has more conditions, or as many and
/// comes first.
pub open spec fn tested_before(counts: Seq<int>, a: usize, b: usize) -> bool {
    counts[a as int] > counts[b as int] || (counts[a as int] == counts[b as int] && a < b)
}

/// `order` lists every row index below `counts.len()` once, rows with more
/// conditions first and ties in row order.
pub open spec fn is_row_order(counts: Seq<int>, order: Seq<usize>) -> bool {
    &&& order.len() == counts.len()
    &&& forall|k: int| 0 <= k < order.len() ==> #[trigger] order[k] < counts.len()
    &&& forall|k: int, l: int|
        0 <= k < l < order.len() ==> tested_before(counts, #[trigger] order[k], #[trigger] order[l])
    &&& forall|r: int| 0 <= r < counts.len() ==> #[trigger] order.contains(r as usize)
}

/// A row is acceptable when it is `width` long and holds only 0, 1 and 2.
pub open spec fn row_ok(row: Seq<u8>, width: int) -> bool {
    row.len() == width && forall|k: int| 0 <= k < row.len() ==> #[trigger] row[k] <= 2
}

/// The first value above 2 in a row, looking from cell `k` on.
pub open spec fn first_bad_value(row: Seq<u8>, k: int) -> u8
    decreases row.len() - k,
{
    if k >= row.len() || k < 0 {
        0
    } else if row[k] > 2 {
        row[k]
    } else {
        first_bad_value(row, k + 1)
    }
}

/// The error for the rows from `i` on, each checked for its length and then
/// for its values, or `None` when they are all acceptable.
pub open spec fn rows_error(grid: Seq<Seq<u8>>, width: int, i: int) -> Option<PatternError>
    decreases grid.len() - i,
{
    if i >= grid.len() || i < 0 {
        None
    } else if grid[i].len() != width {
        Some(PatternError::RaggedRow(i as usize))
    } else if !row_ok(grid[i], width) {
        Some(PatternError::BadValue(first_bad_value(grid[i], 0)))
    } else {
        rows_error(grid, width, i + 1)
    }
}

/// The error that `Pattern::new` reports for `grid`, or `None` for a valid one.
pub open spec fn pattern_error(grid: Seq<Seq<u8>>) -> Option<PatternError> {
    if grid.len() == 0 || grid[0].len() == 0 {
        Some(PatternError::Empty)
    } else if grid[0].len() > 64 {
        Some(PatternError::TooWide(grid[0].len() as usize))
    } else if grid.len() > 64 {
        Some(PatternError::TooTall(grid.len() as usize))
    } else {
        rows_error(grid, grid[0].len() as int, 0)
    }
}

impl Pattern {
    /// The pattern built from `grid`: its rows as given, their offsets of
    /// 1-cells and 0-cells, and the row order.
    pub open spec fn built_from(self, grid: Seq<Seq<u8>>) -> bool {
        &&& self.height == grid.len()
        &&& self.width == grid[0].len()
        &&& self.original.deep_view() == grid
        &&& self.ones.len() == grid.len()
        &&& self.zeros.len() == grid.len()
        &&& forall|r: int| 0 <= r < grid.len() ==> #[trigger] self.ones@[r]@ == positions(grid[r], 1)
        &&& forall|r: int| 0 <= r < grid.len() ==> #[trigger] self.zeros@[r]@ == positions(grid[r], 0)
        &&& is_row_order(
            Seq::new(grid.len(), |r: int| condition_count(grid[r])),
            self.row_order@,
        )
    }

    /// Well-formedness: sizes between 1 and 64, a row of offsets per row,
    /// every offset below the width, and a row order over all rows.
    pub open spec fn wf(self) -> bool {
        &&& 1 <= self.width <= 64
        &&& 1 <= self.height <= 64
        &&& self.ones.len() == self.height
        &&& self.zeros.len() == self.height
        &&& forall|r: int, k: int|
            0 <= r < self.height && 0 <= k < self.ones@[r]@.len() ==> #[trigger] self.ones@[r]@[k]
                < self.width
        &&& forall|r: int, k: int|
            0 <= r < self.height && 0 <= k < self.zeros@[r]@.len() ==> #[trigger] self.zeros@[r]@[k]
                < self.width
        &&& self.row_order.len() == self.height
        &&& forall|k: int| 0 <= k < self.height ==> #[trigger] self.row_order@[k] < self.height
        &&& forall|r: int| 0 <= r < self.height ==> #[trigger] self.row_order@.contains(r as usize)
    }
}

proof fn lemma_positions_bound(row: Seq<u8>, v: u8)
    ensures
        forall|k: int|
            0 <= k < positions(row, v).len() ==> #[trigger] positions(row, v)[k] < row.len(),
        positions(row, v).len() <= row.len(),
    decreases row.len(),
{
    if row.len() > 0 {
        lemma_positions_bound(row.drop_last(), v);
    }
}

proof fn lemma_counts_bound(row: Seq<u8>)
    ensures
        0 <= condition_count(row) <= row.len(),
    decreases row.len(),
{
    if row.len() > 0 {
        lemma_counts_bound(row.drop_last());
    }
}

/// The offsets of the cells of `row` holding `v`.
fn collect_positions(row: &Vec<u8>, v: u8) -> (r: Vec<usize>)
    ensures
        r@ == positions(row@, v),
{
    let mut out: Vec<usize> = Vec::new();
    let mut dx: usize = 0;
    while dx < row.len()
        invariant
            dx <= row@.len(),
            out@ == positions(row@.take(dx as int), v),
        decreases row@.len() - dx,
    {
        proof {
            assert(row@.take(dx as int + 1).drop_last() =~= row@.take(dx as int));
        }
        if row[dx] == v {
            out.push(dx);
        }
        dx = dx + 1;
    }
    proof {
        assert(row@.take(dx as int) =~= row@);
    }
    out
}

/// Row indices ordered by decreasing condition count, ties in row order.
fn order_rows(counts: &Vec<usize>) -> (order: Vec<usize>)
    requires
        forall|r: int| 0 <= r < counts.len() ==> #[trigger] counts@[r] <= 64,
    ensures
        is_row_order(Seq::new(counts@.len(), |r: int| counts@[r] as int), order@),
{
    let ghost cs = Seq::new(counts@.len(), |r: int| counts@[r] as int);
    let n = counts.len();
    let mut order: Vec<usize> = Vec::new();
    let mut level: usize = 65;
    while level > 0
        invariant
            level <= 65,
            n == counts@.len(),
            cs == Seq::new(counts@.len(), |r: int| counts@[r] as int),
            forall|r: int| 0 <= r < counts.len() ==> #[trigger] counts@[r] <= 64,
            forall|k: int| 0 <= k < order.len() ==> #[trigger] order@[k] < n,
            forall|k: int| 0 <= k < order.len() ==> #[trigger] counts@[order@[k] as int] >= level,
            forall|k: int, l: int|
                0 <= k < l < order.len() ==> tested_before(cs, #[trigger] order@[k], #[trigger] order@[l]),
            forall|r: int| 0 <= r < n && counts@[r] >= level ==> #[trigger] order@.contains(r as usize),
            forall|k: int, l: int| 0 <= k < l < order.len() ==> #[trigger] order@[k] != #[trigger] order@[l],
        decreases level,
    {
        let c = level - 1;
        let mut r: usize = 0;
        let ghost before = order@;
        while r < n
            invariant
                r <= n,
                c + 1 == level,
                level <= 65,
                n == counts@.len(),
                cs == Seq::new(counts@.len(), |r: int| counts@[r] as int),
                before.len() <= order.len(),
                forall|k: int| 0 <= k < before.len() ==> #[trigger] order@[k] == before[k],
                forall|k: int| 0 <= k < order.len() ==> #[trigger] order@[k] < n,
                forall|k: int| 0 <= k < before.len() ==> #[trigger] counts@[before[k] as int] > c,
                forall|k: int|
                    before.len() <= k < order.len() ==> #[trigger] counts@[order@[k] as int] == c,
                forall|k: int| before.len() <= k < order.len() ==> #[trigger] order@[k] < r,
                forall|k: int, l: int|
                    0 <= k < l < order.len() ==> tested_before(cs, #[trigger] order@[k], #[trigger] order@[l]),
                forall|q: int| 0 <= q < n && counts@[q] > c ==> #[trigger] before.contains(q as usize),
                forall|q: int|
                    0 <= q < r && counts@[q] == c ==> #[trigger] order@.contains(q as usize),
            decreases n - r,
        {
            if counts[r] == c {
                proof {
                    assert forall|k: int| 0 <= k < order.len() implies tested_before(
                        cs,
                        #[trigger] order@[k],
                        r,
                    ) by {
                        if k < before.len() {
                            assert(counts@[before[k] as int] > c);
                        }
                    }
                }
                let ghost prev = order@;
                order.push(r);
                proof {
                    assert(order@ == prev.push(r));
                    assert forall|k: int| before.len() <= k < order.len() implies #[trigger] counts@[
                        order@[k] as int] == c by {
                        if k < prev.len() {
                            assert(order@[k] == prev[k]);
                        }
                    }
                    assert forall|q: int|
                        0 <= q < r + 1 && counts@[q] == c implies #[trigger] order@.contains(
                        q as usize,
                    ) by {
                        if q < r {
                            assert(prev.contains(q as usize));
                            let w = choose|w: int| 0 <= w < prev.len() && prev[w] == q as usize;
                            assert(order@[w] == q as usize);
                        } else {
                            assert(order@[order.len() - 1] == q as usize);
                        }
                    }
                    assert forall|q: int| 0 <= q < n && counts@[q] > c implies #[trigger] before.contains(
                        q as usize,
                    ) by {}
                }
            }
            r = r + 1;
        }
        proof {
            assert forall|q: int| 0 <= q < n && counts@[q] >= c implies #[trigger] order@.contains(
                q as usize,
            ) by {
                if counts@[q] > c {
                    assert(before.contains(q as usize));
                    let w = choose|w: int| 0 <= w < before.len() && before[w] == q as usize;
                    assert(order@[w] == q as usize);
                }
            }
            assert forall|k: int| 0 <= k < order.len() implies #[trigger] counts@[order@[k] as int]
                >= c by {
                if k < before.len() {
                    assert(counts@[before[k] as int] > c);
                }
            }
        }
        level = c;
    }
    proof {
        assert forall|q: int| 0 <= q < n implies #[trigger] order@.contains(q as usize) by {
            assert(counts@[q] >= 0);
        }
        lemma_distinct_indices_len(order@, n as int);
    }
    order
}

/// A sequence of distinct indices below `n` that contains each of them has
/// length `n`.
proof fn lemma_distinct_indices_len(order: Seq<usize>, n: int)
    requires
        0 <= n <= usize::MAX,
        forall|k: int| 0 <= k < order.len() ==> #[trigger] order[k] < n,
        forall|k: int, l: int| 0 <= k < l < order.len() ==> #[trigger] order[k] != #[trigger] order[l],
        forall|q: int| 0 <= q < n ==> #[trigger] order.contains(q as usize),
    ensures
        order.len() == n,
{
    let full = Set::new(|q: usize| 0 <= q < n as usize);
    assert(order.to_set() =~= full) by {
        assert forall|q: usize| order.to_set().contains(q) <==> full.contains(q) by {
            if full.contains(q) {
                assert(order.contains(q as int as usize));
            }
        }
    }
    assert(order.no_duplicates());
    order.unique_seq_to_set();
    <usize as vstd::set_lib::FiniteRange>::range_properties(0, n as usize);
}

impl Pattern {
    /// Validates `grid` and prepares it for matching.
    ///
    /// Cells hold 1 (must be a slime chunk), 0 (must not be one) or 2 (either).
    /// The grid must be non-empty, at most 64 cells wide and 64 rows high, and
    /// rectangular.
    pub fn new(grid: &[Vec<u8>]) -> (result: Result<Pattern, PatternError>)
        ensures
            match result {
                Ok(p) => pattern_error(grid.deep_view()) is None && p.built_from(grid.deep_view())
                    && p.wf(),
                Err(e) => pattern_error(grid.deep_view()) == Some(e),
            },
    {
        let ghost g = grid.deep_view();
        proof {
            if grid@.len() > 0 {
                lemma_row_view(grid, 0);
            }
        }
        if grid.len() == 0 || grid[0].len() == 0 {
            return Err(PatternError::Empty);
        }
        let height = grid.len();
        let width = grid[0].len();
        if width > MAX_PATTERN_SIDE {
            return Err(PatternError::TooWide(width));
        }
        if height > MAX_PATTERN_SIDE {
            return Err(PatternError::TooTall(height));
        }
        let mut i: usize = 0;
        while i < height
            invariant
                i <= height,
                height == grid@.len(),
                g == grid.deep_view(),
                g.len() == height,
                1 <= width <= 64,
                1 <= height <= 64,
                width == g[0].len(),
                forall|j: int| 0 <= j < i ==> row_ok(#[trigger] g[j], width as int),
                rows_error(g, width as int, 0) == rows_error(g, width as int, i as int),
            decreases height - i,
        {
            let row = &grid[i];
            proof {
                lemma_row_view(grid, i as int);
            }
            if row.len() != width {
                return Err(PatternError::RaggedRow(i));
            }
            let mut k: usize = 0;
            while k < width
                invariant
                    k <= width,
                    i < height,
                    g == grid.deep_view(),
                    g.len() == height,
                    1 <= width <= 64,
                    1 <= height <= 64,
                    width == g[0].len(),
                    rows_error(g, width as int, 0) == rows_error(g, width as int, i as int),
                    row@.len() == width,
                    row@ == g[i as int],
                    forall|m: int| 0 <= m < k ==> #[trigger] row@[m] <= 2,
                    first_bad_value(row@, 0) == first_bad_value(row@, k as int),
                decreases width - k,
            {
                let val = row[k];
                if val > 2 {
                    assert(row@[k as int] > 2);
                    assert(!row_ok(g[i as int], width as int));
                    assert(first_bad_value(row@, k as int) == val);
                    return Err(PatternError::BadValue(val));
                }
                k = k + 1;
            }
            proof {
                assert(row_ok(g[i as int], width as int));
            }
            i = i + 1;
        }
        let mut ones: Vec<Vec<usize>> = Vec::new();
        let mut zeros: Vec<Vec<usize>> = Vec::new();
        let mut counts: Vec<usize> = Vec::new();
        let mut original: Vec<Vec<u8>> = Vec::new();
        let mut r: usize = 0;
        while r < height
            invariant
                r <= height,
                height == grid@.len(),
                g == grid.deep_view(),
                width == g[0].len(),
                1 <= width <= 64,
                forall|j: int| 0 <= j < height ==> row_ok(#[trigger] g[j], width as int),
                ones.len() == r,
                zeros.len() == r,
                counts.len() == r,
                original.len() == r,
                forall|j: int| 0 <= j < r ==> #[trigger] ones@[j]@ == positions(g[j], 1),
                forall|j: int| 0 <= j < r ==> #[trigger] zeros@[j]@ == positions(g[j], 0),
                forall|j: int| 0 <= j < r ==> #[trigger] counts@[j] as int == condition_count(g[j]),
                forall|j: int| 0 <= j < r ==> #[trigger] counts@[j] <= 64,
                forall|j: int| 0 <= j < r ==> #[trigger] original@[j]@ == g[j],
            decreases height - r,
        {
            let row = &grid[r];
            proof {
                lemma_row_view(grid, r as int);
            }
            let row_ones = collect_positions(row, 1);
            let row_zeros = collect_positions(row, 0);
            proof {
                lemma_counts_bound(row@);
            }
            let count = row_ones.len() + row_zeros.len();
            ones.push(row_ones);
            zeros.push(row_zeros);
            counts.push(count);
            original.push(copy_row(row));
            r = r + 1;
        }
        let row_order = order_rows(&counts);
        let ghost cs = Seq::new(g.len(), |j: int| condition_count(g[j]));
        proof {
            assert(Seq::new(counts@.len(), |j: int| counts@[j] as int) =~= cs);
            assert forall|j: int| 0 <= j < height implies #[trigger] original.deep_view()[j] == g[j] by {
                assert(original@[j].deep_view() =~= original@[j]@);
            }
            assert(original.deep_view() =~= g);
            assert forall|j: int, k: int|
                0 <= j < height && 0 <= k < ones@[j]@.len() implies #[trigger] ones@[j]@[k]
                < width by {
                lemma_positions_bound(g[j], 1);
            }
            assert forall|j: int, k: int|
                0 <= j < height && 0 <= k < zeros@[j]@.len() implies #[trigger] zeros@[j]@[k]
                < width by {
                lemma_positions_bound(g[j], 0);
            }
            lemma_rows_ok_no_error(g, width as int, 0);
        }
        Ok(Pattern { width, height, original, ones, zeros, row_order })
    }
}

/// Row `i` of a grid, seen through the grid's deep view.
proof fn lemma_row_view(grid: &[Vec<u8>], i: int)
    requires
        0 <= i < grid@.len(),
    ensures
        grid.deep_view().len() == grid@.len(),
        grid.deep_view()[i] == grid@[i]@,
{
    assert(grid@[i].deep_view() =~= grid@[i]@);
}

proof fn lemma_rows_ok_no_error(g: Seq<Seq<u8>>, width: int, i: int)
    requires
        0 <= i,
        forall|j: int| 0 <= j < g.len() ==> row_ok(#[trigger] g[j], width),
    ensures
        rows_error(g, width, i) is None,
    decreases g.len() - i,
{
    if i < g.len() {
        lemma_rows_ok_no_error(g, width, i + 1);
    }
}

/// A copy of a row of cells.
fn copy_row(row: &Vec<u8>) -> (r: Vec<u8>)
    ensures
        r@ == row@,
{
    let mut out: Vec<u8> = Vec::new();
    let mut k: usize = 0;
    while k < row.len()
        invariant
            k <= row@.len(),
            out@ == row@.take(k as int),
        decreases row@.len() - k,
    {
        out.push(row[k]);
        k = k + 1;
        proof {
            assert(out@ =~= row@.take(k as int));
        }
    }
    proof {
        assert(row@.take(k as int) =~= row@);
    }
    out
}

/// The message of a pattern error.
pub open spec fn error_text(e: PatternError) -> Seq<char> {
    match e {
        PatternError::Empty => "图案矩阵不能为空"@,
        PatternError::TooWide(w) => "图案宽度不能超过 64，当前为 "@ + int_text(w as int),
        PatternError::TooTall(h) => "图案高度不能超过 64，当前为 "@ + int_text(h as int),
        PatternError::RaggedRow(i) => "图案第 "@ + int_text(i as int) + " 行长度不一致"@,
        PatternError::BadValue(v) => "图案值只能是 0, 1 或 2，发现 "@ + int_text(v as int),
    }
}

impl PatternError {
    /// The message that reports the error.
    pub fn message(&self) -> (r: String)
        ensures
            r@ == error_text(*self),
    {
        let mut s = String::new();
        match *self {
            PatternError::Empty => {
                push_str(&mut s, "图案矩阵不能为空");
            },
            PatternError::TooWide(w) => {
                push_str(&mut s, "图案宽度不能超过 64，当前为 ");
                push_int(&mut s, w as i128);
            },
            PatternError::TooTall(h) => {
                push_str(&mut s, "图案高度不能超过 64，当前为 ");
                push_int(&mut s, h as i128);
            },
            PatternError::RaggedRow(i) => {
                push_str(&mut s, "图案第 ");
                push_int(&mut s, i as i128);
                push_str(&mut s, " 行长度不一致");
            },
            PatternError::BadValue(v) => {
                push_str(&mut s, "图案值只能是 0, 1 或 2，发现 ");
                push_int(&mut s, v as i128);
            },
        }
        proof {
            assert(s@ =~= error_text(*self));
        }
        s
    }
}

/// The offsets of the cells holding `v` are exactly those cells, strictly
/// increasing and inside the row.
proof fn lemma_positions_exact(row: Seq<u8>, v: u8)
    requires
        row.len() <= usize::MAX,
    ensures
        forall|dx: int| 0 <= dx < row.len() ==> (row[dx] == v <==> #[trigger] positions(row, v).contains(dx as usize)),
        forall|j: int, k: int|
            0 <= j < k < positions(row, v).len() ==> #[trigger] positions(row, v)[j] < #[trigger] positions(row, v)[k],
        forall|k: int| 0 <= k < positions(row, v).len() ==> #[trigger] positions(row, v)[k] < row.len(),
    decreases row.len(),
{
    if row.len() > 0 {
        let init = row.drop_last();
        lemma_positions_exact(init, v);
        let p = positions(init, v);
        let last = (row.len() - 1) as usize;
        assert forall|j: int, k: int|
            0 <= j < k < positions(row, v).len() implies #[trigger] positions(row, v)[j] < #[trigger] positions(row, v)[k] by {
            if k < p.len() {
                assert(positions(row, v)[j] == p[j] && positions(row, v)[k] == p[k]);
            } else {
                assert(positions(row, v)[j] == p[j]);
                assert(p[j] < init.len());
            }
        }
        assert forall|k: int| 0 <= k < positions(row, v).len() implies #[trigger] positions(row, v)[k] < row.len() by {
            if k < p.len() {
                assert(positions(row, v)[k] == p[k]);
            }
        }
        assert forall|dx: int| 0 <= dx < row.len() implies (row[dx] == v <==> #[trigger] positions(row, v).contains(dx as usize)) by {
            if dx < row.len() - 1 {
                assert(row[dx] == init[dx]);
                if row.last() == v {
                    if positions(row, v).contains(dx as usize) {
                        let k = choose|k: int| 0 <= k < positions(row, v).len() && positions(row, v)[k] == dx as usize;
                        if k < p.len() {
                            assert(p[k] == dx as usize);
                        }
                    }
                    if p.contains(dx as usize) {
                        let k = choose|k: int| 0 <= k < p.len() && p[k] == dx as usize;
                        assert(positions(row, v)[k] == dx as usize);
                    }
                }
            } else {
                if row.last() == v {
                    assert(positions(row, v)[p.len() as int] == last);
                } else {
                    if p.contains(dx as usize) {
                        let k = choose|k: int| 0 <= k < p.len() && p[k] == dx as usize;
                        assert(p[k] < init.len());
                    }
                }
            }
        }
    }
}

/// Rows from `i` on that the check accepts are all `width` long.
proof fn lemma_rows_have_width(grid: Seq<Seq<u8>>, width: int, i: int)
    requires
        0 <= i,
        rows_error(grid, width, i) is None,
    ensures
        forall|j: int| i <= j < grid.len() ==> #[trigger] grid[j].len() == width,
    decreases grid.len() - i,
{
    if i < grid.len() {
        lemma_rows_have_width(grid, width, i + 1);
    }
}

/// What a pattern built from a valid `grid` holds: for every cell, its offset is
/// listed among the 1-cells of its row exactly when the cell holds 1, and
/// among the 0-cells exactly when it holds 0; each list of offsets is
/// strictly increasing; the row order lists every row once, and the number
/// of conditions never grows along it.
pub proof fn lemma_pattern_cells(p: Pattern, grid: Seq<Seq<u8>>)
    requires
        pattern_error(grid) is None,
        p.built_from(grid),
    ensures
        forall|dy: int, dx: int|
            0 <= dy < grid.len() && 0 <= dx < grid[dy].len() ==> ((grid[dy][dx] == 1) <==> #[trigger] p.ones@[dy]@.contains(dx as usize)),
        forall|dy: int, dx: int|
            0 <= dy < grid.len() && 0 <= dx < grid[dy].len() ==> ((grid[dy][dx] == 0) <==> #[trigger] p.zeros@[dy]@.contains(dx as usize)),
        forall|dy: int, j: int, k: int|
            0 <= dy < grid.len() && 0 <= j < k < p.ones@[dy]@.len() ==> #[trigger] p.ones@[dy]@[j] < #[trigger] p.ones@[dy]@[k],
        forall|dy: int, j: int, k: int|
            0 <= dy < grid.len() && 0 <= j < k < p.zeros@[dy]@.len() ==> #[trigger] p.zeros@[dy]@[j] < #[trigger] p.zeros@[dy]@[k],
        p.row_order@.len() == grid.len(),
        p.row_order@.no_duplicates(),
        forall|r: int| 0 <= r < grid.len() ==> #[trigger] p.row_order@.contains(r as usize),
        forall|k: int, l: int|
            0 <= k < l < grid.len() ==> condition_count(grid[#[trigger] p.row_order@[l] as int]) <= condition_count(
                grid[#[trigger] p.row_order@[k] as int],
            ),
{
    let counts = Seq::new(grid.len(), |r: int| condition_count(grid[r]));
    lemma_rows_have_width(grid, grid[0].len() as int, 0);
    assert forall|dy: int, dx: int|
        0 <= dy < grid.len() && 0 <= dx < grid[dy].len() implies ((grid[dy][dx] == 1) <==> #[trigger] p.ones@[dy]@.contains(dx as usize)) by {
        assert(p.ones@[dy]@ == positions(grid[dy], 1));
        lemma_positions_exact(grid[dy], 1);
    }
    assert forall|dy: int, dx: int|
        0 <= dy < grid.len() && 0 <= dx < grid[dy].len() implies ((grid[dy][dx] == 0) <==> #[trigger] p.zeros@[dy]@.contains(dx as usize)) by {
        assert(p.zeros@[dy]@ == positions(grid[dy], 0));
        lemma_positions_exact(grid[dy], 0);
    }
    assert forall|dy: int, j: int, k: int|
        0 <= dy < grid.len() && 0 <= j < k < p.ones@[dy]@.len() implies #[trigger] p.ones@[dy]@[j] < #[trigger] p.ones@[dy]@[k] by {
        assert(p.ones@[dy]@ == positions(grid[dy], 1));
        lemma_positions_exact(grid[dy], 1);
    }
    assert forall|dy: int, j: int, k: int|
        0 <= dy < grid.len() && 0 <= j < k < p.zeros@[dy]@.len() implies #[trigger] p.zeros@[dy]@[j] < #[trigger] p.zeros@[dy]@[k] by {
        assert(p.zeros@[dy]@ == positions(grid[dy], 0));
        lemma_positions_exact(grid[dy], 0);
    }
    assert forall|k: int, l: int| 0 <= k < l < p.row_order@.len() implies p.row_order@[k] != p.row_order@[l] by {
        assert(tested_before(counts, p.row_order@[k], p.row_order@[l]));
    }
    assert forall|k: int, l: int|
        0 <= k < l < grid.len() implies condition_count(grid[#[trigger] p.row_order@[l] as int]) <= condition_count(
            grid[#[trigger] p.row_order@[k] as int],
        ) by {
        assert(tested_before(counts, p.row_order@[k], p.row_order@[l]));
    }
}

} // verus!
