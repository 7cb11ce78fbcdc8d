//! Laws of the result table: what each of its lines says about which match.
use vstd::prelude::*;
use crate::matcher_output::{
    chunk_width, dashes, distance_width, insert_by_distance, manhattan, match_line, match_lines, results_text,
    sort_by_distance,
    table_line, world_width,
};
use crate::text::{int_text, pad_left, text_len};

verus! {

/// Line `k` of the table of the sorted matches `s`, written out: its row
/// number out of `s.len()`, the chunk `s[k]`, the chunk's world square
/// `x:[16x, 16x + 16) z:[16z, 16z + 16)`, and its distance `|x - cx| +
/// |z - cz|` to the centre, each field right-aligned in its column width.
pub open spec fn table_row(s: Seq<(i32, i32)>, k: int, cx: i32, cz: i32, iw: int, cw: int, ww: int, dw: int) -> Seq<char> {
    let x = s[k].0 as int;
    let z = s[k].1 as int;
    let dx = x - cx;
    let dz = z - cz;
    "["@ + pad_left(int_text(k + 1), iw) + "/"@ + int_text(s.len() as int) + "]  ("@ + pad_left(int_text(x), cw) + ", "@
        + pad_left(int_text(z), cw) + ")  =>  x:["@ + (pad_left(int_text(16 * x), ww) + ", "@ + pad_left(
        int_text(16 * x + 16),
        ww,
    ) + ") z:["@ + pad_left(int_text(16 * z), ww) + ", "@ + pad_left(int_text(16 * z + 16), ww)) + (")  距离: "@
        + pad_left(int_text((if dx < 0 { -dx } else { dx }) + (if dz < 0 { -dz } else { dz })), dw) + " 区块\n"@)
}

proof fn lemma_lines_flat(s: Seq<(i32, i32)>, n: int, cx: i32, cz: i32, iw: int, cw: int, ww: int, dw: int)
    requires
        0 <= n <= s.len(),
    ensures
        match_lines(s, n, cx, cz, iw, cw, ww, dw) == Seq::new(
            n as nat,
            |k: int| table_row(s, k, cx, cz, iw, cw, ww, dw),
        ).flatten_alt(),
    decreases n,
{
    let f = Seq::new(n as nat, |k: int| table_row(s, k, cx, cz, iw, cw, ww, dw));
    if n > 0 {
        lemma_lines_flat(s, n - 1, cx, cz, iw, cw, ww, dw);
        assert(f.drop_last() =~= Seq::new((n - 1) as nat, |k: int| table_row(s, k, cx, cz, iw, cw, ww, dw)));
        let x = s[n - 1].0 as int;
        let z = s[n - 1].1 as int;
        assert(x * 16 == 16 * x && z * 16 == 16 * z);
        assert(match_line(s, n - 1, cx, cz, iw, cw, ww, dw) == table_row(s, n - 1, cx, cz, iw, cw, ww, dw));
    } else {
        assert(f.flatten_alt() =~= Seq::<char>::empty());
    }
}

/// The result table of matches `m` around `(cx, cz)`: with no match, a
/// line saying so; otherwise the count, the column titles, a rule, and
/// then [`table_row`] `k` for every match `k` of the matches sorted by
/// distance, in that order.
pub proof fn lemma_table_rows(m: Seq<(i32, i32)>, cx: i32, cz: i32)
    ensures
        m.len() == 0 ==> results_text(m, cx, cz) == "[Result]\n"@ + "未找到匹配的图案\n"@,
        m.len() > 0 ==> {
            let s = sort_by_distance(m, cx, cz);
            let n = s.len() as int;
            let iw = text_len(n);
            let cw = chunk_width(s, n);
            let ww = world_width(s, n);
            let dw = distance_width(s, n, cx, cz);
            let line_len = iw * 2 + 5 + cw * 2 + 6 + 4 + 3 + ww * 2 + 3 + 3 + ww * 2 + 3 + 7 + dw + 4;
            results_text(m, cx, cz) == "[Result]\n"@ + "找到 "@ + int_text(n) + " 个匹配（按距离中心排序）：\n\n"@
                + table_line(
                "序"@,
                "总数"@,
                "区块X"@,
                "区块Z"@,
                "世界X"@,
                "世界X+"@,
                "世界Z"@,
                "世界Z+"@,
                "距离"@,
                iw,
                cw,
                ww,
                dw,
            ) + dashes(line_len) + "\n"@ + Seq::new(n as nat, |k: int| table_row(s, k, cx, cz, iw, cw, ww, dw)).flatten()
                + "\n"@
        },
{
    if m.len() > 0 {
        let s = sort_by_distance(m, cx, cz);
        let n = s.len() as int;
        let iw = text_len(n);
        let cw = chunk_width(s, n);
        let ww = world_width(s, n);
        let dw = distance_width(s, n, cx, cz);
        lemma_lines_flat(s, n, cx, cz, iw, cw, ww, dw);
        Seq::new(n as nat, |k: int| table_row(s, k, cx, cz, iw, cw, ww, dw)).lemma_flatten_and_flatten_alt_are_equivalent();
    }
}

/// The chunk column of the table is as wide as the longest chunk
/// coordinate among the first `n` matches: no coordinate is longer, and
/// one is that long.
pub proof fn lemma_chunk_width_is_widest(s: Seq<(i32, i32)>, n: int)
    requires
        0 <= n <= s.len(),
    ensures
        forall|k: int|
            0 <= k < n ==> text_len(#[trigger] s[k].0 as int) <= chunk_width(s, n) && text_len(s[k].1 as int)
                <= chunk_width(s, n),
        n > 0 ==> exists|k: int|
            0 <= k < n && (chunk_width(s, n) == text_len(#[trigger] s[k].0 as int) || chunk_width(s, n) == text_len(
                s[k].1 as int,
            )),
    decreases n,
{
    if n > 0 {
        lemma_chunk_width_is_widest(s, n - 1);
        let k = n - 1;
        if n > 1 && chunk_width(s, n) == chunk_width(s, n - 1) {
            let m = n - 1;
            assert(exists|j: int|
                0 <= j < m && (chunk_width(s, m) == text_len(#[trigger] s[j].0 as int) || chunk_width(s, m) == text_len(
                    s[j].1 as int,
                )));
        } else {
            assert(chunk_width(s, n) == text_len(s[k].0 as int) || chunk_width(s, n) == text_len(s[k].1 as int)) by {
                if n == 1 {
                    assert(chunk_width(s, 0) == 0);
                    crate::text::lemma_int_text_len_bound(s[k].0 as int);
                }
            }
        }
    }
}

/// The world column of the table is as wide as the longest world
/// coordinate `16x`, `16x + 16`, `16z`, `16z + 16` among the first `n`
/// matches.
pub proof fn lemma_world_width_bounds(s: Seq<(i32, i32)>, n: int)
    requires
        0 <= n <= s.len(),
    ensures
        forall|k: int|
            0 <= k < n ==> {
                &&& text_len(16 * (#[trigger] s[k]).0) <= world_width(s, n)
                &&& text_len(16 * s[k].0 + 16) <= world_width(s, n)
                &&& text_len(16 * s[k].1) <= world_width(s, n)
                &&& text_len(16 * s[k].1 + 16) <= world_width(s, n)
            },
        n > 0 ==> exists|k: int|
            0 <= k < n && (world_width(s, n) == text_len(16 * (#[trigger] s[k]).0) || world_width(s, n) == text_len(
                16 * s[k].0 + 16,
            ) || world_width(s, n) == text_len(16 * s[k].1) || world_width(s, n) == text_len(16 * s[k].1 + 16)),
    decreases n,
{
    if n > 0 {
        lemma_world_width_bounds(s, n - 1);
        let k = n - 1;
        assert(s[k].0 * 16 == 16 * s[k].0 && s[k].1 * 16 == 16 * s[k].1);
        if n > 1 && world_width(s, n) == world_width(s, n - 1) {
            let j = choose|j: int|
                0 <= j < n - 1 && (world_width(s, n - 1) == text_len(16 * (#[trigger] s[j]).0) || world_width(s, n - 1)
                    == text_len(16 * s[j].0 + 16) || world_width(s, n - 1) == text_len(16 * s[j].1) || world_width(
                    s,
                    n - 1,
                ) == text_len(16 * s[j].1 + 16));
            assert(0 <= j < n);
        } else if n == 1 {
            assert(world_width(s, 0) == 0);
            crate::text::lemma_int_text_len_bound(16 * s[k].0);
        }
    }
}

/// The distance column of the table is as wide as the longest distance
/// `|x - cx| + |z - cz|` among the first `n` matches.
pub proof fn lemma_distance_width_bounds(s: Seq<(i32, i32)>, n: int, cx: i32, cz: i32)
    requires
        0 <= n <= s.len(),
    ensures
        forall|k: int| 0 <= k < n ==> text_len(manhattan(#[trigger] s[k], cx, cz)) <= distance_width(s, n, cx, cz),
        n > 0 ==> exists|k: int| 0 <= k < n && distance_width(s, n, cx, cz) == text_len(manhattan(#[trigger] s[k], cx, cz)),
    decreases n,
{
    if n > 0 {
        lemma_distance_width_bounds(s, n - 1, cx, cz);
        if n > 1 && distance_width(s, n, cx, cz) == distance_width(s, n - 1, cx, cz) {
            let j = choose|j: int| 0 <= j < n - 1 && distance_width(s, n - 1, cx, cz) == text_len(
                manhattan(#[trigger] s[j], cx, cz),
            );
            assert(0 <= j < n);
        } else if n == 1 {
            assert(distance_width(s, 0, cx, cz) == 0);
            crate::text::lemma_int_text_len_bound(manhattan(s[0], cx, cz));
        }
    }
}

/// The matches at distance `d` from `(cx, cz)`, in their order in `s`.
pub open spec fn at_distance(s: Seq<(i32, i32)>, d: int, cx: i32, cz: i32) -> Seq<(i32, i32)> {
    s.filter(|e: (i32, i32)| manhattan(e, cx, cz) == d)
}

proof fn lemma_insert_at_distance(s: Seq<(i32, i32)>, e: (i32, i32), d: int, cx: i32, cz: i32)
    ensures
        at_distance(insert_by_distance(s, e, cx, cz), d, cx, cz) == if manhattan(e, cx, cz) == d {
            at_distance(s, d, cx, cz).push(e)
        } else {
            at_distance(s, d, cx, cz)
        },
    decreases s.len(),
{
    let p = |x: (i32, i32)| manhattan(x, cx, cz) == d;
    if s.len() == 0 {
        Seq::<(i32, i32)>::empty().lemma_filter_push(e, p);
        assert(seq![e] =~= Seq::<(i32, i32)>::empty().push(e));
        reveal(Seq::filter);
    } else if manhattan(s.last(), cx, cz) <= manhattan(e, cx, cz) {
        s.lemma_filter_push(e, p);
    } else {
        let dl = s.drop_last();
        lemma_insert_at_distance(dl, e, d, cx, cz);
        insert_by_distance(dl, e, cx, cz).lemma_filter_push(s.last(), p);
        assert(dl.push(s.last()) =~= s);
        dl.lemma_filter_push(s.last(), p);
    }
}

/// The table keeps the input order among matches at the same distance:
/// for every distance `d`, the matches at distance `d` come in the sorted
/// list in the order they have in `m`, as a stable sort leaves them.
pub proof fn lemma_sort_is_stable(m: Seq<(i32, i32)>, d: int, cx: i32, cz: i32)
    ensures
        at_distance(sort_by_distance(m, cx, cz), d, cx, cz) == at_distance(m, d, cx, cz),
    decreases m.len(),
{
    let p = |x: (i32, i32)| manhattan(x, cx, cz) == d;
    if m.len() == 0 {
        assert(sort_by_distance(m, cx, cz) == m);
    } else {
        let dl = m.drop_last();
        lemma_sort_is_stable(dl, d, cx, cz);
        lemma_insert_at_distance(sort_by_distance(dl, cx, cz), m.last(), d, cx, cz);
        assert(dl.push(m.last()) =~= m);
        dl.lemma_filter_push(m.last(), p);
    }
}

} // verus!
