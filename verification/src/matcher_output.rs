//! The result table of a pattern search: the matches ordered by distance to
//! the centre, one aligned row each.
use vstd::prelude::*;
use vstd::string::StrSliceExecFns;
use crate::text::{int_text, pad_left, spaces, text_len, push_str, push_int, push_spaces, push_char, int_text_length};

verus! {

/// Distance of a match to the centre along the axes: `|x - cx| + |z - cz|`.
pub open spec fn manhattan(p: (i32, i32), cx: i32, cz: i32) -> int {
    let dx = p.0 - cx;
    let dz = p.1 - cz;
    (if dx < 0 { -dx } else { dx }) + (if dz < 0 { -dz } else { dz })
}

/// `e` put into `s` after every element whose distance is not larger.
pub open spec fn insert_by_distance(s: Seq<(i32, i32)>, e: (i32, i32), cx: i32, cz: i32) -> Seq<(i32, i32)>
    decreases s.len(),
{
    if s.len() == 0 {
        seq![e]
    } else if manhattan(s.last(), cx, cz) <= manhattan(e, cx, cz) {
        s.push(e)
    } else {
        insert_by_distance(s.drop_last(), e, cx, cz).push(s.last())
    }
}

/// `s` ordered by distance to the centre, matches at equal distance kept in
/// their order: the stable sort by distance.
pub open spec fn sort_by_distance(s: Seq<(i32, i32)>, cx: i32, cz: i32) -> Seq<(i32, i32)>
    decreases s.len(),
{
    if s.len() == 0 {
        s
    } else {
        insert_by_distance(sort_by_distance(s.drop_last(), cx, cz), s.last(), cx, cz)
    }
}

/// Larger of two integers.
pub open spec fn max_int(a: int, b: int) -> int {
    if a >= b {
        a
    } else {
        b
    }
}

/// Widest chunk coordinate among the first `n` matches.
pub open spec fn chunk_width(s: Seq<(i32, i32)>, n: int) -> int
    decreases n,
{
    if n <= 0 {
        0
    } else {
        max_int(chunk_width(s, n - 1), max_int(text_len(s[n - 1].0 as int), text_len(s[n - 1].1 as int)))
    }
}

/// Widest world coordinate among the first `n` matches: `16x`, `16x + 16`,
/// `16z` and `16z + 16`.
pub open spec fn world_width(s: Seq<(i32, i32)>, n: int) -> int
    decreases n,
{
    if n <= 0 {
        0
    } else {
        let x = s[n - 1].0 * 16;
        let z = s[n - 1].1 * 16;
        max_int(
            world_width(s, n - 1),
            max_int(max_int(text_len(x), text_len(x + 16)), max_int(text_len(z), text_len(z + 16))),
        )
    }
}

/// Widest distance among the first `n` matches.
pub open spec fn distance_width(s: Seq<(i32, i32)>, n: int, cx: i32, cz: i32) -> int
    decreases n,
{
    if n <= 0 {
        0
    } else {
        max_int(distance_width(s, n - 1, cx, cz), text_len(manhattan(s[n - 1], cx, cz)))
    }
}

/// The opening of a table line: the row number out of the total and the
/// chunk.
pub open spec fn line_head(idx: Seq<char>, total: Seq<char>, x: Seq<char>, z: Seq<char>, iw: int, cw: int) -> Seq<char> {
    "["@ + pad_left(idx, iw) + "/"@ + total + "]  ("@ + pad_left(x, cw) + ", "@ + pad_left(z, cw) + ")  =>  x:["@
}

/// The middle of a table line: the chunk's world ranges.
pub open spec fn line_world(wx0: Seq<char>, wx1: Seq<char>, wz0: Seq<char>, wz1: Seq<char>, ww: int) -> Seq<char> {
    pad_left(wx0, ww) + ", "@ + pad_left(wx1, ww) + ") z:["@ + pad_left(wz0, ww) + ", "@ + pad_left(wz1, ww)
}

/// The end of a table line: the distance.
pub open spec fn line_tail(d: Seq<char>, dw: int) -> Seq<char> {
    ")  距离: "@ + pad_left(d, dw) + " 区块\n"@
}

/// One line of the table: the row number out of the total, the chunk, the
/// chunk's world ranges and its distance, each right-aligned in its column.
pub open spec fn table_line(
    idx: Seq<char>,
    total: Seq<char>,
    x: Seq<char>,
    z: Seq<char>,
    wx0: Seq<char>,
    wx1: Seq<char>,
    wz0: Seq<char>,
    wz1: Seq<char>,
    d: Seq<char>,
    iw: int,
    cw: int,
    ww: int,
    dw: int,
) -> Seq<char> {
    line_head(idx, total, x, z, iw, cw) + line_world(wx0, wx1, wz0, wz1, ww) + line_tail(d, dw)
}

/// The line of match `k` of the sorted list `s`.
pub open spec fn match_line(s: Seq<(i32, i32)>, k: int, cx: i32, cz: i32, iw: int, cw: int, ww: int, dw: int) -> Seq<char> {
    let (x, z) = s[k];
    table_line(
        int_text(k + 1),
        int_text(s.len() as int),
        int_text(x as int),
        int_text(z as int),
        int_text(x * 16),
        int_text(x * 16 + 16),
        int_text(z * 16),
        int_text(z * 16 + 16),
        int_text(manhattan(s[k], cx, cz)),
        iw,
        cw,
        ww,
        dw,
    )
}

/// The lines of the first `n` matches of the sorted list `s`.
pub open spec fn match_lines(s: Seq<(i32, i32)>, n: int, cx: i32, cz: i32, iw: int, cw: int, ww: int, dw: int) -> Seq<char>
    decreases n,
{
    if n <= 0 {
        Seq::empty()
    } else {
        match_lines(s, n - 1, cx, cz, iw, cw, ww, dw) + match_line(s, n - 1, cx, cz, iw, cw, ww, dw)
    }
}

/// `n` dashes.
pub open spec fn dashes(n: int) -> Seq<char> {
    Seq::new(if n > 0 { n as nat } else { 0 }, |i: int| '-')
}

/// The result table of the matches `m` around the centre `(cx, cz)`.
pub open spec fn results_text(m: Seq<(i32, i32)>, cx: i32, cz: i32) -> Seq<char> {
    if m.len() == 0 {
        "[Result]\n"@ + "未找到匹配的图案\n"@
    } else {
        let s = sort_by_distance(m, cx, cz);
        let n = s.len() as int;
        let iw = text_len(n);
        let cw = chunk_width(s, n);
        let ww = world_width(s, n);
        let dw = distance_width(s, n, cx, cz);
        let line_len = iw * 2 + 5 + cw * 2 + 6 + 4 + 3 + ww * 2 + 3 + 3 + ww * 2 + 3 + 7 + dw + 4;
        "[Result]\n"@ + "找到 "@ + int_text(n) + " 个匹配（按距离中心排序）：\n\n"@ + table_line(
            "序"@,
            "总数"@,
            "区块X"@,
            "区块Z"@,
            "世界X"@,
            "世界X+"@,
            "世界Z"@,
            "世界Z+"@,
            "距离"@,
            iw,
            cw,
            ww,
            dw,
        ) + dashes(line_len) + "\n"@ + match_lines(s, n, cx, cz, iw, cw, ww, dw) + "\n"@
    }
}

/// The line of match `p` can be written without overflow: the offsets to
/// the centre, their absolute values and sum, and the world coordinates
/// `16x .. 16x + 16` and `16z .. 16z + 16` are `i32` values.
pub open spec fn fits_one(p: (i32, i32), cx: i32, cz: i32) -> bool {
    &&& i32::MIN < p.0 - cx <= i32::MAX
    &&& i32::MIN < p.1 - cz <= i32::MAX
    &&& manhattan(p, cx, cz) <= i32::MAX
    &&& i32::MIN <= p.0 * 16
    &&& p.0 * 16 + 16 <= i32::MAX
    &&& i32::MIN <= p.1 * 16
    &&& p.1 * 16 + 16 <= i32::MAX
}

/// Every line of the table can be written without overflow.
pub open spec fn results_fit(m: Seq<(i32, i32)>, cx: i32, cz: i32) -> bool {
    forall|k: int| 0 <= k < m.len() ==> fits_one(#[trigger] m[k], cx, cz)
}

proof fn lemma_insert_facts(s: Seq<(i32, i32)>, e: (i32, i32), cx: i32, cz: i32)
    requires
        results_fit(s, cx, cz),
        fits_one(e, cx, cz),
    ensures
        insert_by_distance(s, e, cx, cz).len() == s.len() + 1,
        results_fit(insert_by_distance(s, e, cx, cz), cx, cz),
    decreases s.len(),
{
    if s.len() > 0 && manhattan(s.last(), cx, cz) > manhattan(e, cx, cz) {
        lemma_insert_facts(s.drop_last(), e, cx, cz);
        let t = insert_by_distance(s.drop_last(), e, cx, cz);
        assert forall|k: int| 0 <= k < t.push(s.last()).len() implies fits_one(#[trigger] t.push(s.last())[k], cx, cz) by {
            if k < t.len() {
                assert(fits_one(t[k], cx, cz));
            } else {
                assert(fits_one(s[s.len() - 1], cx, cz));
            }
        }
    } else if s.len() > 0 {
        assert forall|k: int| 0 <= k < s.push(e).len() implies fits_one(#[trigger] s.push(e)[k], cx, cz) by {
            if k < s.len() {
                assert(fits_one(s[k], cx, cz));
            }
        }
    } else {
        assert forall|k: int| 0 <= k < seq![e].len() implies fits_one(#[trigger] seq![e][k], cx, cz) by {}
    }
}

proof fn lemma_sort_facts(s: Seq<(i32, i32)>, cx: i32, cz: i32)
    requires
        results_fit(s, cx, cz),
    ensures
        sort_by_distance(s, cx, cz).len() == s.len(),
        results_fit(sort_by_distance(s, cx, cz), cx, cz),
    decreases s.len(),
{
    if s.len() > 0 {
        let d = s.drop_last();
        assert forall|k: int| 0 <= k < d.len() implies fits_one(#[trigger] d[k], cx, cz) by {
            assert(fits_one(s[k], cx, cz));
        }
        lemma_sort_facts(d, cx, cz);
        assert(fits_one(s[s.len() - 1], cx, cz));
        lemma_insert_facts(sort_by_distance(d, cx, cz), s.last(), cx, cz);
    }
}

/// Distance of a match to the centre along the axes.
fn distance_of(p: (i32, i32), cx: i32, cz: i32) -> (d: i32)
    requires
        fits_one(p, cx, cz),
    ensures
        d == manhattan(p, cx, cz),
{
    let dx = p.0 - cx;
    let dz = p.1 - cz;
    let ax = if dx < 0 {
        -dx
    } else {
        dx
    };
    let az = if dz < 0 {
        -dz
    } else {
        dz
    };
    ax + az
}

/// The matches ordered by distance to the centre, stably.
fn sort_matches(matches: &[(i32, i32)], cx: i32, cz: i32) -> (r: Vec<(i32, i32)>)
    requires
        results_fit(matches@, cx, cz),
    ensures
        r@ == sort_by_distance(matches@, cx, cz),
{
    let mut out: Vec<(i32, i32)> = Vec::new();
    let mut i: usize = 0;
    proof {
        assert(matches@.take(0) =~= Seq::<(i32, i32)>::empty());
    }
    while i < matches.len()
        invariant
            results_fit(matches@, cx, cz),
            i <= matches@.len(),
            out@ == sort_by_distance(matches@.take(i as int), cx, cz),
            results_fit(out@, cx, cz),
        decreases matches@.len() - i,
    {
        let e = matches[i];
        let de = distance_of(e, cx, cz);
        let mut j: usize = out.len();
        let ghost s = out@;
        proof {
            assert(s.take(j as int) =~= s);
            assert(insert_by_distance(s, e, cx, cz) + s.skip(j as int) =~= insert_by_distance(s, e, cx, cz));
        }
        while j > 0 && distance_of(out[j - 1], cx, cz) > de
            invariant
                results_fit(out@, cx, cz),
                s == out@,
                fits_one(e, cx, cz),
                de == manhattan(e, cx, cz),
                j <= s.len(),
                insert_by_distance(s, e, cx, cz) == insert_by_distance(s.take(j as int), e, cx, cz) + s.skip(j as int),
            decreases j,
        {
            proof {
                let t = s.take(j as int);
                assert(t.drop_last() =~= s.take(j - 1));
                assert(t.last() == s[j - 1]);
                assert(seq![s[j - 1]] + s.skip(j as int) =~= s.skip(j - 1));
                assert(insert_by_distance(t, e, cx, cz) == insert_by_distance(s.take(j - 1), e, cx, cz).push(s[j - 1]));
                assert(insert_by_distance(s.take(j - 1), e, cx, cz).push(s[j - 1]) + s.skip(j as int)
                    =~= insert_by_distance(s.take(j - 1), e, cx, cz) + s.skip(j - 1));
            }
            j = j - 1;
        }
        proof {
            let t = s.take(j as int);
            if j > 0 {
                assert(t.last() == s[j - 1]);
                assert(insert_by_distance(t, e, cx, cz) == t.push(e));
            } else {
                assert(t =~= Seq::<(i32, i32)>::empty());
            }
            assert(insert_by_distance(s.take(j as int), e, cx, cz) + s.skip(j as int) =~= s.insert(j as int, e));
            assert(matches@.take(i + 1).drop_last() =~= matches@.take(i as int));
            assert(matches@.take(i + 1).last() == e);
            assert forall|k: int| 0 <= k < matches@.take(i as int).len() implies fits_one(#[trigger] matches@.take(i as int)[k], cx, cz) by {
                assert(matches@.take(i as int)[k] == matches@[k]);
            }
            lemma_insert_facts(s, e, cx, cz);
        }
        out.insert(j, e);
        i = i + 1;
    }
    proof {
        assert(matches@.take(matches@.len() as int) =~= matches@);
    }
    out
}

/// Appends the decimal text of `v` right-aligned in `width` characters.
fn push_padded_int(s: &mut String, v: i128, width: usize)
    requires
        v > i128::MIN,
    ensures
        final(s)@ == old(s)@ + pad_left(int_text(v as int), width as int),
{
    let l = int_text_length(v);
    if width > l {
        push_spaces(s, width - l);
    } else {
        proof {
            assert(spaces(width - l) =~= Seq::<char>::empty());
        }
    }
    let ghost mid = s@;
    push_int(s, v);
    proof {
        if width > l {
            assert(s@ =~= old(s)@ + pad_left(int_text(v as int), width as int));
        } else {
            assert(s@ =~= old(s)@ + pad_left(int_text(v as int), width as int));
        }
    }
}

/// Appends `t` right-aligned in `width` characters.
fn push_padded_str(s: &mut String, t: &str, width: usize)
    ensures
        final(s)@ == old(s)@ + pad_left(t@, width as int),
{
    let l = t.unicode_len();
    if width > l {
        push_spaces(s, width - l);
    } else {
        proof {
            assert(spaces(width - l) =~= Seq::<char>::empty());
        }
    }
    push_str(s, t);
    proof {
        assert(s@ =~= old(s)@ + pad_left(t@, width as int));
    }
}

/// Appends the header line of the table.
fn push_header_line(s: &mut String, iw: usize, cw: usize, ww: usize, dw: usize)
    ensures
        final(s)@ == old(s)@ + table_line(
            "序"@,
            "总数"@,
            "区块X"@,
            "区块Z"@,
            "世界X"@,
            "世界X+"@,
            "世界Z"@,
            "世界Z+"@,
            "距离"@,
            iw as int,
            cw as int,
            ww as int,
            dw as int,
        ),
{
    let ghost start = s@;
    push_str(s, "[");
    push_padded_str(s, "序", iw);
    push_str(s, "/");
    push_str(s, "总数");
    push_str(s, "]  (");
    push_padded_str(s, "区块X", cw);
    push_str(s, ", ");
    push_padded_str(s, "区块Z", cw);
    push_str(s, ")  =>  x:[");
    proof {
        assert(s@ =~= start + line_head("序"@, "总数"@, "区块X"@, "区块Z"@, iw as int, cw as int));
    }
    let ghost mid1 = s@;
    push_padded_str(s, "世界X", ww);
    push_str(s, ", ");
    push_padded_str(s, "世界X+", ww);
    push_str(s, ") z:[");
    push_padded_str(s, "世界Z", ww);
    push_str(s, ", ");
    push_padded_str(s, "世界Z+", ww);
    proof {
        assert(s@ =~= mid1 + line_world("世界X"@, "世界X+"@, "世界Z"@, "世界Z+"@, ww as int));
    }
    let ghost mid2 = s@;
    push_str(s, ")  距离: ");
    push_padded_str(s, "距离", dw);
    push_str(s, " 区块\n");
    proof {
        assert(s@ =~= mid2 + line_tail("距离"@, dw as int));
        assert(s@ =~= start + table_line(
            "序"@,
            "总数"@,
            "区块X"@,
            "区块Z"@,
            "世界X"@,
            "世界X+"@,
            "世界Z"@,
            "世界Z+"@,
            "距离"@,
            iw as int,
            cw as int,
            ww as int,
            dw as int,
        ));
    }
}

/// Appends the opening of a table line.
fn push_line_head(s: &mut String, idx: i128, total: i128, x: i128, z: i128, iw: usize, cw: usize)
    requires
        idx > i128::MIN,
        total > i128::MIN,
        x > i128::MIN,
        z > i128::MIN,
    ensures
        final(s)@ == old(s)@ + line_head(int_text(idx as int), int_text(total as int), int_text(x as int), int_text(z as int), iw as int, cw as int),
{
    push_str(s, "[");
    push_padded_int(s, idx, iw);
    push_str(s, "/");
    push_int(s, total);
    push_str(s, "]  (");
    push_padded_int(s, x, cw);
    push_str(s, ", ");
    push_padded_int(s, z, cw);
    push_str(s, ")  =>  x:[");
    proof {
        assert(s@ =~= old(s)@ + line_head(int_text(idx as int), int_text(total as int), int_text(x as int), int_text(z as int), iw as int, cw as int));
    }
}

/// Appends the world ranges of a table line.
fn push_line_world(s: &mut String, wx0: i128, wx1: i128, wz0: i128, wz1: i128, ww: usize)
    requires
        wx0 > i128::MIN,
        wx1 > i128::MIN,
        wz0 > i128::MIN,
        wz1 > i128::MIN,
    ensures
        final(s)@ == old(s)@ + line_world(int_text(wx0 as int), int_text(wx1 as int), int_text(wz0 as int), int_text(wz1 as int), ww as int),
{
    push_padded_int(s, wx0, ww);
    push_str(s, ", ");
    push_padded_int(s, wx1, ww);
    push_str(s, ") z:[");
    push_padded_int(s, wz0, ww);
    push_str(s, ", ");
    push_padded_int(s, wz1, ww);
    proof {
        assert(s@ =~= old(s)@ + line_world(int_text(wx0 as int), int_text(wx1 as int), int_text(wz0 as int), int_text(wz1 as int), ww as int));
    }
}

/// Appends the distance at the end of a table line.
fn push_line_tail(s: &mut String, d: i128, dw: usize)
    requires
        d > i128::MIN,
    ensures
        final(s)@ == old(s)@ + line_tail(int_text(d as int), dw as int),
{
    push_str(s, ")  距离: ");
    push_padded_int(s, d, dw);
    push_str(s, " 区块\n");
    proof {
        assert(s@ =~= old(s)@ + line_tail(int_text(d as int), dw as int));
    }
}

/// Appends the line of match `k` of the sorted list.
fn push_match_line(
    s: &mut String,
    sorted: &Vec<(i32, i32)>,
    k: usize,
    cx: i32,
    cz: i32,
    iw: usize,
    cw: usize,
    ww: usize,
    dw: usize,
)
    requires
        k < sorted@.len(),
        fits_one(sorted@[k as int], cx, cz),
    ensures
        final(s)@ == old(s)@ + match_line(sorted@, k as int, cx, cz, iw as int, cw as int, ww as int, dw as int),
{
    let ghost start = s@;
    let (x, z) = sorted[k];
    let wx_start = x * 16;
    let wz_start = z * 16;
    let distance = distance_of(sorted[k], cx, cz);
    push_line_head(s, k as i128 + 1, sorted.len() as i128, x as i128, z as i128, iw, cw);
    push_line_world(s, wx_start as i128, (wx_start + 16) as i128, wz_start as i128, (wz_start + 16) as i128, ww);
    push_line_tail(s, distance as i128, dw);
    proof {
        assert(s@ =~= start + match_line(sorted@, k as int, cx, cz, iw as int, cw as int, ww as int, dw as int));
    }
}

/// The column widths of the sorted list: chunk coordinates, world
/// coordinates and distances.
fn column_widths(sorted: &Vec<(i32, i32)>, cx: i32, cz: i32) -> (r: (usize, usize, usize))
    requires
        results_fit(sorted@, cx, cz),
    ensures
        r.0 as int == chunk_width(sorted@, sorted@.len() as int),
        r.1 as int == world_width(sorted@, sorted@.len() as int),
        r.2 as int == distance_width(sorted@, sorted@.len() as int, cx, cz),
        r.0 <= 40,
        r.1 <= 40,
        r.2 <= 40,
{
    let mut cw: usize = 0;
    let mut ww: usize = 0;
    let mut dw: usize = 0;
    let mut k: usize = 0;
    while k < sorted.len()
        invariant
            results_fit(sorted@, cx, cz),
            k <= sorted@.len(),
            cw as int == chunk_width(sorted@, k as int),
            ww as int == world_width(sorted@, k as int),
            dw as int == distance_width(sorted@, k as int, cx, cz),
            cw <= 40,
            ww <= 40,
            dw <= 40,
        decreases sorted@.len() - k,
    {
        let (x, z) = sorted[k];
        proof {
            assert(fits_one(sorted@[k as int], cx, cz));
            crate::text::lemma_int_text_len_bound(x as int);
            crate::text::lemma_int_text_len_bound(z as int);
            crate::text::lemma_int_text_len_bound(x * 16);
            crate::text::lemma_int_text_len_bound(x * 16 + 16);
            crate::text::lemma_int_text_len_bound(z * 16);
            crate::text::lemma_int_text_len_bound(z * 16 + 16);
            crate::text::lemma_int_text_len_bound(manhattan(sorted@[k as int], cx, cz));
        }
        let lx = int_text_length(x as i128);
        let lz = int_text_length(z as i128);
        let c = if lx >= lz {
            lx
        } else {
            lz
        };
        if c > cw {
            cw = c;
        }
        let wx_start = x * 16;
        let wz_start = z * 16;
        let l1 = int_text_length(wx_start as i128);
        let l2 = int_text_length((wx_start + 16) as i128);
        let l3 = int_text_length(wz_start as i128);
        let l4 = int_text_length((wz_start + 16) as i128);
        let a = if l1 >= l2 {
            l1
        } else {
            l2
        };
        let b = if l3 >= l4 {
            l3
        } else {
            l4
        };
        let w = if a >= b {
            a
        } else {
            b
        };
        if w > ww {
            ww = w;
        }
        let d = int_text_length(distance_of(sorted[k], cx, cz) as i128);
        if d > dw {
            dw = d;
        }
        k = k + 1;
    }
    (cw, ww, dw)
}

/// The result table of a pattern search: `[Result]`, then either a line
/// saying that nothing was found, or the number of matches, a header, a
/// rule of dashes as long as the header's fields, and one line per match
/// ordered by distance to the centre (stably), each field right-aligned to
/// the widest value of its column, and a closing empty line.
pub fn format_results(matches: &[(i32, i32)], center_x: i32, center_z: i32) -> (r: String)
    requires
        results_fit(matches@, center_x, center_z),
    ensures
        r@ == results_text(matches@, center_x, center_z),
{
    let mut s = String::new();
    push_str(&mut s, "[Result]\n");
    if matches.len() == 0 {
        push_str(&mut s, "未找到匹配的图案\n");
        proof {
            assert(s@ =~= results_text(matches@, center_x, center_z));
        }
        return s;
    }
    let sorted = sort_matches(matches, center_x, center_z);
    proof {
        lemma_sort_facts(matches@, center_x, center_z);
    }
    let total = sorted.len();
    proof {
        crate::text::lemma_int_text_len_bound(total as int);
    }
    let idx_width = int_text_length(total as i128);
    let (chunk_coord_width, world_coord_width, distance_width) = column_widths(&sorted, center_x, center_z);
    let ghost head = s@;
    push_str(&mut s, "找到 ");
    push_int(&mut s, total as i128);
    push_str(&mut s, " 个匹配（按距离中心排序）：\n\n");
    push_header_line(&mut s, idx_width, chunk_coord_width, world_coord_width, distance_width);
    let line_len = idx_width * 2 + 5 + chunk_coord_width * 2 + 6 + 4 + 3 + world_coord_width * 2 + 3 + 3
        + world_coord_width * 2 + 3 + 7 + distance_width + 4;
    let mut k: usize = 0;
    let ghost before_dashes = s@;
    while k < line_len
        invariant
            k <= line_len,
            s@ == before_dashes + dashes(k as int),
        decreases line_len - k,
    {
        push_char(&mut s, '-');
        proof {
            assert(dashes(k as int).push('-') =~= dashes(k + 1));
        }
        k = k + 1;
    }
    push_char(&mut s, '\n');
    let ghost before_lines = s@;
    let mut idx: usize = 0;
    proof {
        assert(s@ =~= before_lines + match_lines(sorted@, 0, center_x, center_z, idx_width as int, chunk_coord_width as int, world_coord_width as int, distance_width as int));
    }
    while idx < total
        invariant
            total == sorted@.len(),
            results_fit(sorted@, center_x, center_z),
            idx <= total,
            s@ == before_lines + match_lines(sorted@, idx as int, center_x, center_z, idx_width as int, chunk_coord_width as int, world_coord_width as int, distance_width as int),
        decreases total - idx,
    {
        push_match_line(&mut s, &sorted, idx, center_x, center_z, idx_width, chunk_coord_width, world_coord_width, distance_width);
        proof {
            assert(s@ =~= before_lines + match_lines(sorted@, idx + 1, center_x, center_z, idx_width as int, chunk_coord_width as int, world_coord_width as int, distance_width as int));
        }
        idx = idx + 1;
    }
    push_char(&mut s, '\n');
    proof {
        assert("\n"@ =~= seq!['\n']) by {
            reveal_strlit("\n");
        }
        assert(s@ =~= results_text(matches@, center_x, center_z));
    }
    s
}

/// The list is ordered by distance to the centre.
pub open spec fn distance_sorted(s: Seq<(i32, i32)>, cx: i32, cz: i32) -> bool {
    forall|i: int, j: int| 0 <= i < j < s.len() ==> manhattan(#[trigger] s[i], cx, cz) <= manhattan(#[trigger] s[j], cx, cz)
}

proof fn lemma_insert_keeps_order(s: Seq<(i32, i32)>, e: (i32, i32), cx: i32, cz: i32)
    requires
        distance_sorted(s, cx, cz),
    ensures
        distance_sorted(insert_by_distance(s, e, cx, cz), cx, cz),
        insert_by_distance(s, e, cx, cz).to_multiset() =~= s.to_multiset().insert(e),
    decreases s.len(),
{
    broadcast use vstd::seq_lib::to_multiset_build, vstd::seq_lib::to_multiset_contains;

    if s.len() == 0 {
        assert(seq![e] =~= Seq::<(i32, i32)>::empty().push(e));
        assert(Seq::<(i32, i32)>::empty().to_multiset() =~= vstd::multiset::Multiset::empty());
    } else if manhattan(s.last(), cx, cz) <= manhattan(e, cx, cz) {
        let t = s.push(e);
        assert forall|i: int, j: int| 0 <= i < j < t.len() implies manhattan(#[trigger] t[i], cx, cz) <= manhattan(#[trigger] t[j], cx, cz) by {
            if j == s.len() {
                if i < s.len() - 1 {
                    assert(manhattan(s[i], cx, cz) <= manhattan(s[s.len() - 1], cx, cz));
                }
            } else {
                assert(manhattan(s[i], cx, cz) <= manhattan(s[j], cx, cz));
            }
        }
    } else {
        let d = s.drop_last();
        let l = s.last();
        assert forall|i: int, j: int| 0 <= i < j < d.len() implies manhattan(#[trigger] d[i], cx, cz) <= manhattan(#[trigger] d[j], cx, cz) by {
            assert(manhattan(s[i], cx, cz) <= manhattan(s[j], cx, cz));
        }
        lemma_insert_keeps_order(d, e, cx, cz);
        let t = insert_by_distance(d, e, cx, cz);
        assert forall|k: int| 0 <= k < t.len() implies manhattan(#[trigger] t[k], cx, cz) <= manhattan(l, cx, cz) by {
            assert(t.to_multiset().count(t[k]) > 0);
            if t[k] != e {
                assert(d.to_multiset().count(t[k]) > 0);
                assert(d.contains(t[k]));
                let m = choose|m: int| 0 <= m < d.len() && d[m] == t[k];
                assert(manhattan(s[m], cx, cz) <= manhattan(s[s.len() - 1], cx, cz));
            }
        }
        let u = t.push(l);
        assert forall|i: int, j: int| 0 <= i < j < u.len() implies manhattan(#[trigger] u[i], cx, cz) <= manhattan(#[trigger] u[j], cx, cz) by {
            if j == t.len() {
                assert(manhattan(t[i], cx, cz) <= manhattan(l, cx, cz));
            } else {
                assert(manhattan(t[i], cx, cz) <= manhattan(t[j], cx, cz));
            }
        }
        assert(s =~= d.push(l));
        assert(u.to_multiset() =~= s.to_multiset().insert(e));
    }
}

proof fn lemma_sort_laws(s: Seq<(i32, i32)>, cx: i32, cz: i32)
    ensures
        distance_sorted(sort_by_distance(s, cx, cz), cx, cz),
        sort_by_distance(s, cx, cz).to_multiset() =~= s.to_multiset(),
    decreases s.len(),
{
    broadcast use vstd::seq_lib::to_multiset_build;

    if s.len() > 0 {
        let d = s.drop_last();
        lemma_sort_laws(d, cx, cz);
        lemma_insert_keeps_order(sort_by_distance(d, cx, cz), s.last(), cx, cz);
        assert(s =~= d.push(s.last()));
    }
}

/// The table lists the matches ordered by distance to the centre, each
/// match as often as it was given: the rows are a reordering of the matches
/// in which distances never decrease.
pub proof fn lemma_table_order(m: Seq<(i32, i32)>, cx: i32, cz: i32)
    ensures
        distance_sorted(sort_by_distance(m, cx, cz), cx, cz),
        sort_by_distance(m, cx, cz).to_multiset() == m.to_multiset(),
{
    lemma_sort_laws(m, cx, cz);
}

} // verus!
