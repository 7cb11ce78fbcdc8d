//! The description of a pattern search: settings, ranges and pattern.
use vstd::prelude::*;
use crate::preprocess::Preprocessed;
use crate::text::{int_text, push_str, push_int, push_char};

verus! {

/// The cells of a pattern row, separated by single spaces.
pub open spec fn row_cells_text(row: Seq<u8>) -> Seq<char>
    decreases row.len(),
{
    if row.len() == 0 {
        Seq::empty()
    } else if row.len() == 1 {
        int_text(row[0] as int)
    } else {
        row_cells_text(row.drop_last()) + " "@ + int_text(row.last() as int)
    }
}

/// The lines of the first `n` pattern rows: `行 <i>: <cells>`.
pub open spec fn pattern_lines(rows: Seq<Seq<u8>>, n: int) -> Seq<char>
    decreases n,
{
    if n <= 0 {
        Seq::empty()
    } else {
        pattern_lines(rows, n - 1) + "行 "@ + int_text(n) + ": "@ + row_cells_text(rows[n - 1]) + "\n"@
    }
}

/// The description of a search: seed, centre chunk and its world square,
/// radius, chunk range, the world range that the pattern reaches, and the
/// pattern's rows.
pub open spec fn info_text(pre: Preprocessed) -> Seq<char> {
    let cx = pre.center_x as int;
    let cz = pre.center_z as int;
    "[Info]\n"@ + "世界种子: "@ + int_text(pre.seed as int) + "\n"@ + "中心区块坐标: ("@ + int_text(cx) + ", "@
        + int_text(cz) + ")\n"@ + "世界坐标: x:["@ + int_text(cx * 16) + ", "@ + int_text(cx * 16 + 16)
        + ") z:["@ + int_text(cz * 16) + ", "@ + int_text(cz * 16 + 16) + ")\n"@ + "扫描半径: "@ + int_text(
        pre.radius as int,
    ) + " chunks\n"@ + "区块坐标范围: x:("@ + int_text(pre.x_start as int) + ", "@ + int_text(pre.x_end as int)
        + ") z:("@ + int_text(pre.z_start as int) + ", "@ + int_text(pre.z_end as int) + ")\n"@
        + "世界坐标范围: x:["@ + int_text(pre.cache_x0 * 16) + ", "@ + int_text((pre.cache_x1 + 1) * 16)
        + ") z:["@ + int_text(pre.cache_z0 * 16) + ", "@ + int_text((pre.cache_z1 + 1) * 16) + ")\n"@
        + "图案:\n"@ + pattern_lines(pre.pattern.original.deep_view(), pre.pattern.original@.len() as int)
}

/// `v` is an `i32` value.
pub open spec fn in_i32(v: int) -> bool {
    i32::MIN <= v <= i32::MAX
}

/// The world coordinates in the description stay in the `i32` range.
pub open spec fn info_fits(pre: Preprocessed) -> bool {
    &&& in_i32(pre.center_x * 16)
    &&& in_i32(pre.center_x * 16 + 16)
    &&& in_i32(pre.center_z * 16)
    &&& in_i32(pre.center_z * 16 + 16)
    &&& in_i32(pre.cache_x0 * 16)
    &&& in_i32(pre.cache_x1 + 1)
    &&& in_i32((pre.cache_x1 + 1) * 16)
    &&& in_i32(pre.cache_z0 * 16)
    &&& in_i32(pre.cache_z1 + 1)
    &&& in_i32((pre.cache_z1 + 1) * 16)
}

/// Appends the cells of a pattern row, separated by single spaces.
fn push_row_cells(s: &mut String, row: &Vec<u8>)
    ensures
        final(s)@ == old(s)@ + row_cells_text(row@),
{
    let mut k: usize = 0;
    while k < row.len()
        invariant
            k <= row@.len(),
            s@ == old(s)@ + row_cells_text(row@.take(k as int)),
        decreases row@.len() - k,
    {
        let ghost before = s@;
        if k > 0 {
            push_char(s, ' ');
        }
        push_int(s, row[k] as i128);
        proof {
            let t = row@.take(k + 1);
            assert(t.drop_last() =~= row@.take(k as int));
            assert(t.last() == row@[k as int]);
            if k > 0 {
                reveal_strlit(" ");
                assert(s@ =~= old(s)@ + row_cells_text(t));
            } else {
                assert(row@.take(0) =~= Seq::<u8>::empty());
                assert(s@ =~= old(s)@ + row_cells_text(t));
            }
        }
        k = k + 1;
    }
    proof {
        assert(row@.take(row@.len() as int) =~= row@);
    }
}

/// The description of a search.
pub fn generate_info(pre: &Preprocessed) -> (s: String)
    requires
        info_fits(*pre),
    ensures
        s@ == info_text(*pre),
{
    let mut s = String::new();
    push_str(&mut s, "[Info]\n");
    push_str(&mut s, "世界种子: ");
    push_int(&mut s, pre.seed as i128);
    push_str(&mut s, "\n");
    let (cx, cz) = (pre.center_x, pre.center_z);
    push_str(&mut s, "中心区块坐标: (");
    push_int(&mut s, cx as i128);
    push_str(&mut s, ", ");
    push_int(&mut s, cz as i128);
    push_str(&mut s, ")\n");
    let ghost part1 = s@;
    let wx_start = cx * 16;
    let wx_end = wx_start + 16;
    let wz_start = cz * 16;
    let wz_end = wz_start + 16;
    push_str(&mut s, "世界坐标: x:[");
    push_int(&mut s, wx_start as i128);
    push_str(&mut s, ", ");
    push_int(&mut s, wx_end as i128);
    push_str(&mut s, ") z:[");
    push_int(&mut s, wz_start as i128);
    push_str(&mut s, ", ");
    push_int(&mut s, wz_end as i128);
    push_str(&mut s, ")\n");
    push_str(&mut s, "扫描半径: ");
    push_int(&mut s, pre.radius as i128);
    push_str(&mut s, " chunks\n");
    let ghost part2 = s@;
    push_str(&mut s, "区块坐标范围: x:(");
    push_int(&mut s, pre.x_start as i128);
    push_str(&mut s, ", ");
    push_int(&mut s, pre.x_end as i128);
    push_str(&mut s, ") z:(");
    push_int(&mut s, pre.z_start as i128);
    push_str(&mut s, ", ");
    push_int(&mut s, pre.z_end as i128);
    push_str(&mut s, ")\n");
    let ghost part3 = s@;
    let wx_start2 = pre.cache_x0 * 16;
    let wx_end2 = (pre.cache_x1 + 1) * 16;
    let wz_start2 = pre.cache_z0 * 16;
    let wz_end2 = (pre.cache_z1 + 1) * 16;
    push_str(&mut s, "世界坐标范围: x:[");
    push_int(&mut s, wx_start2 as i128);
    push_str(&mut s, ", ");
    push_int(&mut s, wx_end2 as i128);
    push_str(&mut s, ") z:[");
    push_int(&mut s, wz_start2 as i128);
    push_str(&mut s, ", ");
    push_int(&mut s, wz_end2 as i128);
    push_str(&mut s, ")\n");
    push_str(&mut s, "图案:\n");
    let ghost part4 = s@;
    let rows = &pre.pattern.original;
    let mut i: usize = 0;
    proof {
        assert(s@ =~= part4 + pattern_lines(rows.deep_view(), 0));
    }
    while i < rows.len()
        invariant
            i <= rows@.len(),
            s@ == part4 + pattern_lines(rows.deep_view(), i as int),
        decreases rows@.len() - i,
    {
        let ghost before = s@;
        push_str(&mut s, "行 ");
        push_int(&mut s, i as i128 + 1);
        push_str(&mut s, ": ");
        push_row_cells(&mut s, &rows[i]);
        push_str(&mut s, "\n");
        proof {
            assert(rows.deep_view()[i as int] == rows@[i as int]@);
            assert(s@ =~= part4 + pattern_lines(rows.deep_view(), i + 1));
        }
        i = i + 1;
    }
    proof {
        assert(s@ =~= info_text(*pre));
    }
    s
}

} // verus!
