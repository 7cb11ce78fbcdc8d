//! Slime chunk counts around every chunk of a map, and the chunks with the
//! highest counts.
//!
//! The map holds one byte per chunk, row after row; a count takes the
//! chunks of the map within `size / 2` of a centre chunk on both axes (the
//! square), or only those within the disc of diameter `size` (the circle),
//! and counts the bytes equal to 1.
use vstd::prelude::*;
use std::sync::atomic::AtomicUsize;
use crate::config::CountShape;
use crate::preprocess::PreprocessedData;

verus! {

/// The count around one chunk.
pub struct CountResult {
    /// The centre chunk.
    pub block_x: i32,
    pub block_z: i32,
    /// Its north-west corner in world coordinates.
    pub world_x: i32,
    pub world_z: i32,
    /// Slime chunks counted around it.
    pub slime_count: usize,
    /// Squared distance, in chunks, to the centre of the map.
    pub distance_sq: i64,
}

/// `size / 2`, rounded toward zero.
pub open spec fn half_size(size: i32) -> int {
    if size >= 0 {
        size / 2
    } else {
        -((-size) / 2)
    }
}

/// `(size / 2)²`, rounded down: the squared radius of the disc.
pub open spec fn size_sq_of(size: i32) -> int {
    (size * size) / 4
}

/// Offset `(dx, dz)` lies in the counted shape.
pub open spec fn in_shape(shape: CountShape, dx: int, dz: int, size_sq: int) -> bool {
    match shape {
        CountShape::Square => true,
        CountShape::Circle => dx * dx + dz * dz <= size_sq,
    }
}

/// Chunk `(x, z)` lies in the map, in its rows `zs .. ze` that `band` holds,
/// and its byte in `band` is 1.
pub open spec fn counted(prep: PreprocessedData, band: Seq<u8>, zs: int, ze: int, x: int, z: int) -> bool {
    &&& prep.min_block_x <= x <= prep.max_block_x
    &&& prep.min_block_z <= z <= prep.max_block_z
    &&& zs <= z - prep.min_block_z < ze
    &&& band[(z - prep.min_block_z - zs) * prep.x_count + (x - prep.min_block_x)] == 1
}

/// Chunks counted in row `bz + dz` at offsets `dx` from `-half` to
/// `-half + n - 1`.
pub open spec fn row_sum(
    prep: PreprocessedData,
    band: Seq<u8>,
    zs: int,
    ze: int,
    shape: CountShape,
    half: int,
    size_sq: int,
    bx: int,
    bz: int,
    dz: int,
    n: nat,
) -> nat
    decreases n,
{
    if n == 0 {
        0
    } else {
        let dx = n - 1 - half;
        row_sum(prep, band, zs, ze, shape, half, size_sq, bx, bz, dz, (n - 1) as nat) + if in_shape(
            shape,
            dx,
            dz,
            size_sq,
        ) && counted(prep, band, zs, ze, bx + dx, bz + dz) {
            1nat
        } else {
            0nat
        }
    }
}

/// Chunks counted in rows with offsets `dz` from `-half` to `-half + m - 1`.
pub open spec fn window_sum(
    prep: PreprocessedData,
    band: Seq<u8>,
    zs: int,
    ze: int,
    shape: CountShape,
    half: int,
    size_sq: int,
    bx: int,
    bz: int,
    m: nat,
) -> nat
    decreases m,
{
    if m == 0 {
        0
    } else {
        window_sum(prep, band, zs, ze, shape, half, size_sq, bx, bz, (m - 1) as nat) + row_sum(
            prep,
            band,
            zs,
            ze,
            shape,
            half,
            size_sq,
            bx,
            bz,
            m - 1 - half,
            (2 * half + 1) as nat,
        )
    }
}

/// Slime chunks counted around chunk `(bx, bz)`: those at offsets
/// `-size/2 ..= size/2` on both axes that lie in the shape.
pub open spec fn window_count(
    prep: PreprocessedData,
    band: Seq<u8>,
    zs: int,
    ze: int,
    shape: CountShape,
    size: i32,
    bx: int,
    bz: int,
) -> nat {
    let half = half_size(size);
    if half < 0 {
        0
    } else {
        window_sum(prep, band, zs, ze, shape, half, size_sq_of(size), bx, bz, (2 * half + 1) as nat)
    }
}

proof fn lemma_row_sum_bound(
    prep: PreprocessedData,
    band: Seq<u8>,
    zs: int,
    ze: int,
    shape: CountShape,
    half: int,
    size_sq: int,
    bx: int,
    bz: int,
    dz: int,
    n: nat,
)
    ensures
        row_sum(prep, band, zs, ze, shape, half, size_sq, bx, bz, dz, n) <= n,
    decreases n,
{
    if n > 0 {
        lemma_row_sum_bound(prep, band, zs, ze, shape, half, size_sq, bx, bz, dz, (n - 1) as nat);
    }
}

proof fn lemma_window_sum_bound(
    prep: PreprocessedData,
    band: Seq<u8>,
    zs: int,
    ze: int,
    shape: CountShape,
    half: int,
    size_sq: int,
    bx: int,
    bz: int,
    m: nat,
)
    requires
        half >= 0,
    ensures
        window_sum(prep, band, zs, ze, shape, half, size_sq, bx, bz, m) <= m * (2 * half + 1),
    decreases m,
{
    if m > 0 {
        lemma_window_sum_bound(prep, band, zs, ze, shape, half, size_sq, bx, bz, (m - 1) as nat);
        lemma_row_sum_bound(prep, band, zs, ze, shape, half, size_sq, bx, bz, m - 1 - half, (2 * half + 1) as nat);
        assert((m - 1) * (2 * half + 1) + (2 * half + 1) == m * (2 * half + 1)) by (nonlinear_arith);
    }
}

/// The larger square of the two ends of an offset range.
pub open spec fn far_sq(lo: int, hi: int) -> int {
    if lo * lo >= hi * hi {
        lo * lo
    } else {
        hi * hi
    }
}

proof fn lemma_square_within(lo: int, d: int, hi: int)
    requires
        lo <= d <= hi,
    ensures
        0 <= d * d <= far_sq(lo, hi),
{
    assert(0 <= d * d) by (nonlinear_arith);
    if d >= 0 {
        assert(d * d <= hi * hi) by (nonlinear_arith)
            requires
                0 <= d <= hi,
        ;
    } else {
        assert(d * d <= lo * lo) by (nonlinear_arith)
            requires
                lo <= d < 0,
        ;
    }
}

/// The map fits the counting: it is well formed, the world coordinates of
/// its chunks (16 times the chunk coordinates) are `i32` values, the offsets
/// of its chunks to the centre are `i32` values and their squared distances
/// `i64` values, and a full window count fits a `usize`.
pub open spec fn count_fits(prep: PreprocessedData, size: i32) -> bool {
    &&& prep.wf()
    &&& -0x800_0000 <= prep.min_block_x
    &&& prep.max_block_x < 0x800_0000
    &&& -0x800_0000 <= prep.min_block_z
    &&& prep.max_block_z < 0x800_0000
    &&& i32::MIN <= prep.min_block_x - prep.center_block_x
    &&& prep.max_block_x - prep.center_block_x <= i32::MAX
    &&& i32::MIN <= prep.min_block_z - prep.center_block_z
    &&& prep.max_block_z - prep.center_block_z <= i32::MAX
    &&& far_sq(prep.min_block_x - prep.center_block_x, prep.max_block_x - prep.center_block_x) + far_sq(
        prep.min_block_z - prep.center_block_z,
        prep.max_block_z - prep.center_block_z,
    ) <= i64::MAX
    &&& (2 * half_size(size) + 1) * (2 * half_size(size) + 1) <= usize::MAX
}

/// For [`CountShape::Circle`], `size` is small enough that the squared
/// radius `(size / 2)²` of the disc is exact in an `f64`.
pub open spec fn shape_fits(shape: CountShape, size: i32) -> bool {
    match shape {
        CountShape::Square => true,
        CountShape::Circle => -0x400_0000 <= size <= 0x400_0000,
    }
}

/// The band holds rows `zs .. ze` of the map.
pub open spec fn band_fits(prep: PreprocessedData, band: Seq<u8>, zs: int, ze: int) -> bool {
    &&& 0 <= zs <= ze <= prep.z_count
    &&& band.len() >= (ze - zs) * prep.x_count
}

proof fn lemma_index_in_band(a: int, b: int, na: int, nb: int)
    requires
        0 <= a < na,
        0 <= b < nb,
    ensures
        0 <= a * nb + b < na * nb,
{
    assert(a * nb + b < na * nb) by (nonlinear_arith)
        requires
            0 <= a < na,
            0 <= b < nb,
    ;
    assert(0 <= a * nb) by (nonlinear_arith)
        requires
            0 <= a,
            0 <= nb,
    ;
}

/// Whether chunk `(x, z)` counts: it lies in the map and in the band, and
/// its byte is 1.
fn counted_at(prep: &PreprocessedData, band: &[u8], zs: usize, ze: usize, check_x: i32, check_z: i32) -> (r: bool)
    requires
        prep.wf(),
        band_fits(*prep, band@, zs as int, ze as int),
    ensures
        r == counted(*prep, band@, zs as int, ze as int, check_x as int, check_z as int),
{
    if check_x < prep.min_block_x || check_x > prep.max_block_x || check_z < prep.min_block_z
        || check_z > prep.max_block_z {
        return false;
    }
    let x_idx = (check_x as i64 - prep.min_block_x as i64) as usize;
    let z_idx = (check_z as i64 - prep.min_block_z as i64) as usize;
    if z_idx < zs || z_idx >= ze {
        return false;
    }
    let band_z = z_idx - zs;
    proof {
        lemma_index_in_band(band_z as int, x_idx as int, (ze - zs) as int, prep.x_count as int);
    }
    let len = band.len();
    proof {
        assert((ze - zs) * prep.x_count <= len);
        assert(band_z * prep.x_count + x_idx < len);
    }
    band[band_z * prep.x_count + x_idx] == 1
}

/// The count around chunk `(bx, bz)`.
fn count_around(
    prep: &PreprocessedData,
    band: &[u8],
    zs: usize,
    ze: usize,
    shape: CountShape,
    size: i32,
    half: i32,
    size_sq: i64,
    bx: i32,
    bz: i32,
) -> (c: usize)
    requires
        count_fits(*prep, size),
        band_fits(*prep, band@, zs as int, ze as int),
        half == half_size(size),
        size_sq == size_sq_of(size),
        prep.min_block_x <= bx <= prep.max_block_x,
        prep.min_block_z <= bz <= prep.max_block_z,
    ensures
        c == window_count(*prep, band@, zs as int, ze as int, shape, size, bx as int, bz as int),
{
    if half < 0 {
        return 0;
    }
    let ghost h = half as int;
    let ghost w = (2 * h + 1) as nat;
    assert(half <= 0x4000_0000);
    assert(w * w <= usize::MAX);
    let mut count: usize = 0;
    let mut dz: i32 = -half;
    while dz <= half
        invariant
            count_fits(*prep, size),
            band_fits(*prep, band@, zs as int, ze as int),
            h == half,
            0 <= half <= 0x4000_0000,
            w == 2 * h + 1,
            w * w <= usize::MAX,
            size_sq == size_sq_of(size),
            prep.min_block_x <= bx <= prep.max_block_x,
            prep.min_block_z <= bz <= prep.max_block_z,
            -half <= dz <= half + 1,
            count == window_sum(*prep, band@, zs as int, ze as int, shape, h, size_sq as int, bx as int, bz as int, (dz + half) as nat),
            count <= (dz + half) * w,
        decreases half + 1 - dz,
    {
        let ghost base = count;
        let mut dx: i32 = -half;
        while dx <= half
            invariant
                count_fits(*prep, size),
                band_fits(*prep, band@, zs as int, ze as int),
                h == half,
                0 <= half <= 0x4000_0000,
                w == 2 * h + 1,
                w * w <= usize::MAX,
                size_sq == size_sq_of(size),
                prep.min_block_x <= bx <= prep.max_block_x,
                prep.min_block_z <= bz <= prep.max_block_z,
                -half <= dz <= half,
                -half <= dx <= half + 1,
                base <= (dz + half) * w,
                count == base + row_sum(*prep, band@, zs as int, ze as int, shape, h, size_sq as int, bx as int, bz as int, dz as int, (dx + half) as nat),
                count <= base + (dx + half),
            decreases half + 1 - dx,
        {
            let in_shape = match shape {
                CountShape::Square => true,
                CountShape::Circle => {
                    let dxl = dx as i64;
                    let dzl = dz as i64;
                    proof {
                        assert(0 <= dxl * dxl <= 0x1000_0000_0000_0000) by (nonlinear_arith)
                            requires
                                -0x4000_0000 <= dxl <= 0x4000_0000,
                        ;
                        assert(0 <= dzl * dzl <= 0x1000_0000_0000_0000) by (nonlinear_arith)
                            requires
                                -0x4000_0000 <= dzl <= 0x4000_0000,
                        ;
                    }
                    dxl * dxl + dzl * dzl <= size_sq
                },
            };
            if in_shape && counted_at(prep, band, zs, ze, bx + dx, bz + dz) {
                proof {
                    assert((dz + half) * w + (dx + half) + 1 <= w * w) by (nonlinear_arith)
                        requires
                            0 <= dz + half < w,
                            0 <= dx + half < w,
                    ;
                }
                count = count + 1;
            }
            dx = dx + 1;
        }
        proof {
            assert((dz + half) * w + w == (dz + half + 1) * w) by (nonlinear_arith);
        }
        dz = dz + 1;
    }
    count
}

} // verus!

verus! {

/// `a` comes before `b` in the result list: more slime chunks first, then
/// nearer to the centre, then in scan order (by row, then by column).
pub open spec fn ranks_before(a: CountResult, b: CountResult) -> bool {
    ||| a.slime_count > b.slime_count
    ||| a.slime_count == b.slime_count && a.distance_sq < b.distance_sq
    ||| a.slime_count == b.slime_count && a.distance_sq == b.distance_sq && a.block_z < b.block_z
    ||| a.slime_count == b.slime_count && a.distance_sq == b.distance_sq && a.block_z == b.block_z
        && a.block_x < b.block_x
}

/// `a` is strictly better than `b`: more slime chunks, or as many and
/// nearer to the centre.
pub open spec fn better(a: CountResult, b: CountResult) -> bool {
    a.slime_count > b.slime_count || (a.slime_count == b.slime_count && a.distance_sq < b.distance_sq)
}

/// The list is in result order, hence without repeats.
pub open spec fn ranked(s: Seq<CountResult>) -> bool {
    forall|k: int, l: int| 0 <= k < l < s.len() ==> ranks_before(#[trigger] s[k], #[trigger] s[l])
}

/// `a` lies before `b` in scan order: by row, then by column.
pub open spec fn scanned_before(a: CountResult, b: CountResult) -> bool {
    a.block_z < b.block_z || (a.block_z == b.block_z && a.block_x < b.block_x)
}

/// The result for the chunk `(bx, bz)`.
pub open spec fn result_of(
    prep: PreprocessedData,
    band: Seq<u8>,
    zs: int,
    ze: int,
    shape: CountShape,
    size: i32,
    bx: int,
    bz: int,
) -> CountResult {
    CountResult {
        block_x: bx as i32,
        block_z: bz as i32,
        world_x: (bx * 16) as i32,
        world_z: (bz * 16) as i32,
        slime_count: window_count(prep, band, zs, ze, shape, size, bx, bz) as usize,
        distance_sq: ((bx - prep.center_block_x) * (bx - prep.center_block_x) + (bz - prep.center_block_z) * (
        bz - prep.center_block_z)) as i64,
    }
}

/// Some element of `s` is the result for chunk `(bx, bz)`.
pub open spec fn in_list(s: Seq<CountResult>, bx: int, bz: int) -> bool {
    exists|k: int| 0 <= k < s.len() && (#[trigger] s[k]).block_x == bx && s[k].block_z == bz
}

/// Chunk `(bx, bz)` is a centre chunk in rows `z_lo ..= z_hi` around which
/// at least one slime chunk is counted.
pub open spec fn is_candidate(
    prep: PreprocessedData,
    band: Seq<u8>,
    zs: int,
    ze: int,
    shape: CountShape,
    size: i32,
    z_lo: int,
    z_hi: int,
    bx: int,
    bz: int,
) -> bool {
    &&& z_lo <= bz <= z_hi
    &&& prep.min_block_x <= bx <= prep.max_block_x
    &&& window_count(prep, band, zs, ze, shape, size, bx, bz) > 0
}

/// `r` lists the best `target` candidates of rows `z_lo ..= z_hi` in
/// result order, or all of them when there are fewer: every element is the
/// result of a candidate, and every candidate left out ranks after the last
/// element of a full list.
pub open spec fn is_top_list(
    prep: PreprocessedData,
    band: Seq<u8>,
    zs: int,
    ze: int,
    shape: CountShape,
    size: i32,
    z_lo: int,
    z_hi: int,
    target: int,
    r: Seq<CountResult>,
) -> bool {
    &&& r.len() <= target
    &&& ranked(r)
    &&& forall|k: int|
        0 <= k < r.len() ==> is_candidate(prep, band, zs, ze, shape, size, z_lo, z_hi, (#[trigger] r[k]).block_x as int, r[k].block_z as int)
            && r[k] == result_of(prep, band, zs, ze, shape, size, r[k].block_x as int, r[k].block_z as int)
    &&& forall|bx: int, bz: int|
        #[trigger] is_candidate(prep, band, zs, ze, shape, size, z_lo, z_hi, bx, bz) && !in_list(r, bx, bz) ==> r.len()
            == target && (target > 0 ==> ranks_before(r.last(), result_of(prep, band, zs, ze, shape, size, bx, bz)))
}

proof fn lemma_insert_ranked(s: Seq<CountResult>, p: int, c: CountResult)
    requires
        ranked(s),
        0 <= p <= s.len(),
        forall|i: int| 0 <= i < p ==> ranks_before(#[trigger] s[i], c),
        forall|i: int| p <= i < s.len() ==> ranks_before(c, #[trigger] s[i]),
    ensures
        ranked(s.insert(p, c)),
{
    let t = s.insert(p, c);
    assert forall|k: int, l: int| 0 <= k < l < t.len() implies ranks_before(#[trigger] t[k], #[trigger] t[l]) by {
        if l < p {
            assert(ranks_before(s[k], s[l]));
        } else if l == p {
            assert(ranks_before(s[k], c));
        } else if k < p {
            assert(t[l] == s[l - 1]);
            assert(ranks_before(s[k], s[l - 1]));
        } else if k == p {
            assert(ranks_before(c, s[l - 1]));
        } else {
            assert(ranks_before(s[k - 1], s[l - 1]));
        }
    }
}

/// Where `c` goes in the ranked list `kept`, all of whose elements were
/// scanned before it: after every element at least as good.
fn insert_position(kept: &Vec<CountResult>, c: &CountResult) -> (p: usize)
    requires
        ranked(kept@),
        forall|i: int| 0 <= i < kept@.len() ==> scanned_before(#[trigger] kept@[i], *c),
    ensures
        p <= kept@.len(),
        forall|i: int| 0 <= i < p ==> ranks_before(#[trigger] kept@[i], *c),
        forall|i: int| p <= i < kept@.len() ==> ranks_before(*c, #[trigger] kept@[i]),
{
    let mut p: usize = 0;
    while p < kept.len() && !(c.slime_count > kept[p].slime_count || (c.slime_count == kept[p].slime_count
        && c.distance_sq < kept[p].distance_sq))
        invariant
            ranked(kept@),
            forall|i: int| 0 <= i < kept@.len() ==> scanned_before(#[trigger] kept@[i], *c),
            p <= kept@.len(),
            forall|i: int| 0 <= i < p ==> ranks_before(#[trigger] kept@[i], *c),
        decreases kept@.len() - p,
    {
        proof {
            assert(scanned_before(kept@[p as int], *c));
        }
        p = p + 1;
    }
    proof {
        assert forall|i: int| p <= i < kept@.len() implies ranks_before(*c, #[trigger] kept@[i]) by {
            assert(better(*c, kept@[p as int]));
            if i > p {
                assert(ranks_before(kept@[p as int], kept@[i]));
            }
        }
    }
    p
}

/// Offers `c`, scanned after every element of `kept`, to the list of the
/// best `target` results: it joins a list that is not full, replaces the
/// last element of a full one when it is better, and is dropped otherwise.
fn offer(kept: &mut Vec<CountResult>, c: CountResult, target: usize)
    requires
        ranked(old(kept)@),
        old(kept)@.len() <= target,
        forall|i: int| 0 <= i < old(kept)@.len() ==> scanned_before(#[trigger] old(kept)@[i], c),
    ensures
        ranked(final(kept)@),
        final(kept)@.len() <= target,
        old(kept)@.len() < target ==> exists|p: int| 0 <= p <= old(kept)@.len() && final(kept)@ == old(kept)@.insert(p, c),
        old(kept)@.len() == target && target > 0 && better(c, old(kept)@.last()) ==> exists|p: int|
            0 <= p < old(kept)@.len() && final(kept)@ == old(kept)@.drop_last().insert(p, c),
        old(kept)@.len() == target && !(target > 0 && better(c, old(kept)@.last())) ==> final(kept)@ == old(kept)@,
{
    if kept.len() < target {
        let p = insert_position(kept, &c);
        proof {
            lemma_insert_ranked(kept@, p as int, c);
        }
        kept.insert(p, c);
    } else if target > 0 {
        let last = kept.len() - 1;
        if c.slime_count > kept[last].slime_count || (c.slime_count == kept[last].slime_count && c.distance_sq
            < kept[last].distance_sq) {
            let ghost before = kept@;
            kept.pop();
            proof {
                assert(kept@ =~= before.drop_last());
                assert forall|k: int, l: int| 0 <= k < l < kept@.len() implies ranks_before(#[trigger] kept@[k], #[trigger] kept@[l]) by {
                    assert(ranks_before(before[k], before[l]));
                }
            }
            let p = insert_position(kept, &c);
            proof {
                lemma_insert_ranked(kept@, p as int, c);
            }
            kept.insert(p, c);
        }
    }
}

/// Chunk `(bx, bz)` is a candidate among those scanned before `(cx, cz)`,
/// from row `z_lo` on.
pub open spec fn seen_candidate(
    prep: PreprocessedData,
    band: Seq<u8>,
    zs: int,
    ze: int,
    shape: CountShape,
    size: i32,
    z_lo: int,
    cz: int,
    cx: int,
    bx: int,
    bz: int,
) -> bool {
    &&& z_lo <= bz
    &&& prep.min_block_x <= bx <= prep.max_block_x
    &&& (bz < cz || (bz == cz && bx < cx))
    &&& window_count(prep, band, zs, ze, shape, size, bx, bz) > 0
}

/// `kept` lists the best `target` of the candidates scanned before
/// `(cx, cz)`, as [`is_top_list`] says of the whole scan.
#[verifier::opaque]
pub open spec fn top_state(
    prep: PreprocessedData,
    band: Seq<u8>,
    zs: int,
    ze: int,
    shape: CountShape,
    size: i32,
    z_lo: int,
    cz: int,
    cx: int,
    target: int,
    kept: Seq<CountResult>,
) -> bool {
    &&& kept.len() <= target
    &&& ranked(kept)
    &&& forall|k: int|
        0 <= k < kept.len() ==> seen_candidate(prep, band, zs, ze, shape, size, z_lo, cz, cx, (#[trigger] kept[k]).block_x as int, kept[k].block_z as int)
            && kept[k] == result_of(prep, band, zs, ze, shape, size, kept[k].block_x as int, kept[k].block_z as int)
    &&& forall|bx: int, bz: int|
        #[trigger] seen_candidate(prep, band, zs, ze, shape, size, z_lo, cz, cx, bx, bz) && !in_list(kept, bx, bz)
            ==> kept.len() == target && (target > 0 ==> ranks_before(kept.last(), result_of(prep, band, zs, ze, shape, size, bx, bz)))
}

proof fn lemma_ranks_trans(a: CountResult, b: CountResult, c: CountResult)
    requires
        ranks_before(a, b),
        ranks_before(b, c),
    ensures
        ranks_before(a, c),
{
}

/// Nothing is scanned before the first row.
proof fn lemma_state_start(
    prep: PreprocessedData,
    band: Seq<u8>,
    zs: int,
    ze: int,
    shape: CountShape,
    size: i32,
    z_lo: int,
    target: int,
)
    requires
        target >= 0,
    ensures
        top_state(prep, band, zs, ze, shape, size, z_lo, z_lo, prep.min_block_x as int, target, Seq::empty()),
{
    reveal(top_state);
}

/// Scanning a chunk that is no candidate keeps the list.
proof fn lemma_state_skip(
    prep: PreprocessedData,
    band: Seq<u8>,
    zs: int,
    ze: int,
    shape: CountShape,
    size: i32,
    z_lo: int,
    cz: int,
    cx: int,
    target: int,
    kept: Seq<CountResult>,
)
    requires
        top_state(prep, band, zs, ze, shape, size, z_lo, cz, cx, target, kept),
        window_count(prep, band, zs, ze, shape, size, cx, cz) == 0,
    ensures
        top_state(prep, band, zs, ze, shape, size, z_lo, cz, cx + 1, target, kept),
{
    reveal(top_state);
    assert forall|bx: int, bz: int|
        #[trigger] seen_candidate(prep, band, zs, ze, shape, size, z_lo, cz, cx + 1, bx, bz) && !in_list(kept, bx, bz)
            implies kept.len() == target && (target > 0 ==> ranks_before(kept.last(), result_of(prep, band, zs, ze, shape, size, bx, bz))) by {
        assert(seen_candidate(prep, band, zs, ze, shape, size, z_lo, cz, cx, bx, bz));
    }
}

/// The end of a row is the start of the next.
proof fn lemma_state_next_row(
    prep: PreprocessedData,
    band: Seq<u8>,
    zs: int,
    ze: int,
    shape: CountShape,
    size: i32,
    z_lo: int,
    cz: int,
    target: int,
    kept: Seq<CountResult>,
)
    requires
        top_state(prep, band, zs, ze, shape, size, z_lo, cz, prep.max_block_x + 1, target, kept),
    ensures
        top_state(prep, band, zs, ze, shape, size, z_lo, cz + 1, prep.min_block_x as int, target, kept),
{
    reveal(top_state);
    assert forall|bx: int, bz: int|
        #[trigger] seen_candidate(prep, band, zs, ze, shape, size, z_lo, cz + 1, prep.min_block_x as int, bx, bz) && !in_list(kept, bx, bz)
            implies kept.len() == target && (target > 0 ==> ranks_before(kept.last(), result_of(prep, band, zs, ze, shape, size, bx, bz))) by {
        assert(seen_candidate(prep, band, zs, ze, shape, size, z_lo, cz, prep.max_block_x + 1, bx, bz));
    }
    assert forall|k: int| 0 <= k < kept.len() implies seen_candidate(prep, band, zs, ze, shape, size, z_lo, cz + 1, prep.min_block_x as int, (#[trigger] kept[k]).block_x as int, kept[k].block_z as int) by {
        assert(seen_candidate(prep, band, zs, ze, shape, size, z_lo, cz, prep.max_block_x + 1, kept[k].block_x as int, kept[k].block_z as int));
    }
}

/// After the last row, the list is the top list of the scanned rows.
proof fn lemma_state_done(
    prep: PreprocessedData,
    band: Seq<u8>,
    zs: int,
    ze: int,
    shape: CountShape,
    size: i32,
    z_lo: int,
    z_hi: int,
    cz: int,
    target: int,
    kept: Seq<CountResult>,
)
    requires
        top_state(prep, band, zs, ze, shape, size, z_lo, cz, prep.min_block_x as int, target, kept),
        cz == z_hi + 1 || (cz == z_lo && z_lo > z_hi),
    ensures
        is_top_list(prep, band, zs, ze, shape, size, z_lo, z_hi, target, kept),
{
    reveal(top_state);
    assert forall|bx: int, bz: int|
        #[trigger] is_candidate(prep, band, zs, ze, shape, size, z_lo, z_hi, bx, bz) && !in_list(kept, bx, bz)
            implies kept.len() == target && (target > 0 ==> ranks_before(kept.last(), result_of(prep, band, zs, ze, shape, size, bx, bz))) by {
        assert(seen_candidate(prep, band, zs, ze, shape, size, z_lo, cz, prep.min_block_x as int, bx, bz));
    }
    assert forall|k: int| 0 <= k < kept.len() implies is_candidate(prep, band, zs, ze, shape, size, z_lo, z_hi, (#[trigger] kept[k]).block_x as int, kept[k].block_z as int) by {
        assert(seen_candidate(prep, band, zs, ze, shape, size, z_lo, cz, prep.min_block_x as int, kept[k].block_x as int, kept[k].block_z as int));
    }
}

/// Offering the result of the candidate at `(cx, cz)` moves the scan on
/// by one chunk.
#[verifier::rlimit(40)]
proof fn lemma_state_offer(
    prep: PreprocessedData,
    band: Seq<u8>,
    zs: int,
    ze: int,
    shape: CountShape,
    size: i32,
    z_lo: int,
    cz: int,
    cx: int,
    target: int,
    old: Seq<CountResult>,
    new: Seq<CountResult>,
    c: CountResult,
)
    requires
        top_state(prep, band, zs, ze, shape, size, z_lo, cz, cx, target, old),
        i32::MIN <= cx <= i32::MAX,
        i32::MIN <= cz <= i32::MAX,
        z_lo <= cz,
        prep.min_block_x <= cx <= prep.max_block_x,
        window_count(prep, band, zs, ze, shape, size, cx, cz) > 0,
        c == result_of(prep, band, zs, ze, shape, size, cx, cz),
        ranked(new),
        new.len() <= target,
        old.len() < target ==> exists|p: int| 0 <= p <= old.len() && new == old.insert(p, c),
        old.len() == target && target > 0 && better(c, old.last()) ==> exists|p: int|
            0 <= p < old.len() && new == old.drop_last().insert(p, c),
        old.len() == target && !(target > 0 && better(c, old.last())) ==> new == old,
    ensures
        top_state(prep, band, zs, ze, shape, size, z_lo, cz, cx + 1, target, new),
{
    reveal(top_state);
    assert(seen_candidate(prep, band, zs, ze, shape, size, z_lo, cz, cx + 1, cx, cz));
    if old.len() < target {
        let p = choose|p: int| 0 <= p <= old.len() && new == old.insert(p, c);
        assert forall|k: int| 0 <= k < new.len() implies seen_candidate(prep, band, zs, ze, shape, size, z_lo, cz, cx + 1, (#[trigger] new[k]).block_x as int, new[k].block_z as int)
            && new[k] == result_of(prep, band, zs, ze, shape, size, new[k].block_x as int, new[k].block_z as int) by {
            if k < p {
                assert(new[k] == old[k]);
            } else if k > p {
                assert(new[k] == old[k - 1]);
            }
        }
        assert forall|bx: int, bz: int|
            #[trigger] seen_candidate(prep, band, zs, ze, shape, size, z_lo, cz, cx + 1, bx, bz) && !in_list(new, bx, bz)
                implies new.len() == target && (target > 0 ==> ranks_before(new.last(), result_of(prep, band, zs, ze, shape, size, bx, bz))) by {
            if bx == cx && bz == cz {
                assert(new[p] == c);
            } else {
                assert(seen_candidate(prep, band, zs, ze, shape, size, z_lo, cz, cx, bx, bz));
                let k = choose|k: int| 0 <= k < old.len() && (#[trigger] old[k]).block_x == bx && old[k].block_z == bz;
                if k < p {
                    assert(new[k] == old[k]);
                } else {
                    assert(new[k + 1] == old[k]);
                }
            }
        }
    } else if target > 0 && better(c, old.last()) {
        let p = choose|p: int| 0 <= p < old.len() && new == old.drop_last().insert(p, c);
        let d = old.drop_last();
        let n = old.len() as int;
        assert forall|k: int| 0 <= k < new.len() implies seen_candidate(prep, band, zs, ze, shape, size, z_lo, cz, cx + 1, (#[trigger] new[k]).block_x as int, new[k].block_z as int)
            && new[k] == result_of(prep, band, zs, ze, shape, size, new[k].block_x as int, new[k].block_z as int) by {
            if k < p {
                assert(new[k] == old[k]);
            } else if k > p {
                assert(new[k] == old[k - 1]);
            }
        }
        assert(ranks_before(new.last(), old.last())) by {
            if p == n - 1 {
                assert(new.last() == c);
            } else {
                assert(new.last() == old[n - 2]);
                assert(ranks_before(old[n - 2], old[n - 1]));
            }
        }
        assert forall|bx: int, bz: int|
            #[trigger] seen_candidate(prep, band, zs, ze, shape, size, z_lo, cz, cx + 1, bx, bz) && !in_list(new, bx, bz)
                implies new.len() == target && (target > 0 ==> ranks_before(new.last(), result_of(prep, band, zs, ze, shape, size, bx, bz))) by {
            if bx == cx && bz == cz {
                assert(new[p] == c);
            } else {
                assert(seen_candidate(prep, band, zs, ze, shape, size, z_lo, cz, cx, bx, bz));
                if in_list(old, bx, bz) {
                    let k = choose|k: int| 0 <= k < old.len() && (#[trigger] old[k]).block_x == bx && old[k].block_z == bz;
                    if k < n - 1 {
                        if k < p {
                            assert(new[k] == old[k]);
                        } else {
                            assert(new[k + 1] == old[k]);
                        }
                    } else {
                        assert(old[k] == result_of(prep, band, zs, ze, shape, size, bx, bz));
                    }
                } else {
                    lemma_ranks_trans(new.last(), old.last(), result_of(prep, band, zs, ze, shape, size, bx, bz));
                }
            }
        }
    } else {
        assert forall|bx: int, bz: int|
            #[trigger] seen_candidate(prep, band, zs, ze, shape, size, z_lo, cz, cx + 1, bx, bz) && !in_list(new, bx, bz)
                implies new.len() == target && (target > 0 ==> ranks_before(new.last(), result_of(prep, band, zs, ze, shape, size, bx, bz))) by {
            if bx == cx && bz == cz {
                if target > 0 {
                    let l = old.len() - 1;
                    assert(seen_candidate(prep, band, zs, ze, shape, size, z_lo, cz, cx, old[l].block_x as int, old[l].block_z as int));
                    assert(scanned_before(old.last(), c));
                }
            } else {
                assert(seen_candidate(prep, band, zs, ze, shape, size, z_lo, cz, cx, bx, bz));
            }
        }
        assert forall|k: int| 0 <= k < new.len() implies seen_candidate(prep, band, zs, ze, shape, size, z_lo, cz, cx + 1, (#[trigger] new[k]).block_x as int, new[k].block_z as int) by {
            assert(seen_candidate(prep, band, zs, ze, shape, size, z_lo, cz, cx, new[k].block_x as int, new[k].block_z as int));
        }
    }
}

proof fn lemma_state_facts(
    prep: PreprocessedData,
    band: Seq<u8>,
    zs: int,
    ze: int,
    shape: CountShape,
    size: i32,
    z_lo: int,
    cz: int,
    cx: int,
    target: int,
    kept: Seq<CountResult>,
    c: CountResult,
)
    requires
        top_state(prep, band, zs, ze, shape, size, z_lo, cz, cx, target, kept),
        c.block_z == cz,
        c.block_x == cx,
    ensures
        kept.len() <= target,
        ranked(kept),
        forall|i: int| 0 <= i < kept.len() ==> scanned_before(#[trigger] kept[i], c),
{
    reveal(top_state);
    assert forall|i: int| 0 <= i < kept.len() implies scanned_before(#[trigger] kept[i], c) by {
        assert(seen_candidate(prep, band, zs, ze, shape, size, z_lo, cz, cx, kept[i].block_x as int, kept[i].block_z as int));
    }
}

/// Stores the progress of a scan, when it is watched.
fn report_progress(progress: Option<&AtomicUsize>, value: usize) {
    match progress {
        Some(p) => {
            p.store(value, std::sync::atomic::Ordering::Relaxed);
        },
        None => {},
    }
}

/// `size / 2`, rounded toward zero.
fn half_of(size: i32) -> (h: i32)
    ensures
        h == half_size(size),
{
    if size >= 0 {
        size / 2
    } else if size == i32::MIN {
        -0x4000_0000
    } else {
        -((-size) / 2)
    }
}

/// The best `target` counts around the chunks of rows `z_lo ..= z_hi`, the
/// chunks being counted from rows `zs .. ze` of the map held in `band`.
/// With a progress counter, the number of chunks scanned is stored in it
/// every 100 chunks and when it reaches `total_iterations`.
fn top_counts(
    prep: &PreprocessedData,
    band: &[u8],
    zs: usize,
    ze: usize,
    shape: CountShape,
    size: i32,
    target: usize,
    z_lo: i32,
    z_hi: i32,
    progress: Option<&AtomicUsize>,
    total_iterations: usize,
) -> (r: Vec<CountResult>)
    requires
        count_fits(*prep, size),
        band_fits(*prep, band@, zs as int, ze as int),
        prep.min_block_z <= z_lo,
        z_hi <= prep.max_block_z,
    ensures
        is_top_list(*prep, band@, zs as int, ze as int, shape, size, z_lo as int, z_hi as int, target as int, r@),
{
    let half = half_of(size);
    let sz = size as i64;
    proof {
        assert(0 <= sz * sz <= 0x4000_0000_0000_0000) by (nonlinear_arith)
            requires
                -0x8000_0000 <= sz <= 0x7fff_ffff,
        ;
    }
    let size_sq: i64 = (sz * sz) / 4;
    let ghost bnd = band@;
    let mut kept: Vec<CountResult> = Vec::new();
    let mut iteration: usize = 0;
    let mut bz = z_lo;
    proof {
        lemma_state_start(*prep, bnd, zs as int, ze as int, shape, size, z_lo as int, target as int);
        assert((bz - z_lo) * prep.x_count == 0) by (nonlinear_arith)
            requires
                bz == z_lo,
        ;
    }
    while bz <= z_hi
        invariant
            count_fits(*prep, size),
            band_fits(*prep, band@, zs as int, ze as int),
            bnd == band@,
            half == half_size(size),
            size_sq == size_sq_of(size),
            prep.min_block_z <= z_lo,
            z_hi <= prep.max_block_z,
            z_lo <= bz <= z_hi + 1 || bz == z_lo,
            iteration == (bz - z_lo) * prep.x_count,
            top_state(*prep, bnd, zs as int, ze as int, shape, size, z_lo as int, bz as int, prep.min_block_x as int, target as int, kept@),
        decreases z_hi + 1 - bz,
    {
        let mut bx = prep.min_block_x;
        proof {
            assert((bz - z_lo) * prep.x_count + prep.x_count <= prep.z_count * prep.x_count) by (nonlinear_arith)
                requires
                    0 <= bz - z_lo,
                    bz - z_lo + 1 <= prep.z_count,
                    0 <= prep.x_count,
            ;
            assert(prep.z_count * prep.x_count == prep.total_blocks) by (nonlinear_arith)
                requires
                    prep.total_blocks == prep.x_count * prep.z_count,
            ;
        }
        while bx <= prep.max_block_x
            invariant
                count_fits(*prep, size),
                band_fits(*prep, band@, zs as int, ze as int),
                bnd == band@,
                half == half_size(size),
                size_sq == size_sq_of(size),
                prep.min_block_z <= z_lo <= bz <= z_hi <= prep.max_block_z,
                prep.min_block_x <= bx <= prep.max_block_x + 1,
                iteration == (bz - z_lo) * prep.x_count + (bx - prep.min_block_x),
                (bz - z_lo) * prep.x_count + prep.x_count <= prep.total_blocks,
                top_state(*prep, bnd, zs as int, ze as int, shape, size, z_lo as int, bz as int, bx as int, target as int, kept@),
            decreases prep.max_block_x + 1 - bx,
        {
            iteration = iteration + 1;
            if iteration % 100 == 0 || iteration == total_iterations {
                report_progress(progress, iteration);
            }
            let count = count_around(prep, band, zs, ze, shape, size, half, size_sq, bx, bz);
            if count > 0 {
                let dx = (bx - prep.center_block_x) as i64;
                let dz = (bz - prep.center_block_z) as i64;
                proof {
                    lemma_square_within(
                        prep.min_block_x - prep.center_block_x,
                        dx as int,
                        prep.max_block_x - prep.center_block_x,
                    );
                    lemma_square_within(
                        prep.min_block_z - prep.center_block_z,
                        dz as int,
                        prep.max_block_z - prep.center_block_z,
                    );
                }
                let distance_sq = dx * dx + dz * dz;
                let c = CountResult {
                    block_x: bx,
                    block_z: bz,
                    world_x: bx * 16,
                    world_z: bz * 16,
                    slime_count: count,
                    distance_sq,
                };
                let ghost old_kept = kept@;
                proof {
                    lemma_state_facts(*prep, bnd, zs as int, ze as int, shape, size, z_lo as int, bz as int, bx as int, target as int, kept@, c);
                }
                offer(&mut kept, c, target);
                proof {
                    lemma_state_offer(*prep, bnd, zs as int, ze as int, shape, size, z_lo as int, bz as int, bx as int, target as int, old_kept, kept@, c);
                }
            } else {
                proof {
                    lemma_state_skip(*prep, bnd, zs as int, ze as int, shape, size, z_lo as int, bz as int, bx as int, target as int, kept@);
                }
            }
            bx = bx + 1;
        }
        proof {
            lemma_state_next_row(*prep, bnd, zs as int, ze as int, shape, size, z_lo as int, bz as int, target as int, kept@);
            assert((bz - z_lo) * prep.x_count + prep.x_count == (bz + 1 - z_lo) * prep.x_count) by (nonlinear_arith);
        }
        bz = bz + 1;
    }
    proof {
        lemma_state_done(*prep, bnd, zs as int, ze as int, shape, size, z_lo as int, z_hi as int, bz as int, target as int, kept@);
    }
    kept
}

/// First row of a band whose windows lie within the band: `size / 2` rows
/// below its first row, and not before the map.
pub open spec fn valid_start_z(prep: PreprocessedData, chunk_z_start: int, size: i32) -> int {
    let s = prep.min_block_z + chunk_z_start + half_size(size);
    if s > prep.min_block_z {
        s
    } else {
        prep.min_block_z as int
    }
}

/// Last row of a band whose windows lie within the band: `size / 2` rows
/// above its last row, and not past the map.
pub open spec fn valid_end_z(prep: PreprocessedData, chunk_z_end: int, size: i32) -> int {
    let e = prep.min_block_z + chunk_z_end - 1 - half_size(size);
    if e < prep.max_block_z {
        e
    } else {
        prep.max_block_z as int
    }
}

/// The rows of a band whose windows lie within it.
fn valid_rows(prep: &PreprocessedData, chunk_z_start: usize, chunk_z_end: usize, half: i32, size: i32) -> (r: (i32, i32))
    requires
        count_fits(*prep, size),
        chunk_z_start <= chunk_z_end <= prep.z_count,
        half == half_size(size),
    ensures
        r.0 == valid_start_z(*prep, chunk_z_start as int, size),
        r.1 == valid_end_z(*prep, chunk_z_end as int, size),
        prep.min_block_z <= r.0,
        r.1 <= prep.max_block_z,
{
    let chunk_start_block_z = prep.min_block_z + chunk_z_start as i32;
    let chunk_end_block_z = prep.min_block_z + chunk_z_end as i32 - 1;
    let s = chunk_start_block_z + half;
    let e = chunk_end_block_z - half;
    let valid_start_z = if s > prep.min_block_z {
        s
    } else {
        prep.min_block_z
    };
    let valid_end_z = if e < prep.max_block_z {
        e
    } else {
        prep.max_block_z
    };
    (valid_start_z, valid_end_z)
}

/// The best `target` counts around the chunks of the map, from the map
/// `grid` with one byte per chunk, row after row. Every chunk of the map is
/// a centre in scan order; the count takes the offsets `-size/2 ..= size/2`
/// on both axes, within the disc of radius `size / 2` for
/// [`CountShape::Circle`], and counts the bytes equal to 1 of the chunks in
/// the map. Chunks with a count of 0 are left out; the others come in
/// result order, the best `target` of them.
pub fn count_slime_chunks(
    prep: &PreprocessedData,
    grid: &[u8],
    shape: CountShape,
    size: i32,
    target: usize,
) -> (r: Vec<CountResult>)
    requires
        count_fits(*prep, size),
        shape_fits(shape, size),
        grid@.len() >= prep.total_blocks,
    ensures
        is_top_list(
            *prep,
            grid@,
            0,
            prep.z_count as int,
            shape,
            size,
            prep.min_block_z as int,
            prep.max_block_z as int,
            target as int,
            r@,
        ),
{
    proof {
        assert((prep.z_count - 0) * prep.x_count == prep.x_count * prep.z_count) by (nonlinear_arith);
    }
    top_counts(prep, grid, 0, prep.z_count, shape, size, target, prep.min_block_z, prep.max_block_z, None, 0)
}

/// The best `target` counts around the chunks of one band of the map:
/// `chunk` holds rows `chunk_z_start .. chunk_z_end` of the map, and the
/// centres are the chunks of the rows whose windows lie within the band
/// ([`valid_start_z`] to [`valid_end_z`]); only chunks of the band are
/// counted.
pub fn count_slime_chunks_chunk(
    prep: &PreprocessedData,
    chunk: &[u8],
    chunk_z_start: usize,
    chunk_z_end: usize,
    shape: CountShape,
    size: i32,
    target: usize,
) -> (r: Vec<CountResult>)
    requires
        count_fits(*prep, size),
        shape_fits(shape, size),
        band_fits(*prep, chunk@, chunk_z_start as int, chunk_z_end as int),
    ensures
        is_top_list(
            *prep,
            chunk@,
            chunk_z_start as int,
            chunk_z_end as int,
            shape,
            size,
            valid_start_z(*prep, chunk_z_start as int, size),
            valid_end_z(*prep, chunk_z_end as int, size),
            target as int,
            r@,
        ),
{
    let half = half_of(size);
    let (valid_start_z, valid_end_z) = valid_rows(prep, chunk_z_start, chunk_z_end, half, size);
    top_counts(prep, chunk, chunk_z_start, chunk_z_end, shape, size, target, valid_start_z, valid_end_z, None, 0)
}

/// As [`count_slime_chunks_chunk`], storing in `progress` the number of
/// centres scanned every 100 centres, when the scan reaches the number of
/// centres of the band, and at the end. The number of centres is taken in
/// wrapping `usize` arithmetic, so a band too thin for any window gives a
/// number that the scan never reaches.
pub fn count_slime_chunks_chunk_with_progress(
    prep: &PreprocessedData,
    chunk: &[u8],
    chunk_z_start: usize,
    chunk_z_end: usize,
    shape: CountShape,
    size: i32,
    target: usize,
    progress: &AtomicUsize,
) -> (r: Vec<CountResult>)
    requires
        count_fits(*prep, size),
        shape_fits(shape, size),
        band_fits(*prep, chunk@, chunk_z_start as int, chunk_z_end as int),
    ensures
        is_top_list(
            *prep,
            chunk@,
            chunk_z_start as int,
            chunk_z_end as int,
            shape,
            size,
            valid_start_z(*prep, chunk_z_start as int, size),
            valid_end_z(*prep, chunk_z_end as int, size),
            target as int,
            r@,
        ),
{
    let half = half_of(size);
    let (valid_start_z, valid_end_z) = valid_rows(prep, chunk_z_start, chunk_z_end, half, size);
    let rows = valid_end_z as i64 - valid_start_z as i64 + 1;
    let total_iterations: usize = (#[verifier::truncate] (rows as usize)).wrapping_mul(prep.x_count);
    let r = top_counts(
        prep,
        chunk,
        chunk_z_start,
        chunk_z_end,
        shape,
        size,
        target,
        valid_start_z,
        valid_end_z,
        Some(progress),
        total_iterations,
    );
    report_progress(Some(progress), total_iterations);
    r
}

proof fn lemma_top_no_smaller_at(
    prep: PreprocessedData,
    band: Seq<u8>,
    zs: int,
    ze: int,
    shape: CountShape,
    size: i32,
    z_lo: int,
    z_hi: int,
    target: int,
    r1: Seq<CountResult>,
    r2: Seq<CountResult>,
    j: int,
)
    requires
        is_top_list(prep, band, zs, ze, shape, size, z_lo, z_hi, target, r1),
        is_top_list(prep, band, zs, ze, shape, size, z_lo, z_hi, target, r2),
        0 <= j < r1.len(),
        j < r2.len(),
        forall|m: int| 0 <= m < j ==> #[trigger] r1[m] == r2[m],
    ensures
        !ranks_before(r1[j], r2[j]),
{
    let a = r1[j];
    let bx = a.block_x as int;
    let bz = a.block_z as int;
    if ranks_before(a, r2[j]) {
        assert(is_candidate(prep, band, zs, ze, shape, size, z_lo, z_hi, bx, bz));
        assert(!in_list(r2, bx, bz)) by {
            if in_list(r2, bx, bz) {
                let m = choose|m: int| 0 <= m < r2.len() && (#[trigger] r2[m]).block_x == bx && r2[m].block_z == bz;
                assert(r2[m] == result_of(prep, band, zs, ze, shape, size, bx, bz));
                if m < j {
                    assert(r1[m] == r2[m]);
                    assert(ranks_before(r1[m], r1[j]));
                } else if m > j {
                    assert(ranks_before(r2[j], r2[m]));
                }
            }
        }
        let last = r2.len() - 1;
        if j < last {
            assert(ranks_before(r2[j], r2[last]));
        }
    }
}

proof fn lemma_top_agree_upto(
    prep: PreprocessedData,
    band: Seq<u8>,
    zs: int,
    ze: int,
    shape: CountShape,
    size: i32,
    z_lo: int,
    z_hi: int,
    target: int,
    r1: Seq<CountResult>,
    r2: Seq<CountResult>,
    k: int,
)
    requires
        is_top_list(prep, band, zs, ze, shape, size, z_lo, z_hi, target, r1),
        is_top_list(prep, band, zs, ze, shape, size, z_lo, z_hi, target, r2),
        0 <= k <= r1.len(),
        k <= r2.len(),
    ensures
        forall|m: int| 0 <= m < k ==> #[trigger] r1[m] == r2[m],
    decreases k,
{
    if k > 0 {
        lemma_top_agree_upto(prep, band, zs, ze, shape, size, z_lo, z_hi, target, r1, r2, k - 1);
        lemma_top_no_smaller_at(prep, band, zs, ze, shape, size, z_lo, z_hi, target, r1, r2, k - 1);
        lemma_top_no_smaller_at(prep, band, zs, ze, shape, size, z_lo, z_hi, target, r2, r1, k - 1);
        assert forall|m: int| 0 <= m < k implies #[trigger] r1[m] == r2[m] by {
            if m == k - 1 {
                assert(!ranks_before(r1[m], r2[m]) && !ranks_before(r2[m], r1[m]));
                assert(r1[m] == result_of(prep, band, zs, ze, shape, size, r1[m].block_x as int, r1[m].block_z as int));
                assert(r2[m] == result_of(prep, band, zs, ze, shape, size, r2[m].block_x as int, r2[m].block_z as int));
            }
        }
    }
}

proof fn lemma_top_no_proper_prefix(
    prep: PreprocessedData,
    band: Seq<u8>,
    zs: int,
    ze: int,
    shape: CountShape,
    size: i32,
    z_lo: int,
    z_hi: int,
    target: int,
    r1: Seq<CountResult>,
    r2: Seq<CountResult>,
)
    requires
        is_top_list(prep, band, zs, ze, shape, size, z_lo, z_hi, target, r1),
        is_top_list(prep, band, zs, ze, shape, size, z_lo, z_hi, target, r2),
        forall|m: int| 0 <= m < r1.len() && m < r2.len() ==> #[trigger] r1[m] == r2[m],
    ensures
        r1.len() >= r2.len(),
{
    if r1.len() < r2.len() {
        let e = r2[r1.len() as int];
        let bx = e.block_x as int;
        let bz = e.block_z as int;
        assert(is_candidate(prep, band, zs, ze, shape, size, z_lo, z_hi, bx, bz));
        assert(!in_list(r1, bx, bz)) by {
            if in_list(r1, bx, bz) {
                let m = choose|m: int| 0 <= m < r1.len() && (#[trigger] r1[m]).block_x == bx && r1[m].block_z == bz;
                assert(r1[m] == result_of(prep, band, zs, ze, shape, size, bx, bz));
                assert(r2[m] == r1[m]);
                assert(ranks_before(r2[m], r2[r1.len() as int]));
            }
        }
    }
}

/// The best list of a count is determined: two lists that both are the
/// best `target` results of the same count are equal, so the counting
/// functions return one list for one map, band and settings.
pub proof fn lemma_top_list_unique(
    prep: PreprocessedData,
    band: Seq<u8>,
    zs: int,
    ze: int,
    shape: CountShape,
    size: i32,
    z_lo: int,
    z_hi: int,
    target: int,
    r1: Seq<CountResult>,
    r2: Seq<CountResult>,
)
    requires
        is_top_list(prep, band, zs, ze, shape, size, z_lo, z_hi, target, r1),
        is_top_list(prep, band, zs, ze, shape, size, z_lo, z_hi, target, r2),
    ensures
        r1 == r2,
{
    if r1.len() <= r2.len() {
        lemma_top_agree_upto(prep, band, zs, ze, shape, size, z_lo, z_hi, target, r1, r2, r1.len() as int);
    } else {
        lemma_top_agree_upto(prep, band, zs, ze, shape, size, z_lo, z_hi, target, r1, r2, r2.len() as int);
    }
    lemma_top_no_proper_prefix(prep, band, zs, ze, shape, size, z_lo, z_hi, target, r1, r2);
    assert forall|m: int| 0 <= m < r2.len() && m < r1.len() implies #[trigger] r2[m] == r1[m] by {
        assert(r1[m] == r2[m]);
    }
    lemma_top_no_proper_prefix(prep, band, zs, ze, shape, size, z_lo, z_hi, target, r2, r1);
    assert(r1 =~= r2);
}

/// `band` holds rows `zs .. ze` of `map`.
pub open spec fn band_of(prep: PreprocessedData, map: Seq<u8>, band: Seq<u8>, zs: int, ze: int) -> bool {
    forall|k: int| 0 <= k < (ze - zs) * prep.x_count ==> #[trigger] band[k] == map[zs * prep.x_count + k]
}

proof fn lemma_cell_agrees(prep: PreprocessedData, map: Seq<u8>, band: Seq<u8>, zs: int, ze: int, x: int, z: int)
    requires
        prep.wf(),
        0 <= zs <= ze <= prep.z_count,
        band_of(prep, map, band, zs, ze),
        prep.min_block_z <= z <= prep.max_block_z ==> zs <= z - prep.min_block_z < ze,
    ensures
        counted(prep, band, zs, ze, x, z) == counted(prep, map, 0, prep.z_count as int, x, z),
{
    if prep.min_block_x <= x <= prep.max_block_x && prep.min_block_z <= z <= prep.max_block_z {
        let a = z - prep.min_block_z - zs;
        let b = x - prep.min_block_x;
        let w = prep.x_count as int;
        lemma_index_in_band(a, b, ze - zs, w);
        assert(zs * w + (a * w + b) == (z - prep.min_block_z - 0) * w + b) by (nonlinear_arith)
            requires
                a == z - prep.min_block_z - zs,
        ;
        assert(band[a * w + b] == map[zs * w + (a * w + b)]);
    }
}

proof fn lemma_rows_agree(
    prep: PreprocessedData,
    map: Seq<u8>,
    band: Seq<u8>,
    zs: int,
    ze: int,
    shape: CountShape,
    half: int,
    size_sq: int,
    bx: int,
    bz: int,
    dz: int,
    n: nat,
)
    requires
        prep.wf(),
        0 <= zs <= ze <= prep.z_count,
        band_of(prep, map, band, zs, ze),
        prep.min_block_z <= bz + dz <= prep.max_block_z ==> zs <= bz + dz - prep.min_block_z < ze,
    ensures
        row_sum(prep, band, zs, ze, shape, half, size_sq, bx, bz, dz, n) == row_sum(
            prep,
            map,
            0,
            prep.z_count as int,
            shape,
            half,
            size_sq,
            bx,
            bz,
            dz,
            n,
        ),
    decreases n,
{
    if n > 0 {
        lemma_rows_agree(prep, map, band, zs, ze, shape, half, size_sq, bx, bz, dz, (n - 1) as nat);
        lemma_cell_agrees(prep, map, band, zs, ze, bx + (n - 1 - half), bz + dz);
    }
}

proof fn lemma_windows_agree(
    prep: PreprocessedData,
    map: Seq<u8>,
    band: Seq<u8>,
    zs: int,
    ze: int,
    shape: CountShape,
    half: int,
    size_sq: int,
    bx: int,
    bz: int,
    m: nat,
)
    requires
        prep.wf(),
        0 <= zs <= ze <= prep.z_count,
        band_of(prep, map, band, zs, ze),
        forall|dz: int|
            -half <= dz < m - half ==> (prep.min_block_z <= #[trigger] (bz + dz) <= prep.max_block_z ==> zs <= bz + dz
                - prep.min_block_z < ze),
    ensures
        window_sum(prep, band, zs, ze, shape, half, size_sq, bx, bz, m) == window_sum(
            prep,
            map,
            0,
            prep.z_count as int,
            shape,
            half,
            size_sq,
            bx,
            bz,
            m,
        ),
    decreases m,
{
    if m > 0 {
        lemma_windows_agree(prep, map, band, zs, ze, shape, half, size_sq, bx, bz, (m - 1) as nat);
        let dz = m - 1 - half;
        assert(prep.min_block_z <= bz + dz <= prep.max_block_z ==> zs <= bz + dz - prep.min_block_z < ze);
        lemma_rows_agree(prep, map, band, zs, ze, shape, half, size_sq, bx, bz, dz, (2 * half + 1) as nat);
    }
}

/// Counting band by band gives the counts of the whole map: when `band`
/// holds rows `zs .. ze` of `map`, the count around a chunk of the band's
/// centre rows ([`valid_start_z`] to [`valid_end_z`]) is its count in the
/// whole map.
pub proof fn lemma_band_counts_as_map(
    prep: PreprocessedData,
    map: Seq<u8>,
    band: Seq<u8>,
    zs: int,
    ze: int,
    shape: CountShape,
    size: i32,
    bx: int,
    bz: int,
)
    requires
        prep.wf(),
        0 <= zs <= ze <= prep.z_count,
        band_of(prep, map, band, zs, ze),
        valid_start_z(prep, zs, size) <= bz <= valid_end_z(prep, ze, size),
    ensures
        window_count(prep, band, zs, ze, shape, size, bx, bz) == window_count(
            prep,
            map,
            0,
            prep.z_count as int,
            shape,
            size,
            bx,
            bz,
        ),
{
    let half = half_size(size);
    if half >= 0 {
        assert forall|dz: int|
            -half <= dz < (2 * half + 1) - half && prep.min_block_z <= #[trigger] (bz + dz) <= prep.max_block_z implies zs
                <= bz + dz - prep.min_block_z < ze by {}
        lemma_windows_agree(prep, map, band, zs, ze, shape, half, size_sq_of(size), bx, bz, (2 * half + 1) as nat);
    }
}

/// The best list of a band is the best list of the whole map over the
/// band's centre rows: when `band` holds rows `zs .. ze` of `map`, a list is
/// the best `target` results of the band, centres in rows [`valid_start_z`]
/// to [`valid_end_z`], exactly when it is the best `target` results of the
/// map for the centres of those rows, with the same counts and order.
pub proof fn lemma_band_top_list_as_map(
    prep: PreprocessedData,
    map: Seq<u8>,
    band: Seq<u8>,
    zs: int,
    ze: int,
    shape: CountShape,
    size: i32,
    target: int,
    r: Seq<CountResult>,
)
    requires
        prep.wf(),
        0 <= zs <= ze <= prep.z_count,
        band_of(prep, map, band, zs, ze),
    ensures
        is_top_list(prep, band, zs, ze, shape, size, valid_start_z(prep, zs, size), valid_end_z(prep, ze, size), target, r)
            == is_top_list(
            prep,
            map,
            0,
            prep.z_count as int,
            shape,
            size,
            valid_start_z(prep, zs, size),
            valid_end_z(prep, ze, size),
            target,
            r,
        ),
{
    let vs = valid_start_z(prep, zs, size);
    let ve = valid_end_z(prep, ze, size);
    let zc = prep.z_count as int;
    assert forall|bx: int, bz: int| vs <= bz <= ve implies #[trigger] window_count(prep, band, zs, ze, shape, size, bx, bz)
        == window_count(prep, map, 0, zc, shape, size, bx, bz) by {
        lemma_band_counts_as_map(prep, map, band, zs, ze, shape, size, bx, bz);
    }
    assert forall|bx: int, bz: int| #[trigger] is_candidate(prep, band, zs, ze, shape, size, vs, ve, bx, bz)
        == is_candidate(prep, map, 0, zc, shape, size, vs, ve, bx, bz) by {
        if vs <= bz <= ve {
            assert(window_count(prep, band, zs, ze, shape, size, bx, bz) == window_count(prep, map, 0, zc, shape, size, bx, bz));
        }
    }
    assert forall|bx: int, bz: int| vs <= bz <= ve implies #[trigger] result_of(prep, band, zs, ze, shape, size, bx, bz)
        == result_of(prep, map, 0, zc, shape, size, bx, bz) by {
        assert(window_count(prep, band, zs, ze, shape, size, bx, bz) == window_count(prep, map, 0, zc, shape, size, bx, bz));
    }
    if is_top_list(prep, band, zs, ze, shape, size, vs, ve, target, r) {
        assert forall|k: int| 0 <= k < r.len() implies is_candidate(prep, map, 0, zc, shape, size, vs, ve, (#[trigger] r[k]).block_x as int, r[k].block_z as int)
            && r[k] == result_of(prep, map, 0, zc, shape, size, r[k].block_x as int, r[k].block_z as int) by {
            assert(is_candidate(prep, band, zs, ze, shape, size, vs, ve, r[k].block_x as int, r[k].block_z as int));
        }
        assert forall|bx: int, bz: int|
            #[trigger] is_candidate(prep, map, 0, zc, shape, size, vs, ve, bx, bz) && !in_list(r, bx, bz) implies r.len()
                == target && (target > 0 ==> ranks_before(r.last(), result_of(prep, map, 0, zc, shape, size, bx, bz))) by {
            assert(is_candidate(prep, band, zs, ze, shape, size, vs, ve, bx, bz));
        }
    }
    if is_top_list(prep, map, 0, zc, shape, size, vs, ve, target, r) {
        assert forall|k: int| 0 <= k < r.len() implies is_candidate(prep, band, zs, ze, shape, size, vs, ve, (#[trigger] r[k]).block_x as int, r[k].block_z as int)
            && r[k] == result_of(prep, band, zs, ze, shape, size, r[k].block_x as int, r[k].block_z as int) by {
            assert(is_candidate(prep, map, 0, zc, shape, size, vs, ve, r[k].block_x as int, r[k].block_z as int));
        }
        assert forall|bx: int, bz: int|
            #[trigger] is_candidate(prep, band, zs, ze, shape, size, vs, ve, bx, bz) && !in_list(r, bx, bz) implies r.len()
                == target && (target > 0 ==> ranks_before(r.last(), result_of(prep, band, zs, ze, shape, size, bx, bz))) by {
            assert(is_candidate(prep, map, 0, zc, shape, size, vs, ve, bx, bz));
        }
    }
}

/// Reporting progress changes nothing of the result: a list that meets the
/// contract of [`count_slime_chunks_chunk_with_progress`] and one that meets
/// that of [`count_slime_chunks_chunk`], for the same band and settings, are
/// the same list.
pub proof fn lemma_progress_keeps_list(
    prep: PreprocessedData,
    band: Seq<u8>,
    zs: int,
    ze: int,
    shape: CountShape,
    size: i32,
    target: int,
    with_progress: Seq<CountResult>,
    without: Seq<CountResult>,
)
    requires
        is_top_list(prep, band, zs, ze, shape, size, valid_start_z(prep, zs, size), valid_end_z(prep, ze, size), target, with_progress),
        is_top_list(prep, band, zs, ze, shape, size, valid_start_z(prep, zs, size), valid_end_z(prep, ze, size), target, without),
    ensures
        with_progress == without,
{
    lemma_top_list_unique(
        prep,
        band,
        zs,
        ze,
        shape,
        size,
        valid_start_z(prep, zs, size),
        valid_end_z(prep, ze, size),
        target,
        with_progress,
        without,
    );
}

} // verus!
