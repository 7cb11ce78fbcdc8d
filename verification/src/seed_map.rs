//! The seed map: a text file with one `0`/`1` cell per chunk of a square
//! around a centre, under a header of column coordinates, each row led by
//! its row coordinate.
use vstd::prelude::*;
use crate::java_rng::{scrambled, lcg_next, top31, lcg_modulus, lcg_step, top31_bits, scramble, first_draw};
use crate::slime_lib::slime_at;
use crate::int_math::{wrap_i32, wrap_i64, lemma_wrap_i32_range, lemma_wrap_i64_add_left, lemma_i32_wrapping_mul, lemma_i64_wrapping_add};
use crate::slime_chunk::{fx_of, compute_fx};
use crate::text::{int_text, spaces, text_len, push_str, push_int, push_char, push_spaces};
use rayon::iter::{IndexedParallelIterator, IntoParallelIterator, ParallelIterator};

verus! {

/// The divisor of the slime rule.
pub const BOUND: i32 = 10;

/// The remainder that marks a slime chunk.
pub const TARGET: i32 = 0;

/// The value mixed into every chunk seed.
pub const XOR_MASK: i64 = 987234911;

/// A `java.util.Random` reduced to what the map needs: its 48-bit state.
pub struct FastRandom {
    seed: u64,
}

impl FastRandom {
    /// The generator state.
    pub closed spec fn state(&self) -> int {
        self.seed as int
    }

    /// A generator in state 0.
    pub fn zero() -> (r: FastRandom)
        ensures
            r.state() == 0,
    {
        FastRandom { seed: 0 }
    }

    /// `setSeed(seed)`: the seed scrambled with the multiplier, cut to 48
    /// bits.
    pub fn set_seed(&mut self, seed: i64)
        ensures
            final(self).state() == scrambled(seed),
    {
        let s = scramble(seed);
        self.seed = s as u64;
    }

    /// `next(31)`: one generator step, then the top 31 bits of the state.
    pub fn next31(&mut self) -> (r: u32)
        requires
            old(self).state() < lcg_modulus(),
        ensures
            final(self).state() == lcg_next(old(self).state()),
            final(self).state() < lcg_modulus(),
            r as int == top31(final(self).state()),
    {
        let s = lcg_step(self.seed as i64);
        proof {
            crate::java_rng::lemma_lcg_next_range(self.seed as int);
        }
        self.seed = s as u64;
        top31_bits(s) as u32
    }

    /// `next(31) % bound`.
    pub fn next_int_mod(&mut self, bound: i32) -> (r: i32)
        requires
            old(self).state() < lcg_modulus(),
            bound > 0,
        ensures
            final(self).state() == lcg_next(old(self).state()),
            final(self).state() < lcg_modulus(),
            r as int == top31(final(self).state()) % (bound as int),
    {
        let bits = self.next31() as i64;
        (bits % bound as i64) as i32
    }
}

/// Number of characters in the decimal text of `n`.
pub fn num_width(n: i32) -> (w: usize)
    requires
        n > i32::MIN,
    ensures
        w as int == text_len(n as int),
{
    if n == 0 {
        proof {
            reveal_with_fuel(crate::text::nat_text, 2);
        }
        return 1;
    }
    let mut w: usize = if n < 0 {
        1
    } else {
        0
    };
    let mut m: i32 = if n < 0 {
        -n
    } else {
        n
    };
    let ghost mag: nat = m as nat;
    proof {
        lemma_digits_len(mag);
        lemma_digit_count_bound(mag);
    }
    while m > 0
        invariant
            0 <= m <= mag,
            mag == (if n < 0 { -(n as int) } else { n as int }),
            mag >= 1,
            w + digit_count(m as nat) == (if n < 0 { 1int } else { 0int }) + digit_count(mag),
            w <= 11,
            digit_count(m as nat) <= 10,
            digit_count(mag) <= 10,
        decreases m,
    {
        proof {
            lemma_digit_count_bound(m as nat);
        }
        w = w + 1;
        m = m / 10;
        proof {
            lemma_digit_count_bound(m as nat);
        }
    }
    proof {
        lemma_digits_len(mag);
    }
    w
}

/// Number of decimal digits of `n`, 0 having none.
pub open spec fn digit_count(n: nat) -> nat
    decreases n,
{
    if n == 0 {
        0
    } else {
        1 + digit_count(n / 10)
    }
}

proof fn lemma_digits_len(n: nat)
    requires
        n >= 1,
    ensures
        crate::text::nat_text(n).len() == digit_count(n),
    decreases n,
{
    reveal_with_fuel(digit_count, 2);
    if n >= 10 {
        lemma_digits_len(n / 10);
    }
}

proof fn lemma_digit_count_bound(n: nat)
    requires
        n <= i32::MAX,
    ensures
        digit_count(n) <= 10,
        n > 0 ==> digit_count(n) == 1 + digit_count(n / 10),
{
    reveal_with_fuel(digit_count, 11);
}

/// Row term of a chunk seed: `(long)(z*z) * 4392871 + (long)(z*389711)`,
/// the `int` products wrapping.
pub open spec fn row_term(z: i32) -> int {
    wrap_i32(z * z) * 4392871 + wrap_i32(z * 389711)
}

/// The row term of row `z`.
fn row_term_of(z: i32) -> (r: i64)
    ensures
        r == row_term(z),
{
    let zz = z.wrapping_mul(z) as i64;
    let t = z.wrapping_mul(389711) as i64;
    proof {
        lemma_i32_wrapping_mul(z, z);
        lemma_i32_wrapping_mul(z, 389711);
        lemma_wrap_i32_range(z * z);
        lemma_wrap_i32_range(z * 389711);
    }
    zz * 4392871 + t
}

/// The map cell of a chunk whose column and row terms are `fx` and `fz`:
/// the generator is seeded with the chunk seed and its first draw taken
/// modulo 10 is compared with 0.
fn map_cell(rng: &mut FastRandom, seed: i64, fx: i64, fz: i64) -> (b: bool)
    ensures
        b == (first_draw((wrap_i64(seed + fx + fz) as i64) ^ XOR_MASK) % 10 == 0),
{
    let combined = seed.wrapping_add(fx).wrapping_add(fz);
    proof {
        lemma_i64_wrapping_add(seed, fx);
        lemma_i64_wrapping_add(seed.wrapping_add(fx), fz);
        lemma_wrap_i64_add_left(seed + fx, fz as int);
        crate::java_rng::lemma_mask_is_mod(combined ^ XOR_MASK ^ crate::java_rng::LCG_MULT);
    }
    rng.set_seed(combined ^ XOR_MASK);
    rng.next_int_mod(BOUND) == TARGET
}

/// The map marks the slime chunks: the cell of chunk `(x, z)` computed from
/// its column and row terms is the slime flag of the chunk.
pub proof fn lemma_cell_is_slime(seed: i64, x: i32, z: i32)
    ensures
        (first_draw((wrap_i64(seed + fx_of(x) + row_term(z)) as i64) ^ XOR_MASK) % 10 == 0) == slime_at(seed, x, z),
{
}

/// `s` left-aligned in `w` characters.
pub open spec fn pad_right(s: Seq<char>, w: int) -> Seq<char> {
    s + spaces(w - s.len())
}

/// `n` dashes.
pub open spec fn dash_run(n: int) -> Seq<char> {
    Seq::new(if n > 0 { n as nat } else { 0 }, |i: int| '-')
}

/// A cell: `1` or `0` left-aligned in `w` characters.
pub open spec fn cell_text(b: bool, w: int) -> Seq<char> {
    pad_right(if b { seq!['1'] } else { seq!['0'] }, w)
}

/// The cells of the first `n` columns from `min_x` in row `z`.
pub open spec fn row_cells(seed: i64, min_x: int, n: int, z: i32, w: int) -> Seq<char>
    decreases n,
{
    if n <= 0 {
        Seq::empty()
    } else {
        row_cells(seed, min_x, n - 1, z, w) + cell_text(slime_at(seed, (min_x + n - 1) as i32, z), w)
    }
}

/// The headers of the first `n` columns from `min_x`.
pub open spec fn column_headers(min_x: int, n: int, w: int) -> Seq<char>
    decreases n,
{
    if n <= 0 {
        Seq::empty()
    } else {
        column_headers(min_x, n - 1, w) + pad_right(int_text(min_x + n - 1), w)
    }
}

/// The widest decimal text among the `n` integers from `lo`.
pub open spec fn widest(lo: int, n: int) -> int
    decreases n,
{
    if n <= 0 {
        0
    } else {
        let a = widest(lo, n - 1);
        let b = text_len(lo + n - 1);
        if a >= b {
            a
        } else {
            b
        }
    }
}

/// The square of a seed map: its ranges, counts and column widths.
pub struct SeedMapLayout {
    pub min_x: i32,
    pub max_x: i32,
    pub min_z: i32,
    pub max_z: i32,
    pub x_count: usize,
    pub z_count: usize,
    /// Widest coordinate text, at least 1.
    pub max_width: usize,
    /// Width of a column: the widest coordinate and a space.
    pub cell_width: usize,
    /// Width of the row header: the widest coordinate and a bar.
    pub z_col_width: usize,
}

impl SeedMapLayout {
    /// The layout fits the square from `(min_x, min_z)` to `(max_x, max_z)`.
    pub open spec fn wf(&self) -> bool {
        &&& i32::MIN < self.min_x <= self.max_x
        &&& i32::MIN < self.min_z <= self.max_z
        &&& self.x_count == self.max_x - self.min_x + 1
        &&& self.z_count == self.max_z - self.min_z + 1
        &&& self.max_width == {
            let a = widest(self.min_x as int, self.x_count as int);
            let b = widest(self.min_z as int, self.z_count as int);
            let m = if a >= b { a } else { b };
            if m >= 1 { m } else { 1 }
        }
        &&& self.max_width <= 11
        &&& self.cell_width == self.max_width + 1
        &&& self.z_col_width == self.max_width + 1
        &&& self.x_count * 12 <= usize::MAX
    }

    /// The layout of the square within `radius` of `(center_x, center_z)`;
    /// `None` when the radius is negative, the square reaches `i32::MIN` or
    /// leaves the `i32` range, or a row of cells would not fit a `usize`
    /// count.
    pub fn new(center_x: i32, center_z: i32, radius: i32) -> (r: Option<SeedMapLayout>)
        ensures
            r is Some <==> (radius >= 0 && i32::MIN < center_x - radius && center_x + radius <= i32::MAX
                && i32::MIN < center_z - radius && center_z + radius <= i32::MAX && (2 * radius + 1) * 12
                <= usize::MAX),
            r matches Some(l) ==> {
                &&& l.wf()
                &&& l.min_x == center_x - radius
                &&& l.max_x == center_x + radius
                &&& l.min_z == center_z - radius
                &&& l.max_z == center_z + radius
            },
    {
        if radius < 0 {
            return None;
        }
        let r = radius as i64;
        let cx = center_x as i64;
        let cz = center_z as i64;
        if cx - r <= i32::MIN as i64 || cx + r > i32::MAX as i64 || cz - r <= i32::MIN as i64 || cz + r > i32::MAX as i64 {
            return None;
        }
        let side = (2 * r + 1) as u64;
        if side > usize::MAX as u64 / 12 {
            return None;
        }
        let min_x = center_x - radius;
        let max_x = center_x + radius;
        let min_z = center_z - radius;
        let max_z = center_z + radius;
        let x_count = side as usize;
        let z_count = side as usize;
        let a = widest_of(min_x, x_count);
        let b = widest_of(min_z, z_count);
        let m = if a >= b {
            a
        } else {
            b
        };
        let max_width = if m >= 1 {
            m
        } else {
            1
        };
        Some(
            SeedMapLayout {
                min_x,
                max_x,
                min_z,
                max_z,
                x_count,
                z_count,
                max_width,
                cell_width: max_width + 1,
                z_col_width: max_width + 1,
            },
        )
    }
}

/// The widest decimal text among the `n` integers from `lo`.
fn widest_of(lo: i32, n: usize) -> (w: usize)
    requires
        lo > i32::MIN,
        lo + n - 1 <= i32::MAX,
    ensures
        w == widest(lo as int, n as int),
        w <= 11,
{
    let mut w: usize = 0;
    let mut k: usize = 0;
    while k < n
        invariant
            lo > i32::MIN,
            lo + n - 1 <= i32::MAX,
            k <= n,
            w == widest(lo as int, k as int),
            w <= 11,
        decreases n - k,
    {
        let v = (lo as i64 + k as i64) as i32;
        let b = num_width(v);
        proof {
            lemma_width_bound(v);
        }
        if b > w {
            w = b;
        }
        k = k + 1;
    }
    w
}

/// An `i32` value has at most 11 characters.
proof fn lemma_width_bound(v: i32)
    requires
        v > i32::MIN,
    ensures
        text_len(v as int) <= 11,
{
    let m: nat = if v < 0 {
        (-v) as nat
    } else {
        v as nat
    };
    lemma_digits_len(if m >= 1 { m } else { 1 });
    lemma_digit_count_bound(m);
    if m == 0 {
        reveal_with_fuel(crate::text::nat_text, 2);
    } else {
        lemma_digits_len(m);
    }
}

/// The header of a seed map: seed, ranges, dimensions and rule, then the
/// column header line and a rule of dashes under the cells.
pub open spec fn seed_header(seed: i64, l: SeedMapLayout) -> Seq<char> {
    "Seed: "@ + int_text(seed as int) + "\nX range: ["@ + int_text(l.min_x as int) + ", "@ + int_text(l.max_x as int)
        + "]  Z range: ["@ + int_text(l.min_z as int) + ", "@ + int_text(l.max_z as int) + "]\nDimensions: "@
        + int_text(l.x_count as int) + " × "@ + int_text(l.z_count as int) + "\nRule: nextInt("@ + int_text(
        BOUND as int,
    ) + ") == "@ + int_text(TARGET as int) + "\n"@ + spaces(l.z_col_width as int) + column_headers(
        l.min_x as int,
        l.x_count as int,
        l.cell_width as int,
    ) + "\n"@ + spaces(l.z_col_width as int) + dash_run(l.x_count * l.cell_width) + "\n"@
}

/// The first `n` rows of a seed map: the row coordinate left-aligned and a
/// bar, then the cells of the row.
pub open spec fn map_rows(seed: i64, l: SeedMapLayout, n: int) -> Seq<char>
    decreases n,
{
    if n <= 0 {
        Seq::empty()
    } else {
        let z = l.min_z + n - 1;
        map_rows(seed, l, n - 1) + pad_right(int_text(z), l.max_width as int) + "|"@ + row_cells(
            seed,
            l.min_x as int,
            l.x_count as int,
            z as i32,
            l.cell_width as int,
        ) + "\n"@
    }
}

/// The whole seed map.
pub open spec fn seed_file(seed: i64, l: SeedMapLayout) -> Seq<char> {
    seed_header(seed, l) + map_rows(seed, l, l.z_count as int)
}

/// Appends `t` and the spaces that fill it to `w` characters.
fn push_padded_right(s: &mut String, v: i128, w: usize)
    requires
        v > i128::MIN,
    ensures
        final(s)@ == old(s)@ + pad_right(int_text(v as int), w as int),
{
    let l = crate::text::int_text_length(v);
    push_int(s, v);
    if w > l {
        push_spaces(s, w - l);
    } else {
        proof {
            assert(spaces(w - l) =~= Seq::<char>::empty());
        }
    }
    proof {
        assert(s@ =~= old(s)@ + pad_right(int_text(v as int), w as int));
    }
}

/// The header of a seed map.
pub fn build_seed_header(l: &SeedMapLayout, seed: i64) -> (h: String)
    requires
        l.wf(),
    ensures
        h@ == seed_header(seed, *l),
{
    let mut h = String::new();
    push_str(&mut h, "Seed: ");
    push_int(&mut h, seed as i128);
    push_str(&mut h, "\nX range: [");
    push_int(&mut h, l.min_x as i128);
    push_str(&mut h, ", ");
    push_int(&mut h, l.max_x as i128);
    push_str(&mut h, "]  Z range: [");
    push_int(&mut h, l.min_z as i128);
    push_str(&mut h, ", ");
    push_int(&mut h, l.max_z as i128);
    push_str(&mut h, "]\nDimensions: ");
    push_int(&mut h, l.x_count as i128);
    push_str(&mut h, " × ");
    push_int(&mut h, l.z_count as i128);
    push_str(&mut h, "\nRule: nextInt(");
    push_int(&mut h, BOUND as i128);
    push_str(&mut h, ") == ");
    push_int(&mut h, TARGET as i128);
    push_str(&mut h, "\n");
    let ghost top = h@;
    push_spaces(&mut h, l.z_col_width);
    let ghost before_cols = h@;
    let mut k: usize = 0;
    proof {
        assert(h@ =~= before_cols + column_headers(l.min_x as int, 0, l.cell_width as int));
    }
    while k < l.x_count
        invariant
            l.wf(),
            k <= l.x_count,
            h@ == before_cols + column_headers(l.min_x as int, k as int, l.cell_width as int),
        decreases l.x_count - k,
    {
        let x = (l.min_x as i64 + k as i64) as i128;
        push_padded_right(&mut h, x, l.cell_width);
        proof {
            assert(h@ =~= before_cols + column_headers(l.min_x as int, k + 1, l.cell_width as int));
        }
        k = k + 1;
    }
    push_str(&mut h, "\n");
    push_spaces(&mut h, l.z_col_width);
    let ghost before_dashes = h@;
    proof {
        assert(l.x_count * l.cell_width <= l.x_count * 12) by (nonlinear_arith)
            requires
                l.cell_width <= 12,
        ;
    }
    let n = l.x_count * l.cell_width;
    let mut d: usize = 0;
    while d < n
        invariant
            d <= n,
            h@ == before_dashes + dash_run(d as int),
        decreases n - d,
    {
        push_char(&mut h, '-');
        proof {
            assert(dash_run(d as int).push('-') =~= dash_run(d + 1));
        }
        d = d + 1;
    }
    push_str(&mut h, "\n");
    proof {
        assert(h@ =~= seed_header(seed, *l));
    }
    h
}

/// Appends the cells of row `z`, `fx_terms` holding the column terms.
fn push_row_cells(s: &mut String, l: &SeedMapLayout, seed: i64, z: i32, fz: i64, fx_terms: &Vec<i64>, rng: &mut FastRandom)
    requires
        l.wf(),
        fz == row_term(z),
        fx_terms@.len() == l.x_count,
        forall|k: int| 0 <= k < l.x_count ==> #[trigger] fx_terms@[k] as int == fx_of((l.min_x + k) as i32),
    ensures
        final(s)@ == old(s)@ + row_cells(seed, l.min_x as int, l.x_count as int, z, l.cell_width as int),
{
    let ghost start = s@;
    let mut k: usize = 0;
    while k < l.x_count
        invariant
            l.wf(),
            fz == row_term(z),
            fx_terms@.len() == l.x_count,
            forall|j: int| 0 <= j < l.x_count ==> #[trigger] fx_terms@[j] as int == fx_of((l.min_x + j) as i32),
            k <= l.x_count,
            s@ == start + row_cells(seed, l.min_x as int, k as int, z, l.cell_width as int),
        decreases l.x_count - k,
    {
        let ghost x = (l.min_x + k) as i32;
        let b = map_cell(rng, seed, fx_terms[k], fz);
        proof {
            lemma_cell_is_slime(seed, x, z);
        }
        let ghost before = s@;
        if b {
            push_char(s, '1');
        } else {
            push_char(s, '0');
        }
        push_spaces(s, l.cell_width - 1);
        proof {
            assert(s@ =~= start + row_cells(seed, l.min_x as int, k + 1, z, l.cell_width as int));
        }
        k = k + 1;
    }
}

/// The line of row `zi` of the map: its coordinate, `|`, and its cells.
pub open spec fn map_row(seed: i64, l: SeedMapLayout, zi: int) -> Seq<char> {
    let z = l.min_z + zi;
    pad_right(int_text(z), l.max_width as int) + "|"@ + row_cells(
        seed,
        l.min_x as int,
        l.x_count as int,
        z as i32,
        l.cell_width as int,
    ) + "\n"@
}

/// The lines of rows `a .. b` of the map.
pub open spec fn rows_between(seed: i64, l: SeedMapLayout, a: int, b: int) -> Seq<char>
    decreases b - a,
{
    if b <= a {
        Seq::empty()
    } else {
        rows_between(seed, l, a, b - 1) + map_row(seed, l, b - 1)
    }
}

proof fn lemma_rows_split(seed: i64, l: SeedMapLayout, a: int, b: int)
    requires
        0 <= a <= b,
    ensures
        map_rows(seed, l, b) == map_rows(seed, l, a) + rows_between(seed, l, a, b),
    decreases b - a,
{
    if b > a {
        lemma_rows_split(seed, l, a, b - 1);
        assert(map_rows(seed, l, b) =~= map_rows(seed, l, b - 1) + map_row(seed, l, b - 1));
    } else {
        assert(map_rows(seed, l, a) + Seq::empty() =~= map_rows(seed, l, a));
    }
}

/// The column terms of the layout's columns.
fn column_terms(l: &SeedMapLayout) -> (fx_terms: Vec<i64>)
    requires
        l.wf(),
    ensures
        fx_terms@.len() == l.x_count,
        forall|j: int| 0 <= j < l.x_count ==> #[trigger] fx_terms@[j] as int == fx_of((l.min_x + j) as i32),
{
    let mut fx_terms: Vec<i64> = Vec::new();
    let mut k: usize = 0;
    while k < l.x_count
        invariant
            l.wf(),
            k <= l.x_count,
            fx_terms@.len() == k,
            forall|j: int| 0 <= j < k ==> #[trigger] fx_terms@[j] as int == fx_of((l.min_x + j) as i32),
        decreases l.x_count - k,
    {
        fx_terms.push(compute_fx((l.min_x as i64 + k as i64) as i32));
        k = k + 1;
    }
    fx_terms
}

/// The lines of rows `a .. b` of the map of `seed`.
fn seed_rows(l: &SeedMapLayout, seed: i64, fx_terms: &Vec<i64>, a: usize, b: usize) -> (out: String)
    requires
        l.wf(),
        a <= b <= l.z_count,
        fx_terms@.len() == l.x_count,
        forall|j: int| 0 <= j < l.x_count ==> #[trigger] fx_terms@[j] as int == fx_of((l.min_x + j) as i32),
    ensures
        out@ == rows_between(seed, *l, a as int, b as int),
{
    let mut out = String::new();
    let mut rng = FastRandom::zero();
    let mut zi: usize = a;
    proof {
        assert(out@ =~= rows_between(seed, *l, a as int, a as int));
    }
    while zi < b
        invariant
            l.wf(),
            a <= zi <= b <= l.z_count,
            fx_terms@.len() == l.x_count,
            forall|j: int| 0 <= j < l.x_count ==> #[trigger] fx_terms@[j] as int == fx_of((l.min_x + j) as i32),
            out@ == rows_between(seed, *l, a as int, zi as int),
        decreases b - zi,
    {
        let z = (l.min_z as i64 + zi as i64) as i32;
        let fz = row_term_of(z);
        let ghost before = out@;
        push_padded_right(&mut out, z as i128, l.max_width);
        push_char(&mut out, '|');
        push_row_cells(&mut out, l, seed, z, fz, &fx_terms, &mut rng);
        push_char(&mut out, '\n');
        proof {
            reveal_strlit("|");
            reveal_strlit("\n");
            assert(out@ =~= rows_between(seed, *l, a as int, zi + 1));
        }
        zi = zi + 1;
    }
    out
}

/// First row of block `id` when the rows are cut into blocks of `chunk`.
pub open spec fn block_lo(l: SeedMapLayout, chunk: int, id: int) -> int {
    if id * chunk <= l.z_count {
        id * chunk
    } else {
        l.z_count as int
    }
}

/// Row after the last row of block `id`.
pub open spec fn block_hi(l: SeedMapLayout, chunk: int, id: int) -> int {
    block_lo(l, chunk, id + 1)
}

/// The first row of block `id`, as a `usize`.
fn block_start(l: &SeedMapLayout, chunk: usize, id: usize) -> (r: usize)
    requires
        l.wf(),
        chunk <= l.z_count,
        id <= l.z_count,
    ensures
        r as int == block_lo(*l, chunk as int, id as int),
        r <= l.z_count,
{
    proof {
        assert(id * chunk <= 0x1_0000_0000 * 0x1_0000_0000) by (nonlinear_arith)
            requires
                id <= 0x1_0000_0000,
                chunk <= 0x1_0000_0000,
        ;
    }
    let p = id as u128 * chunk as u128;
    if p <= l.z_count as u128 {
        p as usize
    } else {
        l.z_count
    }
}

/// Rows of block `id` of the map, the rows being cut into blocks of
/// `chunk` rows.
fn seed_block(l: &SeedMapLayout, seed: i64, fx_terms: &Vec<i64>, chunk: usize, id: usize) -> (out: String)
    requires
        l.wf(),
        chunk <= l.z_count,
        id < l.z_count,
        fx_terms@.len() == l.x_count,
        forall|j: int| 0 <= j < l.x_count ==> #[trigger] fx_terms@[j] as int == fx_of((l.min_x + j) as i32),
    ensures
        out@ == rows_between(seed, *l, block_lo(*l, chunk as int, id as int), block_hi(*l, chunk as int, id as int)),
{
    let a = block_start(l, chunk, id);
    let b = block_start(l, chunk, id + 1);
    proof {
        assert(id * chunk <= (id + 1) * chunk) by (nonlinear_arith)
            requires
                0 <= chunk,
        ;
    }
    seed_rows(l, seed, fx_terms, a, b)
}

/// `rayon::current_num_threads`: the number of threads of the current
/// rayon pool. It depends on the machine; nothing is promised of it.
#[verifier::external_body]
fn pool_threads() -> usize {
    rayon::current_num_threads()
}

/// `rayon`'s `into_par_iter().map(..).collect_into_vec(..)` over the block
/// indices `0 .. blocks`: each block of rows is written by [`seed_block`] on
/// some thread. The contract claims that element `id` of the result is what
/// `seed_block` returns for block `id`, as rayon documents of
/// `collect_into_vec` on an indexed iterator.
#[verifier::external_body]
fn seed_blocks_in_parallel(
    l: &SeedMapLayout,
    seed: i64,
    fx_terms: &Vec<i64>,
    chunk: usize,
    blocks: usize,
) -> (r: Vec<String>)
    requires
        l.wf(),
        chunk <= l.z_count,
        blocks <= l.z_count,
        fx_terms@.len() == l.x_count,
        forall|j: int| 0 <= j < l.x_count ==> #[trigger] fx_terms@[j] as int == fx_of((l.min_x + j) as i32),
    ensures
        r@.len() == blocks,
        forall|id: int|
            0 <= id < blocks ==> #[trigger] r@[id]@ == rows_between(
                seed,
                *l,
                block_lo(*l, chunk as int, id),
                block_hi(*l, chunk as int, id),
            ),
{
    let mut out = Vec::new();
    (0..blocks).into_par_iter().map(|id| seed_block(l, seed, fx_terms, chunk, id)).collect_into_vec(&mut out);
    out
}

/// Rows per block when `n` rows are cut into `blocks` blocks: `n / blocks`
/// rounded up.
fn block_size(n: usize, blocks: usize) -> (chunk: usize)
    requires
        1 <= blocks <= n,
    ensures
        chunk <= n,
        blocks * chunk >= n,
{
    let q = n / blocks;
    let rem = n % blocks;
    let ghost ni = n as int;
    let ghost bi = blocks as int;
    proof {
        vstd::arithmetic::div_mod::lemma_fundamental_div_mod(ni, bi);
        assert(0 <= q * bi) by (nonlinear_arith)
            requires
                0 <= q,
                0 <= bi,
        ;
        assert(q <= q * bi) by (nonlinear_arith)
            requires
                0 <= q,
                1 <= bi,
        ;
    }
    if rem != 0 {
        proof {
            assert(q * bi < ni);
            assert(bi * (q + 1) == bi * q + bi) by (nonlinear_arith);
        }
        q + 1
    } else {
        proof {
            assert(bi * q == ni);
        }
        q
    }
}

/// The whole seed map of world `world_seed`, taken as its low 64 bits. The
/// rows are cut into one block per thread of the rayon pool, and the
/// blocks are written in parallel.
pub fn seed_file_text(l: &SeedMapLayout, world_seed: i128) -> (text: String)
    requires
        l.wf(),
    ensures
        text@ == seed_file(world_seed as i64, *l),
{
    let seed = #[verifier::truncate] (world_seed as i64);
    let mut out = build_seed_header(l, seed);
    let fx_terms = column_terms(l);
    let zc = l.z_count;
    let t = pool_threads();
    let blocks: usize = if t == 0 {
        1
    } else if t > zc {
        zc
    } else {
        t
    };
    let chunk = block_size(zc, blocks);
    let parts = seed_blocks_in_parallel(l, seed, &fx_terms, chunk, blocks);
    let ghost head = out@;
    proof {
        lemma_rows_split(seed, *l, 0, 0);
        assert(out@ =~= head + map_rows(seed, *l, block_lo(*l, chunk as int, 0)));
    }
    let mut id: usize = 0;
    while id < blocks
        invariant
            l.wf(),
            1 <= blocks <= l.z_count,
            chunk <= l.z_count,
            blocks * chunk >= l.z_count,
            parts@.len() == blocks,
            forall|j: int|
                0 <= j < blocks ==> #[trigger] parts@[j]@ == rows_between(
                    seed,
                    *l,
                    block_lo(*l, chunk as int, j),
                    block_hi(*l, chunk as int, j),
                ),
            id <= blocks,
            out@ == head + map_rows(seed, *l, block_lo(*l, chunk as int, id as int)),
        decreases blocks - id,
    {
        let ghost lo = block_lo(*l, chunk as int, id as int);
        let ghost hi = block_hi(*l, chunk as int, id as int);
        proof {
            assert(id * chunk <= (id + 1) * chunk) by (nonlinear_arith);
            assert(0 <= id * chunk) by (nonlinear_arith)
                requires
                    0 <= id,
                    0 <= chunk,
            ;
            lemma_rows_split(seed, *l, lo, hi);
        }
        push_str(&mut out, parts[id].as_str());
        proof {
            assert(out@ =~= head + map_rows(seed, *l, hi));
        }
        id = id + 1;
    }
    proof {
        assert(blocks as int * chunk as int >= l.z_count);
        assert(block_lo(*l, chunk as int, blocks as int) == l.z_count);
    }
    out
}

} // verus!
