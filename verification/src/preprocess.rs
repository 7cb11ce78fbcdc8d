//! Search settings: the raw settings as read from a configuration file, and
//! the scan ranges and prepared pattern derived from them.
use vstd::prelude::*;
use vstd::string::StrSliceExecFns;
use crate::pattern::{Pattern, PatternError, pattern_error};
use crate::text::{int_text, push_int, push_str};
use crate::slime_chunk::{fx_of, fz_of, compute_fx, compute_fz};

verus! {

/// Settings as written in the configuration file.
pub struct RawConfig {
    /// World seed.
    pub seed: i64,
    /// Chunk coordinates of the centre of the search.
    pub center_x: i32,
    pub center_z: i32,
    /// Search radius in chunks; the range is `[center - radius, center + radius]`.
    pub radius: u32,
    /// Pattern cells: 1 slime chunk, 0 no slime chunk, 2 either.
    pub pattern: Vec<Vec<u8>>,
    /// Largest number of matches to keep; 0 keeps all.
    pub limit: usize,
    /// `console`, `file` or `both`.
    pub output_mode: String,
    /// Output file path as written; the file is always named after the seed.
    pub output_path: Option<String>,
}

/// Where results are written.
#[derive(Debug, Clone, Copy, PartialEq, Eq)]
pub enum OutputMode {
    Console,
    File,
    Both,
}

/// Why settings cannot be prepared.
#[derive(Debug, Clone, Copy, PartialEq, Eq)]
pub enum PreprocessError {
    /// The pattern is not valid.
    Pattern(PatternError),
}

/// Settings prepared for the search.
pub struct Preprocessed {
    pub seed: i64,
    pub center_x: i32,
    pub center_z: i32,
    pub radius: u32,
    /// Scan range in chunks, both ends included.
    pub x_start: i32,
    pub x_end: i32,
    pub z_start: i32,
    pub z_end: i32,
    pub pattern: Pattern,
    pub limit: usize,
    pub pat_h: usize,
    pub pat_w: usize,
    pub output_mode: OutputMode,
    /// `<seed>_match_output.txt` when results go to a file.
    pub output_path: Option<String>,
    /// Chunk range that the pattern can reach, both ends included.
    pub cache_x0: i32,
    pub cache_x1: i32,
    pub cache_z0: i32,
    pub cache_z1: i32,
}

/// Characters with the Unicode `White_Space` property, which `str::trim`
/// removes.
pub open spec fn is_white_space(c: char) -> bool {
    ||| '\u{9}' <= c <= '\u{d}'
    ||| c == ' '
    ||| c == '\u{85}'
    ||| c == '\u{a0}'
    ||| c == '\u{1680}'
    ||| '\u{2000}' <= c <= '\u{200a}'
    ||| c == '\u{2028}'
    ||| c == '\u{2029}'
    ||| c == '\u{202f}'
    ||| c == '\u{205f}'
    ||| c == '\u{3000}'
}

/// `s` without leading white space.
pub open spec fn trim_start(s: Seq<char>) -> Seq<char>
    decreases s.len(),
{
    if s.len() > 0 && is_white_space(s[0]) {
        trim_start(s.drop_first())
    } else {
        s
    }
}

/// `s` without trailing white space.
pub open spec fn trim_end(s: Seq<char>) -> Seq<char>
    decreases s.len(),
{
    if s.len() > 0 && is_white_space(s.last()) {
        trim_end(s.drop_last())
    } else {
        s
    }
}

/// A character with ASCII capitals turned to lower case.
pub open spec fn ascii_lower(c: char) -> char {
    if 'A' <= c <= 'Z' {
        ((c as int) + 32) as char
    } else {
        c
    }
}

/// The output mode that a setting names: `file` or `both`, ignoring case and
/// surrounding white space, and the console for anything else.
///
/// Only ASCII letters can lower-case to the letters of `file` and `both`, so
/// lower-casing ASCII capitals alone decides the comparison as full Unicode
/// lower-casing would.
pub open spec fn output_mode_of(s: Seq<char>) -> OutputMode {
    let t = trim_end(trim_start(s)).map_values(|c: char| ascii_lower(c));
    if t == seq!['f', 'i', 'l', 'e'] {
        OutputMode::File
    } else if t == seq!['b', 'o', 't', 'h'] {
        OutputMode::Both
    } else {
        OutputMode::Console
    }
}

fn char_is_white_space(c: char) -> (r: bool)
    ensures
        r == is_white_space(c),
{
    ('\u{9}' <= c && c <= '\u{d}') || c == ' ' || c == '\u{85}' || c == '\u{a0}' || c
        == '\u{1680}' || ('\u{2000}' <= c && c <= '\u{200a}') || c == '\u{2028}' || c == '\u{2029}'
        || c == '\u{202f}' || c == '\u{205f}' || c == '\u{3000}'
}

fn char_ascii_lower(c: char) -> (r: char)
    ensures
        r == ascii_lower(c),
{
    if 'A' <= c && c <= 'Z' {
        let code = (c as u32) as u8 + 32;
        code as char
    } else {
        c
    }
}

proof fn lemma_trim_start_index(s: Seq<char>, i: int)
    requires
        0 <= i <= s.len(),
        forall|k: int| 0 <= k < i ==> is_white_space(#[trigger] s[k]),
        i == s.len() || !is_white_space(s[i]),
    ensures
        trim_start(s) == s.subrange(i, s.len() as int),
    decreases i,
{
    if i > 0 {
        lemma_trim_start_index(s.drop_first(), i - 1);
        assert(s.drop_first().subrange(i - 1, s.len() - 1) =~= s.subrange(i, s.len() as int));
    } else {
        assert(s.subrange(0, s.len() as int) =~= s);
    }
}

proof fn lemma_trim_end_index(s: Seq<char>, j: int)
    requires
        0 <= j <= s.len(),
        forall|k: int| j <= k < s.len() ==> is_white_space(#[trigger] s[k]),
        j == 0 || !is_white_space(s[j - 1]),
    ensures
        trim_end(s) == s.subrange(0, j),
    decreases s.len() - j,
{
    if j < s.len() {
        lemma_trim_end_index(s.drop_last(), j);
        assert(s.drop_last().subrange(0, j) =~= s.subrange(0, j));
    } else {
        assert(s.subrange(0, j) =~= s);
    }
}

impl<'a> From<&'a str> for OutputMode {
    /// Parses an output mode; see [`output_mode_of`].
    fn from(s: &'a str) -> (r: OutputMode) {
        let n = s.unicode_len();
        let mut i: usize = 0;
        while i < n && char_is_white_space(s.get_char(i))
            invariant
                i <= n,
                n == s@.len(),
                forall|k: int| 0 <= k < i ==> is_white_space(#[trigger] s@[k]),
            decreases n - i,
        {
            i = i + 1;
        }
        let mut j: usize = n;
        while j > i && char_is_white_space(s.get_char(j - 1))
            invariant
                i <= j <= n,
                n == s@.len(),
                forall|k: int| j <= k < n ==> is_white_space(#[trigger] s@[k]),
            decreases j,
        {
            j = j - 1;
        }
        let ghost ts = s@.subrange(i as int, n as int);
        proof {
            lemma_trim_start_index(s@, i as int);
            if i < j {
                lemma_trim_end_index(ts, j - i);
                assert(ts.subrange(0, j - i) =~= s@.subrange(i as int, j as int));
            } else {
                assert forall|k: int| 0 <= k < ts.len() implies is_white_space(#[trigger] ts[k]) by {
                    assert(ts[k] == s@[i + k]);
                }
                lemma_trim_end_index(ts, 0);
                assert(ts.subrange(0, 0) =~= s@.subrange(i as int, j as int));
            }
        }
        let ghost t = s@.subrange(i as int, j as int).map_values(|c: char| ascii_lower(c));
        if j - i == 4 {
            let c0 = char_ascii_lower(s.get_char(i));
            let c1 = char_ascii_lower(s.get_char(i + 1));
            let c2 = char_ascii_lower(s.get_char(i + 2));
            let c3 = char_ascii_lower(s.get_char(i + 3));
            proof {
                assert(t[0] == c0 && t[1] == c1 && t[2] == c2 && t[3] == c3);
            }
            if c0 == 'f' && c1 == 'i' && c2 == 'l' && c3 == 'e' {
                proof {
                    assert(t =~= seq!['f', 'i', 'l', 'e']);
                }
                return OutputMode::File;
            }
            if c0 == 'b' && c1 == 'o' && c2 == 't' && c3 == 'h' {
                proof {
                    assert(t =~= seq!['b', 'o', 't', 'h']);
                    assert(t != seq!['f', 'i', 'l', 'e']);
                }
                return OutputMode::Both;
            }
            proof {
                if t == seq!['f', 'i', 'l', 'e'] {
                    assert(t[0] == 'f');
                }
                if t == seq!['b', 'o', 't', 'h'] {
                    assert(t[0] == 'b');
                }
            }
        } else {
            proof {
                assert(t.len() != 4);
                assert(seq!['f', 'i', 'l', 'e'].len() == 4);
                assert(seq!['b', 'o', 't', 'h'].len() == 4);
            }
        }
        OutputMode::Console
    }
}

impl<'a> vstd::std_specs::convert::FromSpecImpl<&'a str> for OutputMode {
    open spec fn obeys_from_spec() -> bool {
        true
    }

    open spec fn from_spec(v: &'a str) -> OutputMode {
        output_mode_of(v@)
    }
}

/// Neither the scan range nor the range that the pattern reaches leaves the
/// `i32` range; the radius is taken as an `i32`, as `radius as i32` does.
pub open spec fn ranges_fit(raw_center_x: i32, raw_center_z: i32, radius: u32, grid: Seq<
    Seq<u8>,
>) -> bool {
    let r = #[verifier::truncate] (radius as i32);
    &&& i32::MIN <= raw_center_x - r <= i32::MAX
    &&& i32::MIN <= raw_center_x + r <= i32::MAX
    &&& i32::MIN <= raw_center_z - r <= i32::MAX
    &&& i32::MIN <= raw_center_z + r <= i32::MAX
    &&& pattern_error(grid) is None ==> raw_center_x + r + grid[0].len() - 1 <= i32::MAX
    &&& pattern_error(grid) is None ==> raw_center_z + r + grid.len() - 1 <= i32::MAX
}

/// The file that results are written to: `<seed>_match_output.txt`.
pub open spec fn output_file_name(seed: i64) -> Seq<char> {
    int_text(seed as int) + "_match_output.txt"@
}

impl Preprocessed {
    /// Prepares the settings: validates the pattern and derives the scan range
    /// `[center - radius, center + radius]` on both axes, the range that the
    /// pattern reaches, and the output file.
    pub fn from_raw(raw: &RawConfig) -> (result: Result<Preprocessed, PreprocessError>)
        requires
            ranges_fit(raw.center_x, raw.center_z, raw.radius, raw.pattern.deep_view()),
        ensures
            match result {
                Ok(p) => {
                    let r = #[verifier::truncate] (raw.radius as i32);
                    &&& pattern_error(raw.pattern.deep_view()) is None
                    &&& p.pattern.built_from(raw.pattern.deep_view())
                    &&& p.pattern.wf()
                    &&& p.seed == raw.seed
                    &&& p.center_x == raw.center_x
                    &&& p.center_z == raw.center_z
                    &&& p.radius == raw.radius
                    &&& p.x_start == raw.center_x - r
                    &&& p.x_end == raw.center_x + r
                    &&& p.z_start == raw.center_z - r
                    &&& p.z_end == raw.center_z + r
                    &&& p.limit == raw.limit
                    &&& p.pat_h == p.pattern.height
                    &&& p.pat_w == p.pattern.width
                    &&& p.output_mode == output_mode_of(raw.output_mode@)
                    &&& (p.output_mode == OutputMode::Console ==> p.output_path is None)
                    &&& (p.output_mode != OutputMode::Console ==> p.output_path is Some
                        && p.output_path->0@ == output_file_name(raw.seed))
                    &&& p.cache_x0 == p.x_start
                    &&& p.cache_x1 == p.x_end + p.pat_w - 1
                    &&& p.cache_z0 == p.z_start
                    &&& p.cache_z1 == p.z_end + p.pat_h - 1
                },
                Err(e) => pattern_error(raw.pattern.deep_view()) matches Some(pe) && e
                    == PreprocessError::Pattern(pe),
            },
    {
        let pattern = match Pattern::new(raw.pattern.as_slice()) {
            Ok(p) => p,
            Err(e) => {
                return Err(PreprocessError::Pattern(e));
            },
        };
        let pat_h = pattern.height;
        let pat_w = pattern.width;
        let radius = #[verifier::truncate] (raw.radius as i32);
        let center_x = raw.center_x;
        let center_z = raw.center_z;
        let x_start = center_x - radius;
        let x_end = center_x + radius;
        let z_start = center_z - radius;
        let z_end = center_z + radius;
        let output_mode = OutputMode::from(raw.output_mode.as_str());
        let output_path = match output_mode {
            OutputMode::File | OutputMode::Both => {
                let mut name = String::new();
                push_int(&mut name, raw.seed as i128);
                push_str(&mut name, "_match_output.txt");
                proof {
                    assert(name@ =~= output_file_name(raw.seed));
                }
                Some(name)
            },
            OutputMode::Console => None,
        };
        let cache_x0 = x_start;
        let cache_x1 = x_end + (pat_w as i32 - 1);
        let cache_z0 = z_start;
        let cache_z1 = z_end + (pat_h as i32 - 1);
        Ok(
            Preprocessed {
                seed: raw.seed,
                center_x,
                center_z,
                radius: raw.radius,
                x_start,
                x_end,
                z_start,
                z_end,
                pattern,
                limit: raw.limit,
                pat_h,
                pat_w,
                output_mode,
                output_path,
                cache_x0,
                cache_x1,
                cache_z0,
                cache_z1,
            },
        )
    }
}

} // verus!

verus! {

/// The chunk grid of a counting run: the square of chunks within `radius`
/// of the centre, with the column and row contributions to the chunk seeds
/// computed once.
pub struct PreprocessedData {
    pub center_block_x: i32,
    pub center_block_z: i32,
    /// Chunk range, both ends included.
    pub min_block_x: i32,
    pub max_block_x: i32,
    pub min_block_z: i32,
    pub max_block_z: i32,
    /// Columns, rows and chunks of the grid.
    pub x_count: usize,
    pub z_count: usize,
    pub total_blocks: usize,
    /// `fx_arr[i]` is the contribution of column `min_block_x + i`.
    pub fx_arr: Vec<i64>,
    /// `fz_arr[j]` is the contribution of row `min_block_z + j`.
    pub fz_arr: Vec<i64>,
}

/// The contributions of the `count` columns from `min_x`.
fn column_terms(min_x: i32, count: usize) -> (r: Vec<i64>)
    requires
        min_x + count - 1 <= i32::MAX,
    ensures
        r@.len() == count,
        forall|k: int| 0 <= k < count ==> #[trigger] r@[k] as int == fx_of((min_x + k) as i32),
{
    let mut r: Vec<i64> = Vec::new();
    let mut i: usize = 0;
    while i < count
        invariant
            min_x + count - 1 <= i32::MAX,
            i <= count,
            r@.len() == i,
            forall|k: int| 0 <= k < i ==> #[trigger] r@[k] as int == fx_of((min_x + k) as i32),
        decreases count - i,
    {
        let x = (min_x as i64 + i as i64) as i32;
        r.push(compute_fx(x));
        i = i + 1;
    }
    r
}

/// The contributions of the `count` rows from `min_z`.
fn row_terms(min_z: i32, count: usize) -> (r: Vec<i64>)
    requires
        min_z + count - 1 <= i32::MAX,
    ensures
        r@.len() == count,
        forall|k: int| 0 <= k < count ==> #[trigger] r@[k] as int == fz_of((min_z + k) as i32),
{
    let mut r: Vec<i64> = Vec::new();
    let mut j: usize = 0;
    while j < count
        invariant
            min_z + count - 1 <= i32::MAX,
            j <= count,
            r@.len() == j,
            forall|k: int| 0 <= k < j ==> #[trigger] r@[k] as int == fz_of((min_z + k) as i32),
        decreases count - j,
    {
        let z = (min_z as i64 + j as i64) as i32;
        r.push(compute_fz(z));
        j = j + 1;
    }
    r
}

impl PreprocessedData {
    /// The fields agree: the counts span the ranges and the contribution
    /// tables hold the contribution of each column and row.
    pub open spec fn wf(&self) -> bool {
        &&& self.min_block_x <= self.max_block_x
        &&& self.min_block_z <= self.max_block_z
        &&& self.x_count == self.max_block_x - self.min_block_x + 1
        &&& self.z_count == self.max_block_z - self.min_block_z + 1
        &&& self.total_blocks == self.x_count * self.z_count
        &&& self.fx_arr@.len() == self.x_count
        &&& self.fz_arr@.len() == self.z_count
        &&& forall|i: int| 0 <= i < self.x_count ==> #[trigger] self.fx_arr@[i] as int == fx_of(
            (self.min_block_x + i) as i32,
        )
        &&& forall|j: int| 0 <= j < self.z_count ==> #[trigger] self.fz_arr@[j] as int == fz_of(
            (self.min_block_z + j) as i32,
        )
    }

    /// The grid of the chunks within `radius` of `(center_block_x,
    /// center_block_z)`; `None` when the radius is negative or the grid
    /// leaves the `i32` range or has more chunks than a `usize` counts.
    pub fn new(center_block_x: i32, center_block_z: i32, radius: i32) -> (r: Option<PreprocessedData>)
        ensures
            r is Some <==> (radius >= 0 && i32::MIN <= center_block_x - radius && center_block_x + radius
                <= i32::MAX && i32::MIN <= center_block_z - radius && center_block_z + radius <= i32::MAX
                && (2 * radius + 1) * (2 * radius + 1) <= usize::MAX),
            r matches Some(p) ==> {
                &&& p.wf()
                &&& p.center_block_x == center_block_x
                &&& p.center_block_z == center_block_z
                &&& p.min_block_x == center_block_x - radius
                &&& p.max_block_x == center_block_x + radius
                &&& p.min_block_z == center_block_z - radius
                &&& p.max_block_z == center_block_z + radius
            },
    {
        if radius < 0 {
            return None;
        }
        let cx = center_block_x as i64;
        let cz = center_block_z as i64;
        let r = radius as i64;
        if cx - r < i32::MIN as i64 || cx + r > i32::MAX as i64 || cz - r < i32::MIN as i64 || cz + r > i32::MAX as i64 {
            return None;
        }
        let side = (2 * r + 1) as u64;
        proof {
            assert(side * side <= 0x1_0000_0000 * 0x1_0000_0000) by (nonlinear_arith)
                requires
                    1 <= side <= 0x1_0000_0000,
            ;
        }
        if side > usize::MAX as u64 || side as u128 * side as u128 > usize::MAX as u128 {
            return None;
        }
        let min_x = center_block_x - radius;
        let max_x = center_block_x + radius;
        let min_z = center_block_z - radius;
        let max_z = center_block_z + radius;
        let x_count = side as usize;
        let z_count = side as usize;
        let fx_arr = column_terms(min_x, x_count);
        let fz_arr = row_terms(min_z, z_count);
        Some(
            PreprocessedData {
                center_block_x,
                center_block_z,
                min_block_x: min_x,
                max_block_x: max_x,
                min_block_z: min_z,
                max_block_z: max_z,
                x_count,
                z_count,
                total_blocks: x_count * z_count,
                fx_arr,
                fz_arr,
            },
        )
    }
}

} // verus!
