//! Run statistics: stage times, chunks scanned and matches found, and the
//! digit grouping used to print them.
use vstd::prelude::*;
use vstd::string::StrSliceExecFns;
use crate::timer::StageTimes;
use crate::text::push_char;

verus! {

/// Statistics of a run.
pub struct Stats {
    times: StageTimes,
    total_blocks: u64,
    match_count: usize,
}

impl Stats {
    /// Stage times.
    pub closed spec fn stage_times(&self) -> StageTimes {
        self.times
    }

    /// Chunks scanned.
    pub closed spec fn blocks(&self) -> u64 {
        self.total_blocks
    }

    /// Matches found.
    pub closed spec fn matches(&self) -> usize {
        self.match_count
    }

    /// Statistics of the given values.
    pub fn new(times: StageTimes, total_blocks: u64, match_count: usize) -> (r: Stats)
        ensures
            r.stage_times() == times,
            r.blocks() == total_blocks,
            r.matches() == match_count,
    {
        Stats { times, total_blocks, match_count }
    }

    /// Stage times.
    pub fn times(&self) -> (r: StageTimes)
        ensures
            r == self.stage_times(),
    {
        self.times
    }

    /// Chunks scanned.
    pub fn total_blocks(&self) -> (r: u64)
        ensures
            r == self.blocks(),
    {
        self.total_blocks
    }

    /// Matches found.
    pub fn match_count(&self) -> (r: usize)
        ensures
            r == self.matches(),
    {
        self.match_count
    }

    /// `s` with a comma inserted into its part before the first `.` after
    /// every character that is followed by a positive multiple of three
    /// characters of that part, and with the part between the first and the
    /// second `.` kept behind a `.` when it is not empty; text after a
    /// second `.` is dropped.
    pub fn add_thousand_separator(s: &str) -> (r: String)
        ensures
            r@ == with_separators(s@),
    {
        let n = s.unicode_len();
        let mut dot: usize = 0;
        while dot < n && s.get_char(dot) != '.'
            invariant
                n == s@.len(),
                dot <= n,
                forall|k: int| 0 <= k < dot ==> s@[k] != '.',
            decreases n - dot,
        {
            dot = dot + 1;
        }
        proof {
            assert(first_dot(s@) == dot as int) by {
                lemma_first_dot(s@, dot as int);
            }
        }
        let mut result = String::new();
        let mut i: usize = 0;
        let ghost int_part = s@.take(dot as int);
        while i < dot
            invariant
                n == s@.len(),
                dot <= n,
                int_part == s@.take(dot as int),
                i <= dot,
                result@ == grouped(int_part, i as int),
            decreases dot - i,
        {
            push_char(&mut result, s.get_char(i));
            let left = dot - i - 1;
            if left > 0 && left % 3 == 0 {
                push_char(&mut result, ',');
            }
            proof {
                assert(int_part[i as int] == s@[i as int]);
            }
            i = i + 1;
        }
        if dot < n {
            let mut end = dot + 1;
            while end < n && s.get_char(end) != '.'
                invariant
                    n == s@.len(),
                    dot < end <= n,
                    forall|k: int| dot < k < end ==> s@[k] != '.',
                decreases n - end,
            {
                end = end + 1;
            }
            proof {
                let rest = s@.skip(dot + 1);
                assert forall|k: int| 0 <= k < end - dot - 1 implies rest[k] != '.' by {
                    assert(rest[k] == s@[k + dot + 1]);
                }
                if end < n {
                    assert(rest[end - dot - 1] == s@[end as int]);
                }
                lemma_first_dot(rest, end - dot - 1);
            }
            if end > dot + 1 {
                push_char(&mut result, '.');
                let mut j = dot + 1;
                let ghost base = result@;
                while j < end
                    invariant
                        n == s@.len(),
                        dot < j <= end <= n,
                        result@ == base + s@.subrange(dot + 1, j as int),
                    decreases end - j,
                {
                    push_char(&mut result, s.get_char(j));
                    proof {
                        assert(s@.subrange(dot + 1, j + 1) =~= s@.subrange(dot + 1, j as int).push(s@[j as int]));
                    }
                    j = j + 1;
                }
                proof {
                    assert(s@.skip(dot + 1).take(end - dot - 1) =~= s@.subrange(dot + 1, end as int));
                }
            }
        }
        proof {
            assert(result@ =~= with_separators(s@));
        }
        result
    }
}

/// Index of the first `.` in `s`, or its length when there is none.
pub open spec fn first_dot(s: Seq<char>) -> int
    decreases s.len(),
{
    if s.len() == 0 {
        0
    } else if s[0] == '.' {
        0
    } else {
        1 + first_dot(s.drop_first())
    }
}

proof fn lemma_first_dot(s: Seq<char>, d: int)
    requires
        0 <= d <= s.len(),
        forall|k: int| 0 <= k < d ==> s[k] != '.',
        d < s.len() ==> s[d] == '.',
    ensures
        first_dot(s) == d,
    decreases s.len(),
{
    if s.len() > 0 && d > 0 {
        lemma_first_dot(s.drop_first(), d - 1);
    }
}

/// The first `i` characters of `p`, each followed by a comma when a
/// positive multiple of three characters of `p` come after it.
pub open spec fn grouped(p: Seq<char>, i: int) -> Seq<char>
    decreases i,
{
    if i <= 0 {
        Seq::empty()
    } else {
        let left = p.len() - i;
        grouped(p, i - 1).push(p[i - 1]) + if left > 0 && left % 3 == 0 {
            seq![',']
        } else {
            Seq::empty()
        }
    }
}

/// `s` with its part before the first `.` grouped by threes, and the part
/// up to a second `.` kept behind a `.` when it is not empty.
pub open spec fn with_separators(s: Seq<char>) -> Seq<char> {
    let d = first_dot(s);
    let int_part = s.take(d);
    let head = grouped(int_part, d);
    if d < s.len() {
        let rest = s.skip(d + 1);
        let dec = rest.take(first_dot(rest));
        if dec.len() > 0 {
            head + seq!['.'] + dec
        } else {
            head
        }
    } else {
        head
    }
}

/// `s` without its commas.
pub open spec fn without_commas(s: Seq<char>) -> Seq<char> {
    s.filter(|c: char| c != ',')
}

/// Grouping adds commas and nothing else: taking the commas out of the
/// grouped first `i` characters of a part without commas gives those
/// characters back.
pub proof fn lemma_grouping_keeps_digits(p: Seq<char>, i: int)
    requires
        0 <= i <= p.len(),
        forall|k: int| 0 <= k < p.len() ==> #[trigger] p[k] != ',',
    ensures
        without_commas(grouped(p, i)) == p.take(i),
    decreases i,
{
    reveal(Seq::filter);
    if i > 0 {
        lemma_grouping_keeps_digits(p, i - 1);
        let left = p.len() - i;
        let g = grouped(p, i - 1);
        let wc = g.push(p[i - 1]);
        assert(wc.drop_last() =~= g);
        assert(p.take(i) =~= p.take(i - 1).push(p[i - 1]));
        if left > 0 && left % 3 == 0 {
            let wcc = wc.push(',');
            assert(wcc.drop_last() =~= wc);
            assert(wc + seq![','] =~= wcc);
        } else {
            assert(wc + Seq::<char>::empty() =~= wc);
        }
    } else {
        assert(grouped(p, 0) =~= Seq::<char>::empty());
    }
}

/// Before the last three characters, grouping `p` and grouping `p` less its
/// last three characters agree.
proof fn lemma_grouped_drop_three(p: Seq<char>, i: int)
    requires
        p.len() > 3,
        0 <= i < p.len() - 3,
    ensures
        grouped(p, i) == grouped(p.take(p.len() - 3), i),
    decreases i,
{
    if i > 0 {
        lemma_grouped_drop_three(p, i - 1);
        let q = p.take(p.len() - 3);
        assert(q[i - 1] == p[i - 1]);
        assert((p.len() - i) % 3 == (q.len() - i) % 3) by {
            assert(p.len() - i == (q.len() - i) + 3);
        }
    }
}

/// After a point with fewer than three characters left, grouping adds the
/// characters alone.
proof fn lemma_grouped_no_commas(p: Seq<char>, m: int, i: int)
    requires
        0 <= m <= i <= p.len(),
        p.len() - m <= 3,
    ensures
        grouped(p, i) == grouped(p, m) + p.subrange(m, i),
    decreases i - m,
{
    if i > m {
        lemma_grouped_no_commas(p, m, i - 1);
        assert(grouped(p, i) =~= grouped(p, i - 1).push(p[i - 1]));
        assert(p.subrange(m, i) =~= p.subrange(m, i - 1).push(p[i - 1]));
    } else {
        assert(p.subrange(m, i) =~= Seq::<char>::empty());
    }
}

/// The integer part is grouped by threes from the right: a part of at most
/// three characters gets no comma, and a longer one is the grouping of all
/// but its last three characters, a comma, and those three characters. So
/// the first group holds one to three characters and every later one three.
pub proof fn lemma_grouping_shape(p: Seq<char>)
    ensures
        p.len() <= 3 ==> grouped(p, p.len() as int) == p,
        p.len() > 3 ==> grouped(p, p.len() as int) == grouped(p.take(p.len() - 3), p.len() - 3) + seq![',']
            + p.skip(p.len() - 3),
{
    let n = p.len() as int;
    if n <= 3 {
        lemma_grouped_no_commas(p, 0, n);
        assert(grouped(p, 0) =~= Seq::<char>::empty());
        assert(p.subrange(0, n) =~= p);
    } else {
        let m = n - 3;
        let q = p.take(m);
        lemma_grouped_drop_three(p, m - 1);
        assert(grouped(p, m) =~= grouped(p, m - 1).push(p[m - 1]) + seq![',']);
        assert(grouped(q, m) =~= grouped(q, m - 1).push(q[m - 1]));
        lemma_grouped_no_commas(p, m, n);
        assert(p.subrange(m, n) =~= p.skip(m));
    }
}

/// An ASCII digit.
pub open spec fn is_digit(c: char) -> bool {
    '0' <= c <= '9'
}

/// A non-negative decimal as `to_string` or `{:.2}` writes it: one or more
/// digits, then optionally a `.` and one or more digits.
pub open spec fn is_plain_decimal(s: Seq<char>) -> bool {
    let d = first_dot(s);
    &&& d >= 1
    &&& forall|k: int| 0 <= k < d ==> is_digit(#[trigger] s[k])
    &&& d < s.len() ==> d + 1 < s.len() && forall|k: int| d < k < s.len() ==> is_digit(#[trigger] s[k])
}

/// `p` split into groups of three from the right by commas: a part of at
/// most three characters is one group, and a longer one is the grouping of
/// all but its last three characters, a comma, and those three.
pub open spec fn thousands(p: Seq<char>) -> Seq<char>
    decreases p.len(),
{
    if p.len() <= 3 {
        p
    } else {
        thousands(p.take(p.len() - 3)) + seq![','] + p.skip(p.len() - 3)
    }
}

proof fn lemma_grouped_is_thousands(p: Seq<char>)
    ensures
        grouped(p, p.len() as int) == thousands(p),
    decreases p.len(),
{
    lemma_grouping_shape(p);
    if p.len() > 3 {
        let q = p.take(p.len() - 3);
        lemma_grouped_is_thousands(q);
    }
}

/// Taking the commas out of text without commas changes nothing.
proof fn lemma_no_commas_kept(t: Seq<char>)
    requires
        forall|k: int| 0 <= k < t.len() ==> #[trigger] t[k] != ',',
    ensures
        without_commas(t) == t,
    decreases t.len(),
{
    reveal(Seq::filter);
    if t.len() > 0 {
        lemma_no_commas_kept(t.drop_last());
        assert(t.drop_last().push(t.last()) =~= t);
    } else {
        assert(t.filter(|c: char| c != ',') =~= t);
    }
}

/// Digit grouping of a non-negative decimal: its integer part is split by
/// commas into groups of three from the right, so the first group holds one
/// to three digits and every later one three ([`thousands`]); the part from
/// the `.` on is copied unchanged; and taking the commas out gives the
/// decimal back.
pub proof fn lemma_thousand_separator_law(s: Seq<char>)
    requires
        is_plain_decimal(s),
    ensures
        with_separators(s) == thousands(s.take(first_dot(s))) + s.skip(first_dot(s)),
        without_commas(with_separators(s)) == s,
{
    lemma_first_dot_is_dot(s);
    let d = first_dot(s);
    let p = s.take(d);
    lemma_grouped_is_thousands(p);
    assert(p.len() == d);
    if d < s.len() {
        let rest = s.skip(d + 1);
        assert forall|k: int| 0 <= k < rest.len() implies rest[k] != '.' by {
            assert(rest[k] == s[k + d + 1]);
            assert(is_digit(s[k + d + 1]));
        }
        lemma_first_dot(rest, rest.len() as int);
        assert(rest.take(rest.len() as int) =~= rest);
        assert(s[d] == '.') by {
            lemma_first_dot_is_dot(s);
        }
        assert(s.skip(d) =~= seq!['.'] + rest);
        assert(with_separators(s) =~= thousands(p) + s.skip(d));
    } else {
        assert(s.skip(d) =~= Seq::<char>::empty());
        assert(with_separators(s) =~= thousands(p) + s.skip(d));
    }
    assert forall|k: int| 0 <= k < p.len() implies #[trigger] p[k] != ',' by {
        assert(is_digit(s[k]));
    }
    lemma_grouping_keeps_digits(p, d);
    assert(p.take(d) =~= p);
    let tail = s.skip(d);
    assert forall|k: int| 0 <= k < tail.len() implies #[trigger] tail[k] != ',' by {
        assert(tail[k] == s[k + d]);
        if k > 0 {
            assert(is_digit(s[k + d]));
        } else {
            lemma_first_dot_is_dot(s);
        }
    }
    lemma_no_commas_kept(tail);
    Seq::filter_distributes_over_add(thousands(p), tail, |c: char| c != ',');
    assert(s.take(d) + s.skip(d) =~= s) by {
        assert forall|k: int| 0 <= k < s.len() implies #[trigger] (s.take(d) + s.skip(d))[k] == s[k] by {
            if k < d {
                assert(s.take(d)[k] == s[k]);
            } else {
                assert(s.skip(d)[k - d] == s[k]);
            }
        }
    }
}

/// Where `s` holds a `.`, the first one stands at [`first_dot`].
proof fn lemma_first_dot_is_dot(s: Seq<char>)
    ensures
        0 <= first_dot(s) <= s.len(),
        first_dot(s) < s.len() ==> s[first_dot(s)] == '.',
        forall|k: int| 0 <= k < first_dot(s) ==> s[k] != '.',
    decreases s.len(),
{
    if s.len() > 0 && s[0] != '.' {
        lemma_first_dot_is_dot(s.drop_first());
        assert forall|k: int| 0 <= k < first_dot(s) implies s[k] != '.' by {
            if k > 0 {
                assert(s[k] == s.drop_first()[k - 1]);
            }
        }
    }
}

} // verus!
