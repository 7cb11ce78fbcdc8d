//! Decimal text of integers, padding, and string building.
use vstd::prelude::*;
use vstd::string::{StringExecFns, StrSliceExecFns};

verus! {

/// The digit character of a value below 10.
pub open spec fn digit_char(d: int) -> char {
    if d == 0 {
        '0'
    } else if d == 1 {
        '1'
    } else if d == 2 {
        '2'
    } else if d == 3 {
        '3'
    } else if d == 4 {
        '4'
    } else if d == 5 {
        '5'
    } else if d == 6 {
        '6'
    } else if d == 7 {
        '7'
    } else if d == 8 {
        '8'
    } else {
        '9'
    }
}

/// Decimal digits of a natural number, most significant first, no leading zeros.
pub open spec fn nat_text(n: nat) -> Seq<char>
    decreases n,
{
    if n < 10 {
        seq![digit_char(n as int)]
    } else {
        nat_text(n / 10).push(digit_char((n % 10) as int))
    }
}

/// Decimal text of an integer, as `Display` writes it: a minus sign for
/// negative values, then the digits of the magnitude.
pub open spec fn int_text(v: int) -> Seq<char> {
    if v < 0 {
        seq!['-'] + nat_text((-v) as nat)
    } else {
        nat_text(v as nat)
    }
}

/// `n` spaces.
pub open spec fn spaces(n: int) -> Seq<char> {
    Seq::new(if n > 0 { n as nat } else { 0 }, |i: int| ' ')
}

/// `s` right-aligned in a field of `width` characters, as `{:>width$}`
/// writes it: spaces in front when `s` is shorter, `s` alone otherwise.
pub open spec fn pad_left(s: Seq<char>, width: int) -> Seq<char> {
    spaces(width - s.len()) + s
}

/// Number of characters of the decimal text of `v`.
pub open spec fn text_len(v: int) -> int {
    int_text(v).len() as int
}

/// Appends one character. This is `String::push`, which the standard library
/// documents as appending the given `char` to the end of the string.
#[verifier::external_body]
pub(crate) fn push_char(s: &mut String, c: char)
    ensures
        final(s)@ == old(s)@.push(c),
{
    s.push(c)
}

/// Appends a string slice.
pub fn push_str(s: &mut String, t: &str)
    ensures
        final(s)@ == old(s)@ + t@,
{
    s.append(t);
}

fn digit(d: u128) -> (c: char)
    requires
        d < 10,
    ensures
        c == digit_char(d as int),
{
    if d == 0 {
        '0'
    } else if d == 1 {
        '1'
    } else if d == 2 {
        '2'
    } else if d == 3 {
        '3'
    } else if d == 4 {
        '4'
    } else if d == 5 {
        '5'
    } else if d == 6 {
        '6'
    } else if d == 7 {
        '7'
    } else if d == 8 {
        '8'
    } else {
        '9'
    }
}

proof fn lemma_nat_text_len(n: nat)
    ensures
        nat_text(n).len() >= 1,
    decreases n,
{
    if n >= 10 {
        lemma_nat_text_len(n / 10);
    }
}

/// Appends the decimal digits of `n`.
pub fn push_nat(s: &mut String, n: u128)
    ensures
        final(s)@ == old(s)@ + nat_text(n as nat),
{
    // Digits are produced least significant first, then appended in reverse.
    let mut rev: Vec<char> = Vec::new();
    let mut m: u128 = n;
    let c0 = digit(m % 10);
    rev.push(c0);
    let ghost mut done: Seq<char> = seq![c0];
    proof {
        if m >= 10 {
            assert(nat_text(n as nat) == nat_text((n / 10) as nat).push(c0));
            assert(nat_text((n / 10) as nat).push(c0) =~= nat_text((n / 10) as nat) + done);
        } else {
            assert(nat_text(n as nat) =~= Seq::<char>::empty() + done);
        }
    }
    while m >= 10
        invariant
            m <= n,
            nat_text(n as nat) == (if m >= 10 {
                nat_text((m / 10) as nat)
            } else {
                Seq::<char>::empty()
            }) + done,
            forall|k: int| 0 <= k < done.len() ==> #[trigger] done[k] == rev@[rev@.len() - 1 - k],
            done.len() == rev@.len(),
        decreases m,
    {
        m = m / 10;
        let c = digit(m % 10);
        rev.push(c);
        proof {
            let old_done = done;
            done = seq![c] + old_done;
            if m >= 10 {
                assert(nat_text(m as nat) == nat_text((m / 10) as nat).push(c));
                assert(nat_text((m / 10) as nat).push(c) + old_done =~= nat_text((m / 10) as nat)
                    + done);
            } else {
                assert(nat_text(m as nat) == seq![c]);
                assert(seq![c] + old_done =~= Seq::<char>::empty() + done);
            }
        }
    }
    proof {
        assert(nat_text(n as nat) =~= done);
    }
    let mut k: usize = rev.len();
    let ghost start = s@;
    while k > 0
        invariant
            k <= rev@.len(),
            done.len() == rev@.len(),
            forall|j: int| 0 <= j < done.len() ==> #[trigger] done[j] == rev@[rev@.len() - 1 - j],
            s@ == start + done.take(rev@.len() - k),
        decreases k,
    {
        k = k - 1;
        let c = rev[k];
        push_char(s, c);
        proof {
            assert(done.take(rev@.len() - k) =~= done.take(rev@.len() - k - 1).push(c));
        }
    }
    proof {
        assert(done.take(rev@.len() as int) =~= done);
    }
}

/// Appends the decimal text of `v`.
pub fn push_int(s: &mut String, v: i128)
    requires
        v > i128::MIN,
    ensures
        final(s)@ == old(s)@ + int_text(v as int),
{
    if v < 0 {
        push_char(s, '-');
        let ghost after_sign = s@;
        push_nat(s, (-v) as u128);
        proof {
            assert(s@ =~= old(s)@ + int_text(v as int));
        }
    } else {
        push_nat(s, v as u128);
    }
}

/// Appends `n` spaces.
pub fn push_spaces(s: &mut String, n: usize)
    ensures
        final(s)@ == old(s)@ + spaces(n as int),
{
    let mut k: usize = 0;
    while k < n
        invariant
            k <= n,
            s@ == old(s)@ + spaces(k as int),
        decreases n - k,
    {
        push_char(s, ' ');
        proof {
            assert(spaces(k as int).push(' ') =~= spaces(k + 1));
        }
        k = k + 1;
    }
}

/// The decimal text of `v` as a new string.
pub fn int_to_string(v: i128) -> (r: String)
    requires
        v > i128::MIN,
    ensures
        r@ == int_text(v as int),
{
    let mut s = String::new();
    push_int(&mut s, v);
    proof {
        assert(s@ =~= int_text(v as int));
    }
    s
}

/// Number of characters in the decimal text of `v`.
pub fn int_text_length(v: i128) -> (r: usize)
    requires
        v > i128::MIN,
    ensures
        r as int == text_len(v as int),
{
    let s = int_to_string(v);
    s.as_str().unicode_len()
}

/// 10^k.
pub open spec fn ten_pow(k: nat) -> nat
    decreases k,
{
    if k == 0 {
        1
    } else {
        10 * ten_pow((k - 1) as nat)
    }
}

/// The decimal text of any `i128` value but the smallest has at most 40
/// characters.
pub proof fn lemma_int_text_len_bound(v: int)
    requires
        -0x8000_0000_0000_0000_0000_0000_0000_0000 < v < 0x8000_0000_0000_0000_0000_0000_0000_0000,
    ensures
        1 <= int_text(v).len() <= 40,
{
    let m: nat = if v < 0 {
        (-v) as nat
    } else {
        v as nat
    };
    reveal_with_fuel(ten_pow, 40);
    assert(m < ten_pow(39));
    lemma_nat_text_len_le(m, 39);
    lemma_nat_text_len(m);
}

/// A natural number below 10^k has at most k digits.
proof fn lemma_nat_text_len_le(n: nat, k: nat)
    requires
        n < ten_pow(k),
        k >= 1,
    ensures
        nat_text(n).len() <= k,
    decreases k,
{
    if n >= 10 {
        if k == 1 {
            assert(ten_pow(1) == 10) by {
                reveal_with_fuel(ten_pow, 2);
            }
        } else {
            assert(n / 10 < ten_pow((k - 1) as nat));
            lemma_nat_text_len_le(n / 10, (k - 1) as nat);
        }
    }
}

/// A larger natural number has at least as many digits.
proof fn lemma_nat_text_len_mono(n: nat, m: nat)
    requires
        n <= m,
    ensures
        nat_text(n).len() <= nat_text(m).len(),
    decreases m,
{
    lemma_nat_text_len(m);
    if n >= 10 {
        lemma_nat_text_len_mono(n / 10, m / 10);
    }
}

/// The decimal text of a value between `a` and `b` is no longer than the
/// longer of theirs.
pub proof fn lemma_text_len_between(a: int, v: int, b: int)
    requires
        a <= v <= b,
    ensures
        text_len(v) <= text_len(a) || text_len(v) <= text_len(b),
{
    if v >= 0 {
        lemma_nat_text_len_mono(v as nat, b as nat);
    } else {
        lemma_nat_text_len_mono((-v) as nat, (-a) as nat);
    }
}

} // verus!
