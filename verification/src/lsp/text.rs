//! Character-level helpers used by the header reader and writer: Unicode
//! whitespace trimming, decimal rendering and decimal parsing of lengths.
use vstd::prelude::*;

verus! {

/// Whether `c` has the Unicode `White_Space` property, as `char::is_whitespace` decides it.
pub open spec fn is_white_space(c: char) -> bool {
    let u = c as u32;
    ||| 0x09 <= u <= 0x0d
    ||| u == 0x20
    ||| u == 0x85
    ||| u == 0xa0
    ||| u == 0x1680
    ||| 0x2000 <= u <= 0x200a
    ||| u == 0x2028
    ||| u == 0x2029
    ||| u == 0x202f
    ||| u == 0x205f
    ||| u == 0x3000
}

/// `s` without its trailing whitespace (what `str::trim_end` keeps).
pub open spec fn trim_end(s: Seq<char>) -> Seq<char>
    decreases s.len(),
{
    if s.len() > 0 && is_white_space(s.last()) {
        trim_end(s.drop_last())
    } else {
        s
    }
}

/// `s` without its leading whitespace (what `str::trim_start` keeps).
pub open spec fn trim_start(s: Seq<char>) -> Seq<char>
    decreases s.len(),
{
    if s.len() > 0 && is_white_space(s[0]) {
        trim_start(s.drop_first())
    } else {
        s
    }
}

/// `s` without leading and trailing whitespace (what `str::trim` keeps).
pub open spec fn trim(s: Seq<char>) -> Seq<char> {
    trim_start(trim_end(s))
}

/// Whitespace test on one character, as `char::is_whitespace` computes it.
pub fn char_is_white_space(c: char) -> (r: bool)
    ensures
        r == is_white_space(c),
{
    let u = c as u32;
    (0x09 <= u && u <= 0x0d) || u == 0x20 || u == 0x85 || u == 0xa0 || u == 0x1680 || (0x2000
        <= u && u <= 0x200a) || u == 0x2028 || u == 0x2029 || u == 0x202f || u == 0x205f || u
        == 0x3000
}

/// The end of `cs[lo..hi]` once its trailing whitespace is cut off.
pub fn trim_end_bound(cs: &Vec<char>, lo: usize, hi: usize) -> (k: usize)
    requires
        lo <= hi <= cs.len(),
    ensures
        lo <= k <= hi,
        cs@.subrange(lo as int, k as int) == trim_end(cs@.subrange(lo as int, hi as int)),
{
    let mut k = hi;
    while k > lo && char_is_white_space(cs[k - 1])
        invariant
            lo <= k <= hi <= cs.len(),
            trim_end(cs@.subrange(lo as int, hi as int)) == trim_end(
                cs@.subrange(lo as int, k as int),
            ),
        decreases k,
    {
        assert(cs@.subrange(lo as int, k as int).drop_last() =~= cs@.subrange(
            lo as int,
            k - 1,
        ));
        k = k - 1;
    }
    k
}

/// The start of `cs[lo..hi]` once its leading whitespace is cut off.
pub fn trim_start_bound(cs: &Vec<char>, lo: usize, hi: usize) -> (k: usize)
    requires
        lo <= hi <= cs.len(),
    ensures
        lo <= k <= hi,
        cs@.subrange(k as int, hi as int) == trim_start(cs@.subrange(lo as int, hi as int)),
{
    let mut k = lo;
    while k < hi && char_is_white_space(cs[k])
        invariant
            lo <= k <= hi <= cs.len(),
            trim_start(cs@.subrange(lo as int, hi as int)) == trim_start(
                cs@.subrange(k as int, hi as int),
            ),
        decreases hi - k,
    {
        assert(cs@.subrange(k as int, hi as int).drop_first() =~= cs@.subrange(
            k + 1,
            hi as int,
        ));
        k = k + 1;
    }
    k
}


/// Whether `c` is one of the ASCII digits `0` to `9`.
pub open spec fn is_digit(c: char) -> bool {
    48 <= c as u32 <= 57
}

/// The value of the ASCII digit `c`.
pub open spec fn digit_value(c: char) -> nat {
    (c as u32 - 48) as nat
}

/// Whether every character of `s` is an ASCII digit.
pub open spec fn all_digits(s: Seq<char>) -> bool {
    forall|i: int| 0 <= i < s.len() ==> #[trigger] is_digit(s[i])
}

/// The number that the decimal digits `s` denote, most significant first.
pub open spec fn digits_value(s: Seq<char>) -> nat
    decreases s.len(),
{
    if s.len() == 0 {
        0
    } else {
        digits_value(s.drop_last()) * 10 + digit_value(s.last())
    }
}

/// What `s.parse::<usize>()` yields: an optional `+`, then one or more ASCII
/// digits whose value fits in a `usize`; anything else is refused.
pub open spec fn parse_usize(s: Seq<char>) -> Option<usize> {
    let d = if s.len() > 0 && s[0] == '+' {
        s.drop_first()
    } else {
        s
    };
    if d.len() > 0 && all_digits(d) && digits_value(d) <= usize::MAX {
        Some(digits_value(d) as usize)
    } else {
        None
    }
}

/// The ASCII digit for `d`, which is below ten.
pub open spec fn digit_char(d: nat) -> char {
    if d == 0 {
        '0'
    } else if d == 1 {
        '1'
    } else if d == 2 {
        '2'
    } else if d == 3 {
        '3'
    } else if d == 4 {
        '4'
    } else if d == 5 {
        '5'
    } else if d == 6 {
        '6'
    } else if d == 7 {
        '7'
    } else if d == 8 {
        '8'
    } else {
        '9'
    }
}

/// The decimal rendering of `n` without leading zeros (what `format!("{}", n)` prints).
pub open spec fn decimal(n: nat) -> Seq<char>
    decreases n,
{
    if n < 10 {
        seq![digit_char(n)]
    } else {
        decimal(n / 10).push(digit_char(n % 10))
    }
}

proof fn lemma_digit_char(d: nat)
    requires
        d < 10,
    ensures
        is_digit(digit_char(d)),
        digit_value(digit_char(d)) == d,
        digit_char(d) != '+',
        !is_white_space(digit_char(d)),
{
}

/// The decimal rendering of `n` is a non-empty run of digits that denotes `n`.
pub proof fn lemma_decimal(n: nat)
    ensures
        decimal(n).len() > 0,
        all_digits(decimal(n)),
        digits_value(decimal(n)) == n,
        decimal(n)[0] != '+',
        !is_white_space(decimal(n)[0]),
        !is_white_space(decimal(n).last()),
    decreases n,
{
    if n < 10 {
        lemma_digit_char(n);
        assert(decimal(n).drop_last() =~= Seq::<char>::empty());
        assert(digits_value(decimal(n)) == digits_value(decimal(n).drop_last()) * 10
            + digit_value(decimal(n).last()));
    } else {
        lemma_digit_char(n % 10);
        lemma_decimal(n / 10);
        let s = decimal(n);
        assert(s.drop_last() =~= decimal(n / 10));
        assert(s.last() == digit_char(n % 10));
        assert(n == (n / 10) * 10 + n % 10);
        assert(digits_value(s) == digits_value(s.drop_last()) * 10 + digit_value(s.last()));
        assert forall|i: int| 0 <= i < s.len() implies #[trigger] is_digit(s[i]) by {
            if i < s.len() - 1 {
                assert(s[i] == decimal(n / 10)[i]);
            }
        }
    }
}

/// Parsing the decimal rendering of a `usize` gives the number back.
pub proof fn lemma_parse_decimal(n: usize)
    ensures
        parse_usize(decimal(n as nat)) == Some(n),
{
    lemma_decimal(n as nat);
}

/// A prefix of a run of digits never denotes more than the whole run.
proof fn lemma_digits_value_prefix(s: Seq<char>, j: int)
    requires
        all_digits(s),
        0 <= j <= s.len(),
    ensures
        digits_value(s.take(j)) <= digits_value(s),
    decreases s.len(),
{
    if j < s.len() {
        let t = s.drop_last();
        assert(all_digits(t)) by {
            assert forall|i: int| 0 <= i < t.len() implies #[trigger] is_digit(t[i]) by {
                assert(t[i] == s[i]);
            }
        }
        lemma_digits_value_prefix(t, j);
        assert(t.take(j) =~= s.take(j));
    } else {
        assert(s.take(j) =~= s);
    }
}

/// The ASCII digit for `d`, which is below ten.
fn digit_char_of(d: usize) -> (c: char)
    requires
        d < 10,
    ensures
        c == digit_char(d as nat),
{
    if d == 0 {
        '0'
    } else if d == 1 {
        '1'
    } else if d == 2 {
        '2'
    } else if d == 3 {
        '3'
    } else if d == 4 {
        '4'
    } else if d == 5 {
        '5'
    } else if d == 6 {
        '6'
    } else if d == 7 {
        '7'
    } else if d == 8 {
        '8'
    } else {
        '9'
    }
}

/// Appends the decimal rendering of `n` to `out`.
pub fn push_decimal(out: &mut Vec<char>, n: usize)
    ensures
        final(out)@ == old(out)@ + decimal(n as nat),
    decreases n,
{
    if n >= 10 {
        push_decimal(out, n / 10);
    }
    out.push(digit_char_of(n % 10));
    assert(final(out)@ =~= old(out)@ + decimal(n as nat));
}

/// Parses `cs[lo..hi]` as `str::parse::<usize>` does.
pub fn parse_usize_at(cs: &Vec<char>, lo: usize, hi: usize) -> (r: Option<usize>)
    requires
        lo <= hi <= cs.len(),
    ensures
        r == parse_usize(cs@.subrange(lo as int, hi as int)),
{
    let ghost s = cs@.subrange(lo as int, hi as int);
    let mut start = lo;
    if start < hi && cs[start] == '+' {
        start = start + 1;
    }
    let ghost d = cs@.subrange(start as int, hi as int);
    let ghost d0 = if s.len() > 0 && s[0] == '+' {
        s.drop_first()
    } else {
        s
    };
    assert(d =~= d0);
    assert(parse_usize(s) == (if d.len() > 0 && all_digits(d) && digits_value(d) <= usize::MAX {
        Some(digits_value(d) as usize)
    } else {
        None
    }));
    if start == hi {
        return None;
    }
    let mut v: usize = 0;
    let mut i = start;
    while i < hi
        invariant
            lo <= start <= i <= hi <= cs.len(),
            d == cs@.subrange(start as int, hi as int),
            parse_usize(cs@.subrange(lo as int, hi as int)) == (if d.len() > 0 && all_digits(d)
                && digits_value(d) <= usize::MAX {
                Some(digits_value(d) as usize)
            } else {
                None
            }),
            d.len() > 0,
            all_digits(d.take(i - start)),
            v == digits_value(d.take(i - start)),
        decreases hi - i,
    {
        let c = cs[i];
        let u = c as u32;
        assert(d[i - start] == c);
        if u < 48 || u > 57 {
            assert(!is_digit(d[i - start]));
            assert(!all_digits(d));
            return None;
        }
        let ghost p = d.take(i - start + 1);
        assert(p.drop_last() =~= d.take(i - start));
        assert(p.last() == c);
        assert(all_digits(p)) by {
            assert forall|j: int| 0 <= j < p.len() implies #[trigger] is_digit(p[j]) by {
                if j < p.len() - 1 {
                    assert(p[j] == d.take(i - start)[j]);
                }
            }
        }
        let dv = (u - 48) as usize;
        if v > (usize::MAX - dv) / 10 {
            proof {
                assert(digits_value(p) > usize::MAX) by (nonlinear_arith)
                    requires
                        v > (usize::MAX - dv) / 10,
                        digits_value(p) == v * 10 + dv,
                        dv <= 9,
                ;
                if all_digits(d) {
                    lemma_digits_value_prefix(d, i - start + 1);
                    assert(digits_value(d) > usize::MAX);
                }
            }
            return None;
        }
        proof {
            assert(v * 10 + dv <= usize::MAX) by (nonlinear_arith)
                requires
                    v <= (usize::MAX - dv) / 10,
                    dv <= 9,
            ;
        }
        v = v * 10 + dv;
        i = i + 1;
    }
    assert(d.take(i - start) =~= d);
    Some(v)
}

} // verus!
