//! The target width that a user asks for.

use vstd::prelude::*;
use vstd::string::*;
use crate::printer::DEFAULT_WIDTH;
use crate::text::{collect_chars, is_white_space, white_space};

verus! {

/// `s` without the white space around it.
pub open spec fn trimmed(s: Seq<char>) -> Seq<char>
    decreases s.len(),
{
    if s.len() > 0 && white_space(s[0]) {
        trimmed(s.drop_first())
    } else if s.len() > 0 && white_space(s.last()) {
        trimmed(s.drop_last())
    } else {
        s
    }
}

/// Whether `s` is a decimal number without a sign.
pub open spec fn all_digits(s: Seq<char>) -> bool {
    s.len() > 0 && forall|i: int| 0 <= i < s.len() ==> '0' <= #[trigger] s[i] <= '9'
}

/// The value of the decimal digits `s`.
pub open spec fn digits_value(s: Seq<char>) -> int
    decreases s.len(),
{
    if s.len() == 0 {
        0
    } else {
        10 * digits_value(s.drop_last()) + (s.last() as int - '0' as int)
    }
}

/// `s` without a leading `+`.
pub open spec fn unsigned(s: Seq<char>) -> Seq<char> {
    if s.len() > 0 && s[0] == '+' {
        s.drop_first()
    } else {
        s
    }
}

/// The width that `setting` asks for: the positive number that it holds, white
/// space aside, if that is one; else the default.
pub open spec fn width_view(setting: Option<Seq<char>>) -> int {
    match setting {
        Some(s) => {
            let t = unsigned(trimmed(s));
            if all_digits(t) && 0 < digits_value(t) <= isize::MAX {
                digits_value(t)
            } else {
                DEFAULT_WIDTH as int
            }
        },
        None => DEFAULT_WIDTH as int,
    }
}

/// The width that the value of a setting asks for, if it has one.
pub fn width_from(setting: Option<&str>) -> (width: isize)
    ensures
        width == width_view(
            match setting {
                Some(s) => Some(s@),
                None => None,
            },
        ),
{
    match setting {
        Some(s) => {
            let chars = collect_chars(s);
            let (lo, hi) = trim(&chars);
            let start: usize = if lo < hi && chars[lo] == '+' {
                lo + 1
            } else {
                lo
            };
            let ghost t = unsigned(trimmed(s@));
            assert(t =~= chars@.subrange(start as int, hi as int));
            match number(&chars, start, hi) {
                Some(n) => n,
                None => DEFAULT_WIDTH,
            }
        },
        None => DEFAULT_WIDTH,
    }
}

/// Where the characters between the white space around them start and end.
fn trim(chars: &Vec<char>) -> (range: (usize, usize))
    ensures
        range.0 <= range.1 <= chars@.len(),
        trimmed(chars@) == chars@.subrange(range.0 as int, range.1 as int),
{
    let mut lo: usize = 0;
    let mut hi: usize = chars.len();
    assert(chars@.subrange(0, hi as int) =~= chars@);
    while lo < hi && is_white_space(chars[lo])
        invariant
            lo <= hi == chars@.len(),
            trimmed(chars@) == trimmed(chars@.subrange(lo as int, hi as int)),
        decreases hi - lo,
    {
        assert(chars@.subrange(lo as int, hi as int).drop_first() =~= chars@.subrange(
            lo + 1,
            hi as int,
        ));
        lo += 1;
    }
    while lo < hi && is_white_space(chars[hi - 1])
        invariant
            lo <= hi <= chars@.len(),
            lo < hi ==> !white_space(chars@[lo as int]),
            trimmed(chars@) == trimmed(chars@.subrange(lo as int, hi as int)),
        decreases hi - lo,
    {
        assert(chars@.subrange(lo as int, hi as int).drop_last() =~= chars@.subrange(
            lo as int,
            hi - 1,
        ));
        hi -= 1;
    }
    (lo, hi)
}

/// The value of the digits `lo..hi`, if they are digits of a positive number
/// that fits.
fn number(chars: &Vec<char>, lo: usize, hi: usize) -> (value: Option<isize>)
    requires
        lo <= hi <= chars@.len(),
    ensures
        ({
            let t = chars@.subrange(lo as int, hi as int);
            match value {
                Some(n) => all_digits(t) && n == digits_value(t) && n > 0,
                None => !(all_digits(t) && 0 < digits_value(t) <= isize::MAX),
            }
        }),
{
    let ghost t = chars@.subrange(lo as int, hi as int);
    let mut n: isize = 0;
    let mut i: usize = lo;
    while i < hi
        invariant
            lo <= i <= hi <= chars@.len(),
            t == chars@.subrange(lo as int, hi as int),
            0 <= n,
            n == digits_value(t.take(i - lo)),
            forall|k: int| 0 <= k < i - lo ==> '0' <= #[trigger] t[k] <= '9',
        decreases hi - i,
    {
        let c = chars[i];
        assert(c == t[i - lo]);
        if c < '0' || c > '9' {
            return None;
        }
        assert(t.take(i + 1 - lo).drop_last() =~= t.take(i - lo));
        let d: isize = c as isize - '0' as isize;
        match n.checked_mul(10) {
            Some(m) => match m.checked_add(d) {
                Some(sum) => {
                    n = sum;
                },
                None => {
                    proof {
                        lemma_more_digits(t, i + 1 - lo);
                    }
                    return None;
                },
            },
            None => {
                proof {
                    lemma_more_digits(t, i + 1 - lo);
                }
                return None;
            },
        }
        i += 1;
    }
    assert(t.take(i - lo) =~= t);
    if n > 0 {
        Some(n)
    } else {
        None
    }
}

/// More digits do not make a number smaller.
proof fn lemma_more_digits(s: Seq<char>, n: int)
    requires
        0 <= n <= s.len(),
    ensures
        all_digits(s) ==> digits_value(s.take(n)) <= digits_value(s) && 0 <= digits_value(s),
    decreases s.len(),
{
    if all_digits(s) {
        let front = s.drop_last();
        assert('0' <= s[s.len() - 1] <= '9');
        if s.len() > 1 {
            assert(all_digits(front)) by {
                assert forall|i: int| 0 <= i < front.len() implies '0' <= #[trigger] front[i]
                    <= '9' by {
                    assert(front[i] == s[i]);
                }
            }
            lemma_more_digits(
                front,
                if n == s.len() {
                    0
                } else {
                    n
                },
            );
        } else {
            assert(front =~= seq![]);
            assert(digits_value(front) == 0);
        }
        if n == s.len() {
            assert(s.take(n) =~= s);
        } else {
            assert(front.take(n) =~= s.take(n));
            if s.len() == 1 {
                assert(s.take(n) =~= front);
            }
        }
    }
}

// ---------------------------------------------------------------------------
// Laws
// ---------------------------------------------------------------------------

/// `n` in decimal digits.
pub open spec fn decimal(n: nat) -> Seq<char>
    decreases n,
{
    if n < 10 {
        seq![('0' as int + n) as char]
    } else {
        decimal(n / 10).push(('0' as int + n % 10) as char)
    }
}

proof fn lemma_decimal(n: nat)
    ensures
        all_digits(decimal(n)),
        digits_value(decimal(n)) == n,
    decreases n,
{
    let t = decimal(n);
    if n < 10 {
        assert(t.drop_last() =~= seq![]);
        assert(digits_value(t.drop_last()) == 0);
        assert('0' <= t[0] <= '9');
    } else {
        let front = decimal(n / 10);
        lemma_decimal(n / 10);
        assert(t.drop_last() =~= front);
        assert forall|i: int| 0 <= i < t.len() implies '0' <= #[trigger] t[i] <= '9' by {
            if i < front.len() {
                assert(t[i] == front[i]);
            }
        }
    }
}

proof fn lemma_trimmed(a: Seq<char>, t: Seq<char>, b: Seq<char>)
    requires
        forall|i: int| 0 <= i < a.len() ==> white_space(#[trigger] a[i]),
        forall|i: int| 0 <= i < b.len() ==> white_space(#[trigger] b[i]),
        t.len() > 0,
        !white_space(t[0]),
        !white_space(t.last()),
    ensures
        trimmed(a + t + b) == t,
    decreases a.len() + b.len(),
{
    let s = a + t + b;
    if a.len() > 0 {
        assert(s[0] == a[0]);
        assert(s.drop_first() =~= a.drop_first() + t + b);
        lemma_trimmed(a.drop_first(), t, b);
    } else if b.len() > 0 {
        assert(s[0] == t[0]);
        assert(s.last() == b.last());
        assert(b.last() == b[b.len() - 1]);
        assert(s.drop_last() =~= a + t + b.drop_last());
        lemma_trimmed(a, t, b.drop_last());
    } else {
        assert(s =~= t);
    }
}

/// A positive number, written in decimal digits, with a `+` before it or without,
/// and with spaces, tabs and newlines around it, asks for that width.
pub proof fn law_every_width_can_be_asked_for(
    n: nat,
    before: Seq<char>,
    plus: bool,
    after: Seq<char>,
)
    requires
        0 < n <= isize::MAX,
        forall|i: int|
            0 <= i < before.len() ==> #[trigger] before[i] == ' ' || before[i] == '\t' || before[i]
                == '\n',
        forall|i: int|
            0 <= i < after.len() ==> #[trigger] after[i] == ' ' || after[i] == '\t' || after[i]
                == '\n',
    ensures
        width_view(
            Some(
                before + (if plus {
                    seq!['+'] + decimal(n)
                } else {
                    decimal(n)
                }) + after,
            ),
        ) == n,
{
    let d = decimal(n);
    let t = if plus {
        seq!['+'] + d
    } else {
        d
    };
    lemma_decimal(n);
    assert('0' <= d[0] <= '9' && '0' <= d[d.len() - 1] <= '9');
    assert(t.last() == d.last());
    lemma_trimmed(before, t, after);
    assert((seq!['+'] + d).drop_first() =~= d);
}

/// What is no number asks for nothing: without a setting, or with one that holds
/// a printable character other than a digit or `+`, the width is the default.
pub proof fn law_what_is_no_number_asks_for_the_default(s: Seq<char>, i: int)
    requires
        0 <= i < s.len(),
        '!' <= s[i] <= '~',
        !('0' <= s[i] <= '9'),
        s[i] != '+',
    ensures
        width_view(Some(s)) == 80,
        width_view(None) == 80,
        width_view(Some(seq![])) == 80,
        width_view(Some(seq!['0'])) == 80,
{
    let j = lemma_trimmed_keeps(s, i);
    let t = trimmed(s);
    let u = unsigned(t);
    if t[0] == '+' {
        assert(u[j - 1] == s[i]);
    }
    assert(!all_digits(u));
    assert(seq!['0'].drop_last() =~= seq![]);
    assert(digits_value(seq!['0'].drop_last()) == 0);
    assert(digits_value(seq!['0']) == 0);
    assert(trimmed(seq!['0']) == seq!['0']);
}

/// A visible character is not trimmed away.
proof fn lemma_trimmed_keeps(s: Seq<char>, i: int) -> (j: int)
    requires
        0 <= i < s.len(),
        !white_space(s[i]),
    ensures
        0 <= j < trimmed(s).len(),
        trimmed(s)[j] == s[i],
    decreases s.len(),
{
    if white_space(s[0]) {
        lemma_trimmed_keeps(s.drop_first(), i - 1)
    } else if white_space(s.last()) {
        lemma_trimmed_keeps(s.drop_last(), i)
    } else {
        i
    }
}

} // verus!
