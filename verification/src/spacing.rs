//! Blanks between the tokens of a JSON document do not matter.

use vstd::prelude::*;
use vstd::string::*;
use crate::json::{ValueView, array_at, chars_at, digit, digits_end, entries_at, entry_at, escape_at,
    exp_end, frac_end, hex4_at, hex_value, int_end, items_at, json_blank, lemma_past_blanks,
    literal_at, number_at, number_end, object_at, parse_view, past_blanks, some_digits, string_at,
    value_at};

verus! {

/// Where an index into a JSON text lies: outside of any string literal, inside
/// of one, or inside of one and just behind a backslash.
pub enum Place {
    Outside,
    Inside,
    Escaped,
}

/// Where the index `k` of `s` lies.
pub open spec fn place(s: Seq<char>, k: int) -> Place
    decreases k,
{
    if k <= 0 {
        Place::Outside
    } else {
        match place(s, k - 1) {
            Place::Outside => if s[k - 1] == '"' {
                Place::Inside
            } else {
                Place::Outside
            },
            Place::Inside => if s[k - 1] == '"' {
                Place::Outside
            } else if s[k - 1] == '\\' {
                Place::Escaped
            } else {
                Place::Inside
            },
            Place::Escaped => Place::Inside,
        }
    }
}

/// Whether `c` is one of the four blanks.
pub open spec fn is_space(c: char) -> bool {
    c == ' ' || c == '\t' || c == '\n' || c == '\r'
}

/// Whether `c` can only be part of a number or a word, outside of a string.
pub open spec fn scalar(c: char) -> bool {
    &&& !is_space(c)
    &&& c != '{' && c != '}' && c != '[' && c != ']' && c != ',' && c != ':' && c != '"'
}

/// Whether the index `k` of `s` is before, behind or between tokens: not in a
/// string, and not in the middle of a number or a word.
pub open spec fn between_tokens(s: Seq<char>, k: int) -> bool {
    &&& 0 <= k <= s.len()
    &&& place(s, k) is Outside
    &&& !(0 < k < s.len() && scalar(s[k - 1]) && scalar(s[k]))
}

// ---------------------------------------------------------------------------
// Tokens end outside of strings
// ---------------------------------------------------------------------------

/// Characters other than quotes do not lead into a string.
proof fn lemma_place_run(s: Seq<char>, i: int, j: int)
    requires
        0 <= i <= j <= s.len(),
        place(s, i) is Outside,
        forall|m: int| i <= m < j ==> #[trigger] s[m] != '"',
    ensures
        place(s, j) is Outside,
    decreases j - i,
{
    if i < j {
        lemma_place_run(s, i, j - 1);
        assert(s[j - 1] != '"');
    }
}

proof fn lemma_place_blanks(s: Seq<char>, i: int)
    requires
        0 <= i <= s.len(),
        place(s, i) is Outside,
    ensures
        i <= past_blanks(s, i) <= s.len(),
        place(s, past_blanks(s, i)) is Outside,
    decreases s.len() - i,
{
    if i < s.len() && json_blank(s[i]) {
        assert(place(s, i + 1) is Outside);
        lemma_place_blanks(s, i + 1);
    }
}

proof fn lemma_place_hex4(s: Seq<char>, i: int)
    requires
        0 <= i,
        place(s, i) is Inside,
        hex4_at(s, i) is Some,
    ensures
        i + 4 <= s.len(),
        place(s, i + 4) is Inside,
{
    assert(place(s, i + 1) is Inside);
    assert(place(s, i + 2) is Inside);
    assert(place(s, i + 3) is Inside);
    assert(place(s, i + 4) is Inside);
}

proof fn lemma_place_escape(s: Seq<char>, i: int)
    requires
        0 <= i,
        place(s, i) is Escaped,
        escape_at(s, i) is Some,
    ensures
        i < escape_at(s, i)->Some_0.1 <= s.len(),
        place(s, escape_at(s, i)->Some_0.1) is Inside,
{
    assert(place(s, i + 1) is Inside);
    if s[i] == 'u' {
        lemma_place_hex4(s, i + 1);
        let hi = hex4_at(s, i + 1)->Some_0;
        if 0xd800 <= hi <= 0xdbff {
            assert(place(s, i + 6) is Escaped);
            assert(place(s, i + 7) is Inside);
            lemma_place_hex4(s, i + 7);
        }
    }
}

proof fn lemma_place_chars(s: Seq<char>, i: int)
    requires
        0 <= i,
        place(s, i) is Inside,
        chars_at(s, i) is Some,
    ensures
        i < chars_at(s, i)->Some_0.1 <= s.len(),
        place(s, chars_at(s, i)->Some_0.1) is Outside,
    decreases s.len() - i,
{
    if s[i] == '"' {
        assert(place(s, i + 1) is Outside);
    } else if s[i] == '\\' {
        assert(place(s, i + 1) is Escaped);
        lemma_place_escape(s, i + 1);
        lemma_place_chars(s, escape_at(s, i + 1)->Some_0.1);
    } else {
        assert(place(s, i + 1) is Inside);
        lemma_place_chars(s, i + 1);
    }
}

proof fn lemma_place_string(s: Seq<char>, i: int)
    requires
        0 <= i,
        place(s, i) is Outside,
        string_at(s, i) is Some,
    ensures
        i < string_at(s, i)->Some_0.1 <= s.len(),
        place(s, string_at(s, i)->Some_0.1) is Outside,
{
    assert(place(s, i + 1) is Inside);
    lemma_place_chars(s, i + 1);
}

proof fn lemma_digits_run(s: Seq<char>, i: int)
    requires
        0 <= i <= s.len(),
    ensures
        i <= digits_end(s, i) <= s.len(),
        forall|m: int| i <= m < digits_end(s, i) ==> digit(#[trigger] s[m]),
    decreases s.len() - i,
{
    if i < s.len() && digit(s[i]) {
        lemma_digits_run(s, i + 1);
    }
}

proof fn lemma_place_number(s: Seq<char>, i: int)
    requires
        0 <= i < s.len(),
        place(s, i) is Outside,
        number_end(s, i) is Some,
    ensures
        i < number_end(s, i)->Some_0 <= s.len(),
        place(s, number_end(s, i)->Some_0) is Outside,
{
    let i1 = if s[i] == '-' {
        i + 1
    } else {
        i
    };
    let end = number_end(s, i)->Some_0;
    let j = int_end(s, i1)->Some_0;
    lemma_digits_run(s, i1);
    let k = frac_end(s, j)->Some_0;
    if j + 1 <= s.len() {
        lemma_digits_run(s, j + 1);
    }
    if k + 2 <= s.len() {
        lemma_digits_run(s, k + 2);
    }
    if k + 1 <= s.len() {
        lemma_digits_run(s, k + 1);
    }
    assert forall|m: int| i <= m < end implies #[trigger] s[m] != '"' by {}
    lemma_place_run(s, i, end);
}

proof fn lemma_place_literal(s: Seq<char>, i: int, w: Seq<char>, v: ValueView)
    requires
        0 <= i,
        place(s, i) is Outside,
        literal_at(s, i, w, v) is Some,
        forall|m: int| 0 <= m < w.len() ==> #[trigger] w[m] != '"',
    ensures
        i + w.len() <= s.len(),
        place(s, i + w.len()) is Outside,
{
    assert forall|m: int| i <= m < i + w.len() implies #[trigger] s[m] != '"' by {
        assert(s[m] == s.subrange(i, i + w.len())[m - i]);
        assert(w[m - i] != '"');
    }
    lemma_place_run(s, i, i + w.len());
}

proof fn lemma_words()
    ensures
        forall|m: int| 0 <= m < "true"@.len() ==> scalar(#[trigger] "true"@[m]),
        forall|m: int| 0 <= m < "false"@.len() ==> scalar(#[trigger] "false"@[m]),
        forall|m: int| 0 <= m < "null"@.len() ==> scalar(#[trigger] "null"@[m]),
        "true"@.len() == 4,
        "false"@.len() == 5,
        "null"@.len() == 4,
{
    reveal_strlit("true");
    reveal_strlit("false");
    reveal_strlit("null");
}

proof fn lemma_place_value(s: Seq<char>, i: int)
    requires
        0 <= i,
        place(s, i) is Outside,
        value_at(s, i) is Some,
    ensures
        i < value_at(s, i)->Some_0.1 <= s.len(),
        place(s, value_at(s, i)->Some_0.1) is Outside,
    decreases s.len() - i, 1int,
{
    lemma_words();
    if s[i] == '{' {
        lemma_place_object(s, i);
    } else if s[i] == '[' {
        lemma_place_array(s, i);
    } else if s[i] == '"' {
        lemma_place_string(s, i);
    } else if s[i] == 't' {
        lemma_place_literal(s, i, "true"@, ValueView::Bool(true));
    } else if s[i] == 'f' {
        lemma_place_literal(s, i, "false"@, ValueView::Bool(false));
    } else if s[i] == 'n' {
        lemma_place_literal(s, i, "null"@, ValueView::Null);
    } else {
        lemma_place_number(s, i);
    }
}

proof fn lemma_place_array(s: Seq<char>, i: int)
    requires
        0 <= i < s.len(),
        s[i] == '[',
        place(s, i) is Outside,
        array_at(s, i) is Some,
    ensures
        i < array_at(s, i)->Some_0.1 <= s.len(),
        place(s, array_at(s, i)->Some_0.1) is Outside,
    decreases s.len() - i, 0int,
{
    assert(place(s, i + 1) is Outside);
    lemma_place_blanks(s, i + 1);
    let j = past_blanks(s, i + 1);
    if j < s.len() && s[j] == ']' {
        assert(place(s, j + 1) is Outside);
    } else {
        lemma_place_items(s, j);
    }
}

proof fn lemma_place_items(s: Seq<char>, i: int)
    requires
        0 <= i <= s.len(),
        place(s, i) is Outside,
        items_at(s, i) is Some,
    ensures
        i < items_at(s, i)->Some_0.1 <= s.len(),
        place(s, items_at(s, i)->Some_0.1) is Outside,
    decreases s.len() - i, 2int,
{
    lemma_place_blanks(s, i);
    let p = past_blanks(s, i);
    lemma_place_value(s, p);
    let j = value_at(s, p)->Some_0.1;
    lemma_place_blanks(s, j);
    let k = past_blanks(s, j);
    assert(place(s, k + 1) is Outside);
    if s[k] == ',' {
        lemma_place_items(s, k + 1);
    }
}

proof fn lemma_place_object(s: Seq<char>, i: int)
    requires
        0 <= i < s.len(),
        s[i] == '{',
        place(s, i) is Outside,
        object_at(s, i) is Some,
    ensures
        i < object_at(s, i)->Some_0.1 <= s.len(),
        place(s, object_at(s, i)->Some_0.1) is Outside,
    decreases s.len() - i, 0int,
{
    assert(place(s, i + 1) is Outside);
    lemma_place_blanks(s, i + 1);
    let j = past_blanks(s, i + 1);
    if j < s.len() && s[j] == '}' {
        assert(place(s, j + 1) is Outside);
    } else {
        lemma_place_entries(s, j);
    }
}

proof fn lemma_place_entries(s: Seq<char>, i: int)
    requires
        0 <= i <= s.len(),
        place(s, i) is Outside,
        entries_at(s, i) is Some,
    ensures
        i < entries_at(s, i)->Some_0.1 <= s.len(),
        place(s, entries_at(s, i)->Some_0.1) is Outside,
    decreases s.len() - i, 2int,
{
    lemma_place_entry(s, i);
    let j = entry_at(s, i)->Some_0.2;
    lemma_place_blanks(s, j);
    let k = past_blanks(s, j);
    assert(place(s, k + 1) is Outside);
    if s[k] == ',' {
        lemma_place_entries(s, k + 1);
    }
}

proof fn lemma_place_entry(s: Seq<char>, i: int)
    requires
        0 <= i <= s.len(),
        place(s, i) is Outside,
        entry_at(s, i) is Some,
    ensures
        i < entry_at(s, i)->Some_0.2 <= s.len(),
        place(s, entry_at(s, i)->Some_0.2) is Outside,
    decreases s.len() - i, 1int,
{
    lemma_place_blanks(s, i);
    let p = past_blanks(s, i);
    lemma_place_string(s, p);
    let j = string_at(s, p)->Some_0.1;
    lemma_place_blanks(s, j);
    let colon = past_blanks(s, j);
    assert(place(s, colon + 1) is Outside);
    lemma_place_blanks(s, colon + 1);
    lemma_place_value(s, past_blanks(s, colon + 1));
}

// ---------------------------------------------------------------------------
// One blank more
// ---------------------------------------------------------------------------

/// Whether `t` is `s` with a blank put in between tokens, at `k`.
spec fn spread(s: Seq<char>, t: Seq<char>, k: int) -> bool {
    &&& between_tokens(s, k)
    &&& t.len() == s.len() + 1
    &&& is_space(t[k])
    &&& forall|i: int| 0 <= i < k ==> #[trigger] t[i] == s[i]
    &&& forall|i: int| k < i <= s.len() ==> #[trigger] t[i] == s[i - 1]
}

/// Where what starts at `i` starts behind the blank.
spec fn start(k: int, i: int) -> int {
    if i < k {
        i
    } else {
        i + 1
    }
}

/// Where what ends at `i` ends.
spec fn end(k: int, i: int) -> int {
    if i <= k {
        i
    } else {
        i + 1
    }
}

/// What was read, with the index behind it moved.
spec fn moved<A>(k: int, r: Option<(A, int)>) -> Option<(A, int)> {
    match r {
        Some((a, j)) => Some((a, end(k, j))),
        None => None,
    }
}

proof fn lemma_blanks_moved(s: Seq<char>, t: Seq<char>, k: int, i: int)
    requires
        spread(s, t, k),
        0 <= i <= s.len(),
    ensures
        past_blanks(t, end(k, i)) == start(k, past_blanks(s, i)),
        past_blanks(t, start(k, i)) == start(k, past_blanks(s, i)),
        i <= past_blanks(s, i) <= s.len(),
    decreases s.len() - i,
{
    lemma_past_blanks(s, i);
    if i == k {
        assert(past_blanks(t, k) == past_blanks(t, k + 1));
    }
    if i < s.len() {
        assert(t[start(k, i)] == s[i]);
        if json_blank(s[i]) {
            lemma_blanks_moved(s, t, k, i + 1);
        }
    }
}

proof fn lemma_hex4_moved(s: Seq<char>, t: Seq<char>, k: int, i: int)
    requires
        spread(s, t, k),
        0 <= i,
        i < k ==> place(s, i) is Inside,
    ensures
        hex4_at(t, start(k, i)) == hex4_at(s, i),
        i < k && hex4_at(s, i) is Some ==> i + 4 < k && place(s, i + 4) is Inside,
{
    if i < k {
        if hex_value(s[i]) is Some {
            assert(place(s, i + 1) is Inside);
            assert(i + 1 < k);
            if hex_value(s[i + 1]) is Some {
                assert(place(s, i + 2) is Inside);
                assert(i + 2 < k);
                if hex_value(s[i + 2]) is Some {
                    assert(place(s, i + 3) is Inside);
                    assert(i + 3 < k);
                    if hex_value(s[i + 3]) is Some {
                        assert(place(s, i + 4) is Inside);
                        assert(i + 4 < k);
                    }
                }
            }
        }
    }
}

proof fn lemma_escape_moved(s: Seq<char>, t: Seq<char>, k: int, i: int)
    requires
        spread(s, t, k),
        0 <= i,
        i < k ==> place(s, i) is Escaped,
    ensures
        escape_at(t, start(k, i)) == match escape_at(s, i) {
            Some((c, j)) => Some((c, start(k, j))),
            None => None,
        },
        escape_at(s, i) is Some ==> i < escape_at(s, i)->Some_0.1,
        i < k && escape_at(s, i) is Some ==> escape_at(s, i)->Some_0.1 < k && place(
            s,
            escape_at(s, i)->Some_0.1,
        ) is Inside,
{
    if i < s.len() {
        assert(t[start(k, i)] == s[i]);
        if i < k {
            assert(place(s, i + 1) is Inside);
            assert(i + 1 < k);
        }
        if s[i] == 'u' {
            let p = i + 1;
            lemma_hex4_moved(s, t, k, p);
            if let Some(hi) = hex4_at(s, p) {
                if 0xd800 <= hi <= 0xdbff {
                    if p < k {
                        assert(p + 4 < k);
                        if s[p + 4] == '\\' {
                            assert(place(s, p + 5) is Escaped);
                            assert(p + 5 < k);
                            assert(place(s, p + 6) is Inside);
                            assert(p + 6 < k);
                        }
                    }
                    if p + 4 < s.len() {
                        assert(t[start(k, p + 4)] == s[p + 4]);
                    }
                    if p + 5 < s.len() {
                        assert(t[start(k, p + 5)] == s[p + 5]);
                    }
                    if p + 5 < s.len() && s[p + 4] == '\\' && s[p + 5] == 'u' {
                        lemma_hex4_moved(s, t, k, p + 6);
                    }
                }
            }
        }
    }
}

proof fn lemma_chars_moved(s: Seq<char>, t: Seq<char>, k: int, i: int)
    requires
        spread(s, t, k),
        0 <= i,
        i < k ==> place(s, i) is Inside,
    ensures
        chars_at(t, start(k, i)) == moved(k, chars_at(s, i)),
        chars_at(s, i) is Some ==> i < chars_at(s, i)->Some_0.1,
        i < k && chars_at(s, i) is Some ==> chars_at(s, i)->Some_0.1 <= k,
    decreases s.len() - i,
{
    if i < s.len() {
        assert(t[start(k, i)] == s[i]);
        if s[i] == '"' {
        } else if s[i] == '\\' {
            if i < k {
                assert(place(s, i + 1) is Escaped);
                assert(i + 1 < k);
            }
            lemma_escape_moved(s, t, k, i + 1);
            if let Some((c, j)) = escape_at(s, i + 1) {
                lemma_chars_moved(s, t, k, j);
            }
        } else if (s[i] as u32) >= 0x20 {
            if i < k {
                assert(place(s, i + 1) is Inside);
                assert(i + 1 < k);
            }
            lemma_chars_moved(s, t, k, i + 1);
        }
    }
}

proof fn lemma_string_moved(s: Seq<char>, t: Seq<char>, k: int, i: int)
    requires
        spread(s, t, k),
        0 <= i <= s.len(),
        i < k ==> place(s, i) is Outside,
    ensures
        string_at(t, start(k, i)) == moved(k, string_at(s, i)),
        string_at(s, i) is Some ==> i < string_at(s, i)->Some_0.1 <= s.len(),
{
    if i < s.len() {
        assert(t[start(k, i)] == s[i]);
        if s[i] == '"' {
            if i < k {
                assert(place(s, i + 1) is Inside);
                assert(i + 1 < k);
            }
            lemma_chars_moved(s, t, k, i + 1);
            lemma_chars_bound(s, i + 1);
        }
    }
}

proof fn lemma_chars_bound(s: Seq<char>, i: int)
    requires
        0 <= i,
    ensures
        chars_at(s, i) is Some ==> chars_at(s, i)->Some_0.1 <= s.len(),
    decreases s.len() - i,
{
    if i < s.len() {
        if s[i] == '\\' {
            if let Some((c, j)) = escape_at(s, i + 1) {
                if j > i {
                    lemma_chars_bound(s, j);
                }
            }
        } else {
            lemma_chars_bound(s, i + 1);
        }
    }
}

/// Whether the index `i` is where a number goes on: before the blank, or behind
/// a character of the number.
spec fn goes_on(s: Seq<char>, k: int, i: int) -> bool {
    &&& 0 <= i <= s.len()
    &&& i == k ==> 0 < i && scalar(s[i - 1])
}

/// Where a number ends, moved.
spec fn moved_end(k: int, r: Option<int>) -> Option<int> {
    match r {
        Some(j) => Some(end(k, j)),
        None => None,
    }
}

/// A character that can be part of a number stands in both texts or in none.
proof fn lemma_next_char(s: Seq<char>, t: Seq<char>, k: int, i: int, c: char)
    requires
        spread(s, t, k),
        goes_on(s, k, i),
        scalar(c),
    ensures
        (i < s.len() && s[i] == c) == (end(k, i) < t.len() && t[end(k, i)] == c),
        i < s.len() && s[i] == c ==> goes_on(s, k, i + 1) && end(k, i + 1) == end(k, i) + 1,
{
    if i < s.len() {
        assert(t[start(k, i)] == s[i]);
    }
}

proof fn lemma_digits_moved(s: Seq<char>, t: Seq<char>, k: int, i: int)
    requires
        spread(s, t, k),
        goes_on(s, k, i),
    ensures
        digits_end(t, end(k, i)) == end(k, digits_end(s, i)),
        goes_on(s, k, digits_end(s, i)),
        i <= digits_end(s, i),
    decreases s.len() - i,
{
    if i < s.len() && digit(s[i]) {
        lemma_next_char(s, t, k, i, s[i]);
        lemma_digits_moved(s, t, k, i + 1);
    } else if end(k, i) < t.len() && digit(t[end(k, i)]) {
        lemma_next_char(s, t, k, i, t[end(k, i)]);
    }
}

proof fn lemma_some_digits_moved(s: Seq<char>, t: Seq<char>, k: int, i: int)
    requires
        spread(s, t, k),
        goes_on(s, k, i),
    ensures
        some_digits(t, end(k, i)) == moved_end(k, some_digits(s, i)),
        some_digits(s, i) is Some ==> goes_on(s, k, some_digits(s, i)->Some_0) && i < some_digits(
            s,
            i,
        )->Some_0,
{
    lemma_digits_moved(s, t, k, i);
    if i < s.len() && digit(s[i]) {
        lemma_next_char(s, t, k, i, s[i]);
        lemma_digits_moved(s, t, k, i + 1);
    } else if end(k, i) < t.len() && digit(t[end(k, i)]) {
        lemma_next_char(s, t, k, i, t[end(k, i)]);
    }
}

proof fn lemma_number_moved(s: Seq<char>, t: Seq<char>, k: int, i: int)
    requires
        spread(s, t, k),
        0 <= i < s.len(),
        s[i] == '-' || digit(s[i]),
    ensures
        number_at(t, start(k, i)) == moved(k, number_at(s, i)),
        number_at(s, i) is Some ==> i < number_at(s, i)->Some_0.1,
{
    let a = start(k, i);
    assert(t[a] == s[i]);
    // Behind the first character.
    assert(goes_on(s, k, i + 1));
    assert(end(k, i + 1) == a + 1);
    let i1 = if s[i] == '-' {
        i + 1
    } else {
        i
    };
    let a1 = if s[i] == '-' {
        a + 1
    } else {
        a
    };
    assert(int_end(t, a1) == moved_end(k, int_end(s, i1)) && (int_end(s, i1) is Some ==> goes_on(
        s,
        k,
        int_end(s, i1)->Some_0,
    ) && i < int_end(s, i1)->Some_0)) by {
        if s[i] == '-' {
            lemma_next_char(s, t, k, i1, '0');
            lemma_some_digits_moved(s, t, k, i1);
        } else {
            lemma_digits_moved(s, t, k, i + 1);
            assert(digits_end(s, i) == digits_end(s, i + 1));
            assert(digits_end(t, a) == digits_end(t, a + 1));
        }
    }
    if let Some(j) = int_end(s, i1) {
        lemma_next_char(s, t, k, j, '.');
        if j < s.len() && s[j] == '.' {
            lemma_some_digits_moved(s, t, k, j + 1);
        }
        assert(frac_end(t, end(k, j)) == moved_end(k, frac_end(s, j)));
        if let Some(f) = frac_end(s, j) {
            assert(goes_on(s, k, f) && i < f);
            lemma_next_char(s, t, k, f, 'e');
            lemma_next_char(s, t, k, f, 'E');
            if f < s.len() && (s[f] == 'e' || s[f] == 'E') {
                lemma_next_char(s, t, k, f + 1, '+');
                lemma_next_char(s, t, k, f + 1, '-');
                lemma_some_digits_moved(s, t, k, f + 1);
                if f + 1 < s.len() && (s[f + 1] == '+' || s[f + 1] == '-') {
                    lemma_some_digits_moved(s, t, k, f + 2);
                }
            }
            assert(exp_end(t, end(k, f)) == moved_end(k, exp_end(s, f)));
        }
    }
    if let Some(e) = number_end(s, i) {
        assert(i < e);
        lemma_number_in_run(s, t, k, i, e);
        assert(number_end(t, a) == Some(end(k, e)));
    }
}

/// The text of a number is the same in both texts.
proof fn lemma_number_in_run(s: Seq<char>, t: Seq<char>, k: int, i: int, e: int)
    requires
        spread(s, t, k),
        0 <= i < e <= s.len(),
        number_end(s, i) == Some(e),
    ensures
        t.subrange(start(k, i), end(k, e)) == s.subrange(i, e),
{
    let i1 = if s[i] == '-' {
        i + 1
    } else {
        i
    };
    let j = int_end(s, i1)->Some_0;
    lemma_digits_run(s, i1);
    let f = frac_end(s, j)->Some_0;
    if j + 1 <= s.len() {
        lemma_digits_run(s, j + 1);
    }
    if f + 2 <= s.len() {
        lemma_digits_run(s, f + 2);
    }
    if f + 1 <= s.len() {
        lemma_digits_run(s, f + 1);
    }
    assert forall|m: int| i <= m < e implies scalar(#[trigger] s[m]) by {}
    lemma_run_moved(s, t, k, i, e);
}

/// No blank is put into a run of characters of a number or a word.
proof fn lemma_run_moved(s: Seq<char>, t: Seq<char>, k: int, i: int, e: int)
    requires
        spread(s, t, k),
        0 <= i < e <= s.len(),
        forall|m: int| i <= m < e ==> scalar(#[trigger] s[m]),
    ensures
        t.subrange(start(k, i), end(k, e)) == s.subrange(i, e),
        end(k, e) - start(k, i) == e - i,
{
    assert(!(i < k < e)) by {
        if i < k < e {
            assert(scalar(s[k - 1]) && scalar(s[k]));
        }
    }
    assert(t.subrange(start(k, i), end(k, e)) =~= s.subrange(i, e));
}

proof fn lemma_literal_moved(s: Seq<char>, t: Seq<char>, k: int, i: int, w: Seq<char>, v: ValueView)
    requires
        spread(s, t, k),
        0 <= i < s.len(),
        w.len() > 0,
        forall|m: int| 0 <= m < w.len() ==> scalar(#[trigger] w[m]),
    ensures
        literal_at(t, start(k, i), w, v) == moved(k, literal_at(s, i, w, v)),
{
    let n = w.len();
    let a = start(k, i);
    if literal_at(s, i, w, v) is Some {
        assert forall|m: int| i <= m < i + n implies scalar(#[trigger] s[m]) by {
            assert(s[m] == s.subrange(i, i + n)[m - i]);
            assert(scalar(w[m - i]));
        }
        lemma_run_moved(s, t, k, i, i + n);
    } else if literal_at(t, a, w, v) is Some {
        assert(!(a <= k < a + n)) by {
            if a <= k < a + n {
                assert(t[k] == t.subrange(a, a + n)[k - a]);
                assert(scalar(w[k - a]));
            }
        }
        assert(t.subrange(a, a + n) =~= s.subrange(i, i + n));
    }
}

proof fn lemma_value_moved(s: Seq<char>, t: Seq<char>, k: int, i: int)
    requires
        spread(s, t, k),
        0 <= i <= s.len(),
        place(s, i) is Outside,
    ensures
        value_at(t, start(k, i)) == moved(k, value_at(s, i)),
    decreases s.len() - i, 1int,
{
    lemma_words();
    if i < s.len() {
        assert(t[start(k, i)] == s[i]);
        if s[i] == '{' {
            lemma_object_moved(s, t, k, i);
        } else if s[i] == '[' {
            lemma_array_moved(s, t, k, i);
        } else if s[i] == '"' {
            lemma_string_moved(s, t, k, i);
        } else if s[i] == 't' {
            lemma_literal_moved(s, t, k, i, "true"@, ValueView::Bool(true));
        } else if s[i] == 'f' {
            lemma_literal_moved(s, t, k, i, "false"@, ValueView::Bool(false));
        } else if s[i] == 'n' {
            lemma_literal_moved(s, t, k, i, "null"@, ValueView::Null);
        } else if s[i] == '-' || digit(s[i]) {
            lemma_number_moved(s, t, k, i);
        }
    }
}

proof fn lemma_array_moved(s: Seq<char>, t: Seq<char>, k: int, i: int)
    requires
        spread(s, t, k),
        0 <= i < s.len(),
        s[i] == '[',
        place(s, i) is Outside,
    ensures
        array_at(t, start(k, i)) == moved(k, array_at(s, i)),
    decreases s.len() - i, 0int,
{
    assert(place(s, i + 1) is Outside);
    lemma_place_blanks(s, i + 1);
    lemma_blanks_moved(s, t, k, i + 1);
    let j = past_blanks(s, i + 1);
    if j < s.len() {
        assert(t[start(k, j)] == s[j]);
    }
    lemma_blanks_moved(s, t, k, j);
    lemma_items_moved(s, t, k, j, start(k, j));
}

proof fn lemma_items_moved(s: Seq<char>, t: Seq<char>, k: int, i: int, a: int)
    requires
        spread(s, t, k),
        0 <= i <= s.len(),
        0 <= a <= t.len(),
        a == start(k, i) || a == end(k, i),
        place(s, i) is Outside,
    ensures
        items_at(t, a) == moved(k, items_at(s, i)),
    decreases s.len() - i, 2int,
{
    lemma_place_blanks(s, i);
    lemma_blanks_moved(s, t, k, i);
    let p = past_blanks(s, i);
    lemma_value_moved(s, t, k, p);
    if let Some((v, j)) = value_at(s, p) {
        lemma_place_value(s, p);
        lemma_place_blanks(s, j);
        lemma_blanks_moved(s, t, k, j);
        let q = past_blanks(s, j);
        if q < s.len() {
            assert(t[start(k, q)] == s[q]);
            assert(place(s, q + 1) is Outside || s[q] == '"');
            if s[q] == ',' {
                lemma_items_moved(s, t, k, q + 1, start(k, q) + 1);
            }
        }
    }
}

proof fn lemma_object_moved(s: Seq<char>, t: Seq<char>, k: int, i: int)
    requires
        spread(s, t, k),
        0 <= i < s.len(),
        s[i] == '{',
        place(s, i) is Outside,
    ensures
        object_at(t, start(k, i)) == moved(k, object_at(s, i)),
    decreases s.len() - i, 0int,
{
    assert(place(s, i + 1) is Outside);
    lemma_place_blanks(s, i + 1);
    lemma_blanks_moved(s, t, k, i + 1);
    let j = past_blanks(s, i + 1);
    if j < s.len() {
        assert(t[start(k, j)] == s[j]);
    }
    lemma_entries_moved(s, t, k, j, start(k, j));
}

proof fn lemma_entries_moved(s: Seq<char>, t: Seq<char>, k: int, i: int, a: int)
    requires
        spread(s, t, k),
        0 <= i <= s.len(),
        0 <= a <= t.len(),
        a == start(k, i) || a == end(k, i),
        place(s, i) is Outside,
    ensures
        entries_at(t, a) == moved(k, entries_at(s, i)),
    decreases s.len() - i, 2int,
{
    lemma_entry_moved(s, t, k, i, a);
    if let Some((key, v, j)) = entry_at(s, i) {
        lemma_place_entry(s, i);
        lemma_place_blanks(s, j);
        lemma_blanks_moved(s, t, k, j);
        let q = past_blanks(s, j);
        if q < s.len() {
            assert(t[start(k, q)] == s[q]);
            assert(place(s, q + 1) is Outside || s[q] == '"');
            if s[q] == ',' {
                lemma_entries_moved(s, t, k, q + 1, start(k, q) + 1);
            }
        }
    }
}

proof fn lemma_entry_moved(s: Seq<char>, t: Seq<char>, k: int, i: int, a: int)
    requires
        spread(s, t, k),
        0 <= i <= s.len(),
        0 <= a <= t.len(),
        a == start(k, i) || a == end(k, i),
        place(s, i) is Outside,
    ensures
        entry_at(t, a) == match entry_at(s, i) {
            Some((key, v, j)) => Some((key, v, end(k, j))),
            None => None,
        },
    decreases s.len() - i, 1int,
{
    lemma_place_blanks(s, i);
    lemma_blanks_moved(s, t, k, i);
    let p = past_blanks(s, i);
    lemma_string_moved(s, t, k, p);
    if let Some((key, j)) = string_at(s, p) {
        lemma_place_string(s, p);
        lemma_place_blanks(s, j);
        lemma_blanks_moved(s, t, k, j);
        let colon = past_blanks(s, j);
        if colon < s.len() {
            assert(t[start(k, colon)] == s[colon]);
            if s[colon] == ':' {
                assert(place(s, colon + 1) is Outside);
                lemma_place_blanks(s, colon + 1);
                lemma_blanks_moved(s, t, k, colon + 1);
                lemma_value_moved(s, t, k, past_blanks(s, colon + 1));
            }
        }
    }
}

// ---------------------------------------------------------------------------
// Laws
// ---------------------------------------------------------------------------

/// Blanks before, behind and between the tokens of a document do not matter: a
/// space, tab, newline or carriage return more at any such place, and so any
/// number of them, gives a document that parses to the same value, or does not
/// parse either.
pub proof fn law_blanks_between_tokens_do_not_matter(s: Seq<char>, k: int, c: char)
    requires
        between_tokens(s, k),
        c == ' ' || c == '\t' || c == '\n' || c == '\r',
    ensures
        parse_view(s.take(k) + seq![c] + s.skip(k)) == parse_view(s),
{
    let t = s.take(k) + seq![c] + s.skip(k);
    assert(spread(s, t, k));
    lemma_blanks_moved(s, t, k, 0);
    lemma_place_blanks(s, 0);
    let p = past_blanks(s, 0);
    if k == 0 {
        assert(past_blanks(t, 0) == past_blanks(t, 1));
    }
    lemma_value_moved(s, t, k, p);
    if let Some((v, j)) = value_at(s, p) {
        lemma_place_value(s, p);
        lemma_blanks_moved(s, t, k, j);
    }
}

/// A document that parses ends outside of any string.
proof fn lemma_document_ends_outside(s: Seq<char>)
    requires
        parse_view(s) is Some,
    ensures
        place(s, s.len() as int) is Outside,
{
    lemma_place_blanks(s, 0);
    let p = past_blanks(s, 0);
    lemma_place_value(s, p);
    lemma_place_blanks(s, value_at(s, p)->Some_0.1);
}

proof fn lemma_place_same(s: Seq<char>, t: Seq<char>, k: int)
    requires
        0 <= k <= s.len() <= t.len(),
        forall|i: int| 0 <= i < s.len() ==> #[trigger] t[i] == s[i],
    ensures
        place(t, k) == place(s, k),
    decreases k,
{
    if k > 0 {
        lemma_place_same(s, t, k - 1);
        assert(t[k - 1] == s[k - 1]);
    }
}

/// Blanks around a document do not matter, whatever the document is: with a
/// space, tab, newline or carriage return before it or behind it, it parses to
/// the same value, or does not parse either.
pub proof fn law_blanks_around_a_document_do_not_matter(s: Seq<char>, c: char)
    requires
        c == ' ' || c == '\t' || c == '\n' || c == '\r',
    ensures
        parse_view(s.push(c)) == parse_view(s),
        parse_view(seq![c] + s) == parse_view(s),
{
    let n = s.len() as int;
    assert(s.take(0) + seq![c] + s.skip(0) =~= seq![c] + s);
    law_blanks_between_tokens_do_not_matter(s, 0, c);
    let t = s.push(c);
    if place(s, n) is Outside {
        assert(s.take(n) + seq![c] + s.skip(n) =~= t);
        law_blanks_between_tokens_do_not_matter(s, n, c);
    } else {
        lemma_place_same(s, t, n);
        assert(t[n] == c);
        assert(place(t, n + 1) !is Outside);
        if parse_view(s) is Some {
            lemma_document_ends_outside(s);
        }
        if parse_view(t) is Some {
            lemma_document_ends_outside(t);
        }
    }
}

} // verus!
