//! Whatever a JSON value is, what is written for it is read back as that value.

use vstd::prelude::*;
use vstd::string::*;
use crate::json::{ValueView, chars_at, digit, digits_end, encode_view, entries_at, escape_at,
    exp_end, frac_end, hex4_at, int_end, items_at, lemma_encoded_string_reads_back,
    lemma_entry_reads_back, lemma_last_entry_reads_back, lemma_more_entries_read_back,
    lemma_object_reads_back, lemma_stands_at_part, literal_at, number_end, parse_view, past_blanks,
    stands_at, value_at};

verus! {

// ---------------------------------------------------------------------------
// Strings
// ---------------------------------------------------------------------------

/// The value of the hexadecimal digit `c`, small or capital; -1 if it is none.
pub open spec fn hexadecimal(c: char) -> int {
    if '0' <= c <= '9' {
        c as int - 48
    } else if 'a' <= c <= 'f' {
        c as int - 87
    } else if 'A' <= c <= 'F' {
        c as int - 55
    } else {
        -1
    }
}

/// Whether `e` is `\u` and four hexadecimal digits of the number `n`.
pub open spec fn spells_code(e: Seq<char>, n: int) -> bool {
    &&& e.len() == 6
    &&& e[0] == '\\' && e[1] == 'u'
    &&& hexadecimal(e[2]) >= 0 && hexadecimal(e[3]) >= 0 && hexadecimal(e[4]) >= 0 && hexadecimal(
        e[5],
    ) >= 0
    &&& n == 4096 * hexadecimal(e[2]) + 256 * hexadecimal(e[3]) + 16 * hexadecimal(e[4])
        + hexadecimal(e[5])
}

/// Whether `e` can stand for the character `c` in a JSON string: the character
/// itself, a short escape, `\u` with its code, or two of those with its
/// surrogates.
pub open spec fn spells(e: Seq<char>, c: char) -> bool {
    ||| e == seq![c] && c >= ' ' && c != '"' && c != '\\'
    ||| e == seq!['\\', '"'] && c == '"'
    ||| e == seq!['\\', '\\'] && c == '\\'
    ||| e == seq!['\\', '/'] && c == '/'
    ||| e == seq!['\\', 'b'] && c == '\u{08}'
    ||| e == seq!['\\', 'f'] && c == '\u{0c}'
    ||| e == seq!['\\', 'n'] && c == '\n'
    ||| e == seq!['\\', 'r'] && c == '\r'
    ||| e == seq!['\\', 't'] && c == '\t'
    ||| spells_code(e, c as int)
    ||| {
        &&& e.len() == 12
        &&& c as int >= 0x10000
        &&& spells_code(e.take(6), 0xd800 + (c as int - 0x10000) / 0x400)
        &&& spells_code(e.skip(6), 0xdc00 + (c as int - 0x10000) % 0x400)
    }
}

/// `pieces` one after the other.
pub open spec fn all_of(pieces: Seq<Seq<char>>) -> Seq<char>
    decreases pieces.len(),
{
    if pieces.len() == 0 {
        seq![]
    } else {
        pieces[0] + all_of(pieces.drop_first())
    }
}

proof fn lemma_code_reads_back(s: Seq<char>, i: int, e: Seq<char>, n: int)
    requires
        stands_at(s, i, e),
        spells_code(e, n),
    ensures
        s[i] == '\\' && s[i + 1] == 'u',
        hex4_at(s, i + 2) == Some(n),
{
    assert(e[0] == s[i + 0]);
    assert(e[1] == s[i + 1]);
    assert(e[2] == s[i + 2]);
    assert(e[3] == s[i + 3]);
    assert(e[4] == s[i + 4]);
    assert(e[5] == s[i + 5]);
}

/// A spelled character reads back.
proof fn lemma_spelled_char(s: Seq<char>, i: int, e: Seq<char>, c: char)
    requires
        stands_at(s, i, e),
        spells(e, c),
    ensures
        e.len() >= 1,
        s[i] != '"',
        s[i] == '\\' ==> escape_at(s, i + 1) == Some((c, i + e.len())),
        s[i] != '\\' ==> s[i] == c && (c as u32) >= 0x20 && e.len() == 1,
{
    assert(e[0] == s[i + 0]);
    if e.len() == 12 && c as int >= 0x10000 && spells_code(
        e.take(6),
        0xd800 + (c as int - 0x10000) / 0x400,
    ) {
        let a = e.take(6);
        let b = e.skip(6);
        assert(e =~= a + b);
        lemma_stands_at_part(s, i, a, b);
        let hi = 0xd800 + (c as int - 0x10000) / 0x400;
        let lo = 0xdc00 + (c as int - 0x10000) % 0x400;
        lemma_code_reads_back(s, i, a, hi);
        lemma_code_reads_back(s, i + 6, b, lo);
        assert(0xd800 <= hi <= 0xdbff);
        assert(0xdc00 <= lo <= 0xdfff);
        assert(0x10000 + (hi - 0xd800) * 0x400 + (lo - 0xdc00) == c as int);
    } else if spells_code(e, c as int) {
        lemma_code_reads_back(s, i, e, c as int);
    } else if e.len() == 2 {
        assert(e[1] == s[i + 1]);
    }
}

proof fn lemma_spelled_chars(s: Seq<char>, i: int, pieces: Seq<Seq<char>>, t: Seq<char>)
    requires
        pieces.len() == t.len(),
        forall|k: int| 0 <= k < t.len() ==> spells(#[trigger] pieces[k], t[k]),
        stands_at(s, i, all_of(pieces) + seq!['"']),
    ensures
        chars_at(s, i) == Some((t, i + all_of(pieces).len() + 1)),
    decreases t.len(),
{
    let all = all_of(pieces) + seq!['"'];
    if t.len() == 0 {
        assert(all[0] == s[i + 0]);
        assert(seq![] =~= t);
    } else {
        let e = pieces[0];
        let tail = pieces.drop_first();
        let rest = all_of(tail) + seq!['"'];
        assert(all =~= e + rest);
        lemma_stands_at_part(s, i, e, rest);
        lemma_spelled_char(s, i, e, t[0]);
        assert forall|k: int| 0 <= k < tail.len() implies spells(
            #[trigger] tail[k],
            t.drop_first()[k],
        ) by {
            assert(tail[k] == pieces[k + 1]);
        }
        lemma_spelled_chars(s, i + e.len(), tail, t.drop_first());
        assert(seq![t[0]] + t.drop_first() =~= t);
    }
}

/// A string literal is read as the characters it spells, however each of them is
/// written.
pub proof fn law_every_spelling_is_read(pieces: Seq<Seq<char>>, t: Seq<char>)
    requires
        pieces.len() == t.len(),
        forall|k: int| 0 <= k < t.len() ==> spells(#[trigger] pieces[k], t[k]),
    ensures
        parse_view(seq!['"'] + all_of(pieces) + seq!['"']) == Some(ValueView::String(t)),
{
    let s = seq!['"'] + all_of(pieces) + seq!['"'];
    assert(s =~= seq!['"'] + (all_of(pieces) + seq!['"']));
    assert(stands_at(s, 0, s));
    lemma_stands_at_part(s, 0, seq!['"'], all_of(pieces) + seq!['"']);
    lemma_spelled_chars(s, 1, pieces, t);
    assert(s[0] == '"');
    assert(past_blanks(s, 0) == 0);
    assert(past_blanks(s, s.len() as int) == s.len());
}

// ---------------------------------------------------------------------------
// Numbers
// ---------------------------------------------------------------------------

/// Whether `t` is one digit or more.
pub open spec fn are_digits(t: Seq<char>) -> bool {
    t.len() > 0 && forall|i: int| 0 <= i < t.len() ==> '0' <= #[trigger] t[i] <= '9'
}

/// Whether a number is written `sign`, `whole`, `fraction`, `exponent`.
pub open spec fn number_parts(
    sign: Seq<char>,
    whole: Seq<char>,
    fraction: Seq<char>,
    exponent: Seq<char>,
) -> bool {
    &&& sign == Seq::<char>::empty() || sign == seq!['-']
    &&& are_digits(whole) && (whole[0] == '0' ==> whole.len() == 1)
    &&& fraction.len() == 0 || (fraction[0] == '.' && are_digits(fraction.drop_first()))
    &&& exponent.len() == 0 || {
        &&& exponent[0] == 'e' || exponent[0] == 'E'
        &&& {
            ||| are_digits(exponent.drop_first())
            ||| {
                &&& exponent.len() > 2
                &&& exponent[1] == '+' || exponent[1] == '-'
                &&& are_digits(exponent.skip(2))
            }
        }
    }
}

/// Whether `t` is a JSON number.
pub open spec fn is_number(t: Seq<char>) -> bool {
    exists|sign: Seq<char>, whole: Seq<char>, fraction: Seq<char>, exponent: Seq<char>|
        #[trigger] number_parts(sign, whole, fraction, exponent) && t == sign + whole + fraction
            + exponent
}

/// Whether what stands at `i` ends a value: the end, or `,`, `]` or `}`.
spec fn ends_value(s: Seq<char>, i: int) -> bool {
    i == s.len() || (0 <= i < s.len() && (s[i] == ',' || s[i] == ']' || s[i] == '}'))
}

proof fn lemma_digits_read_back(s: Seq<char>, i: int, t: Seq<char>)
    requires
        stands_at(s, i, t),
        forall|k: int| 0 <= k < t.len() ==> '0' <= #[trigger] t[k] <= '9',
        i + t.len() < s.len() ==> !digit(s[i + t.len()]),
    ensures
        digits_end(s, i) == i + t.len(),
    decreases t.len(),
{
    if t.len() > 0 {
        assert(t[0] == s[i + 0]);
        let rest = t.drop_first();
        assert(t =~= seq![t[0]] + rest);
        lemma_stands_at_part(s, i, seq![t[0]], rest);
        assert forall|k: int| 0 <= k < rest.len() implies '0' <= #[trigger] rest[k] <= '9' by {
            assert(rest[k] == t[k + 1]);
        }
        lemma_digits_read_back(s, i + 1, rest);
    }
}

/// A number reads back.
proof fn lemma_number_reads_back(s: Seq<char>, i: int, t: Seq<char>)
    requires
        is_number(t),
        stands_at(s, i, t),
        ends_value(s, i + t.len()),
    ensures
        t.len() > 0,
        value_at(s, i) == Some((ValueView::Number(t), i + t.len())),
{
    let (sign, whole, fraction, exponent) = choose|
        sign: Seq<char>,
        whole: Seq<char>,
        fraction: Seq<char>,
        exponent: Seq<char>,
    | #[trigger]
        number_parts(sign, whole, fraction, exponent) && t == sign + whole + fraction + exponent;
    lemma_stands_at_part(s, i, sign + whole + fraction, exponent);
    lemma_stands_at_part(s, i, sign + whole, fraction);
    lemma_stands_at_part(s, i, sign, whole);
    let i1 = i + sign.len();
    let i2 = i1 + whole.len();
    let i3 = i2 + fraction.len();
    let end = i3 + exponent.len();
    assert(end == i + t.len());
    assert(whole[0] == s[i1 + 0]);
    if sign.len() > 0 {
        assert(sign[0] == s[i + 0]);
    }
    if fraction.len() > 0 {
        assert(fraction[0] == s[i2 + 0]);
    }
    if exponent.len() > 0 {
        assert(exponent[0] == s[i3 + 0]);
    }
    // Whole digits.
    if whole[0] != '0' {
        lemma_digits_read_back(s, i1, whole);
    }
    assert(int_end(s, i1) == Some(i2));
    // Fraction.
    if fraction.len() > 0 {
        let ds = fraction.drop_first();
        assert(fraction =~= seq!['.'] + ds);
        lemma_stands_at_part(s, i2, seq!['.'], ds);
        assert(ds[0] == s[i2 + 1 + 0]);
        lemma_digits_read_back(s, i2 + 1, ds);
    }
    assert(frac_end(s, i2) == Some(i3));
    // Exponent.
    if exponent.len() > 0 {
        let ds = exponent.drop_first();
        assert(exponent =~= seq![exponent[0]] + ds);
        lemma_stands_at_part(s, i3, seq![exponent[0]], ds);
        assert(ds[0] == s[i3 + 1 + 0]);
        if are_digits(ds) {
            lemma_digits_read_back(s, i3 + 1, ds);
        } else {
            let es = exponent.skip(2);
            assert(exponent =~= seq![exponent[0], exponent[1]] + es);
            lemma_stands_at_part(s, i3, seq![exponent[0], exponent[1]], es);
            assert(ds[0] == exponent[1]);
            assert(es[0] == s[i3 + 2 + 0]);
            lemma_digits_read_back(s, i3 + 2, es);
        }
    }
    assert(exp_end(s, i3) == Some(end));
    assert(number_end(s, i) == Some(end));
    assert(s.subrange(i, end) =~= t) by {
        assert forall|k: int| 0 <= k < t.len() implies s.subrange(i, end)[k] == #[trigger] t[k] by {}
    }
}

// ---------------------------------------------------------------------------
// Values
// ---------------------------------------------------------------------------

/// `v` written as JSON, without blanks.
pub open spec fn written(v: ValueView) -> Seq<char>
    decreases v, 0int,
{
    match v {
        ValueView::Null => seq!['n', 'u', 'l', 'l'],
        ValueView::Bool(b) => if b {
            seq!['t', 'r', 'u', 'e']
        } else {
            seq!['f', 'a', 'l', 's', 'e']
        },
        ValueView::Number(t) => t,
        ValueView::String(t) => encode_view(t),
        ValueView::Array(items) => seq!['['] + (if items.len() == 0 {
            seq![']']
        } else {
            written_items(items)
        }),
        ValueView::Object(entries) => seq!['{'] + (if entries.len() == 0 {
            seq!['}']
        } else {
            written_entries(entries)
        }),
    }
}

/// The items of an array, with commas between them and the `]` behind them.
pub open spec fn written_items(items: Seq<ValueView>) -> Seq<char>
    decreases items, 0int,
{
    if items.len() == 0 {
        seq![]
    } else if items.len() == 1 {
        written(items[0]) + seq![']']
    } else {
        written(items[0]) + seq![','] + written_items(items.drop_first())
    }
}

/// The entries of an object, with commas between them and the `}` behind them.
pub open spec fn written_entries(entries: Seq<(Seq<char>, ValueView)>) -> Seq<char>
    decreases entries, 0int,
{
    if entries.len() == 0 {
        seq![]
    } else if entries.len() == 1 {
        encode_view(entries[0].0) + seq![':'] + written(entries[0].1) + seq!['}']
    } else {
        encode_view(entries[0].0) + seq![':'] + written(entries[0].1) + seq![','] + written_entries(
            entries.drop_first(),
        )
    }
}

/// Whether the numbers in `v` are JSON numbers.
pub open spec fn has_numbers(v: ValueView) -> bool
    decreases v, 0int,
{
    match v {
        ValueView::Number(t) => is_number(t),
        ValueView::Array(items) => forall|i: int|
            0 <= i < items.len() ==> has_numbers(#[trigger] items[i]),
        ValueView::Object(entries) => forall|i: int|
            0 <= i < entries.len() ==> has_numbers((#[trigger] entries[i]).1),
        _ => true,
    }
}

proof fn lemma_word_reads_back(s: Seq<char>, i: int, w: Seq<char>, v: ValueView)
    requires
        stands_at(s, i, w),
    ensures
        literal_at(s, i, w, v) == Some((v, i + w.len())),
{
    assert(s.subrange(i, i + w.len()) =~= w) by {
        assert forall|k: int| 0 <= k < w.len() implies s.subrange(i, i + w.len())[k]
            == #[trigger] w[k] by {}
    }
}

/// A written value does not start with a blank.
proof fn lemma_written_starts(v: ValueView)
    requires
        has_numbers(v),
    ensures
        written(v).len() > 0,
        written(v)[0] != ']',
        !(written(v)[0] == ' ' || written(v)[0] == '\t' || written(v)[0] == '\n' || written(v)[0]
            == '\r'),
{
    if let ValueView::Number(t) = v {
        let (sign, whole, fraction, exponent) = choose|
            sign: Seq<char>,
            whole: Seq<char>,
            fraction: Seq<char>,
            exponent: Seq<char>,
        | #[trigger]
            number_parts(sign, whole, fraction, exponent) && t == sign + whole + fraction + exponent;
        assert(t[0] == if sign.len() > 0 {
            sign[0]
        } else {
            whole[0]
        });
    }
}

proof fn lemma_value_reads_back(s: Seq<char>, i: int, v: ValueView)
    requires
        has_numbers(v),
        stands_at(s, i, written(v)),
        ends_value(s, i + written(v).len()),
    ensures
        value_at(s, i) == Some((v, i + written(v).len())),
    decreases v, 1int,
{
    lemma_written_starts(v);
    let w = written(v);
    assert(w[0] == s[i + 0]);
    match v {
        ValueView::Null => {
            reveal_strlit("null");
            assert("null"@ =~= w);
            lemma_word_reads_back(s, i, w, v);
        },
        ValueView::Bool(b) => {
            reveal_strlit("true");
            reveal_strlit("false");
            if b {
                assert("true"@ =~= w);
            } else {
                assert("false"@ =~= w);
            }
            lemma_word_reads_back(s, i, w, v);
        },
        ValueView::Number(t) => {
            lemma_number_reads_back(s, i, t);
        },
        ValueView::String(t) => {
            lemma_encoded_string_reads_back(s, i, t);
        },
        ValueView::Array(items) => {
            if items.len() == 0 {
                assert(w =~= seq!['[', ']']);
                assert(w[1] == s[i + 1]);
                assert(past_blanks(s, i + 1) == i + 1);
                assert(items =~= seq![]);
            } else {
                let body = written_items(items);
                lemma_stands_at_part(s, i, seq!['['], body);
                lemma_items_read_back(s, i + 1, items);
                lemma_written_starts(items[0]);
                assert(body[0] == written(items[0])[0]);
                assert(body[0] == s[i + 1 + 0]);
                assert(past_blanks(s, i + 1) == i + 1);
            }
        },
        ValueView::Object(entries) => {
            if entries.len() == 0 {
                assert(w =~= seq!['{', '}']);
                assert(w[1] == s[i + 1]);
                assert(past_blanks(s, i + 1) == i + 1);
                assert(entries =~= seq![]);
            } else {
                let body = written_entries(entries);
                lemma_stands_at_part(s, i, seq!['{'], body);
                lemma_entries_read_back(s, i + 1, entries);
                assert(body[0] == '"');
                assert(body[0] == s[i + 1 + 0]);
                lemma_object_reads_back(s, i, entries, i + w.len());
            }
        },
    }
}

proof fn lemma_items_read_back(s: Seq<char>, i: int, items: Seq<ValueView>)
    requires
        items.len() > 0,
        forall|k: int| 0 <= k < items.len() ==> has_numbers(#[trigger] items[k]),
        stands_at(s, i, written_items(items)),
    ensures
        items_at(s, i) == Some((items, i + written_items(items).len())),
    decreases items, 2int,
{
    let v = items[0];
    assert(has_numbers(v));
    lemma_written_starts(v);
    let x = written(v);
    let rest = items.drop_first();
    let j = i + x.len();
    if items.len() == 1 {
        lemma_stands_at_part(s, i, x, seq![']']);
        assert(seq![']'][0] == s[j + 0]);
        assert(items =~= seq![v]);
    } else {
        let more = written_items(rest);
        assert(written_items(items) =~= x + (seq![','] + more));
        lemma_stands_at_part(s, i, x, seq![','] + more);
        lemma_stands_at_part(s, j, seq![','], more);
        assert(seq![','][0] == s[j + 0]);
        assert forall|k: int| 0 <= k < rest.len() implies has_numbers(#[trigger] rest[k]) by {
            assert(rest[k] == items[k + 1]);
        }
        lemma_items_read_back(s, j + 1, rest);
        assert(seq![v] + rest =~= items);
    }
    assert(x[0] == s[i + 0]);
    assert(past_blanks(s, i) == i);
    lemma_value_reads_back(s, i, v);
    assert(past_blanks(s, j) == j);
}

proof fn lemma_entries_read_back(s: Seq<char>, i: int, entries: Seq<(Seq<char>, ValueView)>)
    requires
        entries.len() > 0,
        forall|k: int| 0 <= k < entries.len() ==> has_numbers((#[trigger] entries[k]).1),
        stands_at(s, i, written_entries(entries)),
    ensures
        entries_at(s, i) == Some((entries, i + written_entries(entries).len())),
    decreases entries, 2int,
{
    let (key, v) = entries[0];
    assert(has_numbers(entries[0].1));
    lemma_written_starts(v);
    let h = encode_view(key) + seq![':'];
    let x = written(v);
    let rest = entries.drop_first();
    let j = i + h.len();
    let e = j + x.len();
    let tail = if entries.len() == 1 {
        seq!['}']
    } else {
        seq![','] + written_entries(rest)
    };
    assert(written_entries(entries) =~= h + (x + tail));
    lemma_stands_at_part(s, i, h, x + tail);
    lemma_stands_at_part(s, j, x, tail);
    assert(tail[0] == s[e + 0]);
    assert(x[0] == s[j + 0]);
    lemma_value_reads_back(s, j, v);
    lemma_entry_reads_back(s, i, key, v, e);
    if entries.len() == 1 {
        lemma_last_entry_reads_back(s, i, key, v, e);
        assert(entries =~= seq![(key, v)]);
    } else {
        lemma_stands_at_part(s, e, seq![','], written_entries(rest));
        assert forall|k: int| 0 <= k < rest.len() implies has_numbers((#[trigger] rest[k]).1) by {
            assert(rest[k] == entries[k + 1]);
        }
        lemma_entries_read_back(s, e + 1, rest);
        lemma_more_entries_read_back(
            s,
            i,
            key,
            v,
            e,
            rest,
            e + 1 + written_entries(rest).len(),
        );
        assert(seq![(key, v)] + rest =~= entries);
    }
}

/// Every value is read back from what is written for it, however it is nested:
/// arrays with their items in order, and objects with their entries in order,
/// keys that occur twice included.
pub proof fn law_every_value_parses_back(v: ValueView)
    requires
        has_numbers(v),
    ensures
        parse_view(written(v)) == Some(v),
{
    let s = written(v);
    lemma_written_starts(v);
    assert(stands_at(s, 0, s));
    assert(past_blanks(s, 0) == 0);
    lemma_value_reads_back(s, 0, v);
    assert(past_blanks(s, s.len() as int) == s.len());
}

} // verus!
