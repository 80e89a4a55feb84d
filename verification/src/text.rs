//! Strings as sequences of characters and as UTF-8 bytes.
//!
//! The lexer works on byte offsets while contracts speak of characters; this
//! module holds the bridges between the two, and the few string operations
//! that the rest of the library needs with exact contracts.

use vstd::prelude::*;
use vstd::string::*;
use vstd::utf8::*;

verus! {

/// `String::push` appends the given character to the end of the string.
pub assume_specification[ std::string::String::push ](s: &mut std::string::String, c: char)
    ensures
        final(s)@ == old(s)@.push(c),
;

// ---------------------------------------------------------------------------
// Lengths and equality
// ---------------------------------------------------------------------------

/// A string has at least as many bytes as characters.
pub proof fn lemma_chars_at_most_bytes(s: Seq<char>)
    ensures
        s.len() <= encode_utf8(s).len(),
    decreases s.len(),
{
    if s.len() > 0 {
        lemma_chars_at_most_bytes(s.drop_first());
    }
}

/// Two strings with the same bytes have the same characters.
pub proof fn lemma_encode_injective(a: Seq<char>, b: Seq<char>)
    requires
        encode_utf8(a) == encode_utf8(b),
    ensures
        a == b,
{
    encode_utf8_decode_utf8(a);
    encode_utf8_decode_utf8(b);
}

/// The bytes of two strings put together are their bytes put together.
pub proof fn lemma_encode_add(a: Seq<char>, b: Seq<char>)
    ensures
        encode_utf8(a + b) == encode_utf8(a) + encode_utf8(b),
    decreases a.len(),
{
    if a.len() == 0 {
        assert(a + b =~= b);
        assert(encode_utf8(a) + encode_utf8(b) =~= encode_utf8(b));
    } else {
        assert((a + b).drop_first() =~= a.drop_first() + b);
        lemma_encode_add(a.drop_first(), b);
        assert(encode_utf8(a + b) =~= encode_utf8(a) + encode_utf8(b));
    }
}

/// The number of bytes of `s`.
pub fn byte_len(s: &str) -> (n: usize)
    ensures
        n == s.spec_bytes().len(),
        s@.len() <= n,
{
    proof {
        lemma_chars_at_most_bytes(s@);
    }
    s.as_bytes().len()
}

/// Whether two byte slices are equal.
pub fn bytes_eq(a: &[u8], b: &[u8]) -> (same: bool)
    ensures
        same == (a@ == b@),
{
    if a.len() != b.len() {
        return false;
    }
    let n: usize = a.len();
    let mut i: usize = 0;
    while i < n
        invariant
            i <= n,
            n == a@.len(),
            n == b@.len(),
            forall|k: int| 0 <= k < i ==> a@[k] == b@[k],
        decreases n - i,
    {
        if a[i] != b[i] {
            return false;
        }
        i += 1;
    }
    assert(a@ =~= b@);
    true
}

/// Whether two strings are equal.
pub fn str_eq(a: &str, b: &str) -> (same: bool)
    ensures
        same == (a@ == b@),
{
    let same = bytes_eq(a.as_bytes(), b.as_bytes());
    proof {
        if same {
            lemma_encode_injective(a@, b@);
        }
    }
    same
}

// ---------------------------------------------------------------------------
// Slicing by byte offset
// ---------------------------------------------------------------------------

/// Whether `start..end` is a byte range that can be cut out of `bytes`: it lies
/// inside, and neither end splits a character.
pub open spec fn sliceable(bytes: Seq<u8>, start: int, end: int) -> bool {
    &&& 0 <= start <= end <= bytes.len()
    &&& is_char_boundary(bytes, start)
    &&& is_char_boundary(bytes, end)
}

/// The characters of the byte range `start..end` of `src`.
pub open spec fn slice_chars(src: Seq<char>, start: int, end: int) -> Seq<char> {
    decode_utf8(encode_utf8(src).subrange(start, end))
}

/// An index right after an ASCII byte is a character boundary.
pub proof fn lemma_boundary_after_ascii(bytes: Seq<u8>, i: int)
    requires
        valid_utf8(bytes),
        0 < i <= bytes.len(),
        bytes[i - 1] < 0x80,
    ensures
        is_char_boundary(bytes, i),
    decreases bytes.len(),
{
    let n = length_of_first_scalar(bytes);
    let rest = pop_first_scalar(bytes);
    if i - 1 < n {
        // The byte belongs to the first character, and an ASCII byte can only
        // be the single byte of a one-byte character.
        assert(n == 1);
        reveal_with_fuel(is_char_boundary, 2);
        assert(is_char_boundary(rest, 0));
    } else {
        assert(rest[i - 1 - n] == bytes[i - 1]);
        lemma_boundary_after_ascii(rest, i - n);
    }
}

/// An index that holds an ASCII byte is a character boundary.
pub proof fn lemma_boundary_at_ascii(bytes: Seq<u8>, i: int)
    requires
        valid_utf8(bytes),
        0 <= i < bytes.len(),
        bytes[i] < 0x80,
    ensures
        is_char_boundary(bytes, i),
{
    is_char_boundary_iff_not_is_continuation_byte(bytes, i);
}

/// Moving a boundary by a boundary stays on a boundary.
proof fn lemma_boundary_shift(bytes: Seq<u8>, start: int, end: int)
    requires
        valid_utf8(bytes),
        sliceable(bytes, start, end),
    ensures
        is_char_boundary(bytes.subrange(0, end), start),
        valid_utf8(bytes.subrange(0, end)),
{
    let head = bytes.subrange(0, end);
    valid_utf8_split(bytes, end);
    if start == end {
        is_char_boundary_start_end_of_seq(head);
        assert(head.len() == end);
    } else {
        is_char_boundary_iff_not_is_continuation_byte(bytes, start);
        is_char_boundary_iff_not_is_continuation_byte(head, start);
        assert(head[start] == bytes[start]);
    }
}

/// The part of `src` between the byte offsets `start` and `end`.
pub fn substr(src: &str, start: usize, end: usize) -> (res: &str)
    requires
        sliceable(src.spec_bytes(), start as int, end as int),
    ensures
        res.spec_bytes() == src.spec_bytes().subrange(start as int, end as int),
        res@ == slice_chars(src@, start as int, end as int),
{
    proof {
        encode_utf8_valid_utf8(src@);
        lemma_boundary_shift(src.spec_bytes(), start as int, end as int);
    }
    let (head, _tail) = src.split_at(end);
    let (_front, mid) = head.split_at(start);
    proof {
        encode_utf8_decode_utf8(mid@);
        assert(mid.spec_bytes() =~= src.spec_bytes().subrange(start as int, end as int));
    }
    mid
}

// ---------------------------------------------------------------------------
// White space
// ---------------------------------------------------------------------------

/// The characters with the Unicode property `White_Space`.
pub open spec fn white_space(c: char) -> bool {
    let u = c as u32;
    ||| 0x09 <= u <= 0x0d
    ||| u == 0x20
    ||| u == 0x85
    ||| u == 0xa0
    ||| u == 0x1680
    ||| 0x2000 <= u <= 0x200a
    ||| u == 0x2028
    ||| u == 0x2029
    ||| u == 0x202f
    ||| u == 0x205f
    ||| u == 0x3000
}

/// Whether `s` holds nothing but white space.
pub open spec fn blank(s: Seq<char>) -> bool {
    forall|i: int| 0 <= i < s.len() ==> white_space(#[trigger] s[i])
}

/// Whether `c` has the Unicode property `White_Space`.
pub fn is_white_space(c: char) -> (yes: bool)
    ensures
        yes == white_space(c),
{
    let u: u32 = c as u32;
    (0x09 <= u && u <= 0x0d) || u == 0x20 || u == 0x85 || u == 0xa0 || u == 0x1680 || (0x2000 <= u
        && u <= 0x200a) || u == 0x2028 || u == 0x2029 || u == 0x202f || u == 0x205f || u == 0x3000
}

/// Whether `s` is empty once surrounding white space is trimmed.
pub fn is_blank(s: &str) -> (yes: bool)
    ensures
        yes == blank(s@),
{
    for c in it: s.chars()
        invariant
            it.seq() == s@,
            forall|k: int| 0 <= k < it.index() ==> white_space(#[trigger] s@[k]),
    {
        if !is_white_space(c) {
            assert(!white_space(s@[it.index()]));
            return false;
        }
    }
    true
}

/// A text with a printable ASCII character in it is not blank, and one of spaces,
/// tabs, newlines and carriage returns alone is.
pub proof fn law_blank_texts_show_nothing(s: Seq<char>)
    ensures
        (exists|i: int| 0 <= i < s.len() && '!' <= #[trigger] s[i] <= '~') ==> !blank(s),
        (forall|i: int|
            0 <= i < s.len() ==> #[trigger] s[i] == ' ' || s[i] == '\t' || s[i] == '\n' || s[i]
                == '\r') ==> blank(s),
{
    if exists|i: int| 0 <= i < s.len() && '!' <= #[trigger] s[i] <= '~' {
        let i = choose|i: int| 0 <= i < s.len() && '!' <= #[trigger] s[i] <= '~';
        assert(!white_space(s[i]));
    }
}

// ---------------------------------------------------------------------------
// Building strings
// ---------------------------------------------------------------------------

/// Append every character of `s` to `out`.
pub fn push_str(out: &mut String, s: &str)
    ensures
        final(out)@ == old(out)@ + s@,
{
    out.append(s);
}

/// The decimal digit for `d`.
pub open spec fn digit(d: nat) -> char {
    ('0' as int + d) as char
}

/// `n` in decimal.
pub open spec fn decimal(n: nat) -> Seq<char>
    decreases n,
{
    if n < 10 {
        seq![digit(n)]
    } else {
        decimal(n / 10).push(digit(n % 10))
    }
}

/// Append `n` in decimal to `out`.
pub fn push_decimal(out: &mut String, n: usize)
    ensures
        final(out)@ == old(out)@ + decimal(n as nat),
    decreases n,
{
    if n >= 10 {
        push_decimal(out, n / 10);
    }
    let d: char = match n % 10 {
        0 => '0',
        1 => '1',
        2 => '2',
        3 => '3',
        4 => '4',
        5 => '5',
        6 => '6',
        7 => '7',
        8 => '8',
        _ => '9',
    };
    out.push(d);
    assert(out@ =~= old(out)@ + decimal(n as nat));
}

/// The characters of `s` as a vector.
pub fn collect_chars(s: &str) -> (v: Vec<char>)
    ensures
        v@ == s@,
{
    let mut v: Vec<char> = Vec::new();
    for c in it: s.chars()
        invariant
            it.seq() == s@,
            v@ == s@.take(it.index() as int),
    {
        v.push(c);
    }
    v
}

/// The character of `s` at `i`, if there is one.
pub fn char_at(s: &str, i: usize) -> (c: Option<char>)
    ensures
        match c {
            Some(x) => i < s@.len() && x == s@[i as int],
            None => i >= s@.len(),
        },
{
    let chars = collect_chars(s);
    if i < chars.len() {
        Some(chars[i])
    } else {
        None
    }
}

} // verus!
