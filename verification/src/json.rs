//! A minimal, dependency-free JSON reader/writer.
//!
//! The formatter only needs to read two strings out of the hook payload
//! (`tool_name` and `tool_input.command`) and emit a small fixed-shape
//! response, so this module implements just enough of RFC 8259: full value
//! parsing with correct string unescaping (including `\uXXXX` surrogate pairs)
//! and string encoding.
//!
//! Anything malformed is a parse error; the hook treats every error as "emit
//! `{}` and leave the command untouched", so being strict here is safe.
//!
//! The grammar is stated by the functions that end in `_at`: each takes the
//! text and an index, and gives the value that stands there with the index
//! just past it, or `None` where no such value stands.

use vstd::prelude::*;
use vstd::string::*;
use crate::text::{collect_chars, str_eq};

verus! {

/// A parsed JSON value. Numbers are kept as their raw text since the formatter
/// never inspects them.
#[derive(Debug, PartialEq)]
pub enum Value {
    Null,
    Bool(bool),
    Number(String),
    String(String),
    Array(Vec<Value>),
    Object(Vec<(String, Value)>),
}

impl Clone for Value {
    fn clone(&self) -> (res: Value)
        ensures
            res@ == self@,
    {
        self.copy()
    }
}

/// The mathematical form of a [`Value`].
pub enum ValueView {
    Null,
    Bool(bool),
    Number(Seq<char>),
    String(Seq<char>),
    Array(Seq<ValueView>),
    Object(Seq<(Seq<char>, ValueView)>),
}

/// The mathematical forms of a sequence of values.
pub open spec fn value_views(items: Seq<Value>) -> Seq<ValueView> {
    Seq::new(items.len(), |i: int| items[i]@)
}

/// The mathematical forms of the entries of an object.
pub open spec fn entry_views(entries: Seq<(String, Value)>) -> Seq<(Seq<char>, ValueView)> {
    Seq::new(entries.len(), |i: int| (entries[i].0@, entries[i].1@))
}

impl ValueView {
    /// For an object, the value of the first entry under `key`.
    pub open spec fn get(self, key: Seq<char>) -> Option<ValueView> {
        match self {
            ValueView::Object(entries) => first_entry(entries, key),
            _ => None,
        }
    }

    /// The string contents, if this is a string.
    pub open spec fn as_str(self) -> Option<Seq<char>> {
        match self {
            ValueView::String(s) => Some(s),
            _ => None,
        }
    }
}

/// The value of the first of `entries` under `key`.
pub open spec fn first_entry(entries: Seq<(Seq<char>, ValueView)>, key: Seq<char>) -> Option<
    ValueView,
>
    decreases entries.len(),
{
    if entries.len() == 0 {
        None
    } else if entries[0].0 == key {
        Some(entries[0].1)
    } else {
        first_entry(entries.drop_first(), key)
    }
}

impl Value {
    pub open spec fn view(&self) -> ValueView
        decreases self,
    {
        match self {
            Value::Null => ValueView::Null,
            Value::Bool(b) => ValueView::Bool(*b),
            Value::Number(s) => ValueView::Number(s@),
            Value::String(s) => ValueView::String(s@),
            Value::Array(items) => ValueView::Array(
                Seq::new(
                    items@.len(),
                    |i: int|
                        if 0 <= i < items@.len() {
                            items@[i].view()
                        } else {
                            ValueView::Null
                        },
                ),
            ),
            Value::Object(entries) => ValueView::Object(
                Seq::new(
                    entries@.len(),
                    |i: int|
                        if 0 <= i < entries@.len() {
                            (entries@[i].0@, entries@[i].1.view())
                        } else {
                            (seq![], ValueView::Null)
                        },
                ),
            ),
        }
    }

    /// A copy of the value.
    fn copy(&self) -> (res: Value)
        ensures
            res@ == self@,
        decreases self,
    {
        match self {
            Value::Null => Value::Null,
            Value::Bool(b) => Value::Bool(*b),
            Value::Number(s) => Value::Number(s.clone()),
            Value::String(s) => Value::String(s.clone()),
            Value::Array(items) => {
                let mut out: Vec<Value> = Vec::new();
                let mut i: usize = 0;
                while i < items.len()
                    invariant
                        i <= items@.len(),
                        decreases_to!(self => items),
                        out@.len() == i,
                        forall|k: int| 0 <= k < i ==> (#[trigger] out@[k])@ == items@[k]@,
                    decreases items@.len() - i,
                {
                    let item = items[i].copy();
                    out.push(item);
                    i += 1;
                }
                let res = Value::Array(out);
                assert(res@->Array_0 =~= self@->Array_0);
                res
            },
            Value::Object(entries) => {
                let mut out: Vec<(String, Value)> = Vec::new();
                let mut i: usize = 0;
                while i < entries.len()
                    invariant
                        i <= entries@.len(),
                        decreases_to!(self => entries),
                        out@.len() == i,
                        forall|k: int|
                            0 <= k < i ==> (#[trigger] out@[k]).0@ == entries@[k].0@ && out@[k].1@
                                == entries@[k].1@,
                    decreases entries@.len() - i,
                {
                    let key = entries[i].0.clone();
                    let val = entries[i].1.copy();
                    out.push((key, val));
                    i += 1;
                }
                let res = Value::Object(out);
                assert(res@->Object_0 =~= self@->Object_0);
                res
            },
        }
    }

    /// For an object, the value under `key`.
    pub fn get(&self, key: &str) -> (found: Option<&Value>)
        ensures
            found matches Some(v) ==> self@.get(key@) == Some(v@),
            found is None ==> self@.get(key@) is None,
    {
        match self {
            Value::Object(entries) => {
                let ghost all = self@->Object_0;
                let mut i: usize = 0;
                assert(all.skip(0) =~= all);
                while i < entries.len()
                    invariant
                        i <= entries@.len(),
                        self@ == ValueView::Object(all),
                        all.len() == entries@.len(),
                        forall|k: int|
                            0 <= k < all.len() ==> #[trigger] all[k] == (
                                entries@[k].0@,
                                entries@[k].1@,
                            ),
                        first_entry(all, key@) == first_entry(all.skip(i as int), key@),
                    decreases entries@.len() - i,
                {
                    assert(all.skip(i as int).drop_first() =~= all.skip(i + 1));
                    if str_eq(&entries[i].0, key) {
                        return Some(&entries[i].1);
                    }
                    i += 1;
                }
                None
            },
            _ => None,
        }
    }

    /// The string contents, if this is a string.
    pub fn as_str(&self) -> (s: Option<&str>)
        ensures
            s matches Some(t) ==> self@.as_str() == Some(t@),
            s is None ==> self@.as_str() is None,
    {
        match self {
            Value::String(s) => Some(s.as_str()),
            _ => None,
        }
    }
}

// ---------------------------------------------------------------------------
// The grammar
// ---------------------------------------------------------------------------

/// A blank between JSON tokens.
pub open spec fn json_blank(c: char) -> bool {
    c == ' ' || c == '\t' || c == '\n' || c == '\r'
}

/// The index of the first character from `i` on that is not a blank.
pub open spec fn past_blanks(s: Seq<char>, i: int) -> int
    decreases s.len() - i,
{
    if i < s.len() && json_blank(s[i]) {
        past_blanks(s, i + 1)
    } else {
        i
    }
}

/// Skipping blanks goes forward and stays inside the text.
pub proof fn lemma_past_blanks(s: Seq<char>, i: int)
    ensures
        i <= past_blanks(s, i),
        i <= s.len() ==> past_blanks(s, i) <= s.len(),
    decreases s.len() - i,
{
    if i < s.len() && json_blank(s[i]) {
        lemma_past_blanks(s, i + 1);
    }
}

/// The value of a hexadecimal digit.
pub open spec fn hex_value(c: char) -> Option<int> {
    if '0' <= c && c <= '9' {
        Some(c as int - '0' as int)
    } else if 'a' <= c && c <= 'f' {
        Some(c as int - 'a' as int + 10)
    } else if 'A' <= c && c <= 'F' {
        Some(c as int - 'A' as int + 10)
    } else {
        None
    }
}

/// The number written by the four hexadecimal digits at `i`.
pub open spec fn hex4_at(s: Seq<char>, i: int) -> Option<int> {
    if i + 4 <= s.len() {
        match (hex_value(s[i]), hex_value(s[i + 1]), hex_value(s[i + 2]), hex_value(s[i + 3])) {
            (Some(a), Some(b), Some(c), Some(d)) => Some(((a * 16 + b) * 16 + c) * 16 + d),
            _ => None,
        }
    } else {
        None
    }
}

/// The character that the digits after `\u` stand for, surrogate pairs being
/// combined; `i` is the index of the first digit.
pub open spec fn unicode_at(s: Seq<char>, i: int) -> Option<(char, int)> {
    match hex4_at(s, i) {
        None => None,
        Some(hi) => if 0xd800 <= hi <= 0xdbff {
            if i + 5 < s.len() && s[i + 4] == '\\' && s[i + 5] == 'u' {
                match hex4_at(s, i + 6) {
                    Some(lo) if 0xdc00 <= lo <= 0xdfff => Some(
                        ((0x10000 + (hi - 0xd800) * 0x400 + (lo - 0xdc00)) as char, i + 10),
                    ),
                    _ => None,
                }
            } else {
                None
            }
        } else if 0xdc00 <= hi <= 0xdfff {
            None  // lone low surrogate
        } else {
            Some((hi as char, i + 4))
        },
    }
}

/// The character that an escape stands for; `i` is the index just past the
/// backslash.
pub open spec fn escape_at(s: Seq<char>, i: int) -> Option<(char, int)> {
    if i >= s.len() {
        None
    } else if s[i] == '"' || s[i] == '\\' || s[i] == '/' {
        Some((s[i], i + 1))
    } else if s[i] == 'b' {
        Some(('\u{08}', i + 1))
    } else if s[i] == 'f' {
        Some(('\u{0c}', i + 1))
    } else if s[i] == 'n' {
        Some(('\n', i + 1))
    } else if s[i] == 'r' {
        Some(('\r', i + 1))
    } else if s[i] == 't' {
        Some(('\t', i + 1))
    } else if s[i] == 'u' {
        unicode_at(s, i + 1)
    } else {
        None
    }
}

/// The rest of a string from `i` on, up to its closing quote. A raw control
/// character is invalid.
pub open spec fn chars_at(s: Seq<char>, i: int) -> Option<(Seq<char>, int)>
    decreases s.len() - i,
{
    if i >= s.len() {
        None
    } else if s[i] == '"' {
        Some((seq![], i + 1))
    } else if s[i] == '\\' {
        match escape_at(s, i + 1) {
            Some((c, j)) => match chars_at(s, j) {
                Some((rest, k)) => Some((seq![c] + rest, k)),
                None => None,
            },
            None => None,
        }
    } else if (s[i] as u32) < 0x20 {
        None
    } else {
        match chars_at(s, i + 1) {
            Some((rest, k)) => Some((seq![s[i]] + rest, k)),
            None => None,
        }
    }
}

/// The string literal at `i`.
pub open spec fn string_at(s: Seq<char>, i: int) -> Option<(Seq<char>, int)> {
    if i < s.len() && s[i] == '"' {
        chars_at(s, i + 1)
    } else {
        None
    }
}

pub open spec fn digit(c: char) -> bool {
    '0' <= c && c <= '9'
}

/// The index just past the digits from `i` on.
pub open spec fn digits_end(s: Seq<char>, i: int) -> int
    decreases s.len() - i,
{
    if i < s.len() && digit(s[i]) {
        digits_end(s, i + 1)
    } else {
        i
    }
}

/// The index just past the digits from `i` on, of which there is at least one.
pub open spec fn some_digits(s: Seq<char>, i: int) -> Option<int> {
    if i < s.len() && digit(s[i]) {
        Some(digits_end(s, i))
    } else {
        None
    }
}

/// `int`: `0`, or digits that do not start with `0`.
pub open spec fn int_end(s: Seq<char>, i: int) -> Option<int> {
    if i < s.len() && s[i] == '0' {
        Some(i + 1)
    } else {
        some_digits(s, i)
    }
}

/// `[ frac ]`: a point with digits behind it, if there is a point.
pub open spec fn frac_end(s: Seq<char>, i: int) -> Option<int> {
    if i < s.len() && s[i] == '.' {
        some_digits(s, i + 1)
    } else {
        Some(i)
    }
}

/// `[ exp ]`: `e` or `E`, an optional sign and digits, if there is an `e`.
pub open spec fn exp_end(s: Seq<char>, i: int) -> Option<int> {
    if i < s.len() && (s[i] == 'e' || s[i] == 'E') {
        if i + 1 < s.len() && (s[i + 1] == '+' || s[i + 1] == '-') {
            some_digits(s, i + 2)
        } else {
            some_digits(s, i + 1)
        }
    } else {
        Some(i)
    }
}

/// The index just past the number at `i`: `[ - ] int [ frac ] [ exp ]`.
pub open spec fn number_end(s: Seq<char>, i: int) -> Option<int> {
    match int_end(
        s,
        if i < s.len() && s[i] == '-' {
            i + 1
        } else {
            i
        },
    ) {
        Some(j) => match frac_end(s, j) {
            Some(k) => exp_end(s, k),
            None => None,
        },
        None => None,
    }
}

/// The number at `i`. What stands behind it is not part of a number: in `01` the
/// number is `0`.
pub open spec fn number_at(s: Seq<char>, i: int) -> Option<(ValueView, int)> {
    match number_end(s, i) {
        Some(end) => Some((ValueView::Number(s.subrange(i, end)), end)),
        None => None,
    }
}

/// The word `w`, standing for `v`, at `i`.
pub open spec fn literal_at(s: Seq<char>, i: int, w: Seq<char>, v: ValueView) -> Option<
    (ValueView, int),
> {
    if i + w.len() <= s.len() && s.subrange(i, i + w.len()) == w {
        Some((v, i + w.len()))
    } else {
        None
    }
}

/// The value at `i`.
pub open spec fn value_at(s: Seq<char>, i: int) -> Option<(ValueView, int)>
    decreases s.len() - i, 1int,
{
    if i >= s.len() {
        None
    } else if s[i] == '{' {
        match object_at(s, i) {
            Some((entries, j)) => Some((ValueView::Object(entries), j)),
            None => None,
        }
    } else if s[i] == '[' {
        match array_at(s, i) {
            Some((items, j)) => Some((ValueView::Array(items), j)),
            None => None,
        }
    } else if s[i] == '"' {
        match string_at(s, i) {
            Some((t, j)) => Some((ValueView::String(t), j)),
            None => None,
        }
    } else if s[i] == 't' {
        literal_at(s, i, "true"@, ValueView::Bool(true))
    } else if s[i] == 'f' {
        literal_at(s, i, "false"@, ValueView::Bool(false))
    } else if s[i] == 'n' {
        literal_at(s, i, "null"@, ValueView::Null)
    } else if s[i] == '-' || digit(s[i]) {
        number_at(s, i)
    } else {
        None
    }
}

/// The array whose `[` is at `i`.
pub open spec fn array_at(s: Seq<char>, i: int) -> Option<(Seq<ValueView>, int)>
    decreases s.len() - i, 0int,
{
    let j = past_blanks(s, i + 1);
    proof {
        lemma_past_blanks(s, i + 1);
    }
    if i >= s.len() {
        None
    } else if j < s.len() && s[j] == ']' {
        Some((seq![], j + 1))
    } else {
        items_at(s, j)
    }
}

/// The items of an array from `i` on, with its `]`.
pub open spec fn items_at(s: Seq<char>, i: int) -> Option<(Seq<ValueView>, int)>
    decreases s.len() - i, 2int,
{
    proof {
        lemma_past_blanks(s, i);
    }
    if i > s.len() {
        None
    } else {
        match value_at(s, past_blanks(s, i)) {
            Some((v, j)) => {
                let k = past_blanks(s, j);
                if k >= s.len() {
                    None
                } else if s[k] == ',' && i < k {
                    match items_at(s, k + 1) {
                        Some((rest, end)) => Some((seq![v] + rest, end)),
                        None => None,
                    }
                } else if s[k] == ']' {
                    Some((seq![v], k + 1))
                } else {
                    None
                }
            },
            None => None,
        }
    }
}

/// The object whose `{` is at `i`.
pub open spec fn object_at(s: Seq<char>, i: int) -> Option<(Seq<(Seq<char>, ValueView)>, int)>
    decreases s.len() - i, 0int,
{
    let j = past_blanks(s, i + 1);
    proof {
        lemma_past_blanks(s, i + 1);
    }
    if i >= s.len() {
        None
    } else if j < s.len() && s[j] == '}' {
        Some((seq![], j + 1))
    } else {
        entries_at(s, j)
    }
}

/// The entries of an object from `i` on, with its `}`.
pub open spec fn entries_at(s: Seq<char>, i: int) -> Option<(Seq<(Seq<char>, ValueView)>, int)>
    decreases s.len() - i, 2int,
{
    match entry_at(s, i) {
        Some((key, v, j)) => {
            let k = past_blanks(s, j);
            if k >= s.len() {
                None
            } else if s[k] == ',' && i < k {
                match entries_at(s, k + 1) {
                    Some((rest, end)) => Some((seq![(key, v)] + rest, end)),
                    None => None,
                }
            } else if s[k] == '}' {
                Some((seq![(key, v)], k + 1))
            } else {
                None
            }
        },
        None => None,
    }
}

/// One `key : value` entry of an object, blanks before it skipped.
pub open spec fn entry_at(s: Seq<char>, i: int) -> Option<(Seq<char>, ValueView, int)>
    decreases s.len() - i, 1int,
{
    match string_at(s, past_blanks(s, i)) {
        Some((key, j)) => {
            let colon = past_blanks(s, j);
            if i <= colon < s.len() && s[colon] == ':' {
                proof {
                    lemma_past_blanks(s, colon + 1);
                }
                match value_at(s, past_blanks(s, colon + 1)) {
                    Some((v, end)) => Some((key, v, end)),
                    None => None,
                }
            } else {
                None
            }
        },
        None => None,
    }
}

/// The value that the whole text `s` is.
pub open spec fn parse_view(s: Seq<char>) -> Option<ValueView> {
    match value_at(s, past_blanks(s, 0)) {
        Some((v, j)) if past_blanks(s, j) == s.len() => Some(v),
        _ => None,
    }
}

// ---------------------------------------------------------------------------
// The reader
// ---------------------------------------------------------------------------

/// `char::from_u32` gives the character with code `code`, and `None` where
/// `code` is not a Unicode scalar value: above `0x10ffff`, or a surrogate.
pub assume_specification[ std::char::from_u32 ](code: u32) -> (c: Option<char>)
    ensures
        (code <= 0xd7ff || 0xe000 <= code <= 0x10ffff) ==> c == Some(code as char),
        (0xd800 <= code <= 0xdfff || 0x10ffff < code) ==> c is None,
;

/// Parse a complete JSON document. Returns `Err(())` on any malformed input.
/// The unit error is intentional: the only caller maps every failure to the
/// same no-op response, so a richer error type would carry no information.
pub fn parse(input: &str) -> (res: Result<Value, ()>)
    ensures
        res matches Ok(v) ==> parse_view(input@) == Some(v@),
        res is Err ==> parse_view(input@) is None,
{
    let chars = collect_chars(input);
    let _len: usize = chars.len();
    let mut p = JParser { s: chars.as_slice(), i: 0 };
    p.skip_ws();
    let v = p.value()?;
    p.skip_ws();
    if p.i != p.s.len() {
        return Err(());  // trailing garbage
    }
    Ok(v)
}

struct JParser<'a> {
    s: &'a [char],
    i: usize,
}

/// The value of a hexadecimal digit.
fn hex_digit(c: char) -> (d: Option<u32>)
    ensures
        d matches Some(v) ==> hex_value(c) == Some(v as int) && v < 16,
        d is None ==> hex_value(c) is None,
{
    let u: u32 = c as u32;
    if '0' <= c && c <= '9' {
        Some(u - '0' as u32)
    } else if 'a' <= c && c <= 'f' {
        Some(u - 'a' as u32 + 10)
    } else if 'A' <= c && c <= 'F' {
        Some(u - 'A' as u32 + 10)
    } else {
        None
    }
}

fn is_digit(c: char) -> (yes: bool)
    ensures
        yes == digit(c),
{
    '0' <= c && c <= '9'
}

impl<'a> JParser<'a> {
    /// The cursor stands inside the text or at its end.
    spec fn inv(self) -> bool {
        self.i <= self.s@.len() <= usize::MAX
    }

    /// Same text, and a cursor that did not go back.
    spec fn follows(self, before: Self) -> bool {
        &&& self.s == before.s
        &&& before.i <= self.i <= self.s@.len() <= usize::MAX
    }

    fn peek(&self) -> (c: Option<char>)
        ensures
            self.i < self.s@.len() ==> c == Some(self.s@[self.i as int]),
            self.i >= self.s@.len() ==> c is None,
    {
        if self.i < self.s.len() {
            Some(self.s[self.i])
        } else {
            None
        }
    }

    fn skip_ws(&mut self)
        requires
            old(self).inv(),
        ensures
            final(self).follows(*old(self)),
            final(self).i == past_blanks(old(self).s@, old(self).i as int),
    {
        while self.i < self.s.len() && (self.s[self.i] == ' ' || self.s[self.i] == '\t'
            || self.s[self.i] == '\n' || self.s[self.i] == '\r')
            invariant
                self.follows(*old(self)),
                past_blanks(old(self).s@, old(self).i as int) == past_blanks(
                    self.s@,
                    self.i as int,
                ),
            decreases self.s@.len() - self.i,
        {
            self.i += 1;
        }
    }

    fn value(&mut self) -> (res: Result<Value, ()>)
        requires
            old(self).inv(),
        ensures
            res matches Ok(v) ==> {
                &&& value_at(old(self).s@, old(self).i as int) == Some(
                    (v@, final(self).i as int),
                )
                &&& final(self).follows(*old(self))
                &&& old(self).i < final(self).i
            },
            res is Err ==> value_at(old(self).s@, old(self).i as int) is None,
        decreases old(self).s@.len() - old(self).i, 1int,
    {
        let c: char = match self.peek() {
            Some(c) => c,
            None => return Err(()),
        };
        if c == '{' {
            self.object()
        } else if c == '[' {
            self.array()
        } else if c == '"' {
            match self.string() {
                Ok(s) => Ok(Value::String(s)),
                Err(_) => Err(()),
            }
        } else if c == 't' {
            proof {
                reveal_strlit("true");
            }
            self.literal("true", Value::Bool(true))
        } else if c == 'f' {
            proof {
                reveal_strlit("false");
            }
            self.literal("false", Value::Bool(false))
        } else if c == 'n' {
            proof {
                reveal_strlit("null");
            }
            self.literal("null", Value::Null)
        } else if c == '-' || ('0' <= c && c <= '9') {
            self.number()
        } else {
            Err(())
        }
    }

    fn literal(&mut self, word: &str, val: Value) -> (res: Result<Value, ()>)
        requires
            old(self).inv(),
        ensures
            res matches Ok(v) ==> {
                &&& v == val
                &&& literal_at(old(self).s@, old(self).i as int, word@, val@) == Some(
                    (val@, final(self).i as int),
                )
                &&& final(self).follows(*old(self))
                &&& final(self).i == old(self).i + word@.len()
            },
            res is Err ==> literal_at(old(self).s@, old(self).i as int, word@, val@) is None,
    {
        let w = collect_chars(word);
        let n: usize = w.len();
        if self.s.len() - self.i < n {
            return Err(());
        }
        let mut k: usize = 0;
        while k < n
            invariant
                *self == *old(self),
                self.inv(),
                k <= n,
                n == w@.len(),
                w@ == word@,
                self.i + n <= self.s@.len(),
                forall|j: int| 0 <= j < k ==> self.s@[self.i + j] == w@[j],
            decreases n - k,
        {
            if self.s[self.i + k] != w[k] {
                assert(self.s@.subrange(self.i as int, self.i + n)[k as int] != w@[k as int]);
                return Err(());
            }
            k += 1;
        }
        assert(self.s@.subrange(self.i as int, self.i + n) =~= word@);
        self.i += n;
        Ok(val)
    }

    /// Past the digits at the cursor, of which there must be one.
    fn digits(&mut self) -> (ok: bool)
        requires
            old(self).inv(),
        ensures
            ok ==> {
                &&& some_digits(old(self).s@, old(self).i as int) == Some(final(self).i as int)
                &&& final(self).follows(*old(self))
                &&& old(self).i < final(self).i
            },
            !ok ==> some_digits(old(self).s@, old(self).i as int) is None,
    {
        if self.i >= self.s.len() || !is_digit(self.s[self.i]) {
            return false;
        }
        while self.i < self.s.len() && is_digit(self.s[self.i])
            invariant
                self.follows(*old(self)),
                old(self).i < self.s@.len(),
                digit(self.s@[old(self).i as int]),
                digits_end(self.s@, old(self).i as int) == digits_end(self.s@, self.i as int),
            decreases self.s@.len() - self.i,
        {
            self.i += 1;
        }
        true
    }

    /// Past the `int` at the cursor.
    fn int_part(&mut self) -> (ok: bool)
        requires
            old(self).inv(),
        ensures
            ok ==> {
                &&& int_end(old(self).s@, old(self).i as int) == Some(final(self).i as int)
                &&& final(self).follows(*old(self))
                &&& old(self).i < final(self).i
            },
            !ok ==> int_end(old(self).s@, old(self).i as int) is None,
    {
        if self.i < self.s.len() && self.s[self.i] == '0' {
            self.i += 1;
            true
        } else {
            self.digits()
        }
    }

    /// Past the `frac` at the cursor, if there is one.
    fn frac_part(&mut self) -> (ok: bool)
        requires
            old(self).inv(),
        ensures
            ok ==> {
                &&& frac_end(old(self).s@, old(self).i as int) == Some(final(self).i as int)
                &&& final(self).follows(*old(self))
            },
            !ok ==> frac_end(old(self).s@, old(self).i as int) is None,
    {
        if self.i < self.s.len() && self.s[self.i] == '.' {
            self.i += 1;
            self.digits()
        } else {
            true
        }
    }

    /// Past the `exp` at the cursor, if there is one.
    fn exp_part(&mut self) -> (ok: bool)
        requires
            old(self).inv(),
        ensures
            ok ==> {
                &&& exp_end(old(self).s@, old(self).i as int) == Some(final(self).i as int)
                &&& final(self).follows(*old(self))
            },
            !ok ==> exp_end(old(self).s@, old(self).i as int) is None,
    {
        if self.i < self.s.len() && (self.s[self.i] == 'e' || self.s[self.i] == 'E') {
            self.i += 1;
            if self.i < self.s.len() && (self.s[self.i] == '+' || self.s[self.i] == '-') {
                self.i += 1;
            }
            self.digits()
        } else {
            true
        }
    }

    fn number(&mut self) -> (res: Result<Value, ()>)
        requires
            old(self).inv(),
        ensures
            res matches Ok(v) ==> {
                &&& number_at(old(self).s@, old(self).i as int) == Some(
                    (v@, final(self).i as int),
                )
                &&& final(self).follows(*old(self))
                &&& old(self).i < final(self).i
            },
            res is Err ==> number_at(old(self).s@, old(self).i as int) is None,
    {
        let start: usize = self.i;
        if self.i < self.s.len() && self.s[self.i] == '-' {
            self.i += 1;
        }
        if !self.int_part() {
            return Err(());
        }
        if !self.frac_part() {
            return Err(());
        }
        if !self.exp_part() {
            return Err(());
        }
        let mut text = String::new();
        let mut k: usize = start;
        while k < self.i
            invariant
                start <= k <= self.i,
                self.inv(),
                text@ == self.s@.subrange(start as int, k as int),
            decreases self.i - k,
        {
            text.push(self.s[k]);
            k += 1;
            assert(text@ =~= self.s@.subrange(start as int, k as int));
        }
        Ok(Value::Number(text))
    }

    fn string(&mut self) -> (res: Result<String, ()>)
        requires
            old(self).inv(),
        ensures
            res matches Ok(t) ==> {
                &&& string_at(old(self).s@, old(self).i as int) == Some((t@, final(self).i as int))
                &&& final(self).follows(*old(self))
                &&& old(self).i < final(self).i
            },
            res is Err ==> string_at(old(self).s@, old(self).i as int) is None,
    {
        match self.peek() {
            Some('"') => {},
            _ => return Err(()),
        }
        self.i += 1;
        let ghost start = self.i as int;
        let mut out = String::new();
        loop
            invariant
                self.follows(*old(self)),
                old(self).i < self.i,
                start == old(self).i + 1,
                old(self).s@[old(self).i as int] == '"',
                chars_at(self.s@, start) == match chars_at(self.s@, self.i as int) {
                    Some((rest, k)) => Some((out@ + rest, k)),
                    None => None,
                },
            decreases self.s@.len() - self.i,
        {
            let c: char = match self.peek() {
                Some(c) => c,
                None => return Err(()),
            };
            let ghost sofar = out@;
            self.i += 1;
            if c == '"' {
                assert(out@ + seq![] =~= out@);
                return Ok(out);
            } else if c == '\\' {
                let d: char = self.escape()?;
                out.push(d);
                proof {
                    if let Some((rest, k)) = chars_at(self.s@, self.i as int) {
                        assert(sofar + (seq![d] + rest) =~= out@ + rest);
                    }
                }
            } else if (c as u32) < 0x20 {
                // A raw control character is invalid in a JSON string.
                return Err(());
            } else {
                out.push(c);
                proof {
                    if let Some((rest, k)) = chars_at(self.s@, self.i as int) {
                        assert(sofar + (seq![c] + rest) =~= out@ + rest);
                    }
                }
            }
        }
    }

    /// Parse what follows the backslash of an escape.
    fn escape(&mut self) -> (res: Result<char, ()>)
        requires
            old(self).inv(),
        ensures
            res matches Ok(c) ==> {
                &&& escape_at(old(self).s@, old(self).i as int) == Some((c, final(self).i as int))
                &&& final(self).follows(*old(self))
                &&& old(self).i < final(self).i
            },
            res is Err ==> escape_at(old(self).s@, old(self).i as int) is None,
    {
        let e: char = match self.peek() {
            Some(e) => e,
            None => return Err(()),
        };
        self.i += 1;
        match e {
            '"' => Ok('"'),
            '\\' => Ok('\\'),
            '/' => Ok('/'),
            'b' => Ok('\u{08}'),
            'f' => Ok('\u{0c}'),
            'n' => Ok('\n'),
            'r' => Ok('\r'),
            't' => Ok('\t'),
            'u' => self.unicode_escape(),
            _ => Err(()),
        }
    }

    /// Parse the four hex digits after `\u`, combining surrogate pairs.
    fn unicode_escape(&mut self) -> (res: Result<char, ()>)
        requires
            old(self).inv(),
        ensures
            res matches Ok(c) ==> {
                &&& unicode_at(old(self).s@, old(self).i as int) == Some((c, final(self).i as int))
                &&& final(self).follows(*old(self))
            },
            res is Err ==> unicode_at(old(self).s@, old(self).i as int) is None,
    {
        let hi: u32 = self.hex4()?;
        if 0xd800 <= hi && hi <= 0xdbff {
            // high surrogate: expect a `\uXXXX` low surrogate next
            if self.s.len() - self.i >= 2 && self.s[self.i] == '\\' && self.s[self.i + 1] == 'u' {
                self.i += 2;
                let lo: u32 = self.hex4()?;
                if 0xdc00 <= lo && lo <= 0xdfff {
                    let code: u32 = 0x10000 + (hi - 0xd800) * 0x400 + (lo - 0xdc00);
                    return match std::char::from_u32(code) {
                        Some(c) => Ok(c),
                        None => Err(()),
                    };
                }
            }
            return Err(());
        }
        if 0xdc00 <= hi && hi <= 0xdfff {
            return Err(());  // lone low surrogate
        }
        match std::char::from_u32(hi) {
            Some(c) => Ok(c),
            None => Err(()),
        }
    }

    fn hex4(&mut self) -> (res: Result<u32, ()>)
        requires
            old(self).inv(),
        ensures
            res matches Ok(v) ==> {
                &&& hex4_at(old(self).s@, old(self).i as int) == Some(v as int)
                &&& v <= 0xffff
                &&& final(self).follows(*old(self))
                &&& final(self).i == old(self).i + 4
            },
            res is Err ==> hex4_at(old(self).s@, old(self).i as int) is None,
    {
        if self.s.len() - self.i < 4 {
            return Err(());
        }
        let i: usize = self.i;
        match (
            hex_digit(self.s[i]),
            hex_digit(self.s[i + 1]),
            hex_digit(self.s[i + 2]),
            hex_digit(self.s[i + 3]),
        ) {
            (Some(a), Some(b), Some(c), Some(d)) => {
                self.i += 4;
                Ok(((a * 16 + b) * 16 + c) * 16 + d)
            },
            _ => Err(()),
        }
    }

    fn array(&mut self) -> (res: Result<Value, ()>)
        requires
            old(self).inv(),
            old(self).i < old(self).s@.len(),
        ensures
            res matches Ok(v) ==> {
                &&& v@ is Array
                &&& array_at(old(self).s@, old(self).i as int) == Some(
                    (v@->Array_0, final(self).i as int),
                )
                &&& final(self).follows(*old(self))
                &&& old(self).i < final(self).i
            },
            res is Err ==> array_at(old(self).s@, old(self).i as int) is None,
        decreases old(self).s@.len() - old(self).i, 0int,
    {
        self.i += 1;  // '['
        let mut items: Vec<Value> = Vec::new();
        self.skip_ws();
        if let Some(']') = self.peek() {
            self.i += 1;
            let v = Value::Array(items);
            assert(v@->Array_0 =~= seq![]);
            return Ok(v);
        }
        let ghost start = self.i as int;
        loop
            invariant
                self.follows(*old(self)),
                old(self).i < self.i,
                old(self).i < old(self).s@.len(),
                array_at(old(self).s@, old(self).i as int) == items_at(self.s@, start),
                items_at(self.s@, start) == match items_at(self.s@, self.i as int) {
                    Some((rest, k)) => Some((value_views(items@) + rest, k)),
                    None => None,
                },
            decreases self.s@.len() - self.i,
        {
            let ghost sofar = value_views(items@);
            self.skip_ws();
            let v = self.value()?;
            let ghost vv = v@;
            items.push(v);
            proof {
                assert(value_views(items@) =~= sofar.push(vv));
                lemma_past_blanks(self.s@, self.i as int);
            }
            self.skip_ws();
            match self.peek() {
                Some(',') => {
                    self.i += 1;
                    proof {
                        if let Some((rest, k)) = items_at(self.s@, self.i as int) {
                            assert(sofar + (seq![vv] + rest) =~= value_views(items@) + rest);
                        }
                    }
                },
                Some(']') => {
                    self.i += 1;
                    let v = Value::Array(items);
                    assert(v@->Array_0 =~= value_views(items@));
                    assert(sofar + seq![vv] =~= value_views(items@));
                    return Ok(v);
                },
                _ => return Err(()),
            }
        }
    }

    /// One `key : value` entry of an object.
    fn entry(&mut self) -> (res: Result<(String, Value), ()>)
        requires
            old(self).inv(),
        ensures
            res matches Ok((key, v)) ==> {
                &&& entry_at(old(self).s@, old(self).i as int) == Some(
                    (key@, v@, final(self).i as int),
                )
                &&& final(self).follows(*old(self))
                &&& old(self).i < final(self).i
            },
            res is Err ==> entry_at(old(self).s@, old(self).i as int) is None,
        decreases old(self).s@.len() - old(self).i, 1int,
    {
        self.skip_ws();
        let key = self.string()?;
        self.skip_ws();
        match self.peek() {
            Some(':') => {},
            _ => return Err(()),
        }
        self.i += 1;
        self.skip_ws();
        let val = self.value()?;
        Ok((key, val))
    }

    fn object(&mut self) -> (res: Result<Value, ()>)
        requires
            old(self).inv(),
            old(self).i < old(self).s@.len(),
        ensures
            res matches Ok(v) ==> {
                &&& v@ is Object
                &&& object_at(old(self).s@, old(self).i as int) == Some(
                    (v@->Object_0, final(self).i as int),
                )
                &&& final(self).follows(*old(self))
                &&& old(self).i < final(self).i
            },
            res is Err ==> object_at(old(self).s@, old(self).i as int) is None,
        decreases old(self).s@.len() - old(self).i, 0int,
    {
        self.i += 1;  // '{'
        let mut entries: Vec<(String, Value)> = Vec::new();
        self.skip_ws();
        if let Some('}') = self.peek() {
            self.i += 1;
            let v = Value::Object(entries);
            assert(v@->Object_0 =~= seq![]);
            return Ok(v);
        }
        let ghost start = self.i as int;
        loop
            invariant
                self.follows(*old(self)),
                old(self).i < self.i,
                old(self).i < old(self).s@.len(),
                object_at(old(self).s@, old(self).i as int) == entries_at(self.s@, start),
                entries_at(self.s@, start) == match entries_at(self.s@, self.i as int) {
                    Some((rest, k)) => Some((entry_views(entries@) + rest, k)),
                    None => None,
                },
            decreases self.s@.len() - self.i,
        {
            let ghost sofar = entry_views(entries@);
            let (key, val) = self.entry()?;
            let ghost entry = (key@, val@);
            entries.push((key, val));
            assert(entry_views(entries@) =~= sofar.push(entry));
            self.skip_ws();
            match self.peek() {
                Some(',') => {
                    self.i += 1;
                    proof {
                        if let Some((rest, k)) = entries_at(self.s@, self.i as int) {
                            assert(sofar + (seq![entry] + rest) =~= entry_views(entries@) + rest);
                        }
                    }
                },
                Some('}') => {
                    self.i += 1;
                    let v = Value::Object(entries);
                    assert(v@->Object_0 =~= entry_views(entries@));
                    assert(sofar + seq![entry] =~= entry_views(entries@));
                    return Ok(v);
                },
                _ => return Err(()),
            }
        }
    }
}

// ---------------------------------------------------------------------------
// The writer
// ---------------------------------------------------------------------------

/// The lower-case hexadecimal digit for `d`.
pub open spec fn hex_char(d: int) -> char {
    if d < 10 {
        ('0' as int + d) as char
    } else {
        ('a' as int + d - 10) as char
    }
}

/// How a character is written inside a JSON string.
pub open spec fn escape_view(c: char) -> Seq<char> {
    if c == '"' {
        seq!['\\', '"']
    } else if c == '\\' {
        seq!['\\', '\\']
    } else if c == '\n' {
        seq!['\\', 'n']
    } else if c == '\r' {
        seq!['\\', 'r']
    } else if c == '\t' {
        seq!['\\', 't']
    } else if c == '\u{08}' {
        seq!['\\', 'b']
    } else if c == '\u{0c}' {
        seq!['\\', 'f']
    } else if (c as u32) < 0x20 {
        seq!['\\', 'u', '0', '0', hex_char(c as int / 16), hex_char(c as int % 16)]
    } else {
        seq![c]
    }
}

/// The characters of `s`, each written as in a JSON string.
pub open spec fn escapes(s: Seq<char>) -> Seq<char>
    decreases s.len(),
{
    if s.len() == 0 {
        seq![]
    } else {
        escape_view(s[0]) + escapes(s.drop_first())
    }
}

/// `s` as a JSON string literal.
pub open spec fn encode_view(s: Seq<char>) -> Seq<char> {
    seq!['"'] + escapes(s) + seq!['"']
}

/// The lower-case hexadecimal digit for `d`.
fn hex_letter(d: u32) -> (c: char)
    requires
        d < 16,
    ensures
        c == hex_char(d as int),
{
    match d {
        0 => '0',
        1 => '1',
        2 => '2',
        3 => '3',
        4 => '4',
        5 => '5',
        6 => '6',
        7 => '7',
        8 => '8',
        9 => '9',
        10 => 'a',
        11 => 'b',
        12 => 'c',
        13 => 'd',
        14 => 'e',
        _ => 'f',
    }
}

/// Append `c` as it is written inside a JSON string.
fn push_escaped(out: &mut String, c: char)
    ensures
        final(out)@ == old(out)@ + escape_view(c),
{
    if c == '"' {
        out.push('\\');
        out.push('"');
    } else if c == '\\' {
        out.push('\\');
        out.push('\\');
    } else if c == '\n' {
        out.push('\\');
        out.push('n');
    } else if c == '\r' {
        out.push('\\');
        out.push('r');
    } else if c == '\t' {
        out.push('\\');
        out.push('t');
    } else if c == '\u{08}' {
        out.push('\\');
        out.push('b');
    } else if c == '\u{0c}' {
        out.push('\\');
        out.push('f');
    } else if (c as u32) < 0x20 {
        let u: u32 = c as u32;
        out.push('\\');
        out.push('u');
        out.push('0');
        out.push('0');
        out.push(hex_letter(u / 16));
        out.push(hex_letter(u % 16));
    } else {
        out.push(c);
    }
    assert(out@ =~= old(out)@ + escape_view(c));
}

/// Encode a string as a JSON string literal (including the surrounding quotes).
pub fn encode_string(s: &str) -> (out: String)
    ensures
        out@ == encode_view(s@),
{
    let mut out = String::new();
    out.push('"');
    assert(s@.skip(0) =~= s@);
    assert(out@ =~= seq!['"']);
    for c in it: s.chars()
        invariant
            it.seq() == s@,
            seq!['"'] + escapes(s@) == out@ + escapes(s@.skip(it.index() as int)),
    {
        let ghost k = it.index() as int;
        let ghost before = out@;
        push_escaped(&mut out, c);
        proof {
            assert(s@.skip(k)[0] == c);
            assert(s@.skip(k).drop_first() =~= s@.skip(k + 1));
            assert(before + (escape_view(c) + escapes(s@.skip(k + 1))) =~= out@ + escapes(
                s@.skip(k + 1),
            ));
        }
    }
    assert(s@.skip(s@.len() as int) =~= seq![]);
    out.push('"');
    assert(out@ =~= encode_view(s@));
    out
}

// ---------------------------------------------------------------------------
// Laws
// ---------------------------------------------------------------------------

/// Whether `part` stands in `s` at `i`.
pub open spec fn stands_at(s: Seq<char>, i: int, part: Seq<char>) -> bool {
    &&& 0 <= i
    &&& i + part.len() <= s.len()
    &&& forall|k: int| 0 <= k < part.len() ==> #[trigger] part[k] == s[i + k]
}

/// A written character reads back as itself.
proof fn lemma_escape_reads_back(s: Seq<char>, i: int, c: char)
    requires
        stands_at(s, i, escape_view(c)),
    ensures
        escape_view(c).len() >= 1,
        s[i] != '"',
        s[i] == '\\' ==> escape_at(s, i + 1) == Some((c, i + escape_view(c).len())),
        s[i] != '\\' ==> s[i] == c && (c as u32) >= 0x20 && escape_view(c).len() == 1,
{
    let e = escape_view(c);
    assert(e[0] == s[i + 0]);
    if e.len() >= 2 {
        assert(e[1] == s[i + 1]);
    }
    if e.len() == 6 {
        assert(e[2] == s[i + 2]);
        assert(e[3] == s[i + 3]);
        assert(e[4] == s[i + 4]);
        assert(e[5] == s[i + 5]);
        let u = c as int;
        assert(hex_value(hex_char(u / 16)) == Some(u / 16));
        assert(hex_value(hex_char(u % 16)) == Some(u % 16));
        assert(hex4_at(s, i + 2) == Some(u));
    }
}

/// The body of a written string reads back up to its closing quote.
pub proof fn lemma_escapes_read_back(s: Seq<char>, i: int, t: Seq<char>)
    requires
        stands_at(s, i, escapes(t) + seq!['"']),
    ensures
        chars_at(s, i) == Some((t, i + escapes(t).len() + 1)),
    decreases t.len(),
{
    let all = escapes(t) + seq!['"'];
    if t.len() == 0 {
        assert(all[0] == s[i + 0]);
        assert(seq![] =~= t);
    } else {
        let e = escape_view(t[0]);
        let rest = escapes(t.drop_first()) + seq!['"'];
        assert(all =~= e + rest);
        assert forall|k: int| 0 <= k < e.len() implies #[trigger] e[k] == s[i + k] by {
            assert(all[k] == e[k]);
        }
        assert forall|k: int| 0 <= k < rest.len() implies #[trigger] rest[k] == s[i + e.len()
            + k] by {
            assert(all[e.len() + k] == rest[k]);
        }
        lemma_escape_reads_back(s, i, t[0]);
        lemma_escapes_read_back(s, i + e.len(), t.drop_first());
        assert(seq![t[0]] + t.drop_first() =~= t);
    }
}

/// A string literal written by [`encode_string`] reads back wherever it stands.
pub proof fn lemma_encoded_string_reads_back(s: Seq<char>, i: int, t: Seq<char>)
    requires
        stands_at(s, i, encode_view(t)),
    ensures
        string_at(s, i) == Some((t, i + encode_view(t).len())),
        value_at(s, i) == Some((ValueView::String(t), i + encode_view(t).len())),
{
    let all = encode_view(t);
    let body = escapes(t) + seq!['"'];
    assert(all =~= seq!['"'] + body);
    assert(all[0] == s[i + 0]);
    assert forall|k: int| 0 <= k < body.len() implies #[trigger] body[k] == s[i + 1 + k] by {
        assert(all[1 + k] == body[k]);
    }
    lemma_escapes_read_back(s, i + 1, t);
}

/// Encoding a string and parsing the result gives the string back, whatever
/// characters it holds.
pub proof fn law_encoded_string_parses_back(t: Seq<char>)
    ensures
        parse_view(encode_view(t)) == Some(ValueView::String(t)),
{
    let s = encode_view(t);
    assert(s[0] == '"');
    lemma_encoded_string_reads_back(s, 0, t);
}

/// A string without characters that need escaping is written as it is.
pub proof fn lemma_plain_escapes(t: Seq<char>)
    requires
        forall|i: int| 0 <= i < t.len() ==> escape_view(#[trigger] t[i]) == seq![t[i]],
    ensures
        escapes(t) == t,
    decreases t.len(),
{
    if t.len() > 0 {
        let rest = t.drop_first();
        assert forall|i: int| 0 <= i < rest.len() implies escape_view(#[trigger] rest[i]) == seq![
            rest[i],
        ] by {
            assert(rest[i] == t[i + 1]);
        }
        lemma_plain_escapes(rest);
        assert(seq![t[0]] + rest =~= t);
    }
}

/// Part of a text that stands somewhere stands there too.
pub proof fn lemma_stands_at_part(s: Seq<char>, i: int, a: Seq<char>, b: Seq<char>)
    requires
        stands_at(s, i, a + b),
    ensures
        stands_at(s, i, a),
        stands_at(s, i + a.len(), b),
{
    let all = a + b;
    assert forall|k: int| 0 <= k < a.len() implies #[trigger] a[k] == s[i + k] by {
        assert(all[k] == a[k]);
    }
    assert forall|k: int| 0 <= k < b.len() implies #[trigger] b[k] == s[i + a.len() + k] by {
        assert(all[a.len() + k] == b[k]);
    }
}

/// An entry written without blanks, `"key":value`, reads back.
pub proof fn lemma_entry_reads_back(s: Seq<char>, i: int, key: Seq<char>, v: ValueView, end: int)
    requires
        stands_at(s, i, encode_view(key) + seq![':']),
        i + encode_view(key).len() + 1 < s.len(),
        !json_blank(s[i + encode_view(key).len() + 1]),
        value_at(s, i + encode_view(key).len() + 1) == Some((v, end)),
    ensures
        entry_at(s, i) == Some((key, v, end)),
{
    let n = encode_view(key).len() as int;
    lemma_stands_at_part(s, i, encode_view(key), seq![':']);
    lemma_encoded_string_reads_back(s, i, key);
    assert(encode_view(key)[0] == '"');
    assert(s[i] == '"');
    assert(seq![':'][0] == s[i + n + 0]);
    assert(past_blanks(s, i) == i);
    assert(past_blanks(s, i + n) == i + n);
    assert(past_blanks(s, i + n + 1) == i + n + 1);
}

/// The last entry of an object reads back as the only one left.
pub proof fn lemma_last_entry_reads_back(
    s: Seq<char>,
    i: int,
    key: Seq<char>,
    v: ValueView,
    end: int,
)
    requires
        entry_at(s, i) == Some((key, v, end)),
        0 <= end < s.len(),
        s[end] == '}',
    ensures
        entries_at(s, i) == Some((seq![(key, v)], end + 1)),
{
    assert(past_blanks(s, end) == end);
}

/// An entry with a comma behind it reads back in front of the others.
pub proof fn lemma_more_entries_read_back(
    s: Seq<char>,
    i: int,
    key: Seq<char>,
    v: ValueView,
    end: int,
    rest: Seq<(Seq<char>, ValueView)>,
    last: int,
)
    requires
        entry_at(s, i) == Some((key, v, end)),
        0 <= i < end < s.len(),
        s[end] == ',',
        entries_at(s, end + 1) == Some((rest, last)),
    ensures
        entries_at(s, i) == Some((seq![(key, v)] + rest, last)),
{
    assert(past_blanks(s, end) == end);
}

/// An object whose entries follow its brace without a blank reads back.
pub proof fn lemma_object_reads_back(
    s: Seq<char>,
    i: int,
    entries: Seq<(Seq<char>, ValueView)>,
    end: int,
)
    requires
        0 <= i,
        i + 1 < s.len(),
        s[i] == '{',
        s[i + 1] == '"',
        entries_at(s, i + 1) == Some((entries, end)),
    ensures
        value_at(s, i) == Some((ValueView::Object(entries), end)),
{
    assert(past_blanks(s, i + 1) == i + 1);
}

} // verus!
