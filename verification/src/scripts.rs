//! Simple commands, in any spacing, are formatted: each on its own line, with one
//! blank between each two words.

use vstd::prelude::*;
use vstd::string::*;
use vstd::utf8::*;
use crate::apart::{apart_list, apart_stmt};
use crate::ascii;
use crate::ast::{CommandView, FileView, RedirectView, StmtView};
use crate::doc::{DocView, Frame, Mode, interleave, layout, pretty_view};
use crate::format::{format_command_view, law_large_and_commented_commands_are_untouched,
    law_what_can_be_formatted_is_formatted, occurrences};
use crate::lexer::{Fault, LexState, Op, PendingView, TokKind, TokenView, delim_key, delim_line,
    double_quote_from, find_byte, flush, lemma_past_blanks, lemma_step_advances, lex_from,
    lex_start, lex_step, lex_view, operator_at, past_blanks, past_escape, pending_in_range,
    quoted_at, token_at, token_end, with_delim, word_from};
use crate::locality::ends_at;
use crate::parser::{Input, SimpleState, Stop, call_view, parse_view, plain_stmt, raw_word_view};
use crate::printer::{file_view, format_view, stmts_view};
use crate::reading::{lemma_token_text, lemma_word_token, word_text};
use crate::render::holds;
use crate::statements::{is_simple, joined, law_simple_command_stays_on_one_line,
    law_statements_are_printed_one_by_one, redirs_text, simple_text, words_of_simple};
use crate::text::{blank, lemma_encode_add, slice_chars};

verus! {

// ---------------------------------------------------------------------------
// Words
// ---------------------------------------------------------------------------

/// A piece of a word.
pub enum Piece {
    /// A character that means nothing by itself.
    Bare(char),
    /// A character behind a backslash.
    Escaped(char),
    /// A text in single quotes.
    Single(Seq<char>),
    /// A text in double quotes.
    Double(Seq<char>),
}

/// Whether `c` means nothing by itself: it is printable, and no blank, quote,
/// operator, or start of an expansion or a comment.
pub open spec fn bare(c: char) -> bool {
    &&& '!' <= c <= '~'
    &&& c != '\'' && c != '"' && c != '\\' && c != '`' && c != '$' && c != '#'
    &&& c != '|' && c != '&' && c != ';' && c != '<' && c != '>' && c != '(' && c != ')'
}

pub open spec fn ascii_text(t: Seq<char>) -> bool {
    forall|i: int| 0 <= i < t.len() ==> '\0' <= #[trigger] t[i] <= '\u{7f}'
}

/// Whether `p` is a whole piece.
pub open spec fn whole(p: Piece) -> bool {
    match p {
        Piece::Bare(c) => bare(c),
        Piece::Escaped(c) => '\0' <= c <= '\u{7f}' && c != '\n',
        Piece::Single(t) => ascii_text(t) && forall|i: int|
            0 <= i < t.len() ==> #[trigger] t[i] != '\'',
        Piece::Double(t) => ascii_text(t) && forall|i: int|
            0 <= i < t.len() ==> #[trigger] t[i] != '"' && t[i] != '\\' && t[i] != '`' && t[i]
                != '$',
    }
}

/// How a piece is written.
pub open spec fn piece_text(p: Piece) -> Seq<char> {
    match p {
        Piece::Bare(c) => seq![c],
        Piece::Escaped(c) => seq!['\\', c],
        Piece::Single(t) => seq!['\''] + t + seq!['\''],
        Piece::Double(t) => seq!['"'] + t + seq!['"'],
    }
}

/// How a word is written.
pub open spec fn pieces_text(pieces: Seq<Piece>) -> Seq<char>
    decreases pieces.len(),
{
    if pieces.len() == 0 {
        seq![]
    } else {
        piece_text(pieces[0]) + pieces_text(pieces.drop_first())
    }
}

/// Whether `pieces` make a word.
pub open spec fn is_word(pieces: Seq<Piece>) -> bool {
    pieces.len() > 0 && forall|i: int| 0 <= i < pieces.len() ==> whole(#[trigger] pieces[i])
}

/// The texts of words are ASCII, start with no blank, operator or `#`, and end
/// with no newline.
proof fn lemma_pieces(pieces: Seq<Piece>)
    requires
        forall|i: int| 0 <= i < pieces.len() ==> whole(#[trigger] pieces[i]),
    ensures
        ascii_text(pieces_text(pieces)),
        pieces.len() > 0 ==> {
            let t = pieces_text(pieces);
            &&& t.len() > 0
            &&& bare(t[0]) || t[0] == '\\' || t[0] == '\'' || t[0] == '"'
            &&& t[0] == '\\' ==> t.len() > 1 && t[1] != '\n'
            &&& t.last() != '\n'
        },
    decreases pieces.len(),
{
    if pieces.len() > 0 {
        let rest = pieces.drop_first();
        assert(whole(pieces[0]));
        assert forall|i: int| 0 <= i < rest.len() implies whole(#[trigger] rest[i]) by {
            assert(rest[i] == pieces[i + 1]);
        }
        lemma_pieces(rest);
        let a = piece_text(pieces[0]);
        let t = pieces_text(pieces);
        assert(ascii_text(a)) by {
            assert forall|i: int| 0 <= i < a.len() implies '\0' <= #[trigger] a[i] <= '\u{7f}' by {
                match pieces[0] {
                    Piece::Single(u) => {
                        if 0 < i < a.len() - 1 {
                            assert(a[i] == u[i - 1]);
                        }
                    },
                    Piece::Double(u) => {
                        if 0 < i < a.len() - 1 {
                            assert(a[i] == u[i - 1]);
                        }
                    },
                    _ => {},
                }
            }
        }
        assert forall|i: int| 0 <= i < t.len() implies '\0' <= #[trigger] t[i] <= '\u{7f}' by {
            if i < a.len() {
                assert(t[i] == a[i]);
            } else {
                assert(t[i] == pieces_text(rest)[i - a.len()]);
            }
        }
        assert(t[0] == a[0]);
        assert(a.last() != '\n');
    }
}

proof fn lemma_single(b: Seq<u8>, j: int, n: int)
    requires
        0 <= j <= n < b.len(),
        b[n] == ascii::SINGLE_QUOTE,
        forall|k: int| j <= k < n ==> #[trigger] b[k] != ascii::SINGLE_QUOTE,
    ensures
        find_byte(b, j, ascii::SINGLE_QUOTE) == n,
    decreases n - j,
{
    if j < n {
        lemma_single(b, j + 1, n);
    }
}

proof fn lemma_double(b: Seq<u8>, i: int, j: int, n: int)
    requires
        0 <= j <= n < b.len(),
        b[n] == ascii::DOUBLE_QUOTE,
        forall|k: int|
            j <= k < n ==> #[trigger] b[k] != ascii::DOUBLE_QUOTE && b[k] != ascii::BACKSLASH && b[k]
                != ascii::BACKQUOTE && b[k] != ascii::DOLLAR,
    ensures
        double_quote_from(b, i, j) == Ok::<int, Fault>(n + 1),
    decreases n - j,
{
    if j < n {
        assert(b[j] != ascii::DOUBLE_QUOTE);
        lemma_double(b, i, j + 1, n);
    }
}

/// Pieces in front of a blank are read as one word.
#[verifier::rlimit(40)]
proof fn lemma_pieces_read(b: Seq<u8>, j: int, pieces: Seq<Piece>, n: int)
    requires
        0 <= j <= n,
        n == b.len() - 1,
        n == j + pieces_text(pieces).len(),
        b[n] == ascii::SPACE,
        forall|i: int| 0 <= i < pieces.len() ==> whole(#[trigger] pieces[i]),
        forall|k: int|
            0 <= k < pieces_text(pieces).len() ==> b[j + k] == #[trigger] pieces_text(pieces)[k] as u8,
    ensures
        word_from(b, j) == Ok::<int, Fault>(n),
    decreases pieces.len(),
{
    if pieces.len() > 0 {
        let p = pieces[0];
        let rest = pieces.drop_first();
        let a = piece_text(p);
        let t = pieces_text(pieces);
        let u = pieces_text(rest);
        assert(whole(p));
        assert forall|i: int| 0 <= i < rest.len() implies whole(#[trigger] rest[i]) by {
            assert(rest[i] == pieces[i + 1]);
        }
        lemma_pieces(pieces);
        lemma_pieces(rest);
        let m = j + a.len();
        assert forall|k: int| 0 <= k < u.len() implies b[m + k] == #[trigger] u[k] as u8 by {
            assert(t[a.len() + k] == u[k]);
        }
        assert forall|k: int| 0 <= k < a.len() implies b[j + k] == #[trigger] a[k] as u8 by {
            assert(t[k] == a[k]);
        }
        lemma_pieces_read(b, m, rest, n);
        assert(b[j + 0] == a[0] as u8);
        match p {
            Piece::Bare(c) => {
                if u.len() > 0 {
                    assert(b[m + 0] == u[0] as u8);
                    assert(u[0] != '(');
                }
            },
            Piece::Escaped(c) => {
                assert(past_escape(b, j) == m);
            },
            Piece::Single(x) => {
                assert(b[j + (a.len() - 1)] == a[a.len() - 1] as u8);
                assert forall|k: int| j + 1 <= k < m - 1 implies #[trigger] b[k]
                    != ascii::SINGLE_QUOTE by {
                    assert(b[j + (k - j)] == a[k - j] as u8);
                    assert(a[k - j] == x[k - j - 1]);
                    assert(x[k - j - 1] != '\'');
                    assert('\0' <= x[k - j - 1] <= '\u{7f}');
                }
                lemma_single(b, j + 1, m - 1);
                assert(quoted_at(b, j) == Ok::<int, Fault>(m));
            },
            Piece::Double(x) => {
                assert(b[j + (a.len() - 1)] == a[a.len() - 1] as u8);
                assert forall|k: int| j + 1 <= k < m - 1 implies #[trigger] b[k]
                    != ascii::DOUBLE_QUOTE && b[k] != ascii::BACKSLASH && b[k] != ascii::BACKQUOTE
                    && b[k] != ascii::DOLLAR by {
                    assert(b[j + (k - j)] == a[k - j] as u8);
                    assert(a[k - j] == x[k - j - 1]);
                    assert(x[k - j - 1] != '"');
                    assert('\0' <= x[k - j - 1] <= '\u{7f}');
                }
                lemma_double(b, j, j + 1, m - 1);
                assert(quoted_at(b, j) == Ok::<int, Fault>(m));
            },
        }
    }
}

/// Pieces are read as one word.
proof fn lemma_word(pieces: Seq<Piece>)
    requires
        is_word(pieces),
    ensures
        word_text(pieces_text(pieces)),
{
    let t = pieces_text(pieces);
    lemma_pieces(pieces);
    is_ascii_chars_encode_utf8(t);
    let u = encode_utf8(t);
    let b = u.push(ascii::SPACE);
    assert forall|k: int| 0 <= k < t.len() implies b[0int + k] == #[trigger] t[k] as u8 by {
        assert(t[k] as u8 == u[k]);
    }
    lemma_pieces_read(b, 0, pieces, u.len() as int);
    assert(b[0int + 0] == t[0] as u8);
    if t.len() > 1 {
        assert(b[0int + 1] == t[1] as u8);
        assert('\0' <= t[1] <= '\u{7f}');
    }
    assert('\0' <= t[0] <= '\u{7f}');
    assert(past_blanks(b, 0) == 0);
    assert(operator_at(b, 0) is None);
}

// ---------------------------------------------------------------------------
// Scripts
// ---------------------------------------------------------------------------

/// A part of a script, with the blanks before it.
pub enum Item {
    Word(Seq<char>, Seq<Piece>),
    /// A `;` or a newline, which ends a command.
    End(Seq<char>, char),
}

/// The blanks before an item.
pub open spec fn item_gap(x: Item) -> Seq<char> {
    match x {
        Item::Word(gap, _) => gap,
        Item::End(gap, _) => gap,
    }
}

/// The item without the blanks before it.
pub open spec fn item_body(x: Item) -> Seq<char> {
    match x {
        Item::Word(_, pieces) => pieces_text(pieces),
        Item::End(_, c) => seq![c],
    }
}

/// How a script is written, with `tail` behind it.
pub open spec fn script_text(items: Seq<Item>, tail: Seq<char>) -> Seq<char>
    decreases items.len(),
{
    if items.len() == 0 {
        tail
    } else {
        item_gap(items[0]) + item_body(items[0]) + script_text(items.drop_first(), tail)
    }
}

/// Whether `t` is spaces and tabs.
pub open spec fn blanks(t: Seq<char>) -> bool {
    forall|i: int| 0 <= i < t.len() ==> #[trigger] t[i] == ' ' || t[i] == '\t'
}

/// Whether `t` cannot be the name of a command.
pub open spec fn is_keyword(t: Seq<char>) -> bool {
    ||| t == "if"@ || t == "then"@ || t == "elif"@ || t == "else"@ || t == "fi"@
    ||| t == "while"@ || t == "until"@ || t == "for"@ || t == "do"@ || t == "done"@
    ||| t == "case"@ || t == "esac"@ || t == "select"@ || t == "function"@
    ||| t == "coproc"@ || t == "time"@ || t == "{"@ || t == "}"@ || t == "[["@ || t == "!"@
}

/// Whether `items` are simple commands, each ended by a `;` or a newline, but for
/// the last, which need not be. There are blanks between two words, and there can
/// be blanks anywhere else. `after_word` says that a word stands before them.
pub open spec fn is_script(items: Seq<Item>, after_word: bool) -> bool
    decreases items.len(),
{
    items.len() == 0 || {
        &&& blanks(item_gap(items[0]))
        &&& match items[0] {
            Item::Word(gap, pieces) => {
                &&& is_word(pieces)
                &&& after_word ==> gap.len() > 0
                &&& !after_word ==> !is_keyword(pieces_text(pieces))
                &&& is_script(items.drop_first(), true)
            },
            Item::End(_, c) => {
                &&& after_word
                &&& c == ';' || c == '\n'
                &&& is_script(items.drop_first(), false)
            },
        }
    }
}

/// The script with each command on a line of its own, and one blank between each
/// two words. `first` says that a command starts here.
pub open spec fn tidy(items: Seq<Item>, first: bool) -> Seq<char>
    decreases items.len(),
{
    if items.len() == 0 {
        if first {
            seq![]
        } else {
            seq!['\n']
        }
    } else {
        match items[0] {
            Item::Word(_, pieces) => (if first {
                seq![]
            } else {
                seq![' ']
            }) + pieces_text(pieces) + tidy(items.drop_first(), false),
            Item::End(_, _) => seq!['\n'] + tidy(items.drop_first(), true),
        }
    }
}

// ---------------------------------------------------------------------------
// Tokens
// ---------------------------------------------------------------------------

/// Whether the token `t` of `src` is the item `x`.
spec fn token_is(src: Seq<char>, t: TokenView, x: Item) -> bool {
    match x {
        Item::Word(_, pieces) => t.kind is Word && slice_chars(src, t.start, t.end) == pieces_text(
            pieces,
        ),
        Item::End(_, c) => t.kind == if c == ';' {
            TokKind::Op(Op::Semi)
        } else {
            TokKind::Newline
        },
    }
}

/// Whether `toks` are `before`, then the items, then the end.
spec fn reads(
    src: Seq<char>,
    toks: Seq<TokenView>,
    before: Seq<TokenView>,
    items: Seq<Item>,
) -> bool {
    let n = before.len() as int;
    &&& toks.len() == n + items.len() + 1
    &&& forall|k: int| 0 <= k < n ==> #[trigger] toks[k] == before[k]
    &&& forall|k: int| 0 <= k < items.len() ==> token_is(src, #[trigger] toks[n + k], items[k])
    &&& toks.last().kind is Eof
}

/// The bytes of an ASCII text are its characters.
proof fn lemma_ascii_bytes(t: Seq<char>)
    requires
        ascii_text(t),
    ensures
        encode_utf8(t).len() == t.len(),
        forall|k: int| 0 <= k < t.len() ==> #[trigger] encode_utf8(t)[k] == t[k] as u8,
{
    is_ascii_chars_encode_utf8(t);
}

proof fn lemma_skip_blanks(b: Seq<u8>, p: int, q: int)
    requires
        0 <= p <= q <= b.len(),
        forall|k: int| p <= k < q ==> #[trigger] b[k] == ascii::SPACE || b[k] == ascii::TAB,
        past_blanks(b, q) == q,
    ensures
        past_blanks(b, p) == q,
    decreases q - p,
{
    if p < q {
        assert(b[p] == ascii::SPACE || b[p] == ascii::TAB);
        lemma_skip_blanks(b, p + 1, q);
    }
}

/// How what follows in a script starts.
proof fn lemma_script_starts(items: Seq<Item>, tail: Seq<char>, after_word: bool)
    requires
        is_script(items, after_word),
        blanks(tail),
    ensures
        ascii_text(script_text(items, tail)),
        ({
            let t = script_text(items, tail);
            t.len() > 0 ==> {
                ||| t[0] == ' ' || t[0] == '\t'
                ||| after_word && (t[0] == ';' || t[0] == '\n')
                ||| !after_word && (bare(t[0]) || t[0] == '\\' || t[0] == '\'' || t[0] == '"')
            }
        }),
    decreases items.len(),
{
    if items.len() > 0 {
        let rest = items.drop_first();
        let a = item_gap(items[0]);
        let c = item_body(items[0]);
        let t = script_text(items, tail);
        match items[0] {
            Item::Word(_, pieces) => {
                lemma_pieces(pieces);
                lemma_script_starts(rest, tail, true);
            },
            Item::End(_, _) => {
                lemma_script_starts(rest, tail, false);
            },
        }
        assert(ascii_text(c));
        assert forall|i: int| 0 <= i < t.len() implies '\0' <= #[trigger] t[i] <= '\u{7f}' by {
            if i < a.len() {
                assert(t[i] == a[i]);
            } else if i < a.len() + c.len() {
                assert(t[i] == c[i - a.len()]);
            } else {
                assert(t[i] == script_text(rest, tail)[i - a.len() - c.len()]);
            }
        }
        if a.len() > 0 {
            assert(t[0] == a[0]);
        } else {
            assert(t[0] == c[0]);
        }
    } else if tail.len() > 0 {
        assert(tail[0] == ' ' || tail[0] == '\t');
    }
}

/// Whether `x` is a whole item.
spec fn item_ok(x: Item) -> bool {
    &&& blanks(item_gap(x))
    &&& match x {
        Item::Word(_, pieces) => is_word(pieces),
        Item::End(_, c) => c == ';' || c == '\n',
    }
}

/// The token of the first item.
#[verifier::rlimit(40)]
proof fn lemma_item_token(b: Seq<u8>, p: int, x: Item, after: Seq<char>)
    requires
        0 <= p,
        item_ok(x),
        ({
            let t = item_gap(x) + item_body(x) + after;
            &&& b.len() == p + t.len()
            &&& ascii_text(t)
            &&& forall|k: int| 0 <= k < t.len() ==> b[p + k] == #[trigger] t[k] as u8
        }),
        after.len() > 0 ==> {
            let c = after[0];
            ||| c == ' ' || c == '\t'
            ||| x is Word && (c == ';' || c == '\n')
            ||| x is End && (bare(c) || c == '\\' || c == '\'' || c == '"' || c == '#')
        },
    ensures
        ({
            let q = p + item_gap(x).len();
            let r = q + item_body(x).len();
            &&& past_blanks(b, p) == q
            &&& q < r <= b.len()
            &&& token_end(b, q) == Ok::<(TokKind, int), Fault>(
                (
                    match x {
                        Item::Word(_, _) => TokKind::Word,
                        Item::End(_, c) => if c == ';' {
                            TokKind::Op(Op::Semi)
                        } else {
                            TokKind::Newline
                        },
                    },
                    r,
                ),
            )
            &&& holds(b, encode_utf8(item_body(x)), q, r)
        }),
{
    let gap = item_gap(x);
    let body = item_body(x);
    let t = gap + body + after;
    let q = p + gap.len();
    let r = q + body.len();
    if let Item::Word(_, pieces) = x {
        lemma_pieces(pieces);
        lemma_word(pieces);
    }
    assert(ascii_text(body));
    lemma_ascii_bytes(body);
    let u = encode_utf8(body);
    assert(holds(b, u, q, r)) by {
        assert forall|k: int| q <= k < r implies #[trigger] b[k] == u[k - q] by {
            assert(t[k - p] == body[k - q]);
            assert(b[p + (k - p)] == t[k - p] as u8);
            assert(encode_utf8(body)[k - q] == body[k - q] as u8);
        }
    }
    assert(b[q] == u[0]);
    assert(u[0] == body[0] as u8);
    assert('\0' <= body[0] <= '\u{7f}');
    if r < b.len() {
        assert(t[(gap.len() + body.len()) as int] == after[0]);
        assert(b[p + (gap.len() + body.len())] == t[(gap.len() + body.len()) as int] as u8);
        assert(b[r] == after[0] as u8);
        assert('\0' <= t[(gap.len() + body.len()) as int] <= '\u{7f}');
    }
    match x {
        Item::Word(_, pieces) => {
            assert(ends_at(b, r));
            lemma_word_token(b, u, q, r);
        },
        Item::End(_, c) => {
            assert(r == q + 1);
            assert(past_blanks(b, q) == q);
        },
    }
    assert(past_blanks(b, q) == q);
    assert forall|k: int| p <= k < q implies #[trigger] b[k] == ascii::SPACE || b[k]
        == ascii::TAB by {
        assert(t[k - p] == gap[k - p]);
        assert(b[p + (k - p)] == t[k - p] as u8);
    }
    lemma_skip_blanks(b, p, q);
}

/// The first item, tokenized.
proof fn lemma_lex_item(src: Seq<char>, pre: Seq<char>, x: Item, after: Seq<char>, st: LexState) -> (next:
    LexState)
    requires
        src == pre + (item_gap(x) + item_body(x) + after),
        item_ok(x),
        ascii_text(item_gap(x) + item_body(x) + after),
        after.len() > 0 ==> {
            let c = after[0];
            ||| c == ' ' || c == '\t'
            ||| x is Word && (c == ';' || c == '\n')
            ||| x is End && (bare(c) || c == '\\' || c == '\'' || c == '"' || c == '#')
        },
        st.pos == encode_utf8(pre).len(),
        st.pending.len() == 0,
    ensures
        lex_from(encode_utf8(src), st) == lex_from(encode_utf8(src), next),
        next.toks.len() == st.toks.len() + 1,
        next.toks.drop_last() == st.toks,
        token_is(src, next.toks.last(), x),
        next.pending.len() == 0,
        next.pos == encode_utf8(pre + item_gap(x) + item_body(x)).len(),
{
    let b = encode_utf8(src);
    let gap = item_gap(x);
    let body = item_body(x);
    let t = gap + body + after;
    let p = st.pos;
    lemma_encode_add(pre, t);
    lemma_ascii_bytes(t);
    assert forall|k: int| 0 <= k < t.len() implies b[p + k] == #[trigger] t[k] as u8 by {
        assert(b[p + k] == encode_utf8(t)[k]);
    }
    lemma_item_token(b, p, x, after);
    let q = p + gap.len();
    let r = q + body.len();
    let kind = token_end(b, q)->Ok_0.0;
    let tok = token_at(b, kind, q, r);
    let next = LexState { pos: r, toks: st.toks.push(tok), pending: st.pending };
    let key = delim_key(b.subrange(q, r));
    assert(with_delim(st.pending, key) =~= st.pending);
    assert(lex_step(b, LexState { pos: q, ..st }) == Ok::<LexState, Fault>(next));
    assert(lex_from(b, st) == lex_from(b, next));
    lemma_token_text(src, body, q, r);
    assert(next.toks.drop_last() =~= st.toks);
    let both = gap + body;
    assert(pre + gap + body =~= pre + both);
    lemma_encode_add(pre, both);
    assert(ascii_text(both)) by {
        assert forall|i: int| 0 <= i < both.len() implies '\0' <= #[trigger] both[i]
            <= '\u{7f}' by {
            assert(t[i] == both[i]);
        }
    }
    lemma_ascii_bytes(both);
    next
}

/// One token more in front.
proof fn lemma_reads_more(
    src: Seq<char>,
    toks: Seq<TokenView>,
    before: Seq<TokenView>,
    tok: TokenView,
    items: Seq<Item>,
)
    requires
        items.len() > 0,
        reads(src, toks, before.push(tok), items.drop_first()),
        token_is(src, tok, items[0]),
    ensures
        reads(src, toks, before, items),
{
    let n = before.len() as int;
    let next = before.push(tok);
    let rest = items.drop_first();
    assert(toks[n] == next[n]);
    assert forall|k: int| 0 <= k < n implies #[trigger] toks[k] == before[k] by {
        assert(toks[k] == next[k]);
    }
    assert forall|k: int| 0 <= k < items.len() implies token_is(
        src,
        #[trigger] toks[n + k],
        items[k],
    ) by {
        if k > 0 {
            assert(items[k] == rest[k - 1]);
            assert(token_is(src, toks[next.len() + (k - 1)], rest[k - 1]));
        }
    }
}

/// A script is tokenized into its items.
proof fn lemma_lex_script(
    src: Seq<char>,
    pre: Seq<char>,
    items: Seq<Item>,
    tail: Seq<char>,
    st: LexState,
    after_word: bool,
) -> (toks: Seq<TokenView>)
    requires
        src == pre + script_text(items, tail),
        is_script(items, after_word),
        blanks(tail),
        st.pos == encode_utf8(pre).len(),
        st.pending.len() == 0,
    ensures
        lex_from(encode_utf8(src), st) == Ok::<Seq<TokenView>, Fault>(toks),
        reads(src, toks, st.toks, items),
    decreases items.len(),
{
    lemma_script_starts(items, tail, after_word);
    if items.len() == 0 {
        lemma_lex_end(src, pre, tail, st)
    } else {
        let x = items[0];
        let rest = items.drop_first();
        let after = script_text(rest, tail);
        lemma_script_starts(rest, tail, x is Word);
        let next = lemma_lex_item(src, pre, x, after, st);
        let pre2 = pre + item_gap(x) + item_body(x);
        assert(src =~= pre2 + after);
        let toks = lemma_lex_script(src, pre2, rest, tail, next, x is Word);
        assert(next.toks =~= st.toks.push(next.toks.last()));
        lemma_reads_more(src, toks, st.toks, next.toks.last(), items);
        toks
    }
}

/// The end of a script, tokenized.
proof fn lemma_lex_end(src: Seq<char>, pre: Seq<char>, tail: Seq<char>, st: LexState) -> (toks: Seq<
    TokenView,
>)
    requires
        src == pre + tail,
        blanks(tail),
        st.pos == encode_utf8(pre).len(),
        st.pending.len() == 0,
    ensures
        lex_from(encode_utf8(src), st) == Ok::<Seq<TokenView>, Fault>(toks),
        reads(src, toks, st.toks, Seq::<Item>::empty()),
{
    let b = encode_utf8(src);
    let p = st.pos;
    let n = b.len() as int;
    lemma_encode_add(pre, tail);
    assert(ascii_text(tail));
    lemma_ascii_bytes(tail);
    assert forall|k: int| p <= k < n implies #[trigger] b[k] == ascii::SPACE || b[k]
        == ascii::TAB by {
        assert(b[k] == encode_utf8(tail)[k - p]);
        assert(tail[k - p] == ' ' || tail[k - p] == '\t');
    }
    lemma_skip_blanks(b, p, n);
    st.toks.push(token_at(b, TokKind::Eof, n, n))
}

// ---------------------------------------------------------------------------
// The tree of a script
// ---------------------------------------------------------------------------

/// Where the command that goes on at `i` ends.
spec fn command_end(items: Seq<Item>, i: int) -> int
    decreases items.len() - i,
{
    if 0 <= i < items.len() && items[i] is Word {
        command_end(items, i + 1)
    } else {
        i
    }
}

/// The texts of the words `i..k`.
spec fn words_in(items: Seq<Item>, i: int, k: int) -> Seq<Seq<char>> {
    Seq::new((k - i) as nat, |m: int| item_body(items[i + m]))
}

/// The command made of the words `i..k`.
spec fn command_in(items: Seq<Item>, i: int, k: int) -> StmtView {
    plain_stmt(
        call_view(Seq::new((k - i) as nat, |m: int| raw_word_view(item_body(items[i + m])))),
    )
}

/// Past the end of the command that ends at `k`.
spec fn past_end(items: Seq<Item>, k: int) -> int {
    if k < items.len() {
        k + 1
    } else {
        k
    }
}

/// The commands from `i` on.
spec fn commands_from(items: Seq<Item>, i: int) -> Seq<StmtView>
    decreases items.len() - i,
{
    let k = command_end(items, i);
    proof {
        if 0 <= i <= items.len() {
            lemma_command_end(items, i);
        }
    }
    if 0 <= i < items.len() && i < k {
        seq![command_in(items, i, k)] + commands_from(items, past_end(items, k))
    } else {
        seq![]
    }
}

proof fn lemma_command_end(items: Seq<Item>, i: int)
    requires
        0 <= i <= items.len(),
    ensures
        i <= command_end(items, i) <= items.len(),
        forall|m: int| i <= m < command_end(items, i) ==> #[trigger] items[m] is Word,
        command_end(items, i) < items.len() ==> items[command_end(items, i)] is End,
    decreases items.len() - i,
{
    if i < items.len() && items[i] is Word {
        lemma_command_end(items, i + 1);
    }
}

/// The first of the items from `i` on.
proof fn lemma_script_at(items: Seq<Item>, i: int, after_word: bool)
    requires
        0 <= i < items.len(),
        is_script(items.skip(i), after_word),
    ensures
        item_ok(items[i]),
        items[i] is End ==> after_word,
        items[i] is Word && !after_word ==> !is_keyword(item_body(items[i])),
        is_script(items.skip(i + 1), items[i] is Word),
{
    let t = items.skip(i);
    assert(t[0] == items[i]);
    assert(t.drop_first() =~= items.skip(i + 1));
}

/// What `n` has at token `i`.
proof fn lemma_token_at(n: Input, items: Seq<Item>, i: int)
    requires
        reads(n.src, n.toks, seq![], items),
        0 <= i,
    ensures
        i < items.len() && items[i] is Word ==> n.kind(i) is Word && n.text(i) == item_body(
            items[i],
        ),
        i < items.len() && items[i] is End ==> n.is_op(i, Op::Semi) || n.kind(i) is Newline,
        i >= items.len() ==> n.kind(i) is Eof,
{
    if i < items.len() {
        assert(token_is(n.src, n.toks[0 + i], items[i]));
    }
}

#[verifier::rlimit(40)]
proof fn lemma_parse_words(n: Input, items: Seq<Item>, i: int, st: SimpleState)
    requires
        reads(n.src, n.toks, seq![], items),
        0 <= i <= items.len(),
        is_script(items.skip(i), st.args.len() > 0),
        st.redirs.len() == 0,
        st.args.len() == 0 ==> i < items.len(),
    ensures
        ({
            let k = command_end(items, i);
            let words = Seq::new(
                (k - i) as nat,
                |m: int| raw_word_view(item_body(items[i + m])),
            );
            n.simple(i, st) == Ok::<((CommandView, Seq<RedirectView>), int), Fault>(
                ((call_view(st.args + words), st.redirs), k),
            )
        }),
    decreases items.len() - i,
{
    let k = command_end(items, i);
    let words = Seq::new((k - i) as nat, |m: int| raw_word_view(item_body(items[i + m])));
    lemma_token_at(n, items, i);
    lemma_token_at(n, items, i + 1);
    if i < items.len() {
        lemma_script_at(items, i, st.args.len() > 0);
    }
    if i < items.len() && items[i] is Word {
        let next = SimpleState {
            args: st.args.push(raw_word_view(n.text(i))),
            redirs: st.redirs,
            last_arg: Some((n.toks[i].end, n.text(i))),
        };
        lemma_parse_words(n, items, i + 1, next);
        lemma_command_end(items, i + 1);
        let more = Seq::new(
            (k - i - 1) as nat,
            |m: int| raw_word_view(item_body(items[i + 1 + m])),
        );
        assert(next.args + more =~= st.args + words);
        assert(n.simple(i, st) == n.simple(i + 1, next));
    } else {
        assert(st.args + words =~= st.args);
    }
}

/// A word that is no keyword starts a simple command.
proof fn lemma_command_is_simple(n: Input, i: int)
    requires
        n.kind(i) is Word,
        !is_keyword(n.text(i)),
    ensures
        n.command(i) == n.simple(i, SimpleState { args: seq![], redirs: seq![], last_arg: None }),
        !n.is_word(i, "!"@),
{
}

/// One simple command of a script.
proof fn lemma_parse_simple(n: Input, items: Seq<Item>, i: int)
    requires
        reads(n.src, n.toks, seq![], items),
        0 <= i < items.len(),
        is_script(items.skip(i), false),
    ensures
        ({
            let k = command_end(items, i);
            &&& i < k <= items.len()
            &&& n.command_stmt(i) == Ok::<(StmtView, int), Fault>((command_in(items, i, k), k))
        }),
{
    let k = command_end(items, i);
    let none = SimpleState { args: seq![], redirs: seq![], last_arg: None };
    lemma_script_at(items, i, false);
    lemma_token_at(n, items, i);
    lemma_command_end(items, i);
    lemma_command_end(items, i + 1);
    lemma_parse_words(n, items, i, none);
    lemma_command_is_simple(n, i);
    let words = Seq::new((k - i) as nat, |m: int| raw_word_view(item_body(items[i + m])));
    assert(none.args + words =~= words);
    let s = command_in(items, i, k);
    assert(s == StmtView { negated: false, redirs: none.redirs, ..plain_stmt(call_view(words)) });
}

/// One command of a script.
proof fn lemma_parse_command(n: Input, items: Seq<Item>, i: int)
    requires
        reads(n.src, n.toks, seq![], items),
        0 <= i < items.len(),
        is_script(items.skip(i), false),
    ensures
        ({
            let k = command_end(items, i);
            &&& i < k
            &&& n.list_item(i, Stop::End) == Ok::<(StmtView, int), Fault>(
                (command_in(items, i, k), past_end(items, k)),
            )
        }),
{
    let k = command_end(items, i);
    let s = command_in(items, i, k);
    lemma_parse_simple(n, items, i);
    lemma_command_end(items, i);
    lemma_token_at(n, items, k);
    assert(n.pipeline_rest(s, k) == Ok::<(StmtView, int), Fault>((s, k)));
    assert(n.pipeline(i) == Ok::<(StmtView, int), Fault>((s, k)));
    assert(n.and_or_rest(s, k) == Ok::<(StmtView, int), Fault>((s, k)));
    assert(n.and_or(i) == Ok::<(StmtView, int), Fault>((s, k)));
}

proof fn lemma_parse_script(n: Input, items: Seq<Item>, i: int)
    requires
        reads(n.src, n.toks, seq![], items),
        0 <= i <= items.len(),
        is_script(items.skip(i), false),
    ensures
        n.list(i, Stop::End) == Ok::<(Seq<StmtView>, int), Fault>(
            (commands_from(items, i), items.len() as int),
        ),
    decreases items.len() - i,
{
    lemma_token_at(n, items, i);
    if i < items.len() {
        lemma_script_at(items, i, false);
        assert(n.past_separators(i) == i);
        lemma_parse_command(n, items, i);
        let k = command_end(items, i);
        lemma_command_end(items, i);
        lemma_script_after(items, i);
        lemma_parse_script(n, items, past_end(items, k));
    } else {
        assert(n.past_separators(i) == i);
        assert(commands_from(items, i) =~= seq![]);
    }
}

/// Behind the end of a command another one can start.
proof fn lemma_script_after(items: Seq<Item>, i: int)
    requires
        0 <= i < items.len(),
        is_script(items.skip(i), false) || is_script(items.skip(i), true),
    ensures
        is_script(items.skip(past_end(items, command_end(items, i))), false),
    decreases items.len() - i,
{
    if is_script(items.skip(i), false) {
        lemma_script_at(items, i, false);
    } else {
        lemma_script_at(items, i, true);
    }
    if items[i] is Word {
        if i + 1 < items.len() {
            lemma_script_after(items, i + 1);
        } else {
            assert(items.skip(items.len() as int) =~= seq![]);
            assert(command_end(items, i + 1) == i + 1);
        }
    } else {
        assert(command_end(items, i) == i);
    }
}

// ---------------------------------------------------------------------------
// The text of a script
// ---------------------------------------------------------------------------

proof fn lemma_joined_front(ws: Seq<Seq<char>>)
    requires
        ws.len() > 1,
    ensures
        joined(ws, seq![' ']) == ws[0] + seq![' '] + joined(ws.drop_first(), seq![' ']),
    decreases ws.len(),
{
    let rest = ws.drop_first();
    let front = ws.drop_last();
    if ws.len() == 2 {
        assert(joined(front, seq![' ']) == ws[0]);
        assert(joined(rest, seq![' ']) == ws[1]);
    } else {
        lemma_joined_front(front);
        assert(front.drop_first() =~= rest.drop_last());
        assert(rest.last() == ws.last());
        assert(joined(ws, seq![' ']) =~= ws[0] + seq![' '] + joined(rest, seq![' ']));
    }
}

/// One command of a script, tidied.
proof fn lemma_tidy_command(items: Seq<Item>, i: int, first: bool)
    requires
        0 <= i < items.len(),
        items[i] is Word,
    ensures
        ({
            let k = command_end(items, i);
            tidy(items.skip(i), first) == (if first {
                seq![]
            } else {
                seq![' ']
            }) + joined(words_in(items, i, k), seq![' ']) + seq!['\n'] + tidy(
                items.skip(past_end(items, k)),
                true,
            )
        }),
    decreases items.len() - i,
{
    let k = command_end(items, i);
    lemma_command_end(items, i);
    lemma_command_end(items, i + 1);
    let t = items.skip(i);
    assert(t[0] == items[i]);
    assert(t.drop_first() =~= items.skip(i + 1));
    let ws = words_in(items, i, k);
    let gap = if first {
        seq![]
    } else {
        seq![' ']
    };
    let w = item_body(items[i]);
    assert(ws[0] == w);
    let end = tidy(items.skip(past_end(items, k)), true);
    if k == i + 1 {
        assert(joined(ws, seq![' ']) == w);
        let u = items.skip(i + 1);
        if k < items.len() {
            assert(u[0] == items[k]);
            assert(u.drop_first() =~= items.skip(k + 1));
        } else {
            assert(u =~= seq![]);
            assert(items.skip(past_end(items, k)) =~= seq![]);
            assert(end =~= seq![]);
        }
        assert(tidy(u, false) =~= seq!['\n'] + end);
        assert(gap + w + (seq!['\n'] + end) =~= gap + w + seq!['\n'] + end);
    } else {
        lemma_tidy_command(items, i + 1, false);
        lemma_joined_front(ws);
        assert(ws.drop_first() =~= words_in(items, i + 1, k));
        let more = joined(words_in(items, i + 1, k), seq![' ']);
        assert(gap + w + (seq![' '] + more + seq!['\n'] + end) =~= gap + (w + seq![' '] + more)
            + seq!['\n'] + end);
    }
}

/// A command of a script is simple, and its text is its words.
proof fn lemma_command_text(items: Seq<Item>, i: int, k: int)
    requires
        0 <= i < k <= items.len(),
    ensures
        is_simple(command_in(items, i, k)),
        simple_text(command_in(items, i, k)) == joined(words_in(items, i, k), seq![' ']),
        apart_stmt(command_in(items, i, k)),
{
    let s = command_in(items, i, k);
    assert(is_simple(s)) by {
        reveal(is_simple);
    }
    assert(words_of_simple(s) =~= words_in(items, i, k));
    assert(redirs_text(s.redirs) =~= seq![]);
    assert(simple_text(s) =~= joined(words_in(items, i, k), seq![' ']));
}

proof fn lemma_joined_end(ws: Seq<Seq<char>>)
    requires
        ws.len() > 0,
        ws.last().len() > 0,
    ensures
        joined(ws, seq![' ']).len() > 0,
        joined(ws, seq![' ']).last() == ws.last().last(),
{
    if ws.len() > 1 {
        let a = joined(ws.drop_last(), seq![' ']) + seq![' '];
        assert(joined(ws, seq![' ']) == a + ws.last());
    }
}

/// A script is printed tidily.
#[verifier::rlimit(40)]
proof fn lemma_print_script(items: Seq<Item>, i: int, width: int)
    requires
        0 <= i <= items.len(),
        is_script(items.skip(i), false),
    ensures
        format_view(
            FileView { name: None, stmts: commands_from(items, i), last: seq![] },
            width,
        ) == tidy(items.skip(i), true),
        apart_list(commands_from(items, i)),
        i < items.len() ==> commands_from(items, i).len() > 0,
    decreases items.len() - i,
{
    let stmts = commands_from(items, i);
    let all = FileView { name: None, stmts, last: seq![] };
    if i == items.len() {
        assert(stmts =~= seq![]);
        assert(items.skip(i) =~= seq![]);
        lemma_empty_file(all, width);
    } else {
        lemma_script_at(items, i, false);
        let k = command_end(items, i);
        let j = past_end(items, k);
        lemma_command_end(items, i);
        lemma_command_end(items, i + 1);
        lemma_script_after(items, i);
        lemma_print_script(items, j, width);
        lemma_command_text(items, i, k);
        lemma_tidy_command(items, i, true);
        let s = command_in(items, i, k);
        let rest = commands_from(items, j);
        let f = FileView { name: None, stmts: seq![s], last: seq![] };
        let g = FileView { name: None, stmts: rest, last: seq![] };
        law_simple_command_stays_on_one_line(f, width);
        let t = simple_text(s);
        let ws = words_in(items, i, k);
        lemma_last_word(items, i, k);
        lemma_joined_end(ws);
        assert(format_view(f, width) == t.push('\n'));
        assert(stmts == seq![s] + rest);
        assert(stmts[0] == s && stmts.drop_first() =~= rest);
        if rest.len() > 0 {
            law_statements_are_printed_one_by_one(f, g, all, width);
            assert(t.push('\n') + tidy(items.skip(j), true) =~= tidy(items.skip(i), true));
        } else {
            assert(j >= items.len());
            assert(items.skip(j) =~= seq![]);
            assert(stmts =~= seq![s]);
            assert(all == f);
            assert(t.push('\n') =~= tidy(items.skip(i), true));
        }
    }
}

proof fn lemma_empty_file(f: FileView, width: int)
    requires
        f.stmts.len() == 0,
    ensures
        format_view(f, width) == Seq::<char>::empty(),
{
    let none = Seq::<DocView>::empty();
    let nil = Seq::<Frame>::empty();
    assert(stmts_view(f.stmts) =~= none);
    assert(interleave(DocView::HardLine, none) =~= none);
    assert(none.filter(|d: DocView| d !is Nil) =~= none);
    let g = Frame { indent: 0, mode: Mode::Break, doc: DocView::Nil };
    assert(file_view(f) == DocView::Nil);
    assert(seq![g].drop_first() =~= nil);
    assert(layout(width, 0, seq![g]) == layout(width, 0, nil));
    assert(pretty_view(width, file_view(f)) =~= seq![]);
}

/// The words of a script are not empty, and do not end with a newline.
proof fn lemma_last_word(items: Seq<Item>, i: int, k: int)
    requires
        0 <= i < k == command_end(items, i),
        i < items.len(),
        is_script(items.skip(i), false) || is_script(items.skip(i), true),
    ensures
        words_in(items, i, k).last().len() > 0,
        words_in(items, i, k).last().last() != '\n',
    decreases items.len() - i,
{
    if is_script(items.skip(i), false) {
        lemma_script_at(items, i, false);
    } else {
        lemma_script_at(items, i, true);
    }
    lemma_command_end(items, i);
    lemma_command_end(items, i + 1);
    if k == i + 1 {
        lemma_pieces(items[i]->Word_1);
        assert(words_in(items, i, k).last() == item_body(items[i]));
    } else {
        lemma_last_word(items, i + 1, k);
        assert(words_in(items, i, k).last() == words_in(items, i + 1, k).last());
    }
}

// ---------------------------------------------------------------------------
// The words of a script
// ---------------------------------------------------------------------------

/// How often `w` is a word of a script.
spec fn count(items: Seq<Item>, w: Seq<char>) -> nat
    decreases items.len(),
{
    if items.len() == 0 {
        0
    } else {
        (if items[0] is Word && item_body(items[0]) == w {
            1nat
        } else {
            0nat
        }) + count(items.drop_first(), w)
    }
}

/// The tokens of a script have its words.
proof fn lemma_count(src: Seq<char>, toks: Seq<TokenView>, items: Seq<Item>, w: Seq<char>)
    requires
        reads(src, toks, seq![], items),
    ensures
        occurrences(src, toks, w) == count(items, w),
    decreases items.len(),
{
    let f = |t: TokenView| t.kind is Word && slice_chars(src, t.start, t.end) == w;
    let rest = toks.drop_first();
    assert(toks =~= seq![toks[0]] + rest);
    rest.lemma_filter_prepend(toks[0], f);
    if items.len() == 0 {
        let none = Seq::<TokenView>::empty();
        assert(rest =~= none);
        assert(none.filter(f) =~= none);
        assert(toks[0] == toks.last());
    } else {
        let more = items.drop_first();
        assert(token_is(src, toks[0int + 0], items[0]));
        assert(reads(src, rest, seq![], more)) by {
            assert forall|k: int| 0 <= k < more.len() implies token_is(
                src,
                #[trigger] rest[0 + k],
                more[k],
            ) by {
                assert(token_is(src, toks[0 + (k + 1)], items[k + 1]));
            }
            assert(rest.last() == toks.last());
        }
        lemma_count(src, rest, more, w);
    }
}

/// The tidy script, as items.
spec fn tidied(items: Seq<Item>, first: bool) -> Seq<Item>
    decreases items.len(),
{
    if items.len() == 0 {
        if first {
            seq![]
        } else {
            seq![Item::End(seq![], '\n')]
        }
    } else {
        match items[0] {
            Item::Word(_, pieces) => seq![
                Item::Word(
                    if first {
                        seq![]
                    } else {
                        seq![' ']
                    },
                    pieces,
                ),
            ] + tidied(items.drop_first(), false),
            Item::End(_, _) => seq![Item::End(seq![], '\n')] + tidied(items.drop_first(), true),
        }
    }
}

/// The tidy script is a script with the same words.
proof fn lemma_tidied(items: Seq<Item>, first: bool, w: Seq<char>)
    requires
        is_script(items, !first),
    ensures
        is_script(tidied(items, first), !first),
        script_text(tidied(items, first), seq![]) == tidy(items, first),
        count(tidied(items, first), w) == count(items, w),
    decreases items.len(),
{
    let t = tidied(items, first);
    let none = Seq::<Item>::empty();
    if items.len() == 0 {
        if !first {
            assert(t.drop_first() =~= none);
            assert(is_script(none, false));
            assert(script_text(none, seq![]) =~= seq![]);
            assert(script_text(t, seq![]) =~= seq!['\n']);
            assert(count(none, w) == 0);
        }
    } else {
        let rest = items.drop_first();
        let next = items[0] is End;
        lemma_tidied(rest, next, w);
        assert(t.drop_first() =~= tidied(rest, next));
        assert(script_text(t, seq![]) =~= tidy(items, first));
    }
}

// ---------------------------------------------------------------------------
// Laws
// ---------------------------------------------------------------------------

/// A text of words and blanks is cut at the blanks: each word is one token, with
/// whatever is quoted in it, and so is each `;` and each newline.
pub proof fn law_scripts_are_cut_into_words(items: Seq<Item>, tail: Seq<char>)
    requires
        is_script(items, false),
        blanks(tail),
    ensures
        ({
            let src = script_text(items, tail);
            lex_view(encode_utf8(src)) matches Ok(toks) && {
                &&& toks.len() == items.len() + 1
                &&& forall|i: int|
                    0 <= i < items.len() ==> match items[i] {
                        Item::Word(_, pieces) => (#[trigger] toks[i]).kind is Word && slice_chars(
                            src,
                            toks[i].start,
                            toks[i].end,
                        ) == pieces_text(pieces),
                        Item::End(_, c) => toks[i].kind == if c == ';' {
                            TokKind::Op(Op::Semi)
                        } else {
                            TokKind::Newline
                        },
                    }
                &&& toks.last().kind is Eof
            }
        }),
{
    let src = script_text(items, tail);
    let toks = lemma_lex_whole(items, tail);
    assert forall|i: int| 0 <= i < items.len() implies token_is(src, #[trigger] toks[i], items[i]) by {
        assert(token_is(src, toks[0 + i], items[i]));
    }
}

proof fn lemma_lex_whole(items: Seq<Item>, tail: Seq<char>) -> (toks: Seq<TokenView>)
    requires
        is_script(items, false),
        blanks(tail),
    ensures
        lex_view(encode_utf8(script_text(items, tail))) == Ok::<Seq<TokenView>, Fault>(toks),
        reads(script_text(items, tail), toks, seq![], items),
{
    let src = script_text(items, tail);
    let none = Seq::<char>::empty();
    assert(src =~= none + src);
    assert(encode_utf8(none).len() == 0);
    lemma_lex_script(src, none, items, tail, lex_start(), false)
}

/// Simple commands are formatted, however many there are, whatever their words
/// hold, and however they are spaced: each stands on a line of its own, with one
/// blank between each two words.
#[verifier::rlimit(40)]
pub proof fn law_simple_commands_are_tidied(items: Seq<Item>, tail: Seq<char>, width: int)
    requires
        is_script(items, false),
        blanks(tail),
        encode_utf8(script_text(items, tail)).len() <= 8000,
    ensures
        format_command_view(script_text(items, tail), width) == tidy(items, true),
{
    let src = script_text(items, tail);
    let toks = lemma_lex_whole(items, tail);
    let n = Input { src, toks };
    assert(items.skip(0) =~= items);
    lemma_parse_script(n, items, 0);
    lemma_token_at(n, items, items.len() as int);
    lemma_print_script(items, 0, width);
    let file = FileView { name: None, stmts: commands_from(items, 0), last: seq![] };
    assert(parse_view(src, toks) == Ok::<FileView, Fault>(file));
    let out = format_view(file, width);
    lemma_tidied(items, true, seq![]);
    let toks_out = lemma_lex_whole(tidied(items, true), seq![]);
    assert forall|w: Seq<char>| #[trigger] occurrences(src, toks, w) == occurrences(
        out,
        toks_out,
        w,
    ) by {
        lemma_tidied(items, true, w);
        lemma_count(src, toks, items, w);
        lemma_count(out, toks_out, tidied(items, true), w);
    }
    assert forall|i: int| 0 <= i < toks.len() implies (#[trigger] toks[i]).kind !is Comment by {
        if i < items.len() {
            assert(token_is(src, toks[0 + i], items[i]));
        } else {
            assert(toks[i] == toks.last());
        }
    }
    lemma_not_blank(items, tail, out);
    law_what_can_be_formatted_is_formatted(src, width, toks, file, toks_out);
}

/// A tidy script is blank only where the script is.
proof fn lemma_not_blank(items: Seq<Item>, tail: Seq<char>, out: Seq<char>)
    requires
        is_script(items, false),
        blanks(tail),
        out == tidy(items, true),
    ensures
        blank(out) ==> blank(script_text(items, tail)),
{
    if items.len() > 0 {
        let pieces = items[0]->Word_1;
        lemma_pieces(pieces);
        assert(out[0] == pieces_text(pieces)[0]);
        assert(!crate::text::white_space(out[0]));
    } else {
        assert forall|i: int| 0 <= i < tail.len() implies crate::text::white_space(
            #[trigger] tail[i],
        ) by {}
    }
}

// ---------------------------------------------------------------------------
// Comments
// ---------------------------------------------------------------------------

proof fn lemma_delim_in_range(pending: Seq<PendingView>, key: Seq<u8>, n: int)
    requires
        forall|i: int| 0 <= i < pending.len() ==> 0 <= (#[trigger] pending[i]).tok_index < n,
    ensures
        forall|i: int|
            0 <= i < with_delim(pending, key).len() ==> 0 <= (#[trigger] with_delim(
                pending,
                key,
            )[i]).tok_index < n,
    decreases pending.len(),
{
    if pending.len() > 0 {
        let front = pending.drop_last();
        assert(pending.last() == pending[pending.len() - 1]);
        assert forall|i: int| 0 <= i < front.len() implies 0 <= (#[trigger] front[i]).tok_index
            < n by {
            assert(front[i] == pending[i]);
        }
        lemma_delim_in_range(front, key, n);
    }
}

/// The bodies of heredocs do not change what kind a token is.
proof fn lemma_flush_keeps(b: Seq<u8>, st: LexState, x: int)
    requires
        pending_in_range(st),
        0 <= x < st.toks.len(),
    ensures
        flush(b, st) matches Ok(next) ==> {
            &&& pending_in_range(next)
            &&& x < next.toks.len()
            &&& next.toks[x].kind == st.toks[x].kind
        },
    decreases st.pending.len(),
{
    if st.pending.len() > 0 {
        let p = st.pending[0];
        if let Some(key) = p.delim {
            if let Some((end, next)) = delim_line(b, st.pos, p.strip_tabs, key) {
                let body = decode_utf8(b.subrange(st.pos, end));
                let tok = TokenView { hdoc_body: Some(body), ..st.toks[p.tok_index] };
                let su = LexState {
                    pos: next,
                    toks: st.toks.update(p.tok_index, tok),
                    pending: st.pending.drop_first(),
                };
                assert(0 <= p.tok_index < st.toks.len());
                assert forall|i: int| 0 <= i < su.pending.len() implies 0
                    <= (#[trigger] su.pending[i]).tok_index < su.toks.len() by {
                    assert(su.pending[i] == st.pending[i + 1]);
                }
                assert(su.toks[x].kind == st.toks[x].kind);
                lemma_flush_keeps(b, su, x);
            }
        }
    }
}

/// What has been read stays what it is.
proof fn lemma_lex_keeps(b: Seq<u8>, st: LexState, x: int)
    requires
        pending_in_range(st),
        0 <= st.pos <= b.len(),
        0 <= x < st.toks.len(),
    ensures
        lex_from(b, st) matches Ok(toks) ==> x < toks.len() && toks[x].kind == st.toks[x].kind,
    decreases b.len() - st.pos,
{
    let start = past_blanks(b, st.pos);
    lemma_past_blanks(b, st.pos);
    if start < b.len() {
        let at = LexState { pos: start, ..st };
        lemma_step_advances(b, at);
        if let Ok((kind, end)) = token_end(b, start) {
            let mid = LexState {
                pos: end,
                toks: st.toks.push(token_at(b, kind, start, end)),
                pending: st.pending,
            };
            assert(pending_in_range(mid)) by {
                assert forall|i: int| 0 <= i < mid.pending.len() implies 0
                    <= (#[trigger] mid.pending[i]).tok_index < mid.toks.len() by {
                    assert(st.pending[i].tok_index < st.toks.len());
                }
            }
            lemma_flush_keeps(b, mid, x);
            lemma_delim_in_range(
                st.pending,
                delim_key(b.subrange(start, end)),
                mid.toks.len() as int,
            );
            if let Ok(next) = lex_step(b, at) {
                assert(x < next.toks.len() && next.toks[x].kind == st.toks[x].kind);
                lemma_lex_keeps(b, next, x);
            }
        }
    }
}

/// A comment behind a script is found.
#[verifier::rlimit(40)]
proof fn lemma_lex_comment(
    src: Seq<char>,
    pre: Seq<char>,
    items: Seq<Item>,
    tail: Seq<char>,
    more: Seq<char>,
    st: LexState,
    after_word: bool,
) -> (x: int)
    requires
        src == pre + script_text(items, tail + more),
        is_script(items, after_word),
        blanks(tail),
        more.len() > 0 && more[0] == '#' && ascii_text(more),
        tail.len() == 0 ==> if items.len() == 0 {
            !after_word
        } else {
            items.last() is End
        },
        st.pos == encode_utf8(pre).len(),
        st.pending.len() == 0,
    ensures
        lex_from(encode_utf8(src), st) matches Ok(toks) ==> 0 <= x < toks.len() && toks[x].kind
            is Comment,
    decreases items.len(),
{
    let b = encode_utf8(src);
    if items.len() == 0 {
        let t = tail + more;
        let p = st.pos;
        let q = p + tail.len();
        assert(ascii_text(t));
        lemma_encode_add(pre, t);
        lemma_ascii_bytes(t);
        assert forall|k: int| 0 <= k < t.len() implies b[p + k] == #[trigger] t[k] as u8 by {
            assert(b[p + k] == encode_utf8(t)[k]);
        }
        assert(t[tail.len() as int] == '#');
        assert(b[p + tail.len()] == t[tail.len() as int] as u8);
        assert(past_blanks(b, q) == q);
        assert forall|k: int| p <= k < q implies #[trigger] b[k] == ascii::SPACE || b[k]
            == ascii::TAB by {
            assert(b[p + (k - p)] == t[k - p] as u8);
            assert(t[k - p] == tail[k - p]);
        }
        lemma_skip_blanks(b, p, q);
        let at = LexState { pos: q, ..st };
        lemma_step_advances(b, at);
        let x = st.toks.len() as int;
        if let Ok(next) = lex_step(b, at) {
            assert(next.toks[x].kind is Comment);
            lemma_lex_keeps(b, next, x);
        }
        x
    } else {
        let y = items[0];
        let rest = items.drop_first();
        let after = script_text(rest, tail + more);
        lemma_comment_starts(items, tail, more, after_word);
        lemma_comment_starts(rest, tail, more, y is Word);
        let next = lemma_lex_item(src, pre, y, after, st);
        let pre2 = pre + item_gap(y) + item_body(y);
        assert(src =~= pre2 + after);
        if rest.len() > 0 {
            assert(rest.last() == items.last());
        }
        lemma_lex_comment(src, pre2, rest, tail, more, next, y is Word)
    }
}

/// How what follows in a script with a comment starts.
proof fn lemma_comment_starts(
    items: Seq<Item>,
    tail: Seq<char>,
    more: Seq<char>,
    after_word: bool,
)
    requires
        is_script(items, after_word),
        blanks(tail),
        more.len() > 0 && more[0] == '#' && ascii_text(more),
        tail.len() == 0 ==> if items.len() == 0 {
            !after_word
        } else {
            items.last() is End
        },
    ensures
        ascii_text(script_text(items, tail + more)),
        ({
            let t = script_text(items, tail + more);
            &&& t.len() > 0
            &&& {
                ||| t[0] == ' ' || t[0] == '\t'
                ||| after_word && (t[0] == ';' || t[0] == '\n')
                ||| !after_word && (bare(t[0]) || t[0] == '\\' || t[0] == '\'' || t[0] == '"'
                    || t[0] == '#')
            }
        }),
    decreases items.len(),
{
    let t = script_text(items, tail + more);
    if items.len() > 0 {
        let rest = items.drop_first();
        let a = item_gap(items[0]);
        let c = item_body(items[0]);
        if let Item::Word(_, pieces) = items[0] {
            lemma_pieces(pieces);
        }
        if rest.len() > 0 {
            assert(rest.last() == items.last());
        }
        lemma_comment_starts(rest, tail, more, items[0] is Word);
        assert(ascii_text(c));
        assert forall|i: int| 0 <= i < t.len() implies '\0' <= #[trigger] t[i] <= '\u{7f}' by {
            if i < a.len() {
                assert(t[i] == a[i]);
            } else if i < a.len() + c.len() {
                assert(t[i] == c[i - a.len()]);
            } else {
                assert(t[i] == script_text(rest, tail + more)[i - a.len() - c.len()]);
            }
        }
        if a.len() > 0 {
            assert(t[0] == a[0]);
        } else {
            assert(t[0] == c[0]);
        }
    } else {
        assert(t == tail + more);
        if tail.len() > 0 {
            assert(t[0] == tail[0]);
        } else {
            assert(t[0] == more[0]);
        }
    }
}

/// A command with a comment behind it is passed through, whatever the comment is
/// and whatever follows it: comments never vanish.
pub proof fn law_commands_with_comments_are_untouched(
    items: Seq<Item>,
    tail: Seq<char>,
    more: Seq<char>,
    width: int,
)
    requires
        is_script(items, false),
        blanks(tail),
        ascii_text(more),
        tail.len() > 0 || items.len() == 0 || items.last() is End,
    ensures
        ({
            let src = script_text(items, tail + (seq!['#'] + more));
            format_command_view(src, width) == src
        }),
{
    let comment = seq!['#'] + more;
    let src = script_text(items, tail + comment);
    let none = Seq::<char>::empty();
    assert(src =~= none + src);
    assert(encode_utf8(none).len() == 0);
    assert(ascii_text(comment)) by {
        assert forall|i: int| 0 <= i < comment.len() implies '\0' <= #[trigger] comment[i]
            <= '\u{7f}' by {
            if i > 0 {
                assert(comment[i] == more[i - 1]);
            }
        }
    }
    let x = lemma_lex_comment(src, none, items, tail, comment, lex_start(), false);
    if let Ok(toks) = lex_view(encode_utf8(src)) {
        law_large_and_commented_commands_are_untouched(src, width, toks, x);
    } else {
        crate::format::law_doubtful_commands_are_untouched(src, width);
    }
}

} // verus!
