//! Reading formatted commands back.
//!
//! Each lemma here takes a part of a tree, text that the part is rendered as,
//! and the token that is next where the text starts; it shows that the parser
//! builds that part again from there, and ends at the token that is next where
//! the text ends.

use vstd::prelude::*;
use vstd::string::*;
use vstd::utf8::*;
use crate::apart::apart_redirs;
use crate::ascii;
use crate::ast::{CommandView, RedirectView, WordView};
use crate::doc::{Mode, interleave};
use crate::lexer::{Fault, Group, Op, TokKind, lemma_group_bounds, lemma_parsable, parens_at,
    token_wf, waiting};
use crate::locality::{agree, lemma_group_shift};
use crate::parser::{Input, SimpleState, Stop, raw_word_view, redirect_view, redirects, reserved};
use crate::printer::{redirs_view, spaced, text_view, words_view};
use crate::reading::{lemma_solid, lemma_token_text, lemma_tokens_shift, same_tokens};
use crate::render::{holds, laid_all};
use crate::stable::{arith_span, arith_text, at, bytes, clean, good_redir, good_redirs, good_words,
    leads, lemma_at_blank, lemma_at_bounds, lemma_first_byte, lemma_front_redirs, lemma_last_redir,
    lemma_read_redir, lemma_read_words, lemma_simple_redirs, lemma_simple_words, lemma_stops_word,
    operator_of, quiet, raw_text, redir_at, redir_leads, span_text, stops, test_span, test_text,
    tokenized};

verus! {

/// Whether the redirections behind a compound command, read from token `i` on,
/// are `redirs` and then those from token `j` on.
#[verifier::opaque]
pub open spec fn trails(m: Input, i: int, redirs: Seq<RedirectView>, j: int) -> bool {
    m.trailing_redirs(j) is Ok ==> m.trailing_redirs(i) == Ok::<(Seq<RedirectView>, int), Fault>(
        (redirs + m.trailing_redirs(j)->Ok_0.0, m.trailing_redirs(j)->Ok_0.1),
    )
}

pub proof fn lemma_trails_none(m: Input, i: int)
    ensures
        trails(m, i, seq![], i),
{
    reveal(trails);
    if m.trailing_redirs(i) is Ok {
        let rest = m.trailing_redirs(i)->Ok_0.0;
        assert(Seq::<RedirectView>::empty() + rest =~= rest);
    }
}

pub proof fn lemma_trails_one_more(
    m: Input,
    i: int,
    redirs: Seq<RedirectView>,
    k: int,
    p: int,
    r: RedirectView,
    j: int,
)
    requires
        0 <= k < j < m.toks.len(),
        trails(m, i, redirs, k),
        redir_at(m, k, p, r, j),
        good_redir(r),
    ensures
        trails(m, i, redirs.push(r), j),
{
    reveal(trails);
    if m.trailing_redirs(j) is Ok {
        let rest = m.trailing_redirs(j)->Ok_0.0;
        let t = raw_text(r.word->Some_0);
        let at = if r.n is Some {
            k + 1
        } else {
            k
        };
        assert(m.fd_at(k) == (r.n is Some));
        assert(m.redirect(at) == Ok::<(RedirectView, int), Fault>(
            (redirect_view(operator_of(r.op), t), at + 2),
        ));
        assert(m.trailing_redirs(k) == Ok::<(Seq<RedirectView>, int), Fault>(
            (seq![r] + rest, m.trailing_redirs(j)->Ok_0.1),
        ));
        assert(redirs + (seq![r] + rest) =~= redirs.push(r) + rest);
    }
}

/// Read the redirections behind a compound command.
#[verifier::rlimit(30)]
pub proof fn lemma_trailing_redirs(
    m: Input,
    i: int,
    p: int,
    q: int,
    mode: Mode,
    redirs: Seq<RedirectView>,
) -> (j: int)
    requires
        tokenized(m),
        at(m, i, p),
        good_redirs(redirs),
        apart_redirs(redirs),
        laid_all(bytes(m), spaced(redirs_view(redirs)), mode, p, q),
        stops(bytes(m), q),
    ensures
        i <= j < m.toks.len(),
        at(m, j, q),
        trails(m, i, redirs, j),
        stops(bytes(m), p),
    decreases redirs.len(),
{
    lemma_at_bounds(m, i, p);
    let b = bytes(m);
    let n = redirs.len() as int;
    if n == 0 {
        lemma_trails_none(m, i);
        assert(redirs =~= seq![]);
        i
    } else {
        let front = redirs.drop_last();
        let last = redirs[n - 1];
        let r1 = lemma_last_redir(b, p, q, mode, redirs);
        lemma_front_redirs(redirs);
        assert(last == redirs.last());
        let k = lemma_trailing_redirs(m, i, p, r1, mode, front);
        lemma_at_blank(m, k, r1);
        assert(good_redir(last));
        let j = lemma_read_redir(m, k, r1 + 1, q, mode, last);
        lemma_trails_one_more(m, i, front, k, r1 + 1, last, j);
        assert(front.push(last) =~= redirs);
        j
    }
}

// ---------------------------------------------------------------------------
// Opaque commands
// ---------------------------------------------------------------------------

/// The bytes of a span of tokens.
pub proof fn lemma_span_bytes(n: Input, a: int, c: int)
    requires
        tokenized(n),
        0 <= a < c < n.toks.len(),
    ensures
        n.toks[a].start < n.toks[c - 1].end <= bytes(n).len(),
        0 <= n.toks[a].start,
        encode_utf8(span_text(n, a, c)) == bytes(n).subrange(
            n.toks[a].start,
            n.toks[c - 1].end,
        ),
{
    reveal(tokenized);
    let b = bytes(n);
    encode_utf8_valid_utf8(n.src);
    lemma_parsable(b, n.toks);
    let s = n.toks[a].start;
    let e = n.toks[c - 1].end;
    assert(token_wf(b, n.toks[a]));
    assert(token_wf(b, n.toks[c - 1]));
    valid_utf8_split(b, e);
    let head = b.subrange(0, e);
    is_char_boundary_iff_not_is_continuation_byte(b, s);
    is_char_boundary_iff_not_is_continuation_byte(head, s);
    assert(head[s] == b[s]);
    valid_utf8_split(head, s);
    assert(head.subrange(s, e) =~= b.subrange(s, e));
    decode_utf8_encode_utf8(b.subrange(s, e));
}

/// The bytes of one token.
pub proof fn lemma_text_bytes(n: Input, a: int)
    requires
        tokenized(n),
        0 <= a < n.toks.len() - 1,
    ensures
        encode_utf8(n.text(a)) == bytes(n).subrange(n.toks[a].start, n.toks[a].end),
        n.toks[a].start < n.toks[a].end <= bytes(n).len(),
        0 <= n.toks[a].start,
{
    lemma_span_bytes(n, a, a + 1);
}

/// Tokens that are the same further on have the same texts.
pub proof fn lemma_same_texts(n: Input, m: Input, a: int, c: int, i: int, d: int, k: int)
    requires
        tokenized(n),
        0 <= a <= k < c < n.toks.len(),
        same_tokens(n.toks, m.toks, a, c, i, d),
        agree(bytes(n), bytes(m), n.toks[a].start, n.toks[c - 1].end, d),
    ensures
        m.text(k - a + i) == n.text(k),
{
    reveal(tokenized);
    let b = bytes(n);
    let b2 = bytes(m);
    let s = n.toks[k].start;
    let e = n.toks[k].end;
    assert(token_wf(b, n.toks[k]));
    assert(token_wf(b, n.toks[a]));
    assert(token_wf(b, n.toks[c - 1]));
    assert(n.toks[a].start <= s && e <= n.toks[c - 1].end);
    assert(n.toks[k].kind == m.toks[k - a + i].kind);
    assert forall|x: int| s <= x < e implies #[trigger] b[x] == b2[x + d] by {}
    assert(b.subrange(s, e) =~= b2.subrange(s + d, e + d));
}

/// The tokens of an opaque command, wherever its text stands.
#[verifier::rlimit(30)]
proof fn lemma_span_tokens(n: Input, a: int, c: int, m: Input, i: int, p: int, q: int)
    requires
        clean(n),
        tokenized(m),
        0 <= a < c < n.toks.len(),
        holds(bytes(m), encode_utf8(span_text(n, a, c)), p, q),
        at(m, i, p),
        stops(bytes(m), q),
        bytes(n)[n.toks[a].start] != ascii::BACKSLASH,
        quiet(n, a),
        quiet(n, c),
        n.is_word(c - 1, "]]"@) || n.is_op(c - 1, Op::RParen),
    ensures
        same_tokens(n.toks, m.toks, a, c, i, p - n.toks[a].start),
        agree(bytes(n), bytes(m), n.toks[a].start, n.toks[c - 1].end, p - n.toks[a].start),
        q == n.toks[c - 1].end + (p - n.toks[a].start),
        i + (c - a) < m.toks.len(),
        at(m, i + (c - a), q),
{
    reveal(clean);
    reveal(tokenized);
    reveal(at);
    let b = bytes(n);
    let b2 = bytes(m);
    let s = n.toks[a].start;
    let e = n.toks[c - 1].end;
    let d = p - s;
    lemma_span_bytes(n, a, c);
    let u = b.subrange(s, e);
    assert forall|x: int| s <= x < e implies #[trigger] b[x] == b2[x + d] by {
        assert(b2[x + d] == u[x + d - p]);
    }
    assert(token_wf(b, n.toks[a]));
    assert(b[s] == b2[s + d]);
    lemma_solid(b, s);
    lemma_solid(b2, p);
    assert(waiting(b, n.toks, a) =~= waiting(b2, m.toks, i));
    lemma_stops_word(b2, q);
    lemma_text_bytes(n, c - 1);
    assert(token_wf(b, n.toks[c - 1]));
    if n.is_word(c - 1, "]]"@) {
        reveal_strlit("]]");
        is_ascii_chars_encode_utf8("]]"@);
        assert("]]"@[1] as u8 == encode_utf8("]]"@)[1]);
        assert(b[e - 1] == b.subrange(n.toks[c - 1].start, e)[1]);
    } else {
        assert(b[e - 1] == ascii::RPAREN);
    }
    lemma_tokens_shift(b, n.toks, a, c, b2, m.toks, i, d);
}

/// A `]]` is found at the same place.
pub proof fn lemma_same_close(n: Input, m: Input, a: int, c: int, i: int, d: int, k: int)
    requires
        tokenized(n),
        0 <= a < k < c < n.toks.len(),
        same_tokens(n.toks, m.toks, a, c, i, d),
        0 <= i,
        i + (c - a) < m.toks.len(),
        agree(bytes(n), bytes(m), n.toks[a].start, n.toks[c - 1].end, d),
        n.test_close(k) == Some(c - 1),
    ensures
        m.test_close(k - a + i) == Some(c - 1 - a + i),
    decreases c - k,
{
    reveal(tokenized);
    assert(n.toks[k].kind == m.toks[k - a + i].kind);
    lemma_same_texts(n, m, a, c, i, d, k);
    assert(token_wf(bytes(n), n.toks[k]));
    if !n.is_word(k, "]]"@) {
        if k + 1 < c {
            lemma_same_close(n, m, a, c, i, d, k + 1);
        } else {
            lemma_close_forward(n, k + 1);
        }
    }
}

/// A search does not go back.
pub proof fn lemma_close_forward(n: Input, k: int)
    ensures
        n.test_close(k) matches Some(j) ==> k <= j && n.is_word(j, "]]"@) && j < n.toks.len(),
    decreases n.toks.len() - k,
{
    if !(n.kind(k) is Eof) && !n.is_word(k, "]]"@) {
        lemma_close_forward(n, k + 1);
    }
}

/// The same tokens hold the same heredoc operators: none.
proof fn lemma_same_heredocs(n: Input, m: Input, a: int, c: int, i: int, d: int, k: int)
    requires
        0 <= a <= k <= c < n.toks.len(),
        0 <= i,
        i + (c - a) < m.toks.len(),
        same_tokens(n.toks, m.toks, a, c, i, d),
        n.heredoc_in(k, c) is None,
    ensures
        m.heredoc_in(k - a + i, i + (c - a)) is None,
    decreases c - k,
{
    if k < c {
        assert(n.toks[k].kind == m.toks[k - a + i].kind);
        lemma_same_heredocs(n, m, a, c, i, d, k + 1);
    }
}

/// The tokens of a `[[ … ]]`.
pub proof fn lemma_test_tokens(n: Input, t: Seq<char>, m: Input, i: int, p: int, q: int) -> (j: int)
    requires
        clean(n),
        tokenized(m),
        test_text(n, t),
        holds(bytes(m), encode_utf8(t), p, q),
        at(m, i, p),
        stops(bytes(m), q),
    ensures
        i + 1 < j < m.toks.len(),
        at(m, j, q),
        m.is_word(i, "[["@),
        m.test_close(i + 1) == Some(j - 1),
        m.heredoc_in(i, j) is None,
        m.toks[i].start == p,
        m.toks[j - 1].end == q,
{
    reveal(clean);
    lemma_at_bounds(m, i, p);
    let (a, c) = choose|a: int, c: int| #[trigger] test_span(n, a, c) && t == span_text(n, a, c);
    let b = bytes(n);
    let d = p - n.toks[a].start;
    assert(b[n.toks[a].start] != ascii::BACKSLASH) by {
        lemma_text_bytes(n, a);
        reveal_strlit("[[");
        is_ascii_chars_encode_utf8("[["@);
        assert("[["@[0] as u8 == encode_utf8("[["@)[0]);
        assert(b[n.toks[a].start] == b.subrange(n.toks[a].start, n.toks[a].end)[0]);
    }
    lemma_close_forward(n, a + 1);
    lemma_span_tokens(n, a, c, m, i, p, q);
    lemma_same_close(n, m, a, c, i, d, a + 1);
    lemma_same_heredocs(n, m, a, c, i, d, a);
    lemma_same_texts(n, m, a, c, i, d, a);
    assert(n.toks[a].kind == m.toks[a - a + i].kind);
    assert(n.toks[c - 1].kind == m.toks[c - 1 - a + i].kind);
    i + (c - a)
}

/// Read a `[[ … ]]`.
pub proof fn lemma_read_test(n: Input, t: Seq<char>, m: Input, i: int, p: int, q: int) -> (j: int)
    requires
        clean(n),
        tokenized(m),
        test_text(n, t),
        holds(bytes(m), encode_utf8(t), p, q),
        at(m, i, p),
        stops(bytes(m), q),
    ensures
        i < j < m.toks.len(),
        at(m, j, q),
        m.is_word(i, "[["@),
        m.test_opaque(i) == Ok::<(CommandView, int), Fault>(
            (crate::parser::call_view(seq![raw_word_view(t)]), j),
        ),
{
    let j = lemma_test_tokens(n, t, m, i, p, q);
    lemma_token_text(m.src, t, p, q);
    j
}

/// The first token that starts at an index or later.
pub proof fn lemma_past_byte(m: Input, i: int, j: int, end: int)
    requires
        tokenized(m),
        0 <= i <= j < m.toks.len(),
        forall|x: int| i <= x < j ==> (#[trigger] m.toks[x]).start < end,
        m.toks[j].start >= end,
    ensures
        m.past_byte(i, end) == j,
    decreases j - i,
{
    reveal(tokenized);
    if i < j {
        assert(m.toks[i].start < end);
        assert(token_wf(bytes(m), m.toks[i]));
        lemma_past_byte(m, i + 1, j, end);
    }
}

/// The tokens of a `(( … ))`.
proof fn lemma_arith_tokens(n: Input, a: int, c: int, m: Input, i: int, p: int, q: int)
    requires
        clean(n),
        tokenized(m),
        arith_span(n, a, c),
        holds(bytes(m), encode_utf8(span_text(n, a, c)), p, q),
        at(m, i, p),
        stops(bytes(m), q),
    ensures
        0 <= i < i + (c - a) < m.toks.len(),
        at(m, i + (c - a), q),
        m.is_op(i, Op::LParen),
        m.is_op(i + 1, Op::LParen),
        m.toks[i].start == p,
        m.toks[i + 1].start == m.toks[i].end,
        m.heredoc_in(i, i + (c - a)) is None,
        forall|x: int| i <= x < i + (c - a) ==> (#[trigger] m.toks[x]).start < q,
        agree(bytes(n), bytes(m), n.toks[a].start, n.toks[c - 1].end, p - n.toks[a].start),
        bytes(n)[n.toks[a].start] == ascii::LPAREN,
        q == n.toks[c - 1].end + (p - n.toks[a].start),
{
    reveal(clean);
    reveal(tokenized);
    lemma_at_bounds(m, i, p);
    let b = bytes(n);
    let s = n.toks[a].start;
    let e = n.toks[c - 1].end;
    assert(token_wf(b, n.toks[a]));
    assert(token_wf(b, n.toks[c - 1]));
    assert(b[s] == ascii::LPAREN);
    lemma_span_tokens(n, a, c, m, i, p, q);
    lemma_same_heredocs(n, m, a, c, i, p - s, a);
    assert(n.toks[a].kind == m.toks[a - a + i].kind);
    assert(n.toks[a + 1].kind == m.toks[a + 1 - a + i].kind);
    assert forall|x: int| i <= x < i + (c - a) implies (#[trigger] m.toks[x]).start < q by {
        let k = x - i + a;
        assert(token_wf(b, n.toks[k]));
        assert(n.toks[k].kind == m.toks[k - a + i].kind);
        assert(n.toks[k].end <= e);
    }
}

/// Read a `(( … ))`.
#[verifier::rlimit(30)]
pub proof fn lemma_read_arith(n: Input, t: Seq<char>, m: Input, i: int, p: int, q: int) -> (j: int)
    requires
        clean(n),
        tokenized(m),
        arith_text(n, t),
        holds(bytes(m), encode_utf8(t), p, q),
        at(m, i, p),
        stops(bytes(m), q),
    ensures
        i < j < m.toks.len(),
        at(m, j, q),
        m.is_op(i, Op::LParen),
        m.is_op(i + 1, Op::LParen),
        m.toks[i + 1].start == m.toks[i].end,
        m.arith_opaque(i) == Ok::<(CommandView, int), Fault>(
            (crate::parser::call_view(seq![raw_word_view(t)]), j),
        ),
        t.len() > 0,
        t[0] == '(',
{
    let (a, c) = choose|a: int, c: int| #[trigger] arith_span(n, a, c) && t == span_text(n, a, c);
    let b = bytes(n);
    let b2 = bytes(m);
    let s = n.toks[a].start;
    let d = p - s;
    lemma_arith_tokens(n, a, c, m, i, p, q);
    lemma_arith_end(n, a, c, b2, p, q);
    let j = i + (c - a);
    lemma_at_start(m, j, q);
    lemma_past_byte(m, i, j, q);
    lemma_token_text(m.src, t, p, q);
    assert(encode_utf8(t)[0] == ascii::LPAREN) by {
        assert(b2[p] == encode_utf8(t)[p - p]);
        assert(b[s] == b2[s + d]);
    }
    if t.len() == 0 {
        assert(encode_utf8(t).len() == 0);
    }
    lemma_first_byte(t);
    assert(t[0] as int == '(' as int);
    j
}

/// The next token does not start before the index from which it is the next.
pub proof fn lemma_at_start(m: Input, i: int, p: int)
    requires
        at(m, i, p),
    ensures
        p <= m.toks[i].start,
{
    reveal(at);
    crate::lexer::lemma_past_blanks(bytes(m), p);
}

/// The parentheses of a `(( … ))` close at the same place.
proof fn lemma_arith_end(n: Input, a: int, c: int, b2: Seq<u8>, p: int, q: int)
    requires
        clean(n),
        arith_span(n, a, c),
        agree(bytes(n), b2, n.toks[a].start, n.toks[c - 1].end, p - n.toks[a].start),
        bytes(n)[n.toks[a].start] == ascii::LPAREN,
        q == n.toks[c - 1].end + (p - n.toks[a].start),
    ensures
        parens_at(b2, p) == Ok::<int, Fault>(q),
{
    reveal(clean);
    reveal(tokenized);
    let b = bytes(n);
    let s = n.toks[a].start;
    let d = p - s;
    assert(token_wf(b, n.toks[a]));
    lemma_group_bounds(b, Group::Paren, s, s + 1, 1);
    lemma_group_shift(b, b2, Group::Paren, s, s + 1, 1, d);
    assert(b[s] == b2[s + d]);
}

// ---------------------------------------------------------------------------
// Simple commands
// ---------------------------------------------------------------------------

/// Whether token `j` ends a command: it is no word, no redirection and no `(`.
pub open spec fn closes(m: Input, j: int) -> bool {
    match m.kind(j) {
        TokKind::Word => false,
        TokKind::Op(op) => !redirects(op) && op != Op::LParen,
        _ => true,
    }
}

/// Whether a statement can start at token `i` of a list up to `stop`.
pub open spec fn opens(m: Input, i: int, stop: Stop) -> bool {
    &&& m.kind(i) !is Eof
    &&& m.kind(i) !is Newline
    &&& !m.is_op(i, Op::Semi)
    &&& !m.at_stop(i, stop)
}

/// The parser's state at the start of a simple command.
pub open spec fn nothing_yet() -> SimpleState {
    SimpleState { args: seq![], redirs: seq![], last_arg: None }
}

/// What starts with neither a keyword nor `(` is a simple command.
pub proof fn lemma_simple_command(m: Input, i: int)
    requires
        m.kind(i) is Word ==> !reserved(m.text(i)),
        !m.is_op(i, Op::LParen),
    ensures
        m.command(i) == m.simple(i, nothing_yet()),
{
}

/// The end of a simple command.
pub proof fn lemma_simple_end(m: Input, j: int, st: SimpleState)
    requires
        closes(m, j),
        st.args.len() + st.redirs.len() > 0,
    ensures
        m.simple(j, st) == Ok::<((CommandView, Seq<RedirectView>), int), Fault>(
            ((crate::parser::call_view(st.args), st.redirs), j),
        ),
{
}

/// Redirections start where what is before them ends.
pub proof fn lemma_redirs_start(b: Seq<u8>, p: int, q: int, mode: Mode, redirs: Seq<RedirectView>)
    requires
        laid_all(b, spaced(redirs_view(redirs)), mode, p, q),
        stops(b, q),
    ensures
        stops(b, p),
    decreases redirs.len(),
{
    if redirs.len() == 0 {
        assert(spaced(redirs_view(redirs)) =~= seq![]);
    } else {
        let r = lemma_last_redir(b, p, q, mode, redirs);
        lemma_redirs_start(b, p, r, mode, redirs.drop_last());
    }
}

/// Read the words and redirections of a simple command.
pub proof fn lemma_read_simple(
    m: Input,
    i: int,
    p: int,
    r: int,
    q: int,
    mode: Mode,
    args: Seq<WordView>,
    redirs: Seq<RedirectView>,
) -> (j: int)
    requires
        tokenized(m),
        at(m, i, p),
        good_words(args),
        good_redirs(redirs),
        apart_redirs(redirs),
        args.len() + redirs.len() > 0,
        args.len() > 0 ==> leads(raw_text(args[0])),
        laid_all(bytes(m), interleave(text_view(" "@), words_view(args)), mode, p, r),
        laid_all(bytes(m), spaced(redirs_view(redirs)), mode, r, q),
        stops(bytes(m), q),
    ensures
        i < j < m.toks.len(),
        at(m, j, q),
        closes(m, j) ==> m.simple(i, nothing_yet()) == Ok::<
            ((CommandView, Seq<RedirectView>), int),
            Fault,
        >(((crate::parser::call_view(args), redirs), j)),
        args.len() > 0 ==> m.is_word(i, raw_text(args[0])),
        args.len() == 0 ==> redir_leads(m, i, redirs[0]),
{
    let b = bytes(m);
    let st = nothing_yet();
    if args.len() == 0 {
        assert(interleave(text_view(" "@), words_view(args)) =~= seq![]);
        let j = lemma_simple_redirs(m, i, r, q, mode, redirs, st);
        assert(st.redirs + redirs =~= redirs);
        assert(st.args =~= args);
        if closes(m, j) {
            lemma_simple_end(m, j, SimpleState { args, redirs, last_arg: None });
        }
        j
    } else {
        lemma_redirs_start(b, r, q, mode, redirs);
        lemma_stops_word(b, r);
        lemma_read_words(m, i, p, r, mode, args);
        let k = i + args.len();
        assert(m.kind(i + 0) is Word);
        let mid = SimpleState {
            args,
            redirs: seq![],
            last_arg: Some((m.toks[k - 1].end, raw_text(args[args.len() - 1]))),
        };
        let j = lemma_simple_redirs(m, k, r, q, mode, redirs, mid);
        assert(mid.redirs + redirs =~= redirs);
        assert(st.args + args =~= args);
        if closes(m, j) {
            lemma_simple_words(m, i, args, st);
            lemma_simple_end(
                m,
                j,
                SimpleState {
                    args,
                    redirs,
                    last_arg: if redirs.len() == 0 {
                        mid.last_arg
                    } else {
                        None
                    },
                },
            );
        }
        j
    }
}

} // verus!
