//! Reading a token stream off a text, piece by piece.
//!
//! [`next_at`] ties a token to an index of the source: it is the next token from
//! there on. The lemmas here move both forward together, over a blank or over a
//! token that is known to stand there.

use vstd::prelude::*;
use vstd::string::*;
use vstd::utf8::*;
use crate::ascii;
use crate::lexer::{Fault, Group, Op, PendingView, TokKind, TokenView, all_resumed, bodies_end,
    byte_at, delim_line, ends_word, find_byte, group_from, is_heredoc_op,
    law_operator_longest_match, lemma_delim_line, lemma_find_byte, lemma_group_bounds,
    lemma_past_blanks, lemma_past_idempotent, lemma_quoted_bounds, lemma_word_bounds, next_line,
    operator_at, past_blanks, past_escape, quoted_at, resume, resumed, starts_process_substitution,
    starts_quoted, strip_tabs, takes_paren, token_end, token_wf, tokens_wf, waiting, word_from};
use crate::locality::{agree, ends_alike, ends_at, lemma_find_byte_shift, lemma_operator_shift,
    lemma_word_shift};
use crate::render::holds;

verus! {

/// Whether `toks` is what `b` is tokenized into.
pub open spec fn lexed(b: Seq<u8>, toks: Seq<TokenView>) -> bool {
    tokens_wf(b, toks) && all_resumed(b, toks)
}

/// Whether token `i` is the next one from index `p` on, and no heredoc waits for
/// its body there.
pub open spec fn next_at(b: Seq<u8>, toks: Seq<TokenView>, i: int, p: int) -> bool {
    &&& 0 <= i < toks.len()
    &&& 0 <= p <= b.len()
    &&& toks[i].start == past_blanks(b, p)
    &&& waiting(b, toks, i).len() == 0
}

/// The first token is the next one from the start.
pub proof fn lemma_next_start(b: Seq<u8>, toks: Seq<TokenView>)
    requires
        lexed(b, toks),
    ensures
        next_at(b, toks, 0, 0),
{
    assert(resumed(b, toks, 0));
}

/// Over a blank.
pub proof fn lemma_next_blank(b: Seq<u8>, toks: Seq<TokenView>, i: int, p: int)
    requires
        next_at(b, toks, i, p),
        p < b.len(),
        b[p] == ascii::SPACE,
    ensures
        next_at(b, toks, i, p + 1),
{
}

/// Over blanks.
pub proof fn lemma_next_blanks(b: Seq<u8>, toks: Seq<TokenView>, i: int, p: int, q: int)
    requires
        next_at(b, toks, i, p),
        p <= q <= b.len(),
        forall|k: int| p <= k < q ==> #[trigger] b[k] == ascii::SPACE,
    ensures
        next_at(b, toks, i, q),
    decreases q - p,
{
    if p < q {
        lemma_next_blank(b, toks, i, p);
        lemma_next_blanks(b, toks, i, p + 1, q);
    }
}

/// Whether something other than a blank stands at `p`.
pub open spec fn solid_at(b: Seq<u8>, p: int) -> bool {
    &&& 0 <= p < b.len()
    &&& past_blanks(b, p) == p
}

/// What stands at an index is no blank if it is neither a blank byte nor a line
/// continuation.
pub proof fn lemma_solid(b: Seq<u8>, p: int)
    requires
        0 <= p < b.len(),
    ensures
        solid_at(b, p) <==> {
            &&& b[p] != ascii::SPACE && b[p] != ascii::TAB && b[p] != ascii::RETURN
            &&& !(b[p] == ascii::BACKSLASH && byte_at(b, p + 1) == ascii::NEWLINE)
        },
{
    lemma_past_blanks(b, p + 1);
    if p + 2 <= b.len() {
        lemma_past_blanks(b, p + 2);
    }
}

/// Over a token.
pub proof fn lemma_next_token(
    b: Seq<u8>,
    toks: Seq<TokenView>,
    i: int,
    p: int,
    kind: TokKind,
    end: int,
)
    requires
        lexed(b, toks),
        next_at(b, toks, i, p),
        solid_at(b, p),
        token_end(b, p) == Ok::<(TokKind, int), Fault>((kind, end)),
        !is_heredoc_op(kind),
    ensures
        toks[i].kind == kind,
        toks[i].start == p,
        toks[i].end == end,
        p < end <= b.len(),
        i + 1 < toks.len(),
        next_at(b, toks, i + 1, end),
{
    assert(i < toks.len() - 1);
    assert(token_wf(b, toks[i]));
    assert(waiting(b, toks, i) =~= seq![]);
    assert(resumed(b, toks, i + 1));
}

/// At the end.
pub proof fn lemma_next_end(b: Seq<u8>, toks: Seq<TokenView>, i: int, p: int)
    requires
        lexed(b, toks),
        next_at(b, toks, i, p),
        p == b.len(),
    ensures
        toks[i].kind is Eof,
        toks[i].start == p,
        i == toks.len() - 1,
{
    if i < toks.len() - 1 {
        assert(token_wf(b, toks[i]));
    }
}

/// A newline is a token.
pub proof fn lemma_newline_token(b: Seq<u8>, p: int)
    requires
        0 <= p < b.len(),
        b[p] == ascii::NEWLINE,
    ensures
        solid_at(b, p),
        token_end(b, p) == Ok::<(TokKind, int), Fault>((TokKind::Newline, p + 1)),
{
}

/// An operator is a token.
pub proof fn lemma_operator_token(b: Seq<u8>, p: int, op: Op)
    requires
        0 <= p < b.len(),
        operator_at(b, p) == Some(op),
        !starts_process_substitution(b, p),
    ensures
        solid_at(b, p),
        token_end(b, p) == Ok::<(TokKind, int), Fault>(
            (TokKind::Op(op), p + op.spelling().len()),
        ),
{
}

// ---------------------------------------------------------------------------
// Words
// ---------------------------------------------------------------------------

/// Whether `u`, with a blank behind it, is read as one word.
pub open spec fn word_bytes(u: Seq<u8>) -> bool {
    let b = u.push(ascii::SPACE);
    &&& u.len() > 0
    &&& past_blanks(b, 0) == 0
    &&& token_end(b, 0) == Ok::<(TokKind, int), Fault>((TokKind::Word, u.len() as int))
}

/// Whether `t` is read as one word.
pub open spec fn word_text(t: Seq<char>) -> bool {
    word_bytes(encode_utf8(t))
}

/// What is read as a word is a word wherever it stands, if it ends there.
pub proof fn lemma_word_token(b: Seq<u8>, u: Seq<u8>, p: int, q: int)
    requires
        word_bytes(u),
        holds(b, u, p, q),
        ends_at(b, q),
    ensures
        p < q,
        solid_at(b, p),
        token_end(b, p) == Ok::<(TokKind, int), Fault>((TokKind::Word, q)),
        b[p] == u[0],
{
    let o = u.push(ascii::SPACE);
    assert(agree(o, b, 0, u.len() as int, p)) by {
        assert forall|x: int| 0 <= x < u.len() implies #[trigger] o[x] == b[x + p] by {
            assert(b[x + p] == u[x + p - p]);
        }
    }
    assert(o[0] == b[0 + p]);
    lemma_word_bounds(o, 0);
    lemma_word_shift(o, b, 0, p);
    lemma_solid(o, 0);
    lemma_solid(b, p);
    if o[0] == ascii::BACKSLASH {
        lemma_backslash_word(o, 0, u.len() as int);
    }
    if u.len() > 1 {
        assert(o[1] == b[1 + p]);
    }
}

/// A word of a source is read as one word by itself, unless it ends in a
/// backslash that has nothing to escape.
pub proof fn lemma_word_bytes(b: Seq<u8>, p: int, q: int)
    requires
        0 <= p < q <= b.len(),
        solid_at(b, p),
        token_end(b, p) == Ok::<(TokKind, int), Fault>((TokKind::Word, q)),
        q < b.len() || b[b.len() - 1] != ascii::BACKSLASH,
    ensures
        word_bytes(b.subrange(p, q)),
{
    let u = b.subrange(p, q);
    let o = u.push(ascii::SPACE);
    assert(agree(b, o, p, q, -p)) by {
        assert forall|x: int| p <= x < q implies #[trigger] b[x] == o[x + (-p)] by {
            assert(o[x - p] == u[x - p]);
        }
    }
    assert(o[q - p] == ascii::SPACE);
    assert(ends_at(o, q + (-p)));
    lemma_word_shift(b, o, p, -p);
    assert(b[p] == o[0]);
    lemma_solid(o, 0);
    lemma_solid(b, p);
    if p + 1 < q {
        assert(b[p + 1] == o[p + 1 + (-p)]);
    } else if b[p] == ascii::BACKSLASH {
        lemma_word_bounds(b, past_escape(b, p));
    }
}

/// The text of a token that holds the bytes of `t` is `t`.
pub proof fn lemma_token_text(src: Seq<char>, t: Seq<char>, p: int, q: int)
    requires
        holds(encode_utf8(src), encode_utf8(t), p, q),
    ensures
        crate::text::slice_chars(src, p, q) == t,
{
    let b = encode_utf8(src);
    assert(b.subrange(p, q) =~= encode_utf8(t));
    encode_utf8_decode_utf8(t);
}

// ---------------------------------------------------------------------------
// A stretch of tokens
// ---------------------------------------------------------------------------

/// Blanks are skipped alike.
proof fn lemma_blanks_shift(b: Seq<u8>, b2: Seq<u8>, x: int, d: int)
    requires
        0 <= x <= b.len(),
        past_blanks(b, x) < b.len(),
        agree(b, b2, x, past_blanks(b, x) + 1, d),
        b[past_blanks(b, x)] == ascii::BACKSLASH ==> past_blanks(b, x) + 2 <= b.len() && agree(
            b,
            b2,
            x,
            past_blanks(b, x) + 2,
            d,
        ),
    ensures
        past_blanks(b2, x + d) == past_blanks(b, x) + d,
    decreases b.len() - x,
{
    lemma_past_blanks(b, x);
    let y = past_blanks(b, x);
    assert(b[x] == b2[x + d]);
    if x < y {
        if b[x] == ascii::BACKSLASH {
            lemma_past_blanks(b, x + 2);
            assert(b[x + 1] == b2[x + 1 + d]);
            lemma_blanks_shift(b, b2, x + 2, d);
        } else {
            lemma_past_blanks(b, x + 1);
            lemma_blanks_shift(b, b2, x + 1, d);
        }
    } else {
        lemma_solid(b, x);
        lemma_solid(b2, x + d);
        if b[x] == ascii::BACKSLASH && x + 1 < b.len() {
            assert(b[x + 1] == b2[x + 1 + d]);
        }
    }
}

/// Whether token `k` is no comment and no heredoc operator.
pub open spec fn plain_token(toks: Seq<TokenView>, k: int) -> bool {
    toks[k].kind !is Comment && !is_heredoc_op(toks[k].kind)
}

/// Whether the tokens `i..` of `toks2` are the tokens `a..c` of `toks`, `d`
/// further on.
pub open spec fn same_tokens(
    toks: Seq<TokenView>,
    toks2: Seq<TokenView>,
    a: int,
    c: int,
    i: int,
    d: int,
) -> bool {
    forall|k: int|
        a <= k < c ==> {
            &&& (#[trigger] toks[k]).kind == toks2[k - a + i].kind
            &&& toks[k].start + d == toks2[k - a + i].start
            &&& toks[k].end + d == toks2[k - a + i].end
        }
}

/// One token of a stretch is read alike.
proof fn lemma_one_token(
    b: Seq<u8>,
    toks: Seq<TokenView>,
    a: int,
    b2: Seq<u8>,
    toks2: Seq<TokenView>,
    i: int,
    d: int,
)
    requires
        lexed(b, toks),
        lexed(b2, toks2),
        0 <= a < toks.len() - 1,
        0 <= i < toks2.len(),
        toks[a].kind !is Comment,
        agree(b, b2, toks[a].start, toks[a].end, d),
        toks2[i].start == toks[a].start + d,
        toks[a].end < b.len() || b[b.len() - 1] != ascii::BACKSLASH,
        match toks[a].kind {
            TokKind::Word => ends_alike(b, b2, toks[a].end, d),
            TokKind::Op(op) => op == Op::LParen || op == Op::RParen || byte_at(
                b2,
                toks[a].end + d,
            ) == byte_at(b, toks[a].end),
            _ => true,
        },
    ensures
        toks2[i].kind == toks[a].kind,
        toks2[i].end == toks[a].end + d,
        i + 1 < toks2.len(),
{
    let p = toks[a].start;
    let q = toks[a].end;
    assert(token_wf(b, toks[a]));
    assert(b[p] == b2[p + d]);
    assert(i < toks2.len() - 1);
    assert(token_wf(b2, toks2[i]));
    if p + 1 < q {
        assert(b[p + 1] == b2[p + 1 + d]);
    }
    match toks[a].kind {
        TokKind::Newline => {
            lemma_newline_token(b2, p + d);
        },
        TokKind::Op(op) => {
            lemma_operator_shift(b, b2, p, d);
            lemma_operator_token(b2, p + d, op);
        },
        TokKind::Word => {
            lemma_word_bounds(b, p);
            lemma_word_shift(b, b2, p, d);
            assert(token_end(b2, p + d) == Ok::<(TokKind, int), Fault>((TokKind::Word, q + d)));
        },
        _ => {},
    }
}

/// What waits for a body after a token is alike.
proof fn lemma_same_waiting(
    b: Seq<u8>,
    toks: Seq<TokenView>,
    a: int,
    b2: Seq<u8>,
    toks2: Seq<TokenView>,
    i: int,
    d: int,
)
    requires
        lexed(b, toks),
        lexed(b2, toks2),
        0 <= a < toks.len() - 1,
        0 <= i < toks2.len() - 1,
        agree(b, b2, toks[a].start, toks[a].end, d),
        toks2[i].kind == toks[a].kind,
        toks2[i].start == toks[a].start + d,
        toks2[i].end == toks[a].end + d,
        waiting(b, toks, a) == waiting(b2, toks2, i),
    ensures
        waiting(b, toks, a + 1) == waiting(b2, toks2, i + 1),
{
    let p = toks[a].start;
    let q = toks[a].end;
    assert(token_wf(b, toks[a]));
    assert(token_wf(b2, toks2[i]));
    if toks[a].kind is Word {
        assert(b[p] == b2[p + d]);
        assert(starts_process_substitution(b, p) == starts_process_substitution(b2, p + d));
        assert(b.subrange(p, q) =~= b2.subrange(p + d, q + d)) by {
            assert forall|x: int| p <= x < q implies #[trigger] b[x] == b2[x + d] by {}
        }
    }
}

/// A delimiter line is found at the same place.
proof fn lemma_delim_line_shift(
    b: Seq<u8>,
    b2: Seq<u8>,
    i: int,
    tabs: bool,
    key: Seq<u8>,
    d: int,
)
    requires
        0 <= i <= b.len(),
        delim_line(b, i, tabs, key) is Some,
        delim_line(b, i, tabs, key)->Some_0.1 < b.len(),
        agree(b, b2, i, delim_line(b, i, tabs, key)->Some_0.1, d),
    ensures
        delim_line(b2, i + d, tabs, key) is Some,
        delim_line(b2, i + d, tabs, key)->Some_0.1 == delim_line(b, i, tabs, key)->Some_0.1 + d,
    decreases b.len() - i,
{
    let next = delim_line(b, i, tabs, key)->Some_0.1;
    lemma_delim_line(b, i, tabs, key);
    lemma_find_byte(b, i, ascii::NEWLINE);
    let end = find_byte(b, i, ascii::NEWLINE);
    lemma_delim_line(b, next_line(b, end), tabs, key);
    assert(end < b.len() && end + 1 <= next);
    lemma_find_byte_shift(b, b2, i, ascii::NEWLINE, d);
    assert(b.subrange(i, end) =~= b2.subrange(i + d, end + d)) by {
        assert forall|y: int| i <= y < end implies #[trigger] b[y] == b2[y + d] by {}
    }
    let line = b.subrange(i, end);
    let held = if tabs {
        strip_tabs(line)
    } else {
        line
    };
    if held != key {
        lemma_delim_line_shift(b, b2, end + 1, tabs, key, d);
    }
}

/// Bodies go forward.
proof fn lemma_bodies_bounds(b: Seq<u8>, pos: int, pending: Seq<PendingView>)
    requires
        0 <= pos <= b.len(),
        bodies_end(b, pos, pending) is Some,
    ensures
        pos <= bodies_end(b, pos, pending)->Some_0 <= b.len(),
    decreases pending.len(),
{
    if pending.len() > 0 {
        let key = pending[0].delim->Some_0;
        lemma_delim_line(b, pos, pending[0].strip_tabs, key);
        let next = delim_line(b, pos, pending[0].strip_tabs, key)->Some_0.1;
        lemma_bodies_bounds(b, next, pending.drop_first());
    }
}

/// Bodies end at the same place.
proof fn lemma_bodies_shift(b: Seq<u8>, b2: Seq<u8>, pos: int, pending: Seq<PendingView>, d: int)
    requires
        0 <= pos <= b.len(),
        bodies_end(b, pos, pending) is Some,
        bodies_end(b, pos, pending)->Some_0 < b.len(),
        agree(b, b2, pos, bodies_end(b, pos, pending)->Some_0, d),
    ensures
        bodies_end(b2, pos + d, pending) == Some(bodies_end(b, pos, pending)->Some_0 + d),
    decreases pending.len(),
{
    if pending.len() > 0 {
        let key = pending[0].delim->Some_0;
        let tabs = pending[0].strip_tabs;
        lemma_delim_line(b, pos, tabs, key);
        let next = delim_line(b, pos, tabs, key)->Some_0.1;
        lemma_bodies_bounds(b, next, pending.drop_first());
        lemma_delim_line_shift(b, b2, pos, tabs, key, d);
        lemma_bodies_shift(b, b2, next, pending.drop_first(), d);
    }
}

/// The bytes of several tokens, at another place in another source, are read as
/// the same tokens.
#[verifier::rlimit(30)]
pub proof fn lemma_tokens_shift(
    b: Seq<u8>,
    toks: Seq<TokenView>,
    a: int,
    c: int,
    b2: Seq<u8>,
    toks2: Seq<TokenView>,
    i: int,
    d: int,
)
    requires
        lexed(b, toks),
        lexed(b2, toks2),
        0 <= a < c < toks.len(),
        0 <= i < toks2.len(),
        waiting(b, toks, a) == waiting(b2, toks2, i),
        waiting(b, toks, c).len() == 0,
        forall|k: int| a <= k < c ==> (#[trigger] toks[k]).kind !is Comment,
        agree(b, b2, toks[a].start, toks[c - 1].end, d),
        toks2[i].start == toks[a].start + d,
        toks[c - 1].end < b.len() || b[b.len() - 1] != ascii::BACKSLASH,
        match toks[c - 1].kind {
            TokKind::Word => ends_alike(b, b2, toks[c - 1].end, d),
            TokKind::Op(op) => op == Op::RParen,
            _ => false,
        },
    ensures
        same_tokens(toks, toks2, a, c, i, d),
        i + (c - a) < toks2.len(),
        next_at(b2, toks2, i + (c - a), toks[c - 1].end + d),
    decreases c - a,
{
    assert(toks[a].kind !is Comment);
    if a + 1 == c {
        lemma_last_token(b, toks, a, b2, toks2, i, d);
    } else {
        lemma_inner_token(b, toks, a, c, b2, toks2, i, d);
        assert(agree(b, b2, toks[a + 1].start, toks[c - 1].end, d)) by {
            assert(token_wf(b, toks[a]));
            assert(toks[a].end <= toks[a + 1].start);
            assert(token_wf(b, toks[a + 1]));
            if a + 1 < c - 1 {
                assert(toks[a + 1].end <= toks[c - 1].start);
                assert(token_wf(b, toks[c - 1]));
            }
        }
        lemma_tokens_shift(b, toks, a + 1, c, b2, toks2, i + 1, d);
        lemma_one_more_token(toks, toks2, a, c, i, d);
    }
}

/// A token in front of others that are alike.
proof fn lemma_one_more_token(
    toks: Seq<TokenView>,
    toks2: Seq<TokenView>,
    a: int,
    c: int,
    i: int,
    d: int,
)
    requires
        toks2[i].kind == toks[a].kind,
        toks2[i].start == toks[a].start + d,
        toks2[i].end == toks[a].end + d,
        same_tokens(toks, toks2, a + 1, c, i + 1, d),
    ensures
        same_tokens(toks, toks2, a, c, i, d),
{
    assert forall|k: int| a <= k < c implies {
        &&& (#[trigger] toks[k]).kind == toks2[k - a + i].kind
        &&& toks[k].start + d == toks2[k - a + i].start
        &&& toks[k].end + d == toks2[k - a + i].end
    } by {
        if k > a {
            assert(toks[k].kind == toks2[k - (a + 1) + (i + 1)].kind);
        }
    }
}

/// The last token of a stretch is read alike.
proof fn lemma_last_token(
    b: Seq<u8>,
    toks: Seq<TokenView>,
    a: int,
    b2: Seq<u8>,
    toks2: Seq<TokenView>,
    i: int,
    d: int,
)
    requires
        lexed(b, toks),
        lexed(b2, toks2),
        0 <= a < toks.len() - 1,
        0 <= i < toks2.len(),
        waiting(b, toks, a) == waiting(b2, toks2, i),
        waiting(b, toks, a + 1).len() == 0,
        toks[a].kind !is Comment,
        agree(b, b2, toks[a].start, toks[a].end, d),
        toks2[i].start == toks[a].start + d,
        toks[a].end < b.len() || b[b.len() - 1] != ascii::BACKSLASH,
        match toks[a].kind {
            TokKind::Word => ends_alike(b, b2, toks[a].end, d),
            TokKind::Op(op) => op == Op::RParen,
            _ => false,
        },
    ensures
        same_tokens(toks, toks2, a, a + 1, i, d),
        i + 1 < toks2.len(),
        next_at(b2, toks2, i + 1, toks[a].end + d),
{
    lemma_one_token(b, toks, a, b2, toks2, i, d);
    lemma_same_waiting(b, toks, a, b2, toks2, i, d);
    assert(resumed(b2, toks2, i + 1));
    assert forall|k: int| a <= k < a + 1 implies {
        &&& (#[trigger] toks[k]).kind == toks2[k - a + i].kind
        &&& toks[k].start + d == toks2[k - a + i].start
        &&& toks[k].end + d == toks2[k - a + i].end
    } by {
        assert(k - a + i == i);
    }
}

/// A token of a stretch that is not the last one, and what is between it and the
/// next, are read alike.
#[verifier::rlimit(30)]
proof fn lemma_inner_token(
    b: Seq<u8>,
    toks: Seq<TokenView>,
    a: int,
    c: int,
    b2: Seq<u8>,
    toks2: Seq<TokenView>,
    i: int,
    d: int,
)
    requires
        lexed(b, toks),
        lexed(b2, toks2),
        0 <= a < a + 1 < c < toks.len(),
        0 <= i < toks2.len(),
        waiting(b, toks, a) == waiting(b2, toks2, i),
        toks[a].kind !is Comment,
        agree(b, b2, toks[a].start, toks[c - 1].end, d),
        toks2[i].start == toks[a].start + d,
        toks[c - 1].end < b.len() || b[b.len() - 1] != ascii::BACKSLASH,
        match toks[c - 1].kind {
            TokKind::Word => true,
            TokKind::Op(op) => op == Op::RParen,
            _ => false,
        },
    ensures
        toks2[i].kind == toks[a].kind,
        toks2[i].end == toks[a].end + d,
        i + 1 < toks2.len(),
        toks2[i + 1].start == toks[a + 1].start + d,
        waiting(b, toks, a + 1) == waiting(b2, toks2, i + 1),
{
    let p = toks[a].start;
    let q = toks[a].end;
    let s = toks[a + 1].start;
    let end = toks[c - 1].end;
    assert(token_wf(b, toks[a]));
    assert(token_wf(b, toks[a + 1]));
    assert(token_wf(b, toks[c - 1]));
    assert(q <= s);
    if a + 1 < c - 1 {
        assert(toks[a + 1].end <= toks[c - 1].start);
    }
    assert(b[q] == b2[q + d]);
    assert(resumed(b, toks, a + 1));
    if toks[a].kind is Word {
        lemma_word_bounds(b, p);
        if q + 1 < end {
            assert(b[q + 1] == b2[q + 1 + d]);
        } else if b[q] == ascii::LESS || b[q] == ascii::GREAT {
            lemma_solid(b, q);
            assert(s == q);
            lemma_last_redirection(b, toks, a + 1, c);
        }
        assert(ends_alike(b, b2, q, d));
    }
    lemma_one_token(b, toks, a, b2, toks2, i, d);
    lemma_same_waiting(b, toks, a, b2, toks2, i, d);
    assert(resumed(b2, toks2, i + 1));
    if b[s] == ascii::BACKSLASH {
        assert(toks[a + 1].end < b.len() || b[b.len() - 1] != ascii::BACKSLASH);
        lemma_backslash_word(b, s, toks[a + 1].end);
    }
    let r = resume(b, toks, a + 1)->Some_0;
    lemma_past_blanks(b, r);
    if toks[a].kind is Newline {
        let pending = waiting(b, toks, a);
        lemma_bodies_bounds(b, q, pending);
        lemma_bodies_shift(b, b2, q, pending, d);
    }
    lemma_blanks_shift(b, b2, r, d);
}

/// The next token from an index is the next one from where it starts.
pub proof fn lemma_past_blanks_of_start(
    b: Seq<u8>,
    toks: Seq<TokenView>,
    i: int,
    p: int,
    s: int,
)
    requires
        next_at(b, toks, i, p),
        s == past_blanks(b, p),
    ensures
        next_at(b, toks, i, s),
{
    lemma_past_blanks(b, p);
    lemma_past_idempotent(b, p);
}

/// A word that starts with a backslash has a second byte, unless it is all that
/// is left.
proof fn lemma_backslash_word(b: Seq<u8>, s: int, end: int)
    requires
        0 <= s < b.len(),
        b[s] == ascii::BACKSLASH,
        token_end(b, s) == Ok::<(TokKind, int), Fault>((TokKind::Word, end)),
        end < b.len() || b[b.len() - 1] != ascii::BACKSLASH,
    ensures
        s + 2 <= end,
{
    lemma_word_bounds(b, past_escape(b, s));
}

/// A stretch of tokens that ends in a word or in `)` does not end in a lone
/// redirection sign.
proof fn lemma_last_redirection(b: Seq<u8>, toks: Seq<TokenView>, a: int, c: int)
    requires
        lexed(b, toks),
        0 <= a < c < toks.len(),
        b[toks[a].start] == ascii::LESS || b[toks[a].start] == ascii::GREAT,
        match toks[c - 1].kind {
            TokKind::Word => true,
            TokKind::Op(op) => op == Op::RParen,
            _ => false,
        },
    ensures
        toks[a].start + 1 < toks[c - 1].end,
{
    assert(token_wf(b, toks[a]));
    assert(token_wf(b, toks[c - 1]));
    if a < c - 1 {
        assert(toks[a].end <= toks[c - 1].start);
    }
    let p = toks[a].start;
    lemma_word_bounds(b, p);
    if starts_process_substitution(b, p) {
        lemma_group_bounds(b, Group::Paren, p + 1, p + 2, 1);
        if let Ok(k) = group_from(b, Group::Paren, p + 1, p + 2, 1) {
            lemma_word_bounds(b, k);
        }
    }
}

// ---------------------------------------------------------------------------
// Words of ordinary bytes
// ---------------------------------------------------------------------------

/// A byte that always belongs to a word and means nothing inside one.
pub open spec fn ordinary(c: u8) -> bool {
    &&& !ends_word(c)
    &&& !takes_paren(c)
    &&& c != ascii::BACKSLASH
    &&& c != ascii::SINGLE_QUOTE
    &&& c != ascii::DOUBLE_QUOTE
    &&& c != ascii::BACKQUOTE
    &&& c != ascii::DOLLAR
}

proof fn lemma_ordinary_from(b: Seq<u8>, j: int, n: int)
    requires
        0 <= j <= n < b.len(),
        forall|k: int| j <= k < n ==> ordinary(#[trigger] b[k]),
        b[n] == ascii::SPACE,
    ensures
        word_from(b, j) == Ok::<int, Fault>(n),
    decreases n - j,
{
    if j < n {
        assert(ordinary(b[j]));
        lemma_ordinary_from(b, j + 1, n);
    }
}

/// Ordinary bytes are read as one word, unless they start with `#`.
pub proof fn lemma_ordinary_word(u: Seq<u8>)
    requires
        u.len() > 0,
        forall|k: int| 0 <= k < u.len() ==> ordinary(#[trigger] u[k]),
        u[0] != ascii::HASH,
    ensures
        word_bytes(u),
{
    let b = u.push(ascii::SPACE);
    assert forall|k: int| 0 <= k < u.len() implies ordinary(#[trigger] b[k]) by {
        assert(b[k] == u[k]);
    }
    assert(ordinary(b[0]));
    lemma_ordinary_from(b, 0, u.len() as int);
    lemma_solid(b, 0);
}

/// `!` is read as one word.
pub proof fn lemma_bang_word()
    ensures
        word_bytes(seq![ascii::BANG]),
{
    let u = seq![ascii::BANG];
    let b = u.push(ascii::SPACE);
    assert(b[0] == ascii::BANG && b[1] == ascii::SPACE);
    assert(word_from(b, 1) == Ok::<int, Fault>(1));
    assert(word_from(b, 0) == Ok::<int, Fault>(1));
    lemma_solid(b, 0);
}

// ---------------------------------------------------------------------------
// Parentheses and tokens
// ---------------------------------------------------------------------------

/// Inside parentheses, a group that is closed counts for nothing.
proof fn lemma_group_nested(b: Seq<u8>, i: int, i2: int, j: int, inner: nat, depth: nat)
    requires
        0 <= j <= b.len(),
        inner >= 1,
        depth >= 1,
        group_from(b, Group::Paren, i2, j, inner) is Ok,
    ensures
        group_from(b, Group::Paren, i, j, inner + depth) == group_from(
            b,
            Group::Paren,
            i,
            group_from(b, Group::Paren, i2, j, inner)->Ok_0,
            depth,
        ),
    decreases b.len() - j,
{
    let g = Group::Paren;
    if j < b.len() {
        if b[j] == ascii::BACKSLASH {
            lemma_group_nested(b, i, i2, past_escape(b, j), inner, depth);
        } else if starts_quoted(b, j) {
            lemma_quoted_bounds(b, j);
            lemma_group_nested(b, i, i2, quoted_at(b, j)->Ok_0, inner, depth);
        } else if b[j] == g.opening() {
            lemma_group_nested(b, i, i2, j + 1, inner + 1, depth);
        } else if b[j] == g.closing() {
            if inner > 1 {
                lemma_group_nested(b, i, i2, j + 1, (inner - 1) as nat, depth);
            }
        } else {
            lemma_group_nested(b, i, i2, j + 1, inner, depth);
        }
    }
}

/// Inside parentheses, a word counts for nothing.
proof fn lemma_group_word(b: Seq<u8>, i: int, j: int, depth: nat)
    requires
        0 <= j <= b.len(),
        depth >= 1,
        word_from(b, j) is Ok,
    ensures
        group_from(b, Group::Paren, i, j, depth) == group_from(
            b,
            Group::Paren,
            i,
            word_from(b, j)->Ok_0,
            depth,
        ),
    decreases b.len() - j,
{
    if j < b.len() {
        if b[j] == ascii::BACKSLASH {
            lemma_group_word(b, i, past_escape(b, j), depth);
        } else if starts_quoted(b, j) {
            lemma_quoted_bounds(b, j);
            lemma_group_word(b, i, quoted_at(b, j)->Ok_0, depth);
        } else if takes_paren(b[j]) && byte_at(b, j + 1) == ascii::LPAREN {
            lemma_group_bounds(b, Group::Paren, j + 1, j + 2, 1);
            let k = group_from(b, Group::Paren, j + 1, j + 2, 1)->Ok_0;
            lemma_group_nested(b, i, j + 1, j + 2, 1, depth);
            assert(group_from(b, Group::Paren, i, j, depth) == group_from(
                b,
                Group::Paren,
                i,
                j + 1,
                depth,
            ));
            assert(group_from(b, Group::Paren, i, j + 1, depth) == group_from(
                b,
                Group::Paren,
                i,
                j + 2,
                depth + 1,
            ));
            lemma_group_word(b, i, k, depth);
        } else if !ends_word(b[j]) {
            lemma_group_word(b, i, j + 1, depth);
        }
    }
}

/// Inside parentheses, blanks count for nothing.
proof fn lemma_group_blanks(b: Seq<u8>, i: int, j: int, depth: nat)
    requires
        0 <= j <= b.len(),
    ensures
        group_from(b, Group::Paren, i, j, depth) == group_from(
            b,
            Group::Paren,
            i,
            past_blanks(b, j),
            depth,
        ),
    decreases b.len() - j,
{
    if j < b.len() {
        if b[j] == ascii::SPACE || b[j] == ascii::TAB || b[j] == ascii::RETURN {
            lemma_group_blanks(b, i, j + 1, depth);
        } else if b[j] == ascii::BACKSLASH && byte_at(b, j + 1) == ascii::NEWLINE {
            lemma_group_blanks(b, i, j + 2, depth);
        }
    }
}

/// Inside parentheses, an operator other than a parenthesis counts for nothing.
proof fn lemma_group_operator(b: Seq<u8>, i: int, j: int, depth: nat)
    requires
        0 <= j < b.len(),
        operator_at(b, j) is Some,
        operator_at(b, j) != Some(Op::LParen),
        operator_at(b, j) != Some(Op::RParen),
    ensures
        group_from(b, Group::Paren, i, j, depth) == group_from(
            b,
            Group::Paren,
            i,
            j + operator_at(b, j)->Some_0.spelling().len(),
            depth,
        ),
{
    let op = operator_at(b, j)->Some_0;
    law_operator_longest_match(b, j, op);
    reveal_with_fuel(group_from, 4);
}

/// The tokens from `k` on, inside parentheses that are closed at `end`, reach
/// that end: the last of them is the closing parenthesis.
pub proof fn lemma_group_tokens(
    b: Seq<u8>,
    toks: Seq<TokenView>,
    i: int,
    k: int,
    p: int,
    depth: nat,
    end: int,
) -> (c: int)
    requires
        lexed(b, toks),
        next_at(b, toks, k, p),
        forall|x: int| 0 <= x < toks.len() ==> #[trigger] plain_token(toks, x),
        depth >= 1,
        group_from(b, Group::Paren, i, p, depth) == Ok::<int, Fault>(end),
    ensures
        k < c < toks.len(),
        toks[c - 1].kind == TokKind::Op(Op::RParen),
        toks[c - 1].end == end,
        next_at(b, toks, c, end),
        forall|x: int| k <= x < c ==> (#[trigger] toks[x]).start < end,
    decreases b.len() - p,
{
    lemma_group_bounds(b, Group::Paren, i, p, depth);
    lemma_group_blanks(b, i, p, depth);
    lemma_past_blanks(b, p);
    let s = past_blanks(b, p);
    lemma_past_blanks_of_start(b, toks, k, p, s);
    if k == toks.len() - 1 {
        assert(group_from(b, Group::Paren, i, s, depth) is Err);
    }
    assert(plain_token(toks, k));
    assert(token_wf(b, toks[k]));
    let kind = toks[k].kind;
    let e = toks[k].end;
    lemma_group_bounds(b, Group::Paren, i, s, depth);
    lemma_next_token(b, toks, k, s, kind, e);
    let c = match kind {
        TokKind::Word => {
            lemma_word_bounds(b, s);
            lemma_group_word(b, i, s, depth);
            lemma_group_tokens(b, toks, i, k + 1, e, depth, end)
        },
        TokKind::Op(op) => {
            if op == Op::LParen {
                lemma_group_tokens(b, toks, i, k + 1, e, depth + 1, end)
            } else if op == Op::RParen {
                if depth == 1 {
                    k + 1
                } else {
                    lemma_group_tokens(b, toks, i, k + 1, e, (depth - 1) as nat, end)
                }
            } else {
                lemma_group_operator(b, i, s, depth);
                lemma_group_tokens(b, toks, i, k + 1, e, depth, end)
            }
        },
        _ => lemma_group_tokens(b, toks, i, k + 1, e, depth, end),
    };
    assert forall|x: int| k <= x < c implies (#[trigger] toks[x]).start < end by {
        if x == k && k + 1 < c {
            assert(toks[k + 1].start < end);
            assert(toks[k].end <= toks[k + 1].start);
        }
    }
    c
}

} // verus!
