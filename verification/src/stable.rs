//! Formatted text reads back as the tree that it was printed from.
//!
//! [`good_list`] and its companions describe the trees that the parser builds;
//! the lemmas here show that whatever such a tree is rendered as, at any width,
//! is tokenized and parsed into the same tree again. That is why formatting a
//! second time changes nothing.

use vstd::prelude::*;
use vstd::string::*;
use vstd::utf8::*;
use crate::ascii;
use crate::ast::{BinCmdOperator, BlockView, CallExprView, CommandView, ForClauseView, IfClauseView,
    RedirOperator, RedirectView, StmtView, SubshellView, WordView};
use crate::doc::{DocView, Mode, interleave};
use crate::lexer::{Fault, Op, TokKind, byte_at, is_heredoc_op, operator_at, parens_at,
    starts_process_substitution, waiting};
use crate::locality::ends_at;
use crate::parser::{Input, SimpleState, Stop, absent, fd_text, if_view, lit_view, present,
    raw_word_view, redir_operator, redirect_view, redirects, shell_keyword, takes_fd, while_view};
use crate::apart::{apart_redir, apart_redirs, runs_into};
use crate::printer::{redir_view, redirs_view, spaced, text_view, word_view, words_view};
use crate::reading::{lemma_newline_token, lemma_next_blank, lemma_next_blanks, lemma_next_end,
    lemma_next_start, lemma_next_token, lemma_operator_token, lemma_token_text, lemma_word_token,
    lexed, next_at, ordinary, word_text};
use crate::render::{holds, laid, laid_all, lemma_laid_concat, lemma_laid_single, lemma_laid_split,
    line_break};
use crate::text::{lemma_encode_add, slice_chars};

verus! {

// ---------------------------------------------------------------------------
// Trees that the parser builds
// ---------------------------------------------------------------------------

/// The text of a raw word.
pub open spec fn raw_text(w: WordView) -> Seq<char> {
    w.parts[0]->Lit_0.value
}

/// Whether `w` is a raw word that is read as one word.
pub open spec fn good_word(w: WordView) -> bool {
    w == raw_word_view(raw_text(w)) && word_text(raw_text(w))
}

/// Whether all of `words` are good.
pub open spec fn good_words(words: Seq<WordView>) -> bool {
    forall|i: int| 0 <= i < words.len() ==> good_word(#[trigger] words[i])
}

/// Whether the word `t` ends a list of statements up to `stop`.
pub open spec fn stop_word(stop: Stop, t: Seq<char>) -> bool {
    match stop {
        Stop::End => false,
        Stop::RParen => false,
        Stop::RBrace => t == "}"@,
        Stop::Then => t == "then"@,
        Stop::Branch => t == "elif"@ || t == "else"@ || t == "fi"@,
        Stop::Fi => t == "fi"@,
        Stop::Do => t == "do"@,
        Stop::Done => t == "done"@,
    }
}

/// The operator of a redirection.
pub open spec fn operator_of(op: RedirOperator) -> Op {
    match op {
        RedirOperator::RdrIn => Op::Less,
        RedirOperator::RdrOut => Op::Great,
        RedirOperator::AppOut => Op::DGreat,
        RedirOperator::DplIn => Op::LessAnd,
        RedirOperator::DplOut => Op::GreatAnd,
        RedirOperator::RdrInOut => Op::LessGreat,
        RedirOperator::ClbOut => Op::Clobber,
        RedirOperator::RdrAll => Op::AndGreat,
        RedirOperator::AppAll => Op::AndDGreat,
        RedirOperator::WordHdoc => Op::TLess,
        RedirOperator::Hdoc => Op::DLess,
        RedirOperator::DashHdoc => Op::DLessDash,
    }
}

/// Whether `r` is a redirection to a good word.
pub open spec fn good_redir(r: RedirectView) -> bool {
    &&& r.word is Some
    &&& good_word(r.word->Some_0)
    &&& !is_heredoc_op(TokKind::Op(operator_of(r.op)))
    &&& r == RedirectView { n: r.n, ..redirect_view(operator_of(r.op), raw_text(r.word->Some_0)) }
    &&& match r.n {
        Some(l) => {
            &&& l == lit_view(l.value)
            &&& fd_text(l.value)
            &&& word_text(l.value)
            &&& takes_fd(operator_of(r.op))
        },
        None => true,
    }
}

/// Whether all of `redirs` are good.
pub open spec fn good_redirs(redirs: Seq<RedirectView>) -> bool {
    forall|i: int| 0 <= i < redirs.len() ==> good_redir(#[trigger] redirs[i])
}

/// Whether the parser takes the tokens `a..c` of `n` for a `[[ … ]]` or a
/// `(( … ))`.
pub open spec fn opaque_at(n: Input, a: int, c: int) -> bool {
    ||| n.is_word(a, "[["@) && n.test_opaque(a) is Ok && n.test_opaque(a)->Ok_0.1 == c
    ||| {
        &&& n.is_op(a, Op::LParen)
        &&& n.is_op(a + 1, Op::LParen)
        &&& n.toks[a + 1].start == n.toks[a].end
        &&& n.arith_opaque(a) is Ok
        &&& n.arith_opaque(a)->Ok_0.1 == c
    }
}

/// Whether no heredoc waits for its body before token `i` of `n`.
pub open spec fn quiet(n: Input, i: int) -> bool {
    waiting(bytes(n), n.toks, i).len() == 0
}

/// Whether what the parser cuts out verbatim is whole: the heredocs in a
/// `[[ … ]]` or a `(( … ))` have their bodies in it too, and a `(( … ))` ends
/// with a parenthesis that is not in such a body.
pub open spec fn sealed(n: Input) -> bool {
    forall|a: int, c: int| #[trigger]
        opaque_at(n, a, c) ==> {
            &&& quiet(n, a)
            &&& quiet(n, c)
            &&& n.is_op(a, Op::LParen) ==> a + 1 < c && n.is_op(c - 1, Op::RParen) && parens_at(
                bytes(n),
                n.toks[a].start,
            ) == Ok::<int, Fault>(n.toks[c - 1].end)
        }
}

/// Whether the tokens `a..c` of `n` are a `[[ … ]]`.
pub open spec fn test_span(n: Input, a: int, c: int) -> bool {
    &&& 0 <= a < a + 1 < c < n.toks.len()
    &&& n.is_word(a, "[["@)
    &&& n.test_close(a + 1) == Some(c - 1)
    &&& n.heredoc_in(a, c) is None
    &&& quiet(n, a)
    &&& quiet(n, c)
}

/// Whether the tokens `a..c` of `n` are a `(( … ))`.
pub open spec fn arith_span(n: Input, a: int, c: int) -> bool {
    &&& 0 <= a < a + 1 < c < n.toks.len()
    &&& n.is_op(a, Op::LParen)
    &&& n.is_op(a + 1, Op::LParen)
    &&& n.is_op(c - 1, Op::RParen)
    &&& n.toks[a + 1].start == n.toks[a].end
    &&& parens_at(bytes(n), n.toks[a].start) == Ok::<int, Fault>(n.toks[c - 1].end)
    &&& n.heredoc_in(a, c) is None
    &&& quiet(n, a)
    &&& quiet(n, c)
}

/// The source text of the tokens `a..c` of `n`.
pub open spec fn span_text(n: Input, a: int, c: int) -> Seq<char> {
    slice_chars(n.src, n.toks[a].start, n.toks[c - 1].end)
}

/// Whether `t` is a `[[ … ]]` cut out of `n`.
pub open spec fn test_text(n: Input, t: Seq<char>) -> bool {
    exists|a: int, c: int| #[trigger] test_span(n, a, c) && t == span_text(n, a, c)
}

/// Whether `t` is a `(( … ))` cut out of `n`.
pub open spec fn arith_text(n: Input, t: Seq<char>) -> bool {
    exists|a: int, c: int| #[trigger] arith_span(n, a, c) && t == span_text(n, a, c)
}

/// Whether the simple command `c` with its redirections was parsed from `n`: an
/// opaque one, or words.
pub open spec fn good_call(n: Input, c: CallExprView, redirs: Seq<RedirectView>) -> bool {
    &&& c.assigns == Seq::<crate::ast::AssignView>::empty()
    &&& good_redirs(redirs)
    &&& ({
        ||| opaque_call(n, c)
        ||| {
            &&& good_words(c.args)
            &&& c.args.len() + redirs.len() > 0
            &&& c.args.len() > 0 ==> leads(raw_text(c.args[0]))
        }
    })
}

/// Whether `t` can be the first word of a simple command, behind `!` or not.
pub open spec fn leads(t: Seq<char>) -> bool {
    !shell_keyword(t) || t == "!"@
}

/// Whether `cmd` is a simple command whose first word is `!`.
pub open spec fn bang_first(n: Input, cmd: CommandView) -> bool {
    match cmd {
        CommandView::Call(c) => !opaque_call(n, c) && c.args.len() > 0 && raw_text(c.args[0])
            == "!"@,
        _ => false,
    }
}

/// Whether the simple command `c` is a `[[ … ]]` or a `(( … ))` cut out of `n`.
pub open spec fn opaque_call(n: Input, c: CallExprView) -> bool {
    &&& c.args.len() == 1
    &&& c.args[0] == raw_word_view(raw_text(c.args[0]))
    &&& test_text(n, raw_text(c.args[0])) || arith_text(n, raw_text(c.args[0]))
}

/// Whether `s` was parsed from `n` as a list item (`level` 2), as a pipeline
/// (1) or as a command (0).
pub open spec fn good_stmt(n: Input, s: StmtView, level: int) -> bool
    decreases s, 0int,
{
    &&& s.comments == Seq::<crate::ast::CommentView>::empty()
    &&& s.position == absent()
    &&& s.semicolon == absent()
    &&& !s.coprocess
    &&& match s.cmd {
        None => false,
        Some(CommandView::Binary(x)) => {
            &&& !s.negated
            &&& s.redirs == Seq::<RedirectView>::empty()
            &&& x.op_pos == absent()
            &&& !x.x.background
            &&& !x.y.background
            &&& match x.op {
                BinCmdOperator::AndStmt | BinCmdOperator::OrStmt => level >= 2 && good_stmt(
                    n,
                    x.x,
                    2,
                ) && good_stmt(n, x.y, 1),
                BinCmdOperator::Pipe | BinCmdOperator::PipeAll => level >= 1 && good_stmt(
                    n,
                    x.x,
                    1,
                ) && good_stmt(n, x.y, 0),
            }
        },
        Some(cmd) => good_command(n, cmd, s.redirs) && (s.negated || !bang_first(n, cmd)),
    }
}

/// Whether `cmd` with its redirections was parsed from `n`.
pub open spec fn good_command(n: Input, cmd: CommandView, redirs: Seq<RedirectView>) -> bool
    decreases cmd, 0int,
{
    match cmd {
        CommandView::Call(c) => good_call(n, c, redirs),
        CommandView::Block(x) => {
            &&& x == BlockView { lbrace: absent(), rbrace: absent(), last: seq![], ..x }
            &&& good_list(n, x.stmts)
            &&& good_redirs(redirs)
        },
        CommandView::Subshell(x) => {
            &&& x == SubshellView { lparen: absent(), rparen: absent(), last: seq![], ..x }
            &&& good_list(n, x.stmts)
            &&& good_redirs(redirs)
        },
        CommandView::If(x) => {
            &&& *x == if_view(present(), x.cond, x.then_, x.else_)
            &&& good_list(n, x.cond)
            &&& good_list(n, x.then_)
            &&& good_tail(n, x.else_)
            &&& good_redirs(redirs)
        },
        CommandView::While(x) => {
            &&& *x == while_view(x.until, x.cond, x.do_)
            &&& good_list(n, x.cond)
            &&& good_list(n, x.do_)
            &&& good_redirs(redirs)
        },
        CommandView::For(x) => {
            &&& x.loop_ is Word
            &&& *x == crate::parser::for_view(
                x.loop_->Word_0.name.value,
                for_items(*x),
                x.do_,
            )
            &&& word_text(x.loop_->Word_0.name.value)
            &&& good_words(x.loop_->Word_0.items)
            &&& good_list(n, x.do_)
            &&& good_redirs(redirs)
        },
        _ => false,
    }
}

/// The words that a `for` goes over, if it has an `in`.
pub open spec fn for_items(x: ForClauseView) -> Option<Seq<WordView>> {
    if x.loop_->Word_0.in_pos.is_valid() {
        Some(x.loop_->Word_0.items)
    } else {
        None
    }
}

/// Whether the `elif` and `else` branches `tail` were parsed from `n`.
pub open spec fn good_tail(n: Input, tail: Option<Box<IfClauseView>>) -> bool
    decreases tail, 0int,
{
    match tail {
        None => true,
        Some(x) => if x.then_pos.is_valid() {
            &&& *x == if_view(present(), x.cond, x.then_, x.else_)
            &&& good_list(n, x.cond)
            &&& good_list(n, x.then_)
            &&& good_tail(n, x.else_)
        } else {
            &&& *x == if_view(absent(), seq![], x.then_, None)
            &&& good_list(n, x.then_)
        },
    }
}

/// Whether all of `stmts` were parsed from `n` as list items.
pub open spec fn good_list(n: Input, stmts: Seq<StmtView>) -> bool
    decreases stmts, 0int,
{
    stmts.len() == 0 || (good_stmt(n, stmts[0], 2) && good_list(n, stmts.drop_first()))
}

// ---------------------------------------------------------------------------
// Reading pieces of text
// ---------------------------------------------------------------------------

/// The bytes of the source of `m`.
pub open spec fn bytes(m: Input) -> Seq<u8> {
    encode_utf8(m.src)
}

/// Whether token `i` of `m` is the next one from index `p` on.
#[verifier::opaque]
pub open spec fn at(m: Input, i: int, p: int) -> bool {
    next_at(bytes(m), m.toks, i, p)
}

/// Whether `m` is a source with its tokens.
#[verifier::opaque]
pub open spec fn tokenized(m: Input) -> bool {
    lexed(bytes(m), m.toks)
}

/// Whether `n` is a source with its tokens, none of them a comment.
#[verifier::opaque]
pub open spec fn clean(n: Input) -> bool {
    &&& tokenized(n)
    &&& forall|x: int| 0 <= x < n.toks.len() ==> (#[trigger] n.toks[x]).kind !is Comment
}

/// Over a blank.
pub proof fn lemma_at_blank(m: Input, i: int, p: int)
    requires
        at(m, i, p),
        p < bytes(m).len(),
        bytes(m)[p] == ascii::SPACE,
    ensures
        at(m, i, p + 1),
{
    reveal(at);
    lemma_next_blank(bytes(m), m.toks, i, p);
}

/// At the end.
pub proof fn lemma_at_end(m: Input, i: int, p: int)
    requires
        tokenized(m),
        at(m, i, p),
        p == bytes(m).len(),
    ensures
        m.kind(i) is Eof,
        i == m.toks.len() - 1,
{
    reveal(at);
    reveal(tokenized);
    lemma_next_end(bytes(m), m.toks, i, p);
}

/// At the start.
pub proof fn lemma_at_first(m: Input)
    requires
        tokenized(m),
    ensures
        at(m, 0, 0),
{
    reveal(at);
    reveal(tokenized);
    lemma_next_start(bytes(m), m.toks);
}

/// Where a token is next.
pub proof fn lemma_at_bounds(m: Input, i: int, p: int)
    requires
        at(m, i, p),
    ensures
        0 <= i < m.toks.len(),
        0 <= p <= bytes(m).len(),
{
    reveal(at);
}

/// Whether what stands at `q` ends a statement: the end, a blank, a newline, `;`
/// or `)`.
pub open spec fn stops(b: Seq<u8>, q: int) -> bool {
    &&& 0 <= q <= b.len()
    &&& q < b.len() ==> b[q] == ascii::SPACE || b[q] == ascii::NEWLINE || b[q] == ascii::SEMI || b[q]
        == ascii::RPAREN
}

pub proof fn lemma_stops_word(b: Seq<u8>, q: int)
    requires
        stops(b, q),
    ensures
        ends_at(b, q),
{
}

/// Text that stands somewhere can be taken apart.
pub proof fn lemma_holds_split(b: Seq<u8>, x: Seq<char>, y: Seq<char>, p: int, q: int)
    requires
        holds(b, encode_utf8(x + y), p, q),
    ensures
        holds(b, encode_utf8(x), p, p + encode_utf8(x).len()),
        holds(b, encode_utf8(y), p + encode_utf8(x).len(), q),
{
    lemma_encode_add(x, y);
    let u = encode_utf8(x);
    let v = encode_utf8(y);
    let w = u + v;
    assert forall|k: int| p <= k < p + u.len() implies #[trigger] b[k] == u[k - p] by {
        assert(b[k] == w[k - p]);
    }
    assert forall|k: int| p + u.len() <= k < q implies #[trigger] b[k] == v[k - (p + u.len())] by {
        assert(b[k] == w[k - p]);
    }
}

/// ASCII text stands byte by byte.
pub proof fn lemma_ascii_holds(b: Seq<u8>, s: Seq<char>, p: int, q: int)
    requires
        holds(b, encode_utf8(s), p, q),
        is_ascii_chars(s),
    ensures
        q == p + s.len(),
        forall|k: int| 0 <= k < s.len() ==> #[trigger] s[k] as u8 == b[p + k],
{
    is_ascii_chars_encode_utf8(s);
    assert forall|k: int| 0 <= k < s.len() implies #[trigger] s[k] as u8 == b[p + k] by {
        assert(b[p + k] == encode_utf8(s)[p + k - p]);
    }
}

/// Whether `t` is made of letters, `{` and `}`: characters that mean nothing to
/// the lexer.
pub open spec fn letters(t: Seq<char>) -> bool {
    &&& t.len() > 0
    &&& forall|k: int|
        0 <= k < t.len() ==> 'a' <= #[trigger] t[k] <= 'z' || t[k] == '{' || t[k] == '}'
}

pub proof fn lemma_letters(t: Seq<char>)
    requires
        letters(t),
    ensures
        word_text(t),
        is_ascii_chars(t),
        encode_utf8(t).len() == t.len(),
{
    assert forall|k: int| 0 <= k < t.len() implies '\0' <= #[trigger] t[k] <= '\u{7f}' by {}
    is_ascii_chars_encode_utf8(t);
    let u = encode_utf8(t);
    assert forall|k: int| 0 <= k < u.len() implies ordinary(#[trigger] u[k]) by {
        assert(t[k] as u8 == u[k]);
    }
    assert(t[0] as u8 == u[0]);
    crate::reading::lemma_ordinary_word(u);
}

/// Read a word that is known to stand at `p`.
pub proof fn lemma_read_word(m: Input, i: int, p: int, q: int, t: Seq<char>)
    requires
        tokenized(m),
        at(m, i, p),
        holds(bytes(m), encode_utf8(t), p, q),
        word_text(t),
        ends_at(bytes(m), q),
    ensures
        m.kind(i) is Word,
        m.text(i) == t,
        m.toks[i].start == p,
        m.toks[i].end == q,
        p < q,
        i + 1 < m.toks.len(),
        at(m, i + 1, q),
{
    reveal(at);
    reveal(tokenized);
    lemma_word_token(bytes(m), encode_utf8(t), p, q);
    lemma_next_token(bytes(m), m.toks, i, p, TokKind::Word, q);
    lemma_token_text(m.src, t, p, q);
}

/// Read an operator that is known to stand at `p`.
pub proof fn lemma_read_op(m: Input, i: int, p: int, op: Op)
    requires
        tokenized(m),
        at(m, i, p),
        0 <= p < bytes(m).len(),
        operator_at(bytes(m), p) == Some(op),
        !starts_process_substitution(bytes(m), p),
        !is_heredoc_op(TokKind::Op(op)),
    ensures
        m.kind(i) == TokKind::Op(op),
        m.toks[i].start == p,
        m.toks[i].end == p + op.spelling().len(),
        i + 1 < m.toks.len(),
        at(m, i + 1, p + op.spelling().len()),
{
    reveal(at);
    reveal(tokenized);
    lemma_operator_token(bytes(m), p, op);
    lemma_next_token(
        bytes(m),
        m.toks,
        i,
        p,
        TokKind::Op(op),
        p + op.spelling().len(),
    );
}

/// Read a newline that is known to stand at `p`.
pub proof fn lemma_read_newline(m: Input, i: int, p: int)
    requires
        tokenized(m),
        at(m, i, p),
        0 <= p < bytes(m).len(),
        bytes(m)[p] == ascii::NEWLINE,
    ensures
        m.kind(i) is Newline,
        i + 1 < m.toks.len(),
        at(m, i + 1, p + 1),
{
    reveal(at);
    reveal(tokenized);
    lemma_newline_token(bytes(m), p);
    lemma_next_token(bytes(m), m.toks, i, p, TokKind::Newline, p + 1);
}

/// Read a keyword with a blank behind it.
pub proof fn lemma_read_keyword(m: Input, i: int, p: int, q: int, t: Seq<char>)
    requires
        tokenized(m),
        at(m, i, p),
        letters(t),
        holds(bytes(m), encode_utf8(t + seq![' ']), p, q),
    ensures
        m.is_word(i, t),
        i + 1 < m.toks.len(),
        at(m, i + 1, q),
        q == p + t.len() + 1,
{
    let b = bytes(m);
    lemma_letters(t);
    lemma_holds_split(b, t, seq![' '], p, q);
    let r = p + t.len();
    lemma_ascii_holds(b, seq![' '], r, q);
    assert(seq![' '][0] as u8 == b[r + 0]);
    lemma_read_word(m, i, p, r, t);
    lemma_at_blank(m, i + 1, r);
}

/// Read a keyword at the end of a statement.
pub proof fn lemma_read_last_keyword(m: Input, i: int, p: int, q: int, t: Seq<char>)
    requires
        tokenized(m),
        at(m, i, p),
        letters(t),
        holds(bytes(m), encode_utf8(t), p, q),
        stops(bytes(m), q),
    ensures
        m.is_word(i, t),
        i + 1 < m.toks.len(),
        at(m, i + 1, q),
{
    lemma_letters(t);
    lemma_stops_word(bytes(m), q);
    lemma_read_word(m, i, p, q, t);
}

/// Read `(`.
pub proof fn lemma_read_lparen(m: Input, i: int, p: int, q: int)
    requires
        tokenized(m),
        at(m, i, p),
        holds(bytes(m), encode_utf8("("@), p, q),
    ensures
        m.kind(i) == TokKind::Op(Op::LParen),
        m.toks[i].start == p,
        m.toks[i].end == q,
        q == p + 1,
        bytes(m)[p] == ascii::LPAREN,
        i + 1 < m.toks.len(),
        at(m, i + 1, q),
{
    reveal_strlit("(");
    lemma_ascii_holds(bytes(m), "("@, p, q);
    assert("("@[0] as u8 == bytes(m)[p + 0]);
    lemma_read_op(m, i, p, Op::LParen);
}

/// Read `)`.
pub proof fn lemma_read_rparen(m: Input, i: int, p: int, q: int)
    requires
        tokenized(m),
        at(m, i, p),
        holds(bytes(m), encode_utf8(")"@), p, q),
    ensures
        m.kind(i) == TokKind::Op(Op::RParen),
        q == p + 1,
        bytes(m)[p] == ascii::RPAREN,
        i + 1 < m.toks.len(),
        at(m, i + 1, q),
{
    reveal_strlit(")");
    lemma_ascii_holds(bytes(m), ")"@, p, q);
    assert(")"@[0] as u8 == bytes(m)[p + 0]);
    lemma_read_op(m, i, p, Op::RParen);
}

/// A space.
pub proof fn lemma_space_text(b: Seq<u8>, p: int, q: int)
    requires
        holds(b, encode_utf8(" "@), p, q),
    ensures
        q == p + 1,
        b[p] == ascii::SPACE,
{
    reveal_strlit(" ");
    lemma_ascii_holds(b, " "@, p, q);
    assert(" "@[0] as u8 == b[p + 0]);
}

/// Read a line break.
pub proof fn lemma_read_break(m: Input, i: int, p: int, q: int)
    requires
        tokenized(m),
        at(m, i, p),
        line_break(bytes(m), p, q),
    ensures
        m.kind(i) is Newline,
        i + 1 < m.toks.len(),
        at(m, i + 1, q),
{
    reveal(at);
    lemma_read_newline(m, i, p);
    lemma_next_blanks(bytes(m), m.toks, i + 1, p + 1, q);
}

// ---------------------------------------------------------------------------
// Separators
// ---------------------------------------------------------------------------

/// Whether `p..q` holds only blanks, newlines and `;`, each `;` with a blank or
/// a newline behind it.
pub open spec fn gap(b: Seq<u8>, p: int, q: int) -> bool {
    &&& 0 <= p <= q <= b.len()
    &&& forall|k: int|
        p <= k < q ==> {
            ||| #[trigger] b[k] == ascii::SPACE
            ||| b[k] == ascii::NEWLINE
            ||| b[k] == ascii::SEMI && k + 1 < b.len() && (b[k + 1] == ascii::SPACE || b[k + 1]
                == ascii::NEWLINE)
        }
}

/// Whether something in `p..q` separates statements.
pub open spec fn separates(b: Seq<u8>, p: int, q: int) -> bool {
    exists|k: int| p <= k < q && (#[trigger] b[k] == ascii::NEWLINE || b[k] == ascii::SEMI)
}

/// Read what lies between statements.
pub proof fn lemma_read_gap(m: Input, i: int, p: int, q: int) -> (j: int)
    requires
        tokenized(m),
        at(m, i, p),
        gap(bytes(m), p, q),
    ensures
        i <= j,
        at(m, j, q),
        m.past_separators(i) == m.past_separators(j),
        separates(bytes(m), p, q) ==> i < j && (m.kind(i) is Newline || m.is_op(i, Op::Semi)),
        !separates(bytes(m), p, q) ==> i == j,
    decreases q - p,
{
    lemma_at_bounds(m, i, p);
    let b = bytes(m);
    if p == q {
        i
    } else {
        assert(b[p] == ascii::SPACE || b[p] == ascii::NEWLINE || b[p] == ascii::SEMI);
        if b[p] == ascii::SPACE {
            lemma_at_blank(m, i, p);
            let j = lemma_read_gap(m, i, p + 1, q);
            assert(separates(b, p, q) ==> separates(b, p + 1, q));
            j
        } else if b[p] == ascii::NEWLINE {
            lemma_read_newline(m, i, p);
            lemma_read_gap(m, i + 1, p + 1, q)
        } else {
            lemma_read_op(m, i, p, Op::Semi);
            lemma_read_gap(m, i + 1, p + 1, q)
        }
    }
}

/// Read the line break behind an operator.
pub proof fn lemma_read_newlines(m: Input, i: int, p: int, q: int, mode: Mode) -> (j: int)
    requires
        tokenized(m),
        at(m, i, p),
        laid(bytes(m), DocView::Line, mode, p, q),
    ensures
        i <= j,
        at(m, j, q),
        m.past_newlines(i) == m.past_newlines(j),
{
    if mode == Mode::Flat {
        lemma_at_blank(m, i, p);
        i
    } else {
        lemma_read_break(m, i, p, q);
        i + 1
    }
}

// ---------------------------------------------------------------------------
// Words
// ---------------------------------------------------------------------------

/// The number of a character fits in 32 bits.
pub proof fn lemma_char_number(c: char)
    ensures
        c as u32 as int == c as int,
{
}

/// A text whose first byte is ASCII starts with that character.
pub proof fn lemma_first_byte(t: Seq<char>)
    requires
        t.len() > 0,
        encode_utf8(t)[0] < 0x80,
    ensures
        t[0] as int == encode_utf8(t)[0] as int,
        encode_utf8(t).len() > 0,
        encode_utf8(t).drop_first() == encode_utf8(t.drop_first()),
{
    let u = encode_utf8(t);
    encode_utf8_first_scalar(t);
    let c = u[0];
    assert((c & 0x7f) as u32 == c as u32) by (bit_vector)
        requires
            c < 0x80,
    ;
    let first = encode_scalar(t[0] as u32);
    lemma_char_number(t[0]);
    assert(first.len() == 1);
    assert(u.drop_first() =~= encode_utf8(t.drop_first()));
}

/// A raw word is rendered as its text.
pub proof fn lemma_raw_word_doc(t: Seq<char>)
    ensures
        word_view(raw_word_view(t)) == text_view(t),
{
    let w = raw_word_view(t);
    let docs = crate::printer::parts_view(w.parts);
    let keep = |d: DocView| d !is Nil;
    assert(docs =~= Seq::<DocView>::empty().push(text_view(t)));
    Seq::<DocView>::empty().lemma_filter_push(text_view(t), keep);
    assert(Seq::<DocView>::empty().filter(keep) =~= Seq::<DocView>::empty());
    assert(docs.filter(keep) =~= seq![text_view(t)]);
}

/// Whether the tokens from `i` on are the words `words`.
pub open spec fn words_at(m: Input, i: int, words: Seq<WordView>) -> bool {
    forall|x: int|
        0 <= x < words.len() ==> m.kind(#[trigger] (i + x)) is Word && m.text(i + x) == raw_text(
            words[x],
        )
}

/// Read words with a blank between each pair.
pub proof fn lemma_read_words(
    m: Input,
    i: int,
    p: int,
    q: int,
    mode: Mode,
    words: Seq<WordView>,
)
    requires
        tokenized(m),
        at(m, i, p),
        words.len() > 0,
        good_words(words),
        laid_all(bytes(m), interleave(text_view(" "@), words_view(words)), mode, p, q),
        ends_at(bytes(m), q),
    ensures
        i + words.len() < m.toks.len(),
        at(m, i + words.len(), q),
        words_at(m, i, words),
        m.toks[i + words.len() - 1].end == q,
        m.toks[i].start == p,
    decreases words.len(),
{
    let b = bytes(m);
    let sep = text_view(" "@);
    let docs = words_view(words);
    let n = words.len() as int;
    let last = words[n - 1];
    assert(good_word(last));
    lemma_raw_word_doc(raw_text(last));
    assert(docs.last() == text_view(raw_text(last)));
    if n == 1 {
        assert(interleave(sep, docs) =~= seq![docs[0]]);
        lemma_laid_single(b, docs[0], mode, p, q);
        lemma_read_word(m, i, p, q, raw_text(last));
        assert(words_at(m, i, words)) by {
            assert forall|x: int| 0 <= x < words.len() implies m.kind(#[trigger] (i + x)) is Word
                && m.text(i + x) == raw_text(words[x]) by {
                assert(x == 0);
            }
        }
    } else {
        let front = words.drop_last();
        assert(docs.drop_last() =~= words_view(front));
        let inner = interleave(sep, words_view(front));
        assert(interleave(sep, docs) =~= inner + (seq![sep] + seq![docs.last()]));
        let r1 = lemma_laid_split(b, inner, seq![sep] + seq![docs.last()], mode, p, q);
        let r2 = lemma_laid_split(b, seq![sep], seq![docs.last()], mode, r1, q);
        lemma_laid_single(b, sep, mode, r1, r2);
        lemma_laid_single(b, docs.last(), mode, r2, q);
        lemma_space_text(b, r1, r2);
        assert(good_words(front)) by {
            assert forall|x: int| 0 <= x < front.len() implies good_word(#[trigger] front[x]) by {
                assert(front[x] == words[x]);
            }
        }
        lemma_stops_word(b, r1);
        lemma_read_words(m, i, p, r1, mode, front);
        let j = i + (n - 1);
        lemma_at_blank(m, j, r1);
        lemma_read_word(m, j, r2, q, raw_text(last));
        assert(words_at(m, i, words)) by {
            assert forall|x: int| 0 <= x < words.len() implies m.kind(#[trigger] (i + x)) is Word
                && m.text(i + x) == raw_text(words[x]) by {
                if x < n - 1 {
                    assert(m.text(i + x) == raw_text(front[x]));
                }
            }
        }
    }
}

/// A simple command goes over its words.
pub proof fn lemma_simple_words(m: Input, i: int, words: Seq<WordView>, st: SimpleState)
    requires
        0 <= i,
        words.len() > 0,
        good_words(words),
        words_at(m, i, words),
        i + words.len() < m.toks.len(),
        !m.is_op(i + words.len(), Op::LParen),
        st.args.len() == 0 ==> leads(raw_text(words[0])) && st.redirs.len() == 0,
    ensures
        m.simple(i, st) == m.simple(
            i + words.len(),
            SimpleState {
                args: st.args + words,
                redirs: st.redirs,
                last_arg: Some(
                    (m.toks[i + words.len() - 1].end, raw_text(words[words.len() - 1])),
                ),
            },
        ),
    decreases words.len(),
{
    assert(m.kind(i + 0) is Word && m.text(i + 0) == raw_text(words[0]));
    assert(good_word(words[0]));
    let rest = words.drop_first();
    if rest.len() > 0 {
        assert(m.kind(i + 1) is Word);
    }
    let next = SimpleState {
        args: st.args.push(words[0]),
        redirs: st.redirs,
        last_arg: Some((m.toks[i].end, m.text(i))),
    };
    assert(m.simple(i, st) == m.simple(i + 1, next));
    if rest.len() == 0 {
        assert(st.args.push(words[0]) =~= st.args + words);
    } else {
        assert(good_words(rest)) by {
            assert forall|x: int| 0 <= x < rest.len() implies good_word(#[trigger] rest[x]) by {
                assert(rest[x] == words[x + 1]);
            }
        }
        assert(words_at(m, i + 1, rest)) by {
            assert forall|x: int| 0 <= x < rest.len() implies m.kind(#[trigger] (i + 1 + x)) is Word
                && m.text(i + 1 + x) == raw_text(rest[x]) by {
                assert(m.kind(i + (x + 1)) is Word);
                assert(rest[x] == words[x + 1]);
            }
        }
        lemma_simple_words(m, i + 1, rest, next);
        assert(next.args + rest =~= st.args + words);
        assert(rest[rest.len() - 1] == words[words.len() - 1]);
    }
}

// ---------------------------------------------------------------------------
// Redirections
// ---------------------------------------------------------------------------

/// What the first bytes of a word can be.
pub proof fn lemma_word_start(t: Seq<char>)
    requires
        word_text(t),
    ensures
        t.len() > 0,
        encode_utf8(t).len() > 0,
        operator_at(encode_utf8(t), 0) is None || starts_process_substitution(encode_utf8(t), 0),
        encode_utf8(t)[0] != ascii::NEWLINE,
        encode_utf8(t)[0] == ascii::LESS ==> t.len() >= 2 && t[0] == '<' && t[1] == '(',
        encode_utf8(t)[0] == ascii::GREAT ==> t.len() >= 2 && t[0] == '>' && t[1] == '(',
{
    let u = encode_utf8(t);
    let o = u.push(ascii::SPACE);
    if t.len() == 0 {
        assert(u.len() == 0);
    }
    assert(o[0] == u[0]);
    if u[0] == ascii::LESS || u[0] == ascii::GREAT {
        assert(starts_process_substitution(o, 0));
        assert(o[1] == ascii::LPAREN);
        assert(u.len() >= 2);
        assert(u[1] == ascii::LPAREN);
        lemma_first_byte(t);
        let rest = t.drop_first();
        assert(encode_utf8(rest)[0] == u[1]);
        if rest.len() == 0 {
            assert(encode_utf8(rest).len() == 0);
        }
        lemma_first_byte(rest);
        assert(rest[0] == t[1]);
        assert(t[1] as int == '(' as int);
        assert(t[0] as int == '<' as int || t[0] as int == '>' as int);
    }
}

/// The operator of a redirection is read as itself in front of its target.
pub proof fn lemma_redir_operator(
    b: Seq<u8>,
    p: int,
    r: int,
    q: int,
    op: RedirOperator,
    t: Seq<char>,
)
    requires
        holds(b, encode_utf8(op.spelling()), p, r),
        holds(b, encode_utf8(t), r, q),
        word_text(t),
        !runs_into(op, raw_word_view(t)),
        !is_heredoc_op(TokKind::Op(operator_of(op))),
    ensures
        p < b.len(),
        operator_at(b, p) == Some(operator_of(op)),
        r == p + operator_of(op).spelling().len(),
        !starts_process_substitution(b, p),
        redirects(operator_of(op)),
        redir_operator(operator_of(op)) == op,
        b[p] == ascii::LESS || b[p] == ascii::GREAT || b[p] == ascii::AMP,
        byte_at(b, p + 1) != ascii::LPAREN,
{
    reveal_strlit("<");
    reveal_strlit(">");
    reveal_strlit(">>");
    reveal_strlit("<&");
    reveal_strlit(">&");
    reveal_strlit("<>");
    reveal_strlit(">|");
    reveal_strlit("&>");
    reveal_strlit("&>>");
    reveal_strlit("<<<");
    let s = op.spelling();
    assert(is_ascii_chars(s)) by {
        assert forall|k: int| 0 <= k < s.len() implies '\0' <= #[trigger] s[k] <= '\u{7f}' by {}
    }
    lemma_ascii_holds(b, s, p, r);
    lemma_word_start(t);
    assert(s[0] as u8 == b[p + 0]);
    if s.len() >= 2 {
        assert(s[1] as u8 == b[p + 1]);
    }
    if s.len() >= 3 {
        assert(s[2] as u8 == b[p + 2]);
    }
    assert(b[r] == encode_utf8(t)[r - r]);
}

/// What the parser is to see of a redirection from token `i` on, with the file
/// descriptor in front; `j` is the token behind it.
pub open spec fn redir_at(m: Input, i: int, p: int, r: RedirectView, j: int) -> bool {
    let k = if r.n is Some {
        i + 1
    } else {
        i
    };
    &&& m.is_op(k, operator_of(r.op))
    &&& redirects(operator_of(r.op))
    &&& m.kind(k + 1) is Word
    &&& m.text(k + 1) == raw_text(r.word->Some_0)
    &&& j == k + 2
    &&& m.toks[i].start == p
    &&& r.n matches Some(l) ==> m.kind(i) is Word && m.text(i) == l.value && m.toks[i].end
        == m.toks[i + 1].start
}

/// Read a redirection.
pub proof fn lemma_read_redir(m: Input, i: int, p: int, q: int, mode: Mode, r: RedirectView) -> (j: int)
    requires
        tokenized(m),
        at(m, i, p),
        laid(bytes(m), redir_view(r), mode, p, q),
        good_redir(r),
        apart_redir(r),
        stops(bytes(m), q),
    ensures
        i < j < m.toks.len(),
        at(m, j, q),
        redir_at(m, i, p, r, j),
{
    let b = bytes(m);
    let t = raw_text(r.word->Some_0);
    let op = operator_of(r.op);
    let n_docs = match r.n {
        Some(n) => seq![text_view(n.value)],
        None => seq![],
    };
    let op_docs = seq![text_view(r.op.spelling())];
    let word_docs = seq![word_view(r.word->Some_0)];
    lemma_laid_concat(b, n_docs + op_docs + word_docs, mode, p, q);
    let r2 = lemma_laid_split(b, n_docs + op_docs, word_docs, mode, p, q);
    let r1 = lemma_laid_split(b, n_docs, op_docs, mode, p, r2);
    lemma_laid_single(b, text_view(r.op.spelling()), mode, r1, r2);
    lemma_raw_word_doc(t);
    lemma_laid_single(b, text_view(t), mode, r2, q);
    lemma_redir_operator(b, r1, r2, q, r.op, t);
    let k = match r.n {
        Some(l) => {
            lemma_laid_single(b, text_view(l.value), mode, p, r1);
            assert(ends_at(b, r1));
            lemma_read_word(m, i, p, r1, l.value);
            i + 1
        },
        None => i,
    };
    lemma_read_op(m, k, r1, op);
    lemma_stops_word(b, q);
    lemma_read_word(m, k + 1, r2, q, t);
    k + 2
}

/// A simple command goes over a redirection.
pub proof fn lemma_simple_redir(m: Input, i: int, p: int, r: RedirectView, j: int, st: SimpleState)
    requires
        0 <= i < j < m.toks.len(),
        redir_at(m, i, p, r, j),
        good_redir(r),
        st.last_arg matches Some((e, _)) ==> e < p,
    ensures
        m.simple(i, st) == m.simple(
            j,
            SimpleState { args: st.args, redirs: st.redirs.push(r), last_arg: None },
        ),
{
    let t = raw_text(r.word->Some_0);
    let op = operator_of(r.op);
    match r.n {
        Some(l) => {
            lemma_fd_leads(l.value);
            let next = SimpleState {
                args: st.args.push(raw_word_view(l.value)),
                redirs: st.redirs,
                last_arg: Some((m.toks[i].end, l.value)),
            };
            assert(m.simple(i, st) == m.simple(i + 1, next));
            assert(next.args.drop_last() =~= st.args);
            assert(m.redirect(i + 1) == Ok::<(RedirectView, int), Fault>(
                (redirect_view(op, t), i + 3),
            ));
        },
        None => {
            assert(m.redirect(i) == Ok::<(RedirectView, int), Fault>(
                (redirect_view(op, t), i + 2),
            ));
        },
    }
}

/// The last of several redirections, with the blank before it.
pub proof fn lemma_last_redir(b: Seq<u8>, p: int, q: int, mode: Mode, redirs: Seq<RedirectView>) -> (r:
    int)
    requires
        redirs.len() > 0,
        laid_all(b, spaced(redirs_view(redirs)), mode, p, q),
    ensures
        laid_all(b, spaced(redirs_view(redirs.drop_last())), mode, p, r),
        0 <= r < b.len(),
        b[r] == ascii::SPACE,
        laid(b, redir_view(redirs.last()), mode, r + 1, q),
{
    let docs = redirs_view(redirs);
    assert(docs.drop_last() =~= redirs_view(redirs.drop_last()));
    let inner = spaced(docs.drop_last());
    let sp = text_view(" "@);
    assert(spaced(docs) =~= inner + (seq![sp] + seq![docs.last()]));
    let r1 = lemma_laid_split(b, inner, seq![sp] + seq![docs.last()], mode, p, q);
    let r2 = lemma_laid_split(b, seq![sp], seq![docs.last()], mode, r1, q);
    lemma_laid_single(b, sp, mode, r1, r2);
    lemma_laid_single(b, docs.last(), mode, r2, q);
    lemma_space_text(b, r1, r2);
    r1
}

/// A file descriptor is no keyword.
pub proof fn lemma_fd_leads(t: Seq<char>)
    requires
        fd_text(t),
    ensures
        !shell_keyword(t),
{
    reveal_strlit("{");
    reveal_strlit("if");
    reveal_strlit("while");
    reveal_strlit("until");
    reveal_strlit("for");
    reveal_strlit("[[");
    reveal_strlit("case");
    reveal_strlit("select");
    reveal_strlit("function");
    reveal_strlit("coproc");
    reveal_strlit("time");
    reveal_strlit("!");
    reveal_strlit("}");
    reveal_strlit("then");
    reveal_strlit("elif");
    reveal_strlit("else");
    reveal_strlit("fi");
    reveal_strlit("do");
    reveal_strlit("done");
    reveal_strlit("esac");
    assert(t.len() > 0);
    assert(t[0] == '{' || '0' <= t[0] <= '9');
}

/// All but the last of several redirections.
pub proof fn lemma_front_redirs(redirs: Seq<RedirectView>)
    requires
        redirs.len() > 0,
        good_redirs(redirs),
        apart_redirs(redirs),
    ensures
        good_redirs(redirs.drop_last()),
        apart_redirs(redirs.drop_last()),
        apart_redir(redirs.last()),
{
    let front = redirs.drop_last();
    assert forall|x: int| 0 <= x < front.len() implies good_redir(#[trigger] front[x])
        && apart_redir(front[x]) by {
        assert(front[x] == redirs[x]);
    }
}

/// Read redirections, a blank before each, in a simple command.
#[verifier::rlimit(30)]
pub proof fn lemma_simple_redirs(
    m: Input,
    i: int,
    p: int,
    q: int,
    mode: Mode,
    redirs: Seq<RedirectView>,
    st: SimpleState,
) -> (j: int)
    requires
        tokenized(m),
        at(m, i, p),
        good_redirs(redirs),
        apart_redirs(redirs),
        laid_all(bytes(m), spaced(redirs_view(redirs)), mode, p, q),
        stops(bytes(m), q),
        st.last_arg matches Some((e, _)) ==> e <= p,
    ensures
        i <= j < m.toks.len(),
        redirs.len() > 0 ==> i < j,
        at(m, j, q),
        m.simple(i, st) == m.simple(
            j,
            SimpleState {
                args: st.args,
                redirs: st.redirs + redirs,
                last_arg: if redirs.len() == 0 {
                    st.last_arg
                } else {
                    None
                },
            },
        ),
        redirs.len() > 0 ==> redir_leads(m, i, redirs[0]),
        redirs.len() == 0 ==> p == q && i == j,
        stops(bytes(m), p),
    decreases redirs.len(),
{
    lemma_at_bounds(m, i, p);
    let b = bytes(m);
    let n = redirs.len() as int;
    if n == 0 {
        assert(st.redirs + redirs =~= st.redirs);
        i
    } else {
        let front = redirs.drop_last();
        let last = redirs[n - 1];
        let r1 = lemma_last_redir(b, p, q, mode, redirs);
        let r2 = r1 + 1;
        lemma_front_redirs(redirs);
        let k = lemma_simple_redirs(m, i, p, r1, mode, front, st);
        lemma_at_blank(m, k, r1);
        assert(good_redir(last));
        let j = lemma_read_redir(m, k, r2, q, mode, last);
        let mid = SimpleState {
            args: st.args,
            redirs: st.redirs + front,
            last_arg: if front.len() == 0 {
                st.last_arg
            } else {
                None
            },
        };
        lemma_simple_redir(m, k, r2, last, j, mid);
        assert((st.redirs + front).push(last) =~= st.redirs + redirs);
        if n > 1 {
            assert(front[0] == redirs[0]);
        }
        j
    }
}

/// Whether the redirection `r` is what starts at token `i`.
pub open spec fn redir_leads(m: Input, i: int, r: RedirectView) -> bool {
    match r.n {
        Some(l) => m.kind(i) is Word && m.text(i) == l.value && fd_text(l.value),
        None => m.is_op(i, operator_of(r.op)) && redirects(operator_of(r.op)),
    }
}

} // verus!
