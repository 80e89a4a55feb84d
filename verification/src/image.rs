//! What the parser builds: every tree that it gives is a good one, in the sense
//! of [`good_list`].

use vstd::prelude::*;
use vstd::string::*;
use vstd::utf8::*;
use crate::ast::{BlockView, CallExprView, CommandView, RedirectView, StmtView, SubshellView};
use crate::lexer::{Fault, Op, TokKind, has_heredoc, is_heredoc_op, parens_at, resumed, token_wf,
    waiting};
use crate::parser::{Input, Parsed, SimpleState, Stop, absent, binary_view, fd_text, for_view,
    if_view, present, raw_word_view, redirects, takes_fd, while_view};
use crate::reading::{lemma_group_tokens, next_at, plain_token, word_text};
use crate::reparse::{lemma_close_forward, lemma_past_byte, nothing_yet};
use crate::stable::{arith_span, arith_text, bang_first, bytes, clean, for_items, good_call,
    good_command, good_list, good_redir, good_redirs, good_stmt, good_tail, good_word, good_words,
    leads, opaque_at, opaque_call, operator_of, quiet, raw_text, sealed, span_text, test_span,
    test_text, tokenized};

verus! {

/// Whether every word of `n` is read as one word by itself.
pub open spec fn wordy(n: Input) -> bool {
    forall|i: int|
        0 <= i < n.toks.len() && #[trigger] n.toks[i].kind is Word ==> word_text(n.text(i))
}

/// Whether `n` is clean, wordy and sealed.
#[verifier::opaque]
pub open spec fn source(n: Input) -> bool {
    clean(n) && wordy(n) && sealed(n)
}

/// The last token is the end; no other is.
proof fn lemma_not_last(n: Input, i: int)
    requires
        source(n),
        n.kind(i) !is Eof,
    ensures
        0 <= i < n.toks.len() - 1,
        n.kind(i) is Word ==> word_text(n.text(i)),
{
    reveal(source);
    reveal(clean);
    reveal(tokenized);
}

proof fn lemma_good_raw(t: Seq<char>)
    requires
        word_text(t),
    ensures
        good_word(raw_word_view(t)),
        raw_text(raw_word_view(t)) == t,
{
}

// ---------------------------------------------------------------------------
// Redirections and simple commands
// ---------------------------------------------------------------------------

/// A redirection.
proof fn lemma_redirect_good(n: Input, i: int)
    requires
        source(n),
        n.redirect(i) is Ok,
        !is_heredoc_op(n.kind(i)),
    ensures
        n.redirect(i)->Ok_0.1 == i + 2,
        0 <= i && i + 2 < n.toks.len(),
        good_redir(n.redirect(i)->Ok_0.0),
        n.redirect(i)->Ok_0.0.n is None,
        n.kind(i) == TokKind::Op(operator_of(n.redirect(i)->Ok_0.0.op)),
{
    lemma_not_last(n, i);
    lemma_not_last(n, i + 1);
    lemma_good_raw(n.text(i + 1));
}

/// The redirections behind a compound command.
proof fn lemma_trailing_good(n: Input, i: int)
    requires
        source(n),
        0 <= i < n.toks.len(),
        n.trailing_redirs(i) is Ok,
    ensures
        i <= n.trailing_redirs(i)->Ok_0.1 < n.toks.len(),
        good_redirs(n.trailing_redirs(i)->Ok_0.0),
    decreases n.toks.len() - i,
{
    let fd = n.fd_at(i);
    if fd {
        lemma_not_last(n, i);
        lemma_good_raw(n.text(i));
    }
    let at = if fd {
        i + 1
    } else {
        i
    };
    match n.kind(at) {
        TokKind::Op(op) if redirects(op) => {
            lemma_redirect_good(n, at);
            let r = n.redirect(at)->Ok_0.0;
            let r2 = RedirectView {
                n: if fd {
                    Some(crate::parser::lit_view(n.text(i)))
                } else {
                    None
                },
                ..r
            };
            assert(good_redir(r2));
            lemma_trailing_good(n, at + 2);
            let rest = n.trailing_redirs(at + 2)->Ok_0.0;
            let all = seq![r2] + rest;
            assert forall|x: int| 0 <= x < all.len() implies good_redir(#[trigger] all[x]) by {
                if x > 0 {
                    assert(all[x] == rest[x - 1]);
                }
            }
        },
        _ => {},
    }
}

/// Whether the words and redirections read so far are good.
pub open spec fn good_state(st: SimpleState) -> bool {
    &&& good_words(st.args)
    &&& good_redirs(st.redirs)
    &&& st.args.len() > 0 ==> leads(raw_text(st.args[0]))
    &&& st.last_arg matches Some((_, t)) ==> st.args.len() > 0 && st.args.last() == raw_word_view(t)
}

/// One more word.
proof fn lemma_state_word(st: SimpleState, end: int, t: Seq<char>)
    requires
        good_state(st),
        word_text(t),
        st.args.len() == 0 ==> leads(t),
    ensures
        good_state(
            SimpleState {
                args: st.args.push(raw_word_view(t)),
                redirs: st.redirs,
                last_arg: Some((end, t)),
            },
        ),
{
    lemma_good_raw(t);
    let all = st.args.push(raw_word_view(t));
    assert forall|x: int| 0 <= x < all.len() implies good_word(#[trigger] all[x]) by {
        if x < st.args.len() {
            assert(all[x] == st.args[x]);
        }
    }
}

/// One more redirection, with or without a file descriptor.
proof fn lemma_state_redir(st: SimpleState, r: RedirectView, fd: bool)
    requires
        good_state(st),
        good_redir(r),
        r.n is None,
        fd ==> st.last_arg is Some && fd_text(st.last_arg->Some_0.1) && takes_fd(operator_of(r.op)),
    ensures
        good_state(
            SimpleState {
                args: if fd {
                    st.args.drop_last()
                } else {
                    st.args
                },
                redirs: st.redirs.push(
                    RedirectView {
                        n: if fd {
                            Some(crate::parser::lit_view(st.last_arg->Some_0.1))
                        } else {
                            None
                        },
                        ..r
                    },
                ),
                last_arg: None,
            },
        ),
{
    let t = st.last_arg->Some_0.1;
    let r2 = RedirectView {
        n: if fd {
            Some(crate::parser::lit_view(t))
        } else {
            None
        },
        ..r
    };
    if fd {
        assert(good_word(st.args[st.args.len() - 1]));
        assert(raw_text(raw_word_view(t)) == t);
        let front = st.args.drop_last();
        assert forall|x: int| 0 <= x < front.len() implies good_word(#[trigger] front[x]) by {
            assert(front[x] == st.args[x]);
        }
    } else {
        assert(r2 == r);
    }
    assert(good_redir(r2));
    let all = st.redirs.push(r2);
    assert forall|x: int| 0 <= x < all.len() implies good_redir(#[trigger] all[x]) by {
        if x < st.redirs.len() {
            assert(all[x] == st.redirs[x]);
        }
    }
}

/// A simple command.
proof fn lemma_simple_good(n: Input, i: int, st: SimpleState)
    requires
        source(n),
        0 <= i < n.toks.len(),
        good_state(st),
        n.simple(i, st) is Ok,
    ensures
        i <= n.simple(i, st)->Ok_0.1 < n.toks.len(),
        st.args.len() + st.redirs.len() == 0 ==> i < n.simple(i, st)->Ok_0.1,
        good_command(n, n.simple(i, st)->Ok_0.0.0, n.simple(i, st)->Ok_0.0.1),
        n.simple(i, st)->Ok_0.0.0 is Call,
        bang_first(n, n.simple(i, st)->Ok_0.0.0) ==> {
            ||| st.args.len() > 0 && raw_text(st.args[0]) == "!"@
            ||| st.args.len() + st.redirs.len() == 0 && n.is_word(i, "!"@)
        },
    decreases n.toks.len() - i,
{
    match n.kind(i) {
        TokKind::Word => {
            lemma_not_last(n, i);
            lemma_state_word(st, n.toks[i].end, n.text(i));
            lemma_simple_good(
                n,
                i + 1,
                SimpleState {
                    args: st.args.push(raw_word_view(n.text(i))),
                    redirs: st.redirs,
                    last_arg: Some((n.toks[i].end, n.text(i))),
                },
            );
        },
        TokKind::Op(op) if redirects(op) => {
            lemma_not_last(n, i);
            if n.redirect(i) is Ok {
                lemma_redirect_good(n, i);
                let r = n.redirect(i)->Ok_0.0;
                let fd = st.last_arg is Some && n.names_fd(
                    i,
                    st.last_arg->Some_0.0,
                    st.last_arg->Some_0.1,
                );
                lemma_state_redir(st, r, fd);
                lemma_simple_good(
                    n,
                    i + 2,
                    SimpleState {
                        args: if fd {
                            st.args.drop_last()
                        } else {
                            st.args
                        },
                        redirs: st.redirs.push(
                            RedirectView {
                                n: if fd {
                                    Some(crate::parser::lit_view(st.last_arg->Some_0.1))
                                } else {
                                    None
                                },
                                ..r
                            },
                        ),
                        last_arg: None,
                    },
                );
            }
        },
        _ => {
            if st.args.len() + st.redirs.len() > 0 {
                let c = CallExprView { assigns: seq![], args: st.args };
                assert(crate::parser::call_view(st.args) == CommandView::Call(c));
                assert(good_call(n, c, st.redirs));
            }
        },
    }
}

// ---------------------------------------------------------------------------
// Opaque commands
// ---------------------------------------------------------------------------

/// A `[[ … ]]`.
proof fn lemma_test_good(n: Input, i: int)
    requires
        source(n),
        n.is_word(i, "[["@),
        n.test_opaque(i) is Ok,
    ensures
        i < n.test_opaque(i)->Ok_0.1 < n.toks.len(),
        n.test_opaque(i)->Ok_0.0 matches CommandView::Call(c) && opaque_call(n, c) && c.assigns
            == Seq::<crate::ast::AssignView>::empty(),
{
    lemma_not_last(n, i);
    lemma_close_forward(n, i + 1);
    let j = n.test_close(i + 1)->Some_0;
    lemma_not_last(n, j);
    lemma_sealed(n, i, j + 1);
    assert(test_span(n, i, j + 1));
    let t = span_text(n, i, j + 1);
    assert(test_text(n, t));
    let c = CallExprView { assigns: seq![], args: seq![raw_word_view(t)] };
    assert(n.test_opaque(i)->Ok_0.0 == CommandView::Call(c));
    assert(raw_text(c.args[0]) == t);
}

/// A `(( … ))`.
proof fn lemma_arith_good(n: Input, i: int)
    requires
        source(n),
        n.is_op(i, Op::LParen),
        n.is_op(i + 1, Op::LParen),
        n.toks[i + 1].start == n.toks[i].end,
        n.arith_opaque(i) is Ok,
    ensures
        i < n.arith_opaque(i)->Ok_0.1 < n.toks.len(),
        n.arith_opaque(i)->Ok_0.0 matches CommandView::Call(c) && opaque_call(n, c) && c.assigns
            == Seq::<crate::ast::AssignView>::empty(),
{
    lemma_not_last(n, i);
    lemma_not_last(n, i + 1);
    let k = n.arith_opaque(i)->Ok_0.1;
    lemma_sealed(n, i, k);
    lemma_past_byte_inside(n, i, n.toks[k - 1].end);
    assert(arith_span(n, i, k));
    let t = span_text(n, i, k);
    assert(arith_text(n, t));
    let c = CallExprView { assigns: seq![], args: seq![raw_word_view(t)] };
    assert(n.arith_opaque(i)->Ok_0.0 == CommandView::Call(c));
    assert(raw_text(c.args[0]) == t);
}

/// What the parser cuts out verbatim is whole.
proof fn lemma_sealed(n: Input, a: int, c: int)
    requires
        source(n),
        opaque_at(n, a, c),
    ensures
        quiet(n, a),
        quiet(n, c),
        n.is_op(a, Op::LParen) ==> a + 1 < c && n.is_op(c - 1, Op::RParen) && parens_at(
            bytes(n),
            n.toks[a].start,
        ) == Ok::<int, Fault>(n.toks[c - 1].end),
{
    reveal(source);
}

/// The search for the first token from a byte on stays inside.
proof fn lemma_past_byte_inside(n: Input, i: int, end: int)
    requires
        source(n),
        0 <= i < n.toks.len(),
    ensures
        i <= n.past_byte(i, end) < n.toks.len(),
    decreases n.toks.len() - i,
{
    if n.kind(i) !is Eof && n.toks[i].start < end {
        lemma_not_last(n, i);
        lemma_past_byte_inside(n, i + 1, end);
    }
}

// ---------------------------------------------------------------------------
// Commands without heredocs
// ---------------------------------------------------------------------------

/// With no heredoc operator before it, nothing waits for a body.
proof fn lemma_quiet(n: Input, i: int)
    requires
        !has_heredoc(n.toks, i),
    ensures
        quiet(n, i),
    decreases i,
{
    if i > 0 {
        if has_heredoc(n.toks, i - 1) {
            let x = choose|x: int| 0 <= x < i - 1 && is_heredoc_op((#[trigger] n.toks[x]).kind);
            assert(is_heredoc_op(n.toks[x].kind));
        }
        lemma_quiet(n, i - 1);
        if is_heredoc_op(n.toks[i - 1].kind) {
            assert(has_heredoc(n.toks, i));
        }
        assert(waiting(bytes(n), n.toks, i - 1) =~= seq![]);
    }
}

/// The last token of a `(( … ))`.
proof fn lemma_arith_tokens_end(n: Input, i: int) -> (k: int)
    requires
        clean(n),
        forall|x: int| 0 <= x < n.toks.len() ==> #[trigger] plain_token(n.toks, x),
        0 <= i < n.toks.len() - 2,
        n.is_op(i, Op::LParen),
        n.is_op(i + 1, Op::LParen),
        n.toks[i + 1].start == n.toks[i].end,
        parens_at(bytes(n), n.toks[i].start) is Ok,
        quiet(n, i + 1),
    ensures
        i + 1 < k < n.toks.len(),
        n.is_op(k - 1, Op::RParen),
        parens_at(bytes(n), n.toks[i].start) == Ok::<int, Fault>(n.toks[k - 1].end),
        n.past_byte(i, n.toks[k - 1].end) == k,
{
    reveal(clean);
    reveal(tokenized);
    let b = bytes(n);
    let s = n.toks[i].start;
    let end = parens_at(b, s)->Ok_0;
    assert(token_wf(b, n.toks[i]));
    assert(resumed(b, n.toks, i + 1));
    assert(next_at(b, n.toks, i + 1, s + 1));
    let k = lemma_group_tokens(b, n.toks, s, i + 1, s + 1, 1, end);
    assert forall|x: int| i <= x < k implies (#[trigger] n.toks[x]).start < end by {
        if x == i {
            assert(n.toks[i + 1].start < end);
            assert(n.toks[i].end <= n.toks[i + 1].start);
        }
    }
    crate::lexer::lemma_past_blanks(b, end);
    lemma_past_byte(n, i, k, end);
    k
}

/// What the parser cuts out of a command without heredocs is whole.
pub proof fn lemma_sealed_without_heredocs(n: Input)
    requires
        clean(n),
        !has_heredoc(n.toks, n.toks.len() as int),
    ensures
        sealed(n),
{
    assert forall|x: int| 0 <= x < n.toks.len() implies #[trigger] plain_token(n.toks, x) by {
        reveal(clean);
        if is_heredoc_op(n.toks[x].kind) {
            assert(has_heredoc(n.toks, n.toks.len() as int));
        }
    }
    assert forall|a: int, c: int| #[trigger] opaque_at(n, a, c) implies {
        &&& quiet(n, a)
        &&& quiet(n, c)
        &&& n.is_op(a, Op::LParen) ==> a + 1 < c && n.is_op(c - 1, Op::RParen) && parens_at(
            bytes(n),
            n.toks[a].start,
        ) == Ok::<int, Fault>(n.toks[c - 1].end)
    } by {
        lemma_opaque_inside(n, a, c);
        lemma_fewer_heredocs(n, a);
        lemma_fewer_heredocs(n, c);
        lemma_quiet(n, a);
        lemma_quiet(n, c);
        if n.is_op(a, Op::LParen) {
            lemma_fewer_heredocs(n, a + 1);
            lemma_quiet(n, a + 1);
            let _ = lemma_arith_tokens_end(n, a);
        }
    }
}

proof fn lemma_fewer_heredocs(n: Input, i: int)
    requires
        !has_heredoc(n.toks, n.toks.len() as int),
        i <= n.toks.len(),
    ensures
        !has_heredoc(n.toks, i),
{
    if has_heredoc(n.toks, i) {
        let x = choose|x: int| 0 <= x < i && is_heredoc_op((#[trigger] n.toks[x]).kind);
        assert(is_heredoc_op(n.toks[x].kind));
    }
}

/// What the parser cuts out lies between the first token and the last.
proof fn lemma_opaque_inside(n: Input, a: int, c: int)
    requires
        clean(n),
        opaque_at(n, a, c),
    ensures
        0 <= a,
        c <= n.toks.len(),
        n.is_op(a, Op::LParen) ==> a < n.toks.len() - 2,
{
    reveal(clean);
    reveal(tokenized);
    if n.is_op(a, Op::LParen) {
        lemma_past_byte_bound(n, a, parens_at(bytes(n), n.toks[a].start)->Ok_0);
    } else {
        lemma_close_forward(n, a + 1);
    }
}

proof fn lemma_past_byte_bound(n: Input, i: int, end: int)
    requires
        0 <= i <= n.toks.len(),
    ensures
        n.past_byte(i, end) <= n.toks.len(),
    decreases n.toks.len() - i,
{
    if n.kind(i) !is Eof && n.toks[i].start < end {
        lemma_past_byte_bound(n, i + 1, end);
    }
}

// ---------------------------------------------------------------------------
// Statements
// ---------------------------------------------------------------------------

/// A list of statements.
proof fn lemma_list_good(n: Input, i: int, stop: Stop)
    requires
        source(n),
        0 <= i < n.toks.len(),
        n.list(i, stop) is Ok,
    ensures
        i <= n.list(i, stop)->Ok_0.1 < n.toks.len(),
        good_list(n, n.list(i, stop)->Ok_0.0),
        ({
            let e = n.list(i, stop)->Ok_0.1;
            n.kind(e) is Eof || n.at_stop(e, stop)
        }),
    decreases n.toks.len() - i, 9int,
{
    let j = n.past_separators(i);
    n.lemma_past_separators(i);
    lemma_separators_end(n, i);
    if !(n.kind(j) is Eof || n.at_stop(j, stop)) {
        lemma_item_good(n, j, stop);
        let (s, k) = n.list_item(j, stop)->Ok_0;
        lemma_list_good(n, k, stop);
        let rest = n.list(k, stop)->Ok_0.0;
        let all = seq![s] + rest;
        assert(all.drop_first() =~= rest);
        assert(all[0] == s);
        assert(good_list(n, all));
    }
}

/// Separators end before the end of the input.
proof fn lemma_separators_end(n: Input, i: int)
    requires
        source(n),
        0 <= i < n.toks.len(),
    ensures
        i <= n.past_separators(i) < n.toks.len(),
    decreases n.toks.len() - i,
{
    if n.kind(i) is Newline || n.is_op(i, Op::Semi) {
        lemma_not_last(n, i);
        lemma_separators_end(n, i + 1);
    }
}

proof fn lemma_newlines_end(n: Input, i: int)
    requires
        source(n),
        0 <= i < n.toks.len(),
    ensures
        i <= n.past_newlines(i) < n.toks.len(),
    decreases n.toks.len() - i,
{
    if n.kind(i) is Newline {
        lemma_not_last(n, i);
        lemma_newlines_end(n, i + 1);
    }
}

/// Whether a statement does not depend on being in the background.
proof fn lemma_background_good(n: Input, s: StmtView)
    requires
        good_stmt(n, s, 2),
    ensures
        good_stmt(n, StmtView { background: true, ..s }, 2),
{
}

/// A statement of a list.
proof fn lemma_item_good(n: Input, i: int, stop: Stop)
    requires
        source(n),
        0 <= i < n.toks.len(),
        n.list_item(i, stop) is Ok,
    ensures
        i < n.list_item(i, stop)->Ok_0.1 < n.toks.len(),
        good_stmt(n, n.list_item(i, stop)->Ok_0.0, 2),
    decreases n.toks.len() - i, 8int,
{
    lemma_and_or_good(n, i);
    let (s, j) = n.and_or(i)->Ok_0;
    lemma_background_good(n, s);
    if n.kind(j) !is Eof {
        lemma_not_last(n, j);
    }
}

/// A chain of pipelines.
proof fn lemma_and_or_good(n: Input, i: int)
    requires
        source(n),
        0 <= i < n.toks.len(),
        n.and_or(i) is Ok,
    ensures
        i < n.and_or(i)->Ok_0.1 < n.toks.len(),
        good_stmt(n, n.and_or(i)->Ok_0.0, 2),
        !n.and_or(i)->Ok_0.0.background,
    decreases n.toks.len() - i, 7int,
{
    lemma_pipeline_good(n, i);
    let (left, j) = n.pipeline(i)->Ok_0;
    lemma_level(n, left, 1, 2);
    lemma_and_or_rest_good(n, left, j);
}

/// A pipeline is a list item, and a command a pipeline.
proof fn lemma_level(n: Input, s: StmtView, level: int, above: int)
    requires
        good_stmt(n, s, level),
        level <= above,
    ensures
        good_stmt(n, s, above),
{
}

/// A chain out of two statements.
proof fn lemma_binary_good(
    n: Input,
    op: crate::ast::BinCmdOperator,
    x: StmtView,
    y: StmtView,
    level: int,
)
    requires
        !x.background,
        !y.background,
        match op {
            crate::ast::BinCmdOperator::AndStmt | crate::ast::BinCmdOperator::OrStmt => level == 2
                && good_stmt(n, x, 2) && good_stmt(n, y, 1),
            _ => level == 1 && good_stmt(n, x, 1) && good_stmt(n, y, 0),
        },
    ensures
        good_stmt(n, binary_view(op, x, y), level),
{
}

proof fn lemma_and_or_rest_good(n: Input, left: StmtView, i: int)
    requires
        source(n),
        0 <= i < n.toks.len(),
        good_stmt(n, left, 2),
        !left.background,
        n.and_or_rest(left, i) is Ok,
    ensures
        i <= n.and_or_rest(left, i)->Ok_0.1 < n.toks.len(),
        good_stmt(n, n.and_or_rest(left, i)->Ok_0.0, 2),
        !n.and_or_rest(left, i)->Ok_0.0.background,
    decreases n.toks.len() - i, 7int,
{
    if n.is_op(i, Op::AndIf) || n.is_op(i, Op::OrIf) {
        lemma_not_last(n, i);
        let op = if n.is_op(i, Op::AndIf) {
            crate::ast::BinCmdOperator::AndStmt
        } else {
            crate::ast::BinCmdOperator::OrStmt
        };
        lemma_newlines_end(n, i + 1);
        let k = n.past_newlines(i + 1);
        lemma_pipeline_good(n, k);
        let (right, j) = n.pipeline(k)->Ok_0;
        lemma_binary_good(n, op, left, right, 2);
        lemma_and_or_rest_good(n, binary_view(op, left, right), j);
    }
}

/// A pipeline.
proof fn lemma_pipeline_good(n: Input, i: int)
    requires
        source(n),
        0 <= i < n.toks.len(),
        n.pipeline(i) is Ok,
    ensures
        i < n.pipeline(i)->Ok_0.1 < n.toks.len(),
        good_stmt(n, n.pipeline(i)->Ok_0.0, 1),
        !n.pipeline(i)->Ok_0.0.background,
    decreases n.toks.len() - i, 6int,
{
    lemma_command_stmt_good(n, i);
    let (left, j) = n.command_stmt(i)->Ok_0;
    lemma_level(n, left, 0, 1);
    lemma_pipeline_rest_good(n, left, j);
}

proof fn lemma_pipeline_rest_good(n: Input, left: StmtView, i: int)
    requires
        source(n),
        0 <= i < n.toks.len(),
        good_stmt(n, left, 1),
        !left.background,
        n.pipeline_rest(left, i) is Ok,
    ensures
        i <= n.pipeline_rest(left, i)->Ok_0.1 < n.toks.len(),
        good_stmt(n, n.pipeline_rest(left, i)->Ok_0.0, 1),
        !n.pipeline_rest(left, i)->Ok_0.0.background,
    decreases n.toks.len() - i, 6int,
{
    if n.is_op(i, Op::Pipe) || n.is_op(i, Op::PipeAmp) {
        lemma_not_last(n, i);
        let op = if n.is_op(i, Op::Pipe) {
            crate::ast::BinCmdOperator::Pipe
        } else {
            crate::ast::BinCmdOperator::PipeAll
        };
        lemma_newlines_end(n, i + 1);
        let k = n.past_newlines(i + 1);
        lemma_command_stmt_good(n, k);
        let (right, j) = n.command_stmt(k)->Ok_0;
        lemma_binary_good(n, op, left, right, 1);
        lemma_pipeline_rest_good(n, binary_view(op, left, right), j);
    }
}

/// A single command.
proof fn lemma_command_stmt_good(n: Input, i: int)
    requires
        source(n),
        0 <= i < n.toks.len(),
        n.command_stmt(i) is Ok,
    ensures
        i < n.command_stmt(i)->Ok_0.1 < n.toks.len(),
        good_stmt(n, n.command_stmt(i)->Ok_0.0, 0),
        !n.command_stmt(i)->Ok_0.0.background,
    decreases n.toks.len() - i, 5int,
{
    let negated = n.is_word(i, "!"@);
    if negated {
        lemma_not_last(n, i);
    }
    let k = if negated {
        i + 1
    } else {
        i
    };
    lemma_command_good(n, k);
}

/// A command with its redirections.
proof fn lemma_command_good(n: Input, i: int)
    requires
        source(n),
        0 <= i < n.toks.len(),
        n.command(i) is Ok,
    ensures
        i < n.command(i)->Ok_0.1 < n.toks.len(),
        good_command(n, n.command(i)->Ok_0.0.0, n.command(i)->Ok_0.0.1),
        n.command(i)->Ok_0.0.0 !is Binary,
        bang_first(n, n.command(i)->Ok_0.0.0) ==> n.is_word(i, "!"@),
    decreases n.toks.len() - i, 4int,
{
    if n.is_op(i, Op::LParen) {
        lemma_not_last(n, i);
        if n.is_op(i + 1, Op::LParen) && n.toks[i + 1].start == n.toks[i].end {
            lemma_arith_good(n, i);
            lemma_redirected_good(n, i, n.arith_opaque(i));
        } else {
            lemma_subshell_good(n, i);
            lemma_redirected_good(n, i, n.subshell(i));
        }
    } else if n.is_word(i, "{"@) {
        lemma_block_good(n, i);
        lemma_redirected_good(n, i, n.block(i));
    } else if n.is_word(i, "if"@) {
        lemma_if_good(n, i);
        lemma_redirected_good(n, i, n.if_clause(i));
    } else if n.is_word(i, "while"@) {
        lemma_while_good(n, i, false);
        lemma_redirected_good(n, i, n.while_clause(i, false));
    } else if n.is_word(i, "until"@) {
        lemma_while_good(n, i, true);
        lemma_redirected_good(n, i, n.while_clause(i, true));
    } else if n.is_word(i, "for"@) {
        lemma_for_good(n, i);
        lemma_redirected_good(n, i, n.for_clause(i));
    } else if n.is_word(i, "[["@) {
        lemma_test_good(n, i);
        lemma_redirected_good(n, i, n.test_opaque(i));
    } else if !(n.is_word(i, "case"@) || n.is_word(i, "select"@) || n.is_word(i, "function"@)
        || n.is_word(i, "coproc"@) || n.is_word(i, "time"@)) {
        lemma_simple_good(n, i, nothing_yet());
    }
}

/// Whether `cmd` is good with any redirections behind it.
pub open spec fn good_unit(n: Input, cmd: CommandView) -> bool {
    match cmd {
        CommandView::Binary(_) => false,
        CommandView::Call(c) => opaque_call(n, c) && c.assigns == Seq::<
            crate::ast::AssignView,
        >::empty(),
        _ => good_command(n, cmd, seq![]),
    }
}

proof fn lemma_unit_good(n: Input, cmd: CommandView, redirs: Seq<RedirectView>)
    requires
        good_unit(n, cmd),
        good_redirs(redirs),
    ensures
        good_command(n, cmd, redirs),
        cmd !is Binary,
{
}

/// A compound command with its redirections.
proof fn lemma_redirected_good(n: Input, i: int, cmd: Parsed<CommandView>)
    requires
        source(n),
        cmd is Ok ==> i < cmd->Ok_0.1 < n.toks.len() && 0 <= i && good_unit(n, cmd->Ok_0.0),
        n.redirected(cmd) is Ok,
    ensures
        i < n.redirected(cmd)->Ok_0.1 < n.toks.len(),
        good_command(n, n.redirected(cmd)->Ok_0.0.0, n.redirected(cmd)->Ok_0.0.1),
        n.redirected(cmd)->Ok_0.0.0 !is Binary,
        !bang_first(n, n.redirected(cmd)->Ok_0.0.0),
{
    let (c, j) = cmd->Ok_0;
    lemma_trailing_good(n, j);
    lemma_unit_good(n, c, n.trailing_redirs(j)->Ok_0.0);
}

// ---------------------------------------------------------------------------
// Compound commands
// ---------------------------------------------------------------------------

proof fn lemma_subshell_good(n: Input, i: int)
    requires
        source(n),
        n.is_op(i, Op::LParen),
    ensures
        n.subshell(i) is Ok ==> {
            &&& 0 <= i < n.subshell(i)->Ok_0.1 < n.toks.len()
            &&& good_unit(n, n.subshell(i)->Ok_0.0)
        },
    decreases n.toks.len() - i, 3int,
{
    if n.subshell(i) is Ok {
        lemma_not_last(n, i);
        lemma_list_good(n, i + 1, Stop::RParen);
        let (stmts, j) = n.list(i + 1, Stop::RParen)->Ok_0;
        lemma_not_last(n, j);
        let x = SubshellView { lparen: absent(), rparen: absent(), stmts, last: seq![] };
        assert(n.subshell(i)->Ok_0.0 == CommandView::Subshell(x));
        assert(good_redirs(seq![]));
    }
}

/// A keyword and the list behind it.
proof fn lemma_keyword_list_good(n: Input, i: int, w: Seq<char>, stop: Stop)
    requires
        source(n),
        n.keyword_list(i, w, stop) is Ok,
    ensures
        0 <= i < n.keyword_list(i, w, stop)->Ok_0.1 < n.toks.len(),
        good_list(n, n.keyword_list(i, w, stop)->Ok_0.0),
    decreases n.toks.len() - i, 1int,
{
    lemma_not_last(n, i);
    lemma_list_good(n, i + 1, stop);
}

proof fn lemma_block_good(n: Input, i: int)
    requires
        source(n),
    ensures
        n.block(i) is Ok ==> {
            &&& 0 <= i < n.block(i)->Ok_0.1 < n.toks.len()
            &&& good_unit(n, n.block(i)->Ok_0.0)
        },
    decreases n.toks.len() - i, 3int,
{
    if n.block(i) is Ok {
        lemma_keyword_list_good(n, i, "{"@, Stop::RBrace);
        let (stmts, j) = n.keyword_list(i, "{"@, Stop::RBrace)->Ok_0;
        lemma_not_last(n, j);
        let x = BlockView { lbrace: absent(), rbrace: absent(), stmts, last: seq![] };
        assert(n.block(i)->Ok_0.0 == CommandView::Block(x));
        assert(good_redirs(seq![]));
    }
}

proof fn lemma_condition_good(n: Input, i: int, w: Seq<char>)
    requires
        source(n),
        n.condition(i, w) is Ok,
    ensures
        0 <= i < n.condition(i, w)->Ok_0.1 < n.toks.len(),
        good_list(n, n.condition(i, w)->Ok_0.0.0),
        good_list(n, n.condition(i, w)->Ok_0.0.1),
    decreases n.toks.len() - i, 2int,
{
    lemma_keyword_list_good(n, i, w, Stop::Then);
    let j = n.keyword_list(i, w, Stop::Then)->Ok_0.1;
    lemma_keyword_list_good(n, j, "then"@, Stop::Branch);
}

proof fn lemma_if_good(n: Input, i: int)
    requires
        source(n),
    ensures
        n.if_clause(i) is Ok ==> {
            &&& 0 <= i < n.if_clause(i)->Ok_0.1 < n.toks.len()
            &&& good_unit(n, n.if_clause(i)->Ok_0.0)
        },
    decreases n.toks.len() - i, 3int,
{
    if n.if_clause(i) is Ok {
        lemma_condition_good(n, i, "if"@);
        let ((cond, then_), j) = n.condition(i, "if"@)->Ok_0;
        lemma_tail_good(n, j);
        let (else_, k) = n.if_tail(j)->Ok_0;
        lemma_not_last(n, k);
        let x = if_view(present(), cond, then_, else_);
        assert(n.if_clause(i)->Ok_0.0 == CommandView::If(Box::new(x)));
        assert(good_redirs(seq![]));
    }
}

proof fn lemma_tail_good(n: Input, i: int)
    requires
        source(n),
        0 <= i < n.toks.len(),
        n.if_tail(i) is Ok,
    ensures
        i <= n.if_tail(i)->Ok_0.1 < n.toks.len(),
        good_tail(n, n.if_tail(i)->Ok_0.0),
    decreases n.toks.len() - i, 3int,
{
    if n.is_word(i, "elif"@) {
        lemma_condition_good(n, i, "elif"@);
        let ((cond, then_), j) = n.condition(i, "elif"@)->Ok_0;
        lemma_tail_good(n, j);
        let else_ = n.if_tail(j)->Ok_0.0;
        let x = if_view(present(), cond, then_, else_);
        assert(n.if_tail(i)->Ok_0.0 == Some(Box::new(x)));
        assert(x.then_pos.is_valid());
    } else if n.is_word(i, "else"@) {
        lemma_keyword_list_good(n, i, "else"@, Stop::Fi);
        let (then_, j) = n.keyword_list(i, "else"@, Stop::Fi)->Ok_0;
        let x = if_view(absent(), seq![], then_, None);
        assert(n.if_tail(i)->Ok_0.0 == Some(Box::new(x)));
        assert(!x.then_pos.is_valid());
    }
}

proof fn lemma_do_group_good(n: Input, i: int)
    requires
        source(n),
        n.do_group(i) is Ok,
    ensures
        0 <= i < n.do_group(i)->Ok_0.1 < n.toks.len(),
        good_list(n, n.do_group(i)->Ok_0.0),
    decreases n.toks.len() - i, 2int,
{
    lemma_keyword_list_good(n, i, "do"@, Stop::Done);
    let j = n.keyword_list(i, "do"@, Stop::Done)->Ok_0.1;
    lemma_not_last(n, j);
}

proof fn lemma_while_good(n: Input, i: int, until: bool)
    requires
        source(n),
    ensures
        n.while_clause(i, until) is Ok ==> {
            &&& 0 <= i < n.while_clause(i, until)->Ok_0.1 < n.toks.len()
            &&& good_unit(n, n.while_clause(i, until)->Ok_0.0)
        },
    decreases n.toks.len() - i, 3int,
{
    if n.while_clause(i, until) is Ok {
        lemma_not_last(n, i);
        lemma_list_good(n, i + 1, Stop::Do);
        let (cond, j) = n.list(i + 1, Stop::Do)->Ok_0;
        lemma_do_group_good(n, j);
        let do_ = n.do_group(j)->Ok_0.0;
        let x = while_view(until, cond, do_);
        assert(n.while_clause(i, until)->Ok_0.0 == CommandView::While(Box::new(x)));
        assert(good_redirs(seq![]));
    }
}

/// The words that a `for` goes over.
proof fn lemma_items_good(n: Input, i: int)
    requires
        source(n),
        0 <= i < n.toks.len(),
    ensures
        i <= n.past_items(i) < n.toks.len(),
        forall|x: int|
            i <= x < n.past_items(i) ==> #[trigger] n.kind(x) is Word && word_text(n.text(x)),
    decreases n.toks.len() - i,
{
    if n.kind(i) is Word {
        lemma_not_last(n, i);
        lemma_items_good(n, i + 1);
    }
}

proof fn lemma_for_good(n: Input, i: int)
    requires
        source(n),
    ensures
        n.for_clause(i) is Ok ==> {
            &&& 0 <= i < n.for_clause(i)->Ok_0.1 < n.toks.len()
            &&& good_unit(n, n.for_clause(i)->Ok_0.0)
        },
    decreases n.toks.len() - i, 3int,
{
    if n.for_clause(i) is Ok {
        lemma_not_last(n, i);
        lemma_not_last(n, i + 1);
        let has_in = n.is_word(i + 2, "in"@);
        if has_in {
            lemma_not_last(n, i + 2);
            lemma_items_good(n, i + 3);
        }
        let j = if has_in {
            n.past_items(i + 3)
        } else {
            i + 2
        };
        let items = if has_in {
            Some(n.items(i + 3, j))
        } else {
            None
        };
        lemma_separators_end(n, j);
        let k = n.past_separators(j);
        lemma_do_group_good(n, k);
        let do_ = n.do_group(k)->Ok_0.0;
        let x = for_view(n.text(i + 1), items, do_);
        assert(n.for_clause(i)->Ok_0.0 == CommandView::For(Box::new(x)));
        assert(good_redirs(seq![]));
        let words = x.loop_->Word_0.items;
        assert(good_words(words)) by {
            assert forall|y: int| 0 <= y < words.len() implies good_word(#[trigger] words[y]) by {
                assert(n.kind(i + 3 + y) is Word);
                lemma_good_raw(n.text(i + 3 + y));
            }
        }
        assert(for_items(x) == items);
    }
}

/// The file that a source is parsed into is good.
pub proof fn lemma_file_good(n: Input)
    requires
        clean(n),
        wordy(n),
        sealed(n),
        n.file() is Ok,
    ensures
        good_list(n, n.file()->Ok_0.stmts),
        n.file()->Ok_0.name is None,
        n.file()->Ok_0.last == Seq::<crate::ast::CommentView>::empty(),
{
    reveal(source);
    reveal(clean);
    reveal(tokenized);
    assert(n.toks.len() > 0);
    lemma_list_good(n, 0, Stop::End);
}

} // verus!
