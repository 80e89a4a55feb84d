//! Here-documents and unsupported commands are never reformatted.
//!
//! The parser refuses a heredoc operator wherever it stands, in a `[[ … ]]` or
//! `(( … ))` that it cuts out of the source too, and a command that it does not
//! support wherever the grammar asks for a command.

use vstd::prelude::*;
use vstd::string::*;
use vstd::utf8::*;
use crate::ast::{RedirectView, StmtView};
use crate::format::format_command_view;
use crate::lexer::{Group, Op, TokKind, is_heredoc_op, law_bodies_are_flushed, law_tokens_wf,
    lemma_group_bounds, lex_view, parens_at, token_wf};
use crate::parser::{Input, Parsed, SimpleState, Stop, binary_view, parse_view, raw_word_view,
    redirects, shell_keyword};
use crate::reparse::{lemma_close_forward, nothing_yet};
use crate::stable::{bytes, tokenized};

verus! {

/// Whether none of the tokens `i..j` of `n` is a heredoc operator.
pub open spec fn no_heredoc(n: Input, i: int, j: int) -> bool {
    forall|x: int| i <= x < j ==> !is_heredoc_op(#[trigger] n.kind(x))
}

/// The last token is the end; no other is.
proof fn lemma_inner(n: Input, i: int)
    requires
        tokenized(n),
        n.kind(i) !is Eof,
    ensures
        0 <= i < n.toks.len() - 1,
{
    reveal(tokenized);
}

proof fn lemma_one(n: Input, i: int)
    requires
        !is_heredoc_op(n.kind(i)),
    ensures
        no_heredoc(n, i, i + 1),
{
}

proof fn lemma_two(n: Input, i: int, k: int, j: int)
    requires
        i <= k <= j,
        no_heredoc(n, i, k),
        no_heredoc(n, k, j),
    ensures
        no_heredoc(n, i, j),
{
}

proof fn lemma_separators(n: Input, i: int)
    requires
        tokenized(n),
        0 <= i < n.toks.len(),
    ensures
        i <= n.past_separators(i) < n.toks.len(),
        no_heredoc(n, i, n.past_separators(i)),
    decreases n.toks.len() - i,
{
    if n.kind(i) is Newline || n.is_op(i, Op::Semi) {
        lemma_inner(n, i);
        lemma_separators(n, i + 1);
        lemma_one(n, i);
        lemma_two(n, i, i + 1, n.past_separators(i));
    }
}

proof fn lemma_newlines(n: Input, i: int)
    requires
        tokenized(n),
        0 <= i < n.toks.len(),
    ensures
        i <= n.past_newlines(i) < n.toks.len(),
        no_heredoc(n, i, n.past_newlines(i)),
    decreases n.toks.len() - i,
{
    if n.kind(i) is Newline {
        lemma_inner(n, i);
        lemma_newlines(n, i + 1);
        lemma_one(n, i);
        lemma_two(n, i, i + 1, n.past_newlines(i));
    }
}

proof fn lemma_items(n: Input, i: int)
    requires
        tokenized(n),
        0 <= i < n.toks.len(),
    ensures
        i <= n.past_items(i) < n.toks.len(),
        no_heredoc(n, i, n.past_items(i)),
    decreases n.toks.len() - i,
{
    if n.kind(i) is Word {
        lemma_inner(n, i);
        lemma_items(n, i + 1);
        lemma_one(n, i);
        lemma_two(n, i, i + 1, n.past_items(i));
    }
}

// ---------------------------------------------------------------------------
// Redirections and simple commands
// ---------------------------------------------------------------------------

proof fn lemma_redirect(n: Input, i: int)
    requires
        tokenized(n),
        n.redirect(i) is Ok,
        !is_heredoc_op(n.kind(i)),
    ensures
        n.redirect(i)->Ok_0.1 == i + 2,
        0 <= i && i + 2 < n.toks.len(),
        no_heredoc(n, i, i + 2),
{
    lemma_inner(n, i);
    lemma_inner(n, i + 1);
}

proof fn lemma_trailing(n: Input, i: int)
    requires
        tokenized(n),
        0 <= i < n.toks.len(),
        n.trailing_redirs(i) is Ok,
    ensures
        i <= n.trailing_redirs(i)->Ok_0.1 < n.toks.len(),
        no_heredoc(n, i, n.trailing_redirs(i)->Ok_0.1),
    decreases n.toks.len() - i,
{
    let at = if n.fd_at(i) {
        lemma_inner(n, i);
        lemma_one(n, i);
        i + 1
    } else {
        i
    };
    match n.kind(at) {
        TokKind::Op(op) if redirects(op) => {
            lemma_redirect(n, at);
            lemma_trailing(n, at + 2);
            lemma_two(n, i, at, at + 2);
            lemma_two(n, i, at + 2, n.trailing_redirs(i)->Ok_0.1);
        },
        _ => {},
    }
}

proof fn lemma_simple(n: Input, i: int, st: SimpleState)
    requires
        tokenized(n),
        0 <= i < n.toks.len(),
        n.simple(i, st) is Ok,
    ensures
        i <= n.simple(i, st)->Ok_0.1 < n.toks.len(),
        st.args.len() + st.redirs.len() == 0 ==> i < n.simple(i, st)->Ok_0.1,
        no_heredoc(n, i, n.simple(i, st)->Ok_0.1),
    decreases n.toks.len() - i,
{
    match n.kind(i) {
        TokKind::Word => {
            lemma_inner(n, i);
            let next = SimpleState {
                args: st.args.push(raw_word_view(n.text(i))),
                redirs: st.redirs,
                last_arg: Some((n.toks[i].end, n.text(i))),
            };
            lemma_simple(n, i + 1, next);
            lemma_one(n, i);
            lemma_two(n, i, i + 1, n.simple(i, st)->Ok_0.1);
        },
        TokKind::Op(op) if redirects(op) => {
            lemma_redirect(n, i);
            let r = n.redirect(i)->Ok_0.0;
            let fd = st.last_arg is Some && n.names_fd(
                i,
                st.last_arg->Some_0.0,
                st.last_arg->Some_0.1,
            );
            let next = SimpleState {
                args: if fd {
                    st.args.drop_last()
                } else {
                    st.args
                },
                redirs: st.redirs.push(
                    RedirectView {
                        n: if fd {
                            Some(crate::parser::lit_view(st.last_arg->Some_0.1))
                        } else {
                            None
                        },
                        ..r
                    },
                ),
                last_arg: None,
            };
            lemma_simple(n, i + 2, next);
            lemma_two(n, i, i + 2, n.simple(i, st)->Ok_0.1);
        },
        _ => {},
    }
}

// ---------------------------------------------------------------------------
// Opaque commands
// ---------------------------------------------------------------------------

/// A search that finds no heredoc operator.
proof fn lemma_heredoc_in(n: Input, i: int, j: int)
    requires
        n.heredoc_in(i, j) is None,
    ensures
        no_heredoc(n, i, j),
    decreases j - i,
{
    if i < j {
        lemma_heredoc_in(n, i + 1, j);
    }
}

proof fn lemma_test(n: Input, i: int)
    requires
        tokenized(n),
        n.is_word(i, "[["@),
    ensures
        n.test_opaque(i) is Ok ==> {
            &&& 0 <= i < n.test_opaque(i)->Ok_0.1 < n.toks.len()
            &&& no_heredoc(n, i, n.test_opaque(i)->Ok_0.1)
        },
{
    lemma_inner(n, i);
    lemma_close_forward(n, i + 1);
    if n.test_opaque(i) is Ok {
        lemma_inner(n, n.test_close(i + 1)->Some_0);
        lemma_heredoc_in(n, i, n.test_opaque(i)->Ok_0.1);
    }
}

/// The search for the first token from a byte on stays inside.
proof fn lemma_past_byte_inside(n: Input, i: int, end: int)
    requires
        tokenized(n),
        0 <= i < n.toks.len(),
    ensures
        i <= n.past_byte(i, end) < n.toks.len(),
    decreases n.toks.len() - i,
{
    if n.kind(i) !is Eof && n.toks[i].start < end {
        lemma_inner(n, i);
        lemma_past_byte_inside(n, i + 1, end);
    }
}

proof fn lemma_arith(n: Input, i: int)
    requires
        tokenized(n),
        n.is_op(i, Op::LParen),
        n.is_op(i + 1, Op::LParen),
        n.toks[i + 1].start == n.toks[i].end,
    ensures
        n.arith_opaque(i) is Ok ==> {
            &&& 0 <= i < n.arith_opaque(i)->Ok_0.1 < n.toks.len()
            &&& no_heredoc(n, i, n.arith_opaque(i)->Ok_0.1)
        },
{
    lemma_inner(n, i);
    if n.arith_opaque(i) is Ok {
        let b = bytes(n);
        let start = n.toks[i].start;
        let end = parens_at(b, start)->Ok_0;
        assert(token_wf(b, n.toks[i])) by {
            reveal(tokenized);
        }
        lemma_group_bounds(b, Group::Paren, start, start + 1, 1);
        lemma_past_byte_inside(n, i + 1, end);
        lemma_heredoc_in(n, i, n.arith_opaque(i)->Ok_0.1);
    }
}

// ---------------------------------------------------------------------------
// Statements
// ---------------------------------------------------------------------------

proof fn lemma_list(n: Input, i: int, stop: Stop)
    requires
        tokenized(n),
        0 <= i < n.toks.len(),
        n.list(i, stop) is Ok,
    ensures
        i <= n.list(i, stop)->Ok_0.1 < n.toks.len(),
        no_heredoc(n, i, n.list(i, stop)->Ok_0.1),
    decreases n.toks.len() - i, 9int,
{
    let j = n.past_separators(i);
    lemma_separators(n, i);
    if !(n.kind(j) is Eof || n.at_stop(j, stop)) {
        lemma_item(n, j, stop);
        let k = n.list_item(j, stop)->Ok_0.1;
        lemma_list(n, k, stop);
        let e = n.list(k, stop)->Ok_0.1;
        lemma_two(n, i, j, k);
        lemma_two(n, i, k, e);
    }
}

proof fn lemma_item(n: Input, i: int, stop: Stop)
    requires
        tokenized(n),
        0 <= i < n.toks.len(),
        n.list_item(i, stop) is Ok,
    ensures
        i < n.list_item(i, stop)->Ok_0.1 < n.toks.len(),
        no_heredoc(n, i, n.list_item(i, stop)->Ok_0.1),
    decreases n.toks.len() - i, 8int,
{
    lemma_and_or(n, i);
    let j = n.and_or(i)->Ok_0.1;
    if n.is_op(j, Op::Amp) || n.is_op(j, Op::Semi) || n.kind(j) is Newline {
        lemma_inner(n, j);
        lemma_one(n, j);
        lemma_two(n, i, j, j + 1);
    }
}

proof fn lemma_and_or(n: Input, i: int)
    requires
        tokenized(n),
        0 <= i < n.toks.len(),
        n.and_or(i) is Ok,
    ensures
        i < n.and_or(i)->Ok_0.1 < n.toks.len(),
        no_heredoc(n, i, n.and_or(i)->Ok_0.1),
    decreases n.toks.len() - i, 7int,
{
    lemma_pipeline(n, i);
    let (left, j) = n.pipeline(i)->Ok_0;
    lemma_and_or_rest(n, left, j);
    lemma_two(n, i, j, n.and_or(i)->Ok_0.1);
}

proof fn lemma_and_or_rest(n: Input, left: StmtView, i: int)
    requires
        tokenized(n),
        0 <= i < n.toks.len(),
        n.and_or_rest(left, i) is Ok,
    ensures
        i <= n.and_or_rest(left, i)->Ok_0.1 < n.toks.len(),
        no_heredoc(n, i, n.and_or_rest(left, i)->Ok_0.1),
    decreases n.toks.len() - i, 7int,
{
    if n.is_op(i, Op::AndIf) || n.is_op(i, Op::OrIf) {
        lemma_inner(n, i);
        let op = if n.is_op(i, Op::AndIf) {
            crate::ast::BinCmdOperator::AndStmt
        } else {
            crate::ast::BinCmdOperator::OrStmt
        };
        lemma_newlines(n, i + 1);
        let k = n.past_newlines(i + 1);
        lemma_pipeline(n, k);
        let (right, j) = n.pipeline(k)->Ok_0;
        lemma_and_or_rest(n, binary_view(op, left, right), j);
        lemma_one(n, i);
        lemma_two(n, i, i + 1, k);
        lemma_two(n, i, k, j);
        lemma_two(n, i, j, n.and_or_rest(left, i)->Ok_0.1);
    }
}

proof fn lemma_pipeline(n: Input, i: int)
    requires
        tokenized(n),
        0 <= i < n.toks.len(),
        n.pipeline(i) is Ok,
    ensures
        i < n.pipeline(i)->Ok_0.1 < n.toks.len(),
        no_heredoc(n, i, n.pipeline(i)->Ok_0.1),
    decreases n.toks.len() - i, 6int,
{
    lemma_command_stmt(n, i);
    let (left, j) = n.command_stmt(i)->Ok_0;
    lemma_pipeline_rest(n, left, j);
    lemma_two(n, i, j, n.pipeline(i)->Ok_0.1);
}

proof fn lemma_pipeline_rest(n: Input, left: StmtView, i: int)
    requires
        tokenized(n),
        0 <= i < n.toks.len(),
        n.pipeline_rest(left, i) is Ok,
    ensures
        i <= n.pipeline_rest(left, i)->Ok_0.1 < n.toks.len(),
        no_heredoc(n, i, n.pipeline_rest(left, i)->Ok_0.1),
    decreases n.toks.len() - i, 6int,
{
    if n.is_op(i, Op::Pipe) || n.is_op(i, Op::PipeAmp) {
        lemma_inner(n, i);
        let op = if n.is_op(i, Op::Pipe) {
            crate::ast::BinCmdOperator::Pipe
        } else {
            crate::ast::BinCmdOperator::PipeAll
        };
        lemma_newlines(n, i + 1);
        let k = n.past_newlines(i + 1);
        lemma_command_stmt(n, k);
        let (right, j) = n.command_stmt(k)->Ok_0;
        lemma_pipeline_rest(n, binary_view(op, left, right), j);
        lemma_one(n, i);
        lemma_two(n, i, i + 1, k);
        lemma_two(n, i, k, j);
        lemma_two(n, i, j, n.pipeline_rest(left, i)->Ok_0.1);
    }
}

proof fn lemma_command_stmt(n: Input, i: int)
    requires
        tokenized(n),
        0 <= i < n.toks.len(),
        n.command_stmt(i) is Ok,
    ensures
        i < n.command_stmt(i)->Ok_0.1 < n.toks.len(),
        no_heredoc(n, i, n.command_stmt(i)->Ok_0.1),
    decreases n.toks.len() - i, 5int,
{
    if n.is_word(i, "!"@) {
        lemma_inner(n, i);
        lemma_command(n, i + 1);
        lemma_one(n, i);
        lemma_two(n, i, i + 1, n.command_stmt(i)->Ok_0.1);
    } else {
        lemma_command(n, i);
    }
}

proof fn lemma_command(n: Input, i: int)
    requires
        tokenized(n),
        0 <= i < n.toks.len(),
        n.command(i) is Ok,
    ensures
        i < n.command(i)->Ok_0.1 < n.toks.len(),
        no_heredoc(n, i, n.command(i)->Ok_0.1),
    decreases n.toks.len() - i, 4int,
{
    if n.is_op(i, Op::LParen) {
        if n.is_op(i + 1, Op::LParen) && n.toks[i + 1].start == n.toks[i].end {
            lemma_arith(n, i);
            lemma_redirected(n, i, n.arith_opaque(i));
        } else {
            lemma_subshell(n, i);
            lemma_redirected(n, i, n.subshell(i));
        }
    } else if n.is_word(i, "{"@) {
        lemma_block(n, i);
        lemma_redirected(n, i, n.block(i));
    } else if n.is_word(i, "if"@) {
        lemma_if(n, i);
        lemma_redirected(n, i, n.if_clause(i));
    } else if n.is_word(i, "while"@) {
        lemma_while(n, i, false);
        lemma_redirected(n, i, n.while_clause(i, false));
    } else if n.is_word(i, "until"@) {
        lemma_while(n, i, true);
        lemma_redirected(n, i, n.while_clause(i, true));
    } else if n.is_word(i, "for"@) {
        lemma_for(n, i);
        lemma_redirected(n, i, n.for_clause(i));
    } else if n.is_word(i, "[["@) {
        lemma_test(n, i);
        lemma_redirected(n, i, n.test_opaque(i));
    } else if !(n.is_word(i, "case"@) || n.is_word(i, "select"@) || n.is_word(i, "function"@)
        || n.is_word(i, "coproc"@) || n.is_word(i, "time"@)) {
        lemma_simple(n, i, nothing_yet());
    }
}

proof fn lemma_redirected(n: Input, i: int, cmd: Parsed<crate::ast::CommandView>)
    requires
        tokenized(n),
        cmd is Ok ==> 0 <= i < cmd->Ok_0.1 < n.toks.len() && no_heredoc(n, i, cmd->Ok_0.1),
        n.redirected(cmd) is Ok,
    ensures
        i < n.redirected(cmd)->Ok_0.1 < n.toks.len(),
        no_heredoc(n, i, n.redirected(cmd)->Ok_0.1),
{
    let j = cmd->Ok_0.1;
    lemma_trailing(n, j);
    lemma_two(n, i, j, n.trailing_redirs(j)->Ok_0.1);
}

// ---------------------------------------------------------------------------
// Compound commands
// ---------------------------------------------------------------------------

proof fn lemma_subshell(n: Input, i: int)
    requires
        tokenized(n),
        n.is_op(i, Op::LParen),
    ensures
        n.subshell(i) is Ok ==> {
            &&& 0 <= i < n.subshell(i)->Ok_0.1 < n.toks.len()
            &&& no_heredoc(n, i, n.subshell(i)->Ok_0.1)
        },
    decreases n.toks.len() - i, 3int,
{
    if n.subshell(i) is Ok {
        lemma_inner(n, i);
        lemma_list(n, i + 1, Stop::RParen);
        let j = n.list(i + 1, Stop::RParen)->Ok_0.1;
        lemma_inner(n, j);
        lemma_one(n, i);
        lemma_one(n, j);
        lemma_two(n, i, i + 1, j);
        lemma_two(n, i, j, j + 1);
    }
}

proof fn lemma_keyword_list(n: Input, i: int, w: Seq<char>, stop: Stop)
    requires
        tokenized(n),
        n.keyword_list(i, w, stop) is Ok,
    ensures
        0 <= i < n.keyword_list(i, w, stop)->Ok_0.1 < n.toks.len(),
        no_heredoc(n, i, n.keyword_list(i, w, stop)->Ok_0.1),
    decreases n.toks.len() - i, 1int,
{
    lemma_inner(n, i);
    lemma_list(n, i + 1, stop);
    lemma_one(n, i);
    lemma_two(n, i, i + 1, n.list(i + 1, stop)->Ok_0.1);
}

proof fn lemma_block(n: Input, i: int)
    requires
        tokenized(n),
    ensures
        n.block(i) is Ok ==> {
            &&& 0 <= i < n.block(i)->Ok_0.1 < n.toks.len()
            &&& no_heredoc(n, i, n.block(i)->Ok_0.1)
        },
    decreases n.toks.len() - i, 3int,
{
    if n.block(i) is Ok {
        lemma_keyword_list(n, i, "{"@, Stop::RBrace);
        let j = n.keyword_list(i, "{"@, Stop::RBrace)->Ok_0.1;
        lemma_inner(n, j);
        lemma_one(n, j);
        lemma_two(n, i, j, j + 1);
    }
}

proof fn lemma_condition(n: Input, i: int, w: Seq<char>)
    requires
        tokenized(n),
        n.condition(i, w) is Ok,
    ensures
        0 <= i < n.condition(i, w)->Ok_0.1 < n.toks.len(),
        no_heredoc(n, i, n.condition(i, w)->Ok_0.1),
    decreases n.toks.len() - i, 2int,
{
    lemma_keyword_list(n, i, w, Stop::Then);
    let j = n.keyword_list(i, w, Stop::Then)->Ok_0.1;
    lemma_keyword_list(n, j, "then"@, Stop::Branch);
    lemma_two(n, i, j, n.condition(i, w)->Ok_0.1);
}

proof fn lemma_if(n: Input, i: int)
    requires
        tokenized(n),
    ensures
        n.if_clause(i) is Ok ==> {
            &&& 0 <= i < n.if_clause(i)->Ok_0.1 < n.toks.len()
            &&& no_heredoc(n, i, n.if_clause(i)->Ok_0.1)
        },
    decreases n.toks.len() - i, 3int,
{
    if n.if_clause(i) is Ok {
        lemma_condition(n, i, "if"@);
        let j = n.condition(i, "if"@)->Ok_0.1;
        lemma_tail(n, j);
        let k = n.if_tail(j)->Ok_0.1;
        lemma_inner(n, k);
        lemma_one(n, k);
        lemma_two(n, i, j, k);
        lemma_two(n, i, k, k + 1);
    }
}

proof fn lemma_tail(n: Input, i: int)
    requires
        tokenized(n),
        0 <= i < n.toks.len(),
        n.if_tail(i) is Ok,
    ensures
        i <= n.if_tail(i)->Ok_0.1 < n.toks.len(),
        no_heredoc(n, i, n.if_tail(i)->Ok_0.1),
    decreases n.toks.len() - i, 3int,
{
    if n.is_word(i, "elif"@) {
        lemma_condition(n, i, "elif"@);
        let j = n.condition(i, "elif"@)->Ok_0.1;
        lemma_tail(n, j);
        lemma_two(n, i, j, n.if_tail(j)->Ok_0.1);
    } else if n.is_word(i, "else"@) {
        lemma_keyword_list(n, i, "else"@, Stop::Fi);
    }
}

proof fn lemma_do_group(n: Input, i: int)
    requires
        tokenized(n),
        n.do_group(i) is Ok,
    ensures
        0 <= i < n.do_group(i)->Ok_0.1 < n.toks.len(),
        no_heredoc(n, i, n.do_group(i)->Ok_0.1),
    decreases n.toks.len() - i, 2int,
{
    lemma_keyword_list(n, i, "do"@, Stop::Done);
    let j = n.keyword_list(i, "do"@, Stop::Done)->Ok_0.1;
    lemma_inner(n, j);
    lemma_one(n, j);
    lemma_two(n, i, j, j + 1);
}

proof fn lemma_while(n: Input, i: int, until: bool)
    requires
        tokenized(n),
        n.kind(i) is Word,
    ensures
        n.while_clause(i, until) is Ok ==> {
            &&& 0 <= i < n.while_clause(i, until)->Ok_0.1 < n.toks.len()
            &&& no_heredoc(n, i, n.while_clause(i, until)->Ok_0.1)
        },
    decreases n.toks.len() - i, 3int,
{
    if n.while_clause(i, until) is Ok {
        lemma_inner(n, i);
        lemma_list(n, i + 1, Stop::Do);
        let j = n.list(i + 1, Stop::Do)->Ok_0.1;
        lemma_do_group(n, j);
        lemma_one(n, i);
        lemma_two(n, i, i + 1, j);
        lemma_two(n, i, j, n.do_group(j)->Ok_0.1);
    }
}

proof fn lemma_for(n: Input, i: int)
    requires
        tokenized(n),
    ensures
        n.for_clause(i) is Ok ==> {
            &&& 0 <= i < n.for_clause(i)->Ok_0.1 < n.toks.len()
            &&& no_heredoc(n, i, n.for_clause(i)->Ok_0.1)
        },
    decreases n.toks.len() - i, 3int,
{
    if n.for_clause(i) is Ok {
        lemma_inner(n, i);
        lemma_inner(n, i + 1);
        lemma_one(n, i);
        lemma_one(n, i + 1);
        lemma_two(n, i, i + 1, i + 2);
        let has_in = n.is_word(i + 2, "in"@);
        let j = if has_in {
            n.past_items(i + 3)
        } else {
            i + 2
        };
        if has_in {
            lemma_inner(n, i + 2);
            lemma_items(n, i + 3);
            lemma_one(n, i + 2);
            lemma_two(n, i, i + 2, i + 3);
            lemma_two(n, i, i + 3, j);
        }
        lemma_separators(n, j);
        let k = n.past_separators(j);
        lemma_do_group(n, k);
        lemma_two(n, i, j, k);
        lemma_two(n, i, k, n.do_group(k)->Ok_0.1);
    }
}

// ---------------------------------------------------------------------------
// Where the grammar asks for a command
// ---------------------------------------------------------------------------

/// Whether a list of statements up to `stop`, read from token `i` of `n` on, asks
/// for a command at token `x`.
pub open spec fn list_asks(n: Input, i: int, stop: Stop, x: int) -> bool
    decreases n.toks.len() - i, 9int,
{
    let j = n.past_separators(i);
    proof {
        n.lemma_past_separators(i);
    }
    &&& !(n.kind(j) is Eof || n.at_stop(j, stop))
    &&& {
        ||| and_or_asks(n, j, x)
        ||| n.list_item(j, stop) matches Ok((_, k)) && i < k <= n.toks.len() && list_asks(
            n,
            k,
            stop,
            x,
        )
    }
}

/// The same of pipelines joined by `&&` and `||`.
pub open spec fn and_or_asks(n: Input, i: int, x: int) -> bool
    decreases n.toks.len() - i, 8int,
{
    ||| pipeline_asks(n, i, x)
    ||| n.pipeline(i) matches Ok((_, j)) && i < j <= n.toks.len() && and_or_rest_asks(n, j, x)
}

/// The same of the pipelines behind the first.
pub open spec fn and_or_rest_asks(n: Input, i: int, x: int) -> bool
    decreases n.toks.len() - i, 8int,
{
    let k = n.past_newlines(i + 1);
    proof {
        n.lemma_past_newlines(i + 1);
    }
    &&& n.is_op(i, Op::AndIf) || n.is_op(i, Op::OrIf)
    &&& {
        ||| pipeline_asks(n, k, x)
        ||| n.pipeline(k) matches Ok((_, j)) && i < j <= n.toks.len() && and_or_rest_asks(n, j, x)
    }
}

/// The same of commands joined by `|` and `|&`.
pub open spec fn pipeline_asks(n: Input, i: int, x: int) -> bool
    decreases n.toks.len() - i, 7int,
{
    ||| command_asks(n, past_bang(n, i), x)
    ||| n.command_stmt(i) matches Ok((_, j)) && i < j <= n.toks.len() && pipeline_rest_asks(
        n,
        j,
        x,
    )
}

/// The same of the commands behind the first.
pub open spec fn pipeline_rest_asks(n: Input, i: int, x: int) -> bool
    decreases n.toks.len() - i, 7int,
{
    let k = n.past_newlines(i + 1);
    proof {
        n.lemma_past_newlines(i + 1);
    }
    &&& n.is_op(i, Op::Pipe) || n.is_op(i, Op::PipeAmp)
    &&& {
        ||| command_asks(n, past_bang(n, k), x)
        ||| n.command_stmt(k) matches Ok((_, j)) && i < j <= n.toks.len() && pipeline_rest_asks(
            n,
            j,
            x,
        )
    }
}

/// Past a leading `!`.
pub open spec fn past_bang(n: Input, i: int) -> int {
    if n.is_word(i, "!"@) {
        i + 1
    } else {
        i
    }
}

/// The same of a command: it asks for itself, and for those in it.
pub open spec fn command_asks(n: Input, i: int, x: int) -> bool
    decreases n.toks.len() - i, 6int,
{
    ||| x == i
    ||| {
        &&& n.is_op(i, Op::LParen)
        &&& !(n.is_op(i + 1, Op::LParen) && n.toks[i + 1].start == n.toks[i].end)
        &&& list_asks(n, i + 1, Stop::RParen, x)
    }
    ||| n.is_word(i, "{"@) && list_asks(n, i + 1, Stop::RBrace, x)
    ||| n.is_word(i, "if"@) && branches_ask(n, i, "if"@, x)
    ||| (n.is_word(i, "while"@) || n.is_word(i, "until"@)) && while_asks(n, i, x)
    ||| n.is_word(i, "for"@) && for_asks(n, i, x)
}

/// The same of a condition and of the body behind it, with the keyword `w` at
/// `i`.
pub open spec fn condition_asks(n: Input, i: int, w: Seq<char>, x: int) -> bool
    decreases n.toks.len() - i, 2int,
{
    &&& n.is_word(i, w)
    &&& {
        ||| list_asks(n, i + 1, Stop::Then, x)
        ||| {
            &&& n.list(i + 1, Stop::Then) matches Ok((_, j))
            &&& i < j <= n.toks.len()
            &&& n.is_word(j, "then"@)
            &&& list_asks(n, j + 1, Stop::Branch, x)
        }
    }
}

/// The same of the branches of an `if` or `elif`, with the keyword `w` at `i`.
pub open spec fn branches_ask(n: Input, i: int, w: Seq<char>, x: int) -> bool
    decreases n.toks.len() - i, 5int,
{
    ||| condition_asks(n, i, w, x)
    ||| n.condition(i, w) matches Ok((_, j)) && i < j <= n.toks.len() && tail_asks(n, j, x)
}

/// The same of the `elif` and `else` branches at `i`.
pub open spec fn tail_asks(n: Input, i: int, x: int) -> bool
    decreases n.toks.len() - i, 6int,
{
    if n.is_word(i, "elif"@) {
        branches_ask(n, i, "elif"@, x)
    } else {
        n.is_word(i, "else"@) && list_asks(n, i + 1, Stop::Fi, x)
    }
}

/// The same of a `while` or `until`.
pub open spec fn while_asks(n: Input, i: int, x: int) -> bool
    decreases n.toks.len() - i, 5int,
{
    &&& n.kind(i) !is Eof
    &&& {
        ||| list_asks(n, i + 1, Stop::Do, x)
        ||| {
            &&& n.list(i + 1, Stop::Do) matches Ok((_, j))
            &&& i < j <= n.toks.len()
            &&& n.is_word(j, "do"@)
            &&& list_asks(n, j + 1, Stop::Done, x)
        }
    }
}

/// The same of a `for`.
pub open spec fn for_asks(n: Input, i: int, x: int) -> bool
    decreases n.toks.len() - i, 5int,
{
    let j = if n.is_word(i + 2, "in"@) {
        n.past_items(i + 3)
    } else {
        i + 2
    };
    let k = n.past_separators(j);
    proof {
        n.lemma_past_items(i + 3);
        n.lemma_past_separators(j);
    }
    &&& n.is_word(i, "for"@)
    &&& n.kind(i + 1) is Word
    &&& n.is_word(k, "do"@)
    &&& list_asks(n, k + 1, Stop::Done, x)
}

// ---------------------------------------------------------------------------
// Nothing is read where an unsupported command is asked for
// ---------------------------------------------------------------------------

/// Whether a command that is not supported starts at token `i` of `n`: one with a
/// keyword of its own, or a function declaration.
pub open spec fn unsupported(n: Input, i: int) -> bool {
    ||| n.is_word(i, "case"@)
    ||| n.is_word(i, "select"@)
    ||| n.is_word(i, "function"@)
    ||| n.is_word(i, "coproc"@)
    ||| n.is_word(i, "time"@)
    ||| {
        &&& n.kind(i) is Word
        &&& !shell_keyword(n.text(i))
        &&& n.is_op(i + 1, Op::LParen)
        &&& n.is_op(i + 2, Op::RParen)
    }
}

/// No command is read where an unsupported one starts.
proof fn lemma_unsupported(n: Input, i: int)
    requires
        unsupported(n, i),
    ensures
        n.command(i) is Err,
        !n.is_op(i, Op::LParen),
        n.kind(i) is Word,
        n.text(i) != "{"@,
        n.text(i) != "if"@,
        n.text(i) != "while"@,
        n.text(i) != "until"@,
        n.text(i) != "for"@,
{
    reveal_strlit("{");
    reveal_strlit("if");
    reveal_strlit("while");
    reveal_strlit("until");
    reveal_strlit("for");
    reveal_strlit("[[");
    reveal_strlit("case");
    reveal_strlit("select");
    reveal_strlit("function");
    reveal_strlit("coproc");
    reveal_strlit("time");
    let t = n.text(i);
    assert(t == "case"@ || t == "coproc"@ ==> t[0] == 'c');
    assert(t == "select"@ ==> t[0] == 's');
    assert(t == "function"@ ==> t[0] == 'f' && t[1] == 'u');
    assert(t == "time"@ ==> t[0] == 't');
}

proof fn lemma_list_refused(n: Input, i: int, stop: Stop, x: int)
    requires
        list_asks(n, i, stop, x),
        unsupported(n, x),
    ensures
        n.list(i, stop) is Err,
    decreases n.toks.len() - i, 9int,
{
    let j = n.past_separators(i);
    n.lemma_past_separators(i);
    if and_or_asks(n, j, x) {
        lemma_and_or_refused(n, j, x);
    } else {
        let k = n.list_item(j, stop)->Ok_0.1;
        lemma_list_refused(n, k, stop, x);
    }
}

proof fn lemma_and_or_refused(n: Input, i: int, x: int)
    requires
        and_or_asks(n, i, x),
        unsupported(n, x),
    ensures
        n.and_or(i) is Err,
    decreases n.toks.len() - i, 8int,
{
    if pipeline_asks(n, i, x) {
        lemma_pipeline_refused(n, i, x);
    } else {
        let (left, j) = n.pipeline(i)->Ok_0;
        lemma_and_or_rest_refused(n, left, j, x);
    }
}

proof fn lemma_and_or_rest_refused(n: Input, left: StmtView, i: int, x: int)
    requires
        and_or_rest_asks(n, i, x),
        unsupported(n, x),
    ensures
        n.and_or_rest(left, i) is Err,
    decreases n.toks.len() - i, 8int,
{
    let k = n.past_newlines(i + 1);
    n.lemma_past_newlines(i + 1);
    if pipeline_asks(n, k, x) {
        lemma_pipeline_refused(n, k, x);
    } else {
        let (right, j) = n.pipeline(k)->Ok_0;
        let op = if n.is_op(i, Op::AndIf) {
            crate::ast::BinCmdOperator::AndStmt
        } else {
            crate::ast::BinCmdOperator::OrStmt
        };
        lemma_and_or_rest_refused(n, binary_view(op, left, right), j, x);
    }
}

proof fn lemma_pipeline_refused(n: Input, i: int, x: int)
    requires
        pipeline_asks(n, i, x),
        unsupported(n, x),
    ensures
        n.pipeline(i) is Err,
    decreases n.toks.len() - i, 7int,
{
    if command_asks(n, past_bang(n, i), x) {
        lemma_command_refused(n, past_bang(n, i), x);
        assert(n.command_stmt(i) is Err);
    } else {
        let (left, j) = n.command_stmt(i)->Ok_0;
        lemma_pipeline_rest_refused(n, left, j, x);
    }
}

proof fn lemma_pipeline_rest_refused(n: Input, left: StmtView, i: int, x: int)
    requires
        pipeline_rest_asks(n, i, x),
        unsupported(n, x),
    ensures
        n.pipeline_rest(left, i) is Err,
    decreases n.toks.len() - i, 7int,
{
    let k = n.past_newlines(i + 1);
    n.lemma_past_newlines(i + 1);
    if command_asks(n, past_bang(n, k), x) {
        lemma_command_refused(n, past_bang(n, k), x);
        assert(n.command_stmt(k) is Err);
    } else {
        let (right, j) = n.command_stmt(k)->Ok_0;
        let op = if n.is_op(i, Op::Pipe) {
            crate::ast::BinCmdOperator::Pipe
        } else {
            crate::ast::BinCmdOperator::PipeAll
        };
        lemma_pipeline_rest_refused(n, binary_view(op, left, right), j, x);
    }
}

proof fn lemma_command_refused(n: Input, i: int, x: int)
    requires
        command_asks(n, i, x),
        unsupported(n, x),
    ensures
        n.command(i) is Err,
    decreases n.toks.len() - i, 6int,
{
    lemma_openers_differ();
    if x == i {
        lemma_unsupported(n, i);
    } else if n.is_op(i, Op::LParen) {
        lemma_list_refused(n, i + 1, Stop::RParen, x);
        assert(n.subshell(i) is Err);
    } else if n.is_word(i, "{"@) {
        lemma_list_refused(n, i + 1, Stop::RBrace, x);
        assert(n.block(i) is Err);
    } else if n.is_word(i, "if"@) {
        lemma_branches_refused(n, i, "if"@, x);
        assert(n.if_clause(i) is Err);
    } else if n.is_word(i, "for"@) {
        lemma_for_refused(n, i, x);
    } else {
        lemma_while_refused(n, i, false, x);
        lemma_while_refused(n, i, true, x);
    }
}

/// The keywords of compound commands are different words.
proof fn lemma_openers_differ()
    ensures
        "{"@ != "if"@,
        "{"@ != "while"@,
        "{"@ != "until"@,
        "{"@ != "for"@,
        "if"@ != "while"@,
        "if"@ != "until"@,
        "if"@ != "for"@,
        "while"@ != "for"@,
        "until"@ != "for"@,
        "while"@ != "until"@,
{
    reveal_strlit("{");
    reveal_strlit("if");
    reveal_strlit("while");
    reveal_strlit("until");
    reveal_strlit("for");
    assert("{"@[0] == '{' && "if"@[0] == 'i' && "while"@[0] == 'w' && "until"@[0] == 'u'
        && "for"@[0] == 'f');
}

proof fn lemma_condition_refused(n: Input, i: int, w: Seq<char>, x: int)
    requires
        condition_asks(n, i, w, x),
        unsupported(n, x),
    ensures
        n.condition(i, w) is Err,
    decreases n.toks.len() - i, 2int,
{
    if list_asks(n, i + 1, Stop::Then, x) {
        lemma_list_refused(n, i + 1, Stop::Then, x);
    } else {
        let j = n.list(i + 1, Stop::Then)->Ok_0.1;
        lemma_list_refused(n, j + 1, Stop::Branch, x);
        assert(n.keyword_list(j, "then"@, Stop::Branch) is Err);
    }
}

proof fn lemma_branches_refused(n: Input, i: int, w: Seq<char>, x: int)
    requires
        branches_ask(n, i, w, x),
        unsupported(n, x),
    ensures
        n.condition(i, w) is Err || {
            let j = n.condition(i, w)->Ok_0.1;
            i < j <= n.toks.len() && n.if_tail(j) is Err
        },
    decreases n.toks.len() - i, 5int,
{
    if condition_asks(n, i, w, x) {
        lemma_condition_refused(n, i, w, x);
    } else {
        lemma_tail_refused(n, n.condition(i, w)->Ok_0.1, x);
    }
}

proof fn lemma_tail_refused(n: Input, i: int, x: int)
    requires
        tail_asks(n, i, x),
        unsupported(n, x),
    ensures
        n.if_tail(i) is Err,
    decreases n.toks.len() - i, 6int,
{
    if n.is_word(i, "elif"@) {
        lemma_branches_refused(n, i, "elif"@, x);
    } else {
        lemma_list_refused(n, i + 1, Stop::Fi, x);
        assert(n.keyword_list(i, "else"@, Stop::Fi) is Err);
    }
}

proof fn lemma_while_refused(n: Input, i: int, until: bool, x: int)
    requires
        while_asks(n, i, x),
        unsupported(n, x),
    ensures
        n.while_clause(i, until) is Err,
    decreases n.toks.len() - i, 5int,
{
    if list_asks(n, i + 1, Stop::Do, x) {
        lemma_list_refused(n, i + 1, Stop::Do, x);
    } else {
        let j = n.list(i + 1, Stop::Do)->Ok_0.1;
        lemma_list_refused(n, j + 1, Stop::Done, x);
        assert(n.do_group(j) is Err);
    }
}

proof fn lemma_for_refused(n: Input, i: int, x: int)
    requires
        for_asks(n, i, x),
        unsupported(n, x),
    ensures
        n.for_clause(i) is Err,
    decreases n.toks.len() - i, 5int,
{
    let j = if n.is_word(i + 2, "in"@) {
        n.past_items(i + 3)
    } else {
        i + 2
    };
    let k = n.past_separators(j);
    n.lemma_past_items(i + 3);
    n.lemma_past_separators(j);
    lemma_list_refused(n, k + 1, Stop::Done, x);
    assert(n.do_group(k) is Err);
}

// ---------------------------------------------------------------------------
// The laws
// ---------------------------------------------------------------------------

/// A source with its tokens.
pub open spec fn source_of(src: Seq<char>) -> Input {
    Input { src, toks: lex_view(encode_utf8(src))->Ok_0 }
}

/// A command that parses has no heredoc operator.
pub proof fn lemma_no_heredoc(n: Input)
    requires
        tokenized(n),
        n.file() is Ok,
    ensures
        no_heredoc(n, 0, n.toks.len() as int),
{
    assert(n.toks.len() > 0) by {
        reveal(tokenized);
    }
    lemma_list(n, 0, Stop::End);
    let e = n.list(0, Stop::End)->Ok_0.1;
    lemma_end_is_last(n, e);
    lemma_one(n, e);
    lemma_two(n, 0, e, e + 1);
}

/// A command with a here-document is passed through untouched: so is every
/// command with a heredoc operator.
pub proof fn law_here_documents_are_untouched(input: Seq<char>, width: int, x: int)
    requires
        lex_view(encode_utf8(input)) is Ok ==> is_heredoc_op(source_of(input).kind(x)),
    ensures
        format_command_view(input, width) == input,
{
    if lex_view(encode_utf8(input)) is Ok {
        let n = source_of(input);
        let b = encode_utf8(input);
        encode_utf8_valid_utf8(input);
        law_tokens_wf(b);
        law_bodies_are_flushed(b);
        assert(tokenized(n)) by {
            reveal(tokenized);
        }
        if parse_view(input, n.toks) is Ok {
            lemma_no_heredoc(n);
            lemma_inner(n, x);
            assert(!is_heredoc_op(n.kind(x)));
        }
    }
}

/// A command with a function declaration, or with `case`, `select`, `function`,
/// `coproc` or `time`, wherever the grammar asks for a command, is passed through
/// untouched.
pub proof fn law_unsupported_commands_are_untouched(input: Seq<char>, width: int, x: int)
    requires
        lex_view(encode_utf8(input)) is Ok ==> {
            let n = source_of(input);
            list_asks(n, 0, Stop::End, x) && unsupported(n, x)
        },
    ensures
        format_command_view(input, width) == input,
{
    if lex_view(encode_utf8(input)) is Ok {
        lemma_list_refused(source_of(input), 0, Stop::End, x);
    }
}

/// The end of the input is the last token.
proof fn lemma_end_is_last(n: Input, e: int)
    requires
        tokenized(n),
        0 <= e < n.toks.len(),
        n.kind(e) is Eof,
    ensures
        e == n.toks.len() - 1,
{
    reveal(tokenized);
    if e < n.toks.len() - 1 {
        assert(token_wf(bytes(n), n.toks[e]));
    }
}

} // verus!
