//! Reading formatted statements back.
//!
//! The statements of a tree contain lists of statements, so the lemmas here call
//! each other; they go down the tree.

use vstd::prelude::*;
use vstd::string::*;
use vstd::utf8::*;
use crate::apart::{apart_command, apart_list, apart_redirs, apart_stmt, apart_tail};
use crate::ascii;
use crate::ast::{BinCmdOperator, BinaryCmdView, BlockView, CallExprView, CommandView, FileView,
    ForClauseView, IfClauseView, RedirectView, StmtView, SubshellView, WhileClauseView,
    WordIterView, WordView};
use crate::doc::{DocView, Mode, concat_view, interleave, join_view, pretty_view};
use crate::lexer::{Fault, Op, operator_at};
use crate::parser::{Input, Stop, absent, binary_view, plain_stmt, present, raw_word_view, reserved};
use crate::printer::{after_view, body_view, branch_view, break_view, chain_first_view,
    chain_rest_view, closing_view, command_view, else_view, ends_itself, file_view, format_view,
    inline_semicolon, inline_view, keyword_block_view, nest_view, paren_view, part_if, redirs_view,
    segment_view, semicolon_view, separators_view, spaced, starts_with_paren, stmt_view, stmts_view,
    text_view, weave, word_starts_with_paren, words_view};
use crate::reading::{lemma_bang_word, word_text};
use crate::render::{holds, laid, laid_all, law_layout_is_a_rendering, lemma_concat_laid,
    lemma_laid_concat, lemma_laid_join, lemma_laid_prefix, lemma_laid_single, lemma_laid_split,
    line_break};
use crate::reparse::{closes, lemma_at_start, lemma_read_arith, lemma_read_simple, lemma_read_test,
    lemma_redirs_start, lemma_simple_command, lemma_trailing_redirs, opens, trails};
use crate::stable::{at, bang_first, bytes, clean, for_items, gap, good_command, good_list,
    good_redirs, good_stmt, good_tail, good_words, leads, lemma_ascii_holds, lemma_at_blank,
    lemma_at_bounds, lemma_at_end, lemma_at_first, lemma_fd_leads, lemma_holds_split,
    lemma_raw_word_doc, lemma_read_gap, lemma_read_keyword, lemma_read_last_keyword,
    lemma_read_lparen, lemma_read_newlines, lemma_read_op, lemma_read_rparen, lemma_read_word,
    lemma_read_words, lemma_space_text, lemma_stops_word, letters, opaque_call, raw_text, separates,
    stop_word, stops, test_text, tokenized, words_at};
use crate::text::lemma_encode_add;

verus! {

// ---------------------------------------------------------------------------
// The first token of a statement
// ---------------------------------------------------------------------------

/// A reserved word starts a statement.
proof fn lemma_reserved_opens(m: Input, i: int, t: Seq<char>, stop: Stop)
    requires
        m.is_word(i, t),
        reserved(t) || t == "!"@,
    ensures
        opens(m, i, stop),
        t != "!"@ ==> reserved(t),
        reserved(t) ==> t != "!"@,
{
    reveal_strlit("{");
    reveal_strlit("if");
    reveal_strlit("while");
    reveal_strlit("until");
    reveal_strlit("for");
    reveal_strlit("[[");
    reveal_strlit("case");
    reveal_strlit("select");
    reveal_strlit("function");
    reveal_strlit("coproc");
    reveal_strlit("time");
    reveal_strlit("!");
    reveal_strlit("}");
    reveal_strlit("then");
    reveal_strlit("elif");
    reveal_strlit("else");
    reveal_strlit("fi");
    reveal_strlit("do");
    reveal_strlit("done");
    assert(t[0] != '}' && t[0] != 'd' && t[0] != 'e');
    assert(!(t[0] == 't' && t[1] == 'h'));
    assert(!(t[0] == 'f' && t[1] == 'i'));
    assert(reserved(t) ==> t[0] != '!');
}

/// A word that leads a simple command starts a statement.
proof fn lemma_leads_opens(m: Input, i: int, t: Seq<char>, stop: Stop)
    requires
        m.is_word(i, t),
        leads(t),
    ensures
        opens(m, i, stop),
        !reserved(m.text(i)),
        m.is_word(i, "!"@) ==> t == "!"@,
{
    if t == "!"@ {
        lemma_reserved_opens(m, i, t, stop);
    }
}

/// Read the `!` before a command.
proof fn lemma_read_bang(m: Input, i: int, p: int, q: int, stop: Stop)
    requires
        tokenized(m),
        at(m, i, p),
        holds(bytes(m), encode_utf8("! "@), p, q),
    ensures
        m.is_word(i, "!"@),
        i + 1 < m.toks.len(),
        at(m, i + 1, q),
        opens(m, i, stop),
{
    let b = bytes(m);
    reveal_strlit("! ");
    reveal_strlit("!");
    assert("! "@ =~= "!"@ + seq![' ']);
    lemma_holds_split(b, "!"@, seq![' '], p, q);
    let r = p + encode_utf8("!"@).len();
    lemma_ascii_holds(b, seq![' '], r, q);
    assert(seq![' '][0] as u8 == b[r + 0]);
    is_ascii_chars_encode_utf8("!"@);
    assert("!"@[0] as u8 == encode_utf8("!"@)[0]);
    assert(encode_utf8("!"@) =~= seq![ascii::BANG]);
    lemma_bang_word();
    lemma_read_word(m, i, p, r, "!"@);
    lemma_at_blank(m, i + 1, r);
    lemma_reserved_opens(m, i, "!"@, stop);
}

// ---------------------------------------------------------------------------
// The documents of a statement
// ---------------------------------------------------------------------------

/// `s`, in the foreground.
pub open spec fn foreground(s: StmtView) -> StmtView {
    StmtView { background: false, ..s }
}

/// The documents of a statement in the foreground.
proof fn lemma_stmt_docs(b: Seq<u8>, s: StmtView, mode: Mode, p: int, q: int) -> (r: (int, int))
    requires
        laid(b, stmt_view(s), mode, p, q),
        !s.background,
        !s.coprocess,
        s.cmd is Some,
    ensures
        s.negated ==> holds(b, encode_utf8("! "@), p, r.0),
        !s.negated ==> r.0 == p,
        laid(b, command_view(s.cmd->Some_0), mode, r.0, r.1),
        laid_all(b, spaced(redirs_view(s.redirs)), mode, r.1, q),
{
    let neg = part_if(s.negated, text_view("! "@));
    let cmd = seq![command_view(s.cmd->Some_0)];
    let redirs = spaced(redirs_view(s.redirs));
    let none = Seq::<DocView>::empty();
    assert(part_if(s.background, text_view(" &"@)) =~= none);
    assert(part_if(s.coprocess, text_view(" |&"@)) =~= none);
    assert(neg + cmd + redirs + none + none =~= neg + (cmd + redirs));
    lemma_laid_concat(b, neg + (cmd + redirs), mode, p, q);
    let r0 = lemma_laid_split(b, neg, cmd + redirs, mode, p, q);
    let r1 = lemma_laid_split(b, cmd, redirs, mode, r0, q);
    lemma_laid_single(b, cmd[0], mode, r0, r1);
    if s.negated {
        lemma_laid_single(b, text_view("! "@), mode, p, r0);
    }
    (r0, r1)
}

/// A statement in the background is the same in the foreground with ` &` behind
/// it.
proof fn lemma_background_docs(b: Seq<u8>, s: StmtView, mode: Mode, p: int, q: int) -> (r: int)
    requires
        laid(b, stmt_view(s), mode, p, q),
        s.background,
        !s.coprocess,
    ensures
        laid(b, stmt_view(foreground(s)), mode, p, r),
        holds(b, encode_utf8(" &"@), r, q),
{
    let neg = part_if(s.negated, text_view("! "@));
    let cmd = match s.cmd {
        Some(c) => seq![command_view(c)],
        None => seq![],
    };
    let redirs = spaced(redirs_view(s.redirs));
    let none = Seq::<DocView>::empty();
    let amp = seq![text_view(" &"@)];
    assert(part_if(s.background, text_view(" &"@)) =~= amp);
    assert(part_if(s.coprocess, text_view(" |&"@)) =~= none);
    assert(part_if(false, text_view(" &"@)) =~= none);
    let docs = neg + cmd + redirs;
    assert(docs + amp + none =~= docs + amp);
    assert(docs + none + none =~= docs);
    lemma_laid_concat(b, docs + amp, mode, p, q);
    let r = lemma_laid_split(b, docs, amp, mode, p, q);
    lemma_laid_single(b, amp[0], mode, r, q);
    lemma_concat_laid(b, docs, mode, p, r);
    r
}

/// A chain, opened: its operands one after the other.
proof fn lemma_chain_docs(b: Seq<u8>, s: StmtView, mode: Mode, p: int, q: int) -> (inner: Mode)
    requires
        laid(b, stmt_view(s), mode, p, q),
        s.cmd is Some,
        s.cmd->Some_0 is Binary ==> {
            &&& !s.negated
            &&& !s.background
            &&& !s.coprocess
            &&& s.redirs == Seq::<RedirectView>::empty()
        },
    ensures
        laid_all(b, seq![chain_first_view(s)] + chain_rest_view(s), inner, p, q),
{
    match s.cmd {
        Some(CommandView::Binary(x)) => {
            let _ = lemma_stmt_docs(b, s, mode, p, q);
            assert(redirs_view(s.redirs) =~= seq![]);
            assert(spaced(redirs_view(s.redirs)) =~= seq![]);
            let first = chain_first_view(x.x);
            let rest = chain_rest_view(x.x).push(segment_view(x.op, stmt_view(x.y)));
            let body = concat_view(seq![first, nest_view(concat_view(rest))]);
            let inner = if laid(b, body, Mode::Flat, p, q) {
                Mode::Flat
            } else {
                Mode::Break
            };
            assert(laid(b, body, inner, p, q));
            lemma_laid_concat(b, seq![first, nest_view(concat_view(rest))], inner, p, q);
            let docs = seq![first] + seq![nest_view(concat_view(rest))];
            assert(seq![first, nest_view(concat_view(rest))] =~= docs);
            let r = lemma_laid_split(b, seq![first], seq![nest_view(concat_view(rest))], inner, p, q);
            lemma_laid_single(b, nest_view(concat_view(rest)), inner, r, q);
            lemma_laid_concat(b, rest, inner, r, q);
            lemma_laid_join(b, seq![first], rest, inner, p, r, q);
            inner
        },
        _ => {
            assert(seq![chain_first_view(s)] + chain_rest_view(s) =~= seq![stmt_view(s)]);
            lemma_laid_single(b, stmt_view(s), mode, p, q);
            mode
        },
    }
}

/// The first of several documents with separators between them.
proof fn lemma_weave_front(docs: Seq<DocView>, seps: Seq<DocView>)
    requires
        docs.len() > 1,
        seps.len() == docs.len(),
    ensures
        weave(docs, seps) == seq![docs[0]] + (seq![seps[0]] + weave(
            docs.drop_first(),
            seps.drop_first(),
        )),
    decreases docs.len(),
{
    let rest = docs.drop_first();
    let ends = seps.drop_first();
    if docs.len() == 2 {
        assert(docs.drop_last() =~= seq![docs[0]]);
        assert(weave(docs.drop_last(), seps) =~= seq![docs[0]]);
        assert(weave(rest, ends) =~= seq![docs[1]]);
        assert(weave(docs, seps) =~= seq![docs[0]] + (seq![seps[0]] + weave(rest, ends)));
    } else {
        lemma_weave_prefix(docs.drop_last(), seps);
        lemma_weave_prefix(rest.drop_last(), ends);
        lemma_weave_front(docs.drop_last(), seps.drop_last());
        assert(docs.drop_last().drop_first() =~= rest.drop_last());
        assert(seps.drop_last().drop_first() =~= ends.drop_last());
        assert(docs.drop_last()[0] == docs[0]);
        assert(rest.last() == docs.last());
        assert(ends[rest.len() - 2] == seps[docs.len() - 2]);
        assert(weave(docs, seps) =~= seq![docs[0]] + (seq![seps[0]] + weave(rest, ends)));
    }
}

/// A separator behind the last document does not matter.
proof fn lemma_weave_prefix(docs: Seq<DocView>, seps: Seq<DocView>)
    requires
        seps.len() == docs.len() + 1,
    ensures
        weave(docs, seps) == weave(docs, seps.drop_last()),
    decreases docs.len(),
{
    if docs.len() > 1 {
        lemma_weave_any(docs, seps, seps.drop_last());
    }
}

/// Only the separators between the documents matter.
proof fn lemma_weave_any(docs: Seq<DocView>, a: Seq<DocView>, b: Seq<DocView>)
    requires
        forall|i: int| 0 <= i < docs.len() - 1 ==> #[trigger] a[i] == b[i],
    ensures
        weave(docs, a) == weave(docs, b),
    decreases docs.len(),
{
    if docs.len() > 1 {
        lemma_weave_any(docs.drop_last(), a, b);
        assert(a[docs.len() - 2] == b[docs.len() - 2]);
    }
}

/// Documents with the same separator between each pair.
proof fn lemma_weave_same(docs: Seq<DocView>, sep: DocView, seps: Seq<DocView>)
    requires
        forall|i: int| 0 <= i < docs.len() ==> #[trigger] seps[i] == sep,
    ensures
        interleave(sep, docs) == weave(docs, seps),
    decreases docs.len(),
{
    if docs.len() > 1 {
        lemma_weave_same(docs.drop_last(), sep, seps);
        assert(seps[docs.len() - 2] == sep);
    }
}

// ---------------------------------------------------------------------------
// Separators
// ---------------------------------------------------------------------------

/// Whether `nl` is a break of a body.
pub open spec fn is_break(nl: DocView) -> bool {
    nl == DocView::Line || nl == DocView::HardLine
}

/// Whether `sep` is what stands between `s` and another statement.
pub open spec fn is_separator(s: StmtView, sep: DocView) -> bool {
    ||| sep == DocView::HardLine
    ||| exists|semi: DocView, nl: DocView| #[trigger]
        is_ending(semi, nl) && sep == concat_view(seq![semicolon_view(s, semi), nl])
}

/// Whether `semi` and `nl` are the `;` and the break between statements.
pub open spec fn is_ending(semi: DocView, nl: DocView) -> bool {
    ||| semi == text_view(";"@) && nl == text_view(" "@)
    ||| semi == inline_semicolon() && is_break(nl)
}

/// Whether `seps` are what stands between the statements `stmts`.
#[verifier::opaque]
pub open spec fn are_separators(stmts: Seq<StmtView>, seps: Seq<DocView>) -> bool {
    &&& seps.len() == stmts.len()
    &&& forall|i: int| 0 <= i < stmts.len() ==> is_separator(stmts[i], #[trigger] seps[i])
}

/// The separators of a body.
proof fn lemma_body_separators(stmts: Seq<StmtView>, semi: DocView, nl: DocView)
    requires
        is_ending(semi, nl),
    ensures
        are_separators(stmts, separators_view(stmts, semi, nl)),
{
    reveal(are_separators);
}

/// Whether what lies between `p` and `q` ends the statement `s`.
pub open spec fn ends_stmt(b: Seq<u8>, s: StmtView, p: int, q: int) -> bool {
    &&& gap(b, p, q)
    &&& p < q
    &&& ends_itself(s) || separates(b, p, q)
}

/// A break of a body is a gap.
proof fn lemma_break_gap(b: Seq<u8>, nl: DocView, mode: Mode, p: int, q: int)
    requires
        is_break(nl),
        laid(b, nl, mode, p, q),
    ensures
        gap(b, p, q),
        p < q,
        stops(b, p),
        b[p] == ascii::SPACE || b[p] == ascii::NEWLINE,
        mode == Mode::Break ==> separates(b, p, q),
{
    if mode == Mode::Break || nl == DocView::HardLine {
        assert(line_break(b, p, q));
        assert(b[p] == ascii::NEWLINE);
    }
}

/// A blank, or a break.
proof fn lemma_ending_gap(b: Seq<u8>, semi: DocView, nl: DocView, mode: Mode, p: int, q: int)
    requires
        is_ending(semi, nl),
        laid(b, nl, mode, p, q),
    ensures
        gap(b, p, q),
        p < q,
        b[p] == ascii::SPACE || b[p] == ascii::NEWLINE,
        is_break(nl) && mode == Mode::Break ==> separates(b, p, q),
{
    if is_break(nl) {
        lemma_break_gap(b, nl, mode, p, q);
    } else {
        lemma_space_text(b, p, q);
    }
}

/// The `;` behind `s`, if it needs one, with a break behind it is a gap.
proof fn lemma_semicolon_gap(
    b: Seq<u8>,
    s: StmtView,
    semi: DocView,
    nl: DocView,
    mode: Mode,
    p: int,
    r: int,
    q: int,
)
    requires
        is_ending(semi, nl),
        laid(b, semicolon_view(s, semi), mode, p, r),
        laid(b, nl, mode, r, q),
    ensures
        ends_stmt(b, s, p, q),
{
    lemma_ending_gap(b, semi, nl, mode, r, q);
    if ends_itself(s) || (semi == inline_semicolon() && mode == Mode::Break) {
        assert(laid(b, DocView::Nil, mode, p, r));
    } else {
        reveal_strlit(";");
        assert(laid(b, text_view(";"@), mode, p, r));
        lemma_ascii_holds(b, ";"@, p, r);
        assert(";"@[0] as u8 == b[p + 0]);
        assert(b[p] == ascii::SEMI);
    }
}

/// The `;` of a body, with a break behind it, ends the last statement.
proof fn lemma_closing_gap(
    b: Seq<u8>,
    stmts: Seq<StmtView>,
    nl: DocView,
    mode: Mode,
    p: int,
    r: int,
    q: int,
)
    requires
        is_break(nl),
        laid(b, closing_view(stmts, inline_semicolon()), mode, p, r),
        laid(b, nl, mode, r, q),
    ensures
        ends_list(b, last_ends(stmts), p, q),
{
    reveal(ends_list);
    let semi = inline_semicolon();
    if stmts.len() > 0 {
        lemma_semicolon_gap(b, stmts.last(), semi, nl, mode, p, r, q);
    } else {
        lemma_break_gap(b, nl, mode, r, q);
        if mode == Mode::Flat {
            reveal_strlit(";");
            assert(laid(b, text_view(";"@), mode, p, r));
            lemma_ascii_holds(b, ";"@, p, r);
            assert(";"@[0] as u8 == b[p + 0]);
            assert(b[p] == ascii::SEMI);
        } else {
            assert(laid(b, DocView::Nil, mode, p, r));
        }
    }
}

/// Whether the last of `stmts` ends itself.
pub open spec fn last_ends(stmts: Seq<StmtView>) -> bool {
    stmts.len() > 0 && ends_itself(stmts.last())
}

/// Whether what lies between `p` and `q` ends a list of statements, the last of
/// which ends itself if `ended`.
#[verifier::opaque]
pub open spec fn ends_list(b: Seq<u8>, ended: bool, p: int, q: int) -> bool {
    &&& gap(b, p, q)
    &&& ({
        ||| q == b.len()
        ||| b[q] == ascii::RPAREN
        ||| p < q && (separates(b, p, q) || ended)
    })
}

/// What ends a list is a gap.
proof fn lemma_ends_gap(b: Seq<u8>, ended: bool, p: int, q: int)
    requires
        ends_list(b, ended, p, q),
    ensures
        gap(b, p, q),
        p < q || q == b.len() || b[q] == ascii::RPAREN,
        ended || separates(b, p, q) || q == b.len() || b[q] == ascii::RPAREN,
{
    reveal(ends_list);
}

/// What stands behind a condition ends it.
proof fn lemma_after_gap(b: Seq<u8>, cond: Seq<StmtView>, mode: Mode, p: int, q: int)
    requires
        laid(b, after_view(cond), mode, p, q),
    ensures
        ends_list(b, last_ends(cond), p, q),
{
    reveal(ends_list);
    if cond.len() > 0 && ends_itself(cond.last()) {
        lemma_space_text(b, p, q);
    } else {
        lemma_semicolon_text(b, p, q);
    }
}

/// The text `; ` is a gap.
proof fn lemma_semicolon_text(b: Seq<u8>, p: int, q: int)
    requires
        holds(b, encode_utf8("; "@), p, q),
    ensures
        gap(b, p, q),
        p < q,
        stops(b, p),
        separates(b, p, q),
{
    reveal_strlit("; ");
    lemma_ascii_holds(b, "; "@, p, q);
    assert("; "@[0] as u8 == b[p + 0]);
    assert("; "@[1] as u8 == b[p + 1]);
    assert(b[p] == ascii::SEMI);
}

/// What stands between statements is a gap that ends the first.
proof fn lemma_separator_gap(b: Seq<u8>, s: StmtView, sep: DocView, mode: Mode, p: int, q: int)
    requires
        is_separator(s, sep),
        laid(b, sep, mode, p, q),
    ensures
        ends_stmt(b, s, p, q),
{
    if sep == DocView::HardLine {
        lemma_break_gap(b, sep, mode, p, q);
        assert(b[p] == ascii::NEWLINE);
    } else {
        let (semi, nl) = choose|semi: DocView, nl: DocView| #[trigger]
            is_ending(semi, nl) && sep == concat_view(seq![semicolon_view(s, semi), nl]);
        let end = semicolon_view(s, semi);
        let docs = seq![end] + seq![nl];
        assert(seq![end, nl] =~= docs);
        lemma_laid_concat(b, docs, mode, p, q);
        let r = lemma_laid_split(b, seq![end], seq![nl], mode, p, q);
        lemma_laid_single(b, end, mode, p, r);
        lemma_laid_single(b, nl, mode, r, q);
        lemma_semicolon_gap(b, s, semi, nl, mode, p, r, q);
    }
}

// ---------------------------------------------------------------------------
// Lists of tokens
// ---------------------------------------------------------------------------

proof fn lemma_at_stop(m: Input, e: int, t: Seq<char>, stop: Stop)
    requires
        m.is_word(e, t),
        stop_word(stop, t),
    ensures
        m.at_stop(e, stop),
{
}

/// The end of a list.
proof fn lemma_list_end(m: Input, i0: int, i: int, stop: Stop)
    requires
        m.past_separators(i0) == m.past_separators(i),
        m.kind(i) is Eof || m.at_stop(i, stop),
    ensures
        m.list(i0, stop) == Ok::<(Seq<StmtView>, int), Fault>((seq![], i)),
{
    assert(m.past_separators(i) == i);
}

/// One statement in front of a list.
proof fn lemma_list_step(
    m: Input,
    i0: int,
    i: int,
    s: StmtView,
    k: int,
    rest: Seq<StmtView>,
    e: int,
    stop: Stop,
)
    requires
        m.past_separators(i0) == m.past_separators(i),
        opens(m, i, stop),
        m.list_item(i, stop) == Ok::<(StmtView, int), Fault>((s, k)),
        i0 < k <= m.toks.len(),
        m.list(k, stop) == Ok::<(Seq<StmtView>, int), Fault>((rest, e)),
    ensures
        m.list(i0, stop) == Ok::<(Seq<StmtView>, int), Fault>((seq![s] + rest, e)),
{
    assert(m.past_separators(i) == i);
}

/// Whether token `j` joins commands to a chain.
pub open spec fn joins(m: Input, j: int) -> bool {
    ||| m.is_op(j, Op::Pipe)
    ||| m.is_op(j, Op::PipeAmp)
    ||| m.is_op(j, Op::AndIf)
    ||| m.is_op(j, Op::OrIf)
}

/// The operator of a chain.
pub open spec fn chain_op(op: BinCmdOperator) -> Op {
    match op {
        BinCmdOperator::AndStmt => Op::AndIf,
        BinCmdOperator::OrStmt => Op::OrIf,
        BinCmdOperator::Pipe => Op::Pipe,
        BinCmdOperator::PipeAll => Op::PipeAmp,
    }
}

/// Read an operator of a chain and the break behind it.
proof fn lemma_read_segment(
    m: Input,
    i: int,
    p: int,
    q: int,
    mode: Mode,
    op: BinCmdOperator,
    operand: DocView,
) -> (res: (int, int))
    requires
        tokenized(m),
        at(m, i, p),
        laid(bytes(m), segment_view(op, operand), mode, p, q),
    ensures
        m.is_op(i, chain_op(op)),
        i < res.0,
        at(m, res.0, res.1),
        m.past_newlines(i + 1) == m.past_newlines(res.0),
        laid(bytes(m), operand, mode, res.1, q),
        stops(bytes(m), p),
{
    let b = bytes(m);
    let text = " "@ + op.spelling();
    let docs = seq![text_view(text)] + (seq![DocView::Line] + seq![operand]);
    assert(seq![text_view(text), DocView::Line, operand] =~= docs);
    lemma_laid_concat(b, docs, mode, p, q);
    let r1 = lemma_laid_split(
        b,
        seq![text_view(text)],
        seq![DocView::Line] + seq![operand],
        mode,
        p,
        q,
    );
    let r2 = lemma_laid_split(b, seq![DocView::Line], seq![operand], mode, r1, q);
    lemma_laid_single(b, text_view(text), mode, p, r1);
    lemma_laid_single(b, DocView::Line, mode, r1, r2);
    lemma_laid_single(b, operand, mode, r2, q);
    lemma_break_gap(b, DocView::Line, mode, r1, r2);
    reveal_strlit(" ");
    reveal_strlit("&&");
    reveal_strlit("||");
    reveal_strlit("|");
    reveal_strlit("|&");
    assert(is_ascii_chars(text)) by {
        assert forall|k: int| 0 <= k < text.len() implies '\0' <= #[trigger] text[k] <= '\u{7f}' by {
            if k > 0 {
                assert(text[k] == op.spelling()[k - 1]);
            }
        }
    }
    lemma_ascii_holds(b, text, p, r1);
    assert(text[0] as u8 == b[p + 0]);
    assert(text[1] as u8 == b[p + 1]);
    if text.len() > 2 {
        assert(text[2] as u8 == b[p + 2]);
    }
    lemma_at_blank(m, i, p);
    let tok = chain_op(op);
    assert(operator_at(b, p + 1) == Some(tok));
    lemma_read_op(m, i, p + 1, tok);
    let k = lemma_read_newlines(m, i + 1, r1, r2, mode);
    (k, r2)
}

// ---------------------------------------------------------------------------
// Several documents in a row
// ---------------------------------------------------------------------------

proof fn lemma_laid_three(
    b: Seq<u8>,
    x: DocView,
    y: DocView,
    z: DocView,
    mode: Mode,
    p: int,
    q: int,
) -> (r: (int, int))
    requires
        laid_all(b, seq![x, y, z], mode, p, q),
    ensures
        laid(b, x, mode, p, r.0),
        laid(b, y, mode, r.0, r.1),
        laid(b, z, mode, r.1, q),
{
    assert(seq![x, y, z] =~= seq![x] + (seq![y] + seq![z]));
    let r0 = lemma_laid_split(b, seq![x], seq![y] + seq![z], mode, p, q);
    let r1 = lemma_laid_split(b, seq![y], seq![z], mode, r0, q);
    lemma_laid_single(b, x, mode, p, r0);
    lemma_laid_single(b, y, mode, r0, r1);
    lemma_laid_single(b, z, mode, r1, q);
    (r0, r1)
}

proof fn lemma_laid_five(
    b: Seq<u8>,
    v: DocView,
    w: DocView,
    x: DocView,
    y: DocView,
    z: DocView,
    mode: Mode,
    p: int,
    q: int,
) -> (r: (int, int, int, int))
    requires
        laid_all(b, seq![v, w, x, y, z], mode, p, q),
    ensures
        laid(b, v, mode, p, r.0),
        laid(b, w, mode, r.0, r.1),
        laid(b, x, mode, r.1, r.2),
        laid(b, y, mode, r.2, r.3),
        laid(b, z, mode, r.3, q),
{
    assert(seq![v, w, x, y, z] =~= seq![v] + (seq![w] + seq![x, y, z]));
    let r0 = lemma_laid_split(b, seq![v], seq![w] + seq![x, y, z], mode, p, q);
    let r1 = lemma_laid_split(b, seq![w], seq![x, y, z], mode, r0, q);
    lemma_laid_single(b, v, mode, p, r0);
    lemma_laid_single(b, w, mode, r0, r1);
    let (r2, r3) = lemma_laid_three(b, x, y, z, mode, r1, q);
    (r0, r1, r2, r3)
}

/// The keywords are made of letters, and some are printed with a blank behind
/// them.
proof fn lemma_keywords()
    ensures
        letters("{"@),
        letters("}"@),
        letters("if"@),
        letters("then"@),
        letters("elif"@),
        letters("else"@),
        letters("fi"@),
        letters("while"@),
        letters("until"@),
        letters("for"@),
        letters("in"@),
        letters("do"@),
        letters("done"@),
        "if "@ == "if"@ + seq![' '],
        "elif "@ == "elif"@ + seq![' '],
        "while "@ == "while"@ + seq![' '],
        "until "@ == "until"@ + seq![' '],
        "for "@ == "for"@ + seq![' '],
        " in "@ == seq![' '] + ("in"@ + seq![' ']),
{
    reveal_strlit("{");
    reveal_strlit("}");
    reveal_strlit("if");
    reveal_strlit("then");
    reveal_strlit("elif");
    reveal_strlit("else");
    reveal_strlit("fi");
    reveal_strlit("while");
    reveal_strlit("until");
    reveal_strlit("for");
    reveal_strlit("in");
    reveal_strlit("do");
    reveal_strlit("done");
    reveal_strlit("if ");
    reveal_strlit("elif ");
    reveal_strlit("while ");
    reveal_strlit("until ");
    reveal_strlit("for ");
    reveal_strlit(" in ");
    assert("if "@ =~= "if"@ + seq![' ']);
    assert("elif "@ =~= "elif"@ + seq![' ']);
    assert("while "@ =~= "while"@ + seq![' ']);
    assert("until "@ =~= "until"@ + seq![' ']);
    assert("for "@ =~= "for"@ + seq![' ']);
    assert(" in "@ =~= seq![' '] + ("in"@ + seq![' ']));
}

// ---------------------------------------------------------------------------
// Steps of the parser
// ---------------------------------------------------------------------------

proof fn lemma_redirected(m: Input, cmd: CommandView, k: int, redirs: Seq<RedirectView>, j: int)
    requires
        trails(m, k, redirs, j),
        closes(m, j),
    ensures
        m.redirected(Ok((cmd, k))) == Ok::<((CommandView, Seq<RedirectView>), int), Fault>(
            ((cmd, redirs), j),
        ),
{
    reveal(trails);
    assert(m.trailing_redirs(j) == Ok::<(Seq<RedirectView>, int), Fault>((seq![], j)));
    assert(redirs + seq![] =~= redirs);
}

proof fn lemma_command_stmt_step(m: Input, i: int, s: StmtView, j: int)
    requires
        s.cmd is Some,
        m.is_word(i, "!"@) == s.negated,
        m.command(
            if s.negated {
                i + 1
            } else {
                i
            },
        ) == Ok::<((CommandView, Seq<RedirectView>), int), Fault>(((s.cmd->Some_0, s.redirs), j)),
        s.comments == Seq::<crate::ast::CommentView>::empty(),
        s.position == absent(),
        s.semicolon == absent(),
        !s.coprocess,
    ensures
        m.command_stmt(i) == Ok::<(StmtView, int), Fault>((foreground(s), j)),
{
    let f = StmtView { negated: s.negated, redirs: s.redirs, ..plain_stmt(s.cmd->Some_0) };
    assert(f.comments =~= s.comments);
    assert(f == foreground(s));
}

/// Whether the text of `cmd` starts with `(`.
pub open spec fn paren_first(cmd: CommandView) -> bool {
    match cmd {
        CommandView::Subshell(_) => true,
        CommandView::Call(c) => c.args.len() > 0 && word_starts_with_paren(c.args[0]),
        _ => false,
    }
}

/// Whether `cmd` is read by a keyword or a parenthesis, not word by word.
pub open spec fn is_unit(n: Input, cmd: CommandView) -> bool {
    match cmd {
        CommandView::Call(c) => opaque_call(n, c) && c.assigns == Seq::<
            crate::ast::AssignView,
        >::empty(),
        _ => true,
    }
}

/// The text of an opaque command.
proof fn lemma_opaque_text(
    b: Seq<u8>,
    n: Input,
    c: CallExprView,
    mode: Mode,
    p: int,
    q: int,
)
    requires
        opaque_call(n, c),
        c.assigns == Seq::<crate::ast::AssignView>::empty(),
        laid(b, command_view(CommandView::Call(c)), mode, p, q),
    ensures
        holds(b, encode_utf8(raw_text(c.args[0])), p, q),
{
    let docs = words_view(c.args);
    assert(crate::printer::assigns_view(c.assigns) + docs =~= docs);
    let sp = text_view(" "@);
    assert(interleave(sp, docs) =~= seq![docs[0]]);
    lemma_laid_concat(b, interleave(sp, docs), mode, p, q);
    lemma_laid_single(b, docs[0], mode, p, q);
    lemma_raw_word_doc(raw_text(c.args[0]));
}

/// Read an opaque command.
proof fn lemma_read_opaque(
    m: Input,
    n: Input,
    i: int,
    p: int,
    q: int,
    mode: Mode,
    c: CallExprView,
    stop: Stop,
) -> (k: int)
    requires
        clean(n),
        tokenized(m),
        at(m, i, p),
        opaque_call(n, c),
        c.assigns == Seq::<crate::ast::AssignView>::empty(),
        laid(bytes(m), command_view(CommandView::Call(c)), mode, p, q),
        stops(bytes(m), q),
    ensures
        i < k < m.toks.len(),
        at(m, k, q),
        m.command(i) == m.redirected(Ok((CommandView::Call(c), k))),
        opens(m, i, stop),
        !m.is_word(i, "!"@),
        m.is_op(i, Op::LParen) ==> paren_first(CommandView::Call(c)),
{
    let t = raw_text(c.args[0]);
    lemma_opaque_text(bytes(m), n, c, mode, p, q);
    let want = crate::parser::call_view(seq![raw_word_view(t)]);
    assert(want == CommandView::Call(c)) by {
        assert(c.args =~= seq![raw_word_view(t)]);
        assert(c == CallExprView { assigns: seq![], args: seq![raw_word_view(t)] });
    }
    if test_text(n, t) {
        let k = lemma_read_test(n, t, m, i, p, q);
        lemma_reserved_opens(m, i, "[["@, stop);
        lemma_test_dispatch(m, i);
        k
    } else {
        lemma_read_arith(n, t, m, i, p, q)
    }
}

proof fn lemma_test_dispatch(m: Input, i: int)
    requires
        m.is_word(i, "[["@),
    ensures
        m.command(i) == m.redirected(m.test_opaque(i)),
{
    reveal_strlit("{");
    reveal_strlit("if");
    reveal_strlit("while");
    reveal_strlit("until");
    reveal_strlit("for");
    reveal_strlit("[[");
    assert(m.text(i)[0] == '[');
}

/// Read a simple command of words.
proof fn lemma_read_call(
    m: Input,
    i: int,
    p: int,
    r: int,
    q: int,
    mode: Mode,
    c: CallExprView,
    redirs: Seq<RedirectView>,
    stop: Stop,
) -> (j: int)
    requires
        tokenized(m),
        at(m, i, p),
        c.assigns == Seq::<crate::ast::AssignView>::empty(),
        good_words(c.args),
        good_redirs(redirs),
        apart_redirs(redirs),
        c.args.len() + redirs.len() > 0,
        c.args.len() > 0 ==> leads(raw_text(c.args[0])),
        laid(bytes(m), command_view(CommandView::Call(c)), mode, p, r),
        laid_all(bytes(m), spaced(redirs_view(redirs)), mode, r, q),
        stops(bytes(m), q),
    ensures
        i < j < m.toks.len(),
        at(m, j, q),
        closes(m, j) ==> m.command(i) == Ok::<((CommandView, Seq<RedirectView>), int), Fault>(
            ((CommandView::Call(c), redirs), j),
        ),
        opens(m, i, stop),
        m.is_word(i, "!"@) ==> c.args.len() > 0 && raw_text(c.args[0]) == "!"@,
        !m.is_op(i, Op::LParen),
{
    let b = bytes(m);
    let docs = words_view(c.args);
    assert(crate::printer::assigns_view(c.assigns) + docs =~= docs);
    lemma_laid_concat(b, interleave(text_view(" "@), docs), mode, p, r);
    let j = lemma_read_simple(m, i, p, r, q, mode, c.args, redirs);
    assert(crate::parser::call_view(c.args) == CommandView::Call(c)) by {
        assert(c == CallExprView { assigns: seq![], args: c.args });
    }
    if c.args.len() > 0 {
        let t = raw_text(c.args[0]);
        assert(crate::stable::good_word(c.args[0]));
        lemma_leads_opens(m, i, t, stop);
    } else {
        match redirs[0].n {
            Some(l) => {
                lemma_fd_leads(l.value);
                lemma_leads_opens(m, i, l.value, stop);
            },
            None => {},
        }
    }
    lemma_simple_command(m, i);
    j
}

/// A statement that is a chain has nothing but the chain.
proof fn lemma_binary_shape(n: Input, s: StmtView, x: BinaryCmdView, level: int)
    requires
        good_stmt(n, s, level),
        s.cmd == Some(CommandView::Binary(Box::new(x))),
    ensures
        binary_view(x.op, x.x, x.y) == foreground(s),
{
    let f = foreground(s);
    let g = binary_view(x.op, x.x, x.y);
    assert(f.comments =~= g.comments);
    assert(f.redirs =~= g.redirs);
    assert(x == BinaryCmdView { op_pos: absent(), op: x.op, x: x.x, y: x.y });
}

proof fn lemma_segment_start(
    b: Seq<u8>,
    p: int,
    q: int,
    mode: Mode,
    op: BinCmdOperator,
    operand: DocView,
)
    requires
        laid(b, segment_view(op, operand), mode, p, q),
    ensures
        stops(b, p),
{
    let text = " "@ + op.spelling();
    lemma_laid_concat(b, seq![text_view(text), DocView::Line, operand], mode, p, q);
    let (r1, _r2) = lemma_laid_three(b, text_view(text), DocView::Line, operand, mode, p, q);
    lemma_holds_split(b, " "@, op.spelling(), p, r1);
    lemma_space_text(b, p, p + encode_utf8(" "@).len());
}

/// A command is a pipeline, and a pipeline the start of a chain.
proof fn lemma_first_command(m: Input, i: int, j: int, s: StmtView)
    requires
        m.command_stmt(i) == Ok::<(StmtView, int), Fault>((s, j)),
        i < j < m.toks.len(),
    ensures
        m.pipeline(i) == m.pipeline_rest(s, j),
        !m.is_op(j, Op::Pipe) && !m.is_op(j, Op::PipeAmp) ==> m.and_or(i) == m.and_or_rest(s, j),
{
}

/// One more command in a pipeline.
proof fn lemma_pipeline_step(
    m: Input,
    i: int,
    jx: int,
    k: int,
    j: int,
    op: BinCmdOperator,
    x: StmtView,
    y: StmtView,
)
    requires
        i < jx < k < j < m.toks.len(),
        op is Pipe || op is PipeAll,
        m.is_op(jx, chain_op(op)),
        m.pipeline(i) == m.pipeline_rest(x, jx),
        m.past_newlines(jx + 1) == m.past_newlines(k),
        m.kind(k) !is Newline,
        m.command_stmt(k) == Ok::<(StmtView, int), Fault>((y, j)),
    ensures
        m.pipeline(i) == m.pipeline_rest(binary_view(op, x, y), j),
        !m.is_op(j, Op::Pipe) && !m.is_op(j, Op::PipeAmp) ==> m.and_or(i) == m.and_or_rest(
            binary_view(op, x, y),
            j,
        ),
{
    assert(m.past_newlines(k) == k);
    assert(m.pipeline_rest(x, jx) == m.pipeline_rest(binary_view(op, x, y), j));
    if !m.is_op(j, Op::Pipe) && !m.is_op(j, Op::PipeAmp) {
        assert(m.pipeline_rest(binary_view(op, x, y), j) == Ok::<(StmtView, int), Fault>(
            (binary_view(op, x, y), j),
        ));
    }
}

/// One more pipeline in a chain.
proof fn lemma_and_or_step(
    m: Input,
    i: int,
    jx: int,
    k: int,
    j: int,
    op: BinCmdOperator,
    x: StmtView,
    y: StmtView,
)
    requires
        i < jx < k < j < m.toks.len(),
        op is AndStmt || op is OrStmt,
        m.is_op(jx, chain_op(op)),
        m.and_or(i) == m.and_or_rest(x, jx),
        m.past_newlines(jx + 1) == m.past_newlines(k),
        m.kind(k) !is Newline,
        m.pipeline(k) == m.pipeline_rest(y, j),
        !m.is_op(j, Op::Pipe),
        !m.is_op(j, Op::PipeAmp),
    ensures
        m.and_or(i) == m.and_or_rest(binary_view(op, x, y), j),
{
    assert(m.past_newlines(k) == k);
    assert(m.pipeline_rest(y, j) == Ok::<(StmtView, int), Fault>((y, j)));
}

/// The last statement of a list.
proof fn lemma_last_item(m: Input, i0: int, i: int, j: int, e: int, s: StmtView, stop: Stop)
    requires
        0 <= i0 <= i < j <= e < m.toks.len(),
        m.past_separators(i0) == m.past_separators(i),
        opens(m, i, stop),
        s.background ==> m.list_item(i, stop) == Ok::<(StmtView, int), Fault>((s, j)),
        !s.background && closes(m, j) && !joins(m, j) ==> m.and_or(i) == Ok::<
            (StmtView, int),
            Fault,
        >((s, j)),
        m.past_separators(j) == m.past_separators(e),
        s.background || m.kind(j) is Newline || m.is_op(j, Op::Semi) || (j == e && (m.kind(
            j,
        ) is Eof || m.is_op(j, Op::RParen))),
        m.kind(e) is Eof || m.at_stop(e, stop),
    ensures
        m.list(i0, stop) == Ok::<(Seq<StmtView>, int), Fault>((seq![s], e)),
{
    let none = Seq::<StmtView>::empty();
    assert(seq![s] + none =~= seq![s]);
    if s.background || j == e {
        lemma_list_end(m, j, e, stop);
        assert(m.list_item(i, stop) == Ok::<(StmtView, int), Fault>((s, j)));
        lemma_list_step(m, i0, i, s, j, none, e, stop);
    } else {
        lemma_list_end(m, j + 1, e, stop);
        assert(m.list_item(i, stop) == Ok::<(StmtView, int), Fault>((s, j + 1)));
        lemma_list_step(m, i0, i, s, j + 1, none, e, stop);
    }
}

/// The documents of the condition and the body of an `if` or `elif`.
pub open spec fn condition_docs(keyword: Seq<char>, nl: DocView, x: IfClauseView) -> Seq<DocView> {
    seq![
        text_view(keyword + seq![' ']),
        inline_view(x.cond),
        after_view(x.cond),
        concat_view(branch_view("then"@, nl, x.then_)),
        nl,
    ]
}

/// A body starts with a break, so the keyword before it ends there.
proof fn lemma_body_start(
    b: Seq<u8>,
    nl: DocView,
    stmts: Seq<StmtView>,
    mode: Mode,
    p: int,
    q: int,
)
    requires
        is_break(nl),
        laid(
            b,
            nest_view(concat_view(seq![nl, body_view(stmts, inline_semicolon(), nl)])),
            mode,
            p,
            q,
        ),
    ensures
        stops(b, p),
{
    let body = body_view(stmts, inline_semicolon(), nl);
    let docs = seq![nl] + seq![body];
    assert(seq![nl, body] =~= docs);
    assert(laid(b, concat_view(docs), mode, p, q));
    lemma_laid_concat(b, docs, mode, p, q);
    let r = lemma_laid_split(b, seq![nl], seq![body], mode, p, q);
    lemma_laid_single(b, nl, mode, p, r);
    lemma_break_gap(b, nl, mode, p, r);
}

/// The keywords that start compound commands differ.
proof fn lemma_keywords_differ()
    ensures
        "{"@ != "if"@,
        "{"@ != "while"@,
        "{"@ != "until"@,
        "{"@ != "for"@,
        "if"@ != "while"@,
        "if"@ != "until"@,
        "if"@ != "for"@,
        "while"@ != "until"@,
        "while"@ != "for"@,
        "until"@ != "for"@,
        "elif"@ != "else"@,
        "elif"@ != "fi"@,
        "else"@ != "fi"@,
{
    reveal_strlit("{");
    reveal_strlit("if");
    reveal_strlit("while");
    reveal_strlit("until");
    reveal_strlit("for");
    reveal_strlit("elif");
    reveal_strlit("else");
    reveal_strlit("fi");
    assert("{"@[0] == '{');
    assert("if"@[0] == 'i');
    assert("while"@[0] == 'w');
    assert("until"@[0] == 'u');
    assert("for"@[0] == 'f');
    assert("elif"@[1] == 'l' && "elif"@[2] == 'i');
    assert("else"@[2] == 's');
    assert("fi"@[0] == 'f' && "elif"@[0] == 'e' && "else"@[0] == 'e');
}

proof fn lemma_block_dispatch(m: Input, i: int, cmd: CommandView, k: int)
    requires
        cmd is Block,
        cmd->Block_0 == (BlockView {
            lbrace: absent(),
            rbrace: absent(),
            last: seq![],
            ..cmd->Block_0
        }),
        m.is_word(i, "{"@),
        m.is_word(k - 1, "}"@),
        m.list(i + 1, Stop::RBrace) == Ok::<(Seq<StmtView>, int), Fault>(
            (cmd->Block_0.stmts, k - 1),
        ),
    ensures
        m.command(i) == m.redirected(Ok((cmd, k))),
{
    assert(m.block(i) == Ok::<(CommandView, int), Fault>((cmd, k)));
}

proof fn lemma_subshell_dispatch(m: Input, i: int, cmd: CommandView, k: int)
    requires
        cmd is Subshell,
        cmd->Subshell_0 == (SubshellView {
            lparen: absent(),
            rparen: absent(),
            last: seq![],
            ..cmd->Subshell_0
        }),
        m.is_op(i, Op::LParen),
        m.is_op(i + 1, Op::LParen) ==> m.toks[i + 1].start != m.toks[i].end,
        m.is_op(k - 1, Op::RParen),
        m.list(i + 1, Stop::RParen) == Ok::<(Seq<StmtView>, int), Fault>(
            (cmd->Subshell_0.stmts, k - 1),
        ),
    ensures
        m.command(i) == m.redirected(Ok((cmd, k))),
{
    assert(m.subshell(i) == Ok::<(CommandView, int), Fault>((cmd, k)));
}

proof fn lemma_if_dispatch(m: Input, i: int)
    requires
        m.is_word(i, "if"@),
    ensures
        m.command(i) == m.redirected(m.if_clause(i)),
{
    lemma_keywords_differ();
}

proof fn lemma_while_dispatch(m: Input, i: int, until: bool)
    requires
        m.is_word(
            i,
            if until {
                "until"@
            } else {
                "while"@
            },
        ),
    ensures
        m.command(i) == m.redirected(m.while_clause(i, until)),
{
    lemma_keywords_differ();
}

proof fn lemma_for_dispatch(m: Input, i: int)
    requires
        m.is_word(i, "for"@),
    ensures
        m.command(i) == m.redirected(m.for_clause(i)),
{
    lemma_keywords_differ();
}

proof fn lemma_if_step(m: Input, i: int, e: int, k: int, x: IfClauseView)
    requires
        i < e < k < m.toks.len(),
        m.condition(i, "if"@) == Ok::<((Seq<StmtView>, Seq<StmtView>), int), Fault>(
            ((x.cond, x.then_), e),
        ),
        m.if_tail(e) == Ok::<(Option<Box<IfClauseView>>, int), Fault>((x.else_, k - 1)),
        m.is_word(k - 1, "fi"@),
        x == crate::parser::if_view(present(), x.cond, x.then_, x.else_),
    ensures
        m.if_clause(i) == Ok::<(CommandView, int), Fault>((CommandView::If(Box::new(x)), k)),
{
}

proof fn lemma_tail_end(m: Input, i: int)
    requires
        m.is_word(i, "fi"@),
    ensures
        m.if_tail(i) == Ok::<(Option<Box<IfClauseView>>, int), Fault>((None, i)),
        m.at_stop(i, Stop::Branch),
{
    lemma_keywords_differ();
}

proof fn lemma_elif_step(m: Input, i: int, e: int, k: int, x: IfClauseView)
    requires
        i < e < k < m.toks.len(),
        m.is_word(i, "elif"@),
        m.condition(i, "elif"@) == Ok::<((Seq<StmtView>, Seq<StmtView>), int), Fault>(
            ((x.cond, x.then_), e),
        ),
        m.if_tail(e) == Ok::<(Option<Box<IfClauseView>>, int), Fault>((x.else_, k - 1)),
        x == crate::parser::if_view(present(), x.cond, x.then_, x.else_),
    ensures
        m.if_tail(i) == Ok::<(Option<Box<IfClauseView>>, int), Fault>(
            (Some(Box::new(x)), k - 1),
        ),
        m.at_stop(i, Stop::Branch),
{
}

proof fn lemma_else_step(m: Input, i: int, e: int, x: IfClauseView)
    requires
        m.is_word(i, "else"@),
        m.list(i + 1, Stop::Fi) == Ok::<(Seq<StmtView>, int), Fault>((x.then_, e)),
        x == crate::parser::if_view(absent(), seq![], x.then_, None),
    ensures
        m.if_tail(i) == Ok::<(Option<Box<IfClauseView>>, int), Fault>((Some(Box::new(x)), e)),
        m.at_stop(i, Stop::Branch),
{
    lemma_keywords_differ();
    assert(!m.is_word(i, "elif"@));
    let body = m.keyword_list(i, "else"@, Stop::Fi);
    assert(body == Ok::<(Seq<StmtView>, int), Fault>((x.then_, e)));
    let none = Seq::<StmtView>::empty();
    assert(x.cond =~= none);
    assert(x == crate::parser::if_view(absent(), none, x.then_, None));
}

proof fn lemma_do_group(m: Input, e: int, k: int, do_: Seq<StmtView>)
    requires
        m.is_word(e, "do"@),
        m.is_word(k - 1, "done"@),
        m.list(e + 1, Stop::Done) == Ok::<(Seq<StmtView>, int), Fault>((do_, k - 1)),
    ensures
        m.do_group(e) == Ok::<(Seq<StmtView>, int), Fault>((do_, k)),
{
}

proof fn lemma_while_step(m: Input, i: int, e: int, k: int, x: WhileClauseView)
    requires
        i < e < k < m.toks.len(),
        m.kind(i) !is Eof,
        m.list(i + 1, Stop::Do) == Ok::<(Seq<StmtView>, int), Fault>((x.cond, e)),
        m.is_word(e, "do"@),
        m.is_word(k - 1, "done"@),
        m.list(e + 1, Stop::Done) == Ok::<(Seq<StmtView>, int), Fault>((x.do_, k - 1)),
        x == crate::parser::while_view(x.until, x.cond, x.do_),
    ensures
        m.while_clause(i, x.until) == Ok::<(CommandView, int), Fault>(
            (CommandView::While(Box::new(x)), k),
        ),
{
    lemma_do_group(m, e, k, x.do_);
}

/// The words that a `for` goes over are found again.
proof fn lemma_past_words(m: Input, i: int, words: Seq<WordView>)
    requires
        words_at(m, i, words),
        m.kind(i + words.len()) !is Word,
    ensures
        m.past_items(i) == i + words.len(),
    decreases words.len(),
{
    if words.len() > 0 {
        assert(m.kind(i + 0) is Word && m.text(i + 0) == raw_text(words[0]));
        let rest = words.drop_first();
        assert forall|x: int| 0 <= x < rest.len() implies m.kind(#[trigger] (i + 1 + x)) is Word
            && m.text(i + 1 + x) == raw_text(rest[x]) by {
            assert(m.kind(i + (x + 1)) is Word);
        }
        lemma_past_words(m, i + 1, rest);
    }
}

/// What a `for` goes over, from the token behind the variable on.
pub open spec fn iter_at(m: Input, i: int, wi: WordIterView, j: int) -> bool {
    &&& m.is_word(i, wi.name.value)
    &&& if wi.in_pos.is_valid() {
        &&& m.is_word(i + 1, "in"@)
        &&& words_at(m, i + 2, wi.items)
        &&& j == i + 2 + wi.items.len()
    } else {
        j == i + 1
    }
}

/// Read a word with ` in ` behind it.
proof fn lemma_read_in(m: Input, i: int, p: int, r1: int, r2: int, name: Seq<char>)
    requires
        tokenized(m),
        at(m, i, p),
        holds(bytes(m), encode_utf8(name), p, r1),
        holds(bytes(m), encode_utf8(" in "@), r1, r2),
        word_text(name),
    ensures
        m.is_word(i, name),
        m.is_word(i + 1, "in"@),
        i + 2 < m.toks.len(),
        at(m, i + 2, r2),
{
    let b = bytes(m);
    lemma_keywords();
    lemma_holds_split(b, seq![' '], "in"@ + seq![' '], r1, r2);
    let r = r1 + encode_utf8(seq![' ']).len();
    lemma_ascii_holds(b, seq![' '], r1, r);
    assert(seq![' '][0] as u8 == b[r1 + 0]);
    lemma_stops_word(b, r1);
    lemma_read_word(m, i, p, r1, name);
    lemma_at_blank(m, i + 1, r1);
    lemma_read_keyword(m, i + 1, r, r2, "in"@);
}

/// Read the variable of a `for` and what it goes over.
proof fn lemma_read_iter(
    m: Input,
    i: int,
    p: int,
    q: int,
    mode: Mode,
    wi: WordIterView,
) -> (j: int)
    requires
        tokenized(m),
        at(m, i, p),
        laid(bytes(m), crate::printer::word_iter_view(wi), mode, p, q),
        stops(bytes(m), q),
        word_text(wi.name.value),
        good_words(wi.items),
    ensures
        i < j < m.toks.len(),
        at(m, j, q),
        iter_at(m, i, wi, j),
{
    let b = bytes(m);
    lemma_stops_word(b, q);
    if wi.in_pos.is_valid() {
        let name = text_view(wi.name.value);
        let docs = words_view(wi.items);
        let words = join_view(text_view(" "@), docs);
        lemma_laid_concat(b, seq![name, text_view(" in "@), words], mode, p, q);
        let (r1, r2) = lemma_laid_three(b, name, text_view(" in "@), words, mode, p, q);
        lemma_read_in(m, i, p, r1, r2, wi.name.value);
        lemma_laid_concat(b, interleave(text_view(" "@), docs), mode, r2, q);
        if wi.items.len() == 0 {
            assert(interleave(text_view(" "@), docs) =~= seq![]);
            i + 2
        } else {
            lemma_read_words(m, i + 2, r2, q, mode, wi.items);
            i + 2 + wi.items.len()
        }
    } else {
        lemma_read_word(m, i, p, q, wi.name.value);
        i + 1
    }
}

proof fn lemma_for_step(m: Input, i: int, j: int, e: int, k: int, x: ForClauseView)
    requires
        i < j < e < k < m.toks.len(),
        m.is_word(i, "for"@),
        x.loop_ is Word,
        iter_at(m, i + 1, x.loop_->Word_0, j),
        good_words(x.loop_->Word_0.items),
        m.kind(j) is Newline || m.is_op(j, Op::Semi),
        m.past_separators(j) == m.past_separators(e),
        m.is_word(e, "do"@),
        m.is_word(k - 1, "done"@),
        m.list(e + 1, Stop::Done) == Ok::<(Seq<StmtView>, int), Fault>((x.do_, k - 1)),
        x == crate::parser::for_view(x.loop_->Word_0.name.value, for_items(x), x.do_),
    ensures
        m.for_clause(i) == Ok::<(CommandView, int), Fault>((CommandView::For(Box::new(x)), k)),
{
    let wi = x.loop_->Word_0;
    lemma_do_group(m, e, k, x.do_);
    assert(m.past_separators(e) == e);
    if wi.in_pos.is_valid() {
        lemma_past_words(m, i + 3, wi.items);
        let got = m.items(i + 3, j);
        assert(got =~= wi.items) by {
            assert forall|y: int| 0 <= y < got.len() implies got[y] == wi.items[y] by {
                assert(m.kind(i + 3 + y) is Word && m.text(i + 3 + y) == raw_text(wi.items[y]));
                assert(crate::stable::good_word(wi.items[y]));
            }
        }
    } else {
        assert(m.kind(i + 2) !is Word);
    }
}

/// Whether `n` is a clean source and `m` a source with its tokens.
pub open spec fn ready(m: Input, n: Input) -> bool {
    clean(n) && tokenized(m)
}

// ---------------------------------------------------------------------------
// Statements
// ---------------------------------------------------------------------------

/// What is known of a statement that is a single command.
proof fn lemma_stmt_shape(n: Input, s: StmtView)
    requires
        good_stmt(n, s, 0),
        apart_stmt(s),
    ensures
        s.cmd is Some,
        s.cmd->Some_0 !is Binary,
        s.comments == Seq::<crate::ast::CommentView>::empty(),
        s.position == absent(),
        s.semicolon == absent(),
        !s.coprocess,
        good_command(n, s.cmd->Some_0, s.redirs),
        apart_redirs(s.redirs),
        apart_command(s.cmd->Some_0),
        s.negated || !bang_first(n, s.cmd->Some_0),
{
}

/// What is known of a command that is read word by word.
proof fn lemma_call_shape(
    n: Input,
    cmd: CommandView,
    redirs: Seq<RedirectView>,
)
    requires
        good_command(n, cmd, redirs),
        !is_unit(n, cmd),
    ensures
        cmd is Call,
        cmd->Call_0.assigns == Seq::<crate::ast::AssignView>::empty(),
        good_words(cmd->Call_0.args),
        good_redirs(redirs),
        cmd->Call_0.args.len() + redirs.len() > 0,
        cmd->Call_0.args.len() > 0 ==> leads(raw_text(cmd->Call_0.args[0])),
        !opaque_call(n, cmd->Call_0),
{
}

/// A statement that starts with a parenthesis.
proof fn lemma_paren_stmt(s: StmtView)
    requires
        s.cmd is Some,
        !s.negated,
        paren_first(s.cmd->Some_0),
    ensures
        starts_with_paren(s),
{
}

/// Read a single command with its redirections.
#[verifier::rlimit(30)]
proof fn lemma_read_stmt(
    m: Input,
    n: Input,
    i: int,
    p: int,
    q: int,
    mode: Mode,
    s: StmtView,
    stop: Stop,
) -> (j: int)
    requires
        ready(m, n),
        at(m, i, p),
        laid(bytes(m), stmt_view(foreground(s)), mode, p, q),
        stops(bytes(m), q),
        good_stmt(n, s, 0),
        apart_stmt(s),
    ensures
        i < j < m.toks.len(),
        at(m, j, q),
        closes(m, j) ==> m.command_stmt(i) == Ok::<(StmtView, int), Fault>((foreground(s), j)),
        opens(m, i, stop),
        m.is_op(i, Op::LParen) ==> starts_with_paren(s),
    decreases s, 1int,
{
    let b = bytes(m);
    lemma_stmt_shape(n, s);
    let cmd = s.cmd->Some_0;
    let (p1, r) = lemma_stmt_docs(b, foreground(s), mode, p, q);
    lemma_redirs_start(b, r, q, mode, s.redirs);
    if s.negated {
        lemma_read_bang(m, i, p, p1, stop);
        let j = lemma_read_command(
            m,
            n,
            i + 1,
            p1,
            r,
            q,
            mode,
            cmd,
            s.redirs,
            stop,
        );
        if closes(m, j) {
            lemma_command_stmt_step(m, i, s, j);
        }
        j
    } else {
        let j = lemma_read_command(m, n, i, p1, r, q, mode, cmd, s.redirs, stop);
        if closes(m, j) {
            lemma_command_stmt_step(m, i, s, j);
        }
        if m.is_op(i, Op::LParen) {
            lemma_paren_stmt(s);
        }
        j
    }
}

/// The redirections of a command are good.
proof fn lemma_command_redirs(n: Input, cmd: CommandView, redirs: Seq<RedirectView>)
    requires
        good_command(n, cmd, redirs),
    ensures
        good_redirs(redirs),
{
}

/// Read a command with its redirections.
proof fn lemma_read_command(
    m: Input,
    n: Input,
    i: int,
    p: int,
    r: int,
    q: int,
    mode: Mode,
    cmd: CommandView,
    redirs: Seq<RedirectView>,
    stop: Stop,
) -> (j: int)
    requires
        ready(m, n),
        at(m, i, p),
        laid(bytes(m), command_view(cmd), mode, p, r),
        laid_all(bytes(m), spaced(redirs_view(redirs)), mode, r, q),
        stops(bytes(m), r),
        stops(bytes(m), q),
        good_command(n, cmd, redirs),
        apart_redirs(redirs),
        apart_command(cmd),
    ensures
        i < j < m.toks.len(),
        at(m, j, q),
        closes(m, j) ==> m.command(i) == Ok::<((CommandView, Seq<RedirectView>), int), Fault>(
            ((cmd, redirs), j),
        ),
        opens(m, i, stop),
        m.is_word(i, "!"@) ==> bang_first(n, cmd),
        m.is_op(i, Op::LParen) ==> paren_first(cmd),
    decreases cmd, 2int,
{
    lemma_command_redirs(n, cmd, redirs);
    if is_unit(n, cmd) {
        let e = lemma_read_unit(m, n, i, p, r, mode, cmd, redirs, stop);
        let j = lemma_trailing_redirs(m, e, r, q, mode, redirs);
        if closes(m, j) {
            lemma_redirected(m, cmd, e, redirs, j);
        }
        j
    } else {
        lemma_call_shape(n, cmd, redirs);
        lemma_read_call(m, i, p, r, q, mode, cmd->Call_0, redirs, stop)
    }
}

/// What is known of a statement that is a chain.
proof fn lemma_chain_shape(n: Input, s: StmtView, x: BinaryCmdView, level: int)
    requires
        good_stmt(n, s, level),
        apart_stmt(s),
        s.cmd == Some(CommandView::Binary(Box::new(x))),
    ensures
        binary_view(x.op, x.x, x.y) == foreground(s),
        foreground(x.x) == x.x,
        foreground(x.y) == x.y,
        apart_stmt(x.x),
        apart_stmt(x.y),
        x.op is Pipe || x.op is PipeAll ==> good_stmt(n, x.x, 1) && good_stmt(n, x.y, 0),
        x.op is AndStmt || x.op is OrStmt ==> level >= 2 && good_stmt(n, x.x, 2) && good_stmt(
            n,
            x.y,
            1,
        ),
        starts_with_paren(s) == starts_with_paren(x.x),
{
    lemma_binary_shape(n, s, x, level);
}

/// A statement of a list or of a chain has a command; a chain has nothing else.
proof fn lemma_operand_shape(n: Input, s: StmtView, level: int)
    requires
        good_stmt(n, s, level),
    ensures
        s.cmd is Some,
        !s.coprocess,
        s.cmd->Some_0 is Binary ==> !s.negated && s.redirs == Seq::<RedirectView>::empty(),
        s.cmd->Some_0 !is Binary ==> good_stmt(n, s, 0),
{
}

/// The last operand of a chain, and the ones before it.
proof fn lemma_chain_last(b: Seq<u8>, s: StmtView, x: BinaryCmdView, mode: Mode, p: int, q: int) -> (r:
    int)
    requires
        s.cmd == Some(CommandView::Binary(Box::new(x))),
        laid_all(b, seq![chain_first_view(s)] + chain_rest_view(s), mode, p, q),
    ensures
        laid_all(b, seq![chain_first_view(x.x)] + chain_rest_view(x.x), mode, p, r),
        laid(b, segment_view(x.op, stmt_view(x.y)), mode, r, q),
        stops(b, r),
{
    let front = seq![chain_first_view(x.x)] + chain_rest_view(x.x);
    let seg = segment_view(x.op, stmt_view(x.y));
    assert(seq![chain_first_view(s)] + chain_rest_view(s) =~= front + seq![seg]);
    let r = lemma_laid_split(b, front, seq![seg], mode, p, q);
    lemma_laid_single(b, seg, mode, r, q);
    lemma_segment_start(b, r, q, mode, x.op, stmt_view(x.y));
    r
}

/// Read a chain of commands.
#[verifier::rlimit(30)]
proof fn lemma_read_chain(
    m: Input,
    n: Input,
    i: int,
    p: int,
    q: int,
    mode: Mode,
    s: StmtView,
    level: int,
    stop: Stop,
) -> (j: int)
    requires
        ready(m, n),
        at(m, i, p),
        laid_all(
            bytes(m),
            seq![chain_first_view(foreground(s))] + chain_rest_view(foreground(s)),
            mode,
            p,
            q,
        ),
        stops(bytes(m), q),
        1 <= level <= 2,
        good_stmt(n, s, level),
        apart_stmt(s),
    ensures
        i < j < m.toks.len(),
        at(m, j, q),
        level == 1 && closes(m, j) ==> m.pipeline(i) == m.pipeline_rest(foreground(s), j),
        closes(m, j) && !m.is_op(j, Op::Pipe) && !m.is_op(j, Op::PipeAmp) ==> m.and_or(i)
            == m.and_or_rest(foreground(s), j),
        opens(m, i, stop),
        m.is_op(i, Op::LParen) ==> starts_with_paren(s),
    decreases s, 2int,
{
    let b = bytes(m);
    let f = foreground(s);
    lemma_operand_shape(n, s, level);
    match s.cmd {
        Some(CommandView::Binary(x)) => {
            lemma_chain_shape(n, s, *x, level);
            let r = lemma_chain_last(b, f, *x, mode, p, q);
            if x.op is Pipe || x.op is PipeAll {
                let jx = lemma_read_chain(m, n, i, p, r, mode, x.x, 1, stop);
                let (k, r2) = lemma_read_segment(m, jx, r, q, mode, x.op, stmt_view(x.y));
                let j = lemma_read_stmt(m, n, k, r2, q, mode, x.y, Stop::End);
                if closes(m, j) {
                    lemma_pipeline_step(m, i, jx, k, j, x.op, x.x, x.y);
                }
                j
            } else {
                let jx = lemma_read_chain(m, n, i, p, r, mode, x.x, 2, stop);
                let (k, r2) = lemma_read_segment(m, jx, r, q, mode, x.op, stmt_view(x.y));
                lemma_operand_shape(n, x.y, 1);
                let inner = lemma_chain_docs(b, x.y, mode, r2, q);
                let j = lemma_read_chain(m, n, k, r2, q, inner, x.y, 1, Stop::End);
                if closes(m, j) && !m.is_op(j, Op::Pipe) && !m.is_op(j, Op::PipeAmp) {
                    lemma_and_or_step(m, i, jx, k, j, x.op, x.x, x.y);
                }
                j
            }
        },
        _ => {
            assert(seq![chain_first_view(f)] + chain_rest_view(f) =~= seq![stmt_view(f)]);
            lemma_laid_single(b, stmt_view(f), mode, p, q);
            let j = lemma_read_stmt(m, n, i, p, q, mode, s, stop);
            if closes(m, j) {
                lemma_first_command(m, i, j, f);
            }
            j
        },
    }
}

/// A statement in the background.
proof fn lemma_background_item(m: Input, i: int, k: int, s: StmtView, stop: Stop)
    requires
        s.background,
        m.is_op(k, Op::Amp),
        m.and_or(i) == m.and_or_rest(foreground(s), k),
    ensures
        m.list_item(i, stop) == Ok::<(StmtView, int), Fault>((s, k + 1)),
{
    let f = foreground(s);
    assert(m.and_or(i) == Ok::<(StmtView, int), Fault>((f, k)));
    assert(StmtView { background: true, ..f } == s);
}

/// Read a statement of a list.
proof fn lemma_read_item(
    m: Input,
    n: Input,
    i: int,
    p: int,
    q: int,
    mode: Mode,
    s: StmtView,
    stop: Stop,
) -> (j: int)
    requires
        ready(m, n),
        at(m, i, p),
        laid(bytes(m), stmt_view(s), mode, p, q),
        stops(bytes(m), q),
        good_stmt(n, s, 2),
        apart_stmt(s),
    ensures
        i < j < m.toks.len(),
        at(m, j, q),
        s.background ==> m.list_item(i, stop) == Ok::<(StmtView, int), Fault>((s, j)),
        !s.background && closes(m, j) && !joins(m, j) ==> m.and_or(i) == Ok::<
            (StmtView, int),
            Fault,
        >((s, j)),
        opens(m, i, stop),
        m.is_op(i, Op::LParen) ==> starts_with_paren(s),
    decreases s, 3int,
{
    let b = bytes(m);
    let f = foreground(s);
    lemma_operand_shape(n, s, 2);
    if s.background {
        let r = lemma_background_docs(b, s, mode, p, q);
        lemma_amp_start(b, r, q);
        let inner = lemma_chain_docs(b, f, mode, p, r);
        let k = lemma_read_chain(m, n, i, p, r, inner, s, 2, stop);
        lemma_read_amp(m, k, r, q);
        lemma_background_item(m, i, k, s, stop);
        k + 1
    } else {
        assert(f == s);
        let inner = lemma_chain_docs(b, f, mode, p, q);
        let k = lemma_read_chain(m, n, i, p, q, inner, s, 2, stop);
        if closes(m, k) && !joins(m, k) {
            assert(m.and_or_rest(f, k) == Ok::<(StmtView, int), Fault>((f, k)));
        }
        k
    }
}

/// ` &` ends a command.
proof fn lemma_amp_start(b: Seq<u8>, p: int, q: int)
    requires
        holds(b, encode_utf8(" &"@), p, q),
    ensures
        stops(b, p),
        q == p + 2,
        b[p] == ascii::SPACE,
        b[p + 1] == ascii::AMP,
{
    reveal_strlit(" &");
    lemma_ascii_holds(b, " &"@, p, q);
    assert(" &"@[0] as u8 == b[p + 0]);
    assert(" &"@[1] as u8 == b[p + 1]);
}

/// Read ` &`.
proof fn lemma_read_amp(m: Input, k: int, p: int, q: int)
    requires
        tokenized(m),
        at(m, k, p),
        holds(bytes(m), encode_utf8(" &"@), p, q),
        stops(bytes(m), q),
    ensures
        m.is_op(k, Op::Amp),
        k + 1 < m.toks.len(),
        at(m, k + 1, q),
{
    lemma_amp_start(bytes(m), p, q);
    lemma_at_blank(m, k, p);
    assert(operator_at(bytes(m), p + 1) == Some(Op::Amp));
    lemma_read_op(m, k, p + 1, Op::Amp);
}

/// The first of several statements, and the others.
proof fn lemma_list_docs(
    b: Seq<u8>,
    seps: Seq<DocView>,
    stmts: Seq<StmtView>,
    mode: Mode,
    p: int,
    q: int,
) -> (r: (int, int))
    requires
        stmts.len() > 1,
        are_separators(stmts, seps),
        laid_all(b, weave(stmts_view(stmts), seps), mode, p, q),
    ensures
        laid(b, stmt_view(stmts[0]), mode, p, r.0),
        ends_stmt(b, stmts[0], r.0, r.1),
        are_separators(stmts.drop_first(), seps.drop_first()),
        laid_all(b, weave(stmts_view(stmts.drop_first()), seps.drop_first()), mode, r.1, q),
{
    reveal(are_separators);
    let docs = stmts_view(stmts);
    let rest = stmts.drop_first();
    let ends = seps.drop_first();
    assert(docs[0] == stmt_view(stmts[0]));
    assert(docs.drop_first() =~= stmts_view(rest));
    lemma_weave_front(docs, seps);
    let tail = weave(stmts_view(rest), ends);
    let sep = seps[0];
    let r1 = lemma_laid_split(b, seq![docs[0]], seq![sep] + tail, mode, p, q);
    let r2 = lemma_laid_split(b, seq![sep], tail, mode, r1, q);
    lemma_laid_single(b, docs[0], mode, p, r1);
    lemma_laid_single(b, sep, mode, r1, r2);
    lemma_separator_gap(b, stmts[0], sep, mode, r1, r2);
    assert forall|i: int| 0 <= i < rest.len() implies is_separator(rest[i], #[trigger] ends[i]) by {
        assert(ends[i] == seps[i + 1]);
        assert(rest[i] == stmts[i + 1]);
    }
    (r1, r2)
}

/// What ends a list ends the last statement.
proof fn lemma_gap_stops(b: Seq<u8>, q: int, r: int)
    requires
        gap(b, q, r),
        q < r || r == b.len() || b[r] == ascii::RPAREN,
    ensures
        stops(b, q),
{
    if q < r {
        assert(b[q] == ascii::SPACE || b[q] == ascii::NEWLINE || b[q] == ascii::SEMI);
    }
}

/// Over one separator.
proof fn lemma_past_one(m: Input, j: int)
    requires
        m.kind(j) is Newline || m.is_op(j, Op::Semi),
    ensures
        m.past_separators(j) == m.past_separators(j + 1),
{
}

/// What can end a list without a separator before it.
proof fn lemma_list_ends(m: Input, e: int, r: int)
    requires
        tokenized(m),
        at(m, e, r),
    ensures
        r == bytes(m).len() ==> m.kind(e) is Eof,
        r < bytes(m).len() && bytes(m)[r] == ascii::RPAREN ==> m.is_op(e, Op::RParen),
{
    lemma_at_bounds(m, e, r);
    if r == bytes(m).len() {
        lemma_at_end(m, e, r);
    } else if bytes(m)[r] == ascii::RPAREN {
        lemma_read_op(m, e, r, Op::RParen);
    }
}

/// A statement of a list with a separator behind it.
proof fn lemma_item_separated(m: Input, i: int, j: int, s: StmtView, stop: Stop)
    requires
        m.kind(j) is Newline || m.is_op(j, Op::Semi),
        s.background ==> m.list_item(i, stop) == Ok::<(StmtView, int), Fault>((s, j)),
        !s.background && closes(m, j) && !joins(m, j) ==> m.and_or(i) == Ok::<
            (StmtView, int),
            Fault,
        >((s, j)),
    ensures
        m.list_item(i, stop) == Ok::<(StmtView, int), Fault>(
            (
                s,
                if s.background {
                    j
                } else {
                    j + 1
                },
            ),
        ),
{
}

/// Read an empty list, up to what ends it.
proof fn lemma_read_nothing(m: Input, i0: int, i: int, q: int, r: int, stop: Stop) -> (e: int)
    requires
        tokenized(m),
        0 <= i0 <= i,
        m.past_separators(i0) == m.past_separators(i),
        at(m, i, q),
        gap(bytes(m), q, r),
    ensures
        i0 <= e < m.toks.len(),
        at(m, e, r),
        m.kind(e) is Eof || m.at_stop(e, stop) ==> m.list(i0, stop) == Ok::<
            (Seq<StmtView>, int),
            Fault,
        >((seq![], e)),
{
    let e = lemma_read_gap(m, i, q, r);
    lemma_at_bounds(m, e, r);
    if m.kind(e) is Eof || m.at_stop(e, stop) {
        lemma_list_end(m, i0, e, stop);
    }
    e
}

/// Read the last statement of a list, up to what ends it.
proof fn lemma_read_last(
    m: Input,
    n: Input,
    i0: int,
    i: int,
    p: int,
    q: int,
    r: int,
    mode: Mode,
    s: StmtView,
    stop: Stop,
) -> (e: int)
    requires
        ready(m, n),
        0 <= i0 <= i,
        m.past_separators(i0) == m.past_separators(i),
        at(m, i, p),
        laid(bytes(m), stmt_view(s), mode, p, q),
        ends_list(bytes(m), ends_itself(s), q, r),
        good_stmt(n, s, 2),
        apart_stmt(s),
    ensures
        i0 <= e < m.toks.len(),
        at(m, e, r),
        m.kind(e) is Eof || m.at_stop(e, stop) ==> m.list(i0, stop) == Ok::<
            (Seq<StmtView>, int),
            Fault,
        >((seq![s], e)),
        m.is_op(i, Op::LParen) ==> starts_with_paren(s),
    decreases s, 4int,
{
    lemma_operand_shape(n, s, 2);
    lemma_ends_gap(bytes(m), ends_itself(s), q, r);
    lemma_gap_stops(bytes(m), q, r);
    let j = lemma_read_item(m, n, i, p, q, mode, s, stop);
    let e = lemma_read_gap(m, j, q, r);
    lemma_at_bounds(m, e, r);
    lemma_list_ends(m, e, r);
    if m.kind(e) is Eof || m.at_stop(e, stop) {
        lemma_last_item(m, i0, i, j, e, s, stop);
    }
    e
}

/// Read a list of statements, up to what ends it.
#[verifier::rlimit(30)]
proof fn lemma_read_list(
    m: Input,
    n: Input,
    i0: int,
    i: int,
    p: int,
    q: int,
    r: int,
    mode: Mode,
    seps: Seq<DocView>,
    stmts: Seq<StmtView>,
    stop: Stop,
) -> (e: int)
    requires
        ready(m, n),
        0 <= i0 <= i,
        m.past_separators(i0) == m.past_separators(i),
        at(m, i, p),
        are_separators(stmts, seps),
        laid_all(bytes(m), weave(stmts_view(stmts), seps), mode, p, q),
        ends_list(bytes(m), last_ends(stmts), q, r),
        good_list(n, stmts),
        apart_list(stmts),
    ensures
        i0 <= e < m.toks.len(),
        at(m, e, r),
        m.kind(e) is Eof || m.at_stop(e, stop) ==> m.list(i0, stop) == Ok::<
            (Seq<StmtView>, int),
            Fault,
        >((stmts, e)),
        stmts.len() > 0 && m.is_op(i, Op::LParen) ==> starts_with_paren(stmts[0]),
    decreases stmts, 4int,
{
    let b = bytes(m);
    if stmts.len() == 0 {
        assert(weave(stmts_view(stmts), seps) =~= seq![]);
        lemma_ends_gap(b, false, q, r);
        let e = lemma_read_nothing(m, i0, i, q, r, stop);
        assert(stmts =~= seq![]);
        e
    } else if stmts.len() == 1 {
        let s = stmts[0];
        assert(stmts_view(stmts)[0] == stmt_view(s));
        assert(weave(stmts_view(stmts), seps) =~= seq![stmt_view(s)]);
        lemma_laid_single(b, stmt_view(s), mode, p, q);
        assert(stmts =~= seq![s]);
        let e = lemma_read_last(m, n, i0, i, p, q, r, mode, s, stop);
        assert(stmts =~= seq![s]);
        e
    } else {
        let s = stmts[0];
        let rest = stmts.drop_first();
        let (r1, r2) = lemma_list_docs(b, seps, stmts, mode, p, q);
        let (k, i2) = lemma_read_first(m, n, i, p, r1, r2, mode, s, stop);
        assert(last_ends(rest) == last_ends(stmts));
        let ends = seps.drop_first();
        let e = lemma_read_list(m, n, k, i2, r2, q, r, mode, ends, rest, stop);
        if m.kind(e) is Eof || m.at_stop(e, stop) {
            lemma_list_step(m, i0, i, s, k, rest, e, stop);
            assert(stmts =~= seq![s] + rest);
        }
        e
    }
}

/// Read a statement of a list with a separator behind it.
proof fn lemma_read_first(
    m: Input,
    n: Input,
    i: int,
    p: int,
    r1: int,
    r2: int,
    mode: Mode,
    s: StmtView,
    stop: Stop,
) -> (res: (int, int))
    requires
        ready(m, n),
        at(m, i, p),
        laid(bytes(m), stmt_view(s), mode, p, r1),
        ends_stmt(bytes(m), s, r1, r2),
        good_stmt(n, s, 2),
        apart_stmt(s),
    ensures
        i < res.0 <= res.1 < m.toks.len(),
        at(m, res.1, r2),
        m.past_separators(res.0) == m.past_separators(res.1),
        m.list_item(i, stop) == Ok::<(StmtView, int), Fault>((s, res.0)),
        opens(m, i, stop),
        m.is_op(i, Op::LParen) ==> starts_with_paren(s),
    decreases s, 4int,
{
    lemma_operand_shape(n, s, 2);
    lemma_gap_stops(bytes(m), r1, r2);
    let j = lemma_read_item(m, n, i, p, r1, mode, s, stop);
    let i2 = lemma_read_gap(m, j, r1, r2);
    lemma_at_bounds(m, i2, r2);
    if s.background {
        (j, i2)
    } else {
        lemma_past_one(m, j);
        lemma_item_separated(m, i, j, s, stop);
        (j + 1, i2)
    }
}

// ---------------------------------------------------------------------------
// Compound commands
// ---------------------------------------------------------------------------

/// Read a compound or opaque command.
proof fn lemma_read_unit(
    m: Input,
    n: Input,
    i: int,
    p: int,
    q: int,
    mode: Mode,
    cmd: CommandView,
    redirs: Seq<RedirectView>,
    stop: Stop,
) -> (k: int)
    requires
        ready(m, n),
        at(m, i, p),
        laid(bytes(m), command_view(cmd), mode, p, q),
        stops(bytes(m), q),
        good_command(n, cmd, redirs),
        apart_command(cmd),
        is_unit(n, cmd),
    ensures
        i < k < m.toks.len(),
        at(m, k, q),
        m.command(i) == m.redirected(Ok((cmd, k))),
        opens(m, i, stop),
        !m.is_word(i, "!"@),
        m.is_op(i, Op::LParen) ==> paren_first(cmd),
    decreases cmd, 1int,
{
    match cmd {
        CommandView::Call(c) => lemma_read_opaque(m, n, i, p, q, mode, c, stop),
        CommandView::Block(x) => {
            lemma_keywords();
            let k = lemma_read_block(m, n, i, p, q, mode, "{"@, "}"@, x.stmts, Stop::RBrace);
            lemma_reserved_opens(m, i, "{"@, stop);
            lemma_block_dispatch(m, i, cmd, k);
            k
        },
        CommandView::Subshell(x) => {
            let k = lemma_read_subshell(m, n, i, p, q, mode, x.stmts);
            lemma_subshell_dispatch(m, i, cmd, k);
            k
        },
        CommandView::If(x) => {
            let k = lemma_read_if(m, n, i, p, q, mode, *x);
            lemma_reserved_opens(m, i, "if"@, stop);
            lemma_if_dispatch(m, i);
            k
        },
        CommandView::While(x) => {
            let k = lemma_read_while(m, n, i, p, q, mode, *x);
            lemma_reserved_opens(
                m,
                i,
                if x.until {
                    "until"@
                } else {
                    "while"@
                },
                stop,
            );
            lemma_while_dispatch(m, i, x.until);
            k
        },
        CommandView::For(x) => {
            let k = lemma_read_for(m, n, i, p, q, mode, *x);
            lemma_reserved_opens(m, i, "for"@, stop);
            lemma_for_dispatch(m, i);
            k
        },
        _ => i,
    }
}

/// Read the statements between two keywords, with the first keyword already
/// read.
proof fn lemma_read_body(
    m: Input,
    n: Input,
    i: int,
    p: int,
    r1: int,
    r2: int,
    q: int,
    mode: Mode,
    nl: DocView,
    stmts: Seq<StmtView>,
    stop: Stop,
) -> (e: int)
    requires
        ready(m, n),
        at(m, i, p),
        is_break(nl),
        laid(
            bytes(m),
            nest_view(concat_view(seq![nl, body_view(stmts, inline_semicolon(), nl)])),
            mode,
            p,
            r1,
        ),
        laid(bytes(m), closing_view(stmts, inline_semicolon()), mode, r1, r2),
        laid(bytes(m), nl, mode, r2, q),
        good_list(n, stmts),
        apart_list(stmts),
    ensures
        i <= e < m.toks.len(),
        at(m, e, q),
        m.at_stop(e, stop) ==> m.list(i, stop) == Ok::<(Seq<StmtView>, int), Fault>((stmts, e)),
    decreases stmts, 5int,
{
    let b = bytes(m);
    let semi = inline_semicolon();
    let seps = separators_view(stmts, semi, nl);
    let body = body_view(stmts, semi, nl);
    let docs = seq![nl] + seq![body];
    assert(seq![nl, body] =~= docs);
    assert(laid(b, concat_view(docs), mode, p, r1));
    lemma_laid_concat(b, docs, mode, p, r1);
    let p1 = lemma_laid_split(b, seq![nl], seq![body], mode, p, r1);
    lemma_laid_single(b, nl, mode, p, p1);
    lemma_laid_single(b, body, mode, p1, r1);
    lemma_laid_concat(b, weave(stmts_view(stmts), seps), mode, p1, r1);
    lemma_body_separators(stmts, semi, nl);
    lemma_break_gap(b, nl, mode, p, p1);
    lemma_at_bounds(m, i, p);
    let i1 = lemma_read_gap(m, i, p, p1);
    lemma_closing_gap(b, stmts, nl, mode, r1, r2, q);
    lemma_read_list(m, n, i, i1, p1, r1, q, mode, seps, stmts, stop)
}

/// Read statements between two keywords.
#[verifier::rlimit(30)]
proof fn lemma_read_block(
    m: Input,
    n: Input,
    i: int,
    p: int,
    q: int,
    mode: Mode,
    open: Seq<char>,
    close: Seq<char>,
    stmts: Seq<StmtView>,
    stop: Stop,
) -> (k: int)
    requires
        ready(m, n),
        at(m, i, p),
        letters(open),
        letters(close),
        stop_word(stop, close),
        laid(bytes(m), keyword_block_view(open, close, stmts), mode, p, q),
        stops(bytes(m), q),
        good_list(n, stmts),
        apart_list(stmts),
    ensures
        i + 1 < k < m.toks.len(),
        at(m, k, q),
        m.is_word(i, open),
        m.is_word(k - 1, close),
        m.list(i + 1, stop) == Ok::<(Seq<StmtView>, int), Fault>((stmts, k - 1)),
    decreases stmts, 6int,
{
    let b = bytes(m);
    if stmts.len() == 0 {
        let docs = seq![text_view(open), text_view(" "@), text_view(close)];
        lemma_laid_concat(b, docs, mode, p, q);
        let (r1, r2) = lemma_laid_three(
            b,
            text_view(open),
            text_view(" "@),
            text_view(close),
            mode,
            p,
            q,
        );
        lemma_space_text(b, r1, r2);
        lemma_read_last_keyword(m, i, p, r1, open);
        lemma_at_blank(m, i + 1, r1);
        lemma_read_last_keyword(m, i + 1, r2, q, close);
        lemma_at_stop(m, i + 1, close, stop);
        lemma_list_end(m, i + 1, i + 1, stop);
        assert(stmts =~= seq![]);
        i + 2
    } else {
        let nl = break_view(stmts.len() > 1);
        let inner = nest_view(
            concat_view(seq![nl, body_view(stmts, inline_semicolon(), nl)]),
        );
        let semi = closing_view(stmts, inline_semicolon());
        let docs = seq![text_view(open), inner, semi, nl, text_view(close)];
        let body = concat_view(docs);
        let mode2 = if laid(b, body, Mode::Flat, p, q) {
            Mode::Flat
        } else {
            Mode::Break
        };
        assert(laid(b, body, mode2, p, q));
        lemma_laid_concat(b, docs, mode2, p, q);
        let (r1, r2, r3, r4) = lemma_laid_five(
            b,
            text_view(open),
            inner,
            semi,
            nl,
            text_view(close),
            mode2,
            p,
            q,
        );
        lemma_body_start(b, nl, stmts, mode2, r1, r2);
        lemma_read_last_keyword(m, i, p, r1, open);
        let e = lemma_read_body(m, n, i + 1, r1, r2, r3, r4, mode2, nl, stmts, stop);
        lemma_read_last_keyword(m, e, r4, q, close);
        lemma_at_stop(m, e, close, stop);
        e + 1
    }
}

/// Read a subshell.
#[verifier::rlimit(30)]
proof fn lemma_read_subshell(
    m: Input,
    n: Input,
    i: int,
    p: int,
    q: int,
    mode: Mode,
    stmts: Seq<StmtView>,
) -> (k: int)
    requires
        ready(m, n),
        at(m, i, p),
        laid(
            bytes(m),
            concat_view(seq![paren_view("("@, stmts), inline_view(stmts), text_view(")"@)]),
            mode,
            p,
            q,
        ),
        stops(bytes(m), q),
        good_list(n, stmts),
        apart_list(stmts),
    ensures
        i + 1 < k < m.toks.len(),
        at(m, k, q),
        m.is_op(i, Op::LParen),
        m.is_op(i + 1, Op::LParen) ==> m.toks[i + 1].start != m.toks[i].end,
        m.is_op(k - 1, Op::RParen),
        m.list(i + 1, Stop::RParen) == Ok::<(Seq<StmtView>, int), Fault>((stmts, k - 1)),
    decreases stmts, 6int,
{
    let b = bytes(m);
    let semi = text_view(";"@);
    let seps = separators_view(stmts, semi, text_view(" "@));
    let open = paren_view("("@, stmts);
    let docs = seq![open, inline_view(stmts), text_view(")"@)];
    lemma_laid_concat(b, docs, mode, p, q);
    let (p1, r) = lemma_laid_three(b, open, inline_view(stmts), text_view(")"@), mode, p, q);
    lemma_laid_concat(b, weave(stmts_view(stmts), seps), mode, p1, r);
    lemma_body_separators(stmts, semi, text_view(" "@));
    let blank = stmts.len() > 0 && starts_with_paren(stmts[0]);
    lemma_read_open(m, i, p, p1, blank);
    reveal_strlit(")");
    lemma_ascii_holds(b, ")"@, r, q);
    assert(")"@[0] as u8 == b[r + 0]);
    assert(ends_list(b, last_ends(stmts), r, r)) by {
        reveal(ends_list);
    }
    let e = lemma_read_list(
        m,
        n,
        i + 1,
        i + 1,
        p1,
        r,
        r,
        mode,
        seps,
        stmts,
        Stop::RParen,
    );
    lemma_read_rparen(m, e, r, q);
    if stmts.len() == 0 {
        assert(weave(stmts_view(stmts), seps) =~= seq![]);
        lemma_read_rparen(m, i + 1, r, q);
    }
    lemma_at_start(m, i + 1, p1);
    e + 1
}

/// Read the `(` of a subshell, with a blank behind it or not.
proof fn lemma_read_open(m: Input, i: int, p: int, q: int, blank: bool)
    requires
        tokenized(m),
        at(m, i, p),
        holds(
            bytes(m),
            encode_utf8(
                if blank {
                    "("@ + " "@
                } else {
                    "("@
                },
            ),
            p,
            q,
        ),
    ensures
        m.is_op(i, Op::LParen),
        m.toks[i].end == p + 1,
        q == if blank {
            p + 2
        } else {
            p + 1
        },
        i + 1 < m.toks.len(),
        at(m, i + 1, q),
{
    if blank {
        let r = p + encode_utf8("("@).len();
        lemma_holds_split(bytes(m), "("@, " "@, p, q);
        lemma_read_lparen(m, i, p, r);
        lemma_space_text(bytes(m), r, q);
        lemma_at_blank(m, i + 1, r);
    } else {
        lemma_read_lparen(m, i, p, q);
    }
}

/// Read the condition and the body of an `if` or `elif`.
#[verifier::rlimit(30)]
proof fn lemma_read_condition(
    m: Input,
    n: Input,
    i: int,
    p: int,
    q: int,
    mode: Mode,
    keyword: Seq<char>,
    nl: DocView,
    x: IfClauseView,
) -> (e: int)
    requires
        ready(m, n),
        at(m, i, p),
        letters(keyword),
        is_break(nl),
        laid_all(bytes(m), condition_docs(keyword, nl, x), mode, p, q),
        good_list(n, x.cond),
        apart_list(x.cond),
        apart_list(x.then_),
        good_list(n, x.then_),
    ensures
        i < e < m.toks.len(),
        at(m, e, q),
        m.is_word(i, keyword),
        m.at_stop(e, Stop::Branch) ==> m.condition(i, keyword) == Ok::<
            ((Seq<StmtView>, Seq<StmtView>), int),
            Fault,
        >(((x.cond, x.then_), e)),
    decreases x, 1int,
{
    let b = bytes(m);
    let semi = text_view(";"@);
    let seps = separators_view(x.cond, semi, text_view(" "@));
    let body = branch_view("then"@, nl, x.then_);
    let (r1, r2, r3, r4) = lemma_laid_five(
        b,
        text_view(keyword + seq![' ']),
        inline_view(x.cond),
        after_view(x.cond),
        concat_view(body),
        nl,
        mode,
        p,
        q,
    );
    lemma_keywords();
    lemma_read_keyword(m, i, p, r1, keyword);
    lemma_laid_concat(b, weave(stmts_view(x.cond), seps), mode, r1, r2);
    lemma_body_separators(x.cond, semi, text_view(" "@));
    lemma_after_gap(b, x.cond, mode, r2, r3);
    let k = lemma_read_list(
        m,
        n,
        i + 1,
        i + 1,
        r1,
        r2,
        r3,
        mode,
        seps,
        x.cond,
        Stop::Then,
    );
    let inner = body[1];
    let close = closing_view(x.then_, inline_semicolon());
    assert(body =~= seq![text_view("then"@), inner, close]);
    lemma_laid_concat(b, body, mode, r3, r4);
    let (s1, s2) = lemma_laid_three(
        b,
        text_view("then"@),
        inner,
        close,
        mode,
        r3,
        r4,
    );
    lemma_body_start(b, nl, x.then_, mode, s1, s2);
    lemma_read_last_keyword(m, k, r3, s1, "then"@);
    let e = lemma_read_body(m, n, k + 1, s1, s2, r4, q, mode, nl, x.then_, Stop::Branch);
    lemma_at_stop(m, k, "then"@, Stop::Then);
    e
}

/// Read an `if`.
#[verifier::rlimit(30)]
proof fn lemma_read_if(
    m: Input,
    n: Input,
    i: int,
    p: int,
    q: int,
    mode: Mode,
    x: IfClauseView,
) -> (k: int)
    requires
        ready(m, n),
        at(m, i, p),
        laid(bytes(m), crate::printer::if_view(x), mode, p, q),
        stops(bytes(m), q),
        x == crate::parser::if_view(present(), x.cond, x.then_, x.else_),
        good_list(n, x.cond),
        apart_list(x.cond),
        apart_list(x.then_),
        good_list(n, x.then_),
        good_tail(n, x.else_),
        apart_tail(x.else_),
    ensures
        i < k < m.toks.len(),
        at(m, k, q),
        m.is_word(i, "if"@),
        m.if_clause(i) == Ok::<(CommandView, int), Fault>((CommandView::If(Box::new(x)), k)),
    decreases x, 2int,
{
    let b = bytes(m);
    lemma_keywords();
    let nl = break_view(x.then_.len() > 1 || x.else_ is Some);
    let head = condition_docs("if"@, nl, x);
    let tail = else_view(nl, x.else_) + seq![text_view("fi"@)];
    let docs = head + else_view(nl, x.else_) + seq![text_view("fi"@)];
    let body = concat_view(docs);
    let mode2 = if laid(b, body, Mode::Flat, p, q) {
        Mode::Flat
    } else {
        Mode::Break
    };
    assert(laid(b, body, mode2, p, q));
    lemma_laid_concat(b, docs, mode2, p, q);
    assert(docs =~= head + tail);
    let r = lemma_laid_split(b, head, tail, mode2, p, q);
    let e = lemma_read_condition(m, n, i, p, r, mode2, "if"@, nl, x);
    let k = lemma_read_tail(m, n, e, r, q, mode2, nl, x.else_);
    lemma_if_step(m, i, e, k, x);
    k
}

/// Read the `elif` and `else` branches of an `if`, and its `fi`.
#[verifier::rlimit(30)]
proof fn lemma_read_tail(
    m: Input,
    n: Input,
    i: int,
    p: int,
    q: int,
    mode: Mode,
    nl: DocView,
    tail: Option<Box<IfClauseView>>,
) -> (k: int)
    requires
        ready(m, n),
        at(m, i, p),
        is_break(nl),
        laid_all(bytes(m), else_view(nl, tail) + seq![text_view("fi"@)], mode, p, q),
        stops(bytes(m), q),
        good_tail(n, tail),
        apart_tail(tail),
    ensures
        i < k < m.toks.len(),
        at(m, k, q),
        m.at_stop(i, Stop::Branch),
        m.is_word(k - 1, "fi"@),
        m.if_tail(i) == Ok::<(Option<Box<IfClauseView>>, int), Fault>((tail, k - 1)),
    decreases tail, 1int,
{
    let b = bytes(m);
    let fi = seq![text_view("fi"@)];
    lemma_keywords();
    match tail {
        None => {
            assert(else_view(nl, tail) + fi =~= fi);
            lemma_laid_single(b, text_view("fi"@), mode, p, q);
            lemma_read_last_keyword(m, i, p, q, "fi"@);
            lemma_tail_end(m, i);
            i + 1
        },
        Some(x) => if x.then_pos.is_valid() {
            let head = condition_docs("elif"@, nl, *x);
            let rest = else_view(nl, x.else_) + fi;
            assert(else_view(nl, tail) + fi =~= head + rest);
            let r = lemma_laid_split(b, head, rest, mode, p, q);
            let e = lemma_read_condition(m, n, i, p, r, mode, "elif"@, nl, *x);
            let k = lemma_read_tail(m, n, e, r, q, mode, nl, x.else_);
            lemma_elif_step(m, i, e, k, *x);
            k
        } else {
            let body = branch_view("else"@, nl, x.then_);
            let inner = body[1];
            let close = closing_view(x.then_, inline_semicolon());
            let docs = seq![text_view("else"@), inner, close, nl, text_view("fi"@)];
            assert(else_view(nl, x.else_) =~= seq![]);
            assert(else_view(nl, tail) + fi =~= docs);
            let (r1, r2, r3, r4) = lemma_laid_five(
                b,
                text_view("else"@),
                inner,
                close,
                nl,
                text_view("fi"@),
                mode,
                p,
                q,
            );
            lemma_body_start(b, nl, x.then_, mode, r1, r2);
            lemma_read_last_keyword(m, i, p, r1, "else"@);
            let e = lemma_read_body(m, n, i + 1, r1, r2, r3, r4, mode, nl, x.then_, Stop::Fi);
            lemma_read_last_keyword(m, e, r4, q, "fi"@);
            lemma_at_stop(m, e, "fi"@, Stop::Fi);
            lemma_else_step(m, i, e, *x);
            e + 1
        },
    }
}

/// Read a `while` or `until`.
#[verifier::rlimit(30)]
proof fn lemma_read_while(
    m: Input,
    n: Input,
    i: int,
    p: int,
    q: int,
    mode: Mode,
    x: WhileClauseView,
) -> (k: int)
    requires
        ready(m, n),
        at(m, i, p),
        laid(bytes(m), crate::printer::while_view(x), mode, p, q),
        stops(bytes(m), q),
        x == crate::parser::while_view(x.until, x.cond, x.do_),
        good_list(n, x.cond),
        apart_list(x.cond),
        apart_list(x.do_),
        good_list(n, x.do_),
    ensures
        i < k < m.toks.len(),
        at(m, k, q),
        m.is_word(
            i,
            if x.until {
                "until"@
            } else {
                "while"@
            },
        ),
        m.while_clause(i, x.until) == Ok::<(CommandView, int), Fault>(
            (CommandView::While(Box::new(x)), k),
        ),
    decreases x, 1int,
{
    let b = bytes(m);
    lemma_keywords();
    let semi = text_view(";"@);
    let seps = separators_view(x.cond, semi, text_view(" "@));
    let after = after_view(x.cond);
    let keyword = if x.until {
        "until"@
    } else {
        "while"@
    };
    let head = text_view(
        if x.until {
            "until "@
        } else {
            "while "@
        },
    );
    let block = keyword_block_view("do"@, "done"@, x.do_);
    let docs = seq![head, inline_view(x.cond), after, block];
    lemma_laid_concat(b, docs, mode, p, q);
    assert(docs =~= seq![head] + seq![inline_view(x.cond), after, block]);
    let r1 = lemma_laid_split(
        b,
        seq![head],
        seq![inline_view(x.cond), after, block],
        mode,
        p,
        q,
    );
    lemma_laid_single(b, head, mode, p, r1);
    let (r2, r3) = lemma_laid_three(b, inline_view(x.cond), after, block, mode, r1, q);
    lemma_read_keyword(m, i, p, r1, keyword);
    lemma_laid_concat(b, weave(stmts_view(x.cond), seps), mode, r1, r2);
    lemma_body_separators(x.cond, semi, text_view(" "@));
    lemma_after_gap(b, x.cond, mode, r2, r3);
    let e = lemma_read_list(
        m,
        n,
        i + 1,
        i + 1,
        r1,
        r2,
        r3,
        mode,
        seps,
        x.cond,
        Stop::Do,
    );
    let k = lemma_read_block(m, n, e, r3, q, mode, "do"@, "done"@, x.do_, Stop::Done);
    lemma_at_stop(m, e, "do"@, Stop::Do);
    lemma_while_step(m, i, e, k, x);
    k
}

/// Read a `for`.
#[verifier::rlimit(30)]
proof fn lemma_read_for(
    m: Input,
    n: Input,
    i: int,
    p: int,
    q: int,
    mode: Mode,
    x: ForClauseView,
) -> (k: int)
    requires
        ready(m, n),
        at(m, i, p),
        laid(bytes(m), crate::printer::for_view(x), mode, p, q),
        stops(bytes(m), q),
        x.loop_ is Word,
        x == crate::parser::for_view(x.loop_->Word_0.name.value, for_items(x), x.do_),
        word_text(x.loop_->Word_0.name.value),
        good_words(x.loop_->Word_0.items),
        good_list(n, x.do_),
        apart_list(x.do_),
    ensures
        i < k < m.toks.len(),
        at(m, k, q),
        m.is_word(i, "for"@),
        m.for_clause(i) == Ok::<(CommandView, int), Fault>((CommandView::For(Box::new(x)), k)),
    decreases x, 1int,
{
    let wi = x.loop_->Word_0;
    let block = keyword_block_view("do"@, "done"@, x.do_);
    lemma_keywords();
    let (j, e, r) = lemma_read_for_head(m, i, p, q, mode, wi, block);
    let k = lemma_read_block(m, n, e, r, q, mode, "do"@, "done"@, x.do_, Stop::Done);
    lemma_for_step(m, i, j, e, k, x);
    k
}

/// Read a `for`, up to its `do`.
proof fn lemma_read_for_head(
    m: Input,
    i: int,
    p: int,
    q: int,
    mode: Mode,
    wi: WordIterView,
    block: DocView,
) -> (res: (int, int, int))
    requires
        tokenized(m),
        at(m, i, p),
        laid(
            bytes(m),
            concat_view(
                seq![
                    text_view("for "@),
                    crate::printer::word_iter_view(wi),
                    text_view("; "@),
                    block,
                ],
            ),
            mode,
            p,
            q,
        ),
        word_text(wi.name.value),
        good_words(wi.items),
    ensures
        i < res.0 < res.1 < m.toks.len(),
        m.is_word(i, "for"@),
        iter_at(m, i + 1, wi, res.0),
        m.kind(res.0) is Newline || m.is_op(res.0, Op::Semi),
        m.past_separators(res.0) == m.past_separators(res.1),
        at(m, res.1, res.2),
        laid(bytes(m), block, mode, res.2, q),
{
    let b = bytes(m);
    lemma_keywords();
    let sep = text_view("; "@);
    let iter = crate::printer::word_iter_view(wi);
    let docs = seq![text_view("for "@), iter, sep, block];
    lemma_laid_concat(b, docs, mode, p, q);
    assert(docs =~= seq![text_view("for "@)] + seq![iter, sep, block]);
    let r1 = lemma_laid_split(
        b,
        seq![text_view("for "@)],
        seq![iter, sep, block],
        mode,
        p,
        q,
    );
    lemma_laid_single(b, text_view("for "@), mode, p, r1);
    let (r2, r3) = lemma_laid_three(b, iter, sep, block, mode, r1, q);
    lemma_read_keyword(m, i, p, r1, "for"@);
    lemma_semicolon_text(b, r2, r3);
    let j = lemma_read_iter(m, i + 1, r1, r2, mode, wi);
    let e = lemma_read_gap(m, j, r2, r3);
    lemma_at_bounds(m, e, r3);
    (j, e, r3)
}

// ---------------------------------------------------------------------------
// Files
// ---------------------------------------------------------------------------

/// Whether `text` is `f` printed at `width`, with the newline at the end or
/// without it.
pub open spec fn printed(f: FileView, width: int, text: Seq<char>) -> bool {
    text == format_view(f, width) || text == pretty_view(width, file_view(f))
}

/// A printed file is a rendering of its statements, with at most a newline
/// behind it.
proof fn lemma_file_docs(f: FileView, width: int, text: Seq<char>) -> (q: int)
    requires
        printed(f, width, text),
    ensures
        laid_all(
            encode_utf8(text),
            interleave(DocView::HardLine, stmts_view(f.stmts)),
            Mode::Break,
            0,
            q,
        ),
        gap(encode_utf8(text), q, encode_utf8(text).len() as int),
{
    let d = file_view(f);
    let docs = interleave(DocView::HardLine, stmts_view(f.stmts));
    let s = pretty_view(width, d);
    let u = encode_utf8(s);
    let q = u.len() as int;
    law_layout_is_a_rendering(width, d);
    if text == s {
        lemma_laid_concat(u, docs, Mode::Break, 0, q);
    } else {
        let nl = seq!['\n'];
        assert(text =~= s + nl);
        lemma_encode_add(s, nl);
        assert(is_ascii_chars(nl));
        is_ascii_chars_encode_utf8(nl);
        assert(nl[0] as u8 == encode_utf8(nl)[0]);
        let b = u + encode_utf8(nl);
        lemma_laid_prefix(u, encode_utf8(nl), d, Mode::Break, 0, q);
        lemma_laid_concat(b, docs, Mode::Break, 0, q);
        assert(b[q] == ascii::NEWLINE);
        assert(gap(b, q, b.len() as int));
    }
    q
}

/// A file that `n` parses to, whose redirections are apart, is parsed from its
/// printed form again.
pub proof fn lemma_file_reads_back(n: Input, m: Input, f: FileView, width: int)
    requires
        clean(n),
        good_list(n, f.stmts),
        apart_list(f.stmts),
        tokenized(m),
        printed(f, width, m.src),
        f.name is None,
        f.last == Seq::<crate::ast::CommentView>::empty(),
    ensures
        m.file() == Ok::<FileView, Fault>(f),
{
    let b = bytes(m);
    let q = lemma_file_docs(f, width, m.src);
    let seps = Seq::new(f.stmts.len(), |i: int| DocView::HardLine);
    lemma_weave_same(stmts_view(f.stmts), DocView::HardLine, seps);
    assert(are_separators(f.stmts, seps)) by {
        reveal(are_separators);
    }
    assert(ends_list(b, last_ends(f.stmts), q, b.len() as int)) by {
        reveal(ends_list);
    }
    lemma_at_first(m);
    let e = lemma_read_list(
        m,
        n,
        0,
        0,
        0,
        q,
        b.len() as int,
        Mode::Break,
        seps,
        f.stmts,
        Stop::End,
    );
    lemma_at_end(m, e, b.len() as int);
    assert(f == FileView { name: None, stmts: f.stmts, last: seq![] });
}

} // verus!
