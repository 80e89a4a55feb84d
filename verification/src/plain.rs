//! Plain commands, without quotes, expansions or redirected input, are always
//! understood and formatted, however many there are and however they are
//! nested.

use vstd::prelude::*;
use vstd::string::*;
use vstd::utf8::*;
use crate::apart::{apart_command, apart_if, apart_list, apart_redir, apart_redirs, apart_stmt,
    apart_tail};
use crate::ascii;
use crate::ast::{BinCmdOperator, BinaryCmdView, BlockView, CallExprView, CommandView, CommentView,
    FileView, ForClauseView, IfClauseView, RedirectView, StmtView, SubshellView, WhileClauseView,
    WordView};
use crate::doc::{DocView, Frame, Mode, concat_view, interleave, join_view, layout,
    lemma_opened_less, newline, opened, pretty_view, work};
use crate::format::{format_command_view, law_what_can_be_formatted_is_formatted, occurrences};
use crate::lexer::{Fault, LexState, Op, TokKind, TokenView, ends_word, lex_from, lex_start,
    lex_step, lex_view, operator_at, past_blanks, takes_paren, token_at, token_end, with_delim,
    word_from};
use crate::parser::{Input, absent, parse_view, present, raw_word_view};
use crate::printer::{after_view, assigns_view, binary_view, body_view, branch_view, break_view,
    call_view, chain_first_view, chain_rest_view, closing_view, command_view, else_view, file_view,
    for_view, format_view, if_view, inline_semicolon, inline_view, keyword_block_view, loop_view,
    nest_view, paren_view, part_if, parts_view, redirs_view, segment_view, semicolon_view,
    separators_view, spaced, stmt_view, stmts_view, text_view, weave, while_view, word_view,
    words_view};
use crate::readback::lemma_file_reads_back;
use crate::idempotence::{lemma_clean, lemma_tokenized};
use crate::reading::{lemma_ordinary_word, ordinary, word_text};
use crate::stable::{bang_first, good_command, good_list, good_redir, good_redirs, good_stmt,
    good_tail, good_word, good_words};
use crate::text::{blank, lemma_encode_add, slice_chars};

verus! {

// ---------------------------------------------------------------------------
// Texts that always tokenize
// ---------------------------------------------------------------------------

/// Whether the byte `c` is neither a quote nor `<`, and starts no expansion or
/// comment.
pub open spec fn quiet_byte(c: u8) -> bool {
    &&& c != ascii::BACKSLASH
    &&& c != ascii::SINGLE_QUOTE
    &&& c != ascii::DOUBLE_QUOTE
    &&& c != ascii::BACKQUOTE
    &&& c != ascii::DOLLAR
    &&& c != ascii::HASH
    &&& c != ascii::LESS
}

/// Whether all bytes are quiet, and no parenthesis can belong to a word.
pub open spec fn quiet(b: Seq<u8>) -> bool {
    &&& forall|i: int| 0 <= i < b.len() ==> quiet_byte(#[trigger] b[i])
    &&& {
        ||| forall|i: int| 0 <= i < b.len() ==> #[trigger] b[i] != ascii::LPAREN
        ||| forall|i: int| 0 <= i < b.len() ==> !takes_paren(#[trigger] b[i])
    }
}

/// A word in a quiet text ends in the text, with a newline behind it or without.
proof fn lemma_quiet_word(b: Seq<u8>, c: Seq<u8>, j: int)
    requires
        quiet(b),
        c == b.push(ascii::NEWLINE),
        0 <= j <= b.len(),
    ensures
        word_from(b, j) is Ok,
        j <= word_from(b, j)->Ok_0 <= b.len(),
        word_from(c, j) == word_from(b, j),
    decreases b.len() - j,
{
    if j < b.len() {
        assert(quiet_byte(b[j]));
        assert(c[j] == b[j]);
        if j + 1 < b.len() {
            assert(quiet_byte(b[j + 1]));
            assert(c[j + 1] == b[j + 1]);
        }
        lemma_quiet_word(b, c, j + 1);
    } else {
        assert(c[j] == ascii::NEWLINE);
    }
}

proof fn lemma_quiet_blanks(b: Seq<u8>, c: Seq<u8>, j: int)
    requires
        quiet(b),
        c == b.push(ascii::NEWLINE),
        0 <= j <= b.len(),
    ensures
        past_blanks(c, j) == past_blanks(b, j),
        j <= past_blanks(b, j) <= b.len(),
    decreases b.len() - j,
{
    if j < b.len() {
        assert(quiet_byte(b[j]));
        assert(c[j] == b[j]);
        lemma_quiet_blanks(b, c, j + 1);
    } else {
        assert(c[j] == ascii::NEWLINE);
    }
}

/// A token in a quiet text.
proof fn lemma_quiet_token(b: Seq<u8>, c: Seq<u8>, j: int)
    requires
        quiet(b),
        c == b.push(ascii::NEWLINE),
        0 <= j < b.len(),
        past_blanks(b, j) == j,
    ensures
        token_end(b, j) is Ok,
        token_end(c, j) == token_end(b, j),
        ({
            let (kind, end) = token_end(b, j)->Ok_0;
            &&& j < end <= b.len()
            &&& kind is Newline || kind is Word || kind is Op
            &&& kind != TokKind::Op(Op::DLess) && kind != TokKind::Op(Op::DLessDash)
        }),
{
    assert(quiet_byte(b[j]));
    assert(c[j] == b[j]);
    lemma_quiet_word(b, c, j);
    if j + 1 < b.len() {
        assert(quiet_byte(b[j + 1]));
        assert(c[j + 1] == b[j + 1]);
    }
    if j + 2 < b.len() {
        assert(quiet_byte(b[j + 2]));
        assert(c[j + 2] == b[j + 2]);
    }
    assert(operator_at(c, j) == operator_at(b, j));
    crate::lexer::law_operator_longest_match(b, j, Op::Semi);
    lemma_quiet_blanks(b, c, j + 1);
    if operator_at(b, j) is None && b[j] != ascii::NEWLINE {
        assert(!ends_word(b[j]));
        lemma_quiet_word(b, c, j + 1);
        assert(word_from(b, j) == word_from(b, j + 1));
    }
}

/// A quiet text tokenizes, without comments; with a newline behind it, it has the
/// same words.
#[verifier::rlimit(40)]
proof fn lemma_quiet_lexes(
    src: Seq<char>,
    b: Seq<u8>,
    c: Seq<u8>,
    st: LexState,
    su: LexState,
    w: Seq<char>,
)
    requires
        b == encode_utf8(src),
        c == encode_utf8(src.push('\n')),
        quiet(b),
        c == b.push(ascii::NEWLINE),
        0 <= st.pos <= b.len(),
        su.pos == st.pos,
        st.pending.len() == 0,
        su.pending.len() == 0,
        forall|i: int| 0 <= i < st.toks.len() ==> (#[trigger] st.toks[i]).kind !is Comment,
        forall|i: int| 0 <= i < su.toks.len() ==> (#[trigger] su.toks[i]).kind !is Comment,
        occurrences(src, st.toks, w) == occurrences(src.push('\n'), su.toks, w),
    ensures
        lex_from(b, st) is Ok,
        lex_from(c, su) is Ok,
        forall|i: int|
            0 <= i < lex_from(b, st)->Ok_0.len() ==> (#[trigger] lex_from(b, st)->Ok_0[i]).kind
                !is Comment,
        forall|i: int|
            0 <= i < lex_from(c, su)->Ok_0.len() ==> (#[trigger] lex_from(c, su)->Ok_0[i]).kind
                !is Comment,
        occurrences(src, lex_from(b, st)->Ok_0, w) == occurrences(
            src.push('\n'),
            lex_from(c, su)->Ok_0,
            w,
        ),
    decreases b.len() - st.pos,
{
    let start = past_blanks(b, st.pos);
    lemma_quiet_blanks(b, c, st.pos);
    crate::lexer::lemma_past_idempotent(b, st.pos);
    if start >= b.len() {
        let eof = token_at(b, TokKind::Eof, start, start);
        lemma_occurrences_push(src, st.toks, eof, w);
        assert(c[start] == ascii::NEWLINE);
        let nl = token_at(c, TokKind::Newline, start, start + 1);
        let next = LexState { pos: start + 1, toks: su.toks.push(nl), pending: su.pending };
        assert(token_end(c, start) == Ok::<(TokKind, int), Fault>((TokKind::Newline, start + 1)));
        assert(lex_step(c, LexState { pos: start, ..su }) == Ok::<LexState, Fault>(next));
        let end = token_at(c, TokKind::Eof, start + 1, start + 1);
        assert(past_blanks(c, start + 1) == start + 1);
        assert(lex_from(c, su) == lex_from(c, next));
        assert(lex_from(c, next) == Ok::<Seq<TokenView>, Fault>(next.toks.push(end)));
        lemma_occurrences_push(src.push('\n'), su.toks, nl, w);
        lemma_occurrences_push(src.push('\n'), next.toks, end, w);
    } else {
        lemma_quiet_token(b, c, start);
        let (kind, end) = token_end(b, start)->Ok_0;
        let tb = token_at(b, kind, start, end);
        let tc = token_at(c, kind, start, end);
        let sn = LexState { pos: end, toks: st.toks.push(tb), pending: st.pending };
        let un = LexState { pos: end, toks: su.toks.push(tc), pending: su.pending };
        let key = crate::lexer::delim_key(b.subrange(start, end));
        assert(c.subrange(start, end) =~= b.subrange(start, end));
        assert(with_delim(st.pending, key) =~= st.pending);
        assert(with_delim(su.pending, key) =~= su.pending);
        assert(lex_step(b, LexState { pos: start, ..st }) == Ok::<LexState, Fault>(sn));
        assert(lex_step(c, LexState { pos: start, ..su }) == Ok::<LexState, Fault>(un));
        lemma_occurrences_push(src, st.toks, tb, w);
        lemma_occurrences_push(src.push('\n'), su.toks, tc, w);
        assert(slice_chars(src, start, end) == slice_chars(src.push('\n'), start, end));
        lemma_quiet_lexes(src, b, c, sn, un, w);
    }
}

proof fn lemma_occurrences_push(src: Seq<char>, toks: Seq<TokenView>, t: TokenView, w: Seq<char>)
    ensures
        occurrences(src, toks.push(t), w) == occurrences(src, toks, w) + if t.kind is Word
            && slice_chars(src, t.start, t.end) == w {
            1int
        } else {
            0int
        },
{
    let is_w = |t: TokenView| t.kind is Word && slice_chars(src, t.start, t.end) == w;
    toks.lemma_filter_push(t, is_w);
}

/// A quiet text and the same with a newline behind it.
proof fn lemma_quiet_text(src: Seq<char>, w: Seq<char>)
    requires
        quiet(encode_utf8(src)),
    ensures
        lex_view(encode_utf8(src)) is Ok,
        lex_view(encode_utf8(src.push('\n'))) is Ok,
        forall|i: int|
            0 <= i < lex_view(encode_utf8(src))->Ok_0.len() ==> (#[trigger] lex_view(
                encode_utf8(src),
            )->Ok_0[i]).kind !is Comment,
        occurrences(src, lex_view(encode_utf8(src))->Ok_0, w) == occurrences(
            src.push('\n'),
            lex_view(encode_utf8(src.push('\n')))->Ok_0,
            w,
        ),
{
    let nl = seq!['\n'];
    assert(src.push('\n') =~= src + nl);
    lemma_encode_add(src, nl);
    assert(is_ascii_chars(nl));
    is_ascii_chars_encode_utf8(nl);
    assert(nl[0] as u8 == encode_utf8(nl)[0]);
    let b = encode_utf8(src);
    assert(encode_utf8(src.push('\n')) =~= b.push(ascii::NEWLINE));
    let none = Seq::<TokenView>::empty();
    let f = |t: TokenView| t.kind is Word && slice_chars(src, t.start, t.end) == w;
    let g = |t: TokenView| t.kind is Word && slice_chars(src.push('\n'), t.start, t.end) == w;
    assert(none.filter(f) =~= none && none.filter(g) =~= none);
    lemma_quiet_lexes(
        src,
        b,
        encode_utf8(src.push('\n')),
        lex_start(),
        lex_start(),
        w,
    );
}

// ---------------------------------------------------------------------------
// Plain commands
// ---------------------------------------------------------------------------

/// Whether `c` is a letter, a digit or one of `-_./:,%`.
pub open spec fn plain_char(c: char) -> bool {
    ||| 'a' <= c <= 'z'
    ||| 'A' <= c <= 'Z'
    ||| '0' <= c <= '9'
    ||| c == '-' || c == '_' || c == '.' || c == '/' || c == ':' || c == ',' || c == '%'
}

/// Whether `t` is a word of plain characters.
pub open spec fn plain_text(t: Seq<char>) -> bool {
    t.len() > 0 && forall|i: int| 0 <= i < t.len() ==> plain_char(#[trigger] t[i])
}

/// Whether `w` is a word of plain characters.
pub open spec fn plain_word(w: WordView) -> bool {
    &&& w == raw_word_view(w.parts[0]->Lit_0.value)
    &&& plain_text(w.parts[0]->Lit_0.value)
}

pub open spec fn plain_words(words: Seq<WordView>) -> bool {
    forall|i: int| 0 <= i < words.len() ==> plain_word(#[trigger] words[i])
}

/// Whether `t` is a word of the language and cannot name a command.
pub open spec fn keyword(t: Seq<char>) -> bool {
    ||| t == "if"@ || t == "then"@ || t == "elif"@ || t == "else"@ || t == "fi"@
    ||| t == "while"@ || t == "until"@ || t == "for"@ || t == "do"@ || t == "done"@
    ||| t == "case"@ || t == "esac"@ || t == "select"@ || t == "function"@
    ||| t == "coproc"@ || t == "time"@
}

/// Whether `r` sends output to a plain word, with the number of a file descriptor
/// or without.
pub open spec fn plain_redir(r: RedirectView) -> bool {
    &&& r.op_pos == absent()
    &&& r.hdoc is None
    &&& r.word is Some && plain_word(r.word->Some_0)
    &&& r.op is RdrOut || r.op is AppOut || r.op is DplOut || r.op is ClbOut || r.op is RdrAll || r.op
        is AppAll
    &&& r.n matches Some(l) ==> {
        &&& l == crate::parser::lit_view(l.value)
        &&& l.value.len() > 0
        &&& forall|i: int| 0 <= i < l.value.len() ==> '0' <= #[trigger] l.value[i] <= '9'
        &&& !(r.op is RdrAll) && !(r.op is AppAll)
    }
}

pub open spec fn plain_redirs(redirs: Seq<RedirectView>) -> bool {
    forall|i: int| 0 <= i < redirs.len() ==> plain_redir(#[trigger] redirs[i])
}

/// Whether `s` is plain, as one of several statements (`level` 2), as an operand
/// of `&&` or `||` (1), or of `|` (0). With `subs` there can be subshells in it,
/// and without it `!` and redirections.
pub open spec fn plain_stmt(subs: bool, s: StmtView, level: int) -> bool
    decreases s, 0int,
{
    &&& s.comments == Seq::<CommentView>::empty()
    &&& s.position == absent()
    &&& s.semicolon == absent()
    &&& !s.coprocess
    &&& plain_redirs(s.redirs)
    &&& subs ==> !s.negated && s.redirs.len() == 0
    &&& match s.cmd {
        None => false,
        Some(CommandView::Binary(x)) => {
            &&& !s.negated
            &&& s.redirs == Seq::<RedirectView>::empty()
            &&& x.op_pos == absent()
            &&& !x.x.background
            &&& !x.y.background
            &&& match x.op {
                BinCmdOperator::AndStmt | BinCmdOperator::OrStmt => level >= 2 && plain_stmt(
                    subs,
                    x.x,
                    2,
                ) && plain_stmt(subs, x.y, 1),
                BinCmdOperator::Pipe | BinCmdOperator::PipeAll => level >= 1 && plain_stmt(
                    subs,
                    x.x,
                    1,
                ) && plain_stmt(subs, x.y, 0),
            }
        },
        Some(cmd) => plain_command(subs, cmd),
    }
}

/// Whether `cmd` is a plain command: words, a block, a subshell, an `if`, a
/// `while`, an `until` or a `for`, of plain statements.
pub open spec fn plain_command(subs: bool, cmd: CommandView) -> bool
    decreases cmd, 0int,
{
    match cmd {
        CommandView::Call(c) => {
            &&& c.assigns == Seq::<crate::ast::AssignView>::empty()
            &&& plain_words(c.args)
            &&& c.args.len() > 0
            &&& !keyword(c.args[0].parts[0]->Lit_0.value)
        },
        CommandView::Block(x) => {
            &&& x == BlockView { lbrace: absent(), rbrace: absent(), last: seq![], ..x }
            &&& plain_list(subs, x.stmts)
        },
        CommandView::Subshell(x) => {
            &&& subs
            &&& x == SubshellView { lparen: absent(), rparen: absent(), last: seq![], ..x }
            &&& plain_list(subs, x.stmts)
        },
        CommandView::If(x) => {
            &&& *x == crate::parser::if_view(present(), x.cond, x.then_, x.else_)
            &&& plain_list(subs, x.cond)
            &&& plain_list(subs, x.then_)
            &&& plain_tail(subs, x.else_)
        },
        CommandView::While(x) => {
            &&& *x == crate::parser::while_view(x.until, x.cond, x.do_)
            &&& plain_list(subs, x.cond)
            &&& plain_list(subs, x.do_)
        },
        CommandView::For(x) => {
            &&& x.loop_ is Word
            &&& *x == crate::parser::for_view(
                x.loop_->Word_0.name.value,
                if x.loop_->Word_0.in_pos.is_valid() {
                    Some(x.loop_->Word_0.items)
                } else {
                    None
                },
                x.do_,
            )
            &&& plain_text(x.loop_->Word_0.name.value)
            &&& plain_words(x.loop_->Word_0.items)
            &&& plain_list(subs, x.do_)
        },
        _ => false,
    }
}

/// Whether the `elif` and `else` branches are plain.
pub open spec fn plain_tail(subs: bool, tail: Option<Box<IfClauseView>>) -> bool
    decreases tail, 0int,
{
    match tail {
        None => true,
        Some(x) => if x.then_pos.is_valid() {
            &&& *x == crate::parser::if_view(present(), x.cond, x.then_, x.else_)
            &&& plain_list(subs, x.cond)
            &&& plain_list(subs, x.then_)
            &&& plain_tail(subs, x.else_)
        } else {
            &&& *x == crate::parser::if_view(absent(), seq![], x.then_, None)
            &&& plain_list(subs, x.then_)
        },
    }
}

/// Whether all of `stmts` are plain, however many there are.
pub open spec fn plain_list(subs: bool, stmts: Seq<StmtView>) -> bool
    decreases stmts, 0int,
{
    forall|i: int| 0 <= i < stmts.len() ==> plain_stmt(subs, #[trigger] stmts[i], 2)
}

// ---------------------------------------------------------------------------
// What plain commands print to
// ---------------------------------------------------------------------------

/// Whether `c` occurs in the text of a plain command.
spec fn shown(subs: bool, c: char) -> bool {
    ||| plain_char(c) || c == ' ' || c == '\n' || c == ';' || c == '&' || c == '|'
    ||| c == '{' || c == '}'
    ||| subs && (c == '(' || c == ')')
    ||| !subs && (c == '!' || c == '>')
}

spec fn shown_text(subs: bool, t: Seq<char>) -> bool {
    forall|i: int| 0 <= i < t.len() ==> shown(subs, #[trigger] t[i])
}

/// Whether all texts in `d` are shown.
spec fn neat(subs: bool, d: DocView) -> bool
    decreases d,
{
    match d {
        DocView::Text(s) => shown_text(subs, s),
        DocView::Concat(items) => forall|i: int|
            0 <= i < items.len() ==> neat(subs, #[trigger] items[i]),
        DocView::Nest(_, inner) => neat(subs, *inner),
        DocView::Group(inner) => neat(subs, *inner),
        DocView::IfBreak { flat, broken } => neat(subs, *flat) && neat(subs, *broken),
        _ => true,
    }
}

spec fn all_neat(subs: bool, docs: Seq<DocView>) -> bool {
    forall|i: int| 0 <= i < docs.len() ==> neat(subs, #[trigger] docs[i])
}

/// The layout of neat documents is shown.
proof fn lemma_neat_layout(subs: bool, width: int, col: int, frames: Seq<Frame>)
    requires
        forall|i: int| 0 <= i < frames.len() ==> neat(subs, (#[trigger] frames[i]).doc),
    ensures
        shown_text(subs, layout(width, col, frames)),
    decreases work(frames),
{
    if frames.len() > 0 {
        let f = frames[0];
        let rest = frames.drop_first();
        assert(neat(subs, f.doc));
        assert forall|i: int| 0 <= i < rest.len() implies neat(subs, (#[trigger] rest[i]).doc) by {
            assert(rest[i] == frames[i + 1]);
        }
        lemma_opened_less(frames, Mode::Flat);
        lemma_opened_less(frames, Mode::Break);
        match f.doc {
            DocView::Nil => {
                lemma_neat_layout(subs, width, col, rest);
            },
            DocView::Text(s) => {
                lemma_neat_layout(subs, width, col + s.len(), rest);
            },
            DocView::Line if f.mode == Mode::Flat => {
                lemma_neat_layout(subs, width, col + 1, rest);
            },
            DocView::SoftLine if f.mode == Mode::Flat => {
                lemma_neat_layout(subs, width, col, rest);
            },
            DocView::Line | DocView::SoftLine | DocView::HardLine => {
                lemma_neat_layout(subs, width, f.indent as int, rest);
                assert(shown_text(subs, newline(f.indent)));
            },
            _ => {
                lemma_neat_opened(subs, f, Mode::Flat, rest);
                lemma_neat_opened(subs, f, Mode::Break, rest);
                lemma_neat_layout(subs, width, col, opened(f, Mode::Flat) + rest);
                lemma_neat_layout(subs, width, col, opened(f, Mode::Break) + rest);
            },
        }
    }
}

proof fn lemma_neat_opened(subs: bool, f: Frame, mode: Mode, rest: Seq<Frame>)
    requires
        neat(subs, f.doc),
        forall|i: int| 0 <= i < rest.len() ==> neat(subs, (#[trigger] rest[i]).doc),
    ensures
        ({
            let all = opened(f, mode) + rest;
            forall|i: int| 0 <= i < all.len() ==> neat(subs, (#[trigger] all[i]).doc)
        }),
{
    let o = opened(f, mode);
    let all = o + rest;
    assert forall|i: int| 0 <= i < all.len() implies neat(subs, (#[trigger] all[i]).doc) by {
        if i < o.len() {
            assert(all[i] == o[i]);
        } else {
            assert(all[i] == rest[i - o.len()]);
        }
    }
}

proof fn lemma_neat_concat(subs: bool, docs: Seq<DocView>)
    requires
        all_neat(subs, docs),
    ensures
        neat(subs, concat_view(docs)),
{
    let keep = |d: DocView| d !is Nil;
    let kept = docs.filter(keep);
    assert forall|i: int| 0 <= i < kept.len() implies neat(subs, #[trigger] kept[i]) by {
        assert(kept.contains(kept[i]));
        docs.lemma_filter_contains_rev(keep, kept[i]);
        let j = choose|j: int| 0 <= j < docs.len() && docs[j] == kept[i];
        assert(neat(subs, docs[j]));
    }
}

proof fn lemma_neat_interleave(subs: bool, sep: DocView, docs: Seq<DocView>)
    requires
        neat(subs, sep),
        all_neat(subs, docs),
    ensures
        all_neat(subs, interleave(sep, docs)),
    decreases docs.len(),
{
    if docs.len() > 1 {
        let front = docs.drop_last();
        lemma_neat_interleave(subs, sep, front);
        assert(docs.last() == docs[docs.len() - 1]);
    }
}

proof fn lemma_neat_weave(subs: bool, docs: Seq<DocView>, seps: Seq<DocView>)
    requires
        all_neat(subs, docs),
        all_neat(subs, seps),
        docs.len() <= seps.len(),
    ensures
        all_neat(subs, weave(docs, seps)),
    decreases docs.len(),
{
    if docs.len() > 1 {
        let front = docs.drop_last();
        lemma_neat_weave(subs, front, seps);
        assert(docs.last() == docs[docs.len() - 1]);
        assert(neat(subs, seps[docs.len() - 2]));
    }
}

/// The texts that the printer puts in.
proof fn lemma_literals(subs: bool)
    ensures
        !subs ==> shown_text(subs, "! "@) && shown_text(subs, ">"@) && shown_text(subs, ">>"@)
            && shown_text(subs, ">&"@) && shown_text(subs, ">|"@) && shown_text(subs, "&>"@)
            && shown_text(subs, "&>>"@),
        subs ==> shown_text(subs, "("@) && shown_text(subs, "("@ + " "@) && shown_text(subs, ")"@),
        shown_text(subs, " &"@) && shown_text(subs, " |&"@) && shown_text(subs, ";"@),
        shown_text(subs, "; "@) && shown_text(subs, " "@),
        shown_text(subs, "{"@) && shown_text(subs, "}"@),
        shown_text(subs, "do"@) && shown_text(subs, "done"@) && shown_text(subs, "then"@),
        shown_text(subs, "else"@) && shown_text(subs, "elif "@) && shown_text(subs, "fi"@),
        shown_text(subs, "if "@) && shown_text(subs, "while "@) && shown_text(subs, "until "@),
        shown_text(subs, "for "@) && shown_text(subs, " in "@),
        shown_text(subs, "&&"@) && shown_text(subs, "||"@),
        shown_text(subs, "|"@) && shown_text(subs, "|&"@),
{
    reveal_strlit("! ");
    reveal_strlit(">");
    reveal_strlit(">>");
    reveal_strlit(">&");
    reveal_strlit(">|");
    reveal_strlit("&>");
    reveal_strlit("&>>");
    reveal_strlit("(");
    reveal_strlit(")");
    reveal_strlit(" &");
    reveal_strlit(" |&");
    reveal_strlit(";");
    reveal_strlit("; ");
    reveal_strlit(" ");
    reveal_strlit("{");
    reveal_strlit("}");
    reveal_strlit("do");
    reveal_strlit("done");
    reveal_strlit("then");
    reveal_strlit("else");
    reveal_strlit("elif ");
    reveal_strlit("fi");
    reveal_strlit("if ");
    reveal_strlit("while ");
    reveal_strlit("until ");
    reveal_strlit("for ");
    reveal_strlit(" in ");
    reveal_strlit("&&");
    reveal_strlit("||");
    reveal_strlit("|");
    reveal_strlit("|&");
}

proof fn lemma_neat_word(subs: bool, w: WordView)
    requires
        plain_word(w),
    ensures
        neat(subs, word_view(w)),
{
    let t = w.parts[0]->Lit_0.value;
    assert(shown_text(subs, t));
    let docs = parts_view(w.parts);
    assert(docs =~= seq![DocView::Text(t)]);
    lemma_neat_concat(subs, docs);
}

proof fn lemma_neat_words(subs: bool, words: Seq<WordView>)
    requires
        plain_words(words),
    ensures
        all_neat(subs, words_view(words)),
{
    assert forall|i: int| 0 <= i < words.len() implies neat(subs, #[trigger] words_view(words)[i]) by {
        assert(plain_word(words[i]));
        lemma_neat_word(subs, words[i]);
    }
}

proof fn lemma_neat_redirs(subs: bool, redirs: Seq<RedirectView>)
    requires
        plain_redirs(redirs),
        subs ==> redirs.len() == 0,
    ensures
        all_neat(subs, spaced(redirs_view(redirs))),
{
    lemma_literals(subs);
    let docs = redirs_view(redirs);
    assert forall|i: int| 0 <= i < docs.len() implies neat(subs, #[trigger] docs[i]) by {
        let r = redirs[i];
        assert(plain_redir(r));
        lemma_neat_word(subs, r.word->Some_0);
        if let Some(l) = r.n {
            assert(shown_text(subs, l.value));
        }
        assert(shown_text(subs, r.op.spelling()));
        let parts = (match r.n {
            Some(n) => seq![text_view(n.value)],
            None => seq![],
        }) + seq![text_view(r.op.spelling())] + seq![word_view(r.word->Some_0)];
        assert(all_neat(subs, parts));
        lemma_neat_concat(subs, parts);
    }
    lemma_neat_spaced(subs, docs);
}

proof fn lemma_neat_spaced(subs: bool, docs: Seq<DocView>)
    requires
        all_neat(subs, docs),
    ensures
        all_neat(subs, spaced(docs)),
    decreases docs.len(),
{
    lemma_literals(subs);
    if docs.len() > 0 {
        lemma_neat_spaced(subs, docs.drop_last());
        assert(docs.last() == docs[docs.len() - 1]);
    }
}

proof fn lemma_neat_stmt(subs: bool, s: StmtView, level: int)
    requires
        plain_stmt(subs, s, level),
    ensures
        neat(subs, stmt_view(s)),
    decreases s, 2int,
{
    lemma_literals(subs);
    let cmd = s.cmd->Some_0;
    let d = command_view(cmd);
    assert(neat(subs, d)) by {
        if let CommandView::Binary(x) = cmd {
            lemma_neat_chain(subs, *x);
        } else {
            lemma_neat_command(subs, cmd);
        }
    }
    lemma_neat_redirs(subs, s.redirs);
    let docs = part_if(s.negated, text_view("! "@)) + seq![d] + spaced(redirs_view(s.redirs))
        + part_if(s.background, text_view(" &"@)) + part_if(s.coprocess, text_view(" |&"@));
    lemma_neat_concat(subs, docs);
}

/// The parts of a chain.
proof fn lemma_neat_chain_parts(subs: bool, s: StmtView, level: int)
    requires
        plain_stmt(subs, s, level),
    ensures
        neat(subs, chain_first_view(s)),
        all_neat(subs, chain_rest_view(s)),
    decreases s, 3int,
{
    if let Some(CommandView::Binary(x)) = s.cmd {
        let lx = if x.op is AndStmt || x.op is OrStmt {
            2int
        } else {
            1int
        };
        lemma_neat_chain_parts(subs, x.x, lx);
        lemma_neat_stmt(subs, x.y, lx - 1);
        lemma_neat_segment(subs, x.op, stmt_view(x.y));
    } else {
        lemma_neat_stmt(subs, s, level);
    }
}

proof fn lemma_neat_segment(subs: bool, op: BinCmdOperator, operand: DocView)
    requires
        neat(subs, operand),
    ensures
        neat(subs, segment_view(op, operand)),
{
    lemma_literals(subs);
    let t = " "@ + op.spelling();
    assert(shown_text(subs, op.spelling()));
    assert(shown_text(subs, t));
    lemma_neat_concat(subs, seq![text_view(t), DocView::Line, operand]);
}

proof fn lemma_neat_chain(subs: bool, x: BinaryCmdView)
    requires
        ({
            let lx = if x.op is AndStmt || x.op is OrStmt {
                2int
            } else {
                1int
            };
            plain_stmt(subs, x.x, lx) && plain_stmt(subs, x.y, lx - 1)
        }),
    ensures
        neat(subs, binary_view(x)),
    decreases x, 0int,
{
    let lx = if x.op is AndStmt || x.op is OrStmt {
        2int
    } else {
        1int
    };
    lemma_neat_chain_parts(subs, x.x, lx);
    lemma_neat_stmt(subs, x.y, lx - 1);
    lemma_neat_segment(subs, x.op, stmt_view(x.y));
    let rest = chain_rest_view(x.x).push(segment_view(x.op, stmt_view(x.y)));
    lemma_neat_concat(subs, rest);
    lemma_neat_concat(subs, seq![chain_first_view(x.x), nest_view(concat_view(rest))]);
}

proof fn lemma_neat_list(subs: bool, stmts: Seq<StmtView>)
    requires
        plain_list(subs, stmts),
    ensures
        all_neat(subs, stmts_view(stmts)),
    decreases stmts, 0int,
{
    assert forall|i: int| 0 <= i < stmts.len() implies neat(subs, #[trigger] stmts_view(stmts)[i]) by {
        assert(plain_stmt(subs, stmts[i], 2));
        lemma_neat_stmt(subs, stmts[i], 2);
    }
}

/// Statements of a body.
proof fn lemma_neat_body(subs: bool, stmts: Seq<StmtView>, semi: DocView, nl: DocView)
    requires
        all_neat(subs, stmts_view(stmts)),
        neat(subs, semi),
        neat(subs, nl),
    ensures
        neat(subs, body_view(stmts, semi, nl)),
        neat(subs, closing_view(stmts, semi)),
{
    let seps = separators_view(stmts, semi, nl);
    assert forall|i: int| 0 <= i < seps.len() implies neat(subs, #[trigger] seps[i]) by {
        lemma_neat_concat(subs, seq![semicolon_view(stmts[i], semi), nl]);
    }
    lemma_neat_weave(subs, stmts_view(stmts), seps);
    lemma_neat_concat(subs, weave(stmts_view(stmts), seps));
}

proof fn lemma_neat_semicolon(subs: bool)
    ensures
        neat(subs, inline_semicolon()),
        neat(subs, DocView::Line),
        neat(subs, DocView::HardLine),
{
    lemma_literals(subs);
    reveal_with_fuel(neat, 2);
}

proof fn lemma_neat_block(subs: bool, open: Seq<char>, close: Seq<char>, stmts: Seq<StmtView>)
    requires
        shown_text(subs, open),
        shown_text(subs, close),
        all_neat(subs, stmts_view(stmts)),
    ensures
        neat(subs, keyword_block_view(open, close, stmts)),
{
    lemma_literals(subs);
    lemma_neat_semicolon(subs);
    if stmts.len() == 0 {
        lemma_neat_concat(subs, seq![text_view(open), text_view(" "@), text_view(close)]);
    } else {
        let nl = break_view(stmts.len() > 1);
        let body = body_view(stmts, inline_semicolon(), nl);
        lemma_neat_body(subs, stmts, inline_semicolon(), nl);
        lemma_neat_concat(subs, seq![nl, body]);
        let nest = nest_view(concat_view(seq![nl, body]));
        assert(neat(subs, nest));
        lemma_neat_concat(
            subs,
            seq![
                text_view(open),
                nest,
                closing_view(stmts, inline_semicolon()),
                nl,
                text_view(close),
            ],
        );
    }
}

/// Statements on one line, and what stands behind them.
proof fn lemma_neat_inline(subs: bool, stmts: Seq<StmtView>)
    requires
        all_neat(subs, stmts_view(stmts)),
    ensures
        neat(subs, inline_view(stmts)),
        neat(subs, after_view(stmts)),
{
    lemma_literals(subs);
    lemma_neat_body(subs, stmts, text_view(";"@), text_view(" "@));
}

proof fn lemma_neat_branch(subs: bool, word: Seq<char>, nl: DocView, stmts: Seq<StmtView>)
    requires
        shown_text(subs, word),
        neat(subs, nl),
        all_neat(subs, stmts_view(stmts)),
    ensures
        all_neat(subs, branch_view(word, nl, stmts)),
{
    lemma_neat_semicolon(subs);
    lemma_neat_body(subs, stmts, inline_semicolon(), nl);
    let body = body_view(stmts, inline_semicolon(), nl);
    lemma_neat_concat(subs, seq![nl, body]);
    assert(neat(subs, nest_view(concat_view(seq![nl, body]))));
}

#[verifier::rlimit(40)]
proof fn lemma_neat_tail(subs: bool, nl: DocView, tail: Option<Box<IfClauseView>>)
    requires
        neat(subs, nl),
        plain_tail(subs, tail),
    ensures
        all_neat(subs, else_view(nl, tail)),
    decreases tail, 0int,
{
    lemma_literals(subs);
    if let Some(c) = tail {
        lemma_neat_list(subs, c.then_);
        let rest = else_view(nl, c.else_);
        if c.then_pos.is_valid() {
            lemma_neat_list(subs, c.cond);
            lemma_neat_inline(subs, c.cond);
            lemma_neat_branch(subs, "then"@, nl, c.then_);
            let branch = branch_view("then"@, nl, c.then_);
            lemma_neat_concat(subs, branch);
            lemma_neat_tail(subs, nl, c.else_);
            let here = seq![
                text_view("elif "@),
                inline_view(c.cond),
                after_view(c.cond),
                concat_view(branch),
                nl,
            ];
            assert(all_neat(subs, here));
            assert(else_view(nl, tail) == here + rest);
        } else {
            lemma_neat_branch(subs, "else"@, nl, c.then_);
            let here = branch_view("else"@, nl, c.then_).push(nl);
            assert(all_neat(subs, here));
            lemma_neat_tail(subs, nl, c.else_);
            assert(else_view(nl, tail) == here + rest);
        }
    }
}

#[verifier::rlimit(40)]
proof fn lemma_neat_command(subs: bool, cmd: CommandView)
    requires
        plain_command(subs, cmd),
    ensures
        neat(subs, command_view(cmd)),
    decreases cmd, 1int,
{
    match cmd {
        CommandView::Call(c) => {
            lemma_neat_call(subs, c);
        },
        CommandView::Block(x) => {
            lemma_neat_list(subs, x.stmts);
            lemma_neat_braces(subs, x.stmts);
        },
        CommandView::Subshell(x) => {
            lemma_neat_list(subs, x.stmts);
            lemma_neat_subshell(subs, x.stmts);
        },
        CommandView::If(x) => {
            lemma_neat_list(subs, x.cond);
            lemma_neat_list(subs, x.then_);
            lemma_neat_if(subs, *x);
        },
        CommandView::While(x) => {
            lemma_neat_list(subs, x.cond);
            lemma_neat_list(subs, x.do_);
            lemma_neat_while(subs, *x);
        },
        CommandView::For(x) => {
            lemma_neat_list(subs, x.do_);
            lemma_neat_for(subs, *x);
        },
        _ => {},
    }
}

proof fn lemma_neat_call(subs: bool, c: CallExprView)
    requires
        c.assigns == Seq::<crate::ast::AssignView>::empty(),
        plain_words(c.args),
    ensures
        neat(subs, call_view(c)),
{
    lemma_literals(subs);
    lemma_neat_words(subs, c.args);
    let words = words_view(c.args);
    assert(assigns_view(c.assigns) + words =~= words);
    lemma_neat_interleave(subs, text_view(" "@), words);
    lemma_neat_concat(subs, interleave(text_view(" "@), words));
}

proof fn lemma_neat_braces(subs: bool, stmts: Seq<StmtView>)
    requires
        all_neat(subs, stmts_view(stmts)),
    ensures
        neat(subs, keyword_block_view("{"@, "}"@, stmts)),
{
    lemma_literals(subs);
    lemma_neat_block(subs, "{"@, "}"@, stmts);
}

proof fn lemma_neat_subshell(subs: bool, stmts: Seq<StmtView>)
    requires
        subs,
        all_neat(subs, stmts_view(stmts)),
    ensures
        neat(
            subs,
            concat_view(seq![paren_view("("@, stmts), inline_view(stmts), text_view(")"@)]),
        ),
{
    lemma_literals(subs);
    lemma_neat_inline(subs, stmts);
    lemma_neat_concat(subs, seq![paren_view("("@, stmts), inline_view(stmts), text_view(")"@)]);
}

proof fn lemma_neat_while(subs: bool, x: WhileClauseView)
    requires
        all_neat(subs, stmts_view(x.cond)),
        all_neat(subs, stmts_view(x.do_)),
    ensures
        neat(subs, while_view(x)),
{
    lemma_literals(subs);
    lemma_neat_inline(subs, x.cond);
    lemma_neat_block(subs, "do"@, "done"@, x.do_);
    let word = if x.until {
        "until "@
    } else {
        "while "@
    };
    lemma_neat_concat(
        subs,
        seq![
            text_view(word),
            inline_view(x.cond),
            after_view(x.cond),
            keyword_block_view("do"@, "done"@, x.do_),
        ],
    );
}

proof fn lemma_neat_if(subs: bool, x: IfClauseView)
    requires
        all_neat(subs, stmts_view(x.cond)),
        all_neat(subs, stmts_view(x.then_)),
        plain_tail(subs, x.else_),
    ensures
        neat(subs, if_view(x)),
    decreases x, 0int,
{
    lemma_literals(subs);
    lemma_neat_semicolon(subs);
    let nl = break_view(x.then_.len() > 1 || x.else_ is Some);
    lemma_neat_inline(subs, x.cond);
    lemma_neat_branch(subs, "then"@, nl, x.then_);
    lemma_neat_concat(subs, branch_view("then"@, nl, x.then_));
    lemma_neat_tail(subs, nl, x.else_);
    let docs = seq![
        text_view("if "@),
        inline_view(x.cond),
        after_view(x.cond),
        concat_view(branch_view("then"@, nl, x.then_)),
        nl,
    ] + else_view(nl, x.else_) + seq![text_view("fi"@)];
    assert(all_neat(subs, docs));
    lemma_neat_concat(subs, docs);
}

proof fn lemma_neat_for(subs: bool, x: ForClauseView)
    requires
        x.loop_ is Word,
        !x.select,
        plain_text(x.loop_->Word_0.name.value),
        plain_words(x.loop_->Word_0.items),
        all_neat(subs, stmts_view(x.do_)),
    ensures
        neat(subs, for_view(x)),
{
    lemma_literals(subs);
    let it = x.loop_->Word_0;
    assert(shown_text(subs, it.name.value));
    lemma_neat_words(subs, it.items);
    let words = words_view(it.items);
    lemma_neat_interleave(subs, text_view(" "@), words);
    lemma_neat_concat(subs, interleave(text_view(" "@), words));
    lemma_neat_concat(subs, seq![text_view(it.name.value), text_view(" in "@), join_view(text_view(" "@), words)],
    );
    lemma_neat_block(subs, "do"@, "done"@, x.do_);
    lemma_neat_concat(
        subs,
        seq![
            text_view("for "@),
            loop_view(x.loop_),
            text_view("; "@),
            keyword_block_view("do"@, "done"@, x.do_),
        ],
    );
}

// ---------------------------------------------------------------------------
// Plain commands are read back
// ---------------------------------------------------------------------------

proof fn lemma_plain_text(t: Seq<char>)
    requires
        plain_text(t),
    ensures
        word_text(t),
        t != "{"@ && t != "}"@ && t != "[["@ && t != "!"@,
{
    assert forall|k: int| 0 <= k < t.len() implies '\0' <= #[trigger] t[k] <= '\u{7f}' by {
        assert(plain_char(t[k]));
    }
    is_ascii_chars_encode_utf8(t);
    let u = encode_utf8(t);
    assert forall|k: int| 0 <= k < u.len() implies ordinary(#[trigger] u[k]) by {
        assert(t[k] as u8 == u[k]);
        assert(plain_char(t[k]));
    }
    assert(t[0] as u8 == u[0]);
    assert(plain_char(t[0]));
    lemma_ordinary_word(u);
    reveal_strlit("{");
    reveal_strlit("}");
    reveal_strlit("[[");
    reveal_strlit("!");
}

proof fn lemma_plain_words_good(words: Seq<WordView>)
    requires
        plain_words(words),
    ensures
        good_words(words),
{
    assert forall|i: int| 0 <= i < words.len() implies good_word(#[trigger] words[i]) by {
        assert(plain_word(words[i]));
        lemma_plain_text(words[i].parts[0]->Lit_0.value);
    }
}

proof fn lemma_plain_redirs_good(redirs: Seq<RedirectView>)
    requires
        plain_redirs(redirs),
    ensures
        good_redirs(redirs),
        apart_redirs(redirs),
{
    assert forall|i: int| 0 <= i < redirs.len() implies good_redir(#[trigger] redirs[i])
        && apart_redir(redirs[i]) by {
        let r = redirs[i];
        assert(plain_redir(r));
        let w = r.word->Some_0;
        lemma_plain_text(w.parts[0]->Lit_0.value);
        assert(plain_char(w.parts[0]->Lit_0.value[0]));
        if let Some(l) = r.n {
            assert(plain_text(l.value));
            lemma_plain_text(l.value);
        }
    }
}

proof fn lemma_plain_stmt_good(subs: bool, n: Input, s: StmtView, level: int)
    requires
        plain_stmt(subs, s, level),
    ensures
        good_stmt(n, s, level),
        apart_stmt(s),
    decreases s, 1int,
{
    lemma_plain_redirs_good(s.redirs);
    match s.cmd->Some_0 {
        CommandView::Binary(x) => {
            let lx = if x.op is AndStmt || x.op is OrStmt {
                2int
            } else {
                1int
            };
            lemma_plain_stmt_good(subs, n, x.x, lx);
            lemma_plain_stmt_good(subs, n, x.y, lx - 1);
        },
        cmd => {
            lemma_plain_command_good(subs, n, cmd, s.redirs);
        },
    }
}

#[verifier::rlimit(40)]
proof fn lemma_plain_command_good(subs: bool, n: Input, cmd: CommandView, redirs: Seq<RedirectView>)
    requires
        plain_command(subs, cmd),
        plain_redirs(redirs),
    ensures
        good_command(n, cmd, redirs),
        !bang_first(n, cmd),
        apart_command(cmd),
    decreases cmd, 0int,
{
    lemma_plain_redirs_good(redirs);
    match cmd {
        CommandView::Call(c) => {
            lemma_plain_words_good(c.args);
            assert(plain_word(c.args[0]));
            lemma_plain_text(c.args[0].parts[0]->Lit_0.value);
        },
        CommandView::Block(x) => {
            lemma_plain_list_good(subs, n, x.stmts);
        },
        CommandView::Subshell(x) => {
            lemma_plain_list_good(subs, n, x.stmts);
        },
        CommandView::If(x) => {
            lemma_plain_list_good(subs, n, x.cond);
            lemma_plain_list_good(subs, n, x.then_);
            lemma_plain_tail_good(subs, n, x.else_);
        },
        CommandView::While(x) => {
            lemma_plain_list_good(subs, n, x.cond);
            lemma_plain_list_good(subs, n, x.do_);
        },
        CommandView::For(x) => {
            lemma_plain_list_good(subs, n, x.do_);
            lemma_plain_words_good(x.loop_->Word_0.items);
            lemma_plain_text(x.loop_->Word_0.name.value);
        },
        _ => {},
    }
}

proof fn lemma_plain_tail_good(subs: bool, n: Input, tail: Option<Box<IfClauseView>>)
    requires
        plain_tail(subs, tail),
    ensures
        good_tail(n, tail),
        apart_tail(tail),
    decreases tail, 0int,
{
    if let Some(x) = tail {
        lemma_plain_list_good(subs, n, x.then_);
        if x.then_pos.is_valid() {
            lemma_plain_list_good(subs, n, x.cond);
            lemma_plain_tail_good(subs, n, x.else_);
        } else {
            assert(x.cond =~= seq![]);
            assert(x.else_ is None);
        }
        assert(apart_list(x.cond));
        assert(apart_tail(x.else_));
        assert(apart_if(*x));
    }
}

proof fn lemma_plain_list_good(subs: bool, n: Input, stmts: Seq<StmtView>)
    requires
        plain_list(subs, stmts),
    ensures
        good_list(n, stmts),
        apart_list(stmts),
    decreases stmts, 0int,
{
    if stmts.len() > 0 {
        assert(plain_stmt(subs, stmts[0], 2));
        lemma_plain_stmt_good(subs, n, stmts[0], 2);
        let rest = stmts.drop_first();
        assert forall|i: int| 0 <= i < rest.len() implies plain_stmt(subs, #[trigger] rest[i], 2) by {
            assert(rest[i] == stmts[i + 1]);
        }
        lemma_plain_list_good(subs, n, rest);
    }
}

/// The text of plain commands is quiet.
proof fn lemma_plain_is_quiet(subs: bool, f: FileView, width: int)
    requires
        plain_list(subs, f.stmts),
    ensures
        quiet(encode_utf8(pretty_view(width, file_view(f)))),
{
    let text = pretty_view(width, file_view(f));
    let docs = interleave(DocView::HardLine, stmts_view(f.stmts));
    lemma_neat_semicolon(subs);
    lemma_neat_list(subs, f.stmts);
    lemma_neat_interleave(subs, DocView::HardLine, stmts_view(f.stmts));
    lemma_neat_concat(subs, docs);
    lemma_neat_layout(
        subs,
        width,
        0,
        seq![Frame { indent: 0, mode: Mode::Break, doc: file_view(f) }],
    );
    assert forall|k: int| 0 <= k < text.len() implies '\0' <= #[trigger] text[k] <= '\u{7f}' by {
        assert(shown(subs, text[k]));
    }
    is_ascii_chars_encode_utf8(text);
    let b = encode_utf8(text);
    assert forall|k: int| 0 <= k < b.len() implies quiet_byte(#[trigger] b[k]) by {
        assert(text[k] as u8 == b[k]);
        assert(shown(subs, text[k]));
    }
    if subs {
        assert forall|k: int| 0 <= k < b.len() implies !takes_paren(#[trigger] b[k]) by {
            assert(text[k] as u8 == b[k]);
            assert(shown(subs, text[k]));
        }
    } else {
        assert forall|k: int| 0 <= k < b.len() implies #[trigger] b[k] != ascii::LPAREN by {
            assert(text[k] as u8 == b[k]);
            assert(shown(subs, text[k]));
        }
    }
}

/// Plain commands are always understood and formatted, however many there are and
/// however they are nested: what they print to, at any width, parses into the
/// very same commands, and the formatter takes it and ends it with a newline.
/// With `subs` there can be subshells among them, and without it `!` and
/// redirections.
#[verifier::rlimit(40)]
pub proof fn law_plain_commands_are_formatted(subs: bool, f: FileView, width: int)
    requires
        f.name is None,
        f.last == Seq::<CommentView>::empty(),
        plain_list(subs, f.stmts),
        encode_utf8(pretty_view(width, file_view(f))).len() <= 8000,
    ensures
        ({
            let text = pretty_view(width, file_view(f));
            &&& lex_view(encode_utf8(text)) is Ok
            &&& parse_view(text, lex_view(encode_utf8(text))->Ok_0) == Ok::<FileView, Fault>(f)
            &&& format_command_view(text, width) == if text.len() > 0 && text.last() != '\n' {
                text.push('\n')
            } else {
                text
            }
        }),
{
    let text = pretty_view(width, file_view(f));
    lemma_plain_is_quiet(subs, f, width);
    lemma_quiet_text(text, seq![]);
    let toks = lex_view(encode_utf8(text))->Ok_0;
    let m = Input { src: text, toks };
    lemma_tokenized(text);
    assert(!crate::format::has_comment(toks));
    lemma_clean(text);
    lemma_plain_list_good(subs, m, f.stmts);
    lemma_file_reads_back(m, m, f, width);
    let out = format_view(f, width);
    let toks_out = lex_view(encode_utf8(out))->Ok_0;
    assert forall|w: Seq<char>| #[trigger] occurrences(text, toks, w) == occurrences(
        out,
        toks_out,
        w,
    ) by {
        lemma_quiet_text(text, w);
    }
    assert(blank(out) ==> blank(text)) by {
        if blank(out) {
            assert forall|i: int| 0 <= i < text.len() implies crate::text::white_space(
                #[trigger] text[i],
            ) by {
                assert(out[i] == text[i]);
            }
        }
    }
    law_what_can_be_formatted_is_formatted(text, width, toks, f, toks_out);
}

} // verus!
