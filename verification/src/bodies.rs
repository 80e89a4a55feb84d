//! How bodies are printed: inline if they are short and fit, and otherwise
//! expanded and indented.

use vstd::prelude::*;
use vstd::string::*;
use crate::ast::{BlockView, CommandView, FileView, ForClauseView, IfClauseView, LoopView, StmtView,
    SubshellView, WhileClauseView, WordIterView};
use crate::doc::{DocView, Frame, Mode, concat_view, flat_text, flat_texts, frames_of, has_hard,
    interleave, join_view, layout, newline, one_line, opened, pretty_view, spaces};
use crate::lines::{ends_line, law_group_lies_flat_exactly_when_its_line_fits,
    law_hard_line_parts_what_it_stands_between, lemma_flat_concat, lemma_hard_item,
    lemma_hard_or_one_line, lemma_layout_behind, lemma_layout_concat, lemma_line_concat,
    lemma_nest_body, line_start, moved_right, rest_of_line, steady};
use crate::printer::{after_view, body_view, branch_view, closing_view, command_view, else_view,
    file_view, inline_semicolon, inline_view, keyword_block_view, loop_view, nest_view, paren_view,
    part_if, redirs_view, semicolon_view, separators_view, spaced, starts_with_paren, stmt_view,
    stmts_view, text_view, weave, words_view};

use crate::statements::{is_raw, is_simple, joined, lemma_flat_push, lemma_flat_two,
    lemma_joined_words, lemma_raw_word, lemma_simple, lemma_single_file, lemma_solid_concat,
    lemma_solid_layout, lemma_solids_layout, raw_part, simple_text, solid};

verus! {

// ---------------------------------------------------------------------------
// Bodies
// ---------------------------------------------------------------------------

/// A separator that is a line break once it is broken.
spec fn breaks(semi: DocView) -> bool {
    semi is Nil || semi == inline_semicolon()
}

/// The separator of a broken body is laid out as a hard line.
proof fn lemma_separator(width: int, c: int, indent: isize, semi: DocView, tail: Seq<Frame>)
    requires
        breaks(semi),
    ensures
        ({
            let sep = Frame {
                indent,
                mode: Mode::Break,
                doc: concat_view(seq![semi, DocView::HardLine]),
            };
            let hard = Frame { indent, mode: Mode::Break, doc: DocView::HardLine };
            &&& layout(width, c, seq![sep] + tail) == layout(width, c, seq![hard] + tail)
            &&& rest_of_line(seq![sep] + tail).len() == 0
            &&& rest_of_line(seq![hard] + tail).len() == 0
        }),
{
    let items = seq![semi, DocView::HardLine];
    let hard = Frame { indent, mode: Mode::Break, doc: DocView::HardLine };
    let f = Frame { indent, mode: Mode::Break, doc: semi };
    let fs = frames_of(indent, Mode::Break, items) + tail;
    lemma_layout_concat(width, c, indent, Mode::Break, items, tail);
    lemma_line_concat(indent, Mode::Break, items, tail);
    assert(fs =~= seq![f] + (seq![hard] + tail));
    assert(fs.drop_first() =~= seq![hard] + tail);
    assert((seq![hard] + tail)[0] == hard);
    assert(rest_of_line(seq![hard] + tail).len() == 0);
    assert(line_start(semi, Mode::Break).len() == 0 && !ends_line(semi, Mode::Break)) by {
        reveal_with_fuel(line_start, 2);
        reveal_with_fuel(ends_line, 2);
    }
    if semi !is Nil {
        let nil = Frame { indent, mode: Mode::Break, doc: DocView::Nil };
        let next = seq![nil] + (seq![hard] + tail);
        assert(opened(f, Mode::Flat) =~= seq![nil]);
        assert(opened(f, Mode::Break) =~= seq![nil]);
        assert(layout(width, c, fs) == layout(width, c, next));
        assert(next.drop_first() =~= seq![hard] + tail);
    }
}

/// The statements of a broken body are laid out as those of a file.
proof fn lemma_body(
    width: int,
    col: int,
    indent: isize,
    docs: Seq<DocView>,
    stmts: Seq<StmtView>,
    tail: Seq<Frame>,
)
    requires
        docs.len() <= stmts.len(),
    ensures
        layout(
            width,
            col,
            frames_of(
                indent,
                Mode::Break,
                weave(docs, separators_view(stmts, inline_semicolon(), DocView::HardLine)),
            ) + tail,
        ) == layout(
            width,
            col,
            frames_of(indent, Mode::Break, interleave(DocView::HardLine, docs)) + tail,
        ),
    decreases docs.len(),
{
    let seps = separators_view(stmts, inline_semicolon(), DocView::HardLine);
    let hl = DocView::HardLine;
    if docs.len() > 1 {
        let front = docs.drop_last();
        let sep = seps[docs.len() - 2];
        let last = Frame { indent, mode: Mode::Break, doc: docs.last() };
        let fs = Frame { indent, mode: Mode::Break, doc: sep };
        let fh = Frame { indent, mode: Mode::Break, doc: hl };
        let wf = frames_of(indent, Mode::Break, weave(front, seps));
        let tf = frames_of(indent, Mode::Break, interleave(hl, front));
        let x = seq![fs] + (seq![last] + tail);
        let y = seq![fh] + (seq![last] + tail);
        assert(frames_of(indent, Mode::Break, weave(docs, seps)) + tail =~= wf + x);
        assert(frames_of(indent, Mode::Break, interleave(hl, docs)) + tail =~= tf + y);
        let semi = semicolon_view(stmts[docs.len() - 2], inline_semicolon());
        lemma_separator(width, 0, indent, semi, seq![last] + tail);
        assert forall|c: int| #[trigger] layout(width, c, x) == layout(width, c, y) by {
            lemma_separator(width, c, indent, semi, seq![last] + tail);
        }
        lemma_layout_behind(width, col, wf, x, y);
        lemma_body(width, col, indent, front, stmts, y);
    } else if docs.len() == 1 {
        assert(weave(docs, seps) =~= interleave(hl, docs));
    } else {
        assert(weave(docs, seps) =~= interleave(hl, docs));
    }
}

/// Whether no word of `stmts` has a newline in it, and the indentation stays in
/// range.
#[verifier::opaque]
pub open spec fn steady_body(stmts: Seq<StmtView>) -> bool {
    steady(file_view(FileView { name: None, stmts, last: seq![] }), isize::MAX - 2)
}

/// The statements of a body on lines of their own, for `width` columns, each
/// line indented by two.
#[verifier::opaque]
pub open spec fn indented_body(stmts: Seq<StmtView>, width: int) -> Seq<char> {
    moved_right(
        seq!['\n'] + pretty_view(
            width,
            file_view(FileView { name: None, stmts, last: seq![] }),
        ),
        2,
    )
}

/// A broken body behind its keyword, with what stands behind it.
#[verifier::rlimit(40)]
proof fn lemma_indented_body(width: int, col: int, stmts: Seq<StmtView>, after: Seq<Frame>)
    requires
        stmts.len() > 0,
        steady_body(stmts),
    ensures
        ({
            let nl = DocView::HardLine;
            let body = Frame {
                indent: 0,
                mode: Mode::Break,
                doc: nest_view(concat_view(seq![nl, body_view(stmts, inline_semicolon(), nl)])),
            };
            let closing = Frame {
                indent: 0,
                mode: Mode::Break,
                doc: closing_view(stmts, inline_semicolon()),
            };
            let hard = Frame { indent: 0, mode: Mode::Break, doc: nl };
            layout(width + 2, col, seq![body, closing] + seq![hard] + after) == indented_body(
                stmts,
                width,
            ) + seq!['\n'] + layout(width + 2, 0, after)
        }),
{
    reveal(steady_body);
    reveal(indented_body);
    let nl = DocView::HardLine;
    let whole = file_view(FileView { name: None, stmts, last: seq![] });
    let inner = body_view(stmts, inline_semicolon(), nl);
    let items = seq![nl, inner];
    let nest = nest_view(concat_view(items));
    let body = Frame { indent: 0, mode: Mode::Break, doc: nest };
    let closing = Frame {
        indent: 0,
        mode: Mode::Break,
        doc: closing_view(stmts, inline_semicolon()),
    };
    let hard = Frame { indent: 0, mode: Mode::Break, doc: nl };
    let none = Seq::<Frame>::empty();
    let w = width + 2;
    law_hard_line_parts_what_it_stands_between(w, col, seq![body, closing], hard, after);
    assert(spaces(0) =~= seq![]);
    // The closing semicolon is not there in a broken body.
    assert(seq![body, closing] =~= seq![body] + seq![closing]);
    assert(seq![body] + none =~= seq![body]);
    assert forall|c: int| #[trigger] layout(w, c, seq![closing]) == layout(w, c, none) by {
        lemma_closing(w, c, closing);
    }
    lemma_closing(w, 0, closing);
    lemma_layout_behind(w, col, seq![body], seq![closing], none);
    // The nest.
    let f = Frame { indent: 2, mode: Mode::Break, doc: concat_view(items) };
    assert(0isize.wrapping_add(2) == 2);
    assert(seq![body].drop_first() =~= none);
    assert(opened(body, Mode::Flat) + none =~= seq![f]);
    assert(opened(body, Mode::Break) + none =~= seq![f]);
    assert(layout(w, col, seq![body]) == layout(w, col, seq![f]));
    lemma_layout_concat(w, col, 2, Mode::Break, items, none);
    assert(seq![f] + none =~= seq![f]);
    let x = frames_of(2, Mode::Break, items);
    assert(x + none =~= x);
    assert(x[0].doc is HardLine);
    let b = Frame { indent: 2, mode: Mode::Break, doc: inner };
    assert(x.drop_first() =~= seq![b]);
    assert(layout(w, col, x) == newline(2) + layout(w, 2, seq![b]));
    // Its statements.
    let docs = stmts_view(stmts);
    let seps = separators_view(stmts, inline_semicolon(), nl);
    lemma_layout_concat(w, 2, 2, Mode::Break, weave(docs, seps), none);
    assert(seq![b] + none =~= seq![b]);
    lemma_body(w, 2, 2, docs, stmts, none);
    lemma_layout_concat(w, 2, 2, Mode::Break, interleave(nl, docs), none);
    let g = Frame { indent: 2, mode: Mode::Break, doc: whole };
    assert(seq![g] + none =~= seq![g]);
    assert(layout(w, 2, seq![b]) == layout(w, 2, seq![g]));
    let y = frames_of(2, Mode::Break, seq![nl, whole]);
    lemma_nest_body(width, col, 2, seq![nl, whole], whole);
    assert(y[0].doc is HardLine);
    assert(y.drop_first() =~= seq![g]);
    assert(layout(w, col, y) == newline(2) + layout(w, 2, seq![g]));
}

proof fn lemma_closing(w: int, c: int, closing: Frame)
    requires
        closing.mode == Mode::Break,
        breaks(closing.doc),
    ensures
        layout(w, c, seq![closing]) == layout(w, c, Seq::<Frame>::empty()),
        rest_of_line(seq![closing]).len() == 0,
        rest_of_line(Seq::<Frame>::empty()).len() == 0,
{
    let none = Seq::<Frame>::empty();
    let all = seq![closing];
    assert(all.drop_first() =~= none);
    assert(line_start(closing.doc, Mode::Break).len() == 0) by {
        reveal_with_fuel(line_start, 2);
    }
    assert(rest_of_line(none) =~= seq![]);
    if closing.doc !is Nil {
        let nil = Frame { indent: closing.indent, mode: Mode::Break, doc: DocView::Nil };
        assert(opened(closing, Mode::Flat) + none =~= seq![nil]);
        assert(opened(closing, Mode::Break) + none =~= seq![nil]);
        assert(layout(w, c, all) == layout(w, c, seq![nil]));
        assert(seq![nil].drop_first() =~= none);
    }
}

/// A block of several statements, behind the text `before`.
#[verifier::rlimit(40)]
proof fn lemma_block(
    width: int,
    col: int,
    open: Seq<char>,
    close: Seq<char>,
    stmts: Seq<StmtView>,
)
    requires
        stmts.len() > 1,
        steady_body(stmts),
    ensures
        layout(
            width + 2,
            col,
            seq![
                Frame {
                    indent: 0,
                    mode: Mode::Break,
                    doc: keyword_block_view(open, close, stmts),
                },
            ],
        ) == open + indented_body(stmts, width) + seq!['\n'] + close,
{
    let w = width + 2;
    let nl = DocView::HardLine;
    let none = Seq::<Frame>::empty();
    let items = seq![
        text_view(open),
        nest_view(concat_view(seq![nl, body_view(stmts, inline_semicolon(), nl)])),
        closing_view(stmts, inline_semicolon()),
        nl,
        text_view(close),
    ];
    let d = concat_view(items);
    let f = Frame { indent: 0, mode: Mode::Break, doc: keyword_block_view(open, close, stmts) };
    assert(f.doc == DocView::Group(Box::new(d)));
    assert(seq![f] + none =~= seq![f]);
    law_group_lies_flat_exactly_when_its_line_fits(w, col, f, none);
    assert(!one_line(d)) by {
        lemma_hard_concat(items, 3);
        lemma_hard_or_one_line(d);
    }
    lemma_layout_concat(w, col, 0, Mode::Break, items, none);
    let fs = frames_of(0, Mode::Break, items);
    assert(fs + none =~= fs);
    assert(fs[0].doc == DocView::Text(open));
    let c = col + open.len();
    let rest = fs.drop_first();
    let last = Frame { indent: 0, mode: Mode::Break, doc: text_view(close) };
    lemma_indented_body(width, c, stmts, seq![last]);
    assert(rest =~= seq![fs[1], fs[2]] + seq![fs[3]] + seq![last]);
    assert(layout(w, col, fs) == open + layout(w, c, rest));
    assert(seq![last].drop_first() =~= none);
    assert(layout(w, close.len() as int, none) =~= seq![]);
    assert(layout(w, 0, seq![last]) =~= close);
    assert(open + (indented_body(stmts, width) + seq!['\n'] + close) =~= open + indented_body(
        stmts,
        width,
    ) + seq!['\n'] + close);
}

/// A sequence with a hard line among its documents has a hard line.
proof fn lemma_hard_concat(items: Seq<DocView>, i: int)
    requires
        0 <= i < items.len(),
        items[i] is HardLine,
    ensures
        has_hard(concat_view(items)),
{
    let keep = |d: DocView| d !is Nil;
    let kept = items.filter(keep);
    items.lemma_filter_contains(keep, i);
    let j = choose|j: int| 0 <= j < kept.len() && kept[j] == items[i];
    assert(has_hard(kept[j]));
    if kept.len() > 1 {
        lemma_hard_item(kept, j);
    }
}

/// A block of several statements is expanded: its statements stand on lines of
/// their own between the braces, laid out as by themselves in two columns less,
/// and moved right by two, at every depth.
pub proof fn law_block_is_expanded_and_indented(
    f: FileView,
    width: int,
    s: StmtView,
    block: BlockView,
)
    requires
        f.stmts == seq![s],
        s.cmd == Some(CommandView::Block(block)),
        !s.negated && !s.background && !s.coprocess && s.redirs.len() == 0,
        block.stmts.len() > 1,
        steady_body(block.stmts),
    ensures
        pretty_view(width + 2, file_view(f)) == seq!['{'] + indented_body(block.stmts, width)
            + seq!['\n', '}'],
{
    lemma_single_file(f, width + 2);
    lemma_bare_stmt(s);
    lemma_block(width, 0, "{"@, "}"@, block.stmts);
    lemma_braces(indented_body(block.stmts, width));
}

proof fn lemma_braces(body: Seq<char>)
    ensures
        "{"@ + body + seq!['\n'] + "}"@ == seq!['{'] + body + seq!['\n', '}'],
{
    reveal_strlit("{");
    reveal_strlit("}");
    assert("{"@ =~= seq!['{']);
    assert("{"@ + body + seq!['\n'] + "}"@ =~= seq!['{'] + body + seq!['\n', '}']);
}

/// The document of a statement that is just its command.
proof fn lemma_bare_stmt(s: StmtView)
    requires
        s.cmd is Some,
        !s.negated && !s.background && !s.coprocess && s.redirs.len() == 0,
        command_view(s.cmd->Some_0) !is Nil,
    ensures
        stmt_view(s) == command_view(s.cmd->Some_0),
{
    let d = command_view(s.cmd->Some_0);
    let none = Seq::<DocView>::empty();
    let keep = |d: DocView| d !is Nil;
    assert(redirs_view(s.redirs) =~= none);
    assert(spaced(none) =~= none);
    assert(part_if(false, text_view("! "@)) + seq![d] + spaced(redirs_view(s.redirs)) + part_if(
        false,
        text_view(" &"@),
    ) + part_if(false, text_view(" |&"@)) =~= none.push(d));
    none.lemma_filter_push(d, keep);
    assert(none.filter(keep) =~= none);
    assert(none.push(d) =~= seq![d]);
}

/// Solid documents in front of others.
proof fn lemma_prefixed(width: int, docs: Seq<DocView>, tail: Seq<Frame>)
    requires
        forall|i: int| 0 <= i < docs.len() ==> solid(#[trigger] docs[i]),
    ensures
        layout(width, 0, frames_of(0, Mode::Break, docs) + tail) == flat_texts(docs) + layout(
            width,
            flat_texts(docs).len() as int,
            tail,
        ),
{
    lemma_solids_layout(width, 0, 0, Mode::Break, docs, tail);
}

/// Whether `cond` is a single simple command that runs in the foreground.
pub open spec fn is_short(cond: Seq<StmtView>) -> bool {
    cond.len() == 1 && is_simple(cond[0]) && !cond[0].background
}

/// A condition on one line.
proof fn lemma_condition(cond: Seq<StmtView>)
    requires
        is_short(cond),
    ensures
        solid(inline_view(cond)),
        flat_text(inline_view(cond)) == simple_text(cond[0]),
        after_view(cond) == text_view("; "@),
{
    assert(!cond[0].coprocess) by {
        reveal(is_simple);
    }
    let docs = stmts_view(cond);
    let seps = separators_view(cond, text_view(";"@), text_view(" "@));
    lemma_simple(cond[0]);
    assert(weave(docs, seps) =~= seq![stmt_view(cond[0])]);
    lemma_solid_concat(weave(docs, seps));
    lemma_flat_two(stmt_view(cond[0]), stmt_view(cond[0]));
}

/// A statement that is a sequence of documents.
proof fn lemma_concat_stmt(f: FileView, width: int, s: StmtView, items: Seq<DocView>)
    requires
        f.stmts == seq![s],
        s.cmd is Some,
        !s.negated && !s.background && !s.coprocess && s.redirs.len() == 0,
        command_view(s.cmd->Some_0) == concat_view(items),
        exists|i: int| 0 <= i < items.len() && #[trigger] items[i] !is Nil,
    ensures
        pretty_view(width, file_view(f)) == layout(
            width,
            0,
            frames_of(0, Mode::Break, items),
        ),
{
    let keep = |d: DocView| d !is Nil;
    let i = choose|i: int| 0 <= i < items.len() && #[trigger] items[i] !is Nil;
    items.lemma_filter_contains(keep, i);
    let kept = items.filter(keep);
    assert forall|j: int| 0 <= j < kept.len() implies (#[trigger] kept[j]) !is Nil by {
        items.lemma_filter_pred(keep, j);
    }
    lemma_single_file(f, width);
    lemma_bare_stmt(s);
    let none = Seq::<Frame>::empty();
    let g = Frame { indent: 0, mode: Mode::Break, doc: stmt_view(s) };
    lemma_layout_concat(width, 0, 0, Mode::Break, items, none);
    assert(seq![g] + none =~= seq![g]);
    assert(frames_of(0, Mode::Break, items) + none =~= frames_of(0, Mode::Break, items));
}

/// A `while` or `until` over several statements is expanded: the condition stands
/// on the first line, and the body on lines of its own, moved right by two.
#[verifier::rlimit(40)]
pub proof fn law_while_is_expanded_and_indented(
    f: FileView,
    width: int,
    s: StmtView,
    w: WhileClauseView,
)
    requires
        f.stmts == seq![s],
        s.cmd == Some(CommandView::While(Box::new(w))),
        !s.negated && !s.background && !s.coprocess && s.redirs.len() == 0,
        is_short(w.cond),
        w.do_.len() > 1,
        steady_body(w.do_),
    ensures
        pretty_view(width + 2, file_view(f)) == (if w.until {
            "until "@
        } else {
            "while "@
        }) + simple_text(w.cond[0]) + "; do"@ + indented_body(w.do_, width) + seq!['\n'] + "done"@,
{
    let word = if w.until {
        "until "@
    } else {
        "while "@
    };
    let block = keyword_block_view("do"@, "done"@, w.do_);
    let docs = seq![text_view(word), inline_view(w.cond), after_view(w.cond)];
    let items = seq![text_view(word), inline_view(w.cond), after_view(w.cond), block];
    assert(items[0] !is Nil);
    lemma_concat_stmt(f, width + 2, s, items);
    lemma_condition(w.cond);
    let g = Frame { indent: 0, mode: Mode::Break, doc: block };
    assert(frames_of(0, Mode::Break, items) =~= frames_of(0, Mode::Break, docs) + seq![g]);
    lemma_prefixed(width + 2, docs, seq![g]);
    lemma_block(width, flat_texts(docs).len() as int, "do"@, "done"@, w.do_);
    lemma_flat_three(docs[0], docs[1], docs[2]);
    lemma_do(word + simple_text(w.cond[0]), indented_body(w.do_, width));
}

proof fn lemma_do(head: Seq<char>, body: Seq<char>)
    ensures
        head + "; "@ + ("do"@ + body + seq!['\n'] + "done"@) == head + "; do"@ + body + seq!['\n']
            + "done"@,
{
    reveal_strlit("; ");
    reveal_strlit("do");
    reveal_strlit("; do");
    assert("; "@ + "do"@ =~= "; do"@);
    assert(head + "; "@ + ("do"@ + body + seq!['\n'] + "done"@) =~= head + ("; "@ + "do"@) + body
        + seq!['\n'] + "done"@);
}

/// A `for` over several statements is expanded: the words it goes over stand on
/// the first line, and the body on lines of its own, moved right by two.
#[verifier::rlimit(40)]
pub proof fn law_for_is_expanded_and_indented(
    f: FileView,
    width: int,
    s: StmtView,
    l: ForClauseView,
    words: Seq<Seq<char>>,
)
    requires
        f.stmts == seq![s],
        s.cmd == Some(CommandView::For(Box::new(l))),
        !s.negated && !s.background && !s.coprocess && s.redirs.len() == 0,
        !l.select,
        l.loop_ is Word,
        l.loop_->Word_0.in_pos.is_valid(),
        l.loop_->Word_0.items.len() == words.len(),
        forall|i: int|
            0 <= i < words.len() ==> is_raw(#[trigger] l.loop_->Word_0.items[i]) && raw_part(
                l.loop_->Word_0.items[i],
            ) == words[i],
        l.do_.len() > 1,
        steady_body(l.do_),
    ensures
        pretty_view(width + 2, file_view(f)) == "for "@ + l.loop_->Word_0.name.value + " in "@
            + joined(words, seq![' ']) + "; do"@ + indented_body(l.do_, width) + seq!['\n']
            + "done"@,
{
    let block = keyword_block_view("do"@, "done"@, l.do_);
    let over = loop_view(l.loop_);
    let docs = seq![text_view("for "@), over, text_view("; "@)];
    let items = seq![text_view("for "@), over, text_view("; "@), block];
    assert(items[0] !is Nil);
    assert(command_view(s.cmd->Some_0) == concat_view(items));
    lemma_concat_stmt(f, width + 2, s, items);
    lemma_for_words(l.loop_->Word_0, words);
    let t = l.loop_->Word_0.name.value + " in "@ + joined(words, seq![' ']);
    let g = Frame { indent: 0, mode: Mode::Break, doc: block };
    assert(frames_of(0, Mode::Break, items) =~= frames_of(0, Mode::Break, docs) + seq![g]);
    lemma_prefixed(width + 2, docs, seq![g]);
    lemma_block(width, flat_texts(docs).len() as int, "do"@, "done"@, l.do_);
    lemma_flat_three(docs[0], docs[1], docs[2]);
    lemma_for_head(l.loop_->Word_0.name.value, joined(words, seq![' ']));
    lemma_do("for "@ + t, indented_body(l.do_, width));
}

proof fn lemma_for_head(name: Seq<char>, list: Seq<char>)
    ensures
        "for "@ + (name + " in "@ + list) == "for "@ + name + " in "@ + list,
{
    assert("for "@ + (name + " in "@ + list) =~= "for "@ + name + " in "@ + list);
}

proof fn lemma_flat_three(a: DocView, b: DocView, c: DocView)
    ensures
        flat_texts(seq![a, b, c]) == flat_text(a) + flat_text(b) + flat_text(c),
{
    assert(seq![a, b, c] =~= seq![a, b].push(c));
    lemma_flat_two(a, b);
    lemma_flat_push(seq![a, b], c);
}

/// What a `for` goes over.
proof fn lemma_for_words(it: WordIterView, words: Seq<Seq<char>>)
    requires
        it.in_pos.is_valid(),
        it.items.len() == words.len(),
        forall|i: int|
            0 <= i < words.len() ==> is_raw(#[trigger] it.items[i]) && raw_part(it.items[i])
                == words[i],
    ensures
        solid(loop_view(LoopView::Word(it))),
        flat_text(loop_view(LoopView::Word(it))) == it.name.value + " in "@ + joined(
            words,
            seq![' '],
        ),
{
    let ws = words_view(it.items);
    assert forall|i: int| 0 <= i < ws.len() implies #[trigger] ws[i] == DocView::Text(
        words[i],
    ) by {
        assert(is_raw(it.items[i]));
        lemma_raw_word(it.items[i]);
    }
    lemma_joined_words(words, ws);
    lemma_solid_concat(interleave(text_view(" "@), ws));
    let list = join_view(text_view(" "@), ws);
    let head = seq![text_view(it.name.value), text_view(" in "@), list];
    assert(loop_view(LoopView::Word(it)) == concat_view(head));
    lemma_solid_concat(head);
    lemma_flat_three(head[0], head[1], head[2]);
}

/// The `elif` and `else` branches of an expanded `if`: each keyword on a line of
/// its own, with the statements below it moved right by two.
pub open spec fn tail_text(tail: Option<Box<IfClauseView>>, width: int) -> Seq<char>
    decreases tail,
{
    match tail {
        None => seq![],
        Some(e) => if e.then_pos.is_valid() {
            "elif "@ + simple_text(e.cond[0]) + "; then"@ + indented_body(e.then_, width) + seq!['\n']
                + tail_text(e.else_, width)
        } else {
            "else"@ + indented_body(e.then_, width) + seq!['\n'] + tail_text(e.else_, width)
        },
    }
}

/// Whether the branches `tail` have short conditions and bodies that can be moved.
pub open spec fn steady_tail(tail: Option<Box<IfClauseView>>) -> bool
    decreases tail,
{
    match tail {
        None => true,
        Some(e) => {
            &&& e.then_pos.is_valid() ==> is_short(e.cond)
            &&& e.then_.len() > 0
            &&& steady_body(e.then_)
            &&& steady_tail(e.else_)
        },
    }
}

/// A condition behind its keyword, and the statements behind `then`.
#[verifier::rlimit(40)]
proof fn lemma_condition_and_body(
    width: int,
    word: Seq<char>,
    cond: Seq<StmtView>,
    stmts: Seq<StmtView>,
    after: Seq<Frame>,
)
    requires
        is_short(cond),
        stmts.len() > 0,
        steady_body(stmts),
    ensures
        ({
            let nl = DocView::HardLine;
            let docs = seq![
                text_view(word),
                inline_view(cond),
                after_view(cond),
                concat_view(branch_view("then"@, nl, stmts)),
                nl,
            ];
            layout(width + 2, 0, frames_of(0, Mode::Break, docs) + after) == word + simple_text(
                cond[0],
            ) + "; then"@ + indented_body(stmts, width) + seq!['\n'] + layout(width + 2, 0, after)
        }),
{
    let w = width + 2;
    let nl = DocView::HardLine;
    let branch = branch_view("then"@, nl, stmts);
    let docs = seq![text_view(word), inline_view(cond), after_view(cond)];
    lemma_condition(cond);
    let th = Frame { indent: 0, mode: Mode::Break, doc: concat_view(branch) };
    let hard = Frame { indent: 0, mode: Mode::Break, doc: nl };
    let behind = seq![th] + (seq![hard] + after);
    let all = seq![
        text_view(word),
        inline_view(cond),
        after_view(cond),
        concat_view(branch),
        nl,
    ];
    assert(frames_of(0, Mode::Break, all) + after =~= frames_of(0, Mode::Break, docs) + behind);
    lemma_prefixed(w, docs, behind);
    let col = flat_texts(docs).len() as int;
    lemma_layout_concat(w, col, 0, Mode::Break, branch, seq![hard] + after);
    lemma_branch(width, col, "then"@, stmts, after);
    lemma_flat_three(docs[0], docs[1], docs[2]);
    lemma_then(
        word + simple_text(cond[0]),
        indented_body(stmts, width),
        layout(w, 0, after),
    );
}

#[verifier::rlimit(40)]
proof fn lemma_tail_text(width: int, tail: Option<Box<IfClauseView>>, after: Seq<Frame>)
    requires
        steady_tail(tail),
    ensures
        layout(
            width + 2,
            0,
            frames_of(0, Mode::Break, else_view(DocView::HardLine, tail)) + after,
        ) == tail_text(tail, width) + layout(width + 2, 0, after),
    decreases tail,
{
    let nl = DocView::HardLine;
    let w = width + 2;
    let end = layout(w, 0, after);
    if let Some(e) = tail {
        let more = else_view(nl, e.else_);
        let rest = frames_of(0, Mode::Break, more) + after;
        lemma_tail_text(width, e.else_, after);
        let t = tail_text(e.else_, width);
        if e.then_pos.is_valid() {
            let here = seq![
                text_view("elif "@),
                inline_view(e.cond),
                after_view(e.cond),
                concat_view(branch_view("then"@, nl, e.then_)),
                nl,
            ];
            assert(frames_of(0, Mode::Break, else_view(nl, tail)) + after =~= frames_of(
                0,
                Mode::Break,
                here,
            ) + rest);
            lemma_condition_and_body(width, "elif "@, e.cond, e.then_, rest);
            lemma_group_end(
                "elif "@ + simple_text(e.cond[0]) + "; then"@ + indented_body(e.then_, width) + seq![
                    '\n',
                ],
                t,
                end,
            );
        } else {
            let branch = branch_view("else"@, nl, e.then_);
            let hard = Frame { indent: 0, mode: Mode::Break, doc: nl };
            assert(frames_of(0, Mode::Break, else_view(nl, tail)) + after =~= frames_of(
                0,
                Mode::Break,
                branch,
            ) + (seq![hard] + rest));
            lemma_branch(width, 0, "else"@, e.then_, rest);
            lemma_group_end("else"@ + indented_body(e.then_, width) + seq!['\n'], t, end);
        }
    } else {
        assert(frames_of(0, Mode::Break, else_view(nl, tail)) + after =~= after);
        assert(tail_text(tail, width) + end =~= end);
    }
}

proof fn lemma_group_end(a: Seq<char>, b: Seq<char>, c: Seq<char>)
    ensures
        a + (b + c) == a + b + c,
{
    assert(a + (b + c) =~= a + b + c);
}

/// An `if` over several statements, or with more than one branch, is expanded:
/// each condition stands on one line with its keywords, and the statements of
/// each branch on lines of their own, moved right by two.
#[verifier::rlimit(40)]
pub proof fn law_if_is_expanded_and_indented(f: FileView, width: int, s: StmtView, c: IfClauseView)
    requires
        f.stmts == seq![s],
        s.cmd == Some(CommandView::If(Box::new(c))),
        !s.negated && !s.background && !s.coprocess && s.redirs.len() == 0,
        is_short(c.cond),
        c.then_.len() > 0,
        c.then_.len() > 1 || c.else_ is Some,
        steady_body(c.then_),
        steady_tail(c.else_),
    ensures
        pretty_view(width + 2, file_view(f)) == "if "@ + simple_text(c.cond[0]) + "; then"@
            + indented_body(c.then_, width) + seq!['\n'] + tail_text(c.else_, width) + "fi"@,
{
    let w = width + 2;
    let nl = DocView::HardLine;
    let none = Seq::<Frame>::empty();
    let tail = else_view(nl, c.else_);
    let head = seq![
        text_view("if "@),
        inline_view(c.cond),
        after_view(c.cond),
        concat_view(branch_view("then"@, nl, c.then_)),
        nl,
    ];
    let items = head + tail + seq![text_view("fi"@)];
    let d = concat_view(items);
    let g = Frame { indent: 0, mode: Mode::Break, doc: command_view(s.cmd->Some_0) };
    assert(g.doc == DocView::Group(Box::new(d)));
    lemma_single_file(f, w);
    lemma_bare_stmt(s);
    assert(seq![g] + none =~= seq![g]);
    law_group_lies_flat_exactly_when_its_line_fits(w, 0, g, none);
    assert(items[4] is HardLine);
    lemma_hard_concat(items, 4);
    lemma_hard_or_one_line(d);
    lemma_layout_concat(w, 0, 0, Mode::Break, items, none);
    let fi = Frame { indent: 0, mode: Mode::Break, doc: text_view("fi"@) };
    let after = frames_of(0, Mode::Break, tail) + seq![fi];
    assert(frames_of(0, Mode::Break, items) + none =~= frames_of(0, Mode::Break, head) + after);
    lemma_condition_and_body(width, "if "@, c.cond, c.then_, after);
    assert(layout(w, "fi"@.len() as int, none) =~= seq![]);
    assert(seq![fi].drop_first() =~= none);
    assert(layout(w, 0, seq![fi]) =~= "fi"@);
    lemma_tail_text(width, c.else_, seq![fi]);
    lemma_group_end(
        "if "@ + simple_text(c.cond[0]) + "; then"@ + indented_body(c.then_, width) + seq!['\n'],
        tail_text(c.else_, width),
        "fi"@,
    );
}

proof fn lemma_then(head: Seq<char>, body: Seq<char>, more: Seq<char>)
    ensures
        head + "; "@ + ("then"@ + body + seq!['\n'] + more) == head + "; then"@ + body + seq!['\n']
            + more,
{
    reveal_strlit("; ");
    reveal_strlit("then");
    reveal_strlit("; then");
    assert("; "@ + "then"@ =~= "; then"@);
    assert(head + "; "@ + ("then"@ + body + seq!['\n'] + more) =~= head + ("; "@ + "then"@) + body
        + seq!['\n'] + more);
}

/// A branch behind its keyword.
proof fn lemma_branch(
    width: int,
    col: int,
    keyword: Seq<char>,
    stmts: Seq<StmtView>,
    after: Seq<Frame>,
)
    requires
        stmts.len() > 0,
        steady_body(stmts),
    ensures
        ({
            let hard = Frame { indent: 0, mode: Mode::Break, doc: DocView::HardLine };
            layout(
                width + 2,
                col,
                frames_of(0, Mode::Break, branch_view(keyword, DocView::HardLine, stmts)) + (seq![
                    hard,
                ] + after),
            ) == keyword + indented_body(stmts, width) + seq!['\n'] + layout(width + 2, 0, after)
        }),
{
    let nl = DocView::HardLine;
    let hard = Frame { indent: 0, mode: Mode::Break, doc: nl };
    let docs = branch_view(keyword, nl, stmts);
    let fs = frames_of(0, Mode::Break, docs);
    let all = fs + (seq![hard] + after);
    let c = col + keyword.len();
    lemma_indented_body(width, c, stmts, after);
    assert(all[0].doc == DocView::Text(keyword));
    assert(all.drop_first() =~= seq![fs[1], fs[2]] + seq![hard] + after);
    let end = layout(width + 2, 0, after);
    assert(keyword + (indented_body(stmts, width) + seq!['\n'] + end) =~= keyword + indented_body(
        stmts,
        width,
    ) + seq!['\n'] + end);
}

/// One simple command between two keywords, on one line: with a `;` behind it,
/// unless it ends with `&`.
pub open spec fn inline_body(open: Seq<char>, s: StmtView, close: Seq<char>) -> Seq<char> {
    open + seq![' '] + simple_text(s) + (if s.background {
        seq![]
    } else {
        seq![';']
    }) + seq![' '] + close
}

/// One simple command between two keywords, on a line of its own.
pub open spec fn expanded_body(open: Seq<char>, s: StmtView, close: Seq<char>) -> Seq<char> {
    open + seq!['\n', ' ', ' '] + simple_text(s) + seq!['\n'] + close
}

/// A block of one simple command stays inline if it fits; otherwise it is
/// expanded.
pub proof fn law_short_block_is_inline_if_it_fits(
    f: FileView,
    width: int,
    s: StmtView,
    block: BlockView,
)
    requires
        f.stmts == seq![s],
        s.cmd == Some(CommandView::Block(block)),
        !s.negated && !s.background && !s.coprocess && s.redirs.len() == 0,
        block.stmts.len() == 1,
        is_simple(block.stmts[0]),
    ensures
        ({
            let x = block.stmts[0];
            let one_line = inline_body("{"@, x, "}"@);
            pretty_view(width, file_view(f)) == if one_line.len() <= width {
                one_line
            } else {
                expanded_body("{"@, x, "}"@)
            }
        }),
{
    lemma_single_file(f, width);
    lemma_bare_stmt(s);
    lemma_short_keyword(width, 0, "{"@, "}"@, block.stmts);
}

/// A `while` or `until` over one simple command stays inline if it fits;
/// otherwise it is expanded.
#[verifier::rlimit(40)]
pub proof fn law_short_while_is_inline_if_it_fits(
    f: FileView,
    width: int,
    s: StmtView,
    w: WhileClauseView,
)
    requires
        f.stmts == seq![s],
        s.cmd == Some(CommandView::While(Box::new(w))),
        !s.negated && !s.background && !s.coprocess && s.redirs.len() == 0,
        is_short(w.cond),
        w.do_.len() == 1,
        is_simple(w.do_[0]),
    ensures
        ({
            let head = (if w.until {
                "until "@
            } else {
                "while "@
            }) + simple_text(w.cond[0]) + "; "@;
            let one_line = head + inline_body("do"@, w.do_[0], "done"@);
            pretty_view(width, file_view(f)) == if one_line.len() <= width {
                one_line
            } else {
                head + expanded_body("do"@, w.do_[0], "done"@)
            }
        }),
{
    let word = if w.until {
        "until "@
    } else {
        "while "@
    };
    let block = keyword_block_view("do"@, "done"@, w.do_);
    let docs = seq![text_view(word), inline_view(w.cond), after_view(w.cond)];
    let items = seq![text_view(word), inline_view(w.cond), after_view(w.cond), block];
    assert(items[0] !is Nil);
    lemma_concat_stmt(f, width, s, items);
    lemma_condition(w.cond);
    let g = Frame { indent: 0, mode: Mode::Break, doc: block };
    assert(frames_of(0, Mode::Break, items) =~= frames_of(0, Mode::Break, docs) + seq![g]);
    lemma_prefixed(width, docs, seq![g]);
    lemma_short_keyword(width, flat_texts(docs).len() as int, "do"@, "done"@, w.do_);
    lemma_flat_three(docs[0], docs[1], docs[2]);
}

/// One simple command between two keywords, from column `col` on.
#[verifier::rlimit(40)]
proof fn lemma_short_keyword(
    width: int,
    col: int,
    open: Seq<char>,
    close: Seq<char>,
    stmts: Seq<StmtView>,
)
    requires
        stmts.len() == 1,
        is_simple(stmts[0]),
    ensures
        layout(
            width,
            col,
            seq![
                Frame {
                    indent: 0,
                    mode: Mode::Break,
                    doc: keyword_block_view(open, close, stmts),
                },
            ],
        ) == if col + inline_body(open, stmts[0], close).len() <= width {
            inline_body(open, stmts[0], close)
        } else {
            expanded_body(open, stmts[0], close)
        },
{
    let x = stmts[0];
    assert(!x.coprocess) by {
        reveal(is_simple);
    }
    let nl = DocView::Line;
    let none = Seq::<Frame>::empty();
    let inner = body_view(stmts, inline_semicolon(), nl);
    let closing = closing_view(stmts, inline_semicolon());
    let nest = nest_view(concat_view(seq![nl, inner]));
    let items = seq![text_view(open), nest, closing, nl, text_view(close)];
    let d = concat_view(items);
    let g = Frame { indent: 0, mode: Mode::Break, doc: keyword_block_view(open, close, stmts) };
    assert(g.doc == DocView::Group(Box::new(d)));
    assert(seq![g] + none =~= seq![g]);
    law_group_lies_flat_exactly_when_its_line_fits(width, col, g, none);
    lemma_short_body(stmts, inner);
    lemma_short_flat(open, close, inner, closing, x);
    assert(rest_of_line(none) =~= seq![]);
    let flat = flat_text(d);
    assert(flat + layout(width, col + flat.len(), none) =~= flat);
    if col + flat.len() > width {
        lemma_layout_concat(width, col, 0, Mode::Break, items, none);
        lemma_short_broken(width, col, open, close, inner, closing, x);
        assert(frames_of(0, Mode::Break, items) + none =~= frames_of(0, Mode::Break, items));
    }
}

proof fn lemma_short_body(stmts: Seq<StmtView>, inner: DocView)
    requires
        stmts.len() == 1,
        is_simple(stmts[0]),
        inner == body_view(stmts, inline_semicolon(), DocView::Line),
    ensures
        solid(inner),
        one_line(inner),
        flat_text(inner) == simple_text(stmts[0]),
{
    let docs = stmts_view(stmts);
    let seps = separators_view(stmts, inline_semicolon(), DocView::Line);
    lemma_simple(stmts[0]);
    assert(weave(docs, seps) =~= seq![stmt_view(stmts[0])]);
    lemma_solid_concat(weave(docs, seps));
    lemma_flat_two(stmt_view(stmts[0]), stmt_view(stmts[0]));
}

/// A short body when it is flat.
proof fn lemma_short_flat(
    open: Seq<char>,
    close: Seq<char>,
    inner: DocView,
    closing: DocView,
    x: StmtView,
)
    requires
        one_line(inner),
        flat_text(inner) == simple_text(x),
        closing == if x.background {
            DocView::Nil
        } else {
            inline_semicolon()
        },
    ensures
        ({
            let nl = DocView::Line;
            let d = concat_view(
                seq![
                    text_view(open),
                    nest_view(concat_view(seq![nl, inner])),
                    closing,
                    nl,
                    text_view(close),
                ],
            );
            &&& one_line(d)
            &&& flat_text(d) == inline_body(open, x, close)
        }),
{
    let nl = DocView::Line;
    reveal_strlit(";");
    reveal_with_fuel(one_line, 2);
    reveal_with_fuel(flat_text, 2);
    let pair = seq![nl, inner];
    lemma_flat_concat(pair);
    lemma_flat_two(nl, inner);
    let nest = nest_view(concat_view(pair));
    let i2 = seq![text_view(open), nest];
    let i3 = i2.push(closing);
    let i4 = i3.push(nl);
    let i5 = i4.push(text_view(close));
    let items = seq![text_view(open), nest, closing, nl, text_view(close)];
    assert(items =~= i5);
    assert(one_line(nest) && one_line(closing));
    lemma_flat_concat(items);
    lemma_flat_two(i2[0], i2[1]);
    lemma_flat_push(i2, closing);
    lemma_flat_push(i3, nl);
    lemma_flat_push(i4, text_view(close));
    assert(flat_texts(items) =~= inline_body(open, x, close));
}

/// A short body when it breaks.
#[verifier::rlimit(40)]
proof fn lemma_short_broken(
    width: int,
    col: int,
    open: Seq<char>,
    close: Seq<char>,
    inner: DocView,
    closing: DocView,
    x: StmtView,
)
    requires
        solid(inner),
        flat_text(inner) == simple_text(x),
        breaks(closing),
    ensures
        ({
            let nl = DocView::Line;
            layout(
                width,
                col,
                frames_of(
                    0,
                    Mode::Break,
                    seq![
                        text_view(open),
                        nest_view(concat_view(seq![nl, inner])),
                        closing,
                        nl,
                        text_view(close),
                    ],
                ),
            ) == expanded_body(open, x, close)
        }),
{
    let nl = DocView::Line;
    let t = simple_text(x);
    let none = Seq::<Frame>::empty();
    let pair = seq![nl, inner];
    let nest = nest_view(concat_view(pair));
    let items = seq![text_view(open), nest, closing, nl, text_view(close)];
    let x1 = frames_of(0, Mode::Break, items);
    let x2 = x1.drop_first();
    let x3 = x2.drop_first();
    let x4 = x3.drop_first();
    let x5 = x4.drop_first();
    let c1 = col + open.len();
    assert(x1[0].doc == DocView::Text(open));
    assert(layout(width, col, x1) == open + layout(width, c1, x2));
    let m = Frame { indent: 2, mode: Mode::Break, doc: concat_view(pair) };
    let n = x2[0];
    assert(n.doc == nest);
    assert(0isize.wrapping_add(2) == 2);
    assert(opened(n, Mode::Flat) =~= seq![m]);
    assert(opened(n, Mode::Break) =~= seq![m]);
    assert(layout(width, c1, x2) == layout(width, c1, seq![m] + x3));
    lemma_layout_concat(width, c1, 2, Mode::Break, pair, x3);
    let y1 = frames_of(2, Mode::Break, pair) + x3;
    let y2 = y1.drop_first();
    assert(y1[0].doc is Line && y1[0].mode == Mode::Break);
    assert(layout(width, c1, y1) == newline(2) + layout(width, 2, y2));
    assert(y2 =~= seq![Frame { indent: 2, mode: Mode::Break, doc: inner }] + x3);
    lemma_solid_layout(width, 2, 2, Mode::Break, inner, x3);
    let c = 2int + t.len();
    assert(layout(width, c, x3) == layout(width, c, x4)) by {
        assert(x3[0].doc == closing);
        if closing !is Nil {
            let nil = Frame { indent: 0, mode: Mode::Break, doc: DocView::Nil };
            assert(opened(x3[0], Mode::Flat) =~= seq![nil]);
            assert(opened(x3[0], Mode::Break) =~= seq![nil]);
            assert(layout(width, c, x3) == layout(width, c, seq![nil] + x4));
            assert((seq![nil] + x4).drop_first() =~= x4);
        }
    }
    assert(x4[0].doc is Line && x4[0].mode == Mode::Break);
    assert(layout(width, c, x4) == newline(0) + layout(width, 0, x5));
    assert(x5[0].doc == DocView::Text(close));
    assert(x5.drop_first() =~= none);
    assert(layout(width, close.len() as int, none) =~= seq![]);
    assert(layout(width, 0, x5) =~= close);
    assert(newline(2) =~= seq!['\n', ' ', ' ']);
    assert(newline(0) =~= seq!['\n']);
    lemma_expanded(open, newline(2), t, newline(0), close);
}

proof fn lemma_expanded(
    open: Seq<char>,
    a: Seq<char>,
    t: Seq<char>,
    b: Seq<char>,
    close: Seq<char>,
)
    ensures
        open + (a + (t + (b + close))) == open + a + t + b + close,
{
    assert(open + (a + (t + (b + close))) =~= open + a + t + b + close);
}

// ---------------------------------------------------------------------------
// Subshells
// ---------------------------------------------------------------------------

/// The texts of simple commands, each but the last with a `;` and a blank behind
/// it, or just a blank where it ends with `&`.
pub open spec fn inline_text(stmts: Seq<StmtView>) -> Seq<char>
    decreases stmts.len(),
{
    if stmts.len() == 0 {
        seq![]
    } else if stmts.len() == 1 {
        simple_text(stmts[0])
    } else {
        inline_text(stmts.drop_last()) + (if stmts[stmts.len() - 2].background {
            seq![' ']
        } else {
            seq![';', ' ']
        }) + simple_text(stmts.last())
    }
}

proof fn lemma_inline_separator(s: StmtView)
    requires
        is_simple(s),
    ensures
        ({
            let sep = concat_view(seq![semicolon_view(s, text_view(";"@)), text_view(" "@)]);
            &&& solid(sep)
            &&& flat_text(sep) == if s.background {
                seq![' ']
            } else {
                seq![';', ' ']
            }
        }),
{
    assert(!s.coprocess) by {
        reveal(is_simple);
    }
    reveal_strlit(";");
    reveal_strlit(" ");
    let docs = seq![semicolon_view(s, text_view(";"@)), text_view(" "@)];
    lemma_solid_concat(docs);
    lemma_flat_two(docs[0], docs[1]);
    assert(flat_texts(docs) =~= if s.background {
        seq![' ']
    } else {
        seq![';', ' ']
    });
}

/// Simple commands on one line.
proof fn lemma_inline_docs(stmts: Seq<StmtView>, docs: Seq<DocView>, all: Seq<StmtView>)
    requires
        docs.len() == stmts.len() <= all.len(),
        forall|i: int|
            0 <= i < stmts.len() ==> is_simple(#[trigger] stmts[i]) && docs[i] == stmt_view(stmts[i])
                && all[i] == stmts[i],
    ensures
        ({
            let x = weave(docs, separators_view(all, text_view(";"@), text_view(" "@)));
            &&& forall|i: int| 0 <= i < x.len() ==> solid(#[trigger] x[i])
            &&& flat_texts(x) == inline_text(stmts)
        }),
    decreases stmts.len(),
{
    let seps = separators_view(all, text_view(";"@), text_view(" "@));
    let n = stmts.len() as int;
    if n == 0 {
    } else if n == 1 {
        assert(is_simple(stmts[0]));
        lemma_simple(stmts[0]);
        assert(weave(docs, seps) =~= seq![docs[0]]);
        lemma_flat_two(docs[0], docs[0]);
    } else {
        let front = stmts.drop_last();
        assert forall|i: int| 0 <= i < front.len() implies is_simple(#[trigger] front[i])
            && docs.drop_last()[i] == stmt_view(front[i]) && all[i] == front[i] by {
            assert(front[i] == stmts[i]);
        }
        lemma_inline_docs(front, docs.drop_last(), all);
        assert(is_simple(stmts[n - 2]) && is_simple(stmts[n - 1]));
        lemma_inline_separator(stmts[n - 2]);
        lemma_simple(stmts[n - 1]);
        let x = weave(docs.drop_last(), seps);
        let sep = seps[n - 2];
        assert(docs.last() == stmt_view(stmts[n - 1]));
        lemma_flat_push(x, sep);
        lemma_flat_push(x.push(sep), docs.last());
    }
}

/// A subshell of simple commands stays on one line, however long it is.
#[verifier::rlimit(40)]
pub proof fn law_subshell_stays_on_one_line(
    f: FileView,
    width: int,
    s: StmtView,
    sub: SubshellView,
)
    requires
        f.stmts == seq![s],
        s.cmd == Some(CommandView::Subshell(sub)),
        !s.negated && !s.background && !s.coprocess && s.redirs.len() == 0,
        forall|i: int| 0 <= i < sub.stmts.len() ==> is_simple(#[trigger] sub.stmts[i]),
        sub.stmts.len() > 0 ==> !starts_with_paren(sub.stmts[0]),
    ensures
        pretty_view(width, file_view(f)) == seq!['('] + inline_text(sub.stmts) + seq![')'],
{
    let stmts = sub.stmts;
    let docs = stmts_view(stmts);
    lemma_inline_docs(stmts, docs, stmts);
    lemma_solid_concat(weave(docs, separators_view(stmts, text_view(";"@), text_view(" "@))));
    let items = seq![paren_view("("@, stmts), inline_view(stmts), text_view(")"@)];
    assert(items[0] !is Nil);
    lemma_concat_stmt(f, width, s, items);
    let none = Seq::<Frame>::empty();
    lemma_prefixed(width, items, none);
    assert(frames_of(0, Mode::Break, items) + none =~= frames_of(0, Mode::Break, items));
    lemma_flat_three(items[0], items[1], items[2]);
    reveal_strlit("(");
    reveal_strlit(")");
    assert("("@ =~= seq!['(']);
    assert(")"@ =~= seq![')']);
    let t = seq!['('] + inline_text(stmts) + seq![')'];
    assert(t + layout(width, t.len() as int, none) =~= t);
}

} // verus!
