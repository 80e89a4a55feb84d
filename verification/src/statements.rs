//! How statements are printed: each on its own line, chains wrapped at their
//! operators, and bodies indented.

use vstd::prelude::*;
use vstd::string::*;
use crate::ast::{BinCmdOperator, BinaryCmdView, CommandView, FileView, RedirOperator, RedirectView,
    StmtView, WordView};
use crate::doc::{DocView, Frame, Mode, concat_view, flat_text, flat_texts, frames_of, interleave,
    layout, newline, one_line, opened, pretty_view, spaces};
use crate::lines::{law_group_lies_flat_exactly_when_its_line_fits,
    law_hard_line_parts_what_it_stands_between, lemma_flat_concat, lemma_layout_concat,
    rest_of_line};
use crate::printer::{assigns_view, binary_view, chain_first_view, chain_rest_view, command_view,
    file_view, format_view, nest_view, part_if, redir_view, redirs_view, segment_view, spaced,
    stmt_view, stmts_view, text_view, word_view, words_view};

verus! {

// ---------------------------------------------------------------------------
// Each statement on its own line
// ---------------------------------------------------------------------------

proof fn lemma_interleave_add(sep: DocView, a: Seq<DocView>, b: Seq<DocView>)
    requires
        a.len() > 0,
        b.len() > 0,
    ensures
        interleave(sep, a + b) == interleave(sep, a) + seq![sep] + interleave(sep, b),
    decreases b.len(),
{
    let all = a + b;
    assert(all.last() == b.last());
    if b.len() == 1 {
        assert(all.drop_last() =~= a);
        assert(interleave(sep, all) =~= interleave(sep, a) + seq![sep] + interleave(sep, b));
    } else {
        assert(all.drop_last() =~= a + b.drop_last());
        lemma_interleave_add(sep, a, b.drop_last());
        assert(interleave(sep, all) =~= interleave(sep, a) + seq![sep] + interleave(sep, b));
    }
}

/// The text of a sequence of documents, by itself.
proof fn lemma_pretty_concat(width: int, docs: Seq<DocView>)
    ensures
        pretty_view(width, concat_view(docs)) == layout(
            width,
            0,
            frames_of(0, Mode::Break, docs),
        ),
{
    let none = Seq::<Frame>::empty();
    let f = Frame { indent: 0, mode: Mode::Break, doc: concat_view(docs) };
    lemma_layout_concat(width, 0, 0, Mode::Break, docs, none);
    assert(seq![f] + none =~= seq![f]);
    assert(frames_of(0, Mode::Break, docs) + none =~= frames_of(0, Mode::Break, docs));
}

/// Statements are printed one by one, each on lines of its own: the text of
/// statements one after the other is the text of the first ones, a newline, and
/// the text of the others. What follows a statement never changes how it is laid
/// out.
pub proof fn law_statements_are_printed_one_by_one(
    first: FileView,
    second: FileView,
    both: FileView,
    width: int,
)
    requires
        first.stmts.len() > 0,
        second.stmts.len() > 0,
        both.stmts == first.stmts + second.stmts,
    ensures
        pretty_view(width, file_view(both)) == pretty_view(width, file_view(first)) + seq!['\n']
            + pretty_view(width, file_view(second)),
        ({
            let t = pretty_view(width, file_view(first));
            t.len() > 0 && t.last() != '\n'
        }) ==> format_view(both, width) == format_view(first, width) + format_view(second, width),
{
    let a = stmts_view(first.stmts);
    let b = stmts_view(second.stmts);
    let c = stmts_view(both.stmts);
    let hl = DocView::HardLine;
    assert(c =~= a + b);
    lemma_interleave_add(hl, a, b);
    lemma_pretty_concat(width, interleave(hl, a));
    lemma_pretty_concat(width, interleave(hl, b));
    lemma_pretty_concat(width, interleave(hl, c));
    let fa = frames_of(0, Mode::Break, interleave(hl, a));
    let fb = frames_of(0, Mode::Break, interleave(hl, b));
    let f = Frame { indent: 0, mode: Mode::Break, doc: hl };
    assert(frames_of(0, Mode::Break, interleave(hl, c)) =~= fa + seq![f] + fb);
    law_hard_line_parts_what_it_stands_between(width, 0, fa, f, fb);
    let ta = pretty_view(width, file_view(first));
    let tb = pretty_view(width, file_view(second));
    let tc = pretty_view(width, file_view(both));
    assert(spaces(0) =~= seq![]);
    assert(tc =~= ta + seq!['\n'] + tb);
    if ta.len() > 0 && ta.last() != '\n' {
        assert(tc.last() == if tb.len() > 0 {
            tb.last()
        } else {
            '\n'
        });
        assert(format_view(both, width) =~= format_view(first, width) + format_view(second, width));
    }
}

// ---------------------------------------------------------------------------
// Simple commands
// ---------------------------------------------------------------------------

/// Whether `d` is text all through, without breaks or groups.
pub open spec fn solid(d: DocView) -> bool
    decreases d,
{
    match d {
        DocView::Nil | DocView::Text(_) => true,
        DocView::Concat(items) => forall|i: int|
            0 <= i < items.len() ==> solid(#[trigger] items[i]),
        _ => false,
    }
}

proof fn lemma_solid_one_line(d: DocView)
    requires
        solid(d),
    ensures
        one_line(d),
    decreases d,
{
    if let DocView::Concat(items) = d {
        assert forall|i: int| 0 <= i < items.len() implies one_line(#[trigger] items[i]) by {
            lemma_solid_one_line(items[i]);
        }
    }
}

/// What is text all through is laid out as that text.
pub proof fn lemma_solid_layout(
    width: int,
    col: int,
    indent: isize,
    mode: Mode,
    d: DocView,
    tail: Seq<Frame>,
)
    requires
        solid(d),
    ensures
        layout(width, col, seq![Frame { indent, mode, doc: d }] + tail) == flat_text(d) + layout(
            width,
            col + flat_text(d).len(),
            tail,
        ),
    decreases d, 0int,
{
    let f = Frame { indent, mode, doc: d };
    let all = seq![f] + tail;
    assert(all.drop_first() =~= tail);
    match d {
        DocView::Concat(items) => {
            lemma_solids_layout(width, col, indent, mode, items, tail);
            assert(opened(f, Mode::Flat) == frames_of(indent, mode, items));
            assert(opened(f, Mode::Break) == frames_of(indent, mode, items));
        },
        _ => {
            assert(flat_text(d) + layout(width, col + flat_text(d).len(), tail) =~= layout(
                width,
                col,
                all,
            ));
        },
    }
}

pub proof fn lemma_solids_layout(
    width: int,
    col: int,
    indent: isize,
    mode: Mode,
    docs: Seq<DocView>,
    tail: Seq<Frame>,
)
    requires
        forall|i: int| 0 <= i < docs.len() ==> solid(#[trigger] docs[i]),
    ensures
        layout(width, col, frames_of(indent, mode, docs) + tail) == flat_texts(docs) + layout(
            width,
            col + flat_texts(docs).len(),
            tail,
        ),
    decreases docs, 0int,
{
    let fs = frames_of(indent, mode, docs);
    if docs.len() == 0 {
        assert(fs + tail =~= tail);
        assert(flat_texts(docs) + layout(width, col, tail) =~= layout(width, col, tail));
    } else {
        let rest = docs.drop_first();
        let f = Frame { indent, mode, doc: docs[0] };
        let behind = frames_of(indent, mode, rest) + tail;
        assert(fs + tail =~= seq![f] + behind);
        assert forall|i: int| 0 <= i < rest.len() implies solid(#[trigger] rest[i]) by {
            assert(rest[i] == docs[i + 1]);
        }
        lemma_solid_layout(width, col, indent, mode, docs[0], behind);
        let n = flat_text(docs[0]).len();
        lemma_solids_layout(width, col + n, indent, mode, rest, tail);
        let end = layout(width, col + flat_texts(docs).len(), tail);
        assert(flat_text(docs[0]) + (flat_texts(rest) + end) =~= flat_texts(docs) + end);
    }
}

/// A sequence of solid documents is solid.
pub proof fn lemma_solid_concat(docs: Seq<DocView>)
    requires
        forall|i: int| 0 <= i < docs.len() ==> solid(#[trigger] docs[i]),
    ensures
        solid(concat_view(docs)),
        one_line(concat_view(docs)),
        flat_text(concat_view(docs)) == flat_texts(docs),
{
    let keep = |d: DocView| d !is Nil;
    let kept = docs.filter(keep);
    assert forall|i: int| 0 <= i < kept.len() implies solid(#[trigger] kept[i]) by {
        assert(kept.contains(kept[i]));
        docs.lemma_filter_contains_rev(keep, kept[i]);
        let j = choose|j: int| 0 <= j < docs.len() && docs[j] == kept[i];
        assert(solid(docs[j]));
    }
    assert forall|i: int| 0 <= i < docs.len() implies one_line(#[trigger] docs[i]) by {
        lemma_solid_one_line(docs[i]);
    }
    lemma_flat_concat(docs);
}

/// Texts one after the other, with `sep` between each pair.
pub open spec fn joined(texts: Seq<Seq<char>>, sep: Seq<char>) -> Seq<char>
    decreases texts.len(),
{
    if texts.len() == 0 {
        seq![]
    } else if texts.len() == 1 {
        texts[0]
    } else {
        joined(texts.drop_last(), sep) + sep + texts.last()
    }
}

/// The text of the word `w`, if it is kept as it was written.
pub open spec fn raw_part(w: WordView) -> Seq<char> {
    w.parts[0]->Lit_0.value
}

/// Whether `w` is kept as it was written.
pub open spec fn is_raw(w: WordView) -> bool {
    w.parts.len() == 1 && w.parts[0] is Lit
}

/// How an operator between commands is written.
pub open spec fn operator_text(op: BinCmdOperator) -> Seq<char> {
    match op {
        BinCmdOperator::AndStmt => seq!['&', '&'],
        BinCmdOperator::OrStmt => seq!['|', '|'],
        BinCmdOperator::Pipe => seq!['|'],
        BinCmdOperator::PipeAll => seq!['|', '&'],
    }
}

/// How the operator of a redirection is written.
pub open spec fn redirection_text(op: RedirOperator) -> Seq<char> {
    match op {
        RedirOperator::RdrOut => seq!['>'],
        RedirOperator::AppOut => seq!['>', '>'],
        RedirOperator::RdrIn => seq!['<'],
        RedirOperator::RdrInOut => seq!['<', '>'],
        RedirOperator::DplIn => seq!['<', '&'],
        RedirOperator::DplOut => seq!['>', '&'],
        RedirOperator::ClbOut => seq!['>', '|'],
        RedirOperator::Hdoc => seq!['<', '<'],
        RedirOperator::DashHdoc => seq!['<', '<', '-'],
        RedirOperator::WordHdoc => seq!['<', '<', '<'],
        RedirOperator::RdrAll => seq!['&', '>'],
        RedirOperator::AppAll => seq!['&', '>', '>'],
    }
}

/// A redirection as it is written: the file descriptor, the operator and the
/// target, without blanks.
pub open spec fn redir_text(r: RedirectView) -> Seq<char> {
    (match r.n {
        Some(l) => l.value,
        None => seq![],
    }) + redirection_text(r.op) + match r.word {
        Some(w) => raw_part(w),
        None => seq![],
    }
}

/// Redirections as they are written, each behind a blank.
pub open spec fn redirs_text(redirs: Seq<RedirectView>) -> Seq<char>
    decreases redirs.len(),
{
    if redirs.len() == 0 {
        seq![]
    } else {
        redirs_text(redirs.drop_last()) + seq![' '] + redir_text(redirs.last())
    }
}

/// Whether `s` is a simple command of raw words, with redirections to raw words.
#[verifier::opaque]
pub open spec fn is_simple(s: StmtView) -> bool {
    &&& s.cmd matches Some(CommandView::Call(c)) && {
        &&& c.assigns.len() == 0
        &&& forall|i: int| 0 <= i < c.args.len() ==> is_raw(#[trigger] c.args[i])
    }
    &&& !s.coprocess
    &&& forall|i: int|
        0 <= i < s.redirs.len() ==> ((#[trigger] s.redirs[i]).word matches Some(w) ==> is_raw(w))
}

/// The words of a simple command.
pub open spec fn words_of_simple(s: StmtView) -> Seq<Seq<char>> {
    let args = s.cmd->Some_0->Call_0.args;
    Seq::new(args.len(), |i: int| raw_part(args[i]))
}

/// A simple command on one line: a blank between each two words, then its
/// redirections.
pub open spec fn simple_text(s: StmtView) -> Seq<char> {
    (if s.negated {
        seq!['!', ' ']
    } else {
        seq![]
    }) + joined(words_of_simple(s), seq![' ']) + redirs_text(s.redirs) + if s.background {
        seq![' ', '&']
    } else {
        seq![]
    }
}

pub proof fn lemma_flat_two(a: DocView, b: DocView)
    ensures
        flat_texts(seq![a]) == flat_text(a),
        flat_texts(seq![a, b]) == flat_text(a) + flat_text(b),
{
    let none = Seq::<DocView>::empty();
    assert(flat_texts(none) =~= seq![]);
    assert(seq![a].drop_first() =~= none);
    assert(seq![b].drop_first() =~= none);
    assert(seq![a, b].drop_first() =~= seq![b]);
    assert(flat_texts(seq![a]) =~= flat_text(a));
    assert(flat_texts(seq![b]) =~= flat_text(b));
}

pub proof fn lemma_flat_push(docs: Seq<DocView>, d: DocView)
    ensures
        flat_texts(docs.push(d)) == flat_texts(docs) + flat_text(d),
    decreases docs.len(),
{
    let all = docs.push(d);
    if docs.len() == 0 {
        assert(all =~= seq![d]);
        lemma_flat_two(d, d);
        assert(flat_texts(docs) + flat_text(d) =~= flat_text(d));
    } else {
        assert(all.drop_first() =~= docs.drop_first().push(d));
        lemma_flat_push(docs.drop_first(), d);
        assert(flat_texts(all) =~= flat_texts(docs) + flat_text(d));
    }
}

proof fn lemma_flat_add(a: Seq<DocView>, b: Seq<DocView>)
    ensures
        flat_texts(a + b) == flat_texts(a) + flat_texts(b),
    decreases b.len(),
{
    if b.len() == 0 {
        assert(a + b =~= a);
        assert(flat_texts(a) + flat_texts(b) =~= flat_texts(a));
    } else {
        let front = b.drop_last();
        lemma_flat_add(a, front);
        lemma_flat_push(a + front, b.last());
        lemma_flat_push(front, b.last());
        assert(a + b =~= (a + front).push(b.last()));
        assert(b =~= front.push(b.last()));
        assert(flat_texts(a + b) =~= flat_texts(a) + flat_texts(b));
    }
}

pub proof fn lemma_raw_word(w: WordView)
    requires
        is_raw(w),
    ensures
        word_view(w) == DocView::Text(raw_part(w)),
{
    let docs = crate::printer::parts_view(w.parts);
    let keep = |d: DocView| d !is Nil;
    let d = DocView::Text(raw_part(w));
    assert(docs =~= Seq::<DocView>::empty().push(d));
    Seq::<DocView>::empty().lemma_filter_push(d, keep);
    assert(Seq::<DocView>::empty().filter(keep) =~= seq![]);
    assert(docs.filter(keep) =~= seq![d]);
}

pub proof fn lemma_joined_words(texts: Seq<Seq<char>>, docs: Seq<DocView>)
    requires
        docs.len() == texts.len(),
        forall|i: int| 0 <= i < docs.len() ==> #[trigger] docs[i] == DocView::Text(texts[i]),
    ensures
        forall|i: int|
            0 <= i < interleave(DocView::Text(" "@), docs).len() ==> solid(
                #[trigger] interleave(DocView::Text(" "@), docs)[i],
            ),
        flat_texts(interleave(DocView::Text(" "@), docs)) == joined(texts, seq![' ']),
    decreases docs.len(),
{
    let sep = DocView::Text(" "@);
    reveal_strlit(" ");
    assert(" "@ =~= seq![' ']);
    if docs.len() == 0 {
    } else if docs.len() == 1 {
        assert(interleave(sep, docs) =~= seq![docs[0]]);
        lemma_flat_two(docs[0], docs[0]);
    } else {
        let front = docs.drop_last();
        lemma_joined_words(texts.drop_last(), front);
        let x = interleave(sep, front);
        lemma_flat_push(x, sep);
        lemma_flat_push(x.push(sep), docs.last());
        assert(docs.last() == docs[docs.len() - 1]);
    }
}

proof fn lemma_redir_text(r: RedirectView)
    requires
        r.word matches Some(w) ==> is_raw(w),
    ensures
        solid(redir_view(r)),
        flat_text(redir_view(r)) == redir_text(r),
{
    let a = match r.n {
        Some(n) => seq![text_view(n.value)],
        None => seq![],
    };
    let b = seq![text_view(r.op.spelling())];
    let c = match r.word {
        Some(w) => seq![word_view(w)],
        None => seq![],
    };
    if let Some(w) = r.word {
        lemma_raw_word(w);
        lemma_flat_two(word_view(w), word_view(w));
    } else {
        assert(flat_texts(c) =~= seq![]);
    }
    if let Some(n) = r.n {
        lemma_flat_two(a[0], a[0]);
    } else {
        assert(flat_texts(a) =~= seq![]);
    }
    lemma_flat_two(b[0], b[0]);
    lemma_flat_add(a, b);
    lemma_flat_add(a + b, c);
    lemma_solid_concat(a + b + c);
    reveal_strlit(">");
    reveal_strlit(">>");
    reveal_strlit("<");
    reveal_strlit("<>");
    reveal_strlit("<&");
    reveal_strlit(">&");
    reveal_strlit(">|");
    reveal_strlit("<<");
    reveal_strlit("<<-");
    reveal_strlit("<<<");
    reveal_strlit("&>");
    reveal_strlit("&>>");
    assert(r.op.spelling() =~= redirection_text(r.op));
    assert(flat_texts(a + b + c) =~= redir_text(r));
}

proof fn lemma_redirs_text(redirs: Seq<RedirectView>, docs: Seq<DocView>)
    requires
        forall|i: int|
            0 <= i < redirs.len() ==> ((#[trigger] redirs[i]).word matches Some(w) ==> is_raw(w)),
        docs.len() == redirs.len(),
        forall|i: int| 0 <= i < redirs.len() ==> #[trigger] docs[i] == redir_view(redirs[i]),
    ensures
        forall|i: int| 0 <= i < spaced(docs).len() ==> solid(#[trigger] spaced(docs)[i]),
        flat_texts(spaced(docs)) == redirs_text(redirs),
    decreases redirs.len(),
{
    if redirs.len() > 0 {
        lemma_redirs_text(redirs.drop_last(), docs.drop_last());
        let last = redirs[redirs.len() - 1];
        lemma_redir_text(last);
        assert(docs.last() == redir_view(last));
        let x = spaced(docs.drop_last());
        lemma_flat_push(x, text_view(" "@));
        lemma_flat_push(x.push(text_view(" "@)), docs.last());
        reveal_strlit(" ");
        assert(" "@ =~= seq![' ']);
    }
}

/// A simple command is text all through.
#[verifier::rlimit(40)]
pub proof fn lemma_simple(s: StmtView)
    requires
        is_simple(s),
    ensures
        solid(stmt_view(s)),
        one_line(stmt_view(s)),
        flat_text(stmt_view(s)) == simple_text(s),
{
    reveal(is_simple);
    let c = s.cmd->Some_0->Call_0;
    let texts = words_of_simple(s);
    let words = words_view(c.args);
    assert(assigns_view(c.assigns) + words =~= words);
    assert forall|i: int| 0 <= i < words.len() implies #[trigger] words[i] == DocView::Text(
        texts[i],
    ) by {
        assert(is_raw(c.args[i]));
        lemma_raw_word(c.args[i]);
    }
    lemma_joined_words(texts, words);
    lemma_solid_concat(interleave(text_view(" "@), words));
    let call = command_view(s.cmd->Some_0);
    assert(call == concat_view(interleave(text_view(" "@), words)));
    lemma_redirs_text(s.redirs, redirs_view(s.redirs));
    let a = part_if(s.negated, text_view("! "@));
    let b = seq![call];
    let r = spaced(redirs_view(s.redirs));
    let e = part_if(s.background, text_view(" &"@));
    let k = part_if(s.coprocess, text_view(" |&"@));
    reveal_strlit("! ");
    reveal_strlit(" &");
    assert("! "@ =~= seq!['!', ' ']);
    assert(" &"@ =~= seq![' ', '&']);
    lemma_flat_two(text_view("! "@), call);
    lemma_flat_two(call, call);
    lemma_flat_two(text_view(" &"@), call);
    assert(flat_texts(Seq::<DocView>::empty()) =~= seq![]);
    lemma_flat_add(a, b);
    lemma_flat_add(a + b, r);
    lemma_flat_add(a + b + r, e);
    assert(a + b + r + e + k =~= a + b + r + e);
    lemma_solid_concat(a + b + r + e + k);
    assert(flat_texts(a + b + r + e) =~= simple_text(s));
}

/// A simple command is printed on one line, however long it is: its words with a
/// blank between each two, then its redirections.
pub proof fn law_simple_command_stays_on_one_line(f: FileView, width: int)
    requires
        f.stmts.len() == 1,
        is_simple(f.stmts[0]),
    ensures
        pretty_view(width, file_view(f)) == simple_text(f.stmts[0]),
{
    let s = f.stmts[0];
    lemma_simple(s);
    lemma_single_file(f, width);
    let none = Seq::<Frame>::empty();
    let g = Frame { indent: 0, mode: Mode::Break, doc: stmt_view(s) };
    assert(seq![g] + none =~= seq![g]);
    lemma_solid_layout(width, 0, 0, Mode::Break, stmt_view(s), none);
    assert(simple_text(s) + layout(width, simple_text(s).len() as int, none) =~= simple_text(s));
}

/// A file of one statement.
pub proof fn lemma_single_file(f: FileView, width: int)
    requires
        f.stmts.len() == 1,
    ensures
        pretty_view(width, file_view(f)) == layout(
            width,
            0,
            seq![Frame { indent: 0, mode: Mode::Break, doc: stmt_view(f.stmts[0]) }],
        ),
{
    let docs = stmts_view(f.stmts);
    assert(interleave(DocView::HardLine, docs) =~= seq![docs[0]]);
    lemma_pretty_concat(width, interleave(DocView::HardLine, docs));
    assert(frames_of(0, Mode::Break, interleave(DocView::HardLine, docs)) =~= seq![
        Frame { indent: 0, mode: Mode::Break, doc: stmt_view(f.stmts[0]) },
    ]);
}

// ---------------------------------------------------------------------------
// Chains
// ---------------------------------------------------------------------------

/// The chain of `first` and the commands of `links`, each behind its operator.
pub open spec fn chained(
    first: StmtView,
    links: Seq<(BinCmdOperator, StmtView)>,
    background: bool,
) -> StmtView
    decreases links.len(),
{
    if links.len() == 0 {
        first
    } else {
        StmtView {
            comments: seq![],
            cmd: Some(
                CommandView::Binary(
                    Box::new(
                        BinaryCmdView {
                            op_pos: first.position,
                            op: links.last().0,
                            x: chained(first, links.drop_last(), false),
                            y: links.last().1,
                        },
                    ),
                ),
            ),
            position: first.position,
            semicolon: first.semicolon,
            negated: false,
            background,
            coprocess: false,
            redirs: seq![],
        }
    }
}

/// The text of a chain of simple commands, with `gap` behind each operator.
pub open spec fn chain_text(
    first: StmtView,
    links: Seq<(BinCmdOperator, StmtView)>,
    gap: Seq<char>,
) -> Seq<char>
    decreases links.len(),
{
    if links.len() == 0 {
        simple_text(first)
    } else {
        chain_text(first, links.drop_last(), gap) + seq![' '] + operator_text(links.last().0) + gap
            + simple_text(links.last().1)
    }
}

/// The documents of the links of a chain.
spec fn segments(links: Seq<(BinCmdOperator, StmtView)>) -> Seq<DocView> {
    Seq::new(links.len(), |i: int| segment_view(links[i].0, stmt_view(links[i].1)))
}

proof fn lemma_chain_views(first: StmtView, links: Seq<(BinCmdOperator, StmtView)>)
    requires
        is_simple(first),
    ensures
        chain_first_view(chained(first, links, false)) == stmt_view(first),
        chain_rest_view(chained(first, links, false)) == segments(links),
    decreases links.len(),
{
    if links.len() == 0 {
        reveal(is_simple);
        assert(segments(links) =~= seq![]);
    } else {
        lemma_chain_views(first, links.drop_last());
        assert(segments(links) =~= segments(links.drop_last()).push(
            segment_view(links.last().0, stmt_view(links.last().1)),
        ));
    }
}

proof fn lemma_operator(op: BinCmdOperator)
    ensures
        " "@ + op.spelling() == seq![' '] + operator_text(op),
{
    reveal_strlit(" ");
    reveal_strlit("&&");
    reveal_strlit("||");
    reveal_strlit("|");
    reveal_strlit("|&");
    assert(" "@ + op.spelling() =~= seq![' '] + operator_text(op));
}

/// A link of a chain when it is flat.
proof fn lemma_segment_flat(op: BinCmdOperator, y: StmtView)
    requires
        is_simple(y),
    ensures
        one_line(segment_view(op, stmt_view(y))),
        flat_text(segment_view(op, stmt_view(y))) == seq![' '] + operator_text(op) + seq![' ']
            + simple_text(y),
{
    lemma_simple(y);
    lemma_operator(op);
    let docs = seq![text_view(" "@ + op.spelling()), DocView::Line, stmt_view(y)];
    lemma_flat_concat(docs);
    assert(docs =~= seq![docs[0], docs[1]].push(docs[2]));
    lemma_flat_two(docs[0], docs[1]);
    lemma_flat_push(seq![docs[0], docs[1]], docs[2]);
}

/// The links of a chain when they are flat.
#[verifier::rlimit(40)]
proof fn lemma_segments_flat(first: StmtView, links: Seq<(BinCmdOperator, StmtView)>)
    requires
        forall|i: int| 0 <= i < links.len() ==> is_simple((#[trigger] links[i]).1),
    ensures
        forall|i: int| 0 <= i < links.len() ==> one_line(#[trigger] segments(links)[i]),
        simple_text(first) + flat_texts(segments(links)) == chain_text(first, links, seq![' ']),
    decreases links.len(),
{
    let docs = segments(links);
    assert forall|i: int| 0 <= i < links.len() implies one_line(#[trigger] docs[i]) by {
        lemma_segment_flat(links[i].0, links[i].1);
    }
    if links.len() == 0 {
        assert(simple_text(first) + flat_texts(docs) =~= simple_text(first));
    } else {
        let front = links.drop_last();
        lemma_segments_flat(first, front);
        assert(is_simple(links[links.len() - 1].1));
        lemma_segment_flat(links.last().0, links.last().1);
        assert(docs =~= segments(front).push(docs.last()));
        lemma_flat_push(segments(front), docs.last());
        lemma_regroup(
            simple_text(first),
            flat_texts(segments(front)),
            chain_text(first, front, seq![' ']),
            operator_text(links.last().0),
            simple_text(links.last().1),
        );
    }
}

proof fn lemma_regroup(a: Seq<char>, b: Seq<char>, c: Seq<char>, op: Seq<char>, t: Seq<char>)
    requires
        a + b == c,
    ensures
        a + (b + (seq![' '] + op + seq![' '] + t)) == c + seq![' '] + op + seq![' '] + t,
{
    assert(a + (b + (seq![' '] + op + seq![' '] + t)) =~= (a + b) + seq![' '] + op + seq![' '] + t);
}

/// The links of a chain when it breaks.
#[verifier::rlimit(40)]
proof fn lemma_segments_broken(
    width: int,
    col: int,
    first: StmtView,
    links: Seq<(BinCmdOperator, StmtView)>,
    tail: Seq<Frame>,
) -> (c: int)
    requires
        forall|i: int| 0 <= i < links.len() ==> is_simple((#[trigger] links[i]).1),
    ensures
        simple_text(first) + layout(width, col, frames_of(2, Mode::Break, segments(links)) + tail)
            == chain_text(first, links, seq!['\n', ' ', ' ']) + layout(width, c, tail),
    decreases links.len(),
{
    let docs = segments(links);
    if links.len() == 0 {
        assert(frames_of(2, Mode::Break, docs) + tail =~= tail);
        col
    } else {
        let front = links.drop_last();
        let (op, y) = links.last();
        assert(is_simple(links[links.len() - 1].1));
        let f = Frame { indent: 2, mode: Mode::Break, doc: docs.last() };
        assert(frames_of(2, Mode::Break, docs) + tail =~= frames_of(
            2,
            Mode::Break,
            segments(front),
        ) + (seq![f] + tail));
        let c = lemma_segments_broken(width, col, first, front, seq![f] + tail);
        let items = seq![text_view(" "@ + op.spelling()), DocView::Line, stmt_view(y)];
        lemma_layout_concat(width, c, 2, Mode::Break, items, tail);
        lemma_operator(op);
        let t = seq![' '] + operator_text(op);
        let x1 = frames_of(2, Mode::Break, items) + tail;
        let x2 = x1.drop_first();
        let x3 = x2.drop_first();
        let g = Frame { indent: 2, mode: Mode::Break, doc: stmt_view(y) };
        assert(x1[0].doc == DocView::Text(t));
        assert(x2[0].doc is Line && x2[0].mode == Mode::Break);
        assert(x3 =~= seq![g] + tail);
        lemma_simple(y);
        lemma_solid_layout(width, 2, 2, Mode::Break, stmt_view(y), tail);
        let e = 2int + simple_text(y).len();
        assert(layout(width, c, x1) == t + layout(width, c + t.len(), x2));
        assert(layout(width, c + t.len(), x2) == newline(2) + layout(width, 2, x3));
        assert(newline(2) =~= seq!['\n', ' ', ' ']);
        lemma_regroup_broken(
            chain_text(first, front, seq!['\n', ' ', ' ']),
            operator_text(op),
            newline(2),
            simple_text(y),
            layout(width, e, tail),
        );
        e
    }
}

proof fn lemma_regroup_broken(
    c: Seq<char>,
    op: Seq<char>,
    gap: Seq<char>,
    t: Seq<char>,
    end: Seq<char>,
)
    ensures
        c + (seq![' '] + op + (gap + (t + end))) == c + seq![' '] + op + gap + t + end,
{
    assert(c + (seq![' '] + op + (gap + (t + end))) =~= c + seq![' '] + op + gap + t + end);
}

/// The document of a chain.
proof fn lemma_chain_doc(
    first: StmtView,
    links: Seq<(BinCmdOperator, StmtView)>,
    background: bool,
)
    requires
        links.len() > 0,
        is_simple(first),
    ensures
        stmt_view(chained(first, links, background)) == concat_view(
            seq![
                DocView::Group(
                    Box::new(
                        concat_view(
                            seq![stmt_view(first), nest_view(concat_view(segments(links)))],
                        ),
                    ),
                ),
            ] + part_if(background, text_view(" &"@)),
        ),
{
    let s = chained(first, links, background);
    let b = *s.cmd->Some_0->Binary_0;
    lemma_chain_views(first, links.drop_last());
    assert(segments(links) =~= segments(links.drop_last()).push(
        segment_view(links.last().0, stmt_view(links.last().1)),
    ));
    let group = command_view(s.cmd->Some_0);
    assert(group == binary_view(b));
    let none = Seq::<DocView>::empty();
    assert(redirs_view(s.redirs) =~= none);
    assert(spaced(none) =~= none);
    let e = part_if(background, text_view(" &"@));
    assert(part_if(false, text_view("! "@)) + seq![group] + spaced(redirs_view(s.redirs)) + e
        + part_if(false, text_view(" |&"@)) =~= seq![group] + e);
}

/// A chain of simple commands stays on one line if it fits there, and otherwise
/// breaks behind every operator, each command after the first on a line of its
/// own that is indented by two.
#[verifier::rlimit(40)]
pub proof fn law_chain_wraps_at_its_operators(
    f: FileView,
    width: int,
    first: StmtView,
    links: Seq<(BinCmdOperator, StmtView)>,
    background: bool,
)
    requires
        f.stmts == seq![chained(first, links, background)],
        links.len() > 0,
        is_simple(first),
        forall|i: int| 0 <= i < links.len() ==> is_simple((#[trigger] links[i]).1),
    ensures
        ({
            let end = if background {
                seq![' ', '&']
            } else {
                seq![]
            };
            let one_line = chain_text(first, links, seq![' ']) + end;
            pretty_view(width, file_view(f)) == if one_line.len() <= width {
                one_line
            } else {
                chain_text(first, links, seq!['\n', ' ', ' ']) + end
            }
        }),
{
    let end = if background {
        seq![' ', '&']
    } else {
        seq![]
    };
    lemma_single_file(f, width);
    lemma_chain_doc(first, links, background);
    lemma_chain_group(first, links);
    let nest = nest_view(concat_view(segments(links)));
    let d = concat_view(seq![stmt_view(first), nest]);
    let group = DocView::Group(Box::new(d));
    let e = part_if(background, text_view(" &"@));
    let flat = chain_text(first, links, seq![' ']);
    reveal_strlit(" &");
    assert(" &"@ =~= seq![' ', '&']);
    // The group and what stands behind it.
    let none = Seq::<Frame>::empty();
    let all = seq![group] + e;
    let f0 = Frame { indent: 0, mode: Mode::Break, doc: concat_view(all) };
    let g = Frame { indent: 0, mode: Mode::Break, doc: group };
    let tail = frames_of(0, Mode::Break, e);
    lemma_layout_concat(width, 0, 0, Mode::Break, all, none);
    assert(seq![f0] + none =~= seq![f0]);
    assert(frames_of(0, Mode::Break, all) + none =~= seq![g] + tail);
    law_group_lies_flat_exactly_when_its_line_fits(width, 0, g, tail);
    lemma_ending(width, background, tail);
    if (flat + end).len() <= width {
        assert(pretty_view(width, file_view(f)) == flat + layout(width, flat.len() as int, tail));
    } else {
        let c = lemma_chain_broken(width, first, links, tail);
        assert(layout(width, c, tail) == end);
    }
}

/// The group of a chain when it is flat.
proof fn lemma_chain_group(first: StmtView, links: Seq<(BinCmdOperator, StmtView)>)
    requires
        is_simple(first),
        forall|i: int| 0 <= i < links.len() ==> is_simple((#[trigger] links[i]).1),
    ensures
        ({
            let d = concat_view(seq![stmt_view(first), nest_view(concat_view(segments(links)))]);
            one_line(d) && flat_text(d) == chain_text(first, links, seq![' '])
        }),
{
    let nest = nest_view(concat_view(segments(links)));
    let items = seq![stmt_view(first), nest];
    lemma_simple(first);
    lemma_segments_flat(first, links);
    lemma_flat_concat(segments(links));
    assert(one_line(items[0]) && one_line(items[1]));
    lemma_flat_concat(items);
    lemma_flat_two(items[0], items[1]);
}

/// The group of a chain when it breaks.
#[verifier::rlimit(40)]
proof fn lemma_chain_broken(
    width: int,
    first: StmtView,
    links: Seq<(BinCmdOperator, StmtView)>,
    tail: Seq<Frame>,
) -> (c: int)
    requires
        is_simple(first),
        forall|i: int| 0 <= i < links.len() ==> is_simple((#[trigger] links[i]).1),
    ensures
        layout(
            width,
            0,
            seq![
                Frame {
                    indent: 0,
                    mode: Mode::Break,
                    doc: concat_view(
                        seq![stmt_view(first), nest_view(concat_view(segments(links)))],
                    ),
                },
            ] + tail,
        ) == chain_text(first, links, seq!['\n', ' ', ' ']) + layout(width, c, tail),
{
    let nest = nest_view(concat_view(segments(links)));
    let items = seq![stmt_view(first), nest];
    lemma_simple(first);
    lemma_layout_concat(width, 0, 0, Mode::Break, items, tail);
    let n = Frame { indent: 0, mode: Mode::Break, doc: nest };
    let x = frames_of(0, Mode::Break, items) + tail;
    assert(x =~= seq![Frame { indent: 0, mode: Mode::Break, doc: stmt_view(first) }] + (seq![n]
        + tail));
    lemma_solid_layout(width, 0, 0, Mode::Break, stmt_view(first), seq![n] + tail);
    let c = simple_text(first).len() as int;
    let m = Frame { indent: 2, mode: Mode::Break, doc: concat_view(segments(links)) };
    assert((seq![n] + tail).drop_first() =~= tail);
    assert(0isize.wrapping_add(2) == 2);
    assert(opened(n, Mode::Flat) =~= seq![m]);
    assert(opened(n, Mode::Break) =~= seq![m]);
    assert(layout(width, c, seq![n] + tail) == layout(width, c, seq![m] + tail));
    lemma_layout_concat(width, c, 2, Mode::Break, segments(links), tail);
    lemma_segments_broken(width, c, first, links, tail)
}

/// What stands behind a chain.
proof fn lemma_ending(width: int, background: bool, tail: Seq<Frame>)
    requires
        tail == frames_of(0, Mode::Break, part_if(background, text_view(seq![' ', '&']))),
    ensures
        ({
            let end = if background {
                seq![' ', '&']
            } else {
                seq![]
            };
            &&& forall|c: int| #[trigger] layout(width, c, tail) == end
            &&& rest_of_line(tail) == end
        }),
{
    let none = Seq::<Frame>::empty();
    if background {
        assert(tail.drop_first() =~= none);
        assert(rest_of_line(none) =~= seq![]);
        assert(rest_of_line(tail) =~= seq![' ', '&']);
        assert forall|c: int| #[trigger] layout(width, c, tail) == seq![' ', '&'] by {
            assert(layout(width, c + 2, none) =~= seq![]);
            assert(layout(width, c, tail) =~= seq![' ', '&'] + layout(width, c + 2, none));
        }
    } else {
        assert(tail =~= none);
        assert(rest_of_line(tail) =~= seq![]);
        assert forall|c: int| #[trigger] layout(width, c, tail) == Seq::<char>::empty() by {
            assert(layout(width, c, tail) =~= seq![]);
        }
    }
}

} // verus!
