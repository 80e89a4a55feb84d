//! Where lines break, and how far they are indented.
//!
//! The layout engine works off a stack of pending documents. The laws here speak
//! of documents only: of the text that a document is when it is flat, of what
//! stands on the line behind it, and of the nests around it. They hold of every
//! place in every document.

use vstd::prelude::*;
use crate::doc::{DocView, Frame, Mode, concat_view, fits_in, flat_text, flat_texts, frames_of,
    has_hard, layout, lemma_opened_less, newline, one_line, opened, pretty_view, spaces, work};

verus! {

// ---------------------------------------------------------------------------
// What stands on a line
// ---------------------------------------------------------------------------

/// Whether there is a line break in `d`, in a group that is laid out in `mode`,
/// when the groups in it are flat.
pub open spec fn ends_line(d: DocView, mode: Mode) -> bool
    decreases d, 0int,
{
    match d {
        DocView::HardLine => true,
        DocView::Line | DocView::SoftLine => mode == Mode::Break,
        DocView::Concat(items) => end_line(items, mode),
        DocView::Nest(_, inner) => ends_line(*inner, mode),
        DocView::Group(inner) => ends_line(*inner, Mode::Flat),
        DocView::IfBreak { flat, broken } => if mode == Mode::Flat {
            ends_line(*flat, mode)
        } else {
            ends_line(*broken, mode)
        },
        _ => false,
    }
}

/// Whether there is a line break in one of `docs`.
pub open spec fn end_line(docs: Seq<DocView>, mode: Mode) -> bool
    decreases docs, 0int,
{
    docs.len() > 0 && (ends_line(docs[0], mode) || end_line(docs.drop_first(), mode))
}

/// The text of `d` up to its first line break.
pub open spec fn line_start(d: DocView, mode: Mode) -> Seq<char>
    decreases d, 0int,
{
    match d {
        DocView::Text(s) => s,
        DocView::Line => if mode == Mode::Flat {
            seq![' ']
        } else {
            seq![]
        },
        DocView::Concat(items) => line_starts(items, mode),
        DocView::Nest(_, inner) => line_start(*inner, mode),
        DocView::Group(inner) => line_start(*inner, Mode::Flat),
        DocView::IfBreak { flat, broken } => if mode == Mode::Flat {
            line_start(*flat, mode)
        } else {
            line_start(*broken, mode)
        },
        _ => seq![],
    }
}

/// The text of `docs`, one after the other, up to the first line break.
pub open spec fn line_starts(docs: Seq<DocView>, mode: Mode) -> Seq<char>
    decreases docs, 0int,
{
    if docs.len() == 0 {
        seq![]
    } else if ends_line(docs[0], mode) {
        line_start(docs[0], mode)
    } else {
        line_start(docs[0], mode) + line_starts(docs.drop_first(), mode)
    }
}

/// The text of `frames`, one after the other, up to the first line break.
pub open spec fn rest_of_line(frames: Seq<Frame>) -> Seq<char>
    decreases frames.len(),
{
    if frames.len() == 0 {
        seq![]
    } else if ends_line(frames[0].doc, frames[0].mode) {
        line_start(frames[0].doc, frames[0].mode)
    } else {
        line_start(frames[0].doc, frames[0].mode) + rest_of_line(frames.drop_first())
    }
}

/// The frames of a sequence in front of others.
proof fn lemma_line_of_sequence(indent: isize, mode: Mode, docs: Seq<DocView>, rest: Seq<Frame>)
    ensures
        rest_of_line(frames_of(indent, mode, docs) + rest) == if end_line(docs, mode) {
            line_starts(docs, mode)
        } else {
            line_starts(docs, mode) + rest_of_line(rest)
        },
    decreases docs.len(),
{
    let fs = frames_of(indent, mode, docs);
    if docs.len() == 0 {
        assert(fs + rest =~= rest);
        assert(line_starts(docs, mode) + rest_of_line(rest) =~= rest_of_line(rest));
    } else {
        let tail = docs.drop_first();
        assert((fs + rest).drop_first() =~= frames_of(indent, mode, tail) + rest);
        lemma_line_of_sequence(indent, mode, tail, rest);
        if !ends_line(docs[0], mode) && !end_line(tail, mode) {
            let a = line_start(docs[0], mode);
            let b = line_starts(tail, mode);
            let c = rest_of_line(rest);
            assert(a + (b + c) =~= (a + b) + c);
        }
    }
}

/// Opening a frame keeps what stands on the line.
proof fn lemma_line_opened(frames: Seq<Frame>)
    requires
        frames.len() > 0,
        ({
            let d = frames[0].doc;
            d is Concat || d is Nest || d is Group || d is IfBreak
        }),
    ensures
        rest_of_line(opened(frames[0], Mode::Flat) + frames.drop_first()) == rest_of_line(frames),
{
    let f = frames[0];
    let rest = frames.drop_first();
    let o = opened(f, Mode::Flat);
    match f.doc {
        DocView::Concat(items) => {
            lemma_line_of_sequence(f.indent, f.mode, items, rest);
        },
        _ => {
            assert((o + rest).drop_first() =~= rest);
        },
    }
}

/// Whether something fits is a matter of what stands on the line.
proof fn lemma_fits(remaining: int, frames: Seq<Frame>)
    ensures
        fits_in(remaining, frames) == (rest_of_line(frames).len() <= remaining),
    decreases work(frames),
{
    if remaining >= 0 && frames.len() > 0 {
        lemma_opened_less(frames, Mode::Flat);
        let f = frames[0];
        let rest = frames.drop_first();
        match f.doc {
            DocView::Nil => {
                lemma_fits(remaining, rest);
            },
            DocView::Text(s) => {
                lemma_fits(remaining - s.len(), rest);
            },
            DocView::Line => {
                if f.mode == Mode::Flat {
                    lemma_fits(remaining - 1, rest);
                }
            },
            DocView::SoftLine => {
                if f.mode == Mode::Flat {
                    lemma_fits(remaining, rest);
                }
            },
            DocView::HardLine => {},
            _ => {
                lemma_line_opened(frames);
                lemma_fits(remaining, opened(f, Mode::Flat) + rest);
            },
        }
    }
}

/// What has no hard line in it lies on one line when it is flat.
pub proof fn lemma_hard_or_one_line(d: DocView)
    ensures
        has_hard(d) == !one_line(d),
    decreases d,
{
    match d {
        DocView::Concat(items) => {
            assert forall|i: int| 0 <= i < items.len() implies has_hard(#[trigger] items[i])
                == !one_line(items[i]) by {
                lemma_hard_or_one_line(items[i]);
            }
            if !one_line(d) {
                let i = choose|i: int| 0 <= i < items.len() && !one_line(#[trigger] items[i]);
                assert(has_hard(items[i]));
            }
            if has_hard(d) {
                let i = choose|i: int| 0 <= i < items.len() && has_hard(#[trigger] items[i]);
                assert(!one_line(items[i]));
            }
        },
        DocView::Nest(_, inner) => {
            lemma_hard_or_one_line(*inner);
        },
        DocView::Group(inner) => {
            lemma_hard_or_one_line(*inner);
        },
        DocView::IfBreak { flat, broken } => {
            lemma_hard_or_one_line(*flat);
            lemma_hard_or_one_line(*broken);
        },
        _ => {},
    }
}

/// What lies on one line has no line break in it when it is flat.
proof fn lemma_one_line_flat(d: DocView)
    requires
        one_line(d),
    ensures
        !ends_line(d, Mode::Flat),
        line_start(d, Mode::Flat) == flat_text(d),
    decreases d, 0int,
{
    match d {
        DocView::Concat(items) => {
            lemma_all_one_line_flat(items);
        },
        DocView::Nest(_, inner) => {
            lemma_one_line_flat(*inner);
        },
        DocView::Group(inner) => {
            lemma_one_line_flat(*inner);
        },
        DocView::IfBreak { flat, .. } => {
            lemma_one_line_flat(*flat);
        },
        _ => {},
    }
}

proof fn lemma_all_one_line_flat(docs: Seq<DocView>)
    requires
        forall|i: int| 0 <= i < docs.len() ==> one_line(#[trigger] docs[i]),
    ensures
        !end_line(docs, Mode::Flat),
        line_starts(docs, Mode::Flat) == flat_texts(docs),
    decreases docs, 0int,
{
    if docs.len() > 0 {
        lemma_one_line_flat(docs[0]);
        let tail = docs.drop_first();
        assert forall|i: int| 0 <= i < tail.len() implies one_line(#[trigger] tail[i]) by {
            assert(tail[i] == docs[i + 1]);
        }
        lemma_all_one_line_flat(tail);
    }
}

// ---------------------------------------------------------------------------
// Groups
// ---------------------------------------------------------------------------

/// The mode that the group at the front of `frames` is laid out in.
proof fn lemma_group_mode(width: int, col: int, f: Frame, rest: Seq<Frame>)
    requires
        f.doc is Group,
    ensures
        ({
            let d = *f.doc->Group_0;
            let flat = one_line(d) && flat_text(d).len() + rest_of_line(rest).len() <= width - col;
            layout(width, col, seq![f] + rest) == layout(
                width,
                col,
                seq![
                    Frame {
                        indent: f.indent,
                        mode: if flat {
                            Mode::Flat
                        } else {
                            Mode::Break
                        },
                        doc: d,
                    },
                ] + rest,
            )
        }),
{
    let d = *f.doc->Group_0;
    let all = seq![f] + rest;
    let flat = seq![Frame { indent: f.indent, mode: Mode::Flat, doc: d }];
    assert(all.drop_first() =~= rest);
    assert((flat + rest).drop_first() =~= rest);
    lemma_hard_or_one_line(d);
    lemma_fits(width - col, flat + rest);
    if one_line(d) {
        lemma_one_line_flat(d);
    }
}

/// A flat frame whose line fits is laid out as its flat text.
proof fn lemma_flat_in_place(width: int, col: int, frames: Seq<Frame>, rest: Seq<Frame>)
    requires
        forall|i: int|
            0 <= i < frames.len() ==> (#[trigger] frames[i]).mode == Mode::Flat && one_line(
                frames[i].doc,
            ),
        rest_of_line(frames + rest).len() <= width - col,
    ensures
        ({
            let t = flat_texts(Seq::new(frames.len(), |i: int| frames[i].doc));
            layout(width, col, frames + rest) == t + layout(width, col + t.len(), rest)
        }),
    decreases work(frames),
{
    let docs = Seq::new(frames.len(), |i: int| frames[i].doc);
    if frames.len() == 0 {
        assert(docs =~= seq![]);
        assert(frames + rest =~= rest);
        assert(flat_texts(docs) + layout(width, col, rest) =~= layout(width, col, rest));
    } else {
        let f = frames[0];
        let tail = frames.drop_first();
        let all = frames + rest;
        assert(all.drop_first() =~= tail + rest);
        assert(docs.drop_first() =~= Seq::new(tail.len(), |i: int| tail[i].doc));
        lemma_opened_less(frames, Mode::Flat);
        lemma_one_line_flat(f.doc);
        assert forall|i: int| 0 <= i < tail.len() implies (#[trigger] tail[i]).mode == Mode::Flat
            && one_line(tail[i].doc) by {
            assert(tail[i] == frames[i + 1]);
        }
        let t = flat_texts(docs);
        match f.doc {
            DocView::Nil | DocView::SoftLine => {
                lemma_flat_in_place(width, col, tail, rest);
                assert(t =~= flat_texts(docs.drop_first()));
            },
            DocView::Text(s) => {
                lemma_flat_in_place(width, col + s.len(), tail, rest);
                let u = flat_texts(docs.drop_first());
                assert(s + (u + layout(width, col + t.len(), rest)) =~= t + layout(
                    width,
                    col + t.len(),
                    rest,
                ));
            },
            DocView::Line => {
                lemma_flat_in_place(width, col + 1, tail, rest);
                let u = flat_texts(docs.drop_first());
                assert(seq![' '] + (u + layout(width, col + t.len(), rest)) =~= t + layout(
                    width,
                    col + t.len(),
                    rest,
                ));
            },
            DocView::HardLine => {},
            _ => {
                let o = opened(f, Mode::Flat);
                lemma_flat_opened(f, tail);
                assert(o + tail + rest =~= o + all.drop_first());
                lemma_line_opened(all);
                lemma_flat_in_place(width, col, o + tail, rest);
                if f.doc is Group {
                    assert(all =~= seq![f] + (tail + rest));
                    lemma_group_mode(width, col, f, tail + rest);
                    assert(o =~= seq![
                        Frame { indent: f.indent, mode: Mode::Flat, doc: *f.doc->Group_0 },
                    ]);
                } else {
                    assert(opened(f, Mode::Break) == o);
                }
            },
        }
    }
}

/// Opening a flat frame in front of flat frames keeps their text.
proof fn lemma_flat_opened(f: Frame, tail: Seq<Frame>)
    requires
        f.mode == Mode::Flat,
        one_line(f.doc),
        f.doc is Concat || f.doc is Nest || f.doc is Group || f.doc is IfBreak,
        forall|i: int|
            0 <= i < tail.len() ==> (#[trigger] tail[i]).mode == Mode::Flat && one_line(
                tail[i].doc,
            ),
    ensures
        ({
            let all = opened(f, Mode::Flat) + tail;
            &&& forall|i: int|
                0 <= i < all.len() ==> (#[trigger] all[i]).mode == Mode::Flat && one_line(
                    all[i].doc,
                )
            &&& flat_texts(Seq::new(all.len(), |i: int| all[i].doc)) == flat_text(f.doc)
                + flat_texts(Seq::new(tail.len(), |i: int| tail[i].doc))
        }),
{
    let o = opened(f, Mode::Flat);
    let all = o + tail;
    let xs = Seq::new(o.len(), |i: int| o[i].doc);
    let ys = Seq::new(tail.len(), |i: int| tail[i].doc);
    assert(Seq::new(all.len(), |i: int| all[i].doc) =~= xs + ys);
    lemma_flat_texts_join(xs, ys);
    match f.doc {
        DocView::Concat(items) => {
            assert(xs =~= items);
        },
        _ => {
            assert(xs =~= seq![o[0].doc]);
            let none = Seq::<DocView>::empty();
            assert(xs.drop_first() =~= none);
            assert(flat_texts(none) =~= seq![]);
            assert(flat_texts(xs) =~= flat_text(o[0].doc));
        },
    }
    assert forall|i: int| 0 <= i < all.len() implies (#[trigger] all[i]).mode == Mode::Flat
        && one_line(all[i].doc) by {
        if i >= o.len() {
            assert(all[i] == tail[i - o.len()]);
        }
    }
}

proof fn lemma_flat_texts_join(xs: Seq<DocView>, ys: Seq<DocView>)
    ensures
        flat_texts(xs + ys) == flat_texts(xs) + flat_texts(ys),
    decreases xs.len(),
{
    if xs.len() == 0 {
        assert(xs + ys =~= ys);
        assert(flat_texts(xs) + flat_texts(ys) =~= flat_texts(ys));
    } else {
        assert((xs + ys).drop_first() =~= xs.drop_first() + ys);
        lemma_flat_texts_join(xs.drop_first(), ys);
        assert(flat_texts(xs + ys) =~= flat_texts(xs) + flat_texts(ys));
    }
}

/// A group lies flat exactly when it holds no hard line and its flat text, with
/// what stands behind it up to the next line break, fits into the columns that
/// are left, wherever the group stands and whatever follows it. Where it lies
/// flat it is its flat text; otherwise it is laid out as if it were no group.
pub proof fn law_group_lies_flat_exactly_when_its_line_fits(
    width: int,
    col: int,
    group: Frame,
    rest: Seq<Frame>,
)
    requires
        group.doc is Group,
    ensures
        ({
            let d = *group.doc->Group_0;
            let t = flat_text(d);
            layout(width, col, seq![group] + rest) == if one_line(d) && t.len() + rest_of_line(
                rest,
            ).len() <= width - col {
                t + layout(width, col + t.len(), rest)
            } else {
                layout(
                    width,
                    col,
                    seq![Frame { indent: group.indent, mode: Mode::Break, doc: d }] + rest,
                )
            }
        }),
{
    let d = *group.doc->Group_0;
    let t = flat_text(d);
    lemma_group_mode(width, col, group, rest);
    if one_line(d) && t.len() + rest_of_line(rest).len() <= width - col {
        let flat = seq![Frame { indent: group.indent, mode: Mode::Flat, doc: d }];
        assert((flat + rest).drop_first() =~= rest);
        lemma_one_line_flat(d);
        lemma_flat_in_place(width, col, flat, rest);
        let docs = Seq::new(flat.len(), |i: int| flat[i].doc);
        let none = Seq::<DocView>::empty();
        assert(docs.drop_first() =~= none);
        assert(flat_texts(none) =~= seq![]);
        assert(flat_texts(docs) =~= t);
    }
}

// ---------------------------------------------------------------------------
// Hard lines
// ---------------------------------------------------------------------------

/// What stands behind a line break is not on the line.
proof fn lemma_line_before_break(a: Seq<Frame>, b: Seq<Frame>)
    requires
        b.len() > 0,
        ends_line(b[0].doc, b[0].mode),
        line_start(b[0].doc, b[0].mode).len() == 0,
    ensures
        rest_of_line(a + b) == rest_of_line(a),
    decreases a.len(),
{
    if a.len() == 0 {
        assert(a + b =~= b);
        assert(rest_of_line(b) =~= rest_of_line(a));
    } else {
        assert((a + b).drop_first() =~= a.drop_first() + b);
        lemma_line_before_break(a.drop_first(), b);
    }
}

/// A hard line starts a new line, indented as it is itself, and ends the line
/// before it: what stands on one side of it makes no difference to the other.
pub proof fn law_hard_line_parts_what_it_stands_between(
    width: int,
    col: int,
    before: Seq<Frame>,
    hard: Frame,
    after: Seq<Frame>,
)
    requires
        hard.doc is HardLine,
    ensures
        layout(width, col, before + seq![hard] + after) == layout(width, col, before) + seq!['\n']
            + spaces(hard.indent as int) + layout(width, hard.indent as int, after),
    decreases work(before),
{
    let tail = seq![hard] + after;
    let all = before + seq![hard] + after;
    assert(all =~= before + tail);
    assert(tail.drop_first() =~= after);
    let end = layout(width, hard.indent as int, after);
    let sum = layout(width, col, before) + seq!['\n'] + spaces(hard.indent as int) + end;
    if before.len() == 0 {
        assert(all =~= tail);
        assert(newline(hard.indent) + end =~= sum);
    } else {
        let f = before[0];
        let rest = before.drop_first();
        assert(all.drop_first() =~= rest + seq![hard] + after);
        lemma_opened_less(before, Mode::Flat);
        lemma_opened_less(before, Mode::Break);
        match f.doc {
            DocView::Nil => {
                law_hard_line_parts_what_it_stands_between(width, col, rest, hard, after);
            },
            DocView::Text(s) => {
                law_hard_line_parts_what_it_stands_between(
                    width,
                    col + s.len(),
                    rest,
                    hard,
                    after,
                );
                assert(layout(width, col, all) =~= sum);
            },
            DocView::Line if f.mode == Mode::Flat => {
                law_hard_line_parts_what_it_stands_between(width, col + 1, rest, hard, after);
                assert(layout(width, col, all) =~= sum);
            },
            DocView::SoftLine if f.mode == Mode::Flat => {
                law_hard_line_parts_what_it_stands_between(width, col, rest, hard, after);
            },
            DocView::Line | DocView::SoftLine | DocView::HardLine => {
                law_hard_line_parts_what_it_stands_between(
                    width,
                    f.indent as int,
                    rest,
                    hard,
                    after,
                );
                assert(layout(width, col, all) =~= sum);
            },
            DocView::Group(inner) => {
                assert(all =~= seq![f] + (rest + tail));
                assert(before =~= seq![f] + rest);
                lemma_line_before_break(rest, tail);
                lemma_group_mode(width, col, f, rest);
                lemma_group_mode(width, col, f, rest + tail);
                let flat = seq![Frame { indent: f.indent, mode: Mode::Flat, doc: *inner }];
                let broken = seq![Frame { indent: f.indent, mode: Mode::Break, doc: *inner }];
                assert(opened(f, Mode::Flat) =~= flat);
                assert(opened(f, Mode::Break) =~= broken);
                law_hard_line_parts_what_it_stands_between(width, col, flat + rest, hard, after);
                law_hard_line_parts_what_it_stands_between(width, col, broken + rest, hard, after);
                assert(flat + rest + seq![hard] + after =~= flat + (rest + tail));
                assert(broken + rest + seq![hard] + after =~= broken + (rest + tail));
            },
            _ => {
                let o = opened(f, Mode::Flat);
                assert(opened(f, Mode::Break) == o);
                law_hard_line_parts_what_it_stands_between(width, col, o + rest, hard, after);
                assert(o + rest + seq![hard] + after =~= o + (rest + seq![hard] + after));
            },
        }
    }
}

// ---------------------------------------------------------------------------
// Places in a document
// ---------------------------------------------------------------------------

/// A step from a document to a part of it.
pub enum Step {
    /// Into a nest, of so many columns.
    Nest(isize),
    /// Into a group.
    Group,
    /// Into a sequence, between the documents before the part and those after it.
    Among(Seq<DocView>, Seq<DocView>),
    /// Into what an `IfBreak` is when it is broken; the document is what it is
    /// when flat.
    Broken(DocView),
}

/// The document that `part` is one step inside of.
pub open spec fn around(step: Step, part: DocView) -> DocView {
    match step {
        Step::Nest(j) => DocView::Nest(j, Box::new(part)),
        Step::Group => DocView::Group(Box::new(part)),
        Step::Among(before, after) => DocView::Concat(before + seq![part] + after),
        Step::Broken(flat) => DocView::IfBreak { flat: Box::new(flat), broken: Box::new(part) },
    }
}

/// The document that has `part` at the end of `path`.
pub open spec fn with_part(path: Seq<Step>, part: DocView) -> DocView
    decreases path.len(),
{
    if path.len() == 0 {
        part
    } else {
        around(path[0], with_part(path.drop_first(), part))
    }
}

/// The sum of the indents of the nests on `path`.
pub open spec fn total_indent(path: Seq<Step>) -> int
    decreases path.len(),
{
    if path.len() == 0 {
        0
    } else {
        total_indent(path.drop_last()) + match path.last() {
            Step::Nest(j) => j as int,
            _ => 0,
        }
    }
}

/// Whether the indents on `path`, added up from its start, stay in the range of
/// an `isize`.
pub open spec fn in_range(path: Seq<Step>) -> bool {
    forall|k: int|
        0 <= k <= path.len() ==> isize::MIN <= total_indent(#[trigger] path.take(k)) <= isize::MAX
}

/// The indent of a single step.
spec fn step_indent(step: Step) -> int {
    match step {
        Step::Nest(j) => j as int,
        _ => 0,
    }
}

proof fn lemma_total_indent_first(path: Seq<Step>)
    requires
        path.len() > 0,
    ensures
        total_indent(path) == step_indent(path[0]) + total_indent(path.drop_first()),
    decreases path.len(),
{
    let tail = path.drop_first();
    if path.len() == 1 {
        assert(path.drop_last() =~= seq![]);
        assert(tail =~= seq![]);
        assert(total_indent(path.drop_last()) == 0);
        assert(total_indent(tail) == 0);
    } else {
        lemma_total_indent_first(path.drop_last());
        assert(path.drop_last().drop_first() =~= tail.drop_last());
        assert(tail.last() == path.last());
    }
}

/// Whether `base` and the indents on `path` stay in range.
spec fn in_range_from(base: int, path: Seq<Step>) -> bool {
    forall|k: int|
        0 <= k <= path.len() ==> isize::MIN <= base + total_indent(#[trigger] path.take(k))
            <= isize::MAX
}

proof fn lemma_in_range_first(base: int, path: Seq<Step>)
    requires
        in_range_from(base, path),
        path.len() > 0,
    ensures
        isize::MIN <= base <= isize::MAX,
        isize::MIN <= base + step_indent(path[0]) <= isize::MAX,
        in_range_from(base + step_indent(path[0]), path.drop_first()),
{
    let tail = path.drop_first();
    assert(path.take(0) =~= seq![]);
    assert(total_indent(path.take(0)) == 0);
    assert forall|k: int| 0 <= k <= tail.len() implies isize::MIN <= base + step_indent(path[0])
        + total_indent(#[trigger] tail.take(k)) <= isize::MAX by {
        let p = path.take(k + 1);
        assert(p.drop_first() =~= tail.take(k));
        lemma_total_indent_first(p);
        assert(p[0] == path[0]);
    }
    assert(tail.take(0) =~= seq![]);
    assert(total_indent(tail.take(0)) == 0);
}

/// A sequence with a hard line in one of its items has a hard line.
pub proof fn lemma_hard_item(items: Seq<DocView>, i: int)
    requires
        0 <= i < items.len(),
        has_hard(items[i]),
    ensures
        has_hard(DocView::Concat(items)),
{
    let d = DocView::Concat(items);
    assert(d->Concat_0 == items);
    assert(has_hard(d) == exists|k: int| 0 <= k < items.len() && has_hard(#[trigger] items[k]));
}

/// What has a hard line at the end of a path has a hard line.
proof fn lemma_part_is_hard(path: Seq<Step>, part: DocView)
    requires
        has_hard(part),
    ensures
        has_hard(with_part(path, part)),
    decreases path.len(),
{
    if path.len() > 0 {
        let inner = with_part(path.drop_first(), part);
        lemma_part_is_hard(path.drop_first(), part);
        if let Step::Among(before, after) = path[0] {
            let items = before + seq![inner] + after;
            assert(items[before.len() as int] == inner);
            lemma_hard_item(items, before.len() as int);
        }
    }
}

/// The first frame, laid out: its text and the column behind it, with what is
/// left of it.
proof fn lemma_first_step(width: int, col: int, f: Frame, rest: Seq<Frame>, tail: Seq<Frame>) -> (r: (
    Seq<char>,
    int,
    Seq<Frame>,
))
    ensures
        layout(width, col, seq![f] + rest + tail) == r.0 + layout(width, r.1, r.2 + tail),
        work(r.2) < work(seq![f] + rest),
{
    let before = seq![f] + rest;
    let all = before + tail;
    assert(before.drop_first() =~= rest);
    assert(all.drop_first() =~= rest + tail);
    lemma_opened_less(before, Mode::Flat);
    lemma_opened_less(before, Mode::Break);
    let none = Seq::<char>::empty();
    match f.doc {
        DocView::Nil => {
            assert(none + layout(width, col, rest + tail) =~= layout(width, col, all));
            (none, col, rest)
        },
        DocView::Text(s) => (s, col + s.len(), rest),
        DocView::Line if f.mode == Mode::Flat => (seq![' '], col + 1, rest),
        DocView::SoftLine if f.mode == Mode::Flat => {
            assert(none + layout(width, col, rest + tail) =~= layout(width, col, all));
            (none, col, rest)
        },
        DocView::Line | DocView::SoftLine | DocView::HardLine => (
            newline(f.indent),
            f.indent as int,
            rest,
        ),
        DocView::Group(inner) => {
            assert(all =~= seq![f] + (rest + tail));
            lemma_group_mode(width, col, f, rest + tail);
            let flat = seq![Frame { indent: f.indent, mode: Mode::Flat, doc: *inner }];
            let broken = seq![Frame { indent: f.indent, mode: Mode::Break, doc: *inner }];
            assert(opened(f, Mode::Flat) =~= flat);
            assert(opened(f, Mode::Break) =~= broken);
            assert(flat + rest + tail =~= flat + (rest + tail));
            assert(broken + rest + tail =~= broken + (rest + tail));
            assert(none + layout(width, col, flat + rest + tail) =~= layout(
                width,
                col,
                flat + rest + tail,
            ));
            assert(none + layout(width, col, broken + rest + tail) =~= layout(
                width,
                col,
                broken + rest + tail,
            ));
            if layout(width, col, all) == layout(width, col, flat + rest + tail) {
                (none, col, flat + rest)
            } else {
                (none, col, broken + rest)
            }
        },
        _ => {
            let o = opened(f, Mode::Flat);
            assert(opened(f, Mode::Break) == o);
            assert(o + rest + tail =~= o + (rest + tail));
            assert(none + layout(width, col, o + rest + tail) =~= layout(
                width,
                col,
                o + rest + tail,
            ));
            (none, col, o + rest)
        },
    }
}

/// What is laid out first comes first.
proof fn lemma_front(width: int, col: int, front: Seq<Frame>, tail: Seq<Frame>) -> (r: (
    Seq<char>,
    int,
))
    ensures
        layout(width, col, front + tail) == r.0 + layout(width, r.1, tail),
    decreases work(front),
{
    if front.len() == 0 {
        assert(front + tail =~= tail);
        assert(Seq::<char>::empty() + layout(width, col, tail) =~= layout(width, col, tail));
        (seq![], col)
    } else {
        let rest = front.drop_first();
        assert(front =~= seq![front[0]] + rest);
        let (t, c, left) = lemma_first_step(width, col, front[0], rest, tail);
        let (u, e) = lemma_front(width, c, left, tail);
        assert(t + (u + layout(width, e, tail)) =~= t + u + layout(width, e, tail));
        (t + u, e)
    }
}

/// The frame of a document with a hard line at the end of `path` is opened along
/// the path.
proof fn lemma_along(
    width: int,
    col: int,
    indent: isize,
    path: Seq<Step>,
    part: DocView,
    tail: Seq<Frame>,
) -> (r: (Seq<char>, int, Seq<Frame>))
    requires
        has_hard(part),
        in_range_from(indent as int, path),
    ensures
        ({
            let at = indent + total_indent(path);
            &&& isize::MIN <= at <= isize::MAX
            &&& layout(
                width,
                col,
                seq![Frame { indent, mode: Mode::Break, doc: with_part(path, part) }] + tail,
            ) == r.0 + layout(
                width,
                r.1,
                seq![Frame { indent: at as isize, mode: Mode::Break, doc: part }] + r.2,
            )
        }),
    decreases path.len(),
{
    let whole = with_part(path, part);
    let f = Frame { indent, mode: Mode::Break, doc: whole };
    let none = Seq::<char>::empty();
    let all = seq![f] + tail;
    assert(path.take(path.len() as int) =~= path);
    if path.len() == 0 {
        assert(none + layout(width, col, all) =~= layout(width, col, all));
        (none, col, tail)
    } else {
        let inner = with_part(path.drop_first(), part);
        assert(all.drop_first() =~= tail);
        lemma_in_range_first(indent as int, path);
        lemma_total_indent_first(path);
        lemma_part_is_hard(path.drop_first(), part);
        match path[0] {
            Step::Nest(j) => {
                let next = (indent + j) as isize;
                assert(indent.wrapping_add(j) == next);
                let g = Frame { indent: next, mode: Mode::Break, doc: inner };
                assert(opened(f, Mode::Flat) =~= seq![g]);
                assert(opened(f, Mode::Break) =~= seq![g]);
                lemma_along(width, col, next, path.drop_first(), part, tail)
            },
            Step::Group => {
                lemma_hard_or_one_line(inner);
                lemma_group_mode(width, col, f, tail);
                lemma_along(width, col, indent, path.drop_first(), part, tail)
            },
            Step::Among(before, after) => {
                let xs = frames_of(indent, Mode::Break, before);
                let g = Frame { indent, mode: Mode::Break, doc: inner };
                let ys = frames_of(indent, Mode::Break, after);
                assert(opened(f, Mode::Break) =~= xs + seq![g] + ys);
                assert(opened(f, Mode::Flat) =~= xs + seq![g] + ys);
                let behind = seq![g] + (ys + tail);
                assert(xs + seq![g] + ys + tail =~= xs + behind);
                let (t, c) = lemma_front(width, col, xs, behind);
                let (u, e, left) = lemma_along(
                    width,
                    c,
                    indent,
                    path.drop_first(),
                    part,
                    ys + tail,
                );
                let at = (indent + total_indent(path)) as isize;
                let end = layout(
                    width,
                    e,
                    seq![Frame { indent: at, mode: Mode::Break, doc: part }] + left,
                );
                assert(t + (u + end) =~= t + u + end);
                (t + u, e, left)
            },
            Step::Broken(flat) => {
                let g = Frame { indent, mode: Mode::Break, doc: inner };
                assert(opened(f, Mode::Break) =~= seq![g]);
                assert(opened(f, Mode::Flat) =~= seq![g]);
                lemma_along(width, col, indent, path.drop_first(), part, tail)
            },
        }
    }
}

/// Every line break, at every depth, is followed by exactly as many spaces as
/// the nests around it add up to (none if that is negative). `brk` is the break,
/// at the end of `path`, and `t` any text behind it, which shows the place; the
/// hard line behind that sees to it that everything around breaks.
pub proof fn law_lines_are_indented_by_the_nests_around_them(
    width: int,
    path: Seq<Step>,
    brk: DocView,
    t: Seq<char>,
)
    requires
        in_range(path),
        brk is HardLine || brk is Line || brk is SoftLine,
    ensures
        exists|before: Seq<char>, after: Seq<char>|
            #![trigger before + after]
            pretty_view(
                width,
                with_part(
                    path,
                    DocView::Concat(seq![brk, DocView::Text(t), DocView::HardLine]),
                ),
            ) == before + (seq!['\n'] + spaces(total_indent(path)) + t + seq!['\n'] + after),
{
    let items = seq![brk, DocView::Text(t), DocView::HardLine];
    let part = DocView::Concat(items);
    lemma_hard_item(items, 2);
    assert(in_range_from(0, path));
    let none = Seq::<Frame>::empty();
    let f = Frame { indent: 0, mode: Mode::Break, doc: with_part(path, part) };
    assert(seq![f] + none =~= seq![f]);
    let (before, c, left) = lemma_along(width, 0, 0, path, part, none);
    let at = total_indent(path) as isize;
    let g = Frame { indent: at, mode: Mode::Break, doc: part };
    let fs = frames_of(at, Mode::Break, items);
    let all = seq![g] + left;
    assert(all.drop_first() =~= left);
    assert(opened(g, Mode::Break) == fs && opened(g, Mode::Flat) == fs);
    let x1 = fs + left;
    let x2 = x1.drop_first();
    let x3 = x2.drop_first();
    let x4 = x3.drop_first();
    assert(x1[0].doc == brk);
    assert(x2[0].doc == DocView::Text(t));
    assert(x3[0].doc is HardLine && x3[0].indent == at);
    let end = layout(width, at as int, x4);
    let after = spaces(at as int) + end;
    assert(layout(width, c, all) == layout(width, c, x1));
    assert(layout(width, c, x1) == newline(at) + layout(width, at as int, x2));
    assert(layout(width, at as int, x2) == t + layout(width, at + t.len(), x3));
    assert(layout(width, at + t.len(), x3) == newline(at) + end);
    assert(layout(width, c, all) =~= seq!['\n'] + spaces(at as int) + t + seq!['\n'] + after);
    let shown = before + after;
}

// ---------------------------------------------------------------------------
// Groups in their places
// ---------------------------------------------------------------------------

/// What stands on the line depends on the frames behind only by what they put on
/// it.
proof fn lemma_line_same(a: Seq<Frame>, x: Seq<Frame>, y: Seq<Frame>)
    requires
        rest_of_line(x).len() == rest_of_line(y).len(),
    ensures
        rest_of_line(a + x).len() == rest_of_line(a + y).len(),
    decreases a.len(),
{
    if a.len() == 0 {
        assert(a + x =~= x);
        assert(a + y =~= y);
    } else {
        assert((a + x).drop_first() =~= a.drop_first() + x);
        assert((a + y).drop_first() =~= a.drop_first() + y);
        lemma_line_same(a.drop_first(), x, y);
    }
}

/// What is laid out first depends on what follows only by what that puts on the
/// line.
proof fn lemma_front_same(width: int, col: int, front: Seq<Frame>, x: Seq<Frame>, y: Seq<Frame>) -> (r: (
    Seq<char>,
    int,
))
    requires
        rest_of_line(x).len() == rest_of_line(y).len(),
    ensures
        layout(width, col, front + x) == r.0 + layout(width, r.1, x),
        layout(width, col, front + y) == r.0 + layout(width, r.1, y),
    decreases work(front),
{
    let none = Seq::<char>::empty();
    if front.len() == 0 {
        assert(front + x =~= x);
        assert(front + y =~= y);
        assert(none + layout(width, col, x) =~= layout(width, col, x));
        assert(none + layout(width, col, y) =~= layout(width, col, y));
        (none, col)
    } else {
        let f = front[0];
        let rest = front.drop_first();
        assert((front + x).drop_first() =~= rest + x);
        assert((front + y).drop_first() =~= rest + y);
        lemma_opened_less(front, Mode::Flat);
        lemma_opened_less(front, Mode::Break);
        let (t, c, left): (Seq<char>, int, Seq<Frame>) = match f.doc {
            DocView::Nil => (none, col, rest),
            DocView::Text(s) => (s, col + s.len(), rest),
            DocView::Line if f.mode == Mode::Flat => (seq![' '], col + 1, rest),
            DocView::SoftLine if f.mode == Mode::Flat => (none, col, rest),
            DocView::Line | DocView::SoftLine | DocView::HardLine => (
                newline(f.indent),
                f.indent as int,
                rest,
            ),
            DocView::Group(inner) => {
                assert(front + x =~= seq![f] + (rest + x));
                assert(front + y =~= seq![f] + (rest + y));
                lemma_line_same(rest, x, y);
                lemma_group_mode(width, col, f, rest + x);
                lemma_group_mode(width, col, f, rest + y);
                let flat = one_line(*inner) && flat_text(*inner).len() + rest_of_line(
                    rest + x,
                ).len() <= width - col;
                let mode = if flat {
                    Mode::Flat
                } else {
                    Mode::Break
                };
                let g = seq![Frame { indent: f.indent, mode, doc: *inner }];
                assert(opened(f, mode) =~= g);
                assert(g + rest + x =~= g + (rest + x));
                assert(g + rest + y =~= g + (rest + y));
                (none, col, g + rest)
            },
            _ => {
                let o = opened(f, Mode::Flat);
                assert(opened(f, Mode::Break) == o);
                assert(o + rest + x =~= o + (rest + x));
                assert(o + rest + y =~= o + (rest + y));
                (none, col, o + rest)
            },
        };
        assert(layout(width, col, front + x) =~= t + layout(width, c, left + x));
        assert(layout(width, col, front + y) =~= t + layout(width, c, left + y));
        let (u, e) = lemma_front_same(width, c, left, x, y);
        assert(t + (u + layout(width, e, x)) =~= t + u + layout(width, e, x));
        assert(t + (u + layout(width, e, y)) =~= t + u + layout(width, e, y));
        (t + u, e)
    }
}

/// The layout of `d`, broken, in front of `rest`.
spec fn laid_first(width: int, col: int, indent: isize, d: DocView, rest: Seq<Frame>) -> Seq<char> {
    layout(width, col, seq![Frame { indent, mode: Mode::Break, doc: d }] + rest)
}

/// Whether `d` starts with a line break, in a group and out of one.
spec fn starts_with_break(d: DocView) -> bool {
    forall|mode: Mode| #[trigger]
        ends_line(d, mode) && line_start(d, mode).len() == 0
}

/// Parts that start with a line break put the same on the line.
proof fn lemma_part_line(path: Seq<Step>, x: DocView, y: DocView, mode: Mode)
    requires
        starts_with_break(x),
        starts_with_break(y),
    ensures
        ends_line(with_part(path, x), mode) == ends_line(with_part(path, y), mode),
        line_start(with_part(path, x), mode) == line_start(with_part(path, y), mode),
    decreases path.len(),
{
    if path.len() == 0 {
        assert(ends_line(x, mode) && ends_line(y, mode));
        assert(line_start(x, mode) =~= line_start(y, mode));
    } else {
        let a = with_part(path.drop_first(), x);
        let b = with_part(path.drop_first(), y);
        lemma_part_line(path.drop_first(), x, y, mode);
        lemma_part_line(path.drop_first(), x, y, Mode::Flat);
        if let Step::Among(before, after) = path[0] {
            lemma_among_line(before, a, b, after, mode);
        }
    }
}

proof fn lemma_among_line(
    before: Seq<DocView>,
    a: DocView,
    b: DocView,
    after: Seq<DocView>,
    mode: Mode,
)
    requires
        ends_line(a, mode) == ends_line(b, mode),
        line_start(a, mode) == line_start(b, mode),
    ensures
        end_line(before + seq![a] + after, mode) == end_line(before + seq![b] + after, mode),
        line_starts(before + seq![a] + after, mode) == line_starts(before + seq![b] + after, mode),
    decreases before.len(),
{
    let xs = before + seq![a] + after;
    let ys = before + seq![b] + after;
    if before.len() == 0 {
        assert(xs.drop_first() =~= after);
        assert(ys.drop_first() =~= after);
        assert(xs[0] == a && ys[0] == b);
    } else {
        let rest = before.drop_first();
        assert(xs.drop_first() =~= rest + seq![a] + after);
        assert(ys.drop_first() =~= rest + seq![b] + after);
        assert(xs[0] == before[0] && ys[0] == before[0]);
        lemma_among_line(rest, a, b, after, mode);
    }
}

/// Parts that are laid out alike in their place can be put for each other.
proof fn lemma_part_same(
    width: int,
    col: int,
    indent: isize,
    path: Seq<Step>,
    at: isize,
    x: DocView,
    y: DocView,
    tail: Seq<Frame>,
)
    requires
        in_range_from(indent as int, path),
        at == indent + total_indent(path),
        starts_with_break(x),
        starts_with_break(y),
        has_hard(x),
        has_hard(y),
        forall|c: int, left: Seq<Frame>| #[trigger]
            laid_first(width, c, at, x, left) == laid_first(width, c, at, y, left),
    ensures
        laid_first(width, col, indent, with_part(path, x), tail) == laid_first(
            width,
            col,
            indent,
            with_part(path, y),
            tail,
        ),
    decreases path.len(),
{
    if path.len() == 0 {
        assert(laid_first(width, col, at, x, tail) == laid_first(width, col, at, y, tail));
    } else {
        let short = path.drop_first();
        let a = with_part(short, x);
        let b = with_part(short, y);
        let f = Frame { indent, mode: Mode::Break, doc: with_part(path, x) };
        let g = Frame { indent, mode: Mode::Break, doc: with_part(path, y) };
        assert((seq![f] + tail).drop_first() =~= tail);
        assert((seq![g] + tail).drop_first() =~= tail);
        lemma_in_range_first(indent as int, path);
        lemma_total_indent_first(path);
        lemma_part_is_hard(short, x);
        lemma_part_is_hard(short, y);
        match path[0] {
            Step::Nest(j) => {
                let next = (indent + j) as isize;
                assert(indent.wrapping_add(j) == next);
                lemma_part_same(width, col, next, short, at, x, y, tail);
            },
            Step::Group => {
                lemma_hard_or_one_line(a);
                lemma_hard_or_one_line(b);
                lemma_group_mode(width, col, f, tail);
                lemma_group_mode(width, col, g, tail);
                lemma_part_same(width, col, indent, short, at, x, y, tail);
            },
            Step::Among(before, after) => {
                let front = frames_of(indent, Mode::Break, before);
                let behind = frames_of(indent, Mode::Break, after) + tail;
                let fa = seq![Frame { indent, mode: Mode::Break, doc: a }];
                let fb = seq![Frame { indent, mode: Mode::Break, doc: b }];
                assert(opened(f, Mode::Break) + tail =~= front + (fa + behind));
                assert(opened(g, Mode::Break) + tail =~= front + (fb + behind));
                assert(opened(f, Mode::Break) == opened(f, Mode::Flat));
                assert(opened(g, Mode::Break) == opened(g, Mode::Flat));
                lemma_part_line(short, x, y, Mode::Break);
                assert((fa + behind).drop_first() =~= behind);
                assert((fb + behind).drop_first() =~= behind);
                let (_, c) = lemma_front_same(width, col, front, fa + behind, fb + behind);
                lemma_part_same(width, c, indent, short, at, x, y, behind);
            },
            Step::Broken(flat) => {
                lemma_part_same(width, col, indent, short, at, x, y, tail);
            },
        }
    }
}

/// A line of its own: `t`, then `d`, then `after`.
pub open spec fn own_line(t: Seq<char>, d: DocView, after: Seq<DocView>) -> DocView {
    DocView::Concat(seq![DocView::HardLine, DocView::Text(t), d] + after.push(DocView::HardLine))
}

proof fn lemma_own_line_breaks(t: Seq<char>, d: DocView, after: Seq<DocView>)
    ensures
        starts_with_break(own_line(t, d, after)),
        has_hard(own_line(t, d, after)),
{
    let items = seq![DocView::HardLine, DocView::Text(t), d] + after.push(DocView::HardLine);
    assert(items[0] is HardLine);
    lemma_hard_item(items, 0);
    assert forall|mode: Mode| #[trigger]
        ends_line(own_line(t, d, after), mode) && line_start(own_line(t, d, after), mode).len()
            == 0 by {
        assert(ends_line(items[0], mode));
        assert(end_line(items, mode));
        assert(line_starts(items, mode) == line_start(items[0], mode));
    }
}

/// A line of its own, laid out.
proof fn lemma_own_line(
    width: int,
    c: int,
    at: isize,
    t: Seq<char>,
    d: DocView,
    after: Seq<DocView>,
    left: Seq<Frame>,
)
    ensures
        laid_first(width, c, at, own_line(t, d, after), left) == newline(at) + (t + laid_first(
            width,
            at + t.len(),
            at,
            d,
            frames_of(at, Mode::Break, after.push(DocView::HardLine)) + left,
        )),
{
    let items = seq![DocView::HardLine, DocView::Text(t), d] + after.push(DocView::HardLine);
    let f = Frame { indent: at, mode: Mode::Break, doc: own_line(t, d, after) };
    let all = seq![f] + left;
    assert(all.drop_first() =~= left);
    let fs = frames_of(at, Mode::Break, items);
    assert(opened(f, Mode::Break) == fs && opened(f, Mode::Flat) == fs);
    let x1 = fs + left;
    let x2 = x1.drop_first();
    let x3 = x2.drop_first();
    assert(x1[0].doc is HardLine);
    assert(x2[0].doc == DocView::Text(t));
    assert(x3 =~= seq![Frame { indent: at, mode: Mode::Break, doc: d }] + (frames_of(
        at,
        Mode::Break,
        after.push(DocView::HardLine),
    ) + left));
    assert(layout(width, c, all) == layout(width, c, x1));
    assert(layout(width, c, x1) == newline(at) + layout(width, at as int, x2));
    assert(layout(width, at as int, x2) == t + layout(width, at + t.len(), x3));
}

/// Everywhere in a document a group follows the width: with `t` before it on its
/// line, and `after` behind it, it is its flat text if it holds no hard line and
/// the whole line fits, indentation and all; otherwise it is as if it were no
/// group.
pub proof fn law_groups_follow_the_width_everywhere(
    width: int,
    path: Seq<Step>,
    t: Seq<char>,
    d: DocView,
    after: Seq<DocView>,
)
    requires
        in_range(path),
    ensures
        ({
            let columns = total_indent(path) + t.len() + flat_text(d).len() + line_starts(
                after.push(DocView::HardLine),
                Mode::Break,
            ).len();
            pretty_view(
                width,
                with_part(path, own_line(t, DocView::Group(Box::new(d)), after)),
            ) == pretty_view(
                width,
                with_part(
                    path,
                    own_line(
                        t,
                        if one_line(d) && columns <= width {
                            DocView::Text(flat_text(d))
                        } else {
                            d
                        },
                        after,
                    ),
                ),
            )
        }),
{
    let group = DocView::Group(Box::new(d));
    let u = flat_text(d);
    let behind = after.push(DocView::HardLine);
    let columns = total_indent(path) + t.len() + u.len() + line_starts(behind, Mode::Break).len();
    let other = if one_line(d) && columns <= width {
        DocView::Text(u)
    } else {
        d
    };
    let x = own_line(t, group, after);
    let y = own_line(t, other, after);
    lemma_own_line_breaks(t, group, after);
    lemma_own_line_breaks(t, other, after);
    assert(path.take(path.len() as int) =~= path);
    assert(in_range_from(0, path));
    let at = total_indent(path) as isize;
    assert forall|c: int, left: Seq<Frame>| #[trigger]
        laid_first(width, c, at, x, left) == laid_first(width, c, at, y, left) by {
        lemma_own_line(width, c, at, t, group, after, left);
        lemma_own_line(width, c, at, t, other, after, left);
        let rest = frames_of(at, Mode::Break, behind) + left;
        let g = Frame { indent: at, mode: Mode::Break, doc: group };
        let o = Frame { indent: at, mode: Mode::Break, doc: other };
        law_group_lies_flat_exactly_when_its_line_fits(width, at + t.len(), g, rest);
        lemma_line_of_sequence(at, Mode::Break, behind, left);
        lemma_ends_with_hard(after, Mode::Break);
        assert((seq![o] + rest).drop_first() =~= rest);
    }
    let none = Seq::<Frame>::empty();
    lemma_part_same(width, 0, 0, path, at, x, y, none);
    assert(seq![Frame { indent: 0, mode: Mode::Break, doc: with_part(path, x) }] + none =~= seq![
        Frame { indent: 0, mode: Mode::Break, doc: with_part(path, x) },
    ]);
    assert(seq![Frame { indent: 0, mode: Mode::Break, doc: with_part(path, y) }] + none =~= seq![
        Frame { indent: 0, mode: Mode::Break, doc: with_part(path, y) },
    ]);
}

proof fn lemma_ends_with_hard(docs: Seq<DocView>, mode: Mode)
    ensures
        end_line(docs.push(DocView::HardLine), mode),
    decreases docs.len(),
{
    let all = docs.push(DocView::HardLine);
    if docs.len() > 0 {
        assert(all.drop_first() =~= docs.drop_first().push(DocView::HardLine));
        lemma_ends_with_hard(docs.drop_first(), mode);
    } else {
        assert(ends_line(all[0], mode));
    }
}

// ---------------------------------------------------------------------------
// Sequences
// ---------------------------------------------------------------------------

/// An empty document makes no difference.
proof fn lemma_skip_nil(width: int, col: int, front: Seq<Frame>, nil: Frame, tail: Seq<Frame>)
    requires
        nil.doc is Nil,
    ensures
        layout(width, col, front + (seq![nil] + tail)) == layout(width, col, front + tail),
{
    let x = seq![nil] + tail;
    assert(x.drop_first() =~= tail);
    assert(rest_of_line(x) =~= rest_of_line(tail));
    let _ = lemma_front_same(width, col, front, x, tail);
}

/// Empty documents can be left out of a sequence.
proof fn lemma_layout_kept(
    width: int,
    col: int,
    indent: isize,
    mode: Mode,
    docs: Seq<DocView>,
    tail: Seq<Frame>,
)
    ensures
        layout(
            width,
            col,
            frames_of(indent, mode, docs.filter(|d: DocView| d !is Nil)) + tail,
        ) == layout(width, col, frames_of(indent, mode, docs) + tail),
    decreases docs.len(),
{
    let keep = |d: DocView| d !is Nil;
    if docs.len() == 0 {
        assert(docs.filter(keep) =~= docs);
    } else {
        let front = docs.drop_last();
        let last = docs.last();
        let f = Frame { indent, mode, doc: last };
        assert(front.push(last) =~= docs);
        front.lemma_filter_push(last, keep);
        assert(frames_of(indent, mode, docs) + tail =~= frames_of(indent, mode, front) + (seq![f]
            + tail));
        if keep(last) {
            lemma_layout_kept(width, col, indent, mode, front, seq![f] + tail);
            assert(frames_of(indent, mode, front.filter(keep).push(last)) + tail =~= frames_of(
                indent,
                mode,
                front.filter(keep),
            ) + (seq![f] + tail));
        } else {
            lemma_layout_kept(width, col, indent, mode, front, tail);
            lemma_skip_nil(width, col, frames_of(indent, mode, front), f, tail);
        }
    }
}

/// A sequence is laid out as its documents one after the other.
pub proof fn lemma_layout_concat(
    width: int,
    col: int,
    indent: isize,
    mode: Mode,
    docs: Seq<DocView>,
    tail: Seq<Frame>,
)
    ensures
        layout(
            width,
            col,
            seq![Frame { indent, mode, doc: concat_view(docs) }] + tail,
        ) == layout(width, col, frames_of(indent, mode, docs) + tail),
{
    let kept = docs.filter(|d: DocView| d !is Nil);
    let f = Frame { indent, mode, doc: concat_view(docs) };
    let all = seq![f] + tail;
    assert(all.drop_first() =~= tail);
    lemma_layout_kept(width, col, indent, mode, docs, tail);
    if kept.len() == 0 {
        assert(frames_of(indent, mode, kept) + tail =~= tail);
    } else if kept.len() == 1 {
        assert(frames_of(indent, mode, kept) + tail =~= all);
    } else {
        assert(opened(f, Mode::Flat) == frames_of(indent, mode, kept));
        assert(opened(f, Mode::Break) == frames_of(indent, mode, kept));
    }
}

/// What stands on the line of a sequence.
proof fn lemma_line_kept(docs: Seq<DocView>, mode: Mode)
    ensures
        end_line(docs.filter(|d: DocView| d !is Nil), mode) == end_line(docs, mode),
        line_starts(docs.filter(|d: DocView| d !is Nil), mode) == line_starts(docs, mode),
    decreases docs.len(),
{
    let keep = |d: DocView| d !is Nil;
    reveal(Seq::filter);
    if docs.len() > 0 {
        let front = docs.drop_last();
        let last = docs.last();
        lemma_line_kept(front, mode);
        lemma_line_push(front, last, mode);
        if keep(last) {
            lemma_line_push(front.filter(keep), last, mode);
            assert(docs.filter(keep) =~= front.filter(keep).push(last));
        }
        assert(front.push(last) =~= docs);
    }
}

proof fn lemma_line_push(docs: Seq<DocView>, d: DocView, mode: Mode)
    ensures
        end_line(docs.push(d), mode) == (end_line(docs, mode) || ends_line(d, mode)),
        line_starts(docs.push(d), mode) == if end_line(docs, mode) {
            line_starts(docs, mode)
        } else {
            line_starts(docs, mode) + line_start(d, mode)
        },
    decreases docs.len(),
{
    let all = docs.push(d);
    if docs.len() == 0 {
        assert(all.drop_first() =~= docs);
        assert(line_starts(docs, mode) + line_start(d, mode) =~= line_start(d, mode));
        assert(line_start(d, mode) + line_starts(docs, mode) =~= line_start(d, mode));
    } else {
        assert(all.drop_first() =~= docs.drop_first().push(d));
        lemma_line_push(docs.drop_first(), d, mode);
        if !ends_line(docs[0], mode) && !end_line(docs.drop_first(), mode) {
            assert(line_starts(all, mode) =~= line_starts(docs, mode) + line_start(d, mode));
        }
    }
}

/// The flat text of a sequence is that of its documents.
pub proof fn lemma_flat_concat(docs: Seq<DocView>)
    requires
        forall|i: int| 0 <= i < docs.len() ==> one_line(#[trigger] docs[i]),
    ensures
        one_line(concat_view(docs)),
        flat_text(concat_view(docs)) == flat_texts(docs),
{
    let keep = |d: DocView| d !is Nil;
    let kept = docs.filter(keep);
    assert forall|i: int| 0 <= i < kept.len() implies one_line(#[trigger] kept[i]) by {
        assert(kept.contains(kept[i]));
        docs.lemma_filter_contains_rev(keep, kept[i]);
        let j = choose|j: int| 0 <= j < docs.len() && docs[j] == kept[i];
        assert(one_line(docs[j]));
    }
    lemma_line_kept(docs, Mode::Flat);
    lemma_all_one_line_flat(docs);
    lemma_all_one_line_flat(kept);
    if kept.len() == 1 {
        assert(kept =~= seq![kept[0]]);
        let none = Seq::<DocView>::empty();
        assert(kept.drop_first() =~= none);
        assert(flat_texts(none) =~= seq![]);
        assert(flat_texts(kept) =~= flat_text(kept[0]));
    }
}

/// What a sequence puts on the line is what its documents put on it.
pub proof fn lemma_line_concat(indent: isize, mode: Mode, docs: Seq<DocView>, tail: Seq<Frame>)
    ensures
        rest_of_line(seq![Frame { indent, mode, doc: concat_view(docs) }] + tail) == rest_of_line(
            frames_of(indent, mode, docs) + tail,
        ),
{
    let kept = docs.filter(|d: DocView| d !is Nil);
    let f = Frame { indent, mode, doc: concat_view(docs) };
    assert((seq![f] + tail).drop_first() =~= tail);
    lemma_line_kept(docs, mode);
    lemma_line_of_sequence(indent, mode, docs, tail);
    if kept.len() == 0 {
        assert(line_starts(kept, mode) =~= seq![]);
    } else if kept.len() == 1 {
        lemma_line_of_sequence(indent, mode, kept, tail);
        assert(frames_of(indent, mode, kept) + tail =~= seq![f] + tail);
    }
}

/// Documents that are laid out alike, and put equally much on the line, can be put
/// for each other behind others.
pub proof fn lemma_layout_behind(
    width: int,
    col: int,
    front: Seq<Frame>,
    x: Seq<Frame>,
    y: Seq<Frame>,
)
    requires
        rest_of_line(x).len() == rest_of_line(y).len(),
        forall|c: int| #[trigger] layout(width, c, x) == layout(width, c, y),
    ensures
        layout(width, col, front + x) == layout(width, col, front + y),
{
    let (_, c) = lemma_front_same(width, col, front, x, y);
    assert(layout(width, c, x) == layout(width, c, y));
}

// ---------------------------------------------------------------------------
// Nests
// ---------------------------------------------------------------------------

/// Whether no text in `d` has a newline in it, and `d` is nowhere indented by
/// less than nothing or by more than `room` columns.
pub open spec fn steady(d: DocView, room: int) -> bool
    decreases d,
{
    &&& 0 <= room
    &&& match d {
        DocView::Text(s) => forall|i: int| 0 <= i < s.len() ==> #[trigger] s[i] != '\n',
        DocView::Concat(items) => forall|i: int|
            0 <= i < items.len() ==> steady(#[trigger] items[i], room),
        DocView::Nest(j, inner) => 0 <= j && steady(*inner, room - j),
        DocView::Group(inner) => steady(*inner, room),
        DocView::IfBreak { flat, broken } => steady(*flat, room) && steady(*broken, room),
        _ => true,
    }
}

/// `s` with `j` more spaces behind each newline.
pub open spec fn moved_right(s: Seq<char>, j: int) -> Seq<char>
    decreases s.len(),
{
    if s.len() == 0 {
        seq![]
    } else if s.last() == '\n' {
        moved_right(s.drop_last(), j).push('\n') + spaces(j)
    } else {
        moved_right(s.drop_last(), j).push(s.last())
    }
}

pub proof fn lemma_moved_right_add(a: Seq<char>, b: Seq<char>, j: int)
    ensures
        moved_right(a + b, j) == moved_right(a, j) + moved_right(b, j),
    decreases b.len(),
{
    if b.len() == 0 {
        assert(a + b =~= a);
        assert(moved_right(a, j) + moved_right(b, j) =~= moved_right(a, j));
    } else {
        assert((a + b).drop_last() =~= a + b.drop_last());
        lemma_moved_right_add(a, b.drop_last(), j);
        assert(moved_right(a + b, j) =~= moved_right(a, j) + moved_right(b, j));
    }
}

pub proof fn lemma_moved_right_line(s: Seq<char>, j: int)
    requires
        forall|i: int| 0 <= i < s.len() ==> #[trigger] s[i] != '\n',
    ensures
        moved_right(s, j) == s,
    decreases s.len(),
{
    if s.len() > 0 {
        lemma_moved_right_line(s.drop_last(), j);
        assert(s.last() == s[s.len() - 1]);
        assert(s.drop_last().push(s.last()) =~= s);
    }
}

proof fn lemma_moved_right_newline(indent: isize, j: isize)
    requires
        0 <= indent,
        0 <= j,
        indent + j <= isize::MAX,
    ensures
        moved_right(newline(indent), j as int) == newline((indent + j) as isize),
{
    let nl = seq!['\n'];
    let sp = spaces(indent as int);
    lemma_moved_right_add(nl, sp, j as int);
    lemma_moved_right_line(sp, j as int);
    assert(nl.drop_last() =~= seq![]);
    assert(moved_right(nl.drop_last(), j as int) =~= seq![]);
    assert(moved_right(nl, j as int) + sp =~= newline((indent + j) as isize));
}

/// `frames`, each indented by `j` more.
spec fn indented(frames: Seq<Frame>, j: isize) -> Seq<Frame> {
    Seq::new(
        frames.len(),
        |i: int| Frame { indent: (frames[i].indent + j) as isize, ..frames[i] },
    )
}

spec fn all_steady(frames: Seq<Frame>, j: isize) -> bool {
    forall|i: int|
        0 <= i < frames.len() ==> 0 <= (#[trigger] frames[i]).indent && steady(
            frames[i].doc,
            isize::MAX - j - frames[i].indent,
        )
}

proof fn lemma_line_indented(frames: Seq<Frame>, j: isize)
    ensures
        rest_of_line(indented(frames, j)) == rest_of_line(frames),
    decreases frames.len(),
{
    if frames.len() > 0 {
        assert(indented(frames, j).drop_first() =~= indented(frames.drop_first(), j));
        lemma_line_indented(frames.drop_first(), j);
    }
}

proof fn lemma_opened_indented(f: Frame, group_mode: Mode, j: isize)
    requires
        0 <= j,
        all_steady(seq![f], j),
    ensures
        indented(opened(f, group_mode), j) == opened(
            Frame { indent: (f.indent + j) as isize, ..f },
            group_mode,
        ),
        all_steady(opened(f, group_mode), j),
{
    let g = Frame { indent: (f.indent + j) as isize, ..f };
    let o = opened(f, group_mode);
    assert(seq![f][0] == f);
    match f.doc {
        DocView::Nest(k, inner) => {
            reveal_with_fuel(steady, 2);
            assert(f.indent.wrapping_add(k) == f.indent + k);
            assert(g.indent.wrapping_add(k) == f.indent + j + k);
        },
        _ => {},
    }
    assert(indented(o, j) =~= opened(g, group_mode));
}

/// Everything indented by `j` more, for `j` more columns, is the same text moved
/// right.
proof fn lemma_layout_indented(width: int, col: int, frames: Seq<Frame>, j: isize)
    requires
        0 <= j,
        all_steady(frames, j),
    ensures
        layout(width + j, col + j, indented(frames, j)) == moved_right(
            layout(width, col, frames),
            j as int,
        ),
    decreases work(frames),
{
    let all = indented(frames, j);
    if frames.len() > 0 {
        let f = frames[0];
        let rest = frames.drop_first();
        let g = all[0];
        assert(all.drop_first() =~= indented(rest, j));
        assert(all_steady(rest, j)) by {
            assert forall|i: int| 0 <= i < rest.len() implies 0 <= (#[trigger] rest[i]).indent
                && steady(rest[i].doc, isize::MAX - j - rest[i].indent) by {
                assert(rest[i] == frames[i + 1]);
            }
        }
        assert(all_steady(seq![f], j));
        lemma_opened_less(frames, Mode::Flat);
        lemma_opened_less(frames, Mode::Break);
        match f.doc {
            DocView::Nil => {
                lemma_layout_indented(width, col, rest, j);
            },
            DocView::Text(s) => {
                lemma_layout_indented(width, col + s.len(), rest, j);
                lemma_moved_right_add(s, layout(width, col + s.len(), rest), j as int);
                lemma_moved_right_line(s, j as int);
            },
            DocView::Line if f.mode == Mode::Flat => {
                lemma_layout_indented(width, col + 1, rest, j);
                lemma_moved_right_add(seq![' '], layout(width, col + 1, rest), j as int);
                lemma_moved_right_line(seq![' '], j as int);
            },
            DocView::SoftLine if f.mode == Mode::Flat => {
                lemma_layout_indented(width, col, rest, j);
            },
            DocView::Line | DocView::SoftLine | DocView::HardLine => {
                lemma_layout_indented(width, f.indent as int, rest, j);
                lemma_moved_right_add(
                    newline(f.indent),
                    layout(width, f.indent as int, rest),
                    j as int,
                );
                lemma_moved_right_newline(f.indent, j);
            },
            DocView::Group(inner) => {
                assert(frames =~= seq![f] + rest);
                assert(all =~= seq![g] + indented(rest, j));
                lemma_group_mode(width, col, f, rest);
                lemma_group_mode(width + j, col + j, g, indented(rest, j));
                lemma_line_indented(rest, j);
                let flat = one_line(*inner) && flat_text(*inner).len() + rest_of_line(rest).len()
                    <= width - col;
                let mode = if flat {
                    Mode::Flat
                } else {
                    Mode::Break
                };
                lemma_opened_indented(f, mode, j);
                lemma_all_steady_add(opened(f, mode), rest, j);
                lemma_layout_indented(width, col, opened(f, mode) + rest, j);
                assert(opened(f, mode) =~= seq![
                    Frame { indent: f.indent, mode, doc: *inner },
                ]);
                assert(indented(opened(f, mode) + rest, j) =~= seq![
                    Frame { indent: g.indent, mode, doc: *inner },
                ] + indented(rest, j));
            },
            _ => {
                let o = opened(f, Mode::Flat);
                assert(opened(f, Mode::Break) == o);
                assert(opened(g, Mode::Break) == opened(g, Mode::Flat));
                lemma_opened_indented(f, Mode::Flat, j);
                lemma_all_steady_add(o, rest, j);
                lemma_layout_indented(width, col, o + rest, j);
                assert(indented(o + rest, j) =~= opened(g, Mode::Flat) + indented(rest, j));
            },
        }
    }
}

proof fn lemma_all_steady_add(a: Seq<Frame>, b: Seq<Frame>, j: isize)
    requires
        all_steady(a, j),
        all_steady(b, j),
    ensures
        all_steady(a + b, j),
{
    let all = a + b;
    assert forall|i: int| 0 <= i < all.len() implies 0 <= (#[trigger] all[i]).indent && steady(
        all[i].doc,
        isize::MAX - j - all[i].indent,
    ) by {
        if i < a.len() {
            assert(all[i] == a[i]);
        } else {
            assert(all[i] == b[i - a.len()]);
        }
    }
}

/// A document on its own line in a nest of `j` columns is laid out as by itself
/// with `j` columns less, and moved right: `j` more spaces stand behind each
/// newline, whatever the depth.
pub proof fn law_nest_moves_everything_right(width: int, col: int, j: isize, d: DocView)
    requires
        0 <= j,
        steady(d, isize::MAX - j),
    ensures
        layout(
            width + j,
            col,
            seq![
                Frame {
                    indent: 0,
                    mode: Mode::Break,
                    doc: DocView::Nest(
                        j,
                        Box::new(DocView::Concat(seq![DocView::HardLine, d])),
                    ),
                },
            ],
        ) == moved_right(seq!['\n'] + pretty_view(width, d), j as int),
{
    let inside = DocView::Concat(seq![DocView::HardLine, d]);
    let f = Frame { indent: 0, mode: Mode::Break, doc: DocView::Nest(j, Box::new(inside)) };
    let g = Frame { indent: j, mode: Mode::Break, doc: inside };
    let none = Seq::<Frame>::empty();
    assert(0isize.wrapping_add(j) == j);
    assert(seq![f].drop_first() =~= none);
    assert(opened(f, Mode::Flat) + none =~= seq![g]);
    assert(opened(f, Mode::Break) + none =~= seq![g]);
    lemma_nest_body(width, col, j, seq![DocView::HardLine, d], d);
    assert(seq![g].drop_first() =~= none);
    let fs = frames_of(j, Mode::Break, seq![DocView::HardLine, d]);
    assert(opened(g, Mode::Flat) + none =~= fs);
    assert(opened(g, Mode::Break) + none =~= fs);
    assert(layout(width + j, col, seq![f]) == layout(width + j, col, seq![g]));
    assert(layout(width + j, col, seq![g]) == layout(width + j, col, fs));
}

/// A hard line and a document behind it, indented by `j`.
pub proof fn lemma_nest_body(width: int, col: int, j: isize, items: Seq<DocView>, d: DocView)
    requires
        0 <= j,
        steady(d, isize::MAX - j),
        items == seq![DocView::HardLine, d],
    ensures
        layout(width + j, col, frames_of(j, Mode::Break, items)) == moved_right(
            seq!['\n'] + pretty_view(width, d),
            j as int,
        ),
{
    let fs = frames_of(j, Mode::Break, items);
    let b = Frame { indent: 0, mode: Mode::Break, doc: d };
    assert(all_steady(seq![b], j));
    lemma_layout_indented(width, 0, seq![b], j);
    assert(fs.drop_first() =~= indented(seq![b], j));
    assert(fs[0].doc is HardLine);
    let nl = seq!['\n'];
    lemma_moved_right_add(nl, pretty_view(width, d), j as int);
    assert(nl.drop_last() =~= seq![]);
    assert(moved_right(nl.drop_last(), j as int) =~= seq![]);
    assert(moved_right(nl, j as int) =~= newline(j));
}

} // verus!
