//! A width-driven pretty-printing engine.
//!
//! The shell printer builds a [`Doc`] tree from the syntax tree and hands it to
//! [`pretty`], which decides where to break based on a target line width.
//!
//! The algebra:
//! - [`Doc::text`] - literal text (must not contain `\n`).
//! - [`Doc::line`] - a space when flat, a newline when broken.
//! - [`Doc::soft_line`] - nothing when flat, a newline when broken.
//! - [`Doc::hard_line`] - always a newline; forces every enclosing group to break.
//! - [`Doc::concat`] - sequence.
//! - [`Doc::nest`] - indent everything inside by N columns after each newline.
//! - [`Doc::group`] - try flat; fall back to broken if it doesn't fit.
//!
//! Contracts speak of [`DocView`], the mathematical form of a document, and of
//! [`layout`], which says what text a stack of pending documents becomes.

use std::rc::Rc;
use vstd::prelude::*;
use vstd::string::*;
use crate::text::{byte_len, push_str};

verus! {

/// A document to be laid out. Cheap to clone (`Rc`-shared children).
#[derive(Debug)]
pub enum Doc {
    Nil,
    Text(String),
    /// Flat: a space. Broken: a newline.
    Line,
    /// Flat: nothing. Broken: a newline.
    SoftLine,
    /// Always a newline; forces enclosing groups to break.
    HardLine,
    Concat(Rc<Vec<Doc>>),
    Nest(isize, Rc<Doc>),
    Group(Rc<Doc>),
    /// Renders `flat` when the enclosing group is laid out flat, and `broken`
    /// when it is broken. Useful for separators that exist only on one line,
    /// e.g. a `;` between inline statements that vanishes once they wrap.
    IfBreak { flat: Rc<Doc>, broken: Rc<Doc> },
}

/// The mathematical form of a [`Doc`].
pub enum DocView {
    Nil,
    Text(Seq<char>),
    Line,
    SoftLine,
    HardLine,
    Concat(Seq<DocView>),
    Nest(isize, Box<DocView>),
    Group(Box<DocView>),
    IfBreak { flat: Box<DocView>, broken: Box<DocView> },
}

/// `Rc::clone` gives another pointer to the same value, so the clone is equal
/// to the original.
#[verifier::external_body]
fn share<T>(rc: &Rc<T>) -> (res: Rc<T>)
    ensures
        res == *rc,
{
    rc.clone()
}

impl Clone for Doc {
    fn clone(&self) -> (res: Doc)
        ensures
            res@ == self@,
    {
        match self {
            Doc::Nil => Doc::Nil,
            Doc::Text(s) => Doc::Text(s.clone()),
            Doc::Line => Doc::Line,
            Doc::SoftLine => Doc::SoftLine,
            Doc::HardLine => Doc::HardLine,
            Doc::Concat(items) => Doc::Concat(share(items)),
            Doc::Nest(n, d) => Doc::Nest(*n, share(d)),
            Doc::Group(d) => Doc::Group(share(d)),
            Doc::IfBreak { flat, broken } => Doc::IfBreak {
                flat: share(flat),
                broken: share(broken),
            },
        }
    }
}

/// The mathematical forms of a sequence of documents.
pub open spec fn doc_views(docs: Seq<Doc>) -> Seq<DocView> {
    Seq::new(docs.len(), |i: int| docs[i]@)
}

/// The sequence of `docs`: empty documents vanish, and a sequence of one is
/// that one.
pub open spec fn concat_view(docs: Seq<DocView>) -> DocView {
    let kept = docs.filter(|d: DocView| d !is Nil);
    if kept.len() == 0 {
        DocView::Nil
    } else if kept.len() == 1 {
        kept[0]
    } else {
        DocView::Concat(kept)
    }
}

/// `docs` with `sep` between each pair.
pub open spec fn interleave(sep: DocView, docs: Seq<DocView>) -> Seq<DocView>
    decreases docs.len(),
{
    if docs.len() == 0 {
        seq![]
    } else if docs.len() == 1 {
        seq![docs[0]]
    } else {
        interleave(sep, docs.drop_last()).push(sep).push(docs.last())
    }
}

/// The sequence of `docs` with `sep` between each pair.
pub open spec fn join_view(sep: DocView, docs: Seq<DocView>) -> DocView {
    concat_view(interleave(sep, docs))
}

impl Doc {
    pub open spec fn view(&self) -> DocView
        decreases self,
    {
        match self {
            Doc::Nil => DocView::Nil,
            Doc::Text(s) => DocView::Text(s@),
            Doc::Line => DocView::Line,
            Doc::SoftLine => DocView::SoftLine,
            Doc::HardLine => DocView::HardLine,
            Doc::Concat(items) => DocView::Concat(
                Seq::new(
                    items@.len(),
                    |i: int|
                        if 0 <= i < items@.len() {
                            items@[i].view()
                        } else {
                            DocView::Nil
                        },
                ),
            ),
            Doc::Nest(n, d) => DocView::Nest(*n, Box::new(d.view())),
            Doc::Group(d) => DocView::Group(Box::new(d.view())),
            Doc::IfBreak { flat, broken } => DocView::IfBreak {
                flat: Box::new(flat.view()),
                broken: Box::new(broken.view()),
            },
        }
    }

    pub fn text(s: &str) -> (d: Doc)
        ensures
            d@ == DocView::Text(s@),
    {
        Doc::Text(s.to_owned())
    }

    pub fn line() -> (d: Doc)
        ensures
            d@ == DocView::Line,
    {
        Doc::Line
    }

    pub fn soft_line() -> (d: Doc)
        ensures
            d@ == DocView::SoftLine,
    {
        Doc::SoftLine
    }

    pub fn hard_line() -> (d: Doc)
        ensures
            d@ == DocView::HardLine,
    {
        Doc::HardLine
    }

    /// The documents one after the other.
    pub fn concat(docs: Vec<Doc>) -> (d: Doc)
        ensures
            d@ == concat_view(doc_views(docs@)),
    {
        let ghost all = doc_views(docs@);
        let ghost keep = |d: DocView| d !is Nil;
        let mut kept: Vec<Doc> = Vec::new();
        for d in it: docs
            invariant
                it.seq() == docs@,
                all == doc_views(docs@),
                keep == (|d: DocView| d !is Nil),
                doc_views(kept@) == all.take(it.index() as int).filter(keep),
        {
            proof {
                let k = it.index() as int;
                assert(all.take(k + 1) =~= all.take(k).push(all[k]));
                all.take(k).lemma_filter_push(all[k], keep);
                assert(doc_views(kept@.push(d)) =~= doc_views(kept@).push(d@));
            }
            match d {
                Doc::Nil => {},
                _ => kept.push(d),
            }
        }
        assert(all.take(all.len() as int) =~= all);
        assert(doc_views(kept@) == all.filter(keep));
        if kept.len() == 0 {
            Doc::Nil
        } else if kept.len() == 1 {
            let only = kept.pop();
            match only {
                Some(d) => d,
                None => Doc::Nil,
            }
        } else {
            let d = Doc::Concat(Rc::new(kept));
            assert(d@ == DocView::Concat(doc_views(kept@))) by {
                assert(d@->Concat_0 =~= doc_views(kept@));
            }
            d
        }
    }

    pub fn nest(indent: isize, doc: Doc) -> (d: Doc)
        ensures
            d@ == DocView::Nest(indent, Box::new(doc@)),
    {
        Doc::Nest(indent, Rc::new(doc))
    }

    pub fn group(doc: Doc) -> (d: Doc)
        ensures
            d@ == DocView::Group(Box::new(doc@)),
    {
        Doc::Group(Rc::new(doc))
    }

    /// `flat` when the enclosing group is flat, `broken` when it breaks.
    pub fn if_break(broken: Doc, flat: Doc) -> (d: Doc)
        ensures
            d@ == (DocView::IfBreak { flat: Box::new(flat@), broken: Box::new(broken@) }),
    {
        Doc::IfBreak { flat: Rc::new(flat), broken: Rc::new(broken) }
    }

    /// Join `docs` with `sep` between each pair.
    pub fn join(sep: Doc, docs: Vec<Doc>) -> (d: Doc)
        ensures
            d@ == join_view(sep@, doc_views(docs@)),
    {
        let ghost all = doc_views(docs@);
        let mut out: Vec<Doc> = Vec::new();
        let mut first: bool = true;
        for d in it: docs
            invariant
                it.seq() == docs@,
                all == doc_views(docs@),
                first == (it.index() == 0),
                doc_views(out@) == interleave(sep@, all.take(it.index() as int)),
        {
            let ghost before = out@;
            let ghost k = it.index() as int;
            if !first {
                out.push(sep.clone());
            }
            out.push(d);
            first = false;
            proof {
                let done = all.take(k + 1);
                assert(done.drop_last() =~= all.take(k));
                assert(done.last() == d@);
                if k == 0 {
                    assert(doc_views(out@) =~= seq![d@]);
                } else {
                    assert(doc_views(out@) =~= doc_views(before).push(sep@).push(d@));
                }
            }
        }
        assert(all.take(all.len() as int) =~= all);
        Doc::concat(out)
    }
}

// ---------------------------------------------------------------------------
// What a layout is
// ---------------------------------------------------------------------------

/// How the enclosing group is laid out.
#[derive(Debug, Clone, Copy, PartialEq, Eq, Structural)]
pub enum Mode {
    Flat,
    Break,
}

/// A document waiting to be laid out, with the indentation and the mode it is
/// under.
pub struct Frame {
    pub indent: isize,
    pub mode: Mode,
    pub doc: DocView,
}

/// One frame per document, all under the same indentation and mode.
pub open spec fn frames_of(indent: isize, mode: Mode, docs: Seq<DocView>) -> Seq<Frame> {
    Seq::new(docs.len(), |i: int| Frame { indent, mode, doc: docs[i] })
}

/// The number of nodes of a document.
pub open spec fn size(d: DocView) -> nat
    decreases d,
{
    match d {
        DocView::Concat(items) => 1 + sizes(items),
        DocView::Nest(_, inner) => 1 + size(*inner),
        DocView::Group(inner) => 1 + size(*inner),
        DocView::IfBreak { flat, broken } => 1 + size(*flat) + size(*broken),
        _ => 1,
    }
}

/// The number of nodes of a sequence of documents.
pub open spec fn sizes(docs: Seq<DocView>) -> nat
    decreases docs,
{
    if docs.len() == 0 {
        0
    } else {
        size(docs[0]) + sizes(docs.drop_first())
    }
}

/// The number of nodes still to be laid out.
pub open spec fn work(frames: Seq<Frame>) -> nat
    decreases frames.len(),
{
    if frames.len() == 0 {
        0
    } else {
        size(frames[0].doc) + work(frames.drop_first())
    }
}

/// Work adds up over concatenation.
pub proof fn lemma_work_add(a: Seq<Frame>, b: Seq<Frame>)
    ensures
        work(a + b) == work(a) + work(b),
    decreases a.len(),
{
    if a.len() == 0 {
        assert(a + b =~= b);
    } else {
        assert((a + b).drop_first() =~= a.drop_first() + b);
        lemma_work_add(a.drop_first(), b);
    }
}

/// The work in the frames of a sequence is the size of the sequence.
pub proof fn lemma_work_frames_of(indent: isize, mode: Mode, docs: Seq<DocView>)
    ensures
        work(frames_of(indent, mode, docs)) == sizes(docs),
    decreases docs.len(),
{
    let fs = frames_of(indent, mode, docs);
    if docs.len() > 0 {
        assert(fs.drop_first() =~= frames_of(indent, mode, docs.drop_first()));
        lemma_work_frames_of(indent, mode, docs.drop_first());
    }
}

/// The frames that replace the frame `f` when its document is opened up: the
/// items of a sequence, the inside of a nest, the chosen branch of an
/// `IfBreak`. `group_mode` is the mode that a group is laid out in.
pub open spec fn opened(f: Frame, group_mode: Mode) -> Seq<Frame> {
    match f.doc {
        DocView::Concat(items) => frames_of(f.indent, f.mode, items),
        DocView::Nest(j, inner) => seq![
            Frame { indent: f.indent.wrapping_add(j), mode: f.mode, doc: *inner },
        ],
        DocView::Group(inner) => seq![Frame { indent: f.indent, mode: group_mode, doc: *inner }],
        DocView::IfBreak { flat, broken } => seq![
            Frame {
                indent: f.indent,
                mode: f.mode,
                doc: if f.mode == Mode::Flat {
                    *flat
                } else {
                    *broken
                },
            },
        ],
        _ => seq![],
    }
}

/// Opening a frame leaves less work.
pub proof fn lemma_opened_less(frames: Seq<Frame>, group_mode: Mode)
    requires
        frames.len() > 0,
    ensures
        work(opened(frames[0], group_mode) + frames.drop_first()) < work(frames),
        work(frames.drop_first()) < work(frames),
{
    let f = frames[0];
    let o = opened(f, group_mode);
    lemma_work_add(o, frames.drop_first());
    match f.doc {
        DocView::Concat(items) => {
            lemma_work_frames_of(f.indent, f.mode, items);
        },
        _ => {
            if o.len() == 1 {
                assert(o.drop_first() =~= seq![]);
                assert(work(o) == size(o[0].doc) + work(o.drop_first()));
            }
        },
    }
}

/// Whether `d` contains a hard line anywhere, in either branch of an `IfBreak`
/// too. Such a document never lies flat, so any enclosing group is forced to
/// break.
pub open spec fn has_hard(d: DocView) -> bool
    decreases d,
{
    match d {
        DocView::HardLine => true,
        DocView::Concat(items) => exists|i: int|
            0 <= i < items.len() && has_hard(#[trigger] items[i]),
        DocView::Nest(_, inner) => has_hard(*inner),
        DocView::Group(inner) => has_hard(*inner),
        DocView::IfBreak { flat, broken } => has_hard(*flat) || has_hard(*broken),
        _ => false,
    }
}

/// Whether the text of `frames` up to the first newline takes at most
/// `remaining` columns, groups being laid out flat.
pub open spec fn fits_in(remaining: int, frames: Seq<Frame>) -> bool
    decreases work(frames),
{
    if remaining < 0 {
        false
    } else if frames.len() == 0 {
        true
    } else {
        let f = frames[0];
        let rest = frames.drop_first();
        proof {
            lemma_opened_less(frames, Mode::Flat);
        }
        match f.doc {
            DocView::Nil => fits_in(remaining, rest),
            DocView::Text(s) => fits_in(remaining - s.len(), rest),
            DocView::Line => f.mode == Mode::Break || fits_in(remaining - 1, rest),
            DocView::SoftLine => f.mode == Mode::Break || fits_in(remaining, rest),
            DocView::HardLine => true,
            _ => fits_in(remaining, opened(f, Mode::Flat) + rest),
        }
    }
}

/// A newline followed by `indent` spaces (none if `indent` is negative).
pub open spec fn newline(indent: isize) -> Seq<char> {
    seq!['\n'] + spaces(indent as int)
}

/// `n` spaces (none if `n` is negative).
pub open spec fn spaces(n: int) -> Seq<char> {
    Seq::new(
        if n > 0 {
            n as nat
        } else {
            0
        },
        |i: int| ' ',
    )
}

/// The text that `frames` become when laid out one after the other, from
/// column `col` on, for `width` columns. A group lies flat if it contains no
/// hard line and the line it stands on fits; otherwise it breaks.
pub open spec fn layout(width: int, col: int, frames: Seq<Frame>) -> Seq<char>
    decreases work(frames),
{
    if frames.len() == 0 {
        seq![]
    } else {
        let f = frames[0];
        let rest = frames.drop_first();
        let flat = seq![Frame { indent: f.indent, mode: Mode::Flat, doc: *f.doc->Group_0 }];
        let group_mode = if !has_hard(*f.doc->Group_0) && fits_in(width - col, flat + rest) {
            Mode::Flat
        } else {
            Mode::Break
        };
        proof {
            lemma_opened_less(frames, group_mode);
        }
        match f.doc {
            DocView::Nil => layout(width, col, rest),
            DocView::Text(s) => s + layout(width, col + s.len(), rest),
            DocView::Line if f.mode == Mode::Flat => seq![' '] + layout(width, col + 1, rest),
            DocView::SoftLine if f.mode == Mode::Flat => layout(width, col, rest),
            DocView::Line | DocView::SoftLine | DocView::HardLine => newline(f.indent) + layout(
                width,
                f.indent as int,
                rest,
            ),
            _ => layout(width, col, opened(f, group_mode) + rest),
        }
    }
}

/// The layout of a whole document.
pub open spec fn pretty_view(width: int, doc: DocView) -> Seq<char> {
    layout(width, 0, seq![Frame { indent: 0, mode: Mode::Break, doc }])
}

// ---------------------------------------------------------------------------
// The engine
// ---------------------------------------------------------------------------

/// The frames on a work stack, whose top is its last entry.
spec fn frames(stack: Seq<(isize, Mode, &Doc)>) -> Seq<Frame> {
    Seq::new(
        stack.len(),
        |k: int|
            {
                let (indent, mode, doc) = stack[stack.len() - 1 - k];
                Frame { indent, mode, doc: doc@ }
            },
    )
}

/// The top of a work stack is its first frame, and popping drops it.
proof fn lemma_frames_pop(stack: Seq<(isize, Mode, &Doc)>)
    requires
        stack.len() > 0,
    ensures
        frames(stack).drop_first() == frames(stack.subrange(0, stack.len() - 1)),
        frames(stack)[0] == (Frame {
            indent: stack.last().0,
            mode: stack.last().1,
            doc: stack.last().2@,
        }),
{
    assert(frames(stack).drop_first() =~= frames(stack.subrange(0, stack.len() - 1)));
}

/// Whether `doc` contains a hard line anywhere in its subtree. Such a doc can
/// never lie flat, so any enclosing group is forced to break. We recurse through
/// groups too, since a hard line inside a nested group still breaks every
/// ancestor.
fn contains_hard(doc: &Doc) -> (yes: bool)
    ensures
        yes == has_hard(doc@),
    decreases doc,
{
    match doc {
        Doc::HardLine => true,
        Doc::Concat(items) => {
            let mut i: usize = 0;
            while i < items.len()
                invariant
                    i <= items@.len(),
                    doc@->Concat_0.len() == items@.len(),
                    forall|k: int| 0 <= k < items@.len() ==> #[trigger] doc@->Concat_0[k] == items@[k]@,
                    doc@ is Concat,
                    decreases_to!(doc => items),
                    forall|k: int| 0 <= k < i ==> !has_hard(#[trigger] doc@->Concat_0[k]),
                decreases items@.len() - i,
            {
                if contains_hard(&items[i]) {
                    assert(has_hard(doc@->Concat_0[i as int]));
                    return true;
                }
                i += 1;
            }
            false
        },
        Doc::Nest(_, inner) => contains_hard(inner),
        Doc::Group(inner) => contains_hard(inner),
        Doc::IfBreak { flat, broken } => contains_hard(flat) || contains_hard(broken),
        _ => false,
    }
}

/// Push the items of a sequence so that the first is popped first.
fn push_items<'a>(
    stack: &mut Vec<(isize, Mode, &'a Doc)>,
    indent: isize,
    mode: Mode,
    items: &'a Vec<Doc>,
)
    ensures
        frames(final(stack)@) == frames_of(indent, mode, doc_views(items@)) + frames(old(stack)@),
{
    let ghost before = stack@;
    let mut i: usize = items.len();
    while i > 0
        invariant
            i <= items@.len(),
            frames(stack@) == frames_of(indent, mode, doc_views(items@).skip(i as int)) + frames(
                before,
            ),
        decreases i,
    {
        i -= 1;
        let ghost was = stack@;
        stack.push((indent, mode, &items[i]));
        proof {
            lemma_frames_pop(stack@);
            assert(stack@.subrange(0, stack@.len() - 1) =~= was);
            let views = doc_views(items@);
            assert(frames(stack@) =~= seq![frames(stack@)[0]] + frames(was));
            assert(frames_of(indent, mode, views.skip(i as int)) =~= seq![frames(stack@)[0]]
                + frames_of(indent, mode, views.skip(i + 1)));
            assert(frames(stack@) =~= frames_of(indent, mode, views.skip(i as int)) + frames(
                before,
            ));
        }
    }
    assert(doc_views(items@).skip(0) =~= doc_views(items@));
}

/// The pending frames of the measurement in [`fits`]: its own stack, then what
/// is left of the layout's work stack below.
spec fn pending(
    stack: Seq<(isize, Mode, &Doc)>,
    rest: Seq<(isize, Mode, &Doc)>,
    k: int,
) -> Seq<Frame> {
    frames(stack) + frames(rest.take(k))
}

/// Whether the flat layout of `first` fits within `width` columns, stopping
/// at the first newline that ends the current line. `rest` is the layout work
/// stack, which is processed from its top (back) to its front, so we look ahead
/// past `first` in that order.
#[verifier::rlimit(60)]
fn fits(width: i128, indent: isize, first: &Doc, rest: &Vec<(isize, Mode, &Doc)>) -> (yes: bool)
    requires
        -0x1_0000_0000_0000_0000_0000 < width < 0x1_0000_0000_0000_0000_0000,
    ensures
        yes == fits_in(
            width as int,
            seq![Frame { indent, mode: Mode::Flat, doc: first@ }] + frames(rest@),
        ),
{
    let ghost want = fits_in(
        width as int,
        seq![Frame { indent, mode: Mode::Flat, doc: first@ }] + frames(rest@),
    );
    let mut remaining: i128 = width;
    // A small explicit stack so deep docs don't blow the call stack.
    let mut stack: Vec<(isize, Mode, &Doc)> = Vec::new();
    stack.push((indent, Mode::Flat, first));
    let mut k: usize = rest.len();
    proof {
        assert(rest@.take(rest@.len() as int) =~= rest@);
        assert(pending(stack@, rest@, k as int) =~= seq![
            Frame { indent, mode: Mode::Flat, doc: first@ },
        ] + frames(rest@));
    }
    loop
        invariant
            k <= rest@.len(),
            -0x1_0000_0000_0000_0000_0000 < remaining < 0x1_0000_0000_0000_0000_0000,
            want == fits_in(
                width as int,
                seq![Frame { indent, mode: Mode::Flat, doc: first@ }] + frames(rest@),
            ),
            want == fits_in(remaining as int, pending(stack@, rest@, k as int)),
        decreases work(pending(stack@, rest@, k as int)),
    {
        let ghost all = pending(stack@, rest@, k as int);
        if remaining < 0 {
            return false;
        }
        let (ind, mode, doc): (isize, Mode, &Doc) = match stack.pop() {
            Some(x) => {
                proof {
                    let was = stack@.push(x);
                    lemma_frames_pop(was);
                    assert(was.subrange(0, was.len() - 1) =~= stack@);
                    assert(all.drop_first() =~= frames(stack@) + frames(rest@.take(k as int)));
                }
                x
            },
            None => {
                if k == 0 {
                    assert(all =~= seq![]);
                    return true;
                }
                k -= 1;
                proof {
                    let was = rest@.take(k + 1);
                    lemma_frames_pop(was);
                    assert(was.subrange(0, was.len() - 1) =~= rest@.take(k as int));
                    assert(all =~= frames(was));
                    assert(all.drop_first() =~= frames(stack@) + frames(rest@.take(k as int)));
                }
                rest[k]
            },
        };
        let ghost f = Frame { indent: ind, mode, doc: doc@ };
        proof {
            assert(all[0] == f);
            assert(all.drop_first() == pending(stack@, rest@, k as int));
            lemma_opened_less(all, Mode::Flat);
        }
        let ghost popped = stack@;
        match doc {
            Doc::Nil => {},
            Doc::Text(s) => {
                let n: usize = s.unicode_len();
                remaining -= n as i128;
            },
            Doc::Line => match mode {
                Mode::Flat => remaining -= 1,  // a space
                Mode::Break => return true,  // newline ends the line: it fits
            },
            Doc::SoftLine => match mode {
                Mode::Flat => {},
                Mode::Break => return true,
            },
            // A hard line ends the current line, so everything measured so far
            // fits.
            Doc::HardLine => return true,
            Doc::Concat(items) => {
                push_items(&mut stack, ind, mode, items);
                proof {
                    assert(doc@->Concat_0 =~= doc_views(items@));
                    assert(pending(stack@, rest@, k as int) =~= opened(f, Mode::Flat)
                        + all.drop_first());
                }
            },
            Doc::Nest(j, inner) => {
                stack.push((ind.wrapping_add(*j), mode, inner));
                proof {
                    lemma_frames_push(popped, stack@.last());
                    assert(pending(stack@, rest@, k as int) =~= opened(f, Mode::Flat)
                        + all.drop_first());
                }
            },
            // Groups inside a flat context stay flat.
            Doc::Group(inner) => {
                stack.push((ind, Mode::Flat, inner));
                proof {
                    lemma_frames_push(popped, stack@.last());
                    assert(pending(stack@, rest@, k as int) =~= opened(f, Mode::Flat)
                        + all.drop_first());
                }
            },
            Doc::IfBreak { flat, broken } => {
                let chosen: &Doc = match mode {
                    Mode::Flat => flat,
                    Mode::Break => broken,
                };
                stack.push((ind, mode, chosen));
                proof {
                    lemma_frames_push(popped, stack@.last());
                    assert(pending(stack@, rest@, k as int) =~= opened(f, Mode::Flat)
                        + all.drop_first());
                }
            },
        }
    }
}

/// Pushing an entry puts its frame in front.
proof fn lemma_frames_push(stack: Seq<(isize, Mode, &Doc)>, top: (isize, Mode, &Doc))
    ensures
        frames(stack.push(top)) == seq![Frame { indent: top.0, mode: top.1, doc: top.2@ }] + frames(
            stack,
        ),
{
    assert(frames(stack.push(top)) =~= seq![
        Frame { indent: top.0, mode: top.1, doc: top.2@ },
    ] + frames(stack));
}

/// Start a new line indented by `indent` spaces.
fn push_newline(out: &mut String, indent: isize)
    ensures
        final(out)@ == old(out)@ + newline(indent),
{
    out.push('\n');
    let mut i: isize = 0;
    while i < indent
        invariant
            0 <= i,
            indent >= 0 ==> i <= indent,
            indent < 0 ==> i == 0,
            out@ == old(out)@.push('\n') + spaces(i as int),
        decreases indent - i,
    {
        out.push(' ');
        i += 1;
        assert(spaces(i as int) =~= spaces(i - 1).push(' '));
    }
    assert(spaces(i as int) =~= spaces(indent as int));
}

/// Lay out `doc` targeting `width` columns. Returns the formatted string.
pub fn pretty(width: isize, doc: &Doc) -> (out: String)
    ensures
        out@ == pretty_view(width as int, doc@),
{
    let ghost want = pretty_view(width as int, doc@);
    let mut out = String::new();
    let mut col: i128 = 0;
    // Work stack of (indent, mode, doc); processed LIFO, so children are pushed
    // in reverse order.
    let mut stack: Vec<(isize, Mode, &Doc)> = Vec::new();
    stack.push((0, Mode::Break, doc));
    proof {
        assert(frames(stack@) =~= seq![Frame { indent: 0, mode: Mode::Break, doc: doc@ }]);
    }
    while stack.len() > 0
        invariant
            want == out@ + layout(width as int, col as int, frames(stack@)),
            isize::MIN <= col <= isize::MAX + out@.len(),
            out@.len() <= usize::MAX,
        decreases work(frames(stack@)),
    {
        let ghost all = frames(stack@);
        proof {
            lemma_frames_pop(stack@);
        }
        let top = stack.pop();
        let (indent, mode, doc): (isize, Mode, &Doc) = match top {
            Some(x) => x,
            None => (0, Mode::Flat, doc),
        };
        let ghost f = Frame { indent, mode, doc: doc@ };
        let ghost popped = stack@;
        proof {
            assert(all[0] == f);
            assert(all.drop_first() == frames(stack@));
            lemma_opened_less(all, Mode::Flat);
            lemma_opened_less(all, Mode::Break);
        }
        match doc {
            Doc::Nil => {},
            Doc::Text(s) => {
                let n: usize = s.unicode_len();
                push_str(&mut out, s);
                col += n as i128;
                assert(want =~= out@ + layout(width as int, col as int, frames(stack@)));
            },
            Doc::Line => match mode {
                Mode::Flat => {
                    out.push(' ');
                    col += 1;
                    assert(want =~= out@ + layout(width as int, col as int, frames(stack@)));
                },
                Mode::Break => {
                    push_newline(&mut out, indent);
                    col = indent as i128;
                    assert(want =~= out@ + layout(width as int, col as int, frames(stack@)));
                },
            },
            Doc::SoftLine => match mode {
                Mode::Flat => {},
                Mode::Break => {
                    push_newline(&mut out, indent);
                    col = indent as i128;
                    assert(want =~= out@ + layout(width as int, col as int, frames(stack@)));
                },
            },
            Doc::HardLine => {
                push_newline(&mut out, indent);
                col = indent as i128;
                assert(want =~= out@ + layout(width as int, col as int, frames(stack@)));
            },
            Doc::Concat(items) => {
                push_items(&mut stack, indent, mode, items);
                assert(doc@->Concat_0 =~= doc_views(items@));
            },
            Doc::Nest(j, inner) => {
                stack.push((indent.wrapping_add(*j), mode, inner));
                proof {
                    lemma_frames_push(popped, stack@.last());
                }
            },
            Doc::Group(inner) => {
                // A group that contains a hard line must break (break
                // propagation); otherwise try it flat and fall back to broken if
                // it doesn't fit the remaining width (looking ahead too).
                let group_mode: Mode = if contains_hard(inner) {
                    Mode::Break
                } else if fits(width as i128 - col, indent, inner, &stack) {
                    Mode::Flat
                } else {
                    Mode::Break
                };
                stack.push((indent, group_mode, inner));
                proof {
                    lemma_frames_push(popped, stack@.last());
                }
            },
            Doc::IfBreak { flat, broken } => {
                let chosen: &Doc = match mode {
                    Mode::Flat => flat,
                    Mode::Break => broken,
                };
                stack.push((indent, mode, chosen));
                proof {
                    lemma_frames_push(popped, stack@.last());
                }
            },
        }
        // The output lives in memory, so the column stays in range.
        let _bytes: usize = byte_len(&out);
    }
    assert(layout(width as int, col as int, frames(stack@)) =~= seq![]);
    out
}

// ---------------------------------------------------------------------------
// Laws
// ---------------------------------------------------------------------------

/// Whether `d` lies on one line when it is flat: no hard line is in it.
pub open spec fn one_line(d: DocView) -> bool
    decreases d,
{
    match d {
        DocView::HardLine => false,
        DocView::Concat(items) => forall|i: int|
            0 <= i < items.len() ==> one_line(#[trigger] items[i]),
        DocView::Nest(_, inner) => one_line(*inner),
        DocView::Group(inner) => one_line(*inner),
        DocView::IfBreak { flat, broken } => one_line(*flat) && one_line(*broken),
        _ => true,
    }
}

/// The text of `d` when it is flat.
pub open spec fn flat_text(d: DocView) -> Seq<char>
    decreases d, 0int,
{
    match d {
        DocView::Text(s) => s,
        DocView::Line => seq![' '],
        DocView::Concat(items) => flat_texts(items),
        DocView::Nest(_, inner) => flat_text(*inner),
        DocView::Group(inner) => flat_text(*inner),
        DocView::IfBreak { flat, .. } => flat_text(*flat),
        _ => seq![],
    }
}

/// The texts of `docs` when they are flat, one after the other.
pub open spec fn flat_texts(docs: Seq<DocView>) -> Seq<char>
    decreases docs, 0int,
{
    if docs.len() == 0 {
        seq![]
    } else {
        flat_text(docs[0]) + flat_texts(docs.drop_first())
    }
}

/// Whether all of `frames` are flat and lie on one line.
spec fn all_flat(frames: Seq<Frame>) -> bool {
    forall|i: int|
        0 <= i < frames.len() ==> (#[trigger] frames[i]).mode == Mode::Flat && one_line(
            frames[i].doc,
        )
}

/// The documents of `frames`.
spec fn docs_of(frames: Seq<Frame>) -> Seq<DocView> {
    Seq::new(frames.len(), |i: int| frames[i].doc)
}

proof fn lemma_flat_single(d: DocView)
    ensures
        flat_texts(seq![d]) == flat_text(d),
{
    let none = Seq::<DocView>::empty();
    assert(seq![d].drop_first() =~= none);
    assert(flat_texts(none) =~= seq![]);
    assert(flat_text(d) + flat_texts(none) =~= flat_text(d));
}

proof fn lemma_flat_texts_add(a: Seq<DocView>, b: Seq<DocView>)
    ensures
        flat_texts(a + b) == flat_texts(a) + flat_texts(b),
    decreases a.len(),
{
    if a.len() == 0 {
        assert(a + b =~= b);
        assert(flat_texts(a) + flat_texts(b) =~= flat_texts(b));
    } else {
        assert((a + b).drop_first() =~= a.drop_first() + b);
        lemma_flat_texts_add(a.drop_first(), b);
        assert(flat_texts(a + b) =~= flat_texts(a) + flat_texts(b));
    }
}

/// Opening a flat frame keeps its text.
proof fn lemma_opened_flat(f: Frame)
    requires
        f.mode == Mode::Flat,
        one_line(f.doc),
    ensures
        all_flat(opened(f, Mode::Flat)),
        f.doc is Concat || f.doc is Nest || f.doc is Group || f.doc is IfBreak ==> flat_texts(
            docs_of(opened(f, Mode::Flat)),
        ) == flat_text(f.doc),
{
    let o = opened(f, Mode::Flat);
    match f.doc {
        DocView::Concat(items) => {
            assert(docs_of(o) =~= items);
        },
        _ => {
            if o.len() == 1 {
                assert(docs_of(o) =~= seq![o[0].doc]);
                lemma_flat_single(o[0].doc);
            }
        },
    }
}

/// The first of several flat frames, opened.
proof fn lemma_flat_frames(frames: Seq<Frame>)
    requires
        frames.len() > 0,
        all_flat(frames),
    ensures
        all_flat(frames.drop_first()),
        all_flat(opened(frames[0], Mode::Flat) + frames.drop_first()),
        flat_texts(docs_of(frames)) == flat_text(frames[0].doc) + flat_texts(
            docs_of(frames.drop_first()),
        ),
        ({
            let d = frames[0].doc;
            d is Concat || d is Nest || d is Group || d is IfBreak
        }) ==> flat_texts(docs_of(opened(frames[0], Mode::Flat) + frames.drop_first()))
            == flat_texts(docs_of(frames)),
{
    let f = frames[0];
    let rest = frames.drop_first();
    let o = opened(f, Mode::Flat);
    lemma_opened_flat(f);
    assert(docs_of(frames).drop_first() =~= docs_of(rest));
    assert(docs_of(o + rest) =~= docs_of(o) + docs_of(rest));
    lemma_flat_texts_add(docs_of(o), docs_of(rest));
    assert forall|i: int| 0 <= i < rest.len() implies (#[trigger] rest[i]).mode == Mode::Flat
        && one_line(rest[i].doc) by {
        assert(rest[i] == frames[i + 1]);
    }
    let all = o + rest;
    assert forall|i: int| 0 <= i < all.len() implies (#[trigger] all[i]).mode == Mode::Flat
        && one_line(all[i].doc) by {
        if i >= o.len() {
            assert(all[i] == rest[i - o.len()]);
        }
    }
}

/// What is flat fits if its text is short enough.
proof fn lemma_flat_fits(remaining: int, frames: Seq<Frame>)
    requires
        all_flat(frames),
    ensures
        fits_in(remaining, frames) == (flat_texts(docs_of(frames)).len() <= remaining),
    decreases work(frames),
{
    if remaining >= 0 && frames.len() > 0 {
        lemma_flat_frames(frames);
        lemma_opened_less(frames, Mode::Flat);
        let rest = frames.drop_first();
        match frames[0].doc {
            DocView::Nil | DocView::SoftLine => {
                lemma_flat_fits(remaining, rest);
            },
            DocView::Text(s) => {
                lemma_flat_fits(remaining - s.len(), rest);
            },
            DocView::Line => {
                lemma_flat_fits(remaining - 1, rest);
            },
            DocView::HardLine => {},
            _ => {
                lemma_flat_fits(remaining, opened(frames[0], Mode::Flat) + rest);
            },
        }
    } else if frames.len() == 0 {
        assert(docs_of(frames) =~= seq![]);
    }
}

/// One line has no hard line in it.
proof fn lemma_one_line_not_hard(d: DocView)
    requires
        one_line(d),
    ensures
        !has_hard(d),
    decreases d,
{
    match d {
        DocView::Concat(items) => {
            if has_hard(d) {
                let i = choose|i: int| 0 <= i < items.len() && has_hard(#[trigger] items[i]);
                lemma_one_line_not_hard(items[i]);
            }
        },
        DocView::Nest(_, inner) => {
            lemma_one_line_not_hard(*inner);
        },
        DocView::Group(inner) => {
            lemma_one_line_not_hard(*inner);
        },
        DocView::IfBreak { flat, broken } => {
            lemma_one_line_not_hard(*flat);
            lemma_one_line_not_hard(*broken);
        },
        _ => {},
    }
}

/// What is flat and fits is laid out as its flat text.
proof fn lemma_flat_layout(width: int, col: int, frames: Seq<Frame>)
    requires
        all_flat(frames),
        flat_texts(docs_of(frames)).len() <= width - col,
    ensures
        layout(width, col, frames) == flat_texts(docs_of(frames)),
    decreases work(frames),
{
    if frames.len() == 0 {
        assert(docs_of(frames) =~= seq![]);
    } else {
        let f = frames[0];
        let rest = frames.drop_first();
        lemma_flat_frames(frames);
        lemma_opened_less(frames, Mode::Flat);
        match f.doc {
            DocView::Nil | DocView::SoftLine => {
                lemma_flat_layout(width, col, rest);
                assert(layout(width, col, frames) =~= flat_texts(docs_of(frames)));
            },
            DocView::Text(s) => {
                lemma_flat_layout(width, col + s.len(), rest);
            },
            DocView::Line => {
                lemma_flat_layout(width, col + 1, rest);
            },
            DocView::HardLine => {},
            DocView::Group(inner) => {
                let flat = seq![Frame { indent: f.indent, mode: Mode::Flat, doc: *inner }];
                assert(opened(f, Mode::Flat) =~= flat);
                lemma_one_line_not_hard(*inner);
                lemma_flat_fits(width - col, flat + rest);
                lemma_flat_layout(width, col, flat + rest);
            },
            _ => {
                assert(opened(f, Mode::Break) == opened(f, Mode::Flat));
                lemma_flat_layout(width, col, opened(f, Mode::Flat) + rest);
            },
        }
    }
}

/// A group that fits lies on one line: it is laid out as its flat text.
pub proof fn law_group_that_fits_is_flat(width: int, d: DocView)
    requires
        one_line(d),
        flat_text(d).len() <= width,
    ensures
        pretty_view(width, DocView::Group(Box::new(d))) == flat_text(d),
{
    let f = Frame { indent: 0, mode: Mode::Break, doc: DocView::Group(Box::new(d)) };
    let flat = seq![Frame { indent: 0, mode: Mode::Flat, doc: d }];
    let none = Seq::<Frame>::empty();
    assert(seq![f].drop_first() =~= none);
    assert(flat + none =~= flat);
    assert(docs_of(flat) =~= seq![d]);
    lemma_flat_single(d);
    lemma_one_line_not_hard(d);
    lemma_flat_fits(width, flat);
    lemma_flat_layout(width, 0, flat);
}

/// A group that does not fit breaks: it is laid out like what is in it, outside
/// of any group. So does a group with a hard line anywhere in it, however short
/// it is.
pub proof fn law_group_that_does_not_fit_breaks(width: int, d: DocView)
    requires
        has_hard(d) || (one_line(d) && flat_text(d).len() > width),
    ensures
        pretty_view(width, DocView::Group(Box::new(d))) == pretty_view(width, d),
{
    let f = Frame { indent: 0, mode: Mode::Break, doc: DocView::Group(Box::new(d)) };
    let flat = seq![Frame { indent: 0, mode: Mode::Flat, doc: d }];
    let broken = seq![Frame { indent: 0, mode: Mode::Break, doc: d }];
    let none = Seq::<Frame>::empty();
    assert(seq![f].drop_first() =~= none);
    assert(flat + none =~= flat);
    assert(broken + none =~= broken);
    assert(docs_of(flat) =~= seq![d]);
    lemma_flat_single(d);
    if !has_hard(d) {
        lemma_flat_fits(width, flat);
    }
}

} // verus!
