//! What texts a document can become.
//!
//! Which groups lie flat depends on the width, and the indentation on the
//! nesting. [`laid`] leaves both open: it says that a stretch of bytes is the
//! document under *some* choice of broken groups and of indentation. Whatever
//! holds of all such stretches holds of every layout, at every width.

use vstd::prelude::*;
use vstd::utf8::*;
use crate::ascii;
use crate::doc::{DocView, Frame, Mode, concat_view, fits_in, frames_of, has_hard, layout,
    lemma_opened_less, newline, opened, pretty_view, spaces, work};
use crate::text::lemma_encode_add;

verus! {

/// Whether the bytes `text` stand in `b` from `p` up to `q`.
pub open spec fn holds(b: Seq<u8>, text: Seq<u8>, p: int, q: int) -> bool {
    &&& 0 <= p <= q <= b.len()
    &&& q - p == text.len()
    &&& forall|k: int| p <= k < q ==> #[trigger] b[k] == text[k - p]
}

/// Whether `p..q` is a newline and the indentation behind it.
pub open spec fn line_break(b: Seq<u8>, p: int, q: int) -> bool {
    &&& 0 <= p < q <= b.len()
    &&& b[p] == ascii::NEWLINE
    &&& forall|k: int| p < k < q ==> #[trigger] b[k] == ascii::SPACE
}

/// Whether `p..q` is `d`, in a group that is laid out in `mode`, under some
/// choice for the groups inside and for the indentation.
pub open spec fn laid(b: Seq<u8>, d: DocView, mode: Mode, p: int, q: int) -> bool
    decreases d, 0int,
{
    &&& 0 <= p <= q <= b.len()
    &&& match d {
        DocView::Nil => p == q,
        DocView::Text(s) => holds(b, encode_utf8(s), p, q),
        DocView::Line => if mode == Mode::Flat {
            q == p + 1 && b[p] == ascii::SPACE
        } else {
            line_break(b, p, q)
        },
        DocView::SoftLine => if mode == Mode::Flat {
            p == q
        } else {
            line_break(b, p, q)
        },
        DocView::HardLine => line_break(b, p, q),
        DocView::Concat(items) => laid_all(b, items, mode, p, q),
        DocView::Nest(_, inner) => laid(b, *inner, mode, p, q),
        DocView::Group(inner) => laid(b, *inner, Mode::Flat, p, q) || laid(
            b,
            *inner,
            Mode::Break,
            p,
            q,
        ),
        DocView::IfBreak { flat, broken } => if mode == Mode::Flat {
            laid(b, *flat, mode, p, q)
        } else {
            laid(b, *broken, mode, p, q)
        },
    }
}

/// Whether `p..q` is the documents `docs`, one after the other.
pub open spec fn laid_all(b: Seq<u8>, docs: Seq<DocView>, mode: Mode, p: int, q: int) -> bool
    decreases docs, 0int,
{
    if docs.len() == 0 {
        0 <= p == q <= b.len()
    } else {
        exists|r: int| #[trigger]
            is_cut(r) && laid(b, docs[0], mode, p, r) && laid_all(
                b,
                docs.drop_first(),
                mode,
                r,
                q,
            )
    }
}

/// Marks an index at which one document ends and the next starts.
pub open spec fn is_cut(r: int) -> bool {
    true
}

/// Whether `p..q` is the documents of `frames`, each in its own mode.
spec fn laid_frames(b: Seq<u8>, frames: Seq<Frame>, p: int, q: int) -> bool
    decreases frames.len(),
{
    if frames.len() == 0 {
        0 <= p == q <= b.len()
    } else {
        exists|r: int| #[trigger]
            is_cut(r) && laid(b, frames[0].doc, frames[0].mode, p, r) && laid_frames(
                b,
                frames.drop_first(),
                r,
                q,
            )
    }
}

/// The first of several documents, and the others.
pub proof fn lemma_laid_first(b: Seq<u8>, docs: Seq<DocView>, mode: Mode, p: int, q: int) -> (r: int)
    requires
        laid_all(b, docs, mode, p, q),
        docs.len() > 0,
    ensures
        laid(b, docs[0], mode, p, r),
        laid_all(b, docs.drop_first(), mode, r, q),
{
    choose|r: int| #[trigger]
        is_cut(r) && laid(b, docs[0], mode, p, r) && laid_all(b, docs.drop_first(), mode, r, q)
}

/// A document in front of others.
pub proof fn lemma_laid_cons(b: Seq<u8>, docs: Seq<DocView>, mode: Mode, p: int, r: int, q: int)
    requires
        docs.len() > 0,
        laid(b, docs[0], mode, p, r),
        laid_all(b, docs.drop_first(), mode, r, q),
    ensures
        laid_all(b, docs, mode, p, q),
{
    assert(is_cut(r));
}

/// The first of several frames, and the others.
proof fn lemma_frames_first(b: Seq<u8>, frames: Seq<Frame>, p: int, q: int) -> (r: int)
    requires
        laid_frames(b, frames, p, q),
        frames.len() > 0,
    ensures
        laid(b, frames[0].doc, frames[0].mode, p, r),
        laid_frames(b, frames.drop_first(), r, q),
{
    choose|r: int| #[trigger]
        is_cut(r) && laid(b, frames[0].doc, frames[0].mode, p, r) && laid_frames(
            b,
            frames.drop_first(),
            r,
            q,
        )
}

/// Documents lie inside the bytes.
pub proof fn lemma_laid_all_bounds(b: Seq<u8>, docs: Seq<DocView>, mode: Mode, p: int, q: int)
    requires
        laid_all(b, docs, mode, p, q),
    ensures
        0 <= p <= q <= b.len(),
    decreases docs.len(),
{
    if docs.len() > 0 {
        let r = lemma_laid_first(b, docs, mode, p, q);
        lemma_laid_all_bounds(b, docs.drop_first(), mode, r, q);
    }
}

/// Documents one after the other can be taken apart anywhere.
pub proof fn lemma_laid_split(
    b: Seq<u8>,
    xs: Seq<DocView>,
    ys: Seq<DocView>,
    mode: Mode,
    p: int,
    q: int,
) -> (r: int)
    requires
        laid_all(b, xs + ys, mode, p, q),
    ensures
        laid_all(b, xs, mode, p, r),
        laid_all(b, ys, mode, r, q),
    decreases xs.len(),
{
    if xs.len() == 0 {
        assert(xs + ys =~= ys);
        lemma_laid_all_bounds(b, ys, mode, p, q);
        p
    } else {
        let r0 = lemma_laid_first(b, xs + ys, mode, p, q);
        assert((xs + ys).drop_first() =~= xs.drop_first() + ys);
        let r = lemma_laid_split(b, xs.drop_first(), ys, mode, r0, q);
        assert((xs + ys)[0] == xs[0]);
        lemma_laid_cons(b, xs, mode, p, r0, r);
        r
    }
}

/// Documents one after the other can be put together.
pub proof fn lemma_laid_join(
    b: Seq<u8>,
    xs: Seq<DocView>,
    ys: Seq<DocView>,
    mode: Mode,
    p: int,
    r: int,
    q: int,
)
    requires
        laid_all(b, xs, mode, p, r),
        laid_all(b, ys, mode, r, q),
    ensures
        laid_all(b, xs + ys, mode, p, q),
    decreases xs.len(),
{
    if xs.len() == 0 {
        assert(xs + ys =~= ys);
    } else {
        let r0 = lemma_laid_first(b, xs, mode, p, r);
        lemma_laid_join(b, xs.drop_first(), ys, mode, r0, r, q);
        assert((xs + ys).drop_first() =~= xs.drop_first() + ys);
        assert((xs + ys)[0] == xs[0]);
        lemma_laid_cons(b, xs + ys, mode, p, r0, q);
    }
}

/// One document by itself.
pub proof fn lemma_laid_single(b: Seq<u8>, d: DocView, mode: Mode, p: int, q: int)
    ensures
        laid_all(b, seq![d], mode, p, q) <==> laid(b, d, mode, p, q),
{
    let docs = seq![d];
    assert(docs.drop_first() =~= Seq::<DocView>::empty());
    if laid_all(b, docs, mode, p, q) {
        let _ = lemma_laid_first(b, docs, mode, p, q);
    }
    if laid(b, d, mode, p, q) {
        lemma_laid_cons(b, docs, mode, p, q, q);
    }
}

/// Empty documents make no difference.
proof fn lemma_laid_filter(b: Seq<u8>, docs: Seq<DocView>, mode: Mode, p: int, q: int)
    requires
        laid_all(b, docs.filter(|d: DocView| d !is Nil), mode, p, q),
    ensures
        laid_all(b, docs, mode, p, q),
    decreases docs.len(),
{
    let keep = |d: DocView| d !is Nil;
    if docs.len() > 0 {
        let front = docs.drop_last();
        let last = docs.last();
        assert(docs =~= front + seq![last]);
        assert(front.push(last) =~= docs);
        front.lemma_filter_push(last, keep);
        let kept = front.filter(keep);
        if keep(last) {
            assert(docs.filter(keep) =~= kept + seq![last]);
            let r = lemma_laid_split(b, kept, seq![last], mode, p, q);
            lemma_laid_filter(b, front, mode, p, r);
            lemma_laid_join(b, front, seq![last], mode, p, r, q);
        } else {
            lemma_laid_all_bounds(b, kept, mode, p, q);
            lemma_laid_filter(b, front, mode, p, q);
            lemma_laid_single(b, last, mode, q, q);
            lemma_laid_join(b, front, seq![last], mode, p, q, q);
        }
    } else {
        assert(docs.filter(keep) =~= docs);
    }
}

/// Empty documents can be left out.
proof fn lemma_laid_kept(b: Seq<u8>, docs: Seq<DocView>, mode: Mode, p: int, q: int)
    requires
        laid_all(b, docs, mode, p, q),
    ensures
        laid_all(b, docs.filter(|d: DocView| d !is Nil), mode, p, q),
    decreases docs.len(),
{
    let keep = |d: DocView| d !is Nil;
    if docs.len() > 0 {
        let front = docs.drop_last();
        let last = docs.last();
        assert(docs =~= front + seq![last]);
        assert(front.push(last) =~= docs);
        front.lemma_filter_push(last, keep);
        let kept = front.filter(keep);
        let r = lemma_laid_split(b, front, seq![last], mode, p, q);
        lemma_laid_kept(b, front, mode, p, r);
        if keep(last) {
            assert(docs.filter(keep) =~= kept + seq![last]);
            lemma_laid_join(b, kept, seq![last], mode, p, r, q);
        } else {
            lemma_laid_single(b, last, mode, r, q);
        }
    } else {
        assert(docs.filter(keep) =~= docs);
    }
}

/// Documents one after the other are a sequence.
pub proof fn lemma_concat_laid(b: Seq<u8>, docs: Seq<DocView>, mode: Mode, p: int, q: int)
    requires
        laid_all(b, docs, mode, p, q),
    ensures
        laid(b, concat_view(docs), mode, p, q),
{
    let kept = docs.filter(|d: DocView| d !is Nil);
    lemma_laid_kept(b, docs, mode, p, q);
    lemma_laid_all_bounds(b, docs, mode, p, q);
    if kept.len() == 1 {
        assert(kept =~= seq![kept[0]]);
        lemma_laid_single(b, kept[0], mode, p, q);
    }
}

/// A sequence is its documents one after the other.
pub proof fn lemma_laid_concat(b: Seq<u8>, docs: Seq<DocView>, mode: Mode, p: int, q: int)
    requires
        laid(b, concat_view(docs), mode, p, q),
    ensures
        laid_all(b, docs, mode, p, q),
{
    let kept = docs.filter(|d: DocView| d !is Nil);
    if kept.len() == 1 {
        assert(kept =~= seq![kept[0]]);
        lemma_laid_single(b, kept[0], mode, p, q);
    }
    lemma_laid_filter(b, docs, mode, p, q);
}

/// What stands behind a document makes no difference.
pub proof fn lemma_laid_prefix(b: Seq<u8>, x: Seq<u8>, d: DocView, mode: Mode, p: int, q: int)
    requires
        laid(b, d, mode, p, q),
    ensures
        laid(b + x, d, mode, p, q),
    decreases d, 0int,
{
    let c = b + x;
    assert forall|k: int| p <= k < q implies #[trigger] c[k] == b[k] by {}
    match d {
        DocView::Concat(items) => {
            lemma_laid_all_prefix(b, x, items, mode, p, q);
        },
        DocView::Nest(_, inner) => {
            lemma_laid_prefix(b, x, *inner, mode, p, q);
        },
        DocView::Group(inner) => {
            if laid(b, *inner, Mode::Flat, p, q) {
                lemma_laid_prefix(b, x, *inner, Mode::Flat, p, q);
            } else {
                lemma_laid_prefix(b, x, *inner, Mode::Break, p, q);
            }
        },
        DocView::IfBreak { flat, broken } => {
            if mode == Mode::Flat {
                lemma_laid_prefix(b, x, *flat, mode, p, q);
            } else {
                lemma_laid_prefix(b, x, *broken, mode, p, q);
            }
        },
        DocView::Text(s) => {
            assert(holds(c, encode_utf8(s), p, q)) by {
                assert forall|k: int| p <= k < q implies #[trigger] c[k] == encode_utf8(s)[k - p] by {
                    assert(b[k] == encode_utf8(s)[k - p]);
                }
            }
        },
        _ => {
            if line_break(b, p, q) {
                assert(line_break(c, p, q)) by {
                    assert forall|k: int| p < k < q implies #[trigger] c[k] == ascii::SPACE by {
                        assert(b[k] == ascii::SPACE);
                    }
                }
            }
        },
    }
}

proof fn lemma_laid_all_prefix(
    b: Seq<u8>,
    x: Seq<u8>,
    docs: Seq<DocView>,
    mode: Mode,
    p: int,
    q: int,
)
    requires
        laid_all(b, docs, mode, p, q),
    ensures
        laid_all(b + x, docs, mode, p, q),
    decreases docs, 0int,
{
    if docs.len() > 0 {
        let r = lemma_laid_first(b, docs, mode, p, q);
        lemma_laid_prefix(b, x, docs[0], mode, p, r);
        lemma_laid_all_prefix(b, x, docs.drop_first(), mode, r, q);
        lemma_laid_cons(b + x, docs, mode, p, r, q);
    }
}

// ---------------------------------------------------------------------------
// Every layout is one of them
// ---------------------------------------------------------------------------

proof fn lemma_frames_bounds(b: Seq<u8>, frames: Seq<Frame>, p: int, q: int)
    requires
        laid_frames(b, frames, p, q),
    ensures
        0 <= p <= q <= b.len(),
    decreases frames.len(),
{
    if frames.len() > 0 {
        let r = lemma_frames_first(b, frames, p, q);
        lemma_frames_bounds(b, frames.drop_first(), r, q);
    }
}

/// Frames one after the other can be taken apart anywhere.
proof fn lemma_frames_split(b: Seq<u8>, xs: Seq<Frame>, ys: Seq<Frame>, p: int, q: int) -> (r: int)
    requires
        laid_frames(b, xs + ys, p, q),
    ensures
        laid_frames(b, xs, p, r),
        laid_frames(b, ys, r, q),
    decreases xs.len(),
{
    if xs.len() == 0 {
        assert(xs + ys =~= ys);
        lemma_frames_bounds(b, ys, p, q);
        p
    } else {
        let all = xs + ys;
        let r0 = lemma_frames_first(b, all, p, q);
        assert(all.drop_first() =~= xs.drop_first() + ys);
        let r = lemma_frames_split(b, xs.drop_first(), ys, r0, q);
        assert(all[0] == xs[0]);
        lemma_frames_cons(b, xs, p, r0, r);
        r
    }
}

/// The frames of a sequence are its documents.
proof fn lemma_frames_of_docs(
    b: Seq<u8>,
    indent: isize,
    mode: Mode,
    docs: Seq<DocView>,
    p: int,
    q: int,
)
    requires
        laid_frames(b, frames_of(indent, mode, docs), p, q),
    ensures
        laid_all(b, docs, mode, p, q),
    decreases docs.len(),
{
    let fs = frames_of(indent, mode, docs);
    if docs.len() > 0 {
        let r = lemma_frames_first(b, fs, p, q);
        assert(fs.drop_first() =~= frames_of(indent, mode, docs.drop_first()));
        lemma_frames_of_docs(b, indent, mode, docs.drop_first(), r, q);
        lemma_laid_cons(b, docs, mode, p, r, q);
    }
}

/// A single frame by itself.
proof fn lemma_frames_single(b: Seq<u8>, f: Frame, p: int, q: int)
    requires
        laid_frames(b, seq![f], p, q),
    ensures
        laid(b, f.doc, f.mode, p, q),
{
    let fs = seq![f];
    let _ = lemma_frames_first(b, fs, p, q);
    assert(fs.drop_first() =~= Seq::<Frame>::empty());
}

/// Put the first frame back in front of the others.
proof fn lemma_frames_cons(b: Seq<u8>, frames: Seq<Frame>, p: int, r: int, q: int)
    requires
        frames.len() > 0,
        laid(b, frames[0].doc, frames[0].mode, p, r),
        laid_frames(b, frames.drop_first(), r, q),
    ensures
        laid_frames(b, frames, p, q),
{
    assert(is_cut(r));
}

/// An opened frame is the frame.
proof fn lemma_opened_laid(b: Seq<u8>, frames: Seq<Frame>, group_mode: Mode, p: int, q: int)
    requires
        frames.len() > 0,
        ({
            let d = frames[0].doc;
            d is Concat || d is Nest || d is Group || d is IfBreak
        }),
        laid_frames(b, opened(frames[0], group_mode) + frames.drop_first(), p, q),
    ensures
        laid_frames(b, frames, p, q),
{
    let f = frames[0];
    let o = opened(f, group_mode);
    let r = lemma_frames_split(b, o, frames.drop_first(), p, q);
    match f.doc {
        DocView::Concat(items) => {
            lemma_frames_bounds(b, o, p, r);
            lemma_frames_of_docs(b, f.indent, f.mode, items, p, r);
        },
        _ => {
            assert(o =~= seq![o[0]]);
            lemma_frames_single(b, o[0], p, r);
        },
    }
    lemma_frames_cons(b, frames, p, r, q);
}

/// A newline with indentation is a line break, in bytes as in characters.
proof fn lemma_newline_bytes(indent: isize)
    ensures
        line_break(encode_utf8(newline(indent)), 0, encode_utf8(newline(indent)).len() as int),
{
    let s = newline(indent);
    let nl = seq!['\n'];
    let sp = spaces(indent as int);
    lemma_encode_add(nl, sp);
    assert(is_ascii_chars(s)) by {
        assert forall|i: int| 0 <= i < s.len() implies '\0' <= #[trigger] s[i] <= '\u{7f}' by {}
    }
    is_ascii_chars_encode_utf8(s);
    let u = encode_utf8(s);
    assert(u.len() == s.len());
    assert forall|k: int| 0 < k < u.len() implies #[trigger] u[k] == ascii::SPACE by {
        assert(s[k] == ' ');
    }
    assert(s[0] == '\n');
}

/// Text that was appended stands where it was appended.
proof fn lemma_holds_appended(pre: Seq<u8>, text: Seq<u8>, rest: Seq<u8>)
    ensures
        holds(pre + (text + rest), text, pre.len() as int, (pre.len() + text.len()) as int),
        pre + (text + rest) == (pre + text) + rest,
{
    assert(pre + (text + rest) =~= (pre + text) + rest);
}

/// What [`layout`] gives is one of the texts that the frames can become.
proof fn lemma_layout_laid(pre: Seq<u8>, width: int, col: int, frames: Seq<Frame>)
    ensures
        ({
            let b = pre + encode_utf8(layout(width, col, frames));
            laid_frames(b, frames, pre.len() as int, b.len() as int)
        }),
    decreases work(frames),
{
    let out = layout(width, col, frames);
    let b = pre + encode_utf8(out);
    let p = pre.len() as int;
    let q = b.len() as int;
    if frames.len() == 0 {
        assert(encode_utf8(out) =~= Seq::<u8>::empty());
    } else {
        let f = frames[0];
        let rest = frames.drop_first();
        let flat = seq![Frame { indent: f.indent, mode: Mode::Flat, doc: *f.doc->Group_0 }];
        let group_mode = if !has_hard(*f.doc->Group_0) && fits_in(width - col, flat + rest) {
            Mode::Flat
        } else {
            Mode::Break
        };
        lemma_opened_less(frames, group_mode);
        match f.doc {
            DocView::Nil => {
                lemma_layout_laid(pre, width, col, rest);
                lemma_frames_cons(b, frames, p, p, q);
            },
            DocView::Text(s) => {
                let tail = layout(width, col + s.len(), rest);
                lemma_encode_add(s, tail);
                lemma_holds_appended(pre, encode_utf8(s), encode_utf8(tail));
                lemma_layout_laid(pre + encode_utf8(s), width, col + s.len(), rest);
                lemma_frames_cons(b, frames, p, p + encode_utf8(s).len(), q);
            },
            DocView::Line if f.mode == Mode::Flat => {
                let s = seq![' '];
                let tail = layout(width, col + 1, rest);
                lemma_encode_add(s, tail);
                lemma_space_bytes();
                lemma_holds_appended(pre, encode_utf8(s), encode_utf8(tail));
                lemma_layout_laid(pre + encode_utf8(s), width, col + 1, rest);
                lemma_frames_cons(b, frames, p, p + 1, q);
            },
            DocView::SoftLine if f.mode == Mode::Flat => {
                lemma_layout_laid(pre, width, col, rest);
                lemma_frames_cons(b, frames, p, p, q);
            },
            DocView::Line | DocView::SoftLine | DocView::HardLine => {
                let s = newline(f.indent);
                let u = encode_utf8(s);
                let tail = layout(width, f.indent as int, rest);
                lemma_encode_add(s, tail);
                lemma_newline_bytes(f.indent);
                lemma_holds_appended(pre, u, encode_utf8(tail));
                lemma_layout_laid(pre + u, width, f.indent as int, rest);
                let r = p + u.len();
                assert(b[p] == u[0]);
                assert(line_break(b, p, r)) by {
                    assert forall|k: int| p < k < r implies #[trigger] b[k] == ascii::SPACE by {
                        assert(b[k] == u[k - p]);
                    }
                }
                lemma_frames_cons(b, frames, p, r, q);
            },
            _ => {
                lemma_layout_laid(pre, width, col, opened(f, group_mode) + rest);
                lemma_opened_laid(b, frames, group_mode, p, q);
            },
        }
    }
}

/// A space is one byte.
proof fn lemma_space_bytes()
    ensures
        encode_utf8(seq![' ']).len() == 1,
        encode_utf8(seq![' '])[0] == ascii::SPACE,
{
    let s = seq![' '];
    is_ascii_chars_encode_utf8(s);
}

/// What [`crate::doc::pretty`] returns is one of the texts that the document can
/// become.
pub proof fn law_layout_is_a_rendering(width: int, d: DocView)
    ensures
        ({
            let b = encode_utf8(pretty_view(width, d));
            laid(b, d, Mode::Break, 0, b.len() as int)
        }),
{
    let f = Frame { indent: 0, mode: Mode::Break, doc: d };
    let pre = Seq::<u8>::empty();
    let b = encode_utf8(pretty_view(width, d));
    assert(pre + b =~= b);
    lemma_layout_laid(pre, width, 0, seq![f]);
    lemma_frames_single(b, f, 0, b.len() as int);
}

} // verus!
