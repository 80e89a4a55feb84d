//! Renders the [`crate::ast`] tree into a [`crate::doc`] layout tree.
//!
//! This is the bridge between "what the command is" (the syntax tree) and "how
//! it should be laid out" (the layout engine). It never reads source positions:
//! layout is decided entirely by target width, so a group stays on one line when
//! it fits and reflows when it does not.
//!
//! Formatting choices:
//! - Top-level statements each get their own line.
//! - `&&` / `||` / `|` chains lay out on one line if they fit, otherwise break
//!   *after* each operator with a 2-space continuation indent.
//! - Compound bodies (`do…done`, `then…fi`, `{ … }`) stay inline when they
//!   hold a single statement that fits, and expand otherwise.
//!
//! What each node is rendered as is stated by the spec functions that end in
//! `_view`, on the mathematical forms of the nodes.

use vstd::prelude::*;
use vstd::string::*;
use crate::ast::{ArithmExpr, ArithmExprView, ArrayElem, ArrayElemView, Assign, AssignView,
    BinAritOperator, BinCmdOperator, BinaryCmd, BinaryCmdView, CStyleLoop, CStyleLoopView, CallExpr,
    CallExprView, CaseClause, CaseClauseView, CaseItem, CaseItemView, Command, CommandView,
    CoprocClause, CoprocClauseView, DeclClause, DeclClauseView, File, FileView, ForClause,
    ForClauseView, FuncDecl, FuncDeclView, IfClause, IfClauseView, LetClause, LetClauseView, Loop,
    LoopView, ParamExp, ParamExpView, Redirect, RedirectView, Stmt, StmtView, TestExpr,
    TestExprView, TimeClause, TimeClauseView, WhileClause, WhileClauseView, Word, WordIter,
    WordIterView, WordPart, WordPartView, WordView, arithm_expr_views, array_elem_views,
    assign_views, case_item_views, redirect_views, stmt_views, word_part_views, word_views};
use crate::doc::{Doc, DocView, concat_view, doc_views, join_view, pretty, pretty_view};
use crate::text::{char_at, push_str};

verus! {

const INDENT: isize = 2;

/// Default target width for formatting (permission-dialog friendly).
pub const DEFAULT_WIDTH: isize = 80;

// ---------------------------------------------------------------------------
// What a tree is rendered as
// ---------------------------------------------------------------------------

/// The text `s`.
pub open spec fn text_view(s: Seq<char>) -> DocView {
    DocView::Text(s)
}

/// `d`, indented.
pub open spec fn nest_view(d: DocView) -> DocView {
    DocView::Nest(2, Box::new(d))
}

/// `d` as a group.
pub open spec fn group_view(d: DocView) -> DocView {
    DocView::Group(Box::new(d))
}

/// A `;` that is there only where the enclosing group is flat.
pub open spec fn inline_semicolon() -> DocView {
    DocView::IfBreak { flat: Box::new(text_view(";"@)), broken: Box::new(DocView::Nil) }
}

/// The break of a body: a hard one if the body must expand.
pub open spec fn break_view(force: bool) -> DocView {
    if force {
        DocView::HardLine
    } else {
        DocView::Line
    }
}

/// Whether `s` ends with an operator that also separates it from what follows.
pub open spec fn ends_itself(s: StmtView) -> bool {
    s.background || s.coprocess
}

/// The `;` behind `s`, if it needs one.
pub open spec fn semicolon_view(s: StmtView, semi: DocView) -> DocView {
    if ends_itself(s) {
        DocView::Nil
    } else {
        semi
    }
}

/// The `;` behind the last of `stmts`, if it needs one.
pub open spec fn closing_view(stmts: Seq<StmtView>, semi: DocView) -> DocView {
    if stmts.len() > 0 {
        semicolon_view(stmts.last(), semi)
    } else {
        semi
    }
}

/// What stands between a condition and the keyword behind it.
pub open spec fn after_view(cond: Seq<StmtView>) -> DocView {
    if cond.len() > 0 && ends_itself(cond.last()) {
        text_view(" "@)
    } else {
        text_view("; "@)
    }
}

/// What stands behind each of `stmts` when another follows: `semi`, if it needs
/// one, then the break.
pub open spec fn separators_view(
    stmts: Seq<StmtView>,
    semi: DocView,
    nl: DocView,
) -> Seq<DocView> {
    Seq::new(stmts.len(), |i: int| concat_view(seq![semicolon_view(stmts[i], semi), nl]))
}

/// `docs`, each but the last with the one of `seps` behind it.
pub open spec fn weave(docs: Seq<DocView>, seps: Seq<DocView>) -> Seq<DocView>
    decreases docs.len(),
{
    if docs.len() == 0 {
        seq![]
    } else if docs.len() == 1 {
        seq![docs[0]]
    } else {
        weave(docs.drop_last(), seps).push(seps[docs.len() - 2]).push(docs.last())
    }
}

/// Statements one after the other.
pub open spec fn body_view(stmts: Seq<StmtView>, semi: DocView, nl: DocView) -> DocView
    decreases stmts, 1int,
{
    concat_view(weave(stmts_view(stmts), separators_view(stmts, semi, nl)))
}

/// Whether the text of `w` starts with `(`.
pub open spec fn word_starts_with_paren(w: WordView) -> bool {
    &&& w.parts.len() > 0
    &&& w.parts[0] matches WordPartView::Lit(l) && l.value.len() > 0 && l.value[0] == '('
}

/// Whether the text of `s` can start with `(`.
pub open spec fn starts_with_paren(s: StmtView) -> bool
    decreases s,
{
    match s.cmd {
        Some(CommandView::Binary(x)) => starts_with_paren(x.x),
        Some(CommandView::Subshell(_)) => !s.negated,
        Some(CommandView::Arithm(_)) => !s.negated,
        Some(CommandView::Call(c)) => !s.negated && c.args.len() > 0 && word_starts_with_paren(
            c.args[0],
        ),
        _ => false,
    }
}

/// The parenthesis `open` before `stmts`: with a blank behind it where it would
/// read as `((` otherwise.
pub open spec fn paren_view(open: Seq<char>, stmts: Seq<StmtView>) -> DocView {
    if stmts.len() > 0 && starts_with_paren(stmts[0]) {
        text_view(open + " "@)
    } else {
        text_view(open)
    }
}

/// A space before each of `docs`.
pub open spec fn spaced(docs: Seq<DocView>) -> Seq<DocView>
    decreases docs.len(),
{
    if docs.len() == 0 {
        seq![]
    } else {
        spaced(docs.drop_last()).push(text_view(" "@)).push(docs.last())
    }
}

/// `part` if `there`, else nothing.
pub open spec fn part_if(there: bool, part: DocView) -> Seq<DocView> {
    if there {
        seq![part]
    } else {
        seq![]
    }
}

/// A whole file: each statement on its own line.
pub open spec fn file_view(f: FileView) -> DocView {
    join_view(DocView::HardLine, stmts_view(f.stmts))
}

/// The formatted text of a whole file, with a trailing newline.
pub open spec fn format_view(f: FileView, width: int) -> Seq<char> {
    let s = pretty_view(width, file_view(f));
    if s.len() > 0 && s.last() != '\n' {
        s.push('\n')
    } else {
        s
    }
}

pub open spec fn stmt_view(s: StmtView) -> DocView
    decreases s, 0int,
{
    let cmd = match s.cmd {
        Some(c) => seq![command_view(c)],
        None => seq![],
    };
    concat_view(
        part_if(s.negated, text_view("! "@)) + cmd + spaced(redirs_view(s.redirs)) + part_if(
            s.background,
            text_view(" &"@),
        ) + part_if(s.coprocess, text_view(" |&"@)),
    )
}

pub open spec fn stmts_view(stmts: Seq<StmtView>) -> Seq<DocView>
    decreases stmts, 0int,
{
    Seq::new(
        stmts.len(),
        |i: int|
            if 0 <= i < stmts.len() {
                stmt_view(stmts[i])
            } else {
                DocView::Nil
            },
    )
}

/// Statements rendered on a single conceptual line, separated by `; `, or by a
/// blank behind `&`.
pub open spec fn inline_view(stmts: Seq<StmtView>) -> DocView
    decreases stmts, 2int,
{
    body_view(stmts, text_view(";"@), text_view(" "@))
}

pub open spec fn command_view(cmd: CommandView) -> DocView
    decreases cmd, 0int,
{
    match cmd {
        CommandView::Call(c) => call_view(c),
        CommandView::Binary(b) => binary_view(*b),
        CommandView::Block(b) => keyword_block_view("{"@, "}"@, b.stmts),
        CommandView::Subshell(s) => concat_view(
            seq![paren_view("("@, s.stmts), inline_view(s.stmts), text_view(")"@)],
        ),
        CommandView::If(i) => if_view(*i),
        CommandView::For(f) => for_view(*f),
        CommandView::While(w) => while_view(*w),
        CommandView::Case(c) => case_view(c),
        CommandView::Func(f) => func_view(*f),
        CommandView::Test(t) => concat_view(
            seq![text_view("[[ "@), test_expr_view(t.x), text_view(" ]]"@)],
        ),
        CommandView::Arithm(a) => concat_view(
            seq![text_view("(("@), arithm_view(a.x, false), text_view("))"@)],
        ),
        CommandView::Decl(d) => decl_view(d),
        CommandView::Let(l) => let_view(l),
        CommandView::Time(t) => time_view(*t),
        CommandView::Coproc(c) => coproc_view(*c),
    }
}

pub open spec fn call_view(c: CallExprView) -> DocView
    decreases c, 0int,
{
    join_view(text_view(" "@), assigns_view(c.assigns) + words_view(c.args))
}

/// One operand of a chain behind its operator. The operator stays on the line
/// before; the line break (when broken) precedes the operand.
pub open spec fn segment_view(op: BinCmdOperator, operand: DocView) -> DocView {
    concat_view(seq![text_view(" "@ + op.spelling()), DocView::Line, operand])
}

/// The first operand of the chain that `s` is.
pub open spec fn chain_first_view(s: StmtView) -> DocView
    decreases s, 1int,
{
    match s.cmd {
        Some(CommandView::Binary(b)) => chain_first_view(b.x),
        _ => stmt_view(s),
    }
}

/// The other operands of the chain that `s` is, each behind its operator.
pub open spec fn chain_rest_view(s: StmtView) -> Seq<DocView>
    decreases s, 1int,
{
    match s.cmd {
        Some(CommandView::Binary(b)) => chain_rest_view(b.x).push(
            segment_view(b.op, stmt_view(b.y)),
        ),
        _ => seq![],
    }
}

pub open spec fn binary_view(b: BinaryCmdView) -> DocView
    decreases b, 0int,
{
    let rest = chain_rest_view(b.x).push(segment_view(b.op, stmt_view(b.y)));
    group_view(concat_view(seq![chain_first_view(b.x), nest_view(concat_view(rest))]))
}

/// `do…done`, `then…fi`, and `{ … }` style bodies.
///
/// Inline: `<open> a; b; <close>`. Broken (multi-statement or too wide):
/// ```text
/// <open>
///   a
///   b
/// <close>
/// ```
pub open spec fn keyword_block_view(
    open: Seq<char>,
    close: Seq<char>,
    stmts: Seq<StmtView>,
) -> DocView
    decreases stmts, 2int,
{
    if stmts.len() == 0 {
        concat_view(seq![text_view(open), text_view(" "@), text_view(close)])
    } else {
        let nl = break_view(stmts.len() > 1);
        let body = body_view(stmts, inline_semicolon(), nl);
        group_view(
            concat_view(
                seq![
                    text_view(open),
                    nest_view(concat_view(seq![nl, body])),
                    closing_view(stmts, inline_semicolon()),
                    nl,
                    text_view(close),
                ],
            ),
        )
    }
}

pub open spec fn for_view(f: ForClauseView) -> DocView
    decreases f, 0int,
{
    concat_view(
        seq![
            text_view(
                if f.select {
                    "select "@
                } else {
                    "for "@
                },
            ),
            loop_view(f.loop_),
            text_view("; "@),
            keyword_block_view("do"@, "done"@, f.do_),
        ],
    )
}

pub open spec fn while_view(w: WhileClauseView) -> DocView
    decreases w, 0int,
{
    concat_view(
        seq![
            text_view(
                if w.until {
                    "until "@
                } else {
                    "while "@
                },
            ),
            inline_view(w.cond),
            after_view(w.cond),
            keyword_block_view("do"@, "done"@, w.do_),
        ],
    )
}

/// The expression `e`, if there is one.
pub open spec fn arithm_option_view(e: Option<ArithmExprView>) -> DocView
    decreases e, 0int,
{
    match e {
        Some(x) => arithm_view(x, false),
        None => DocView::Nil,
    }
}

pub open spec fn loop_view(l: LoopView) -> DocView
    decreases l, 0int,
{
    match l {
        LoopView::Word(wi) => word_iter_view(wi),
        LoopView::CStyle(c) => cstyle_view(c),
    }
}

pub open spec fn word_iter_view(wi: WordIterView) -> DocView
    decreases wi, 0int,
{
    if wi.in_pos.is_valid() {
        concat_view(
            seq![
                text_view(wi.name.value),
                text_view(" in "@),
                join_view(text_view(" "@), words_view(wi.items)),
            ],
        )
    } else {
        text_view(wi.name.value)
    }
}

pub open spec fn cstyle_view(c: CStyleLoopView) -> DocView
    decreases c, 0int,
{
    concat_view(
        seq![
            text_view("(("@),
            arithm_option_view(c.init),
            text_view("; "@),
            arithm_option_view(c.cond),
            text_view("; "@),
            arithm_option_view(c.post),
            text_view("))"@),
        ],
    )
}

/// The statements of a branch behind its keyword, with the break before them and
/// the inline `;` after them.
pub open spec fn branch_view(keyword: Seq<char>, nl: DocView, stmts: Seq<StmtView>) -> Seq<DocView>
    decreases stmts, 2int,
{
    seq![
        text_view(keyword),
        nest_view(concat_view(seq![nl, body_view(stmts, inline_semicolon(), nl)])),
        closing_view(stmts, inline_semicolon()),
    ]
}

/// The `elif` and `else` branches of an `if`.
pub open spec fn else_view(nl: DocView, tail: Option<Box<IfClauseView>>) -> Seq<DocView>
    decreases tail, 0int,
{
    match tail {
        None => seq![],
        Some(c) => {
            let here = if c.then_pos.is_valid() {
                seq![
                    text_view("elif "@),
                    inline_view(c.cond),
                    after_view(c.cond),
                    concat_view(branch_view("then"@, nl, c.then_)),
                    nl,
                ]
            } else {
                branch_view("else"@, nl, c.then_).push(nl)
            };
            here + else_view(nl, c.else_)
        },
    }
}

pub open spec fn if_view(ic: IfClauseView) -> DocView
    decreases ic, 0int,
{
    // An `if` expands if it has any else/elif branch or a multi-statement body.
    let nl = break_view(ic.then_.len() > 1 || ic.else_ is Some);
    group_view(
        concat_view(
            seq![
                text_view("if "@),
                inline_view(ic.cond),
                after_view(ic.cond),
                concat_view(branch_view("then"@, nl, ic.then_)),
                nl,
            ] + else_view(nl, ic.else_) + seq![text_view("fi"@)],
        ),
    )
}

pub open spec fn case_item_view(ci: CaseItemView) -> DocView
    decreases ci, 0int,
{
    let body = if ci.stmts.len() == 0 {
        DocView::Nil
    } else {
        nest_view(concat_view(seq![DocView::HardLine, inline_view(ci.stmts)]))
    };
    nest_view(
        concat_view(
            seq![
                DocView::HardLine,
                join_view(text_view(" | "@), words_view(ci.patterns)),
                text_view(")"@),
                body,
                text_view(" "@ + ci.op.spelling()),
            ],
        ),
    )
}

pub open spec fn case_items_view(items: Seq<CaseItemView>) -> Seq<DocView>
    decreases items, 0int,
{
    Seq::new(
        items.len(),
        |i: int|
            if 0 <= i < items.len() {
                case_item_view(items[i])
            } else {
                DocView::Nil
            },
    )
}

pub open spec fn case_view(c: CaseClauseView) -> DocView
    decreases c, 0int,
{
    concat_view(
        seq![text_view("case "@), word_view(c.word), text_view(" in"@)] + case_items_view(c.items)
            + seq![DocView::HardLine, text_view("esac"@)],
    )
}

pub open spec fn func_view(f: FuncDeclView) -> DocView
    decreases f, 0int,
{
    let prefix = if f.rsrv_word {
        "function "@
    } else {
        ""@
    };
    concat_view(seq![text_view(prefix + f.name.value + "() "@), stmt_view(f.body)])
}

pub open spec fn decl_view(d: DeclClauseView) -> DocView
    decreases d, 0int,
{
    concat_view(seq![text_view(d.variant.value)] + spaced(assigns_view(d.args)))
}

pub open spec fn let_view(l: LetClauseView) -> DocView
    decreases l, 0int,
{
    concat_view(seq![text_view("let"@)] + spaced(compact_arithms_view(l.exprs)))
}

pub open spec fn time_view(t: TimeClauseView) -> DocView
    decreases t, 0int,
{
    concat_view(
        seq![text_view("time"@)] + part_if(t.posix_format, text_view(" -p"@)) + match t.stmt {
            Some(s) => seq![text_view(" "@), stmt_view(s)],
            None => seq![],
        },
    )
}

pub open spec fn coproc_view(c: CoprocClauseView) -> DocView
    decreases c, 0int,
{
    concat_view(
        seq![text_view("coproc"@)] + match c.name {
            Some(n) => seq![text_view(" "@), word_view(n)],
            None => seq![],
        } + seq![text_view(" "@), stmt_view(c.stmt)],
    )
}

pub open spec fn assign_view(a: AssignView) -> DocView
    decreases a, 0int,
{
    let left = match a.name {
        Some(name) => seq![text_view(name.value)] + match a.index {
            Some(idx) => seq![index_view(idx)],
            None => seq![],
        } + part_if(a.append, text_view("+"@)) + part_if(!a.naked, text_view("="@)),
        None => seq![],
    };
    let right = match a.value {
        Some(v) => seq![word_view(v)],
        None => match a.array {
            Some(arr) => seq![
                text_view("("@),
                join_view(text_view(" "@), array_elems_view(arr.elems)),
                text_view(")"@),
            ],
            None => seq![],
        },
    };
    concat_view(left + right)
}

pub open spec fn assigns_view(assigns: Seq<AssignView>) -> Seq<DocView>
    decreases assigns, 0int,
{
    Seq::new(
        assigns.len(),
        |i: int|
            if 0 <= i < assigns.len() {
                assign_view(assigns[i])
            } else {
                DocView::Nil
            },
    )
}

pub open spec fn array_elem_view(e: ArrayElemView) -> DocView
    decreases e, 0int,
{
    concat_view(
        match e.index {
            Some(idx) => seq![index_view(idx), text_view("="@)],
            None => seq![],
        } + match e.value {
            Some(v) => seq![word_view(v)],
            None => seq![],
        },
    )
}

pub open spec fn array_elems_view(elems: Seq<ArrayElemView>) -> Seq<DocView>
    decreases elems, 0int,
{
    Seq::new(
        elems.len(),
        |i: int|
            if 0 <= i < elems.len() {
                array_elem_view(elems[i])
            } else {
                DocView::Nil
            },
    )
}

pub open spec fn redir_view(r: RedirectView) -> DocView
    decreases r, 0int,
{
    concat_view(
        match r.n {
            Some(n) => seq![text_view(n.value)],
            None => seq![],
        } + seq![text_view(r.op.spelling())] + match r.word {
            Some(w) => seq![word_view(w)],
            None => seq![],
        },
    )
}

pub open spec fn redirs_view(redirs: Seq<RedirectView>) -> Seq<DocView>
    decreases redirs, 0int,
{
    Seq::new(
        redirs.len(),
        |i: int|
            if 0 <= i < redirs.len() {
                redir_view(redirs[i])
            } else {
                DocView::Nil
            },
    )
}

pub open spec fn word_view(w: WordView) -> DocView
    decreases w, 0int,
{
    concat_view(parts_view(w.parts))
}

pub open spec fn words_view(words: Seq<WordView>) -> Seq<DocView>
    decreases words, 0int,
{
    Seq::new(
        words.len(),
        |i: int|
            if 0 <= i < words.len() {
                word_view(words[i])
            } else {
                DocView::Nil
            },
    )
}

pub open spec fn parts_view(parts: Seq<WordPartView>) -> Seq<DocView>
    decreases parts, 0int,
{
    Seq::new(
        parts.len(),
        |i: int|
            if 0 <= i < parts.len() {
                word_part_view(parts[i])
            } else {
                DocView::Nil
            },
    )
}

pub open spec fn word_part_view(wp: WordPartView) -> DocView
    decreases wp, 0int,
{
    match wp {
        WordPartView::Lit(l) => text_view(l.value),
        WordPartView::SglQuoted(q) => text_view(
            if q.dollar {
                "$"@
            } else {
                ""@
            } + "'"@ + q.value + "'"@,
        ),
        WordPartView::DblQuoted(q) => concat_view(
            part_if(q.dollar, text_view("$"@)) + seq![text_view("\""@)] + parts_view(q.parts) + seq![
                text_view("\""@),
            ],
        ),
        WordPartView::ParamExp(pe) => param_exp_view(*pe),
        WordPartView::CmdSubst(cs) => if cs.backquotes {
            concat_view(seq![text_view("`"@), inline_view(cs.stmts), text_view("`"@)])
        } else {
            concat_view(seq![paren_view("$("@, cs.stmts), inline_view(cs.stmts), text_view(")"@)])
        },
        WordPartView::ArithmExp(a) => concat_view(
            seq![text_view("$(("@), arithm_view(a.x, false), text_view("))"@)],
        ),
        WordPartView::ProcSubst(ps) => concat_view(
            seq![text_view(ps.op.spelling()), inline_view(ps.stmts), text_view(")"@)],
        ),
        WordPartView::ExtGlob(g) => text_view(g.op.spelling() + g.pattern.value + ")"@),
        WordPartView::BraceExp(b) => concat_view(
            seq![
                text_view("{"@),
                join_view(
                    text_view(
                        if b.sequence {
                            ".."@
                        } else {
                            ","@
                        },
                    ),
                    words_view(b.elems),
                ),
                text_view("}"@),
            ],
        ),
    }
}

pub open spec fn index_view(idx: ArithmExprView) -> DocView
    decreases idx, 1int,
{
    concat_view(seq![text_view("["@), arithm_view(idx, false), text_view("]"@)])
}

/// What follows the parameter in `${…}`.
pub open spec fn param_suffix_view(pe: ParamExpView) -> Seq<DocView>
    decreases pe, 0int,
{
    match pe.slice {
        Some(sl) => seq![text_view(":"@)] + match sl.offset {
            Some(o) => seq![arithm_view(o, true)],
            None => seq![],
        } + match sl.length {
            Some(l) => seq![text_view(":"@), arithm_view(l, true)],
            None => seq![],
        },
        None => match pe.repl {
            Some(r) => part_if(r.all, text_view("/"@)) + seq![text_view("/"@)] + match r.orig {
                Some(o) => seq![word_view(o)],
                None => seq![],
            } + seq![text_view("/"@)] + match r.with {
                Some(w) => seq![word_view(w)],
                None => seq![],
            },
            None => match pe.names {
                Some(n) => seq![text_view(n.spelling())],
                None => match pe.exp {
                    Some(exp) => seq![text_view(exp.op.spelling())] + match exp.word {
                        Some(w) => seq![word_view(w)],
                        None => seq![],
                    },
                    None => seq![],
                },
            },
        },
    }
}

pub open spec fn param_exp_view(pe: ParamExpView) -> DocView
    decreases pe, 1int,
{
    let index = match pe.index {
        Some(idx) => seq![index_view(idx)],
        None => seq![],
    };
    if pe.short && pe.index is Some {
        // Naked index: arr[x]
        concat_view(seq![text_view(pe.param.value)] + index)
    } else if pe.short {
        text_view("$"@ + pe.param.value)
    } else {
        let mark = if pe.length {
            seq![text_view("#"@)]
        } else if pe.width {
            seq![text_view("%"@)]
        } else if pe.excl {
            seq![text_view("!"@)]
        } else {
            seq![]
        };
        concat_view(
            seq![text_view("${"@)] + mark + seq![text_view(pe.param.value)] + index
                + param_suffix_view(pe) + seq![text_view("}"@)],
        )
    }
}

pub open spec fn arithm_view(e: ArithmExprView, compact: bool) -> DocView
    decreases e, 0int,
{
    match e {
        ArithmExprView::Word(w) => word_view(*w),
        ArithmExprView::Paren(p) => concat_view(
            seq![text_view("("@), arithm_view(p.x, compact), text_view(")"@)],
        ),
        ArithmExprView::Unary(u) => if u.post {
            concat_view(seq![arithm_view(u.x, compact), text_view(u.op.spelling())])
        } else {
            concat_view(seq![text_view(u.op.spelling()), arithm_view(u.x, compact)])
        },
        ArithmExprView::Binary(b) => {
            let op = if compact {
                b.op.spelling()
            } else if b.op == BinAritOperator::Comma {
                b.op.spelling() + " "@
            } else {
                " "@ + b.op.spelling() + " "@
            };
            concat_view(seq![arithm_view(b.x, compact), text_view(op), arithm_view(b.y, compact)])
        },
    }
}

pub open spec fn compact_arithms_view(exprs: Seq<ArithmExprView>) -> Seq<DocView>
    decreases exprs, 0int,
{
    Seq::new(
        exprs.len(),
        |i: int|
            if 0 <= i < exprs.len() {
                arithm_view(exprs[i], true)
            } else {
                DocView::Nil
            },
    )
}

pub open spec fn test_expr_view(e: TestExprView) -> DocView
    decreases e, 0int,
{
    match e {
        TestExprView::Word(w) => word_view(*w),
        TestExprView::Paren(p) => concat_view(
            seq![text_view("("@), test_expr_view(p.x), text_view(")"@)],
        ),
        TestExprView::Unary(u) => concat_view(
            seq![text_view(u.op.spelling() + " "@), test_expr_view(u.x)],
        ),
        TestExprView::Binary(b) => concat_view(
            seq![
                test_expr_view(b.x),
                text_view(" "@ + b.op.spelling() + " "@),
                test_expr_view(b.y),
            ],
        ),
    }
}

// ---------------------------------------------------------------------------
// The printer
// ---------------------------------------------------------------------------

/// Format a whole file to a string, with a trailing newline.
pub fn format(file: &File, width: isize) -> (out: String)
    ensures
        out@ == format_view(file@, width as int),
{
    let mut s = pretty(width, &file_doc(file));
    let n: usize = s.unicode_len();
    if n > 0 && s.get_char(n - 1) != '\n' {
        s.push('\n');
    }
    s
}

fn txt(s: &str) -> (d: Doc)
    ensures
        d@ == text_view(s@),
{
    Doc::text(s)
}

/// `a` and `b` in one string.
fn cat(a: &str, b: &str) -> (s: String)
    ensures
        s@ == a@ + b@,
{
    let mut s = String::new();
    push_str(&mut s, a);
    push_str(&mut s, b);
    assert(s@ =~= a@ + b@);
    s
}

/// `a`, `b` and `c` in one string.
fn cat3(a: &str, b: &str, c: &str) -> (s: String)
    ensures
        s@ == a@ + b@ + c@,
{
    let mut s = cat(a, b);
    push_str(&mut s, c);
    s
}

fn concat2(a: Doc, b: Doc) -> (d: Doc)
    ensures
        d@ == concat_view(seq![a@, b@]),
{
    let mut v: Vec<Doc> = Vec::new();
    v.push(a);
    v.push(b);
    assert(doc_views(v@) =~= seq![a@, b@]);
    Doc::concat(v)
}

fn concat3(a: Doc, b: Doc, c: Doc) -> (d: Doc)
    ensures
        d@ == concat_view(seq![a@, b@, c@]),
{
    let mut v: Vec<Doc> = Vec::new();
    v.push(a);
    v.push(b);
    v.push(c);
    assert(doc_views(v@) =~= seq![a@, b@, c@]);
    Doc::concat(v)
}

fn concat4(a: Doc, b: Doc, c: Doc, e: Doc) -> (d: Doc)
    ensures
        d@ == concat_view(seq![a@, b@, c@, e@]),
{
    let mut v: Vec<Doc> = Vec::new();
    v.push(a);
    v.push(b);
    v.push(c);
    v.push(e);
    assert(doc_views(v@) =~= seq![a@, b@, c@, e@]);
    Doc::concat(v)
}

/// Append `docs` to `out`.
fn push_all(out: &mut Vec<Doc>, docs: Vec<Doc>)
    ensures
        doc_views(final(out)@) == doc_views(old(out)@) + doc_views(docs@),
{
    let ghost before = doc_views(out@);
    for d in it: docs
        invariant
            it.seq() == docs@,
            doc_views(out@) == before + doc_views(docs@).take(it.index() as int),
    {
        let ghost was = doc_views(out@);
        let ghost k = it.index() as int;
        out.push(d);
        proof {
            assert(doc_views(out@) =~= was.push(d@));
            assert(doc_views(docs@).take(k + 1) =~= doc_views(docs@).take(k).push(d@));
            assert(doc_views(out@) =~= before + doc_views(docs@).take(k + 1));
        }
    }
    assert(doc_views(docs@).take(docs@.len() as int) =~= doc_views(docs@));
}

/// Append `docs` to `out`, a space before each.
fn push_spaced(out: &mut Vec<Doc>, docs: Vec<Doc>)
    ensures
        doc_views(final(out)@) == doc_views(old(out)@) + spaced(doc_views(docs@)),
{
    let ghost before = doc_views(out@);
    assert(before + seq![] =~= before);
    for d in it: docs
        invariant
            it.seq() == docs@,
            doc_views(out@) == before + spaced(doc_views(docs@).take(it.index() as int)),
    {
        let ghost was = doc_views(out@);
        let ghost k = it.index() as int;
        out.push(txt(" "));
        out.push(d);
        proof {
            let done = doc_views(docs@).take(k + 1);
            assert(doc_views(out@) =~= was.push(text_view(" "@)).push(d@));
            assert(done.drop_last() =~= doc_views(docs@).take(k));
            assert(done.last() == d@);
            assert(doc_views(out@) =~= before + spaced(done));
        }
    }
    assert(doc_views(docs@).take(docs@.len() as int) =~= doc_views(docs@));
}

/// Append `part` if `there`.
fn push_if(out: &mut Vec<Doc>, there: bool, part: Doc)
    ensures
        doc_views(final(out)@) == doc_views(old(out)@) + part_if(there, part@),
{
    let ghost before = doc_views(out@);
    if there {
        out.push(part);
    }
    assert(doc_views(out@) =~= before + part_if(there, part@));
}

/// Append `part`.
fn push_doc(out: &mut Vec<Doc>, part: Doc)
    ensures
        doc_views(final(out)@) == doc_views(old(out)@) + seq![part@],
{
    let ghost before = doc_views(out@);
    out.push(part);
    assert(doc_views(out@) =~= before + seq![part@]);
}

/// No documents yet.
fn no_docs() -> (out: Vec<Doc>)
    ensures
        doc_views(out@) == Seq::<DocView>::empty(),
{
    let out: Vec<Doc> = Vec::new();
    assert(doc_views(out@) =~= Seq::<DocView>::empty());
    out
}

fn file_doc(f: &File) -> (d: Doc)
    ensures
        d@ == file_view(f@),
{
    assert(f@.stmts =~= stmt_views(f.stmts@));
    Doc::join(Doc::hard_line(), stmt_docs(&f.stmts))
}

// ---------------------------------------------------------------------------
// Statements
// ---------------------------------------------------------------------------

fn stmt_doc(s: &Stmt) -> (d: Doc)
    ensures
        d@ == stmt_view(s@),
    decreases s, 0int,
{
    let mut parts = no_docs();
    push_if(&mut parts, s.negated, txt("! "));
    match &s.cmd {
        Some(cmd) => push_doc(&mut parts, command_doc(cmd)),
        None => {},
    }
    push_spaced(&mut parts, redir_docs(&s.redirs));
    push_if(&mut parts, s.background, txt(" &"));
    push_if(&mut parts, s.coprocess, txt(" |&"));
    proof {
        assert(s@.redirs =~= redirect_views(s.redirs@));
        let cmd = match s@.cmd {
            Some(c) => seq![command_view(c)],
            None => seq![],
        };
        assert(doc_views(parts@) =~= part_if(s.negated, text_view("! "@)) + cmd + spaced(
            redirs_view(s@.redirs),
        ) + part_if(s.background, text_view(" &"@)) + part_if(s.coprocess, text_view(" |&"@)));
    }
    Doc::concat(parts)
}

fn stmt_docs(stmts: &Vec<Stmt>) -> (docs: Vec<Doc>)
    ensures
        doc_views(docs@) == stmts_view(stmt_views(stmts@)),
    decreases stmts, 0int,
{
    let mut docs: Vec<Doc> = Vec::new();
    let mut i: usize = 0;
    while i < stmts.len()
        invariant
            i <= stmts@.len(),
            docs@.len() == i,
            forall|k: int| 0 <= k < i ==> (#[trigger] docs@[k])@ == stmt_view(stmts@[k]@),
        decreases stmts@.len() - i,
    {
        docs.push(stmt_doc(&stmts[i]));
        i += 1;
    }
    assert(doc_views(docs@) =~= stmts_view(stmt_views(stmts@)));
    docs
}

/// Statements rendered on a single conceptual line, separated by `; `, or by a
/// blank behind `&`.
fn inline_stmts(stmts: &Vec<Stmt>) -> (d: Doc)
    ensures
        d@ == inline_view(stmt_views(stmts@)),
    decreases stmts, 2int,
{
    body_doc(stmts, &txt(";"), &txt(" "))
}

/// Statements one after the other: each with `semi`, if it needs one, and the
/// break behind it, but for the last.
fn body_doc(stmts: &Vec<Stmt>, semi: &Doc, nl: &Doc) -> (d: Doc)
    ensures
        d@ == body_view(stmt_views(stmts@), semi@, nl@),
    decreases stmts, 1int,
{
    let ghost all = stmts_view(stmt_views(stmts@));
    let ghost seps = separators_view(stmt_views(stmts@), semi@, nl@);
    let mut out = no_docs();
    let mut i: usize = 0;
    assert(weave(all.take(0), seps) =~= seq![]);
    while i < stmts.len()
        invariant
            i <= stmts@.len(),
            all == stmts_view(stmt_views(stmts@)),
            seps == separators_view(stmt_views(stmts@), semi@, nl@),
            doc_views(out@) == weave(all.take(i as int), seps),
        decreases stmts@.len() - i,
    {
        let ghost before = doc_views(out@);
        if i > 0 {
            let s = &stmts[i - 1];
            assert(stmt_views(stmts@)[i - 1] == s@);
            push_doc(&mut out, concat2(semicolon(s, semi), nl.clone()));
        }
        let d = stmt_doc(&stmts[i]);
        assert(d@ == all[i as int]);
        push_doc(&mut out, d);
        i += 1;
        proof {
            let done = all.take(i as int);
            assert(done.drop_last() =~= all.take(i - 1));
            assert(done.last() == all[i - 1]);
            if i == 1 {
                assert(doc_views(out@) =~= seq![all[0]]);
                assert(weave(done, seps) =~= seq![all[0]]);
            } else {
                assert(doc_views(out@) =~= before.push(seps[i - 2]).push(all[i - 1]));
            }
        }
    }
    assert(all.take(all.len() as int) =~= all);
    Doc::concat(out)
}

/// The `;` behind `s`, if it needs one.
fn semicolon(s: &Stmt, semi: &Doc) -> (d: Doc)
    ensures
        d@ == semicolon_view(s@, semi@),
{
    if s.background || s.coprocess {
        Doc::Nil
    } else {
        semi.clone()
    }
}

/// The inline `;` behind the last of `stmts`, if it needs one.
fn closing_semi(stmts: &Vec<Stmt>) -> (d: Doc)
    ensures
        d@ == closing_view(stmt_views(stmts@), inline_semicolon()),
{
    if stmts.len() > 0 {
        let s = &stmts[stmts.len() - 1];
        assert(stmt_views(stmts@).last() == s@);
        semicolon(s, &inline_semi())
    } else {
        inline_semi()
    }
}

/// What stands between a condition and the keyword behind it.
fn after_cond(cond: &Vec<Stmt>) -> (d: Doc)
    ensures
        d@ == after_view(stmt_views(cond@)),
{
    if cond.len() > 0 {
        let s = &cond[cond.len() - 1];
        assert(stmt_views(cond@).last() == s@);
        if s.background || s.coprocess {
            return txt(" ");
        }
    }
    txt("; ")
}

/// Whether the text of `s` can start with `(`.
fn opens_with_paren(s: &Stmt) -> (yes: bool)
    ensures
        yes == starts_with_paren(s@),
    decreases s,
{
    match &s.cmd {
        Some(Command::Binary(x)) => opens_with_paren(&x.x),
        Some(Command::Subshell(_)) => !s.negated,
        Some(Command::Arithm(_)) => !s.negated,
        Some(Command::Call(c)) => {
            assert(c@.args =~= word_views(c.args@));
            !s.negated && c.args.len() > 0 && word_opens_with_paren(&c.args[0])
        },
        _ => false,
    }
}

/// Whether the text of `w` starts with `(`.
fn word_opens_with_paren(w: &Word) -> (yes: bool)
    ensures
        yes == word_starts_with_paren(w@),
{
    assert(w@.parts =~= word_part_views(w.parts@));
    if w.parts.len() == 0 {
        return false;
    }
    match &w.parts[0] {
        WordPart::Lit(l) => char_at(&l.value, 0) == Some('('),
        _ => false,
    }
}

/// The parenthesis `open` before `stmts`: with a blank behind it where it would
/// read as `((` otherwise.
fn open_paren(open: &str, stmts: &Vec<Stmt>) -> (d: Doc)
    ensures
        d@ == paren_view(open@, stmt_views(stmts@)),
{
    if stmts.len() > 0 && opens_with_paren(&stmts[0]) {
        txt(&cat(open, " "))
    } else {
        txt(open)
    }
}

// ---------------------------------------------------------------------------
// Commands
// ---------------------------------------------------------------------------

fn command_doc(cmd: &Command) -> (d: Doc)
    ensures
        d@ == command_view(cmd@),
    decreases cmd, 0int,
{
    match cmd {
        Command::Call(c) => call_doc(c),
        Command::Binary(b) => binary_doc(b),
        Command::Block(b) => {
            assert(b@.stmts =~= stmt_views(b.stmts@));
            keyword_block("{", "}", &b.stmts)
        },
        Command::Subshell(s) => {
            assert(s@.stmts =~= stmt_views(s.stmts@));
            concat3(open_paren("(", &s.stmts), inline_stmts(&s.stmts), txt(")"))
        },
        Command::If(i) => if_doc(i),
        Command::For(f) => for_doc(f),
        Command::While(w) => while_doc(w),
        Command::Case(c) => case_doc(c),
        Command::Func(f) => func_doc(f),
        Command::Test(t) => concat3(txt("[[ "), test_expr_doc(&t.x), txt(" ]]")),
        Command::Arithm(a) => concat3(txt("(("), arithm_doc(&a.x, false), txt("))")),
        Command::Decl(d) => decl_doc(d),
        Command::Let(l) => let_doc(l),
        Command::Time(t) => time_doc(t),
        Command::Coproc(c) => coproc_doc(c),
    }
}

fn call_doc(c: &CallExpr) -> (d: Doc)
    ensures
        d@ == call_view(c@),
    decreases c, 0int,
{
    let mut items = assign_docs(&c.assigns);
    push_all(&mut items, word_docs(&c.args));
    assert(c@.assigns =~= assign_views(c.assigns@));
    assert(c@.args =~= word_views(c.args@));
    Doc::join(txt(" "), items)
}

/// One operand of a chain behind its operator.
fn segment(op: BinCmdOperator, operand: Doc) -> (d: Doc)
    ensures
        d@ == segment_view(op, operand@),
{
    // operator-at-end style: ` &&` stays on the previous line, the
    // line break (when broken) precedes the next operand.
    let lead = cat(" ", op.as_str());
    concat3(txt(&lead), Doc::line(), operand)
}

/// Flattens a same-shape binary chain: returns the first operand, and appends
/// the others, each behind its operator, to `rest`.
fn flatten_chain(s: &Stmt, rest: &mut Vec<Doc>) -> (first: Doc)
    ensures
        first@ == chain_first_view(s@),
        doc_views(final(rest)@) == doc_views(old(rest)@) + chain_rest_view(s@),
    decreases s, 1int,
{
    let ghost before = doc_views(rest@);
    match &s.cmd {
        Some(Command::Binary(b)) => {
            let first = flatten_chain(&b.x, rest);
            push_doc(rest, segment(b.op, stmt_doc(&b.y)));
            assert(doc_views(rest@) =~= before + chain_rest_view(s@));
            first
        },
        _ => {
            assert(doc_views(rest@) =~= before + chain_rest_view(s@));
            stmt_doc(s)
        },
    }
}

fn binary_doc(b: &BinaryCmd) -> (d: Doc)
    ensures
        d@ == binary_view(b@),
    decreases b, 0int,
{
    let mut rest = no_docs();
    let first = flatten_chain(&b.x, &mut rest);
    push_doc(&mut rest, segment(b.op, stmt_doc(&b.y)));
    assert(doc_views(rest@) =~= chain_rest_view(b@.x).push(segment_view(b.op, stmt_view(b@.y))));
    Doc::group(concat2(first, Doc::nest(INDENT, Doc::concat(rest))))
}

/// The break of a body: a hard one if the body must expand.
fn break_doc(force: bool) -> (d: Doc)
    ensures
        d@ == break_view(force),
{
    if force {
        Doc::hard_line()
    } else {
        Doc::line()
    }
}

/// A `;` that is there only where the enclosing group is flat.
fn inline_semi() -> (d: Doc)
    ensures
        d@ == inline_semicolon(),
{
    Doc::if_break(Doc::Nil, txt(";"))
}

/// Shared renderer for `do…done` and `{ … }` style bodies.
fn keyword_block(open: &str, close: &str, stmts: &Vec<Stmt>) -> (d: Doc)
    ensures
        d@ == keyword_block_view(open@, close@, stmt_views(stmts@)),
    decreases stmts, 2int,
{
    if stmts.len() == 0 {
        return concat3(txt(open), txt(" "), txt(close));
    }
    let force: bool = stmts.len() > 1;
    let nl = break_doc(force);
    let body = body_doc(stmts, &inline_semi(), &nl);
    let mut items = no_docs();
    push_doc(&mut items, txt(open));
    push_doc(&mut items, Doc::nest(INDENT, concat2(nl.clone(), body)));
    push_doc(&mut items, closing_semi(stmts));  // trailing `;` before close, inline only
    let ghost nlv = nl@;
    push_doc(&mut items, nl);  // dedented break before close
    push_doc(&mut items, txt(close));
    assert(doc_views(items@) =~= seq![
        text_view(open@),
        nest_view(
            concat_view(seq![nlv, body_view(stmt_views(stmts@), inline_semicolon(), nlv)]),
        ),
        closing_view(stmt_views(stmts@), inline_semicolon()),
        nlv,
        text_view(close@),
    ]);
    Doc::group(Doc::concat(items))
}

fn for_doc(f: &ForClause) -> (d: Doc)
    ensures
        d@ == for_view(f@),
    decreases f, 0int,
{
    let kw = if f.select {
        "select "
    } else {
        "for "
    };
    assert(f@.do_ =~= stmt_views(f.do_@));
    concat4(txt(kw), loop_doc(&f.loop_), txt("; "), keyword_block("do", "done", &f.do_))
}

fn while_doc(w: &WhileClause) -> (d: Doc)
    ensures
        d@ == while_view(w@),
    decreases w, 0int,
{
    let kw = if w.until {
        "until "
    } else {
        "while "
    };
    assert(w@.cond =~= stmt_views(w.cond@));
    assert(w@.do_ =~= stmt_views(w.do_@));
    concat4(
        txt(kw),
        inline_stmts(&w.cond),
        after_cond(&w.cond),
        keyword_block("do", "done", &w.do_),
    )
}

/// An optional expression of a C-style loop head.
fn arithm_option_doc(e: &Option<ArithmExpr>) -> (d: Doc)
    ensures
        d@ == arithm_option_view(
            match *e {
                Some(x) => Some(x@),
                None => None,
            },
        ),
    decreases e, 0int,
{
    match e {
        Some(x) => arithm_doc(x, false),
        None => Doc::Nil,
    }
}

fn loop_doc(l: &Loop) -> (d: Doc)
    ensures
        d@ == loop_view(l@),
    decreases l, 0int,
{
    match l {
        Loop::Word(wi) => word_iter_doc(wi),
        Loop::CStyle(c) => cstyle_doc(c),
    }
}

fn word_iter_doc(wi: &WordIter) -> (d: Doc)
    ensures
        d@ == word_iter_view(wi@),
    decreases wi, 0int,
{
    if !wi.in_pos.is_valid() {
        return txt(&wi.name.value);
    }
    assert(wi@.items =~= word_views(wi.items@));
    concat3(txt(&wi.name.value), txt(" in "), Doc::join(txt(" "), word_docs(&wi.items)))
}

fn cstyle_doc(c: &CStyleLoop) -> (d: Doc)
    ensures
        d@ == cstyle_view(c@),
    decreases c, 0int,
{
    let init = arithm_option_doc(&c.init);
    let cond = arithm_option_doc(&c.cond);
    let post = arithm_option_doc(&c.post);
    for_head(init, cond, post)
}

/// The head `((init; cond; post))`.
fn for_head(init: Doc, cond: Doc, post: Doc) -> (d: Doc)
    ensures
        d@ == concat_view(
            seq![
                text_view("(("@),
                init@,
                text_view("; "@),
                cond@,
                text_view("; "@),
                post@,
                text_view("))"@),
            ],
        ),
{
    let mut parts: Vec<Doc> = Vec::new();
    parts.push(txt("(("));
    parts.push(init);
    parts.push(txt("; "));
    parts.push(cond);
    parts.push(txt("; "));
    parts.push(post);
    parts.push(txt("))"));
    assert(doc_views(parts@) =~= seq![
        text_view("(("@),
        init@,
        text_view("; "@),
        cond@,
        text_view("; "@),
        post@,
        text_view("))"@),
    ]);
    Doc::concat(parts)
}

/// The statements of a branch behind its keyword: `<kw> body` with nested break
/// and inline trailing `;`.
fn branch_docs(keyword: &str, nl: &Doc, stmts: &Vec<Stmt>) -> (docs: Vec<Doc>)
    ensures
        doc_views(docs@) == branch_view(keyword@, nl@, stmt_views(stmts@)),
    decreases stmts, 2int,
{
    let body = body_doc(stmts, &inline_semi(), nl);
    let mut docs = no_docs();
    push_doc(&mut docs, txt(keyword));
    push_doc(&mut docs, Doc::nest(INDENT, concat2(nl.clone(), body)));
    push_doc(&mut docs, closing_semi(stmts));
    assert(doc_views(docs@) =~= branch_view(keyword@, nl@, stmt_views(stmts@)));
    docs
}

/// The `elif` and `else` branches of an `if`.
fn else_docs(nl: &Doc, tail: &Option<Box<IfClause>>) -> (docs: Vec<Doc>)
    ensures
        doc_views(docs@) == else_view(
            nl@,
            match *tail {
                Some(c) => Some(Box::new(c@)),
                None => None,
            },
        ),
    decreases tail, 0int,
{
    match tail {
        None => no_docs(),
        Some(c) => {
            let ic: &IfClause = c;
            match ic {
                IfClause { cond, then: body, else_, .. } => {
                    assert(ic@.cond =~= stmt_views(cond@));
                    assert(ic@.then_ =~= stmt_views(body@));
                    let mut docs = no_docs();
                    if ic.then_pos.is_valid() {
                        // elif
                        push_doc(&mut docs, txt("elif "));
                        push_doc(&mut docs, inline_stmts(cond));
                        push_doc(&mut docs, after_cond(cond));
                        push_doc(&mut docs, Doc::concat(branch_docs("then", nl, body)));
                        push_doc(&mut docs, nl.clone());
                        assert(doc_views(docs@) =~= seq![
                            text_view("elif "@),
                            inline_view(ic@.cond),
                            after_view(ic@.cond),
                            concat_view(branch_view("then"@, nl@, ic@.then_)),
                            nl@,
                        ]);
                    } else {
                        // else
                        push_all(&mut docs, branch_docs("else", nl, body));
                        push_doc(&mut docs, nl.clone());
                        assert(doc_views(docs@) =~= branch_view("else"@, nl@, ic@.then_).push(nl@));
                    }
                    push_all(&mut docs, else_docs(nl, else_));
                    docs
                },
            }
        },
    }
}

fn if_doc(ic: &IfClause) -> (d: Doc)
    ensures
        d@ == if_view(ic@),
    decreases ic, 0int,
{
    match ic {
        IfClause { cond, then: body, else_, .. } => {
            assert(ic@.cond =~= stmt_views(cond@));
            assert(ic@.then_ =~= stmt_views(body@));
            let nl = break_doc(needs_break(ic));
            let mut items = no_docs();
            push_doc(&mut items, txt("if "));
            push_doc(&mut items, inline_stmts(cond));
            push_doc(&mut items, after_cond(cond));
            push_doc(&mut items, Doc::concat(branch_docs("then", &nl, body)));
            push_doc(&mut items, nl.clone());
            assert(doc_views(items@) =~= seq![
                text_view("if "@),
                inline_view(ic@.cond),
                after_view(ic@.cond),
                concat_view(branch_view("then"@, nl@, ic@.then_)),
                nl@,
            ]);
            push_all(&mut items, else_docs(&nl, else_));
            push_doc(&mut items, txt("fi"));
            Doc::group(Doc::concat(items))
        },
    }
}

/// An `if` expands if it has any else/elif branch or a multi-statement body.
fn needs_break(ic: &IfClause) -> (yes: bool)
    ensures
        yes == (ic@.then_.len() > 1 || ic@.else_ is Some),
{
    match ic {
        IfClause { then: body, else_, .. } => body.len() > 1 || else_.is_some(),
    }
}

fn case_item_doc(ci: &CaseItem) -> (d: Doc)
    ensures
        d@ == case_item_view(ci@),
    decreases ci, 0int,
{
    assert(ci@.stmts =~= stmt_views(ci.stmts@));
    assert(ci@.patterns =~= word_views(ci.patterns@));
    let pats = Doc::join(txt(" | "), word_docs(&ci.patterns));
    let body = if ci.stmts.len() == 0 {
        Doc::Nil
    } else {
        Doc::nest(INDENT, concat2(Doc::hard_line(), inline_stmts(&ci.stmts)))
    };
    let end = cat(" ", ci.op.as_str());
    let ghost bodyv = body@;
    let mut items = no_docs();
    push_doc(&mut items, Doc::hard_line());
    push_doc(&mut items, pats);
    push_doc(&mut items, txt(")"));
    push_doc(&mut items, body);
    push_doc(&mut items, txt(&end));
    assert(doc_views(items@) =~= seq![
        DocView::HardLine,
        join_view(text_view(" | "@), words_view(ci@.patterns)),
        text_view(")"@),
        bodyv,
        text_view(" "@ + ci.op.spelling()),
    ]);
    Doc::nest(INDENT, Doc::concat(items))
}

fn case_item_docs(items: &Vec<CaseItem>) -> (docs: Vec<Doc>)
    ensures
        doc_views(docs@) == case_items_view(case_item_views(items@)),
    decreases items, 0int,
{
    let mut docs: Vec<Doc> = Vec::new();
    let mut i: usize = 0;
    while i < items.len()
        invariant
            i <= items@.len(),
            docs@.len() == i,
            forall|k: int| 0 <= k < i ==> (#[trigger] docs@[k])@ == case_item_view(items@[k]@),
        decreases items@.len() - i,
    {
        docs.push(case_item_doc(&items[i]));
        i += 1;
    }
    assert(doc_views(docs@) =~= case_items_view(case_item_views(items@)));
    docs
}

fn case_doc(c: &CaseClause) -> (d: Doc)
    ensures
        d@ == case_view(c@),
    decreases c, 0int,
{
    let mut items = no_docs();
    push_doc(&mut items, txt("case "));
    push_doc(&mut items, word_doc(&c.word));
    push_doc(&mut items, txt(" in"));
    assert(doc_views(items@) =~= seq![text_view("case "@), word_view(c@.word), text_view(" in"@)]);
    push_all(&mut items, case_item_docs(&c.items));
    assert(c@.items =~= case_item_views(c.items@));
    push_doc(&mut items, Doc::hard_line());
    push_doc(&mut items, txt("esac"));
    assert(doc_views(items@) =~= seq![
        text_view("case "@),
        word_view(c@.word),
        text_view(" in"@),
    ] + case_items_view(c@.items) + seq![DocView::HardLine, text_view("esac"@)]);
    Doc::concat(items)
}

fn func_doc(f: &FuncDecl) -> (d: Doc)
    ensures
        d@ == func_view(f@),
    decreases f, 0int,
{
    let prefix = if f.rsrv_word {
        "function "
    } else {
        ""
    };
    let head = cat3(prefix, &f.name.value, "() ");
    concat2(txt(&head), stmt_doc(&f.body))
}

fn decl_doc(d: &DeclClause) -> (res: Doc)
    ensures
        res@ == decl_view(d@),
    decreases d, 0int,
{
    let mut items = no_docs();
    push_doc(&mut items, txt(&d.variant.value));
    assert(doc_views(items@) =~= seq![text_view(d.variant.value@)]);
    push_spaced(&mut items, assign_docs(&d.args));
    assert(d@.args =~= assign_views(d.args@));
    Doc::concat(items)
}

fn let_doc(l: &LetClause) -> (d: Doc)
    ensures
        d@ == let_view(l@),
    decreases l, 0int,
{
    let mut items = no_docs();
    push_doc(&mut items, txt("let"));
    assert(doc_views(items@) =~= seq![text_view("let"@)]);
    push_spaced(&mut items, compact_arithm_docs(&l.exprs));
    assert(l@.exprs =~= arithm_expr_views(l.exprs@));
    Doc::concat(items)
}

fn time_doc(t: &TimeClause) -> (d: Doc)
    ensures
        d@ == time_view(t@),
    decreases t, 0int,
{
    let mut items = no_docs();
    push_doc(&mut items, txt("time"));
    assert(doc_views(items@) =~= seq![text_view("time"@)]);
    push_if(&mut items, t.posix_format, txt(" -p"));
    let ghost before = doc_views(items@);
    match &t.stmt {
        Some(s) => {
            push_doc(&mut items, txt(" "));
            push_doc(&mut items, stmt_doc(s));
            assert(doc_views(items@) =~= before + seq![text_view(" "@), stmt_view(s@)]);
        },
        None => {
            assert(doc_views(items@) =~= before + seq![]);
        },
    }
    Doc::concat(items)
}

fn coproc_doc(c: &CoprocClause) -> (d: Doc)
    ensures
        d@ == coproc_view(c@),
    decreases c, 0int,
{
    let mut items = no_docs();
    push_doc(&mut items, txt("coproc"));
    assert(doc_views(items@) =~= seq![text_view("coproc"@)]);
    match &c.name {
        Some(n) => {
            push_doc(&mut items, txt(" "));
            push_doc(&mut items, word_doc(n));
            assert(doc_views(items@) =~= seq![text_view("coproc"@)] + seq![
                text_view(" "@),
                word_view(n@),
            ]);
        },
        None => {
            assert(doc_views(items@) =~= seq![text_view("coproc"@)] + seq![]);
        },
    }
    let ghost before = doc_views(items@);
    push_doc(&mut items, txt(" "));
    push_doc(&mut items, stmt_doc(&c.stmt));
    assert(doc_views(items@) =~= before + seq![text_view(" "@), stmt_view(c@.stmt)]);
    Doc::concat(items)
}

// ---------------------------------------------------------------------------
// Assignments and redirections
// ---------------------------------------------------------------------------

fn assign_doc(a: &Assign) -> (d: Doc)
    ensures
        d@ == assign_view(a@),
    decreases a, 0int,
{
    let mut items = no_docs();
    match &a.name {
        Some(name) => {
            push_doc(&mut items, txt(&name.value));
            assert(doc_views(items@) =~= seq![text_view(name.value@)]);
            let ghost before = doc_views(items@);
            match &a.index {
                Some(idx) => push_doc(&mut items, index_doc(idx)),
                None => {
                    assert(doc_views(items@) =~= before + seq![]);
                },
            }
            push_if(&mut items, a.append, txt("+"));
            push_if(&mut items, !a.naked, txt("="));
        },
        None => {},
    }
    let ghost left = doc_views(items@);
    match &a.value {
        Some(v) => push_doc(&mut items, word_doc(v)),
        None => match &a.array {
            Some(arr) => {
                push_doc(&mut items, txt("("));
                push_doc(&mut items, Doc::join(txt(" "), array_elem_docs(&arr.elems)));
                push_doc(&mut items, txt(")"));
                assert(arr@.elems =~= array_elem_views(arr.elems@));
                assert(doc_views(items@) =~= left + seq![
                    text_view("("@),
                    join_view(text_view(" "@), array_elems_view(arr@.elems)),
                    text_view(")"@),
                ]);
            },
            None => {
                assert(doc_views(items@) =~= left + seq![]);
            },
        },
    }
    Doc::concat(items)
}

fn assign_docs(assigns: &Vec<Assign>) -> (docs: Vec<Doc>)
    ensures
        doc_views(docs@) == assigns_view(assign_views(assigns@)),
    decreases assigns, 0int,
{
    let mut docs: Vec<Doc> = Vec::new();
    let mut i: usize = 0;
    while i < assigns.len()
        invariant
            i <= assigns@.len(),
            docs@.len() == i,
            forall|k: int| 0 <= k < i ==> (#[trigger] docs@[k])@ == assign_view(assigns@[k]@),
        decreases assigns@.len() - i,
    {
        docs.push(assign_doc(&assigns[i]));
        i += 1;
    }
    assert(doc_views(docs@) =~= assigns_view(assign_views(assigns@)));
    docs
}

fn array_elem_doc(e: &ArrayElem) -> (d: Doc)
    ensures
        d@ == array_elem_view(e@),
    decreases e, 0int,
{
    let mut items = no_docs();
    match &e.index {
        Some(idx) => {
            push_doc(&mut items, index_doc(idx));
            push_doc(&mut items, txt("="));
            assert(doc_views(items@) =~= seq![index_view(idx@), text_view("="@)]);
        },
        None => {},
    }
    let ghost before = doc_views(items@);
    match &e.value {
        Some(v) => push_doc(&mut items, word_doc(v)),
        None => {
            assert(doc_views(items@) =~= before + seq![]);
        },
    }
    Doc::concat(items)
}

fn array_elem_docs(elems: &Vec<ArrayElem>) -> (docs: Vec<Doc>)
    ensures
        doc_views(docs@) == array_elems_view(array_elem_views(elems@)),
    decreases elems, 0int,
{
    let mut docs: Vec<Doc> = Vec::new();
    let mut i: usize = 0;
    while i < elems.len()
        invariant
            i <= elems@.len(),
            docs@.len() == i,
            forall|k: int| 0 <= k < i ==> (#[trigger] docs@[k])@ == array_elem_view(elems@[k]@),
        decreases elems@.len() - i,
    {
        docs.push(array_elem_doc(&elems[i]));
        i += 1;
    }
    assert(doc_views(docs@) =~= array_elems_view(array_elem_views(elems@)));
    docs
}

fn redir_doc(r: &Redirect) -> (d: Doc)
    ensures
        d@ == redir_view(r@),
    decreases r, 0int,
{
    let mut items = no_docs();
    match &r.n {
        Some(n) => {
            push_doc(&mut items, txt(&n.value));
            assert(doc_views(items@) =~= seq![text_view(n.value@)]);
        },
        None => {},
    }
    push_doc(&mut items, txt(r.op.as_str()));
    let ghost before = doc_views(items@);
    match &r.word {
        Some(w) => push_doc(&mut items, word_doc(w)),
        None => {
            assert(doc_views(items@) =~= before + seq![]);
        },
    }
    Doc::concat(items)
}

fn redir_docs(redirs: &Vec<Redirect>) -> (docs: Vec<Doc>)
    ensures
        doc_views(docs@) == redirs_view(redirect_views(redirs@)),
    decreases redirs, 0int,
{
    let mut docs: Vec<Doc> = Vec::new();
    let mut i: usize = 0;
    while i < redirs.len()
        invariant
            i <= redirs@.len(),
            docs@.len() == i,
            forall|k: int| 0 <= k < i ==> (#[trigger] docs@[k])@ == redir_view(redirs@[k]@),
        decreases redirs@.len() - i,
    {
        docs.push(redir_doc(&redirs[i]));
        i += 1;
    }
    assert(doc_views(docs@) =~= redirs_view(redirect_views(redirs@)));
    docs
}

// ---------------------------------------------------------------------------
// Words and word parts
// ---------------------------------------------------------------------------

fn word_doc(w: &Word) -> (d: Doc)
    ensures
        d@ == word_view(w@),
    decreases w, 0int,
{
    assert(w@.parts =~= word_part_views(w.parts@));
    Doc::concat(part_docs(&w.parts))
}

fn word_docs(words: &Vec<Word>) -> (docs: Vec<Doc>)
    ensures
        doc_views(docs@) == words_view(word_views(words@)),
    decreases words, 0int,
{
    let mut docs: Vec<Doc> = Vec::new();
    let mut i: usize = 0;
    while i < words.len()
        invariant
            i <= words@.len(),
            docs@.len() == i,
            forall|k: int| 0 <= k < i ==> (#[trigger] docs@[k])@ == word_view(words@[k]@),
        decreases words@.len() - i,
    {
        docs.push(word_doc(&words[i]));
        i += 1;
    }
    assert(doc_views(docs@) =~= words_view(word_views(words@)));
    docs
}

fn part_docs(parts: &Vec<WordPart>) -> (docs: Vec<Doc>)
    ensures
        doc_views(docs@) == parts_view(word_part_views(parts@)),
    decreases parts, 0int,
{
    let mut docs: Vec<Doc> = Vec::new();
    let mut i: usize = 0;
    while i < parts.len()
        invariant
            i <= parts@.len(),
            docs@.len() == i,
            forall|k: int| 0 <= k < i ==> (#[trigger] docs@[k])@ == word_part_view(parts@[k]@),
        decreases parts@.len() - i,
    {
        docs.push(word_part_doc(&parts[i]));
        i += 1;
    }
    assert(doc_views(docs@) =~= parts_view(word_part_views(parts@)));
    docs
}

fn word_part_doc(wp: &WordPart) -> (d: Doc)
    ensures
        d@ == word_part_view(wp@),
    decreases wp, 0int,
{
    match wp {
        WordPart::Lit(l) => txt(&l.value),
        WordPart::SglQuoted(q) => {
            let dollar = if q.dollar {
                "$"
            } else {
                ""
            };
            let mut s = cat3(dollar, "'", &q.value);
            push_str(&mut s, "'");
            txt(&s)
        },
        WordPart::DblQuoted(q) => {
            let mut items = no_docs();
            push_if(&mut items, q.dollar, txt("$"));
            push_doc(&mut items, txt("\""));
            push_all(&mut items, part_docs(&q.parts));
            push_doc(&mut items, txt("\""));
            assert(q@.parts =~= word_part_views(q.parts@));
            assert(doc_views(items@) =~= part_if(q.dollar, text_view("$"@)) + seq![
                text_view("\""@),
            ] + parts_view(q@.parts) + seq![text_view("\""@)]);
            Doc::concat(items)
        },
        WordPart::ParamExp(pe) => param_exp_doc(pe),
        WordPart::CmdSubst(cs) => {
            assert(cs@.stmts =~= stmt_views(cs.stmts@));
            if cs.backquotes {
                concat3(txt("`"), inline_stmts(&cs.stmts), txt("`"))
            } else {
                concat3(open_paren("$(", &cs.stmts), inline_stmts(&cs.stmts), txt(")"))
            }
        },
        WordPart::ArithmExp(a) => concat3(txt("$(("), arithm_doc(&a.x, false), txt("))")),
        WordPart::ProcSubst(ps) => {
            assert(ps@.stmts =~= stmt_views(ps.stmts@));
            concat3(txt(ps.op.as_str()), inline_stmts(&ps.stmts), txt(")"))
        },
        WordPart::ExtGlob(g) => {
            let s = cat3(g.op.as_str(), &g.pattern.value, ")");
            txt(&s)
        },
        WordPart::BraceExp(b) => {
            let sep = if b.sequence {
                ".."
            } else {
                ","
            };
            assert(b@.elems =~= word_views(b.elems@));
            concat3(txt("{"), Doc::join(txt(sep), word_docs(&b.elems)), txt("}"))
        },
    }
}

fn index_doc(idx: &ArithmExpr) -> (d: Doc)
    ensures
        d@ == index_view(idx@),
    decreases idx, 1int,
{
    concat3(txt("["), arithm_doc(idx, false), txt("]"))
}

/// What follows the parameter in `${…}`.
fn param_suffix_docs(pe: &ParamExp) -> (docs: Vec<Doc>)
    ensures
        doc_views(docs@) == param_suffix_view(pe@),
    decreases pe, 0int,
{
    let mut items = no_docs();
    match &pe.slice {
        Some(sl) => {
            push_doc(&mut items, txt(":"));
            assert(doc_views(items@) =~= seq![text_view(":"@)]);
            let ghost first = doc_views(items@);
            match &sl.offset {
                Some(o) => push_doc(&mut items, arithm_doc(o, true)),
                None => {
                    assert(doc_views(items@) =~= first + seq![]);
                },
            }
            let ghost second = doc_views(items@);
            match &sl.length {
                Some(l) => {
                    push_doc(&mut items, txt(":"));
                    push_doc(&mut items, arithm_doc(l, true));
                    assert(doc_views(items@) =~= second + seq![
                        text_view(":"@),
                        arithm_view(l@, true),
                    ]);
                },
                None => {
                    assert(doc_views(items@) =~= second + seq![]);
                },
            }
        },
        None => match &pe.repl {
            Some(r) => {
                push_if(&mut items, r.all, txt("/"));
                assert(doc_views(items@) =~= part_if(r.all, text_view("/"@)));
                push_doc(&mut items, txt("/"));
                let ghost first = doc_views(items@);
                match &r.orig {
                    Some(o) => push_doc(&mut items, word_doc(o)),
                    None => {
                        assert(doc_views(items@) =~= first + seq![]);
                    },
                }
                push_doc(&mut items, txt("/"));
                let ghost second = doc_views(items@);
                match &r.with {
                    Some(w) => push_doc(&mut items, word_doc(w)),
                    None => {
                        assert(doc_views(items@) =~= second + seq![]);
                    },
                }
            },
            None => match &pe.names {
                Some(n) => {
                    push_doc(&mut items, txt(n.as_str()));
                    assert(doc_views(items@) =~= seq![text_view(n.spelling())]);
                },
                None => match &pe.exp {
                    Some(exp) => {
                        push_doc(&mut items, txt(exp.op.as_str()));
                        assert(doc_views(items@) =~= seq![text_view(exp.op.spelling())]);
                        let ghost first = doc_views(items@);
                        match &exp.word {
                            Some(w) => push_doc(&mut items, word_doc(w)),
                            None => {
                                assert(doc_views(items@) =~= first + seq![]);
                            },
                        }
                    },
                    None => {},
                },
            },
        },
    }
    items
}

fn param_exp_doc(pe: &ParamExp) -> (d: Doc)
    ensures
        d@ == param_exp_view(pe@),
    decreases pe, 1int,
{
    if pe.short {
        return match &pe.index {
            // Naked index: arr[x]
            Some(idx) => {
                let d = concat2(txt(&pe.param.value), index_doc(idx));
                assert(seq![text_view(pe.param.value@), index_view(idx@)] =~= seq![
                    text_view(pe.param.value@),
                ] + seq![index_view(idx@)]);
                d
            },
            None => {
                let s = cat("$", &pe.param.value);
                txt(&s)
            },
        };
    }
    let mut items = no_docs();
    push_doc(&mut items, txt("${"));
    assert(doc_views(items@) =~= seq![text_view("${"@)]);
    let ghost first = doc_views(items@);
    if pe.length {
        push_doc(&mut items, txt("#"));
    } else if pe.width {
        push_doc(&mut items, txt("%"));
    } else if pe.excl {
        push_doc(&mut items, txt("!"));
    } else {
        assert(doc_views(items@) =~= first + seq![]);
    }
    push_doc(&mut items, txt(&pe.param.value));
    let ghost second = doc_views(items@);
    match &pe.index {
        Some(idx) => push_doc(&mut items, index_doc(idx)),
        None => {
            assert(doc_views(items@) =~= second + seq![]);
        },
    }
    push_all(&mut items, param_suffix_docs(pe));
    push_doc(&mut items, txt("}"));
    Doc::concat(items)
}

// ---------------------------------------------------------------------------
// Arithmetic and test expressions
// ---------------------------------------------------------------------------

fn arithm_doc(e: &ArithmExpr, compact: bool) -> (d: Doc)
    ensures
        d@ == arithm_view(e@, compact),
    decreases e, 0int,
{
    match e {
        ArithmExpr::Word(w) => word_doc(w),
        ArithmExpr::Paren(p) => concat3(txt("("), arithm_doc(&p.x, compact), txt(")")),
        ArithmExpr::Unary(u) => {
            if u.post {
                concat2(arithm_doc(&u.x, compact), txt(u.op.as_str()))
            } else {
                concat2(txt(u.op.as_str()), arithm_doc(&u.x, compact))
            }
        },
        ArithmExpr::Binary(b) => {
            let op: String = if compact {
                b.op.to_string()
            } else if b.op == BinAritOperator::Comma {
                cat(b.op.as_str(), " ")
            } else {
                cat3(" ", b.op.as_str(), " ")
            };
            concat3(arithm_doc(&b.x, compact), txt(&op), arithm_doc(&b.y, compact))
        },
    }
}

fn compact_arithm_docs(exprs: &Vec<ArithmExpr>) -> (docs: Vec<Doc>)
    ensures
        doc_views(docs@) == compact_arithms_view(arithm_expr_views(exprs@)),
    decreases exprs, 0int,
{
    let mut docs: Vec<Doc> = Vec::new();
    let mut i: usize = 0;
    while i < exprs.len()
        invariant
            i <= exprs@.len(),
            docs@.len() == i,
            forall|k: int| 0 <= k < i ==> (#[trigger] docs@[k])@ == arithm_view(exprs@[k]@, true),
        decreases exprs@.len() - i,
    {
        docs.push(arithm_doc(&exprs[i], true));
        i += 1;
    }
    assert(doc_views(docs@) =~= compact_arithms_view(arithm_expr_views(exprs@)));
    docs
}

fn test_expr_doc(e: &TestExpr) -> (d: Doc)
    ensures
        d@ == test_expr_view(e@),
    decreases e, 0int,
{
    match e {
        TestExpr::Word(w) => word_doc(w),
        TestExpr::Paren(p) => concat3(txt("("), test_expr_doc(&p.x), txt(")")),
        TestExpr::Unary(u) => {
            let op = cat(u.op.as_str(), " ");
            concat2(txt(&op), test_expr_doc(&u.x))
        },
        TestExpr::Binary(b) => {
            let op = cat3(" ", b.op.as_str(), " ");
            concat3(test_expr_doc(&b.x), txt(&op), test_expr_doc(&b.y))
        },
    }
}

} // verus!
