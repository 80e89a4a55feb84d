//! The printer never reads source positions.
//!
//! Each kind of node has a bare form, in which every position is absent but for
//! two of which only the presence is kept: that of `then`, which tells an `elif`
//! from an `else`, and that of the `in` of a `for` loop. A tree is printed like
//! its bare form.

use vstd::prelude::*;
use vstd::string::*;
use crate::ast::{ArithmCmdView, ArithmExpView, ArithmExprView, ArrayElemView, ArrayExprView,
    AssignView, BinaryArithmView, BinaryCmdView, BinaryTestView, BlockView, BraceExpView,
    CStyleLoopView, CallExprView, CaseClauseView, CaseItemView, CmdSubstView, CommandView,
    CommentView, CoprocClauseView, DblQuotedView, DeclClauseView, ExpansionView, ExtGlobView,
    FileView, ForClauseView, FuncDeclView, IfClauseView, LetClauseView, LitView, LoopView,
    ParamExpView, ParenArithmView, ParenTestView, Pos, ProcSubstView, RedirectView, ReplaceView,
    SglQuotedView, SliceView, StmtView, SubshellView, TestClauseView, TestExprView, TimeClauseView,
    UnaryArithmView, UnaryTestView, WhileClauseView, WordIterView, WordPartView, WordView};
use crate::doc::DocView;
use crate::parser::{absent, present};
use crate::printer::{after_view, arithm_option_view, arithm_view, array_elem_view, array_elems_view,
    assign_view, assigns_view, binary_view, body_view, branch_view, break_view, call_view,
    case_item_view, case_items_view, case_view, chain_first_view, chain_rest_view, closing_view,
    command_view, compact_arithms_view, coproc_view, cstyle_view, decl_view, else_view, ends_itself,
    for_view, format_view, func_view, if_view, index_view, inline_semicolon, inline_view,
    keyword_block_view, let_view, loop_view, param_exp_view, param_suffix_view, paren_view,
    parts_view, redir_view, redirs_view, separators_view, starts_with_paren, stmt_view, stmts_view,
    test_expr_view, text_view, time_view, while_view, word_iter_view, word_part_view,
    word_starts_with_paren, word_view, words_view};

verus! {

// ---------------------------------------------------------------------------
// Bare forms
// ---------------------------------------------------------------------------

/// The placeholder for a position of which only the presence is kept.
pub open spec fn bare_pos(p: Pos) -> Pos {
    if p.is_valid() {
        present()
    } else {
        absent()
    }
}

pub open spec fn bare_comment(x: CommentView) -> CommentView
    decreases x, 0int,
{
    CommentView {
        hash: absent(),
        ..x
    }
}

/// A file without its positions.
pub open spec fn bare_file(x: FileView) -> FileView
    decreases x, 0int,
{
    FileView {
        stmts: bare_stmts(x.stmts),
        last: bare_comments(x.last),
        ..x
    }
}

pub open spec fn bare_stmt(x: StmtView) -> StmtView
    decreases x, 0int,
{
    StmtView {
        comments: bare_comments(x.comments),
        cmd: match x.cmd {
            Some(y) => Some(bare_command(y)),
            None => None,
        },
        position: absent(),
        semicolon: absent(),
        redirs: bare_redirects(x.redirs),
        ..x
    }
}

pub open spec fn bare_command(x: CommandView) -> CommandView
    decreases x, 0int,
{
    match x {
        CommandView::Call(y) => CommandView::Call(bare_call_expr(y)),
        CommandView::Binary(y) => CommandView::Binary(Box::new(bare_binary_cmd(*y))),
        CommandView::If(y) => CommandView::If(Box::new(bare_if_clause(*y))),
        CommandView::While(y) => CommandView::While(Box::new(bare_while_clause(*y))),
        CommandView::For(y) => CommandView::For(Box::new(bare_for_clause(*y))),
        CommandView::Case(y) => CommandView::Case(bare_case_clause(y)),
        CommandView::Block(y) => CommandView::Block(bare_block(y)),
        CommandView::Subshell(y) => CommandView::Subshell(bare_subshell(y)),
        CommandView::Func(y) => CommandView::Func(Box::new(bare_func_decl(*y))),
        CommandView::Arithm(y) => CommandView::Arithm(bare_arithm_cmd(y)),
        CommandView::Test(y) => CommandView::Test(Box::new(bare_test_clause(*y))),
        CommandView::Decl(y) => CommandView::Decl(bare_decl_clause(y)),
        CommandView::Let(y) => CommandView::Let(bare_let_clause(y)),
        CommandView::Time(y) => CommandView::Time(Box::new(bare_time_clause(*y))),
        CommandView::Coproc(y) => CommandView::Coproc(Box::new(bare_coproc_clause(*y))),
    }
}

pub open spec fn bare_assign(x: AssignView) -> AssignView
    decreases x, 0int,
{
    AssignView {
        name: match x.name {
            Some(y) => Some(bare_lit(y)),
            None => None,
        },
        index: match x.index {
            Some(y) => Some(bare_arithm_expr(y)),
            None => None,
        },
        value: match x.value {
            Some(y) => Some(bare_word(y)),
            None => None,
        },
        array: match x.array {
            Some(y) => Some(bare_array_expr(y)),
            None => None,
        },
        ..x
    }
}

pub open spec fn bare_redirect(x: RedirectView) -> RedirectView
    decreases x, 0int,
{
    RedirectView {
        op_pos: absent(),
        n: match x.n {
            Some(y) => Some(bare_lit(y)),
            None => None,
        },
        word: match x.word {
            Some(y) => Some(bare_word(y)),
            None => None,
        },
        hdoc: match x.hdoc {
            Some(y) => Some(bare_word(y)),
            None => None,
        },
        ..x
    }
}

pub open spec fn bare_call_expr(x: CallExprView) -> CallExprView
    decreases x, 0int,
{
    CallExprView {
        assigns: bare_assigns(x.assigns),
        args: bare_words(x.args),
    }
}

pub open spec fn bare_subshell(x: SubshellView) -> SubshellView
    decreases x, 0int,
{
    SubshellView {
        lparen: absent(),
        rparen: absent(),
        stmts: bare_stmts(x.stmts),
        last: bare_comments(x.last),
    }
}

pub open spec fn bare_block(x: BlockView) -> BlockView
    decreases x, 0int,
{
    BlockView {
        lbrace: absent(),
        rbrace: absent(),
        stmts: bare_stmts(x.stmts),
        last: bare_comments(x.last),
    }
}

pub open spec fn bare_if_clause(x: IfClauseView) -> IfClauseView
    decreases x, 0int,
{
    IfClauseView {
        position: absent(),
        then_pos: bare_pos(x.then_pos),
        fi_pos: absent(),
        cond: bare_stmts(x.cond),
        cond_last: bare_comments(x.cond_last),
        then_: bare_stmts(x.then_),
        then_last: bare_comments(x.then_last),
        else_: bare_tail(x.else_),
        last: bare_comments(x.last),
    }
}

pub open spec fn bare_while_clause(x: WhileClauseView) -> WhileClauseView
    decreases x, 0int,
{
    WhileClauseView {
        while_pos: absent(),
        do_pos: absent(),
        done_pos: absent(),
        cond: bare_stmts(x.cond),
        cond_last: bare_comments(x.cond_last),
        do_: bare_stmts(x.do_),
        do_last: bare_comments(x.do_last),
        ..x
    }
}

pub open spec fn bare_for_clause(x: ForClauseView) -> ForClauseView
    decreases x, 0int,
{
    ForClauseView {
        for_pos: absent(),
        do_pos: absent(),
        done_pos: absent(),
        loop_: bare_loop(x.loop_),
        do_: bare_stmts(x.do_),
        do_last: bare_comments(x.do_last),
        ..x
    }
}

pub open spec fn bare_loop(x: LoopView) -> LoopView
    decreases x, 0int,
{
    match x {
        LoopView::Word(y) => LoopView::Word(bare_word_iter(y)),
        LoopView::CStyle(y) => LoopView::CStyle(bare_c_style_loop(y)),
    }
}

pub open spec fn bare_word_iter(x: WordIterView) -> WordIterView
    decreases x, 0int,
{
    WordIterView {
        name: bare_lit(x.name),
        in_pos: bare_pos(x.in_pos),
        items: bare_words(x.items),
    }
}

pub open spec fn bare_c_style_loop(x: CStyleLoopView) -> CStyleLoopView
    decreases x, 0int,
{
    CStyleLoopView {
        lparen: absent(),
        rparen: absent(),
        init: match x.init {
            Some(y) => Some(bare_arithm_expr(y)),
            None => None,
        },
        cond: match x.cond {
            Some(y) => Some(bare_arithm_expr(y)),
            None => None,
        },
        post: match x.post {
            Some(y) => Some(bare_arithm_expr(y)),
            None => None,
        },
    }
}

pub open spec fn bare_binary_cmd(x: BinaryCmdView) -> BinaryCmdView
    decreases x, 0int,
{
    BinaryCmdView {
        op_pos: absent(),
        x: bare_stmt(x.x),
        y: bare_stmt(x.y),
        ..x
    }
}

pub open spec fn bare_func_decl(x: FuncDeclView) -> FuncDeclView
    decreases x, 0int,
{
    FuncDeclView {
        position: absent(),
        name: bare_lit(x.name),
        body: bare_stmt(x.body),
        ..x
    }
}

pub open spec fn bare_word(x: WordView) -> WordView
    decreases x, 0int,
{
    WordView {
        parts: bare_word_parts(x.parts),
    }
}

pub open spec fn bare_word_part(x: WordPartView) -> WordPartView
    decreases x, 0int,
{
    match x {
        WordPartView::Lit(y) => WordPartView::Lit(bare_lit(y)),
        WordPartView::SglQuoted(y) => WordPartView::SglQuoted(bare_sgl_quoted(y)),
        WordPartView::DblQuoted(y) => WordPartView::DblQuoted(bare_dbl_quoted(y)),
        WordPartView::ParamExp(y) => WordPartView::ParamExp(Box::new(bare_param_exp(*y))),
        WordPartView::CmdSubst(y) => WordPartView::CmdSubst(Box::new(bare_cmd_subst(*y))),
        WordPartView::ArithmExp(y) => WordPartView::ArithmExp(Box::new(bare_arithm_exp(*y))),
        WordPartView::ProcSubst(y) => WordPartView::ProcSubst(Box::new(bare_proc_subst(*y))),
        WordPartView::ExtGlob(y) => WordPartView::ExtGlob(bare_ext_glob(y)),
        WordPartView::BraceExp(y) => WordPartView::BraceExp(bare_brace_exp(y)),
    }
}

pub open spec fn bare_lit(x: LitView) -> LitView
    decreases x, 0int,
{
    LitView {
        value_pos: absent(),
        value_end: absent(),
        ..x
    }
}

pub open spec fn bare_sgl_quoted(x: SglQuotedView) -> SglQuotedView
    decreases x, 0int,
{
    SglQuotedView {
        left: absent(),
        right: absent(),
        ..x
    }
}

pub open spec fn bare_dbl_quoted(x: DblQuotedView) -> DblQuotedView
    decreases x, 0int,
{
    DblQuotedView {
        left: absent(),
        right: absent(),
        parts: bare_word_parts(x.parts),
        ..x
    }
}

pub open spec fn bare_cmd_subst(x: CmdSubstView) -> CmdSubstView
    decreases x, 0int,
{
    CmdSubstView {
        left: absent(),
        right: absent(),
        stmts: bare_stmts(x.stmts),
        last: bare_comments(x.last),
        ..x
    }
}

pub open spec fn bare_param_exp(x: ParamExpView) -> ParamExpView
    decreases x, 0int,
{
    ParamExpView {
        dollar: absent(),
        rbrace: absent(),
        param: bare_lit(x.param),
        index: match x.index {
            Some(y) => Some(bare_arithm_expr(y)),
            None => None,
        },
        slice: match x.slice {
            Some(y) => Some(bare_slice(y)),
            None => None,
        },
        repl: match x.repl {
            Some(y) => Some(bare_replace(y)),
            None => None,
        },
        exp: match x.exp {
            Some(y) => Some(bare_expansion(y)),
            None => None,
        },
        ..x
    }
}

pub open spec fn bare_slice(x: SliceView) -> SliceView
    decreases x, 0int,
{
    SliceView {
        offset: match x.offset {
            Some(y) => Some(bare_arithm_expr(y)),
            None => None,
        },
        length: match x.length {
            Some(y) => Some(bare_arithm_expr(y)),
            None => None,
        },
    }
}

pub open spec fn bare_replace(x: ReplaceView) -> ReplaceView
    decreases x, 0int,
{
    ReplaceView {
        orig: match x.orig {
            Some(y) => Some(bare_word(y)),
            None => None,
        },
        with: match x.with {
            Some(y) => Some(bare_word(y)),
            None => None,
        },
        ..x
    }
}

pub open spec fn bare_expansion(x: ExpansionView) -> ExpansionView
    decreases x, 0int,
{
    ExpansionView {
        word: match x.word {
            Some(y) => Some(bare_word(y)),
            None => None,
        },
        ..x
    }
}

pub open spec fn bare_arithm_exp(x: ArithmExpView) -> ArithmExpView
    decreases x, 0int,
{
    ArithmExpView {
        left: absent(),
        right: absent(),
        x: bare_arithm_expr(x.x),
        ..x
    }
}

pub open spec fn bare_arithm_cmd(x: ArithmCmdView) -> ArithmCmdView
    decreases x, 0int,
{
    ArithmCmdView {
        left: absent(),
        right: absent(),
        x: bare_arithm_expr(x.x),
        ..x
    }
}

pub open spec fn bare_arithm_expr(x: ArithmExprView) -> ArithmExprView
    decreases x, 0int,
{
    match x {
        ArithmExprView::Binary(y) => ArithmExprView::Binary(Box::new(bare_binary_arithm(*y))),
        ArithmExprView::Unary(y) => ArithmExprView::Unary(Box::new(bare_unary_arithm(*y))),
        ArithmExprView::Paren(y) => ArithmExprView::Paren(Box::new(bare_paren_arithm(*y))),
        ArithmExprView::Word(y) => ArithmExprView::Word(Box::new(bare_word(*y))),
    }
}

pub open spec fn bare_binary_arithm(x: BinaryArithmView) -> BinaryArithmView
    decreases x, 0int,
{
    BinaryArithmView {
        op_pos: absent(),
        x: bare_arithm_expr(x.x),
        y: bare_arithm_expr(x.y),
        ..x
    }
}

pub open spec fn bare_unary_arithm(x: UnaryArithmView) -> UnaryArithmView
    decreases x, 0int,
{
    UnaryArithmView {
        op_pos: absent(),
        x: bare_arithm_expr(x.x),
        ..x
    }
}

pub open spec fn bare_paren_arithm(x: ParenArithmView) -> ParenArithmView
    decreases x, 0int,
{
    ParenArithmView {
        lparen: absent(),
        rparen: absent(),
        x: bare_arithm_expr(x.x),
    }
}

pub open spec fn bare_case_clause(x: CaseClauseView) -> CaseClauseView
    decreases x, 0int,
{
    CaseClauseView {
        case: absent(),
        in_: absent(),
        esac: absent(),
        word: bare_word(x.word),
        items: bare_case_items(x.items),
        last: bare_comments(x.last),
        ..x
    }
}

pub open spec fn bare_case_item(x: CaseItemView) -> CaseItemView
    decreases x, 0int,
{
    CaseItemView {
        op_pos: absent(),
        comments: bare_comments(x.comments),
        patterns: bare_words(x.patterns),
        stmts: bare_stmts(x.stmts),
        last: bare_comments(x.last),
        ..x
    }
}

pub open spec fn bare_test_clause(x: TestClauseView) -> TestClauseView
    decreases x, 0int,
{
    TestClauseView {
        left: absent(),
        right: absent(),
        x: bare_test_expr(x.x),
    }
}

pub open spec fn bare_test_expr(x: TestExprView) -> TestExprView
    decreases x, 0int,
{
    match x {
        TestExprView::Binary(y) => TestExprView::Binary(Box::new(bare_binary_test(*y))),
        TestExprView::Unary(y) => TestExprView::Unary(Box::new(bare_unary_test(*y))),
        TestExprView::Paren(y) => TestExprView::Paren(Box::new(bare_paren_test(*y))),
        TestExprView::Word(y) => TestExprView::Word(Box::new(bare_word(*y))),
    }
}

pub open spec fn bare_binary_test(x: BinaryTestView) -> BinaryTestView
    decreases x, 0int,
{
    BinaryTestView {
        op_pos: absent(),
        x: bare_test_expr(x.x),
        y: bare_test_expr(x.y),
        ..x
    }
}

pub open spec fn bare_unary_test(x: UnaryTestView) -> UnaryTestView
    decreases x, 0int,
{
    UnaryTestView {
        op_pos: absent(),
        x: bare_test_expr(x.x),
        ..x
    }
}

pub open spec fn bare_paren_test(x: ParenTestView) -> ParenTestView
    decreases x, 0int,
{
    ParenTestView {
        lparen: absent(),
        rparen: absent(),
        x: bare_test_expr(x.x),
    }
}

pub open spec fn bare_decl_clause(x: DeclClauseView) -> DeclClauseView
    decreases x, 0int,
{
    DeclClauseView {
        variant: bare_lit(x.variant),
        args: bare_assigns(x.args),
    }
}

pub open spec fn bare_array_expr(x: ArrayExprView) -> ArrayExprView
    decreases x, 0int,
{
    ArrayExprView {
        lparen: absent(),
        rparen: absent(),
        elems: bare_array_elems(x.elems),
        last: bare_comments(x.last),
    }
}

pub open spec fn bare_array_elem(x: ArrayElemView) -> ArrayElemView
    decreases x, 0int,
{
    ArrayElemView {
        index: match x.index {
            Some(y) => Some(bare_arithm_expr(y)),
            None => None,
        },
        value: match x.value {
            Some(y) => Some(bare_word(y)),
            None => None,
        },
        comments: bare_comments(x.comments),
    }
}

pub open spec fn bare_ext_glob(x: ExtGlobView) -> ExtGlobView
    decreases x, 0int,
{
    ExtGlobView {
        op_pos: absent(),
        pattern: bare_lit(x.pattern),
        ..x
    }
}

pub open spec fn bare_proc_subst(x: ProcSubstView) -> ProcSubstView
    decreases x, 0int,
{
    ProcSubstView {
        op_pos: absent(),
        rparen: absent(),
        stmts: bare_stmts(x.stmts),
        last: bare_comments(x.last),
        ..x
    }
}

pub open spec fn bare_time_clause(x: TimeClauseView) -> TimeClauseView
    decreases x, 0int,
{
    TimeClauseView {
        time: absent(),
        stmt: match x.stmt {
            Some(y) => Some(bare_stmt(y)),
            None => None,
        },
        ..x
    }
}

pub open spec fn bare_coproc_clause(x: CoprocClauseView) -> CoprocClauseView
    decreases x, 0int,
{
    CoprocClauseView {
        coproc: absent(),
        name: match x.name {
            Some(y) => Some(bare_word(y)),
            None => None,
        },
        stmt: bare_stmt(x.stmt),
    }
}

pub open spec fn bare_let_clause(x: LetClauseView) -> LetClauseView
    decreases x, 0int,
{
    LetClauseView {
        let_: absent(),
        exprs: bare_arithm_exprs(x.exprs),
    }
}

pub open spec fn bare_brace_exp(x: BraceExpView) -> BraceExpView
    decreases x, 0int,
{
    BraceExpView {
        elems: bare_words(x.elems),
        ..x
    }
}

pub open spec fn bare_tail(x: Option<Box<IfClauseView>>) -> Option<Box<IfClauseView>>
    decreases x, 0int,
{
    match x {
        Some(y) => Some(Box::new(bare_if_clause(*y))),
        None => None,
    }
}

pub open spec fn bare_arithm_exprs(items: Seq<ArithmExprView>) -> Seq<ArithmExprView>
    decreases items, 0int,
{
    Seq::new(
        items.len(),
        |i: int|
            if 0 <= i < items.len() {
                bare_arithm_expr(items[i])
            } else {
                items[i]
            },
    )
}

pub open spec fn bare_array_elems(items: Seq<ArrayElemView>) -> Seq<ArrayElemView>
    decreases items, 0int,
{
    Seq::new(
        items.len(),
        |i: int|
            if 0 <= i < items.len() {
                bare_array_elem(items[i])
            } else {
                items[i]
            },
    )
}

pub open spec fn bare_assigns(items: Seq<AssignView>) -> Seq<AssignView>
    decreases items, 0int,
{
    Seq::new(
        items.len(),
        |i: int|
            if 0 <= i < items.len() {
                bare_assign(items[i])
            } else {
                items[i]
            },
    )
}

pub open spec fn bare_case_items(items: Seq<CaseItemView>) -> Seq<CaseItemView>
    decreases items, 0int,
{
    Seq::new(
        items.len(),
        |i: int|
            if 0 <= i < items.len() {
                bare_case_item(items[i])
            } else {
                items[i]
            },
    )
}

pub open spec fn bare_comments(items: Seq<CommentView>) -> Seq<CommentView>
    decreases items, 0int,
{
    Seq::new(
        items.len(),
        |i: int|
            if 0 <= i < items.len() {
                bare_comment(items[i])
            } else {
                items[i]
            },
    )
}

pub open spec fn bare_redirects(items: Seq<RedirectView>) -> Seq<RedirectView>
    decreases items, 0int,
{
    Seq::new(
        items.len(),
        |i: int|
            if 0 <= i < items.len() {
                bare_redirect(items[i])
            } else {
                items[i]
            },
    )
}

pub open spec fn bare_stmts(items: Seq<StmtView>) -> Seq<StmtView>
    decreases items, 0int,
{
    Seq::new(
        items.len(),
        |i: int|
            if 0 <= i < items.len() {
                bare_stmt(items[i])
            } else {
                items[i]
            },
    )
}

pub open spec fn bare_words(items: Seq<WordView>) -> Seq<WordView>
    decreases items, 0int,
{
    Seq::new(
        items.len(),
        |i: int|
            if 0 <= i < items.len() {
                bare_word(items[i])
            } else {
                items[i]
            },
    )
}

pub open spec fn bare_word_parts(items: Seq<WordPartView>) -> Seq<WordPartView>
    decreases items, 0int,
{
    Seq::new(
        items.len(),
        |i: int|
            if 0 <= i < items.len() {
                bare_word_part(items[i])
            } else {
                items[i]
            },
    )
}

// ---------------------------------------------------------------------------
// Words
// ---------------------------------------------------------------------------

proof fn lemma_word(w: WordView)
    ensures
        word_view(bare_word(w)) == word_view(w),
    decreases w, 1int,
{
    lemma_parts(w.parts);
}

proof fn lemma_words(words: Seq<WordView>)
    ensures
        words_view(bare_words(words)) == words_view(words),
    decreases words, 1int,
{
    let got = words_view(bare_words(words));
    assert forall|i: int| 0 <= i < words.len() implies got[i] == words_view(words)[i] by {
        lemma_word(words[i]);
    }
    assert(got =~= words_view(words));
}

proof fn lemma_parts(parts: Seq<WordPartView>)
    ensures
        parts_view(bare_word_parts(parts)) == parts_view(parts),
    decreases parts, 1int,
{
    let got = parts_view(bare_word_parts(parts));
    assert forall|i: int| 0 <= i < parts.len() implies got[i] == parts_view(parts)[i] by {
        lemma_part(parts[i]);
    }
    assert(got =~= parts_view(parts));
}

proof fn lemma_part(wp: WordPartView)
    ensures
        word_part_view(bare_word_part(wp)) == word_part_view(wp),
    decreases wp, 1int,
{
    match wp {
        WordPartView::DblQuoted(q) => {
            lemma_parts(q.parts);
        },
        WordPartView::ParamExp(pe) => {
            lemma_param_exp(*pe);
        },
        WordPartView::CmdSubst(cs) => {
            lemma_inline(cs.stmts);
            lemma_ends(cs.stmts, "$("@, DocView::Nil, DocView::Nil);
        },
        WordPartView::ArithmExp(a) => {
            lemma_arithm(a.x, false);
        },
        WordPartView::ProcSubst(ps) => {
            lemma_inline(ps.stmts);
        },
        WordPartView::BraceExp(b) => {
            lemma_words(b.elems);
        },
        _ => {},
    }
}

proof fn lemma_param_exp(pe: ParamExpView)
    ensures
        param_exp_view(bare_param_exp(pe)) == param_exp_view(pe),
    decreases pe, 2int,
{
    lemma_param_suffix(pe);
    if let Some(idx) = pe.index {
        lemma_index(idx);
    }
}

proof fn lemma_param_suffix(pe: ParamExpView)
    ensures
        param_suffix_view(bare_param_exp(pe)) == param_suffix_view(pe),
    decreases pe, 1int,
{
    match pe.slice {
        Some(sl) => {
            if let Some(o) = sl.offset {
                lemma_arithm(o, true);
            }
            if let Some(l) = sl.length {
                lemma_arithm(l, true);
            }
        },
        None => match pe.repl {
            Some(r) => {
                if let Some(o) = r.orig {
                    lemma_word(o);
                }
                if let Some(w) = r.with {
                    lemma_word(w);
                }
            },
            None => {
                if let Some(exp) = pe.exp {
                    if let Some(w) = exp.word {
                        lemma_word(w);
                    }
                }
            },
        },
    }
}

// ---------------------------------------------------------------------------
// Expressions
// ---------------------------------------------------------------------------

proof fn lemma_index(idx: ArithmExprView)
    ensures
        index_view(bare_arithm_expr(idx)) == index_view(idx),
    decreases idx, 2int,
{
    lemma_arithm(idx, false);
}

proof fn lemma_arithm(e: ArithmExprView, compact: bool)
    ensures
        arithm_view(bare_arithm_expr(e), compact) == arithm_view(e, compact),
    decreases e, 1int,
{
    match e {
        ArithmExprView::Word(w) => {
            lemma_word(*w);
        },
        ArithmExprView::Paren(p) => {
            lemma_arithm(p.x, compact);
        },
        ArithmExprView::Unary(u) => {
            lemma_arithm(u.x, compact);
        },
        ArithmExprView::Binary(b) => {
            lemma_arithm(b.x, compact);
            lemma_arithm(b.y, compact);
        },
    }
}

proof fn lemma_arithm_option(e: Option<ArithmExprView>)
    ensures
        arithm_option_view(
            match e {
                Some(y) => Some(bare_arithm_expr(y)),
                None => None,
            },
        ) == arithm_option_view(e),
    decreases e, 1int,
{
    if let Some(x) = e {
        lemma_arithm(x, false);
    }
}

proof fn lemma_compact_arithms(exprs: Seq<ArithmExprView>)
    ensures
        compact_arithms_view(bare_arithm_exprs(exprs)) == compact_arithms_view(exprs),
    decreases exprs, 1int,
{
    let got = compact_arithms_view(bare_arithm_exprs(exprs));
    assert forall|i: int| 0 <= i < exprs.len() implies got[i] == compact_arithms_view(exprs)[i] by {
        lemma_arithm(exprs[i], true);
    }
    assert(got =~= compact_arithms_view(exprs));
}

proof fn lemma_test_expr(e: TestExprView)
    ensures
        test_expr_view(bare_test_expr(e)) == test_expr_view(e),
    decreases e, 1int,
{
    match e {
        TestExprView::Word(w) => {
            lemma_word(*w);
        },
        TestExprView::Paren(p) => {
            lemma_test_expr(p.x);
        },
        TestExprView::Unary(u) => {
            lemma_test_expr(u.x);
        },
        TestExprView::Binary(b) => {
            lemma_test_expr(b.x);
            lemma_test_expr(b.y);
        },
    }
}

// ---------------------------------------------------------------------------
// Assignments and redirections
// ---------------------------------------------------------------------------

proof fn lemma_assign(a: AssignView)
    ensures
        assign_view(bare_assign(a)) == assign_view(a),
    decreases a, 1int,
{
    if let Some(idx) = a.index {
        lemma_index(idx);
    }
    if let Some(v) = a.value {
        lemma_word(v);
    }
    if let Some(arr) = a.array {
        lemma_array_elems(arr.elems);
    }
}

proof fn lemma_assigns(assigns: Seq<AssignView>)
    ensures
        assigns_view(bare_assigns(assigns)) == assigns_view(assigns),
    decreases assigns, 1int,
{
    let got = assigns_view(bare_assigns(assigns));
    assert forall|i: int| 0 <= i < assigns.len() implies got[i] == assigns_view(assigns)[i] by {
        lemma_assign(assigns[i]);
    }
    assert(got =~= assigns_view(assigns));
}

proof fn lemma_array_elem(e: ArrayElemView)
    ensures
        array_elem_view(bare_array_elem(e)) == array_elem_view(e),
    decreases e, 1int,
{
    if let Some(idx) = e.index {
        lemma_index(idx);
    }
    if let Some(v) = e.value {
        lemma_word(v);
    }
}

proof fn lemma_array_elems(elems: Seq<ArrayElemView>)
    ensures
        array_elems_view(bare_array_elems(elems)) == array_elems_view(elems),
    decreases elems, 1int,
{
    let got = array_elems_view(bare_array_elems(elems));
    assert forall|i: int| 0 <= i < elems.len() implies got[i] == array_elems_view(elems)[i] by {
        lemma_array_elem(elems[i]);
    }
    assert(got =~= array_elems_view(elems));
}

proof fn lemma_redir(r: RedirectView)
    ensures
        redir_view(bare_redirect(r)) == redir_view(r),
    decreases r, 1int,
{
    if let Some(w) = r.word {
        lemma_word(w);
    }
}

proof fn lemma_redirs(redirs: Seq<RedirectView>)
    ensures
        redirs_view(bare_redirects(redirs)) == redirs_view(redirs),
    decreases redirs, 1int,
{
    let got = redirs_view(bare_redirects(redirs));
    assert forall|i: int| 0 <= i < redirs.len() implies got[i] == redirs_view(redirs)[i] by {
        lemma_redir(redirs[i]);
    }
    assert(got =~= redirs_view(redirs));
}

// ---------------------------------------------------------------------------
// Statements
// ---------------------------------------------------------------------------

proof fn lemma_stmt(s: StmtView)
    ensures
        stmt_view(bare_stmt(s)) == stmt_view(s),
    decreases s, 1int,
{
    lemma_redirs(s.redirs);
    if let Some(c) = s.cmd {
        lemma_command(c);
    }
}

proof fn lemma_stmts(stmts: Seq<StmtView>)
    ensures
        stmts_view(bare_stmts(stmts)) == stmts_view(stmts),
        bare_stmts(stmts).len() == stmts.len(),
    decreases stmts, 1int,
{
    let got = stmts_view(bare_stmts(stmts));
    assert forall|i: int| 0 <= i < stmts.len() implies got[i] == stmts_view(stmts)[i] by {
        lemma_stmt(stmts[i]);
    }
    assert(got =~= stmts_view(stmts));
}

/// Whether statements end themselves, and start with a parenthesis, does not
/// depend on positions.
proof fn lemma_ends(stmts: Seq<StmtView>, open: Seq<char>, semi: DocView, nl: DocView)
    ensures
        separators_view(bare_stmts(stmts), semi, nl) == separators_view(stmts, semi, nl),
        closing_view(bare_stmts(stmts), semi) == closing_view(stmts, semi),
        after_view(bare_stmts(stmts)) == after_view(stmts),
        paren_view(open, bare_stmts(stmts)) == paren_view(open, stmts),
{
    let bare = bare_stmts(stmts);
    assert forall|i: int| 0 <= i < stmts.len() implies ends_itself(#[trigger] bare[i])
        == ends_itself(stmts[i]) by {}
    assert(separators_view(bare, semi, nl) =~= separators_view(stmts, semi, nl));
    if stmts.len() > 0 {
        lemma_paren(stmts[0]);
        assert(bare[0] == bare_stmt(stmts[0]));
        assert(ends_itself(bare[stmts.len() - 1]) == ends_itself(stmts[stmts.len() - 1]));
    }
}

proof fn lemma_paren(s: StmtView)
    ensures
        starts_with_paren(bare_stmt(s)) == starts_with_paren(s),
    decreases s,
{
    match s.cmd {
        Some(CommandView::Binary(x)) => {
            lemma_paren(x.x);
            assert(bare_command(CommandView::Binary(x)) == CommandView::Binary(
                Box::new(bare_binary_cmd(*x)),
            ));
            let bare = bare_stmt(s);
            assert(bare.cmd == Some(CommandView::Binary(Box::new(bare_binary_cmd(*x)))));
            assert(bare_binary_cmd(*x).x == bare_stmt(x.x));
            assert(starts_with_paren(bare) == starts_with_paren(bare_stmt(x.x)));
        },
        Some(CommandView::Call(c)) => {
            let bare = bare_stmt(s);
            assert(bare.cmd == Some(CommandView::Call(bare_call_expr(c))));
            assert(bare_call_expr(c).args == bare_words(c.args));
            assert(bare_words(c.args).len() == c.args.len());
            if c.args.len() > 0 {
                lemma_word_start(c.args[0]);
                assert(bare_words(c.args)[0] == bare_word(c.args[0]));
            }
        },
        Some(cmd) => {
            assert(bare_stmt(s).cmd == Some(bare_command(cmd)));
        },
        None => {},
    }
}

proof fn lemma_word_start(w: WordView)
    ensures
        word_starts_with_paren(bare_word(w)) == word_starts_with_paren(w),
{
    if w.parts.len() > 0 {
        assert(bare_word(w).parts[0] == bare_word_part(w.parts[0]));
    }
}

proof fn lemma_body(stmts: Seq<StmtView>, semi: DocView, nl: DocView)
    ensures
        body_view(bare_stmts(stmts), semi, nl) == body_view(stmts, semi, nl),
    decreases stmts, 2int,
{
    lemma_stmts(stmts);
    lemma_ends(stmts, ""@, semi, nl);
}

proof fn lemma_inline(stmts: Seq<StmtView>)
    ensures
        inline_view(bare_stmts(stmts)) == inline_view(stmts),
        after_view(bare_stmts(stmts)) == after_view(stmts),
    decreases stmts, 3int,
{
    lemma_body(stmts, text_view(";"@), text_view(" "@));
    lemma_ends(stmts, ""@, DocView::Nil, DocView::Nil);
}

proof fn lemma_block(open: Seq<char>, close: Seq<char>, stmts: Seq<StmtView>)
    ensures
        keyword_block_view(open, close, bare_stmts(stmts)) == keyword_block_view(
            open,
            close,
            stmts,
        ),
    decreases stmts, 3int,
{
    let nl = break_view(stmts.len() > 1);
    lemma_stmts(stmts);
    lemma_body(stmts, inline_semicolon(), nl);
    lemma_ends(stmts, open, inline_semicolon(), nl);
}

proof fn lemma_branch(keyword: Seq<char>, nl: DocView, stmts: Seq<StmtView>)
    ensures
        branch_view(keyword, nl, bare_stmts(stmts)) == branch_view(keyword, nl, stmts),
    decreases stmts, 3int,
{
    lemma_body(stmts, inline_semicolon(), nl);
    lemma_ends(stmts, ""@, inline_semicolon(), nl);
}

proof fn lemma_chain(s: StmtView)
    ensures
        chain_first_view(bare_stmt(s)) == chain_first_view(s),
        chain_rest_view(bare_stmt(s)) == chain_rest_view(s),
    decreases s, 2int,
{
    match s.cmd {
        Some(CommandView::Binary(x)) => {
            lemma_chain(x.x);
            lemma_stmt(x.y);
        },
        _ => {
            lemma_stmt(s);
        },
    }
}

proof fn lemma_binary(x: BinaryCmdView)
    ensures
        binary_view(bare_binary_cmd(x)) == binary_view(x),
    decreases x, 1int,
{
    lemma_chain(x.x);
    lemma_stmt(x.y);
}

proof fn lemma_command(cmd: CommandView)
    ensures
        command_view(bare_command(cmd)) == command_view(cmd),
    decreases cmd, 2int,
{
    match cmd {
        CommandView::Call(c) => {
            lemma_call(c);
        },
        CommandView::Binary(x) => {
            lemma_binary(*x);
        },
        CommandView::If(x) => {
            lemma_if(*x);
        },
        CommandView::While(x) => {
            lemma_while(*x);
        },
        CommandView::For(x) => {
            lemma_for(*x);
        },
        CommandView::Case(x) => {
            lemma_case(x);
        },
        CommandView::Block(_) | CommandView::Subshell(_) => {
            lemma_grouping(cmd);
        },
        CommandView::Func(x) => {
            lemma_func(*x);
        },
        CommandView::Arithm(_) | CommandView::Test(_) => {
            lemma_expression(cmd);
        },
        CommandView::Decl(x) => {
            lemma_decl(x);
        },
        CommandView::Let(x) => {
            lemma_let(x);
        },
        CommandView::Time(x) => {
            lemma_time(*x);
        },
        CommandView::Coproc(x) => {
            lemma_coproc(*x);
        },
    }
}

/// A block or a subshell.
proof fn lemma_grouping(cmd: CommandView)
    requires
        cmd is Block || cmd is Subshell,
    ensures
        command_view(bare_command(cmd)) == command_view(cmd),
    decreases cmd, 1int,
{
    match cmd {
        CommandView::Block(x) => {
            lemma_block("{"@, "}"@, x.stmts);
        },
        CommandView::Subshell(x) => {
            lemma_inline(x.stmts);
            lemma_ends(x.stmts, "("@, DocView::Nil, DocView::Nil);
        },
        _ => {},
    }
}

/// A test or an arithmetic command.
proof fn lemma_expression(cmd: CommandView)
    requires
        cmd is Arithm || cmd is Test,
    ensures
        command_view(bare_command(cmd)) == command_view(cmd),
    decreases cmd, 1int,
{
    match cmd {
        CommandView::Arithm(x) => {
            lemma_arithm(x.x, false);
        },
        CommandView::Test(x) => {
            lemma_test_expr(x.x);
        },
        _ => {},
    }
}

proof fn lemma_func(x: FuncDeclView)
    ensures
        func_view(bare_func_decl(x)) == func_view(x),
    decreases x, 1int,
{
    lemma_stmt(x.body);
}

proof fn lemma_decl(x: DeclClauseView)
    ensures
        decl_view(bare_decl_clause(x)) == decl_view(x),
    decreases x, 1int,
{
    lemma_assigns(x.args);
}

proof fn lemma_let(x: LetClauseView)
    ensures
        let_view(bare_let_clause(x)) == let_view(x),
    decreases x, 1int,
{
    lemma_compact_arithms(x.exprs);
}

proof fn lemma_time(x: TimeClauseView)
    ensures
        time_view(bare_time_clause(x)) == time_view(x),
    decreases x, 1int,
{
    if let Some(s) = x.stmt {
        lemma_stmt(s);
    }
}

proof fn lemma_call(c: CallExprView)
    ensures
        call_view(bare_call_expr(c)) == call_view(c),
    decreases c, 1int,
{
    lemma_assigns(c.assigns);
    lemma_words(c.args);
}

proof fn lemma_coproc(c: CoprocClauseView)
    ensures
        coproc_view(bare_coproc_clause(c)) == coproc_view(c),
    decreases c, 1int,
{
    if let Some(n) = c.name {
        lemma_word(n);
    }
    lemma_stmt(c.stmt);
}

proof fn lemma_if(x: IfClauseView)
    ensures
        if_view(bare_if_clause(x)) == if_view(x),
    decreases x, 1int,
{
    let nl = break_view(x.then_.len() > 1 || x.else_ is Some);
    lemma_inline(x.cond);
    lemma_stmts(x.then_);
    lemma_branch("then"@, nl, x.then_);
    lemma_tail(nl, x.else_);
}

proof fn lemma_tail(nl: DocView, tail: Option<Box<IfClauseView>>)
    ensures
        else_view(nl, bare_tail(tail)) == else_view(nl, tail),
        bare_tail(tail) is Some == tail is Some,
    decreases tail, 1int,
{
    if let Some(x) = tail {
        lemma_inline(x.cond);
        lemma_branch("then"@, nl, x.then_);
        lemma_branch("else"@, nl, x.then_);
        lemma_tail(nl, x.else_);
    }
}

proof fn lemma_while(x: WhileClauseView)
    ensures
        while_view(bare_while_clause(x)) == while_view(x),
    decreases x, 1int,
{
    lemma_inline(x.cond);
    lemma_block("do"@, "done"@, x.do_);
}

proof fn lemma_for(x: ForClauseView)
    ensures
        for_view(bare_for_clause(x)) == for_view(x),
    decreases x, 1int,
{
    lemma_loop(x.loop_);
    lemma_block("do"@, "done"@, x.do_);
}

proof fn lemma_loop(x: LoopView)
    ensures
        loop_view(bare_loop(x)) == loop_view(x),
    decreases x, 1int,
{
    match x {
        LoopView::Word(wi) => {
            lemma_word_iter(wi);
        },
        LoopView::CStyle(c) => {
            lemma_cstyle(c);
        },
    }
}

proof fn lemma_word_iter(x: WordIterView)
    ensures
        word_iter_view(bare_word_iter(x)) == word_iter_view(x),
    decreases x, 1int,
{
    lemma_words(x.items);
}

proof fn lemma_cstyle(x: CStyleLoopView)
    ensures
        cstyle_view(bare_c_style_loop(x)) == cstyle_view(x),
    decreases x, 1int,
{
    lemma_arithm_option(x.init);
    lemma_arithm_option(x.cond);
    lemma_arithm_option(x.post);
    let bare = bare_c_style_loop(x);
    assert(arithm_option_view(bare.init) == arithm_option_view(x.init));
    assert(arithm_option_view(bare.cond) == arithm_option_view(x.cond));
    assert(arithm_option_view(bare.post) == arithm_option_view(x.post));
}

proof fn lemma_case(x: CaseClauseView)
    ensures
        case_view(bare_case_clause(x)) == case_view(x),
    decreases x, 1int,
{
    lemma_word(x.word);
    lemma_case_items(x.items);
}

proof fn lemma_case_items(items: Seq<CaseItemView>)
    ensures
        case_items_view(bare_case_items(items)) == case_items_view(items),
    decreases items, 1int,
{
    let got = case_items_view(bare_case_items(items));
    assert forall|i: int| 0 <= i < items.len() implies got[i] == case_items_view(items)[i] by {
        lemma_case_item(items[i]);
    }
    assert(got =~= case_items_view(items));
}

proof fn lemma_case_item(x: CaseItemView)
    ensures
        case_item_view(bare_case_item(x)) == case_item_view(x),
    decreases x, 1int,
{
    lemma_words(x.patterns);
    lemma_stmts(x.stmts);
    lemma_inline(x.stmts);
}

// ---------------------------------------------------------------------------
// The law
// ---------------------------------------------------------------------------

/// The printer never reads source positions: two files that differ only in
/// positions, and not in whether `then` and the `in` of a `for` loop are
/// present, are printed alike.
pub proof fn law_positions_do_not_matter(f: FileView, g: FileView, width: int)
    requires
        bare_file(f) == bare_file(g),
    ensures
        format_view(f, width) == format_view(g, width),
{
    lemma_stmts(f.stmts);
    lemma_stmts(g.stmts);
    assert(bare_file(f).stmts == bare_file(g).stmts);
}

} // verus!
