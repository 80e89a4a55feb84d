//! Copies of syntax trees.
//!
//! A copy of a node has the same mathematical form. The nodes contain each
//! other, so each kind has a function that copies it, and `clone` calls it.

use vstd::prelude::*;
use vstd::string::*;
use crate::ast::{ArithmCmd, ArithmExp, ArithmExpr, ArrayElem, ArrayExpr, Assign, BinaryArithm,
    BinaryCmd, BinaryTest, Block, BraceExp, CStyleLoop, CallExpr, CaseClause, CaseItem, CmdSubst,
    Command, Comment, CoprocClause, DblQuoted, DeclClause, Expansion, ExtGlob, File, ForClause,
    FuncDecl, IfClause, LetClause, Lit, Loop, ParamExp, ParenArithm, ParenTest, ProcSubst, Redirect,
    Replace, SglQuoted, Slice, Stmt, Subshell, TestClause, TestExpr, TimeClause, UnaryArithm,
    UnaryTest, WhileClause, Word, WordIter, WordPart, arithm_expr_views, array_elem_views,
    assign_views, case_item_views, comment_views, redirect_views, stmt_views, word_part_views,
    word_views};

verus! {

// ---------------------------------------------------------------------------
// Nodes
// ---------------------------------------------------------------------------

fn clone_comment(x: &Comment) -> (res: Comment)
    ensures
        res@ == x@,
    decreases x,
{
    let res = Comment {
        hash: x.hash,
        text: x.text.clone(),
    };
    assert(res@ =~= x@);
    res
}

fn clone_file(x: &File) -> (res: File)
    ensures
        res@ == x@,
    decreases x,
{
    let res = File {
        name: match &x.name {
            Some(x) => Some(x.clone()),
            None => None,
        },
        stmts: clone_stmts(&x.stmts),
        last: clone_comments(&x.last),
    };
    assert(res@.stmts =~= stmt_views(res.stmts@));
    assert(x@.stmts =~= stmt_views(x.stmts@));
    assert(res@.last =~= comment_views(res.last@));
    assert(x@.last =~= comment_views(x.last@));
    assert(res@ =~= x@);
    res
}

fn clone_stmt(x: &Stmt) -> (res: Stmt)
    ensures
        res@ == x@,
    decreases x,
{
    let res = Stmt {
        comments: clone_comments(&x.comments),
        cmd: match &x.cmd {
            Some(x) => Some(clone_command(x)),
            None => None,
        },
        position: x.position,
        semicolon: x.semicolon,
        negated: x.negated,
        background: x.background,
        coprocess: x.coprocess,
        redirs: clone_redirects(&x.redirs),
    };
    assert(res@.comments =~= comment_views(res.comments@));
    assert(x@.comments =~= comment_views(x.comments@));
    assert(res@.redirs =~= redirect_views(res.redirs@));
    assert(x@.redirs =~= redirect_views(x.redirs@));
    assert(res@ =~= x@);
    res
}

fn clone_command(x: &Command) -> (res: Command)
    ensures
        res@ == x@,
    decreases x,
{
    match x {
        Command::Call(y) => Command::Call(clone_call_expr(y)),
        Command::Binary(y) => Command::Binary(Box::new(clone_binary_cmd(y))),
        Command::If(y) => Command::If(Box::new(clone_if_clause(y))),
        Command::While(y) => Command::While(Box::new(clone_while_clause(y))),
        Command::For(y) => Command::For(Box::new(clone_for_clause(y))),
        Command::Case(y) => Command::Case(clone_case_clause(y)),
        Command::Block(y) => Command::Block(clone_block(y)),
        Command::Subshell(y) => Command::Subshell(clone_subshell(y)),
        Command::Func(y) => Command::Func(Box::new(clone_func_decl(y))),
        Command::Arithm(y) => Command::Arithm(clone_arithm_cmd(y)),
        Command::Test(y) => Command::Test(Box::new(clone_test_clause(y))),
        Command::Decl(y) => Command::Decl(clone_decl_clause(y)),
        Command::Let(y) => Command::Let(clone_let_clause(y)),
        Command::Time(y) => Command::Time(Box::new(clone_time_clause(y))),
        Command::Coproc(y) => Command::Coproc(Box::new(clone_coproc_clause(y))),
    }
}

fn clone_assign(x: &Assign) -> (res: Assign)
    ensures
        res@ == x@,
    decreases x,
{
    let res = Assign {
        append: x.append,
        naked: x.naked,
        name: match &x.name {
            Some(x) => Some(clone_lit(x)),
            None => None,
        },
        index: match &x.index {
            Some(x) => Some(clone_arithm_expr(x)),
            None => None,
        },
        value: match &x.value {
            Some(x) => Some(clone_word(x)),
            None => None,
        },
        array: match &x.array {
            Some(x) => Some(clone_array_expr(x)),
            None => None,
        },
    };
    assert(res@ =~= x@);
    res
}

fn clone_redirect(x: &Redirect) -> (res: Redirect)
    ensures
        res@ == x@,
    decreases x,
{
    let res = Redirect {
        op_pos: x.op_pos,
        op: x.op,
        n: match &x.n {
            Some(x) => Some(clone_lit(x)),
            None => None,
        },
        word: match &x.word {
            Some(x) => Some(clone_word(x)),
            None => None,
        },
        hdoc: match &x.hdoc {
            Some(x) => Some(clone_word(x)),
            None => None,
        },
    };
    assert(res@ =~= x@);
    res
}

fn clone_call_expr(x: &CallExpr) -> (res: CallExpr)
    ensures
        res@ == x@,
    decreases x,
{
    let res = CallExpr {
        assigns: clone_assigns(&x.assigns),
        args: clone_words(&x.args),
    };
    assert(res@.assigns =~= assign_views(res.assigns@));
    assert(x@.assigns =~= assign_views(x.assigns@));
    assert(res@.args =~= word_views(res.args@));
    assert(x@.args =~= word_views(x.args@));
    assert(res@ =~= x@);
    res
}

fn clone_subshell(x: &Subshell) -> (res: Subshell)
    ensures
        res@ == x@,
    decreases x,
{
    let res = Subshell {
        lparen: x.lparen,
        rparen: x.rparen,
        stmts: clone_stmts(&x.stmts),
        last: clone_comments(&x.last),
    };
    assert(res@.stmts =~= stmt_views(res.stmts@));
    assert(x@.stmts =~= stmt_views(x.stmts@));
    assert(res@.last =~= comment_views(res.last@));
    assert(x@.last =~= comment_views(x.last@));
    assert(res@ =~= x@);
    res
}

fn clone_block(x: &Block) -> (res: Block)
    ensures
        res@ == x@,
    decreases x,
{
    let res = Block {
        lbrace: x.lbrace,
        rbrace: x.rbrace,
        stmts: clone_stmts(&x.stmts),
        last: clone_comments(&x.last),
    };
    assert(res@.stmts =~= stmt_views(res.stmts@));
    assert(x@.stmts =~= stmt_views(x.stmts@));
    assert(res@.last =~= comment_views(res.last@));
    assert(x@.last =~= comment_views(x.last@));
    assert(res@ =~= x@);
    res
}

fn clone_if_clause(x: &IfClause) -> (res: IfClause)
    ensures
        res@ == x@,
    decreases x,
{
    match x {
        IfClause { then: body, .. } => {
            let copied = clone_stmts(body);
            let ghost copy = copied@;
            let res = IfClause {
                position: x.position,
                then_pos: x.then_pos,
                fi_pos: x.fi_pos,
                cond: clone_stmts(&x.cond),
                cond_last: clone_comments(&x.cond_last),
                then: copied,
                then_last: clone_comments(&x.then_last),
                else_: match &x.else_ {
                    Some(x) => Some(Box::new(clone_if_clause(x))),
                    None => None,
                },
                last: clone_comments(&x.last),
            };
            assert(res@.cond =~= stmt_views(res.cond@));
            assert(x@.cond =~= stmt_views(x.cond@));
            assert(res@.cond_last =~= comment_views(res.cond_last@));
            assert(x@.cond_last =~= comment_views(x.cond_last@));
            assert(res@.then_last =~= comment_views(res.then_last@));
            assert(x@.then_last =~= comment_views(x.then_last@));
            assert(res@.last =~= comment_views(res.last@));
            assert(x@.last =~= comment_views(x.last@));
            assert(x@.then_ =~= stmt_views(body@));
            assert(res@.then_ =~= stmt_views(copy));
            assert(res@ =~= x@);
            res
        },
    }
}

fn clone_while_clause(x: &WhileClause) -> (res: WhileClause)
    ensures
        res@ == x@,
    decreases x,
{
    let res = WhileClause {
        while_pos: x.while_pos,
        do_pos: x.do_pos,
        done_pos: x.done_pos,
        until: x.until,
        cond: clone_stmts(&x.cond),
        cond_last: clone_comments(&x.cond_last),
        do_: clone_stmts(&x.do_),
        do_last: clone_comments(&x.do_last),
    };
    assert(res@.cond =~= stmt_views(res.cond@));
    assert(x@.cond =~= stmt_views(x.cond@));
    assert(res@.cond_last =~= comment_views(res.cond_last@));
    assert(x@.cond_last =~= comment_views(x.cond_last@));
    assert(res@.do_ =~= stmt_views(res.do_@));
    assert(x@.do_ =~= stmt_views(x.do_@));
    assert(res@.do_last =~= comment_views(res.do_last@));
    assert(x@.do_last =~= comment_views(x.do_last@));
    assert(res@ =~= x@);
    res
}

fn clone_for_clause(x: &ForClause) -> (res: ForClause)
    ensures
        res@ == x@,
    decreases x,
{
    let res = ForClause {
        for_pos: x.for_pos,
        do_pos: x.do_pos,
        done_pos: x.done_pos,
        select: x.select,
        braces: x.braces,
        loop_: clone_loop(&x.loop_),
        do_: clone_stmts(&x.do_),
        do_last: clone_comments(&x.do_last),
    };
    assert(res@.do_ =~= stmt_views(res.do_@));
    assert(x@.do_ =~= stmt_views(x.do_@));
    assert(res@.do_last =~= comment_views(res.do_last@));
    assert(x@.do_last =~= comment_views(x.do_last@));
    assert(res@ =~= x@);
    res
}

fn clone_loop(x: &Loop) -> (res: Loop)
    ensures
        res@ == x@,
    decreases x,
{
    match x {
        Loop::Word(y) => Loop::Word(clone_word_iter(y)),
        Loop::CStyle(y) => Loop::CStyle(clone_c_style_loop(y)),
    }
}

fn clone_word_iter(x: &WordIter) -> (res: WordIter)
    ensures
        res@ == x@,
    decreases x,
{
    let res = WordIter {
        name: clone_lit(&x.name),
        in_pos: x.in_pos,
        items: clone_words(&x.items),
    };
    assert(res@.items =~= word_views(res.items@));
    assert(x@.items =~= word_views(x.items@));
    assert(res@ =~= x@);
    res
}

fn clone_c_style_loop(x: &CStyleLoop) -> (res: CStyleLoop)
    ensures
        res@ == x@,
    decreases x,
{
    let res = CStyleLoop {
        lparen: x.lparen,
        rparen: x.rparen,
        init: match &x.init {
            Some(x) => Some(clone_arithm_expr(x)),
            None => None,
        },
        cond: match &x.cond {
            Some(x) => Some(clone_arithm_expr(x)),
            None => None,
        },
        post: match &x.post {
            Some(x) => Some(clone_arithm_expr(x)),
            None => None,
        },
    };
    assert(res@ =~= x@);
    res
}

fn clone_binary_cmd(x: &BinaryCmd) -> (res: BinaryCmd)
    ensures
        res@ == x@,
    decreases x,
{
    let res = BinaryCmd {
        op_pos: x.op_pos,
        op: x.op,
        x: clone_stmt(&x.x),
        y: clone_stmt(&x.y),
    };
    assert(res@ =~= x@);
    res
}

fn clone_func_decl(x: &FuncDecl) -> (res: FuncDecl)
    ensures
        res@ == x@,
    decreases x,
{
    let res = FuncDecl {
        position: x.position,
        rsrv_word: x.rsrv_word,
        name: clone_lit(&x.name),
        body: clone_stmt(&x.body),
    };
    assert(res@ =~= x@);
    res
}

fn clone_word(x: &Word) -> (res: Word)
    ensures
        res@ == x@,
    decreases x,
{
    let res = Word {
        parts: clone_word_parts(&x.parts),
    };
    assert(res@.parts =~= word_part_views(res.parts@));
    assert(x@.parts =~= word_part_views(x.parts@));
    assert(res@ =~= x@);
    res
}

fn clone_word_part(x: &WordPart) -> (res: WordPart)
    ensures
        res@ == x@,
    decreases x,
{
    match x {
        WordPart::Lit(y) => WordPart::Lit(clone_lit(y)),
        WordPart::SglQuoted(y) => WordPart::SglQuoted(clone_sgl_quoted(y)),
        WordPart::DblQuoted(y) => WordPart::DblQuoted(clone_dbl_quoted(y)),
        WordPart::ParamExp(y) => WordPart::ParamExp(Box::new(clone_param_exp(y))),
        WordPart::CmdSubst(y) => WordPart::CmdSubst(Box::new(clone_cmd_subst(y))),
        WordPart::ArithmExp(y) => WordPart::ArithmExp(Box::new(clone_arithm_exp(y))),
        WordPart::ProcSubst(y) => WordPart::ProcSubst(Box::new(clone_proc_subst(y))),
        WordPart::ExtGlob(y) => WordPart::ExtGlob(clone_ext_glob(y)),
        WordPart::BraceExp(y) => WordPart::BraceExp(clone_brace_exp(y)),
    }
}

fn clone_lit(x: &Lit) -> (res: Lit)
    ensures
        res@ == x@,
    decreases x,
{
    let res = Lit {
        value_pos: x.value_pos,
        value_end: x.value_end,
        value: x.value.clone(),
    };
    assert(res@ =~= x@);
    res
}

fn clone_sgl_quoted(x: &SglQuoted) -> (res: SglQuoted)
    ensures
        res@ == x@,
    decreases x,
{
    let res = SglQuoted {
        left: x.left,
        right: x.right,
        dollar: x.dollar,
        value: x.value.clone(),
    };
    assert(res@ =~= x@);
    res
}

fn clone_dbl_quoted(x: &DblQuoted) -> (res: DblQuoted)
    ensures
        res@ == x@,
    decreases x,
{
    let res = DblQuoted {
        left: x.left,
        right: x.right,
        dollar: x.dollar,
        parts: clone_word_parts(&x.parts),
    };
    assert(res@.parts =~= word_part_views(res.parts@));
    assert(x@.parts =~= word_part_views(x.parts@));
    assert(res@ =~= x@);
    res
}

fn clone_cmd_subst(x: &CmdSubst) -> (res: CmdSubst)
    ensures
        res@ == x@,
    decreases x,
{
    let res = CmdSubst {
        left: x.left,
        right: x.right,
        stmts: clone_stmts(&x.stmts),
        last: clone_comments(&x.last),
        backquotes: x.backquotes,
        temp_file: x.temp_file,
        reply_var: x.reply_var,
    };
    assert(res@.stmts =~= stmt_views(res.stmts@));
    assert(x@.stmts =~= stmt_views(x.stmts@));
    assert(res@.last =~= comment_views(res.last@));
    assert(x@.last =~= comment_views(x.last@));
    assert(res@ =~= x@);
    res
}

fn clone_param_exp(x: &ParamExp) -> (res: ParamExp)
    ensures
        res@ == x@,
    decreases x,
{
    let res = ParamExp {
        dollar: x.dollar,
        rbrace: x.rbrace,
        short: x.short,
        excl: x.excl,
        length: x.length,
        width: x.width,
        param: clone_lit(&x.param),
        index: match &x.index {
            Some(x) => Some(clone_arithm_expr(x)),
            None => None,
        },
        slice: match &x.slice {
            Some(x) => Some(clone_slice(x)),
            None => None,
        },
        repl: match &x.repl {
            Some(x) => Some(clone_replace(x)),
            None => None,
        },
        names: x.names,
        exp: match &x.exp {
            Some(x) => Some(clone_expansion(x)),
            None => None,
        },
    };
    assert(res@ =~= x@);
    res
}

fn clone_slice(x: &Slice) -> (res: Slice)
    ensures
        res@ == x@,
    decreases x,
{
    let res = Slice {
        offset: match &x.offset {
            Some(x) => Some(clone_arithm_expr(x)),
            None => None,
        },
        length: match &x.length {
            Some(x) => Some(clone_arithm_expr(x)),
            None => None,
        },
    };
    assert(res@ =~= x@);
    res
}

fn clone_replace(x: &Replace) -> (res: Replace)
    ensures
        res@ == x@,
    decreases x,
{
    let res = Replace {
        all: x.all,
        orig: match &x.orig {
            Some(x) => Some(clone_word(x)),
            None => None,
        },
        with: match &x.with {
            Some(x) => Some(clone_word(x)),
            None => None,
        },
    };
    assert(res@ =~= x@);
    res
}

fn clone_expansion(x: &Expansion) -> (res: Expansion)
    ensures
        res@ == x@,
    decreases x,
{
    let res = Expansion {
        op: x.op,
        word: match &x.word {
            Some(x) => Some(clone_word(x)),
            None => None,
        },
    };
    assert(res@ =~= x@);
    res
}

fn clone_arithm_exp(x: &ArithmExp) -> (res: ArithmExp)
    ensures
        res@ == x@,
    decreases x,
{
    let res = ArithmExp {
        left: x.left,
        right: x.right,
        bracket: x.bracket,
        unsigned: x.unsigned,
        x: clone_arithm_expr(&x.x),
    };
    assert(res@ =~= x@);
    res
}

fn clone_arithm_cmd(x: &ArithmCmd) -> (res: ArithmCmd)
    ensures
        res@ == x@,
    decreases x,
{
    let res = ArithmCmd {
        left: x.left,
        right: x.right,
        unsigned: x.unsigned,
        x: clone_arithm_expr(&x.x),
    };
    assert(res@ =~= x@);
    res
}

fn clone_arithm_expr(x: &ArithmExpr) -> (res: ArithmExpr)
    ensures
        res@ == x@,
    decreases x,
{
    match x {
        ArithmExpr::Binary(y) => ArithmExpr::Binary(Box::new(clone_binary_arithm(y))),
        ArithmExpr::Unary(y) => ArithmExpr::Unary(Box::new(clone_unary_arithm(y))),
        ArithmExpr::Paren(y) => ArithmExpr::Paren(Box::new(clone_paren_arithm(y))),
        ArithmExpr::Word(y) => ArithmExpr::Word(Box::new(clone_word(y))),
    }
}

fn clone_binary_arithm(x: &BinaryArithm) -> (res: BinaryArithm)
    ensures
        res@ == x@,
    decreases x,
{
    let res = BinaryArithm {
        op_pos: x.op_pos,
        op: x.op,
        x: clone_arithm_expr(&x.x),
        y: clone_arithm_expr(&x.y),
    };
    assert(res@ =~= x@);
    res
}

fn clone_unary_arithm(x: &UnaryArithm) -> (res: UnaryArithm)
    ensures
        res@ == x@,
    decreases x,
{
    let res = UnaryArithm {
        op_pos: x.op_pos,
        op: x.op,
        post: x.post,
        x: clone_arithm_expr(&x.x),
    };
    assert(res@ =~= x@);
    res
}

fn clone_paren_arithm(x: &ParenArithm) -> (res: ParenArithm)
    ensures
        res@ == x@,
    decreases x,
{
    let res = ParenArithm {
        lparen: x.lparen,
        rparen: x.rparen,
        x: clone_arithm_expr(&x.x),
    };
    assert(res@ =~= x@);
    res
}

fn clone_case_clause(x: &CaseClause) -> (res: CaseClause)
    ensures
        res@ == x@,
    decreases x,
{
    let res = CaseClause {
        case: x.case,
        in_: x.in_,
        esac: x.esac,
        braces: x.braces,
        word: clone_word(&x.word),
        items: clone_case_items(&x.items),
        last: clone_comments(&x.last),
    };
    assert(res@.items =~= case_item_views(res.items@));
    assert(x@.items =~= case_item_views(x.items@));
    assert(res@.last =~= comment_views(res.last@));
    assert(x@.last =~= comment_views(x.last@));
    assert(res@ =~= x@);
    res
}

fn clone_case_item(x: &CaseItem) -> (res: CaseItem)
    ensures
        res@ == x@,
    decreases x,
{
    let res = CaseItem {
        op: x.op,
        op_pos: x.op_pos,
        comments: clone_comments(&x.comments),
        patterns: clone_words(&x.patterns),
        stmts: clone_stmts(&x.stmts),
        last: clone_comments(&x.last),
    };
    assert(res@.comments =~= comment_views(res.comments@));
    assert(x@.comments =~= comment_views(x.comments@));
    assert(res@.patterns =~= word_views(res.patterns@));
    assert(x@.patterns =~= word_views(x.patterns@));
    assert(res@.stmts =~= stmt_views(res.stmts@));
    assert(x@.stmts =~= stmt_views(x.stmts@));
    assert(res@.last =~= comment_views(res.last@));
    assert(x@.last =~= comment_views(x.last@));
    assert(res@ =~= x@);
    res
}

fn clone_test_clause(x: &TestClause) -> (res: TestClause)
    ensures
        res@ == x@,
    decreases x,
{
    let res = TestClause {
        left: x.left,
        right: x.right,
        x: clone_test_expr(&x.x),
    };
    assert(res@ =~= x@);
    res
}

fn clone_test_expr(x: &TestExpr) -> (res: TestExpr)
    ensures
        res@ == x@,
    decreases x,
{
    match x {
        TestExpr::Binary(y) => TestExpr::Binary(Box::new(clone_binary_test(y))),
        TestExpr::Unary(y) => TestExpr::Unary(Box::new(clone_unary_test(y))),
        TestExpr::Paren(y) => TestExpr::Paren(Box::new(clone_paren_test(y))),
        TestExpr::Word(y) => TestExpr::Word(Box::new(clone_word(y))),
    }
}

fn clone_binary_test(x: &BinaryTest) -> (res: BinaryTest)
    ensures
        res@ == x@,
    decreases x,
{
    let res = BinaryTest {
        op_pos: x.op_pos,
        op: x.op,
        x: clone_test_expr(&x.x),
        y: clone_test_expr(&x.y),
    };
    assert(res@ =~= x@);
    res
}

fn clone_unary_test(x: &UnaryTest) -> (res: UnaryTest)
    ensures
        res@ == x@,
    decreases x,
{
    let res = UnaryTest {
        op_pos: x.op_pos,
        op: x.op,
        x: clone_test_expr(&x.x),
    };
    assert(res@ =~= x@);
    res
}

fn clone_paren_test(x: &ParenTest) -> (res: ParenTest)
    ensures
        res@ == x@,
    decreases x,
{
    let res = ParenTest {
        lparen: x.lparen,
        rparen: x.rparen,
        x: clone_test_expr(&x.x),
    };
    assert(res@ =~= x@);
    res
}

fn clone_decl_clause(x: &DeclClause) -> (res: DeclClause)
    ensures
        res@ == x@,
    decreases x,
{
    let res = DeclClause {
        variant: clone_lit(&x.variant),
        args: clone_assigns(&x.args),
    };
    assert(res@.args =~= assign_views(res.args@));
    assert(x@.args =~= assign_views(x.args@));
    assert(res@ =~= x@);
    res
}

fn clone_array_expr(x: &ArrayExpr) -> (res: ArrayExpr)
    ensures
        res@ == x@,
    decreases x,
{
    let res = ArrayExpr {
        lparen: x.lparen,
        rparen: x.rparen,
        elems: clone_array_elems(&x.elems),
        last: clone_comments(&x.last),
    };
    assert(res@.elems =~= array_elem_views(res.elems@));
    assert(x@.elems =~= array_elem_views(x.elems@));
    assert(res@.last =~= comment_views(res.last@));
    assert(x@.last =~= comment_views(x.last@));
    assert(res@ =~= x@);
    res
}

fn clone_array_elem(x: &ArrayElem) -> (res: ArrayElem)
    ensures
        res@ == x@,
    decreases x,
{
    let res = ArrayElem {
        index: match &x.index {
            Some(x) => Some(clone_arithm_expr(x)),
            None => None,
        },
        value: match &x.value {
            Some(x) => Some(clone_word(x)),
            None => None,
        },
        comments: clone_comments(&x.comments),
    };
    assert(res@.comments =~= comment_views(res.comments@));
    assert(x@.comments =~= comment_views(x.comments@));
    assert(res@ =~= x@);
    res
}

fn clone_ext_glob(x: &ExtGlob) -> (res: ExtGlob)
    ensures
        res@ == x@,
    decreases x,
{
    let res = ExtGlob {
        op_pos: x.op_pos,
        op: x.op,
        pattern: clone_lit(&x.pattern),
    };
    assert(res@ =~= x@);
    res
}

fn clone_proc_subst(x: &ProcSubst) -> (res: ProcSubst)
    ensures
        res@ == x@,
    decreases x,
{
    let res = ProcSubst {
        op_pos: x.op_pos,
        rparen: x.rparen,
        op: x.op,
        stmts: clone_stmts(&x.stmts),
        last: clone_comments(&x.last),
    };
    assert(res@.stmts =~= stmt_views(res.stmts@));
    assert(x@.stmts =~= stmt_views(x.stmts@));
    assert(res@.last =~= comment_views(res.last@));
    assert(x@.last =~= comment_views(x.last@));
    assert(res@ =~= x@);
    res
}

fn clone_time_clause(x: &TimeClause) -> (res: TimeClause)
    ensures
        res@ == x@,
    decreases x,
{
    let res = TimeClause {
        time: x.time,
        posix_format: x.posix_format,
        stmt: match &x.stmt {
            Some(x) => Some(clone_stmt(x)),
            None => None,
        },
    };
    assert(res@ =~= x@);
    res
}

fn clone_coproc_clause(x: &CoprocClause) -> (res: CoprocClause)
    ensures
        res@ == x@,
    decreases x,
{
    let res = CoprocClause {
        coproc: x.coproc,
        name: match &x.name {
            Some(x) => Some(clone_word(x)),
            None => None,
        },
        stmt: clone_stmt(&x.stmt),
    };
    assert(res@ =~= x@);
    res
}

fn clone_let_clause(x: &LetClause) -> (res: LetClause)
    ensures
        res@ == x@,
    decreases x,
{
    let res = LetClause {
        let_: x.let_,
        exprs: clone_arithm_exprs(&x.exprs),
    };
    assert(res@.exprs =~= arithm_expr_views(res.exprs@));
    assert(x@.exprs =~= arithm_expr_views(x.exprs@));
    assert(res@ =~= x@);
    res
}

fn clone_brace_exp(x: &BraceExp) -> (res: BraceExp)
    ensures
        res@ == x@,
    decreases x,
{
    let res = BraceExp {
        sequence: x.sequence,
        elems: clone_words(&x.elems),
    };
    assert(res@.elems =~= word_views(res.elems@));
    assert(x@.elems =~= word_views(x.elems@));
    assert(res@ =~= x@);
    res
}

// ---------------------------------------------------------------------------
// Sequences of nodes
// ---------------------------------------------------------------------------

fn clone_arithm_exprs(items: &Vec<ArithmExpr>) -> (res: Vec<ArithmExpr>)
    ensures
        arithm_expr_views(res@) == arithm_expr_views(items@),
    decreases items,
{
    let mut res: Vec<ArithmExpr> = Vec::new();
    let mut i: usize = 0;
    while i < items.len()
        invariant
            i <= items@.len(),
            res@.len() == i,
            forall|k: int| 0 <= k < i ==> (#[trigger] res@[k])@ == items@[k]@,
        decreases items@.len() - i,
    {
        res.push(clone_arithm_expr(&items[i]));
        i += 1;
    }
    assert(arithm_expr_views(res@) =~= arithm_expr_views(items@));
    res
}

fn clone_array_elems(items: &Vec<ArrayElem>) -> (res: Vec<ArrayElem>)
    ensures
        array_elem_views(res@) == array_elem_views(items@),
    decreases items,
{
    let mut res: Vec<ArrayElem> = Vec::new();
    let mut i: usize = 0;
    while i < items.len()
        invariant
            i <= items@.len(),
            res@.len() == i,
            forall|k: int| 0 <= k < i ==> (#[trigger] res@[k])@ == items@[k]@,
        decreases items@.len() - i,
    {
        res.push(clone_array_elem(&items[i]));
        i += 1;
    }
    assert(array_elem_views(res@) =~= array_elem_views(items@));
    res
}

fn clone_assigns(items: &Vec<Assign>) -> (res: Vec<Assign>)
    ensures
        assign_views(res@) == assign_views(items@),
    decreases items,
{
    let mut res: Vec<Assign> = Vec::new();
    let mut i: usize = 0;
    while i < items.len()
        invariant
            i <= items@.len(),
            res@.len() == i,
            forall|k: int| 0 <= k < i ==> (#[trigger] res@[k])@ == items@[k]@,
        decreases items@.len() - i,
    {
        res.push(clone_assign(&items[i]));
        i += 1;
    }
    assert(assign_views(res@) =~= assign_views(items@));
    res
}

fn clone_case_items(items: &Vec<CaseItem>) -> (res: Vec<CaseItem>)
    ensures
        case_item_views(res@) == case_item_views(items@),
    decreases items,
{
    let mut res: Vec<CaseItem> = Vec::new();
    let mut i: usize = 0;
    while i < items.len()
        invariant
            i <= items@.len(),
            res@.len() == i,
            forall|k: int| 0 <= k < i ==> (#[trigger] res@[k])@ == items@[k]@,
        decreases items@.len() - i,
    {
        res.push(clone_case_item(&items[i]));
        i += 1;
    }
    assert(case_item_views(res@) =~= case_item_views(items@));
    res
}

fn clone_comments(items: &Vec<Comment>) -> (res: Vec<Comment>)
    ensures
        comment_views(res@) == comment_views(items@),
    decreases items,
{
    let mut res: Vec<Comment> = Vec::new();
    let mut i: usize = 0;
    while i < items.len()
        invariant
            i <= items@.len(),
            res@.len() == i,
            forall|k: int| 0 <= k < i ==> (#[trigger] res@[k])@ == items@[k]@,
        decreases items@.len() - i,
    {
        res.push(clone_comment(&items[i]));
        i += 1;
    }
    assert(comment_views(res@) =~= comment_views(items@));
    res
}

fn clone_redirects(items: &Vec<Redirect>) -> (res: Vec<Redirect>)
    ensures
        redirect_views(res@) == redirect_views(items@),
    decreases items,
{
    let mut res: Vec<Redirect> = Vec::new();
    let mut i: usize = 0;
    while i < items.len()
        invariant
            i <= items@.len(),
            res@.len() == i,
            forall|k: int| 0 <= k < i ==> (#[trigger] res@[k])@ == items@[k]@,
        decreases items@.len() - i,
    {
        res.push(clone_redirect(&items[i]));
        i += 1;
    }
    assert(redirect_views(res@) =~= redirect_views(items@));
    res
}

fn clone_stmts(items: &Vec<Stmt>) -> (res: Vec<Stmt>)
    ensures
        stmt_views(res@) == stmt_views(items@),
    decreases items,
{
    let mut res: Vec<Stmt> = Vec::new();
    let mut i: usize = 0;
    while i < items.len()
        invariant
            i <= items@.len(),
            res@.len() == i,
            forall|k: int| 0 <= k < i ==> (#[trigger] res@[k])@ == items@[k]@,
        decreases items@.len() - i,
    {
        res.push(clone_stmt(&items[i]));
        i += 1;
    }
    assert(stmt_views(res@) =~= stmt_views(items@));
    res
}

fn clone_words(items: &Vec<Word>) -> (res: Vec<Word>)
    ensures
        word_views(res@) == word_views(items@),
    decreases items,
{
    let mut res: Vec<Word> = Vec::new();
    let mut i: usize = 0;
    while i < items.len()
        invariant
            i <= items@.len(),
            res@.len() == i,
            forall|k: int| 0 <= k < i ==> (#[trigger] res@[k])@ == items@[k]@,
        decreases items@.len() - i,
    {
        res.push(clone_word(&items[i]));
        i += 1;
    }
    assert(word_views(res@) =~= word_views(items@));
    res
}

fn clone_word_parts(items: &Vec<WordPart>) -> (res: Vec<WordPart>)
    ensures
        word_part_views(res@) == word_part_views(items@),
    decreases items,
{
    let mut res: Vec<WordPart> = Vec::new();
    let mut i: usize = 0;
    while i < items.len()
        invariant
            i <= items@.len(),
            res@.len() == i,
            forall|k: int| 0 <= k < i ==> (#[trigger] res@[k])@ == items@[k]@,
        decreases items@.len() - i,
    {
        res.push(clone_word_part(&items[i]));
        i += 1;
    }
    assert(word_part_views(res@) =~= word_part_views(items@));
    res
}

// ---------------------------------------------------------------------------
// Clone
// ---------------------------------------------------------------------------

impl Clone for Comment {
    fn clone(&self) -> (res: Comment)
        ensures
            res@ == self@,
    {
        clone_comment(self)
    }
}

impl Clone for File {
    fn clone(&self) -> (res: File)
        ensures
            res@ == self@,
    {
        clone_file(self)
    }
}

impl Clone for Stmt {
    fn clone(&self) -> (res: Stmt)
        ensures
            res@ == self@,
    {
        clone_stmt(self)
    }
}

impl Clone for Command {
    fn clone(&self) -> (res: Command)
        ensures
            res@ == self@,
    {
        clone_command(self)
    }
}

impl Clone for Assign {
    fn clone(&self) -> (res: Assign)
        ensures
            res@ == self@,
    {
        clone_assign(self)
    }
}

impl Clone for Redirect {
    fn clone(&self) -> (res: Redirect)
        ensures
            res@ == self@,
    {
        clone_redirect(self)
    }
}

impl Clone for CallExpr {
    fn clone(&self) -> (res: CallExpr)
        ensures
            res@ == self@,
    {
        clone_call_expr(self)
    }
}

impl Clone for Subshell {
    fn clone(&self) -> (res: Subshell)
        ensures
            res@ == self@,
    {
        clone_subshell(self)
    }
}

impl Clone for Block {
    fn clone(&self) -> (res: Block)
        ensures
            res@ == self@,
    {
        clone_block(self)
    }
}

impl Clone for IfClause {
    fn clone(&self) -> (res: IfClause)
        ensures
            res@ == self@,
    {
        clone_if_clause(self)
    }
}

impl Clone for WhileClause {
    fn clone(&self) -> (res: WhileClause)
        ensures
            res@ == self@,
    {
        clone_while_clause(self)
    }
}

impl Clone for ForClause {
    fn clone(&self) -> (res: ForClause)
        ensures
            res@ == self@,
    {
        clone_for_clause(self)
    }
}

impl Clone for Loop {
    fn clone(&self) -> (res: Loop)
        ensures
            res@ == self@,
    {
        clone_loop(self)
    }
}

impl Clone for WordIter {
    fn clone(&self) -> (res: WordIter)
        ensures
            res@ == self@,
    {
        clone_word_iter(self)
    }
}

impl Clone for CStyleLoop {
    fn clone(&self) -> (res: CStyleLoop)
        ensures
            res@ == self@,
    {
        clone_c_style_loop(self)
    }
}

impl Clone for BinaryCmd {
    fn clone(&self) -> (res: BinaryCmd)
        ensures
            res@ == self@,
    {
        clone_binary_cmd(self)
    }
}

impl Clone for FuncDecl {
    fn clone(&self) -> (res: FuncDecl)
        ensures
            res@ == self@,
    {
        clone_func_decl(self)
    }
}

impl Clone for Word {
    fn clone(&self) -> (res: Word)
        ensures
            res@ == self@,
    {
        clone_word(self)
    }
}

impl Clone for WordPart {
    fn clone(&self) -> (res: WordPart)
        ensures
            res@ == self@,
    {
        clone_word_part(self)
    }
}

impl Clone for Lit {
    fn clone(&self) -> (res: Lit)
        ensures
            res@ == self@,
    {
        clone_lit(self)
    }
}

impl Clone for SglQuoted {
    fn clone(&self) -> (res: SglQuoted)
        ensures
            res@ == self@,
    {
        clone_sgl_quoted(self)
    }
}

impl Clone for DblQuoted {
    fn clone(&self) -> (res: DblQuoted)
        ensures
            res@ == self@,
    {
        clone_dbl_quoted(self)
    }
}

impl Clone for CmdSubst {
    fn clone(&self) -> (res: CmdSubst)
        ensures
            res@ == self@,
    {
        clone_cmd_subst(self)
    }
}

impl Clone for ParamExp {
    fn clone(&self) -> (res: ParamExp)
        ensures
            res@ == self@,
    {
        clone_param_exp(self)
    }
}

impl Clone for Slice {
    fn clone(&self) -> (res: Slice)
        ensures
            res@ == self@,
    {
        clone_slice(self)
    }
}

impl Clone for Replace {
    fn clone(&self) -> (res: Replace)
        ensures
            res@ == self@,
    {
        clone_replace(self)
    }
}

impl Clone for Expansion {
    fn clone(&self) -> (res: Expansion)
        ensures
            res@ == self@,
    {
        clone_expansion(self)
    }
}

impl Clone for ArithmExp {
    fn clone(&self) -> (res: ArithmExp)
        ensures
            res@ == self@,
    {
        clone_arithm_exp(self)
    }
}

impl Clone for ArithmCmd {
    fn clone(&self) -> (res: ArithmCmd)
        ensures
            res@ == self@,
    {
        clone_arithm_cmd(self)
    }
}

impl Clone for ArithmExpr {
    fn clone(&self) -> (res: ArithmExpr)
        ensures
            res@ == self@,
    {
        clone_arithm_expr(self)
    }
}

impl Clone for BinaryArithm {
    fn clone(&self) -> (res: BinaryArithm)
        ensures
            res@ == self@,
    {
        clone_binary_arithm(self)
    }
}

impl Clone for UnaryArithm {
    fn clone(&self) -> (res: UnaryArithm)
        ensures
            res@ == self@,
    {
        clone_unary_arithm(self)
    }
}

impl Clone for ParenArithm {
    fn clone(&self) -> (res: ParenArithm)
        ensures
            res@ == self@,
    {
        clone_paren_arithm(self)
    }
}

impl Clone for CaseClause {
    fn clone(&self) -> (res: CaseClause)
        ensures
            res@ == self@,
    {
        clone_case_clause(self)
    }
}

impl Clone for CaseItem {
    fn clone(&self) -> (res: CaseItem)
        ensures
            res@ == self@,
    {
        clone_case_item(self)
    }
}

impl Clone for TestClause {
    fn clone(&self) -> (res: TestClause)
        ensures
            res@ == self@,
    {
        clone_test_clause(self)
    }
}

impl Clone for TestExpr {
    fn clone(&self) -> (res: TestExpr)
        ensures
            res@ == self@,
    {
        clone_test_expr(self)
    }
}

impl Clone for BinaryTest {
    fn clone(&self) -> (res: BinaryTest)
        ensures
            res@ == self@,
    {
        clone_binary_test(self)
    }
}

impl Clone for UnaryTest {
    fn clone(&self) -> (res: UnaryTest)
        ensures
            res@ == self@,
    {
        clone_unary_test(self)
    }
}

impl Clone for ParenTest {
    fn clone(&self) -> (res: ParenTest)
        ensures
            res@ == self@,
    {
        clone_paren_test(self)
    }
}

impl Clone for DeclClause {
    fn clone(&self) -> (res: DeclClause)
        ensures
            res@ == self@,
    {
        clone_decl_clause(self)
    }
}

impl Clone for ArrayExpr {
    fn clone(&self) -> (res: ArrayExpr)
        ensures
            res@ == self@,
    {
        clone_array_expr(self)
    }
}

impl Clone for ArrayElem {
    fn clone(&self) -> (res: ArrayElem)
        ensures
            res@ == self@,
    {
        clone_array_elem(self)
    }
}

impl Clone for ExtGlob {
    fn clone(&self) -> (res: ExtGlob)
        ensures
            res@ == self@,
    {
        clone_ext_glob(self)
    }
}

impl Clone for ProcSubst {
    fn clone(&self) -> (res: ProcSubst)
        ensures
            res@ == self@,
    {
        clone_proc_subst(self)
    }
}

impl Clone for TimeClause {
    fn clone(&self) -> (res: TimeClause)
        ensures
            res@ == self@,
    {
        clone_time_clause(self)
    }
}

impl Clone for CoprocClause {
    fn clone(&self) -> (res: CoprocClause)
        ensures
            res@ == self@,
    {
        clone_coproc_clause(self)
    }
}

impl Clone for LetClause {
    fn clone(&self) -> (res: LetClause)
        ensures
            res@ == self@,
    {
        clone_let_clause(self)
    }
}

impl Clone for BraceExp {
    fn clone(&self) -> (res: BraceExp)
        ensures
            res@ == self@,
    {
        clone_brace_exp(self)
    }
}

} // verus!
