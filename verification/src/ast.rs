//! Shell syntax tree.
//!
//! Every command / word / expression form has a node type here; alternatives
//! are enums that carry the concrete node structs, and recursive children are
//! boxed. The shapes follow mvdan/sh, so that the printer can make the same
//! formatting decisions.
//!
//! Every node carries positions ([`Pos`]); the printer never reads them except
//! to tell whether a part is present.
//!
//! Each node type has a mathematical form, named with `View`, in which strings
//! and vectors are sequences; contracts speak of those.

use vstd::prelude::*;
use vstd::string::*;
use crate::text::push_str;

verus! {

/// A position within a shell source file.
///
/// `line`/`col` start at 1; `offset` (byte offset) starts at 0. A position with
/// `line == 0` is invalid (the field was absent in the source).
#[derive(Debug, Clone, Copy, PartialEq, Eq, Structural)]
pub struct Pos {
    pub offset: u32,
    pub line: u32,
    pub col: u32,
}

impl Default for Pos {
    fn default() -> (p: Pos)
        ensures
            p == (Pos { offset: 0, line: 0, col: 0 }),
    {
        Pos { offset: 0, line: 0, col: 0 }
    }
}

impl Pos {
    #[verifier::allow_in_spec]
    pub fn new(offset: u32, line: u32, col: u32) -> Self
        returns
            (Pos { offset, line, col }),
    {
        Pos { offset, line, col }
    }

    /// All positions produced by a parser are valid; the zero value is not.
    #[verifier::allow_in_spec]
    pub fn is_valid(self) -> bool
        returns
            self.line > 0,
    {
        self.line > 0
    }

    /// Whether `self` comes after `other` in the source (by byte offset).
    #[verifier::allow_in_spec]
    pub fn after(self, other: Pos) -> bool
        returns
            self.offset > other.offset,
    {
        self.offset > other.offset
    }
}

// ---------------------------------------------------------------------------
// Nodes
// ---------------------------------------------------------------------------


/// A single comment on a single line (`# text`). `hash` is the position of `#`.
#[derive(Debug, PartialEq, Eq)]
pub struct Comment {
    pub hash: Pos,
    pub text: String,
}

/// A shell source file: a list of statements plus any trailing comments.
#[derive(Debug, PartialEq, Eq)]
pub struct File {
    pub name: Option<String>,
    pub stmts: Vec<Stmt>,
    pub last: Vec<Comment>,
}

/// A statement ("complete command"): a command with optional leading `!`,
/// trailing `&`/`|&`/`;`, redirections, and attached comments.
#[derive(Debug, PartialEq, Eq)]
pub struct Stmt {
    pub comments: Vec<Comment>,
    pub cmd: Option<Command>,
    pub position: Pos,
    /// Position of the trailing `;`, `&`, or `|&`, if any.
    pub semicolon: Pos,
    pub negated: bool,  // `! stmt`
    pub background: bool,  // `stmt &`
    pub coprocess: bool,  // mksh `stmt |&`
    pub redirs: Vec<Redirect>,
}

/// Every command / compound-command / function-declaration variant.
#[derive(Debug, PartialEq, Eq)]
pub enum Command {
    Call(CallExpr),
    Binary(Box<BinaryCmd>),
    If(Box<IfClause>),
    While(Box<WhileClause>),
    For(Box<ForClause>),
    Case(CaseClause),
    Block(Block),
    Subshell(Subshell),
    Func(Box<FuncDecl>),
    Arithm(ArithmCmd),
    Test(Box<TestClause>),
    Decl(DeclClause),
    Let(LetClause),
    Time(Box<TimeClause>),
    Coproc(Box<CoprocClause>),
}

/// An assignment such as `a=x`, `arr[i]=x`, `a+=x`, or a naked decl argument.
#[derive(Debug, PartialEq, Eq)]
pub struct Assign {
    pub append: bool,  // `+=`
    pub naked: bool,  // no `=` (declare arg / option)
    pub name: Option<Lit>,
    pub index: Option<ArithmExpr>,  // `[i]`, `["k"]`
    pub value: Option<Word>,  // `=val`
    pub array: Option<ArrayExpr>,  // `=(arr)`
}

/// An input/output redirection (`>a`, `2>&1`, `<<EOF`, ...).
#[derive(Debug, PartialEq, Eq)]
pub struct Redirect {
    pub op_pos: Pos,
    pub op: RedirOperator,
    pub n: Option<Lit>,  // fd number, or `{varname}` in Bash
    pub word: Option<Word>,  // target word
    pub hdoc: Option<Word>,  // here-document body
}

/// A simple command / function call ("simple command").
#[derive(Debug, PartialEq, Eq)]
pub struct CallExpr {
    pub assigns: Vec<Assign>,
    pub args: Vec<Word>,
}

/// `( ... )` — commands in a subshell.
#[derive(Debug, PartialEq, Eq)]
pub struct Subshell {
    pub lparen: Pos,
    pub rparen: Pos,
    pub stmts: Vec<Stmt>,
    pub last: Vec<Comment>,
}

/// `{ ...; }` — commands in a new scope.
#[derive(Debug, PartialEq, Eq)]
pub struct Block {
    pub lbrace: Pos,
    pub rbrace: Pos,
    pub stmts: Vec<Stmt>,
    pub last: Vec<Comment>,
}

/// An `if`/`elif`/`else` clause. `else_` chains for `elif`/`else`.
#[derive(Debug, PartialEq, Eq)]
pub struct IfClause {
    pub position: Pos,  // `if`, `elif`, or `else`
    pub then_pos: Pos,  // `then` (invalid for an `else`)
    pub fi_pos: Pos,  // `fi` (shared with the tail `else_`)
    pub cond: Vec<Stmt>,
    pub cond_last: Vec<Comment>,
    pub then: Vec<Stmt>,
    pub then_last: Vec<Comment>,
    pub else_: Option<Box<IfClause>>,
    pub last: Vec<Comment>,
}

/// A `while` or `until` clause.
#[derive(Debug, PartialEq, Eq)]
pub struct WhileClause {
    pub while_pos: Pos,
    pub do_pos: Pos,
    pub done_pos: Pos,
    pub until: bool,
    pub cond: Vec<Stmt>,
    pub cond_last: Vec<Comment>,
    pub do_: Vec<Stmt>,
    pub do_last: Vec<Comment>,
}

/// A `for` or `select` clause.
#[derive(Debug, PartialEq, Eq)]
pub struct ForClause {
    pub for_pos: Pos,
    pub do_pos: Pos,
    pub done_pos: Pos,
    pub select: bool,
    pub braces: bool,  // deprecated `{ }` form
    pub loop_: Loop,
    pub do_: Vec<Stmt>,
    pub do_last: Vec<Comment>,
}

/// The iteration head of a `for` clause.
#[derive(Debug, PartialEq, Eq)]
pub enum Loop {
    Word(WordIter),
    CStyle(CStyleLoop),
}

/// `for name in items` (or, with `in_pos` invalid, over `"$@"`).
#[derive(Debug, PartialEq, Eq)]
pub struct WordIter {
    pub name: Lit,
    pub in_pos: Pos,
    pub items: Vec<Word>,
}

/// `for (( init; cond; post ))` — Bash only.
#[derive(Debug, PartialEq, Eq)]
pub struct CStyleLoop {
    pub lparen: Pos,
    pub rparen: Pos,
    pub init: Option<ArithmExpr>,
    pub cond: Option<ArithmExpr>,
    pub post: Option<ArithmExpr>,
}

/// A `&&` / `||` / `|` / `|&` expression between two statements.
#[derive(Debug, PartialEq, Eq)]
pub struct BinaryCmd {
    pub op_pos: Pos,
    pub op: BinCmdOperator,
    pub x: Stmt,
    pub y: Stmt,
}

/// A function declaration. `rsrv_word` is the `function f()` style.
#[derive(Debug, PartialEq, Eq)]
pub struct FuncDecl {
    pub position: Pos,
    pub rsrv_word: bool,
    pub name: Lit,
    pub body: Stmt,
}

/// A shell word: one or more contiguous parts.
#[derive(Debug, PartialEq, Eq)]
pub struct Word {
    pub parts: Vec<WordPart>,
}

/// Every node that can form part of a word.
#[derive(Debug, PartialEq, Eq)]
pub enum WordPart {
    Lit(Lit),
    SglQuoted(SglQuoted),
    DblQuoted(DblQuoted),
    ParamExp(Box<ParamExp>),
    CmdSubst(Box<CmdSubst>),
    ArithmExp(Box<ArithmExp>),
    ProcSubst(Box<ProcSubst>),
    ExtGlob(ExtGlob),
    BraceExp(BraceExp),  // only after brace splitting
}

/// A string literal. Note the source may have split it across escaped
/// newlines; that splitting is lost but the end position is kept.
#[derive(Debug, PartialEq, Eq)]
pub struct Lit {
    pub value_pos: Pos,
    pub value_end: Pos,
    pub value: String,
}

/// A single-quoted string. `dollar` marks the `$'...'` form.
#[derive(Debug, PartialEq, Eq)]
pub struct SglQuoted {
    pub left: Pos,
    pub right: Pos,
    pub dollar: bool,
    pub value: String,
}

/// A double-quoted string: a list of parts. `dollar` marks `$"..."`.
#[derive(Debug, PartialEq, Eq)]
pub struct DblQuoted {
    pub left: Pos,
    pub right: Pos,
    pub dollar: bool,
    pub parts: Vec<WordPart>,
}

/// A command substitution `$(...)` (or backquotes / mksh `${ ;}` forms).
#[derive(Debug, PartialEq, Eq)]
pub struct CmdSubst {
    pub left: Pos,
    pub right: Pos,
    pub stmts: Vec<Stmt>,
    pub last: Vec<Comment>,
    pub backquotes: bool,  // deprecated `` `foo` ``
    pub temp_file: bool,  // mksh `${ foo;}`
    pub reply_var: bool,  // mksh `${|foo;}`
}

/// A parameter expansion `${...}` (or short `$a`).
#[derive(Debug, PartialEq, Eq)]
pub struct ParamExp {
    pub dollar: Pos,
    pub rbrace: Pos,
    pub short: bool,  // `$a` instead of `${a}`
    pub excl: bool,  // `${!a}`
    pub length: bool,  // `${#a}`
    pub width: bool,  // `${%a}`
    pub param: Lit,
    pub index: Option<ArithmExpr>,  // `${a[i]}`
    pub slice: Option<Slice>,  // `${a:x:y}`
    pub repl: Option<Replace>,  // `${a/x/y}`
    pub names: Option<ParNamesOperator>,  // `${!prefix*}` / `${!prefix@}`
    pub exp: Option<Expansion>,  // `${a:-b}`, `${a#b}`, ...
}

/// `${a:offset:length}` slicing.
#[derive(Debug, PartialEq, Eq)]
pub struct Slice {
    pub offset: Option<ArithmExpr>,
    pub length: Option<ArithmExpr>,
}

/// `${a/orig/with}` search-and-replace.
#[derive(Debug, PartialEq, Eq)]
pub struct Replace {
    pub all: bool,
    pub orig: Option<Word>,
    pub with: Option<Word>,
}

/// Other `${...}` manipulations such as `${a:-b}` or `${a#b}`.
#[derive(Debug, PartialEq, Eq)]
pub struct Expansion {
    pub op: ParExpOperator,
    pub word: Option<Word>,
}

/// An arithmetic expansion `$(( ... ))` (or deprecated `$[ ... ]`).
#[derive(Debug, PartialEq, Eq)]
pub struct ArithmExp {
    pub left: Pos,
    pub right: Pos,
    pub bracket: bool,  // deprecated `$[expr]`
    pub unsigned: bool,  // mksh `$((# expr))`
    pub x: ArithmExpr,
}

/// An arithmetic command `(( ... ))` — Bash only.
#[derive(Debug, PartialEq, Eq)]
pub struct ArithmCmd {
    pub left: Pos,
    pub right: Pos,
    pub unsigned: bool,
    pub x: ArithmExpr,
}

/// Every node forming an arithmetic expression.
#[derive(Debug, PartialEq, Eq)]
pub enum ArithmExpr {
    Binary(Box<BinaryArithm>),
    Unary(Box<UnaryArithm>),
    Paren(Box<ParenArithm>),
    Word(Box<Word>),
}

/// A binary arithmetic expression. Ternaries `a ? b : c` nest as
/// `Binary{TernQuest, a, Binary{TernColon, b, c}}`.
#[derive(Debug, PartialEq, Eq)]
pub struct BinaryArithm {
    pub op_pos: Pos,
    pub op: BinAritOperator,
    pub x: ArithmExpr,
    pub y: ArithmExpr,
}

/// A unary arithmetic expression; `post` distinguishes `x++` from `++x`.
#[derive(Debug, PartialEq, Eq)]
pub struct UnaryArithm {
    pub op_pos: Pos,
    pub op: UnAritOperator,
    pub post: bool,
    pub x: ArithmExpr,
}

/// `( expr )` inside arithmetic.
#[derive(Debug, PartialEq, Eq)]
pub struct ParenArithm {
    pub lparen: Pos,
    pub rparen: Pos,
    pub x: ArithmExpr,
}

/// A `case` (switch) clause.
#[derive(Debug, PartialEq, Eq)]
pub struct CaseClause {
    pub case: Pos,
    pub in_: Pos,
    pub esac: Pos,
    pub braces: bool,  // deprecated mksh `{ }` form
    pub word: Word,
    pub items: Vec<CaseItem>,
    pub last: Vec<Comment>,
}

/// One pattern list within a `case`.
#[derive(Debug, PartialEq, Eq)]
pub struct CaseItem {
    pub op: CaseOperator,
    pub op_pos: Pos,  // invalid if finished by `esac`
    pub comments: Vec<Comment>,
    pub patterns: Vec<Word>,
    pub stmts: Vec<Stmt>,
    pub last: Vec<Comment>,
}

/// A Bash extended test clause `[[ ... ]]` — Bash only.
#[derive(Debug, PartialEq, Eq)]
pub struct TestClause {
    pub left: Pos,
    pub right: Pos,
    pub x: TestExpr,
}

/// Every node forming a test expression.
#[derive(Debug, PartialEq, Eq)]
pub enum TestExpr {
    Binary(Box<BinaryTest>),
    Unary(Box<UnaryTest>),
    Paren(Box<ParenTest>),
    Word(Box<Word>),
}

/// A binary test expression.
#[derive(Debug, PartialEq, Eq)]
pub struct BinaryTest {
    pub op_pos: Pos,
    pub op: BinTestOperator,
    pub x: TestExpr,
    pub y: TestExpr,
}

/// A unary test expression.
#[derive(Debug, PartialEq, Eq)]
pub struct UnaryTest {
    pub op_pos: Pos,
    pub op: UnTestOperator,
    pub x: TestExpr,
}

/// `( expr )` inside `[[ ]]`.
#[derive(Debug, PartialEq, Eq)]
pub struct ParenTest {
    pub lparen: Pos,
    pub rparen: Pos,
    pub x: TestExpr,
}

/// A Bash declare-family clause (`declare`/`local`/`export`/`readonly`/...).
#[derive(Debug, PartialEq, Eq)]
pub struct DeclClause {
    pub variant: Lit,
    pub args: Vec<Assign>,
}

/// A Bash array expression `=( ... )`.
#[derive(Debug, PartialEq, Eq)]
pub struct ArrayExpr {
    pub lparen: Pos,
    pub rparen: Pos,
    pub elems: Vec<ArrayElem>,
    pub last: Vec<Comment>,
}

/// One element of an array expression. Either field may be absent.
#[derive(Debug, PartialEq, Eq)]
pub struct ArrayElem {
    pub index: Option<ArithmExpr>,
    pub value: Option<Word>,
    pub comments: Vec<Comment>,
}

/// A Bash extended-glob expression such as `@(foo|bar)`.
#[derive(Debug, PartialEq, Eq)]
pub struct ExtGlob {
    pub op_pos: Pos,
    pub op: GlobOperator,
    pub pattern: Lit,
}

/// A Bash process substitution `<( ... )` / `>( ... )`.
#[derive(Debug, PartialEq, Eq)]
pub struct ProcSubst {
    pub op_pos: Pos,
    pub rparen: Pos,
    pub op: ProcOperator,
    pub stmts: Vec<Stmt>,
    pub last: Vec<Comment>,
}

/// A Bash `time` clause. `posix_format` is the `-p` flag.
#[derive(Debug, PartialEq, Eq)]
pub struct TimeClause {
    pub time: Pos,
    pub posix_format: bool,
    pub stmt: Option<Stmt>,
}

/// A Bash `coproc` clause.
#[derive(Debug, PartialEq, Eq)]
pub struct CoprocClause {
    pub coproc: Pos,
    pub name: Option<Word>,
    pub stmt: Stmt,
}

/// A Bash `let` clause.
#[derive(Debug, PartialEq, Eq)]
pub struct LetClause {
    pub let_: Pos,
    pub exprs: Vec<ArithmExpr>,
}

/// A Bash brace expression `{a,b}` / `{1..10}` — only after brace splitting.
#[derive(Debug, PartialEq, Eq)]
pub struct BraceExp {
    pub sequence: bool,  // `{x..y}` instead of `{x,y}`
    pub elems: Vec<Word>,
}

// ---------------------------------------------------------------------------
// Mathematical forms
// ---------------------------------------------------------------------------

/// The mathematical form of [`Comment`].
#[verifier::ext_equal]
pub struct CommentView {
    pub hash: Pos,
    pub text: Seq<char>,
}

/// The mathematical form of [`File`].
#[verifier::ext_equal]
pub struct FileView {
    pub name: Option<Seq<char>>,
    pub stmts: Seq<StmtView>,
    pub last: Seq<CommentView>,
}

/// The mathematical form of [`Stmt`].
#[verifier::ext_equal]
pub struct StmtView {
    pub comments: Seq<CommentView>,
    pub cmd: Option<CommandView>,
    pub position: Pos,
    pub semicolon: Pos,
    pub negated: bool,
    pub background: bool,
    pub coprocess: bool,
    pub redirs: Seq<RedirectView>,
}

/// The mathematical form of [`Command`].
#[verifier::ext_equal]
pub enum CommandView {
    Call(CallExprView),
    Binary(Box<BinaryCmdView>),
    If(Box<IfClauseView>),
    While(Box<WhileClauseView>),
    For(Box<ForClauseView>),
    Case(CaseClauseView),
    Block(BlockView),
    Subshell(SubshellView),
    Func(Box<FuncDeclView>),
    Arithm(ArithmCmdView),
    Test(Box<TestClauseView>),
    Decl(DeclClauseView),
    Let(LetClauseView),
    Time(Box<TimeClauseView>),
    Coproc(Box<CoprocClauseView>),
}

/// The mathematical form of [`Assign`].
#[verifier::ext_equal]
pub struct AssignView {
    pub append: bool,
    pub naked: bool,
    pub name: Option<LitView>,
    pub index: Option<ArithmExprView>,
    pub value: Option<WordView>,
    pub array: Option<ArrayExprView>,
}

/// The mathematical form of [`Redirect`].
#[verifier::ext_equal]
pub struct RedirectView {
    pub op_pos: Pos,
    pub op: RedirOperator,
    pub n: Option<LitView>,
    pub word: Option<WordView>,
    pub hdoc: Option<WordView>,
}

/// The mathematical form of [`CallExpr`].
#[verifier::ext_equal]
pub struct CallExprView {
    pub assigns: Seq<AssignView>,
    pub args: Seq<WordView>,
}

/// The mathematical form of [`Subshell`].
#[verifier::ext_equal]
pub struct SubshellView {
    pub lparen: Pos,
    pub rparen: Pos,
    pub stmts: Seq<StmtView>,
    pub last: Seq<CommentView>,
}

/// The mathematical form of [`Block`].
#[verifier::ext_equal]
pub struct BlockView {
    pub lbrace: Pos,
    pub rbrace: Pos,
    pub stmts: Seq<StmtView>,
    pub last: Seq<CommentView>,
}

/// The mathematical form of [`IfClause`].
#[verifier::ext_equal]
pub struct IfClauseView {
    pub position: Pos,
    pub then_pos: Pos,
    pub fi_pos: Pos,
    pub cond: Seq<StmtView>,
    pub cond_last: Seq<CommentView>,
    pub then_: Seq<StmtView>,
    pub then_last: Seq<CommentView>,
    pub else_: Option<Box<IfClauseView>>,
    pub last: Seq<CommentView>,
}

/// The mathematical form of [`WhileClause`].
#[verifier::ext_equal]
pub struct WhileClauseView {
    pub while_pos: Pos,
    pub do_pos: Pos,
    pub done_pos: Pos,
    pub until: bool,
    pub cond: Seq<StmtView>,
    pub cond_last: Seq<CommentView>,
    pub do_: Seq<StmtView>,
    pub do_last: Seq<CommentView>,
}

/// The mathematical form of [`ForClause`].
#[verifier::ext_equal]
pub struct ForClauseView {
    pub for_pos: Pos,
    pub do_pos: Pos,
    pub done_pos: Pos,
    pub select: bool,
    pub braces: bool,
    pub loop_: LoopView,
    pub do_: Seq<StmtView>,
    pub do_last: Seq<CommentView>,
}

/// The mathematical form of [`Loop`].
#[verifier::ext_equal]
pub enum LoopView {
    Word(WordIterView),
    CStyle(CStyleLoopView),
}

/// The mathematical form of [`WordIter`].
#[verifier::ext_equal]
pub struct WordIterView {
    pub name: LitView,
    pub in_pos: Pos,
    pub items: Seq<WordView>,
}

/// The mathematical form of [`CStyleLoop`].
#[verifier::ext_equal]
pub struct CStyleLoopView {
    pub lparen: Pos,
    pub rparen: Pos,
    pub init: Option<ArithmExprView>,
    pub cond: Option<ArithmExprView>,
    pub post: Option<ArithmExprView>,
}

/// The mathematical form of [`BinaryCmd`].
#[verifier::ext_equal]
pub struct BinaryCmdView {
    pub op_pos: Pos,
    pub op: BinCmdOperator,
    pub x: StmtView,
    pub y: StmtView,
}

/// The mathematical form of [`FuncDecl`].
#[verifier::ext_equal]
pub struct FuncDeclView {
    pub position: Pos,
    pub rsrv_word: bool,
    pub name: LitView,
    pub body: StmtView,
}

/// The mathematical form of [`Word`].
#[verifier::ext_equal]
pub struct WordView {
    pub parts: Seq<WordPartView>,
}

/// The mathematical form of [`WordPart`].
#[verifier::ext_equal]
pub enum WordPartView {
    Lit(LitView),
    SglQuoted(SglQuotedView),
    DblQuoted(DblQuotedView),
    ParamExp(Box<ParamExpView>),
    CmdSubst(Box<CmdSubstView>),
    ArithmExp(Box<ArithmExpView>),
    ProcSubst(Box<ProcSubstView>),
    ExtGlob(ExtGlobView),
    BraceExp(BraceExpView),
}

/// The mathematical form of [`Lit`].
#[verifier::ext_equal]
pub struct LitView {
    pub value_pos: Pos,
    pub value_end: Pos,
    pub value: Seq<char>,
}

/// The mathematical form of [`SglQuoted`].
#[verifier::ext_equal]
pub struct SglQuotedView {
    pub left: Pos,
    pub right: Pos,
    pub dollar: bool,
    pub value: Seq<char>,
}

/// The mathematical form of [`DblQuoted`].
#[verifier::ext_equal]
pub struct DblQuotedView {
    pub left: Pos,
    pub right: Pos,
    pub dollar: bool,
    pub parts: Seq<WordPartView>,
}

/// The mathematical form of [`CmdSubst`].
#[verifier::ext_equal]
pub struct CmdSubstView {
    pub left: Pos,
    pub right: Pos,
    pub stmts: Seq<StmtView>,
    pub last: Seq<CommentView>,
    pub backquotes: bool,
    pub temp_file: bool,
    pub reply_var: bool,
}

/// The mathematical form of [`ParamExp`].
#[verifier::ext_equal]
pub struct ParamExpView {
    pub dollar: Pos,
    pub rbrace: Pos,
    pub short: bool,
    pub excl: bool,
    pub length: bool,
    pub width: bool,
    pub param: LitView,
    pub index: Option<ArithmExprView>,
    pub slice: Option<SliceView>,
    pub repl: Option<ReplaceView>,
    pub names: Option<ParNamesOperator>,
    pub exp: Option<ExpansionView>,
}

/// The mathematical form of [`Slice`].
#[verifier::ext_equal]
pub struct SliceView {
    pub offset: Option<ArithmExprView>,
    pub length: Option<ArithmExprView>,
}

/// The mathematical form of [`Replace`].
#[verifier::ext_equal]
pub struct ReplaceView {
    pub all: bool,
    pub orig: Option<WordView>,
    pub with: Option<WordView>,
}

/// The mathematical form of [`Expansion`].
#[verifier::ext_equal]
pub struct ExpansionView {
    pub op: ParExpOperator,
    pub word: Option<WordView>,
}

/// The mathematical form of [`ArithmExp`].
#[verifier::ext_equal]
pub struct ArithmExpView {
    pub left: Pos,
    pub right: Pos,
    pub bracket: bool,
    pub unsigned: bool,
    pub x: ArithmExprView,
}

/// The mathematical form of [`ArithmCmd`].
#[verifier::ext_equal]
pub struct ArithmCmdView {
    pub left: Pos,
    pub right: Pos,
    pub unsigned: bool,
    pub x: ArithmExprView,
}

/// The mathematical form of [`ArithmExpr`].
#[verifier::ext_equal]
pub enum ArithmExprView {
    Binary(Box<BinaryArithmView>),
    Unary(Box<UnaryArithmView>),
    Paren(Box<ParenArithmView>),
    Word(Box<WordView>),
}

/// The mathematical form of [`BinaryArithm`].
#[verifier::ext_equal]
pub struct BinaryArithmView {
    pub op_pos: Pos,
    pub op: BinAritOperator,
    pub x: ArithmExprView,
    pub y: ArithmExprView,
}

/// The mathematical form of [`UnaryArithm`].
#[verifier::ext_equal]
pub struct UnaryArithmView {
    pub op_pos: Pos,
    pub op: UnAritOperator,
    pub post: bool,
    pub x: ArithmExprView,
}

/// The mathematical form of [`ParenArithm`].
#[verifier::ext_equal]
pub struct ParenArithmView {
    pub lparen: Pos,
    pub rparen: Pos,
    pub x: ArithmExprView,
}

/// The mathematical form of [`CaseClause`].
#[verifier::ext_equal]
pub struct CaseClauseView {
    pub case: Pos,
    pub in_: Pos,
    pub esac: Pos,
    pub braces: bool,
    pub word: WordView,
    pub items: Seq<CaseItemView>,
    pub last: Seq<CommentView>,
}

/// The mathematical form of [`CaseItem`].
#[verifier::ext_equal]
pub struct CaseItemView {
    pub op: CaseOperator,
    pub op_pos: Pos,
    pub comments: Seq<CommentView>,
    pub patterns: Seq<WordView>,
    pub stmts: Seq<StmtView>,
    pub last: Seq<CommentView>,
}

/// The mathematical form of [`TestClause`].
#[verifier::ext_equal]
pub struct TestClauseView {
    pub left: Pos,
    pub right: Pos,
    pub x: TestExprView,
}

/// The mathematical form of [`TestExpr`].
#[verifier::ext_equal]
pub enum TestExprView {
    Binary(Box<BinaryTestView>),
    Unary(Box<UnaryTestView>),
    Paren(Box<ParenTestView>),
    Word(Box<WordView>),
}

/// The mathematical form of [`BinaryTest`].
#[verifier::ext_equal]
pub struct BinaryTestView {
    pub op_pos: Pos,
    pub op: BinTestOperator,
    pub x: TestExprView,
    pub y: TestExprView,
}

/// The mathematical form of [`UnaryTest`].
#[verifier::ext_equal]
pub struct UnaryTestView {
    pub op_pos: Pos,
    pub op: UnTestOperator,
    pub x: TestExprView,
}

/// The mathematical form of [`ParenTest`].
#[verifier::ext_equal]
pub struct ParenTestView {
    pub lparen: Pos,
    pub rparen: Pos,
    pub x: TestExprView,
}

/// The mathematical form of [`DeclClause`].
#[verifier::ext_equal]
pub struct DeclClauseView {
    pub variant: LitView,
    pub args: Seq<AssignView>,
}

/// The mathematical form of [`ArrayExpr`].
#[verifier::ext_equal]
pub struct ArrayExprView {
    pub lparen: Pos,
    pub rparen: Pos,
    pub elems: Seq<ArrayElemView>,
    pub last: Seq<CommentView>,
}

/// The mathematical form of [`ArrayElem`].
#[verifier::ext_equal]
pub struct ArrayElemView {
    pub index: Option<ArithmExprView>,
    pub value: Option<WordView>,
    pub comments: Seq<CommentView>,
}

/// The mathematical form of [`ExtGlob`].
#[verifier::ext_equal]
pub struct ExtGlobView {
    pub op_pos: Pos,
    pub op: GlobOperator,
    pub pattern: LitView,
}

/// The mathematical form of [`ProcSubst`].
#[verifier::ext_equal]
pub struct ProcSubstView {
    pub op_pos: Pos,
    pub rparen: Pos,
    pub op: ProcOperator,
    pub stmts: Seq<StmtView>,
    pub last: Seq<CommentView>,
}

/// The mathematical form of [`TimeClause`].
#[verifier::ext_equal]
pub struct TimeClauseView {
    pub time: Pos,
    pub posix_format: bool,
    pub stmt: Option<StmtView>,
}

/// The mathematical form of [`CoprocClause`].
#[verifier::ext_equal]
pub struct CoprocClauseView {
    pub coproc: Pos,
    pub name: Option<WordView>,
    pub stmt: StmtView,
}

/// The mathematical form of [`LetClause`].
#[verifier::ext_equal]
pub struct LetClauseView {
    pub let_: Pos,
    pub exprs: Seq<ArithmExprView>,
}

/// The mathematical form of [`BraceExp`].
#[verifier::ext_equal]
pub struct BraceExpView {
    pub sequence: bool,
    pub elems: Seq<WordView>,
}

impl Comment {
    pub open spec fn view(&self) -> CommentView
        decreases self,
    {
        CommentView {
            hash: self.hash,
            text: self.text@,
        }
    }
}

impl File {
    pub open spec fn view(&self) -> FileView
        decreases self,
    {
        FileView {
            name: match self.name {
                Some(x) => Some(x@),
                None => None,
            },
            stmts: Seq::new(
                self.stmts@.len(),
                |i: int|
                    if 0 <= i < self.stmts@.len() {
                        self.stmts@[i].view()
                    } else {
                        arbitrary()
                    },
            ),
            last: Seq::new(
                self.last@.len(),
                |i: int|
                    if 0 <= i < self.last@.len() {
                        self.last@[i].view()
                    } else {
                        arbitrary()
                    },
            ),
        }
    }
}

impl Stmt {
    pub open spec fn view(&self) -> StmtView
        decreases self,
    {
        StmtView {
            comments: Seq::new(
                self.comments@.len(),
                |i: int|
                    if 0 <= i < self.comments@.len() {
                        self.comments@[i].view()
                    } else {
                        arbitrary()
                    },
            ),
            cmd: match self.cmd {
                Some(x) => Some(x.view()),
                None => None,
            },
            position: self.position,
            semicolon: self.semicolon,
            negated: self.negated,
            background: self.background,
            coprocess: self.coprocess,
            redirs: Seq::new(
                self.redirs@.len(),
                |i: int|
                    if 0 <= i < self.redirs@.len() {
                        self.redirs@[i].view()
                    } else {
                        arbitrary()
                    },
            ),
        }
    }
}

impl Command {
    pub open spec fn view(&self) -> CommandView
        decreases self,
    {
        match self {
            Command::Call(x) => CommandView::Call(x.view()),
            Command::Binary(x) => CommandView::Binary(Box::new(x.view())),
            Command::If(x) => CommandView::If(Box::new(x.view())),
            Command::While(x) => CommandView::While(Box::new(x.view())),
            Command::For(x) => CommandView::For(Box::new(x.view())),
            Command::Case(x) => CommandView::Case(x.view()),
            Command::Block(x) => CommandView::Block(x.view()),
            Command::Subshell(x) => CommandView::Subshell(x.view()),
            Command::Func(x) => CommandView::Func(Box::new(x.view())),
            Command::Arithm(x) => CommandView::Arithm(x.view()),
            Command::Test(x) => CommandView::Test(Box::new(x.view())),
            Command::Decl(x) => CommandView::Decl(x.view()),
            Command::Let(x) => CommandView::Let(x.view()),
            Command::Time(x) => CommandView::Time(Box::new(x.view())),
            Command::Coproc(x) => CommandView::Coproc(Box::new(x.view())),
        }
    }
}

impl Assign {
    pub open spec fn view(&self) -> AssignView
        decreases self,
    {
        AssignView {
            append: self.append,
            naked: self.naked,
            name: match self.name {
                Some(x) => Some(x.view()),
                None => None,
            },
            index: match self.index {
                Some(x) => Some(x.view()),
                None => None,
            },
            value: match self.value {
                Some(x) => Some(x.view()),
                None => None,
            },
            array: match self.array {
                Some(x) => Some(x.view()),
                None => None,
            },
        }
    }
}

impl Redirect {
    pub open spec fn view(&self) -> RedirectView
        decreases self,
    {
        RedirectView {
            op_pos: self.op_pos,
            op: self.op,
            n: match self.n {
                Some(x) => Some(x.view()),
                None => None,
            },
            word: match self.word {
                Some(x) => Some(x.view()),
                None => None,
            },
            hdoc: match self.hdoc {
                Some(x) => Some(x.view()),
                None => None,
            },
        }
    }
}

impl CallExpr {
    pub open spec fn view(&self) -> CallExprView
        decreases self,
    {
        CallExprView {
            assigns: Seq::new(
                self.assigns@.len(),
                |i: int|
                    if 0 <= i < self.assigns@.len() {
                        self.assigns@[i].view()
                    } else {
                        arbitrary()
                    },
            ),
            args: Seq::new(
                self.args@.len(),
                |i: int|
                    if 0 <= i < self.args@.len() {
                        self.args@[i].view()
                    } else {
                        arbitrary()
                    },
            ),
        }
    }
}

impl Subshell {
    pub open spec fn view(&self) -> SubshellView
        decreases self,
    {
        SubshellView {
            lparen: self.lparen,
            rparen: self.rparen,
            stmts: Seq::new(
                self.stmts@.len(),
                |i: int|
                    if 0 <= i < self.stmts@.len() {
                        self.stmts@[i].view()
                    } else {
                        arbitrary()
                    },
            ),
            last: Seq::new(
                self.last@.len(),
                |i: int|
                    if 0 <= i < self.last@.len() {
                        self.last@[i].view()
                    } else {
                        arbitrary()
                    },
            ),
        }
    }
}

impl Block {
    pub open spec fn view(&self) -> BlockView
        decreases self,
    {
        BlockView {
            lbrace: self.lbrace,
            rbrace: self.rbrace,
            stmts: Seq::new(
                self.stmts@.len(),
                |i: int|
                    if 0 <= i < self.stmts@.len() {
                        self.stmts@[i].view()
                    } else {
                        arbitrary()
                    },
            ),
            last: Seq::new(
                self.last@.len(),
                |i: int|
                    if 0 <= i < self.last@.len() {
                        self.last@[i].view()
                    } else {
                        arbitrary()
                    },
            ),
        }
    }
}

impl IfClause {
    pub open spec fn view(&self) -> IfClauseView
        decreases self,
    {
        match self { IfClause { then: then_, .. } =>
        IfClauseView {
            position: self.position,
            then_pos: self.then_pos,
            fi_pos: self.fi_pos,
            cond: Seq::new(
                self.cond@.len(),
                |i: int|
                    if 0 <= i < self.cond@.len() {
                        self.cond@[i].view()
                    } else {
                        arbitrary()
                    },
            ),
            cond_last: Seq::new(
                self.cond_last@.len(),
                |i: int|
                    if 0 <= i < self.cond_last@.len() {
                        self.cond_last@[i].view()
                    } else {
                        arbitrary()
                    },
            ),
            then_: Seq::new(
                then_@.len(),
                |i: int|
                    if 0 <= i < then_@.len() {
                        then_@[i].view()
                    } else {
                        arbitrary()
                    },
            ),
            then_last: Seq::new(
                self.then_last@.len(),
                |i: int|
                    if 0 <= i < self.then_last@.len() {
                        self.then_last@[i].view()
                    } else {
                        arbitrary()
                    },
            ),
            else_: match self.else_ {
                Some(x) => Some(Box::new(x.view())),
                None => None,
            },
            last: Seq::new(
                self.last@.len(),
                |i: int|
                    if 0 <= i < self.last@.len() {
                        self.last@[i].view()
                    } else {
                        arbitrary()
                    },
            ),
        }}
    }
}

impl WhileClause {
    pub open spec fn view(&self) -> WhileClauseView
        decreases self,
    {
        WhileClauseView {
            while_pos: self.while_pos,
            do_pos: self.do_pos,
            done_pos: self.done_pos,
            until: self.until,
            cond: Seq::new(
                self.cond@.len(),
                |i: int|
                    if 0 <= i < self.cond@.len() {
                        self.cond@[i].view()
                    } else {
                        arbitrary()
                    },
            ),
            cond_last: Seq::new(
                self.cond_last@.len(),
                |i: int|
                    if 0 <= i < self.cond_last@.len() {
                        self.cond_last@[i].view()
                    } else {
                        arbitrary()
                    },
            ),
            do_: Seq::new(
                self.do_@.len(),
                |i: int|
                    if 0 <= i < self.do_@.len() {
                        self.do_@[i].view()
                    } else {
                        arbitrary()
                    },
            ),
            do_last: Seq::new(
                self.do_last@.len(),
                |i: int|
                    if 0 <= i < self.do_last@.len() {
                        self.do_last@[i].view()
                    } else {
                        arbitrary()
                    },
            ),
        }
    }
}

impl ForClause {
    pub open spec fn view(&self) -> ForClauseView
        decreases self,
    {
        ForClauseView {
            for_pos: self.for_pos,
            do_pos: self.do_pos,
            done_pos: self.done_pos,
            select: self.select,
            braces: self.braces,
            loop_: self.loop_.view(),
            do_: Seq::new(
                self.do_@.len(),
                |i: int|
                    if 0 <= i < self.do_@.len() {
                        self.do_@[i].view()
                    } else {
                        arbitrary()
                    },
            ),
            do_last: Seq::new(
                self.do_last@.len(),
                |i: int|
                    if 0 <= i < self.do_last@.len() {
                        self.do_last@[i].view()
                    } else {
                        arbitrary()
                    },
            ),
        }
    }
}

impl Loop {
    pub open spec fn view(&self) -> LoopView
        decreases self,
    {
        match self {
            Loop::Word(x) => LoopView::Word(x.view()),
            Loop::CStyle(x) => LoopView::CStyle(x.view()),
        }
    }
}

impl WordIter {
    pub open spec fn view(&self) -> WordIterView
        decreases self,
    {
        WordIterView {
            name: self.name.view(),
            in_pos: self.in_pos,
            items: Seq::new(
                self.items@.len(),
                |i: int|
                    if 0 <= i < self.items@.len() {
                        self.items@[i].view()
                    } else {
                        arbitrary()
                    },
            ),
        }
    }
}

impl CStyleLoop {
    pub open spec fn view(&self) -> CStyleLoopView
        decreases self,
    {
        CStyleLoopView {
            lparen: self.lparen,
            rparen: self.rparen,
            init: match self.init {
                Some(x) => Some(x.view()),
                None => None,
            },
            cond: match self.cond {
                Some(x) => Some(x.view()),
                None => None,
            },
            post: match self.post {
                Some(x) => Some(x.view()),
                None => None,
            },
        }
    }
}

impl BinaryCmd {
    pub open spec fn view(&self) -> BinaryCmdView
        decreases self,
    {
        BinaryCmdView {
            op_pos: self.op_pos,
            op: self.op,
            x: self.x.view(),
            y: self.y.view(),
        }
    }
}

impl FuncDecl {
    pub open spec fn view(&self) -> FuncDeclView
        decreases self,
    {
        FuncDeclView {
            position: self.position,
            rsrv_word: self.rsrv_word,
            name: self.name.view(),
            body: self.body.view(),
        }
    }
}

impl Word {
    pub open spec fn view(&self) -> WordView
        decreases self,
    {
        WordView {
            parts: Seq::new(
                self.parts@.len(),
                |i: int|
                    if 0 <= i < self.parts@.len() {
                        self.parts@[i].view()
                    } else {
                        arbitrary()
                    },
            ),
        }
    }
}

impl WordPart {
    pub open spec fn view(&self) -> WordPartView
        decreases self,
    {
        match self {
            WordPart::Lit(x) => WordPartView::Lit(x.view()),
            WordPart::SglQuoted(x) => WordPartView::SglQuoted(x.view()),
            WordPart::DblQuoted(x) => WordPartView::DblQuoted(x.view()),
            WordPart::ParamExp(x) => WordPartView::ParamExp(Box::new(x.view())),
            WordPart::CmdSubst(x) => WordPartView::CmdSubst(Box::new(x.view())),
            WordPart::ArithmExp(x) => WordPartView::ArithmExp(Box::new(x.view())),
            WordPart::ProcSubst(x) => WordPartView::ProcSubst(Box::new(x.view())),
            WordPart::ExtGlob(x) => WordPartView::ExtGlob(x.view()),
            WordPart::BraceExp(x) => WordPartView::BraceExp(x.view()),
        }
    }
}

impl Lit {
    pub open spec fn view(&self) -> LitView
        decreases self,
    {
        LitView {
            value_pos: self.value_pos,
            value_end: self.value_end,
            value: self.value@,
        }
    }
}

impl SglQuoted {
    pub open spec fn view(&self) -> SglQuotedView
        decreases self,
    {
        SglQuotedView {
            left: self.left,
            right: self.right,
            dollar: self.dollar,
            value: self.value@,
        }
    }
}

impl DblQuoted {
    pub open spec fn view(&self) -> DblQuotedView
        decreases self,
    {
        DblQuotedView {
            left: self.left,
            right: self.right,
            dollar: self.dollar,
            parts: Seq::new(
                self.parts@.len(),
                |i: int|
                    if 0 <= i < self.parts@.len() {
                        self.parts@[i].view()
                    } else {
                        arbitrary()
                    },
            ),
        }
    }
}

impl CmdSubst {
    pub open spec fn view(&self) -> CmdSubstView
        decreases self,
    {
        CmdSubstView {
            left: self.left,
            right: self.right,
            stmts: Seq::new(
                self.stmts@.len(),
                |i: int|
                    if 0 <= i < self.stmts@.len() {
                        self.stmts@[i].view()
                    } else {
                        arbitrary()
                    },
            ),
            last: Seq::new(
                self.last@.len(),
                |i: int|
                    if 0 <= i < self.last@.len() {
                        self.last@[i].view()
                    } else {
                        arbitrary()
                    },
            ),
            backquotes: self.backquotes,
            temp_file: self.temp_file,
            reply_var: self.reply_var,
        }
    }
}

impl ParamExp {
    pub open spec fn view(&self) -> ParamExpView
        decreases self,
    {
        ParamExpView {
            dollar: self.dollar,
            rbrace: self.rbrace,
            short: self.short,
            excl: self.excl,
            length: self.length,
            width: self.width,
            param: self.param.view(),
            index: match self.index {
                Some(x) => Some(x.view()),
                None => None,
            },
            slice: match self.slice {
                Some(x) => Some(x.view()),
                None => None,
            },
            repl: match self.repl {
                Some(x) => Some(x.view()),
                None => None,
            },
            names: self.names,
            exp: match self.exp {
                Some(x) => Some(x.view()),
                None => None,
            },
        }
    }
}

impl Slice {
    pub open spec fn view(&self) -> SliceView
        decreases self,
    {
        SliceView {
            offset: match self.offset {
                Some(x) => Some(x.view()),
                None => None,
            },
            length: match self.length {
                Some(x) => Some(x.view()),
                None => None,
            },
        }
    }
}

impl Replace {
    pub open spec fn view(&self) -> ReplaceView
        decreases self,
    {
        ReplaceView {
            all: self.all,
            orig: match self.orig {
                Some(x) => Some(x.view()),
                None => None,
            },
            with: match self.with {
                Some(x) => Some(x.view()),
                None => None,
            },
        }
    }
}

impl Expansion {
    pub open spec fn view(&self) -> ExpansionView
        decreases self,
    {
        ExpansionView {
            op: self.op,
            word: match self.word {
                Some(x) => Some(x.view()),
                None => None,
            },
        }
    }
}

impl ArithmExp {
    pub open spec fn view(&self) -> ArithmExpView
        decreases self,
    {
        ArithmExpView {
            left: self.left,
            right: self.right,
            bracket: self.bracket,
            unsigned: self.unsigned,
            x: self.x.view(),
        }
    }
}

impl ArithmCmd {
    pub open spec fn view(&self) -> ArithmCmdView
        decreases self,
    {
        ArithmCmdView {
            left: self.left,
            right: self.right,
            unsigned: self.unsigned,
            x: self.x.view(),
        }
    }
}

impl ArithmExpr {
    pub open spec fn view(&self) -> ArithmExprView
        decreases self,
    {
        match self {
            ArithmExpr::Binary(x) => ArithmExprView::Binary(Box::new(x.view())),
            ArithmExpr::Unary(x) => ArithmExprView::Unary(Box::new(x.view())),
            ArithmExpr::Paren(x) => ArithmExprView::Paren(Box::new(x.view())),
            ArithmExpr::Word(x) => ArithmExprView::Word(Box::new(x.view())),
        }
    }
}

impl BinaryArithm {
    pub open spec fn view(&self) -> BinaryArithmView
        decreases self,
    {
        BinaryArithmView {
            op_pos: self.op_pos,
            op: self.op,
            x: self.x.view(),
            y: self.y.view(),
        }
    }
}

impl UnaryArithm {
    pub open spec fn view(&self) -> UnaryArithmView
        decreases self,
    {
        UnaryArithmView {
            op_pos: self.op_pos,
            op: self.op,
            post: self.post,
            x: self.x.view(),
        }
    }
}

impl ParenArithm {
    pub open spec fn view(&self) -> ParenArithmView
        decreases self,
    {
        ParenArithmView {
            lparen: self.lparen,
            rparen: self.rparen,
            x: self.x.view(),
        }
    }
}

impl CaseClause {
    pub open spec fn view(&self) -> CaseClauseView
        decreases self,
    {
        CaseClauseView {
            case: self.case,
            in_: self.in_,
            esac: self.esac,
            braces: self.braces,
            word: self.word.view(),
            items: Seq::new(
                self.items@.len(),
                |i: int|
                    if 0 <= i < self.items@.len() {
                        self.items@[i].view()
                    } else {
                        arbitrary()
                    },
            ),
            last: Seq::new(
                self.last@.len(),
                |i: int|
                    if 0 <= i < self.last@.len() {
                        self.last@[i].view()
                    } else {
                        arbitrary()
                    },
            ),
        }
    }
}

impl CaseItem {
    pub open spec fn view(&self) -> CaseItemView
        decreases self,
    {
        CaseItemView {
            op: self.op,
            op_pos: self.op_pos,
            comments: Seq::new(
                self.comments@.len(),
                |i: int|
                    if 0 <= i < self.comments@.len() {
                        self.comments@[i].view()
                    } else {
                        arbitrary()
                    },
            ),
            patterns: Seq::new(
                self.patterns@.len(),
                |i: int|
                    if 0 <= i < self.patterns@.len() {
                        self.patterns@[i].view()
                    } else {
                        arbitrary()
                    },
            ),
            stmts: Seq::new(
                self.stmts@.len(),
                |i: int|
                    if 0 <= i < self.stmts@.len() {
                        self.stmts@[i].view()
                    } else {
                        arbitrary()
                    },
            ),
            last: Seq::new(
                self.last@.len(),
                |i: int|
                    if 0 <= i < self.last@.len() {
                        self.last@[i].view()
                    } else {
                        arbitrary()
                    },
            ),
        }
    }
}

impl TestClause {
    pub open spec fn view(&self) -> TestClauseView
        decreases self,
    {
        TestClauseView {
            left: self.left,
            right: self.right,
            x: self.x.view(),
        }
    }
}

impl TestExpr {
    pub open spec fn view(&self) -> TestExprView
        decreases self,
    {
        match self {
            TestExpr::Binary(x) => TestExprView::Binary(Box::new(x.view())),
            TestExpr::Unary(x) => TestExprView::Unary(Box::new(x.view())),
            TestExpr::Paren(x) => TestExprView::Paren(Box::new(x.view())),
            TestExpr::Word(x) => TestExprView::Word(Box::new(x.view())),
        }
    }
}

impl BinaryTest {
    pub open spec fn view(&self) -> BinaryTestView
        decreases self,
    {
        BinaryTestView {
            op_pos: self.op_pos,
            op: self.op,
            x: self.x.view(),
            y: self.y.view(),
        }
    }
}

impl UnaryTest {
    pub open spec fn view(&self) -> UnaryTestView
        decreases self,
    {
        UnaryTestView {
            op_pos: self.op_pos,
            op: self.op,
            x: self.x.view(),
        }
    }
}

impl ParenTest {
    pub open spec fn view(&self) -> ParenTestView
        decreases self,
    {
        ParenTestView {
            lparen: self.lparen,
            rparen: self.rparen,
            x: self.x.view(),
        }
    }
}

impl DeclClause {
    pub open spec fn view(&self) -> DeclClauseView
        decreases self,
    {
        DeclClauseView {
            variant: self.variant.view(),
            args: Seq::new(
                self.args@.len(),
                |i: int|
                    if 0 <= i < self.args@.len() {
                        self.args@[i].view()
                    } else {
                        arbitrary()
                    },
            ),
        }
    }
}

impl ArrayExpr {
    pub open spec fn view(&self) -> ArrayExprView
        decreases self,
    {
        ArrayExprView {
            lparen: self.lparen,
            rparen: self.rparen,
            elems: Seq::new(
                self.elems@.len(),
                |i: int|
                    if 0 <= i < self.elems@.len() {
                        self.elems@[i].view()
                    } else {
                        arbitrary()
                    },
            ),
            last: Seq::new(
                self.last@.len(),
                |i: int|
                    if 0 <= i < self.last@.len() {
                        self.last@[i].view()
                    } else {
                        arbitrary()
                    },
            ),
        }
    }
}

impl ArrayElem {
    pub open spec fn view(&self) -> ArrayElemView
        decreases self,
    {
        ArrayElemView {
            index: match self.index {
                Some(x) => Some(x.view()),
                None => None,
            },
            value: match self.value {
                Some(x) => Some(x.view()),
                None => None,
            },
            comments: Seq::new(
                self.comments@.len(),
                |i: int|
                    if 0 <= i < self.comments@.len() {
                        self.comments@[i].view()
                    } else {
                        arbitrary()
                    },
            ),
        }
    }
}

impl ExtGlob {
    pub open spec fn view(&self) -> ExtGlobView
        decreases self,
    {
        ExtGlobView {
            op_pos: self.op_pos,
            op: self.op,
            pattern: self.pattern.view(),
        }
    }
}

impl ProcSubst {
    pub open spec fn view(&self) -> ProcSubstView
        decreases self,
    {
        ProcSubstView {
            op_pos: self.op_pos,
            rparen: self.rparen,
            op: self.op,
            stmts: Seq::new(
                self.stmts@.len(),
                |i: int|
                    if 0 <= i < self.stmts@.len() {
                        self.stmts@[i].view()
                    } else {
                        arbitrary()
                    },
            ),
            last: Seq::new(
                self.last@.len(),
                |i: int|
                    if 0 <= i < self.last@.len() {
                        self.last@[i].view()
                    } else {
                        arbitrary()
                    },
            ),
        }
    }
}

impl TimeClause {
    pub open spec fn view(&self) -> TimeClauseView
        decreases self,
    {
        TimeClauseView {
            time: self.time,
            posix_format: self.posix_format,
            stmt: match self.stmt {
                Some(x) => Some(x.view()),
                None => None,
            },
        }
    }
}

impl CoprocClause {
    pub open spec fn view(&self) -> CoprocClauseView
        decreases self,
    {
        CoprocClauseView {
            coproc: self.coproc,
            name: match self.name {
                Some(x) => Some(x.view()),
                None => None,
            },
            stmt: self.stmt.view(),
        }
    }
}

impl LetClause {
    pub open spec fn view(&self) -> LetClauseView
        decreases self,
    {
        LetClauseView {
            let_: self.let_,
            exprs: Seq::new(
                self.exprs@.len(),
                |i: int|
                    if 0 <= i < self.exprs@.len() {
                        self.exprs@[i].view()
                    } else {
                        arbitrary()
                    },
            ),
        }
    }
}

impl BraceExp {
    pub open spec fn view(&self) -> BraceExpView
        decreases self,
    {
        BraceExpView {
            sequence: self.sequence,
            elems: Seq::new(
                self.elems@.len(),
                |i: int|
                    if 0 <= i < self.elems@.len() {
                        self.elems@[i].view()
                    } else {
                        arbitrary()
                    },
            ),
        }
    }
}

/// The mathematical forms of a sequence of [`ArithmExpr`].
pub open spec fn arithm_expr_views(items: Seq<ArithmExpr>) -> Seq<ArithmExprView> {
    Seq::new(items.len(), |i: int| items[i]@)
}

/// The mathematical forms of a sequence of [`ArrayElem`].
pub open spec fn array_elem_views(items: Seq<ArrayElem>) -> Seq<ArrayElemView> {
    Seq::new(items.len(), |i: int| items[i]@)
}

/// The mathematical forms of a sequence of [`Assign`].
pub open spec fn assign_views(items: Seq<Assign>) -> Seq<AssignView> {
    Seq::new(items.len(), |i: int| items[i]@)
}

/// The mathematical forms of a sequence of [`CaseItem`].
pub open spec fn case_item_views(items: Seq<CaseItem>) -> Seq<CaseItemView> {
    Seq::new(items.len(), |i: int| items[i]@)
}

/// The mathematical forms of a sequence of [`Comment`].
pub open spec fn comment_views(items: Seq<Comment>) -> Seq<CommentView> {
    Seq::new(items.len(), |i: int| items[i]@)
}

/// The mathematical forms of a sequence of [`Redirect`].
pub open spec fn redirect_views(items: Seq<Redirect>) -> Seq<RedirectView> {
    Seq::new(items.len(), |i: int| items[i]@)
}

/// The mathematical forms of a sequence of [`Stmt`].
pub open spec fn stmt_views(items: Seq<Stmt>) -> Seq<StmtView> {
    Seq::new(items.len(), |i: int| items[i]@)
}

/// The mathematical forms of a sequence of [`Word`].
pub open spec fn word_views(items: Seq<Word>) -> Seq<WordView> {
    Seq::new(items.len(), |i: int| items[i]@)
}

/// The mathematical forms of a sequence of [`WordPart`].
pub open spec fn word_part_views(items: Seq<WordPart>) -> Seq<WordPartView> {
    Seq::new(items.len(), |i: int| items[i]@)
}

impl Default for File {
    fn default() -> (f: File)
        ensures
            f@ == (FileView { name: None, stmts: seq![], last: seq![] }),
    {
        let f = File { name: None, stmts: Vec::new(), last: Vec::new() };
        assert(f@ =~= (FileView { name: None, stmts: seq![], last: seq![] }));
        f
    }
}

/// The text of parts that are all literals, put together.
pub open spec fn joined_literals(parts: Seq<WordPartView>) -> Seq<char>
    decreases parts.len(),
{
    if parts.len() == 0 {
        seq![]
    } else {
        joined_literals(parts.drop_last()) + parts.last()->Lit_0.value
    }
}

impl WordView {
    /// The word as a literal string if every part is a literal, otherwise
    /// empty.
    pub open spec fn lit(self) -> Seq<char> {
        if forall|i: int| 0 <= i < self.parts.len() ==> (#[trigger] self.parts[i]) is Lit {
            joined_literals(self.parts)
        } else {
            seq![]
        }
    }
}

impl Word {
    /// Returns the word as a literal string if every part is a [`Lit`],
    /// otherwise an empty string.
    pub fn lit(&self) -> (s: String)
        ensures
            s@ == self@.lit(),
    {
        let ghost parts = self@.parts;
        let mut s = String::new();
        let mut i: usize = 0;
        while i < self.parts.len()
            invariant
                i <= self.parts@.len(),
                parts == self@.parts,
                parts.len() == self.parts@.len(),
                forall|k: int| 0 <= k < parts.len() ==> #[trigger] parts[k] == self.parts@[k]@,
                forall|k: int| 0 <= k < i ==> (#[trigger] parts[k]) is Lit,
                s@ == joined_literals(parts.take(i as int)),
            decreases self.parts@.len() - i,
        {
            match &self.parts[i] {
                WordPart::Lit(l) => push_str(&mut s, &l.value),
                _ => {
                    assert(!(parts[i as int] is Lit));
                    return String::new();
                },
            }
            assert(parts.take(i + 1).drop_last() =~= parts.take(i as int));
            i += 1;
        }
        assert(parts.take(i as int) =~= parts);
        s
    }
}

// ---------------------------------------------------------------------------
// Operators. Each maps to its source spelling via `as_str`.
// ---------------------------------------------------------------------------

/// Redirection operators.
#[derive(Debug, Clone, Copy, PartialEq, Eq, Structural, Hash)]
pub enum RedirOperator {
    RdrOut,
    AppOut,
    RdrIn,
    RdrInOut,
    DplIn,
    DplOut,
    ClbOut,
    Hdoc,
    DashHdoc,
    WordHdoc,
    RdrAll,
    AppAll,
}

impl RedirOperator {
    /// How the operator is written.
    pub open spec fn spelling(self) -> Seq<char> {
        match self {
            RedirOperator::RdrOut => ">"@,
            RedirOperator::AppOut => ">>"@,
            RedirOperator::RdrIn => "<"@,
            RedirOperator::RdrInOut => "<>"@,
            RedirOperator::DplIn => "<&"@,
            RedirOperator::DplOut => ">&"@,
            RedirOperator::ClbOut => ">|"@,
            RedirOperator::Hdoc => "<<"@,
            RedirOperator::DashHdoc => "<<-"@,
            RedirOperator::WordHdoc => "<<<"@,
            RedirOperator::RdrAll => "&>"@,
            RedirOperator::AppAll => "&>>"@,
        }
    }

    pub fn as_str(self) -> (s: &'static str)
        ensures
            s@ == self.spelling(),
    {
        match self {
            RedirOperator::RdrOut => ">",
            RedirOperator::AppOut => ">>",
            RedirOperator::RdrIn => "<",
            RedirOperator::RdrInOut => "<>",
            RedirOperator::DplIn => "<&",
            RedirOperator::DplOut => ">&",
            RedirOperator::ClbOut => ">|",
            RedirOperator::Hdoc => "<<",
            RedirOperator::DashHdoc => "<<-",
            RedirOperator::WordHdoc => "<<<",
            RedirOperator::RdrAll => "&>",
            RedirOperator::AppAll => "&>>",
        }
    }

    pub fn to_string(&self) -> (s: String)
        ensures
            s@ == self.spelling(),
    {
        self.as_str().to_owned()
    }
}

/// Process-substitution operators.
#[derive(Debug, Clone, Copy, PartialEq, Eq, Structural, Hash)]
pub enum ProcOperator {
    CmdIn,
    CmdOut,
}

impl ProcOperator {
    /// How the operator is written.
    pub open spec fn spelling(self) -> Seq<char> {
        match self {
            ProcOperator::CmdIn => "<("@,
            ProcOperator::CmdOut => ">("@,
        }
    }

    pub fn as_str(self) -> (s: &'static str)
        ensures
            s@ == self.spelling(),
    {
        match self {
            ProcOperator::CmdIn => "<(",
            ProcOperator::CmdOut => ">(",
        }
    }

    pub fn to_string(&self) -> (s: String)
        ensures
            s@ == self.spelling(),
    {
        self.as_str().to_owned()
    }
}

/// Extended-glob operators.
#[derive(Debug, Clone, Copy, PartialEq, Eq, Structural, Hash)]
pub enum GlobOperator {
    GlobZeroOrOne,
    GlobZeroOrMore,
    GlobOneOrMore,
    GlobOne,
    GlobExcept,
}

impl GlobOperator {
    /// How the operator is written.
    pub open spec fn spelling(self) -> Seq<char> {
        match self {
            GlobOperator::GlobZeroOrOne => "?("@,
            GlobOperator::GlobZeroOrMore => "*("@,
            GlobOperator::GlobOneOrMore => "+("@,
            GlobOperator::GlobOne => "@("@,
            GlobOperator::GlobExcept => "!("@,
        }
    }

    pub fn as_str(self) -> (s: &'static str)
        ensures
            s@ == self.spelling(),
    {
        match self {
            GlobOperator::GlobZeroOrOne => "?(",
            GlobOperator::GlobZeroOrMore => "*(",
            GlobOperator::GlobOneOrMore => "+(",
            GlobOperator::GlobOne => "@(",
            GlobOperator::GlobExcept => "!(",
        }
    }

    pub fn to_string(&self) -> (s: String)
        ensures
            s@ == self.spelling(),
    {
        self.as_str().to_owned()
    }
}

/// Binary command operators: `&&`, `||`, `|`, `|&`.
#[derive(Debug, Clone, Copy, PartialEq, Eq, Structural, Hash)]
pub enum BinCmdOperator {
    AndStmt,
    OrStmt,
    Pipe,
    PipeAll,
}

impl BinCmdOperator {
    /// How the operator is written.
    pub open spec fn spelling(self) -> Seq<char> {
        match self {
            BinCmdOperator::AndStmt => "&&"@,
            BinCmdOperator::OrStmt => "||"@,
            BinCmdOperator::Pipe => "|"@,
            BinCmdOperator::PipeAll => "|&"@,
        }
    }

    pub fn as_str(self) -> (s: &'static str)
        ensures
            s@ == self.spelling(),
    {
        match self {
            BinCmdOperator::AndStmt => "&&",
            BinCmdOperator::OrStmt => "||",
            BinCmdOperator::Pipe => "|",
            BinCmdOperator::PipeAll => "|&",
        }
    }

    pub fn to_string(&self) -> (s: String)
        ensures
            s@ == self.spelling(),
    {
        self.as_str().to_owned()
    }
}

/// Case terminators: `;;`, `;&`, `;;&`, `;|`.
#[derive(Debug, Clone, Copy, PartialEq, Eq, Structural, Hash)]
pub enum CaseOperator {
    Break,
    Fallthrough,
    Resume,
    ResumeKorn,
}

impl CaseOperator {
    /// How the operator is written.
    pub open spec fn spelling(self) -> Seq<char> {
        match self {
            CaseOperator::Break => ";;"@,
            CaseOperator::Fallthrough => ";&"@,
            CaseOperator::Resume => ";;&"@,
            CaseOperator::ResumeKorn => ";|"@,
        }
    }

    pub fn as_str(self) -> (s: &'static str)
        ensures
            s@ == self.spelling(),
    {
        match self {
            CaseOperator::Break => ";;",
            CaseOperator::Fallthrough => ";&",
            CaseOperator::Resume => ";;&",
            CaseOperator::ResumeKorn => ";|",
        }
    }

    pub fn to_string(&self) -> (s: String)
        ensures
            s@ == self.spelling(),
    {
        self.as_str().to_owned()
    }
}

/// `${!prefix*}` / `${!prefix@}` operators.
#[derive(Debug, Clone, Copy, PartialEq, Eq, Structural, Hash)]
pub enum ParNamesOperator {
    NamesPrefix,
    NamesPrefixWords,
}

impl ParNamesOperator {
    /// How the operator is written.
    pub open spec fn spelling(self) -> Seq<char> {
        match self {
            ParNamesOperator::NamesPrefix => "*"@,
            ParNamesOperator::NamesPrefixWords => "@"@,
        }
    }

    pub fn as_str(self) -> (s: &'static str)
        ensures
            s@ == self.spelling(),
    {
        match self {
            ParNamesOperator::NamesPrefix => "*",
            ParNamesOperator::NamesPrefixWords => "@",
        }
    }

    pub fn to_string(&self) -> (s: String)
        ensures
            s@ == self.spelling(),
    {
        self.as_str().to_owned()
    }
}

/// Parameter-expansion operators (`${a:-b}` etc).
#[derive(Debug, Clone, Copy, PartialEq, Eq, Structural, Hash)]
pub enum ParExpOperator {
    AlternateUnset,
    AlternateUnsetOrNull,
    DefaultUnset,
    DefaultUnsetOrNull,
    ErrorUnset,
    ErrorUnsetOrNull,
    AssignUnset,
    AssignUnsetOrNull,
    RemSmallSuffix,
    RemLargeSuffix,
    RemSmallPrefix,
    RemLargePrefix,
    UpperFirst,
    UpperAll,
    LowerFirst,
    LowerAll,
    OtherParamOps,
}

impl ParExpOperator {
    /// How the operator is written.
    pub open spec fn spelling(self) -> Seq<char> {
        match self {
            ParExpOperator::AlternateUnset => "+"@,
            ParExpOperator::AlternateUnsetOrNull => ":+"@,
            ParExpOperator::DefaultUnset => "-"@,
            ParExpOperator::DefaultUnsetOrNull => ":-"@,
            ParExpOperator::ErrorUnset => "?"@,
            ParExpOperator::ErrorUnsetOrNull => ":?"@,
            ParExpOperator::AssignUnset => "="@,
            ParExpOperator::AssignUnsetOrNull => ":="@,
            ParExpOperator::RemSmallSuffix => "%"@,
            ParExpOperator::RemLargeSuffix => "%%"@,
            ParExpOperator::RemSmallPrefix => "#"@,
            ParExpOperator::RemLargePrefix => "##"@,
            ParExpOperator::UpperFirst => "^"@,
            ParExpOperator::UpperAll => "^^"@,
            ParExpOperator::LowerFirst => ","@,
            ParExpOperator::LowerAll => ",,"@,
            ParExpOperator::OtherParamOps => "@"@,
        }
    }

    pub fn as_str(self) -> (s: &'static str)
        ensures
            s@ == self.spelling(),
    {
        match self {
            ParExpOperator::AlternateUnset => "+",
            ParExpOperator::AlternateUnsetOrNull => ":+",
            ParExpOperator::DefaultUnset => "-",
            ParExpOperator::DefaultUnsetOrNull => ":-",
            ParExpOperator::ErrorUnset => "?",
            ParExpOperator::ErrorUnsetOrNull => ":?",
            ParExpOperator::AssignUnset => "=",
            ParExpOperator::AssignUnsetOrNull => ":=",
            ParExpOperator::RemSmallSuffix => "%",
            ParExpOperator::RemLargeSuffix => "%%",
            ParExpOperator::RemSmallPrefix => "#",
            ParExpOperator::RemLargePrefix => "##",
            ParExpOperator::UpperFirst => "^",
            ParExpOperator::UpperAll => "^^",
            ParExpOperator::LowerFirst => ",",
            ParExpOperator::LowerAll => ",,",
            ParExpOperator::OtherParamOps => "@",
        }
    }

    pub fn to_string(&self) -> (s: String)
        ensures
            s@ == self.spelling(),
    {
        self.as_str().to_owned()
    }
}

/// Unary arithmetic operators.
#[derive(Debug, Clone, Copy, PartialEq, Eq, Structural, Hash)]
pub enum UnAritOperator {
    Not,
    BitNegation,
    Inc,
    Dec,
    Plus,
    Minus,
}

impl UnAritOperator {
    /// How the operator is written.
    pub open spec fn spelling(self) -> Seq<char> {
        match self {
            UnAritOperator::Not => "!"@,
            UnAritOperator::BitNegation => "~"@,
            UnAritOperator::Inc => "++"@,
            UnAritOperator::Dec => "--"@,
            UnAritOperator::Plus => "+"@,
            UnAritOperator::Minus => "-"@,
        }
    }

    pub fn as_str(self) -> (s: &'static str)
        ensures
            s@ == self.spelling(),
    {
        match self {
            UnAritOperator::Not => "!",
            UnAritOperator::BitNegation => "~",
            UnAritOperator::Inc => "++",
            UnAritOperator::Dec => "--",
            UnAritOperator::Plus => "+",
            UnAritOperator::Minus => "-",
        }
    }

    pub fn to_string(&self) -> (s: String)
        ensures
            s@ == self.spelling(),
    {
        self.as_str().to_owned()
    }
}

/// Binary arithmetic operators (includes assignment and ternary pieces).
#[derive(Debug, Clone, Copy, PartialEq, Eq, Structural, Hash)]
pub enum BinAritOperator {
    Add,
    Sub,
    Mul,
    Quo,
    Rem,
    Pow,
    Eql,
    Gtr,
    Lss,
    Neq,
    Leq,
    Geq,
    And,
    Or,
    Xor,
    Shr,
    Shl,
    AndArit,
    OrArit,
    Comma,
    TernQuest,
    TernColon,
    Assgn,
    AddAssgn,
    SubAssgn,
    MulAssgn,
    QuoAssgn,
    RemAssgn,
    AndAssgn,
    OrAssgn,
    XorAssgn,
    ShlAssgn,
    ShrAssgn,
}

impl BinAritOperator {
    /// How the operator is written.
    pub open spec fn spelling(self) -> Seq<char> {
        match self {
            BinAritOperator::Add => "+"@,
            BinAritOperator::Sub => "-"@,
            BinAritOperator::Mul => "*"@,
            BinAritOperator::Quo => "/"@,
            BinAritOperator::Rem => "%"@,
            BinAritOperator::Pow => "**"@,
            BinAritOperator::Eql => "=="@,
            BinAritOperator::Gtr => ">"@,
            BinAritOperator::Lss => "<"@,
            BinAritOperator::Neq => "!="@,
            BinAritOperator::Leq => "<="@,
            BinAritOperator::Geq => ">="@,
            BinAritOperator::And => "&"@,
            BinAritOperator::Or => "|"@,
            BinAritOperator::Xor => "^"@,
            BinAritOperator::Shr => ">>"@,
            BinAritOperator::Shl => "<<"@,
            BinAritOperator::AndArit => "&&"@,
            BinAritOperator::OrArit => "||"@,
            BinAritOperator::Comma => ","@,
            BinAritOperator::TernQuest => "?"@,
            BinAritOperator::TernColon => ":"@,
            BinAritOperator::Assgn => "="@,
            BinAritOperator::AddAssgn => "+="@,
            BinAritOperator::SubAssgn => "-="@,
            BinAritOperator::MulAssgn => "*="@,
            BinAritOperator::QuoAssgn => "/="@,
            BinAritOperator::RemAssgn => "%="@,
            BinAritOperator::AndAssgn => "&="@,
            BinAritOperator::OrAssgn => "|="@,
            BinAritOperator::XorAssgn => "^="@,
            BinAritOperator::ShlAssgn => "<<="@,
            BinAritOperator::ShrAssgn => ">>="@,
        }
    }

    pub fn as_str(self) -> (s: &'static str)
        ensures
            s@ == self.spelling(),
    {
        match self {
            BinAritOperator::Add => "+",
            BinAritOperator::Sub => "-",
            BinAritOperator::Mul => "*",
            BinAritOperator::Quo => "/",
            BinAritOperator::Rem => "%",
            BinAritOperator::Pow => "**",
            BinAritOperator::Eql => "==",
            BinAritOperator::Gtr => ">",
            BinAritOperator::Lss => "<",
            BinAritOperator::Neq => "!=",
            BinAritOperator::Leq => "<=",
            BinAritOperator::Geq => ">=",
            BinAritOperator::And => "&",
            BinAritOperator::Or => "|",
            BinAritOperator::Xor => "^",
            BinAritOperator::Shr => ">>",
            BinAritOperator::Shl => "<<",
            BinAritOperator::AndArit => "&&",
            BinAritOperator::OrArit => "||",
            BinAritOperator::Comma => ",",
            BinAritOperator::TernQuest => "?",
            BinAritOperator::TernColon => ":",
            BinAritOperator::Assgn => "=",
            BinAritOperator::AddAssgn => "+=",
            BinAritOperator::SubAssgn => "-=",
            BinAritOperator::MulAssgn => "*=",
            BinAritOperator::QuoAssgn => "/=",
            BinAritOperator::RemAssgn => "%=",
            BinAritOperator::AndAssgn => "&=",
            BinAritOperator::OrAssgn => "|=",
            BinAritOperator::XorAssgn => "^=",
            BinAritOperator::ShlAssgn => "<<=",
            BinAritOperator::ShrAssgn => ">>=",
        }
    }

    pub fn to_string(&self) -> (s: String)
        ensures
            s@ == self.spelling(),
    {
        self.as_str().to_owned()
    }
}

/// Unary test operators (`-e`, `-z`, `!`, ...).
#[derive(Debug, Clone, Copy, PartialEq, Eq, Structural, Hash)]
pub enum UnTestOperator {
    TsExists,
    TsRegFile,
    TsDirect,
    TsCharSp,
    TsBlckSp,
    TsNmPipe,
    TsSocket,
    TsSmbLink,
    TsSticky,
    TsGIDSet,
    TsUIDSet,
    TsGrpOwn,
    TsUsrOwn,
    TsModif,
    TsRead,
    TsWrite,
    TsExec,
    TsNoEmpty,
    TsFdTerm,
    TsEmpStr,
    TsNempStr,
    TsOptSet,
    TsVarSet,
    TsRefVar,
    TsNot,
}

impl UnTestOperator {
    /// How the operator is written.
    pub open spec fn spelling(self) -> Seq<char> {
        match self {
            UnTestOperator::TsExists => "-e"@,
            UnTestOperator::TsRegFile => "-f"@,
            UnTestOperator::TsDirect => "-d"@,
            UnTestOperator::TsCharSp => "-c"@,
            UnTestOperator::TsBlckSp => "-b"@,
            UnTestOperator::TsNmPipe => "-p"@,
            UnTestOperator::TsSocket => "-S"@,
            UnTestOperator::TsSmbLink => "-L"@,
            UnTestOperator::TsSticky => "-k"@,
            UnTestOperator::TsGIDSet => "-g"@,
            UnTestOperator::TsUIDSet => "-u"@,
            UnTestOperator::TsGrpOwn => "-G"@,
            UnTestOperator::TsUsrOwn => "-O"@,
            UnTestOperator::TsModif => "-N"@,
            UnTestOperator::TsRead => "-r"@,
            UnTestOperator::TsWrite => "-w"@,
            UnTestOperator::TsExec => "-x"@,
            UnTestOperator::TsNoEmpty => "-s"@,
            UnTestOperator::TsFdTerm => "-t"@,
            UnTestOperator::TsEmpStr => "-z"@,
            UnTestOperator::TsNempStr => "-n"@,
            UnTestOperator::TsOptSet => "-o"@,
            UnTestOperator::TsVarSet => "-v"@,
            UnTestOperator::TsRefVar => "-R"@,
            UnTestOperator::TsNot => "!"@,
        }
    }

    pub fn as_str(self) -> (s: &'static str)
        ensures
            s@ == self.spelling(),
    {
        match self {
            UnTestOperator::TsExists => "-e",
            UnTestOperator::TsRegFile => "-f",
            UnTestOperator::TsDirect => "-d",
            UnTestOperator::TsCharSp => "-c",
            UnTestOperator::TsBlckSp => "-b",
            UnTestOperator::TsNmPipe => "-p",
            UnTestOperator::TsSocket => "-S",
            UnTestOperator::TsSmbLink => "-L",
            UnTestOperator::TsSticky => "-k",
            UnTestOperator::TsGIDSet => "-g",
            UnTestOperator::TsUIDSet => "-u",
            UnTestOperator::TsGrpOwn => "-G",
            UnTestOperator::TsUsrOwn => "-O",
            UnTestOperator::TsModif => "-N",
            UnTestOperator::TsRead => "-r",
            UnTestOperator::TsWrite => "-w",
            UnTestOperator::TsExec => "-x",
            UnTestOperator::TsNoEmpty => "-s",
            UnTestOperator::TsFdTerm => "-t",
            UnTestOperator::TsEmpStr => "-z",
            UnTestOperator::TsNempStr => "-n",
            UnTestOperator::TsOptSet => "-o",
            UnTestOperator::TsVarSet => "-v",
            UnTestOperator::TsRefVar => "-R",
            UnTestOperator::TsNot => "!",
        }
    }

    pub fn to_string(&self) -> (s: String)
        ensures
            s@ == self.spelling(),
    {
        self.as_str().to_owned()
    }
}

/// Binary test operators (`-eq`, `=~`, `<`, ...).
#[derive(Debug, Clone, Copy, PartialEq, Eq, Structural, Hash)]
pub enum BinTestOperator {
    TsReMatch,
    TsNewer,
    TsOlder,
    TsDevIno,
    TsEql,
    TsNeq,
    TsLeq,
    TsGeq,
    TsLss,
    TsGtr,
    AndTest,
    OrTest,
    TsMatchShort,
    TsMatch,
    TsNoMatch,
    TsBefore,
    TsAfter,
}

impl BinTestOperator {
    /// How the operator is written.
    pub open spec fn spelling(self) -> Seq<char> {
        match self {
            BinTestOperator::TsReMatch => "=~"@,
            BinTestOperator::TsNewer => "-nt"@,
            BinTestOperator::TsOlder => "-ot"@,
            BinTestOperator::TsDevIno => "-ef"@,
            BinTestOperator::TsEql => "-eq"@,
            BinTestOperator::TsNeq => "-ne"@,
            BinTestOperator::TsLeq => "-le"@,
            BinTestOperator::TsGeq => "-ge"@,
            BinTestOperator::TsLss => "-lt"@,
            BinTestOperator::TsGtr => "-gt"@,
            BinTestOperator::AndTest => "&&"@,
            BinTestOperator::OrTest => "||"@,
            BinTestOperator::TsMatchShort => "="@,
            BinTestOperator::TsMatch => "=="@,
            BinTestOperator::TsNoMatch => "!="@,
            BinTestOperator::TsBefore => "<"@,
            BinTestOperator::TsAfter => ">"@,
        }
    }

    pub fn as_str(self) -> (s: &'static str)
        ensures
            s@ == self.spelling(),
    {
        match self {
            BinTestOperator::TsReMatch => "=~",
            BinTestOperator::TsNewer => "-nt",
            BinTestOperator::TsOlder => "-ot",
            BinTestOperator::TsDevIno => "-ef",
            BinTestOperator::TsEql => "-eq",
            BinTestOperator::TsNeq => "-ne",
            BinTestOperator::TsLeq => "-le",
            BinTestOperator::TsGeq => "-ge",
            BinTestOperator::TsLss => "-lt",
            BinTestOperator::TsGtr => "-gt",
            BinTestOperator::AndTest => "&&",
            BinTestOperator::OrTest => "||",
            BinTestOperator::TsMatchShort => "=",
            BinTestOperator::TsMatch => "==",
            BinTestOperator::TsNoMatch => "!=",
            BinTestOperator::TsBefore => "<",
            BinTestOperator::TsAfter => ">",
        }
    }

    pub fn to_string(&self) -> (s: String)
        ensures
            s@ == self.spelling(),
    {
        self.as_str().to_owned()
    }
}

} // verus!
