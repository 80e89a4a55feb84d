//! Recursive-descent parser: token stream to [`File`].
//!
//! - **Words are kept raw.** Each word token becomes a `Word` of a single
//!   `Lit` holding the verbatim source text - quoting and expansions ride along
//!   untouched. Assignment prefixes like `FOO=bar` are just words too; they
//!   render identically, so they need no special node.
//! - **`[[ … ]]` and `(( … ))` are sliced opaquely** from the source by byte
//!   offset and carried as one raw word, so their interiors are never
//!   reformatted (and never mis-parsed).
//! - **Bail, never guess.** Here-documents, function declarations, and the rare
//!   `case`/`select`/`coproc`/`time` keywords return an error so the driver
//!   shows the original command unchanged. Any unexpected token is likewise an
//!   error: a word behind a compound command, a keyword where a command has to
//!   start, or one behind a redirection, where it would be an ordinary word.
//!
//! What it does structure: `&&`/`||` lists, `|`/`|&` pipelines, redirections,
//! subshells, brace blocks, and `if`/`while`/`until`/`for`.
//!
//! The grammar is stated by the spec methods of [`Input`]: each takes the index
//! of a token and gives the tree that stands there with the index of the token
//! just past it, or the error. Where such a method goes on from the end of a
//! part, it asks that the part ended past its start, which is always so.

use vstd::prelude::*;
use vstd::string::*;
use vstd::utf8::*;
use crate::ast::{BinCmdOperator, BinaryCmd, BinaryCmdView, Block, BlockView, CallExpr, CallExprView,
    Command, CommandView, File, FileView, ForClause, ForClauseView, IfClause, IfClauseView, Lit,
    LitView, Loop, LoopView, Pos, RedirOperator, Redirect, RedirectView, Stmt, StmtView, Subshell,
    SubshellView, WhileClause, WhileClauseView, Word, WordIter, WordIterView, WordPart,
    WordPartView, WordView, redirect_views, stmt_views, word_views};
use crate::lexer::{Fault, Group, Op, TokKind, Token, TokenView, is_heredoc_op, lemma_group_bounds,
    parens_at, parsable, scan_parens, token_views};
use crate::text::{collect_chars, lemma_boundary_after_ascii, slice_chars, sliceable, str_eq,
    substr};

verus! {

/// A parse failure. The driver treats any error as "bail and show original".
#[derive(Debug, Clone, PartialEq, Eq)]
pub struct ParseError {
    pub message: &'static str,
    pub offset: usize,
}

impl ParseError {
    pub open spec fn view(&self) -> Fault {
        Fault { message: self.message@, offset: self.offset as int }
    }
}

/// What ends a statement list in a given context.
#[derive(Clone, Copy, PartialEq, Eq, Structural)]
pub enum Stop {
    /// the end of the input
    End,
    /// `)`
    RParen,
    /// `}`
    RBrace,
    /// `then`
    Then,
    /// `elif`, `else` or `fi`
    Branch,
    /// `fi`
    Fi,
    /// `do`
    Do,
    /// `done`
    Done,
}

// ---------------------------------------------------------------------------
// Nodes that the parser builds
// ---------------------------------------------------------------------------

/// The placeholder position for "absent".
pub open spec fn absent() -> Pos {
    Pos { offset: 0, line: 0, col: 0 }
}

/// The placeholder position for "present". The printer ignores byte offsets
/// entirely and only asks whether a position is valid in two spots
/// (elif-vs-else, `for … in`).
pub open spec fn present() -> Pos {
    Pos { offset: 0, line: 1, col: 1 }
}

/// The literal with the text `s`.
pub open spec fn lit_view(s: Seq<char>) -> LitView {
    LitView { value_pos: absent(), value_end: absent(), value: s }
}

/// The word with the text `s`, kept raw.
pub open spec fn raw_word_view(s: Seq<char>) -> WordView {
    WordView { parts: seq![WordPartView::Lit(lit_view(s))] }
}

/// The statement that is just the command `cmd`.
pub open spec fn plain_stmt(cmd: CommandView) -> StmtView {
    StmtView {
        comments: seq![],
        cmd: Some(cmd),
        position: absent(),
        semicolon: absent(),
        negated: false,
        background: false,
        coprocess: false,
        redirs: seq![],
    }
}

/// The simple command with the words `args`.
pub open spec fn call_view(args: Seq<WordView>) -> CommandView {
    CommandView::Call(CallExprView { assigns: seq![], args })
}

/// The statement `x op y`.
pub open spec fn binary_view(op: BinCmdOperator, x: StmtView, y: StmtView) -> StmtView {
    plain_stmt(CommandView::Binary(Box::new(BinaryCmdView { op_pos: absent(), op, x, y })))
}

/// The redirection `op word`, without a file descriptor.
pub open spec fn redirect_view(op: Op, word: Seq<char>) -> RedirectView {
    RedirectView {
        op_pos: absent(),
        op: redir_operator(op),
        n: None,
        word: Some(raw_word_view(word)),
        hdoc: None,
    }
}

/// The `if` (or `elif`, or, without `then`, `else`) clause.
pub open spec fn if_view(
    then_pos: Pos,
    cond: Seq<StmtView>,
    then_: Seq<StmtView>,
    else_: Option<Box<IfClauseView>>,
) -> IfClauseView {
    IfClauseView {
        position: present(),
        then_pos,
        fi_pos: present(),
        cond,
        cond_last: seq![],
        then_,
        then_last: seq![],
        else_,
        last: seq![],
    }
}

/// The `while` (or `until`) clause.
pub open spec fn while_view(until: bool, cond: Seq<StmtView>, do_: Seq<StmtView>) -> WhileClauseView {
    WhileClauseView {
        while_pos: absent(),
        do_pos: absent(),
        done_pos: absent(),
        until,
        cond,
        cond_last: seq![],
        do_,
        do_last: seq![],
    }
}

/// The `for` clause over `items` (over `"$@"` if there is no `in`).
pub open spec fn for_view(
    name: Seq<char>,
    items: Option<Seq<WordView>>,
    do_: Seq<StmtView>,
) -> ForClauseView {
    ForClauseView {
        for_pos: absent(),
        do_pos: absent(),
        done_pos: absent(),
        select: false,
        braces: false,
        loop_: LoopView::Word(
            WordIterView {
                name: lit_view(name),
                in_pos: if items is Some {
                    present()
                } else {
                    absent()
                },
                items: match items {
                    Some(words) => words,
                    None => seq![],
                },
            },
        ),
        do_,
        do_last: seq![],
    }
}

/// Whether `c` can be part of a name.
pub open spec fn name_char(c: char) -> bool {
    'a' <= c <= 'z' || 'A' <= c <= 'Z' || '0' <= c <= '9' || c == '_'
}

/// Whether the characters of `text` from 1 up to `k` are a name.
pub open spec fn name_to(text: Seq<char>, k: int) -> bool {
    &&& 1 < k <= text.len()
    &&& !('0' <= text[1] <= '9')
    &&& forall|i: int| 0 < i < k ==> name_char(#[trigger] text[i])
}

/// Whether `text` can name a file descriptor: digits, `{name}` or `{name[…]}`.
pub open spec fn fd_text(text: Seq<char>) -> bool {
    ||| text.len() > 0 && forall|i: int| 0 <= i < text.len() ==> '0' <= #[trigger] text[i] <= '9'
    ||| {
        &&& text.len() > 2 && text[0] == '{' && text.last() == '}'
        &&& {
            ||| name_to(text, text.len() - 1)
            ||| text[text.len() - 2] == ']' && exists|k: int|
                #[trigger] name_to(text, k) && k < text.len() && text[k] == '['
        }
    }
}

/// Whether a file descriptor can stand before the redirection `op`.
pub open spec fn takes_fd(op: Op) -> bool {
    op != Op::AndGreat && op != Op::AndDGreat
}

/// Whether `t` starts a compound command, or one that is not supported.
pub open spec fn reserved(t: Seq<char>) -> bool {
    ||| t == "{"@
    ||| t == "if"@
    ||| t == "while"@
    ||| t == "until"@
    ||| t == "for"@
    ||| t == "[["@
    ||| t == "case"@
    ||| t == "select"@
    ||| t == "function"@
    ||| t == "coproc"@
    ||| t == "time"@
}

/// Whether `t` is a keyword.
pub open spec fn shell_keyword(t: Seq<char>) -> bool {
    ||| reserved(t)
    ||| t == "!"@
    ||| t == "}"@
    ||| t == "then"@
    ||| t == "elif"@
    ||| t == "else"@
    ||| t == "fi"@
    ||| t == "do"@
    ||| t == "done"@
    ||| t == "esac"@
}

/// Whether `op` is a redirection.
pub open spec fn redirects(op: Op) -> bool {
    ||| op == Op::Less
    ||| op == Op::Great
    ||| op == Op::DGreat
    ||| op == Op::LessAnd
    ||| op == Op::GreatAnd
    ||| op == Op::LessGreat
    ||| op == Op::Clobber
    ||| op == Op::AndGreat
    ||| op == Op::AndDGreat
    ||| op == Op::DLess
    ||| op == Op::DLessDash
    ||| op == Op::TLess
}

/// The redirection that `op` stands for (never asked of a heredoc operator).
pub open spec fn redir_operator(op: Op) -> RedirOperator {
    match op {
        Op::Less => RedirOperator::RdrIn,
        Op::Great => RedirOperator::RdrOut,
        Op::DGreat => RedirOperator::AppOut,
        Op::LessAnd => RedirOperator::DplIn,
        Op::GreatAnd => RedirOperator::DplOut,
        Op::LessGreat => RedirOperator::RdrInOut,
        Op::Clobber => RedirOperator::ClbOut,
        Op::AndGreat => RedirOperator::RdrAll,
        Op::AndDGreat => RedirOperator::AppAll,
        Op::TLess => RedirOperator::WordHdoc,
        _ => RedirOperator::RdrOut,
    }
}

// ---------------------------------------------------------------------------
// The grammar
// ---------------------------------------------------------------------------

/// A tree with the index of the token just past it, or an error.
pub type Parsed<T> = Result<(T, int), Fault>;

/// A source text with its tokens.
pub struct Input {
    pub src: Seq<char>,
    pub toks: Seq<TokenView>,
}

/// The words and redirections of a simple command read so far, and, if the last
/// of them is a word, where it ends and what it is.
pub struct SimpleState {
    pub args: Seq<WordView>,
    pub redirs: Seq<RedirectView>,
    pub last_arg: Option<(int, Seq<char>)>,
}

impl Input {
    /// The kind of token `i`; past the last token there is nothing but the end.
    pub open spec fn kind(self, i: int) -> TokKind {
        if 0 <= i < self.toks.len() {
            self.toks[i].kind
        } else {
            TokKind::Eof
        }
    }

    /// The source text of token `i`.
    pub open spec fn text(self, i: int) -> Seq<char> {
        slice_chars(self.src, self.toks[i].start, self.toks[i].end)
    }

    pub open spec fn is_word(self, i: int, w: Seq<char>) -> bool {
        self.kind(i) is Word && self.text(i) == w
    }

    pub open spec fn is_op(self, i: int, op: Op) -> bool {
        self.kind(i) == TokKind::Op(op)
    }

    /// The error `message` at token `i`.
    pub open spec fn fail<T>(self, message: Seq<char>, i: int) -> Parsed<T> {
        Err(Fault { message, offset: self.toks[i].start })
    }

    pub open spec fn at_stop(self, i: int, stop: Stop) -> bool {
        match stop {
            Stop::End => false,
            Stop::RParen => self.is_op(i, Op::RParen),
            Stop::RBrace => self.is_word(i, "}"@),
            Stop::Then => self.is_word(i, "then"@),
            Stop::Branch => self.is_word(i, "elif"@) || self.is_word(i, "else"@) || self.is_word(
                i,
                "fi"@,
            ),
            Stop::Fi => self.is_word(i, "fi"@),
            Stop::Do => self.is_word(i, "do"@),
            Stop::Done => self.is_word(i, "done"@),
        }
    }

    /// Past blank separators: newlines and bare `;`.
    pub open spec fn past_separators(self, i: int) -> int
        decreases self.toks.len() - i,
    {
        if self.kind(i) is Newline || self.is_op(i, Op::Semi) {
            self.past_separators(i + 1)
        } else {
            i
        }
    }

    pub open spec fn past_newlines(self, i: int) -> int
        decreases self.toks.len() - i,
    {
        if self.kind(i) is Newline {
            self.past_newlines(i + 1)
        } else {
            i
        }
    }

    /// Past the keyword `w` at `i`, which must stand there after `tree`.
    pub open spec fn keyword<T>(self, i: int, w: Seq<char>, tree: T) -> Parsed<T> {
        if self.is_word(i, w) {
            Ok((tree, i + 1))
        } else {
            self.fail("expected keyword"@, i)
        }
    }

    /// The whole input.
    pub open spec fn file(self) -> Result<FileView, Fault> {
        match self.list(0, Stop::End) {
            Ok((stmts, i)) => if self.kind(i) is Eof {
                Ok(FileView { name: None, stmts, last: seq![] })
            } else {
                Err(
                    Fault {
                        message: "unexpected token at top level"@,
                        offset: self.toks[i].start,
                    },
                )
            },
            Err(e) => Err(e),
        }
    }

    /// The list of statements from `i` up to `stop` or the end.
    pub open spec fn list(self, i: int, stop: Stop) -> Parsed<Seq<StmtView>>
        decreases self.toks.len() - i, 9int,
    {
        let j = self.past_separators(i);
        proof {
            self.lemma_past_separators(i);
        }
        if self.kind(j) is Eof || self.at_stop(j, stop) {
            Ok((seq![], j))
        } else {
            match self.list_item(j, stop) {
                Ok((stmt, k)) => if i < k <= self.toks.len() {
                    match self.list(k, stop) {
                        Ok((rest, end)) => Ok((seq![stmt] + rest, end)),
                        Err(e) => Err(e),
                    }
                } else {
                    arbitrary()
                },
                Err(e) => Err(e),
            }
        }
    }

    /// One statement of a list up to `stop`, with the terminator behind it. There
    /// must be one, unless the list ends there.
    pub open spec fn list_item(self, i: int, stop: Stop) -> Parsed<StmtView>
        decreases self.toks.len() - i, 8int,
    {
        match self.and_or(i) {
            Ok((stmt, j)) => if self.is_op(j, Op::Amp) {
                Ok((StmtView { background: true, ..stmt }, j + 1))
            } else if self.is_op(j, Op::Semi) || self.kind(j) is Newline {
                Ok((stmt, j + 1))
            } else if self.kind(j) is Eof || self.at_stop(j, stop) {
                Ok((stmt, j))
            } else {
                self.fail("unexpected token"@, j)
            },
            Err(e) => Err(e),
        }
    }

    /// Pipelines joined by `&&` and `||`.
    pub open spec fn and_or(self, i: int) -> Parsed<StmtView>
        decreases self.toks.len() - i, 7int,
    {
        match self.pipeline(i) {
            Ok((left, j)) => if i < j <= self.toks.len() {
                self.and_or_rest(left, j)
            } else {
                arbitrary()
            },
            Err(e) => Err(e),
        }
    }

    /// What follows the pipelines `left` that end at `i`.
    pub open spec fn and_or_rest(self, left: StmtView, i: int) -> Parsed<StmtView>
        decreases self.toks.len() - i, 7int,
    {
        if self.is_op(i, Op::AndIf) || self.is_op(i, Op::OrIf) {
            let op = if self.is_op(i, Op::AndIf) {
                BinCmdOperator::AndStmt
            } else {
                BinCmdOperator::OrStmt
            };
            proof {
                self.lemma_past_newlines(i + 1);
            }
            match self.pipeline(self.past_newlines(i + 1)) {
                Ok((right, j)) => if i < j <= self.toks.len() {
                    self.and_or_rest(binary_view(op, left, right), j)
                } else {
                    arbitrary()
                },
                Err(e) => Err(e),
            }
        } else {
            Ok((left, i))
        }
    }

    /// Commands joined by `|` and `|&`.
    pub open spec fn pipeline(self, i: int) -> Parsed<StmtView>
        decreases self.toks.len() - i, 6int,
    {
        match self.command_stmt(i) {
            Ok((left, j)) => if i < j <= self.toks.len() {
                self.pipeline_rest(left, j)
            } else {
                arbitrary()
            },
            Err(e) => Err(e),
        }
    }

    /// What follows the commands `left` that end at `i`.
    pub open spec fn pipeline_rest(self, left: StmtView, i: int) -> Parsed<StmtView>
        decreases self.toks.len() - i, 6int,
    {
        if self.is_op(i, Op::Pipe) || self.is_op(i, Op::PipeAmp) {
            let op = if self.is_op(i, Op::Pipe) {
                BinCmdOperator::Pipe
            } else {
                BinCmdOperator::PipeAll
            };
            proof {
                self.lemma_past_newlines(i + 1);
            }
            match self.command_stmt(self.past_newlines(i + 1)) {
                Ok((right, j)) => if i < j <= self.toks.len() {
                    self.pipeline_rest(binary_view(op, left, right), j)
                } else {
                    arbitrary()
                },
                Err(e) => Err(e),
            }
        } else {
            Ok((left, i))
        }
    }

    /// A single command, with a leading `!` and redirections.
    pub open spec fn command_stmt(self, i: int) -> Parsed<StmtView>
        decreases self.toks.len() - i, 5int,
    {
        let negated = self.is_word(i, "!"@);
        match self.command(if negated {
            i + 1
        } else {
            i
        }) {
            Ok(((cmd, redirs), j)) => Ok((StmtView { negated, redirs, ..plain_stmt(cmd) }, j)),
            Err(e) => Err(e),
        }
    }

    /// A command with its redirections.
    pub open spec fn command(self, i: int) -> Parsed<(CommandView, Seq<RedirectView>)>
        decreases self.toks.len() - i, 4int,
    {
        if self.is_op(i, Op::LParen) {
            if self.is_op(i + 1, Op::LParen) && self.toks[i + 1].start == self.toks[i].end {
                self.redirected(self.arith_opaque(i))
            } else {
                self.redirected(self.subshell(i))
            }
        } else if self.is_word(i, "{"@) {
            self.redirected(self.block(i))
        } else if self.is_word(i, "if"@) {
            self.redirected(self.if_clause(i))
        } else if self.is_word(i, "while"@) {
            self.redirected(self.while_clause(i, false))
        } else if self.is_word(i, "until"@) {
            self.redirected(self.while_clause(i, true))
        } else if self.is_word(i, "for"@) {
            self.redirected(self.for_clause(i))
        } else if self.is_word(i, "[["@) {
            self.redirected(self.test_opaque(i))
        } else if self.is_word(i, "case"@) || self.is_word(i, "select"@) || self.is_word(
            i,
            "function"@,
        ) || self.is_word(i, "coproc"@) || self.is_word(i, "time"@) {
            self.fail("unsupported construct (bail)"@, i)
        } else {
            self.simple(
                i,
                SimpleState { args: seq![], redirs: seq![], last_arg: None },
            )
        }
    }

    /// A compound command with the redirections behind it.
    pub open spec fn redirected(self, cmd: Parsed<CommandView>) -> Parsed<
        (CommandView, Seq<RedirectView>),
    > {
        match cmd {
            Ok((cmd, i)) => match self.trailing_redirs(i) {
                Ok((redirs, j)) => Ok(((cmd, redirs), j)),
                Err(e) => Err(e),
            },
            Err(e) => Err(e),
        }
    }

    /// Whether a word that ends at `end` and reads `text` names the file
    /// descriptor of the redirection at `i`: there is no gap between them, and it
    /// can.
    pub open spec fn names_fd(self, i: int, end: int, text: Seq<char>) -> bool {
        &&& end == self.toks[i].start
        &&& fd_text(text)
        &&& self.kind(i) matches TokKind::Op(op) && takes_fd(op)
    }

    /// What follows `st` in a simple command. A word before a redirection may
    /// name its file descriptor. `name ()` at the start is a function
    /// declaration. The first word is no keyword, but for a `!` in front: the
    /// second of two.
    pub open spec fn simple(self, i: int, st: SimpleState) -> Parsed<
        (CommandView, Seq<RedirectView>),
    >
        decreases self.toks.len() - i,
    {
        match self.kind(i) {
            TokKind::Word => if st.args.len() == 0 && st.redirs.len() == 0 && self.is_op(
                i + 1,
                Op::LParen,
            ) && self.is_op(i + 2, Op::RParen) {
                self.fail("function declaration (bail)"@, i)
            } else if st.args.len() == 0 && shell_keyword(self.text(i)) && (st.redirs.len() > 0
                || self.text(i) != "!"@) {
                self.fail("unexpected token"@, i)
            } else {
                self.simple(
                    i + 1,
                    SimpleState {
                        args: st.args.push(raw_word_view(self.text(i))),
                        redirs: st.redirs,
                        last_arg: Some((self.toks[i].end, self.text(i))),
                    },
                )
            },
            TokKind::Op(op) if redirects(op) => if is_heredoc_op(self.kind(i)) {
                self.fail("here-document (bail)"@, i)
            } else {
                match self.redirect(i) {
                    Ok((r, j)) => {
                        let has_fd = st.last_arg is Some && self.names_fd(
                            i,
                            st.last_arg->Some_0.0,
                            st.last_arg->Some_0.1,
                        );
                        if i < j <= self.toks.len() {
                            self.simple(
                                j,
                                SimpleState {
                                    args: if has_fd {
                                        st.args.drop_last()
                                    } else {
                                        st.args
                                    },
                                    redirs: st.redirs.push(
                                        RedirectView {
                                            n: if has_fd {
                                                Some(lit_view(st.last_arg->Some_0.1))
                                            } else {
                                                None
                                            },
                                            ..r
                                        },
                                    ),
                                    last_arg: None,
                                },
                            )
                        } else {
                            arbitrary()
                        }
                    },
                    Err(e) => Err(e),
                }
            },
            _ => if st.args.len() == 0 && st.redirs.len() == 0 {
                self.fail("expected a command"@, i)
            } else {
                Ok(((call_view(st.args), st.redirs), i))
            },
        }
    }

    /// One `op word` redirection (without file descriptor).
    pub open spec fn redirect(self, i: int) -> Parsed<RedirectView> {
        match self.kind(i) {
            TokKind::Op(op) if redirects(op) => if self.kind(i + 1) is Word {
                Ok((redirect_view(op, self.text(i + 1)), i + 2))
            } else {
                self.fail("redirection without target"@, i + 1)
            },
            _ => self.fail("expected redirection"@, i),
        }
    }

    /// Whether the word at `i` names the file descriptor of a redirection right
    /// behind it.
    pub open spec fn fd_at(self, i: int) -> bool {
        &&& self.kind(i) is Word
        &&& self.kind(i + 1) matches TokKind::Op(op) && redirects(op)
        &&& self.names_fd(i + 1, self.toks[i].end, self.text(i))
    }

    /// The redirections from `i` on, each with its file descriptor if it has one.
    pub open spec fn trailing_redirs(self, i: int) -> Parsed<Seq<RedirectView>>
        decreases self.toks.len() - i,
    {
        let at = if self.fd_at(i) {
            i + 1
        } else {
            i
        };
        match self.kind(at) {
            TokKind::Op(op) if redirects(op) => if is_heredoc_op(self.kind(at)) {
                self.fail("here-document (bail)"@, at)
            } else {
                match self.redirect(at) {
                    Ok((r, j)) => if i < j <= self.toks.len() {
                        match self.trailing_redirs(j) {
                            Ok((rest, end)) => {
                                let n = if self.fd_at(i) {
                                    Some(lit_view(self.text(i)))
                                } else {
                                    None
                                };
                                Ok((seq![RedirectView { n, ..r }] + rest, end))
                            },
                            Err(e) => Err(e),
                        }
                    } else {
                        arbitrary()
                    },
                    Err(e) => Err(e),
                }
            },
            _ => Ok((seq![], i)),
        }
    }

    /// `( … )`; a `(` is at `i`.
    pub open spec fn subshell(self, i: int) -> Parsed<CommandView>
        decreases self.toks.len() - i, 3int,
    {
        if self.kind(i) is Eof {
            self.fail("unterminated subshell"@, i)
        } else {
            match self.list(i + 1, Stop::RParen) {
                Ok((stmts, j)) => if self.is_op(j, Op::RParen) {
                    Ok(
                        (
                            CommandView::Subshell(
                                SubshellView {
                                    lparen: absent(),
                                    rparen: absent(),
                                    stmts,
                                    last: seq![],
                                },
                            ),
                            j + 1,
                        ),
                    )
                } else {
                    self.fail("unterminated subshell"@, j)
                },
                Err(e) => Err(e),
            }
        }
    }

    /// `{ … }`
    pub open spec fn block(self, i: int) -> Parsed<CommandView>
        decreases self.toks.len() - i, 3int,
    {
        match self.keyword_list(i, "{"@, Stop::RBrace) {
            Ok((stmts, j)) => self.keyword(
                j,
                "}"@,
                CommandView::Block(
                    BlockView { lbrace: absent(), rbrace: absent(), stmts, last: seq![] },
                ),
            ),
            Err(e) => Err(e),
        }
    }

    /// The keyword `w` and the list of statements behind it, up to `stop`.
    pub open spec fn keyword_list(self, i: int, w: Seq<char>, stop: Stop) -> Parsed<Seq<StmtView>>
        decreases self.toks.len() - i, 1int,
    {
        if self.is_word(i, w) {
            self.list(i + 1, stop)
        } else {
            self.fail("expected keyword"@, i)
        }
    }

    /// The condition and the body of an `if` or `elif`, whose keyword `w` is at
    /// `i`.
    pub open spec fn condition(self, i: int, w: Seq<char>) -> Parsed<
        (Seq<StmtView>, Seq<StmtView>),
    >
        decreases self.toks.len() - i, 2int,
    {
        match self.keyword_list(i, w, Stop::Then) {
            Ok((cond, j)) => if i < j <= self.toks.len() {
                match self.keyword_list(j, "then"@, Stop::Branch) {
                    Ok((then_, k)) => Ok(((cond, then_), k)),
                    Err(e) => Err(e),
                }
            } else {
                arbitrary()
            },
            Err(e) => Err(e),
        }
    }

    /// `if …; then …; [elif …; then …;]… [else …;] fi`
    pub open spec fn if_clause(self, i: int) -> Parsed<CommandView>
        decreases self.toks.len() - i, 3int,
    {
        match self.condition(i, "if"@) {
            Ok(((cond, then_), j)) => if i < j <= self.toks.len() {
                match self.if_tail(j) {
                    Ok((else_, k)) => self.keyword(
                        k,
                        "fi"@,
                        CommandView::If(Box::new(if_view(present(), cond, then_, else_))),
                    ),
                    Err(e) => Err(e),
                }
            } else {
                arbitrary()
            },
            Err(e) => Err(e),
        }
    }

    /// The `elif` and `else` branches at `i`, if any.
    pub open spec fn if_tail(self, i: int) -> Parsed<Option<Box<IfClauseView>>>
        decreases self.toks.len() - i, 3int,
    {
        if self.is_word(i, "elif"@) {
            match self.condition(i, "elif"@) {
                Ok(((cond, then_), j)) => if i < j <= self.toks.len() {
                    match self.if_tail(j) {
                        Ok((else_, k)) => Ok(
                            (Some(Box::new(if_view(present(), cond, then_, else_))), k),
                        ),
                        Err(e) => Err(e),
                    }
                } else {
                    arbitrary()
                },
                Err(e) => Err(e),
            }
        } else if self.is_word(i, "else"@) {
            match self.keyword_list(i, "else"@, Stop::Fi) {
                Ok((then_, j)) => Ok(
                    (Some(Box::new(if_view(absent(), seq![], then_, None))), j),
                ),
                Err(e) => Err(e),
            }
        } else {
            Ok((None, i))
        }
    }

    /// `do …; done`
    pub open spec fn do_group(self, i: int) -> Parsed<Seq<StmtView>>
        decreases self.toks.len() - i, 2int,
    {
        match self.keyword_list(i, "do"@, Stop::Done) {
            Ok((do_, j)) => self.keyword(j, "done"@, do_),
            Err(e) => Err(e),
        }
    }

    /// `while …; do …; done`, or with `until`; its keyword is at `i`.
    pub open spec fn while_clause(self, i: int, until: bool) -> Parsed<CommandView>
        decreases self.toks.len() - i, 3int,
    {
        if self.kind(i) is Eof {
            self.fail("expected keyword"@, i)
        } else {
            match self.list(i + 1, Stop::Do) {
                Ok((cond, j)) => if i < j <= self.toks.len() {
                    match self.do_group(j) {
                        Ok((do_, k)) => Ok(
                            (CommandView::While(Box::new(while_view(until, cond, do_))), k),
                        ),
                        Err(e) => Err(e),
                    }
                } else {
                    arbitrary()
                },
                Err(e) => Err(e),
            }
        }
    }

    /// `for name [in word…]; do …; done`. The C-style `for (( … ))` is not
    /// supported.
    pub open spec fn for_clause(self, i: int) -> Parsed<CommandView>
        decreases self.toks.len() - i, 3int,
    {
        if !self.is_word(i, "for"@) {
            self.fail("expected keyword"@, i)
        } else if self.is_op(i + 1, Op::LParen) {
            self.fail("C-style for loop (bail)"@, i + 1)
        } else if self.kind(i + 1) !is Word {
            self.fail("expected loop variable"@, i + 1)
        } else {
            let (items, j) = if self.is_word(i + 2, "in"@) {
                let end = self.past_items(i + 3);
                (Some(self.items(i + 3, end)), end)
            } else {
                (None, i + 2)
            };
            let k = self.past_separators(j);
            proof {
                self.lemma_past_items(i + 3);
                self.lemma_past_separators(j);
            }
            match self.do_group(k) {
                Ok((do_, end)) => Ok(
                    (CommandView::For(Box::new(for_view(self.text(i + 1), items, do_))), end),
                ),
                Err(e) => Err(e),
            }
        }
    }

    /// Past the words that a `for` goes over: they end where the line does, or at
    /// `;`.
    pub open spec fn past_items(self, i: int) -> int
        decreases self.toks.len() - i,
    {
        if self.kind(i) is Word {
            self.past_items(i + 1)
        } else {
            i
        }
    }

    /// The words from token `i` up to token `end`.
    pub open spec fn items(self, i: int, end: int) -> Seq<WordView> {
        Seq::new(
            if i <= end {
                (end - i) as nat
            } else {
                0
            },
            |k: int| raw_word_view(self.text(i + k)),
        )
    }

    /// The first `]]` from `i` on, if there is one.
    pub open spec fn test_close(self, i: int) -> Option<int>
        decreases self.toks.len() - i,
    {
        if self.kind(i) is Eof {
            None
        } else if self.is_word(i, "]]"@) {
            Some(i)
        } else {
            self.test_close(i + 1)
        }
    }

    /// The first end of input from `i` on.
    pub open spec fn eof_from(self, i: int) -> int
        decreases self.toks.len() - i,
    {
        if self.kind(i) is Eof {
            i
        } else {
            self.eof_from(i + 1)
        }
    }

    /// The first heredoc operator among the tokens `i..j`, if there is one.
    pub open spec fn heredoc_in(self, i: int, j: int) -> Option<int>
        decreases j - i,
    {
        if i >= j {
            None
        } else if is_heredoc_op(self.kind(i)) {
            Some(i)
        } else {
            self.heredoc_in(i + 1, j)
        }
    }

    /// The tokens `i..j`, cut verbatim out of the source as `text`. There is no
    /// here-document in them.
    pub open spec fn cut_out(self, i: int, j: int, text: Seq<char>) -> Parsed<CommandView> {
        match self.heredoc_in(i, j) {
            Some(k) => self.fail("here-document (bail)"@, k),
            None => Ok((call_view(seq![raw_word_view(text)]), j)),
        }
    }

    /// `[[ … ]]`, cut verbatim out of the source.
    pub open spec fn test_opaque(self, i: int) -> Parsed<CommandView> {
        match self.test_close(i + 1) {
            Some(j) => self.cut_out(
                i,
                j + 1,
                slice_chars(self.src, self.toks[i].start, self.toks[j].end),
            ),
            None => self.fail("unterminated [[ ]]"@, self.eof_from(i + 1)),
        }
    }

    /// The first token from `i` on that starts at byte `end` or later (or the
    /// end of the input).
    pub open spec fn past_byte(self, i: int, end: int) -> int
        decreases self.toks.len() - i,
    {
        if self.kind(i) !is Eof && self.toks[i].start < end {
            self.past_byte(i + 1, end)
        } else {
            i
        }
    }

    /// `(( … ))`, cut verbatim out of the source.
    pub open spec fn arith_opaque(self, i: int) -> Parsed<CommandView> {
        let start = self.toks[i].start;
        match parens_at(encode_utf8(self.src), start) {
            Ok(end) => self.cut_out(i, self.past_byte(i, end), slice_chars(self.src, start, end)),
            Err(e) => Err(Fault { message: "unbalanced (( ))"@, offset: e.offset }),
        }
    }

    /// Skipping separators goes forward.
    pub proof fn lemma_past_separators(self, i: int)
        ensures
            i <= self.past_separators(i),
            i <= self.toks.len() ==> self.past_separators(i) <= self.toks.len(),
        decreases self.toks.len() - i,
    {
        if self.kind(i) is Newline || self.is_op(i, Op::Semi) {
            self.lemma_past_separators(i + 1);
        }
    }

    /// Skipping newlines goes forward.
    pub proof fn lemma_past_newlines(self, i: int)
        ensures
            i <= self.past_newlines(i),
            i <= self.toks.len() ==> self.past_newlines(i) <= self.toks.len(),
        decreases self.toks.len() - i,
    {
        if self.kind(i) is Newline {
            self.lemma_past_newlines(i + 1);
        }
    }

    /// Skipping the words of a `for` goes forward.
    pub proof fn lemma_past_items(self, i: int)
        ensures
            i <= self.past_items(i),
            i <= self.toks.len() ==> self.past_items(i) <= self.toks.len(),
        decreases self.toks.len() - i,
    {
        if self.kind(i) is Word {
            self.lemma_past_items(i + 1);
        }
    }
}

// ---------------------------------------------------------------------------
// The parser
// ---------------------------------------------------------------------------

type R<T> = Result<T, ParseError>;

/// The tree of a token stream.
pub open spec fn parse_view(src: Seq<char>, toks: Seq<TokenView>) -> Result<FileView, Fault> {
    Input { src, toks }.file()
}

/// Parse a token stream (from [`crate::lexer::tokenize`] over `src`) into a
/// [`File`].
pub fn parse(src: &str, tokens: &[Token]) -> (res: Result<File, ParseError>)
    requires
        parsable(src.spec_bytes(), token_views(tokens@)),
    ensures
        match res {
            Ok(f) => parse_view(src@, token_views(tokens@)) == Ok::<FileView, Fault>(f@),
            Err(e) => parse_view(src@, token_views(tokens@)) == Err::<FileView, Fault>(e@),
        },
{
    let _len: usize = tokens.len();
    let mut p = Parser { src, toks: tokens, i: 0 };
    p.parse_file()
}

struct Parser<'a> {
    src: &'a str,
    toks: &'a [Token],
    i: usize,
}

/// Whether `tree`, up to token `i`, is what is wanted.
spec fn read<T>(want: Parsed<T>, tree: T, i: usize) -> bool {
    want == Ok::<(T, int), Fault>((tree, i as int))
}

/// Whether the error `e` is what is wanted.
spec fn failed<T>(want: Parsed<T>, e: ParseError) -> bool {
    want == Err::<(T, int), Fault>(e@)
}

impl<'a> Parser<'a> {
    spec fn input(self) -> Input {
        Input { src: self.src@, toks: token_views(self.toks@) }
    }

    spec fn inv(self) -> bool {
        &&& parsable(self.src.spec_bytes(), token_views(self.toks@))
        &&& self.i < self.toks@.len() <= usize::MAX
    }

    /// Same input, at the same token or a later one.
    spec fn follows(self, before: Self) -> bool {
        &&& self.src == before.src
        &&& self.toks == before.toks
        &&& self.inv()
        &&& before.i <= self.i
    }

    /// Read `tree`, which is what stands at the token that `before` was at.
    spec fn stayed<T>(self, before: Self, want: Parsed<T>, tree: T) -> bool {
        read(want, tree, self.i) && self.follows(before)
    }

    /// The same, and went on by at least one token.
    spec fn went<T>(self, before: Self, want: Parsed<T>, tree: T) -> bool {
        self.stayed(before, want, tree) && before.i < self.i
    }

    fn kind(&self) -> (kind: TokKind)
        requires
            self.inv(),
        ensures
            kind == self.input().kind(self.i as int),
    {
        self.toks[self.i].kind
    }

    fn text(&self) -> (t: &'a str)
        requires
            self.inv(),
        ensures
            t@ == self.input().text(self.i as int),
    {
        let t = &self.toks[self.i];
        assert(token_views(self.toks@)[self.i as int] == t@);
        substr(self.src, t.start, t.end)
    }

    fn at_eof(&self) -> (yes: bool)
        requires
            self.inv(),
        ensures
            yes == (self.input().kind(self.i as int) is Eof),
    {
        matches!(self.kind(), TokKind::Eof)
    }

    fn is_word(&self, w: &str) -> (yes: bool)
        requires
            self.inv(),
        ensures
            yes == self.input().is_word(self.i as int, w@),
    {
        self.kind() == TokKind::Word && str_eq(self.text(), w)
    }

    fn is_op(&self, op: Op) -> (yes: bool)
        requires
            self.inv(),
        ensures
            yes == self.input().is_op(self.i as int, op),
    {
        self.kind() == TokKind::Op(op)
    }

    fn bump(&mut self)
        requires
            old(self).inv(),
            old(self).input().kind(old(self).i as int) !is Eof,
        ensures
            final(self).follows(*old(self)),
            final(self).i == old(self).i + 1,
    {
        assert(token_views(self.toks@).last() == token_views(self.toks@)[self.toks@.len() - 1]);
        self.i += 1;
    }

    fn err<T>(&self, message: &'static str) -> (res: R<T>)
        requires
            self.inv(),
        ensures
            res is Err,
            res->Err_0@ == (Fault {
                message: message@,
                offset: self.input().toks[self.i as int].start,
            }),
    {
        Err(ParseError { message, offset: self.toks[self.i].start })
    }

    fn at_stop(&self, stop: Stop) -> (yes: bool)
        requires
            self.inv(),
        ensures
            yes == self.input().at_stop(self.i as int, stop),
    {
        match stop {
            Stop::End => false,
            Stop::RParen => self.is_op(Op::RParen),
            Stop::RBrace => self.is_word("}"),
            Stop::Then => self.is_word("then"),
            Stop::Branch => self.is_word("elif") || self.is_word("else") || self.is_word("fi"),
            Stop::Fi => self.is_word("fi"),
            Stop::Do => self.is_word("do"),
            Stop::Done => self.is_word("done"),
        }
    }

    fn expect_word(&mut self, w: &'static str) -> (res: R<()>)
        requires
            old(self).inv(),
        ensures
            match res {
                Ok(_) => old(self).input().is_word(old(self).i as int, w@) && final(self).follows(
                    *old(self),
                ) && final(self).i == old(self).i + 1,
                Err(e) => !old(self).input().is_word(old(self).i as int, w@) && e@ == (Fault {
                    message: "expected keyword"@,
                    offset: old(self).input().toks[old(self).i as int].start,
                }),
            },
    {
        if self.is_word(w) {
            self.bump();
            Ok(())
        } else {
            self.err("expected keyword")
        }
    }

    // -- top level --------------------------------------------------------

    fn parse_file(&mut self) -> (res: R<File>)
        requires
            old(self).inv(),
            old(self).i == 0,
        ensures
            match res {
                Ok(f) => old(self).input().file() == Ok::<FileView, Fault>(f@),
                Err(e) => old(self).input().file() == Err::<FileView, Fault>(e@),
            },
    {
        let stmts = self.parse_list(Stop::End)?;
        if !self.at_eof() {
            return self.err("unexpected token at top level");
        }
        let f = File { name: None, stmts, last: Vec::new() };
        assert(f@ =~= (FileView { name: None, stmts: stmt_views(stmts@), last: seq![] }));
        Ok(f)
    }

    /// Consume blank separators: newlines and bare `;`.
    fn skip_separators(&mut self)
        requires
            old(self).inv(),
        ensures
            final(self).follows(*old(self)),
            final(self).i == old(self).input().past_separators(old(self).i as int),
    {
        while self.kind() == TokKind::Newline || self.is_op(Op::Semi)
            invariant
                self.follows(*old(self)),
                self.input().past_separators(old(self).i as int) == self.input().past_separators(
                    self.i as int,
                ),
            decreases self.toks@.len() - self.i,
        {
            self.bump();
        }
    }

    /// Parse a list of statements until a stop keyword/token or EOF.
    fn parse_list(&mut self, stop: Stop) -> (res: R<Vec<Stmt>>)
        requires
            old(self).inv(),
        ensures
            match res {
                Ok(v) => final(self).stayed(*old(self), old(self).input().list(old(self).i as int, stop), stmt_views(v@)),
                Err(e) => failed(old(self).input().list(old(self).i as int, stop), e),
            },
        decreases old(self).toks@.len() - old(self).i, 9int,
    {
        let mut out: Vec<Stmt> = Vec::new();
        proof {
            if let Ok((rest, end)) = self.input().list(self.i as int, stop) {
                assert(stmt_views(out@) + rest =~= rest);
            }
        }
        loop
            invariant
                self.follows(*old(self)),
                self.input().list(old(self).i as int, stop) == match self.input().list(
                    self.i as int,
                    stop,
                ) {
                    Ok((rest, end)) => Ok::<_, Fault>((stmt_views(out@) + rest, end)),
                    Err(e) => Err(e),
                },
            decreases self.toks@.len() - self.i,
        {
            let ghost start = self.i as int;
            self.skip_separators();
            if self.at_eof() || self.at_stop(stop) {
                assert(stmt_views(out@) + seq![] =~= stmt_views(out@));
                return Ok(out);
            }
            let stmt = self.parse_list_item(stop)?;
            let ghost sofar = stmt_views(out@);
            let ghost item = stmt@;
            out.push(stmt);
            proof {
                assert(stmt_views(out@) =~= sofar.push(item));
                if let Ok((rest, end)) = self.input().list(self.i as int, stop) {
                    assert(sofar + (seq![item] + rest) =~= stmt_views(out@) + rest);
                }
            }
        }
    }

    /// Parse one statement of a list, with its trailing terminator.
    fn parse_list_item(&mut self, stop: Stop) -> (res: R<Stmt>)
        requires
            old(self).inv(),
        ensures
            match res {
                Ok(s) => final(self).went(*old(self), old(self).input().list_item(old(self).i as int, stop), s@),
                Err(e) => failed(old(self).input().list_item(old(self).i as int, stop), e),
            },
        decreases old(self).toks@.len() - old(self).i, 8int,
    {
        let mut stmt = self.parse_and_or()?;
        match self.kind() {
            TokKind::Op(Op::Amp) => {
                let ghost before = stmt@;
                stmt.background = true;
                assert(stmt@ =~= (StmtView { background: true, ..before }));
                self.bump();
            },
            TokKind::Op(Op::Semi) => self.bump(),
            TokKind::Newline => self.bump(),
            _ => {
                if !self.at_eof() && !self.at_stop(stop) {
                    return self.err("unexpected token");
                }
            },
        }
        Ok(stmt)
    }

    // -- and-or / pipeline ------------------------------------------------

    fn parse_and_or(&mut self) -> (res: R<Stmt>)
        requires
            old(self).inv(),
        ensures
            match res {
                Ok(s) => final(self).went(*old(self), old(self).input().and_or(old(self).i as int), s@),
                Err(e) => failed(old(self).input().and_or(old(self).i as int), e),
            },
        decreases old(self).toks@.len() - old(self).i, 7int,
    {
        let mut left = self.parse_pipeline()?;
        loop
            invariant
                self.follows(*old(self)),
                old(self).i < self.i,
                self.input().and_or(old(self).i as int) == self.input().and_or_rest(
                    left@,
                    self.i as int,
                ),
            decreases self.toks@.len() - self.i,
        {
            let op: BinCmdOperator = if self.is_op(Op::AndIf) {
                BinCmdOperator::AndStmt
            } else if self.is_op(Op::OrIf) {
                BinCmdOperator::OrStmt
            } else {
                return Ok(left);
            };
            self.bump();
            self.skip_newlines();
            let right = self.parse_pipeline()?;
            left = binary(op, left, right);
        }
    }

    fn parse_pipeline(&mut self) -> (res: R<Stmt>)
        requires
            old(self).inv(),
        ensures
            match res {
                Ok(s) => final(self).went(*old(self), old(self).input().pipeline(old(self).i as int), s@),
                Err(e) => failed(old(self).input().pipeline(old(self).i as int), e),
            },
        decreases old(self).toks@.len() - old(self).i, 6int,
    {
        let mut left = self.parse_command_stmt()?;
        loop
            invariant
                self.follows(*old(self)),
                old(self).i < self.i,
                self.input().pipeline(old(self).i as int) == self.input().pipeline_rest(
                    left@,
                    self.i as int,
                ),
            decreases self.toks@.len() - self.i,
        {
            let op: BinCmdOperator = if self.is_op(Op::Pipe) {
                BinCmdOperator::Pipe
            } else if self.is_op(Op::PipeAmp) {
                BinCmdOperator::PipeAll
            } else {
                return Ok(left);
            };
            self.bump();
            self.skip_newlines();
            let right = self.parse_command_stmt()?;
            left = binary(op, left, right);
        }
    }

    fn skip_newlines(&mut self)
        requires
            old(self).inv(),
        ensures
            final(self).follows(*old(self)),
            final(self).i == old(self).input().past_newlines(old(self).i as int),
    {
        while self.kind() == TokKind::Newline
            invariant
                self.follows(*old(self)),
                self.input().past_newlines(old(self).i as int) == self.input().past_newlines(
                    self.i as int,
                ),
            decreases self.toks@.len() - self.i,
        {
            self.bump();
        }
    }

    // -- a single command (+ leading `!`, + redirects) --------------------

    fn parse_command_stmt(&mut self) -> (res: R<Stmt>)
        requires
            old(self).inv(),
        ensures
            match res {
                Ok(s) => final(self).went(*old(self), old(self).input().command_stmt(old(self).i as int), s@),
                Err(e) => failed(old(self).input().command_stmt(old(self).i as int), e),
            },
        decreases old(self).toks@.len() - old(self).i, 5int,
    {
        let negated: bool = if self.is_word("!") {
            self.bump();
            true
        } else {
            false
        };
        let (cmd, redirs) = self.parse_command()?;
        Ok(full_stmt(negated, cmd, redirs))
    }

    fn parse_command(&mut self) -> (res: R<(Command, Vec<Redirect>)>)
        requires
            old(self).inv(),
        ensures
            match res {
                Ok((cmd, redirs)) => final(self).went(*old(self), old(self).input().command(old(self).i as int), (cmd@, redirect_views(redirs@))),
                Err(e) => failed(old(self).input().command(old(self).i as int), e),
            },
        decreases old(self).toks@.len() - old(self).i, 4int,
    {
        // Compound forms starting with '('.
        if self.is_op(Op::LParen) {
            let cmd = if self.next_is_adjacent_lparen() {
                self.parse_arith_opaque()?
            } else {
                self.parse_subshell()?
            };
            let redirs = self.parse_trailing_redirs()?;
            return Ok((cmd, redirs));
        }
        // Compound forms / bail keywords starting with a reserved word.

        let cmd = if self.is_word("{") {
            self.parse_block()?
        } else if self.is_word("if") {
            self.parse_if()?
        } else if self.is_word("while") {
            self.parse_while(false)?
        } else if self.is_word("until") {
            self.parse_while(true)?
        } else if self.is_word("for") {
            self.parse_for()?
        } else if self.is_word("[[") {
            self.parse_test_opaque()?
        } else if self.is_word("case") || self.is_word("select") || self.is_word("function")
            || self.is_word("coproc") || self.is_word("time") {
            return self.err("unsupported construct (bail)");
        } else {
            // Otherwise: a simple command.
            return self.parse_simple_command();
        };
        let redirs = self.parse_trailing_redirs()?;
        Ok((cmd, redirs))
    }

    fn next_is_adjacent_lparen(&self) -> (yes: bool)
        requires
            self.inv(),
        ensures
            yes == (self.input().is_op(self.i + 1, Op::LParen) && self.input().toks[self.i
                + 1].start == self.input().toks[self.i as int].end),
    {
        // current is '('; is the next token also '(' with no gap?
        if self.toks.len() - self.i <= 1 {
            return false;
        }
        let nxt = &self.toks[self.i + 1];
        assert(self.input().toks[self.i + 1] == nxt@);
        nxt.kind == TokKind::Op(Op::LParen) && nxt.start == self.toks[self.i].end
    }

    // -- simple command ---------------------------------------------------

    fn parse_simple_command(&mut self) -> (res: R<(Command, Vec<Redirect>)>)
        requires
            old(self).inv(),
        ensures
            match res {
                Ok((cmd, redirs)) => final(self).went(*old(self), old(self).input().simple(
                    old(self).i as int,
                    (SimpleState { args: seq![], redirs: seq![], last_arg: None }),
                ), (cmd@, redirect_views(redirs@))),
                Err(e) => failed(old(self).input().simple(
                    old(self).i as int,
                    (SimpleState { args: seq![], redirs: seq![], last_arg: None }),
                ), e),
            },
    {
        let ghost none = SimpleState { args: seq![], redirs: seq![], last_arg: None };
        let mut args: Vec<Word> = Vec::new();
        let mut redirs: Vec<Redirect> = Vec::new();
        // (end_offset, text) of the most recently pushed arg, for fd detection.
        let mut last_arg: Option<(usize, String)> = None;
        assert(simple_state(args@, redirs@, last_arg) == none) by {
            assert(word_views(args@) =~= seq![]);
            assert(redirect_views(redirs@) =~= seq![]);
        }
        loop
            invariant
                self.follows(*old(self)),
                none == (SimpleState { args: seq![], redirs: seq![], last_arg: None }),
                last_arg is Some ==> args@.len() > 0,
                self.i == old(self).i ==> args@.len() == 0 && redirs@.len() == 0,
                self.input().simple(old(self).i as int, none) == self.input().simple(
                    self.i as int,
                    simple_state(args@, redirs@, last_arg),
                ),
            decreases self.toks@.len() - self.i,
        {
            let ghost st = simple_state(args@, redirs@, last_arg);
            assert(self.input().toks[self.i as int] == self.toks@[self.i as int]@);
            match self.kind() {
                TokKind::Word => {
                    // Function declaration `name ()` - bail.
                    if args.len() == 0 && redirs.len() == 0 && self.next_two_are_paren_pair() {
                        return self.err("function declaration (bail)");
                    }
                    let text = self.text();
                    if args.len() == 0 && is_shell_keyword(text) && (redirs.len() > 0 || !str_eq(
                        text,
                        "!",
                    )) {
                        return self.err("unexpected token");
                    }
                    last_arg = Some((self.toks[self.i].end, text.to_owned()));
                    args.push(raw_word(text));
                    proof {
                        let now = simple_state(args@, redirs@, last_arg);
                        assert(now.args =~= st.args.push(raw_word_view(text@)));
                    }
                    self.bump();
                },
                TokKind::Op(op) => {
                    if !is_redirect(op) {
                        return self.end_simple(args, redirs, Ghost(st));
                    }
                    if op == Op::DLess || op == Op::DLessDash {
                        return self.err("here-document (bail)");
                    }
                    // fd attaches if the previous arg is adjacent and a valid fd.

                    let op_start: usize = self.toks[self.i].start;
                    let n: Option<Lit> = match &last_arg {
                        Some((end, text)) => if *end == op_start && op != Op::AndGreat && op
                            != Op::AndDGreat && is_fd(text) {
                            Some(lit(text))
                        } else {
                            None
                        },
                        None => None,
                    };
                    let ghost nv = lit_option(n);
                    if n.is_some() {
                        let _ = args.pop();
                        assert(word_views(args@) =~= st.args.drop_last());
                    }
                    let mut r = self.parse_one_redirect()?;
                    let ghost rv = r@;
                    r.n = n;
                    assert(r@ == RedirectView { n: nv, ..rv });
                    redirs.push(r);
                    last_arg = None;
                    proof {
                        let now = simple_state(args@, redirs@, last_arg);
                        assert(now.redirs =~= st.redirs.push(RedirectView { n: nv, ..rv }));
                    }
                },
                _ => {
                    return self.end_simple(args, redirs, Ghost(st));
                },
            }
        }
    }

    /// End a simple command in front of a token that is no part of one.
    fn end_simple(&self, args: Vec<Word>, redirs: Vec<Redirect>, Ghost(st): Ghost<SimpleState>) -> (
        res: R<(Command, Vec<Redirect>)>)
        requires
            self.inv(),
            st.args == word_views(args@),
            st.redirs == redirect_views(redirs@),
            self.input().kind(self.i as int) !is Word,
            self.input().kind(self.i as int) matches TokKind::Op(op) ==> !redirects(op),
        ensures
            match res {
                Ok((cmd, redirs)) => read(self.input().simple(self.i as int, st), (cmd@, redirect_views(redirs@)), self.i) && (args@.len() > 0 || redirs@.len() > 0),
                Err(e) => failed(self.input().simple(self.i as int, st), e),
            },
    {
        if args.len() == 0 && redirs.len() == 0 {
            return self.err("expected a command");
        }
        let cmd = call(args);
        Ok((cmd, redirs))
    }

    fn next_two_are_paren_pair(&self) -> (yes: bool)
        requires
            self.inv(),
        ensures
            yes == (self.input().is_op(self.i + 1, Op::LParen) && self.input().is_op(
                self.i + 2,
                Op::RParen,
            )),
    {
        // current is a word; are the next two tokens `(` `)`?
        if self.toks.len() - self.i <= 2 {
            return false;
        }
        assert(self.input().toks[self.i + 1] == self.toks@[self.i + 1]@);
        assert(self.input().toks[self.i + 2] == self.toks@[self.i + 2]@);
        self.toks[self.i + 1].kind == TokKind::Op(Op::LParen) && self.toks[self.i + 2].kind
            == TokKind::Op(Op::RParen)
    }

    /// Parse one `op word` redirect (fd handled by the caller). Heredoc ops are
    /// rejected before reaching here.
    fn parse_one_redirect(&mut self) -> (res: R<Redirect>)
        requires
            old(self).inv(),
        ensures
            match res {
                Ok(r) => final(self).went(*old(self), old(self).input().redirect(old(self).i as int), r@),
                Err(e) => failed(old(self).input().redirect(old(self).i as int), e),
            },
    {
        let op: Op = match self.kind() {
            TokKind::Op(o) => if is_redirect(o) {
                o
            } else {
                return self.err("expected redirection");
            },
            _ => return self.err("expected redirection"),
        };
        self.bump();
        if self.kind() != TokKind::Word {
            return self.err("redirection without target");
        }
        let word = raw_word(self.text());
        self.bump();
        Ok(Redirect { op_pos: p_absent(), op: map_redir(op), n: None, word: Some(word), hdoc: None })
    }

    fn parse_trailing_redirs(&mut self) -> (res: R<Vec<Redirect>>)
        requires
            old(self).inv(),
        ensures
            match res {
                Ok(v) => final(self).stayed(*old(self), old(self).input().trailing_redirs(old(self).i as int), redirect_views(v@)),
                Err(e) => failed(old(self).input().trailing_redirs(old(self).i as int), e),
            },
    {
        let mut redirs: Vec<Redirect> = Vec::new();
        proof {
            if let Ok((rest, end)) = self.input().trailing_redirs(self.i as int) {
                assert(redirect_views(redirs@) + rest =~= rest);
            }
        }
        loop
            invariant
                self.follows(*old(self)),
                self.input().trailing_redirs(old(self).i as int)
                    == match self.input().trailing_redirs(self.i as int) {
                    Ok((rest, end)) => Ok::<_, Fault>((redirect_views(redirs@) + rest, end)),
                    Err(e) => Err(e),
                },
            decreases self.toks@.len() - self.i,
        {
            assert(redirect_views(redirs@) + seq![] =~= redirect_views(redirs@));
            let ghost start = self.i as int;
            let has_fd: bool = self.fd_here();
            let n: Option<Lit> = if has_fd {
                Some(lit(self.text()))
            } else {
                None
            };
            let ghost nv = lit_option(n);
            if has_fd {
                self.bump();
            }
            match self.kind() {
                TokKind::Op(o) => {
                    if !is_redirect(o) {
                        return Ok(redirs);
                    }
                    if o == Op::DLess || o == Op::DLessDash {
                        return self.err("here-document (bail)");
                    }
                },
                _ => return Ok(redirs),
            }
            let mut r = self.parse_one_redirect()?;
            let ghost bare = r@;
            r.n = n;
            assert(r@ == RedirectView { n: nv, ..bare });
            let ghost sofar = redirect_views(redirs@);
            let ghost rv = r@;
            redirs.push(r);
            proof {
                assert(redirect_views(redirs@) =~= sofar.push(rv));
                if let Ok((rest, end)) = self.input().trailing_redirs(self.i as int) {
                    assert(sofar + (seq![rv] + rest) =~= redirect_views(redirs@) + rest);
                }
            }
        }
    }

    /// Whether the word here names the file descriptor of the redirection right
    /// behind it.
    fn fd_here(&self) -> (yes: bool)
        requires
            self.inv(),
        ensures
            yes == self.input().fd_at(self.i as int),
            yes ==> self.input().kind(self.i as int) !is Eof,
    {
        if self.kind() != TokKind::Word || self.toks.len() - self.i <= 1 {
            return false;
        }
        let nxt = &self.toks[self.i + 1];
        assert(self.input().toks[self.i + 1] == nxt@);
        assert(self.input().toks[self.i as int] == self.toks@[self.i as int]@);
        match nxt.kind {
            TokKind::Op(op) => is_redirect(op) && op != Op::AndGreat && op != Op::AndDGreat
                && self.toks[self.i].end == nxt.start && is_fd(self.text()),
            _ => false,
        }
    }

    // -- compound commands ------------------------------------------------

    fn parse_subshell(&mut self) -> (res: R<Command>)
        requires
            old(self).inv(),
            old(self).input().kind(old(self).i as int) !is Eof,
        ensures
            match res {
                Ok(c) => final(self).went(*old(self), old(self).input().subshell(old(self).i as int), c@),
                Err(e) => failed(old(self).input().subshell(old(self).i as int), e),
            },
        decreases old(self).toks@.len() - old(self).i, 3int,
    {
        // current is '('
        self.bump();
        let stmts = self.parse_list(Stop::RParen)?;
        if !self.is_op(Op::RParen) {
            return self.err("unterminated subshell");
        }
        self.bump();
        Ok(subshell_node(stmts))
    }

    fn parse_block(&mut self) -> (res: R<Command>)
        requires
            old(self).inv(),
        ensures
            match res {
                Ok(c) => final(self).went(*old(self), old(self).input().block(old(self).i as int), c@),
                Err(e) => failed(old(self).input().block(old(self).i as int), e),
            },
        decreases old(self).toks@.len() - old(self).i, 3int,
    {
        let stmts = self.parse_keyword_list("{", Stop::RBrace)?;
        self.expect_word("}")?;
        Ok(block_node(stmts))
    }

    /// Parse the keyword `w` and the list of statements behind it.
    fn parse_keyword_list(&mut self, w: &'static str, stop: Stop) -> (res: R<Vec<Stmt>>)
        requires
            old(self).inv(),
        ensures
            match res {
                Ok(v) => final(self).went(*old(self), old(self).input().keyword_list(old(self).i as int, w@, stop), stmt_views(v@)),
                Err(e) => failed(old(self).input().keyword_list(old(self).i as int, w@, stop), e),
            },
        decreases old(self).toks@.len() - old(self).i, 1int,
    {
        self.expect_word(w)?;
        self.parse_list(stop)
    }

    /// Parse the condition and the body of an `if` or `elif`.
    fn parse_condition(&mut self, w: &'static str) -> (res: R<(Vec<Stmt>, Vec<Stmt>)>)
        requires
            old(self).inv(),
        ensures
            match res {
                Ok((cond, body)) => final(self).went(*old(self), old(self).input().condition(old(self).i as int, w@), (stmt_views(cond@), stmt_views(body@))),
                Err(e) => failed(old(self).input().condition(old(self).i as int, w@), e),
            },
        decreases old(self).toks@.len() - old(self).i, 2int,
    {
        let cond = self.parse_keyword_list(w, Stop::Then)?;
        let body = self.parse_keyword_list("then", Stop::Branch)?;
        Ok((cond, body))
    }

    fn parse_if(&mut self) -> (res: R<Command>)
        requires
            old(self).inv(),
        ensures
            match res {
                Ok(c) => final(self).went(*old(self), old(self).input().if_clause(old(self).i as int), c@),
                Err(e) => failed(old(self).input().if_clause(old(self).i as int), e),
            },
        decreases old(self).toks@.len() - old(self).i, 3int,
    {
        let (cond, body) = self.parse_condition("if")?;
        let else_ = self.parse_if_tail()?;
        self.expect_word("fi")?;
        let ic = if_node(p_present(), cond, body, else_);
        Ok(Command::If(Box::new(ic)))
    }

    fn parse_if_tail(&mut self) -> (res: R<Option<Box<IfClause>>>)
        requires
            old(self).inv(),
        ensures
            match res {
                Ok(tail) => final(self).stayed(*old(self), old(self).input().if_tail(old(self).i as int), tail_view(tail)),
                Err(e) => failed(old(self).input().if_tail(old(self).i as int), e),
            },
        decreases old(self).toks@.len() - old(self).i, 3int,
    {
        if self.is_word("elif") {
            let (cond, body) = self.parse_condition("elif")?;
            let else_ = self.parse_if_tail()?;
            // a valid `then` position, so printed as `elif`
            Ok(Some(Box::new(if_node(p_present(), cond, body, else_))))
        } else if self.is_word("else") {
            let body = self.parse_keyword_list("else", Stop::Fi)?;
            let cond: Vec<Stmt> = Vec::new();
            assert(stmt_views(cond@) =~= seq![]);
            // an invalid `then` position, so printed as `else`
            Ok(Some(Box::new(if_node(p_absent(), cond, body, None))))
        } else {
            Ok(None)
        }
    }

    /// Parse `do …; done`.
    fn parse_do_group(&mut self) -> (res: R<Vec<Stmt>>)
        requires
            old(self).inv(),
        ensures
            match res {
                Ok(v) => final(self).went(*old(self), old(self).input().do_group(old(self).i as int), stmt_views(v@)),
                Err(e) => failed(old(self).input().do_group(old(self).i as int), e),
            },
        decreases old(self).toks@.len() - old(self).i, 2int,
    {
        let do_ = self.parse_keyword_list("do", Stop::Done)?;
        self.expect_word("done")?;
        Ok(do_)
    }

    fn parse_while(&mut self, until: bool) -> (res: R<Command>)
        requires
            old(self).inv(),
            old(self).input().kind(old(self).i as int) !is Eof,
        ensures
            match res {
                Ok(c) => final(self).went(*old(self), old(self).input().while_clause(old(self).i as int, until), c@),
                Err(e) => failed(old(self).input().while_clause(old(self).i as int, until), e),
            },
        decreases old(self).toks@.len() - old(self).i, 3int,
    {
        self.bump();  // while/until
        let cond = self.parse_list(Stop::Do)?;
        let do_ = self.parse_do_group()?;
        Ok(while_node(until, cond, do_))
    }

    fn parse_for(&mut self) -> (res: R<Command>)
        requires
            old(self).inv(),
        ensures
            match res {
                Ok(c) => final(self).went(*old(self), old(self).input().for_clause(old(self).i as int), c@),
                Err(e) => failed(old(self).input().for_clause(old(self).i as int), e),
            },
        decreases old(self).toks@.len() - old(self).i, 3int,
    {
        self.expect_word("for")?;
        // C-style `for (( … ))` is not supported - bail.
        if self.is_op(Op::LParen) {
            return self.err("C-style for loop (bail)");
        }
        if self.kind() != TokKind::Word {
            return self.err("expected loop variable");
        }
        let name = self.text();
        self.bump();

        let items: Option<Vec<Word>> = if self.is_word("in") {
            self.bump();
            Some(self.parse_items())
        } else {
            None
        };
        proof {
            self.input().lemma_past_items(old(self).i + 3);
        }
        self.skip_separators();
        let do_ = self.parse_do_group()?;
        Ok(for_node(name, items, do_))
    }

    /// The words that a `for` goes over.
    fn parse_items(&mut self) -> (items: Vec<Word>)
        requires
            old(self).inv(),
        ensures
            final(self).follows(*old(self)),
            final(self).i == old(self).input().past_items(old(self).i as int),
            word_views(items@) == old(self).input().items(old(self).i as int, final(self).i as int),
    {
        let mut items: Vec<Word> = Vec::new();
        assert(word_views(items@) =~= self.input().items(self.i as int, self.i as int));
        while self.kind() == TokKind::Word
            invariant
                self.follows(*old(self)),
                word_views(items@) == self.input().items(old(self).i as int, self.i as int),
                self.input().past_items(old(self).i as int) == self.input().past_items(
                    self.i as int,
                ),
            decreases self.toks@.len() - self.i,
        {
            let ghost before = word_views(items@);
            let text = self.text();
            items.push(raw_word(text));
            self.bump();
            proof {
                assert(word_views(items@) =~= before.push(raw_word_view(text@)));
                assert(before.push(raw_word_view(text@)) =~= self.input().items(
                    old(self).i as int,
                    self.i as int,
                ));
            }
        }
        items
    }

    // -- opaque [[ … ]] and (( … )) --------------------------------------

    fn parse_test_opaque(&mut self) -> (res: R<Command>)
        requires
            old(self).inv(),
            old(self).input().kind(old(self).i as int) !is Eof,
        ensures
            match res {
                Ok(c) => final(self).went(*old(self), old(self).input().test_opaque(old(self).i as int), c@),
                Err(e) => failed(old(self).input().test_opaque(old(self).i as int), e),
            },
    {
        let from: usize = self.i;
        let start: usize = self.toks[self.i].start;  // the "[[" word
        self.bump();
        loop
            invariant
                self.follows(*old(self)),
                old(self).i < self.i,
                from == old(self).i,
                start == old(self).toks@[old(self).i as int].start,
                self.input().test_close(old(self).i + 1) == self.input().test_close(self.i as int),
                self.input().eof_from(old(self).i + 1) == self.input().eof_from(self.i as int),
            decreases self.toks@.len() - self.i,
        {
            if self.at_eof() {
                return self.err("unterminated [[ ]]");
            }
            if self.is_word("]]") {
                let end: usize = self.toks[self.i].end;
                proof {
                    let toks = token_views(self.toks@);
                    assert(toks[old(self).i as int].start == start);
                    assert(toks[self.i as int].end == end);
                    assert(sliceable(
                        self.src.spec_bytes(),
                        toks[old(self).i as int].start,
                        toks[old(self).i as int].end,
                    ));
                    assert(sliceable(
                        self.src.spec_bytes(),
                        toks[self.i as int].start,
                        toks[self.i as int].end,
                    ));
                }
                let raw = substr(self.src, start, end);
                self.bump();
                return self.cut_out(from, raw);
            }
            self.bump();
        }
    }

    fn parse_arith_opaque(&mut self) -> (res: R<Command>)
        requires
            old(self).inv(),
            old(self).input().kind(old(self).i as int) !is Eof,
        ensures
            match res {
                Ok(c) => final(self).went(*old(self), old(self).input().arith_opaque(old(self).i as int), c@),
                Err(e) => failed(old(self).input().arith_opaque(old(self).i as int), e),
            },
    {
        let from: usize = self.i;
        let start: usize = self.toks[self.i].start;  // first '('
        assert(token_views(self.toks@)[self.i as int].start == start);
        let end: usize = match scan_parens(self.src.as_bytes(), start) {
            Ok(end) => end,
            Err(e) => return Err(ParseError { message: "unbalanced (( ))", offset: e.offset }),
        };
        proof {
            encode_utf8_valid_utf8(self.src@);
            lemma_group_bounds(
                self.src.spec_bytes(),
                Group::Paren,
                start as int,
                start + 1,
                1,
            );
            lemma_boundary_after_ascii(self.src.spec_bytes(), end as int);
            assert(sliceable(
                self.src.spec_bytes(),
                token_views(self.toks@)[self.i as int].start,
                token_views(self.toks@)[self.i as int].end,
            ));
        }
        // Advance the cursor past every token inside the sliced range.
        while !self.at_eof() && self.toks[self.i].start < end
            invariant
                self.follows(*old(self)),
                self.i == old(self).i ==> self.input().kind(self.i as int) !is Eof
                    && self.input().toks[self.i as int].start < end,
                self.input().past_byte(old(self).i as int, end as int) == self.input().past_byte(
                    self.i as int,
                    end as int,
                ),
            decreases self.toks@.len() - self.i,
        {
            assert(self.input().toks[self.i as int] == self.toks@[self.i as int]@);
            self.bump();
        }
        assert(self.input().toks[self.i as int] == self.toks@[self.i as int]@);
        let raw = substr(self.src, start, end);
        self.cut_out(from, raw)
    }

    /// The command `raw`, cut out of the source from token `from` up to here.
    fn cut_out(&self, from: usize, raw: &str) -> (res: R<Command>)
        requires
            self.inv(),
            from <= self.i,
        ensures
            match res {
                Ok(c) => read(self.input().cut_out(from as int, self.i as int, raw@), c@, self.i),
                Err(e) => failed(self.input().cut_out(from as int, self.i as int, raw@), e),
            },
    {
        let mut k: usize = from;
        while k < self.i
            invariant
                self.inv(),
                from <= k <= self.i,
                self.input().heredoc_in(from as int, self.i as int) == self.input().heredoc_in(
                    k as int,
                    self.i as int,
                ),
            decreases self.i - k,
        {
            let t = &self.toks[k];
            assert(self.input().toks[k as int] == t@);
            match t.kind {
                TokKind::Op(op) => {
                    if op == Op::DLess || op == Op::DLessDash {
                        return Err(ParseError { message: "here-document (bail)", offset: t.start });
                    }
                },
                _ => {},
            }
            k += 1;
        }
        Ok(raw_command(raw))
    }
}

/// The state of a simple command that is being read.
spec fn simple_state(
    args: Seq<Word>,
    redirs: Seq<Redirect>,
    last_arg: Option<(usize, String)>,
) -> SimpleState {
    SimpleState {
        args: word_views(args),
        redirs: redirect_views(redirs),
        last_arg: match last_arg {
            Some((end, text)) => Some((end as int, text@)),
            None => None,
        },
    }
}

spec fn lit_option(l: Option<Lit>) -> Option<LitView> {
    match l {
        Some(l) => Some(l@),
        None => None,
    }
}

spec fn items_view(items: Option<Vec<Word>>) -> Option<Seq<WordView>> {
    match items {
        Some(words) => Some(word_views(words@)),
        None => None,
    }
}

spec fn tail_view(tail: Option<Box<IfClause>>) -> Option<Box<IfClauseView>> {
    match tail {
        Some(ic) => Some(Box::new(ic@)),
        None => None,
    }
}

// ---------------------------------------------------------------------------
// Helpers
// ---------------------------------------------------------------------------

fn p_absent() -> (p: Pos)
    ensures
        p == absent(),
{
    Pos::new(0, 0, 0)
}

fn p_present() -> (p: Pos)
    ensures
        p == present(),
{
    Pos::new(0, 1, 1)
}

fn binary(op: BinCmdOperator, x: Stmt, y: Stmt) -> (s: Stmt)
    ensures
        s@ == binary_view(op, x@, y@),
{
    stmt(Command::Binary(Box::new(BinaryCmd { op_pos: p_absent(), op, x, y })))
}

fn stmt(cmd: Command) -> (s: Stmt)
    ensures
        s@ == plain_stmt(cmd@),
{
    let redirs: Vec<Redirect> = Vec::new();
    assert(redirect_views(redirs@) =~= seq![]);
    full_stmt(false, cmd, redirs)
}

fn full_stmt(negated: bool, cmd: Command, redirs: Vec<Redirect>) -> (s: Stmt)
    ensures
        s@ == (StmtView { negated, redirs: redirect_views(redirs@), ..plain_stmt(cmd@) }),
{
    let s = Stmt {
        comments: Vec::new(),
        cmd: Some(cmd),
        position: p_absent(),
        semicolon: p_absent(),
        negated,
        background: false,
        coprocess: false,
        redirs,
    };
    assert(s@.comments =~= seq![]);
    assert(s@.redirs =~= redirect_views(redirs@));
    s
}

fn call(args: Vec<Word>) -> (cmd: Command)
    ensures
        cmd@ == call_view(word_views(args@)),
{
    let c = CallExpr { assigns: Vec::new(), args };
    assert(c@.assigns =~= seq![]);
    assert(c@.args =~= word_views(args@));
    Command::Call(c)
}

/// The simple command that is the one raw word `raw`.
fn raw_command(raw: &str) -> (cmd: Command)
    ensures
        cmd@ == call_view(seq![raw_word_view(raw@)]),
{
    let mut args: Vec<Word> = Vec::new();
    args.push(raw_word(raw));
    assert(word_views(args@) =~= seq![raw_word_view(raw@)]);
    call(args)
}

fn subshell_node(stmts: Vec<Stmt>) -> (cmd: Command)
    ensures
        cmd@ == CommandView::Subshell(
            (SubshellView {
                lparen: absent(),
                rparen: absent(),
                stmts: stmt_views(stmts@),
                last: seq![],
            }),
        ),
{
    let s = Subshell { lparen: p_absent(), rparen: p_absent(), stmts, last: Vec::new() };
    assert(s@.stmts =~= stmt_views(stmts@));
    assert(s@.last =~= seq![]);
    Command::Subshell(s)
}

fn block_node(stmts: Vec<Stmt>) -> (cmd: Command)
    ensures
        cmd@ == CommandView::Block(
            (BlockView {
                lbrace: absent(),
                rbrace: absent(),
                stmts: stmt_views(stmts@),
                last: seq![],
            }),
        ),
{
    let b = Block { lbrace: p_absent(), rbrace: p_absent(), stmts, last: Vec::new() };
    assert(b@.stmts =~= stmt_views(stmts@));
    assert(b@.last =~= seq![]);
    Command::Block(b)
}

fn while_node(until: bool, cond: Vec<Stmt>, do_: Vec<Stmt>) -> (cmd: Command)
    ensures
        cmd@ == CommandView::While(
            Box::new(while_view(until, stmt_views(cond@), stmt_views(do_@))),
        ),
{
    let w = WhileClause {
        while_pos: p_absent(),
        do_pos: p_absent(),
        done_pos: p_absent(),
        until,
        cond,
        cond_last: Vec::new(),
        do_,
        do_last: Vec::new(),
    };
    assert(w@.cond =~= stmt_views(cond@));
    assert(w@.do_ =~= stmt_views(do_@));
    assert(w@.cond_last =~= seq![]);
    assert(w@.do_last =~= seq![]);
    Command::While(Box::new(w))
}

fn for_node(name: &str, items: Option<Vec<Word>>, do_: Vec<Stmt>) -> (cmd: Command)
    ensures
        cmd@ == CommandView::For(
            Box::new(
                for_view(name@, items_view(items), stmt_views(do_@)),
            ),
        ),
{
    let ghost given = items_view(items);
    let (in_pos, items): (Pos, Vec<Word>) = match items {
        Some(words) => (p_present(), words),
        None => (p_absent(), Vec::new()),
    };
    let iter = WordIter { name: lit(name), in_pos, items };
    assert(iter@.items =~= word_views(items@));
    assert(given is None ==> word_views(items@) =~= seq![]);
    let f = ForClause {
        for_pos: p_absent(),
        do_pos: p_absent(),
        done_pos: p_absent(),
        select: false,
        braces: false,
        loop_: Loop::Word(iter),
        do_,
        do_last: Vec::new(),
    };
    assert(f@.do_ =~= stmt_views(do_@));
    assert(f@.do_last =~= seq![]);
    assert(f@.loop_ == LoopView::Word(iter@));
    Command::For(Box::new(f))
}

fn if_node(
    then_pos: Pos,
    cond: Vec<Stmt>,
    body: Vec<Stmt>,
    else_: Option<Box<IfClause>>,
) -> (ic: IfClause)
    ensures
        ic@ == if_view(then_pos, stmt_views(cond@), stmt_views(body@), tail_view(else_)),
{
    let ic = IfClause {
        position: p_present(),
        then_pos,
        fi_pos: p_present(),
        cond,
        cond_last: Vec::new(),
        then: body,
        then_last: Vec::new(),
        else_,
        last: Vec::new(),
    };
    assert(ic@.cond =~= stmt_views(cond@));
    assert(ic@.then_ =~= stmt_views(body@));
    assert(ic@.cond_last =~= seq![]);
    assert(ic@.then_last =~= seq![]);
    assert(ic@.last =~= seq![]);
    ic
}

fn raw_word(s: &str) -> (w: Word)
    ensures
        w@ == raw_word_view(s@),
{
    let mut parts: Vec<WordPart> = Vec::new();
    parts.push(WordPart::Lit(lit(s)));
    let w = Word { parts };
    assert(w@.parts =~= raw_word_view(s@).parts);
    w
}

fn lit(s: &str) -> (l: Lit)
    ensures
        l@ == lit_view(s@),
{
    Lit { value_pos: p_absent(), value_end: p_absent(), value: s.to_owned() }
}

fn is_name_char(c: char) -> (yes: bool)
    ensures
        yes == name_char(c),
{
    ('a' <= c && c <= 'z') || ('A' <= c && c <= 'Z') || ('0' <= c && c <= '9') || c == '_'
}

fn is_fd(text: &str) -> (yes: bool)
    ensures
        yes == fd_text(text@),
{
    let chars = collect_chars(text);
    let n: usize = chars.len();
    if n == 0 {
        return false;
    }
    if chars[0] == '{' {
        assert(!('0' <= text@[0] <= '9'));
        return n > 2 && chars[n - 1] == '}' && is_braced_name(&chars);
    }
    let mut i: usize = 0;
    while i < n
        invariant
            i <= n,
            n == chars@.len(),
            chars@ == text@,
            n > 0,
            text@[0] != '{',
            forall|k: int| 0 <= k < i ==> '0' <= #[trigger] text@[k] <= '9',
        decreases n - i,
    {
        if !('0' <= chars[i] && chars[i] <= '9') {
            assert(!('0' <= text@[i as int] <= '9'));
            return false;
        }
        i += 1;
    }
    true
}

/// Whether a name, or an element of an array, stands between the braces.
fn is_braced_name(text: &Vec<char>) -> (yes: bool)
    requires
        text@.len() > 2,
        text@[0] == '{',
        text@.last() == '}',
    ensures
        yes == fd_text(text@),
{
    let n: usize = text.len();
    assert(!('0' <= text@[0] <= '9'));
    if '0' <= text[1] && text[1] <= '9' {
        return false;
    }
    let mut i: usize = 1;
    while i < n - 1 && is_name_char(text[i])
        invariant
            1 <= i <= n - 1,
            n > 2,
            n == text@.len(),
            forall|k: int| 0 < k < i ==> name_char(#[trigger] text@[k]),
        decreases n - i,
    {
        i += 1;
    }
    if i == n - 1 {
        assert(name_to(text@, n - 1));
        return true;
    }
    assert(!name_char(text@[i as int]));
    assert(!name_to(text@, n - 1));
    let yes: bool = i > 1 && text[i] == '[' && text[n - 2] == ']';
    proof {
        if yes {
            assert(name_to(text@, i as int));
        } else {
            assert forall|k: int| #[trigger] name_to(text@, k) && k < n && text@[k] == '[' implies k
                == i by {
                if k < i {
                    assert(name_char(text@[k]));
                }
            }
        }
    }
    yes
}

fn is_shell_keyword(t: &str) -> (yes: bool)
    ensures
        yes == shell_keyword(t@),
{
    str_eq(t, "{") || str_eq(t, "if") || str_eq(t, "while") || str_eq(t, "until") || str_eq(t, "for")
        || str_eq(t, "[[") || str_eq(t, "case") || str_eq(t, "select") || str_eq(t, "function")
        || str_eq(t, "coproc") || str_eq(t, "time") || str_eq(t, "!") || str_eq(t, "}") || str_eq(
        t,
        "then",
    ) || str_eq(t, "elif") || str_eq(t, "else") || str_eq(t, "fi") || str_eq(t, "do") || str_eq(
        t,
        "done",
    ) || str_eq(t, "esac")
}

fn is_redirect(op: Op) -> (yes: bool)
    ensures
        yes == redirects(op),
{
    matches!(
        op,
        Op::Less | Op::Great | Op::DGreat | Op::LessAnd | Op::GreatAnd | Op::LessGreat | Op::Clobber
            | Op::AndGreat | Op::AndDGreat | Op::DLess | Op::DLessDash | Op::TLess
    )
}

fn map_redir(op: Op) -> (res: RedirOperator)
    ensures
        res == redir_operator(op),
{
    match op {
        Op::Less => RedirOperator::RdrIn,
        Op::Great => RedirOperator::RdrOut,
        Op::DGreat => RedirOperator::AppOut,
        Op::LessAnd => RedirOperator::DplIn,
        Op::GreatAnd => RedirOperator::DplOut,
        Op::LessGreat => RedirOperator::RdrInOut,
        Op::Clobber => RedirOperator::ClbOut,
        Op::AndGreat => RedirOperator::RdrAll,
        Op::AndDGreat => RedirOperator::AppAll,
        Op::TLess => RedirOperator::WordHdoc,
        // DLess/DLessDash never reach here (we bail earlier).
        _ => RedirOperator::RdrOut,
    }
}

} // verus!
