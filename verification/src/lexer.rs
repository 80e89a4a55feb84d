//! Tokenizer for shell commands.
//!
//! The lexer turns a raw command string into a flat token stream that the
//! parser groups into a syntax tree:
//!
//! - **Words are kept raw.** A word is a maximal run of non-operator,
//!   non-blank bytes, but quotes and expansions inside it (`'…'`, `$'…'`,
//!   `"…"`, `$(…)`, `${…}`, `` `…` ``, `<(…)`, `=(…)`) are scanned as opaque nested
//!   regions so an operator *inside* them never splits the word. The word's
//!   bytes are preserved verbatim.
//! - **Never guess.** Any unterminated quote / expansion / heredoc is a hard
//!   [`LexError`], and so are the rare expansions `$[…]`, `${ …; }` and
//!   `${| …; }`; the caller bails and shows the original command. The balanced
//!   scanners are quote-aware and depth-aware rather than naive bracket
//!   counters.
//! - **Heredocs are detected and flushed.** `<<`/`<<-` capture their body up to
//!   the delimiter line, so the rest of the script is not mistaken for body
//!   text. The body is kept raw on the operator token.
//! - **Comments are detected**, so that the caller can bail on them.
//!
//! Byte offsets are recorded on every token so the parser can slice the
//! original source.
//!
//! What a scanner finds is stated by the functions that end in `_at` and
//! `_from`, on the bytes of the source; [`lex_view`] puts them together.

use vstd::prelude::*;
use vstd::string::*;
use vstd::utf8::*;
use crate::ascii;
use crate::text::{decimal, lemma_boundary_after_ascii, lemma_boundary_at_ascii, push_decimal,
    push_str, slice_chars, sliceable, substr};

verus! {

// ---------------------------------------------------------------------------
// Tokens
// ---------------------------------------------------------------------------

/// A structural operator - the tokens whose layout is actually rewritten.
#[derive(Debug, Clone, Copy, PartialEq, Eq, Structural)]
pub enum Op {
    AndIf,  // &&
    OrIf,  // ||
    Pipe,  // |
    PipeAmp,  // |&
    Amp,  // &
    Semi,  // ;
    DSemi,  // ;;
    SemiAmp,  // ;&
    DSemiAmp,  // ;;&
    SemiPipe,  // ;|
    LParen,  // (
    RParen,  // )
    // redirections
    Less,  // <
    Great,  // >
    DGreat,  // >>
    LessAnd,  // <&
    GreatAnd,  // >&
    LessGreat,  // <>
    Clobber,  // >|
    AndGreat,  // &>
    AndDGreat,  // &>>
    DLess,  // <<  (heredoc)
    DLessDash,  // <<- (heredoc)
    TLess,  // <<< (here-string)
}

/// The kind of a token.
#[derive(Debug, Clone, Copy, PartialEq, Eq, Structural)]
pub enum TokKind {
    Word,
    Op(Op),
    Comment,
    Newline,
    Eof,
}

/// A token plus its source span and (for heredoc operators) captured body.
#[derive(Debug, Clone, PartialEq, Eq)]
pub struct Token {
    pub kind: TokKind,
    pub start: usize,
    pub end: usize,
    pub line: u32,
    pub col: u32,
    /// Raw here-document body, set on `<<`/`<<-` tokens after flushing.
    pub hdoc_body: Option<String>,
}

/// The mathematical form of a [`Token`].
pub struct TokenView {
    pub kind: TokKind,
    pub start: int,
    pub end: int,
    pub line: u32,
    pub col: u32,
    pub hdoc_body: Option<Seq<char>>,
}

/// A fatal lexing error. On any of these the caller must bail (output the
/// original command unchanged).
#[derive(Debug, Clone, PartialEq, Eq)]
pub struct LexError {
    pub message: &'static str,
    pub offset: usize,
}

/// The mathematical form of an error: what is wrong, and at which byte.
pub struct Fault {
    pub message: Seq<char>,
    pub offset: int,
}

impl Token {
    pub open spec fn view(&self) -> TokenView {
        TokenView {
            kind: self.kind,
            start: self.start as int,
            end: self.end as int,
            line: self.line,
            col: self.col,
            hdoc_body: match self.hdoc_body {
                Some(s) => Some(s@),
                None => None,
            },
        }
    }

    /// The token's own source text.
    pub fn text<'a>(&self, src: &'a str) -> (res: &'a str)
        requires
            sliceable(src.spec_bytes(), self.start as int, self.end as int),
        ensures
            res@ == slice_chars(src@, self.start as int, self.end as int),
    {
        substr(src, self.start, self.end)
    }
}

/// The mathematical forms of a sequence of tokens.
pub open spec fn token_views(toks: Seq<Token>) -> Seq<TokenView> {
    Seq::new(toks.len(), |i: int| toks[i]@)
}

impl LexError {
    pub open spec fn view(&self) -> Fault {
        Fault { message: self.message@, offset: self.offset as int }
    }

    /// The error as a line of text.
    pub fn to_string(&self) -> (res: String)
        ensures
            res@ == "lex error at byte "@ + decimal(self.offset as nat) + ": "@ + self.message@,
    {
        let mut out = String::new();
        push_str(&mut out, "lex error at byte ");
        push_decimal(&mut out, self.offset);
        push_str(&mut out, ": ");
        push_str(&mut out, self.message);
        assert(out@ =~= "lex error at byte "@ + decimal(self.offset as nat) + ": "@
            + self.message@);
        out
    }
}

type R<T> = Result<T, LexError>;

/// The error `message` at `offset`.
pub open spec fn fault<T>(message: Seq<char>, offset: int) -> Result<T, Fault> {
    Err(Fault { message, offset })
}

fn err<T>(message: &'static str, offset: usize) -> (res: R<T>)
    ensures
        res is Err,
        res->Err_0@ == (Fault { message: message@, offset: offset as int }),
{
    Err(LexError { message, offset })
}

// ---------------------------------------------------------------------------
// Quotes and balanced groups
//
// All scanners take the full byte slice and an index, and return the index just
// past the construct (or an error on anything unterminated). They only ever
// match ASCII bytes and step over multibyte UTF-8 untouched, so operating on
// bytes is safe for non-ASCII input.
// ---------------------------------------------------------------------------

/// The byte at `i`, or 0 past the end.
pub open spec fn byte_at(b: Seq<u8>, i: int) -> u8 {
    if 0 <= i < b.len() {
        b[i]
    } else {
        0
    }
}

/// The index just past a backslash at `j` and the byte it escapes.
pub open spec fn past_escape(b: Seq<u8>, j: int) -> int {
    if j + 2 <= b.len() {
        j + 2
    } else {
        b.len() as int
    }
}

/// The index of the first byte `c` from `j` on, or the length if there is none.
pub open spec fn find_byte(b: Seq<u8>, j: int, c: u8) -> int
    decreases b.len() - j,
{
    if j >= b.len() {
        b.len() as int
    } else if b[j] == c {
        j
    } else {
        find_byte(b, j + 1, c)
    }
}

/// The end of the single-quoted string whose opening quote is at `i`.
pub open spec fn single_quote_at(b: Seq<u8>, i: int) -> Result<int, Fault> {
    let close = find_byte(b, i + 1, ascii::SINGLE_QUOTE);
    if close < b.len() {
        Ok(close + 1)
    } else {
        fault("unterminated single quote"@, i)
    }
}

/// What is wrong with a string that `close` does not close.
pub open spec fn unterminated_string(close: u8) -> Seq<char> {
    if close == ascii::BACKQUOTE {
        "unterminated backquote"@
    } else {
        "unterminated single quote"@
    }
}

/// The end of the string that opened at `i`, of which the bytes from `j` on are
/// still to be scanned: just past the first `close` that no backslash escapes.
pub open spec fn escaped_from(b: Seq<u8>, close: u8, i: int, j: int) -> Result<int, Fault>
    decreases b.len() - j,
{
    if j >= b.len() {
        fault(unterminated_string(close), i)
    } else if b[j] == ascii::BACKSLASH {
        escaped_from(b, close, i, past_escape(b, j))
    } else if b[j] == close {
        Ok(j + 1)
    } else {
        escaped_from(b, close, i, j + 1)
    }
}

/// A bracketed group whose brackets nest.
#[derive(Clone, Copy, PartialEq, Eq, Structural)]
pub enum Group {
    /// `( … )`
    Paren,
    /// `{ … }`, the inside of `${ … }`
    Brace,
}

impl Group {
    /// The bracket that opens the group.
    pub open spec fn opening(self) -> u8 {
        match self {
            Group::Paren => ascii::LPAREN,
            Group::Brace => ascii::LBRACE,
        }
    }

    /// The bracket that closes the group.
    pub open spec fn closing(self) -> u8 {
        match self {
            Group::Paren => ascii::RPAREN,
            Group::Brace => ascii::RBRACE,
        }
    }

    /// What is wrong with a group that is not closed.
    pub open spec fn unterminated(self) -> Seq<char> {
        match self {
            Group::Paren => "unterminated parenthesis"@,
            Group::Brace => "unterminated parameter expansion"@,
        }
    }

    fn open_byte(self) -> (c: u8)
        ensures
            c == self.opening(),
    {
        match self {
            Group::Paren => ascii::LPAREN,
            Group::Brace => ascii::LBRACE,
        }
    }

    fn close_byte(self) -> (c: u8)
        ensures
            c == self.closing(),
    {
        match self {
            Group::Paren => ascii::RPAREN,
            Group::Brace => ascii::RBRACE,
        }
    }

    fn message(self) -> (m: &'static str)
        ensures
            m@ == self.unterminated(),
    {
        match self {
            Group::Paren => "unterminated parenthesis",
            Group::Brace => "unterminated parameter expansion",
        }
    }
}

/// Whether `c` makes an expansion out of a `$` before it: `(`, `{` or `[`.
pub open spec fn opens_expansion(c: u8) -> bool {
    c == ascii::LPAREN || c == ascii::LBRACE || c == ascii::LBRACKET
}

/// Whether `$$` stands at `j`. It is a parameter of its own: no expansion starts
/// with its second `$`.
pub open spec fn dollars_at(b: Seq<u8>, j: int) -> bool {
    byte_at(b, j) == ascii::DOLLAR && byte_at(b, j + 1) == ascii::DOLLAR
}

/// Whether an expansion starts at `j`: a backquote, `$(`, `${` or `$[`; or `$$`
/// with the same behind it.
pub open spec fn starts_expansion(b: Seq<u8>, j: int) -> bool {
    ||| byte_at(b, j) == ascii::BACKQUOTE
    ||| byte_at(b, j) == ascii::DOLLAR && opens_expansion(byte_at(b, j + 1))
    ||| dollars_at(b, j) && opens_expansion(byte_at(b, j + 2))
}

/// Whether the `${` at `j` runs commands in place: a blank or `|` stands behind
/// it.
pub open spec fn runs_in_place(b: Seq<u8>, j: int) -> bool {
    let c = byte_at(b, j + 2);
    c == ascii::SPACE || c == ascii::TAB || c == ascii::NEWLINE || c == ascii::PIPE
}

/// Whether a `$'…'` string starts at `j`.
pub open spec fn starts_dollar_quote(b: Seq<u8>, j: int) -> bool {
    byte_at(b, j) == ascii::DOLLAR && byte_at(b, j + 1) == ascii::SINGLE_QUOTE
}

/// Whether a quoted region starts at `j`: an expansion, or a string in single
/// or double quotes, with `$` or `$$` before a single quote.
pub open spec fn starts_quoted(b: Seq<u8>, j: int) -> bool {
    ||| starts_expansion(b, j)
    ||| starts_dollar_quote(b, j)
    ||| dollars_at(b, j) && byte_at(b, j + 2) == ascii::SINGLE_QUOTE
    ||| byte_at(b, j) == ascii::SINGLE_QUOTE
    ||| byte_at(b, j) == ascii::DOUBLE_QUOTE
}

/// The end of the expansion that starts at `j` (`j` itself where none does). The
/// forms `$[ … ]`, `${ …; }` and `${| …; }` are not supported. Behind `$$` a group
/// is skipped whole, and `[` is an ordinary character.
pub open spec fn expansion_at(b: Seq<u8>, j: int) -> Result<int, Fault>
    decreases b.len() - j, 0int,
{
    if b[j] == ascii::BACKQUOTE {
        escaped_from(b, ascii::BACKQUOTE, j, j + 1)
    } else if byte_at(b, j + 1) == ascii::LPAREN {
        group_from(b, Group::Paren, j + 1, j + 2, 1)
    } else if byte_at(b, j + 1) == ascii::LBRACE {
        if runs_in_place(b, j) {
            fault("unsupported expansion (bail)"@, j)
        } else {
            group_from(b, Group::Brace, j, j + 2, 1)
        }
    } else if byte_at(b, j + 1) == ascii::LBRACKET {
        fault("unsupported expansion (bail)"@, j)
    } else if byte_at(b, j + 1) == ascii::DOLLAR {
        if byte_at(b, j + 2) == ascii::LPAREN {
            group_from(b, Group::Paren, j + 2, j + 3, 1)
        } else if byte_at(b, j + 2) == ascii::LBRACE {
            group_from(b, Group::Brace, j + 1, j + 3, 1)
        } else {
            Ok(j + 3)
        }
    } else {
        Ok(j)
    }
}

/// The end of the quoted region that starts at `j`.
pub open spec fn quoted_at(b: Seq<u8>, j: int) -> Result<int, Fault>
    decreases b.len() - j, 1int,
{
    if b[j] == ascii::SINGLE_QUOTE {
        single_quote_at(b, j)
    } else if j < b.len() && b[j] == ascii::DOUBLE_QUOTE {
        double_quote_from(b, j, j + 1)
    } else if starts_dollar_quote(b, j) {
        escaped_from(b, ascii::SINGLE_QUOTE, j + 1, j + 2)
    } else if dollars_at(b, j) && byte_at(b, j + 2) == ascii::SINGLE_QUOTE {
        single_quote_at(b, j + 2)
    } else {
        expansion_at(b, j)
    }
}

/// The end of the double-quoted string that opened at `i`, of which the bytes
/// from `j` on are still to be scanned.
pub open spec fn double_quote_from(b: Seq<u8>, i: int, j: int) -> Result<int, Fault>
    decreases b.len() - j, 2int,
{
    if j >= b.len() {
        fault("unterminated double quote"@, i)
    } else if b[j] == ascii::DOUBLE_QUOTE {
        Ok(j + 1)
    } else if b[j] == ascii::BACKSLASH {
        double_quote_from(b, i, past_escape(b, j))
    } else if starts_expansion(b, j) {
        match expansion_at(b, j) {
            Ok(k) if j < k <= b.len() => double_quote_from(b, i, k),
            other => other,
        }
    } else {
        double_quote_from(b, i, j + 1)
    }
}

/// The end of the group that opened at `i`, of which the bytes from `j` on are
/// still to be scanned with `depth` brackets open. Quoted regions are skipped
/// whole, so a bracket inside them counts for nothing.
pub open spec fn group_from(b: Seq<u8>, g: Group, i: int, j: int, depth: nat) -> Result<int, Fault>
    decreases b.len() - j, 2int,
{
    if j >= b.len() {
        fault(g.unterminated(), i)
    } else if b[j] == ascii::BACKSLASH {
        group_from(b, g, i, past_escape(b, j), depth)
    } else if starts_quoted(b, j) {
        match quoted_at(b, j) {
            Ok(k) if j < k <= b.len() => group_from(b, g, i, k, depth),
            other => other,
        }
    } else if b[j] == g.opening() {
        group_from(b, g, i, j + 1, depth + 1)
    } else if b[j] == g.closing() {
        if depth <= 1 {
            Ok(j + 1)
        } else {
            group_from(b, g, i, j + 1, (depth - 1) as nat)
        }
    } else {
        group_from(b, g, i, j + 1, depth)
    }
}

/// Whether a `(` right after the byte `c` belongs to the same word: array
/// assignment (`=(…)`), process substitution (`<(…)`, `>(…)`) or extended glob
/// (`@(…)`, `?(…)`, `*(…)`, `+(…)`, `!(…)`).
pub open spec fn takes_paren(c: u8) -> bool {
    ||| c == ascii::EQUALS
    ||| c == ascii::LESS
    ||| c == ascii::GREAT
    ||| c == ascii::AT_SIGN
    ||| c == ascii::QUESTION
    ||| c == ascii::STAR
    ||| c == ascii::PLUS
    ||| c == ascii::BANG
}

/// Whether the byte `c`, unquoted, ends a word: a blank, a newline or the start
/// of an operator.
pub open spec fn ends_word(c: u8) -> bool {
    ||| c == ascii::SPACE
    ||| c == ascii::TAB
    ||| c == ascii::RETURN
    ||| c == ascii::NEWLINE
    ||| c == ascii::PIPE
    ||| c == ascii::AMP
    ||| c == ascii::SEMI
    ||| c == ascii::LESS
    ||| c == ascii::GREAT
    ||| c == ascii::LPAREN
    ||| c == ascii::RPAREN
}

/// The end of the word of which the bytes from `j` on are still to be scanned.
pub open spec fn word_from(b: Seq<u8>, j: int) -> Result<int, Fault>
    decreases b.len() - j,
{
    if j >= b.len() {
        Ok(j)
    } else if b[j] == ascii::BACKSLASH {
        word_from(b, past_escape(b, j))
    } else if starts_quoted(b, j) {
        match quoted_at(b, j) {
            Ok(k) if j < k <= b.len() => word_from(b, k),
            other => other,
        }
    } else if takes_paren(b[j]) && byte_at(b, j + 1) == ascii::LPAREN {
        match group_from(b, Group::Paren, j + 1, j + 2, 1) {
            Ok(k) if j < k <= b.len() => word_from(b, k),
            other => other,
        }
    } else if ends_word(b[j]) {
        Ok(j)
    } else {
        word_from(b, j + 1)
    }
}

/// Whether a scanner that started at `j` ended where its statement says, past
/// `j` and inside the bytes.
spec fn scanned(res: R<usize>, want: Result<int, Fault>, j: int, len: int) -> bool {
    match res {
        Ok(k) => want == Ok::<int, Fault>(k as int) && j < k <= len,
        Err(e) => want == Err::<int, Fault>(e@),
    }
}

fn at(b: &[u8], i: usize) -> (c: u8)
    ensures
        c == byte_at(b@, i as int),
        b@.len() <= usize::MAX,
{
    if i < b.len() {
        b[i]
    } else {
        0
    }
}

fn skip_escape(b: &[u8], j: usize) -> (k: usize)
    requires
        j < b@.len(),
    ensures
        k == past_escape(b@, j as int),
        j < k <= b@.len(),
{
    if b.len() - j >= 2 {
        j + 2
    } else {
        b.len()
    }
}

fn single_quote(b: &[u8], i: usize) -> (res: R<usize>)
    requires
        i < b@.len(),
    ensures
        scanned(res, single_quote_at(b@, i as int), i as int, b@.len() as int),
{
    let n: usize = b.len();
    let mut j: usize = i + 1;
    while j < n
        invariant
            i < j <= n,
            n == b@.len(),
            find_byte(b@, i + 1, ascii::SINGLE_QUOTE) == find_byte(b@, j as int, ascii::SINGLE_QUOTE),
        decreases n - j,
    {
        if b[j] == ascii::SINGLE_QUOTE {
            return Ok(j + 1);
        }
        j += 1;
    }
    err("unterminated single quote", i)
}

fn double_quote(b: &[u8], i: usize) -> (res: R<usize>)
    requires
        i < b@.len(),
    ensures
        scanned(res, double_quote_from(b@, i as int, i + 1), i as int, b@.len() as int),
    decreases b@.len() - i, 1int,
{
    let n: usize = b.len();
    let mut j: usize = i + 1;
    while j < n
        invariant
            i < j <= n,
            n == b@.len(),
            double_quote_from(b@, i as int, i + 1) == double_quote_from(b@, i as int, j as int),
        decreases n - j,
    {
        let c: u8 = b[j];
        if c == ascii::DOUBLE_QUOTE {
            return Ok(j + 1);
        } else if c == ascii::BACKSLASH {
            j = skip_escape(b, j);
        } else if at_expansion(b, j) {
            j = expansion(b, j)?;
        } else {
            j += 1;
        }
    }
    err("unterminated double quote", i)
}

fn backtick(b: &[u8], i: usize) -> (res: R<usize>)
    requires
        i < b@.len(),
    ensures
        scanned(
            res,
            escaped_from(b@, ascii::BACKQUOTE, i as int, i + 1),
            i as int,
            b@.len() as int,
        ),
{
    escaped(b, ascii::BACKQUOTE, i)
}

/// A string that opened at `i`, up to the first `close` that no backslash
/// escapes.
fn escaped(b: &[u8], close: u8, i: usize) -> (res: R<usize>)
    requires
        i < b@.len(),
        close != ascii::BACKSLASH,
    ensures
        scanned(res, escaped_from(b@, close, i as int, i + 1), i as int, b@.len() as int),
{
    let n: usize = b.len();
    let mut j: usize = i + 1;
    while j < n
        invariant
            i < j <= n,
            n == b@.len(),
            escaped_from(b@, close, i as int, i + 1) == escaped_from(
                b@,
                close,
                i as int,
                j as int,
            ),
        decreases n - j,
    {
        let c: u8 = b[j];
        if c == ascii::BACKSLASH {
            j = skip_escape(b, j);
        } else if c == close {
            return Ok(j + 1);
        } else {
            j += 1;
        }
    }
    if close == ascii::BACKQUOTE {
        err("unterminated backquote", i)
    } else {
        err("unterminated single quote", i)
    }
}

/// Whether `c` makes an expansion out of a `$` before it.
fn is_opener(c: u8) -> (yes: bool)
    ensures
        yes == opens_expansion(c),
{
    c == ascii::LPAREN || c == ascii::LBRACE || c == ascii::LBRACKET
}

/// Whether an expansion starts at `j`.
fn at_expansion(b: &[u8], j: usize) -> (yes: bool)
    requires
        j < b@.len(),
    ensures
        yes == starts_expansion(b@, j as int),
{
    let n: usize = b.len();
    if b[j] == ascii::DOLLAR {
        let c: u8 = at(b, j + 1);
        is_opener(c) || (c == ascii::DOLLAR && n - j > 2 && is_opener(b[j + 2]))
    } else {
        b[j] == ascii::BACKQUOTE
    }
}

/// Whether a quoted region starts at `j`.
fn at_quoted(b: &[u8], j: usize) -> (yes: bool)
    requires
        j < b@.len(),
    ensures
        yes == starts_quoted(b@, j as int),
{
    let n: usize = b.len();
    if b[j] == ascii::DOLLAR {
        let c: u8 = at(b, j + 1);
        if c == ascii::SINGLE_QUOTE || (c == ascii::DOLLAR && n - j > 2 && b[j + 2]
            == ascii::SINGLE_QUOTE) {
            return true;
        }
    }
    b[j] == ascii::SINGLE_QUOTE || b[j] == ascii::DOUBLE_QUOTE || at_expansion(b, j)
}

/// A backquoted string, `$(...)` (or `$((...))`), or `${...}`, also behind `$`.
fn expansion(b: &[u8], j: usize) -> (res: R<usize>)
    requires
        j < b@.len(),
        starts_expansion(b@, j as int),
    ensures
        scanned(res, expansion_at(b@, j as int), j as int, b@.len() as int),
    decreases b@.len() - j, 1int,
{
    if b[j] == ascii::BACKQUOTE {
        backtick(b, j)
    } else if at(b, j + 1) == ascii::LPAREN {
        dollar_paren(b, j)
    } else if at(b, j + 1) == ascii::LBRACKET {
        err("unsupported expansion (bail)", j)
    } else if at(b, j + 1) == ascii::DOLLAR {
        let c: u8 = at(b, j + 2);
        if c == ascii::LPAREN {
            dollar_paren(b, j + 1)
        } else if c == ascii::LBRACE {
            dollar_brace(b, j + 1)
        } else {
            Ok(j + 3)
        }
    } else {
        let c: u8 = at(b, j + 2);
        if c == ascii::SPACE || c == ascii::TAB || c == ascii::NEWLINE || c == ascii::PIPE {
            return err("unsupported expansion (bail)", j);
        }
        dollar_brace(b, j)
    }
}

/// Any quoted region: a quoted string or an expansion.
fn quoted(b: &[u8], j: usize) -> (res: R<usize>)
    requires
        j < b@.len(),
        starts_quoted(b@, j as int),
    ensures
        scanned(res, quoted_at(b@, j as int), j as int, b@.len() as int),
    decreases b@.len() - j, 2int,
{
    if b[j] == ascii::SINGLE_QUOTE {
        single_quote(b, j)
    } else if b[j] == ascii::DOUBLE_QUOTE {
        double_quote(b, j)
    } else if b[j] == ascii::DOLLAR && at(b, j + 1) == ascii::SINGLE_QUOTE {
        escaped(b, ascii::SINGLE_QUOTE, j + 1)
    } else if b[j] == ascii::DOLLAR && at(b, j + 1) == ascii::DOLLAR && at(b, j + 2)
        == ascii::SINGLE_QUOTE {
        single_quote(b, j + 2)
    } else {
        expansion(b, j)
    }
}

/// `$(...)` or `$((...))` - skips the `$`, then balances parens.
fn dollar_paren(b: &[u8], i: usize) -> (res: R<usize>)
    requires
        i + 1 < b@.len(),
        b@[i + 1] == ascii::LPAREN,
    ensures
        scanned(res, group_from(b@, Group::Paren, i + 1, i + 2, 1), i as int, b@.len() as int),
    decreases b@.len() - i, 0int,
{
    let _n: usize = b.len();
    paren_group(b, i + 1)
}

/// Scan a balanced parenthesis group beginning at `at` (`src[at] == b'('`),
/// quote-aware. Returns the index just past the matching `)`. The parser uses
/// this to slice `(( … ))` arithmetic commands opaquely.
pub fn scan_parens(src: &[u8], at: usize) -> (res: Result<usize, LexError>)
    ensures
        match res {
            Ok(end) => parens_at(src@, at as int) == Ok::<int, Fault>(end as int) && at < end
                <= src@.len(),
            Err(e) => parens_at(src@, at as int) == Err::<int, Fault>(e@),
        },
{
    if at >= src.len() || src[at] != ascii::LPAREN {
        return err("expected '('", at);
    }
    paren_group(src, at)
}

/// The end of the parenthesis group whose `(` is at `i`.
pub open spec fn parens_at(b: Seq<u8>, i: int) -> Result<int, Fault> {
    if byte_at(b, i) != ascii::LPAREN {
        fault("expected '('"@, i)
    } else {
        group_from(b, Group::Paren, i, i + 1, 1)
    }
}

/// Balance a group that opened at `i`, from `from` on, quote-aware and recursing
/// into nested expansions so a bracket inside a quote or `${…}` does not close
/// it prematurely.
fn balanced(b: &[u8], g: Group, i: usize, from: usize) -> (res: R<usize>)
    requires
        i < from <= b@.len(),
    ensures
        scanned(res, group_from(b@, g, i as int, from as int, 1), i as int, b@.len() as int),
    decreases b@.len() - from, 3int,
{
    let n: usize = b.len();
    let mut j: usize = from;
    let mut depth: usize = 1;
    while j < n
        invariant
            i < from <= j <= n,
            1 <= depth <= 1 + j - from,
            n == b@.len(),
            group_from(b@, g, i as int, from as int, 1) == group_from(
                b@,
                g,
                i as int,
                j as int,
                depth as nat,
            ),
        decreases n - j,
    {
        let c: u8 = b[j];
        if c == ascii::BACKSLASH {
            j = skip_escape(b, j);
        } else if at_quoted(b, j) {
            j = quoted(b, j)?;
        } else if c == g.open_byte() {
            depth += 1;
            j += 1;
        } else if c == g.close_byte() {
            depth -= 1;
            j += 1;
            if depth == 0 {
                return Ok(j);
            }
        } else {
            j += 1;
        }
    }
    err(g.message(), i)
}

/// Balance a parenthesized group starting at `b[i] == '('`. Covers subshells,
/// `$()`, `$(())`, `(())`, `<()`, `=()`.
fn paren_group(b: &[u8], i: usize) -> (res: R<usize>)
    requires
        i < b@.len(),
        b@[i as int] == ascii::LPAREN,
    ensures
        scanned(
            res,
            group_from(b@, Group::Paren, i as int, i + 1, 1),
            i as int,
            b@.len() as int,
        ),
    decreases b@.len() - i, 0int,
{
    let _n: usize = b.len();
    balanced(b, Group::Paren, i, i + 1)
}

/// Balance a `${...}` group starting at `b[i] == '$'`, `b[i+1] == '{'`.
fn dollar_brace(b: &[u8], i: usize) -> (res: R<usize>)
    requires
        i + 1 < b@.len(),
        b@[i + 1] == ascii::LBRACE,
    ensures
        scanned(
            res,
            group_from(b@, Group::Brace, i as int, i + 2, 1),
            i as int,
            b@.len() as int,
        ),
    decreases b@.len() - i, 0int,
{
    let _n: usize = b.len();
    balanced(b, Group::Brace, i, i + 2)
}

/// Scan a maximal word starting at `start`. Quotes and expansions inside are
/// consumed as opaque regions so embedded operators do not split the word.
pub fn scan_word(b: &[u8], start: usize) -> (res: Result<usize, LexError>)
    ensures
        match res {
            Ok(end) => word_from(b@, start as int) == Ok::<int, Fault>(end as int) && start <= end
                && (start <= b@.len() ==> end <= b@.len()),
            Err(e) => word_from(b@, start as int) == Err::<int, Fault>(e@),
        },
{
    let n: usize = b.len();
    let mut j: usize = start;
    while j < n
        invariant
            start <= j,
            start <= n ==> j <= n,
            n == b@.len(),
            word_from(b@, start as int) == word_from(b@, j as int),
        decreases n - j,
    {
        let c: u8 = b[j];
        if c == ascii::BACKSLASH {
            j = skip_escape(b, j);
        } else if at_quoted(b, j) {
            j = quoted(b, j)?;
        } else if (c == ascii::EQUALS || c == ascii::LESS || c == ascii::GREAT || c == ascii::AT_SIGN || c == ascii::QUESTION || c == ascii::STAR || c
            == ascii::PLUS || c == ascii::BANG) && at(b, j + 1) == ascii::LPAREN {
            j = paren_group(b, j + 1)?;
        } else if c == ascii::SPACE || c == ascii::TAB || c == ascii::RETURN || c == ascii::NEWLINE || c == ascii::PIPE || c == ascii::AMP || c
            == ascii::SEMI || c == ascii::LESS || c == ascii::GREAT || c == ascii::LPAREN || c == ascii::RPAREN {
            return Ok(j);
        } else {
            j += 1;  // ordinary char, including { } [ ] # = $name
        }
    }
    Ok(j)
}

// ---------------------------------------------------------------------------
// How far the scanners go
// ---------------------------------------------------------------------------

/// Finding a byte stays inside the bytes.
pub proof fn lemma_find_byte(b: Seq<u8>, j: int, c: u8)
    requires
        j <= b.len(),
    ensures
        j <= find_byte(b, j, c) <= b.len(),
        find_byte(b, j, c) < b.len() ==> b[find_byte(b, j, c)] == c,
        forall|k: int| j <= k < find_byte(b, j, c) ==> b[k] != c,
    decreases b.len() - j,
{
    if j < b.len() && b[j] != c {
        lemma_find_byte(b, j + 1, c);
    }
}

/// A string ends right after the byte that closes it.
pub proof fn lemma_escaped_bounds(b: Seq<u8>, close: u8, i: int, j: int)
    requires
        0 <= j <= b.len(),
    ensures
        escaped_from(b, close, i, j) matches Ok(k) ==> j < k <= b.len() && b[k - 1] == close,
    decreases b.len() - j,
{
    if j < b.len() {
        if b[j] == ascii::BACKSLASH {
            lemma_escaped_bounds(b, close, i, past_escape(b, j));
        } else if b[j] != close {
            lemma_escaped_bounds(b, close, i, j + 1);
        }
    }
}

/// An expansion ends past its start, right after an ASCII byte.
pub proof fn lemma_expansion_bounds(b: Seq<u8>, j: int)
    requires
        0 <= j < b.len(),
        starts_expansion(b, j),
    ensures
        expansion_at(b, j) matches Ok(k) ==> j < k <= b.len() && b[k - 1] < 0x80,
    decreases b.len() - j, 0int,
{
    if b[j] == ascii::BACKQUOTE {
        lemma_escaped_bounds(b, ascii::BACKQUOTE, j, j + 1);
    } else if byte_at(b, j + 1) == ascii::LPAREN {
        lemma_group_bounds(b, Group::Paren, j + 1, j + 2, 1);
    } else if byte_at(b, j + 1) == ascii::LBRACE {
        lemma_group_bounds(b, Group::Brace, j, j + 2, 1);
    } else if byte_at(b, j + 2) == ascii::LPAREN {
        lemma_group_bounds(b, Group::Paren, j + 2, j + 3, 1);
    } else if byte_at(b, j + 2) == ascii::LBRACE {
        lemma_group_bounds(b, Group::Brace, j + 1, j + 3, 1);
    }
}

/// A quoted region ends past its start, right after an ASCII byte.
pub proof fn lemma_quoted_bounds(b: Seq<u8>, j: int)
    requires
        0 <= j < b.len(),
        starts_quoted(b, j),
    ensures
        quoted_at(b, j) matches Ok(k) ==> j < k <= b.len() && b[k - 1] < 0x80,
    decreases b.len() - j, 1int,
{
    if b[j] == ascii::SINGLE_QUOTE {
        lemma_find_byte(b, j + 1, ascii::SINGLE_QUOTE);
    } else if b[j] == ascii::DOUBLE_QUOTE {
        lemma_double_quote_bounds(b, j, j + 1);
    } else if starts_dollar_quote(b, j) {
        lemma_escaped_bounds(b, ascii::SINGLE_QUOTE, j + 1, j + 2);
    } else if dollars_at(b, j) && byte_at(b, j + 2) == ascii::SINGLE_QUOTE {
        lemma_find_byte(b, j + 3, ascii::SINGLE_QUOTE);
    } else {
        lemma_expansion_bounds(b, j);
    }
}

/// A double-quoted string ends right after a double quote.
pub proof fn lemma_double_quote_bounds(b: Seq<u8>, i: int, j: int)
    requires
        0 <= j <= b.len(),
    ensures
        double_quote_from(b, i, j) matches Ok(k) ==> j < k <= b.len() && b[k - 1]
            == ascii::DOUBLE_QUOTE,
    decreases b.len() - j, 2int,
{
    if j < b.len() && b[j] != ascii::DOUBLE_QUOTE {
        if b[j] == ascii::BACKSLASH {
            lemma_double_quote_bounds(b, i, past_escape(b, j));
        } else if starts_expansion(b, j) {
            lemma_expansion_bounds(b, j);
            if let Ok(k) = expansion_at(b, j) {
                lemma_double_quote_bounds(b, i, k);
            }
        } else {
            lemma_double_quote_bounds(b, i, j + 1);
        }
    }
}

/// A group ends right after its closing bracket.
pub proof fn lemma_group_bounds(b: Seq<u8>, g: Group, i: int, j: int, depth: nat)
    requires
        0 <= j <= b.len(),
    ensures
        group_from(b, g, i, j, depth) matches Ok(k) ==> j < k <= b.len() && b[k - 1] == g.closing(),
    decreases b.len() - j, 2int,
{
    if j < b.len() {
        if b[j] == ascii::BACKSLASH {
            lemma_group_bounds(b, g, i, past_escape(b, j), depth);
        } else if starts_quoted(b, j) {
            lemma_quoted_bounds(b, j);
            if let Ok(k) = quoted_at(b, j) {
                lemma_group_bounds(b, g, i, k, depth);
            }
        } else if b[j] == g.opening() {
            lemma_group_bounds(b, g, i, j + 1, depth + 1);
        } else if b[j] == g.closing() {
            if depth > 1 {
                lemma_group_bounds(b, g, i, j + 1, (depth - 1) as nat);
            }
        } else {
            lemma_group_bounds(b, g, i, j + 1, depth);
        }
    }
}

/// Whether the byte at `j` is part of a word that reaches `j`.
pub open spec fn continues_word(b: Seq<u8>, j: int) -> bool {
    &&& 0 <= j < b.len()
    &&& !ends_word(b[j]) || (takes_paren(b[j]) && byte_at(b, j + 1) == ascii::LPAREN)
}

/// A word ends at the end of the bytes or at a byte that ends words, and takes
/// up at least one byte where its first byte belongs to a word.
pub proof fn lemma_word_bounds(b: Seq<u8>, j: int)
    requires
        0 <= j <= b.len(),
    ensures
        word_from(b, j) matches Ok(k) ==> {
            &&& j <= k <= b.len()
            &&& continues_word(b, j) ==> j < k
            &&& k < b.len() ==> ends_word(b[k]) && !continues_word(b, k)
        },
    decreases b.len() - j,
{
    if j < b.len() {
        if b[j] == ascii::BACKSLASH {
            lemma_word_bounds(b, past_escape(b, j));
        } else if starts_quoted(b, j) {
            lemma_quoted_bounds(b, j);
            if let Ok(k) = quoted_at(b, j) {
                lemma_word_bounds(b, k);
            }
        } else if takes_paren(b[j]) && byte_at(b, j + 1) == ascii::LPAREN {
            lemma_group_bounds(b, Group::Paren, j + 1, j + 2, 1);
            if let Ok(k) = group_from(b, Group::Paren, j + 1, j + 2, 1) {
                lemma_word_bounds(b, k);
            }
        } else if !ends_word(b[j]) {
            lemma_word_bounds(b, j + 1);
        }
    }
}

// ---------------------------------------------------------------------------
// Operators
// ---------------------------------------------------------------------------

impl Op {
    /// How the operator is written.
    pub open spec fn spelling(self) -> Seq<u8> {
        match self {
            Op::AndIf => seq![ascii::AMP, ascii::AMP],
            Op::OrIf => seq![ascii::PIPE, ascii::PIPE],
            Op::Pipe => seq![ascii::PIPE],
            Op::PipeAmp => seq![ascii::PIPE, ascii::AMP],
            Op::Amp => seq![ascii::AMP],
            Op::Semi => seq![ascii::SEMI],
            Op::DSemi => seq![ascii::SEMI, ascii::SEMI],
            Op::SemiAmp => seq![ascii::SEMI, ascii::AMP],
            Op::DSemiAmp => seq![ascii::SEMI, ascii::SEMI, ascii::AMP],
            Op::SemiPipe => seq![ascii::SEMI, ascii::PIPE],
            Op::LParen => seq![ascii::LPAREN],
            Op::RParen => seq![ascii::RPAREN],
            Op::Less => seq![ascii::LESS],
            Op::Great => seq![ascii::GREAT],
            Op::DGreat => seq![ascii::GREAT, ascii::GREAT],
            Op::LessAnd => seq![ascii::LESS, ascii::AMP],
            Op::GreatAnd => seq![ascii::GREAT, ascii::AMP],
            Op::LessGreat => seq![ascii::LESS, ascii::GREAT],
            Op::Clobber => seq![ascii::GREAT, ascii::PIPE],
            Op::AndGreat => seq![ascii::AMP, ascii::GREAT],
            Op::AndDGreat => seq![ascii::AMP, ascii::GREAT, ascii::GREAT],
            Op::DLess => seq![ascii::LESS, ascii::LESS],
            Op::DLessDash => seq![ascii::LESS, ascii::LESS, ascii::DASH],
            Op::TLess => seq![ascii::LESS, ascii::LESS, ascii::LESS],
        }
    }
}

/// The operator that stands at `i`.
pub open spec fn operator_at(b: Seq<u8>, i: int) -> Option<Op> {
    let c = byte_at(b, i);
    let p1 = byte_at(b, i + 1);
    let p2 = byte_at(b, i + 2);
    if c == ascii::AMP {
        if p1 == ascii::AMP {
            Some(Op::AndIf)
        } else if p1 == ascii::GREAT {
            Some(
                if p2 == ascii::GREAT {
                    Op::AndDGreat
                } else {
                    Op::AndGreat
                },
            )
        } else {
            Some(Op::Amp)
        }
    } else if c == ascii::PIPE {
        if p1 == ascii::PIPE {
            Some(Op::OrIf)
        } else if p1 == ascii::AMP {
            Some(Op::PipeAmp)
        } else {
            Some(Op::Pipe)
        }
    } else if c == ascii::SEMI {
        if p1 == ascii::SEMI {
            Some(
                if p2 == ascii::AMP {
                    Op::DSemiAmp
                } else {
                    Op::DSemi
                },
            )
        } else if p1 == ascii::AMP {
            Some(Op::SemiAmp)
        } else if p1 == ascii::PIPE {
            Some(Op::SemiPipe)
        } else {
            Some(Op::Semi)
        }
    } else if c == ascii::LESS {
        if p1 == ascii::LESS {
            Some(
                if p2 == ascii::DASH {
                    Op::DLessDash
                } else if p2 == ascii::LESS {
                    Op::TLess
                } else {
                    Op::DLess
                },
            )
        } else if p1 == ascii::AMP {
            Some(Op::LessAnd)
        } else if p1 == ascii::GREAT {
            Some(Op::LessGreat)
        } else {
            Some(Op::Less)
        }
    } else if c == ascii::GREAT {
        if p1 == ascii::GREAT {
            Some(Op::DGreat)
        } else if p1 == ascii::AMP {
            Some(Op::GreatAnd)
        } else if p1 == ascii::PIPE {
            Some(Op::Clobber)
        } else {
            Some(Op::Great)
        }
    } else if c == ascii::LPAREN {
        Some(Op::LParen)
    } else if c == ascii::RPAREN {
        Some(Op::RParen)
    } else {
        None
    }
}

/// Whether `op` is written at `i`.
pub open spec fn spelled_at(b: Seq<u8>, i: int, op: Op) -> bool {
    &&& i + op.spelling().len() <= b.len()
    &&& b.subrange(i, i + op.spelling().len()) == op.spelling()
}

/// Of the operators that are written at an index, the longest is taken; where
/// none is taken, none is written.
pub proof fn law_operator_longest_match(b: Seq<u8>, i: int, op: Op)
    requires
        0 <= i < b.len(),
    ensures
        operator_at(b, i) matches Some(taken) ==> spelled_at(b, i, taken),
        spelled_at(b, i, op) ==> operator_at(b, i) is Some && op.spelling().len() <= operator_at(
            b,
            i,
        )->Some_0.spelling().len(),
{
    if let Some(taken) = operator_at(b, i) {
        assert(b.subrange(i, i + taken.spelling().len()) =~= taken.spelling());
    }
    if spelled_at(b, i, op) {
        let t = b.subrange(i, i + op.spelling().len());
        assert(t[0] == b[i]);
        if op.spelling().len() >= 2 {
            assert(t[1] == b[i + 1]);
        }
        if op.spelling().len() >= 3 {
            assert(t[2] == b[i + 2]);
        }
    }
}

/// Longest-match a structural operator at `b[i]`. Returns `(op, len)`.
/// Note: `<(` / `>(` are intentionally NOT matched here - they begin a word
/// (process substitution) and are handled by the caller.
fn match_operator(b: &[u8], i: usize) -> (res: Option<(Op, usize)>)
    requires
        i < b@.len(),
    ensures
        match res {
            Some((op, len)) => {
                &&& operator_at(b@, i as int) == Some(op)
                &&& len == op.spelling().len()
                &&& 0 < len
                &&& i + len <= b@.len()
                &&& b@[i + len - 1] < 0x80
            },
            None => operator_at(b@, i as int) is None,
        },
{
    let c: u8 = b[i];
    let p1: u8 = at(b, i + 1);
    let p2: u8 = if b.len() - i > 2 {
        b[i + 2]
    } else {
        0
    };
    if c == ascii::AMP {
        if p1 == ascii::AMP {
            Some((Op::AndIf, 2))
        } else if p1 == ascii::GREAT {
            if p2 == ascii::GREAT {
                Some((Op::AndDGreat, 3))
            } else {
                Some((Op::AndGreat, 2))
            }
        } else {
            Some((Op::Amp, 1))
        }
    } else if c == ascii::PIPE {
        if p1 == ascii::PIPE {
            Some((Op::OrIf, 2))
        } else if p1 == ascii::AMP {
            Some((Op::PipeAmp, 2))
        } else {
            Some((Op::Pipe, 1))
        }
    } else if c == ascii::SEMI {
        if p1 == ascii::SEMI {
            if p2 == ascii::AMP {
                Some((Op::DSemiAmp, 3))
            } else {
                Some((Op::DSemi, 2))
            }
        } else if p1 == ascii::AMP {
            Some((Op::SemiAmp, 2))
        } else if p1 == ascii::PIPE {
            Some((Op::SemiPipe, 2))
        } else {
            Some((Op::Semi, 1))
        }
    } else if c == ascii::LESS {
        if p1 == ascii::LESS {
            if p2 == ascii::DASH {
                Some((Op::DLessDash, 3))
            } else if p2 == ascii::LESS {
                Some((Op::TLess, 3))
            } else {
                Some((Op::DLess, 2))
            }
        } else if p1 == ascii::AMP {
            Some((Op::LessAnd, 2))
        } else if p1 == ascii::GREAT {
            Some((Op::LessGreat, 2))
        } else {
            Some((Op::Less, 1))
        }
    } else if c == ascii::GREAT {
        if p1 == ascii::GREAT {
            Some((Op::DGreat, 2))
        } else if p1 == ascii::AMP {
            Some((Op::GreatAnd, 2))
        } else if p1 == ascii::PIPE {
            Some((Op::Clobber, 2))
        } else {
            Some((Op::Great, 1))
        }
    } else if c == ascii::LPAREN {
        Some((Op::LParen, 1))
    } else if c == ascii::RPAREN {
        Some((Op::RParen, 1))
    } else {
        None
    }
}

// ---------------------------------------------------------------------------
// What a token stream is
// ---------------------------------------------------------------------------

/// The line that index `i` is on, counted from 1.
pub open spec fn line_of(b: Seq<u8>, i: int) -> u32
    decreases i,
{
    if i <= 0 {
        1
    } else if b[i - 1] == ascii::NEWLINE {
        line_of(b, i - 1).wrapping_add(1)
    } else {
        line_of(b, i - 1)
    }
}

/// The index at which the line that index `i` is on starts.
pub open spec fn line_start(b: Seq<u8>, i: int) -> int
    decreases i,
{
    if i <= 0 {
        0
    } else if b[i - 1] == ascii::NEWLINE {
        i
    } else {
        line_start(b, i - 1)
    }
}

/// The column of index `i` in its line, in bytes, counted from 1.
pub open spec fn col_of(b: Seq<u8>, i: int) -> u32 {
    (i - line_start(b, i) + 1) as u32
}

/// The token of kind `kind` that spans `start..end`.
pub open spec fn token_at(b: Seq<u8>, kind: TokKind, start: int, end: int) -> TokenView {
    TokenView { kind, start, end, line: line_of(b, start), col: col_of(b, start), hdoc_body: None }
}

/// Whether a process substitution (`<(…)` or `>(…)`) starts at `i`. It is a
/// word, not a redirection.
pub open spec fn starts_process_substitution(b: Seq<u8>, i: int) -> bool {
    (byte_at(b, i) == ascii::LESS || byte_at(b, i) == ascii::GREAT) && byte_at(b, i + 1) == ascii::LPAREN
}

/// The kind and the end of the token that starts at `start`, which is not a
/// blank.
pub open spec fn token_end(b: Seq<u8>, start: int) -> Result<(TokKind, int), Fault> {
    if b[start] == ascii::NEWLINE {
        Ok((TokKind::Newline, start + 1))
    } else if b[start] == ascii::HASH {
        Ok((TokKind::Comment, find_byte(b, start, ascii::NEWLINE)))
    } else if operator_at(b, start) is Some && !starts_process_substitution(b, start) {
        let op = operator_at(b, start)->Some_0;
        Ok((TokKind::Op(op), start + op.spelling().len()))
    } else {
        match word_from(b, start) {
            Ok(end) => Ok((TokKind::Word, end)),
            Err(e) => Err(e),
        }
    }
}

/// The first index from `i` on that is not between tokens: blanks and
/// backslash-newlines are skipped.
pub open spec fn past_blanks(b: Seq<u8>, i: int) -> int
    decreases b.len() - i,
{
    if i >= b.len() {
        i
    } else if b[i] == ascii::SPACE || b[i] == ascii::TAB || b[i] == ascii::RETURN {
        past_blanks(b, i + 1)
    } else if b[i] == ascii::BACKSLASH && byte_at(b, i + 1) == ascii::NEWLINE {
        past_blanks(b, i + 2)
    } else {
        i
    }
}

/// A heredoc operator that waits for its delimiter word and then its body: the
/// index of its token, whether leading tabs are stripped before a line is held
/// against the delimiter, and the delimiter.
pub struct PendingView {
    pub tok_index: int,
    pub strip_tabs: bool,
    pub delim: Option<Seq<u8>>,
}

/// How far the lexer has come: the bytes before `pos` have become `toks`, and
/// the heredocs `pending` have no body yet.
pub struct LexState {
    pub pos: int,
    pub toks: Seq<TokenView>,
    pub pending: Seq<PendingView>,
}

/// A heredoc delimiter word reduced to its match key: the quoting that only
/// affects whether the body is expanded is removed.
pub open spec fn delim_key(word: Seq<u8>) -> Seq<u8>
    decreases word.len(),
{
    if word.len() == 0 {
        seq![]
    } else if word[0] == ascii::SINGLE_QUOTE || word[0] == ascii::DOUBLE_QUOTE {
        delim_key(word.drop_first())
    } else if word[0] == ascii::BACKSLASH && word.len() > 1 {
        seq![word[1]] + delim_key(word.skip(2))
    } else {
        seq![word[0]] + delim_key(word.drop_first())
    }
}

/// `pending` with the delimiter of the last entry that has none set to `key`.
pub open spec fn with_delim(pending: Seq<PendingView>, key: Seq<u8>) -> Seq<PendingView>
    decreases pending.len(),
{
    if pending.len() == 0 {
        pending
    } else if pending.last().delim is None {
        pending.drop_last().push(PendingView { delim: Some(key), ..pending.last() })
    } else {
        with_delim(pending.drop_last(), key).push(pending.last())
    }
}

/// A line without its leading tabs.
pub open spec fn strip_tabs(line: Seq<u8>) -> Seq<u8>
    decreases line.len(),
{
    if line.len() > 0 && line[0] == ascii::TAB {
        strip_tabs(line.drop_first())
    } else {
        line
    }
}

/// The index of the line after the one that ends at `end`.
pub open spec fn next_line(b: Seq<u8>, end: int) -> int {
    if end < b.len() {
        end + 1
    } else {
        end
    }
}

/// Where the first line from `i` on that equals the delimiter `key` starts, and
/// where the line after it starts.
pub open spec fn delim_line(b: Seq<u8>, i: int, tabs: bool, key: Seq<u8>) -> Option<(int, int)>
    decreases b.len() - i,
{
    if i >= b.len() {
        None
    } else {
        proof {
            lemma_find_byte(b, i, ascii::NEWLINE);
        }
        let end = find_byte(b, i, ascii::NEWLINE);
        let line = b.subrange(i, end);
        let held = if tabs {
            strip_tabs(line)
        } else {
            line
        };
        if held == key {
            Some((i, next_line(b, end)))
        } else {
            delim_line(b, next_line(b, end), tabs, key)
        }
    }
}

/// The state after the bodies of all pending heredocs are consumed, in order,
/// each up to its delimiter line.
pub open spec fn flush(b: Seq<u8>, st: LexState) -> Result<LexState, Fault>
    decreases st.pending.len(),
{
    if st.pending.len() == 0 {
        Ok(st)
    } else {
        let p = st.pending[0];
        match p.delim {
            None => fault("here-document without delimiter"@, st.pos),
            Some(key) => match delim_line(b, st.pos, p.strip_tabs, key) {
                None => fault("unterminated here-document"@, st.pos),
                Some((end, next)) => {
                    let body = decode_utf8(b.subrange(st.pos, end));
                    let tok = TokenView { hdoc_body: Some(body), ..st.toks[p.tok_index] };
                    flush(
                        b,
                        LexState {
                            pos: next,
                            toks: st.toks.update(p.tok_index, tok),
                            pending: st.pending.drop_first(),
                        },
                    )
                },
            },
        }
    }
}

/// The state after the token that starts at `st.pos`, which is not a blank. A
/// newline brings the bodies of the pending heredocs, a heredoc operator is one
/// more of them, and a word is the delimiter of the last that has none.
pub open spec fn lex_step(b: Seq<u8>, st: LexState) -> Result<LexState, Fault> {
    match token_end(b, st.pos) {
        Err(e) => Err(e),
        Ok((kind, end)) => {
            let next = LexState {
                pos: end,
                toks: st.toks.push(token_at(b, kind, st.pos, end)),
                pending: st.pending,
            };
            match kind {
                TokKind::Newline => flush(b, next),
                TokKind::Op(Op::DLess) | TokKind::Op(Op::DLessDash) => Ok(
                    LexState {
                        pending: st.pending.push(
                            PendingView {
                                tok_index: st.toks.len() as int,
                                strip_tabs: kind == TokKind::Op(Op::DLessDash),
                                delim: None,
                            },
                        ),
                        ..next
                    },
                ),
                TokKind::Word if !starts_process_substitution(b, st.pos) => Ok(
                    LexState {
                        pending: with_delim(st.pending, delim_key(b.subrange(st.pos, end))),
                        ..next
                    },
                ),
                _ => Ok(next),
            }
        },
    }
}

/// The token stream of `b`, of which `st` has been read.
pub open spec fn lex_from(b: Seq<u8>, st: LexState) -> Result<Seq<TokenView>, Fault>
    decreases b.len() - st.pos,
        when 0 <= st.pos
{
    let start = past_blanks(b, st.pos);
    if start >= b.len() {
        if st.pending.len() > 0 {
            fault("unterminated here-document"@, start)
        } else {
            Ok(st.toks.push(token_at(b, TokKind::Eof, start, start)))
        }
    } else {
        proof {
            lemma_past_blanks(b, st.pos);
            lemma_step_advances(b, LexState { pos: start, ..st });
        }
        match lex_step(b, LexState { pos: start, ..st }) {
            Ok(next) => lex_from(b, next),
            Err(e) => Err(e),
        }
    }
}

/// Before the first byte.
pub open spec fn lex_start() -> LexState {
    LexState { pos: 0, toks: seq![], pending: seq![] }
}

/// The token stream of the bytes `b`.
pub open spec fn lex_view(b: Seq<u8>) -> Result<Seq<TokenView>, Fault> {
    lex_from(b, lex_start())
}

/// Skipping blanks goes forward, inside the bytes, over ASCII bytes, and ends at
/// no blank.
pub proof fn lemma_past_blanks(b: Seq<u8>, i: int)
    requires
        0 <= i <= b.len(),
    ensures
        i <= past_blanks(b, i) <= b.len(),
        i < past_blanks(b, i) ==> b[past_blanks(b, i) - 1] < 0x80,
        past_blanks(b, i) < b.len() ==> {
            let c = b[past_blanks(b, i)];
            c != ascii::SPACE && c != ascii::TAB && c != ascii::RETURN
        },
    decreases b.len() - i,
{
    if i < b.len() {
        if b[i] == ascii::SPACE || b[i] == ascii::TAB || b[i] == ascii::RETURN {
            lemma_past_blanks(b, i + 1);
        } else if b[i] == ascii::BACKSLASH && byte_at(b, i + 1) == ascii::NEWLINE {
            lemma_past_blanks(b, i + 2);
        }
    }
}

/// A delimiter line lies ahead, and it and the line after it start right after
/// a newline (or the line after it is the end).
pub proof fn lemma_delim_line(b: Seq<u8>, i: int, tabs: bool, key: Seq<u8>)
    requires
        0 <= i <= b.len(),
    ensures
        delim_line(b, i, tabs, key) matches Some((end, next)) ==> {
            &&& i <= end < next <= b.len()
            &&& i < end ==> b[end - 1] == ascii::NEWLINE
            &&& next < b.len() ==> b[next - 1] == ascii::NEWLINE
        },
    decreases b.len() - i,
{
    if i < b.len() {
        lemma_find_byte(b, i, ascii::NEWLINE);
        let end = find_byte(b, i, ascii::NEWLINE);
        lemma_delim_line(b, next_line(b, end), tabs, key);
    }
}

/// Flushing goes forward, changes nothing of the tokens but heredoc bodies, and
/// leaves no heredoc pending.
proof fn lemma_flush(b: Seq<u8>, st: LexState)
    requires
        0 <= st.pos <= b.len(),
        valid_utf8(b) ==> is_char_boundary(b, st.pos),
    ensures
        flush(b, st) matches Ok(next) ==> {
            &&& st.pos <= next.pos <= b.len()
            &&& valid_utf8(b) ==> is_char_boundary(b, next.pos)
            &&& next.pending.len() == 0
            &&& st.pending.len() == 0 ==> next == st
            &&& pending_in_range(st) ==> same_spans(next.toks, st.toks)
        },
    decreases st.pending.len(),
{
    if st.pending.len() > 0 {
        let p = st.pending[0];
        if let Some(key) = p.delim {
            lemma_delim_line(b, st.pos, p.strip_tabs, key);
            if let Some((end, next)) = delim_line(b, st.pos, p.strip_tabs, key) {
                if valid_utf8(b) {
                    if next < b.len() {
                        lemma_boundary_after_ascii(b, next);
                    } else {
                        is_char_boundary_start_end_of_seq(b);
                    }
                }
                let body = decode_utf8(b.subrange(st.pos, end));
                let tok = TokenView { hdoc_body: Some(body), ..st.toks[p.tok_index] };
                let mid = LexState {
                    pos: next,
                    toks: st.toks.update(p.tok_index, tok),
                    pending: st.pending.drop_first(),
                };
                lemma_flush(b, mid);
                if pending_in_range(st) {
                    assert forall|i: int| 0 <= i < mid.pending.len() implies 0 <= (
                    #[trigger] mid.pending[i]).tok_index < mid.toks.len() by {
                        assert(mid.pending[i] == st.pending[i + 1]);
                    }
                    assert(same_spans(mid.toks, st.toks));
                }
            }
        }
    }
}

/// Whether every pending heredoc belongs to a token.
pub open spec fn pending_in_range(st: LexState) -> bool {
    forall|i: int|
        0 <= i < st.pending.len() ==> 0 <= (#[trigger] st.pending[i]).tok_index < st.toks.len()
}

/// Whether two token streams are equal but for heredoc bodies.
pub open spec fn same_spans(a: Seq<TokenView>, b: Seq<TokenView>) -> bool {
    &&& a.len() == b.len()
    &&& forall|i: int| 0 <= i < a.len() ==> same_span(#[trigger] a[i], b[i])
}

/// Whether two tokens are equal but for a heredoc body.
pub open spec fn same_span(a: TokenView, b: TokenView) -> bool {
    a == TokenView { hdoc_body: a.hdoc_body, ..b }
}

/// The token at an index that is no blank takes up at least one byte and ends
/// where a character ends.
pub proof fn lemma_token_end(b: Seq<u8>, start: int)
    requires
        0 <= start < b.len(),
        b[start] != ascii::SPACE && b[start] != ascii::TAB && b[start] != ascii::RETURN,
    ensures
        token_end(b, start) matches Ok((kind, end)) ==> {
            &&& start < end <= b.len()
            &&& kind !is Eof
            &&& valid_utf8(b) ==> is_char_boundary(b, end)
        },
{
    lemma_word_bounds(b, start);
    lemma_find_byte(b, start, ascii::NEWLINE);
    if let Some(op) = operator_at(b, start) {
        law_operator_longest_match(b, start, op);
        let t = b.subrange(start, start + op.spelling().len());
        assert(t.last() == b[start + op.spelling().len() - 1]);
    }
    if let Ok((kind, end)) = token_end(b, start) {
        if valid_utf8(b) {
            if end == b.len() {
                is_char_boundary_start_end_of_seq(b);
            } else if kind is Word || kind is Comment {
                lemma_boundary_at_ascii(b, end);
            } else {
                lemma_boundary_after_ascii(b, end);
            }
        }
    }
}

/// A step leads to a later index.
pub proof fn lemma_step_advances(b: Seq<u8>, st: LexState)
    requires
        0 <= st.pos < b.len(),
        b[st.pos] != ascii::SPACE && b[st.pos] != ascii::TAB && b[st.pos] != ascii::RETURN,
    ensures
        lex_step(b, st) matches Ok(next) ==> {
            &&& st.pos < next.pos <= b.len()
            &&& valid_utf8(b) ==> is_char_boundary(b, next.pos)
        },
{
    lemma_token_end(b, st.pos);
    if let Ok((kind, end)) = token_end(b, st.pos) {
        let next = LexState {
            pos: end,
            toks: st.toks.push(token_at(b, kind, st.pos, end)),
            pending: st.pending,
        };
        if kind is Newline {
            lemma_flush(b, next);
        }
    }
}

// ---------------------------------------------------------------------------
// The lexer
// ---------------------------------------------------------------------------

/// Tokenize `src` into a token stream ending with [`TokKind::Eof`].
pub fn tokenize(src: &str) -> (res: Result<Vec<Token>, LexError>)
    ensures
        match res {
            Ok(toks) => {
                &&& lex_view(src.spec_bytes()) == Ok::<Seq<TokenView>, Fault>(token_views(toks@))
                &&& tokens_wf(src.spec_bytes(), token_views(toks@))
                &&& parsable(src.spec_bytes(), token_views(toks@))
            },
            Err(e) => lex_view(src.spec_bytes()) == Err::<Seq<TokenView>, Fault>(e@),
        },
{
    let res = Lexer::new(src).run();
    proof {
        encode_utf8_valid_utf8(src@);
        law_tokens_wf(src.spec_bytes());
        if res is Ok {
            lemma_parsable(src.spec_bytes(), token_views(res->Ok_0@));
        }
    }
    res
}

/// A `<<`/`<<-` operator awaiting its delimiter word and then its body.
struct Pending {
    tok_index: usize,
    strip_tabs: bool,
    delim: Option<Vec<u8>>,
}

impl Pending {
    spec fn view(&self) -> PendingView {
        PendingView {
            tok_index: self.tok_index as int,
            strip_tabs: self.strip_tabs,
            delim: match self.delim {
                Some(key) => Some(key@),
                None => None,
            },
        }
    }
}

spec fn pending_views(pending: Seq<Pending>) -> Seq<PendingView> {
    Seq::new(pending.len(), |i: int| pending[i]@)
}

struct Lexer<'a> {
    src: &'a str,
    b: &'a [u8],
    pos: usize,
    line: u32,
    line_start: usize,
    tokens: Vec<Token>,
    pending: Vec<Pending>,
}

impl<'a> Lexer<'a> {
    spec fn state(self) -> LexState {
        LexState {
            pos: self.pos as int,
            toks: token_views(self.tokens@),
            pending: pending_views(self.pending@),
        }
    }

    /// The cursor stands inside the source, between characters, and the line
    /// bookkeeping is up to date.
    spec fn inv(self) -> bool {
        &&& self.b@ == self.src.spec_bytes()
        &&& valid_utf8(self.b@)
        &&& self.pos <= self.b@.len() <= usize::MAX
        &&& self.line == line_of(self.b@, self.pos as int)
        &&& self.line_start == line_start(self.b@, self.pos as int)
        &&& self.line_start <= self.pos
        &&& is_char_boundary(self.b@, self.pos as int)
        &&& pending_in_range(self.state())
    }

    fn new(src: &'a str) -> (lx: Lexer<'a>)
        ensures
            lx.inv(),
            lx.src == src,
            lx.state() == lex_start(),
    {
        let b: &'a [u8] = src.as_bytes();
        let _len: usize = b.len();
        let lx = Lexer {
            src,
            b,
            pos: 0,
            line: 1,
            line_start: 0,
            tokens: Vec::new(),
            pending: Vec::new(),
        };
        proof {
            encode_utf8_valid_utf8(src@);
            is_char_boundary_start_end_of_seq(b@);
            assert(lx.state().toks =~= seq![]);
            assert(lx.state().pending =~= seq![]);
        }
        lx
    }

    /// Advance `pos` to `np`, updating line/column bookkeeping for any newlines
    /// crossed. All position jumps go through here.
    fn bump_to(&mut self, np: usize)
        requires
            old(self).inv(),
            old(self).pos <= np <= old(self).b@.len(),
            is_char_boundary(old(self).b@, np as int),
        ensures
            final(self).inv(),
            final(self).src == old(self).src,
            final(self).b == old(self).b,
            final(self).state() == (LexState { pos: np as int, ..old(self).state() }),
            final(self).tokens == old(self).tokens,
            final(self).pending == old(self).pending,
    {
        let mut i: usize = self.pos;
        while i < np
            invariant
                old(self).pos <= i <= np <= self.b@.len(),
                self.b@.len() <= usize::MAX,
                self.line == line_of(self.b@, i as int),
                self.line_start == line_start(self.b@, i as int),
                self.line_start <= i,
                self.src == old(self).src,
                self.b == old(self).b,
                self.tokens == old(self).tokens,
                self.pending == old(self).pending,
            decreases np - i,
        {
            if self.b[i] == ascii::NEWLINE {
                self.line = self.line.wrapping_add(1);
                self.line_start = i + 1;
            }
            i += 1;
        }
        self.pos = np;
    }

    /// Record the token of kind `kind` that starts at the cursor and ends at
    /// `end`, and go on from there.
    fn push(&mut self, kind: TokKind, end: usize)
        requires
            old(self).inv(),
            old(self).pos <= end <= old(self).b@.len(),
            is_char_boundary(old(self).b@, end as int),
        ensures
            final(self).inv(),
            final(self).src == old(self).src,
            final(self).b == old(self).b,
            final(self).state() == (LexState {
                pos: end as int,
                toks: old(self).state().toks.push(
                    token_at(old(self).b@, kind, old(self).pos as int, end as int),
                ),
                pending: old(self).state().pending,
            }),
            final(self).pending == old(self).pending,
            final(self).tokens@.len() == old(self).tokens@.len() + 1,
    {
        let start: usize = self.pos;
        let line: u32 = self.line;
        let col: u32 = self.column();
        self.bump_to(end);
        let ghost before = token_views(self.tokens@);
        self.tokens.push(Token { kind, start, end, line, col, hdoc_body: None });
        proof {
            assert(token_views(self.tokens@) =~= before.push(
                token_at(self.b@, kind, start as int, end as int),
            ));
        }
    }

    /// The column of the cursor.
    fn column(&self) -> (col: u32)
        requires
            self.inv(),
        ensures
            col == col_of(self.b@, self.pos as int),
    {
        let back: usize = self.pos - self.line_start;
        #[verifier::truncate]
        let col: u32 = (back as u128 + 1) as u32;
        col
    }

    fn run(self) -> (res: R<Vec<Token>>)
        requires
            self.inv(),
        ensures
            match res {
                Ok(toks) => lex_from(self.b@, self.state()) == Ok::<Seq<TokenView>, Fault>(
                    token_views(toks@),
                ),
                Err(e) => lex_from(self.b@, self.state()) == Err::<Seq<TokenView>, Fault>(e@),
            },
    {
        let mut lx = self;
        let ghost want = lex_from(self.b@, self.state());
        loop
            invariant
                lx.inv(),
                lx.b == self.b,
                want == lex_from(lx.b@, lx.state()),
                want == lex_from(self.b@, self.state()),
            decreases lx.b@.len() - lx.pos,
        {
            let ghost before = lx.state();
            lx.skip_blanks();
            if lx.pos >= lx.b.len() {
                let p: usize = lx.pos;
                if lx.pending.len() > 0 {
                    return err("unterminated here-document", p);
                }
                lx.push(TokKind::Eof, p);
                return Ok(lx.tokens);
            }
            proof {
                lemma_past_blanks(lx.b@, before.pos);
                lemma_step_advances(lx.b@, lx.state());
                assert(lx.state() == LexState { pos: lx.pos as int, ..before });
            }
            lx.token()?;
        }
    }

    /// Read the token at the cursor, which is not at a blank.
    fn token(&mut self) -> (res: R<()>)
        requires
            old(self).inv(),
            old(self).pos < old(self).b@.len(),
            ({
                let c = old(self).b@[old(self).pos as int];
                c != ascii::SPACE && c != ascii::TAB && c != ascii::RETURN
            }),
        ensures
            match res {
                Ok(_) => {
                    &&& lex_step(old(self).b@, old(self).state()) == Ok::<LexState, Fault>(
                        final(self).state(),
                    )
                    &&& final(self).inv()
                    &&& final(self).b == old(self).b
                },
                Err(e) => lex_step(old(self).b@, old(self).state()) == Err::<LexState, Fault>(e@),
            },
    {
        let start: usize = self.pos;
        let c: u8 = self.b[start];
        proof {
            lemma_token_end(self.b@, start as int);
        }
        if c == ascii::NEWLINE {
            self.push(TokKind::Newline, start + 1);
            return self.flush_heredocs();
        }
        if c == ascii::HASH {
            let end: usize = self.scan_comment();
            self.push(TokKind::Comment, end);
            return Ok(());
        }
        // Process substitution `<(` / `>(` is a WORD, not a redirect.
        if (c == ascii::LESS || c == ascii::GREAT) && at(self.b, start + 1) == ascii::LPAREN {
            let end: usize = scan_word(self.b, start)?;
            self.push(TokKind::Word, end);
            return Ok(());
        }
        if let Some((op, len)) = match_operator(self.b, start) {
            self.push(TokKind::Op(op), start + len);
            self.note_heredoc_op(op);
            return Ok(());
        }
        // Otherwise: a word.
        let end: usize = scan_word(self.b, start)?;
        self.push(TokKind::Word, end);
        self.set_heredoc_delim(start, end);
        Ok(())
    }

    fn skip_blanks(&mut self)
        requires
            old(self).inv(),
        ensures
            final(self).inv(),
            final(self).b == old(self).b,
            final(self).state() == (LexState {
                pos: past_blanks(old(self).b@, old(self).pos as int),
                ..old(self).state()
            }),
    {
        let n: usize = self.b.len();
        let mut j: usize = self.pos;
        while j < n && (self.b[j] == ascii::SPACE || self.b[j] == ascii::TAB || self.b[j] == ascii::RETURN || (self.b[j]
            == ascii::BACKSLASH && at(self.b, j + 1) == ascii::NEWLINE))
            invariant
                *self == *old(self),
                self.inv(),
                n == self.b@.len(),
                self.pos <= j <= n,
                past_blanks(self.b@, self.pos as int) == past_blanks(self.b@, j as int),
            decreases n - j,
        {
            if self.b[j] == ascii::BACKSLASH {
                j += 2;  // line continuation: backslash-newline joins lines
            } else {
                j += 1;
            }
        }
        proof {
            lemma_past_blanks(self.b@, self.pos as int);
            if self.pos < j {
                lemma_boundary_after_ascii(self.b@, j as int);
            }
        }
        self.bump_to(j);
    }

    fn scan_comment(&self) -> (end: usize)
        requires
            self.inv(),
        ensures
            end == find_byte(self.b@, self.pos as int, ascii::NEWLINE),
    {
        line_end(self.b, self.pos)
    }

    fn note_heredoc_op(&mut self, op: Op)
        requires
            old(self).inv(),
            old(self).tokens@.len() > 0,
        ensures
            final(self).inv(),
            final(self).b == old(self).b,
            final(self).state() == (LexState {
                pending: if op == Op::DLess || op == Op::DLessDash {
                    old(self).state().pending.push(
                        PendingView {
                            tok_index: old(self).tokens@.len() - 1,
                            strip_tabs: op == Op::DLessDash,
                            delim: None,
                        },
                    )
                } else {
                    old(self).state().pending
                },
                ..old(self).state()
            }),
    {
        let strip_tabs: bool = match op {
            Op::DLess => false,
            Op::DLessDash => true,
            _ => return ,
        };
        let tok_index: usize = self.tokens.len() - 1;
        let ghost before = self.state().pending;
        self.pending.push(Pending { tok_index, strip_tabs, delim: None });
        proof {
            assert(self.state().pending =~= before.push(
                PendingView { tok_index: tok_index as int, strip_tabs, delim: None },
            ));
        }
    }

    /// If a heredoc operator is awaiting its delimiter, the just-scanned word
    /// supplies it.
    fn set_heredoc_delim(&mut self, start: usize, end: usize)
        requires
            old(self).inv(),
            start <= end <= old(self).b@.len(),
        ensures
            final(self).inv(),
            final(self).b == old(self).b,
            final(self).state() == (LexState {
                pending: with_delim(
                    old(self).state().pending,
                    delim_key(old(self).b@.subrange(start as int, end as int)),
                ),
                ..old(self).state()
            }),
    {
        let ghost all = self.state().pending;
        let ghost key = delim_key(self.b@.subrange(start as int, end as int));
        let mut i: usize = self.pending.len();
        assert(all.take(i as int) + all.skip(i as int) =~= all);
        assert(all.take(i as int) =~= all);
        assert(with_delim(all, key) =~= with_delim(all.take(i as int), key) + all.skip(i as int));
        while i > 0
            invariant
                *self == *old(self),
                self.inv(),
                i <= self.pending@.len(),
                start <= end <= self.b@.len(),
                all == self.state().pending,
                key == delim_key(self.b@.subrange(start as int, end as int)),
                with_delim(all, key) == with_delim(all.take(i as int), key) + all.skip(i as int),
            decreases i,
        {
            i -= 1;
            assert(all.take(i + 1).drop_last() =~= all.take(i as int));
            if self.pending[i].delim.is_none() {
                let tok_index: usize = self.pending[i].tok_index;
                let strip_tabs: bool = self.pending[i].strip_tabs;
                let delim = heredoc_delim(self.b, start, end);
                self.pending.set(i, Pending { tok_index, strip_tabs, delim: Some(delim) });
                proof {
                    let new = PendingView { delim: Some(key), ..all[i as int] };
                    assert(self.state().pending =~= all.update(i as int, new));
                    assert(all.update(i as int, new) =~= all.take(i as int).push(new) + all.skip(
                        i + 1,
                    ));
                }
                return ;
            }
            proof {
                assert(with_delim(all.take(i as int), key).push(all[i as int]) + all.skip(i + 1)
                    =~= with_delim(all.take(i as int), key) + all.skip(i as int));
            }
        }
        assert(all.take(0) =~= seq![]);
        assert(all.skip(0) =~= all);
        assert(with_delim(all, key) =~= all);
    }

    /// After the newline that ends a line containing heredoc operators, consume
    /// each pending body up to its delimiter line. Bodies are kept raw.
    fn flush_heredocs(&mut self) -> (res: R<()>)
        requires
            old(self).inv(),
        ensures
            match res {
                Ok(_) => {
                    &&& flush(old(self).b@, old(self).state()) == Ok::<LexState, Fault>(
                        final(self).state(),
                    )
                    &&& final(self).inv()
                    &&& final(self).b == old(self).b
                },
                Err(e) => flush(old(self).b@, old(self).state()) == Err::<LexState, Fault>(e@),
            },
    {
        let mut k: usize = 0;
        let ghost want = flush(self.b@, self.state());
        assert(self.state().pending.skip(0) =~= self.state().pending);
        while k < self.pending.len()
            invariant
                self.inv(),
                self.b == old(self).b,
                k <= self.pending@.len(),
                want == flush(old(self).b@, old(self).state()),
                want == flush(
                    self.b@,
                    LexState { pending: self.state().pending.skip(k as int), ..self.state() },
                ),
            decreases self.pending@.len() - k,
        {
            let ghost was = LexState {
                pending: self.state().pending.skip(k as int),
                ..self.state()
            };
            assert(was.pending[0] == self.pending@[k as int]@);
            assert(was.pending.drop_first() =~= self.state().pending.skip(k + 1));
            let pos: usize = self.pos;
            let (end, next): (usize, usize) = match &self.pending[k].delim {
                None => return err("here-document without delimiter", pos),
                Some(key) => match find_delim_line(self.b, pos, self.pending[k].strip_tabs, key) {
                    None => return err("unterminated here-document", pos),
                    Some(found) => found,
                },
            };
            proof {
                lemma_delim_line(
                    self.b@,
                    pos as int,
                    self.pending@[k as int].strip_tabs,
                    was.pending[0].delim->Some_0,
                );
                if pos < end {
                    lemma_boundary_after_ascii(self.b@, end as int);
                }
                if next < self.b@.len() {
                    lemma_boundary_after_ascii(self.b@, next as int);
                } else {
                    is_char_boundary_start_end_of_seq(self.b@);
                }
            }
            let body = substr(self.src, pos, end).to_owned();
            self.bump_to(next);
            let i: usize = self.pending[k].tok_index;
            let ghost toks = token_views(self.tokens@);
            assert(self.state().pending[k as int].tok_index == i);
            let tok = Token {
                kind: self.tokens[i].kind,
                start: self.tokens[i].start,
                end: self.tokens[i].end,
                line: self.tokens[i].line,
                col: self.tokens[i].col,
                hdoc_body: Some(body),
            };
            self.tokens.set(i, tok);
            k += 1;
            proof {
                assert(token_views(self.tokens@) =~= toks.update(
                    i as int,
                    TokenView { hdoc_body: Some(body@), ..toks[i as int] },
                ));
                assert(self.state().toks == toks.update(
                    was.pending[0].tok_index,
                    TokenView {
                        hdoc_body: Some(decode_utf8(self.b@.subrange(pos as int, end as int))),
                        ..was.toks[was.pending[0].tok_index]
                    },
                ));
            }
        }
        proof {
            assert(self.state().pending.skip(k as int) =~= seq![]);
        }
        self.pending = Vec::new();
        assert(self.state().pending =~= seq![]);
        Ok(())
    }
}

/// The index of the newline that ends the line of index `i`, or the length.
fn line_end(b: &[u8], i: usize) -> (end: usize)
    requires
        i <= b@.len(),
    ensures
        end == find_byte(b@, i as int, ascii::NEWLINE),
        i <= end <= b@.len(),
{
    let n: usize = b.len();
    let mut j: usize = i;
    while j < n && b[j] != ascii::NEWLINE
        invariant
            i <= j <= n,
            n == b@.len(),
            find_byte(b@, i as int, ascii::NEWLINE) == find_byte(b@, j as int, ascii::NEWLINE),
        decreases n - j,
    {
        j += 1;
    }
    j
}

/// Find the first line from `from` on that equals `key`: where it starts, and
/// where the line after it starts.
fn find_delim_line(b: &[u8], from: usize, tabs: bool, key: &Vec<u8>) -> (res: Option<(usize, usize)>)
    requires
        from <= b@.len(),
    ensures
        match res {
            Some((end, next)) => delim_line(b@, from as int, tabs, key@) == Some(
                (end as int, next as int),
            ),
            None => delim_line(b@, from as int, tabs, key@) is None,
        },
{
    let n: usize = b.len();
    let mut i: usize = from;
    while i < n
        invariant
            from <= i <= n,
            n == b@.len(),
            delim_line(b@, from as int, tabs, key@) == delim_line(b@, i as int, tabs, key@),
        decreases n - i,
    {
        let end: usize = line_end(b, i);
        let next: usize = if end < n {
            end + 1
        } else {
            end
        };
        if line_is(b, i, end, tabs, key) {
            return Some((i, next));
        }
        i = next;
    }
    None
}

/// Whether the line `start..end`, its leading tabs dropped if `tabs`, equals
/// `key`.
fn line_is(b: &[u8], start: usize, end: usize, tabs: bool, key: &Vec<u8>) -> (yes: bool)
    requires
        start <= end <= b@.len(),
    ensures
        yes == ((if tabs {
            strip_tabs(b@.subrange(start as int, end as int))
        } else {
            b@.subrange(start as int, end as int)
        }) == key@),
{
    let mut k: usize = start;
    let ghost line = b@.subrange(start as int, end as int);
    if tabs {
        while k < end && b[k] == ascii::TAB
            invariant
                start <= k <= end <= b@.len(),
                line == b@.subrange(start as int, end as int),
                strip_tabs(line) == strip_tabs(b@.subrange(k as int, end as int)),
            decreases end - k,
        {
            assert(b@.subrange(k as int, end as int).drop_first() =~= b@.subrange(
                k + 1,
                end as int,
            ));
            k += 1;
        }
        assert(strip_tabs(line) == b@.subrange(k as int, end as int));
    }
    let ghost held = b@.subrange(k as int, end as int);
    if end - k != key.len() {
        return false;
    }
    let m: usize = key.len();
    let mut j: usize = 0;
    while j < m
        invariant
            j <= m,
            m == key@.len(),
            k + m == end,
            start <= end <= b@.len(),
            held == b@.subrange(k as int, end as int),
            held == (if tabs {
                strip_tabs(b@.subrange(start as int, end as int))
            } else {
                b@.subrange(start as int, end as int)
            }),
            forall|x: int| 0 <= x < j ==> b@[k + x] == key@[x],
        decreases m - j,
    {
        if b[k + j] != key[j] {
            assert(held[j as int] != key@[j as int]);
            return false;
        }
        j += 1;
    }
    assert(held =~= key@);
    true
}

/// Reduce a heredoc delimiter word to its match key by removing the quoting
/// that only affects whether the body is expanded (e.g. `<<'EOF'`, `<<"EOF"`,
/// `<<\EOF` all match a line `EOF`).
fn heredoc_delim(b: &[u8], start: usize, end: usize) -> (key: Vec<u8>)
    requires
        start <= end <= b@.len(),
    ensures
        key@ == delim_key(b@.subrange(start as int, end as int)),
{
    let ghost word = b@.subrange(start as int, end as int);
    let mut out: Vec<u8> = Vec::new();
    let mut i: usize = start;
    while i < end
        invariant
            start <= i <= end <= b@.len(),
            word == b@.subrange(start as int, end as int),
            delim_key(word) == out@ + delim_key(b@.subrange(i as int, end as int)),
        decreases end - i,
    {
        let ghost rest = b@.subrange(i as int, end as int);
        let ghost sofar = out@;
        let c: u8 = b[i];
        assert(rest.drop_first() =~= b@.subrange(i + 1, end as int));
        if c == ascii::SINGLE_QUOTE || c == ascii::DOUBLE_QUOTE {
            i += 1;
        } else if c == ascii::BACKSLASH && end - i > 1 {
            assert(rest.skip(2) =~= b@.subrange(i + 2, end as int));
            out.push(b[i + 1]);
            i += 2;
            assert(sofar + (seq![rest[1]] + delim_key(rest.skip(2))) =~= out@ + delim_key(
                rest.skip(2),
            ));
        } else {
            out.push(c);
            i += 1;
            assert(sofar + (seq![c] + delim_key(rest.drop_first())) =~= out@ + delim_key(
                rest.drop_first(),
            ));
        }
    }
    assert(b@.subrange(end as int, end as int) =~= seq![]);
    assert(delim_key(seq![]) =~= seq![]);
    out
}

// ---------------------------------------------------------------------------
// Laws
// ---------------------------------------------------------------------------

/// Whether `tok` is what stands at its start in `b`, where there is no blank, and
/// splits no character.
pub open spec fn token_wf(b: Seq<u8>, tok: TokenView) -> bool {
    &&& sliceable(b, tok.start, tok.end)
    &&& tok.start < tok.end
    &&& past_blanks(b, tok.start) == tok.start
    &&& tok.kind !is Eof
    &&& token_end(b, tok.start) == Ok::<(TokKind, int), Fault>((tok.kind, tok.end))
}

/// Skipping blanks twice skips them once.
pub proof fn lemma_past_idempotent(b: Seq<u8>, i: int)
    requires
        0 <= i <= b.len(),
    ensures
        past_blanks(b, past_blanks(b, i)) == past_blanks(b, i),
    decreases b.len() - i,
{
    if i < b.len() {
        if b[i] == ascii::SPACE || b[i] == ascii::TAB || b[i] == ascii::RETURN {
            lemma_past_idempotent(b, i + 1);
        } else if b[i] == ascii::BACKSLASH && byte_at(b, i + 1) == ascii::NEWLINE {
            lemma_past_idempotent(b, i + 2);
        }
    }
}

/// Whether the tokens lie one after the other.
pub open spec fn ordered(toks: Seq<TokenView>) -> bool {
    forall|i: int, j: int|
        0 <= i < j < toks.len() ==> (#[trigger] toks[i]).end <= (#[trigger] toks[j]).start
}

/// Whether `toks` is a token stream over `b`: it ends with the one
/// [`TokKind::Eof`], every other token is what stands at its start, and the
/// tokens lie one after the other, none splitting a character.
pub open spec fn tokens_wf(b: Seq<u8>, toks: Seq<TokenView>) -> bool {
    &&& toks.len() > 0
    &&& toks.last() == token_at(b, TokKind::Eof, b.len() as int, b.len() as int)
    &&& forall|i: int| 0 <= i < toks.len() - 1 ==> token_wf(b, #[trigger] toks[i])
    &&& ordered(toks)
}

/// What the parser asks of a token stream: an end, and spans that can be cut out
/// of the source, also from the start of one token to the end of a later one.
pub open spec fn parsable(b: Seq<u8>, toks: Seq<TokenView>) -> bool {
    &&& toks.len() > 0
    &&& toks.last().kind is Eof
    &&& forall|i: int|
        0 <= i < toks.len() ==> sliceable(b, (#[trigger] toks[i]).start, toks[i].end)
    &&& forall|i: int, j: int|
        0 <= i < j < toks.len() ==> (#[trigger] toks[i]).start <= (#[trigger] toks[j]).end
}

/// A well-formed token stream can be parsed.
pub proof fn lemma_parsable(b: Seq<u8>, toks: Seq<TokenView>)
    requires
        valid_utf8(b),
        tokens_wf(b, toks),
    ensures
        parsable(b, toks),
{
    is_char_boundary_start_end_of_seq(b);
    assert forall|i: int| 0 <= i < toks.len() implies sliceable(
        b,
        (#[trigger] toks[i]).start,
        toks[i].end,
    ) by {
        if i < toks.len() - 1 {
            assert(token_wf(b, toks[i]));
        }
    }
    assert forall|i: int, j: int| 0 <= i < j < toks.len() implies (#[trigger] toks[i]).start <= (
    #[trigger] toks[j]).end by {
        assert(toks[i].end <= toks[j].start);
        assert(sliceable(b, toks[i].start, toks[i].end));
        assert(sliceable(b, toks[j].start, toks[j].end));
    }
}

/// Whether one of the first `n` tokens is a heredoc operator.
pub open spec fn has_heredoc(toks: Seq<TokenView>, n: int) -> bool {
    exists|i: int| 0 <= i < n && is_heredoc_op((#[trigger] toks[i]).kind)
}

/// Whether a token of this kind is a heredoc operator.
pub open spec fn is_heredoc_op(kind: TokKind) -> bool {
    kind == TokKind::Op(Op::DLess) || kind == TokKind::Op(Op::DLessDash)
}

/// Whether token `i` is a newline that may bring heredoc bodies.
pub open spec fn brings_bodies(toks: Seq<TokenView>, i: int) -> bool {
    toks[i].kind is Newline && has_heredoc(toks, i)
}

/// Whether only blanks and line continuations lie between token `i` and the one
/// before it.
pub open spec fn gap_blank(b: Seq<u8>, toks: Seq<TokenView>, i: int) -> bool {
    if i == 0 {
        past_blanks(b, 0) == toks[0].start
    } else {
        past_blanks(b, toks[i - 1].end) == toks[i].start
    }
}

/// Whether what lies between the tokens is accounted for: it is blanks and
/// line continuations, except right after a newline that brings heredoc bodies.
pub open spec fn gaps_blank(b: Seq<u8>, toks: Seq<TokenView>) -> bool {
    forall|i: int|
        0 <= i < toks.len() ==> #[trigger] gap_blank(b, toks, i) || (i > 0 && brings_bodies(
            toks,
            i - 1,
        ))
}

/// What holds of the tokens in every state the lexer reaches.
spec fn read_wf(b: Seq<u8>, toks: Seq<TokenView>, pos: int) -> bool {
    &&& 0 <= pos <= b.len()
    &&& is_char_boundary(b, pos)
    &&& forall|i: int| 0 <= i < toks.len() ==> token_wf(b, #[trigger] toks[i])
    &&& ordered(toks)
    &&& toks.len() > 0 ==> toks.last().end <= pos
}

/// One more token after the others keeps the order.
proof fn lemma_ordered_push(b: Seq<u8>, toks: Seq<TokenView>, tok: TokenView)
    requires
        ordered(toks),
        forall|i: int| 0 <= i < toks.len() ==> token_wf(b, #[trigger] toks[i]),
        toks.len() > 0 ==> toks.last().end <= tok.start,
    ensures
        ordered(toks.push(tok)),
{
    let more = toks.push(tok);
    assert forall|i: int, j: int| 0 <= i < j < more.len() implies (#[trigger] more[i]).end <= (
    #[trigger] more[j]).start by {
        if j < toks.len() {
            assert(toks[i].end <= toks[j].start);
        } else if i < toks.len() - 1 {
            assert(toks[i].end <= toks[toks.len() - 1].start);
            assert(token_wf(b, toks[toks.len() - 1]));
        }
    }
}

/// Changing heredoc bodies keeps the tokens good.
proof fn lemma_same_spans(b: Seq<u8>, toks: Seq<TokenView>, other: Seq<TokenView>, pos: int)
    requires
        read_wf(b, toks, pos),
        same_spans(other, toks),
    ensures
        read_wf(b, other, pos),
{
    assert forall|i: int| 0 <= i < other.len() implies token_wf(b, #[trigger] other[i]) by {
        assert(same_span(other[i], toks[i]));
        assert(token_wf(b, toks[i]));
    }
    assert forall|i: int, j: int| 0 <= i < j < other.len() implies (#[trigger] other[i]).end <= (
    #[trigger] other[j]).start by {
        assert(same_span(other[i], toks[i]));
        assert(same_span(other[j], toks[j]));
        assert(toks[i].end <= toks[j].start);
    }
    if toks.len() > 0 {
        assert(same_span(other[toks.len() - 1], toks[toks.len() - 1]));
    }
}

/// The token at the first index past the blanks is good.
proof fn lemma_next_token(b: Seq<u8>, toks: Seq<TokenView>, pos: int)
    requires
        valid_utf8(b),
        read_wf(b, toks, pos),
        past_blanks(b, pos) < b.len(),
    ensures
        token_end(b, past_blanks(b, pos)) matches Ok((kind, end)) ==> read_wf(
            b,
            toks.push(token_at(b, kind, past_blanks(b, pos), end)),
            end,
        ),
{
    let start = past_blanks(b, pos);
    lemma_past_blanks(b, pos);
    lemma_past_idempotent(b, pos);
    lemma_token_end(b, start);
    if start > pos {
        lemma_boundary_after_ascii(b, start);
    }
    if let Ok((kind, end)) = token_end(b, start) {
        let tok = token_at(b, kind, start, end);
        lemma_ordered_push(b, toks, tok);
        assert(token_wf(b, tok));
    }
}

/// Setting a delimiter keeps the tokens that the pending heredocs belong to.
proof fn lemma_with_delim(pending: Seq<PendingView>, key: Seq<u8>)
    ensures
        with_delim(pending, key).len() == pending.len(),
        forall|i: int|
            0 <= i < pending.len() ==> (#[trigger] with_delim(pending, key)[i]).tok_index
                == pending[i].tok_index,
    decreases pending.len(),
{
    if pending.len() > 0 && pending.last().delim is Some {
        lemma_with_delim(pending.drop_last(), key);
    }
}

/// The state after the token at `st.pos`, and before what it brings about.
spec fn with_token(b: Seq<u8>, st: LexState) -> LexState {
    let (kind, end) = token_end(b, st.pos)->Ok_0;
    LexState { pos: end, toks: st.toks.push(token_at(b, kind, st.pos, end)), pending: st.pending }
}

/// A step keeps the tokens good and the pending heredocs in range.
proof fn lemma_step_wf(b: Seq<u8>, st: LexState)
    requires
        valid_utf8(b),
        read_wf(b, st.toks, st.pos),
        pending_in_range(st),
        past_blanks(b, st.pos) < b.len(),
    ensures
        lex_step(b, LexState { pos: past_blanks(b, st.pos), ..st }) matches Ok(next) ==> {
            &&& read_wf(b, next.toks, next.pos)
            &&& pending_in_range(next)
        },
{
    let at = LexState { pos: past_blanks(b, st.pos), ..st };
    lemma_next_token(b, st.toks, st.pos);
    if let Ok((kind, end)) = token_end(b, at.pos) {
        let mid = with_token(b, at);
        assert(read_wf(b, mid.toks, mid.pos));
        assert(pending_in_range(mid)) by {
            assert(forall|i: int|
                0 <= i < mid.pending.len() ==> #[trigger] mid.pending[i] == st.pending[i]);
        }
        if kind is Newline {
            lemma_flush(b, mid);
            if let Ok(next) = flush(b, mid) {
                lemma_same_spans(b, mid.toks, next.toks, mid.pos);
            }
        } else {
            lemma_with_delim(st.pending, delim_key(b.subrange(at.pos, end)));
        }
    }
}

/// From a good state, a good token stream.
proof fn lemma_lex_wf(b: Seq<u8>, st: LexState)
    requires
        valid_utf8(b),
        read_wf(b, st.toks, st.pos),
        pending_in_range(st),
    ensures
        lex_from(b, st) matches Ok(toks) ==> tokens_wf(b, toks),
    decreases b.len() - st.pos,
{
    let start = past_blanks(b, st.pos);
    lemma_past_blanks(b, st.pos);
    if start >= b.len() {
        lemma_ordered_push(b, st.toks, token_at(b, TokKind::Eof, start, start));
    } else {
        lemma_step_wf(b, st);
        lemma_step_advances(b, LexState { pos: start, ..st });
        if let Ok(next) = lex_step(b, LexState { pos: start, ..st }) {
            lemma_lex_wf(b, next);
        }
    }
}

/// Every token stream is well formed: one [`TokKind::Eof`] at the end, every
/// token is what stands at its start, and tokens neither overlap nor split a
/// character.
pub proof fn law_tokens_wf(b: Seq<u8>)
    requires
        valid_utf8(b),
    ensures
        lex_view(b) matches Ok(toks) ==> tokens_wf(b, toks),
{
    is_char_boundary_start_end_of_seq(b);
    lemma_lex_wf(b, lex_start());
}

/// The first `n` tokens of two streams that agree on them hold the same heredoc
/// operators.
proof fn lemma_has_heredoc(a: Seq<TokenView>, o: Seq<TokenView>, n: int)
    requires
        0 <= n <= a.len(),
        n <= o.len(),
        forall|i: int| 0 <= i < n ==> (#[trigger] a[i]).kind == o[i].kind,
    ensures
        has_heredoc(a, n) == has_heredoc(o, n),
{
    if has_heredoc(a, n) {
        let i = choose|i: int| 0 <= i < n && is_heredoc_op((#[trigger] a[i]).kind);
        assert(is_heredoc_op(o[i].kind));
    }
    if has_heredoc(o, n) {
        let i = choose|i: int| 0 <= i < n && is_heredoc_op((#[trigger] o[i]).kind);
        assert(a[i].kind == o[i].kind);
    }
}

/// What holds of the gaps in every state the lexer reaches.
spec fn gaps_so_far(b: Seq<u8>, st: LexState) -> bool {
    let n = st.toks.len() as int;
    &&& gaps_blank(b, st.toks)
    &&& n == 0 ==> st.pos == 0
    &&& n > 0 && !brings_bodies(st.toks, n - 1) ==> st.toks[n - 1].end == st.pos
    &&& st.pending.len() > 0 ==> has_heredoc(st.toks, n)
}

/// One more token past the blanks keeps the gaps accounted for.
proof fn lemma_gaps_push(b: Seq<u8>, st: LexState, tok: TokenView)
    requires
        gaps_so_far(b, st),
        tok.start == past_blanks(b, st.pos),
    ensures
        gaps_blank(b, st.toks.push(tok)),
        has_heredoc(st.toks, st.toks.len() as int) ==> has_heredoc(
            st.toks.push(tok),
            st.toks.len() as int,
        ),
{
    let toks = st.toks;
    let more = toks.push(tok);
    assert forall|i: int| 0 <= i < more.len() implies #[trigger] gap_blank(b, more, i) || (i > 0
        && brings_bodies(more, i - 1)) by {
        if i > 0 {
            lemma_has_heredoc(more, toks, i - 1);
            assert(brings_bodies(more, i - 1) == brings_bodies(toks, i - 1));
        }
        if i < toks.len() {
            assert(gap_blank(b, toks, i) || (i > 0 && brings_bodies(toks, i - 1)));
        }
    }
    lemma_has_heredoc(more, toks, toks.len() as int);
}

/// A step keeps the gaps accounted for.
proof fn lemma_step_gaps(b: Seq<u8>, st: LexState)
    requires
        gaps_so_far(b, st),
        pending_in_range(st),
        valid_utf8(b),
        read_wf(b, st.toks, st.pos),
        past_blanks(b, st.pos) < b.len(),
    ensures
        lex_step(b, LexState { pos: past_blanks(b, st.pos), ..st }) matches Ok(next)
            ==> gaps_so_far(b, next),
{
    let at = LexState { pos: past_blanks(b, st.pos), ..st };
    lemma_next_token(b, st.toks, st.pos);
    if let Ok((kind, end)) = token_end(b, at.pos) {
        let mid = with_token(b, at);
        let n = st.toks.len() as int;
        lemma_gaps_push(b, st, mid.toks.last());
        assert(mid.toks.len() == n + 1);
        if is_heredoc_op(kind) {
            assert(is_heredoc_op(mid.toks[n].kind));
        }
        if has_heredoc(mid.toks, n) {
            let i = choose|i: int| 0 <= i < n && is_heredoc_op((#[trigger] mid.toks[i]).kind);
            assert(is_heredoc_op(mid.toks[i].kind));
            assert(has_heredoc(mid.toks, n + 1));
        }
        if kind is Newline {
            lemma_flush(b, mid);
            if let Ok(next) = flush(b, mid) {
                if mid.pending.len() > 0 {
                    assert(brings_bodies(mid.toks, n));
                    lemma_gaps_same_spans(b, mid.toks, next.toks);
                    assert(same_span(next.toks[n], mid.toks[n]));
                    lemma_kinds_same_spans(mid.toks, next.toks, n);
                }
            }
        } else {
            lemma_with_delim(st.pending, delim_key(b.subrange(at.pos, end)));
        }
    }
}

proof fn lemma_kinds_same_spans(toks: Seq<TokenView>, other: Seq<TokenView>, n: int)
    requires
        same_spans(other, toks),
        0 <= n <= toks.len(),
    ensures
        has_heredoc(other, n) == has_heredoc(toks, n),
{
    assert forall|i: int| 0 <= i < n implies (#[trigger] other[i]).kind == toks[i].kind by {
        assert(same_span(other[i], toks[i]));
    }
    lemma_has_heredoc(other, toks, n);
}

/// Changing heredoc bodies keeps the gaps accounted for.
proof fn lemma_gaps_same_spans(b: Seq<u8>, toks: Seq<TokenView>, other: Seq<TokenView>)
    requires
        gaps_blank(b, toks),
        same_spans(other, toks),
    ensures
        gaps_blank(b, other),
{
    assert forall|i: int| 0 <= i < other.len() implies #[trigger] gap_blank(b, other, i) || (i > 0
        && brings_bodies(other, i - 1)) by {
        assert(same_span(other[i], toks[i]));
        assert(gap_blank(b, toks, i) || (i > 0 && brings_bodies(toks, i - 1)));
        if i > 0 {
            assert(same_span(other[i - 1], toks[i - 1]));
            lemma_kinds_same_spans(toks, other, i - 1);
        }
    }
}

/// From a state whose gaps are accounted for, such a token stream.
proof fn lemma_lex_gaps(b: Seq<u8>, st: LexState)
    requires
        valid_utf8(b),
        read_wf(b, st.toks, st.pos),
        pending_in_range(st),
        gaps_so_far(b, st),
    ensures
        lex_from(b, st) matches Ok(toks) ==> gaps_blank(b, toks),
    decreases b.len() - st.pos,
{
    let start = past_blanks(b, st.pos);
    lemma_past_blanks(b, st.pos);
    if start >= b.len() {
        lemma_gaps_push(b, st, token_at(b, TokKind::Eof, start, start));
    } else {
        lemma_step_wf(b, st);
        lemma_step_gaps(b, st);
        lemma_step_advances(b, LexState { pos: start, ..st });
        if let Ok(next) = lex_step(b, LexState { pos: start, ..st }) {
            lemma_lex_gaps(b, next);
        }
    }
}

/// No source byte is dropped between two tokens: apart from heredoc bodies, only
/// blanks and line continuations lie there.
pub proof fn law_gaps_are_blank(b: Seq<u8>)
    requires
        valid_utf8(b),
    ensures
        lex_view(b) matches Ok(toks) ==> gaps_blank(b, toks),
{
    is_char_boundary_start_end_of_seq(b);
    lemma_lex_gaps(b, lex_start());
}

// Where the tokens start, here-documents included.

/// The heredocs `pending`, without the tokens that they belong to.
pub open spec fn unplaced(pending: Seq<PendingView>) -> Seq<PendingView> {
    Seq::new(pending.len(), |i: int| PendingView { tok_index: 0, ..pending[i] })
}

/// The heredocs that wait for their bodies before token `n`: those whose
/// operators stand on the same line.
pub open spec fn waiting(b: Seq<u8>, toks: Seq<TokenView>, n: int) -> Seq<PendingView>
    decreases n,
{
    if n <= 0 {
        seq![]
    } else {
        let tok = toks[n - 1];
        let before = waiting(b, toks, n - 1);
        match tok.kind {
            TokKind::Newline => seq![],
            TokKind::Op(Op::DLess) | TokKind::Op(Op::DLessDash) => before.push(
                PendingView {
                    tok_index: 0,
                    strip_tabs: tok.kind == TokKind::Op(Op::DLessDash),
                    delim: None,
                },
            ),
            TokKind::Word if !starts_process_substitution(b, tok.start) => with_delim(
                before,
                delim_key(b.subrange(tok.start, tok.end)),
            ),
            _ => before,
        }
    }
}

/// Where the bodies of the heredocs `pending` end that start at `pos`.
pub open spec fn bodies_end(b: Seq<u8>, pos: int, pending: Seq<PendingView>) -> Option<int>
    decreases pending.len(),
{
    if pending.len() == 0 {
        Some(pos)
    } else {
        match pending[0].delim {
            None => None,
            Some(key) => match delim_line(b, pos, pending[0].strip_tabs, key) {
                None => None,
                Some((_, next)) => bodies_end(b, next, pending.drop_first()),
            },
        }
    }
}

/// Where the lexer goes on before token `i`: at the end of the token before it,
/// or, where that is a newline, behind the bodies that it brings.
pub open spec fn resume(b: Seq<u8>, toks: Seq<TokenView>, i: int) -> Option<int> {
    if i <= 0 {
        Some(0)
    } else if toks[i - 1].kind is Newline {
        bodies_end(b, toks[i - 1].end, waiting(b, toks, i - 1))
    } else {
        Some(toks[i - 1].end)
    }
}

/// Whether token `i` starts at the first byte past the blanks from where the
/// lexer goes on.
pub open spec fn resumed(b: Seq<u8>, toks: Seq<TokenView>, i: int) -> bool {
    resume(b, toks, i) matches Some(pos) && 0 <= pos <= b.len() && toks[i].start == past_blanks(
        b,
        pos,
    )
}

/// Whether every token starts where the lexer goes on.
pub open spec fn all_resumed(b: Seq<u8>, toks: Seq<TokenView>) -> bool {
    forall|i: int| 0 <= i < toks.len() ==> #[trigger] resumed(b, toks, i)
}

/// Setting a delimiter does not depend on the tokens.
proof fn lemma_unplaced_delim(pending: Seq<PendingView>, key: Seq<u8>)
    ensures
        unplaced(with_delim(pending, key)) == with_delim(unplaced(pending), key),
    decreases pending.len(),
{
    if pending.len() > 0 {
        let front = pending.drop_last();
        assert(unplaced(pending).drop_last() =~= unplaced(front));
        lemma_unplaced_delim(front, key);
        lemma_with_delim(front, key);
        assert(unplaced(with_delim(pending, key)) =~= with_delim(unplaced(pending), key));
    } else {
        assert(unplaced(with_delim(pending, key)) =~= with_delim(unplaced(pending), key));
    }
}

/// Flushing ends where the bodies end.
proof fn lemma_flush_end(b: Seq<u8>, st: LexState)
    ensures
        flush(b, st) matches Ok(next) ==> bodies_end(b, st.pos, unplaced(st.pending)) == Some(
            next.pos,
        ),
    decreases st.pending.len(),
{
    if st.pending.len() > 0 {
        let p = st.pending[0];
        assert(unplaced(st.pending).drop_first() =~= unplaced(st.pending.drop_first()));
        if let Some(key) = p.delim {
            if let Some((end, next)) = delim_line(b, st.pos, p.strip_tabs, key) {
                let body = decode_utf8(b.subrange(st.pos, end));
                let tok = TokenView { hdoc_body: Some(body), ..st.toks[p.tok_index] };
                lemma_flush_end(
                    b,
                    LexState {
                        pos: next,
                        toks: st.toks.update(p.tok_index, tok),
                        pending: st.pending.drop_first(),
                    },
                );
            }
        }
    }
}

/// What waits before a token, and where the lexer goes on, depends on the spans
/// of the tokens before it.
proof fn lemma_resume_prefix(b: Seq<u8>, a: Seq<TokenView>, o: Seq<TokenView>, n: int)
    requires
        0 <= n <= a.len(),
        n <= o.len(),
        forall|i: int| 0 <= i < n ==> same_span(#[trigger] a[i], o[i]),
    ensures
        waiting(b, a, n) == waiting(b, o, n),
        resume(b, a, n) == resume(b, o, n),
    decreases n,
{
    if n > 0 {
        assert(same_span(a[n - 1], o[n - 1]));
        lemma_resume_prefix(b, a, o, n - 1);
    }
}

/// What holds of the starts in every state the lexer reaches.
spec fn resumed_so_far(b: Seq<u8>, st: LexState) -> bool {
    let n = st.toks.len() as int;
    &&& all_resumed(b, st.toks)
    &&& resume(b, st.toks, n) == Some(st.pos)
    &&& unplaced(st.pending) == waiting(b, st.toks, n)
}

/// One more token where the lexer goes on.
proof fn lemma_resumed_push(b: Seq<u8>, toks: Seq<TokenView>, tok: TokenView)
    requires
        all_resumed(b, toks),
        resume(b, toks, toks.len() as int) matches Some(pos) && 0 <= pos <= b.len() && tok.start
            == past_blanks(b, pos),
    ensures
        all_resumed(b, toks.push(tok)),
        waiting(b, toks.push(tok), toks.len() as int) == waiting(b, toks, toks.len() as int),
{
    let more = toks.push(tok);
    assert forall|i: int| 0 <= i < more.len() implies #[trigger] resumed(b, more, i) by {
        assert forall|k: int| 0 <= k < i implies same_span(#[trigger] more[k], toks[k]) by {}
        lemma_resume_prefix(b, more, toks, i);
        if i < toks.len() {
            assert(resumed(b, toks, i));
        }
    }
    assert forall|k: int| 0 <= k < toks.len() implies same_span(#[trigger] more[k], toks[k]) by {}
    lemma_resume_prefix(b, more, toks, toks.len() as int);
}

/// Changing heredoc bodies keeps the starts.
proof fn lemma_resumed_same_spans(b: Seq<u8>, toks: Seq<TokenView>, other: Seq<TokenView>)
    requires
        all_resumed(b, toks),
        same_spans(other, toks),
    ensures
        all_resumed(b, other),
        resume(b, other, other.len() as int) == resume(b, toks, toks.len() as int),
        waiting(b, other, other.len() as int) == waiting(b, toks, toks.len() as int),
{
    assert forall|i: int| 0 <= i < other.len() implies #[trigger] resumed(b, other, i) by {
        assert forall|k: int| 0 <= k < i implies same_span(#[trigger] other[k], toks[k]) by {}
        lemma_resume_prefix(b, other, toks, i);
        assert(resumed(b, toks, i));
        assert(same_span(other[i], toks[i]));
    }
    lemma_resume_prefix(b, other, toks, toks.len() as int);
}

/// A step keeps the starts where the lexer goes on.
proof fn lemma_step_resumed(b: Seq<u8>, st: LexState)
    requires
        resumed_so_far(b, st),
        pending_in_range(st),
        valid_utf8(b),
        read_wf(b, st.toks, st.pos),
        past_blanks(b, st.pos) < b.len(),
    ensures
        lex_step(b, LexState { pos: past_blanks(b, st.pos), ..st }) matches Ok(next)
            ==> resumed_so_far(b, next),
{
    let at = LexState { pos: past_blanks(b, st.pos), ..st };
    lemma_next_token(b, st.toks, st.pos);
    if let Ok((kind, end)) = token_end(b, at.pos) {
        let mid = with_token(b, at);
        let n = st.toks.len() as int;
        lemma_resumed_push(b, st.toks, mid.toks.last());
        assert(mid.toks[n] == token_at(b, kind, at.pos, end));
        assert(pending_in_range(mid)) by {
            assert(forall|i: int|
                0 <= i < mid.pending.len() ==> #[trigger] mid.pending[i] == st.pending[i]);
        }
        if kind is Newline {
            lemma_flush(b, mid);
            lemma_flush_end(b, mid);
            if let Ok(next) = flush(b, mid) {
                lemma_resumed_same_spans(b, mid.toks, next.toks);
                assert(unplaced(next.pending) =~= seq![]);
            }
        } else if is_heredoc_op(kind) {
            if let Ok(next) = lex_step(b, at) {
                assert(unplaced(next.pending) =~= waiting(b, next.toks, n + 1));
            }
        } else {
            lemma_unplaced_delim(st.pending, delim_key(b.subrange(at.pos, end)));
        }
    }
}

proof fn lemma_lex_resumed(b: Seq<u8>, st: LexState)
    requires
        valid_utf8(b),
        read_wf(b, st.toks, st.pos),
        pending_in_range(st),
        resumed_so_far(b, st),
    ensures
        lex_from(b, st) matches Ok(toks) ==> all_resumed(b, toks),
    decreases b.len() - st.pos,
{
    let start = past_blanks(b, st.pos);
    lemma_past_blanks(b, st.pos);
    if start >= b.len() {
        lemma_resumed_push(b, st.toks, token_at(b, TokKind::Eof, start, start));
    } else {
        lemma_step_wf(b, st);
        lemma_step_resumed(b, st);
        lemma_step_advances(b, LexState { pos: start, ..st });
        if let Ok(next) = lex_step(b, LexState { pos: start, ..st }) {
            lemma_lex_resumed(b, next);
        }
    }
}

/// Here-documents are flushed: each token starts at the first byte past the
/// blanks behind the one before it, or, where that is a newline, behind the
/// bodies of the here-documents of the line.
pub proof fn law_bodies_are_flushed(b: Seq<u8>)
    requires
        valid_utf8(b),
    ensures
        lex_view(b) matches Ok(toks) ==> all_resumed(b, toks),
{
    is_char_boundary_start_end_of_seq(b);
    assert(unplaced(lex_start().pending) =~= seq![]);
    lemma_lex_resumed(b, lex_start());
}

/// The bytes from `cursor` on, put together again from the slices of `toks` and
/// the gaps around them.
pub open spec fn rebuilt(b: Seq<u8>, toks: Seq<TokenView>, cursor: int) -> Seq<u8>
    decreases toks.len(),
{
    if toks.len() == 0 {
        b.subrange(cursor, b.len() as int)
    } else {
        b.subrange(cursor, toks[0].start) + b.subrange(toks[0].start, toks[0].end) + rebuilt(
            b,
            toks.drop_first(),
            toks[0].end,
        )
    }
}

/// Tokens that lie one after the other rebuild the rest of the source.
proof fn lemma_rebuilt(b: Seq<u8>, toks: Seq<TokenView>, cursor: int)
    requires
        0 <= cursor <= b.len(),
        toks.len() > 0 ==> cursor <= toks[0].start,
        forall|i: int| 0 <= i < toks.len() ==> (#[trigger] toks[i]).start <= toks[i].end <= b.len(),
        forall|i: int, j: int|
            0 <= i < j < toks.len() ==> (#[trigger] toks[i]).end <= (#[trigger] toks[j]).start,
    ensures
        rebuilt(b, toks, cursor) == b.subrange(cursor, b.len() as int),
    decreases toks.len(),
{
    if toks.len() > 0 {
        let rest = toks.drop_first();
        assert forall|i: int| 0 <= i < rest.len() implies (#[trigger] rest[i]).start <= rest[i].end
            <= b.len() by {
            assert(rest[i] == toks[i + 1]);
        }
        assert forall|i: int, j: int| 0 <= i < j < rest.len() implies (#[trigger] rest[i]).end <= (
        #[trigger] rest[j]).start by {
            assert(rest[i] == toks[i + 1]);
            assert(rest[j] == toks[j + 1]);
        }
        if rest.len() > 0 {
            assert(toks[0].end <= toks[1].start);
        }
        lemma_rebuilt(b, rest, toks[0].end);
        assert(rebuilt(b, toks, cursor) =~= b.subrange(cursor, b.len() as int));
    }
}

/// For any input, tokenizing either fails or the token slices and the gaps
/// around them reconstruct the input byte for byte: the lexer never silently
/// alters or drops source bytes.
pub proof fn law_round_trip(b: Seq<u8>)
    requires
        valid_utf8(b),
    ensures
        lex_view(b) matches Ok(toks) ==> rebuilt(b, toks, 0) == b,
{
    law_tokens_wf(b);
    if let Ok(toks) = lex_view(b) {
        assert forall|i: int| 0 <= i < toks.len() implies 0 <= (#[trigger] toks[i]).start
            <= toks[i].end <= b.len() by {
            if i < toks.len() - 1 {
                assert(token_wf(b, toks[i]));
            }
        }
        assert(0 <= toks[0].start);
        lemma_rebuilt(b, toks, 0);
        assert(b.subrange(0, b.len() as int) =~= b);
    }
}

} // verus!
