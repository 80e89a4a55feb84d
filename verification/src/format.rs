//! The top-level formatting entry point and its safety gates.
//!
//! [`format_command`] is the single function callers use. It embodies the
//! "never block, never mislead" contract: on anything it is not fully
//! confident about, it returns the original command unchanged. The gates, in
//! order:
//!
//! 1. Oversize input (> [`MAX_INPUT`]) - passthrough (large heredocs etc.).
//! 2. Lex error - bail.
//! 3. Any comment token - bail (comments are part of what the user approves and
//!    must never silently vanish).
//! 4. Parse error - bail.
//! 5. A redirection whose operator would run into its target (`< <(a)`) - bail.
//! 6. **Output verification** - re-lex the formatted output and confirm it
//!    carries the exact same words as the input. Formatting may only reflow
//!    whitespace/operators; if a word changed or vanished, we bail rather than
//!    display a command that differs from what will run.

use vstd::multiset::*;
use vstd::prelude::*;
use vstd::seq_lib::*;
use vstd::string::*;
use vstd::utf8::*;
use crate::apart::{apart_list, are_apart};
use crate::ast::{FileView, stmt_views};
use crate::json;
use crate::json::{ValueView, encode_view};
use crate::lexer;
use crate::lexer::{Fault, TokKind, Token, TokenView, lex_view, parsable, token_views};
use crate::parser;
use crate::parser::parse_view;
use crate::printer;
use crate::printer::format_view;
use crate::text::{blank, byte_len, is_blank, push_str, slice_chars, str_eq};

verus! {

/// Inputs larger than this are passed through unchanged.
pub const MAX_INPUT: usize = 8000;

/// The no-op hook response: emit this to leave a tool call untouched.
pub const HOOK_NOOP: &'static str = "{}";

// ---------------------------------------------------------------------------
// Words
// ---------------------------------------------------------------------------

/// The texts of the word tokens of `toks`, in order.
pub open spec fn words_of(src: Seq<char>, toks: Seq<TokenView>) -> Seq<Seq<char>>
    decreases toks.len(),
{
    if toks.len() == 0 {
        seq![]
    } else if toks.last().kind is Word {
        words_of(src, toks.drop_last()).push(
            slice_chars(src, toks.last().start, toks.last().end),
        )
    } else {
        words_of(src, toks.drop_last())
    }
}

/// The multiset of the words of a command, if it can be tokenized.
pub open spec fn word_multiset(src: Seq<char>) -> Option<Multiset<Seq<char>>> {
    match lex_view(encode_utf8(src)) {
        Ok(toks) => Some(words_of(src, toks).to_multiset()),
        Err(_) => None,
    }
}

/// Whether both commands can be tokenized, into the same multiset of words.
pub open spec fn same_words_view(a: Seq<char>, b: Seq<char>) -> bool {
    word_multiset(a) is Some && word_multiset(a) == word_multiset(b)
}

spec fn string_views(v: Seq<String>) -> Seq<Seq<char>> {
    Seq::new(v.len(), |i: int| v[i]@)
}

/// Whether `a` and `b` contain the same multiset of word tokens. Operators and
/// whitespace may legitimately reflow; words must not change. Comparison is
/// order-insensitive so that legitimately reordered redirections (`>f cmd` to
/// `cmd >f`) are no difference, while any dropped/altered word still is.
pub fn same_words(a: &str, b: &str) -> (same: bool)
    ensures
        same == same_words_view(a@, b@),
{
    let ta = match lexer::tokenize(a) {
        Ok(toks) => toks,
        Err(_) => return false,
    };
    let tb = match lexer::tokenize(b) {
        Ok(toks) => toks,
        Err(_) => return false,
    };
    let wa = word_texts(a, &ta);
    let wb = word_texts(b, &tb);
    same_multiset(&wa, wb)
}

fn word_texts(src: &str, toks: &Vec<Token>) -> (words: Vec<String>)
    requires
        parsable(src.spec_bytes(), token_views(toks@)),
    ensures
        string_views(words@) == words_of(src@, token_views(toks@)),
{
    let ghost all = token_views(toks@);
    let mut words: Vec<String> = Vec::new();
    let mut i: usize = 0;
    assert(string_views(words@) =~= seq![]);
    while i < toks.len()
        invariant
            i <= toks@.len(),
            all == token_views(toks@),
            parsable(src.spec_bytes(), all),
            string_views(words@) == words_of(src@, all.take(i as int)),
        decreases toks@.len() - i,
    {
        let ghost before = string_views(words@);
        assert(all.take(i + 1).drop_last() =~= all.take(i as int));
        assert(all.take(i + 1).last() == toks@[i as int]@);
        assert(all[i as int] == toks@[i as int]@);
        if toks[i].kind == TokKind::Word {
            let text = toks[i].text(src);
            words.push(text.to_owned());
            assert(string_views(words@) =~= before.push(text@));
        }
        i += 1;
    }
    assert(all.take(i as int) =~= all);
    words
}

/// The index of `w` in `words`.
fn find_word(words: &Vec<String>, w: &str) -> (found: Option<usize>)
    ensures
        match found {
            Some(i) => i < words@.len() && words@[i as int]@ == w@,
            None => !string_views(words@).contains(w@),
        },
{
    let mut i: usize = 0;
    while i < words.len()
        invariant
            i <= words@.len(),
            forall|k: int| 0 <= k < i ==> (#[trigger] words@[k])@ != w@,
        decreases words@.len() - i,
    {
        if str_eq(&words[i], w) {
            return Some(i);
        }
        i += 1;
    }
    None
}

/// Whether `a` and `b` hold the same strings, each as often.
fn same_multiset(a: &Vec<String>, b: Vec<String>) -> (same: bool)
    ensures
        same == (string_views(a@).to_multiset() == string_views(b@).to_multiset()),
{
    broadcast use vstd::seq_lib::group_to_multiset_ensures;

    let ghost av = string_views(a@);
    let ghost bv = string_views(b@);
    let mut left = b;
    let mut i: usize = 0;
    proof {
        assert(av.take(0).to_multiset() =~= Multiset::empty()) by {
            assert(av.take(0) =~= Seq::empty());
        }
        assert(av.take(0).to_multiset().add(string_views(left@).to_multiset())
            =~= bv.to_multiset());
    }
    while i < a.len()
        invariant
            i <= a@.len(),
            av == string_views(a@),
            bv == string_views(b@),
            av.take(i as int).to_multiset().add(string_views(left@).to_multiset())
                == bv.to_multiset(),
        decreases a@.len() - i,
    {
        let ghost w = av[i as int];
        let ghost done = av.take(i as int);
        let ghost rest = string_views(left@);
        proof {
            assert(av.take(i + 1) =~= done.push(w));
        }
        match find_word(&left, &a[i]) {
            Some(k) => {
                let _ = left.remove(k);
                proof {
                    assert(string_views(left@) =~= rest.remove(k as int));
                    lemma_move_one(done, rest, k as int);
                }
            },
            None => {
                proof {
                    // `w` is in `b` only as often as among the words before it.
                    lemma_one_more(done, rest, w);
                    lemma_prefix_count(av, i + 1, w);
                    assert(av.to_multiset().count(w) > bv.to_multiset().count(w));
                }
                return false;
            },
        }
        i += 1;
    }
    proof {
        assert(av.take(i as int) =~= av);
        if left@.len() > 0 {
            assert(bv.to_multiset().len() == av.to_multiset().len()
                + string_views(left@).to_multiset().len());
            assert(string_views(left@).to_multiset().len() == left@.len());
        } else {
            assert(string_views(left@) =~= Seq::empty());
            assert(string_views(left@).to_multiset() =~= Multiset::empty());
            assert(av.to_multiset() =~= bv.to_multiset());
        }
    }
    left.len() == 0
}

/// Moving an item from one sequence to the end of another keeps them together
/// as they were.
proof fn lemma_move_one(done: Seq<Seq<char>>, rest: Seq<Seq<char>>, k: int)
    requires
        0 <= k < rest.len(),
    ensures
        done.push(rest[k]).to_multiset().add(rest.remove(k).to_multiset())
            == done.to_multiset().add(rest.to_multiset()),
{
    broadcast use vstd::seq_lib::group_to_multiset_ensures;

    assert(rest.contains(rest[k]));
    assert(rest.to_multiset().count(rest[k]) > 0);
    assert(done.push(rest[k]).to_multiset().add(rest.remove(k).to_multiset())
        =~= done.to_multiset().add(rest.to_multiset()));
}

/// An item that `rest` does not hold is in both together as often as in `done`,
/// and once more after it is pushed.
proof fn lemma_one_more(done: Seq<Seq<char>>, rest: Seq<Seq<char>>, w: Seq<char>)
    requires
        !rest.contains(w),
    ensures
        done.to_multiset().add(rest.to_multiset()).count(w) == done.to_multiset().count(w),
        done.push(w).to_multiset().count(w) == done.to_multiset().count(w) + 1,
{
    broadcast use vstd::seq_lib::group_to_multiset_ensures;

    assert(rest.to_multiset().count(w) == 0);
}

/// A sequence holds a value at least as often as its first `n` items do.
proof fn lemma_prefix_count(s: Seq<Seq<char>>, n: int, x: Seq<char>)
    requires
        0 <= n <= s.len(),
    ensures
        s.take(n).to_multiset().count(x) <= s.to_multiset().count(x),
    decreases s.len() - n,
{
    broadcast use vstd::seq_lib::group_to_multiset_ensures;

    if n == s.len() {
        assert(s.take(n) =~= s);
    } else {
        assert(s.take(n + 1) =~= s.take(n).push(s[n]));
        lemma_prefix_count(s, n + 1, x);
    }
}

// ---------------------------------------------------------------------------
// Formatting
// ---------------------------------------------------------------------------

/// Whether one of the tokens is a comment.
pub open spec fn has_comment(toks: Seq<TokenView>) -> bool {
    exists|i: int| 0 <= i < toks.len() && (#[trigger] toks[i]).kind is Comment
}

/// The formatted form of `input`, if every gate lets it through.
pub open spec fn try_format_view(input: Seq<char>, width: int) -> Option<Seq<char>> {
    if encode_utf8(input).len() > MAX_INPUT {
        None
    } else {
        match lex_view(encode_utf8(input)) {
            Err(_) => None,
            Ok(toks) => if has_comment(toks) {
                None
            } else {
                match parse_view(input, toks) {
                    Err(_) => None,
                    Ok(file) => {
                        let out = format_view(file, width);
                        if !apart_list(file.stmts) {
                            None
                        } else if blank(out) && !blank(input) {
                            None
                        } else if same_words_view(input, out) {
                            Some(out)
                        } else {
                            None
                        }
                    },
                }
            },
        }
    }
}

/// The formatted form of `input`, or `input` itself where a gate bails.
pub open spec fn format_command_view(input: Seq<char>, width: int) -> Seq<char> {
    match try_format_view(input, width) {
        Some(out) => out,
        None => input,
    }
}

/// Format a single Bash command for display. Never panics; never alters
/// meaning - falls back to the original string on any doubt.
pub fn format_command(input: &str, width: isize) -> (out: String)
    ensures
        out@ == format_command_view(input@, width as int),
{
    match try_format(input, width) {
        Some(out) => out,
        None => input.to_owned(),
    }
}

fn try_format(input: &str, width: isize) -> (res: Option<String>)
    ensures
        match res {
            Some(out) => try_format_view(input@, width as int) == Some(out@),
            None => try_format_view(input@, width as int) is None,
        },
{
    if byte_len(input) > MAX_INPUT {
        return None;
    }
    let tokens = match lexer::tokenize(input) {
        Ok(tokens) => tokens,
        Err(_) => return None,
    };
    if any_comment(&tokens) {
        return None;
    }
    let file = match parser::parse(input, &tokens) {
        Ok(file) => file,
        Err(_) => return None,
    };
    assert(file@.stmts =~= stmt_views(file.stmts@));
    if !are_apart(&file.stmts) {
        return None;
    }
    let out = printer::format(&file, width);

    // Don't collapse a non-empty command to nothing.
    if is_blank(&out) && !is_blank(input) {
        return None;
    }
    // Verification: the set of words must be identical before and after.

    if !same_words(input, &out) {
        return None;
    }
    Some(out)
}

fn any_comment(toks: &Vec<Token>) -> (yes: bool)
    ensures
        yes == has_comment(token_views(toks@)),
{
    let mut i: usize = 0;
    while i < toks.len()
        invariant
            i <= toks@.len(),
            forall|k: int| 0 <= k < i ==> (#[trigger] token_views(toks@)[k]).kind !is Comment,
        decreases toks@.len() - i,
    {
        if toks[i].kind == TokKind::Comment {
            assert(token_views(toks@)[i as int].kind is Comment);
            return true;
        }
        i += 1;
    }
    false
}

// ---------------------------------------------------------------------------
// The hook
// ---------------------------------------------------------------------------

/// `s` without one trailing newline.
pub open spec fn strip_newline(s: Seq<char>) -> Seq<char> {
    if s.len() > 0 && s.last() == '\n' {
        s.drop_last()
    } else {
        s
    }
}

/// The command that a hook payload asks about: that of the `Bash` tool, unless
/// it is blank.
pub open spec fn hook_command(payload: ValueView) -> Option<Seq<char>> {
    match (payload.get("tool_name"@), payload.get("tool_input"@)) {
        (Some(name), Some(input)) => if name.as_str() == Some("Bash"@) {
            match input.get("command"@) {
                Some(command) => match command.as_str() {
                    Some(s) if !blank(s) => Some(s),
                    _ => None,
                },
                None => None,
            }
        } else {
            None
        },
        _ => None,
    }
}

/// What comes before the command in a hook response.
pub open spec fn envelope_head() -> Seq<char> {
    "{\"hookSpecificOutput\":{\"hookEventName\":\"PreToolUse\",\"permissionDecision\":\"ask\",\"updatedInput\":{\"command\":"@
}

/// The hook response that asks about the command `cmd`.
pub open spec fn envelope(cmd: Seq<char>) -> Seq<char> {
    envelope_head() + encode_view(cmd) + "}}}"@
}

/// The hook response for a raw payload.
pub open spec fn hook_view(raw: Seq<char>, width: int) -> Seq<char> {
    match json::parse_view(raw) {
        None => HOOK_NOOP@,
        Some(payload) => match hook_command(payload) {
            None => HOOK_NOOP@,
            Some(original) => {
                let formatted = format_command_view(original, width);
                let cleaned = strip_newline(formatted);
                if formatted == original || cleaned == original {
                    HOOK_NOOP@
                } else {
                    envelope(cleaned)
                }
            },
        },
    }
}

/// Build the PreToolUse hook response for a raw payload (the JSON that is piped
/// to a hook on stdin):
///
/// - Only the `Bash` tool is touched; everything else is a no-op.
/// - When formatting changes the command, return `permissionDecision: "ask"`
///   with `updatedInput.command` so the dialog shows the formatted version.
/// - When nothing changes (or anything goes wrong), return `{}` so simple
///   commands follow the normal flow and can still be auto-allowed.
///
/// This function never fails - every error path collapses to [`HOOK_NOOP`].
pub fn hook_response(raw: &str, width: isize) -> (out: String)
    ensures
        out@ == hook_view(raw@, width as int),
{
    if is_blank(raw) {
        proof {
            lemma_blank_is_no_json(raw@);
        }
        return HOOK_NOOP.to_owned();
    }
    let payload = match json::parse(raw) {
        Ok(payload) => payload,
        Err(_) => return HOOK_NOOP.to_owned(),
    };
    let original = match requested_command(&payload) {
        Some(s) => s,
        None => return HOOK_NOOP.to_owned(),
    };

    let formatted = format_command(original, width);
    // format_command appends a trailing newline on success; normalize before
    // comparing so an already-clean command is correctly seen as unchanged.
    let cleaned = without_newline(&formatted);
    if str_eq(&formatted, original) || str_eq(cleaned, original) {
        return HOOK_NOOP.to_owned();
    }
    let mut out = String::new();
    push_str(
        &mut out,
        "{\"hookSpecificOutput\":{\"hookEventName\":\"PreToolUse\",\"permissionDecision\":\"ask\",\"updatedInput\":{\"command\":",
    );
    push_str(&mut out, &json::encode_string(cleaned));
    push_str(&mut out, "}}}");
    assert(out@ =~= envelope(cleaned@));
    out
}

/// `s` without one trailing newline.
fn without_newline(s: &str) -> (res: &str)
    ensures
        res@ == strip_newline(s@),
{
    let n: usize = s.unicode_len();
    if n > 0 && s.get_char(n - 1) == '\n' {
        assert(s@.drop_last() =~= s@.subrange(0, n - 1));
        s.substring_char(0, n - 1)
    } else {
        s
    }
}

/// The command that a payload asks about, if it is one for the `Bash` tool.
fn requested_command(payload: &json::Value) -> (res: Option<&str>)
    ensures
        match res {
            Some(s) => hook_command(payload@) == Some(s@),
            None => hook_command(payload@) is None,
        },
{
    let name = payload.get("tool_name")?;
    match name.as_str() {
        Some(tool) => if !str_eq(tool, "Bash") {
            return None;
        },
        None => return None,
    }
    let input = payload.get("tool_input")?;
    let command = input.get("command")?;
    match command.as_str() {
        Some(s) => if is_blank(s) {
            None
        } else {
            Some(s)
        },
        None => None,
    }
}

/// A blank text is no JSON document.
proof fn lemma_blank_is_no_json(s: Seq<char>)
    requires
        blank(s),
    ensures
        json::parse_view(s) is None,
{
    json::lemma_past_blanks(s, 0);
    let i = json::past_blanks(s, 0);
    if i < s.len() {
        assert(crate::text::white_space(s[i]));
    }
}

// ---------------------------------------------------------------------------
// Laws
// ---------------------------------------------------------------------------

/// Formatting only reflows: the result is the command itself, or carries the
/// exact same multiset of words.
pub proof fn law_words_are_preserved(input: Seq<char>, width: int)
    ensures
        format_command_view(input, width) == input || same_words_view(
            input,
            format_command_view(input, width),
        ),
{
}

/// On anything it is not fully confident about, the formatter returns the
/// original command: an input that is too large, that does not tokenize, that
/// holds a comment, that does not parse, or one of whose redirections would run
/// into its target.
pub proof fn law_doubtful_commands_are_untouched(input: Seq<char>, width: int)
    requires
        ({
            ||| encode_utf8(input).len() > MAX_INPUT
            ||| lex_view(encode_utf8(input)) is Err
            ||| has_comment(lex_view(encode_utf8(input))->Ok_0)
            ||| parse_view(input, lex_view(encode_utf8(input))->Ok_0) is Err
            ||| !apart_list(parse_view(input, lex_view(encode_utf8(input))->Ok_0)->Ok_0.stmts)
        }),
    ensures
        format_command_view(input, width) == input,
{
}

/// A command of more than 8000 bytes is passed through, whatever it is; so is one
/// with a comment anywhere in it, however it continues.
pub proof fn law_large_and_commented_commands_are_untouched(
    input: Seq<char>,
    width: int,
    toks: Seq<TokenView>,
    i: int,
)
    requires
        ({
            ||| encode_utf8(input).len() > 8000
            ||| {
                &&& lex_view(encode_utf8(input)) == Ok::<Seq<TokenView>, Fault>(toks)
                &&& 0 <= i < toks.len()
                &&& toks[i].kind is Comment
            }
        }),
    ensures
        format_command_view(input, width) == input,
{
}

/// A command is never collapsed to nothing.
pub proof fn law_commands_do_not_vanish(input: Seq<char>, width: int)
    requires
        !blank(input),
    ensures
        !blank(format_command_view(input, width)),
{
}

/// How often `w` is one of the words of the command `src`, whose tokens are `toks`.
pub open spec fn occurrences(src: Seq<char>, toks: Seq<TokenView>, w: Seq<char>) -> nat {
    toks.filter(
        |t: TokenView| t.kind is Word && slice_chars(src, t.start, t.end) == w,
    ).len()
}

proof fn lemma_occurrences(src: Seq<char>, toks: Seq<TokenView>, w: Seq<char>)
    ensures
        occurrences(src, toks, w) == words_of(src, toks).to_multiset().count(w),
    decreases toks.len(),
{
    broadcast use vstd::seq_lib::group_to_multiset_ensures;

    let is_w = |t: TokenView| t.kind is Word && slice_chars(src, t.start, t.end) == w;
    if toks.len() == 0 {
        assert(toks.filter(is_w) =~= seq![]);
        assert(words_of(src, toks).to_multiset() =~= Multiset::empty()) by {
            assert(words_of(src, toks) =~= Seq::empty());
        }
    } else {
        let front = toks.drop_last();
        assert(toks =~= front.push(toks.last()));
        front.lemma_filter_push(toks.last(), is_w);
        lemma_occurrences(src, front, w);
    }
}

/// Words are the same exactly when each occurs as often.
proof fn lemma_same_occurrences(a: Seq<char>, b: Seq<char>)
    requires
        lex_view(encode_utf8(a)) is Ok,
        lex_view(encode_utf8(b)) is Ok,
    ensures
        same_words_view(a, b) <==> forall|w: Seq<char>| #[trigger]
            occurrences(a, lex_view(encode_utf8(a))->Ok_0, w) == occurrences(
                b,
                lex_view(encode_utf8(b))->Ok_0,
                w,
            ),
{
    let ta = lex_view(encode_utf8(a))->Ok_0;
    let tb = lex_view(encode_utf8(b))->Ok_0;
    let ma = words_of(a, ta).to_multiset();
    let mb = words_of(b, tb).to_multiset();
    assert forall|w: Seq<char>| true implies #[trigger] occurrences(a, ta, w) == ma.count(w)
        && occurrences(b, tb, w) == mb.count(w) by {
        lemma_occurrences(a, ta, w);
        lemma_occurrences(b, tb, w);
    }
    if forall|w: Seq<char>| #[trigger] occurrences(a, ta, w) == occurrences(b, tb, w) {
        assert forall|w: Seq<char>| #[trigger] ma.count(w) == mb.count(w) by {
            assert(occurrences(a, ta, w) == occurrences(b, tb, w));
        }
        assert(ma =~= mb);
    }
}

/// Every word of a command is in its formatted form exactly as often as in the
/// command itself.
pub proof fn law_every_word_occurs_as_often(input: Seq<char>, width: int, w: Seq<char>)
    requires
        format_command_view(input, width) != input,
    ensures
        ({
            let out = format_command_view(input, width);
            &&& lex_view(encode_utf8(input)) is Ok
            &&& lex_view(encode_utf8(out)) is Ok
            &&& occurrences(input, lex_view(encode_utf8(input))->Ok_0, w) == occurrences(
                out,
                lex_view(encode_utf8(out))->Ok_0,
                w,
            )
        }),
{
    lemma_same_occurrences(input, format_command_view(input, width));
}

/// Nothing else holds a command back: one that is not too large, tokenizes
/// without a comment and parses, whose redirections are apart from their targets,
/// and which prints to the same words, is formatted, and what it becomes is what
/// its tree prints to.
pub proof fn law_what_can_be_formatted_is_formatted(
    input: Seq<char>,
    width: int,
    toks: Seq<TokenView>,
    file: FileView,
    toks_out: Seq<TokenView>,
)
    requires
        encode_utf8(input).len() <= 8000,
        lex_view(encode_utf8(input)) == Ok::<Seq<TokenView>, Fault>(toks),
        forall|i: int| 0 <= i < toks.len() ==> (#[trigger] toks[i]).kind !is Comment,
        parse_view(input, toks) == Ok::<FileView, Fault>(file),
        apart_list(file.stmts),
        blank(format_view(file, width)) ==> blank(input),
        lex_view(encode_utf8(format_view(file, width))) == Ok::<Seq<TokenView>, Fault>(toks_out),
        forall|w: Seq<char>| #[trigger]
            occurrences(input, toks, w) == occurrences(format_view(file, width), toks_out, w),
    ensures
        format_command_view(input, width) == format_view(file, width),
{
    lemma_same_occurrences(input, format_view(file, width));
}

/// A hook response is the no-op, or asks about the formatted form of the command
/// in the payload, which differs from it but carries the exact same words.
pub proof fn law_hook_never_misleads(raw: Seq<char>, width: int)
    ensures
        hook_view(raw, width) != HOOK_NOOP@ ==> {
            &&& json::parse_view(raw) is Some
            &&& hook_command(json::parse_view(raw)->Some_0) is Some
            &&& ({
                let original = hook_command(json::parse_view(raw)->Some_0)->Some_0;
                let formatted = format_command_view(original, width);
                &&& hook_view(raw, width) == envelope(strip_newline(formatted))
                &&& strip_newline(formatted) != original
                &&& same_words_view(original, formatted)
            })
        },
{
}

/// Only a command that is formatted changes anything: where formatting bails, or
/// gives the command back, the hook response is the no-op.
pub proof fn law_hook_leaves_untouched_commands_alone(raw: Seq<char>, width: int)
    ensures
        json::parse_view(raw) is None ==> hook_view(raw, width) == HOOK_NOOP@,
        json::parse_view(raw) matches Some(payload) ==> match hook_command(payload) {
            None => hook_view(raw, width) == HOOK_NOOP@,
            Some(original) => {
                let formatted = format_command_view(original, width);
                (formatted == original || formatted == original.push('\n')) ==> hook_view(
                    raw,
                    width,
                ) == HOOK_NOOP@
            },
        },
{
    if let Some(payload) = json::parse_view(raw) {
        if let Some(original) = hook_command(payload) {
            assert(original.push('\n').drop_last() =~= original);
        }
    }
}

/// Whether `v` is what stands under `key` in an object with the given entries:
/// the value of the first entry with that key, whatever the others are.
pub open spec fn stands_under(
    entries: Seq<(Seq<char>, ValueView)>,
    key: Seq<char>,
    v: ValueView,
) -> bool {
    exists|i: int|
        0 <= i < entries.len() && #[trigger] entries[i] == (key, v) && forall|j: int|
            0 <= j < i ==> (#[trigger] entries[j]).0 != key
}

proof fn lemma_stands_under(entries: Seq<(Seq<char>, ValueView)>, key: Seq<char>, v: ValueView)
    ensures
        stands_under(entries, key, v) <==> json::first_entry(entries, key) == Some(v),
    decreases entries.len(),
{
    if entries.len() > 0 {
        let tail = entries.drop_first();
        lemma_stands_under(tail, key, v);
        if stands_under(entries, key, v) {
            let i = choose|i: int|
                0 <= i < entries.len() && #[trigger] entries[i] == (key, v) && forall|j: int|
                    0 <= j < i ==> (#[trigger] entries[j]).0 != key;
            if i > 0 {
                assert(tail[i - 1] == (key, v));
                assert forall|j: int| 0 <= j < i - 1 implies (#[trigger] tail[j]).0 != key by {
                    assert(tail[j] == entries[j + 1]);
                }
                assert(entries[0].0 != key);
            }
        }
        if json::first_entry(entries, key) == Some(v) {
            if entries[0].0 == key {
                assert(entries[0] == (key, v));
            } else {
                let i = choose|i: int|
                    0 <= i < tail.len() && #[trigger] tail[i] == (key, v) && forall|j: int|
                        0 <= j < i ==> (#[trigger] tail[j]).0 != key;
                assert(entries[i + 1] == (key, v));
                assert forall|j: int| 0 <= j < i + 1 implies (#[trigger] entries[j]).0 != key by {
                    if j > 0 {
                        assert(entries[j] == tail[j - 1]);
                    }
                }
            }
        }
    }
}

/// Whether the payload asks about the `Bash` command `cmd`, which is not blank:
/// only `tool_name` and the `command` in `tool_input` say so, whatever other
/// fields there are.
pub open spec fn asks_about(payload: ValueView, cmd: Seq<char>) -> bool {
    &&& payload is Object
    &&& stands_under(payload->Object_0, "tool_name"@, ValueView::String("Bash"@))
    &&& exists|input: Seq<(Seq<char>, ValueView)>|
        stands_under(payload->Object_0, "tool_input"@, ValueView::Object(input)) && #[trigger]
            stands_under(input, "command"@, ValueView::String(cmd))
    &&& !blank(cmd)
}

proof fn lemma_asks_about(payload: ValueView, cmd: Seq<char>)
    ensures
        asks_about(payload, cmd) <==> hook_command(payload) == Some(cmd),
{
    if let ValueView::Object(entries) = payload {
        lemma_stands_under(entries, "tool_name"@, ValueView::String("Bash"@));
        if asks_about(payload, cmd) {
            let input = choose|input: Seq<(Seq<char>, ValueView)>|
                stands_under(entries, "tool_input"@, ValueView::Object(input)) && #[trigger]
                    stands_under(input, "command"@, ValueView::String(cmd));
            lemma_stands_under(entries, "tool_input"@, ValueView::Object(input));
            lemma_stands_under(input, "command"@, ValueView::String(cmd));
        }
        if hook_command(payload) == Some(cmd) {
            let input = payload.get("tool_input"@)->Some_0;
            let inner = input->Object_0;
            assert(input == ValueView::Object(inner));
            lemma_stands_under(entries, "tool_input"@, ValueView::Object(inner));
            lemma_stands_under(inner, "command"@, ValueView::String(cmd));
            assert(stands_under(inner, "command"@, ValueView::String(cmd)));
        }
    }
}

/// The hook answers every payload that asks about a command which formatting
/// changes by more than a trailing newline: it asks about the formatted command,
/// without that newline. The answer is a JSON document that says so.
pub proof fn law_hook_asks_about_every_command_that_changes(
    raw: Seq<char>,
    width: int,
    payload: ValueView,
    cmd: Seq<char>,
    shown: Seq<char>,
)
    requires
        json::parse_view(raw) == Some(payload),
        asks_about(payload, cmd),
        format_command_view(cmd, width) == shown.push('\n'),
        shown != cmd,
        shown.push('\n') != cmd,
    ensures
        hook_view(raw, width) == envelope(shown),
        json::parse_view(hook_view(raw, width)) == Some(ask_view(shown)),
{
    lemma_asks_about(payload, cmd);
    assert(shown.push('\n').drop_last() =~= shown);
    law_hook_response_parses_back(shown);
}

/// The hook leaves every other call alone: the answer is the no-op exactly when
/// the payload is no JSON document, or asks about no command, or about one that
/// formatting gives back or only puts a newline behind.
pub proof fn law_hook_is_silent_otherwise(raw: Seq<char>, width: int)
    ensures
        hook_view(raw, width) == "{}"@ <==> (json::parse_view(raw) matches Some(payload) ==> forall|
            cmd: Seq<char>,
        | #[trigger]
            asks_about(payload, cmd) ==> ({
                ||| format_command_view(cmd, width) == cmd
                ||| format_command_view(cmd, width) == cmd.push('\n')
            })),
{
    if let Some(payload) = json::parse_view(raw) {
        assert forall|cmd: Seq<char>| #[trigger] asks_about(payload, cmd) <==> hook_command(payload)
            == Some(cmd) by {
            lemma_asks_about(payload, cmd);
        }
        if let Some(cmd) = hook_command(payload) {
            let formatted = format_command_view(cmd, width);
            assert(asks_about(payload, cmd));
            assert(cmd.push('\n').drop_last() =~= cmd);
            let cleaned = strip_newline(formatted);
            if formatted != cmd && cleaned == cmd {
                assert(formatted =~= cmd.push('\n'));
            }
            reveal_strlit("{}");
            reveal_strlit(
                "{\"hookSpecificOutput\":{\"hookEventName\":\"PreToolUse\",\"permissionDecision\":\"ask\",\"updatedInput\":{\"command\":",
            );
            assert(envelope(cleaned).len() > 2);
        }
    }
}

/// The value of the only entry of an object that has just the one.
pub open spec fn only_entry(key: Seq<char>, v: ValueView) -> ValueView {
    ValueView::Object(seq![(key, v)])
}

/// What a hook response that asks about `cmd` says.
pub open spec fn ask_view(cmd: Seq<char>) -> ValueView {
    only_entry(
        "hookSpecificOutput"@,
        ValueView::Object(
            seq![
                ("hookEventName"@, ValueView::String("PreToolUse"@)),
                ("permissionDecision"@, ValueView::String("ask"@)),
                ("updatedInput"@, only_entry("command"@, ValueView::String(cmd))),
            ],
        ),
    )
}

/// A hook response reads back: it is a JSON document that asks about the command
/// it was made for, whatever characters the command holds.
pub proof fn law_hook_response_parses_back(cmd: Seq<char>)
    ensures
        json::parse_view(envelope(cmd)) == Some(ask_view(cmd)),
{
    let s = envelope(cmd);
    let x = encode_view(cmd);
    lemma_envelope_parts();
    // The parts of the text, one after the other.
    let p1 = encode_view("hookSpecificOutput"@) + seq![':'];
    let p2 = encode_view("hookEventName"@) + seq![':'];
    let q2 = encode_view("PreToolUse"@);
    let p3 = encode_view("permissionDecision"@) + seq![':'];
    let q3 = encode_view("ask"@);
    let p4 = encode_view("updatedInput"@) + seq![':'];
    let p5 = encode_view("command"@) + seq![':'];
    lemma_parts_stand(s, p1, p2, q2, p3, q3, p4, p5, x);
    let i2 = 1int + p1.len() + 1;
    let j2 = i2 + p2.len();
    let i3 = j2 + q2.len() + 1;
    let j3 = i3 + p3.len();
    let i4 = j3 + q3.len() + 1;
    let i5 = i4 + p4.len() + 1;
    let j5 = i5 + p5.len();
    let e5 = j5 + x.len();
    lemma_ask_reads_back(s, cmd, i2, j2, i3, j3, i4, i5, j5, e5);
}

/// Where the parts of a hook response stand.
proof fn lemma_parts_stand(
    s: Seq<char>,
    p1: Seq<char>,
    p2: Seq<char>,
    q2: Seq<char>,
    p3: Seq<char>,
    q3: Seq<char>,
    p4: Seq<char>,
    p5: Seq<char>,
    x: Seq<char>,
)
    requires
        s == seq!['{'] + p1 + seq!['{'] + p2 + q2 + seq![','] + p3 + q3 + seq![','] + p4 + seq!['{']
            + p5 + x + seq!['}', '}', '}'],
    ensures
        ({
            let i2 = 1int + p1.len() + 1;
            let j2 = i2 + p2.len();
            let i3 = j2 + q2.len() + 1;
            let j3 = i3 + p3.len();
            let i4 = j3 + q3.len() + 1;
            let i5 = i4 + p4.len() + 1;
            let j5 = i5 + p5.len();
            let e5 = j5 + x.len();
            &&& s.len() == e5 + 3
            &&& s[0] == '{' && s[i2 - 1] == '{' && s[i5 - 1] == '{'
            &&& s[i3 - 1] == ',' && s[i4 - 1] == ','
            &&& s[e5] == '}' && s[e5 + 1] == '}' && s[e5 + 2] == '}'
            &&& json::stands_at(s, 1, p1)
            &&& json::stands_at(s, i2, p2)
            &&& json::stands_at(s, j2, q2)
            &&& json::stands_at(s, i3, p3)
            &&& json::stands_at(s, j3, q3)
            &&& json::stands_at(s, i4, p4)
            &&& json::stands_at(s, i5, p5)
            &&& json::stands_at(s, j5, x)
        }),
{
    let open = seq!['{'];
    let comma = seq![','];
    let close = seq!['}', '}', '}'];
    let t11 = x + close;
    let t10 = p5 + t11;
    let t9 = open + t10;
    let t8 = p4 + t9;
    let t7 = comma + t8;
    let t6 = q3 + t7;
    let t5 = p3 + t6;
    let t4 = comma + t5;
    let t3 = q2 + t4;
    let t2 = p2 + t3;
    let t1 = open + t2;
    let t0 = p1 + t1;
    let h1 = open + p1;
    let h2 = h1 + open;
    let h3 = h2 + p2;
    let h4 = h3 + q2;
    let h5 = h4 + comma;
    let h6 = h5 + p3;
    let h7 = h6 + q3;
    let h8 = h7 + comma;
    let h9 = h8 + p4;
    let h10 = h9 + open;
    let h11 = h10 + p5;
    assert(s == h11 + x + close);
    lemma_assoc(h11, x, close);
    lemma_assoc(h10, p5, t11);
    lemma_assoc(h9, open, t10);
    lemma_assoc(h8, p4, t9);
    lemma_assoc(h7, comma, t8);
    lemma_assoc(h6, q3, t7);
    lemma_assoc(h5, p3, t6);
    lemma_assoc(h4, comma, t5);
    lemma_assoc(h3, q2, t4);
    lemma_assoc(h2, p2, t3);
    lemma_assoc(h1, open, t2);
    lemma_assoc(open, p1, t1);
    assert(s == open + t0);
    let i1 = 1int;
    let i2 = i1 + p1.len() + 1;
    let j2 = i2 + p2.len();
    let i3 = j2 + q2.len() + 1;
    let j3 = i3 + p3.len();
    let i4 = j3 + q3.len() + 1;
    let i5 = i4 + p4.len() + 1;
    let j5 = i5 + p5.len();
    let e5 = j5 + x.len();
    assert(json::stands_at(s, 0, open + t0));
    json::lemma_stands_at_part(s, 0, open, t0);
    json::lemma_stands_at_part(s, i1, p1, t1);
    json::lemma_stands_at_part(s, i2 - 1, open, t2);
    json::lemma_stands_at_part(s, i2, p2, t3);
    json::lemma_stands_at_part(s, j2, q2, t4);
    json::lemma_stands_at_part(s, i3 - 1, comma, t5);
    json::lemma_stands_at_part(s, i3, p3, t6);
    json::lemma_stands_at_part(s, j3, q3, t7);
    json::lemma_stands_at_part(s, i4 - 1, comma, t8);
    json::lemma_stands_at_part(s, i4, p4, t9);
    json::lemma_stands_at_part(s, i5 - 1, open, t10);
    json::lemma_stands_at_part(s, i5, p5, t11);
    json::lemma_stands_at_part(s, j5, x, close);
    assert(open[0] == s[0int + 0]);
    assert(open[0] == s[i2 - 1 + 0]);
    assert(open[0] == s[i5 - 1 + 0]);
    assert(comma[0] == s[i3 - 1 + 0]);
    assert(comma[0] == s[i4 - 1 + 0]);
    assert(close[0] == s[e5 + 0]);
    assert(close[1] == s[e5 + 1]);
    assert(close[2] == s[e5 + 2]);
    assert(s.len() == e5 + 3);
}

proof fn lemma_assoc(a: Seq<char>, b: Seq<char>, c: Seq<char>)
    ensures
        a + b + c == a + (b + c),
{
    assert(a + b + c =~= a + (b + c));
}

/// A text in which the parts of a hook response stand one after the other, at
/// the given indices, reads back.
proof fn lemma_ask_reads_back(
    s: Seq<char>,
    cmd: Seq<char>,
    i2: int,
    j2: int,
    i3: int,
    j3: int,
    i4: int,
    i5: int,
    j5: int,
    e5: int,
)
    requires
        s.len() == e5 + 3,
        s[0] == '{' && s[i2 - 1] == '{' && s[i5 - 1] == '{',
        s[i3 - 1] == ',' && s[i4 - 1] == ',',
        s[e5] == '}' && s[e5 + 1] == '}' && s[e5 + 2] == '}',
        json::stands_at(s, 1, encode_view("hookSpecificOutput"@) + seq![':']),
        json::stands_at(s, i2, encode_view("hookEventName"@) + seq![':']),
        json::stands_at(s, j2, encode_view("PreToolUse"@)),
        json::stands_at(s, i3, encode_view("permissionDecision"@) + seq![':']),
        json::stands_at(s, j3, encode_view("ask"@)),
        json::stands_at(s, i4, encode_view("updatedInput"@) + seq![':']),
        json::stands_at(s, i5, encode_view("command"@) + seq![':']),
        json::stands_at(s, j5, encode_view(cmd)),
        i2 == 1 + encode_view("hookSpecificOutput"@).len() + 2,
        j2 == i2 + encode_view("hookEventName"@).len() + 1,
        i3 == j2 + encode_view("PreToolUse"@).len() + 1,
        j3 == i3 + encode_view("permissionDecision"@).len() + 1,
        i4 == j3 + encode_view("ask"@).len() + 1,
        i5 == i4 + encode_view("updatedInput"@).len() + 2,
        j5 == i5 + encode_view("command"@).len() + 1,
        e5 == j5 + encode_view(cmd).len(),
    ensures
        json::parse_view(s) == Some(ask_view(cmd)),
{
    lemma_opening_quote(s, i3, "permissionDecision"@, seq![':']);
    lemma_opening_quote(s, i4, "updatedInput"@, seq![':']);
    // From the inside out.
    let input = only_entry("command"@, ValueView::String(cmd));
    lemma_input_reads_back(s, cmd, i4, i5, j5, e5);
    lemma_decision_reads_back(s, i3, j3, i4, input, e5 + 2);
    let rest = seq![("permissionDecision"@, ValueView::String("ask"@))] + seq![
        ("updatedInput"@, input),
    ];
    lemma_event_reads_back(s, i2, j2, i3, rest, e5 + 2);
    let entries = seq![("hookEventName"@, ValueView::String("PreToolUse"@))] + rest;
    lemma_output_reads_back(s, i2, entries, e5 + 2);
    assert(entries =~= seq![
        ("hookEventName"@, ValueView::String("PreToolUse"@)),
        ("permissionDecision"@, ValueView::String("ask"@)),
        ("updatedInput"@, input),
    ]);
}

/// The outermost object of a hook response reads back around its entries.
proof fn lemma_output_reads_back(
    s: Seq<char>,
    i2: int,
    entries: Seq<(Seq<char>, ValueView)>,
    end: int,
)
    requires
        s.len() == end + 1,
        s[0] == '{' && s[i2 - 1] == '{' && s[end] == '}',
        s[i2] == '"',
        json::stands_at(s, 1, encode_view("hookSpecificOutput"@) + seq![':']),
        i2 == 1 + encode_view("hookSpecificOutput"@).len() + 2,
        i2 <= end,
        json::entries_at(s, i2) == Some((entries, end)),
    ensures
        json::parse_view(s) == Some(
            only_entry("hookSpecificOutput"@, ValueView::Object(entries)),
        ),
{
    let k1 = "hookSpecificOutput"@;
    lemma_opening_quote(s, 1, k1, seq![':']);
    json::lemma_object_reads_back(s, i2 - 1, entries, end);
    json::lemma_entry_reads_back(s, 1, k1, ValueView::Object(entries), end);
    json::lemma_last_entry_reads_back(s, 1, k1, ValueView::Object(entries), end);
    json::lemma_object_reads_back(s, 0, seq![(k1, ValueView::Object(entries))], end + 1);
    assert(json::past_blanks(s, 0) == 0);
    assert(json::past_blanks(s, end + 1) == s.len());
}

/// The part of a hook response that holds the event reads back, in front of
/// the rest.
proof fn lemma_event_reads_back(
    s: Seq<char>,
    i2: int,
    j2: int,
    i3: int,
    rest: Seq<(Seq<char>, ValueView)>,
    end: int,
)
    requires
        0 <= i2,
        i3 <= s.len(),
        s[i3 - 1] == ',',
        s[i3] == '"',
        json::stands_at(s, i2, encode_view("hookEventName"@) + seq![':']),
        json::stands_at(s, j2, encode_view("PreToolUse"@)),
        json::entries_at(s, i3) == Some((rest, end)),
        j2 == i2 + encode_view("hookEventName"@).len() + 1,
        i3 == j2 + encode_view("PreToolUse"@).len() + 1,
    ensures
        s[i2] == '"',
        json::entries_at(s, i2) == Some(
            (seq![("hookEventName"@, ValueView::String("PreToolUse"@))] + rest, end),
        ),
{
    let k2 = "hookEventName"@;
    let v2 = "PreToolUse"@;
    lemma_opening_quote(s, i2, k2, seq![':']);
    lemma_opening_quote(s, j2, v2, seq![]);
    json::lemma_encoded_string_reads_back(s, j2, v2);
    json::lemma_entry_reads_back(s, i2, k2, ValueView::String(v2), i3 - 1);
    json::lemma_more_entries_read_back(s, i2, k2, ValueView::String(v2), i3 - 1, rest, end);
}

/// The part of a hook response that holds the decision reads back, in front of
/// the updated input.
proof fn lemma_decision_reads_back(
    s: Seq<char>,
    i3: int,
    j3: int,
    i4: int,
    input: ValueView,
    end: int,
)
    requires
        0 <= i3,
        i4 <= s.len(),
        s[i4 - 1] == ',',
        s[i4] == '"',
        json::stands_at(s, i3, encode_view("permissionDecision"@) + seq![':']),
        json::stands_at(s, j3, encode_view("ask"@)),
        json::entries_at(s, i4) == Some((seq![("updatedInput"@, input)], end)),
        j3 == i3 + encode_view("permissionDecision"@).len() + 1,
        i4 == j3 + encode_view("ask"@).len() + 1,
    ensures
        json::entries_at(s, i3) == Some(
            (
                seq![("permissionDecision"@, ValueView::String("ask"@))] + seq![
                    ("updatedInput"@, input),
                ],
                end,
            ),
        ),
{
    let k3 = "permissionDecision"@;
    let v3 = "ask"@;
    lemma_opening_quote(s, i3, k3, seq![':']);
    lemma_opening_quote(s, j3, v3, seq![]);
    json::lemma_encoded_string_reads_back(s, j3, v3);
    json::lemma_entry_reads_back(s, i3, k3, ValueView::String(v3), i4 - 1);
    json::lemma_more_entries_read_back(
        s,
        i3,
        k3,
        ValueView::String(v3),
        i4 - 1,
        seq![("updatedInput"@, input)],
        end,
    );
}

/// The part of a hook response that holds the command reads back.
proof fn lemma_input_reads_back(
    s: Seq<char>,
    cmd: Seq<char>,
    i4: int,
    i5: int,
    j5: int,
    e5: int,
)
    requires
        0 <= i4,
        s.len() == e5 + 3,
        s[i5 - 1] == '{',
        s[e5] == '}' && s[e5 + 1] == '}',
        json::stands_at(s, i4, encode_view("updatedInput"@) + seq![':']),
        json::stands_at(s, i5, encode_view("command"@) + seq![':']),
        json::stands_at(s, j5, encode_view(cmd)),
        i5 == i4 + encode_view("updatedInput"@).len() + 2,
        j5 == i5 + encode_view("command"@).len() + 1,
        e5 == j5 + encode_view(cmd).len(),
    ensures
        json::entries_at(s, i4) == Some(
            (
                seq![("updatedInput"@, only_entry("command"@, ValueView::String(cmd)))],
                e5 + 2,
            ),
        ),
{
    let k4 = "updatedInput"@;
    let k5 = "command"@;
    lemma_opening_quote(s, i4, k4, seq![':']);
    lemma_opening_quote(s, i5, k5, seq![':']);
    lemma_opening_quote(s, j5, cmd, seq![]);
    json::lemma_encoded_string_reads_back(s, j5, cmd);
    json::lemma_entry_reads_back(s, i5, k5, ValueView::String(cmd), e5);
    json::lemma_last_entry_reads_back(s, i5, k5, ValueView::String(cmd), e5);
    json::lemma_object_reads_back(s, i5 - 1, seq![(k5, ValueView::String(cmd))], e5 + 1);
    let inner = only_entry(k5, ValueView::String(cmd));
    json::lemma_entry_reads_back(s, i4, k4, inner, e5 + 1);
    json::lemma_last_entry_reads_back(s, i4, k4, inner, e5 + 1);
}

/// A string literal starts with a quote.
proof fn lemma_opening_quote(s: Seq<char>, i: int, t: Seq<char>, rest: Seq<char>)
    requires
        json::stands_at(s, i, encode_view(t) + rest) || (rest.len() == 0 && json::stands_at(
            s,
            i,
            encode_view(t),
        )),
    ensures
        s[i] == '"',
        encode_view(t).len() >= 2,
        i + encode_view(t).len() <= s.len(),
{
    if rest.len() == 0 {
        assert(encode_view(t) + rest =~= encode_view(t));
    }
    let all = encode_view(t) + rest;
    assert(all[0] == '"');
    assert(all[0] == s[i + 0]);
}

/// A string of plain characters is written between quotes as it is.
proof fn lemma_plain_string(t: Seq<char>)
    requires
        forall|i: int| 0 <= i < t.len() ==> json::escape_view(#[trigger] t[i]) == seq![t[i]],
    ensures
        encode_view(t) == seq!['"'] + t + seq!['"'],
{
    json::lemma_plain_escapes(t);
}

/// The head of a hook response, part by part.
proof fn lemma_envelope_parts()
    ensures
        envelope_head() == seq!['{'] + (encode_view("hookSpecificOutput"@) + seq![':']) + seq!['{']
            + (encode_view("hookEventName"@) + seq![':']) + encode_view("PreToolUse"@) + seq![',']
            + (encode_view("permissionDecision"@) + seq![':']) + encode_view("ask"@) + seq![','] + (
        encode_view("updatedInput"@) + seq![':']) + seq!['{'] + (encode_view("command"@) + seq![
            ':',
        ]),
        "}}}"@ == seq!['}', '}', '}'],
{
    reveal_strlit("hookSpecificOutput");
    reveal_strlit("hookEventName");
    reveal_strlit("PreToolUse");
    reveal_strlit("permissionDecision");
    reveal_strlit("ask");
    reveal_strlit("updatedInput");
    reveal_strlit("command");
    reveal_strlit("}}}");
    reveal_strlit(
        "{\"hookSpecificOutput\":{\"hookEventName\":\"PreToolUse\",\"permissionDecision\":\"ask\",\"updatedInput\":{\"command\":",
    );
    lemma_plain_string("hookSpecificOutput"@);
    lemma_plain_string("hookEventName"@);
    lemma_plain_string("PreToolUse"@);
    lemma_plain_string("permissionDecision"@);
    lemma_plain_string("ask"@);
    lemma_plain_string("updatedInput"@);
    lemma_plain_string("command"@);
    assert("}}}"@ =~= seq!['}', '}', '}']);
    assert(envelope_head() =~= seq!['{'] + (encode_view("hookSpecificOutput"@) + seq![':']) + seq![
        '{',
    ] + (encode_view("hookEventName"@) + seq![':']) + encode_view("PreToolUse"@) + seq![','] + (
    encode_view("permissionDecision"@) + seq![':']) + encode_view("ask"@) + seq![','] + (
    encode_view("updatedInput"@) + seq![':']) + seq!['{'] + (encode_view("command"@) + seq![':']));
}

} // verus!
