//! Formatting keeps the tree of a command, and formatting twice is formatting
//! once.

use vstd::multiset::*;
use vstd::prelude::*;
use vstd::string::*;
use vstd::utf8::*;
use crate::ascii;
use crate::ast::FileView;
use crate::doc::pretty_view;
use crate::format::{HOOK_NOOP, format_command_view, has_comment, hook_command, hook_view,
    same_words_view, strip_newline, try_format_view, words_of};
use crate::image::{lemma_file_good, lemma_sealed_without_heredocs, wordy};
use crate::json;
use crate::json::ValueView;
use crate::lexer::{TokenView, has_heredoc, is_heredoc_op, law_bodies_are_flushed, law_tokens_wf,
    lex_view, token_wf};
use crate::parser::{Input, parse_view};
use crate::printer::{file_view, format_view};
use crate::readback::{lemma_file_reads_back, printed};
use crate::reading::{lemma_word_bytes, word_text};
use crate::reparse::lemma_text_bytes;
use crate::stable::{clean, tokenized};
use crate::text::{lemma_encode_add, slice_chars};
use crate::untouched::lemma_no_heredoc;

verus! {

/// Formatting never changes the structure of a command: what it prints parses,
/// into the same tree as the command.
pub proof fn law_formatting_keeps_the_tree(input: Seq<char>, width: int)
    requires
        try_format_view(input, width) is Some,
    ensures
        ({
            let out = format_command_view(input, width);
            &&& lex_view(encode_utf8(out)) is Ok
            &&& parse_view(out, lex_view(encode_utf8(out))->Ok_0) is Ok
            &&& parse_view(out, lex_view(encode_utf8(out))->Ok_0) == parse_view(
                input,
                lex_view(encode_utf8(input))->Ok_0,
            )
        }),
{
    let out = try_format_view(input, width)->Some_0;
    lemma_printed_tree(input, width, out);
}

/// A printed command, with the newline at the end or without it, parses into the
/// tree of the command, if it tokenizes.
proof fn lemma_printed_tree(input: Seq<char>, width: int, text: Seq<char>)
    requires
        try_format_view(input, width) is Some,
        lex_view(encode_utf8(text)) is Ok,
        printed(parse_view(input, lex_view(encode_utf8(input))->Ok_0)->Ok_0, width, text),
    ensures
        parse_view(text, lex_view(encode_utf8(text))->Ok_0) == parse_view(
            input,
            lex_view(encode_utf8(input))->Ok_0,
        ),
{
    let out = try_format_view(input, width)->Some_0;
    let toks = lex_view(encode_utf8(input))->Ok_0;
    let n = Input { src: input, toks };
    let f = parse_view(input, toks)->Ok_0;
    let m = Input { src: text, toks: lex_view(encode_utf8(text))->Ok_0 };
    lemma_tokenized(input);
    lemma_tokenized(text);
    lemma_clean(input);
    lemma_no_heredoc(n);
    assert(!has_heredoc(toks, toks.len() as int)) by {
        assert forall|x: int| 0 <= x < toks.len() implies !is_heredoc_op(
            (#[trigger] toks[x]).kind,
        ) by {
            assert(n.kind(x) == toks[x].kind);
        }
    }
    lemma_sealed_without_heredocs(n);
    lemma_output_end(f, width);
    lemma_wordy(input, out);
    lemma_file_good(n);
    lemma_file_reads_back(n, m, f, width);
}

/// Formatting is a fixed point: formatting the output again yields the same
/// output.
pub proof fn law_formatting_is_idempotent(input: Seq<char>, width: int)
    ensures
        format_command_view(format_command_view(input, width), width) == format_command_view(
            input,
            width,
        ),
{
    if try_format_view(input, width) is Some {
        law_formatting_keeps_the_tree(input, width);
    }
}

/// The hook does not ask about the same command twice: a command that is already
/// formatted, or that the hook has shown, falls through.
pub proof fn law_formatted_commands_fall_through(
    input: Seq<char>,
    width: int,
    raw: Seq<char>,
    payload: ValueView,
    command: Seq<char>,
)
    requires
        json::parse_view(raw) == Some(payload),
        hook_command(payload) == Some(command),
        ({
            ||| command == format_command_view(input, width)
            ||| {
                &&& try_format_view(input, width) is Some
                &&& command == pretty_view(
                    width,
                    file_view(parse_view(input, lex_view(encode_utf8(input))->Ok_0)->Ok_0),
                )
            }
        }),
    ensures
        hook_view(raw, width) == HOOK_NOOP@,
{
    if command == format_command_view(input, width) {
        law_formatting_is_idempotent(input, width);
    } else {
        let f = parse_view(input, lex_view(encode_utf8(input))->Ok_0)->Ok_0;
        if lex_view(encode_utf8(command)) is Ok {
            lemma_printed_tree(input, width, command);
        }
        let out = format_view(f, width);
        assert(out == command || strip_newline(out) == command) by {
            if out != command {
                assert(out.drop_last() =~= command);
            }
        }
    }
}

/// A text with its tokens.
pub proof fn lemma_tokenized(src: Seq<char>)
    requires
        lex_view(encode_utf8(src)) is Ok,
    ensures
        tokenized(Input { src, toks: lex_view(encode_utf8(src))->Ok_0 }),
{
    encode_utf8_valid_utf8(src);
    law_tokens_wf(encode_utf8(src));
    law_bodies_are_flushed(encode_utf8(src));
    reveal(tokenized);
}

/// A text without comments.
pub proof fn lemma_clean(src: Seq<char>)
    requires
        lex_view(encode_utf8(src)) is Ok,
        !has_comment(lex_view(encode_utf8(src))->Ok_0),
    ensures
        clean(Input { src, toks: lex_view(encode_utf8(src))->Ok_0 }),
{
    lemma_tokenized(src);
    reveal(clean);
    let toks = lex_view(encode_utf8(src))->Ok_0;
    assert forall|x: int| 0 <= x < toks.len() implies (#[trigger] toks[x]).kind !is Comment by {
        if toks[x].kind is Comment {
            assert(has_comment(toks));
        }
    }
}

/// A formatted file ends in a newline.
proof fn lemma_output_end(f: FileView, width: int)
    ensures
        ({
            let b = encode_utf8(format_view(f, width));
            b.len() > 0 ==> b[b.len() - 1] == ascii::NEWLINE
        }),
{
    let out = format_view(f, width);
    let b = encode_utf8(out);
    if out.len() > 0 {
        let front = out.drop_last();
        let nl = seq!['\n'];
        assert(out =~= front + nl);
        lemma_encode_add(front, nl);
        assert(is_ascii_chars(nl));
        is_ascii_chars_encode_utf8(nl);
        assert(nl[0] as u8 == encode_utf8(nl)[0]);
    }
}

/// A word token is one of the words.
proof fn lemma_word_listed(src: Seq<char>, toks: Seq<TokenView>, i: int)
    requires
        0 <= i < toks.len(),
        toks[i].kind is Word,
    ensures
        words_of(src, toks).contains(slice_chars(src, toks[i].start, toks[i].end)),
    decreases toks.len(),
{
    let w = slice_chars(src, toks[i].start, toks[i].end);
    let front = toks.drop_last();
    if i == toks.len() - 1 {
        assert(words_of(src, toks).last() == w);
    } else {
        lemma_word_listed(src, front, i);
        let k = choose|k: int| 0 <= k < words_of(src, front).len() && words_of(src, front)[k] == w;
        assert(words_of(src, toks)[k] == w);
    }
}

/// One of the words is that of a word token.
proof fn lemma_listed_word(src: Seq<char>, toks: Seq<TokenView>, w: Seq<char>) -> (i: int)
    requires
        words_of(src, toks).contains(w),
    ensures
        0 <= i < toks.len(),
        toks[i].kind is Word,
        slice_chars(src, toks[i].start, toks[i].end) == w,
    decreases toks.len(),
{
    let words = words_of(src, toks);
    let k = choose|k: int| 0 <= k < words.len() && words[k] == w;
    let front = toks.drop_last();
    if toks.last().kind is Word && k == words.len() - 1 {
        toks.len() - 1
    } else {
        assert(words_of(src, front)[k] == w);
        lemma_listed_word(src, front, w)
    }
}

/// Each word of a command that formatting keeps is read as one word by itself:
/// it is a word of the output, where something stands behind it.
proof fn lemma_wordy(input: Seq<char>, out: Seq<char>)
    requires
        same_words_view(input, out),
        ({
            let b = encode_utf8(out);
            b.len() > 0 ==> b[b.len() - 1] == ascii::NEWLINE
        }),
    ensures
        wordy(Input { src: input, toks: lex_view(encode_utf8(input))->Ok_0 }),
{
    broadcast use vstd::seq_lib::group_to_multiset_ensures;

    let toks = lex_view(encode_utf8(input))->Ok_0;
    let toks2 = lex_view(encode_utf8(out))->Ok_0;
    let n = Input { src: input, toks };
    let m = Input { src: out, toks: toks2 };
    lemma_tokenized(out);
    assert forall|i: int| 0 <= i < n.toks.len() && #[trigger] n.toks[i].kind is Word implies word_text(
        n.text(i),
    ) by {
        let w = n.text(i);
        lemma_word_listed(input, toks, i);
        assert(words_of(input, toks).to_multiset().count(w) > 0);
        assert(words_of(out, toks2).contains(w));
        let j = lemma_listed_word(out, toks2, w);
        lemma_word_alone(m, j);
    }
}

/// A word that something stands behind is read as one word by itself.
proof fn lemma_word_alone(m: Input, j: int)
    requires
        tokenized(m),
        0 <= j < m.toks.len(),
        m.toks[j].kind is Word,
        ({
            let b = encode_utf8(m.src);
            b.len() > 0 ==> b[b.len() - 1] == ascii::NEWLINE
        }),
    ensures
        word_text(m.text(j)),
{
    let b = encode_utf8(m.src);
    assert(j < m.toks.len() - 1 && token_wf(b, m.toks[j])) by {
        reveal(tokenized);
    }
    lemma_text_bytes(m, j);
    lemma_word_bytes(b, m.toks[j].start, m.toks[j].end);
}

} // verus!
