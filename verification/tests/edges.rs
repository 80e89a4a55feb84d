use fmt_rs::ast::{BinCmdOperator, Lit, Pos, RedirOperator, Word, WordPart};
use fmt_rs::format::{format_command, hook_response, same_words, HOOK_NOOP};
use fmt_rs::json;
use fmt_rs::json::Value;
use fmt_rs::lexer::{scan_parens, scan_word, tokenize, Op, TokKind};
use fmt_rs::parser::parse;
use fmt_rs::text::{bytes_eq, is_blank, is_white_space, str_eq};
use fmt_rs::width::width_from;

fn lex_error(src: &str) -> (&'static str, usize) {
    let e = tokenize(src).unwrap_err();
    (e.message, e.offset)
}

fn parse_error(src: &str) -> (&'static str, usize) {
    let toks = tokenize(src).unwrap();
    let e = parse(src, &toks).unwrap_err();
    (e.message, e.offset)
}

#[test]
fn every_lexer_error() {
    assert_eq!(lex_error("a 'b"), ("unterminated single quote", 2));
    assert_eq!(lex_error("a \"b"), ("unterminated double quote", 2));
    assert_eq!(lex_error("a `b"), ("unterminated backquote", 2));
    assert_eq!(lex_error("a $(b"), ("unterminated parenthesis", 3));
    assert_eq!(lex_error("a ${b"), ("unterminated parameter expansion", 2));
    assert_eq!(lex_error("cat <<\nx"), ("here-document without delimiter", 7));
    assert_eq!(lex_error("cat <<E\nx"), ("unterminated here-document", 8));
    assert_eq!(lex_error("cat <<E"), ("unterminated here-document", 7));
    assert_eq!(lex_error("echo $[a<b] x"), ("unsupported expansion (bail)", 5));
    assert_eq!(lex_error("echo \"${ a; }\""), ("unsupported expansion (bail)", 6));
    assert_eq!(lex_error("echo x${| a; }"), ("unsupported expansion (bail)", 6));
    let e = scan_parens(b"x", 0).unwrap_err();
    assert_eq!((e.message, e.offset), ("expected '('", 0));
}

#[test]
fn a_lexer_error_in_words() {
    let e = tokenize("ab 'c").unwrap_err();
    assert_eq!(e.to_string(), "lex error at byte 3: unterminated single quote");
}

#[test]
fn every_parser_error() {
    assert_eq!(parse_error("a )"), ("unexpected token", 2));
    assert_eq!(parse_error("(a) b"), ("unexpected token", 4));
    assert_eq!(parse_error("{ a; } 2 >f"), ("unexpected token", 7));
    assert_eq!(parse_error("a; done"), ("unexpected token", 3));
    assert_eq!(parse_error(">f if"), ("unexpected token", 3));
    assert_eq!(parse_error(">f ! a"), ("unexpected token", 3));
    assert_eq!(parse_error("a ()"), ("function declaration (bail)", 0));
    assert_eq!(parse_error("a b ()"), ("unexpected token", 4));
    assert_eq!(parse_error("{ a; ;"), ("expected keyword", 6));
    assert_eq!(parse_error("if a; b; fi"), ("unexpected token", 9));
    assert_eq!(parse_error("if a; b; "), ("expected keyword", 9));
    assert_eq!(parse_error("a && && b"), ("expected a command", 5));
    assert_eq!(parse_error("a >"), ("redirection without target", 3));
    assert_eq!(parse_error("a <<E\nE\n"), ("here-document (bail)", 2));
    assert_eq!(parse_error("{ a; } <<E\nE\n"), ("here-document (bail)", 7));
    assert_eq!(parse_error("[[ a <<E\nE\n]]"), ("here-document (bail)", 5));
    assert_eq!(parse_error("(( a <<E\nE\n))"), ("here-document (bail)", 5));
    assert_eq!(parse_error("f() { a; }"), ("function declaration (bail)", 0));
    assert_eq!(parse_error("case x in esac"), ("unsupported construct (bail)", 0));
    assert_eq!(parse_error("for ((i=0;;)); do a; done"), ("C-style for loop (bail)", 4));
    assert_eq!(parse_error("for ; do a; done"), ("expected loop variable", 4));
    assert_eq!(parse_error("(a"), ("unterminated subshell", 2));
    assert_eq!(parse_error("[[ a"), ("unterminated [[ ]]", 4));
    assert_eq!(parse_error("((a)"), ("unbalanced (( ))", 0));
}

#[test]
fn scanners_stop_at_the_end_of_what_they_scan() {
    assert_eq!(scan_word(b"ab$(c d)e f", 0), Ok(9));
    assert_eq!(scan_word(b"a\\ b c", 0), Ok(4));
    assert_eq!(scan_word(b"@(a|b) c", 0), Ok(6));
    assert_eq!(scan_word(b"$'a\\'  b'c d", 0), Ok(10));
    assert_eq!(scan_word(b"'a\\'  b", 0), Ok(4));
    assert_eq!(scan_word(b"$$'a\\' b", 0), Ok(6));
    assert_eq!(scan_word(b"$$(a b)c d", 0), Ok(8));
    assert_eq!(scan_word(b"$${a b}c d", 0), Ok(8));
    assert_eq!(scan_word(b"$$ a", 0), Ok(2));
    assert_eq!(scan_word(b"$$a b", 0), Ok(3));
    assert_eq!(scan_word(b"\"$'\" b", 0), Ok(4));
    assert_eq!(scan_parens(b"(a ')' \"$(b)\") c", 0), Ok(14));
}

#[test]
fn a_heredoc_delimiter_can_be_any_text() {
    let src = "cat <<é\nbody\né\n";
    let toks = tokenize(src).unwrap();
    assert_eq!(toks[1].hdoc_body.as_deref(), Some("body\n"));
    let src = "cat <<'a b'\\c\nx\na bc\n";
    let toks = tokenize(src).unwrap();
    assert_eq!(toks[1].hdoc_body.as_deref(), Some("x\n"));
}

#[test]
fn tokens_know_their_line_and_column() {
    let toks = tokenize("a\n  é b").unwrap();
    let at: Vec<(u32, u32)> = toks.iter().map(|t| (t.line, t.col)).collect();
    assert_eq!(at[0], (1, 1));
    assert_eq!(at[1], (1, 2));
    assert_eq!(at[2], (2, 3));
    assert_eq!(toks[3].kind, TokKind::Word);
}

#[test]
fn white_space_is_what_unicode_says() {
    for u in 0..=0x10ffffu32 {
        if let Some(c) = char::from_u32(u) {
            assert_eq!(is_white_space(c), c.is_whitespace(), "{u:x}");
        }
    }
    assert!(is_blank(" \t\u{3000}"));
    assert!(!is_blank(" x "));
    assert!(is_blank(""));
}

#[test]
fn strings_compare_by_their_bytes() {
    assert!(str_eq("é", "é"));
    assert!(!str_eq("é", "e\u{301}"));
    assert!(!str_eq("ab", "abc"));
    assert!(bytes_eq(b"ab", b"ab"));
    assert!(!bytes_eq(b"ab", b"ac"));
}

#[test]
fn unicode_escapes_become_characters() {
    assert_eq!(json::parse("\"\\u00e9\""), Ok(Value::String("é".to_string())));
    assert_eq!(json::parse("\"\\ud83d\\ude00\""), Ok(Value::String("😀".to_string())));
    assert_eq!(json::parse("\"\\uD83D\""), Err(()));
    assert_eq!(json::parse("\"\\ude00\""), Err(()));
    assert_eq!(json::parse("\"\\ud83dx\""), Err(()));
    assert_eq!(json::parse("\"\\u12g4\""), Err(()));
}

#[test]
fn control_characters_are_escaped() {
    assert_eq!(json::encode_string("a\u{1}\"\\\n"), "\"a\\u0001\\\"\\\\\\n\"");
    assert_eq!(json::encode_string("é"), "\"é\"");
}

#[test]
fn malformed_json_is_refused() {
    for s in ["", " ", "{", "[1,]", "{\"a\"}", "{\"a\":}", "01x", "tru", "\"a", "1 2", "{,}", "\"\n\""] {
        assert_eq!(json::parse(s), Err(()), "{s:?}");
    }
}

#[test]
fn numbers_follow_the_grammar() {
    for s in ["-", "01", "1.2.3", "-01", "1.", ".5", "+1", "1e", "1e+", "1E-", "--1", "1-2", "0x1", "1e1.5"] {
        assert_eq!(json::parse(s), Err(()), "{s:?}");
    }
    for s in ["0", "-0", "10", "-12.50", "0.0", "1e5", "1E+05", "-2.5e-10"] {
        assert_eq!(json::parse(s), Ok(Value::Number(s.to_string())), "{s:?}");
    }
    assert_eq!(
        json::parse("[0,1]"),
        Ok(Value::Array(vec![Value::Number("0".to_string()), Value::Number("1".to_string())]))
    );
}

#[test]
fn the_first_of_two_equal_keys_counts() {
    let v = json::parse("{\"a\":\"x\",\"a\":\"y\"}").unwrap();
    assert_eq!(v.get("a").unwrap().as_str(), Some("x"));
    assert_eq!(v.get("b"), None);
    assert_eq!(Value::Null.get("a"), None);
    assert_eq!(Value::Bool(true).as_str(), None);
}

#[test]
fn a_trailing_newline_is_no_change_for_the_hook() {
    let same = "{\"tool_name\":\"Bash\",\"tool_input\":{\"command\":\"ls -la\\n\"}}";
    assert_eq!(hook_response(same, 80), HOOK_NOOP);
    let other = "{\"tool_name\":\"Bash\",\"tool_input\":{\"command\":\"ls  -la\\n\"}}";
    assert!(hook_response(other, 80).contains("\"command\":\"ls -la\""));
}

#[test]
fn words_are_compared_as_a_multiset() {
    assert!(same_words("a b c", "c  b;a"));
    assert!(!same_words("a a b", "a b b"));
    assert!(!same_words("a b", "a b b"));
    assert!(!same_words("a 'b", "a 'b"));
}

#[test]
fn narrow_and_negative_widths_still_format() {
    assert_eq!(format_command("a && b", 0), "a &&\n  b\n");
    assert_eq!(format_command("a && b", -1), "a &&\n  b\n");
    assert_eq!(format_command("a && b", 6), "a && b\n");
    assert_eq!(format_command("a && b", 5), "a &&\n  b\n");
}

#[test]
fn bodies_of_one_statement_stay_inline() {
    assert_eq!(format_command("{ a;}", 80), "{ a; }\n");
    assert_eq!(format_command("{ a;b;}", 80), "{\n  a\n  b\n}\n");
    assert_eq!(format_command("if a;then b;fi", 80), "if a; then b; fi\n");
    assert_eq!(format_command("while a;do b;done", 80), "while a; do b; done\n");
    assert_eq!(format_command("until a;do b;done", 80), "until a; do b; done\n");
    assert_eq!(format_command("for x;do b;done", 80), "for x; do b; done\n");
    assert_eq!(format_command("for x in;do b;done", 80), "for x in ; do b; done\n");
    assert_eq!(
        format_command("if a;then b;elif c;then d;else e;fi", 80),
        "if a; then\n  b\nelif c; then\n  d\nelse\n  e\nfi\n"
    );
}

#[test]
fn background_statements_keep_their_sign() {
    assert_eq!(format_command("a&b&", 80), "a &\nb &\n");
    assert_eq!(format_command("(a&b)", 80), "(a & b)\n");
    assert_eq!(format_command("! a|b", 80), "! a | b\n");
}

#[test]
fn nothing_but_a_blank_stands_behind_a_background_sign() {
    assert_eq!(format_command("for i in 1 2; do f $i & done", 80), "for i in 1 2; do f $i & done\n");
    assert_eq!(format_command("for i in 1 2; do f $i & done", 20), "for i in 1 2; do\n  f $i &\ndone\n");
    assert_eq!(format_command("{ a& }", 80), "{ a & }\n");
    assert_eq!(format_command("if a& then b& fi", 80), "if a & then b & fi\n");
    assert_eq!(format_command("while a&b& do c& d& done", 80), "while a & b & do\n  c &\n  d &\ndone\n");
    assert_eq!(
        format_command("if a;then b& elif c& then d& else e& fi", 80),
        "if a; then\n  b &\nelif c & then\n  d &\nelse\n  e &\nfi\n"
    );
    for src in ["(a&b;c&)", "{ a& }", "if a& then b& fi", "while a&b& do c& done"] {
        for width in [0, 80] {
            let toks = tokenize(&format_command(src, width)).unwrap();
            assert!(toks.windows(2).all(|t| t[0].kind != TokKind::Op(Op::Amp)
                || t[1].kind != TokKind::Op(Op::Semi)));
        }
    }
}

#[test]
fn statements_need_a_separator() {
    for src in ["(a)  b", "{ a; }  b", "if a; then b; fi  c", "((a))  b", "[[ a ]]  b", "a  (b)"] {
        assert_eq!(format_command(src, 80), src);
    }
    assert_eq!(format_command("if (a) then b;fi", 80), "if (a); then b; fi\n");
    assert_eq!(format_command("{ (a) }", 80), "{ (a); }\n");
}

#[test]
fn a_compound_command_keeps_its_file_descriptors() {
    assert_eq!(format_command("(a)  2>f", 80), "(a) 2>f\n");
    assert_eq!(format_command("{ a;} >f 2>&1", 80), "{ a; } >f 2>&1\n");
    assert_eq!(format_command("[[ a ]]  {x}<f", 80), "[[ a ]] {x}<f\n");
    assert_eq!(format_command("(a)  2 >f", 80), "(a)  2 >f");
}

#[test]
fn the_words_of_a_for_end_with_the_line() {
    assert_eq!(
        format_command("for x in do re;do echo $x;done", 80),
        "for x in do re; do echo $x; done\n"
    );
    assert_eq!(format_command("for x in a do\ndo b; done", 80), "for x in a do; do b; done\n");
    assert_eq!(format_command("for x in  a do b; done", 80), "for x in  a do b; done");
}

#[test]
fn only_names_and_numbers_are_file_descriptors() {
    assert_eq!(format_command("echo {a,b}>f c", 80), "echo {a,b} c >f\n");
    assert_eq!(format_command("echo {a_1}>f c", 80), "echo c {a_1}>f\n");
    assert_eq!(format_command("echo {1a}>f c", 80), "echo {1a} c >f\n");
    assert_eq!(format_command("echo {a[$i]}>f c", 80), "echo c {a[$i]}>f\n");
    assert_eq!(format_command("echo {[1]}>f c", 80), "echo {[1]} c >f\n");
    assert_eq!(format_command("echo {}>f c", 80), "echo {} c >f\n");
    assert_eq!(format_command("a 2&>f b", 80), "a 2 b &>f\n");
}

#[test]
fn redirections_follow_the_words() {
    assert_eq!(format_command(">f a 2>&1 b", 80), "a b >f 2>&1\n");
    assert_eq!(format_command("a 2 >f", 80), "a 2 >f\n");
    assert_eq!(format_command("a 2>f", 80), "a 2>f\n");
    assert_eq!(format_command(">f", 80), " >f\n");
}

#[test]
fn literal_words_join_their_parts() {
    let p = Pos::new(3, 1, 4);
    let lit = |s: &str| WordPart::Lit(Lit { value_pos: p, value_end: p, value: s.to_string() });
    assert_eq!(Word { parts: vec![lit("a"), lit("b")] }.lit(), "ab");
    assert_eq!(Word { parts: vec![] }.lit(), "");
    assert!(p.is_valid() && !Pos::default().is_valid());
    assert!(p.after(Pos::default()) && !p.after(p));
}

#[test]
fn operators_know_their_spelling() {
    assert_eq!(BinCmdOperator::PipeAll.as_str(), "|&");
    assert_eq!(RedirOperator::AppAll.as_str(), "&>>");
    assert_eq!(RedirOperator::WordHdoc.to_string(), "<<<");
}

#[test]
fn a_width_is_a_positive_number() {
    assert_eq!(width_from(None), 80);
    assert_eq!(width_from(Some("40")), 40);
    assert_eq!(width_from(Some(" +120\n")), 120);
    assert_eq!(width_from(Some("0")), 80);
    assert_eq!(width_from(Some("-5")), 80);
    assert_eq!(width_from(Some("")), 80);
    assert_eq!(width_from(Some("+")), 80);
    assert_eq!(width_from(Some("4 0")), 80);
    assert_eq!(width_from(Some("007")), 7);
    assert_eq!(width_from(Some("99999999999999999999")), 80);
    assert_eq!(width_from(Some(&isize::MAX.to_string())), isize::MAX);
}
