use fmt_rs::lexer;
use fmt_rs::parser::parse;
use fmt_rs::printer;

/// Full pipeline: tokenize → parse → print, at width 80.
fn fmt(src: &str) -> String {
    let toks = lexer::tokenize(src).expect("lex");
    let file = parse(src, &toks).expect("parse");
    printer::format(&file, 80)
}

fn parses(src: &str) -> bool {
    match lexer::tokenize(src) {
        Ok(toks) => parse(src, &toks).is_ok(),
        Err(_) => false,
    }
}

#[test]
fn parser_simple_command_with_redirects() {
    assert_eq!(fmt("ls  -la   /tmp   >/dev/null   2>&1"), "ls -la /tmp >/dev/null 2>&1\n");
}

#[test]
fn assignment_prefix_is_a_word() {
    assert_eq!(fmt("FOO=bar  ./run.sh"), "FOO=bar ./run.sh\n");
}

#[test]
fn and_or_pipe_precedence() {
    // a | b && c  ⇒  (a | b) && c
    assert_eq!(fmt("a|b&&c"), "a | b && c\n");
}

#[test]
fn semicolons_split_into_lines() {
    assert_eq!(fmt("x=1;   y=2 ;  echo done"), "x=1\ny=2\necho done\n");
}

#[test]
fn parser_for_loop_inline() {
    assert_eq!(
        fmt("for i in 1 2 3; do echo \"iteration $i\" ; done"),
        "for i in 1 2 3; do echo \"iteration $i\"; done\n"
    );
}

#[test]
fn if_inline() {
    assert_eq!(
        fmt("if [ \"$x\" -lt \"$y\" ]; then echo   \"x is smaller\" ; fi"),
        "if [ \"$x\" -lt \"$y\" ]; then echo \"x is smaller\"; fi\n"
    );
}

#[test]
fn opaque_test_clause_preserved_verbatim() {
    assert_eq!(fmt("[[ -f x && $y == *.json ]] && cat x"), "[[ -f x && $y == *.json ]] && cat x\n");
}

#[test]
fn opaque_arith_command_preserved_verbatim() {
    assert_eq!(fmt("(( count++ ))"), "(( count++ ))\n");
}

#[test]
fn subshell_and_block() {
    assert_eq!(fmt("(cd /tmp && ls)"), "(cd /tmp && ls)\n");
    assert_eq!(fmt("{ a; b; }"), "{\n  a\n  b\n}\n");
}

#[test]
fn cmdsubst_word_preserved() {
    assert_eq!(fmt("echo $(git rev-parse HEAD)"), "echo $(git rev-parse HEAD)\n");
}

#[test]
fn the_progress_seed_case() {
    let input = "x=1;   y=2 ;  for i in 1 2 3; do echo \"iteration $i\" ; done ;   if [ \"$x\" -lt \"$y\" ]; then echo   \"x is smaller\" ; fi ;  ls -la /tmp  >/dev/null   2>&1 ;   echo    \"all done\"";
    let expected = "x=1\ny=2\nfor i in 1 2 3; do echo \"iteration $i\"; done\nif [ \"$x\" -lt \"$y\" ]; then echo \"x is smaller\"; fi\nls -la /tmp >/dev/null 2>&1\necho \"all done\"\n";
    assert_eq!(fmt(input), expected);
}

#[test]
fn long_chain_wraps_at_width() {
    let toks = lexer::tokenize("aaaaa && bbbbb && ccccc && ddddd").unwrap();
    let file = parse("aaaaa && bbbbb && ccccc && ddddd", &toks).unwrap();
    assert_eq!(
        printer::format(&file, 12),
        "aaaaa &&\n  bbbbb &&\n  ccccc &&\n  ddddd\n"
    );
}

#[test]
fn bail_on_function_declaration() {
    assert!(!parses("foo() { echo hi; }"));
}

#[test]
fn bail_on_case() {
    assert!(!parses("case $x in a) echo a;; esac"));
}

#[test]
fn bail_on_heredoc() {
    assert!(!parses("cat <<EOF\nhi\nEOF"));
}
