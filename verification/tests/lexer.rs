use fmt_rs::lexer::{tokenize, Op, TokKind};

/// Returns (kind, text) pairs excluding the trailing Eof.
fn toks(src: &str) -> Vec<(TokKind, String)> {
    tokenize(src)
        .unwrap()
        .into_iter()
        .filter(|t| t.kind != TokKind::Eof)
        .map(|t| (t.kind, src[t.start..t.end].to_string()))
        .collect()
}

fn kinds(src: &str) -> Vec<TokKind> {
    toks(src).into_iter().map(|(k, _)| k).collect()
}

fn words(src: &str) -> Vec<String> {
    toks(src)
        .into_iter()
        .filter(|(k, _)| *k == TokKind::Word)
        .map(|(_, s)| s)
        .collect()
}

#[test]
fn simple_command() {
    assert_eq!(words("ls -la /tmp"), ["ls", "-la", "/tmp"]);
}

#[test]
fn operators_and_pipes() {
    assert_eq!(
        kinds("a && b | c"),
        [
            TokKind::Word,
            TokKind::Op(Op::AndIf),
            TokKind::Word,
            TokKind::Op(Op::Pipe),
            TokKind::Word,
        ]
    );
}

#[test]
fn redirections() {
    assert_eq!(
        toks("cmd >out 2>&1"),
        [
            (TokKind::Word, "cmd".into()),
            (TokKind::Op(Op::Great), ">".into()),
            (TokKind::Word, "out".into()),
            (TokKind::Word, "2".into()),
            (TokKind::Op(Op::GreatAnd), ">&".into()),
            (TokKind::Word, "1".into()),
        ]
    );
}

#[test]
fn quotes_are_single_words() {
    assert_eq!(words("echo \"a b\" 'c d'"), ["echo", "\"a b\"", "'c d'"]);
}

#[test]
fn command_substitution_is_one_word() {
    assert_eq!(words("echo $(date +%s)"), ["echo", "$(date +%s)"]);
}

#[test]
fn nested_quotes_in_cmdsubst_in_dquotes() {
    assert_eq!(words("echo \"x $(foo \"y\") z\""), ["echo", "\"x $(foo \"y\") z\""]);
}

#[test]
fn adversarial_param_expansion_not_truncated() {
    // The case the scope review flagged: a `}` and `)` live inside nested
    // expansion/quotes and must NOT close the ${...} early.
    let w = words("echo ${VAR:-$(awk 'END{print NR}' f)}");
    assert_eq!(w, ["echo", "${VAR:-$(awk 'END{print NR}' f)}"]);
}

#[test]
fn array_assignment_is_one_word() {
    assert_eq!(words("arr=(1 2 3)"), ["arr=(1 2 3)"]);
}

#[test]
fn extglob_is_one_word_and_nests() {
    assert_eq!(words("ls !(*.@(jpg|png))"), ["ls", "!(*.@(jpg|png))"]);
    assert_eq!(words("cp @(a|b).txt dest"), ["cp", "@(a|b).txt", "dest"]);
    assert_eq!(words("rm *.+(tmp|bak)"), ["rm", "*.+(tmp|bak)"]);
}

#[test]
fn process_substitution_is_word_not_redirect() {
    assert_eq!(
        kinds("diff <(sort a) <(sort b)"),
        [TokKind::Word, TokKind::Word, TokKind::Word]
    );
    assert_eq!(words("diff <(sort a) <(sort b)"), ["diff", "<(sort a)", "<(sort b)"]);
}

#[test]
fn comment_detected() {
    assert_eq!(
        toks("ls # list"),
        [(TokKind::Word, "ls".into()), (TokKind::Comment, "# list".into())]
    );
}

#[test]
fn hash_inside_word_is_literal() {
    assert_eq!(words("echo a#b"), ["echo", "a#b"]);
}

#[test]
fn subshell_parens_are_operators() {
    assert_eq!(
        kinds("(a; b)"),
        [
            TokKind::Op(Op::LParen),
            TokKind::Word,
            TokKind::Op(Op::Semi),
            TokKind::Word,
            TokKind::Op(Op::RParen),
        ]
    );
}

#[test]
fn line_continuation_joins() {
    assert_eq!(words("a \\\n b"), ["a", "b"]);
}

#[test]
fn here_string_is_not_a_heredoc() {
    assert_eq!(
        toks("cmd <<<word"),
        [
            (TokKind::Word, "cmd".into()),
            (TokKind::Op(Op::TLess), "<<<".into()),
            (TokKind::Word, "word".into()),
        ]
    );
}

#[test]
fn heredoc_body_captured_and_flushed() {
    let src = "cat <<EOF\nhello\nworld\nEOF\necho done";
    let tokens = tokenize(src).unwrap();
    // The << op carries the body; the rest of the script is tokenized
    // normally (not swallowed as body).
    let dless = tokens.iter().find(|t| t.kind == TokKind::Op(Op::DLess)).unwrap();
    assert_eq!(dless.hdoc_body.as_deref(), Some("hello\nworld\n"));
    let after: Vec<String> = tokens
        .iter()
        .filter(|t| t.kind == TokKind::Word)
        .map(|t| t.text(src).to_string())
        .collect();
    assert_eq!(after, ["cat", "EOF", "echo", "done"]);
}

#[test]
fn heredoc_dash_strips_leading_tabs_for_delim_match() {
    let src = "cat <<-END\n\thi\n\tEND\n";
    let tokens = tokenize(src).unwrap();
    let d = tokens.iter().find(|t| t.kind == TokKind::Op(Op::DLessDash)).unwrap();
    assert_eq!(d.hdoc_body.as_deref(), Some("\thi\n"));
}

#[test]
fn quoted_heredoc_delimiter_matches_unquoted_line() {
    let src = "cat <<'EOF'\n$notexpanded\nEOF\n";
    let tokens = tokenize(src).unwrap();
    let d = tokens.iter().find(|t| t.kind == TokKind::Op(Op::DLess)).unwrap();
    assert_eq!(d.hdoc_body.as_deref(), Some("$notexpanded\n"));
}

#[test]
fn unterminated_quote_is_error() {
    assert!(tokenize("echo 'unclosed").is_err());
    assert!(tokenize("echo \"unclosed").is_err());
    assert!(tokenize("echo $(unclosed").is_err());
    assert!(tokenize("echo ${unclosed").is_err());
}

#[test]
fn unterminated_heredoc_is_error() {
    assert!(tokenize("cat <<EOF\nbody but no terminator\n").is_err());
}

#[test]
fn utf8_words_preserved() {
    assert_eq!(words("echo 日本語 café"), ["echo", "日本語", "café"]);
}

/// The cardinal safety invariant: for ANY input, tokenizing either fails
/// (→ caller bails) or the token slices + gaps reconstruct the input byte
/// for byte. The lexer must never silently alter or drop source bytes.
#[test]
fn corpus_round_trip_or_bail_never_corrupts() {
    let corpus = [
        "ls -la",
        "cd /tmp && grep -rn TODO . | head -20",
        "git log --oneline | head",
        "FOO=bar BAZ=qux ./run.sh >out 2>&1",
        "echo \"hello $USER, $(date +%F)\"",
        "echo ${VAR:-$(awk 'END{print NR}' file)}",
        "diff <(sort a.txt) <(sort b.txt)",
        "arr=(one 'two three' $(echo four)); echo \"${arr[@]}\"",
        "find . -name '*.rs' -exec grep -l 'unsafe' {} \\;",
        "for f in *.txt; do mv \"$f\" \"${f%.txt}.md\"; done",
        "if [ -f .env ]; then source .env; fi",
        "cat <<EOF > out.txt\nline one\nline two with ) and } and ]]\nEOF",
        "python3 <<'PY'\nprint('a' if x else 'b')\nPY",
        "tar czf - dir | ssh host 'cat > backup.tgz'",
        "echo a#b c # trailing comment",
        "x=$((1 + 2 * 3)); echo $x",
        "[[ $x == *.json && -s $x ]] && jq . \"$x\"",
        "printf '%s\\n' \"${items[@]}\"",
        "日本語=テスト; echo \"$日本語\"",
        "",
        "   ",
        "echo )))",            // unbalanced — should bail, not corrupt
        "echo 'unterminated",  // unterminated — should bail
    ];
    for src in corpus {
        match tokenize(src) {
            Err(_) => {} // bail path: safe
            Ok(tokens) => {
                let mut rebuilt = String::new();
                let mut cursor = 0;
                for t in &tokens {
                    rebuilt.push_str(&src[cursor..t.start]);
                    rebuilt.push_str(&src[t.start..t.end]);
                    cursor = t.end;
                }
                rebuilt.push_str(&src[cursor..]);
                assert_eq!(rebuilt, src, "round-trip mismatch for: {src:?}");
            }
        }
    }
}

#[test]
fn offsets_round_trip_reconstructs_source() {
    // Concatenating each token's source slice plus the gaps between them
    // must reproduce the input exactly.
    let src = "foo && bar | baz >out # c";
    let tokens = tokenize(src).unwrap();
    let mut rebuilt = String::new();
    let mut cursor = 0;
    for t in &tokens {
        rebuilt.push_str(&src[cursor..t.start]); // inter-token whitespace
        rebuilt.push_str(&src[t.start..t.end]);
        cursor = t.end;
    }
    rebuilt.push_str(&src[cursor..]);
    assert_eq!(rebuilt, src);
}
