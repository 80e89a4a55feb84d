use fmt_rs::ast::{Command, File, Loop, Pos};
use fmt_rs::doc::{pretty, Doc};
use fmt_rs::format::{format_command, hook_response, same_words, HOOK_NOOP, MAX_INPUT};
use fmt_rs::json;
use fmt_rs::json::Value;
use fmt_rs::lexer::{tokenize, Op, TokKind};
use fmt_rs::parser::parse;
use fmt_rs::printer;

const SAMPLES: [&str; 12] = [
    "ls   -la",
    "a&&b||c|d|&e&",
    "if a;then b;else c;fi",
    "for x in 1 2 3;do echo $x;done>log 2>&1",
    "while read l; do echo \"$l\"; done < f",
    "{ a; b; }; (c; d)",
    "! grep -q x f && [[ -f   f ]] && ((i  ++ ))",
    "echo 'a  b' \"c  $(d  e)\" `f  g`",
    "diff <(a  b) <(c) >| out",
    "{fd}>x cmd 2>>y <<<z",
    "a \\\n  b",
    "écho 'ünï' # ",
];

fn tree(src: &str) -> Option<File> {
    let toks = tokenize(src).ok()?;
    parse(src, &toks).ok()
}

#[test]
fn the_longest_operator_wins() {
    let spellings = [
        ("&&", Op::AndIf),
        ("||", Op::OrIf),
        ("|&", Op::PipeAmp),
        (";;&", Op::DSemiAmp),
        ("&>>", Op::AndDGreat),
        ("<<<", Op::TLess),
        (">|", Op::Clobber),
        ("<>", Op::LessGreat),
    ];
    for (text, op) in spellings {
        let toks = tokenize(text).unwrap();
        assert_eq!(toks.len(), 2, "{text}");
        assert_eq!(toks[0].kind, TokKind::Op(op), "{text}");
    }
}

#[test]
fn tokens_lie_one_after_the_other() {
    for src in SAMPLES {
        let toks = tokenize(src).unwrap();
        let mut end = 0;
        for t in &toks {
            assert!(end <= t.start && t.start <= t.end, "{src}");
            end = t.end;
        }
        let last = toks.last().unwrap();
        assert_eq!(last.kind, TokKind::Eof);
        assert_eq!((last.start, last.end), (src.len(), src.len()));
    }
}

#[test]
fn gaps_between_tokens_are_blank() {
    for src in SAMPLES {
        let mut cursor = 0;
        for t in tokenize(src).unwrap() {
            let gap = src[cursor..t.start].replace("\\\n", "");
            assert!(gap.chars().all(|c| c == ' ' || c == '\t' || c == '\r'), "{src}");
            cursor = t.end;
        }
    }
}

#[test]
fn tokens_and_gaps_make_up_the_source() {
    for src in SAMPLES {
        let mut rebuilt = String::new();
        let mut cursor = 0;
        for t in tokenize(src).unwrap() {
            rebuilt.push_str(&src[cursor..t.start]);
            rebuilt.push_str(t.text(src));
            cursor = t.end;
        }
        assert_eq!(rebuilt, src);
    }
}

fn chain() -> Doc {
    Doc::nest(
        2,
        Doc::concat(vec![
            Doc::text("aaa"),
            Doc::line(),
            Doc::text("bbb"),
            Doc::soft_line(),
            Doc::if_break(Doc::text("B"), Doc::text("F")),
        ]),
    )
}

#[test]
fn a_group_that_fits_is_flat() {
    assert_eq!(pretty(8, &Doc::group(chain())), "aaa bbbF");
}

#[test]
fn a_group_that_does_not_fit_breaks() {
    assert_eq!(pretty(7, &Doc::group(chain())), "aaa\n  bbb\n  B");
    assert_eq!(pretty(7, &Doc::group(chain())), pretty(7, &chain()));
}

#[test]
fn a_hard_line_breaks_every_group_around_it() {
    let inner = Doc::group(Doc::concat(vec![Doc::text("x"), Doc::hard_line(), Doc::text("y")]));
    let outer = Doc::concat(vec![Doc::text("a"), Doc::line(), inner]);
    assert_eq!(pretty(80, &Doc::group(outer.clone())), "a\nx\ny");
    assert_eq!(pretty(80, &Doc::group(outer.clone())), pretty(80, &outer));
}

#[test]
fn every_layout_renders_the_same_texts() {
    let ink = |s: String| s.replace([' ', '\n', 'B', 'F'], "");
    for width in [-3, 0, 1, 4, 7, 8, 80] {
        assert_eq!(ink(pretty(width, &Doc::group(chain()))), "aaabbb");
    }
}

#[test]
fn formatting_keeps_the_words() {
    for src in SAMPLES {
        let out = format_command(src, 20);
        assert!(out == src || same_words(src, &out), "{src}");
    }
}

#[test]
fn formatting_keeps_the_tree() {
    for src in SAMPLES {
        for width in [1, 20, 80] {
            let out = format_command(src, width);
            if let Some(f) = tree(src) {
                assert_eq!(tree(&out), Some(f), "{src}");
            }
        }
    }
}

#[test]
fn formatting_twice_is_formatting_once() {
    for src in SAMPLES {
        for width in [0, 10, 40, 80] {
            let once = format_command(src, width);
            assert_eq!(format_command(&once, width), once, "{src}");
        }
    }
}

#[test]
fn a_keyword_behind_a_redirection_is_untouched() {
    for cmd in [">f { a; }", ">f  if", "2>f  done", "{ >f  }; }", ">f  ! a", "<x  time a"] {
        assert_eq!(format_command(cmd, 80), cmd);
    }
    assert_eq!(format_command(">f  x", 80), "x >f\n");
}

#[test]
fn nested_subshells_stay_subshells() {
    for (cmd, out) in [
        ("( (a) )", "( (a))\n"),
        ("(  (  (a))|b)", "( ( (a)) | b)\n"),
        ("( ((a)) )", "( ((a)))\n"),
        ("( ! (a) )", "(! (a))\n"),
        ("{ ( (if a; then b; c; fi) ); }", "{\n  ( (if a; then\n    b\n    c\n  fi))\n}\n"),
    ] {
        let once = format_command(cmd, 80);
        assert_eq!(once, out);
        assert_eq!(format_command(&once, 80), once);
    }
}

#[test]
fn an_operator_that_would_run_into_its_target_is_untouched() {
    for cmd in [
        "cat  < <(a)",
        "cmd  > >(tee f)",
        "x  &> >(a)",
        "x  < >(a)",
        "cat  3< <(a) b",
        "! {  a < <(b); }",
        "(  a && b > >(c)  )",
        "if a; then b < <(c); else  d; fi",
        "if a; then  b; elif c; then d; else e > >(f); fi",
        "while a; do b; done  < <(c)",
        "while  a < <(b); do c; done",
        "for i in  a; do b > >(c); done",
    ] {
        assert_eq!(format_command(cmd, 80), cmd);
    }
}

#[test]
fn a_process_substitution_is_kept_behind_other_operators() {
    for (cmd, out) in [
        ("x > <(a)", "x ><(a)\n"),
        ("x >> >(a)", "x >>>(a)\n"),
        ("x 2>| >(a)", "x 2>|>(a)\n"),
    ] {
        let once = format_command(cmd, 80);
        assert_eq!(once, out);
        assert_eq!(format_command(&once, 80), once);
    }
}

#[test]
fn a_second_bang_is_a_word() {
    assert_eq!(format_command("! !  a", 80), "! ! a\n");
    assert_eq!(format_command("! !   a | b", 80), "! ! a | b\n");
    assert_eq!(format_command(">f  ! a", 80), ">f  ! a");
}

#[test]
fn what_two_dollars_open_is_kept() {
    assert_eq!(format_command("echo  $$(a  b)c $${a  b}", 80), "echo $$(a  b)c $${a  b}\n");
    assert_eq!(format_command("kill  $$", 80), "kill $$\n");
}

#[test]
fn blanks_in_strings_are_kept() {
    let cmd = "echo $'\\'  ' '  \\'";
    assert_eq!(format_command(cmd, 80), format!("{cmd}\n"));
}

#[test]
fn doubtful_commands_are_untouched() {
    let big = format!("echo  {}", "x".repeat(MAX_INPUT));
    for cmd in [big.as_str(), "echo  'x", "echo  x # why", "if  x"] {
        assert_eq!(format_command(cmd, 80), cmd);
    }
}

#[test]
fn here_documents_are_untouched() {
    for cmd in [
        "cat  <<EOF\nx\nEOF\n",
        "cat  <<-EOF\n\tx\n\tEOF\n",
        "a;  { cat <<E; }\nx\nE\n",
        "if  cat <<E\nx\nE\nthen b; fi",
        "{ a;  } <<E\nx\nE\n",
    ] {
        assert_eq!(format_command(cmd, 80), cmd);
    }
}

#[test]
fn a_here_document_in_an_opaque_command_is_untouched() {
    for cmd in ["((  x << 2 ))", "(( x << y\nz\ny\n))", "((x<<2))\nfoo\n2\n", "[[ a <<E\nE\n ]]  "] {
        assert_eq!(format_command(cmd, 80), cmd);
    }
}

#[test]
fn unsupported_commands_are_untouched() {
    for cmd in [
        "case  x in a) b;; esac",
        "select  x in a; do b; done",
        "function  f { a; }",
        "coproc  a",
        "time  a",
        "f  ()  { a; }",
        "a  && case x in b) c;; esac",
        "a |  coproc b",
        "!  time a",
        "{ a;  f () { b; }; }",
        "( select  x in a; do b; done )",
        "if [[ a ]]  then case x in b) c;; esac; fi",
        "if a; then b; elif  time c; then d; else e; fi",
        "if a; then b; else  time c; fi",
        "while (a)  do time b; done",
        "until time  a; do b; done",
        "for x  do time a; done",
        "a &  function f { b; }",
    ] {
        assert_eq!(format_command(cmd, 80), cmd);
    }
}

#[test]
fn commands_do_not_vanish() {
    assert_eq!(format_command(" ;; ", 80), " ;; ");
    assert_eq!(format_command(" ; ", 80), " ; ");
    assert_eq!(format_command("  \n ", 80), "");
    assert_eq!(format_command("", 80), "");
}

fn payload(cmd: &str) -> String {
    format!("{{\"tool_name\":\"Bash\",\"tool_input\":{{\"command\":{}}}}}", json::encode_string(cmd))
}

fn asked(response: &str) -> String {
    let v = json::parse(response).unwrap();
    let out = v.get("hookSpecificOutput").unwrap();
    assert_eq!(out.get("permissionDecision").unwrap().as_str(), Some("ask"));
    out.get("updatedInput").unwrap().get("command").unwrap().as_str().unwrap().to_string()
}

#[test]
fn the_hook_asks_about_the_same_words() {
    let cmd = "echo  \"a\\\"b\"  'ü'  &&  ls";
    let shown = asked(&hook_response(&payload(cmd), 80));
    assert_eq!(shown, "echo \"a\\\"b\" 'ü' && ls");
    assert!(same_words(cmd, &shown));
}

#[test]
fn the_hook_leaves_untouched_commands_alone() {
    for cmd in ["ls -la", "ls -la\n", "cat <<E\nx\nE", "echo 'x", ""] {
        assert_eq!(hook_response(&payload(cmd), 80), HOOK_NOOP, "{cmd:?}");
    }
    assert_eq!(hook_response("", 80), HOOK_NOOP);
    assert_eq!(hook_response("{\"tool_name\":\"Read\"}", 80), HOOK_NOOP);
    assert_eq!(hook_response("{\"tool_name\":\"Bash\",\"tool_input\":{}}", 80), HOOK_NOOP);
    assert_eq!(hook_response("[1", 80), HOOK_NOOP);
}

#[test]
fn a_command_that_the_hook_has_shown_falls_through() {
    for cmd in ["ls   -la", "a&&b", "if a;then b;else c;fi", "{ a;b; }|c"] {
        let shown = asked(&hook_response(&payload(cmd), 80));
        assert_eq!(hook_response(&payload(&shown), 80), HOOK_NOOP, "{cmd}");
        let formatted = format_command(cmd, 80);
        assert_eq!(hook_response(&payload(&formatted), 80), HOOK_NOOP, "{cmd}");
    }
}

#[test]
fn bodies_of_here_documents_are_skipped() {
    let src = "a <<X <<-'Y'; b\n1\nX\n2\n\tY\nc";
    let toks = tokenize(src).unwrap();
    let texts: Vec<&str> = toks.iter().map(|t| t.text(src)).collect();
    assert_eq!(texts, ["a", "<<", "X", "<<-", "'Y'", ";", "b", "\n", "c", ""]);
    assert_eq!(toks[1].hdoc_body.as_deref(), Some("1\n"));
    assert_eq!(toks[3].hdoc_body.as_deref(), Some("2\n"));
}

#[test]
fn a_hook_response_parses_back() {
    let cmd = "printf  'a\tb'  \"\\u{7f}\"  é";
    let response = hook_response(&payload(cmd), 80);
    assert_eq!(asked(&response), "printf 'a\tb' \"\\u{7f}\" é");
}

#[test]
fn an_encoded_string_parses_back() {
    for s in ["", "plain", "\"\\/", "\u{8}\u{c}\n\r\t", "\u{0}\u{1f}", "é😀\u{2028}"] {
        assert_eq!(json::parse(&json::encode_string(s)), Ok(Value::String(s.to_string())));
    }
}

#[test]
fn a_clone_is_equal() {
    for src in SAMPLES {
        if let Some(f) = tree(src) {
            assert_eq!(f.clone(), f);
        }
    }
    let v = json::parse("{\"a\":[1,true,null,\"x\"]}").unwrap();
    assert_eq!(v.clone(), v);
    assert_eq!(pretty(8, &Doc::group(chain()).clone()), "aaa bbbF");
}

#[test]
fn positions_do_not_matter() {
    let mut seen = 0;
    for src in SAMPLES {
        let Some(f) = tree(src) else {
            continue;
        };
        seen += 1;
        let mut g = f.clone();
        for s in &mut g.stmts {
            s.position = Pos::new(7, 3, 4);
            s.semicolon = Pos::new(9, 3, 6);
            if let Some(Command::If(x)) = &mut s.cmd {
                x.then_pos = Pos::new(70, 30, 40);
                x.fi_pos = Pos::new(0, 0, 0);
            }
            if let Some(Command::For(x)) = &mut s.cmd {
                x.do_pos = Pos::new(0, 0, 0);
                if let Loop::Word(wi) = &mut x.loop_ {
                    wi.in_pos = Pos::new(5, 6, 7);
                }
            }
        }
        for width in [1, 10, 80] {
            assert_eq!(printer::format(&f, width), printer::format(&g, width));
        }
    }
    assert!(seen >= 10);
}

#[test]
fn the_presence_of_in_matters() {
    let mut f = tree("for x in 1 2; do y; done").unwrap();
    assert_eq!(printer::format(&f, 80), "for x in 1 2; do y; done\n");
    if let Some(Command::For(x)) = &mut f.stmts[0].cmd {
        if let Loop::Word(wi) = &mut x.loop_ {
            wi.in_pos = Pos::new(0, 0, 0);
        }
    }
    assert_eq!(printer::format(&f, 80), "for x; do y; done\n");
}

#[test]
fn a_hard_line_in_either_branch_breaks_a_group() {
    for hidden in [
        Doc::if_break(Doc::hard_line(), Doc::Nil),
        Doc::if_break(Doc::Nil, Doc::hard_line()),
    ] {
        let d = Doc::concat(vec![Doc::text("a"), Doc::line(), Doc::text("b"), hidden]);
        assert_eq!(pretty(80, &Doc::group(d.clone())), pretty(80, &d));
        assert!(pretty(80, &Doc::group(d)).starts_with("a\nb"));
    }
}
