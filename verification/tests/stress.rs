//! Runs the formatter over a corpus of ordinary and adversarial commands and
//! asserts what must hold for every input: words are preserved, and formatting
//! the output again yields the same output.

use fmt_rs::format::format_command;
use fmt_rs::lexer;
use fmt_rs::lexer::TokKind;

const WIDTH: isize = 80;

const COMMANDS: [&str; 72] = [
    "ls",
    "ls   -la    /tmp",
    "cd /repo&&npm ci&&npm run build&&npm test&&npm run deploy",
    "git add -A && git commit -m \"fix: a && b; c\" && git push origin HEAD",
    "cat file.txt|grep -v '^#'|sort|uniq -c|sort -rn|head -20",
    "for f in *.txt;do echo \"$f\";wc -l \"$f\";done",
    "for i in $(seq 1 10); do echo $i; done",
    "for x; do echo \"$x\"; done",
    "while read -r line;do echo \"$line\";done<input.txt>output.txt 2>&1",
    "until ping -c1 host; do sleep 1; done",
    "if [ -f x ];then rm x;else touch x;fi",
    "if a; then b; elif c; then d; elif e; then f; else g; fi",
    "if ! grep -q foo bar; then echo missing; exit 1; fi",
    "[[ -f   a && ( -d b || $x == *.c ) ]] && echo   yes",
    "((i  =  i+1 ,  j ))",
    "(cd sub && make -j8 && make install)",
    "{ echo a; echo b; } >log 2>&1",
    "{ echo a; }",
    "a & b & wait",
    "sleep 10 &",
    "! true",
    "! a | b && ! c || d",
    "FOO=bar BAZ='q u x' ./run.sh --flag=\"$HOME/x y\"",
    "arr=(a b c); echo \"${arr[@]}\"",
    "echo \"$(date +%F) ${USER:-nobody} `hostname`\"",
    "echo $((1+2*3)) \"$((x << 2))\"",
    "diff <(sort a) <(sort b)",
    "tee >(gzip > x.gz) < y",
    "echo 'single $quoted `text`' \"double \\\" quoted\" $'ansi\\n'",
    "find . -name '*.rs' -not -path './target/*' -exec grep -l TODO {} +",
    "find . -type f \\( -name a -o -name b \\) -print0 | xargs -0 rm -f",
    "curl -sSfL https://example.com/install.sh | sh -s -- --yes",
    "docker run --rm -it -v \"$PWD\":/w -w /w image:tag bash -lc 'make test'",
    "ssh host 'cd /srv && ./deploy.sh; echo done'",
    "tar czf - dir | ssh host 'tar xzf - -C /dst'",
    "awk -F: '{ print $1; x += $3 } END { print x }' /etc/passwd",
    "sed -e 's/a/b/g' -e '/^$/d' -i.bak file",
    "python3 -c 'import sys; print(sys.argv)' a b",
    "exec 3>&1 4<in 5>>log",
    "cmd >out 2>err <in",
    "cmd &>all",
    "cmd &>>all",
    "cmd >|force",
    "cmd <>rw",
    "cmd <<<\"here string\"",
    "2>/dev/null cmd arg",
    ">f a 2>&1 b",
    "{fd}>x cmd",
    "a 2 >f",
    "export A=1 B=2; unset C",
    "set -euo pipefail; trap 'rm -rf \"$t\"' EXIT",
    "a \\\n  && b \\\n  && c",
    "a\n\n\nb\n;c",
    "echo a;;",
    "case $x in a) b;; esac",
    "f() { echo hi; }",
    "function g { echo hi; }",
    "cat <<EOF\nhello\nEOF",
    "cat <<-'E' | grep x\n\ty\n\tE",
    "echo a # comment",
    "echo a#b",
    "echo 'unterminated",
    "echo $(unterminated",
    "if a; then",
    "time make",
    "coproc cat",
    "",
    "   ",
    "écho 'ünïcödé — ☃'",
    "echo @(a|b) !(c) ?(d) *(e) +(f)",
    "for ((i=0;i<3;i++)); do echo $i; done",
    "while a; do if b; then for c in d; do { e; } | (f); done; fi; done",
];

fn corpus() -> Vec<String> {
    let mut all: Vec<String> = COMMANDS.iter().map(|c| c.to_string()).collect();
    for (i, a) in COMMANDS.iter().enumerate() {
        let b = COMMANDS[(7 * i + 3) % COMMANDS.len()];
        all.push(format!("{a}; {b}"));
        all.push(format!("{a} && {b}"));
        all.push(format!("{{ {a}; }} | ( {b} )"));
        all.push(format!("if {a}; then {b}; fi"));
    }
    all
}

/// Sorted multiset of word-token texts. Operators and whitespace may reflow;
/// words must be preserved exactly.
fn words(src: &str) -> Option<Vec<String>> {
    let toks = lexer::tokenize(src).ok()?;
    let mut w: Vec<String> = toks
        .iter()
        .filter(|t| t.kind == TokKind::Word)
        .map(|t| src[t.start..t.end].to_string())
        .collect();
    w.sort();
    Some(w)
}

#[test]
fn corpus_is_nonempty() {
    assert!(corpus().len() >= 200, "expected a substantial corpus");
}

#[test]
fn no_corruption_and_idempotent() {
    let mut formatted = 0usize;

    for cmd in corpus() {
        let out = format_command(&cmd, WIDTH);

        if out == cmd {
            continue;
        }
        formatted += 1;

        // Words must be preserved exactly across formatting.
        let (Some(wi), Some(wo)) = (words(&cmd), words(&out)) else {
            panic!("re-lexing failed for: {cmd:?}");
        };
        assert_eq!(wi, wo, "word multiset changed while formatting: {cmd:?}\n -> {out:?}");

        // Formatting must be a fixed point.
        let out2 = format_command(&out, WIDTH);
        assert_eq!(out2, out, "not idempotent: {cmd:?}\n  once: {out:?}\n  twice: {out2:?}");
    }

    assert!(formatted > 0, "expected at least some commands to be reformatted");
}
