use fmt_rs::ast::{Assign, BinCmdOperator, BinaryCmd, Block, CallExpr, Command, DblQuoted, File, ForClause, IfClause, Lit, Loop, ParamExp, Pos, Redirect, RedirOperator, Stmt, Word, WordIter, WordPart};
use fmt_rs::printer;

const P: Pos = Pos { offset: 0, line: 1, col: 1 };

fn lit(s: &str) -> Lit {
    Lit { value_pos: P, value_end: P, value: s.into() }
}
fn w(s: &str) -> Word {
    Word { parts: vec![WordPart::Lit(lit(s))] }
}
fn dq_var(name: &str) -> Word {
    // "$name"
    let pe = ParamExp {
        dollar: P, rbrace: P, short: true, excl: false, length: false, width: false,
        param: lit(name), index: None, slice: None, repl: None, names: None, exp: None,
    };
    Word {
        parts: vec![WordPart::DblQuoted(DblQuoted {
            left: P, right: P, dollar: false,
            parts: vec![WordPart::ParamExp(Box::new(pe))],
        })],
    }
}
fn call(args: &[&str]) -> Command {
    Command::Call(CallExpr { assigns: vec![], args: args.iter().map(|s| w(s)).collect() })
}
fn stmt(cmd: Command) -> Stmt {
    Stmt {
        comments: vec![], cmd: Some(cmd), position: P, semicolon: P,
        negated: false, background: false, coprocess: false, redirs: vec![],
    }
}
fn file(stmts: Vec<Stmt>) -> File {
    File { name: None, stmts, last: vec![] }
}

#[test]
fn printer_simple_command_with_redirects() {
    let mut s = stmt(call(&["ls", "-la", "/tmp"]));
    s.redirs = vec![
        Redirect { op_pos: P, op: RedirOperator::RdrOut, n: None, word: Some(w("/dev/null")), hdoc: None },
        Redirect { op_pos: P, op: RedirOperator::DplOut, n: Some(lit("2")), word: Some(w("1")), hdoc: None },
    ];
    assert_eq!(printer::format(&file(vec![s]), 80), "ls -la /tmp >/dev/null 2>&1\n");
}

#[test]
fn chain_stays_inline_when_it_fits() {
    let inner = Command::Binary(Box::new(BinaryCmd {
        op_pos: P, op: BinCmdOperator::AndStmt,
        x: stmt(call(&["aaa"])), y: stmt(call(&["bbb"])),
    }));
    let outer = Command::Binary(Box::new(BinaryCmd {
        op_pos: P, op: BinCmdOperator::AndStmt,
        x: stmt(inner), y: stmt(call(&["ccc"])),
    }));
    assert_eq!(printer::format(&file(vec![stmt(outer)]), 80), "aaa && bbb && ccc\n");
}

#[test]
fn chain_wraps_after_operator_when_too_wide() {
    let inner = Command::Binary(Box::new(BinaryCmd {
        op_pos: P, op: BinCmdOperator::AndStmt,
        x: stmt(call(&["aaa"])), y: stmt(call(&["bbb"])),
    }));
    let outer = Command::Binary(Box::new(BinaryCmd {
        op_pos: P, op: BinCmdOperator::Pipe,
        x: stmt(inner), y: stmt(call(&["ccc"])),
    }));
    assert_eq!(printer::format(&file(vec![stmt(outer)]), 8), "aaa &&\n  bbb |\n  ccc\n");
}

#[test]
fn printer_for_loop_inline() {
    let f = ForClause {
        for_pos: P, do_pos: P, done_pos: P, select: false, braces: false,
        loop_: Loop::Word(WordIter {
            name: lit("i"), in_pos: P, items: vec![w("1"), w("2"), w("3")],
        }),
        do_: vec![stmt(call(&["echo", "hi"]))],
        do_last: vec![],
    };
    assert_eq!(
        printer::format(&file(vec![stmt(Command::For(Box::new(f)))]), 80),
        "for i in 1 2 3; do echo hi; done\n"
    );
}

#[test]
fn if_inline_with_test_command() {
    // if [ "$x" -lt "$y" ]; then echo smaller; fi
    let cond = stmt(Command::Call(CallExpr {
        assigns: vec![],
        args: vec![w("["), dq_var("x"), w("-lt"), dq_var("y"), w("]")],
    }));
    let ic = IfClause {
        position: P, then_pos: P, fi_pos: P,
        cond: vec![cond], cond_last: vec![],
        then: vec![stmt(call(&["echo", "smaller"]))], then_last: vec![],
        else_: None, last: vec![],
    };
    assert_eq!(
        printer::format(&file(vec![stmt(Command::If(Box::new(ic)))]), 80),
        "if [ \"$x\" -lt \"$y\" ]; then echo smaller; fi\n"
    );
}

#[test]
fn multi_statement_block_expands() {
    let b = Block {
        lbrace: P, rbrace: P,
        stmts: vec![stmt(call(&["a"])), stmt(call(&["b"]))],
        last: vec![],
    };
    assert_eq!(
        printer::format(&file(vec![stmt(Command::Block(b))]), 80),
        "{\n  a\n  b\n}\n"
    );
}

#[test]
fn top_level_statements_each_on_their_own_line() {
    let f = file(vec![
        stmt(Command::Call(CallExpr {
            assigns: vec![Assign {
                append: false, naked: false, name: Some(lit("x")),
                index: None, value: Some(w("1")), array: None,
            }],
            args: vec![],
        })),
        stmt(call(&["echo", "done"])),
    ]);
    assert_eq!(printer::format(&f, 80), "x=1\necho done\n");
}
