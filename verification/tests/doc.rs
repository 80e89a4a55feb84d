use fmt_rs::doc::{pretty, Doc};

fn d_text(s: &'static str) -> Doc {
    Doc::text(s)
}

#[test]
fn flat_when_it_fits() {
    // `a && b && c` fits in 80 cols, so it stays on one line.
    let chain = Doc::group(Doc::nest(
        2,
        Doc::concat(vec![
            d_text("a"),
            Doc::line(),
            d_text("&& b"),
            Doc::line(),
            d_text("&& c"),
        ]),
    ));
    assert_eq!(pretty(80, &chain), "a && b && c");
}

#[test]
fn breaks_when_too_wide() {
    // The same chain at width 6 must break at each `line`, indenting by 2.
    let chain = Doc::group(Doc::nest(
        2,
        Doc::concat(vec![
            d_text("a"),
            Doc::line(),
            d_text("&& b"),
            Doc::line(),
            d_text("&& c"),
        ]),
    ));
    assert_eq!(pretty(6, &chain), "a\n  && b\n  && c");
}

#[test]
fn hard_line_forces_break_even_when_short() {
    let doc = Doc::group(Doc::concat(vec![
        d_text("do"),
        Doc::hard_line(),
        d_text("done"),
    ]));
    assert_eq!(pretty(80, &doc), "do\ndone");
}

#[test]
fn soft_line_disappears_when_flat() {
    let doc = Doc::group(Doc::concat(vec![d_text("$("), Doc::soft_line(), d_text("cmd)")]));
    assert_eq!(pretty(80, &doc), "$(cmd)");
}

#[test]
fn if_break_picks_branch_by_mode() {
    // A `;` that appears only when the group is flat.
    let body = |open: &'static str| {
        Doc::group(Doc::concat(vec![
            d_text("do"),
            Doc::nest(2, Doc::concat(vec![Doc::line(), d_text(open)])),
            Doc::if_break(Doc::Nil, d_text(";")),
            Doc::line(),
            d_text("done"),
        ]))
    };
    assert_eq!(pretty(80, &body("echo x")), "do echo x; done");
    assert_eq!(pretty(8, &body("echo x")), "do\n  echo x\ndone");
}

#[test]
fn nested_groups_break_independently() {
    // Outer breaks, but the inner group still fits flat on its own line.
    let inner = Doc::group(Doc::concat(vec![d_text("x"), Doc::line(), d_text("y")]));
    let outer = Doc::group(Doc::nest(
        2,
        Doc::concat(vec![d_text("outer:"), Doc::line(), inner, Doc::line(), d_text("tail-is-long")]),
    ));
    // width 12 forces the outer to break; "x y" (inner) fits flat.
    assert_eq!(pretty(12, &outer), "outer:\n  x y\n  tail-is-long");
}
