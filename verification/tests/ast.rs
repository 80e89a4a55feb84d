use fmt_rs::ast::{BinCmdOperator, BinTestOperator, Lit, ParExpOperator, Pos, RedirOperator, SglQuoted, Word, WordPart};

#[test]
fn operator_spellings() {
    assert_eq!(BinCmdOperator::AndStmt.as_str(), "&&");
    assert_eq!(RedirOperator::DashHdoc.to_string(), "<<-");
    assert_eq!(BinTestOperator::TsReMatch.as_str(), "=~");
    assert_eq!(ParExpOperator::RemLargePrefix.as_str(), "##");
}

#[test]
fn word_lit_joins_literals_only() {
    let p = Pos::new(0, 1, 1);
    let lit = |v: &str| Lit { value_pos: p, value_end: p, value: v.into() };
    let w = Word { parts: vec![WordPart::Lit(lit("foo")), WordPart::Lit(lit("bar"))] };
    assert_eq!(w.lit(), "foobar");

    let mixed = Word {
        parts: vec![
            WordPart::Lit(lit("foo")),
            WordPart::SglQuoted(SglQuoted { left: p, right: p, dollar: false, value: "x".into() }),
        ],
    };
    assert_eq!(mixed.lit(), "");
}
