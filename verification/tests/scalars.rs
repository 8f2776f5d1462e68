use yaml0::{BorrowedValue, Parser};

fn parse(src: &str) -> BorrowedValue<'static> {
    Parser::new(src).parse().unwrap().to_static()
}

fn text(src: &str) -> String {
    match parse(src) {
        BorrowedValue::String(s) => s.into_owned(),
        other => panic!("expected a string, got {other:?}"),
    }
}

fn fails(src: &str) -> (String, usize, usize) {
    let e = Parser::new(src).parse().unwrap_err();
    (e.msg, e.line.unwrap(), e.col.unwrap())
}

#[test]
fn plain_scalars_resolve() {
    for (src, want) in [
        ("~\n", BorrowedValue::Null),
        ("Null\n", BorrowedValue::Null),
        ("TRUE\n", BorrowedValue::Bool(true)),
        ("false\n", BorrowedValue::Bool(false)),
        ("0o17\n", BorrowedValue::Int(15)),
        ("0xFF\n", BorrowedValue::Int(255)),
        ("+12\n", BorrowedValue::Int(12)),
        ("-7\n", BorrowedValue::Int(-7)),
        ("-9223372036854775808\n", BorrowedValue::Int(i64::MIN)),
        ("9223372036854775807\n", BorrowedValue::Int(i64::MAX)),
    ] {
        assert_eq!(parse(src), want, "{src:?}");
    }
}

#[test]
fn floats_keep_their_spelling() {
    for src in ["1.50", ".5", "5.", "1e3", "-2.5E-3", ".inf", "-.INF", ".nan", "9223372036854775808"] {
        match parse(src) {
            BorrowedValue::Float(t) => assert_eq!(t, src),
            other => panic!("{src:?} gave {other:?}"),
        }
    }
    assert!(matches!(parse("1.50"), BorrowedValue::Float(t) if t.parse::<f64>() == Ok(1.5)));
}

#[test]
fn near_numbers_are_strings() {
    for src in ["1.2.3", "0xZZ", "e5", "1e", "0x"] {
        assert_eq!(text(src), src);
    }
}

#[test]
fn escapes_stand_for_characters() {
    assert_eq!(text(r#""tab\there""#), "tab\there");
    assert_eq!(text(r#""\x41\u00e9\U0001F600""#), "Aé😀");
    assert_eq!(text(r#""\0\a\b\n\v\f\r\e\"\/\\\N\_\L\P""#), "\0\u{7}\u{8}\n\u{b}\u{c}\r\u{1b}\"/\\\u{85}\u{a0}\u{2028}\u{2029}");
    assert_eq!(text("\"joined \\\n   line\""), "joined line");
}

#[test]
fn bad_escapes_are_refused() {
    assert_eq!(fails(r#"a: "\q""#), ("unknown escape sequence".to_owned(), 1, 5));
    assert_eq!(fails(r#"a: "\xZZ""#), ("invalid escape sequence".to_owned(), 1, 5));
    assert_eq!(fails(r#"a: "\ud800""#), ("invalid escape sequence".to_owned(), 1, 5));
    assert_eq!(fails(r#"a: "open"#).0, "unterminated double-quoted string");
    assert_eq!(fails("a: \"open\\").0, "unterminated double-quoted string");
    assert_eq!(fails("a: 'open").0, "unterminated single-quoted string");
}

#[test]
fn quoted_scalars_fold_lines() {
    assert_eq!(text("\"one\ntwo\""), "one two");
    assert_eq!(text("\"one  \n\n\ntwo\""), "one\n\ntwo");
    assert_eq!(text("'it''s\nhere'"), "it's here");
}

#[test]
fn one_line_scalars_borrow_from_the_source() {
    let src = String::from("a: plain\nb: \"double\"\nc: 'single'\n");
    let v = Parser::new(&src).parse().unwrap();
    let BorrowedValue::Mapping(pairs) = v else { panic!() };
    for (_, v) in &pairs {
        assert!(matches!(v, BorrowedValue::String(std::borrow::Cow::Borrowed(_))), "{v:?}");
    }
}

#[test]
fn literal_blocks_keep_lines() {
    assert_eq!(text("|\n  one\n   two\n\n  three\n"), "one\n two\n\nthree\n");
    assert_eq!(text("|-\n  one\n  two\n"), "one\ntwo");
    assert_eq!(text("|+\n  one\n\n\n"), "one\n\n\n");
    assert_eq!(text("|2\n    one\n"), "  one\n");
    assert_eq!(text("| # note\n  one\n"), "one\n");
}

#[test]
fn folded_blocks_join_lines() {
    assert_eq!(text(">\n  one\n  two\n\n  three\n"), "one two\nthree\n");
    assert_eq!(text(">-\n  one\n    deep\n  two\n"), "one\n  deep\ntwo");
}

#[test]
fn an_empty_block_is_empty() {
    let BorrowedValue::Mapping(pairs) = parse("a: |\nb: 1\n") else { panic!() };
    assert_eq!(pairs[0].1, BorrowedValue::String("".into()));
    assert_eq!(pairs[1].1, BorrowedValue::Int(1));
    let BorrowedValue::Sequence(items) = parse("- key: |\n  next: x\n") else { panic!() };
    assert!(matches!(&items[0], BorrowedValue::Mapping(pairs) if pairs.len() == 2));
}

#[test]
fn a_bad_block_header_is_refused() {
    assert_eq!(fails("a: |x\n  one\n"), ("invalid block scalar header".to_owned(), 1, 5));
}

#[test]
fn parse_errors_say_what_and_where() {
    assert_eq!(fails("a: 1\n\tb: 2\n").0, "parsing failed: illegal indent whitespace using \\t");
    assert_eq!(fails("a: & 42\n"), ("empty anchor name".to_owned(), 1, 5));
    assert_eq!(fails("a: *\n"), ("empty alias name".to_owned(), 1, 5));
    assert_eq!(fails("a: *nope\n"), ("unknown anchor: 'nope'".to_owned(), 1, 9));
    assert_eq!(fails("a: [1, 2\n").0, "unterminated flow sequence");
    assert_eq!(fails("a: [1 {\n").0, "expected ',' or ']' in flow sequence");
    assert_eq!(fails("a: {b: 1\n").0, "unterminated flow map");
    assert_eq!(fails("a: {b: 1 [\n").0, "expected ',' or '}' in flow map");
    assert_eq!(fails("[a,\nb]: 1\n"), ("implicit key must not span multiple lines".to_owned(), 2, 3));
    assert_eq!(fails("a: 1\nb\n").0, "expected ':' after map key");
    assert_eq!(fails("---\na: 1\n---\nb: 2\n").0, "expected single document, got 2");
    assert_eq!(
        fails("{a: 1}\n  {b: 2}\n"),
        ("unexpected content; expected '---' to start a new document".to_owned(), 2, 3)
    );
}

#[test]
fn an_indented_document_is_read_from_its_indent() {
    let BorrowedValue::Mapping(pairs) = parse("  a: 1\n  b: 2\n") else { panic!() };
    assert_eq!(pairs.len(), 2);
}

#[test]
fn a_dash_at_another_indent_ends_a_sequence() {
    let v = parse("a:\n  - x\n  - y\nb: 1\n");
    let BorrowedValue::Mapping(pairs) = v else { panic!() };
    assert!(matches!(&pairs[0].1, BorrowedValue::Sequence(items) if items.len() == 2));
    assert!(Parser::new("a:\n  - x\n- y\n").parse().is_err());
}

#[test]
fn standard_tags_convert_where_they_can() {
    assert_eq!(parse("!!str ~\n"), BorrowedValue::String("".into()));
    assert_eq!(parse("!!str 1.50\n"), BorrowedValue::String("1.50".into()));
    assert_eq!(parse("!!float \"2\"\n"), BorrowedValue::Float("2".into()));
    assert_eq!(parse("!!bool 'true'\n"), BorrowedValue::Bool(true));
    assert_eq!(parse("!!seq [1]\n"), BorrowedValue::Sequence(vec![BorrowedValue::Int(1)]));
}
