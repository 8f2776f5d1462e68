use yaml0::Parser;

/// One entry per construct the parser can walk. Recording must not change
/// what any of them parse to, and must leave no frame open.
const CORPUS: &[&str] = &[
    "",
    "42\n",
    "just a scalar\n",
    "a: 1\nb: two\n",
    "a: 1   # trailing comment\n",
    "# leading comment\na: 1\n",
    "outer:\n  inner:\n    deep: 1\n",
    "- a\n- b\n",
    "- a\n\n- b\n",
    "list:\n  - one\n  - two\n",
    "list:\n- compact\n- seq\n",
    "items:\n  - k: v\n    j: w\n  - k: v2\n",
    "empty:\nafter: 1\n",
    "a:\n\n\nb: 1\n",
    "quoted: \"a b\"\nsingle: 'c d'\n",
    "escaped: \"tab\\there\"\n",
    "\"quoted key\": 1\n",
    "42: numeric key\n",
    "? explicit\n: value\n",
    "? [a, b]\n: value\n",
    "flow: [1, 2, 3]\n",
    "flow: {a: 1, b: 2}\n",
    "[a, b]: flow key\n",
    "block: |\n  line one\n  line two\n",
    "folded: >\n  line one\n  line two\n",
    "strip: |-\n  no trailing\n",
    "base: &b 1\nuse: *b\n",
    "base: &b\n  k: v\nuse: *b\n",
    "base: &b\n  k: v\nchild:\n  <<: *b\n  own: 1\n",
    "one: &a {x: 1}\ntwo: &c {y: 2}\nm:\n  <<: [*a, *c]\n",
    "tagged: !!str 42\ncustom: !mine thing\n",
    "anchored: !!int &n 7\n",
    "---\na: 1\n---\nb: 2\n",
    "---\na: 1\n...\n",
    "%YAML 1.2\n---\na: 1\n",
    "a: 1\r\nb: 2\r\n",
    "unicode: café\n",
    "unicode: café   # comment\n",
    "\u{FEFF}bom: 1\n",
    "multi: line one\n  continued\n",
    "deep:\n  - - nested\n    - seqs\n",
];

/// The parse must be identical whether or not spans are being recorded.
fn assert_span_neutral(src: &str) {
    let plain = Parser::new(src).parse_all();
    let spanned = Parser::with_spans(src).parse_all();

    match (plain, spanned) {
        (Ok(a), Ok(b)) => assert_eq!(a, b, "values diverged for {src:?}"),
        (Err(_), Err(_)) => {}
        (a, b) => panic!("outcome diverged for {src:?}: {a:?} vs {b:?}"),
    }
}

#[test]
fn recording_does_not_change_parse_results() {
    for src in CORPUS {
        assert_span_neutral(src);
    }
}

/// Inputs that must fail. Recording must not swallow or invent an error,
/// and must not leave the frame stack unbalanced on the way out.
#[test]
fn recording_does_not_change_errors() {
    for src in [
        "a: 1\n\tb: 2\n",
        "unknown: *nope\n",
        "&: 1\n",
        "[a, b\n",
        "{a: 1\n",
        "key\n  spanning: 1\n",
        "a: 1\nb: 2\n---\nc: 3\nbare\n",
    ] {
        assert_span_neutral(src);
    }
}

/// `finish` asserts the frame stack is empty; every corpus entry exercises
/// it, so an unbalanced open/close fails the suite in debug builds.
#[test]
fn frames_balance_on_every_corpus_entry() {
    for src in CORPUS {
        let _ = Parser::with_spans(src).parse_all();
    }
}
