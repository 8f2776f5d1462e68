use yaml0::{BorrowedValue, Parser};

fn assert_map_strs(yaml: &str, expected: Vec<(&str, &str)>) {
    let mut p = Parser::new(yaml);
    let v = p.parse_node(0).unwrap();
    match v {
        BorrowedValue::Mapping(pairs) => {
            let kvs: Vec<(&str, String)> = pairs
                .iter()
                .map(|(k, v)| {
                    let k_str = match k {
                        BorrowedValue::String(s) => s.as_ref(),
                        _ => panic!("non-string key"),
                    };
                    let v_str = match v {
                        BorrowedValue::String(s) => s.to_string(),
                        BorrowedValue::Null => "<null>".to_string(),
                        BorrowedValue::Bool(b) => b.to_string(),
                        BorrowedValue::Int(n) => n.to_string(),
                        BorrowedValue::Float(f) => f.to_string(),
                        _ => panic!("nested container value, use a different assertion"),
                    };
                    (k_str, v_str)
                })
                .collect();
            let expected: Vec<(&str, String)> = expected
                .into_iter()
                .map(|(k, v): (&str, &str)| (k, v.to_string()))
                .collect();
            assert_eq!(kvs, expected);
        }
        _ => panic!("expected Map, got {:?}", v),
    }
}

#[test]
fn map_one_kv() {
    assert_map_strs("a: 1\n", vec![("a", "1")]);
}

#[test]
fn map_two_kvs() {
    assert_map_strs("a: 1\nb: 2\n", vec![("a", "1"), ("b", "2")]);
}

#[test]
fn map_no_trailing_newline() {
    assert_map_strs("a: 1\nb: 2", vec![("a", "1"), ("b", "2")]);
}

#[test]
fn map_with_blank_lines() {
    assert_map_strs("a: 1\n\nb: 2\n", vec![("a", "1"), ("b", "2")]);
}

#[test]
fn map_with_comment_lines() {
    assert_map_strs("a: 1\n# c\nb: 2\n", vec![("a", "1"), ("b", "2")]);
}

#[test]
fn map_quoted_key() {
    assert_map_strs("\"a b\": 1\n", vec![("a b", "1")]);
}

#[test]
fn map_quoted_value() {
    assert_map_strs("a: \"foo bar\"\n", vec![("a", "foo bar")]);
}

#[test]
fn map_empty_value() {
    assert_map_strs("a:\nb: 2\n", vec![("a", "<null>"), ("b", "2")]);
}

#[test]
fn map_stops_at_lesser_indent() {
    let mut p = Parser::new("  a: 1\n  b: 2\nouter: x\n");
    // outer caller would handle indent dispatch; here we manually start at column 2
    p.advance();
    p.advance(); // skip to column 3
    // ... actually this kind of test is easier through parse_node from indent context
    // Skip if it gets fiddly — the seq version covers the same logic.
}

#[test]
fn map_nested_map() {
    let mut p = Parser::new("a:\n  x: 1\n  y: 2\n");
    let v = p.parse_node(0).unwrap();
    let outer = match v {
        BorrowedValue::Mapping(p) => p,
        _ => panic!(),
    };
    assert_eq!(outer.len(), 1);
    let (_, inner) = &outer[0];
    let inner_pairs = match inner {
        BorrowedValue::Mapping(p) => p,
        _ => panic!(),
    };
    assert_eq!(inner_pairs.len(), 2);
}

#[test]
fn map_value_is_seq() {
    let mut p = Parser::new("items:\n  - a\n  - b\n");
    let v = p.parse_node(0).unwrap();
    // items has Map([("items", Seq(["a", "b"]))])
    let pairs = match v {
        BorrowedValue::Mapping(p) => p,
        _ => panic!(),
    };
    let items = match &pairs[0].1 {
        BorrowedValue::Sequence(s) => s,
        _ => panic!(),
    };
    assert_eq!(items.len(), 2);
}

#[test]
fn seq_of_maps_inline() {
    // - name: a
    // - name: b
    let mut p = Parser::new("- name: a\n- name: b\n");
    let v = p.parse_node(0).unwrap();
    let items = match v {
        BorrowedValue::Sequence(s) => s,
        _ => panic!(),
    };
    assert_eq!(items.len(), 2);
    let first = match &items[0] {
        BorrowedValue::Mapping(p) => p,
        _ => panic!("expected map item"),
    };
    assert_eq!(first.len(), 1);
}

#[test]
fn map_value_is_compact_seq() {
    // dash at same indent as parent key
    let mut p = Parser::new("items:\n- a\n- b\n");
    let v = p.parse_node(0).unwrap();
    let pairs = match v {
        BorrowedValue::Mapping(p) => p,
        _ => panic!(),
    };
    let items = match &pairs[0].1 {
        BorrowedValue::Sequence(s) => s,
        _ => panic!("expected compact seq"),
    };
    assert_eq!(items.len(), 2);
}

#[test]
fn map_compact_seq_then_sibling() {
    // ensure cursor lands correctly for parse_block_map_rest to continue
    let mut p = Parser::new("items:\n- a\n- b\nnext: x\n");
    let v = p.parse_node(0).unwrap();
    let pairs = match v {
        BorrowedValue::Mapping(p) => p,
        _ => panic!(),
    };
    assert_eq!(pairs.len(), 2);
    let items = match &pairs[0].1 {
        BorrowedValue::Sequence(s) => s,
        _ => panic!(),
    };
    assert_eq!(items.len(), 2);
    let next = match &pairs[1].1 {
        BorrowedValue::String(s) => s.as_ref(),
        _ => panic!(),
    };
    assert_eq!(next, "x");
}

#[test]
fn map_compact_seq_of_maps() {
    // - item: a
    //   more: 1
    let mut p = Parser::new("outer:\n- item: a\n  more: 1\n- item: b\n");
    let v = p.parse_node(0).unwrap();
    let outer_pairs = match v {
        BorrowedValue::Mapping(p) => p,
        _ => panic!(),
    };
    let seq = match &outer_pairs[0].1 {
        BorrowedValue::Sequence(s) => s,
        _ => panic!(),
    };
    assert_eq!(seq.len(), 2);
    let first = match &seq[0] {
        BorrowedValue::Mapping(p) => p,
        _ => panic!(),
    };
    assert_eq!(first.len(), 2);
}

#[test]
fn map_value_is_indented_seq_still_works() {
    // ensure we didn't break the non-compact form
    let mut p = Parser::new("items:\n  - a\n  - b\n");
    let v = p.parse_node(0).unwrap();
    let pairs = match v {
        BorrowedValue::Mapping(p) => p,
        _ => panic!(),
    };
    let items = match &pairs[0].1 {
        BorrowedValue::Sequence(s) => s,
        _ => panic!(),
    };
    assert_eq!(items.len(), 2);
}

#[test]
fn map_value_empty_followed_by_sibling() {
    // key:
    // next: x   -> key's value is Null, next is a sibling
    let mut p = Parser::new("key:\nnext: x\n");
    let v = p.parse_node(0).unwrap();
    let pairs = match v {
        BorrowedValue::Mapping(p) => p,
        _ => panic!(),
    };
    assert_eq!(pairs.len(), 2);
    assert!(matches!(pairs[0].1, BorrowedValue::Null));
}

// --- plain scalar line folding (§7.3.3) ---

fn map_get<'a, 'b>(v: &'b BorrowedValue<'a>, key: &str) -> &'b BorrowedValue<'a> {
    match v {
        BorrowedValue::Mapping(pairs) => pairs
            .iter()
            .find(|(k, _)| matches!(k, BorrowedValue::String(s) if s == key))
            .map(|(_, v)| v)
            .unwrap_or_else(|| panic!("no key {key}")),
        other => panic!("expected Map, got {other:?}"),
    }
}

#[test]
fn fold_inline_map_value() {
    assert_map_strs("a: one\n  two\n", vec![("a", "one two")]);
}

#[test]
fn fold_three_lines() {
    assert_map_strs("a: one\n  two\n  three\n", vec![("a", "one two three")]);
}

#[test]
fn fold_block_value_equal_indent() {
    // continuation sits at the same indent as the first content line
    assert_map_strs("a:\n  one\n  two\n", vec![("a", "one two")]);
}

#[test]
fn fold_value_less_indented_than_first_line() {
    // threshold is parent_indent + 1, not the first content line's indent
    assert_map_strs("a:\n    one\n  two\n", vec![("a", "one two")]);
}

#[test]
fn fold_strips_extra_indent() {
    // more-indented lines fold to a space; that rule is block-folded-scalar only
    assert_map_strs("a: one\n      two\n", vec![("a", "one two")]);
}

#[test]
fn fold_empty_line_becomes_newline() {
    assert_map_strs("a: one\n\n  two\n", vec![("a", "one\ntwo")]);
}

#[test]
fn fold_two_empty_lines_become_two_newlines() {
    assert_map_strs("a: one\n\n\n  two\n", vec![("a", "one\n\ntwo")]);
}

#[test]
fn fold_crlf() {
    assert_map_strs("a: one\r\n  two\r\n", vec![("a", "one two")]);
}

#[test]
fn fold_keeps_bare_colon() {
    assert_map_strs("a: one\n  two:three\n", vec![("a", "one two:three")]);
}

#[test]
fn fold_keeps_leading_dash() {
    assert_map_strs("a: one\n  - two\n", vec![("a", "one - two")]);
}

#[test]
fn fold_then_sibling_key() {
    assert_map_strs("a: one\n  two\nb: 3\n", vec![("a", "one two"), ("b", "3")]);
}

#[test]
fn no_fold_sibling_key() {
    assert_map_strs("a: one\nb: two\n", vec![("a", "one"), ("b", "two")]);
}

#[test]
fn no_fold_comment_line() {
    assert_map_strs("a: one\n  # c\nb: 2\n", vec![("a", "one"), ("b", "2")]);
}

#[test]
fn fold_stops_at_comment_after_continuation() {
    assert_map_strs(
        "a: one\n  two\n  # c\nb: 2\n",
        vec![("a", "one two"), ("b", "2")]
    );
}

#[test]
fn fold_at_nested_key_indent() {
    // key at indent 4, continuation at indent 6 (the GitLab OpenAPI shape)
    let mut p = Parser::new("info:\n  license:\n    note: first line\n      second line\n");
    let v = p.parse_node(0).unwrap();
    let note = map_get(map_get(map_get(&v, "info"), "license"), "note");
    assert!(matches!(note, BorrowedValue::String(s) if s == "first line second line"));
}

#[test]
fn fold_blocks_numeric_resolution() {
    // folding happens before resolve_scalar, so this is a string
    let mut p = Parser::new("a: 1\n  2\n");
    let v = p.parse_node(0).unwrap();
    let a = map_get(&v, "a");
    assert!(
        matches!(a, BorrowedValue::String(s) if s == "1 2"),
        "got {a:?}"
    );
}

#[test]
fn no_fold_across_dedent_to_outer_map() {
    let mut p = Parser::new("x:\n  a: one\nb: 2\n");
    let v = p.parse_node(0).unwrap();
    match &v {
        BorrowedValue::Mapping(pairs) => assert_eq!(pairs.len(), 2),
        other => panic!("expected Map, got {other:?}"),
    }
    assert!(matches!(map_get(&v, "b"), BorrowedValue::Int(2)));
}

#[test]
fn colon_on_continuation_line_errors() {
    // an implicit key is single-line; this is `mapping values are not allowed`
    let mut p = Parser::new("a: foo\n  bar: baz\n");
    let err = p.parse_node(0).unwrap_err();
    assert_eq!((err.line, err.col), (Some(2), Some(6)));
}

// --- explicit block map keys (§8.2.2.2) ---

#[test]
fn explicit_key_and_value() {
    assert_map_strs("? key\n: value\n", vec![("key", "value")]);
}

#[test]
fn explicit_key_missing_value_is_null() {
    // no `:` line -> e-node, and the next line is an ordinary sibling
    assert_map_strs("? key\nnext: 1\n", vec![("key", "<null>"), ("next", "1")]);
}

#[test]
fn explicit_key_at_eof() {
    assert_map_strs("? key\n", vec![("key", "<null>")]);
}

#[test]
fn explicit_then_implicit_entry() {
    assert_map_strs(
        "? key\n: value\nplain: 1\n",
        vec![("key", "value"), ("plain", "1")]
    );
}

#[test]
fn implicit_then_explicit_entry() {
    assert_map_strs(
        "plain: 1\n? key\n: value\n",
        vec![("plain", "1"), ("key", "value")]
    );
}

#[test]
fn explicit_entry_nested_in_map() {
    let mut p = Parser::new("top:\n  ? key\n  : value\n  other: 1\n");
    let v = p.parse_node(0).unwrap();
    let top = map_get(&v, "top");
    assert!(matches!(map_get(top, "key"), BorrowedValue::String(s) if s == "value"));
    assert!(matches!(map_get(top, "other"), BorrowedValue::Int(1)));
}

#[test]
fn question_without_space_is_a_plain_key() {
    // `?` is an indicator only when whitespace, a break, or EOF follows
    assert_map_strs("?x: 1\n", vec![("?x", "1")]);
}

#[test]
fn explicit_multiline_key_folds() {
    assert_map_strs("? one\n  two\n: value\n", vec![("one two", "value")]);
}

#[test]
fn explicit_quoted_key() {
    assert_map_strs("? \"aaa bbb\"\n: value\n", vec![("aaa bbb", "value")]);
}

#[test]
fn explicit_seq_key() {
    let mut p = Parser::new("?\n  - a\n  - b\n: value\n");
    let v = p.parse_node(0).unwrap();
    let pairs = match &v {
        BorrowedValue::Mapping(pairs) => pairs,
        other => panic!("expected Map, got {other:?}"),
    };
    assert_eq!(pairs.len(), 1);
    match &pairs[0].0 {
        BorrowedValue::Sequence(items) => assert_eq!(items.len(), 2),
        other => panic!("expected Seq key, got {other:?}"),
    }
    assert!(matches!(&pairs[0].1, BorrowedValue::String(s) if s == "value"));
}

#[test]
fn explicit_map_key() {
    let mut p = Parser::new("? a: b\n: value\n");
    let v = p.parse_node(0).unwrap();
    let pairs = match &v {
        BorrowedValue::Mapping(pairs) => pairs,
        other => panic!("expected Map, got {other:?}"),
    };
    assert!(matches!(&pairs[0].0, BorrowedValue::Mapping(inner) if inner.len() == 1));
}

#[test]
fn explicit_value_at_wrong_indent_errors() {
    // the `:` line must sit at exactly the entry's indent
    let mut p = Parser::new("? key\n  : value\n");
    assert!(p.parse_node(0).is_err());
}
