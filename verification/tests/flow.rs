use yaml0::{BorrowedValue, Parser};

fn parse(src: &str) -> BorrowedValue<'_> {
    Parser::new(src).parse_node(0).unwrap()
}

fn as_seq(v: BorrowedValue<'_>) -> Vec<BorrowedValue<'_>> {
    match v {
        BorrowedValue::Sequence(items) => items,
        other => panic!("expected Seq, got {other:?}"),
    }
}

fn as_map(v: BorrowedValue<'_>) -> Vec<(BorrowedValue<'_>, BorrowedValue<'_>)> {
    match v {
        BorrowedValue::Mapping(pairs) => pairs,
        other => panic!("expected Map, got {other:?}"),
    }
}

// flow seq

#[test]
fn flow_seq_empty() {
    assert!(as_seq(parse("[]\n")).is_empty());
}

#[test]
fn flow_seq_simple_strings() {
    let items = as_seq(parse("[a, b, c]\n"));
    let strs: Vec<&str> = items
        .iter()
        .map(|v| match v {
            BorrowedValue::String(s) => s.as_ref(),
            _ => panic!(),
        })
        .collect();
    assert_eq!(strs, vec!["a", "b", "c"]);
}

#[test]
fn flow_seq_ints() {
    let items = as_seq(parse("[1, 2, 3]\n"));
    assert!(matches!(&items[0], BorrowedValue::Int(1)));
    assert!(matches!(&items[1], BorrowedValue::Int(2)));
    assert!(matches!(&items[2], BorrowedValue::Int(3)));
}

#[test]
fn flow_seq_trailing_comma() {
    assert_eq!(as_seq(parse("[a, b,]\n")).len(), 2);
}

#[test]
fn flow_seq_quoted_items() {
    let items = as_seq(parse("[\"a b\", 'c d']\n"));
    assert!(matches!(&items[0], BorrowedValue::String(s) if s == "a b"));
    assert!(matches!(&items[1], BorrowedValue::String(s) if s == "c d"));
}

#[test]
fn flow_seq_nested() {
    let items = as_seq(parse("[[1, 2], [3]]\n"));
    let inner0 = match &items[0] {
        BorrowedValue::Sequence(s) => s,
        _ => panic!(),
    };
    assert_eq!(inner0.len(), 2);
    let inner1 = match &items[1] {
        BorrowedValue::Sequence(s) => s,
        _ => panic!(),
    };
    assert_eq!(inner1.len(), 1);
}

#[test]
fn flow_seq_multiline() {
    let items = as_seq(parse("[\n  a,\n  b,\n]\n"));
    assert_eq!(items.len(), 2);
}

#[test]
fn flow_seq_unterminated_errors() {
    assert!(Parser::new("[a, b\n").parse_node(0).is_err());
}

#[test]
fn flow_seq_with_comment() {
    let items = as_seq(parse("[a, # ignored\n  b]\n"));
    assert_eq!(items.len(), 2);
    assert!(matches!(&items[0], BorrowedValue::String(s) if s == "a"));
    assert!(matches!(&items[1], BorrowedValue::String(s) if s == "b"));
}

#[test]
fn flow_seq_with_alias() {
    let pairs = as_map(parse("defs: &x 7\nitems: [*x, *x]\n"));
    let items = match &pairs[1].1 {
        BorrowedValue::Sequence(s) => s,
        _ => panic!(),
    };
    assert!(matches!(&items[0], BorrowedValue::Int(7)));
    assert!(matches!(&items[1], BorrowedValue::Int(7)));
}

// flow map

#[test]
fn flow_map_empty() {
    assert!(as_map(parse("{}\n")).is_empty());
}

#[test]
fn flow_map_simple() {
    let pairs = as_map(parse("{a: 1, b: 2}\n"));
    assert!(matches!(&pairs[0].0, BorrowedValue::String(s) if s == "a"));
    assert!(matches!(&pairs[0].1, BorrowedValue::Int(1)));
    assert!(matches!(&pairs[1].0, BorrowedValue::String(s) if s == "b"));
    assert!(matches!(&pairs[1].1, BorrowedValue::Int(2)));
}

#[test]
fn flow_map_quoted_keys() {
    let pairs = as_map(parse("{\"k 1\": 1}\n"));
    assert!(matches!(&pairs[0].0, BorrowedValue::String(s) if s == "k 1"));
    assert!(matches!(&pairs[0].1, BorrowedValue::Int(1)));
}

#[test]
fn flow_map_json_style_quoted_key() {
    let pairs = as_map(parse("{\"a\":1}\n"));
    assert!(matches!(&pairs[0].0, BorrowedValue::String(s) if s == "a"));
    assert!(matches!(&pairs[0].1, BorrowedValue::Int(1)));
}

#[test]
fn flow_map_colon_no_space() {
    let pairs = as_map(parse("{a:1, b:2}\n"));
    assert!(matches!(&pairs[0].0, BorrowedValue::String(s) if s == "a"));
    assert!(matches!(&pairs[0].1, BorrowedValue::Int(1)));
    assert!(matches!(&pairs[1].0, BorrowedValue::String(s) if s == "b"));
    assert!(matches!(&pairs[1].1, BorrowedValue::Int(2)));
}

#[test]
fn flow_map_implicit_null_value() {
    let pairs = as_map(parse("{a:, b: 2}\n"));
    assert!(matches!(&pairs[0].1, BorrowedValue::Null));
    assert!(matches!(&pairs[1].1, BorrowedValue::Int(2)));
}

#[test]
fn flow_pair_shorthand() {
    let pairs = as_map(parse("{a, b}\n"));
    assert_eq!(pairs.len(), 2);
    assert!(matches!(&pairs[0].1, BorrowedValue::Null));
    assert!(matches!(&pairs[1].1, BorrowedValue::Null));
}

#[test]
fn flow_map_multiline() {
    let pairs = as_map(parse("{\n  a: 1,\n  b: 2,\n}\n"));
    assert_eq!(pairs.len(), 2);
}

#[test]
fn flow_map_with_comment() {
    let pairs = as_map(parse("{a: 1, # mid-map\n  b: 2}\n"));
    assert_eq!(pairs.len(), 2);
}

#[test]
fn flow_map_unterminated_errors() {
    assert!(Parser::new("{a: 1\n").parse_node(0).is_err());
}

// mixed flow/block

#[test]
fn flow_map_nested_in_seq() {
    let items = as_seq(parse("[{a: 1}, {b: 2}]\n"));
    assert_eq!(items.len(), 2);
    let first = match &items[0] {
        BorrowedValue::Mapping(p) => p,
        _ => panic!(),
    };
    assert_eq!(first.len(), 1);
}

#[test]
fn flow_seq_as_block_map_value() {
    let pairs = as_map(parse("items: [a, b]\nname: x\n"));
    assert_eq!(pairs.len(), 2);
    let items = match &pairs[0].1 {
        BorrowedValue::Sequence(s) => s,
        _ => panic!(),
    };
    assert_eq!(items.len(), 2);
    assert!(matches!(&pairs[1].1, BorrowedValue::String(s) if s == "x"));
}
