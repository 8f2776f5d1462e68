use std::borrow::Cow;
use yaml0::{emit, BorrowedValue, Parser};

fn s(x: &str) -> BorrowedValue<'_> {
    BorrowedValue::String(Cow::Borrowed(x))
}

/// Emit, reparse, and assert the value survives; returns the emitted text
fn roundtrip(v: &BorrowedValue<'_>) -> String {
    let out = emit(v).unwrap();
    match Parser::new(&out).parse() {
        Ok(back) => assert_eq!(&back, v, "roundtrip mismatch for {out:?}"),
        Err(e) => panic!("emitted YAML does not reparse: {out:?} -> {}", e.msg),
    }
    out
}

#[test]
fn simple_key_stays_implicit() {
    let v = BorrowedValue::Mapping(vec![(s("a"), BorrowedValue::Int(1))]);
    assert_eq!(roundtrip(&v), "a: 1\n");
}

#[test]
fn seq_key_uses_explicit_form() {
    let v = BorrowedValue::Mapping(vec![(
        BorrowedValue::Sequence(vec![BorrowedValue::Int(1), BorrowedValue::Int(2)]),
        s("v"),
    )]);
    assert_eq!(roundtrip(&v), "?\n  - 1\n  - 2\n: v\n");
}

#[test]
fn map_key_uses_explicit_form() {
    let v = BorrowedValue::Mapping(vec![(
        BorrowedValue::Mapping(vec![(s("a"), BorrowedValue::Int(1))]),
        BorrowedValue::Int(9),
    )]);
    assert_eq!(roundtrip(&v), "?\n  a: 1\n: 9\n");
}

#[test]
fn multiline_string_key_uses_explicit_form() {
    let v = BorrowedValue::Mapping(vec![(s("one\ntwo"), BorrowedValue::Int(1))]);
    assert_eq!(roundtrip(&v), "? |-\n    one\n    two\n: 1\n");
}

#[test]
fn empty_container_key_uses_explicit_form() {
    // `[]: 1` is valid YAML, but the parser does not read flow nodes in
    // key position, so containers always take the explicit form
    let seq = BorrowedValue::Mapping(vec![(BorrowedValue::Sequence(vec![]), BorrowedValue::Int(1))]);
    assert_eq!(roundtrip(&seq), "? []\n: 1\n");
    let map = BorrowedValue::Mapping(vec![(BorrowedValue::Mapping(vec![]), BorrowedValue::Int(1))]);
    assert_eq!(roundtrip(&map), "? {}\n: 1\n");
}

#[test]
fn explicit_key_with_container_value() {
    let v = BorrowedValue::Mapping(vec![(
        BorrowedValue::Sequence(vec![BorrowedValue::Int(1)]),
        BorrowedValue::Sequence(vec![BorrowedValue::Int(2)]),
    )]);
    assert_eq!(roundtrip(&v), "?\n  - 1\n:\n  - 2\n");
}

#[test]
fn explicit_key_inside_seq_item() {
    let v = BorrowedValue::Sequence(vec![BorrowedValue::Mapping(vec![(
        BorrowedValue::Sequence(vec![BorrowedValue::Int(1)]),
        BorrowedValue::Int(2),
    )])]);
    assert_eq!(roundtrip(&v), "- ?\n    - 1\n  : 2\n");
}

#[test]
fn tagged_container_key_keeps_the_indicator_separated() {
    // the tag renders before the key body, so `?` still needs its space
    let v = BorrowedValue::Mapping(vec![(
        BorrowedValue::Tagged(
            Cow::Borrowed("!k"),
            Box::new(BorrowedValue::Sequence(vec![BorrowedValue::Int(1)])),
        ),
        BorrowedValue::Int(2),
    )]);
    assert_eq!(roundtrip(&v), "? !k\n  - 1\n: 2\n");
}
