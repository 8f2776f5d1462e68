use std::borrow::Cow;
use yaml0::{
    emit, locate, parse_path, set_with, BorrowedValue, Document, NodeKind, Parser, Segment, SetOpts, SetOutcome,
};

fn s(x: &str) -> BorrowedValue<'static> {
    BorrowedValue::String(Cow::Owned(x.to_owned()))
}

fn parse(src: &str) -> BorrowedValue<'static> {
    Parser::new(src).parse().unwrap().to_static()
}

/// What is emitted is read back.
#[test]
fn emitted_values_read_back() {
    let values = [
        BorrowedValue::Null,
        BorrowedValue::Bool(false),
        BorrowedValue::Int(i64::MIN),
        BorrowedValue::Float("2.5".into()),
        s(""),
        s("null"),
        s("42"),
        s("it's: \"both\" # kinds"),
        s("ctrl \u{7} and tab\t"),
        s("---"),
        s("one\n\n two\n"),
        s("\n\nlate"),
        BorrowedValue::Sequence(vec![]),
        BorrowedValue::Sequence(vec![
            BorrowedValue::Sequence(vec![BorrowedValue::Int(1), BorrowedValue::Sequence(vec![])]),
            BorrowedValue::Mapping(vec![(s("k"), s("a\nb")), (s("j"), BorrowedValue::Mapping(vec![]))]),
        ]),
        BorrowedValue::Mapping(vec![
            (BorrowedValue::Null, BorrowedValue::Sequence(vec![s("- x")])),
            (s("a: b"), BorrowedValue::Tagged("!t".into(), Box::new(s("v")))),
            (
                BorrowedValue::Mapping(vec![(s("deep"), BorrowedValue::Int(1))]),
                BorrowedValue::Mapping(vec![(s("x"), BorrowedValue::Bool(true))]),
            ),
        ]),
        BorrowedValue::Tagged("!<tag:x,2026:y>".into(), Box::new(BorrowedValue::Sequence(vec![s("z")]))),
    ];
    for v in values {
        let out = emit(&v).unwrap();
        assert_eq!(parse(&out), v, "from {out:?}");
    }
}

#[test]
fn floats_are_emitted_as_yaml_spells_them() {
    for (t, want) in [("NaN", ".nan\n"), ("inf", ".inf\n"), ("-inf", "-.inf\n"), ("3", "3.0\n"), ("1e5", "1e5\n")] {
        assert_eq!(emit(&BorrowedValue::Float(t.into())).unwrap(), want);
    }
}

/// Every path has a written form that is read back.
#[test]
fn written_paths_read_back() {
    assert_eq!(
        parse_path("#3.\"a.b\"[7].'say \"hi\"'").unwrap(),
        vec![Segment::Doc(3), Segment::Key("a.b"), Segment::Index(7), Segment::Key("say \"hi\"")]
    );
}

#[test]
fn path_errors_name_the_path_and_the_place() {
    for (path, msg, col) in [
        ("a..b", "empty path segment in path \"a..b\"", 2),
        ("a.", "trailing '.' in path in path \"a.\"", 2),
        ("#", "expected a document number after '#' in path \"#\"", 1),
        ("#0x", "expected . at position 2 in path \"#0x\"", 2),
        ("a[x]", "expected an index in path \"a[x]\"", 2),
        ("a[0", "expected ] at position 3 in path \"a[0\"", 3),
        ("'a", "unterminated quoted path segment in path \"'a\"", 1),
        ("a]", "unmatched ']' in path \"a]\"", 1),
        ("[0]a", "expected '.' between segments in path \"[0]a\"", 3),
        ("a[99999999999999999999]", "expected an index in path \"a[99999999999999999999]\"", 2),
    ] {
        let e = parse_path(path).unwrap_err();
        assert_eq!((e.msg.as_str(), e.line, e.col), (msg, None, Some(col)), "{path:?}");
    }
    assert!(parse_path("tab\t..").unwrap_err().msg.ends_with("in path \"tab\\t..\""));
}

/// An edit touches only the bytes that the path names, and reads back.
#[test]
fn an_edit_is_surgical_and_reads_back() {
    let src = "# top\na: 1 # one\nb:\n  - 'x'  # two\n  - y\n";
    let path = [Segment::Key("b"), Segment::Index(0)];
    let span = locate(src, &path).unwrap().unwrap().span;
    let (out, outcome) = yaml0::edit::set::set(src, &path, "it's: new").unwrap();
    assert_eq!(outcome, SetOutcome::Spliced);
    assert_eq!(out, "# top\na: 1 # one\nb:\n  - 'it''s: new'  # two\n  - y\n");
    assert_eq!(&out[..span.start], &src[..span.start]);
    let after = locate(&out, &path).unwrap().unwrap();
    assert_eq!(after.kind, NodeKind::Literal);
    assert_eq!(&out[after.span.clone()], "'it''s: new'");
    assert_eq!(&out[after.span.end..], &src[span.end..]);
}

/// Without options a value keeps its type, or the edit is refused.
#[test]
fn types_are_kept() {
    let at = |src: &str, value: &str| yaml0::edit::set::set(src, &[Segment::Key("k")], value).unwrap().0;
    let no = |src: &str, value: &str| yaml0::edit::set::set(src, &[Segment::Key("k")], value).unwrap_err().msg;
    let why = "this edit changes the type of the value, SetOpts::allow_type_change allows it";
    for (src, value) in [
        ("k: 7\n", "1.5"),
        ("k: 7\n", "hello"),
        ("k: 7\n", "true"),
        ("k: 7\n", ""),
        ("k: 1.5\n", "2"),
        ("k: true\n", "yes"),
        ("k: ~\n", "7"),
        ("k: !!int \"7\"\n", "word"),
        ("k: [1, 2]\n", "x"),
    ] {
        let opts = SetOpts::new().allow_type_change().replace_nodes();
        assert!(set_with(src, &[Segment::Key("k")], value, opts).is_ok(), "{src:?} to {value:?}");
        assert!(no(src, value) == why || src.contains('['), "{src:?} to {value:?}");
    }
    assert_eq!(at("k: 1.5\n", "2.0"), "k: 2.0\n");
    assert_eq!(at("k: true\n", "false"), "k: false\n");
    assert_eq!(at("k: !!str 7\n", "word"), "k: !!str word\n");
    assert_eq!(at("k: !!int \"7\"\n", "8"), "k: !!int \"8\"\n");
    assert_eq!(at("k: !!float 7\n", "1.5"), "k: !!float 1.5\n");
    assert_eq!(at("k: !t 7\n", "8"), "k: !t 8\n");
    assert_eq!(at("k: word\n", "42"), "k: '42'\n");
    assert_eq!(at("k: 7\n", "42"), "k: 42\n");
    assert_eq!(at("k: \"7\"\n", "42"), "k: \"42\"\n");
    assert_eq!(at("k: '7'\n", "a\nb"), "k: \"a\\nb\"\n");
}

/// An option lifts a restriction and changes nothing else.
#[test]
fn options_only_permit() {
    let all = SetOpts::new().replace_nodes().edit_anchors().edit_refs().insert_empty().override_inherited();
    for (src, path) in [("a: 1\n", "a"), ("a:\n  - x\n", "a[0]")] {
        let p = parse_path(path).unwrap();
        let plain = yaml0::edit::set::set(src, &p, "9").unwrap();
        assert_eq!(set_with(src, &p, "9", all.clone()).unwrap(), plain);
    }
}

#[test]
fn refusals_say_why() {
    let no = |src: &str, path: &str, opts: SetOpts| set_with(src, &parse_path(path).unwrap(), "x", opts).unwrap_err().msg;
    assert_eq!(no("a: 1\n", "b", SetOpts::new()), "no node at that path");
    assert_eq!(
        no("a: &n 1\n", "a", SetOpts::new()),
        "this edit reaches the anchor '&n', SetOpts::edit_anchors allows it"
    );
    assert_eq!(
        no("a: &n 1\nb: *n\n", "b", SetOpts::new()),
        "'*n' is an alias. SetOpts::edit_refs allows severing the link here."
    );
    assert_eq!(
        no("a: &n {k: 1}\nb: *n\n", "b.k", SetOpts::new().edit_refs()),
        "path continues past the alias '*n', expansion is unsupported"
    );
    assert_eq!(
        no("a: &n {k: 1}\nb: *n\n", "b", SetOpts::new().edit_refs()),
        "alias points to a collection, SetOpts::replace_nodes allows replacing it"
    );
    assert_eq!(
        no("a: [1]\n", "a", SetOpts::new()),
        "path addresses a collection, SetOpts::replace_nodes allows replacing it"
    );
    assert_eq!(
        no("b: &n {k: 1}\nm:\n  <<: *n\n", "m.k", SetOpts::new()),
        "key is inherited through '<<', SetOpts::override_inherited writes an explicit key that overrides it"
    );
    assert_eq!(
        no("a:\n", "a", SetOpts::new()),
        "current value is empty, SetOpts::insert_empty allows creating it"
    );
    assert_eq!(
        no("- \n", "[0]", SetOpts::new().insert_empty()),
        "only an empty mapping value can be filled in"
    );
    assert_eq!(
        no("b: &n {k: 1}\nm: {<<: *n}\n", "m.k", SetOpts::new().override_inherited()),
        "cannot add an override inside a flow mapping"
    );
}

#[test]
fn removals_say_why_they_are_refused() {
    let no = |src: &str, path: &str| Document::new(src).remove(&parse_path(path).unwrap()).unwrap_err().msg;
    assert_eq!(no("a: 1\n", "b"), "no node at given path");
    assert_eq!(no("b: &n {k: 1}\nm:\n  <<: *n\n", "m.k"), "key is inherited through '<<', not present on the document");
    assert_eq!(no("a: &n 1\n", "a"), "removing an anchored value would break its aliases");
    assert_eq!(no("- a\n", "[0]"), "only a mapping entry can be removed");
    assert_eq!(no("o: {a: 1}\n", "o.a"), "cannot remove an entry from a flow mapping");
}

/// A later edit that is refused takes the earlier ones with it.
#[test]
fn a_refused_edit_undoes_the_whole_apply() {
    let src = "a: 1\nb: &n 2\n";
    let value = |a: i64, b: i64| {
        BorrowedValue::Mapping(vec![(s("a"), BorrowedValue::Int(a)), (s("b"), BorrowedValue::Int(b))])
    };
    let mut doc = Document::new(src);
    assert!(doc.apply(&value(1, 2), &value(5, 6)).is_err());
    assert_eq!(doc.as_str(), src);
    doc.apply_with(&value(1, 2), &value(5, 6), SetOpts::new().edit_anchors()).unwrap();
    assert_eq!(doc.as_str(), "a: 5\nb: &n 6\n");
}

#[test]
fn structural_differences_are_all_named() {
    let before = parse("a: 1\nl: [1, 2]\nn:\n");
    let after = parse("a: [1]\nl: [1]\nn: 3\nz: 9\n");
    let e = Document::new("a: 1\nl: [1, 2]\nn:\n").apply(&before, &after).unwrap_err();
    assert_eq!(
        e.msg,
        "apply cannot make structural changes: a: shape changed; l: sequence length 2 -> 1; \
         n: giving a value to an absent field; z: adding a key"
    );
}

/// Aliases of aliases end at a value, also where an anchor is defined anew around
/// an alias to the old one.
#[test]
fn following_aliases_ends() {
    let src = "x: &m {k: 1}\na: &m\n  <<: *m\n";
    assert!(locate(src, &[Segment::Key("a"), Segment::Key("nope")]).unwrap().is_none());
    let found = locate(src, &[Segment::Key("a"), Segment::Key("k")]).unwrap().unwrap();
    assert_eq!(found.kind, NodeKind::MergeInherited);
    let (out, _) = set_with("a: &x 1\nb: &y *x\nc: *y\n", &[Segment::Key("c")], "9", SetOpts::new().follow_refs()).unwrap();
    assert_eq!(out, "a: &x 9\nb: &y *x\nc: *y\n");
}

/// A mapping's own entries come first; merged ones never repeat a key.
#[test]
fn merged_entries_follow_the_own_ones() {
    let v = parse("a: &a {k: 1, x: 2}\nb: &b {k: 3, y: 4}\nm:\n  y: own\n  <<: [*a, *b]\n");
    let BorrowedValue::Mapping(pairs) = v else { panic!() };
    assert_eq!(
        pairs[2].1,
        BorrowedValue::Mapping(vec![
            (s("y"), s("own")),
            (s("k"), BorrowedValue::Int(1)),
            (s("x"), BorrowedValue::Int(2)),
        ])
    );
}

/// A byte order mark is no part of the text, and spans count it.
#[test]
fn spans_count_the_byte_order_mark() {
    let src = "\u{FEFF}a: old\n";
    let found = locate(src, &[Segment::Key("a")]).unwrap().unwrap();
    assert_eq!(&src[found.span], "old");
    let (out, _) = yaml0::edit::set::set(src, &[Segment::Key("a")], "new").unwrap();
    assert_eq!(out, "\u{FEFF}a: new\n");
}

/// Removing an entry removes whole lines.
#[test]
fn removal_takes_whole_lines() {
    let mut doc = Document::new("# a\na: 1\nb:\n  - x # why\n  - y # too\nc: 2\n");
    doc.remove(&[Segment::Key("b")]).unwrap();
    assert_eq!(doc.as_str(), "# a\na: 1\nc: 2\n");
}

/// An edit inside a flow collection leaves the rest of it alone.
#[test]
fn an_edit_in_a_flow_collection_reads_back() {
    let src = "k: [a, {b: 'c', d: e}, \"f\"] # x\nl: 1\n";
    let path = [Segment::Key("k"), Segment::Index(1), Segment::Key("d")];
    let (out, outcome) = yaml0::edit::set::set(src, &path, "brand new").unwrap();
    assert_eq!(outcome, SetOutcome::Spliced);
    assert_eq!(out, "k: [a, {b: 'c', d: brand new}, \"f\"] # x\nl: 1\n");
    let at = |p: &[Segment]| &out[locate(&out, p).unwrap().unwrap().span];
    assert_eq!(at(&path), "brand new");
    assert_eq!(at(&[Segment::Key("k"), Segment::Index(1), Segment::Key("b")]), "'c'");
    assert_eq!(at(&[Segment::Key("k"), Segment::Index(2)]), "\"f\"");
    assert_eq!(at(&[Segment::Key("l")]), "1");
}

/// A flow collection may span lines.
#[test]
fn an_edit_in_a_tall_flow_collection_reads_back() {
    let src = "k: [\n  a, # one\n  'b'\n]\nl: 1\n";
    let path = [Segment::Key("k"), Segment::Index(0)];
    let (out, _) = yaml0::edit::set::set(src, &path, "longer than before").unwrap();
    assert_eq!(out, "k: [\n  longer than before, # one\n  'b'\n]\nl: 1\n");
    let at = |p: &[Segment]| &out[locate(&out, p).unwrap().unwrap().span];
    assert_eq!(at(&path), "longer than before");
    assert_eq!(at(&[Segment::Key("k"), Segment::Index(1)]), "'b'");
    assert_eq!(at(&[Segment::Key("l")]), "1");
}

/// An edit changes no other document of the stream.
#[test]
fn an_edit_stays_in_its_document() {
    let src = "a: 1\n---\nb:\n- x\n- 'y'\n...\n--- c\n";
    let path = [Segment::Doc(1), Segment::Key("b"), Segment::Index(1)];
    let (out, _) = yaml0::edit::set::set(src, &path, "z").unwrap();
    assert_eq!(out, "a: 1\n---\nb:\n- x\n- 'z'\n...\n--- c\n");
    let before = Parser::new(src).parse_all().unwrap();
    let after = Parser::new(&out).parse_all().unwrap();
    assert_eq!(after.len(), 3);
    assert_eq!(after[0], before[0]);
    assert_eq!(after[1], parse("b: [x, z]\n"));
    assert_eq!(after[2], before[2]);
}

/// A block scalar becomes a plain one, and what follows it stays.
#[test]
fn a_block_scalar_is_replaced_in_place() {
    let src = "a:\n  b: |\n    one\n    two\n\n  # next\n  c: 1\nd: >-\n  three\ne: 2\n";
    let path = [Segment::Key("a"), Segment::Key("b")];
    let (out, outcome) = yaml0::edit::set::set(src, &path, "plain text").unwrap();
    assert_eq!(outcome, SetOutcome::Spliced);
    assert_eq!(out, "a:\n  b: plain text\n\n  # next\n  c: 1\nd: >-\n  three\ne: 2\n");
    let at = |out: &str, p: &[Segment]| out[locate(out, p).unwrap().unwrap().span].to_owned();
    assert_eq!(at(&out, &path), "plain text");
    assert_eq!(at(&out, &[Segment::Key("a"), Segment::Key("c")]), "1");
    let (out, _) = yaml0::edit::set::set(&out, &[Segment::Key("d")], "four").unwrap();
    assert_eq!(out, "a:\n  b: plain text\n\n  # next\n  c: 1\nd: four\ne: 2\n");
    assert_eq!(at(&out, &[Segment::Key("e")]), "2");
}

/// A path leads to the bytes that its value was read from.
#[test]
fn a_path_leads_to_what_was_read() {
    let src = "a: [x, {b: !t 'y'}]\nc: >\n  z\n? d\n: 1.5\n";
    for (path, text) in [("a[0]", "x"), ("a[1].b", "'y'"), ("c", ">\n  z"), ("d", "1.5")] {
        let found = locate(src, &parse_path(path).unwrap()).unwrap().unwrap();
        assert_eq!(&src[found.span.start..found.span.end], text);
    }
}
