use std::borrow::Cow;
use yaml0::{
    emit, locate, parse_path, set_with, BorrowedValue, Document, NodeKind, Parser, SetOpts, SetOutcome,
};

fn s(x: &str) -> BorrowedValue<'static> {
    BorrowedValue::String(Cow::Owned(x.to_owned()))
}

fn list(items: &[&str]) -> BorrowedValue<'static> {
    BorrowedValue::Sequence(items.iter().map(|x| s(x)).collect())
}

fn tag(t: &str, v: BorrowedValue<'static>) -> BorrowedValue<'static> {
    BorrowedValue::Tagged(Cow::Owned(t.to_owned()), Box::new(v))
}

fn parse(src: &str) -> BorrowedValue<'static> {
    Parser::new(src).parse().unwrap().to_static()
}

fn edit(src: &str, path: &str, value: &str, opts: SetOpts) -> Result<(String, SetOutcome<'static>), String> {
    set_with(src, &parse_path(path).unwrap(), value, opts)
        .map(|(out, outcome)| (out, outcome.into_owned()))
        .map_err(|e| e.msg)
}

/// A carriage return and a line feed are one line break.
#[test]
fn errors_count_lines_alike_in_all_texts() {
    for end in ["\n", "\r\n", "\r"] {
        let src = format!("{{a: 1}}{end}{{b: 2}}{end}");
        let e = Parser::new(&src).parse_all().unwrap_err();
        assert_eq!((e.line, e.col), (Some(2), Some(1)), "{end:?}");
    }
    let mut p = Parser::new("a\r\n\r\nb");
    for _ in 0..5 {
        p.advance();
    }
    assert_eq!((p.line(), p.col()), (3, 1));
}

#[test]
fn reordering_a_sequence_is_refused() {
    let mut doc = Document::new("- a\n- b\n");
    let e = doc.apply(&list(&["a", "b"]), &list(&["b", "a"])).unwrap_err();
    assert_eq!(e.msg, "apply cannot make structural changes: : sequence reordered");
    assert_eq!(doc.as_str(), "- a\n- b\n");
    let src = "k:\n  - a\n  - b\n  - a\n";
    let of = |v| BorrowedValue::Mapping(vec![(s("k"), v)]);
    let mut doc = Document::new(src);
    let e = doc.apply(&of(list(&["a", "b", "a"])), &of(list(&["a", "a", "b"]))).unwrap_err();
    assert_eq!(e.msg, "apply cannot make structural changes: k: sequence reordered");
    doc.apply(&of(list(&["a", "b", "a"])), &of(list(&["b", "b", "a"]))).unwrap();
    assert_eq!(doc.as_str(), "k:\n  - b\n  - b\n  - a\n");
}

/// A float is written so that it stays one.
#[test]
fn an_applied_float_stays_a_float() {
    let of = |t: &str| BorrowedValue::Mapping(vec![(s("k"), BorrowedValue::Float(Cow::Owned(t.to_owned())))]);
    let mut doc = Document::new("k: 1.5\n");
    doc.apply(&of("1.5"), &of("2")).unwrap();
    assert_eq!(doc.as_str(), "k: 2.0\n");
    doc.apply(&of("2"), &of("inf")).unwrap();
    assert_eq!(doc.as_str(), "k: .inf\n");
}

/// A value in a flow collection stays one value.
#[test]
fn a_flow_item_stays_one_item() {
    let strict = SetOpts::new;
    assert_eq!(edit("l: [a, b]\n", "l[0]", "x, y", strict()).unwrap().0, "l: ['x, y', b]\n");
    assert_eq!(edit("l: {a: b, c: d}\n", "l.a", "e:f", strict()).unwrap().0, "l: {a: 'e:f', c: d}\n");
    assert_eq!(edit("l: [\n  a\n]\n", "l[0]", "]", strict()).unwrap().0, "l: [\n  ']'\n]\n");
    assert_eq!(edit("l: [a]\nm: b\n", "m", "x, [y]", strict()).unwrap().0, "l: [a]\nm: x, [y]\n");
    let v = parse(&edit("l: [a, b]\n", "l[0]", "x, y", strict()).unwrap().0);
    assert_eq!(v, BorrowedValue::Mapping(vec![(s("l"), list(&["x, y", "b"]))]));
}

/// A path that goes on below an inherited key names nothing.
#[test]
fn a_path_past_an_inherited_key_is_refused() {
    let src = "base: &b\n  image: nginx\napp:\n  <<: *b\n";
    assert_eq!(
        edit(src, "app.image.x", "v", SetOpts::new().override_inherited()).unwrap_err(),
        "path continues past the inherited key, and a key that is not there is not added"
    );
    assert!(edit(src, "app.image[0]", "v", SetOpts::new().override_inherited()).unwrap_err().contains("key name"));
    let (out, _) = edit(src, "app.image", "v", SetOpts::new().override_inherited()).unwrap();
    assert_eq!(out, "base: &b\n  image: nginx\napp:\n  <<: *b\n  image: v\n");
}

/// An override keeps the type of what it overrides, and does not split a flow mapping.
#[test]
fn an_override_keeps_the_type() {
    let over = || SetOpts::new().override_inherited();
    let src = "n: &n 1\nbase: &b\n  i: 2\n  s: !!str 3\n  a: *n\napp:\n  <<: *b\n";
    let line = |path: &str, v: &str| edit(src, path, v, over()).map(|(out, _)| out[src.len()..].to_owned());
    assert_eq!(line("app.i", "5").unwrap(), "  i: 5\n");
    assert!(line("app.i", "word").is_err());
    assert_eq!(line("app.s", "4").unwrap(), "  s: '4'\n");
    assert_eq!(line("app.a", "4").unwrap(), "  a: 4\n");
    assert!(line("app.a", "word").is_err());
    let src = "base: &b\n  k: [v]\napp:\n  <<: *b\n";
    assert!(edit(src, "app.k", "x", over()).unwrap_err().contains("collection"));
    assert!(edit(src, "app.k", "x", over().replace_nodes()).is_ok());
    let src = "base: &b\n  k: v\napp: {\n  <<: *b\n}\n";
    assert_eq!(edit(src, "app.k", "x", over()).unwrap_err(), "cannot add an override inside a flow mapping");
}

/// The value of an entry is written into that entry.
#[test]
fn filling_writes_into_the_entry() {
    let fill = |src: &str, path: &str, v: &str| {
        let (out, outcome) = edit(src, path, v, SetOpts::new().insert_empty()).unwrap();
        assert_eq!(outcome, SetOutcome::Inserted);
        let at = locate(&out, &parse_path(path).unwrap()).unwrap().unwrap().span;
        assert_eq!(out[at].trim_matches('\''), v);
        out
    };
    assert_eq!(fill("opts: {a, b: 2}\n", "opts.a", "x"), "opts: {a: x, b: 2}\n");
    assert_eq!(fill("opts: {a: , b: 2}\n", "opts.a", "x"), "opts: {a: x, b: 2}\n");
    assert_eq!(fill("opts: {a:, b: 2}\n", "opts.a", "x"), "opts: {a: x, b: 2}\n");
    assert_eq!(fill("opts: {a: , b: 2}\n", "opts.a", "x, y"), "opts: {a: 'x, y', b: 2}\n");
    assert_eq!(fill("opts: {a\n  : , b: 2}\n", "opts.a", "x"), "opts: {a\n  : x, b: 2}\n");
    assert_eq!(fill("opts: {b: 2, a: }\n", "opts.a", "x"), "opts: {b: 2, a: x}\n");
    assert_eq!(fill("a: # why\nb: 1\n", "a", "x"), "a: x # why\nb: 1\n");
    assert_eq!(fill("a: !!str\nb: 1\n", "a", "x"), "a: !!str x\nb: 1\n");
    assert_eq!(fill("? a\n:\nb: 1\n", "a", "x"), "? a\n: x\nb: 1\n");
    assert_eq!(fill("\"a\" :\nb: 1\n", "a", "x"), "\"a\" : x\nb: 1\n");
    let e = edit("? a\n? b\n", "a", "x", SetOpts::new().insert_empty()).unwrap_err();
    assert_eq!(e, "an explicit key without a colon has no place for a value");
}

/// An empty value with an anchor is an anchor definition.
#[test]
fn filling_an_anchored_value_needs_the_option() {
    let src = "a: &x\nb: *x\n";
    assert_eq!(
        edit(src, "a", "v", SetOpts::new().insert_empty()).unwrap_err(),
        "this value is inside the anchor '&x', SetOpts::edit_anchors allows editing it"
    );
    let (out, outcome) = edit(src, "a", "v", SetOpts::new().insert_empty().edit_anchors()).unwrap();
    assert_eq!(out, "a: &x v\nb: *x\n");
    assert_eq!(outcome, SetOutcome::PropagatedAnchor { name: "x".into(), refs: 1 });
    let (out, _) = edit("{a: &x, b: *x}\n", "a", "v", SetOpts::new().insert_empty().edit_anchors()).unwrap();
    assert_eq!(out, "{a: &x v, b: *x}\n");
    // The token stays, and the value it stands for is filled in.
    let (out, _) = edit(src, "b", "v", SetOpts::new().insert_empty().follow_refs()).unwrap();
    assert_eq!(out, "a: &x v\nb: *x\n");
    assert!(edit("- &x\n- *x\n", "[1]", "v", SetOpts::new().insert_empty().follow_refs()).is_err());
}

/// An alias of an alias takes its type and its shape from the end of the chain.
#[test]
fn severing_an_alias_of_an_alias_keeps_the_type() {
    let src = "a: &x 1\nb: &y *x\nc: *y\n";
    assert_eq!(edit(src, "c", "9", SetOpts::new().edit_refs()).unwrap().0, "a: &x 1\nb: &y *x\nc: 9\n");
    assert!(edit(src, "c", "word", SetOpts::new().edit_refs()).is_err());
    let src = "a: &x [1]\nb: &y *x\nc: *y\n";
    assert!(edit(src, "c", "v", SetOpts::new().edit_refs()).unwrap_err().contains("collection"));
}

/// A path through an alias names no entry to remove, and flow mappings have no lines.
#[test]
fn removal_stays_in_its_lines() {
    let no = |src: &str, path: &str| {
        let mut doc = Document::new(src);
        let e = doc.remove(&parse_path(path).unwrap()).unwrap_err();
        assert_eq!(doc.as_str(), src);
        e.msg
    };
    assert_eq!(no("a: &x {k: 1}\nb: *x\n", "b.k"), "no node at given path");
    assert_eq!(no("o: {\n  a: 1, b: 2\n}\n", "o.a"), "cannot remove an entry from a flow mapping");
}

/// Emitted values with tags and line feeds read back.
#[test]
fn tags_and_line_feeds_read_back() {
    let map = |k, v| BorrowedValue::Mapping(vec![(k, v)]);
    let one = || BorrowedValue::Sequence(vec![BorrowedValue::Int(1)]);
    for (v, text) in [
        (map(s("a"), tag("!k", one())), "a: !k\n  - 1\n"),
        (map(tag("!k", s("a")), BorrowedValue::Int(1)), "? !k a\n: 1\n"),
        (map(s("a"), tag("!k", tag("!l", s("b")))), "a: !k\n  !l b\n"),
        (tag("!k", tag("!l", one())), "!k\n!l\n- 1\n"),
        (s("a\n\n"), "\"a\\n\\n\"\n"),
        (s("a\n"), "|\n  a\n"),
        (s("  a\nb"), "\"  a\\nb\"\n"),
        (s("\n"), "\"\\n\"\n"),
        (map(s("a"), s("it's\n\n\n")), "a: \"it's\\n\\n\\n\"\n"),
    ] {
        let out = emit(&v).unwrap();
        assert_eq!(out, text);
        assert_eq!(parse(&out), v);
    }
}

/// An implicit key is on one line, quoted or not.
#[test]
fn a_key_does_not_span_lines() {
    for src in ["\"a\n b\": 1\n", "x: 0\n'a\n b': 1\n", "[a,\n b]: 1\n"] {
        let e = Parser::new(src).parse_all().unwrap_err();
        assert_eq!(e.msg, "implicit key must not span multiple lines", "{src:?}");
    }
    assert_eq!(
        parse("? \"a\n b\"\n: 1\n"),
        BorrowedValue::Mapping(vec![(s("a b"), BorrowedValue::Int(1))])
    );
}

/// A value that begins like a byte order mark is written so that it stays.
#[test]
fn a_mark_at_the_start_is_kept() {
    let (out, _) = set_with("x", &[], "\u{feff}y", SetOpts::new()).unwrap();
    assert_eq!(out, "'\u{feff}y'");
    assert_eq!(parse(&out), s("\u{feff}y"));
    let text = emit(&s("\u{feff}y")).unwrap();
    assert_eq!(parse(&text), s("\u{feff}y"));
}

/// A scalar in place of a sequence whose dashes stand below the key.
#[test]
fn a_compact_sequence_can_be_replaced() {
    let opts = || SetOpts::new().replace_nodes();
    let src = "ports:\n- 80\n- 443\nnext: 1\n";
    let (out, outcome) = edit(src, "ports", "none", opts()).unwrap();
    assert_eq!(out, "ports:\n none\nnext: 1\n");
    assert_eq!(outcome, SetOutcome::ReplacedNode);
    assert_eq!(
        parse(&out),
        BorrowedValue::Mapping(vec![(s("ports"), s("none")), (s("next"), BorrowedValue::Int(1))])
    );
    let (out, _) = edit("- a: 1\n  b:\n  - x\n  c: 2\n", "[0].b", "none", opts()).unwrap();
    assert_eq!(out, "- a: 1\n  b:\n   none\n  c: 2\n");
    let (out, _) = edit("a:\n  - x\n", "a", "none", opts()).unwrap();
    assert_eq!(out, "a:\n  none\n");
    let (out, _) = edit("a: {b: [x]}\n", "a.b", "y", opts()).unwrap();
    assert_eq!(out, "a: {b: y}\n");
}

/// Lines end alike for all edits, and a byte order mark is before the first one.
#[test]
fn lines_are_lines_whatever_ends_them() {
    let remove = |src: &str, path: &str| {
        let mut doc = Document::new(src);
        doc.remove(&parse_path(path).unwrap()).unwrap();
        doc.into_string()
    };
    assert_eq!(remove("a: 1\r\nb: 2\r\nc: 3\r\n", "b"), "a: 1\r\nc: 3\r\n");
    assert_eq!(remove("a: 1\rb: 2\rc: 3\r", "a"), "b: 2\rc: 3\r");
    assert_eq!(remove("a: 1\rb: 2\rc: 3\r", "b"), "a: 1\rc: 3\r");
    assert_eq!(remove("\u{feff}a: 1\nb: 2\n", "a"), "\u{feff}b: 2\n");
    let src = "b: &b\r  k: 1\rm:\r  <<: *b\r  z: 2\r";
    let (out, _) = edit(src, "m.k", "5", SetOpts::new().override_inherited()).unwrap();
    assert_eq!(out, "b: &b\r  k: 1\rm:\r  <<: *b\n  k: 5\r  z: 2\r");
    assert_eq!(parse(&edit("\u{feff}<<: {}\na:\n", "a", "x", SetOpts::new().insert_empty()).unwrap().0), parse("a: x\n"));
}

/// A quoted value over lines that begins later on the line would be read otherwise.
#[test]
fn an_edit_does_not_move_a_value_of_several_lines() {
    let src = "k: {image: x, b: \"p\n                   q\"}\n";
    let e = edit(src, "k.image", "longer", SetOpts::new()).unwrap_err();
    assert_eq!(e, "a quoted value that goes on over lines begins on this line, and would be read otherwise");
    let (out, _) = edit(src, "k.image", "y", SetOpts::new()).unwrap();
    assert_eq!(out, "k: {image: y, b: \"p\n                   q\"}\n");
    let src = "k: {image: , b: \"p\n  q\"}\n";
    let (out, _) = edit(src, "k.image", "v", SetOpts::new().insert_empty()).unwrap();
    assert_eq!(out, "k: {image: v, b: \"p\n  q\"}\n");
    let src = "k: {image: , b: \"p\n                 q\"}\n";
    assert!(edit(src, "k.image", "v", SetOpts::new().insert_empty()).is_err());
    let (out, _) = edit("[a, \"x\ny\"]\n", "[0]", "bb", SetOpts::new()).unwrap();
    assert_eq!(out, "[bb, \"x\ny\"]\n");
    assert_eq!(parse(&out), list(&["bb", "x y"]));
    let (out, _) = edit("k: {a: x, b: \"c\"}\n", "k.a", "longer", SetOpts::new()).unwrap();
    assert_eq!(out, "k: {a: longer, b: \"c\"}\n");
    let (out, _) = edit("k: {a: x, b: \"y\",\n  c: \"z\"}\n", "k.a", "longer", SetOpts::new()).unwrap();
    assert_eq!(out, "k: {a: longer, b: \"y\",\n  c: \"z\"}\n");
}

/// A line that is added leaves the lines before and after it as they are.
#[test]
fn an_override_keeps_carriage_returns() {
    let src = "b: &b\r\n  k: 1\r\nm:\r\n  <<: *b\r\n  z: 2\r\n";
    let (out, _) = edit(src, "m.k", "5", SetOpts::new().override_inherited()).unwrap();
    assert_eq!(out, "b: &b\r\n  k: 1\r\nm:\r\n  <<: *b\r\n  k: 5\n  z: 2\r\n");
    let src = "b: &b\r\n  k: 1\r\nm:\r\n  <<: *b";
    let (out, _) = edit(src, "m.k", "5", SetOpts::new().override_inherited()).unwrap();
    assert_eq!(out, "b: &b\r\n  k: 1\r\nm:\r\n  <<: *b\n  k: 5");
}

/// A plain scalar would take a directive in that follows it.
#[test]
fn a_block_scalar_before_a_directive_becomes_quoted() {
    let (out, _) = edit("--- |\n  x\n%F\n---\nb\n", "", "y", SetOpts::new()).unwrap();
    assert_eq!(out, "--- 'y'\n%F\n---\nb\n");
    let all = Parser::new(&out).parse_all().unwrap();
    assert_eq!(all, vec![s("y"), s("b")]);
    let (out, _) = edit("a: !<x\ny> |\n  x\nb: 1\n", "a", "z", SetOpts::new()).unwrap();
    assert_eq!(out, "a: !<x\ny> 'z'\nb: 1\n");
    let (out, _) = edit("a: |\n  x\nb: !<x\ny> 1\n", "a", "z", SetOpts::new()).unwrap();
    assert_eq!(out, "a: z\nb: !<x\ny> 1\n");
}

/// A key is inherited through whatever the parser merges.
#[test]
fn merges_of_every_form_are_inherited() {
    let over = || SetOpts::new().override_inherited();
    let inherited = |src: &str, path: &str| {
        let found = locate(src, &parse_path(path).unwrap()).unwrap();
        found.map(|l| matches!(l.kind, NodeKind::MergeInherited))
    };
    for src in [
        "m:\n  <<: {k: v}\n",
        "m:\n  <<:\n    k: v\n",
        "m:\n  <<: [{j: u}, {k: v}]\n",
        "a: &a {k: v}\nb: &b *a\nm:\n  <<: *b\n",
        "a: &a\n  - k: v\nm:\n  <<: *a\n",
        "a: &a {k: v}\nb: &b [*a]\nc: &c *b\nm:\n  <<: *c\n",
    ] {
        assert_eq!(inherited(src, "m.k"), Some(true), "{src}");
        assert_eq!(inherited(src, "m.x"), None, "{src}");
        let (out, _) = edit(src, "m.k", "w", over()).unwrap();
        assert_eq!(out, format!("{src}  k: w\n"));
        let BorrowedValue::Mapping(top) = parse(&out) else { panic!("{out}") };
        let BorrowedValue::Mapping(m) = &top.last().unwrap().1 else { panic!("{out}") };
        assert_eq!(m[0], (s("k"), s("w")), "{src}");
    }
    assert_eq!(inherited("m:\n  <<: v\n", "m.k"), None);
}

/// What a tag makes of a value over lines does not show in its bytes.
#[test]
fn a_type_that_does_not_show_is_kept() {
    let refused = |src: &str, v: &str| edit(src, "a", v, SetOpts::new()).unwrap_err().contains("type");
    assert!(refused("a: !!int |-\n  5\n", "abc"));
    assert!(refused("a: !!bool \"tr\n  ue\"\n", "x"));
    let (out, _) = edit("a: !!str |\n  5\n", "a", "6", SetOpts::new()).unwrap();
    assert_eq!(out, "a: !!str 6\n");
    let (out, _) = edit("a: !!int \"5\"\n", "a", "6", SetOpts::new()).unwrap();
    assert_eq!(out, "a: !!int \"6\"\n");
    let (out, _) = edit("a: !t |\n  5\n", "a", "x", SetOpts::new()).unwrap();
    assert_eq!(parse(&out), BorrowedValue::Mapping(vec![(s("a"), tag("!t", s("x")))]));
}

/// A comment or a tag may stand right beside a quoted value.
#[test]
fn an_edit_beside_a_comment_or_a_tag() {
    let (out, _) = edit("a: \"x\"#c\nb: [y]#d\n", "a", "z", SetOpts::new()).unwrap();
    assert_eq!(out, "a: \"z\"#c\nb: [y]#d\n");
    let (out, _) = edit(&out, "b[0]", "w", SetOpts::new()).unwrap();
    assert_eq!(parse(&out), parse("a: z\nb: [w]\n"));
    let (out, _) = edit("a: !<t>\"v\"\n", "a", "w", SetOpts::new()).unwrap();
    assert_eq!(out, "a: !<t>\"w\"\n");
    assert_eq!(parse(&out), BorrowedValue::Mapping(vec![(s("a"), tag("!<t>", s("w")))]));
}

/// Only the value at the path is another one after an edit, with merges too.
#[test]
fn an_edit_changes_one_leaf() {
    let src = "m:\n  <<: {k: 1, j: 2}\n  z: [3, {y: 4}]\nn: !x {a: 5}\n";
    let (out, _) = edit(src, "m.<<.k", "6", SetOpts::new()).unwrap();
    assert_eq!(parse(&out), parse("m: {z: [3, {y: 4}], k: 6, j: 2}\nn: !x {a: 5}\n"));
    let (out, _) = edit(src, "m.z[1].y", "6", SetOpts::new()).unwrap();
    assert_eq!(parse(&out), parse("m: {z: [3, {y: 6}], k: 1, j: 2}\nn: !x {a: 5}\n"));
    let (out, _) = edit(src, "n.a", "6", SetOpts::new()).unwrap();
    assert_eq!(parse(&out), parse("m: {z: [3, {y: 4}], k: 1, j: 2}\nn: !x {a: 6}\n"));
}
