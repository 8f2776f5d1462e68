//! Many sources, many values: what edits and the emitter promise of all of them.
use std::borrow::Cow;
use yaml0::{emit, set_with, BorrowedValue, Document, Parser, Segment, SetOpts};

type Value = BorrowedValue<'static>;

#[derive(Clone, Debug, PartialEq)]
enum Step {
    Key(String),
    Index(usize),
}

const SOURCES: [&str; 20] = [
    "a: 1\nb: two\nc: 'three'\nd: \"four\"\ne: 1.5\nf: true\ng: ~\n",
    "- a\n- 'b'\n- - c\n  - d\n- e: f\n  g: h\n",
    "k: [a, 'b', \"c\", 1, {x: y, z: 2}] # c\nl: 3\n",
    "k: {a: 1, b: [c, d], 'e': \"f\"}\n",
    "k:\n  - a # one\n  - b\n\n  # two\n  - c\nl:\n- m\n- n\n",
    "t: !!str 5\nu: !!int \"5\"\nv: !t w\nw: !!float 3\nx: !t [a, b]\n",
    "s: |\n  one\n  two\nf: >-\n  three\n  four\nn: 1\n",
    "s:\n  q: |+\n    one\n\n  r: 2\n",
    "p: one\n  two\n  three\nq: 4\n",
    "p: \"one\n  two\"\nq: 'x\n\n  y' # c\nr: 5\n",
    "? a\n: b\n? [c]\n: d\n",
    "---\na: b\n...\n",
    "a:\r\n  - b\r\n  - c # d\r\ne: f\r\n",
    "x: {a: b,\n  c: d, # e\n  f: [g,\n  h]}\ny: z\n",
    "\u{feff}a: b\nc: d\n",
    "just text\n",
    "a: b\n# end",
    "a: 'x'\n\n\nb:\n    c:   d   \n    e:\tf\n",
    "[a, {b: c}, [d]]\n",
    "é: ü # ö\nf: [ä, ö]\n",
];

const TEXTS: [&str; 56] = [
    "z", "42", "1.5", "true", "null", "", "a b", "a: b", "a:b", "x, y", "[q]", "{q: 1}", "#c", "a #c", "a#c", "'q'",
    "\"q\"", "it's", "- x", "-x", "? x", ":", "x:", "&a", "*a", "!t", "%d", "@x", "`x", "|", ">", "---", "...",
    "--- x", "a\nb", "a\n", "\n", "a\n\n", " lead", "trail ", "tab\tin", "\u{7}", "é", "\u{feff}m", "0x1F", "1e3",
    ".inf", "-", "~", "yes", "\\", "a\r\nb", "]", "}", ",", "=",
];

fn string(x: &str) -> Value {
    BorrowedValue::String(Cow::Owned(x.to_owned()))
}

fn parse(src: &str) -> Value {
    match Parser::new(src).parse() {
        Ok(v) => v.to_static(),
        Err(e) => panic!("{src:?} does not parse: {}", e.msg),
    }
}

/// The value under its tags.
fn bare(v: &Value) -> &Value {
    match v {
        BorrowedValue::Tagged(_, b) => bare(b),
        _ => v,
    }
}

/// The scalars of a value, each with its path.
fn leaves(v: &Value, path: &mut Vec<Step>, out: &mut Vec<(Vec<Step>, Value)>) {
    match bare(v) {
        BorrowedValue::Sequence(items) => {
            for (i, x) in items.iter().enumerate() {
                path.push(Step::Index(i));
                leaves(x, path, out);
                path.pop();
            }
        }
        BorrowedValue::Mapping(pairs) => {
            for (k, x) in pairs {
                if let BorrowedValue::String(k) = k {
                    path.push(Step::Key(k.to_string()));
                    leaves(x, path, out);
                    path.pop();
                }
            }
        }
        _ => out.push((path.clone(), v.clone())),
    }
}

fn all_leaves(v: &Value) -> Vec<(Vec<Step>, Value)> {
    let mut out = Vec::new();
    leaves(v, &mut Vec::new(), &mut out);
    out
}

fn segments(path: &[Step]) -> Vec<Segment<'_>> {
    path.iter()
        .map(|s| match s {
            Step::Key(k) => Segment::Key(k),
            Step::Index(n) => Segment::Index(*n),
        })
        .collect()
}

fn same_type(a: &Value, b: &Value) -> bool {
    match (bare(a), bare(b)) {
        (BorrowedValue::Null, BorrowedValue::Null) => true,
        (BorrowedValue::Bool(_), BorrowedValue::Bool(_)) => true,
        (BorrowedValue::Int(_), BorrowedValue::Int(_)) => true,
        (BorrowedValue::Float(_), BorrowedValue::Float(_)) => true,
        (BorrowedValue::String(_), BorrowedValue::String(_)) => true,
        _ => false,
    }
}

/// A default edit changes one value, of the same type, and no other.
#[test]
fn default_edits_change_one_value() {
    let mut edits = 0;
    for src in SOURCES {
        let before = all_leaves(&parse(src));
        for (i, (path, old)) in before.iter().enumerate() {
            for text in TEXTS {
                let Ok((out, _)) = set_with(src, &segments(path), text, SetOpts::new()) else { continue };
                edits += 1;
                let after = all_leaves(&parse(&out));
                assert_eq!(after.len(), before.len(), "{src:?} to {out:?}");
                for (j, (p, new)) in after.iter().enumerate() {
                    assert_eq!(p, &before[j].0, "{src:?} to {out:?}");
                    if i != j {
                        assert_eq!(new, &before[j].1, "{src:?} to {out:?}");
                    } else {
                        assert!(same_type(old, new), "{src:?} to {out:?}");
                        if let BorrowedValue::String(t) = bare(new) {
                            assert_eq!(t, text, "{src:?} to {out:?}");
                        }
                    }
                }
            }
        }
    }
    assert!(edits > 1000, "{edits}");
}

/// Removing an entry leaves all others.
#[test]
fn removals_take_one_entry() {
    for src in SOURCES {
        let before = all_leaves(&parse(src));
        for (i, (path, _)) in before.iter().enumerate() {
            let mut doc = Document::new(src);
            if doc.remove(&segments(path)).is_err() {
                assert_eq!(doc.as_str(), src);
                continue;
            }
            let after = all_leaves(&parse(doc.as_str()));
            for (j, leaf) in before.iter().enumerate() {
                assert!(i == j || after.contains(leaf), "{src:?} to {:?}", doc.as_str());
            }
            assert!(after.iter().all(|(p, _)| p != path), "{src:?} to {:?}", doc.as_str());
        }
    }
}

/// Whatever a string holds and wherever it stands, it is read back.
#[test]
fn emitted_strings_read_back_everywhere() {
    let one = BorrowedValue::Int(1);
    let tag = |v: &Value| BorrowedValue::Tagged("!t".into(), Box::new(v.clone()));
    let list = |v: &Value| BorrowedValue::Sequence(vec![v.clone(), one.clone()]);
    let map = |k: &Value, v: &Value| BorrowedValue::Mapping(vec![(k.clone(), v.clone())]);
    for text in TEXTS {
        let s = string(text);
        for v in [s.clone(), tag(&s), tag(&tag(&s)), list(&s), tag(&list(&s)), map(&one, &s), map(&s, &list(&s))] {
            for w in [v.clone(), list(&v), map(&one, &v), map(&v, &one), list(&map(&v, &v)), tag(&map(&one, &v))] {
                let out = emit(&w).unwrap();
                assert_eq!(parse(&out), w, "{out:?}");
            }
        }
    }
}
