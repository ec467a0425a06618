use lazypacket::diff::{compare_json, insert_sorted, key_less, sorted_keys, JsonDiff};
use lazypacket::render::{
    diff_leaves, find_diff_key, format_json_diff, leaf_lines, make_child_path, make_index_path,
    sorted_diff_keys, split_lines, DiffColor, DiffLeaf,
};
use lazypacket::value::Value;

fn to_json(v: &Value) -> serde_json::Value {
    match v {
        Value::Null => serde_json::Value::Null,
        Value::Bool(b) => serde_json::Value::Bool(*b),
        Value::Int(i) => serde_json::Value::Number((*i).into()),
        Value::UInt(u) => serde_json::Value::Number((*u).into()),
        Value::F32(bits) => serde_json::Number::from_f64(f32::from_bits(*bits) as f64)
            .map(serde_json::Value::Number)
            .unwrap_or(serde_json::Value::Null),
        Value::F64(bits) => serde_json::Number::from_f64(f64::from_bits(*bits))
            .map(serde_json::Value::Number)
            .unwrap_or(serde_json::Value::Null),
        Value::Str(s) => serde_json::Value::String(s.clone()),
        Value::Array(items) => serde_json::Value::Array(items.iter().map(to_json).collect()),
        Value::Object(entries) => {
            let mut m = serde_json::Map::new();
            for (k, v) in entries {
                m.insert(k.clone(), to_json(v));
            }
            serde_json::Value::Object(m)
        }
    }
}

fn from_json(v: &serde_json::Value) -> Value {
    match v {
        serde_json::Value::Null => Value::Null,
        serde_json::Value::Bool(b) => Value::Bool(*b),
        serde_json::Value::Number(n) => {
            if let Some(i) = n.as_i64() {
                Value::Int(i)
            } else if let Some(u) = n.as_u64() {
                Value::UInt(u)
            } else {
                Value::F64(n.as_f64().unwrap().to_bits())
            }
        }
        serde_json::Value::String(s) => Value::Str(s.clone()),
        serde_json::Value::Array(items) => Value::Array(items.iter().map(from_json).collect()),
        serde_json::Value::Object(m) => {
            Value::Object(m.iter().map(|(k, v)| (k.clone(), from_json(v))).collect())
        }
    }
}

fn json(text: &str) -> Value {
    from_json(&serde_json::from_str::<serde_json::Value>(text).unwrap())
}

fn render(diff: &JsonDiff) -> Vec<(String, DiffColor)> {
    let texts: Vec<String> = diff_leaves(diff, "")
        .iter()
        .map(|leaf| serde_json::to_string_pretty(&to_json(&leaf.value)).unwrap())
        .collect();
    format_json_diff(diff, "", 0, &texts)
}

fn mirror(d: &JsonDiff) -> JsonDiff {
    match d {
        JsonDiff::Added(v) => JsonDiff::Removed(v.clone()),
        JsonDiff::Removed(v) => JsonDiff::Added(v.clone()),
        JsonDiff::Modified { old, new } => JsonDiff::Modified { old: new.clone(), new: old.clone() },
        JsonDiff::Unchanged(v) => JsonDiff::Unchanged(v.clone()),
        JsonDiff::ObjectDiff(e) => {
            JsonDiff::ObjectDiff(e.iter().map(|(k, d)| (k.clone(), mirror(d))).collect())
        }
        JsonDiff::ArrayDiff(e) => JsonDiff::ArrayDiff(e.iter().map(|(i, d)| (*i, mirror(d))).collect()),
    }
}

fn has_changes(d: &JsonDiff) -> bool {
    match d {
        JsonDiff::Added(_) | JsonDiff::Removed(_) | JsonDiff::Modified { .. } => true,
        JsonDiff::Unchanged(_) => false,
        JsonDiff::ObjectDiff(e) => e.iter().any(|(_, d)| has_changes(d)),
        JsonDiff::ArrayDiff(e) => e.iter().any(|(_, d)| has_changes(d)),
    }
}

fn samples() -> Vec<Value> {
    [
        "null",
        "true",
        "1",
        "-7",
        "18446744073709551615",
        "1.5",
        "\"text\"",
        "[]",
        "[1, 2, 3]",
        "[1, [2, {\"a\": null}], \"x\"]",
        "{}",
        "{\"a\": 1}",
        "{\"a\": 1, \"b\": [1, 2, 3]}",
        "{\"a\": 1, \"b\": [1, 9, 3], \"c\": \"new\"}",
        "{\"b\": {\"y\": 1, \"x\": [true]}, \"a\": {\"z\": {}}}",
        "{\"b\": {\"y\": 2, \"x\": [true, false]}, \"c\": 0}",
        "{\"zeta\": 1, \"alpha\": 2, \"Alpha\": 3, \"alp\": 4, \"\": 5}",
    ]
    .iter()
    .map(|t| json(t))
    .collect()
}

#[test]
fn structural_diff() {
    let baseline = json(r#"{"a": 1, "b": [1, 2, 3]}"#);
    let current = json(r#"{"a": 1, "b": [1, 9, 3], "c": "new"}"#);
    let diff = compare_json(&baseline, &current);
    assert_eq!(
        diff,
        JsonDiff::ObjectDiff(vec![
            (
                "b".to_string(),
                JsonDiff::ArrayDiff(vec![(
                    1,
                    JsonDiff::Modified { old: Value::Int(2), new: Value::Int(9) }
                )])
            ),
            ("c".to_string(), JsonDiff::Added(Value::Str("new".to_string()))),
        ])
    );
    let lines = render(&diff);
    assert_eq!(
        lines,
        vec![
            ("- b[1]: 2".to_string(), DiffColor::Red),
            ("+ b[1]: 9".to_string(), DiffColor::Green),
            ("+ c: \"new\"".to_string(), DiffColor::Green),
        ]
    );
    assert!(lines.iter().all(|(text, _)| !text.contains("a")));
}

#[test]
fn identity_has_no_changes() {
    for v in samples() {
        let d = compare_json(&v, &v);
        assert!(matches!(d, JsonDiff::Unchanged(_)), "{:?}", d);
        assert!(!has_changes(&d));
        assert_eq!(render(&d), vec![]);
    }
}

#[test]
fn swapping_sides_mirrors_the_diff() {
    let all = samples();
    for a in &all {
        for b in &all {
            assert_eq!(compare_json(b, a), mirror(&compare_json(a, b)), "{:?} / {:?}", a, b);
        }
    }
}

#[test]
fn scalars_are_unchanged_or_modified() {
    assert_eq!(compare_json(&Value::Int(1), &Value::Int(1)), JsonDiff::Unchanged(Value::Int(1)));
    assert_eq!(
        compare_json(&Value::Int(1), &Value::Int(2)),
        JsonDiff::Modified { old: Value::Int(1), new: Value::Int(2) }
    );
    assert_eq!(
        compare_json(&Value::Null, &Value::Bool(false)),
        JsonDiff::Modified { old: Value::Null, new: Value::Bool(false) }
    );
    assert_eq!(
        compare_json(&json("[1]"), &json("{\"a\": 1}")),
        JsonDiff::Modified { old: json("[1]"), new: json("{\"a\": 1}") }
    );
    assert_eq!(
        compare_json(&Value::F32(1), &Value::F64(1)),
        JsonDiff::Modified { old: Value::F32(1), new: Value::F64(1) }
    );
    assert_eq!(
        compare_json(&Value::F64(7), &Value::F64(7)),
        JsonDiff::Unchanged(Value::F64(7))
    );
}

#[test]
fn arrays_are_compared_by_position() {
    assert_eq!(
        compare_json(&json("[1, 2, 3]"), &json("[1, 2]")),
        JsonDiff::ArrayDiff(vec![(2, JsonDiff::Removed(Value::Int(3)))])
    );
    assert_eq!(
        compare_json(&json("[1]"), &json("[2, 3, 4]")),
        JsonDiff::ArrayDiff(vec![
            (0, JsonDiff::Modified { old: Value::Int(1), new: Value::Int(2) }),
            (1, JsonDiff::Added(Value::Int(3))),
            (2, JsonDiff::Added(Value::Int(4))),
        ])
    );
    assert_eq!(
        compare_json(&json("[[1], [2]]"), &json("[[1], [2]]")),
        JsonDiff::Unchanged(Value::Array(vec![]))
    );
}

#[test]
fn object_entries_come_in_sorted_key_order() {
    let a = json(r#"{"zeta": 1, "alpha": 2, "mid": {"k": 1}}"#);
    let b = json(r#"{"beta": 5, "alpha": 3, "mid": {"k": 1}, "Zed": 0}"#);
    let d = compare_json(&a, &b);
    let keys: Vec<String> = match &d {
        JsonDiff::ObjectDiff(e) => e.iter().map(|(k, _)| k.clone()).collect(),
        other => panic!("unexpected {:?}", other),
    };
    assert_eq!(keys, vec!["Zed", "alpha", "beta", "zeta"]);
    assert_eq!(
        d,
        JsonDiff::ObjectDiff(vec![
            ("Zed".to_string(), JsonDiff::Added(Value::Int(0))),
            ("alpha".to_string(), JsonDiff::Modified { old: Value::Int(2), new: Value::Int(3) }),
            ("beta".to_string(), JsonDiff::Added(Value::Int(5))),
            ("zeta".to_string(), JsonDiff::Removed(Value::Int(1))),
        ])
    );
    // The order of the entries of the inputs does not matter.
    let a2 = json(r#"{"mid": {"k": 1}, "alpha": 2, "zeta": 1}"#);
    assert_eq!(compare_json(&a2, &b), d);
}

#[test]
fn key_order_is_the_string_order() {
    let keys = ["", "a", "A", "ab", "b", "\u{e9}", "z", "aa", "a\u{0}", "\u{10000}", "\u{ffff}"];
    for x in keys {
        for y in keys {
            assert_eq!(key_less(x, y), x < y, "{:?} < {:?}", x, y);
        }
    }
}

#[test]
fn keys_are_kept_sorted_and_unique() {
    let mut keys: Vec<String> = Vec::new();
    for k in ["m", "a", "z", "m", "b", "a"] {
        insert_sorted(&mut keys, &k.to_string());
    }
    assert_eq!(keys, vec!["a", "b", "m", "z"]);
    let x = vec![("q".to_string(), Value::Null), ("c".to_string(), Value::Null)];
    let y = vec![("c".to_string(), Value::Null), ("a".to_string(), Value::Null)];
    assert_eq!(sorted_keys(&x, &y), vec!["a", "c", "q"]);
    assert_eq!(sorted_keys(&y, &x), vec!["a", "c", "q"]);
}

#[test]
fn values_equal_when_they_are_the_same_tree() {
    let all = samples();
    for (i, a) in all.iter().enumerate() {
        for (j, b) in all.iter().enumerate() {
            assert_eq!(a.equals(b), i == j);
        }
        assert!(a.equals(&a.clone()));
        assert_eq!(a.clone(), *a);
    }
    assert!(!json(r#"{"a": 1, "b": 2}"#).equals(&json(r#"{"b": 2, "a": 1, "c": 0}"#)));
}

#[test]
fn leaves_follow_dotted_paths() {
    let a = json(r#"{"p": {"q": [{"r": 1}, 2]}, "s": 1}"#);
    let b = json(r#"{"p": {"q": [{"r": 5}, 2, 3]}, "t": 1}"#);
    let leaves = diff_leaves(&compare_json(&a, &b), "");
    let summary: Vec<(String, DiffColor, Value)> =
        leaves.into_iter().map(|l| (l.path, l.color, l.value)).collect();
    assert_eq!(
        summary,
        vec![
            ("p.q[0].r".to_string(), DiffColor::Red, Value::Int(1)),
            ("p.q[0].r".to_string(), DiffColor::Green, Value::Int(5)),
            ("p.q[2]".to_string(), DiffColor::Green, Value::Int(3)),
            ("s".to_string(), DiffColor::Red, Value::Int(1)),
            ("t".to_string(), DiffColor::Green, Value::Int(1)),
        ]
    );
    let below = diff_leaves(&compare_json(&json("[1]"), &json("[2]")), "root");
    assert_eq!(below[0].path, "root[0]");
}

#[test]
fn paths() {
    assert_eq!(make_child_path("", "a"), "a");
    assert_eq!(make_child_path("a", "b"), "a.b");
    assert_eq!(make_index_path("", 0), "[0]");
    assert_eq!(make_index_path("a.b", 12), "a.b[12]");
    assert_eq!(make_index_path("x", 1234567890), "x[1234567890]");
}

#[test]
fn lines_of_a_text() {
    let lines = |t: &str| split_lines(t);
    for text in ["", "a", "a\n", "a\nb", "a\r\nb\r\n", "\n", "\n\n", "a\r", "a\r\r\n", "\r\n", "x\n\ny"] {
        let expected: Vec<String> = text.lines().map(|l| l.to_string()).collect();
        assert_eq!(lines(text), expected, "{:?}", text);
    }
}

#[test]
fn multi_line_values_are_prefixed_line_by_line() {
    let leaf = DiffLeaf {
        path: "a.b".to_string(),
        color: DiffColor::Green,
        value: json("[1, 2]"),
    };
    let text = serde_json::to_string_pretty(&to_json(&leaf.value)).unwrap();
    assert_eq!(
        leaf_lines(&leaf, 1, &text),
        vec![
            ("  + a.b: [".to_string(), DiffColor::Green),
            ("    +   1,".to_string(), DiffColor::Green),
            ("    +   2".to_string(), DiffColor::Green),
            ("    + ]".to_string(), DiffColor::Green),
        ]
    );
    let root = DiffLeaf { path: "".to_string(), color: DiffColor::Red, value: Value::Int(1) };
    assert_eq!(leaf_lines(&root, 0, "1"), vec![("- 1".to_string(), DiffColor::Red)]);
    assert_eq!(leaf_lines(&root, 2, "1"), vec![("    - 1".to_string(), DiffColor::Red)]);
    assert_eq!(leaf_lines(&root, 0, ""), vec![]);
}

#[test]
fn modified_gives_the_old_lines_then_the_new() {
    let d = compare_json(&json("{\"k\": [1]}"), &json("{\"k\": 2}"));
    assert_eq!(
        render(&d),
        vec![
            ("- k: [".to_string(), DiffColor::Red),
            ("  -   1".to_string(), DiffColor::Red),
            ("  - ]".to_string(), DiffColor::Red),
            ("+ k: 2".to_string(), DiffColor::Green),
        ]
    );
}

#[test]
fn leaves_beyond_the_texts_are_left_out() {
    let d = compare_json(&json("[1, 2]"), &json("[3, 4]"));
    let texts = vec!["1".to_string(), "3".to_string(), "2".to_string()];
    assert_eq!(
        format_json_diff(&d, "v", 0, &texts),
        vec![
            ("- v[0]: 1".to_string(), DiffColor::Red),
            ("+ v[0]: 3".to_string(), DiffColor::Green),
            ("- v[1]: 2".to_string(), DiffColor::Red),
        ]
    );
}

#[test]
fn an_object_diff_is_displayed_by_rising_key_whatever_its_order() {
    let d = JsonDiff::ObjectDiff(vec![
        ("c".to_string(), JsonDiff::Added(Value::UInt(3))),
        ("a".to_string(), JsonDiff::Removed(Value::UInt(1))),
        ("b".to_string(), JsonDiff::Unchanged(Value::UInt(2))),
        (
            "B".to_string(),
            JsonDiff::ObjectDiff(vec![
                ("z".to_string(), JsonDiff::Added(Value::Bool(true))),
                ("y".to_string(), JsonDiff::Added(Value::Bool(false))),
            ]),
        ),
    ]);
    let leaves = diff_leaves(&d, "");
    let paths: Vec<&str> = leaves.iter().map(|l| l.path.as_str()).collect();
    assert_eq!(paths, vec!["B.y", "B.z", "a", "c"]);
    assert_eq!(leaves[2].color, DiffColor::Red);
    assert_eq!(leaves[2].value, Value::UInt(1));
    assert_eq!(
        render(&d),
        vec![
            ("+ B.y: false".to_string(), DiffColor::Green),
            ("+ B.z: true".to_string(), DiffColor::Green),
            ("- a: 1".to_string(), DiffColor::Red),
            ("+ c: 3".to_string(), DiffColor::Green),
        ]
    );
    assert_eq!(
        sorted_diff_keys(&vec![
            ("k".to_string(), JsonDiff::Unchanged(Value::Null)),
            ("d".to_string(), JsonDiff::Unchanged(Value::Null)),
            ("k".to_string(), JsonDiff::Unchanged(Value::Null)),
        ]),
        vec!["d".to_string(), "k".to_string()]
    );
}

#[test]
fn of_two_entries_with_one_key_the_first_is_displayed() {
    let entries = vec![
        ("k".to_string(), JsonDiff::Added(Value::UInt(1))),
        ("a".to_string(), JsonDiff::Added(Value::UInt(0))),
        ("k".to_string(), JsonDiff::Removed(Value::UInt(2))),
    ];
    assert_eq!(find_diff_key(&entries, "k"), Some(0));
    assert_eq!(find_diff_key(&entries, "a"), Some(1));
    assert_eq!(find_diff_key(&entries, "x"), None);
    let leaves = diff_leaves(&JsonDiff::ObjectDiff(entries), "p");
    assert_eq!(leaves.len(), 2);
    assert_eq!(leaves[0].path, "p.a");
    assert_eq!(leaves[1].path, "p.k");
    assert_eq!(leaves[1].color, DiffColor::Green);
    assert_eq!(leaves[1].value, Value::UInt(1));
}
