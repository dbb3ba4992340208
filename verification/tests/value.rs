use gdb_mi::decoder::parse_value;
use gdb_mi::value::{insert_entry, Value};

fn text(s: &str) -> Value {
    Value::Const(s.to_string())
}

fn tuple(entries: Vec<(&str, Value)>) -> Value {
    Value::Tuple(entries.into_iter().map(|(k, v)| (k.to_string(), v)).collect())
}

fn sample() -> Value {
    tuple(vec![
        ("name", text("main")),
        ("args", Value::List(vec![text("1"), tuple(vec![("k", text("v \"q\""))])])),
        ("empty", tuple(vec![])),
    ])
}

#[test]
fn access_by_shape_is_explicit() {
    let v = sample();
    assert_eq!(v.as_const(), None);
    assert_eq!(v.as_list(), None);
    assert_eq!(v.as_tuple().map(|t| t.len()), Some(3));
    let c = text("x");
    assert_eq!(c.as_const(), Some(&"x".to_string()));
    assert_eq!(c.as_tuple(), None);
    assert_eq!(c.as_list(), None);
    assert_eq!(c.get("x"), None);
    let l = Value::List(vec![text("a")]);
    assert_eq!(l.as_list(), Some(&vec![text("a")]));
    assert_eq!(l.as_const(), None);
    assert_eq!(l.as_tuple(), None);
    assert_eq!(l.get("a"), None);
}

#[test]
fn lookup_by_key() {
    let v = sample();
    assert_eq!(v.get("name"), Some(&text("main")));
    assert_eq!(v.get("empty"), Some(&tuple(vec![])));
    assert_eq!(v.get("missing"), None);
    assert_eq!(v.get(""), None);
    let twice = tuple(vec![("a", text("first")), ("a", text("second"))]);
    assert_eq!(twice.get("a"), Some(&text("first")));
}

#[test]
fn insertion_replaces_in_place_or_appends() {
    let mut entries: Vec<(String, Value)> = Vec::new();
    insert_entry(&mut entries, "a".to_string(), text("1"));
    insert_entry(&mut entries, "b".to_string(), text("2"));
    insert_entry(&mut entries, "a".to_string(), text("3"));
    insert_entry(&mut entries, "c".to_string(), text("4"));
    assert_eq!(
        Value::Tuple(entries),
        tuple(vec![("a", text("3")), ("b", text("2")), ("c", text("4"))])
    );
}

#[test]
fn rendering_is_exact() {
    assert_eq!(text("a\"b\\c\nd").to_string(), "\"a\\\"b\\\\c\\\nd\"");
    assert_eq!(tuple(vec![]).to_string(), "{}");
    assert_eq!(Value::List(vec![]).to_string(), "[]");
    assert_eq!(
        sample().to_string(),
        "{name=\"main\",args=[\"1\",{k=\"v \\\"q\\\"\"}],empty={}}"
    );
    let mut out = String::from(">");
    Value::List(vec![text("x"), text("y")]).render_into(&mut out);
    assert_eq!(out, ">[\"x\",\"y\"]");
}

#[test]
fn rendered_value_reads_back() {
    for v in [sample(), text(""), text("\r\n\\\""), Value::List(vec![sample(), sample()])] {
        let chars: Vec<char> = v.to_string().chars().collect();
        assert_eq!(parse_value(&chars, 0), Some((v.clone(), chars.len())));
    }
}

#[test]
fn equality_and_clone_follow_structure() {
    let v = sample();
    assert_eq!(v.clone(), v);
    assert!(v == sample());
    assert!(text("a") != text("b"));
    assert!(text("a") != Value::List(vec![text("a")]));
    assert!(tuple(vec![("a", text("1"))]) != tuple(vec![("b", text("1"))]));
    assert!(tuple(vec![("a", text("1"))]) != tuple(vec![("a", text("2"))]));
    assert!(tuple(vec![("a", text("1"))]) != tuple(vec![("a", text("1")), ("b", text("1"))]));
    assert!(Value::List(vec![]) != tuple(vec![]));
    assert!(Value::List(vec![text("a"), text("b")]) != Value::List(vec![text("b"), text("a")]));
}
