use yml_diff::diff::cmp_yml_vals;
use yml_diff::value::{value_eq, Number, Value};

fn text(s: &str) -> Value {
    Value::String(s.to_string())
}

fn num(n: u64) -> Value {
    Value::Number(Number::PosInt(n))
}

fn mapping(entries: Vec<(&str, Value)>) -> Value {
    Value::Mapping(entries.into_iter().map(|(k, v)| (text(k), v)).collect())
}

#[test]
fn changed_leaf_is_modified() {
    let old = mapping(vec![("db", mapping(vec![("host", text("x")), ("port", num(5432))]))]);
    let new = mapping(vec![("db", mapping(vec![("host", text("y")), ("port", num(5432))]))]);
    let diff = cmp_yml_vals(&old, &new);
    assert_eq!(diff.added.len(), 0);
    assert_eq!(diff.removed.len(), 0);
    assert_eq!(diff.modified.len(), 1);
    let (key, pair) = diff.modified.entry(0).unwrap();
    assert_eq!(key.0, "db.host");
    assert!(value_eq(pair.0, &text("x")));
    assert!(value_eq(pair.1, &text("y")));
}

#[test]
fn new_leaf_is_added() {
    let old = mapping(vec![("feature", mapping(vec![("enabled", Value::Bool(true))]))]);
    let new = mapping(vec![(
        "feature",
        mapping(vec![("enabled", Value::Bool(true)), ("timeout", num(30))]),
    )]);
    let diff = cmp_yml_vals(&old, &new);
    assert_eq!(diff.added.len(), 1);
    assert_eq!(diff.removed.len(), 0);
    assert_eq!(diff.modified.len(), 0);
    let (key, value) = diff.added.entry(0).unwrap();
    assert_eq!(key.0, "feature.timeout");
    assert!(value_eq(value, &num(30)));
}

#[test]
fn missing_leaf_is_removed() {
    let old = mapping(vec![("a", mapping(vec![("b", num(1)), ("c", num(2))]))]);
    let new = mapping(vec![("a", mapping(vec![("b", num(1))]))]);
    let diff = cmp_yml_vals(&old, &new);
    assert_eq!(diff.added.len(), 0);
    assert_eq!(diff.removed.len(), 1);
    assert_eq!(diff.modified.len(), 0);
    let (key, value) = diff.removed.entry(0).unwrap();
    assert_eq!(key.0, "a.c");
    assert!(value_eq(value, &num(2)));
}

#[test]
fn equal_sequences_are_no_difference() {
    let old = mapping(vec![("x", Value::Sequence(vec![num(1), num(2), num(3)]))]);
    let new = mapping(vec![("x", Value::Sequence(vec![num(1), num(2), num(3)]))]);
    let diff = cmp_yml_vals(&old, &new);
    assert!(diff.added.is_empty());
    assert!(diff.removed.is_empty());
    assert!(diff.modified.is_empty());
}

#[test]
fn leaf_added_to_empty_mapping() {
    let old = mapping(vec![]);
    let new = mapping(vec![("k", text("v"))]);
    let diff = cmp_yml_vals(&old, &new);
    assert_eq!(diff.added.len(), 1);
    assert!(diff.removed.is_empty());
    assert!(diff.modified.is_empty());
    let (key, value) = diff.added.entry(0).unwrap();
    assert_eq!(key.0, "k");
    assert!(value_eq(value, &text("v")));
}

#[test]
fn document_compared_with_itself_has_no_difference() {
    let doc = mapping(vec![
        ("db", mapping(vec![("host", text("x")), ("port", num(5432))])),
        ("list", Value::Sequence(vec![num(1), mapping(vec![("a", Value::Null)])])),
        ("tag", Value::Tagged("t".to_string(), Box::new(text("x")))),
        ("nan", Value::Number(Number::Float { bits: f64::NAN.to_bits(), text: ".nan".to_string() })),
    ]);
    let diff = cmp_yml_vals(&doc, &doc);
    assert!(diff.added.is_empty());
    assert!(diff.removed.is_empty());
    assert!(diff.modified.is_empty());
}

#[test]
fn no_path_is_in_two_parts_of_a_difference() {
    let old = mapping(vec![
        ("a", num(1)),
        ("b", mapping(vec![("c", num(2)), ("d", num(3))])),
        ("e", text("x")),
    ]);
    let new = mapping(vec![
        ("a", num(2)),
        ("b", mapping(vec![("c", num(2)), ("f", num(3))])),
        ("g", text("x")),
    ]);
    let diff = cmp_yml_vals(&old, &new);
    let mut seen: Vec<String> = Vec::new();
    let mut i = 0;
    while let Some((k, _)) = diff.added.entry(i) {
        seen.push(k.0.clone());
        i += 1;
    }
    let mut i = 0;
    while let Some((k, _)) = diff.removed.entry(i) {
        seen.push(k.0.clone());
        i += 1;
    }
    let mut i = 0;
    while let Some((k, _)) = diff.modified.entry(i) {
        seen.push(k.0.clone());
        i += 1;
    }
    assert_eq!(seen, vec!["b.f", "g", "b.d", "e", "a"]);
    let mut sorted = seen.clone();
    sorted.sort();
    sorted.dedup();
    assert_eq!(sorted.len(), seen.len());
}

#[test]
fn leaf_that_turns_into_a_mapping_is_removed_and_its_leaves_added() {
    let old = mapping(vec![("a", num(1))]);
    let new = mapping(vec![("a", mapping(vec![("b", num(1))]))]);
    let diff = cmp_yml_vals(&old, &new);
    assert_eq!(diff.added.len(), 1);
    assert_eq!(diff.added.entry(0).unwrap().0 .0, "a.b");
    assert_eq!(diff.removed.len(), 1);
    assert_eq!(diff.removed.entry(0).unwrap().0 .0, "a");
    assert!(diff.modified.is_empty());
}

#[test]
fn reordered_mapping_inside_a_leaf_is_no_difference() {
    let old = mapping(vec![(
        "x",
        Value::Sequence(vec![mapping(vec![("a", num(1)), ("b", num(2))])]),
    )]);
    let new = mapping(vec![(
        "x",
        Value::Sequence(vec![mapping(vec![("b", num(2)), ("a", num(1))])]),
    )]);
    let diff = cmp_yml_vals(&old, &new);
    assert!(diff.added.is_empty());
    assert!(diff.removed.is_empty());
    assert!(diff.modified.is_empty());
}

#[test]
fn documents_that_are_no_mappings_have_no_difference() {
    let old = text("a");
    let new = text("b");
    let diff = cmp_yml_vals(&old, &new);
    assert!(diff.added.is_empty());
    assert!(diff.removed.is_empty());
    assert!(diff.modified.is_empty());
}
