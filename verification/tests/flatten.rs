use yml_diff::flatten::{extract_key_vals, key_str};
use yml_diff::key::ConfigKey;
use yml_diff::value::{value_eq, Number, Value};

fn text(s: &str) -> Value {
    Value::String(s.to_string())
}

fn num(n: u64) -> Value {
    Value::Number(Number::PosInt(n))
}

fn mapping(entries: Vec<(&str, Value)>) -> Value {
    Value::Mapping(entries.into_iter().map(|(k, v)| (text(k), v)).collect())
}

fn paths(doc: &Value, prefix: &str) -> Vec<String> {
    let flat = extract_key_vals(doc, prefix.to_string());
    let mut out = Vec::new();
    let mut i = 0;
    while let Some((key, _)) = flat.entry(i) {
        out.push(key.0.clone());
        i += 1;
    }
    assert_eq!(out.len(), flat.len());
    out
}

#[test]
fn nested_mappings_flatten_to_dotted_paths() {
    let doc = mapping(vec![
        ("db", mapping(vec![("host", text("x")), ("port", num(5432))])),
        ("name", text("app")),
    ]);
    assert_eq!(paths(&doc, ""), vec!["db.host", "db.port", "name"]);
    let flat = extract_key_vals(&doc, String::new());
    assert!(value_eq(flat.get(&ConfigKey::from("db.port")).unwrap(), &num(5432)));
    assert!(value_eq(flat.get(&ConfigKey::from("name")).unwrap(), &text("app")));
    assert!(flat.get(&ConfigKey::from("db")).is_none());
    assert!(flat.contains_key(&ConfigKey::from("db.host")));
    assert!(!flat.contains_key(&ConfigKey::from("db.user")));
}

#[test]
fn root_that_is_no_mapping_has_no_leaf() {
    assert!(extract_key_vals(&text("x"), String::new()).is_empty());
    assert!(extract_key_vals(&Value::Null, String::new()).is_empty());
    assert!(extract_key_vals(&Value::Sequence(vec![num(1)]), String::new()).is_empty());
}

#[test]
fn leaf_under_a_prefix_is_recorded_at_the_prefix() {
    assert_eq!(paths(&text("x"), "root"), vec!["root"]);
    assert_eq!(paths(&mapping(vec![("a", num(1))]), "root"), vec!["root.a"]);
}

#[test]
fn empty_mapping_has_no_leaf() {
    assert!(paths(&mapping(vec![]), "").is_empty());
    assert!(paths(&mapping(vec![("a", mapping(vec![]))]), "").is_empty());
}

#[test]
fn sequences_and_tagged_values_are_leaves() {
    let doc = mapping(vec![
        ("list", Value::Sequence(vec![mapping(vec![("a", num(1))])])),
        ("tagged", Value::Tagged("Thing".to_string(), Box::new(mapping(vec![("a", num(1))])))),
    ]);
    assert_eq!(paths(&doc, ""), vec!["list", "tagged"]);
}

#[test]
fn entries_without_a_string_key_are_passed_over() {
    let doc = Value::Mapping(vec![
        (num(1), text("one")),
        (Value::Null, mapping(vec![("a", num(1))])),
        (Value::Bool(true), text("yes")),
        (Value::Sequence(vec![]), text("list")),
        (text("kept"), text("v")),
    ]);
    assert_eq!(paths(&doc, ""), vec!["kept"]);
}

#[test]
fn tagged_string_key_counts_by_its_text() {
    let key = Value::Tagged("t".to_string(), Box::new(Value::Tagged("u".to_string(), Box::new(text("k")))));
    assert_eq!(key_str(&key), Some("k"));
    assert_eq!(key_str(&text("plain")), Some("plain"));
    assert_eq!(key_str(&num(3)), None);
    assert_eq!(key_str(&Value::Tagged("t".to_string(), Box::new(num(3)))), None);
    let doc = Value::Mapping(vec![(key, num(7))]);
    assert_eq!(paths(&doc, ""), vec!["k"]);
}

#[test]
fn later_leaf_with_the_same_path_stays() {
    let doc = mapping(vec![("a", mapping(vec![("b", num(1))])), ("a.b", num(2))]);
    let flat = extract_key_vals(&doc, String::new());
    assert_eq!(flat.len(), 1);
    assert!(value_eq(flat.get(&ConfigKey::from("a.b")).unwrap(), &num(2)));
    let doc = mapping(vec![("a.b", num(2)), ("a", mapping(vec![("b", num(1))]))]);
    let flat = extract_key_vals(&doc, String::new());
    assert_eq!(flat.len(), 1);
    assert!(value_eq(flat.get(&ConfigKey::from("a.b")).unwrap(), &num(1)));
}

#[test]
fn empty_key_at_the_root_gives_the_empty_path() {
    let doc = mapping(vec![("", num(1))]);
    assert_eq!(paths(&doc, ""), vec![""]);
    let doc = mapping(vec![("", mapping(vec![("", num(1))]))]);
    assert_eq!(paths(&doc, ""), vec![""]);
    let doc = mapping(vec![("a", mapping(vec![("", num(1))]))]);
    assert_eq!(paths(&doc, ""), vec!["a."]);
}

#[test]
fn leaves_are_listed_in_path_order() {
    let doc = mapping(vec![
        ("b", num(1)),
        ("a", mapping(vec![("z", num(1)), ("b", mapping(vec![("c", num(1))]))])),
        ("a!", num(1)),
    ]);
    assert_eq!(paths(&doc, ""), vec!["a!", "a.z", "a.b.c", "b"]);
}

#[test]
fn copy_flattens_to_the_same_leaves() {
    let doc = mapping(vec![
        ("db", mapping(vec![("host", text("x")), ("port", num(5432))])),
        ("list", Value::Sequence(vec![num(1), text("two")])),
    ]);
    let copy = doc.clone();
    assert!(value_eq(&doc, &copy));
    let a = extract_key_vals(&doc, String::new());
    let b = extract_key_vals(&copy, String::new());
    assert_eq!(a.len(), b.len());
    let mut i = 0;
    while let (Some(x), Some(y)) = (a.entry(i), b.entry(i)) {
        assert_eq!(x.0, y.0);
        assert_eq!(
            yml_diff::render::get_val_string(x.1),
            yml_diff::render::get_val_string(y.1)
        );
        i += 1;
    }
    assert_eq!(i, a.len());
}
