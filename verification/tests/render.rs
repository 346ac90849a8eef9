use yml_diff::render::{get_val_string, number_string, tag_string};
use yml_diff::value::{Number, Value};

fn text(s: &str) -> Value {
    Value::String(s.to_string())
}

fn num(n: u64) -> Value {
    Value::Number(Number::PosInt(n))
}

#[test]
fn scalars_render_as_their_text() {
    assert_eq!(get_val_string(&Value::Null), "null");
    assert_eq!(get_val_string(&Value::Bool(true)), "true");
    assert_eq!(get_val_string(&Value::Bool(false)), "false");
    assert_eq!(get_val_string(&text("plain \"text\"\n")), "plain \"text\"\n");
    assert_eq!(get_val_string(&text("")), "");
}

#[test]
fn integers_render_in_decimal() {
    assert_eq!(number_string(&Number::PosInt(0)), "0");
    assert_eq!(number_string(&Number::PosInt(7)), "7");
    assert_eq!(number_string(&Number::PosInt(10)), "10");
    assert_eq!(number_string(&Number::PosInt(5432)), "5432");
    assert_eq!(number_string(&Number::PosInt(u64::MAX)), "18446744073709551615");
    assert_eq!(number_string(&Number::NegInt(-1)), "-1");
    assert_eq!(number_string(&Number::NegInt(-30)), "-30");
    assert_eq!(number_string(&Number::NegInt(i64::MIN)), "-9223372036854775808");
    assert_eq!(number_string(&Number::NegInt(12)), "12");
    assert_eq!(get_val_string(&num(30)), "30");
}

#[test]
fn floats_render_as_their_own_text() {
    let n = Number::Float { bits: 1.5f64.to_bits(), text: "1.5".to_string() };
    assert_eq!(number_string(&n), "1.5");
    let n = Number::Float { bits: f64::NAN.to_bits(), text: ".nan".to_string() };
    assert_eq!(get_val_string(&Value::Number(n)), ".nan");
}

#[test]
fn sequences_render_in_brackets() {
    assert_eq!(get_val_string(&Value::Sequence(vec![])), "[]");
    assert_eq!(get_val_string(&Value::Sequence(vec![num(1)])), "[1]");
    assert_eq!(get_val_string(&Value::Sequence(vec![num(1), num(2), num(3)])), "[1, 2, 3]");
    assert_eq!(
        get_val_string(&Value::Sequence(vec![text(""), text(""), Value::Null])),
        "[, , null]"
    );
    assert_eq!(
        get_val_string(&Value::Sequence(vec![
            Value::Sequence(vec![num(1), num(2)]),
            Value::Sequence(vec![]),
            text("x"),
        ])),
        "[[1, 2], [], x]"
    );
}

#[test]
fn mappings_render_as_quoted_entries() {
    assert_eq!(get_val_string(&Value::Mapping(vec![])), "{}");
    assert_eq!(get_val_string(&Value::Mapping(vec![(text("a"), num(1))])), "{\"a\": \"1\"}");
    assert_eq!(
        get_val_string(&Value::Mapping(vec![(text("a"), num(1)), (text("b"), text("x y"))])),
        "{\"a\": \"1\", \"b\": \"x y\"}"
    );
    assert_eq!(
        get_val_string(&Value::Mapping(vec![(text("q\"k"), text("line\nbreak"))])),
        "{\"q\\\"k\": \"line\\nbreak\"}"
    );
    assert_eq!(
        get_val_string(&Value::Sequence(vec![Value::Mapping(vec![(
            text("k"),
            Value::Mapping(vec![(num(1), Value::Null)]),
        )])])),
        "[{\"k\": \"{\\\"1\\\": \\\"null\\\"}\"}]"
    );
}

#[test]
fn last_entry_of_equal_key_texts_is_shown() {
    let doc = Value::Mapping(vec![(num(1), text("a")), (text("x"), text("b")), (text("1"), text("c"))]);
    assert_eq!(get_val_string(&doc), "{\"x\": \"b\", \"1\": \"c\"}");
    let doc = Value::Mapping(vec![(text("1"), text("a")), (num(1), text("b"))]);
    assert_eq!(get_val_string(&doc), "{\"1\": \"b\"}");
}

#[test]
fn tagged_values_render_with_their_tag() {
    assert_eq!(tag_string("Thing"), "!Thing");
    assert_eq!(tag_string("!Thing"), "!Thing");
    assert_eq!(tag_string("!"), "!!");
    assert_eq!(tag_string(""), "!");
    assert_eq!(tag_string("!!x"), "!!x");
    assert_eq!(get_val_string(&Value::Tagged("Thing".to_string(), Box::new(text("x")))), "!Thing:x");
    assert_eq!(
        get_val_string(&Value::Tagged(
            "!a".to_string(),
            Box::new(Value::Tagged("b".to_string(), Box::new(Value::Sequence(vec![num(1)])))),
        )),
        "!a:!b:[1]"
    );
}
