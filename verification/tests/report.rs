use yml_diff::diff::cmp_yml_vals;
use yml_diff::report::{report, Piece, Style};
use yml_diff::value::{Number, Value};

fn text(s: &str) -> Value {
    Value::String(s.to_string())
}

fn num(n: u64) -> Value {
    Value::Number(Number::PosInt(n))
}

fn mapping(entries: Vec<(&str, Value)>) -> Value {
    Value::Mapping(entries.into_iter().map(|(k, v)| (text(k), v)).collect())
}

fn lines(pieces: &[Piece]) -> Vec<String> {
    let mut out = Vec::new();
    let mut line = String::new();
    for piece in pieces {
        match piece {
            Piece::Text(_, text) => line.push_str(text),
            Piece::LineEnd => {
                out.push(line);
                line = String::new();
            }
        }
    }
    assert!(line.is_empty());
    out
}

#[test]
fn report_without_difference_says_so() {
    let doc = mapping(vec![("a", num(1))]);
    let diff = cmp_yml_vals(&doc, &doc);
    let pieces = report(&diff);
    assert_eq!(
        lines(&pieces),
        vec![
            "=== YAML 配置文件差异报告 ===",
            "",
            "统计信息:",
            "  新增: 0",
            "  删除: 0",
            "  修改: 0",
            "",
            "没有发现配置差异",
        ]
    );
}

#[test]
fn report_lists_each_part_in_path_order() {
    let old = mapping(vec![
        ("db", mapping(vec![("host", text("x")), ("port", num(5432)), ("user", text("u"))])),
        ("gone", Value::Sequence(vec![num(1), num(2)])),
    ]);
    let new = mapping(vec![
        ("db", mapping(vec![("host", text("y")), ("port", num(5433)), ("user", text("u"))])),
        ("feature", mapping(vec![("timeout", num(30)), ("on", Value::Bool(true))])),
    ]);
    let diff = cmp_yml_vals(&old, &new);
    let pieces = report(&diff);
    assert_eq!(
        lines(&pieces),
        vec![
            "=== YAML 配置文件差异报告 ===",
            "",
            "统计信息:",
            "  新增: 2",
            "  删除: 1",
            "  修改: 2",
            "",
            "新增的配置项:",
            "  + feature.on: true",
            "  + feature.timeout: 30",
            "",
            "删除的配置项:",
            "  - gone: [1, 2]",
            "",
            "修改的配置项:",
            "  ~ db.host",
            "  修改前 x",
            "  修改后 y",
            "  ~ db.port",
            "  修改前 5432",
            "  修改后 5433",
            "",
        ]
    );
}

#[test]
fn report_marks_each_piece_with_its_style() {
    let old = mapping(vec![]);
    let new = mapping(vec![("k", text("v"))]);
    let diff = cmp_yml_vals(&old, &new);
    let pieces = report(&diff);
    let shown: Vec<(Option<Style>, &str)> = pieces
        .iter()
        .map(|p| match p {
            Piece::Text(style, text) => (Some(*style), text.as_str()),
            Piece::LineEnd => (None, ""),
        })
        .collect();
    assert_eq!(
        shown,
        vec![
            (Some(Style::Bold), "=== YAML 配置文件差异报告 ==="),
            (None, ""),
            (None, ""),
            (Some(Style::BlueBold), "统计信息:"),
            (None, ""),
            (Some(Style::Plain), "  新增: "),
            (Some(Style::Green), "1"),
            (None, ""),
            (Some(Style::Plain), "  删除: "),
            (Some(Style::Red), "0"),
            (None, ""),
            (Some(Style::Plain), "  修改: "),
            (Some(Style::Yellow), "0"),
            (None, ""),
            (None, ""),
            (Some(Style::GreenBold), "新增的配置项:"),
            (None, ""),
            (Some(Style::Plain), "  + "),
            (Some(Style::Green), "k"),
            (Some(Style::Plain), ": "),
            (Some(Style::Green), "v"),
            (None, ""),
            (None, ""),
        ]
    );
}

#[test]
fn report_counts_in_decimal() {
    let entries: Vec<(String, Value)> = (0..12).map(|i| (format!("k{i}"), num(i))).collect();
    let new = Value::Mapping(entries.into_iter().map(|(k, v)| (Value::String(k), v)).collect());
    let old = mapping(vec![]);
    let diff = cmp_yml_vals(&old, &new);
    let pieces = report(&diff);
    assert_eq!(lines(&pieces)[3], "  新增: 12");
}
