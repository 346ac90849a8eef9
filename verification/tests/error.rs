use yml_diff::error::LoadError;

#[test]
fn unreadable_file_is_named_with_its_cause() {
    let e = LoadError::Io {
        path: "conf/old.yml".to_string(),
        cause: "No such file or directory (os error 2)".to_string(),
    };
    assert_eq!(
        e.message(),
        "读取配置文件失败！No such file or directory (os error 2): \"conf/old.yml\""
    );
}

#[test]
fn malformed_file_is_named_with_its_cause() {
    let e = LoadError::Parse {
        path: "my \"new\".yml".to_string(),
        cause: "mapping values are not allowed in this context at line 2 column 4".to_string(),
    };
    assert_eq!(
        e.message(),
        "解析配置文件失败！mapping values are not allowed in this context at line 2 column 4: \"my \\\"new\\\".yml\""
    );
}
