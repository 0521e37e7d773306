use docpath::{
    contains_dot,
    extract, extract_lines, get_extension, output, parse_index, read_from_json, read_from_yaml,
    read_objects, render_i64, render_usize, resolve_filetype, split_path, Args, FileType, Node,
    ParseError,
};

fn lines(text: &str, ft: FileType, key: &str) -> Vec<String> {
    let root = match read_objects(text, ft) {
        Ok(v) => v,
        Err(e) => panic!("load failed: {:?}", e),
    };
    extract_lines(&key.to_string(), &root)
}

#[test]
fn flattens_nested_json_without_path() {
    assert_eq!(
        lines(r#"{"a": [1, {"b": "x"}]}"#, FileType::Json, ""),
        vec!["a.0:1".to_string(), "a.1.b:x".to_string()]
    );
}

#[test]
fn extracted_scalar_has_no_prefix() {
    assert_eq!(lines(r#"{"a": {"b": 2}}"#, FileType::Json, "a.b"), vec!["2".to_string()]);
}

#[test]
fn malformed_json_is_a_json_error() {
    let r = read_objects(r#"{"a": }"#, FileType::Json);
    assert!(matches!(r, Err(ParseError::JsonError(_))));
}

#[test]
fn missing_key_prints_nothing() {
    assert!(lines(r#"{"a": {"b": 2}}"#, FileType::Json, "a.c").is_empty());
    assert!(lines(r#"{"a": [1, 2]}"#, FileType::Json, "a.2").is_empty());
    assert!(lines(r#"{"a": [1, 2]}"#, FileType::Json, "a.x").is_empty());
    assert!(lines(r#"{"a": 1}"#, FileType::Json, "a.b").is_empty());
}

#[test]
fn array_index_segment_selects_item() {
    assert_eq!(lines(r#"{"a": [1, {"b": "x"}]}"#, FileType::Json, "a.1.b"), vec!["x".to_string()]);
    assert_eq!(lines(r#"[true, null]"#, FileType::Json, "1"), vec!["null".to_string()]);
}

#[test]
fn extract_of_empty_path_is_root() {
    let root = read_from_json("[1]").unwrap();
    let v = extract(&String::new(), &root).unwrap();
    assert_eq!(output(v), vec!["0:1".to_string()]);
}

#[test]
fn root_scalar_is_bare() {
    assert_eq!(lines("\"hello\"", FileType::Json, ""), vec!["hello".to_string()]);
    assert_eq!(lines("false", FileType::Json, ""), vec!["false".to_string()]);
}

#[test]
fn yaml_float_keeps_its_text() {
    assert_eq!(lines("x: 1.50\n", FileType::Yaml, ""), vec!["x:1.50".to_string()]);
}

#[test]
fn yaml_non_scalar_key_fails() {
    let r = read_from_yaml("? [1, 2]\n: v\n");
    match r {
        Err(ParseError::JsonConvertError(m)) => assert_eq!(m, "Non-stringable key"),
        _ => panic!("expected a conversion error"),
    }
}

#[test]
fn yaml_matches_equivalent_json() {
    let y = lines("a:\n  - 1\n  - b: x\n", FileType::Yaml, "");
    let j = lines(r#"{"a": [1, {"b": "x"}]}"#, FileType::Json, "");
    assert_eq!(y, j);
}

#[test]
fn yaml_scalar_keys_are_rendered() {
    assert_eq!(lines("7: a\n", FileType::Yaml, ""), vec!["7:a".to_string()]);
    assert_eq!(lines("true: a\n", FileType::Yaml, ""), vec!["true:a".to_string()]);
    assert_eq!(lines("-3: a\n", FileType::Yaml, ""), vec!["-3:a".to_string()]);
}

#[test]
fn yaml_later_duplicate_key_text_wins() {
    assert_eq!(lines("1: a\n'1': b\n", FileType::Yaml, ""), vec!["1:b".to_string()]);
}

#[test]
fn yaml_only_first_document_is_used() {
    assert_eq!(lines("a: 1\n---\nb: 2\n", FileType::Yaml, ""), vec!["a:1".to_string()]);
}

#[test]
fn yaml_empty_stream_is_null() {
    assert_eq!(lines("", FileType::Yaml, ""), vec!["null".to_string()]);
}

#[test]
fn yaml_scan_error() {
    let r = read_from_yaml("a: [1, 2\n");
    assert!(matches!(r, Err(ParseError::ScanError(_))));
}

#[test]
fn json_leaves_one_line_each() {
    let out = lines(r#"{"a": {"b": [1, 2, 3], "c": null}, "d": "e"}"#, FileType::Json, "");
    assert_eq!(
        out,
        vec![
            "a.b.0:1".to_string(),
            "a.b.1:2".to_string(),
            "a.b.2:3".to_string(),
            "a.c:null".to_string(),
            "d:e".to_string()
        ]
    );
}

#[test]
fn empty_containers_print_nothing() {
    assert!(lines("[]", FileType::Json, "").is_empty());
    assert!(lines("{}", FileType::Json, "").is_empty());
}

#[test]
fn extension_names_format() {
    assert_eq!(FileType::for_extension("yaml"), Some(FileType::Yaml));
    assert_eq!(FileType::for_extension("yml"), Some(FileType::Yaml));
    assert_eq!(FileType::for_extension("json"), Some(FileType::Json));
    assert_eq!(FileType::for_extension("txt"), None);
}

#[test]
fn extension_is_after_last_dot() {
    assert_eq!(get_extension("a.b.yml"), "yml");
    assert_eq!(get_extension("noext"), "noext");
    assert_eq!(get_extension("trailing."), "");
}

#[test]
fn format_choice() {
    assert_eq!(resolve_filetype(Some(FileType::Json), Some("x.yaml")), FileType::Json);
    assert_eq!(resolve_filetype(None, Some("x.yaml")), FileType::Yaml);
    assert_eq!(resolve_filetype(None, Some("x.txt")), FileType::Json);
    assert_eq!(resolve_filetype(None, None), FileType::Json);
    assert_eq!(resolve_filetype(None, Some("x.yml")), FileType::Yaml);
    assert_eq!(resolve_filetype(None, Some("x.json")), FileType::Json);
}

#[test]
fn file_named_like_a_format_is_json() {
    assert_eq!(resolve_filetype(None, Some("yaml")), FileType::Json);
    assert_eq!(resolve_filetype(None, Some("yml")), FileType::Json);
    assert_eq!(resolve_filetype(Some(FileType::Yaml), Some("yaml")), FileType::Yaml);
}

#[test]
fn dot_detection() {
    assert!(contains_dot("a.b"));
    assert!(!contains_dot("yaml"));
    assert!(!contains_dot(""));
}

#[test]
fn errors_convert_into_parse_error() {
    let e = serde_json::from_str::<serde_json::Value>("{").unwrap_err();
    assert!(matches!(ParseError::from(e), ParseError::JsonError(_)));
    let e = std::io::Error::new(std::io::ErrorKind::Other, "x");
    assert!(matches!(ParseError::from(e), ParseError::IoError(_)));
    let e = yaml_rust::YamlLoader::load_from_str("a: [1").unwrap_err();
    assert!(matches!(ParseError::from(e), ParseError::ScanError(_)));
}

#[test]
fn args_defaults() {
    let a = Args::new();
    assert_eq!(a.key, "");
    assert!(a.file.is_none());
    assert_eq!(a.ext, FileType::Json);
}

#[test]
fn decimal_rendering() {
    assert_eq!(render_usize(0), "0");
    assert_eq!(render_usize(1203), "1203");
    assert_eq!(render_i64(-45), "-45");
    assert_eq!(render_i64(i64::MIN), "-9223372036854775808");
    assert_eq!(render_i64(i64::MAX), "9223372036854775807");
}

#[test]
fn index_parsing() {
    assert_eq!(parse_index(&"12".to_string(), 13), Some(12));
    assert_eq!(parse_index(&"12".to_string(), 12), None);
    assert_eq!(parse_index(&"007".to_string(), 10), Some(7));
    assert_eq!(parse_index(&"".to_string(), 10), None);
    assert_eq!(parse_index(&"1a".to_string(), 10), None);
    assert_eq!(parse_index(&"99999999999999999999999".to_string(), usize::MAX), None);
}

#[test]
fn path_splitting() {
    assert!(split_path("").is_empty());
    assert_eq!(split_path("a.b"), vec!["a".to_string(), "b".to_string()]);
    assert_eq!(split_path("a..b"), vec!["a".to_string(), "".to_string(), "b".to_string()]);
}

#[test]
fn json_number_text() {
    let root = read_from_json("[1.5, -2]").unwrap();
    match root {
        Node::Array(items) => {
            assert_eq!(items.len(), 2);
            assert!(matches!(&items[0], Node::Number(s) if s == "1.5"));
            assert!(matches!(&items[1], Node::Number(s) if s == "-2"));
        }
        _ => panic!("expected an array"),
    }
}

#[test]
fn yaml_bad_tagged_value_is_unsupported() {
    match read_from_yaml("a: !!int xyz\n") {
        Err(ParseError::JsonConvertError(m)) => assert_eq!(m, "Unsupported value type"),
        _ => panic!("expected a conversion error"),
    }
}

#[test]
fn yaml_alias_is_resolved() {
    assert_eq!(
        lines("a: &x 5\nb: *x\n", FileType::Yaml, ""),
        vec!["a:5".to_string(), "b:5".to_string()]
    );
}
