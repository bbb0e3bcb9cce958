use proxyctl_rs::doctor::{
    describe_type, line_starts_with, multiline_closing, palette_for, parse_table_path,
    select_type_sample, soften, soften_channel, type_consistent, ValueKind,
};

#[test]
fn table_paths() {
    assert_eq!(
        parse_table_path("[proxy_settings]"),
        Some(vec!["proxy_settings".to_string()])
    );
    assert_eq!(
        parse_table_path("[[ a . b ]]"),
        Some(vec!["a".to_string(), "b".to_string()])
    );
    assert_eq!(parse_table_path("key = 1"), None);
    assert_eq!(parse_table_path("[]"), Some(vec![String::new()]));
}

#[test]
fn closing_characters() {
    assert_eq!(multiline_closing(ValueKind::Array, "["), Some(']'));
    assert_eq!(multiline_closing(ValueKind::Object, "{"), Some('}'));
    assert_eq!(multiline_closing(ValueKind::Array, "[1]"), None);
    assert_eq!(multiline_closing(ValueKind::String, "["), None);
    assert!(line_starts_with("]", ']'));
    assert!(!line_starts_with("", ']'));
}

#[test]
fn softened_colours() {
    assert_eq!(soften_channel(0), 127);
    assert_eq!(soften_channel(255), 255);
    assert_eq!(soften((140, 140, 140)), (197, 197, 197));
    let p = palette_for(ValueKind::Boolean(false));
    assert_eq!(p.primary, (229, 88, 88));
    assert_eq!(p.secondary, (242, 171, 171));
}

#[test]
fn type_labels_and_consistency() {
    assert_eq!(describe_type(ValueKind::Object), "table");
    assert_eq!(describe_type(ValueKind::Boolean(true)), "bool");
    assert!(type_consistent(ValueKind::Integer, ValueKind::Float));
    assert!(type_consistent(ValueKind::String, ValueKind::Null));
    assert!(!type_consistent(ValueKind::String, ValueKind::Integer));
    assert_eq!(select_type_sample(ValueKind::Null, ValueKind::String), ValueKind::String);
    assert_eq!(select_type_sample(ValueKind::Integer, ValueKind::String), ValueKind::Integer);
}
