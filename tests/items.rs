use opz::items::{item_to_env_lines, item_to_reference_lines, FieldValue, ItemField, ItemGet};

fn make_field(label: Option<&str>, value: Option<FieldValue>) -> ItemField {
    ItemField {
        label: label.map(String::from),
        value,
    }
}

fn text(s: &str) -> Option<FieldValue> {
    Some(FieldValue::Text(s.to_string()))
}

fn item(fields: Vec<ItemField>) -> ItemGet {
    ItemGet {
        fields,
        vault: None,
    }
}

#[test]
fn test_item_to_env_lines_basic() {
    let item = item(vec![
        make_field(Some("API_KEY"), text("secret123")),
        make_field(Some("DB_HOST"), text("localhost")),
    ]);
    let lines = item_to_env_lines(&item);
    assert_eq!(lines.len(), 2);
    assert!(lines.contains(&r#"API_KEY="secret123""#.to_string()));
    assert!(lines.contains(&r#"DB_HOST="localhost""#.to_string()));
}

#[test]
fn test_item_to_env_lines_skips_invalid_labels() {
    let item = item(vec![
        make_field(Some("VALID_KEY"), text("value")),
        make_field(Some("invalid-key"), text("value")),
        make_field(Some("123_START"), text("value")),
        make_field(Some("has space"), text("value")),
    ]);
    let lines = item_to_env_lines(&item);
    assert_eq!(lines.len(), 1);
    assert_eq!(lines[0], r#"VALID_KEY="value""#);
}

#[test]
fn test_item_to_env_lines_valid_label_patterns() {
    let item = item(vec![
        make_field(Some("_UNDERSCORE_START"), text("v1")),
        make_field(Some("lowercase"), text("v2")),
        make_field(Some("MixedCase123"), text("v3")),
        make_field(Some("WITH_123_NUMBERS"), text("v4")),
    ]);
    let lines = item_to_env_lines(&item);
    assert_eq!(lines.len(), 4);
}

#[test]
fn test_item_to_env_lines_skips_empty_values() {
    let item = item(vec![
        make_field(Some("HAS_VALUE"), text("content")),
        make_field(Some("EMPTY_STRING"), text("")),
        make_field(Some("NO_VALUE"), None),
    ]);
    let lines = item_to_env_lines(&item);
    assert_eq!(lines.len(), 1);
    assert_eq!(lines[0], r#"HAS_VALUE="content""#);
}

#[test]
fn test_item_to_env_lines_skips_no_label() {
    let item = item(vec![
        make_field(None, text("orphan_value")),
        make_field(Some("VALID"), text("ok")),
    ]);
    let lines = item_to_env_lines(&item);
    assert_eq!(lines.len(), 1);
    assert_eq!(lines[0], r#"VALID="ok""#);
}

#[test]
fn test_item_to_env_lines_handles_number_values() {
    let port = serde_json::Value::from(8080).to_string();
    let ratio = serde_json::Value::from(3.14).to_string();
    let item = item(vec![
        make_field(Some("PORT"), Some(FieldValue::Number(port))),
        make_field(Some("RATIO"), Some(FieldValue::Number(ratio))),
    ]);
    let lines = item_to_env_lines(&item);
    assert_eq!(lines.len(), 2);
    assert!(lines.contains(&r#"PORT="8080""#.to_string()));
    assert!(lines.contains(&r#"RATIO="3.14""#.to_string()));
}

#[test]
fn test_item_to_env_lines_handles_boolean_values() {
    let item = item(vec![
        make_field(Some("ENABLED"), Some(FieldValue::Bool(true))),
        make_field(Some("DISABLED"), Some(FieldValue::Bool(false))),
    ]);
    let lines = item_to_env_lines(&item);
    assert_eq!(lines.len(), 2);
    assert!(lines.contains(&r#"ENABLED="true""#.to_string()));
    assert!(lines.contains(&r#"DISABLED="false""#.to_string()));
}

#[test]
fn test_item_to_env_lines_handles_object_values() {
    let object: serde_json::Value = serde_json::from_str(r#"{"key": "value"}"#).unwrap();
    let item = item(vec![make_field(
        Some("CONFIG"),
        Some(FieldValue::Json(object.to_string())),
    )]);
    let lines = item_to_env_lines(&item);
    assert_eq!(lines.len(), 1);
    assert!(lines[0].starts_with(r#"CONFIG=""#));
    assert_eq!(lines[0], r#"CONFIG="{\"key\":\"value\"}""#);
}

#[test]
fn test_item_to_env_lines_escapes_special_chars() {
    let item = item(vec![make_field(
        Some("COMPLEX"),
        text("line1\nline2\"quoted\""),
    )]);
    let lines = item_to_env_lines(&item);
    assert_eq!(lines.len(), 1);
    assert_eq!(lines[0], r#"COMPLEX="line1\nline2\"quoted\"""#);
}

#[test]
fn test_item_to_env_lines_empty_fields() {
    let item = item(vec![]);
    let lines = item_to_env_lines(&item);
    assert!(lines.is_empty());
}

#[test]
fn reference_lines_point_at_vault_item_and_label() {
    let item = item(vec![
        make_field(Some("API_KEY"), text("secret123")),
        make_field(Some("bad-label"), text("x")),
        make_field(Some("EMPTY"), text("")),
        make_field(Some("NO_VALUE"), None),
        make_field(None, text("orphan")),
    ]);
    let lines = item_to_reference_lines(&item, "v1", "abc");
    assert_eq!(
        lines,
        vec![
            "API_KEY=op://v1/abc/API_KEY".to_string(),
            "EMPTY=op://v1/abc/EMPTY".to_string(),
        ]
    );
}
