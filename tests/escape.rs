use opz::dotenv::escape_env_value;

#[test]
fn test_escape_env_value_plain_text() {
    assert_eq!(escape_env_value("hello"), "hello");
    assert_eq!(escape_env_value("simple text"), "simple text");
}

#[test]
fn test_escape_env_value_with_backslash() {
    assert_eq!(escape_env_value(r"path\to\file"), r"path\\to\\file");
    assert_eq!(escape_env_value(r"\\server\share"), r"\\\\server\\share");
}

#[test]
fn test_escape_env_value_with_quotes() {
    assert_eq!(escape_env_value(r#"say "hello""#), r#"say \"hello\""#);
    assert_eq!(escape_env_value(r#""""#), r#"\"\""#);
}

#[test]
fn test_escape_env_value_with_newlines() {
    assert_eq!(escape_env_value("line1\nline2"), r"line1\nline2");
    assert_eq!(escape_env_value("line1\r\nline2"), r"line1\r\nline2");
}

#[test]
fn test_escape_env_value_combined() {
    assert_eq!(
        escape_env_value("path\\to\n\"file\""),
        r#"path\\to\n\"file\""#
    );
}

#[test]
fn test_escape_env_value_empty() {
    assert_eq!(escape_env_value(""), "");
}

#[test]
fn escape_leaves_other_characters_alone() {
    assert_eq!(escape_env_value("tab\there 'q' #x"), "tab\there 'q' #x");
}
