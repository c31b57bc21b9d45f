use opz::trace::{sanitize_for_trace, truncate_for_trace};

#[test]
fn test_sanitize_for_trace_masks_op_reference() {
    let sanitized = sanitize_for_trace("read op://vault/item/field now");
    assert_eq!(sanitized, "read op://*** now");
}

#[test]
fn test_sanitize_for_trace_masks_secret_key_values() {
    let sanitized = sanitize_for_trace("token=abc123 password=p@ssw0rd");
    assert_eq!(sanitized, "token=*** password=***");
}

#[test]
fn test_sanitize_for_trace_masks_query_like_tokens() {
    let sanitized = sanitize_for_trace("https://x.test/api?api_key=abc&foo=bar");
    assert_eq!(sanitized, "https://x.test/api?api_key=***&foo=bar");
}

#[test]
fn test_sanitize_for_trace_truncates_long_text() {
    let long = "a".repeat(600);
    let sanitized = sanitize_for_trace(&long);
    assert!(sanitized.ends_with("...[truncated]"));
    assert!(sanitized.len() > 512);
}

#[test]
fn truncation_keeps_exactly_the_limit() {
    let long = "b".repeat(513);
    let cut = truncate_for_trace(&long);
    assert_eq!(cut, format!("{}...[truncated]", "b".repeat(512)));
    let exact = "c".repeat(512);
    assert_eq!(truncate_for_trace(&exact), exact);
}

#[test]
fn sanitize_leaves_plain_text() {
    assert_eq!(sanitize_for_trace("nothing secret here"), "nothing secret here");
}

#[test]
fn truncation_counts_utf8_bytes() {
    let wide = "\u{e9}".repeat(600);
    let cut = truncate_for_trace(&wide);
    assert_eq!(cut, format!("{}...[truncated]", "\u{e9}".repeat(256)));
    assert_eq!(cut.len(), 512 + "...[truncated]".len());
    let mixed = format!("{}{}", "a".repeat(511), "\u{e9}");
    assert_eq!(truncate_for_trace(&mixed), format!("{}...[truncated]", "a".repeat(511)));
    let fits = "\u{e9}".repeat(256);
    assert_eq!(truncate_for_trace(&fits), fits);
}
