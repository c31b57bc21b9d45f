use opz::dotenv::{
    is_valid_label, parse_dotenv, parse_dotenv_line, rejected_dotenv_keys, serialize_dotenv,
};

fn pair(k: &str, v: &str) -> (String, String) {
    (k.to_string(), v.to_string())
}

#[test]
fn labels_accepted_and_rejected() {
    assert!(is_valid_label("_OK"));
    assert!(is_valid_label("MixedCase1"));
    assert!(is_valid_label("WITH_1"));
    assert!(!is_valid_label("1BAD"));
    assert!(!is_valid_label("has space"));
    assert!(!is_valid_label("dash-ed"));
    assert!(!is_valid_label(""));
}

#[test]
fn inline_comments_are_stripped_only_outside_quotes() {
    assert_eq!(parse_dotenv_line("PLAIN=value # c"), Some(pair("PLAIN", "value")));
    assert_eq!(
        parse_dotenv_line("NO_COMMENT=value#hash"),
        Some(pair("NO_COMMENT", "value#hash"))
    );
    assert_eq!(
        parse_dotenv_line("DOUBLE=\"value # kept\""),
        Some(pair("DOUBLE", "value # kept"))
    );
    assert_eq!(
        parse_dotenv_line("SINGLE='a # b' # gone"),
        Some(pair("SINGLE", "a # b"))
    );
    assert_eq!(
        parse_dotenv_line(r#"ESC="a \" # b" # c"#),
        Some(pair("ESC", r#"a \" # b"#))
    );
}

#[test]
fn lines_that_declare_nothing() {
    assert_eq!(parse_dotenv_line(""), None);
    assert_eq!(parse_dotenv_line("   "), None);
    assert_eq!(parse_dotenv_line("  # comment=1"), None);
    assert_eq!(parse_dotenv_line("NOEQUALS"), None);
    assert_eq!(parse_dotenv_line("1BAD=x"), None);
    assert_eq!(parse_dotenv_line("dash-ed=x"), None);
}

#[test]
fn export_prefix_and_spacing() {
    assert_eq!(parse_dotenv_line("export FOO=bar"), Some(pair("FOO", "bar")));
    assert_eq!(parse_dotenv_line("  export   FOO= 'bar'  "), Some(pair("FOO", "bar")));
    assert_eq!(parse_dotenv_line("FOO = bar"), None);
    assert_eq!(parse_dotenv_line("exportFOO=bar"), Some(pair("exportFOO", "bar")));
    assert_eq!(parse_dotenv_line("export=1"), Some(pair("export", "1")));
}

#[test]
fn only_one_outer_quote_pair_is_removed() {
    assert_eq!(parse_dotenv_line("Q=\"\"x\"\""), Some(pair("Q", "\"x\"")));
    assert_eq!(parse_dotenv_line("Q=\"x'"), Some(pair("Q", "\"x'")));
    assert_eq!(parse_dotenv_line("Q=\""), Some(pair("Q", "\"")));
    assert_eq!(parse_dotenv_line("Q=a\\nb"), Some(pair("Q", "a\\nb")));
}

#[test]
fn duplicate_keys_last_wins_and_moves_to_end() {
    let text = "A=1\nB=2\n# note\nA=3\r\n\nbad-key=9\n";
    assert_eq!(
        parse_dotenv(text),
        vec![pair("B", "2"), pair("A", "3")]
    );
}

#[test]
fn empty_text_has_no_pairs() {
    assert_eq!(parse_dotenv(""), vec![]);
    assert_eq!(parse_dotenv("\n\n# only\n"), vec![]);
}

#[test]
fn serialize_bare_and_quoted() {
    let pairs = vec![pair("A", "x y"), pair("B", "q\"\n")];
    assert_eq!(serialize_dotenv(&pairs, false), "A=x y\nB=q\"\n\n");
    assert_eq!(serialize_dotenv(&pairs, true), "A=\"x y\"\nB=\"q\\\"\\n\"\n");
    assert_eq!(serialize_dotenv(&vec![], true), "");
}

#[test]
fn reparse_keeps_the_key_sequence() {
    let text = "export A='1 # x'\nB=\"two\"\nA=3 # c\nC=#\n";
    let first = parse_dotenv(text);
    for quoted in [false, true] {
        let again = parse_dotenv(&serialize_dotenv(&first, quoted));
        let k1: Vec<&String> = first.iter().map(|p| &p.0).collect();
        let k2: Vec<&String> = again.iter().map(|p| &p.0).collect();
        assert_eq!(k1, k2);
    }
    let quoted_again = parse_dotenv(&serialize_dotenv(&first, true));
    assert_eq!(
        quoted_again,
        vec![pair("B", "two"), pair("A", "3"), pair("C", "")]
    );
}

#[test]
fn rejected_keys_are_reported_in_line_order() {
    let text = "GOOD=1\nbad-key=2\n# c=3\nKEY =4\nexport 9X=5\nno equals\n";
    assert_eq!(
        rejected_dotenv_keys(text),
        vec!["bad-key".to_string(), "KEY ".to_string(), "9X".to_string()]
    );
    assert_eq!(rejected_dotenv_keys("A=1\nB=2"), Vec::<String>::new());
}
