use opz::expand::expand;

fn vars(pairs: &[(&str, &str)]) -> Vec<(String, String)> {
    pairs
        .iter()
        .map(|(k, v)| (k.to_string(), v.to_string()))
        .collect()
}

#[test]
fn braces_delimit_an_empty_value() {
    let v = vars(&[("EMPTY", "")]);
    assert_eq!(expand("${EMPTY}suffix", &v), "suffix");
    assert_eq!(expand("$EMPTYsuffix", &v), "$EMPTYsuffix");
}

#[test]
fn text_without_dollar_is_unchanged() {
    let v = vars(&[("A", "1")]);
    assert_eq!(expand("plain {A} text", &v), "plain {A} text");
    assert_eq!(expand("", &v), "");
}

#[test]
fn bound_names_are_substituted() {
    let v = vars(&[("TOKEN", "s3cr3t"), ("USER", "me")]);
    assert_eq!(
        expand("--token=$TOKEN --user ${USER}x", &v),
        "--token=s3cr3t --user mex"
    );
}

#[test]
fn unbound_names_pass_through() {
    let v = vars(&[("A", "1")]);
    assert_eq!(expand("$HOME/${HOME}/$A", &v), "$HOME/${HOME}/1");
}

#[test]
fn degenerate_forms() {
    let v = vars(&[("A", "1")]);
    assert_eq!(expand("cost $ 5", &v), "cost $ 5");
    assert_eq!(expand("end$", &v), "end$");
    assert_eq!(expand("${}x", &v), "x");
    assert_eq!(expand("${A", &v), "${A");
    assert_eq!(expand("${A-b}", &v), "${A-b}");
}

#[test]
fn expansion_is_single_pass() {
    let v = vars(&[("A", "$B"), ("B", "2")]);
    assert_eq!(expand("$A", &v), "$B");
}
