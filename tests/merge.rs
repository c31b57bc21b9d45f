use opz::env_file::merge_env_file;
use opz::merge::merge_env_lines;

fn strings(v: &[&str]) -> Vec<String> {
    v.iter().map(|s| s.to_string()).collect()
}

#[test]
fn later_item_wins_in_first_slot() {
    let sections = vec![
        ("a".to_string(), strings(&["X=1", "Y=2"])),
        ("b".to_string(), strings(&["X=9", "Z=3"])),
    ];
    assert_eq!(merge_env_lines(&sections), strings(&["X=9", "Y=2", "Z=3"]));
}

#[test]
fn merge_of_nothing_is_empty() {
    assert_eq!(merge_env_lines(&vec![]), Vec::<String>::new());
    let sections = vec![("a".to_string(), vec![])];
    assert_eq!(merge_env_lines(&sections), Vec::<String>::new());
}

#[test]
fn merge_within_one_section() {
    let sections = vec![("a".to_string(), strings(&["K=1", "K=2", "L=3"]))];
    assert_eq!(merge_env_lines(&sections), strings(&["K=2", "L=3"]));
}

#[test]
fn test_write_env_file_creates_file() {
    let lines = strings(&[r#"KEY1="value1""#, r#"KEY2="value2""#]);
    let content = merge_env_file("", &lines);
    assert!(content.contains(r#"KEY1="value1""#));
    assert!(content.contains(r#"KEY2="value2""#));
    assert_eq!(content, "KEY1=\"value1\"\nKEY2=\"value2\"\n");
}

#[test]
fn test_write_env_file_with_newlines() {
    let lines = strings(&[r#"MULTI="line1\nline2""#]);
    let content = merge_env_file("", &lines);
    assert!(content.contains(r#"MULTI="line1\nline2""#));
}

#[test]
fn test_write_env_file_empty_lines() {
    let content = merge_env_file("", &vec![]);
    assert!(content.is_empty());
}

#[test]
fn test_write_env_file_appends_existing() {
    let lines = strings(&[r#"NEW_KEY="new_value""#]);
    let content = merge_env_file("OLD_CONTENT", &lines);
    assert!(content.starts_with("OLD_CONTENT"));
    assert!(content.contains("\nNEW_KEY=\"new_value\""));
}

#[test]
fn colliding_keys_are_replaced_in_place() {
    let existing = "# header\nA=old\n\nexport B=keep # note\nC=old2\n";
    let lines = strings(&["C=new2", "A=new", "D=4"]);
    let content = merge_env_file(existing, &lines);
    assert_eq!(
        content,
        "# header\nA=new\n\nexport B=keep # note\nC=new2\nD=4\n"
    );
}

#[test]
fn merging_twice_gives_the_same_text() {
    let existing = "X=1\n# c\nY=2";
    let lines = strings(&["Y=3", "Z=4", "Z=5"]);
    let once = merge_env_file(existing, &lines);
    let twice = merge_env_file(&once, &lines);
    assert_eq!(once, "X=1\n# c\nY=3\nZ=4\n");
    assert_eq!(once, twice);
}

#[test]
fn successive_writes_match_the_in_memory_merge() {
    let a = strings(&["X=1", "Y=2"]);
    let b = strings(&["X=9", "Z=3"]);
    let first = merge_env_file("", &a);
    let second = merge_env_file(&first, &b);
    assert_eq!(second, "X=9\nY=2\nZ=3\n");
    let merged = merge_env_lines(&vec![("a".to_string(), a), ("b".to_string(), b)]);
    assert_eq!(second, format!("{}\n", merged.join("\n")));
}

#[test]
fn fresh_file_holds_exactly_the_reference_lines() {
    let lines = strings(&["K1=op://V/I/K1", "K2=op://V/I/K2"]);
    assert_eq!(merge_env_file("", &lines), "K1=op://V/I/K1\nK2=op://V/I/K2\n");
}
