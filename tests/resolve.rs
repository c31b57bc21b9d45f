use opz::env_file::merge_env_file;
use opz::items::{item_to_reference_lines, FieldValue, ItemField, ItemGet, ItemListEntry, ItemVault};
use opz::resolve::{
    match_candidates, pick_candidate, resolve_title, resolve_vault_id, title_matches, ResolveError,
    VaultRequired,
};

fn vault(id: &str, name: &str) -> Option<ItemVault> {
    Some(ItemVault {
        id: id.to_string(),
        name: name.to_string(),
    })
}

fn entry(id: &str, title: &str, v: Option<ItemVault>) -> ItemListEntry {
    ItemListEntry {
        id: id.to_string(),
        title: title.to_string(),
        vault: v,
    }
}

fn listing() -> Vec<ItemListEntry> {
    vec![
        entry("1", "GitHub Token", vault("v1", "Personal")),
        entry("2", "github", vault("v1", "Personal")),
        entry("3", "AWS Prod", vault("v2", "Work")),
        entry("4", "aws staging", None),
    ]
}

#[test]
fn exact_title_wins_over_substring() {
    let r = resolve_title(&listing(), "github").unwrap();
    assert_eq!(r.id, "2");
}

#[test]
fn substring_match_ignores_case() {
    let r = resolve_title(&listing(), "PROD").unwrap();
    assert_eq!(r.id, "3");
}

#[test]
fn no_match_is_not_found() {
    assert_eq!(resolve_title(&listing(), "gitlab"), Err(ResolveError::NotFound));
    assert_eq!(resolve_title(&vec![], "x"), Err(ResolveError::NotFound));
}

#[test]
fn two_substring_matches_are_ambiguous() {
    match resolve_title(&listing(), "AWS") {
        Err(ResolveError::AmbiguousTitle(c)) => {
            let ids: Vec<&str> = c.iter().map(|e| e.id.as_str()).collect();
            assert_eq!(ids, vec!["3", "4"]);
        }
        other => panic!("unexpected {:?}", other),
    }
}

#[test]
fn ambiguity_reports_at_most_twenty() {
    let items: Vec<ItemListEntry> = (0..25)
        .map(|i| entry(&i.to_string(), &format!("db-{i}"), None))
        .collect();
    match resolve_title(&items, "DB") {
        Err(ResolveError::AmbiguousTitle(c)) => {
            assert_eq!(c.len(), 20);
            assert_eq!(c[0].id, "0");
            assert_eq!(c[19].id, "19");
        }
        other => panic!("unexpected {:?}", other),
    }
}

#[test]
fn candidates_from_given_folded_titles() {
    let items = listing();
    let folded: Vec<String> = vec!["x".into(), "yy".into(), "xyz".into(), "".into()];
    let c = match_candidates(&items, "nothing exact", &folded, "x");
    let ids: Vec<&str> = c.iter().map(|e| e.id.as_str()).collect();
    assert_eq!(ids, vec!["1", "3"]);
    let exact = match_candidates(&items, "AWS Prod", &folded, "x");
    assert_eq!(exact.len(), 1);
    assert_eq!(exact[0].id, "3");
}

#[test]
fn title_matches_lists_every_candidate() {
    let c = title_matches(&listing(), "git");
    assert_eq!(c.len(), 2);
}

#[test]
fn pick_candidate_outcomes() {
    assert_eq!(pick_candidate(vec![]), Err(ResolveError::NotFound));
    let one = entry("9", "t", None);
    assert_eq!(pick_candidate(vec![entry("9", "t", None)]), Ok(one));
}

#[test]
fn vault_prefers_listing_then_detail() {
    assert_eq!(resolve_vault_id(&vault("L", "l"), &vault("D", "d")), Ok("L".to_string()));
    assert_eq!(resolve_vault_id(&None, &vault("D", "d")), Ok("D".to_string()));
    assert_eq!(resolve_vault_id(&None, &None), Err(VaultRequired));
}

#[test]
fn listing_to_reference_file() {
    let items = listing();
    let found = resolve_title(&items, "GitHub Token").unwrap();
    let detail = ItemGet {
        fields: vec![
            ItemField {
                label: Some("GH_TOKEN".to_string()),
                value: Some(FieldValue::Text("ghp_x".to_string())),
            },
            ItemField {
                label: Some("GH_USER".to_string()),
                value: Some(FieldValue::Text("me".to_string())),
            },
        ],
        vault: vault("other", "Other"),
    };
    let vault_id = resolve_vault_id(&found.vault, &detail.vault).unwrap();
    let lines = item_to_reference_lines(&detail, &vault_id, &found.id);
    let content = merge_env_file("", &lines);
    assert_eq!(content, "GH_TOKEN=op://v1/1/GH_TOKEN\nGH_USER=op://v1/1/GH_USER\n");
}
