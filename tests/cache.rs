use opz::cache::{cache_file_name, is_cache_fresh, item_get_args, item_list_args};

#[test]
fn test_cache_file_path_with_vault() {
    let path1 = cache_file_name(Some("my-vault"));
    let path2 = cache_file_name(Some("other-vault"));
    assert_ne!(path1, path2);
    assert!(path1.ends_with(".json"));
    assert!(path2.ends_with(".json"));
    assert!(path1.starts_with("item_list_"));
}

#[test]
fn test_cache_file_path_without_vault() {
    let path = cache_file_name(None);
    assert!(path.ends_with(".json"));
    assert!(path.starts_with("item_list_"));
}

#[test]
fn test_cache_file_path_deterministic() {
    assert_eq!(cache_file_name(Some("test-vault")), cache_file_name(Some("test-vault")));
    assert_eq!(cache_file_name(None), cache_file_name(None));
}

#[test]
fn cache_name_is_the_sha256_of_the_selector() {
    assert_eq!(
        cache_file_name(Some("abc")),
        "item_list_ba7816bf8f01cfea414140de5dae2223b00361a396177a9cb410ff61f20015ad.json"
    );
    assert_eq!(cache_file_name(None).len(), "item_list_".len() + 64 + ".json".len());
    assert_ne!(cache_file_name(None), cache_file_name(Some("")));
    assert_ne!(cache_file_name(None), cache_file_name(Some("_all_")));
}

#[test]
fn freshness_window_is_sixty_seconds() {
    assert!(is_cache_fresh(0));
    assert!(is_cache_fresh(59_999));
    assert!(!is_cache_fresh(60_000));
    assert!(!is_cache_fresh(3_600_000));
}

#[test]
fn backend_arguments() {
    assert_eq!(item_list_args(None), vec!["item", "list", "--format", "json"]);
    assert_eq!(
        item_list_args(Some("Work")),
        vec!["item", "list", "--format", "json", "--vault", "Work"]
    );
    assert_eq!(item_get_args("abc"), vec!["item", "get", "abc", "--format", "json"]);
}
