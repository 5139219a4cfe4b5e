//! The list algebra and the store policy on concrete values, and the
//! store operations against paths that do not exist, where the backend
//! answers deterministically.

use xat::{
    add_value, contains_substr, contains_value, cut_value, is_blank, is_protected, make_raw_key,
    rename, replace_value, set_conflicts, split_key, str_eq, KeyType, MatchMode, RenameOutcome,
    StoreError,
};

#[test]
fn add_on_absent_is_item() {
    let r = add_value(&None, "b");
    assert_eq!(r, "b");
}

#[test]
fn add_on_blank_is_item() {
    let r = add_value(&Some("   \t ".to_string()), "b");
    assert_eq!(r, "b");
}

#[test]
fn add_appends_with_comma() {
    let r = add_value(&Some("a".to_string()), "b");
    assert_eq!(r, "a,b");
}

#[test]
fn cut_removes_every_match() {
    let r = cut_value("a,b,c,b", "b");
    assert_eq!(r, Some("a,c".to_string()));
}

#[test]
fn cut_without_match_is_noop() {
    assert_eq!(cut_value("a,c", "b"), None);
}

#[test]
fn cut_all_items_leaves_empty_value() {
    assert_eq!(cut_value("b,b", "b"), Some(String::new()));
}

#[test]
fn replace_substitutes_every_match() {
    let r = replace_value("a,b,c,b", "b", "x");
    assert_eq!(r, Some("a,x,c,x".to_string()));
}

#[test]
fn replace_without_match_is_noop() {
    assert_eq!(replace_value("a,c", "b", "x"), None);
}

#[test]
fn replace_is_exact_match_not_substring() {
    assert_eq!(replace_value("ab,c", "a", "x"), None);
}

#[test]
fn contains_any_matches_substring() {
    let stored = Some("colors,red".to_string());
    let queries = vec!["re".to_string()];
    assert!(contains_value(MatchMode::AnyOf, &queries, &stored));
}

#[test]
fn contains_all_needs_every_query() {
    let stored = Some("colors,red".to_string());
    let queries = vec!["re".to_string(), "bl".to_string()];
    assert!(!contains_value(MatchMode::AllOf, &queries, &stored));
    let queries2 = vec!["re".to_string(), "col".to_string()];
    assert!(contains_value(MatchMode::AllOf, &queries2, &stored));
}

#[test]
fn contains_none_rejects_any_match() {
    let stored = Some("colors,red".to_string());
    let queries = vec!["re".to_string()];
    assert!(!contains_value(MatchMode::NoneOf, &queries, &stored));
    let queries2 = vec!["zz".to_string()];
    assert!(contains_value(MatchMode::NoneOf, &queries2, &stored));
}

#[test]
fn contains_empty_query_policies() {
    let stored = Some("a,b".to_string());
    let none: Vec<String> = Vec::new();
    assert!(contains_value(MatchMode::AnyOf, &none, &stored));
    assert!(contains_value(MatchMode::AllOf, &none, &stored));
    assert!(!contains_value(MatchMode::NoneOf, &none, &stored));
    assert!(!contains_value(MatchMode::AnyOf, &none, &None));
    assert!(!contains_value(MatchMode::AllOf, &none, &None));
    assert!(contains_value(MatchMode::NoneOf, &none, &None));
    let some = vec!["q".to_string()];
    assert!(!contains_value(MatchMode::NoneOf, &some, &None));
}

#[test]
fn protected_conflict_needs_prior_value() {
    assert!(set_conflicts(&Some("old".to_string()), true));
    assert!(!set_conflicts(&None, true));
    assert!(!set_conflicts(&Some("old".to_string()), false));
    assert!(!set_conflicts(&None, false));
}

#[test]
fn protected_key_is_tags() {
    assert!(is_protected("tags"));
    assert!(!is_protected("tag"));
    assert!(!is_protected("user.tags"));
}

#[test]
fn split_key_resolves_namespaces() {
    assert_eq!(split_key("user.colour"), ("colour", KeyType::User));
    assert_eq!(split_key("system.acl"), ("acl", KeyType::System));
    assert_eq!(split_key("trusted.cap"), ("cap", KeyType::Trusted));
    assert_eq!(split_key("security.selinux"), ("selinux", KeyType::Security));
}

#[test]
fn split_key_defaults_to_user() {
    assert_eq!(split_key("oddball"), ("oddball", KeyType::User));
    assert_eq!(split_key(""), ("", KeyType::User));
    assert_eq!(split_key("user"), ("user", KeyType::User));
}

#[test]
fn raw_key_carries_user_prefix() {
    assert_eq!(make_raw_key("colour"), "user.colour");
}

#[test]
fn blank_and_equality_helpers() {
    assert!(is_blank(""));
    assert!(is_blank(" \t\n"));
    assert!(!is_blank(" x "));
    assert!(str_eq("abc", "abc"));
    assert!(!str_eq("abc", "abd"));
    assert!(contains_substr("colors", "lor"));
    assert!(!contains_substr("colors", "red"));
    assert!(contains_substr("anything", ""));
}

#[test]
fn store_calls_on_missing_path_fail_cleanly() {
    let path = "/nonexistent/surely/not/here";
    assert!(xat::get(path, "tags").is_none());
    assert_eq!(
        xat::store::set(path, "tags", "v", false),
        Err(StoreError::BackendFailure)
    );
    assert_eq!(
        xat::store::set(path, "tags", "v", true),
        Err(StoreError::BackendFailure)
    );
    assert_eq!(xat::remove(path, "tags"), Err(()));
    assert_eq!(xat::cut_list(path, "tags", "a"), None);
    assert_eq!(xat::replace_list(path, "tags", "a", "b"), None);
    assert_eq!(
        xat::add_list(path, "tags", "a"),
        Err(StoreError::BackendFailure)
    );
    assert!(!xat::set_raw(path, "k", "v"));
    assert!(!xat::remove_raw(path, "k"));
    assert!(!xat::contains(
        MatchMode::AnyOf,
        "tags",
        &vec!["a".to_string()],
        path
    ));
    assert!(matches!(
        rename(path, "a", "b", false),
        RenameOutcome::MissingSource
    ));
}
