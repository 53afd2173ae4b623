use fastapi_lsp::distance::edit_distance;
use fastapi_lsp::env::{is_env_key_ignored, OS_CI_ALLOWLIST};
use fastapi_lsp::paths::{converter_accepts, is_param_segment, literal_route_shadowed_by, normalize_path};

#[test]
fn allowlist_contains_common_vars() {
    assert!(OS_CI_ALLOWLIST.contains(&"HOME"));
    assert!(OS_CI_ALLOWLIST.contains(&"PATH"));
    assert!(OS_CI_ALLOWLIST.contains(&"CI"));
    assert!(OS_CI_ALLOWLIST.contains(&"GITHUB_TOKEN"));
}

#[test]
fn is_env_key_ignored_allowlist() {
    assert!(is_env_key_ignored("HOME", &[]));
    assert!(is_env_key_ignored("home", &[]));
    assert!(is_env_key_ignored("CI", &[]));
    assert!(is_env_key_ignored("GITHUB_TOKEN", &[]));
}

#[test]
fn is_env_key_ignored_user_list() {
    let user = vec!["MY_INTERNAL_KEY".to_owned()];
    assert!(is_env_key_ignored("MY_INTERNAL_KEY", &user));
    assert!(is_env_key_ignored("my_internal_key", &user));
    assert!(!is_env_key_ignored("OTHER_KEY", &user));
}

#[test]
fn is_env_key_ignored_secret_key_not_suppressed() {
    assert!(!is_env_key_ignored("SECRET_KEY", &[]));
}

#[test]
fn is_env_key_ignored_user_entry_matches_case_insensitively() {
    let user = vec!["my_internal_key".to_owned()];
    assert!(is_env_key_ignored("My_Internal_Key", &user));
    assert!(is_env_key_ignored("tz", &[]));
}

#[test]
fn normalize_path_replaces_param_names() {
    assert_eq!(normalize_path("/books/{book_id}"), "/books/{}");
    assert_eq!(normalize_path("/books/{id}"), "/books/{}");
    assert_eq!(
        normalize_path("/books/{book_id}/chapters/{chapter_id}"),
        "/books/{}/chapters/{}"
    );
    assert_eq!(normalize_path("/books"), "/books");
    assert_ne!(normalize_path("/books/"), normalize_path("/books"));
    assert_eq!(normalize_path("/books/"), "/books/");
}

#[test]
fn converter_accepts_str_matches_anything() {
    assert!(converter_accepts("{id}", "featured"));
    assert!(converter_accepts("{id:str}", "123"));
}

#[test]
fn converter_accepts_int_rejects_non_integer() {
    assert!(converter_accepts("{id:int}", "42"));
    assert!(!converter_accepts("{id:int}", "featured"));
    assert!(!converter_accepts("{id:int}", "3.14"));
}

#[test]
fn converter_accepts_float_and_uuid() {
    assert!(converter_accepts("{x:float}", "3.14"));
    assert!(converter_accepts("{x:float}", "1e3"));
    assert!(converter_accepts("{x:float}", "inf"));
    assert!(!converter_accepts("{x:float}", "abc"));
    assert!(converter_accepts("{u:uuid}", "123e4567-e89b-12d3-a456-426614174000"));
    assert!(!converter_accepts("{u:uuid}", "123e4567e89b12d3a456426614174000"));
    assert!(converter_accepts("{n:int}", "-7"));
    assert!(!converter_accepts("{n:int}", "99999999999999999999"));
}

#[test]
fn literal_route_shadowed_by_str_param() {
    assert!(literal_route_shadowed_by("/books/featured", "/books/{id}"));
}

#[test]
fn literal_route_not_shadowed_by_int_param() {
    assert!(!literal_route_shadowed_by("/books/featured", "/books/{id:int}"));
}

#[test]
fn literal_route_not_shadowed_across_lengths() {
    assert!(!literal_route_shadowed_by("/books/featured/x", "/books/{id}"));
    assert!(literal_route_shadowed_by("/books/42", "/books/{id:int}"));
}

#[test]
fn param_segment_detection() {
    assert!(is_param_segment("{id}"));
    assert!(is_param_segment("{id:int}"));
    assert!(!is_param_segment("id"));
    assert!(!is_param_segment("{id"));
}

#[test]
fn edit_distance_exact_match() {
    assert_eq!(edit_distance("book_id", "book_id"), 0);
}

#[test]
fn edit_distance_one_typo() {
    assert_eq!(edit_distance("book_idd", "book_id"), 1);
    assert_eq!(edit_distance("bok_id", "book_id"), 1);
}

#[test]
fn edit_distance_two_changes() {
    assert_eq!(edit_distance("bkk_id", "book_id"), 2);
}

#[test]
fn edit_distance_fast_exit_on_large_delta() {
    assert!(edit_distance("a", "abcdefgh") > 2);
}

#[test]
fn edit_distance_is_symmetric_and_exact() {
    assert_eq!(edit_distance("kitten", "sitting"), 3);
    assert_eq!(edit_distance("sitting", "kitten"), 3);
    assert_eq!(edit_distance("", "ab"), 2);
}
