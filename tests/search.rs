use code2prompt::search::{glob_match_search, glob_match_search_folded};

#[test]
fn double_star_alone_matches_everything() {
    assert!(glob_match_search("**", "anything/at/all.rs"));
    assert!(glob_match_search("**", ""));
}

#[test]
fn double_star_with_prefix_needs_prefix_only() {
    assert!(glob_match_search("src/**", "my/src/lib.rs"));
    assert!(glob_match_search("src/**", "src"));
    assert!(!glob_match_search("src/**", "lib/main.rs"));
}

#[test]
fn double_star_prefix_and_suffix_unordered() {
    assert!(glob_match_search("src/**/lib.rs", "src/a/lib.rs"));
    assert!(glob_match_search("src/**/lib.rs", "lib.rs/src"));
    assert!(!glob_match_search("src/**/lib.rs", "src/main.rs"));
}

#[test]
fn three_parts_fall_back_to_literal_containment() {
    assert!(!glob_match_search("a*b*c", "abc"));
    assert!(glob_match_search("a*b*c", "xA*B*Cx"));
}

#[test]
fn single_star_needs_both_parts_in_any_order() {
    assert!(glob_match_search("foo*bar", "foo_bar"));
    assert!(glob_match_search("foo*bar", "barfoo"));
    assert!(!glob_match_search("foo*bar", "foo"));
    assert!(glob_match_search("*.rs", "main.rs"));
}

#[test]
fn single_star_is_case_sensitive() {
    assert!(!glob_match_search("*.RS", "main.rs"));
}

#[test]
fn fallback_is_case_insensitive() {
    assert!(glob_match_search("README", "docs/readme.md"));
    assert!(!glob_match_search("README", "docs/guide.md"));
    assert!(glob_match_search("", "x"));
}

#[test]
fn folded_uses_given_lower_case_forms() {
    assert!(glob_match_search_folded("Q", "text", "q", "q-text"));
    assert!(!glob_match_search_folded("Q", "Q", "q", "other"));
    assert!(glob_match_search_folded("**", "whatever", "", "nothing"));
    assert!(glob_match_search_folded("x*y", "y then x", "zzz", "aaa"));
}
