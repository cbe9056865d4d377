use code2prompt::pattern::{
    resolve_inclusion, should_include_path, CompiledMatcher, ConfigurationError,
};
use code2prompt::session::{Code2PromptSession, FilterConfig};

fn txt_session() -> Code2PromptSession {
    let mut config = FilterConfig::new("/repo".to_string());
    config.include_patterns.push("*.txt".to_string());
    Code2PromptSession::new(config).unwrap()
}

#[test]
fn scenario_patterns_only() {
    let s = txt_session();
    assert!(s.is_file_included("a.txt"));
    assert!(!s.is_file_included("b.log"));
}

#[test]
fn scenario_explicit_exclude_overrides_pattern() {
    let mut s = txt_session();
    s.exclude_file("a.txt".to_string());
    assert!(!s.is_file_included("a.txt"));
}

#[test]
fn scenario_toggle_pattern_included_file() {
    let mut s = txt_session();
    s.toggle_file("a.txt".to_string());
    assert_eq!(s.config.explicit_excludes, vec!["a.txt".to_string()]);
    assert!(s.config.explicit_includes.is_empty());
    assert!(!s.is_file_included("a.txt"));
}

#[test]
fn explicit_exclude_beats_explicit_include_and_patterns() {
    let mut config = FilterConfig::new("/repo".to_string());
    config.include_patterns.push("*.txt".to_string());
    config.explicit_includes.push("a.txt".to_string());
    config.explicit_excludes.push("a.txt".to_string());
    let s = Code2PromptSession::new(config).unwrap();
    assert!(!s.is_file_included("a.txt"));
}

#[test]
fn explicit_include_beats_patterns() {
    let mut s = txt_session();
    s.add_exclude_pattern("*.log".to_string()).unwrap();
    assert!(!s.is_file_included("b.log"));
    s.include_file("b.log".to_string());
    assert!(s.is_file_included("b.log"));
}

#[test]
fn toggle_twice_restores_decision() {
    let mut s = txt_session();
    for p in ["a.txt", "b.log"] {
        let before = s.is_file_included(p);
        s.toggle_file(p.to_string());
        assert_ne!(s.is_file_included(p), before);
        s.toggle_file(p.to_string());
        assert_eq!(s.is_file_included(p), before);
    }
}

#[test]
fn include_then_exclude_leaves_only_exclusion() {
    let mut s = txt_session();
    s.include_file("c.md".to_string());
    s.exclude_file("c.md".to_string());
    assert!(!s.config.explicit_includes.contains(&"c.md".to_string()));
    assert_eq!(s.config.explicit_excludes, vec!["c.md".to_string()]);
    s.include_file("c.md".to_string());
    assert_eq!(s.config.explicit_includes, vec!["c.md".to_string()]);
    assert!(s.config.explicit_excludes.is_empty());
}

#[test]
fn paths_are_made_relative_to_the_root() {
    let mut s = txt_session();
    s.exclude_file("/repo/src/a.txt".to_string());
    assert_eq!(s.config.explicit_excludes, vec!["src/a.txt".to_string()]);
    assert!(!s.is_file_included("/repo/src/a.txt"));
    assert!(!s.is_file_included("src/a.txt"));
    assert!(s.is_file_included("/repo/src/b.txt"));
}

#[test]
fn clear_overrides_reverts_to_patterns() {
    let mut s = txt_session();
    s.exclude_file("a.txt".to_string());
    s.include_file("b.log".to_string());
    s.clear_explicit_overrides();
    assert!(s.is_file_included("a.txt"));
    assert!(!s.is_file_included("b.log"));
}

#[test]
fn no_include_patterns_means_everything_not_excluded() {
    let mut config = FilterConfig::new("/repo".to_string());
    config.exclude_patterns.push("*.log".to_string());
    let s = Code2PromptSession::new(config).unwrap();
    assert!(s.is_file_included("a.txt"));
    assert!(s.is_file_included("src/main.rs"));
    assert!(!s.is_file_included("b.log"));
}

#[test]
fn include_match_wins_over_exclude_match() {
    let mut config = FilterConfig::new("/repo".to_string());
    config.include_patterns.push("*.txt".to_string());
    config.exclude_patterns.push("secret*".to_string());
    let s = Code2PromptSession::new(config).unwrap();
    assert!(s.is_file_included("secret.txt"));
    assert!(!s.is_file_included("secret.log"));
}

#[test]
fn invalid_pattern_is_a_configuration_error() {
    let mut config = FilterConfig::new("/repo".to_string());
    config.include_patterns.push("*.txt".to_string());
    config.include_patterns.push("a[".to_string());
    let err = Code2PromptSession::new(config).err().unwrap();
    assert_eq!(err, ConfigurationError::InvalidPattern { pattern: "a[".to_string() });
}

#[test]
fn rejected_pattern_is_appended_and_reported() {
    let mut s = txt_session();
    let err = s.add_include_pattern("{unclosed".to_string()).err().unwrap();
    assert_eq!(err, ConfigurationError::InvalidPattern { pattern: "{unclosed".to_string() });
    assert_eq!(
        s.config.include_patterns,
        vec!["*.txt".to_string(), "{unclosed".to_string()]
    );
    s.config.include_patterns.pop();
    s.recompile_patterns().unwrap();
    assert!(s.is_file_included("a.txt"));
    assert!(!s.is_file_included("b.log"));
}

#[test]
fn too_many_braces_is_an_error() {
    let pattern = format!("{}a{}", "{".repeat(201), "}".repeat(201));
    let err = CompiledMatcher::compile(&vec!["*.rs".to_string(), pattern.clone()]).err().unwrap();
    assert_eq!(err, ConfigurationError::TooNested { pattern });
    let deep = format!("{}a{}", "{".repeat(200_000), "}".repeat(200_000));
    assert!(CompiledMatcher::compile(&vec![deep]).is_err());
    assert!(CompiledMatcher::compile(&vec!["{a,b}".to_string()]).is_ok());
}

#[test]
fn added_pattern_applies_at_once() {
    let mut s = txt_session();
    s.add_include_pattern("*.log".to_string()).unwrap();
    assert!(s.is_file_included("b.log"));
    s.add_exclude_pattern("*.md".to_string()).unwrap();
    assert!(!s.is_file_included("c.md"));
}

#[test]
fn deeply_nested_alternates_are_an_error_not_a_panic() {
    let pattern = format!("{}a{}", "{".repeat(400), "}".repeat(400));
    let r = CompiledMatcher::compile(&vec![pattern]);
    assert!(r.is_err());
}

#[test]
fn recompile_after_direct_edit() {
    let mut s = txt_session();
    s.config.exclude_patterns.push("a*".to_string());
    s.recompile_patterns().unwrap();
    assert!(s.is_file_included("a.txt"));
    s.config.include_patterns.clear();
    s.recompile_patterns().unwrap();
    assert!(!s.is_file_included("a.txt"));
    s.config.include_patterns.push("[".to_string());
    assert!(s.recompile_patterns().is_err());
}

#[test]
fn compiled_matcher_matches_any_pattern() {
    let m = CompiledMatcher::compile(&vec!["*.rs".to_string(), "docs/**".to_string()]).unwrap();
    assert!(m.is_match("src/lib.rs"));
    assert!(m.is_match("docs/guide/intro.md"));
    assert!(!m.is_match("README.md"));
    let empty = CompiledMatcher::compile(&Vec::new()).unwrap();
    assert!(!empty.is_match("a.rs"));
    assert!(empty.is_empty());
}

#[test]
fn should_include_path_direct() {
    let inc = CompiledMatcher::compile(&vec!["*.txt".to_string()]).unwrap();
    let exc = CompiledMatcher::compile(&Vec::new()).unwrap();
    let none: Vec<String> = Vec::new();
    assert!(should_include_path("a.txt", &inc, &exc, &none, &none));
    assert!(!should_include_path("a.txt", &inc, &exc, &none, &vec!["a.txt".to_string()]));
    assert!(should_include_path("b.log", &inc, &exc, &vec!["b.log".to_string()], &none));
}

#[test]
fn resolve_inclusion_precedence() {
    assert!(!resolve_inclusion(true, true, true, false, false));
    assert!(resolve_inclusion(false, true, false, true, false));
    assert!(!resolve_inclusion(false, false, false, true, false));
    assert!(!resolve_inclusion(false, false, true, true, true));
    assert!(resolve_inclusion(false, false, true, true, false));
    assert!(resolve_inclusion(false, false, false, false, true));
    assert!(!resolve_inclusion(false, false, false, false, false));
    assert!(resolve_inclusion(false, false, true, false, false));
}
