use rustsync::glob::{glob_match, should_exclude};

#[test]
fn star_matches_everything() {
    for name in ["", "a", "node_modules", ".git", "x.y.z"] {
        assert!(glob_match("*", name), "{name}");
    }
}

#[test]
fn literal_pattern_matches_only_itself() {
    assert!(glob_match("target", "target"));
    assert!(!glob_match("target", "targets"));
    assert!(!glob_match("target", "Target"));
    assert!(!glob_match("target", ""));
}

#[test]
fn question_mark_matches_one_character() {
    assert!(glob_match("?.rs", "a.rs"));
    assert!(!glob_match("?.rs", ".rs"));
    assert!(!glob_match("?.rs", "ab.rs"));
    assert!(!glob_match("?", ""));
}

#[test]
fn star_in_the_middle_and_at_the_ends() {
    assert!(glob_match("*.log", "server.log"));
    assert!(glob_match("*.log", ".log"));
    assert!(!glob_match("*.log", "server.log.1"));
    assert!(glob_match("cache*", "cache"));
    assert!(glob_match("cache*", "cache-v2"));
    assert!(glob_match("a*b*c", "aXXbYYc"));
    assert!(!glob_match("a*b*c", "aXXbYY"));
    assert!(glob_match("**", "anything"));
}

#[test]
fn exclusion_by_exact_name_or_pattern() {
    let patterns = vec!["node_modules".to_string(), "*.tmp".to_string()];
    assert!(should_exclude("node_modules", &patterns));
    assert!(should_exclude("a.tmp", &patterns));
    assert!(!should_exclude("node_modules2", &patterns));
    assert!(!should_exclude("src", &patterns));
    assert!(!should_exclude("anything", &[]));
}

#[test]
fn exact_name_exclusion_agrees_with_glob() {
    let names = ["target", "targe", "target!", ""];
    for n in names {
        let pats = vec!["target".to_string()];
        assert_eq!(should_exclude(n, &pats), glob_match("target", n));
    }
}
