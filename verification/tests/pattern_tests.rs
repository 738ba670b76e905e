use pathvein::error::PatternError;
use pathvein::pattern::PatternMatcher;

fn texts(items: &[&str]) -> Vec<String> {
    items.iter().map(|s| s.to_string()).collect()
}

fn build(items: &[&str]) -> PatternMatcher {
    match PatternMatcher::new(texts(items)) {
        Ok(matcher) => matcher,
        Err(error) => panic!("patterns should compile: {}", error.message()),
    }
}

#[test]
fn compiles_valid_patterns_and_counts_them() {
    let matcher = build(&["*.py", "test_*.rs", "data"]);
    assert_eq!(matcher.len(), 3);
}

#[test]
fn matches_when_any_pattern_matches() {
    let matcher = build(&["*.py", "test_*.rs"]);
    assert!(matcher.matches("main.py"));
    assert!(matcher.matches("test_walk.rs"));
    assert!(!matcher.matches("main.rs"));
    assert!(!matcher.matches("README.md"));
}

#[test]
fn question_mark_and_classes_follow_glob_rules() {
    let matcher = build(&["file?.txt", "[abc].log", "[!x]yz"]);
    assert!(matcher.matches("file1.txt"));
    assert!(!matcher.matches("file12.txt"));
    assert!(matcher.matches("b.log"));
    assert!(!matcher.matches("d.log"));
    assert!(matcher.matches("ayz"));
    assert!(!matcher.matches("xyz"));
}

#[test]
fn matching_patterns_keeps_the_given_order() {
    let matcher = build(&["**/*.rs", "src/lib.rs", "src/**/foo.rs", "*.py"]);
    assert_eq!(
        matcher.matching_patterns("src/bar/baz/foo.rs"),
        texts(&["**/*.rs", "src/**/foo.rs"])
    );
    assert_eq!(matcher.matching_patterns("src/lib.rs"), texts(&["**/*.rs", "src/lib.rs"]));
    assert_eq!(matcher.matching_patterns("notes.txt"), Vec::<String>::new());
}

#[test]
fn wildcards_do_not_cross_a_path_separator() {
    let matcher = build(&["*.json"]);
    assert!(matcher.matches("b.json"));
    assert!(!matcher.matches("a/b.json"));
    assert_eq!(matcher.matching_patterns("a/b.json"), Vec::<String>::new());
    let matcher = build(&["a?b", "a*b"]);
    assert!(matcher.matches("axb"));
    assert!(matcher.matches("axyzb"));
    assert!(!matcher.matches("a/b"));
    assert!(!matcher.matches("ax/yb"));
    let matcher = build(&["?"]);
    assert!(matcher.matches("x"));
    assert!(!matcher.matches("/"));
}

#[test]
fn a_double_star_crosses_directories() {
    let matcher = build(&["**/*.json", "src/**", "a/**/z"]);
    assert_eq!(matcher.matching_patterns("a/b.json"), texts(&["**/*.json"]));
    assert_eq!(matcher.matching_patterns("b.json"), texts(&["**/*.json"]));
    assert_eq!(matcher.matching_patterns("src/x/y"), texts(&["src/**"]));
    assert_eq!(matcher.matching_patterns("a/z"), texts(&["a/**/z"]));
    assert_eq!(matcher.matching_patterns("a/b/c/z"), texts(&["a/**/z"]));
    assert!(!matcher.matches("src"));
}

#[test]
fn matching_patterns_reports_a_repeated_pattern_each_time() {
    let matcher = build(&["*.rs", "a*", "*.rs"]);
    assert_eq!(matcher.matching_patterns("b.rs"), texts(&["*.rs", "*.rs"]));
    assert_eq!(matcher.matching_patterns("a.rs"), texts(&["*.rs", "a*", "*.rs"]));
}

#[test]
fn matches_all_needs_every_pattern() {
    let matcher = build(&["src/*", "**/*.rs"]);
    assert!(matcher.matches_all("src/foo.rs"));
    assert!(!matcher.matches_all("src/bar.c"));
    assert!(!matcher.matches_all("test.rs"));
}

#[test]
fn matches_all_agrees_with_the_count_of_matching_patterns() {
    let matcher = build(&["*.rs", "lib*", "?ib.rs"]);
    for path in ["lib.rs", "bib.rs", "lib.py", "main.c", ""] {
        let count = matcher.matching_patterns(path).len();
        assert_eq!(matcher.matches_all(path), count == matcher.len(), "path {:?}", path);
        if matcher.matches_all(path) {
            assert!(matcher.matches(path));
        }
    }
    assert!(matcher.matches_all("lib.rs"));
    assert!(!matcher.matches_all("bib.rs"));
}

#[test]
fn an_empty_set_matches_nothing_and_vacuously_everything() {
    let matcher = build(&[]);
    assert_eq!(matcher.len(), 0);
    assert!(!matcher.matches("anything"));
    assert!(matcher.matches_all("anything"));
    assert_eq!(matcher.matching_patterns("anything"), Vec::<String>::new());
}

#[test]
fn an_invalid_pattern_is_named_in_the_error() {
    match PatternMatcher::new(texts(&["[unclosed"])) {
        Err(PatternError::InvalidPattern { pattern, cause }) => {
            assert_eq!(pattern, "[unclosed");
            assert_eq!(
                cause,
                "error parsing glob '[unclosed': unclosed character class; missing ']'"
            );
        }
        _ => panic!("an unclosed class must be rejected"),
    }
}

#[test]
fn the_same_invalid_pattern_gives_the_same_error_value() {
    let first = PatternMatcher::new(texts(&["ok", "[z-a]"])).err();
    let second = PatternMatcher::new(texts(&["ok", "[z-a]"])).err();
    assert!(first.is_some());
    assert_eq!(first, second);
    let single = PatternMatcher::single("[z-a]").err();
    match (first, single) {
        (
            Some(PatternError::InvalidPattern { pattern, cause }),
            Some(PatternError::InvalidPattern { pattern: alone, cause: cause_alone }),
        ) => {
            assert_eq!(pattern, alone);
            assert_eq!(cause, cause_alone);
        }
        _ => panic!("both must be rejected as invalid"),
    }
}

#[test]
fn valid_patterns_always_compile() {
    for list in [
        vec!["*"],
        vec!["a", "b", "c"],
        vec!["**", "**/x", "x/**", "[a-z]?", "{a,b}*"],
        vec!["same", "same"],
    ] {
        assert!(PatternMatcher::new(texts(&list)).is_ok(), "{:?} should compile", list);
        for pattern in list {
            assert!(PatternMatcher::single(pattern).is_ok(), "{:?} should compile", pattern);
        }
    }
}

#[test]
fn the_first_invalid_pattern_is_the_one_reported() {
    match PatternMatcher::new(texts(&["*.rs", "{a,b", "[z-a]", "ok"])) {
        Err(PatternError::InvalidPattern { pattern, .. }) => assert_eq!(pattern, "{a,b"),
        _ => panic!("the list holds invalid patterns"),
    }
    match PatternMatcher::new(texts(&["[z-a]", "{a,b"])) {
        Err(PatternError::InvalidPattern { pattern, .. }) => assert_eq!(pattern, "[z-a]"),
        _ => panic!("the list holds invalid patterns"),
    }
}

#[test]
fn the_same_invalid_pattern_fails_the_same_way_every_time() {
    let first = PatternMatcher::new(texts(&["a", "b}"])).err().map(|e| e.message());
    let second = PatternMatcher::new(texts(&["a", "b}"])).err().map(|e| e.message());
    assert!(first.is_some());
    assert_eq!(first, second);
}

#[test]
fn the_message_of_an_invalid_pattern_quotes_it() {
    let error = match PatternMatcher::new(texts(&["ab[c"])) {
        Err(error) => error,
        Ok(_) => panic!("must be rejected"),
    };
    let message = error.message();
    assert!(message.starts_with("Invalid glob pattern 'ab[c': "), "got {:?}", message);
    if let PatternError::InvalidPattern { pattern, cause } = &error {
        assert_eq!(message, format!("Invalid glob pattern '{}': {}", pattern, cause));
    } else {
        panic!("wrong kind of error");
    }
}

#[test]
fn the_message_of_a_build_failure_has_its_own_prefix() {
    let error = PatternError::BuildFailed { cause: "too big".to_string() };
    assert_eq!(error.message(), "Error building pattern matcher: too big");
}

#[test]
fn a_single_pattern_compiles_on_its_own() {
    let matcher = match PatternMatcher::single("*.toml") {
        Ok(matcher) => matcher,
        Err(_) => panic!("valid pattern"),
    };
    assert_eq!(matcher.len(), 1);
    assert!(matcher.matches("Cargo.toml"));
    assert!(!matcher.matches("Cargo.lock"));
    assert_eq!(matcher.matching_patterns("Cargo.toml"), texts(&["*.toml"]));
    match PatternMatcher::single("a{b") {
        Err(PatternError::InvalidPattern { pattern, .. }) => assert_eq!(pattern, "a{b"),
        _ => panic!("must be rejected"),
    }
}

#[test]
fn a_clone_matches_as_its_source_does() {
    let matcher = build(&["*.md", "doc*"]);
    let copy = matcher.clone();
    assert_eq!(copy.len(), 2);
    for path in ["README.md", "docs", "main.rs"] {
        assert_eq!(copy.matches(path), matcher.matches(path));
        assert_eq!(copy.matching_patterns(path), matcher.matching_patterns(path));
        assert_eq!(copy.matches_all(path), matcher.matches_all(path));
    }
}

fn oversized() -> String {
    // Valid syntax, but far beyond what the engine will compile.
    format!("*{}x", "?".repeat(300_000))
}

#[test]
fn a_pattern_too_large_to_compile_is_a_build_failure() {
    match PatternMatcher::new(vec!["*.rs".to_string(), oversized()]) {
        Err(PatternError::BuildFailed { cause }) => {
            assert!(!cause.is_empty());
            let again = PatternMatcher::new(vec!["*.rs".to_string(), oversized()]).err();
            assert_eq!(again, Some(PatternError::BuildFailed { cause }));
        }
        Err(PatternError::InvalidPattern { .. }) => panic!("the syntax is valid"),
        Ok(_) => panic!("the pattern is too large"),
    }
    let message = PatternMatcher::new(vec![oversized()]).err().map(|e| e.message()).unwrap_or_default();
    assert!(message.starts_with("Error building pattern matcher: "), "got {:?}", &message[..40.min(message.len())]);
}

#[test]
fn an_invalid_pattern_wins_over_a_build_failure() {
    match PatternMatcher::new(vec![oversized(), "[".to_string()]) {
        Err(PatternError::InvalidPattern { pattern, .. }) => assert_eq!(pattern, "["),
        _ => panic!("the second pattern is invalid"),
    }
}
