use rit::ignore::{get_ignore_path, load_ignore_rules, should_stage, IgnorePattern, IgnoreRules};

#[test]
fn test_parse_pattern() {
    let pattern = IgnorePattern::parse("*.log").unwrap();
    assert!(!pattern.negated);
    assert!(!pattern.directory_only);

    let negated = IgnorePattern::parse("!important.log").unwrap();
    assert!(negated.negated);
    assert_eq!(negated.pattern, "important.log");

    let dir_pattern = IgnorePattern::parse("target/").unwrap();
    assert!(dir_pattern.directory_only);
}

#[test]
fn test_matches_glob() {
    let pattern = IgnorePattern::parse("*.log").unwrap();
    assert!(pattern.matches("file.log", false));
    assert!(pattern.matches("test.log", false));
    assert!(!pattern.matches("file.txt", false));
}

#[test]
fn test_ignore_rules() {
    let mut rules = IgnoreRules::new();
    rules.patterns.push(IgnorePattern::parse("*.log").unwrap());
    rules.patterns.push(IgnorePattern::parse("!important.log").unwrap());

    assert!(rules.is_ignored("file.log", false));
    assert!(!rules.is_ignored("important.log", false)); // Negated
    assert!(!rules.is_ignored("file.txt", false));
}

#[test]
fn test_load_ignore_file() {
    let rules = IgnoreRules::load("*.log\ntarget/\n!important.log\n");
    assert!(rules.is_ignored("file.log", false));
    assert!(rules.is_ignored("target", true));
    assert!(!rules.is_ignored("important.log", false));
}

#[test]
fn pattern_lines_that_hold_no_rule() {
    assert!(IgnorePattern::parse("").is_none());
    assert!(IgnorePattern::parse("   ").is_none());
    assert!(IgnorePattern::parse("# comment").is_none());
    assert!(IgnorePattern::parse("!").is_none());
    assert!(IgnorePattern::parse("!   ").is_none());
}

#[test]
fn pattern_fields() {
    let p = IgnorePattern::parse("  build/  ").unwrap();
    assert_eq!(p.pattern, "build");
    assert!(p.directory_only);
    assert!(p.anchored);
    assert!(!p.negated);

    let q = IgnorePattern::parse("! *.tmp").unwrap();
    assert_eq!(q.pattern, "*.tmp");
    assert!(q.negated);
    assert!(!q.anchored);

    let r = IgnorePattern::parse("\u{00A0}x\u{3000}").unwrap();
    assert_eq!(r.pattern, "x");
}

#[test]
fn glob_forms() {
    let p = IgnorePattern::parse("x").unwrap();
    assert!(p.matches_glob("abc", "abc"));
    assert!(!p.matches_glob("abc", "abd"));
    assert!(p.matches_glob("prefix-mid-suffix", "prefix*suffix"));
    assert!(!p.matches_glob("prefi", "prefix*"));
    assert!(p.matches_glob("ab", "a*b"));
    assert!(!p.matches_glob("aba", "aba*aba"));
    assert!(!p.matches_glob("abc", "a*b*c"));
    assert!(p.matches_glob("abc", "a?c"));
    assert!(!p.matches_glob("abcd", "a?c"));
    assert!(!p.matches_glob("abd", "a?c"));
    assert!(p.matches_glob("a*c", "a*c"));
}

#[test]
fn glob_question_mark_goes_by_characters() {
    let p = IgnorePattern::parse("x").unwrap();
    // one character of two bytes against two patterns of two bytes
    assert!(p.matches_glob("\u{e9}", "??"));
    assert!(p.matches_glob("\u{e9}", "?a"));
    assert!(!p.matches_glob("\u{e9}", "a?"));
}

#[test]
fn directory_rules_hold_for_directories_only() {
    let p = IgnorePattern::parse("target/").unwrap();
    assert!(p.matches("target", true));
    assert!(!p.matches("target", false));
}

#[test]
fn unanchored_rules_match_the_last_segment() {
    let star = IgnorePattern::parse("*.log").unwrap();
    assert!(star.matches("dir/sub/file.log", false));
    assert!(star.matches("dir\\file.log", false));
    let plain = IgnorePattern::parse("file.log").unwrap();
    assert!(!plain.matches("dir/file.log", false));
    assert!(plain.matches("file.log", false));
}

#[test]
fn last_matching_rule_decides() {
    let rules = IgnoreRules::load("*.log\n!keep.log\nkeep.log\n");
    assert!(rules.is_ignored("keep.log", false));
    let rules = IgnoreRules::load("!keep.log\n");
    assert!(!rules.is_ignored("keep.log", false));
    assert_eq!(IgnoreRules::load("\n# c\n\n").patterns.len(), 0);
}

#[test]
fn ignored_path_with_backslashes() {
    let rules = IgnoreRules::load("dir/file.txt\n");
    assert!(rules.is_ignored_path("dir\\file.txt", false));
    assert!(!rules.is_ignored_path("dir\\other.txt", false));
}

#[test]
fn staging_decision() {
    let rules = IgnoreRules::load("*.log\n");
    assert!(should_stage(&rules, "src/main.rs"));
    assert!(!should_stage(&rules, ".rit/HEAD"));
    assert!(!should_stage(&rules, ".ritignore"));
    assert!(!should_stage(&rules, "a.log"));
    assert!(should_stage(&rules, ".ritual"));
}

#[test]
fn ignore_file_of_a_repository() {
    assert_eq!(get_ignore_path("/repo"), "/repo/.ritignore");
    assert_eq!(load_ignore_rules(None).patterns.len(), 0);
    assert_eq!(load_ignore_rules(Some("a\nb\n")).patterns.len(), 2);
}
