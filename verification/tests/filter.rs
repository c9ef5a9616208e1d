use rsy::filter::{glob_match, parse_size, FilterList, RuleKind, SizeError};

#[test]
fn glob_basics() {
    assert!(glob_match("*.rs", "main.rs"));
    assert!(!glob_match("*.rs", "src/main.rs"));
    assert!(glob_match("**/*.rs", "src/main.rs"));
    assert!(glob_match("*.log", "access.log"));
    assert!(!glob_match("*.log", "access.log.gz"));
    assert!(glob_match("foo?ar", "foobar"));
    assert!(!glob_match("foo?ar", "foo/ar"));
}

#[test]
fn glob_double_star() {
    assert!(glob_match("**", "a/b/c"));
    assert!(glob_match("a/**/d", "a/b/c/d"));
    assert!(!glob_match("a/**/d", "a/b/c/e"));
    assert!(glob_match("**/foo", "x/y/foo"));
}

#[test]
fn filter_exclude_file() {
    let mut f = FilterList::default();
    f.add_exclude("*.log");
    assert!(!f.allow("access.log", false));
    assert!(f.allow("main.rs", false));
}

#[test]
fn filter_dir_only_excludes_contents() {
    let mut f = FilterList::default();
    f.add_exclude("build/");
    assert!(!f.allow("build/out.o", false));
    assert!(!f.allow("build/sub/a.o", false));
    assert!(f.allow("src/main.rs", false));
}

#[test]
fn filter_include_overrides_exclude() {
    let mut f = FilterList::default();
    f.add_include("keep.txt");
    f.add_exclude("*.txt");
    assert!(f.allow("keep.txt", false));
    assert!(!f.allow("drop.txt", false));
}

#[test]
fn parse_size_units() {
    assert_eq!(parse_size("1024").unwrap(), 1024);
    assert_eq!(parse_size(" 5k ").unwrap(), 5 * 1024);
    assert_eq!(parse_size("7B").unwrap(), 7);
    assert_eq!(parse_size("1K").unwrap(), 1024);
    assert_eq!(parse_size("2M").unwrap(), 2 * 1024 * 1024);
    assert_eq!(parse_size("3G").unwrap(), 3 * 1024 * 1024 * 1024);
    assert_eq!(parse_size("1T").unwrap(), 1024u64 * 1024 * 1024 * 1024);
    assert!(parse_size("bad").is_err());
    assert!(parse_size("1Z").is_err());
    assert!(parse_size("").is_err());
}

#[test]
fn parse_size_overflow_rejected() {
    // u64::MAX * K would overflow
    assert!(parse_size("18446744073709551615K").is_err());
}

#[test]
fn glob_question_mark_no_slash() {
    assert!(glob_match("f?o", "foo"));
    assert!(!glob_match("f?o", "f/o"));
}

#[test]
fn glob_star_no_slash() {
    assert!(glob_match("*.rs", "main.rs"));
    assert!(!glob_match("*.rs", "src/main.rs")); // * doesn't cross /
}

#[test]
fn glob_double_star_nested() {
    assert!(glob_match("**/a/**/b", "x/a/y/z/b"));
    assert!(glob_match("**/a/**/b", "a/b"));
}

#[test]
fn filter_empty_allows_all() {
    let f = FilterList::default();
    assert!(f.allow("anything.txt", false));
    assert!(f.allow("deep/nested/file", false));
}

#[test]
fn filter_anchored_pattern() {
    let mut f = FilterList::default();
    f.add_exclude("src/main.rs"); // contains / → anchored
    assert!(!f.allow("src/main.rs", false));
    assert!(f.allow("lib/main.rs", false)); // anchored = no partial match
}

#[test]
fn filter_unanchored_matches_component() {
    let mut f = FilterList::default();
    f.add_exclude("node_modules");
    assert!(!f.allow("node_modules", true));
    assert!(!f.allow("packages/app/node_modules/foo.js", false));
    assert!(f.allow("src/foo.js", false));
}

#[test]
fn filter_multiple_excludes_first_match_wins() {
    let mut f = FilterList::default();
    f.add_include("*.rs");
    f.add_exclude("*"); // exclude everything — but includes come first
    assert!(f.allow("main.rs", false));
    assert!(!f.allow("main.py", false));
}

#[test]
fn filter_dir_only_does_not_affect_files() {
    let mut f = FilterList::default();
    f.add_exclude("dist/");
    // file named dist (not a dir) should be unaffected
    assert!(f.allow("dist", false));
    // but contents of dir named dist are excluded
    assert!(!f.allow("dist/bundle.js", false));
}

#[test]
fn filter_load_from_file_ignores_blanks_and_comments() {
    let mut f = FilterList::default();
    f.load_from_text(RuleKind::Exclude, "\n# comment\n*.tmp\n cache/ \n");

    assert!(!f.allow("scratch.tmp", false));
    assert!(!f.allow("cache/data.bin", false));
    assert!(f.allow("src/main.rs", false));
}

#[test]
fn filter_first_matching_rule_wins_for_includes_and_excludes() {
    let mut f = FilterList::default();
    f.add_exclude("*.txt");
    f.add_include("keep.txt");

    assert!(!f.allow("keep.txt", false));
}

#[test]
fn glob_ignores_ascii_case_only() {
    assert!(glob_match("README.md", "readme.MD"));
    assert!(!glob_match("é", "É"));
}

#[test]
fn glob_question_mark_takes_one_character() {
    assert!(glob_match("n?", "né"));
    assert!(!glob_match("n??", "né"));
}

#[test]
fn glob_double_star_takes_the_slash_along() {
    assert!(glob_match("**/foo", "foo"));
    assert!(glob_match("a**b", "a/x/b"));
    assert!(!glob_match("", "x"));
    assert!(glob_match("", ""));
    assert!(glob_match("*", ""));
}

#[test]
fn filter_list_counts_its_rules() {
    let mut f = FilterList::default();
    assert!(f.is_empty());
    f.load_from_text(RuleKind::Include, "a\r\n\t\n#b\nc///");
    assert!(!f.is_empty());
    assert_eq!(f.0.len(), 2);
}

#[test]
fn filter_nearest_directory_rule_decides() {
    let mut f = FilterList::default();
    f.add_include("keep/");
    f.add_exclude("top/");
    assert!(f.allow("top/keep/x", false));
    assert!(!f.allow("top/other/x", false));
    // The directory keep/top has a component that the first rule matches.
    assert!(f.allow("keep/top/x", false));
}

#[test]
fn filter_later_rules_do_not_matter() {
    let mut f = FilterList::default();
    f.add_exclude("*.o");
    assert!(!f.allow("a.o", false));
    f.add_include("a.o");
    f.add_include("*");
    assert!(!f.allow("a.o", false));
}

#[test]
fn parse_size_errors_are_told_apart() {
    assert_eq!(parse_size("bad"), Err(SizeError::Invalid));
    assert_eq!(parse_size("K"), Err(SizeError::Invalid));
    assert_eq!(parse_size("-1"), Err(SizeError::Invalid));
    assert_eq!(parse_size("1z"), Err(SizeError::UnknownSuffix('Z')));
    assert_eq!(parse_size("16777216T"), Err(SizeError::Overflow));
    assert_eq!(parse_size("16777215T"), Ok(16_777_215 << 40));
    assert_eq!(parse_size("18446744073709551616"), Err(SizeError::Invalid));
    assert_eq!(parse_size("18446744073709551615"), Ok(u64::MAX));
    assert_eq!(parse_size("+3k"), Ok(3072));
}
