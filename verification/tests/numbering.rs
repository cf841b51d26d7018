use notez::numbering::{
    collect_numbered_dirs, fuzzy_match_dir, next_available_number, numbered_dir_name, parse_numbered_name,
    sanitize_name, NumberedDir,
};

fn names(v: &[&str]) -> Vec<String> {
    v.iter().map(|s| s.to_string()).collect()
}

#[test]
fn sanitize_name_lowercases_and_replaces_spaces() {
    assert_eq!(sanitize_name("Project Ideas"), "project-ideas");
}

#[test]
fn sanitize_name_handles_multiple_spaces_and_special_chars() {
    assert_eq!(sanitize_name("My  Cool   Project!"), "my-cool-project");
}

#[test]
fn sanitize_name_keeps_unicode_letters_and_digits() {
    assert_eq!(sanitize_name("  Ärende 42\ttest  "), "ärende-42-test");
    assert_eq!(sanitize_name("a_b.c"), "abc");
}

#[test]
fn scan_empty_dir_returns_empty() {
    let dirs = collect_numbered_dirs(Vec::new());
    assert!(dirs.is_empty());
}

#[test]
fn scan_finds_numbered_dirs() {
    let dirs = collect_numbered_dirs(names(&["01_daily-logs", "random-stuff", "00_quick-notes"]));
    assert_eq!(dirs.len(), 2);
    assert_eq!(dirs[0].number, 0);
    assert_eq!(dirs[0].name, "quick-notes");
    assert_eq!(dirs[1].number, 1);
    assert_eq!(dirs[1].name, "daily-logs");
}

#[test]
fn next_number_with_no_dirs() {
    assert_eq!(next_available_number(&[]), Some(0));
}

#[test]
fn next_number_skips_existing() {
    let dirs = collect_numbered_dirs(names(&["00_first", "01_second"]));
    assert_eq!(next_available_number(&dirs), Some(2));
}

#[test]
fn next_number_fills_gaps() {
    let dirs = collect_numbered_dirs(names(&["00_first", "02_third"]));
    assert_eq!(next_available_number(&dirs), Some(1));
}

#[test]
fn next_number_none_when_all_taken() {
    let all: Vec<String> = (0..100).map(|n| format!("{:02}_d", n)).collect();
    let dirs = collect_numbered_dirs(all);
    assert_eq!(dirs.len(), 100);
    assert_eq!(next_available_number(&dirs), None);
}

#[test]
fn fuzzy_match_finds_dir_by_name() {
    let dirs = collect_numbered_dirs(names(&["00_quick-notes", "02_project-ideas"]));
    let result = fuzzy_match_dir(&dirs, "project-ideas");
    assert!(result.is_some());
    assert_eq!(result.unwrap().name, "project-ideas");
}

#[test]
fn numbering_fuzzy_match_partial() {
    let dirs = collect_numbered_dirs(names(&["02_project-ideas"]));
    let result = fuzzy_match_dir(&dirs, "project");
    assert!(result.is_some());
}

#[test]
fn parse_numbered_name_forms() {
    let d: NumberedDir = parse_numbered_name("07_recipes").unwrap();
    assert_eq!(d.number, 7);
    assert_eq!(d.name, "recipes");
    assert_eq!(d.full_name, "07_recipes");
    assert!(parse_numbered_name("7_recipes").is_none());
    assert!(parse_numbered_name("ab_recipes").is_none());
    assert!(parse_numbered_name("07-recipes").is_none());
    assert!(parse_numbered_name("+5_signed").is_none());
    assert!(parse_numbered_name("-5_signed").is_none());
    assert_eq!(parse_numbered_name("05_x").unwrap().number, 5);
    assert_eq!(numbered_dir_name(3, "notes"), "03_notes");
    assert_eq!(numbered_dir_name(42, "x"), "42_x");
}

#[test]
fn sanitized_names_hold_only_name_characters() {
    for raw in ["Hello, World!", "  a\tb  c ", "x/y\\z", "Über Straße #1"] {
        let s = sanitize_name(raw);
        assert!(s.chars().all(|c| c.is_alphanumeric() || c == '-'), "{:?}", s);
    }
}
