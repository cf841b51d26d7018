use notez::input::{next_char_boundary, prev_char_boundary};
use notez::tags::{
    fuzzy_match, match_tag_prefix, parse_filter, parse_flags, serialize_flags, toggle_filter_tag, FLAG_BLOCKED,
    FLAG_IDEA, FLAG_IMPORTANT, FLAG_LONGTERM, FLAG_PRIO,
};
use notez::todo::{derive_parent_states, parse_todos_from_content, serialize_todos_for_file, CheckState, TodoItem};
use notez::todo_list::{block_end, can_drag, compute_filter_keep, item_matches, perform_drag_move};

fn item(text: &str, depth: u8) -> TodoItem {
    TodoItem {
        text: text.into(),
        state: CheckState::Unchecked,
        source: "/tmp/TODO.md".into(),
        project: "t".into(),
        is_header: false,
        depth,
        has_subtasks: false,
        collapsed: false,
        is_code_todo: false,
        flags: 0,
    }
}

fn header(text: &str) -> TodoItem {
    TodoItem { is_header: true, ..item(text, 0) }
}

fn full(text: &str, state: CheckState, depth: u8, has_subtasks: bool, flags: u8) -> TodoItem {
    TodoItem { state, has_subtasks, flags, ..item(text, depth) }
}

#[test]
fn parse_all_states() {
    let content = "# TODO\n\n- [ ] unchecked\n- [/] half done\n- [x] checked\n";
    let items = parse_todos_from_content(content);
    assert_eq!(items.len(), 3);
    assert_eq!(items[0].1, CheckState::Unchecked);
    assert_eq!(items[1].1, CheckState::Half);
    assert_eq!(items[2].1, CheckState::Checked);
}

#[test]
fn parse_subtasks() {
    let content = "- [ ] parent\n  - [ ] sub1\n  - [x] sub2\n    - [ ] subsub\n- [ ] other\n";
    let items = parse_todos_from_content(content);
    assert_eq!(items.len(), 5);
    assert_eq!(items[0].2, 0);
    assert_eq!(items[1].2, 1);
    assert_eq!(items[2].2, 1);
    assert_eq!(items[3].2, 2);
    assert_eq!(items[4].2, 0);
}

#[test]
fn derive_parent_from_subtasks() {
    let mut items = vec![
        full("parent", CheckState::Unchecked, 0, true, 0),
        full("sub1", CheckState::Checked, 1, false, 0),
        full("sub2", CheckState::Unchecked, 1, false, 0),
    ];
    derive_parent_states(&mut items);
    assert_eq!(items[0].state, CheckState::Half);
}

#[test]
fn derive_parent_clears_has_subtasks_when_empty() {
    let mut items = vec![full("parent", CheckState::Checked, 0, true, 0)];
    derive_parent_states(&mut items);
    assert!(!items[0].has_subtasks, "has_subtasks must be cleared when no children remain");
}

#[test]
fn derive_parent_all_done() {
    let mut items = vec![
        full("parent", CheckState::Unchecked, 0, true, 0),
        full("sub1", CheckState::Checked, 1, false, 0),
        full("sub2", CheckState::Checked, 1, false, 0),
    ];
    derive_parent_states(&mut items);
    assert_eq!(items[0].state, CheckState::Checked);
}

#[test]
fn serialize_with_subtasks() {
    let items = vec![
        full("parent", CheckState::Half, 0, true, 0),
        full("sub1", CheckState::Checked, 1, false, 0),
        full("sub2", CheckState::Unchecked, 1, false, 0),
    ];
    let md = serialize_todos_for_file(&items, "/tmp/TODO.md");
    assert!(md.contains("- [/] parent"));
    assert!(md.contains("  - [x] sub1"));
    assert!(md.contains("  - [ ] sub2"));
}

#[test]
fn block_end_includes_descendants() {
    let items = vec![item("A", 0), item("A.1", 1), item("A.1.1", 2), item("A.2", 1), item("B", 0)];
    assert_eq!(block_end(&items, 0), 4, "block of A includes A.1, A.1.1, A.2");
    assert_eq!(block_end(&items, 1), 3, "block of A.1 includes A.1.1");
    assert_eq!(block_end(&items, 4), 5, "block of B is just B");
}

#[test]
fn can_drag_same_depth_same_section() {
    let items = vec![header("## A"), item("X", 0), item("Y", 0), item("Z", 0)];
    assert!(can_drag(&items, 1, 3), "X → Z within section");
    assert!(can_drag(&items, 3, 1), "Z → X (drag up)");
}

#[test]
fn can_drag_rejects_cross_section() {
    let items = vec![header("## A"), item("X", 0), header("## B"), item("Y", 0)];
    assert!(!can_drag(&items, 1, 3), "X → Y crosses section header");
}

#[test]
fn can_drag_rejects_cross_parent() {
    let items = vec![item("A", 0), item("A.1", 1), item("B", 0), item("B.1", 1)];
    assert!(!can_drag(&items, 1, 3), "A.1 → B.1 crosses parent boundary");
}

#[test]
fn can_drag_rejects_different_depth() {
    let items = vec![item("X", 0), item("Y", 1)];
    assert!(!can_drag(&items, 0, 1));
}

fn texts(items: &[TodoItem]) -> Vec<String> {
    items.iter().map(|i| i.text.clone()).collect()
}

#[test]
fn perform_drag_move_down() {
    let mut items = vec![item("A", 0), item("A.1", 1), item("B", 0), item("B.1", 1), item("B.2", 1)];
    let new_idx = perform_drag_move(&mut items, 0, 2);
    assert_eq!(texts(&items), vec!["B", "B.1", "B.2", "A", "A.1"]);
    assert_eq!(new_idx, 3, "A's new position");
}

#[test]
fn perform_drag_move_up() {
    let mut items = vec![item("A", 0), item("B", 0), item("B.1", 1), item("C", 0)];
    let new_idx = perform_drag_move(&mut items, 3, 1);
    assert_eq!(texts(&items), vec!["A", "C", "B", "B.1"]);
    assert_eq!(new_idx, 1);
}

#[test]
fn block_end_stops_at_header() {
    let items = vec![item("A", 0), item("A.1", 1), header("## Section"), item("B", 0)];
    assert_eq!(block_end(&items, 0), 2, "block stops before header");
}

#[test]
fn char_boundaries_handle_swedish() {
    let s = "å";
    assert_eq!(s.len(), 2);
    assert_eq!(next_char_boundary(s, 0), 2, "right past 'å' lands on end-of-string");
    assert_eq!(prev_char_boundary(s, 2), 0, "left from end of 'å' lands on start");
    assert_eq!(prev_char_boundary(s, 0), 0, "left from start clamps");
    assert_eq!(next_char_boundary(s, 2), 2, "right from end clamps");
}

#[test]
fn char_boundaries_skip_into_multibyte() {
    let s = "aåb";
    assert_eq!(prev_char_boundary(s, 3), 1, "left from 'b' goes to start of 'å'");
    assert_eq!(next_char_boundary(s, 1), 3, "right from start of 'å' goes to 'b'");
}

#[test]
fn fuzzy_match_basic() {
    assert!(fuzzy_match("fix the test", "ftt"));
    assert!(fuzzy_match("fix the test", "fix"));
    assert!(fuzzy_match("fix the test", ""));
    assert!(!fuzzy_match("fix the test", "xyz"));
    assert!(!fuzzy_match("hello", "helloo"));
}

#[test]
fn fuzzy_match_case_insensitive() {
    assert!(fuzzy_match("Fix The Test", "ftt"));
    assert!(fuzzy_match("Förslag", "FÖR"));
}

#[test]
fn parse_filter_extracts_tags() {
    let (text, tags) = parse_filter("foo #prio bar #important");
    assert_eq!(text, "foo bar");
    assert_eq!(tags, FLAG_PRIO | FLAG_IMPORTANT);
}

#[test]
fn parse_filter_unknown_tag_falls_back_to_text() {
    let (text, tags) = parse_filter("#foobar");
    assert_eq!(text, "#foobar");
    assert_eq!(tags, 0);
}

#[test]
fn toggle_filter_tag_adds_and_removes() {
    let mut buf = String::new();
    toggle_filter_tag(&mut buf, "prio");
    assert_eq!(buf, "#prio");
    toggle_filter_tag(&mut buf, "important");
    assert_eq!(buf, "#prio #important");
    toggle_filter_tag(&mut buf, "prio");
    assert_eq!(buf, "#important");
}

#[test]
fn toggle_filter_tag_preserves_text() {
    let mut buf = "bug fix".to_string();
    toggle_filter_tag(&mut buf, "prio");
    assert_eq!(buf, "bug fix #prio");
    toggle_filter_tag(&mut buf, "prio");
    assert_eq!(buf, "bug fix");
}

#[test]
fn parse_filter_only_text() {
    let (text, tags) = parse_filter("hello world");
    assert_eq!(text, "hello world");
    assert_eq!(tags, 0);
}

#[test]
fn item_matches_combines_text_and_tags() {
    let i = full("fix login bug", CheckState::Unchecked, 0, false, FLAG_PRIO);
    assert!(item_matches(&i, "fix", &[FLAG_PRIO]));
    assert!(item_matches(&i, "flb", &[FLAG_PRIO]));
    assert!(!item_matches(&i, "fix", &[FLAG_IMPORTANT]));
    assert!(!item_matches(&i, "xyz", &[FLAG_PRIO]));
}

#[test]
fn match_tag_prefix_digit_indices() {
    assert_eq!(match_tag_prefix("#1"), FLAG_IMPORTANT);
    assert_eq!(match_tag_prefix("#5"), FLAG_BLOCKED);
    assert_eq!(match_tag_prefix("#13"), FLAG_IMPORTANT | FLAG_LONGTERM);
    assert_eq!(
        match_tag_prefix("#12345"),
        FLAG_IMPORTANT | FLAG_PRIO | FLAG_LONGTERM | FLAG_IDEA | FLAG_BLOCKED,
    );
    assert_eq!(match_tag_prefix("#0"), 0);
    assert_eq!(match_tag_prefix("#6"), 0);
    assert_eq!(match_tag_prefix("#19"), FLAG_IMPORTANT);
}

#[test]
fn match_tag_prefix_handles_partial_and_bare() {
    let all = [FLAG_IMPORTANT, FLAG_PRIO, FLAG_LONGTERM, FLAG_IDEA, FLAG_BLOCKED].iter().fold(0u8, |a, &b| a | b);
    assert_eq!(match_tag_prefix("#"), all);
    assert_eq!(match_tag_prefix("#prio"), FLAG_PRIO);
    assert_eq!(match_tag_prefix("#impo"), FLAG_IMPORTANT);
    assert_eq!(match_tag_prefix("#i"), FLAG_IMPORTANT | FLAG_IDEA);
    assert_eq!(match_tag_prefix("#zzz"), 0);
    assert_eq!(match_tag_prefix("hello"), 0);
}

#[test]
fn item_matches_prefix_or_semantics() {
    let i = full("x", CheckState::Unchecked, 0, false, FLAG_IDEA);
    assert!(item_matches(&i, "", &[FLAG_IMPORTANT | FLAG_IDEA]));
    assert!(!item_matches(&i, "", &[FLAG_IMPORTANT]));
}

#[test]
fn filter_keep_includes_ancestors() {
    let items = vec![
        header("## Section"),
        item("parent", 0),
        full("child #prio", CheckState::Unchecked, 1, false, FLAG_PRIO),
        item("other", 0),
    ];
    let keep = compute_filter_keep(&items, "", &[FLAG_PRIO]);
    assert!(keep[0], "section header included");
    assert!(keep[1], "parent included as ancestor");
    assert!(keep[2], "matching child");
    assert!(!keep[3], "unrelated other excluded");
}

#[test]
fn parse_empty_file() {
    let items = parse_todos_from_content("");
    assert!(items.is_empty());
}

#[test]
fn roundtrip_preserves_items() {
    let source = "/tmp/test/TODO.md";
    let items = vec![
        TodoItem { source: source.into(), project: "test".into(), ..item("buy milk", 0) },
        TodoItem { source: source.into(), project: "test".into(), state: CheckState::Checked, ..item("fix bug", 0) },
    ];
    let md = serialize_todos_for_file(&items, source);
    let parsed = parse_todos_from_content(&md);
    assert_eq!(parsed.len(), 2);
    assert_eq!(parsed[0].0, "buy milk");
    assert_eq!(parsed[1].1, CheckState::Checked);
}

#[test]
fn reload_keeps_depth_tags_and_skips_other_files() {
    let items = vec![
        full("plan trip", CheckState::Half, 0, true, FLAG_PRIO | FLAG_IDEA),
        full("book hotel", CheckState::Checked, 1, false, 0),
        full("pick dates", CheckState::Unchecked, 2, false, FLAG_BLOCKED),
        TodoItem { source: "/elsewhere/TODO.md".into(), ..item("not here", 0) },
        header("## Section"),
        full("", CheckState::Unchecked, 0, false, FLAG_IMPORTANT),
    ];
    let md = serialize_todos_for_file(&items, "/tmp/TODO.md");
    assert_eq!(
        md,
        "# TODO\n\n- [/] plan trip #prio #idea\n  - [x] book hotel\n    - [ ] pick dates #blocked\n- [ ]  #important\n"
    );
    let parsed = parse_todos_from_content(&md);
    assert_eq!(parsed.len(), 4);
    assert_eq!(parsed[0], ("plan trip".to_string(), CheckState::Half, 0, FLAG_PRIO | FLAG_IDEA));
    assert_eq!(parsed[1], ("book hotel".to_string(), CheckState::Checked, 1, 0));
    assert_eq!(parsed[2], ("pick dates".to_string(), CheckState::Unchecked, 2, FLAG_BLOCKED));
    assert_eq!(parsed[3], ("".to_string(), CheckState::Unchecked, 0, FLAG_IMPORTANT));
}

#[test]
fn flags_read_back_after_text() {
    let written = format!("call mom{}", serialize_flags(FLAG_IMPORTANT | FLAG_LONGTERM));
    assert_eq!(written, "call mom #important #longterm");
    assert_eq!(parse_flags(&written), ("call mom".to_string(), FLAG_IMPORTANT | FLAG_LONGTERM));
    assert_eq!(parse_flags("  #idea water plants  "), ("water plants".to_string(), FLAG_IDEA));
}

#[test]
fn toggling_absent_tag_twice_normalizes_blanks() {
    let mut buf = "  fix   login ".to_string();
    toggle_filter_tag(&mut buf, "blocked");
    assert_eq!(buf, "fix login #blocked");
    toggle_filter_tag(&mut buf, "blocked");
    assert_eq!(buf, "fix login");
}

#[test]
fn drag_keeps_every_item() {
    let mut items = vec![item("A", 0), item("A.1", 1), item("B", 0), item("C", 0)];
    let before = {
        let mut t = texts(&items);
        t.sort();
        t
    };
    perform_drag_move(&mut items, 0, 3);
    let mut after = texts(&items);
    assert_eq!(after, vec!["B", "C", "A", "A.1"]);
    after.sort();
    assert_eq!(after, before);
}

#[test]
fn deriving_twice_changes_nothing() {
    let mut items = vec![
        full("p", CheckState::Unchecked, 0, false, 0),
        full("a", CheckState::Unchecked, 1, true, 0),
        full("a.1", CheckState::Checked, 2, false, 0),
        full("b", CheckState::Checked, 1, false, 0),
        full("q", CheckState::Half, 0, true, 0),
    ];
    derive_parent_states(&mut items);
    let once: Vec<(CheckState, bool)> = items.iter().map(|i| (i.state, i.has_subtasks)).collect();
    assert_eq!(
        once,
        vec![
            (CheckState::Checked, true),
            (CheckState::Checked, true),
            (CheckState::Checked, false),
            (CheckState::Checked, false),
            (CheckState::Half, false),
        ]
    );
    derive_parent_states(&mut items);
    let twice: Vec<(CheckState, bool)> = items.iter().map(|i| (i.state, i.has_subtasks)).collect();
    assert_eq!(once, twice);
}
