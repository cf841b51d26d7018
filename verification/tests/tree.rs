use notez::input::Key;
use notez::tree::{
    apply_tags, collect_tag_records, derive_dir_flags, get_visible_nodes, lookup_tags, order_entries, parse_tags,
    record_roots, tags_file_text, tags_for_root, DirEntry, Scope, TreeNode,
};
use notez::tree_ui::{TreeAction, TreeUi};

fn node(name: &str, is_dir: bool, depth: usize, parent: Option<usize>, flags: u8) -> TreeNode {
    TreeNode {
        name: name.into(),
        path: format!("/r/{}", name),
        is_dir,
        depth,
        expanded: false,
        child_count: 0,
        parent_idx: parent,
        flags,
        scope: Scope::Unmarked,
    }
}

fn entry(name: &str, is_dir: bool) -> DirEntry {
    DirEntry { name: name.into(), is_dir }
}

#[test]
fn numbered_dirs_come_first() {
    let es = vec![entry("00_quick-notes", true), entry("zzz-other", true), entry("01_daily-logs", true)];
    let order = order_entries(&es);
    let names: Vec<&str> = order.iter().map(|&i| es[i].name.as_str()).collect();
    assert_eq!(names, vec!["00_quick-notes", "01_daily-logs", "zzz-other"]);
}

#[test]
fn collect_tree_orders_dirs_then_markdown() {
    let es = vec![
        entry("file.md", false),
        entry("random-stuff", true),
        entry("notes.txt", false),
        entry("01_daily-logs", true),
        entry("00_quick-notes", true),
        entry("a.md", false),
    ];
    let order = order_entries(&es);
    let names: Vec<&str> = order.iter().map(|&i| es[i].name.as_str()).collect();
    assert_eq!(names, vec!["00_quick-notes", "01_daily-logs", "random-stuff", "a.md", "file.md"]);
}

#[test]
fn visibility_respects_collapsed_state() {
    let nodes = vec![node("00_notes", true, 0, None, 0), node("note.md", false, 1, Some(0), 0)];
    let visible = get_visible_nodes(&nodes);
    assert!(visible.iter().all(|&i| nodes[i].depth == 0));
    let mut open = nodes;
    open[0].expanded = true;
    assert_eq!(get_visible_nodes(&open), vec![0, 1]);
}

#[test]
fn dir_flags_are_union_of_children() {
    let mut nodes = vec![
        node("d", true, 0, None, 16),
        node("a.md", false, 1, Some(0), 1),
        node("e", true, 1, Some(0), 0),
        node("b.md", false, 2, Some(2), 4),
    ];
    derive_dir_flags(&mut nodes);
    assert_eq!(nodes[2].flags, 4);
    assert_eq!(nodes[0].flags, 5);
    assert_eq!(nodes[1].flags, 1);
}

#[test]
fn tags_file_written_sorted_and_read_back() {
    let entries = vec![("zeta.md".to_string(), 3u8), ("none.md".to_string(), 0u8), ("alpha/x.md".to_string(), 17u8)];
    let (text, order) = tags_file_text(&entries);
    assert_eq!(text, "alpha/x.md:17\nzeta.md:3\n");
    assert_eq!(order, vec![2, 0]);
    let back = parse_tags(&text);
    assert_eq!(back, vec![("alpha/x.md".to_string(), 17u8), ("zeta.md".to_string(), 3u8)]);
    assert_eq!(lookup_tags(&back, "zeta.md"), Some(3));
    assert_eq!(lookup_tags(&back, "none.md"), None);
    let odd = parse_tags("a: +7 \nbad\nb:300\nc:x\nd:1\nd:2\n");
    assert_eq!(lookup_tags(&odd, "a"), Some(7));
    assert_eq!(lookup_tags(&odd, "b"), None);
    assert_eq!(lookup_tags(&odd, "d"), Some(2));
}

#[test]
fn tags_apply_by_relative_path() {
    let mut nodes = vec![node("a.md", false, 0, None, 8), node("b.md", false, 0, None, 8)];
    apply_tags(&mut nodes, "/r", &[("a.md".to_string(), 2u8)]);
    assert_eq!(nodes[0].flags, 2);
    assert_eq!(nodes[1].flags, 8);
}

#[test]
fn tree_keys_move_expand_and_open() {
    let nodes = vec![
        node("00_notes", true, 0, None, 0),
        node("note.md", false, 1, Some(0), 0),
        node("top.md", false, 0, None, 0),
    ];
    let mut ui = TreeUi::new(nodes);
    assert!(matches!(ui.handle_key(Key::Char('l'), false), TreeAction::Stay));
    assert!(ui.nodes[0].expanded);
    ui.handle_key(Key::Char('j'), false);
    assert_eq!(ui.selected, 1);
    match ui.handle_key(Key::Enter, false) {
        TreeAction::Open(p) => assert_eq!(p, "/r/note.md"),
        _ => panic!("expected to open the note"),
    }
    ui.handle_key(Key::Char('h'), false);
    assert!(matches!(ui.handle_key(Key::Char('q'), false), TreeAction::Quit));
}

#[test]
fn dir_flags_settle_after_one_pass() {
    let mut nodes = vec![
        node("d", true, 0, None, 0),
        node("e", true, 1, Some(0), 8),
        node("b.md", false, 2, Some(1), 2),
        node("c.md", false, 1, Some(0), 1),
    ];
    derive_dir_flags(&mut nodes);
    let once: Vec<u8> = nodes.iter().map(|n| n.flags).collect();
    assert_eq!(once, vec![3, 2, 2, 1]);
    derive_dir_flags(&mut nodes);
    let twice: Vec<u8> = nodes.iter().map(|n| n.flags).collect();
    assert_eq!(once, twice);
}

#[test]
fn tag_records_saved_next_to_top_directory() {
    let mut nodes = vec![
        TreeNode { path: "/home/n/00_a".into(), ..node("00_a", true, 0, None, 0) },
        TreeNode { path: "/home/n/00_a/x.md".into(), ..node("x.md", false, 1, Some(0), 4) },
        TreeNode { path: "/pub/p/y.md".into(), ..node("y.md", false, 0, None, 1) },
    ];
    nodes[0].flags = 4;
    let records = collect_tag_records(&nodes, "/fallback");
    assert_eq!(records.len(), 3);
    assert_eq!(records[0].root, "/home/n");
    assert_eq!(records[0].rel, "00_a");
    assert_eq!(records[1].rel, "00_a/x.md");
    assert_eq!(records[2].root, "/pub/p");
    assert_eq!(record_roots(&records), vec!["/home/n".to_string(), "/pub/p".to_string()]);
    let entries = tags_for_root(&records, "/home/n");
    assert_eq!(tags_file_text(&entries).0, "00_a:4\n00_a/x.md:4\n");
}
