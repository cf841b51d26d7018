use notez::input::Key;
use notez::todo::{CheckState, TodoItem};
use notez::todo_edit::{delete_todo, insert_subtask, insert_todo, move_block_down, move_block_up, toggle_done, toggle_half};
use notez::todo_load::{
    assemble_global, assemble_local, code_todo_from_line, code_todos_from_output, hit_is_ok, quick_add, save_sources,
    TodoSource,
};
use notez::todo_ui::{TodoAction, TodoUi};

fn item(text: &str, depth: u8) -> TodoItem {
    TodoItem {
        text: text.into(),
        state: CheckState::Unchecked,
        source: "/p/TODO.md".into(),
        project: "p".into(),
        is_header: false,
        depth,
        has_subtasks: false,
        collapsed: false,
        is_code_todo: false,
        flags: 0,
    }
}

fn header(text: &str) -> TodoItem {
    TodoItem { is_header: true, ..item(text, 0) }
}

fn texts(items: &[TodoItem]) -> Vec<String> {
    items.iter().map(|i| i.text.clone()).collect()
}

#[test]
fn quick_add_appends_and_writes_file() {
    let (text, count) = quick_add(Some("# TODO\n\n- [x] old\n"), "new thing");
    assert_eq!(text, "# TODO\n\n- [x] old\n- [ ] new thing\n");
    assert_eq!(count, 2);
    let (t2, fresh) = quick_add(None, "first");
    assert_eq!(fresh, 1);
    assert_eq!(t2, "# TODO\n\n- [ ] first\n");
    let (t3, n3) = quick_add(Some("# Notes\nsome prose\n- [ ] a"), "b");
    assert_eq!(t3, "# Notes\nsome prose\n- [ ] a\n- [ ] b\n");
    assert_eq!(n3, 2);
    let (t4, n4) = quick_add(Some(""), "x");
    assert_eq!(t4, "- [ ] x\n");
    assert_eq!(n4, 1);
}

#[test]
fn code_todo_rows_from_search_hits() {
    let it = code_todo_from_line("src/main.rs:42:    // TODO: handle errors").unwrap();
    assert_eq!(it.text, "main.rs:42 handle errors");
    assert_eq!(it.source, "src/main.rs");
    assert!(it.is_code_todo);
    assert_eq!(it.project, "code");
    assert!(code_todo_from_line("no colons here").is_none());
    let long = format!("a.rs:1:// TODO {}", "x".repeat(70));
    let row = code_todo_from_line(&long).unwrap();
    assert!(row.text.ends_with('…'));
}

#[test]
fn save_writes_each_file_once() {
    let items = vec![item("a", 0), TodoItem { source: "/q/TODO.md".into(), ..item("b", 0) }, item("c", 0)];
    let canonical = vec!["/p/TODO.md".to_string(), "/q/TODO.md".to_string(), "/p/TODO.md".to_string()];
    assert_eq!(save_sources(&items, &canonical), vec!["/p/TODO.md".to_string(), "/q/TODO.md".to_string()]);
}

#[test]
fn editing_rows() {
    let mut items = vec![header("## P"), item("a", 0), item("b", 0)];
    toggle_done(&mut items, 1);
    assert_eq!(items[1].state, CheckState::Checked);
    toggle_half(&mut items, 2);
    assert_eq!(items[2].state, CheckState::Half);
    let at = insert_todo(&mut items, 1, "c", "/p/TODO.md", "p");
    assert_eq!(at, 3);
    assert_eq!(texts(&items), vec!["## P", "a", "b", "c"]);
    let sub = insert_subtask(&mut items, 1, "a.1");
    assert_eq!(items[sub].text, "a.1");
    assert_eq!(items[sub].depth, 1);
    assert_eq!(texts(&items), vec!["## P", "a", "a.1", "b", "c"]);
    assert_eq!(move_block_down(&mut items, 1), Some(2));
    assert_eq!(texts(&items), vec!["## P", "b", "a", "a.1", "c"]);
    assert_eq!(move_block_up(&mut items, 2), Some(1));
    assert_eq!(texts(&items), vec!["## P", "a", "a.1", "b", "c"]);
    delete_todo(&mut items, 4);
    assert_eq!(texts(&items), vec!["## P", "a", "a.1", "b"]);
}

#[test]
fn todo_view_keys() {
    let items = vec![header("## P"), item("a", 0), item("b", 0)];
    let mut ui = TodoUi::new(items, false);
    assert!(matches!(ui.handle_key(Key::Char('j'), false), TodoAction::Stay));
    assert!(matches!(ui.handle_key(Key::Char('x'), false), TodoAction::Stay));
    let checked = ui.items.iter().filter(|i| i.state == CheckState::Checked).count();
    assert_eq!(checked, 1);
    assert!(matches!(ui.handle_key(Key::Char('q'), false), TodoAction::Quit));
    assert!(matches!(ui.handle_key(Key::Char('j'), true), TodoAction::Quit));
}

#[test]
fn hits_checked_before_shortening() {
    assert!(hit_is_ok("a.rs:1:// TODO short"));
    assert!(hit_is_ok("no parts"));
    let cut_inside = format!("a.rs:1:// TODO {}é{}", "x".repeat(59), "y".repeat(5));
    assert!(!hit_is_ok(&cut_inside));
    let cut_between = format!("a.rs:1:// TODO {}é{}", "x".repeat(58), "y".repeat(5));
    assert!(hit_is_ok(&cut_between));
    let rows = code_todos_from_output("src/a.rs:3:# TODO: one
bad line
b.py:9:-- TODO two
");
    assert_eq!(texts(&rows), vec!["a.rs:3 one", "b.py:9 two"]);
}

fn source(name: &str, items: Vec<TodoItem>) -> TodoSource {
    TodoSource {
        name: name.into(),
        path: format!("/n/{}/TODO.md", name),
        canonical: format!("/n/{}/TODO.md", name),
        items,
    }
}

#[test]
fn global_view_sections_in_order() {
    let (rows, dir_order, cat_order) = assemble_global(
        "/n/TODO.md",
        vec![item("g", 0)],
        vec![source("02_web", vec![item("w", 0)]), source("01_app", vec![item("a", 0)]), source("03_none", vec![])],
        vec![source("work", vec![]), source("general", vec![item("c", 0)])],
        vec![],
    );
    assert_eq!(dir_order, vec![1, 0, 2]);
    assert_eq!(cat_order, vec![1, 0]);
    let heads: Vec<(String, bool)> = rows.iter().filter(|r| r.is_header).map(|r| (r.text.clone(), r.collapsed)).collect();
    assert_eq!(heads[0].0, "\u{f023} GLOBAL");
    assert_eq!(heads[1].0, "\u{f023} GENERAL");
    assert_eq!(heads[2].0, "\u{f023} WORK");
    assert_eq!(heads[3].0, "\u{f023} 01_app");
    assert_eq!(heads[4].0, "\u{f023} 02_web");
    assert_eq!(heads.len(), 5);
    assert!(heads.iter().all(|h| h.1));
}

#[test]
fn local_view_sections() {
    let rows = assemble_local("app", false, "/w/.notez/TODO.md", "/w/notez/TODO.md", vec![], vec![], vec![]);
    assert_eq!(rows.len(), 1);
    assert_eq!(rows[0].text, "\u{f023} app");
    assert!(rows[0].is_header);
    let code = code_todos_from_output("x.rs:1:// TODO a\n");
    let rows = assemble_local("app", true, "/w/.notez/TODO.md", "/w/notez/TODO.md", vec![], vec![item("p", 0)], code);
    let texts: Vec<String> = rows.iter().map(|r| r.text.clone()).collect();
    assert_eq!(texts, vec!["\u{f0ac} app", "p", "\u{f121} code TODOs  (1 found)", "x.rs:1 a"]);
}
