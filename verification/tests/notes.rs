use notez::config::Config;
use notez::notes::{
    append_log_entry, browse_program, create_note_file, create_numbered_dir, fuzzy_filter, join_args,
    note_order, parse_shell, sanitize_title, search_strategy, split_title_body, SearchStrategy, ShellKind,
};
use notez::numbering::collect_numbered_dirs;

fn strings(v: &[&str]) -> Vec<String> {
    v.iter().map(|s| s.to_string()).collect()
}

#[test]
fn sanitizes_title() {
    assert_eq!(sanitize_title("My Cool Note"), "my-cool-note");
    assert_eq!(sanitize_title("hello world!"), "hello-world");
}

#[test]
fn creates_note_with_title() {
    let note = create_note_file("/tmp/notes", "2026-04-02", "my-idea", None);
    assert!(note.content.starts_with("# my-idea\n"));
    assert!(note.content.contains("Date: 2026-04-02"));
    assert_eq!(note.path, "/tmp/notes/2026-04-02-my-idea.md");
}

#[test]
fn creates_note_with_default_title() {
    let note = create_note_file("/tmp/notes", "2026-04-02", "untitled", None);
    assert!(note.path.ends_with("/2026-04-02-untitled.md"));
    assert_eq!(note.content, "# untitled\n\nDate: 2026-04-02\n\n");
}

#[test]
fn creates_note_with_body() {
    let note = create_note_file("/tmp/notes", "2026-04-02", "my-idea", Some("This is the note content"));
    assert!(note.content.contains("This is the note content"));
    assert_eq!(note.content, "# my-idea\n\nDate: 2026-04-02\n\nThis is the note content\n");
}

#[test]
fn creates_new_log_file_with_header() {
    let entry = append_log_entry("/tmp/logs", "2026-04-02", "10:30", "started working on notez", true);
    assert_eq!(entry.path, "/tmp/logs/2026-04-02-daily-log.md");
    assert!(entry.content.starts_with("# Daily Log - 2026-04-02\n"));
    assert!(entry.content.contains("10:30 - started working on notez"));
}

#[test]
fn appends_to_existing_log_file() {
    let first = append_log_entry("/tmp/logs", "2026-04-02", "10:30", "first entry", true);
    let second = append_log_entry("/tmp/logs", "2026-04-02", "11:00", "second entry", false);
    let content = format!("{}{}", first.content, second.content);
    assert_eq!(content.matches("# Daily Log").count(), 1);
    assert!(content.contains("10:30 - first entry"));
    assert!(content.contains("11:00 - second entry"));
    assert_eq!(second.content, "11:00 - second entry\n");
}

#[test]
fn creates_first_numbered_dir() {
    let result = create_numbered_dir(&[], "recipes");
    assert_eq!(result, Ok("00_recipes".to_string()));
}

#[test]
fn creates_sequential_numbered_dir() {
    let dirs = collect_numbered_dirs(strings(&["00_quick-notes", "01_daily-logs"]));
    let result = create_numbered_dir(&dirs, "recipes");
    assert_eq!(result, Ok("02_recipes".to_string()));
}

#[test]
fn sanitizes_dir_name() {
    let result = create_numbered_dir(&[], "Project Ideas");
    assert_eq!(result, Ok("00_project-ideas".to_string()));
}

#[test]
fn numbered_dir_refused_when_full() {
    let all: Vec<String> = (0..100).map(|n| format!("{:02}_d", n)).collect();
    let dirs = collect_numbered_dirs(all);
    assert_eq!(create_numbered_dir(&dirs, "x"), Err("all 100 directory slots (00-99) are taken".to_string()));
}

#[test]
fn fuzzy_match_filters_by_name() {
    let files = strings(&["/n/2026-04-02-api-design.md", "/n/2026-04-02-bug-fix.md", "/n/2026-04-01-meeting.md"]);
    let matches = fuzzy_filter(&files, "api").unwrap();
    assert_eq!(matches.len(), 1);
    assert!(matches[0].contains("api"));
}

#[test]
fn edit_fuzzy_match_partial() {
    let files = strings(&["/n/2026-04-02-api-design.md", "/n/2026-04-02-api-notes.md", "/n/2026-04-01-meeting.md"]);
    let matches = fuzzy_filter(&files, "API").unwrap();
    assert_eq!(matches.len(), 2);
}

#[test]
fn fuzzy_filter_looks_at_file_name_only() {
    let files = strings(&["/api/2026-04-01-meeting.md"]);
    assert_eq!(fuzzy_filter(&files, "api").unwrap().len(), 0);
}

#[test]
fn title_and_body_split() {
    assert_eq!(split_title_body(vec![]), (None, None));
    assert_eq!(
        split_title_body(strings(&["my", "idea", "this is the note"])),
        (Some("my idea".to_string()), Some("this is the note".to_string()))
    );
    assert_eq!(split_title_body(strings(&["just a body"])), (None, Some("just a body".to_string())));
    assert_eq!(join_args(&strings(&["a", "b", "c"])), "a b c");
}

#[test]
fn tools_pick_programs() {
    let c = Config {
        notez_root: "/r".into(),
        quick_notes_dir: "00_q".into(),
        daily_logs_dir: "01_d".into(),
        editor: "nvim".into(),
        has_fzf: false,
        has_rg: true,
        has_yazi: false,
    };
    assert_eq!(browse_program(&c), "nvim");
    assert_eq!(browse_program(&Config { has_yazi: true, ..c }), "yazi");
    assert_eq!(search_strategy(true, true), SearchStrategy::RgFzf);
    assert_eq!(search_strategy(true, false), SearchStrategy::Rg);
    assert_eq!(search_strategy(false, true), SearchStrategy::GrepFzf);
    assert_eq!(search_strategy(false, false), SearchStrategy::Grep);
    assert_eq!(parse_shell("ZSH"), Some(ShellKind::Zsh));
    assert_eq!(parse_shell("fish"), Some(ShellKind::Fish));
    assert_eq!(parse_shell("Bash"), Some(ShellKind::Bash));
    assert_eq!(parse_shell("pwsh"), None);
}

#[test]
fn notes_in_path_order() {
    let files = strings(&[
        "/r/b.md",
        "/r/a-c.md",
        "/r/a/z.md",
        "/r/readme.txt",
        "/r/.md",
        "/r/a/x.md",
        "/r/notes.MD",
    ]);
    let order: Vec<&str> = note_order(&files).into_iter().map(|i| files[i].as_str()).collect();
    assert_eq!(order, vec!["/r/a/x.md", "/r/a/z.md", "/r/a-c.md", "/r/b.md"]);
    let mut expected: Vec<std::path::PathBuf> = files
        .iter()
        .map(std::path::PathBuf::from)
        .filter(|p| p.extension().map_or(false, |e| e == "md"))
        .collect();
    expected.sort();
    let got: Vec<std::path::PathBuf> = order.iter().map(std::path::PathBuf::from).collect();
    assert_eq!(got, expected);
}
