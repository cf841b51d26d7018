use notez::cli::{route, Cli, Command, Route};
use notez::paths::{display_relative, path_join};
use notez::project::{
    gitignore_addition, gitignore_has_entry, header_text, local_notez_dir, mirror_file_to_home, resolve_daily_logs_dir,
    resolve_notez_dir, resolve_quick_notes_dir, tilde_path,
};
use notez::config::Config;
use notez::sync::{is_mirrorable_entry, plan_listed_project, plan_project_sync, should_prune, ProjectPlan};
use notez::project::HomeDirChoice;
use notez::numbering::collect_numbered_dirs;

fn strings(v: &[&str]) -> Vec<String> {
    v.iter().map(|s| s.to_string()).collect()
}

fn config() -> Config {
    Config {
        notez_root: "/home/u/notez".into(),
        quick_notes_dir: "00_quick-notes".into(),
        daily_logs_dir: "01_daily-logs".into(),
        editor: "vim".into(),
        has_fzf: false,
        has_rg: false,
        has_yazi: true,
    }
}

#[test]
fn commands_route_to_actions() {
    let r = route(Cli {
        help: false,
        global: false,
        command: Some(Command::Add { title: strings(&["my", "idea", "the body text"]), target: None }),
    });
    match r {
        Route::Add { title, target, body } => {
            assert_eq!(title, Some("my idea".to_string()));
            assert_eq!(target, None);
            assert_eq!(body, Some("the body text".to_string()));
        },
        _ => panic!("expected add"),
    }
    assert!(matches!(route(Cli { help: true, global: false, command: Some(Command::Tree) }), Route::Help));
    assert!(matches!(route(Cli { help: false, global: true, command: None }), Route::Browse));
    assert!(matches!(route(Cli { help: false, global: false, command: Some(Command::Zlogs) }), Route::Logz));
    assert!(matches!(
        route(Cli { help: false, global: false, command: Some(Command::Todoz) }),
        Route::Todo { item: None }
    ));
}

#[test]
fn scopes_resolve_directories() {
    let c = config();
    assert_eq!(local_notez_dir("/work/app", false), "/work/app/.notez");
    assert_eq!(local_notez_dir("/work/app", true), "/work/app/notez");
    assert_eq!(resolve_notez_dir(&c, "/work/app", true, false), "/home/u/notez");
    assert_eq!(resolve_quick_notes_dir(&c, "/work/app", false, true), "/work/app/notez/00_quick-notes");
    assert_eq!(resolve_daily_logs_dir(&c, "/work/app", true, false), "/home/u/notez/01_daily-logs");
}

#[test]
fn paths_join_and_display() {
    assert_eq!(path_join("/a", "b"), "/a/b");
    assert_eq!(path_join("/a/", "b"), "/a/b");
    assert_eq!(path_join("/a", "/b"), "/b");
    assert_eq!(display_relative("/r/x/y.md", "/r"), "x/y.md");
    assert_eq!(display_relative("/q/y.md", "/r"), "/q/y.md");
    assert_eq!(tilde_path("/home/u/notez", "/home/u"), "~/notez");
    assert_eq!(tilde_path("/srv/notez", "/home/u"), "/srv/notez");
    assert_eq!(header_text("X", "proj"), "X proj");
}

#[test]
fn gitignore_entries_recognised() {
    assert!(gitignore_has_entry("target\n .notez \n"));
    assert!(gitignore_has_entry(".notez/"));
    assert!(!gitignore_has_entry("notez\n.notez2\n"));
}

#[test]
fn gitignore_gets_its_own_line() {
    assert_eq!(gitignore_addition(Some("target\n.notez/\n")), "");
    assert_eq!(gitignore_addition(Some("target")), "\n.notez\n");
    assert_eq!(gitignore_addition(Some("target\n")), ".notez\n");
    assert_eq!(gitignore_addition(Some("")), ".notez\n");
    assert_eq!(gitignore_addition(None), ".notez\n");
}

#[test]
fn full_home_root_has_no_room() {
    let all: Vec<String> = (0..100).map(|n| format!("{:02}_p{}", n, n)).collect();
    let dirs = collect_numbered_dirs(all);
    assert!(!notez::project::home_dir_available_for(&dirs, "app"));
    assert!(notez::project::home_dir_available_for(&dirs, "p42"));
    match notez::project::ensure_home_dir_for(&dirs, "/h", "p42") {
        HomeDirChoice::Existing(p) => assert_eq!(p, "/h/42_p42"),
        _ => panic!("expected the existing directory"),
    }
    assert!(notez::project::home_dir_available_for(&collect_numbered_dirs(strings(&["00_x"])), "app"));
}

#[test]
fn mirror_links_under_home() {
    assert_eq!(mirror_file_to_home("/w/app/.notez/note.md", "/h/02_app"), Some("/h/02_app/note.md".to_string()));
}

#[test]
fn sync_plans_links() {
    assert!(is_mirrorable_entry("note.md", false));
    assert!(!is_mirrorable_entry(".hidden", false));
    assert!(!is_mirrorable_entry("link.md", true));
    assert!(should_prune(true, false));
    assert!(!should_prune(true, true));
    let home = collect_numbered_dirs(strings(&["00_quick-notes", "01_daily-logs"]));
    assert!(matches!(plan_project_sync("app", false, &[], &home, "/h", &[]), ProjectPlan::Missing));
    assert!(matches!(plan_project_sync("app", true, &[], &home, "/h", &[]), ProjectPlan::Skip));
    match plan_project_sync("app", true, &strings(&["/w/app/.notez/a.md"]), &home, "/h", &[]) {
        ProjectPlan::Mirror { home, links } => {
            match home {
                HomeDirChoice::Create(h) => assert_eq!(h, "/h/02_app"),
                _ => panic!("expected a new home directory"),
            }
            assert_eq!(links, vec![("/w/app/.notez/a.md".to_string(), "/h/02_app/a.md".to_string())]);
        },
        _ => panic!("expected a mirror plan"),
    }
    let with_app = collect_numbered_dirs(strings(&["00_quick-notes", "05_app"]));
    match plan_project_sync("app", true, &strings(&["/w/app/.notez/a.md"]), &with_app, "/h", &[]) {
        ProjectPlan::Mirror { home: HomeDirChoice::Existing(h), .. } => assert_eq!(h, "/h/05_app"),
        _ => panic!("expected the existing home directory"),
    }
}

#[test]
fn listed_project_needs_file_names() {
    let home = collect_numbered_dirs(strings(&["00_quick-notes"]));
    assert!(plan_listed_project("app", true, &strings(&["/"]), &home, "/h", &[]).is_none());
    match plan_listed_project("app", true, &strings(&["/w/app/notez/b.md"]), &home, "/h", &[]) {
        Some(ProjectPlan::Mirror { links, .. }) => assert_eq!(links[0].1, "/h/01_app/b.md"),
        _ => panic!("expected a mirror plan"),
    }
}

#[test]
fn created_home_dir_found_next_time() {
    let mut names = strings(&["00_quick-notes", "02_other"]);
    let first = notez::project::ensure_home_dir_for(&collect_numbered_dirs(names.clone()), "/h", "app");
    let created = match first {
        HomeDirChoice::Create(p) => p,
        _ => panic!("expected a new directory"),
    };
    assert_eq!(created, "/h/01_app");
    names.push("01_app".to_string());
    match notez::project::ensure_home_dir_for(&collect_numbered_dirs(names), "/h", "app") {
        HomeDirChoice::Existing(p) => assert_eq!(p, created),
        _ => panic!("expected the existing directory"),
    }
}
