use notez::numbering::collect_numbered_dirs;
use notez::project::{mirror_dir_to_home, mirror_file_to_home, HomeDirChoice};
use notez::sync::{is_mirrorable_entry, link_to_make, plan_project_sync, should_prune, ProjectPlan};
use notez::tree::{order_entries, DirEntry};

fn strings(v: &[&str]) -> Vec<String> {
    v.iter().map(|s| s.to_string()).collect()
}

fn links_of(plan: ProjectPlan) -> (Option<String>, Vec<String>) {
    match plan {
        ProjectPlan::Mirror { home, links } => {
            let dir = match home {
                HomeDirChoice::Existing(p) | HomeDirChoice::Create(p) => Some(p),
            };
            (dir, links.into_iter().map(|(_, l)| l).collect())
        }
        _ => (None, Vec::new()),
    }
}

fn mirrorable(entries: &[(&str, bool)], store: &str) -> Vec<String> {
    entries
        .iter()
        .filter(|(name, link)| is_mirrorable_entry(name, *link))
        .map(|(name, _)| format!("{}/{}", store, name))
        .collect()
}

#[test]
fn links_out_of_band_private_note() {
    let home = collect_numbered_dirs(strings(&["03_myrepo"]));
    let plan = plan_project_sync("myrepo", true, &strings(&["/t/myrepo/.notez/review.md"]), &home, "/t/notez", &[]);
    assert_eq!(links_of(plan), (Some("/t/notez/03_myrepo".to_string()), strings(&["/t/notez/03_myrepo/review.md"])));
}

#[test]
fn links_public_store_and_directories() {
    let home = collect_numbered_dirs(strings(&["00_myrepo"]));
    let entries = strings(&["/t/myrepo/.notez/00_quick-notes", "/t/myrepo/notez/public.md"]);
    let (_, links) = links_of(plan_project_sync("myrepo", true, &entries, &home, "/t/notez", &[]));
    assert_eq!(links, strings(&["/t/notez/00_myrepo/00_quick-notes", "/t/notez/00_myrepo/public.md"]));
}

#[test]
fn second_run_is_idempotent() {
    let entries = strings(&["/t/myrepo/.notez/note.md"]);
    let first = plan_project_sync("myrepo", true, &entries, &[], "/t/notez", &[]);
    let (dir, links) = links_of(first);
    assert_eq!(dir, Some("/t/notez/00_myrepo".to_string()));
    assert_eq!(links, strings(&["/t/notez/00_myrepo/note.md"]));
    let home = collect_numbered_dirs(strings(&["00_myrepo"]));
    let second = plan_project_sync("myrepo", true, &entries, &home, "/t/notez", &links);
    match second {
        ProjectPlan::Mirror { home: HomeDirChoice::Existing(p), links: again } => {
            assert_eq!(Some(p), dir);
            assert!(again.is_empty());
        }
        _ => panic!("expected the same directory and nothing to link"),
    }
}

#[test]
fn same_file_name_in_both_stores_links_once() {
    let entries = strings(&["/t/myrepo/.notez/todo.md", "/t/myrepo/notez/todo.md", "/t/myrepo/notez/b.md"]);
    let home = collect_numbered_dirs(strings(&["04_myrepo"]));
    let plan = plan_project_sync("myrepo", true, &entries, &home, "/t/notez", &strings(&["/t/notez/04_myrepo/b.md"]));
    match plan {
        ProjectPlan::Mirror { links, .. } => assert_eq!(
            links,
            vec![("/t/myrepo/.notez/todo.md".to_string(), "/t/notez/04_myrepo/todo.md".to_string())]
        ),
        _ => panic!("expected a mirror plan"),
    }
}

#[test]
fn allocates_home_dir_when_missing() {
    let (dir, links) = links_of(plan_project_sync("myrepo", true, &strings(&["/t/myrepo/.notez/note.md"]), &[], "/t/notez", &[]));
    assert_eq!(dir, Some("/t/notez/00_myrepo".to_string()));
    assert_eq!(links, strings(&["/t/notez/00_myrepo/note.md"]));
}

#[test]
fn skips_project_without_local_notes() {
    assert!(matches!(plan_project_sync("bare-repo", true, &[], &[], "/t/notez", &[]), ProjectPlan::Skip));
}

#[test]
fn skips_hidden_entries() {
    let entries = mirrorable(&[(".tags", false), ("note.md", false)], "/t/myrepo/.notez");
    assert_eq!(entries, strings(&["/t/myrepo/.notez/note.md"]));
}

#[test]
fn skips_symlinked_entries_in_local_store() {
    let entries = mirrorable(&[("12_gone", true), ("real.md", false)], "/t/myrepo/.notez");
    assert_eq!(entries, strings(&["/t/myrepo/.notez/real.md"]));
}

#[test]
fn reports_missing_project_path() {
    assert!(matches!(plan_project_sync("deleted-repo", false, &[], &[], "/t/notez", &[]), ProjectPlan::Missing));
}

#[test]
fn prunes_dangling_symlinks() {
    assert!(should_prune(true, false));
}

#[test]
fn keeps_valid_symlinks() {
    assert!(!should_prune(true, true));
    assert!(!should_prune(false, false));
}

#[test]
fn symlink_file_creates_link() {
    assert_eq!(mirror_file_to_home("/t/source/note.md", "/t/target"), Some("/t/target/note.md".to_string()));
}

#[test]
fn symlink_dir_creates_link() {
    assert_eq!(mirror_dir_to_home("/t/source/02_subdir", "/t/target"), Some("/t/target/02_subdir".to_string()));
}

#[test]
fn symlink_skips_if_already_exists() {
    let first = link_to_make("/t/source/note.md", "/t/target", &[]);
    assert_eq!(first, Some("/t/target/note.md".to_string()));
    let second = link_to_make("/t/source/note.md", "/t/target", &strings(&["/t/target/note.md"]));
    assert_eq!(second, None);
    assert_eq!(link_to_make("/", "/t/target", &[]), None);
}

#[test]
fn collect_tree_builds_nodes() {
    let es = vec![
        DirEntry { name: "00_quick-notes".into(), is_dir: true },
        DirEntry { name: "01_daily-logs".into(), is_dir: true },
        DirEntry { name: "random-stuff".into(), is_dir: true },
        DirEntry { name: "file.md".into(), is_dir: false },
    ];
    assert_eq!(order_entries(&es).len(), 4);
}
