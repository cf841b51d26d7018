use notez::config::{expand_tilde, expand_tilde_with, Config};
use notez::project::{detect_project_name, ProjectMapping};

#[test]
fn load_valid_config() {
    let content = "NOTEZ_ROOT=~/notes\nQUICK_NOTES_DIR=00_quick-notes\nDAILY_LOGS_DIR=01_daily-logs\nEDITOR=nvim\nHAS_FZF=true\nHAS_RG=true\nHAS_YAZI=false\n";
    let config = Config::load_with_home(Some(content), Some("/home/me")).unwrap();
    assert!(config.notez_root.ends_with("notes"));
    assert_eq!(config.notez_root, "/home/me/notes");
    assert_eq!(config.quick_notes_dir, "00_quick-notes");
    assert_eq!(config.daily_logs_dir, "01_daily-logs");
    assert_eq!(config.editor, "nvim");
    assert!(config.has_fzf);
    assert!(config.has_rg);
    assert!(!config.has_yazi);
}

#[test]
fn load_missing_config_returns_none() {
    let result = Config::load(None);
    assert!(result.is_none());
}

#[test]
fn save_and_reload_config() {
    let config = Config {
        notez_root: "/tmp/test-notes".into(),
        quick_notes_dir: "00_quick-notes".into(),
        daily_logs_dir: "01_daily-logs".into(),
        editor: "vim".into(),
        has_fzf: true,
        has_rg: false,
        has_yazi: true,
    };
    let text = config.save();
    let loaded = Config::load(Some(&text)).unwrap();
    assert_eq!(loaded.notez_root, config.notez_root);
    assert_eq!(loaded.editor, "vim");
    assert!(!loaded.has_rg);
}

#[test]
fn expand_tilde_in_root() {
    let expanded = expand_tilde("~/notes");
    assert!(!expanded.starts_with('~'));
    assert!(expanded.ends_with("notes"));
}

#[test]
fn expand_tilde_only_at_start() {
    assert_eq!(expand_tilde_with("~/a", Some("/h")), "/h/a");
    assert_eq!(expand_tilde_with("~", Some("/h")), "/h");
    assert_eq!(expand_tilde_with("~x/a", Some("/h")), "~x/a");
    assert_eq!(expand_tilde_with("/a/~", Some("/h")), "/a/~");
    assert_eq!(expand_tilde_with("~/a", None), "~/a");
}

#[test]
fn skips_comments_and_blank_lines() {
    let content = "# comment\n\nNOTEZ_ROOT=~/notes\nQUICK_NOTES_DIR=00_quick-notes\nDAILY_LOGS_DIR=01_daily-logs\nEDITOR=nvim\nHAS_FZF=true\nHAS_RG=true\nHAS_YAZI=true\n";
    let config = Config::load_with_home(Some(content), Some("/home/me")).unwrap();
    assert!(config.notez_root.ends_with("notes"));
    assert!(config.has_yazi);
}

#[test]
fn save_writes_every_key_and_reloads_exactly() {
    let config = Config {
        notez_root: "/srv/n".into(),
        quick_notes_dir: "00_q".into(),
        daily_logs_dir: "01_d".into(),
        editor: "code -w".into(),
        has_fzf: false,
        has_rg: true,
        has_yazi: false,
    };
    let text = config.save();
    assert_eq!(
        text,
        "NOTEZ_ROOT=/srv/n\nQUICK_NOTES_DIR=00_q\nDAILY_LOGS_DIR=01_d\nEDITOR=code -w\nHAS_FZF=false\nHAS_RG=true\nHAS_YAZI=false\n"
    );
    let back = Config::load_with_home(Some(&text), Some("/home/me")).unwrap();
    assert_eq!(back.notez_root, "/srv/n");
    assert_eq!(back.quick_notes_dir, "00_q");
    assert_eq!(back.daily_logs_dir, "01_d");
    assert_eq!(back.editor, "code -w");
    assert!(!back.has_fzf && back.has_rg && !back.has_yazi);
    assert_eq!(config.quick_notes_path(), "/srv/n/00_q");
    assert_eq!(config.daily_logs_path(), "/srv/n/01_d");
}

#[test]
fn detect_project_name_from_git() {
    let name = detect_project_name(Some("/home/u/Repos/My Repo"), "/home/u/Repos/My Repo/src");
    assert!(!name.is_empty());
    assert!(!name.contains(' '));
    assert_eq!(name, "my-repo");
}

#[test]
fn detect_project_name_no_git_uses_dir_name() {
    let name = detect_project_name(None, "/tmp/x/my-project");
    assert_eq!(name, "my-project");
    assert_eq!(detect_project_name(None, "/"), "unnamed");
}

#[test]
fn load_empty_project_mapping() {
    let mapping = ProjectMapping::load(None);
    assert!(mapping.projects().is_empty());
}

#[test]
fn save_and_reload_project_mapping() {
    let mut mapping = ProjectMapping::new();
    mapping.add("my-project", "/home/user/repos/my-project");
    let text = mapping.save();
    let loaded = ProjectMapping::load(Some(&text));
    assert_eq!(loaded.get_path("my-project"), Some("/home/user/repos/my-project".to_string()));
}

#[test]
fn mapping_reload_keeps_every_pair() {
    let mut mapping = ProjectMapping::new();
    mapping.add("a", "/p/a");
    mapping.add("b", "/p/b");
    mapping.add("a", "/p/a2");
    let text = mapping.save();
    assert_eq!(text, "a=/p/a2\nb=/p/b");
    let loaded = ProjectMapping::load(Some(&text));
    assert_eq!(loaded.get_path("a"), Some("/p/a2".to_string()));
    assert_eq!(loaded.get_path("b"), Some("/p/b".to_string()));
    assert_eq!(loaded.get_path("c"), None);
    let parsed = ProjectMapping::load(Some("# c\n\n x = /y \nnoequals\n"));
    assert_eq!(parsed.get_path("x"), Some("/y".to_string()));
    assert_eq!(parsed.projects().len(), 1);
}
